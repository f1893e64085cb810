use spawn_camp::color::{
    color_from_parsed, hex_prefixed, pack_565, parse_blend_mode, parse_hex_code, unpack_565,
    BlendMode, ConfigError, Rgb8, Rgba8,
};

#[test]
fn default_color_parses() {
    assert_eq!(parse_hex_code("#FF000080"), Ok(Rgba8 { r: 255, g: 0, b: 0, a: 128 }));
}

#[test]
fn hash_may_be_left_out() {
    assert_eq!(parse_hex_code("DDA0DD"), Ok(Rgba8 { r: 0xdd, g: 0xa0, b: 0xdd, a: 255 }));
    assert_eq!(hex_prefixed("0ff"), vec!['#', '0', 'f', 'f']);
    assert_eq!(hex_prefixed("#0ff"), vec!['#', '0', 'f', 'f']);
}

#[test]
fn shorthand_codes() {
    assert_eq!(parse_hex_code("#0FF"), Ok(Rgba8 { r: 0, g: 255, b: 255, a: 255 }));
    assert_eq!(parse_hex_code("#0FF8"), Ok(Rgba8 { r: 0, g: 255, b: 255, a: 0x88 }));
}

#[test]
fn bad_codes_are_rejected() {
    assert_eq!(parse_hex_code("#GG0000"), Err(ConfigError::InvalidColor));
    assert_eq!(parse_hex_code(""), Err(ConfigError::InvalidColor));
    assert_eq!(parse_hex_code("#12345"), Err(ConfigError::InvalidColor));
    assert_eq!(color_from_parsed(None), Err(ConfigError::InvalidColor));
    assert_eq!(color_from_parsed(Some((1, 2, 3, 4))), Ok(Rgba8 { r: 1, g: 2, b: 3, a: 4 }));
}

#[test]
fn blend_modes_in_any_case() {
    assert_eq!(parse_blend_mode("normal"), Ok(BlendMode::Normal));
    assert_eq!(parse_blend_mode("MULTIPLY"), Ok(BlendMode::Multiply));
    assert_eq!(parse_blend_mode("Multiply"), Ok(BlendMode::Multiply));
    assert_eq!(parse_blend_mode("screen"), Err(ConfigError::InvalidBlendMode));
    assert_eq!(parse_blend_mode("normal "), Err(ConfigError::InvalidBlendMode));
}

#[test]
fn five_six_five_channels() {
    assert_eq!(unpack_565(0xff, 0xff), Rgb8 { r: 255, g: 255, b: 255 });
    assert_eq!(unpack_565(0x00, 0xf8), Rgb8 { r: 255, g: 0, b: 0 });
    assert_eq!(unpack_565(0xe0, 0x07), Rgb8 { r: 0, g: 255, b: 0 });
    assert_eq!(unpack_565(0x10, 0x00), Rgb8 { r: 0, g: 0, b: 132 });
    assert_eq!(pack_565(Rgb8 { r: 255, g: 0, b: 0 }), (0x00, 0xf8));
    for v in [0u16, 1, 0x1234, 0x8000, 0xbeef, 0xffff] {
        let (lo, hi) = ((v & 0xff) as u8, (v >> 8) as u8);
        assert_eq!(pack_565(unpack_565(lo, hi)), (lo, hi));
    }
}
