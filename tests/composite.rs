use spawn_camp::bitmap::{Dimensions, LmPage, PixelFormat};
use spawn_camp::color::{BlendMode, Rgba8};
use spawn_camp::composite::{composite, CompositeError, Scale};

fn page_of(w: u16, h: u16, pixels: &[u16]) -> LmPage {
    let mut data = Vec::new();
    for p in pixels {
        data.push((p & 0xff) as u8);
        data.push((p >> 8) as u8);
    }
    LmPage { dimensions: Dimensions { w, h }, data_format: PixelFormat::R5G6B5, data }
}

fn overlay(n: usize, c: Rgba8) -> Vec<Rgba8> {
    vec![c; n]
}

const CLEAR: Rgba8 = Rgba8 { r: 0, g: 0, b: 0, a: 0 };

#[test]
fn transparent_multiply_keeps_page() {
    let original = page_of(2, 2, &[0x1234, 0xbeef, 0x0000, 0xffff]);
    let out = composite(&overlay(4, CLEAR), &original, Scale::X1, BlendMode::Multiply).unwrap();
    assert_eq!(out.dimensions, Dimensions { w: 2, h: 2 });
    assert_eq!(out.data_format, PixelFormat::R5G6B5);
    assert_eq!(out.data, original.data);
}

#[test]
fn transparent_normal_keeps_page() {
    let colored = Rgba8 { r: 10, g: 200, b: 30, a: 0 };
    let original = page_of(2, 1, &[0xf800, 0x07e0]);
    let out = composite(&overlay(2, colored), &original, Scale::X1, BlendMode::Normal).unwrap();
    assert_eq!(out.data, original.data);
}

#[test]
fn uniform_page_stays_uniform_when_scaled() {
    let original = page_of(2, 2, &[0x1234; 4]);
    let out = composite(&overlay(64, CLEAR), &original, Scale::X4, BlendMode::Multiply).unwrap();
    assert_eq!(out.dimensions, Dimensions { w: 8, h: 8 });
    assert_eq!(out.data.len(), 128);
    for px in out.data.chunks(2) {
        assert_eq!(px, &[0x34, 0x12]);
    }
}

#[test]
fn bilinear_between_texels() {
    // black and white texels side by side, doubled: the inner pixels mix them
    let original = page_of(2, 1, &[0x0000, 0xffff]);
    let out = composite(&overlay(8, CLEAR), &original, Scale::X2, BlendMode::Normal).unwrap();
    let row: Vec<u16> = out.data.chunks(2).take(4).map(|p| p[0] as u16 | (p[1] as u16) << 8).collect();
    assert_eq!(row[0], 0x0000);
    assert_eq!(row[3], 0xffff);
    // a quarter of the way: 255 / 4 rounds to 64, three quarters to 191
    assert_eq!(row[1], (64 / 8) << 11 | (64 / 4) << 5 | (64 / 8));
    assert_eq!(row[2], (191 / 8) << 11 | (191 / 4) << 5 | (191 / 8));
}

#[test]
fn opaque_normal_shows_overlay() {
    let original = page_of(1, 1, &[0x1234]);
    let red = Rgba8 { r: 255, g: 0, b: 0, a: 255 };
    let out = composite(&overlay(1, red), &original, Scale::X1, BlendMode::Normal).unwrap();
    assert_eq!(out.data, vec![0x00, 0xf8]);
}

#[test]
fn half_alpha_normal_mixes() {
    let original = page_of(1, 1, &[0x0000]);
    let white = Rgba8 { r: 255, g: 255, b: 255, a: 128 };
    let out = composite(&overlay(1, white), &original, Scale::X1, BlendMode::Normal).unwrap();
    // (255 * 128 + 127) / 255 = 128 in each channel
    let v: u16 = (128 / 8) << 11 | (128 / 4) << 5 | (128 / 8);
    assert_eq!(out.data, vec![(v & 0xff) as u8, (v >> 8) as u8]);
}

#[test]
fn opaque_multiply_scales_page() {
    let original = page_of(1, 1, &[0xffff]);
    let white = Rgba8 { r: 255, g: 255, b: 255, a: 255 };
    let black = Rgba8 { r: 0, g: 0, b: 0, a: 255 };
    let red = Rgba8 { r: 255, g: 0, b: 0, a: 255 };
    assert_eq!(composite(&overlay(1, white), &original, Scale::X1, BlendMode::Multiply).unwrap().data, vec![0xff, 0xff]);
    assert_eq!(composite(&overlay(1, black), &original, Scale::X1, BlendMode::Multiply).unwrap().data, vec![0, 0]);
    assert_eq!(composite(&overlay(1, red), &original, Scale::X1, BlendMode::Multiply).unwrap().data, vec![0x00, 0xf8]);
}

#[test]
fn other_formats_are_unsupported() {
    let mut original = page_of(1, 1, &[0x1234]);
    original.data_format = PixelFormat::A8R8G8B8;
    original.data = vec![0; 4];
    assert_eq!(
        composite(&overlay(1, CLEAR), &original, Scale::X1, BlendMode::Normal).err(),
        Some(CompositeError::UnsupportedFormat)
    );
}

#[test]
fn malformed_and_mismatched_inputs() {
    let mut short = page_of(2, 2, &[0; 4]);
    short.data.pop();
    assert_eq!(
        composite(&overlay(4, CLEAR), &short, Scale::X1, BlendMode::Normal).err(),
        Some(CompositeError::MalformedPage)
    );
    let original = page_of(2, 2, &[0; 4]);
    assert_eq!(
        composite(&overlay(5, CLEAR), &original, Scale::X1, BlendMode::Normal).err(),
        Some(CompositeError::OverlaySize)
    );
    let wide = LmPage { dimensions: Dimensions { w: 8192, h: 0 }, data_format: PixelFormat::R5G6B5, data: Vec::new() };
    assert_eq!(
        composite(&Vec::new(), &wide, Scale::X16, BlendMode::Normal).err(),
        Some(CompositeError::TooLarge)
    );
}

#[test]
fn scale_factors() {
    assert_eq!(Scale::from_factor(4), Some(Scale::X4));
    assert_eq!(Scale::from_factor(16).map(|s| s.factor()), Some(16));
    assert_eq!(Scale::from_factor(3), None);
    assert_eq!(Scale::from_factor(0), None);
}
