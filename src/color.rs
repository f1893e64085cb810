use vstd::prelude::*;
use vstd::string::StrSliceExecFns;
use vstd::arithmetic::div_mod::lemma_fundamental_div_mod_converse;

verus! {

/// A color with 8-bit red, green, blue and alpha channels.
#[derive(Clone, Copy, PartialEq, Eq, Structural, Debug)]
pub struct Rgba8 {
    pub r: u8,
    pub g: u8,
    pub b: u8,
    pub a: u8,
}

/// A color with 8-bit red, green and blue channels.
#[derive(Clone, Copy, PartialEq, Eq, Structural, Debug)]
pub struct Rgb8 {
    pub r: u8,
    pub g: u8,
    pub b: u8,
}

/// How the overlay is laid over the baked lightmap.
#[derive(Clone, Copy, PartialEq, Eq, Structural, Debug)]
pub enum BlendMode {
    /// Mix from the lightmap towards the overlay color by the overlay's alpha.
    Normal,
    /// Multiply the lightmap by the overlay color, weighted by the overlay's alpha.
    Multiply,
}

#[derive(Clone, Copy, PartialEq, Eq, Structural, Debug)]
pub enum ConfigError {
    /// The text is not an RGB(A) hex color code.
    InvalidColor,
    /// The text names no blend mode.
    InvalidBlendMode,
}

/// What `hex_color` parses out of a hex code: red, green, blue and alpha.
pub uninterp spec fn hex_color_parse(s: Seq<char>) -> Option<(u8, u8, u8, u8)>;

/// The value of a hexadecimal digit in either case, or -1.
pub open spec fn hex_value(c: char) -> int {
    if '0' <= c && c <= '9' {
        c as int - '0' as int
    } else if 'a' <= c && c <= 'f' {
        c as int - 'a' as int + 10
    } else if 'A' <= c && c <= 'F' {
        c as int - 'A' as int + 10
    } else {
        -1
    }
}

/// `#` followed by three, four, six or eight hexadecimal digits.
pub open spec fn hex_code(s: Seq<char>) -> bool {
    &&& s.len() == 4 || s.len() == 5 || s.len() == 7 || s.len() == 9
    &&& s[0] == '#'
    &&& forall|i: int| 1 <= i < s.len() ==> hex_value(#[trigger] s[i]) >= 0
}

/// Channel `k` of a hex code: one digit repeated, or two digits.
pub open spec fn hex_channel(s: Seq<char>, k: int) -> u8 {
    if s.len() <= 5 {
        (hex_value(s[1 + k]) * 17) as u8
    } else {
        (hex_value(s[1 + 2 * k]) * 16 + hex_value(s[2 + 2 * k])) as u8
    }
}

/// The color a hex code spells; without an alpha digit, fully opaque.
pub open spec fn hex_decode(s: Seq<char>) -> (u8, u8, u8, u8) {
    (
        hex_channel(s, 0),
        hex_channel(s, 1),
        hex_channel(s, 2),
        if s.len() == 5 || s.len() == 9 {
            hex_channel(s, 3)
        } else {
            255
        },
    )
}

/// Relies on `hex_color::HexColor::parse`, which reads `#RGB`, `#RGBA`,
/// `#RRGGBB` or `#RRGGBBAA` in either case, a shorthand digit standing for
/// itself twice and a missing alpha for 255, and fails on empty text and on
/// text that does not start with `#`.
#[verifier::external_body]
fn parse_hex_chars(chars: &Vec<char>) -> (r: Option<(u8, u8, u8, u8)>)
    ensures
        r == hex_color_parse(chars@),
        hex_code(chars@) ==> r == Some(hex_decode(chars@)),
        chars@.len() == 0 ==> r is None,
        chars@.len() > 0 && chars@[0] != '#' ==> r is None,
{
    let s: String = chars.iter().collect();
    hex_color::HexColor::parse(&s).ok().map(|c| (c.r, c.g, c.b, c.a))
}

pub open spec fn with_hash(s: Seq<char>) -> Seq<char> {
    if s.len() > 0 && s[0] == '#' {
        s
    } else {
        seq!['#'] + s
    }
}

pub open spec fn color_of(parsed: Option<(u8, u8, u8, u8)>) -> Result<Rgba8, ConfigError> {
    match parsed {
        Some(t) => Ok(Rgba8 { r: t.0, g: t.1, b: t.2, a: t.3 }),
        None => Err(ConfigError::InvalidColor),
    }
}

/// The characters of `raw`, with a leading `#` added where it has none.
pub fn hex_prefixed(raw: &str) -> (r: Vec<char>)
    ensures
        r@ == with_hash(raw@),
{
    let n = raw.unicode_len();
    let mut r: Vec<char> = Vec::new();
    if n == 0 || raw.get_char(0) != '#' {
        r.push('#');
    }
    let ghost start = r@;
    let mut i: usize = 0;
    while i < n
        invariant
            i <= n == raw@.len(),
            r@ == start + raw@.subrange(0, i as int),
        decreases n - i,
    {
        r.push(raw.get_char(i));
        assert(raw@.subrange(0, i + 1) == raw@.subrange(0, i as int).push(raw@[i as int]));
        i = i + 1;
    }
    assert(raw@.subrange(0, n as int) == raw@);
    proof {
        if raw@.len() > 0 && raw@[0] == '#' {
            assert(start == Seq::<char>::empty());
            assert(r@ == raw@);
        }
    }
    r
}

/// The color that a parsed hex code gives, or the error when it did not parse.
pub fn color_from_parsed(parsed: Option<(u8, u8, u8, u8)>) -> (r: Result<Rgba8, ConfigError>)
    ensures
        r == color_of(parsed),
{
    match parsed {
        Some((r, g, b, a)) => Ok(Rgba8 { r, g, b, a }),
        None => Err(ConfigError::InvalidColor),
    }
}

/// Parses an RGB(A) hex color code; the leading `#` may be left out.
pub fn parse_hex_code(raw: &str) -> (r: Result<Rgba8, ConfigError>)
    ensures
        r == color_of(hex_color_parse(with_hash(raw@))),
        hex_code(with_hash(raw@)) ==> r == color_of(Some(hex_decode(with_hash(raw@)))),
{
    let chars = hex_prefixed(raw);
    color_from_parsed(parse_hex_chars(&chars))
}

pub open spec fn ascii_lower(c: char) -> char {
    if 'A' <= c && c <= 'Z' {
        ((c as u8) + 32) as char
    } else {
        c
    }
}

pub open spec fn lower_seq(s: Seq<char>) -> Seq<char> {
    s.map_values(|c: char| ascii_lower(c))
}

pub open spec fn normal_word() -> Seq<char> {
    seq!['n', 'o', 'r', 'm', 'a', 'l']
}

pub open spec fn multiply_word() -> Seq<char> {
    seq!['m', 'u', 'l', 't', 'i', 'p', 'l', 'y']
}

pub fn to_ascii_lower(c: char) -> (r: char)
    ensures
        r == ascii_lower(c),
{
    if 'A' <= c && c <= 'Z' {
        ((c as u8) + 32) as char
    } else {
        c
    }
}

/// Whether `raw`, with ASCII letters taken in either case, is `word`.
fn equals_ignoring_case(raw: &str, word: &Vec<char>) -> (r: bool)
    ensures
        r == (lower_seq(raw@) == word@),
{
    let n = raw.unicode_len();
    if n != word.len() {
        return false;
    }
    let mut i: usize = 0;
    while i < n
        invariant
            i <= n == raw@.len() == word@.len(),
            forall|j: int| 0 <= j < i ==> ascii_lower(#[trigger] raw@[j]) == word@[j],
        decreases n - i,
    {
        if to_ascii_lower(raw.get_char(i)) != word[i] {
            assert(lower_seq(raw@)[i as int] != word@[i as int]);
            return false;
        }
        i = i + 1;
    }
    assert(lower_seq(raw@) == word@);
    true
}

/// Parses a blend mode name, in any case.
pub fn parse_blend_mode(raw: &str) -> (r: Result<BlendMode, ConfigError>)
    ensures
        r == (if lower_seq(raw@) == normal_word() {
            Ok(BlendMode::Normal)
        } else if lower_seq(raw@) == multiply_word() {
            Ok(BlendMode::Multiply)
        } else {
            Err(ConfigError::InvalidBlendMode)
        }),
{
    let normal: Vec<char> = vec!['n', 'o', 'r', 'm', 'a', 'l'];
    let multiply: Vec<char> = vec!['m', 'u', 'l', 't', 'i', 'p', 'l', 'y'];
    assert(normal@ == normal_word());
    assert(multiply@ == multiply_word());
    if equals_ignoring_case(raw, &normal) {
        Ok(BlendMode::Normal)
    } else if equals_ignoring_case(raw, &multiply) {
        Ok(BlendMode::Multiply)
    } else {
        Err(ConfigError::InvalidBlendMode)
    }
}

/// Widens a 5-bit channel to 8 bits, repeating its high bits in the low ones.
pub open spec fn widen5(v: int) -> int {
    v * 8 + v / 4
}

/// Widens a 6-bit channel to 8 bits, repeating its high bits in the low ones.
pub open spec fn widen6(v: int) -> int {
    v * 4 + v / 16
}

/// The color of a 16-bit 5-6-5 pixel stored low byte first.
pub open spec fn unpack565(lo: u8, hi: u8) -> Rgb8 {
    let v = hi as int * 256 + lo as int;
    Rgb8 {
        r: widen5(v / 2048) as u8,
        g: widen6((v / 32) % 64) as u8,
        b: widen5(v % 32) as u8,
    }
}

/// The 16-bit 5-6-5 value of a color: the high bits of each channel.
pub open spec fn pack565(c: Rgb8) -> int {
    (c.r as int / 8) * 2048 + (c.g as int / 4) * 32 + (c.b as int / 8)
}

pub fn unpack_565(lo: u8, hi: u8) -> (r: Rgb8)
    ensures
        r == unpack565(lo, hi),
{
    let v: u32 = hi as u32 * 256 + lo as u32;
    let r5 = v / 2048;
    let g6 = (v / 32) % 64;
    let b5 = v % 32;
    Rgb8 { r: (r5 * 8 + r5 / 4) as u8, g: (g6 * 4 + g6 / 16) as u8, b: (b5 * 8 + b5 / 4) as u8 }
}

/// The two bytes, low byte first, of the 5-6-5 value of a color.
pub fn pack_565(c: Rgb8) -> (r: (u8, u8))
    ensures
        r.0 as int == pack565(c) % 256,
        r.1 as int == pack565(c) / 256,
{
    let v: u32 = (c.r as u32 / 8) * 2048 + (c.g as u32 / 4) * 32 + (c.b as u32 / 8);
    ((v % 256) as u8, (v / 256) as u8)
}

proof fn lemma_widen5(x: int)
    requires
        0 <= x < 32,
    ensures
        0 <= widen5(x) < 256,
        widen5(x) / 8 == x,
{
}

proof fn lemma_widen6(x: int)
    requires
        0 <= x < 64,
    ensures
        0 <= widen6(x) < 256,
        widen6(x) / 4 == x,
{
}

proof fn lemma_split565(v: int)
    requires
        0 <= v < 65536,
    ensures
        0 <= v / 2048 < 32,
        0 <= (v / 32) % 64 < 64,
        0 <= v % 32 < 32,
        (v / 2048) * 2048 + ((v / 32) % 64) * 32 + v % 32 == v,
{
    assert((v / 2048) * 2048 + ((v / 32) % 64) * 32 + v % 32 == v) by (nonlinear_arith)
        requires
            0 <= v < 65536,
    ;
}

/// Widening a 5-6-5 pixel to 8-bit channels and packing it again gives the
/// same two bytes.
pub proof fn lemma_565_round_trip(lo: u8, hi: u8)
    ensures
        pack565(unpack565(lo, hi)) % 256 == lo,
        pack565(unpack565(lo, hi)) / 256 == hi,
{
    let v = hi as int * 256 + lo as int;
    lemma_split565(v);
    lemma_widen5(v / 2048);
    lemma_widen6((v / 32) % 64);
    lemma_widen5(v % 32);
    let c = unpack565(lo, hi);
    assert(c.r as int / 8 == v / 2048);
    assert(c.g as int / 4 == (v / 32) % 64);
    assert(c.b as int / 8 == v % 32);
    assert(pack565(c) == v);
    lemma_fundamental_div_mod_converse(v, 256, hi as int, lo as int);
}

} // verus!
