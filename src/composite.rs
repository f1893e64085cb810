use vstd::prelude::*;
use crate::bitmap::{Dimensions, LmPage, PixelFormat};
use crate::color::{BlendMode, Rgb8, Rgba8, pack565, unpack565, pack_565, unpack_565};

verus! {

/// How many times the overlay's resolution is the baked page's.
#[derive(Clone, Copy, PartialEq, Eq, Structural, Debug)]
pub enum Scale {
    X1,
    X2,
    X4,
    X8,
    X16,
}

impl Scale {
    pub open spec fn spec_factor(self) -> int {
        match self {
            Scale::X1 => 1,
            Scale::X2 => 2,
            Scale::X4 => 4,
            Scale::X8 => 8,
            Scale::X16 => 16,
        }
    }

    pub fn factor(self) -> (r: u16)
        ensures
            r == self.spec_factor(),
    {
        match self {
            Scale::X1 => 1,
            Scale::X2 => 2,
            Scale::X4 => 4,
            Scale::X8 => 8,
            Scale::X16 => 16,
        }
    }

    /// The scale with this factor, if it is one of 1, 2, 4, 8 and 16.
    pub fn from_factor(n: u16) -> (r: Option<Scale>)
        ensures
            r matches Some(s) ==> s.spec_factor() == n,
            r is None <==> !(n == 1 || n == 2 || n == 4 || n == 8 || n == 16),
    {
        match n {
            1 => Some(Scale::X1),
            2 => Some(Scale::X2),
            4 => Some(Scale::X4),
            8 => Some(Scale::X8),
            16 => Some(Scale::X16),
            _ => None,
        }
    }
}

#[derive(Clone, Copy, PartialEq, Eq, Structural, Debug)]
pub enum CompositeError {
    /// The baked page is not stored as 5-6-5 pixels.
    UnsupportedFormat,
    /// The baked page's bytes do not match its dimensions.
    MalformedPage,
    /// The scaled dimensions do not fit a `u16`.
    TooLarge,
    /// The overlay does not hold one pixel per pixel of the scaled page.
    OverlaySize,
}

/// Where output pixel `x` samples the source row or column of `n` texels at
/// `s` times the resolution: the two texels around the sample point and the
/// sample's distance past the first, in units of `1/(2s)` texel. Samples
/// before the first texel center and after the last one clamp to the edge.
pub open spec fn sample_at(x: int, s: int, n: int) -> (int, int, int) {
    let f = 2 * x + 1 - s;
    if f < 0 {
        (0, 0, 0)
    } else {
        let i0 = f / (2 * s);
        let i1 = if i0 + 1 < n {
            i0 + 1
        } else {
            n - 1
        };
        (i0, i1, f % (2 * s))
    }
}

/// Bilinear mix of four values by weights `fx / d` and `fy / d`, rounded.
pub open spec fn mix4(a00: int, a10: int, a01: int, a11: int, fx: int, fy: int, d: int) -> int {
    (a00 * (d - fx) * (d - fy) + a10 * fx * (d - fy) + a01 * (d - fx) * fy + a11 * fx * fy + d * d
        / 2) / (d * d)
}

pub open spec fn texel(data: Seq<u8>, w: int, i: int, j: int) -> Rgb8 {
    unpack565(data[2 * (j * w + i)], data[2 * (j * w + i) + 1])
}

/// The baked page's color at output pixel (`x`, `y`), sampled bilinearly.
pub open spec fn resample(data: Seq<u8>, d: Dimensions, s: int, x: int, y: int) -> Rgb8 {
    let (i0, i1, fx) = sample_at(x, s, d.w as int);
    let (j0, j1, fy) = sample_at(y, s, d.h as int);
    let c00 = texel(data, d.w as int, i0, j0);
    let c10 = texel(data, d.w as int, i1, j0);
    let c01 = texel(data, d.w as int, i0, j1);
    let c11 = texel(data, d.w as int, i1, j1);
    Rgb8 {
        r: mix4(c00.r as int, c10.r as int, c01.r as int, c11.r as int, fx, fy, 2 * s) as u8,
        g: mix4(c00.g as int, c10.g as int, c01.g as int, c11.g as int, fx, fy, 2 * s) as u8,
        b: mix4(c00.b as int, c10.b as int, c01.b as int, c11.b as int, fx, fy, 2 * s) as u8,
    }
}

pub open spec fn blend_channel(o: int, c: int, a: int, mode: BlendMode) -> int {
    match mode {
        BlendMode::Normal => (o * (255 - a) + c * a + 127) / 255,
        BlendMode::Multiply => (o * (65025 - a * (255 - c)) + 32512) / 65025,
    }
}

pub open spec fn blend(o: Rgb8, ov: Rgba8, mode: BlendMode) -> Rgb8 {
    Rgb8 {
        r: blend_channel(o.r as int, ov.r as int, ov.a as int, mode) as u8,
        g: blend_channel(o.g as int, ov.g as int, ov.a as int, mode) as u8,
        b: blend_channel(o.b as int, ov.b as int, ov.a as int, mode) as u8,
    }
}

/// Byte `k` of a stream of 5-6-5 pixels, low byte first, for pixel color `c`.
pub open spec fn out_byte(c: Rgb8, k: int) -> u8 {
    if k % 2 == 0 {
        (pack565(c) % 256) as u8
    } else {
        (pack565(c) / 256) as u8
    }
}

/// The bytes of the composited page: each output pixel, row by row, is the
/// resampled baked color blended with the overlay pixel, packed as 5-6-5.
#[verifier::opaque]
pub open spec fn composited(
    ov: Seq<Rgba8>,
    data: Seq<u8>,
    d: Dimensions,
    s: int,
    mode: BlendMode,
) -> Seq<u8> {
    let w = d.w * s;
    Seq::new(
        (2 * w * (d.h * s)) as nat,
        |k: int|
            out_byte(blend(resample(data, d, s, (k / 2) % w, (k / 2) / w), ov[k / 2], mode), k),
    )
}

/// The bytes of the baked page resampled to `s` times its resolution.
pub open spec fn resampled(data: Seq<u8>, d: Dimensions, s: int) -> Seq<u8> {
    let w = d.w * s;
    Seq::new(
        (2 * w * (d.h * s)) as nat,
        |k: int| out_byte(resample(data, d, s, (k / 2) % w, (k / 2) / w), k),
    )
}

fn sample(x: u32, s: u32, n: u32) -> (r: (u32, u32, u32))
    requires
        1 <= s <= 16,
        1 <= n <= 65535,
        x < n * s,
    ensures
        r.0 == sample_at(x as int, s as int, n as int).0,
        r.1 == sample_at(x as int, s as int, n as int).1,
        r.2 == sample_at(x as int, s as int, n as int).2,
        r.0 < n,
        r.1 < n,
        r.2 < 2 * s,
{
    assert(x < 65535 * 16) by (nonlinear_arith)
        requires
            x < n * s,
            n <= 65535,
            s <= 16,
    ;
    if 2 * x + 1 < s {
        (0, 0, 0)
    } else {
        let f = 2 * x + 1 - s;
        let i0 = f / (2 * s);
        let ghost fi = f as int;
        let ghost si = s as int;
        let ghost xi = x as int;
        let ghost ni = n as int;
        assert(fi / (2 * si) < ni) by (nonlinear_arith)
            requires
                0 <= fi <= 2 * xi + 1 - si,
                xi < ni * si,
                1 <= si,
        ;
        let i1 = if i0 + 1 < n {
            i0 + 1
        } else {
            n - 1
        };
        (i0, i1, f % (2 * s))
    }
}

proof fn lemma_weighted(a: int, w: int)
    requires
        0 <= a <= 255,
        0 <= w,
    ensures
        0 <= a * w <= 255 * w,
{
    assert(0 <= a * w <= 255 * w) by (nonlinear_arith)
        requires
            0 <= a <= 255,
            0 <= w,
    ;
}

proof fn lemma_mix_bound(a00: int, a10: int, a01: int, a11: int, fx: int, fy: int, d: int)
    requires
        0 <= a00 <= 255,
        0 <= a10 <= 255,
        0 <= a01 <= 255,
        0 <= a11 <= 255,
        0 <= fx < d,
        0 <= fy < d,
        2 <= d <= 32,
    ensures
        0 <= a00 * ((d - fx) * (d - fy)) + a10 * (fx * (d - fy)) + a01 * ((d - fx) * fy) + a11 * (
        fx * fy) <= 255 * (d * d),
        a00 * ((d - fx) * (d - fy)) + a10 * (fx * (d - fy)) + a01 * ((d - fx) * fy) + a11 * (fx
            * fy) == a00 * (d - fx) * (d - fy) + a10 * fx * (d - fy) + a01 * (d - fx) * fy + a11
            * fx * fy,
        0 <= mix4(a00, a10, a01, a11, fx, fy, d) <= 255,
        (d - fx) * (d - fy) <= 1024,
        fx * (d - fy) <= 1024,
        (d - fx) * fy <= 1024,
        fx * fy <= 1024,
        4 <= d * d <= 1024,
{
    let w00 = (d - fx) * (d - fy);
    let w10 = fx * (d - fy);
    let w01 = (d - fx) * fy;
    let w11 = fx * fy;
    assert(w00 + w10 + w01 + w11 == d * d) by (nonlinear_arith)
        requires
            w00 == (d - fx) * (d - fy),
            w10 == fx * (d - fy),
            w01 == (d - fx) * fy,
            w11 == fx * fy,
    ;
    assert(0 <= w00 && 0 <= w10 && 0 <= w01 && 0 <= w11 && w00 <= 1024 && w10 <= 1024 && w01
        <= 1024 && w11 <= 1024 && d * d <= 1024) by (nonlinear_arith)
        requires
            0 <= fx < d,
            0 <= fy < d,
            d <= 32,
            w00 == (d - fx) * (d - fy),
            w10 == fx * (d - fy),
            w01 == (d - fx) * fy,
            w11 == fx * fy,
    ;
    lemma_weighted(a00, w00);
    lemma_weighted(a10, w10);
    lemma_weighted(a01, w01);
    lemma_weighted(a11, w11);
    assert(a00 * w00 == a00 * (d - fx) * (d - fy)) by (nonlinear_arith)
        requires
            w00 == (d - fx) * (d - fy),
    ;
    assert(a10 * w10 == a10 * fx * (d - fy)) by (nonlinear_arith)
        requires
            w10 == fx * (d - fy),
    ;
    assert(a01 * w01 == a01 * (d - fx) * fy) by (nonlinear_arith)
        requires
            w01 == (d - fx) * fy,
    ;
    assert(a11 * w11 == a11 * fx * fy) by (nonlinear_arith)
        requires
            w11 == fx * fy,
    ;
    let t = a00 * w00 + a10 * w10 + a01 * w01 + a11 * w11;
    let dd = d * d;
    assert(4 <= dd) by (nonlinear_arith)
        requires
            2 <= d,
            dd == d * d,
    ;
    assert(0 <= (t + dd / 2) / dd <= 255) by (nonlinear_arith)
        requires
            0 <= t <= 255 * dd,
            4 <= dd,
    ;
}

fn mix(a00: u8, a10: u8, a01: u8, a11: u8, fx: u32, fy: u32, d: u32) -> (r: u8)
    requires
        fx < d,
        fy < d,
        2 <= d <= 32,
    ensures
        r == mix4(a00 as int, a10 as int, a01 as int, a11 as int, fx as int, fy as int, d as int),
{
    proof {
        lemma_mix_bound(
            a00 as int,
            a10 as int,
            a01 as int,
            a11 as int,
            fx as int,
            fy as int,
            d as int,
        );
    }
    let dd = d * d;
    let t = a00 as u32 * ((d - fx) * (d - fy)) + a10 as u32 * (fx * (d - fy)) + a01 as u32 * ((d
        - fx) * fy) + a11 as u32 * (fx * fy);
    ((t + dd / 2) / dd) as u8
}

fn blend_one(o: u8, c: u8, a: u8, mode: BlendMode) -> (r: u8)
    ensures
        r == blend_channel(o as int, c as int, a as int, mode),
{
    let o = o as u32;
    let c = c as u32;
    let a = a as u32;
    match mode {
        BlendMode::Normal => {
            assert(o * (255 - a) <= 255 * 255 && c * a <= 255 * 255) by (nonlinear_arith)
                requires
                    o <= 255,
                    c <= 255,
                    a <= 255,
            ;
            assert(o * (255 - a) + c * a <= 255 * 255) by (nonlinear_arith)
                requires
                    o <= 255,
                    c <= 255,
                    a <= 255,
            ;
            ((o * (255 - a) + c * a + 127) / 255) as u8
        },
        BlendMode::Multiply => {
            assert(a * (255 - c) <= 65025) by (nonlinear_arith)
                requires
                    c <= 255,
                    a <= 255,
            ;
            let m = 65025 - a * (255 - c);
            assert(o * m <= 255 * 65025) by (nonlinear_arith)
                requires
                    o <= 255,
                    m <= 65025,
            ;
            ((o * m + 32512) / 65025) as u8
        },
    }
}

proof fn lemma_texel_index(w: int, h: int, i: int, j: int)
    requires
        0 <= i < w,
        0 <= j < h,
    ensures
        0 <= j * w + i < w * h,
{
    assert(j * w + i < w * h) by (nonlinear_arith)
        requires
            0 <= i < w,
            0 <= j < h,
    ;
    assert(0 <= j * w) by (nonlinear_arith)
        requires
            0 <= j,
            0 <= w,
    ;
}

fn texel_at(data: &Vec<u8>, w: u32, h: u32, i: u32, j: u32) -> (r: Rgb8)
    requires
        i < w,
        j < h,
        w <= 65535,
        h <= 65535,
        data@.len() == 2 * w * h,
    ensures
        r == texel(data@, w as int, i as int, j as int),
{
    proof {
        lemma_texel_index(w as int, h as int, i as int, j as int);
        assert(2 * w * h == 2 * (w * h)) by (nonlinear_arith);
        assert(2 * (j * w + i) + 1 < data@.len());
    }
    let _len = data.len();
    assert(0 <= j * w) by (nonlinear_arith)
        requires
            0 <= j,
            0 <= w,
    ;
    let jw = j as usize * w as usize;
    let k = (jw + i as usize) * 2;
    unpack_565(data[k], data[k + 1])
}

fn resample_pixel(data: &Vec<u8>, d: Dimensions, s: u32, x: u32, y: u32) -> (r: Rgb8)
    requires
        1 <= s <= 16,
        1 <= d.w,
        1 <= d.h,
        x < d.w * s,
        y < d.h * s,
        data@.len() == 2 * d.w * d.h,
    ensures
        r == resample(data@, d, s as int, x as int, y as int),
{
    let w = d.w as u32;
    let h = d.h as u32;
    let (i0, i1, fx) = sample(x, s, w);
    let (j0, j1, fy) = sample(y, s, h);
    let c00 = texel_at(data, w, h, i0, j0);
    let c10 = texel_at(data, w, h, i1, j0);
    let c01 = texel_at(data, w, h, i0, j1);
    let c11 = texel_at(data, w, h, i1, j1);
    let dd = 2 * s;
    Rgb8 {
        r: mix(c00.r, c10.r, c01.r, c11.r, fx, fy, dd),
        g: mix(c00.g, c10.g, c01.g, c11.g, fx, fy, dd),
        b: mix(c00.b, c10.b, c01.b, c11.b, fx, fy, dd),
    }
}

fn composite_pixel(
    data: &Vec<u8>,
    d: Dimensions,
    s: u32,
    x: u32,
    y: u32,
    ov: Rgba8,
    mode: BlendMode,
) -> (r: (u8, u8))
    requires
        1 <= s <= 16,
        1 <= d.w,
        1 <= d.h,
        x < d.w * s,
        y < d.h * s,
        data@.len() == 2 * d.w * d.h,
    ensures
        r.0 == out_byte(blend(resample(data@, d, s as int, x as int, y as int), ov, mode), 0),
        r.1 == out_byte(blend(resample(data@, d, s as int, x as int, y as int), ov, mode), 1),
{
    let base = resample_pixel(data, d, s, x, y);
    let c = Rgb8 {
        r: blend_one(base.r, ov.r, ov.a, mode),
        g: blend_one(base.g, ov.g, ov.a, mode),
        b: blend_one(base.b, ov.b, ov.a, mode),
    };
    pack_565(c)
}

proof fn lemma_composited_at(
    ov: Seq<Rgba8>,
    data: Seq<u8>,
    d: Dimensions,
    s: int,
    mode: BlendMode,
    p: int,
)
    requires
        0 <= p,
        2 * p + 1 < composited(ov, data, d, s, mode).len(),
    ensures
        composited(ov, data, d, s, mode)[2 * p] == out_byte(
            blend(resample(data, d, s, p % (d.w * s), p / (d.w * s)), ov[p], mode),
            0,
        ),
        composited(ov, data, d, s, mode)[2 * p + 1] == out_byte(
            blend(resample(data, d, s, p % (d.w * s), p / (d.w * s)), ov[p], mode),
            1,
        ),
{
    reveal(composited);
    let k0 = 2 * p;
    assert(k0 / 2 == p && (k0 + 1) / 2 == p && k0 % 2 == 0 && (k0 + 1) % 2 == 1);
}

fn push_pixel(
    data: &mut Vec<u8>,
    overlay: &Vec<Rgba8>,
    original: &Vec<u8>,
    d: Dimensions,
    s: u32,
    ow: u32,
    oh: u32,
    p: usize,
    mode: BlendMode,
)
    requires
        p < ow * oh,
        ow == d.w * s,
        oh == d.h * s,
        1 <= s <= 16,
        ow <= 65535,
        oh <= 65535,
        original@.len() == 2 * d.w * d.h,
        overlay@.len() == ow * oh,
        composited(overlay@, original@, d, s as int, mode).len() == 2 * (ow * oh),
    ensures
        final(data)@ == old(data)@.push(
            composited(overlay@, original@, d, s as int, mode)[2 * p as int],
        ).push(composited(overlay@, original@, d, s as int, mode)[2 * p + 1]),
{
    let ghost pi = p as int;
    let ghost wi = ow as int;
    let ghost hi = oh as int;
    proof {
        assert(pi < 65535 * 65535) by (nonlinear_arith)
            requires
                pi < wi * hi,
                0 <= wi <= 65535,
                0 <= hi <= 65535,
        ;
        lemma_pixel_coords(pi, wi, hi);
        assert(1 <= d.w && 1 <= d.h) by (nonlinear_arith)
            requires
                0 < wi,
                0 < hi,
                wi == d.w * s,
                hi == d.h * s,
        ;
        lemma_composited_at(overlay@, original@, d, s as int, mode, pi);
    }
    let q = p as u32;
    let x = q % ow;
    let y = q / ow;
    let (lo, hi) = composite_pixel(original, d, s, x, y, overlay[p], mode);
    data.push(lo);
    data.push(hi);
}

proof fn lemma_pixel_coords(p: int, w: int, h: int)
    requires
        0 <= p < w * h,
        0 < w,
    ensures
        0 <= p % w < w,
        0 <= p / w < h,
        0 < h,
{
    assert(0 <= p / w < h) by (nonlinear_arith)
        requires
            0 <= p < w * h,
            0 < w,
    ;
}

/// Blends `overlay` onto the baked page, resampled to the overlay's
/// resolution, and packs the result as 5-6-5 pixels.
pub fn composite(overlay: &Vec<Rgba8>, original: &LmPage, scale: Scale, mode: BlendMode) -> (r:
    Result<LmPage, CompositeError>)
    ensures
        original.data_format != PixelFormat::R5G6B5 ==> r == Err::<LmPage, CompositeError>(
            CompositeError::UnsupportedFormat,
        ),
        original.data_format == PixelFormat::R5G6B5 && !original.well_formed() ==> r == Err::<
            LmPage,
            CompositeError,
        >(CompositeError::MalformedPage),
        original.data_format == PixelFormat::R5G6B5 && original.well_formed() && (
        original.dimensions.w * scale.spec_factor() > u16::MAX || original.dimensions.h
            * scale.spec_factor() > u16::MAX) ==> r == Err::<LmPage, CompositeError>(
            CompositeError::TooLarge,
        ),
        r is Ok <==> {
            &&& original.data_format == PixelFormat::R5G6B5
            &&& original.well_formed()
            &&& original.dimensions.w * scale.spec_factor() <= u16::MAX
            &&& original.dimensions.h * scale.spec_factor() <= u16::MAX
            &&& overlay@.len() == original.dimensions.w * scale.spec_factor() * (
            original.dimensions.h * scale.spec_factor())
        },
        r matches Ok(page) ==> {
            &&& page.dimensions.w == original.dimensions.w * scale.spec_factor()
            &&& page.dimensions.h == original.dimensions.h * scale.spec_factor()
            &&& page.data_format == PixelFormat::R5G6B5
            &&& page.data@ == composited(
                overlay@,
                original.data@,
                original.dimensions,
                scale.spec_factor(),
                mode,
            )
        },
{
    if original.data_format != PixelFormat::R5G6B5 {
        return Err(CompositeError::UnsupportedFormat);
    }
    let d = original.dimensions;
    let w = d.w as u32;
    let h = d.h as u32;
    assert(w * h * 16 / 8 == 2 * w * h) by (nonlinear_arith);
    assert(w * h <= 65535 * 65535) by (nonlinear_arith)
        requires
            w <= 65535,
            h <= 65535,
    ;
    if original.data.len() as u64 != 2 * (w as u64 * h as u64) {
        return Err(CompositeError::MalformedPage);
    }
    let s = scale.factor() as u32;
    assert(w * s <= 65535 * 16 && h * s <= 65535 * 16) by (nonlinear_arith)
        requires
            w <= 65535,
            h <= 65535,
            s <= 16,
    ;
    let ow = w * s;
    let oh = h * s;
    if ow > 65535 || oh > 65535 {
        return Err(CompositeError::TooLarge);
    }
    assert(ow * oh <= 65535 * 65535) by (nonlinear_arith)
        requires
            ow <= 65535,
            oh <= 65535,
    ;
    let n = ow as u64 * oh as u64;
    if overlay.len() as u64 != n {
        return Err(CompositeError::OverlaySize);
    }
    let n = overlay.len();
    let ghost target = composited(overlay@, original.data@, d, s as int, mode);
    assert(target.len() == 2 * (d.w * s) * (d.h * s)) by {
        reveal(composited);
    }
    assert(target.len() == 2 * n) by (nonlinear_arith)
        requires
            target.len() == 2 * (d.w * s) * (d.h * s),
            n == ow * oh,
            ow == d.w * s,
            oh == d.h * s,
    ;
    let mut data: Vec<u8> = Vec::new();
    let mut p: usize = 0;
    while p < n
        invariant
            p <= n,
            n == ow * oh,
            ow == d.w * s,
            oh == d.h * s,
            1 <= s <= 16,
            ow <= 65535,
            oh <= 65535,
            original.data@.len() == 2 * d.w * d.h,
            overlay@.len() == n,
            target == composited(overlay@, original.data@, d, s as int, mode),
            target.len() == 2 * n,
            data@ == target.subrange(0, 2 * p as int),
        decreases n - p,
    {
        push_pixel(&mut data, overlay, &original.data, d, s, ow, oh, p, mode);
        assert(target.subrange(0, 2 * p + 2) == target.subrange(0, 2 * p as int).push(
            target[2 * p as int],
        ).push(target[2 * p + 1]));
        p = p + 1;
    }
    assert(target.subrange(0, 2 * n as int) == target);
    assert(data@ == target);
    Ok(LmPage { dimensions: Dimensions { w: ow as u16, h: oh as u16 }, data_format: PixelFormat::R5G6B5, data })
}

proof fn lemma_blend_transparent(o: int, c: int, mode: BlendMode)
    requires
        0 <= o <= 255,
    ensures
        blend_channel(o, c, 0, mode) == o,
{
    assert((o * 255 + 127) / 255 == o) by (nonlinear_arith)
        requires
            0 <= o <= 255,
    ;
    assert((o * 65025 + 32512) / 65025 == o) by (nonlinear_arith)
        requires
            0 <= o <= 255,
    ;
}

/// An overlay that is transparent at every pixel leaves the baked page as it
/// is, only resampled to the overlay's resolution, in either blend mode.
pub proof fn lemma_transparent_overlay_keeps_page(
    ov: Seq<Rgba8>,
    data: Seq<u8>,
    d: Dimensions,
    s: int,
    mode: BlendMode,
)
    requires
        forall|i: int| 0 <= i < ov.len() ==> (#[trigger] ov[i]).a == 0,
        ov.len() == d.w * s * (d.h * s),
    ensures
        composited(ov, data, d, s, mode) == resampled(data, d, s),
{
    reveal(composited);
    let a = composited(ov, data, d, s, mode);
    let b = resampled(data, d, s);
    let w = d.w * s;
    assert forall|k: int| 0 <= k < a.len() implies a[k] == b[k] by {
        let o = resample(data, d, s, (k / 2) % w, (k / 2) / w);
        assert(2 * w * (d.h * s) == 2 * (w * (d.h * s))) by (nonlinear_arith);
        assert(ov[k / 2].a == 0);
        lemma_blend_transparent(o.r as int, ov[k / 2].r as int, mode);
        lemma_blend_transparent(o.g as int, ov[k / 2].g as int, mode);
        lemma_blend_transparent(o.b as int, ov[k / 2].b as int, mode);
        assert(blend(o, ov[k / 2], mode) == o);
    }
    assert(a =~= b);
}

} // verus!
