use spawn_camp::bitmap::{Dimensions, LmPage, PixelFormat};
use spawn_camp::color::{BlendMode, Rgba8};
use spawn_camp::composite::{CompositeError, Scale};
use spawn_camp::raster::{RenderError, Vec3, Vert, SLOPE_45_DEGREES, UV_ONE};
use spawn_camp::renderer::{LmRenderer, RandomsError};

fn quad() -> (Vec<Vert>, Vec<u16>) {
    let up = Vec3 { x: 0, y: 0, z: 1 };
    let v = |u: u32, w: u32, x: i32, y: i32| Vert { u, v: w, world_pos: Vec3 { x, y, z: 0 }, world_normal: up };
    (
        vec![v(0, 0, 0, 0), v(UV_ONE, 0, 64, 0), v(0, UV_ONE, 0, 64), v(UV_ONE, UV_ONE, 64, 64)],
        vec![0, 1, 2, 2, 1, 3],
    )
}

fn page(w: u16, h: u16) -> LmPage {
    LmPage {
        dimensions: Dimensions { w, h },
        data_format: PixelFormat::R5G6B5,
        data: vec![0xff; w as usize * h as usize * 2],
    }
}

#[test]
fn render_without_spawns_keeps_page() {
    let r = LmRenderer::init(&Vec::new(), Rgba8 { r: 255, g: 0, b: 0, a: 128 }, BlendMode::Multiply, false, 16, SLOPE_45_DEGREES).unwrap();
    let (verts, indices) = quad();
    let out = r.render_randoms(&verts, &indices, Scale::X4, &page(4, 4)).unwrap();
    assert_eq!(out.dimensions, Dimensions { w: 16, h: 16 });
    assert_eq!(out.data, vec![0xff; 16 * 16 * 2]);
}

#[test]
fn render_near_spawn_tints_page() {
    let spawns = vec![Vec3 { x: 32, y: 32, z: 0 }];
    let r = LmRenderer::init(&spawns, Rgba8 { r: 255, g: 0, b: 0, a: 255 }, BlendMode::Multiply, false, 16, SLOPE_45_DEGREES).unwrap();
    let (verts, indices) = quad();
    let out = r.render_randoms(&verts, &indices, Scale::X2, &page(8, 8)).unwrap();
    let at = |x: usize, y: usize| (out.data[2 * (y * 16 + x)], out.data[2 * (y * 16 + x) + 1]);
    // the center is 2.8 units from the spawn: alpha 247 leaves green and blue
    // at 255 * 8 / 255 = 8, so 0xf841; the corner far from the spawn stays white
    assert_eq!(at(8, 8), (0x41, 0xf8));
    assert_eq!(at(0, 0), (0xff, 0xff));
}

#[test]
fn render_errors_carry_their_stage() {
    let r = LmRenderer::init(&Vec::new(), Rgba8 { r: 0, g: 0, b: 0, a: 0 }, BlendMode::Normal, false, 1, SLOPE_45_DEGREES).unwrap();
    let (verts, _) = quad();
    assert_eq!(
        r.render_randoms(&verts, &vec![0, 1, 9], Scale::X1, &page(2, 2)).err(),
        Some(RandomsError::Render(RenderError::BadIndex))
    );
    assert_eq!(
        r.render_randoms(&verts, &vec![0, 1, 2, 3], Scale::X1, &page(2, 2)).err(),
        Some(RandomsError::Render(RenderError::BadIndex))
    );
    let mut other = page(2, 2);
    other.data_format = PixelFormat::A8;
    other.data = vec![0; 4];
    assert_eq!(
        r.render_randoms(&verts, &vec![0, 1, 2], Scale::X1, &other).err(),
        Some(RandomsError::Composite(CompositeError::UnsupportedFormat))
    );
    // the format is refused before the mesh is looked at
    assert_eq!(
        r.render_randoms(&verts, &vec![0, 1, 9, 3], Scale::X1, &other).err(),
        Some(RandomsError::Composite(CompositeError::UnsupportedFormat))
    );
    assert!(LmRenderer::init(&vec![Vec3 { x: 0, y: 0, z: 0 }; 257], Rgba8 { r: 0, g: 0, b: 0, a: 0 }, BlendMode::Normal, false, 1, SLOPE_45_DEGREES).is_err());
}
