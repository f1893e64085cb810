use spawn_camp::bitmap::Dimensions;
use spawn_camp::color::Rgba8;
use spawn_camp::raster::{
    create_uniform_data, rasterize, RandomsScene, RenderError, Vec3, Vert, SLOPE_45_DEGREES, UV_ONE,
};

const UP: Vec3 = Vec3 { x: 0, y: 0, z: 1000 };

fn vert(u: u32, v: u32, world: Vec3, normal: Vec3) -> Vert {
    Vert { u, v, world_pos: world, world_normal: normal }
}

fn v3(x: i32, y: i32, z: i32) -> Vec3 {
    Vec3 { x, y, z }
}

/// One triangle over the upper-left half of the page, whose world position
/// runs from 0 to 3000 across the page.
fn half_page(normal: Vec3) -> (Vec<Vert>, Vec<u16>) {
    (
        vec![
            vert(0, 0, v3(0, 0, 0), normal),
            vert(UV_ONE, 0, v3(3000, 0, 0), normal),
            vert(0, UV_ONE, v3(0, 3000, 0), normal),
        ],
        vec![0, 1, 2],
    )
}

fn scene(spawns: Vec<Vec3>, walkable_only: bool) -> RandomsScene {
    create_uniform_data(&spawns, Rgba8 { r: 255, g: 0, b: 0, a: 255 }, walkable_only, 900, SLOPE_45_DEGREES).unwrap()
}

#[test]
fn no_spawns_gives_transparent_overlay() {
    let (verts, indices) = half_page(UP);
    let d = Dimensions { w: 32, h: 32 };
    let out = rasterize(&verts, &indices, d, &scene(Vec::new(), false)).unwrap();
    assert_eq!(out.len(), 32 * 32);
    assert!(out.iter().all(|p| p.a == 0));
}

#[test]
fn spawn_at_centroid_shades_strongest_there() {
    let (verts, indices) = half_page(UP);
    // a 64 x 64 page at scale 4
    let d = Dimensions { w: 64 * 4, h: 64 * 4 };
    let out = rasterize(&verts, &indices, d, &scene(vec![v3(1000, 1000, 0)], false)).unwrap();
    assert_eq!(out.len(), 256 * 256);
    let centroid = out[85 * 256 + 85];
    assert!(centroid.a >= 250, "centroid alpha {}", centroid.a);
    assert_eq!((centroid.r, centroid.g, centroid.b), (255, 0, 0));
    assert!(out.iter().all(|p| p.a <= centroid.a));
    assert_eq!(out[255 * 256 + 255].a, 0);
    assert_eq!(out[0].a, 0);
}

#[test]
fn uncovered_pixels_stay_clear() {
    let (verts, indices) = half_page(UP);
    let d = Dimensions { w: 16, h: 16 };
    let out = rasterize(&verts, &indices, d, &scene(vec![v3(1000, 1000, 0)], false)).unwrap();
    assert_eq!(out[15 * 16 + 15], Rgba8 { r: 0, g: 0, b: 0, a: 0 });
    assert_eq!(out[5 * 16 + 5].r, 255);
}

#[test]
fn contribution_falls_with_distance() {
    let (verts, indices) = half_page(UP);
    let d = Dimensions { w: 64, h: 64 };
    let out = rasterize(&verts, &indices, d, &scene(vec![v3(0, 0, 0)], false)).unwrap();
    let row: Vec<u8> = (0..20).map(|x| out[x].a).collect();
    assert!(row.windows(2).all(|w| w[0] >= w[1]));
    assert!(row[0] > 240);
    // 900 world units are 19.2 pixels here
    assert_eq!(row[19], 0);
}

#[test]
fn walkable_only_skips_steep_surfaces() {
    let steep = v3(1000, 0, 500);
    let (verts, indices) = half_page(steep);
    let d = Dimensions { w: 16, h: 16 };
    let spawns = vec![v3(500, 500, 0)];
    let all = rasterize(&verts, &indices, d, &scene(spawns.clone(), false)).unwrap();
    let walkable = rasterize(&verts, &indices, d, &scene(spawns.clone(), true)).unwrap();
    assert!(all[2 * 16 + 2].a > 0);
    assert!(walkable.iter().all(|p| p.a == 0));
    let (verts, indices) = half_page(v3(500, 0, 1000));
    let gentle = rasterize(&verts, &indices, d, &scene(spawns, true)).unwrap();
    assert!(gentle[2 * 16 + 2].a > 0);
}

#[test]
fn later_triangles_paint_over_earlier_ones() {
    let verts = vec![
        vert(0, 0, v3(0, 0, 0), UP),
        vert(UV_ONE, 0, v3(0, 0, 0), UP),
        vert(0, UV_ONE, v3(0, 0, 0), UP),
        vert(0, 0, v3(5000, 5000, 0), UP),
        vert(UV_ONE, 0, v3(5000, 5000, 0), UP),
        vert(0, UV_ONE, v3(5000, 5000, 0), UP),
    ];
    let d = Dimensions { w: 8, h: 8 };
    let s = scene(vec![v3(0, 0, 0)], false);
    let first = rasterize(&verts, &vec![0, 1, 2], d, &s).unwrap();
    let both = rasterize(&verts, &vec![0, 1, 2, 3, 4, 5], d, &s).unwrap();
    assert_eq!(first[9].a, 255);
    assert_eq!(both[9].a, 0);
    assert_eq!(both[9].r, 255);
}

#[test]
fn too_many_spawns_is_an_error() {
    let spawns = vec![v3(0, 0, 0); 257];
    assert_eq!(
        create_uniform_data(&spawns, Rgba8 { r: 0, g: 0, b: 0, a: 0 }, false, 1, SLOPE_45_DEGREES).err(),
        Some(RenderError::TooManySpawns)
    );
    let spawns = vec![v3(0, 0, 0); 256];
    assert!(create_uniform_data(&spawns, Rgba8 { r: 0, g: 0, b: 0, a: 0 }, false, 1, SLOPE_45_DEGREES).is_ok());
    let (verts, indices) = half_page(UP);
    let crowded = RandomsScene {
        spawns: vec![v3(0, 0, 0); 300],
        color: Rgba8 { r: 0, g: 0, b: 0, a: 0 },
        walkable_only: false,
        radius: 1,
        max_slope: SLOPE_45_DEGREES,
    };
    assert_eq!(
        rasterize(&verts, &indices, Dimensions { w: 4, h: 4 }, &crowded).err(),
        Some(RenderError::TooManySpawns)
    );
}

#[test]
fn bad_indices_and_vertices_are_errors() {
    let (verts, _) = half_page(UP);
    let d = Dimensions { w: 4, h: 4 };
    let s = scene(Vec::new(), false);
    assert_eq!(rasterize(&verts, &vec![0, 1, 3], d, &s).err(), Some(RenderError::BadIndex));
    assert_eq!(rasterize(&verts, &vec![0, 1, 2, 0], d, &s).err(), Some(RenderError::BadIndex));
    assert_eq!(rasterize(&verts, &vec![0, 1], d, &s).err(), Some(RenderError::BadIndex));
    assert!(rasterize(&verts, &Vec::new(), d, &s).is_ok());
    let mut far = verts.clone();
    far[1].u = UV_ONE + 1;
    assert_eq!(rasterize(&far, &vec![0, 1, 2], d, &s).err(), Some(RenderError::VertexOutOfRange));
}

#[test]
fn walkable_slope_is_configurable() {
    // a surface rising 50 percent of its run (about 27 degrees)
    let (verts, indices) = half_page(v3(500, 0, 1000));
    let d = Dimensions { w: 16, h: 16 };
    let spawns = vec![v3(500, 500, 0)];
    let color = Rgba8 { r: 255, g: 0, b: 0, a: 255 };
    let steep_ok = create_uniform_data(&spawns, color, true, 900, 50).unwrap();
    let strict = create_uniform_data(&spawns, color, true, 900, 49).unwrap();
    assert!(rasterize(&verts, &indices, d, &steep_ok).unwrap()[2 * 16 + 2].a > 0);
    assert!(rasterize(&verts, &indices, d, &strict).unwrap().iter().all(|p| p.a == 0));
}
