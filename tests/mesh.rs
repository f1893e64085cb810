use spawn_camp::mesh::{append_group, surface_indices, MeshError, PageMesh, Surface};
use spawn_camp::raster::{Vec3, Vert};

fn verts(n: u32) -> Vec<Vert> {
    (0..n)
        .map(|i| Vert {
            u: i,
            v: 0,
            world_pos: Vec3 { x: i as i32, y: 0, z: 0 },
            world_normal: Vec3 { x: 0, y: 0, z: 1 },
        })
        .collect()
}

fn surface(a: u16, b: u16, c: u16) -> Surface {
    Surface { vertex0_index: a, vertex1_index: b, vertex2_index: c }
}

#[test]
fn groups_are_biased_by_earlier_vertices() {
    let mut page = PageMesh { verts: Vec::new(), indices: Vec::new() };
    assert_eq!(append_group(&mut page, &verts(3), &vec![0, 1, 2]), Ok(()));
    assert_eq!(append_group(&mut page, &verts(4), &vec![3, 0, 1, 1, 2, 3]), Ok(()));
    assert_eq!(page.verts.len(), 7);
    assert_eq!(page.indices, vec![0, 1, 2, 6, 3, 4, 4, 5, 6]);
    assert_eq!(page.verts[3].u, 0);
    assert!(page.indices.iter().all(|&i| (i as usize) < page.verts.len()));
}

#[test]
fn index_past_group_is_rejected() {
    let mut page = PageMesh { verts: verts(2), indices: vec![0, 1, 1] };
    assert_eq!(append_group(&mut page, &verts(3), &vec![0, 3, 1]), Err(MeshError::BadIndex));
    assert_eq!(page.verts.len(), 2);
    assert_eq!(page.indices, vec![0, 1, 1]);
}

#[test]
fn too_many_vertices_is_rejected() {
    let mut page = PageMesh { verts: verts(65000), indices: Vec::new() };
    assert_eq!(append_group(&mut page, &verts(536), &vec![535]), Ok(()));
    assert_eq!(page.indices, vec![65535]);
    assert_eq!(append_group(&mut page, &verts(1), &vec![0]), Err(MeshError::TooManyVertices));
    assert_eq!(page.verts.len(), 65536);
}

#[test]
fn surfaces_give_triangle_indices() {
    let surfaces = vec![surface(0, 1, 2), surface(2, 1, 3), surface(4, 5, 6)];
    assert_eq!(surface_indices(&surfaces, 1, 2), Ok(vec![2, 1, 3, 4, 5, 6]));
    assert_eq!(surface_indices(&surfaces, 0, 0), Ok(Vec::new()));
    assert_eq!(surface_indices(&surfaces, 2, 2), Err(MeshError::BadSurface));
}
