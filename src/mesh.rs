use vstd::prelude::*;
use crate::raster::Vert;

verus! {

/// One surface of the level's geometry: a triangle, as three indices into
/// the vertices of the material group it belongs to.
#[derive(Clone, Copy, PartialEq, Eq, Structural, Debug)]
pub struct Surface {
    pub vertex0_index: u16,
    pub vertex1_index: u16,
    pub vertex2_index: u16,
}

/// The vertices and triangle indices of one lightmap page, gathered from all
/// of its material groups.
pub struct PageMesh {
    pub verts: Vec<Vert>,
    pub indices: Vec<u16>,
}

#[derive(Clone, Copy, PartialEq, Eq, Structural, Debug)]
pub enum MeshError {
    /// A material refers to surfaces past the end of the surface list.
    BadSurface,
    /// A triangle refers to a vertex that its group does not have.
    BadIndex,
    /// The page has more vertices than a `u16` index reaches.
    TooManyVertices,
}

pub open spec fn surface_run(surfaces: Seq<Surface>, first: int, count: int) -> Seq<u16>
    decreases count,
{
    if count <= 0 {
        Seq::empty()
    } else {
        let s = surfaces[first + count - 1];
        surface_run(surfaces, first, count - 1) + seq![
            s.vertex0_index,
            s.vertex1_index,
            s.vertex2_index,
        ]
    }
}

/// The triangle indices of the surfaces `first..first + count`, three per
/// surface, in order.
pub fn surface_indices(surfaces: &Vec<Surface>, first: u32, count: u32) -> (r: Result<
    Vec<u16>,
    MeshError,
>)
    ensures
        r is Ok <==> first + count <= surfaces@.len(),
        r is Err ==> r == Err::<Vec<u16>, MeshError>(MeshError::BadSurface),
        r matches Ok(v) ==> v@ == surface_run(surfaces@, first as int, count as int),
{
    if first as u64 + count as u64 > surfaces.len() as u64 {
        return Err(MeshError::BadSurface);
    }
    let mut out: Vec<u16> = Vec::new();
    let mut k: u32 = 0;
    while k < count
        invariant
            k <= count,
            first + count <= surfaces@.len(),
            out@ == surface_run(surfaces@, first as int, k as int),
        decreases count - k,
    {
        let _n = surfaces.len();
        let s = surfaces[first as usize + k as usize];
        out.push(s.vertex0_index);
        out.push(s.vertex1_index);
        out.push(s.vertex2_index);
        k = k + 1;
        assert(out@ == surface_run(surfaces@, first as int, k as int));
    }
    Ok(out)
}

pub open spec fn biased(indices: Seq<u16>, offset: int) -> Seq<u16> {
    indices.map_values(|i: u16| (i + offset) as u16)
}

/// Appends one material group to the page: its vertices after the page's,
/// and its indices moved past the vertices that were there before. Fails
/// without a change when an index is not below the group's vertex count or
/// the page would have more vertices than a `u16` index reaches.
pub fn append_group(page: &mut PageMesh, verts: &Vec<Vert>, indices: &Vec<u16>) -> (r: Result<
    (),
    MeshError,
>)
    ensures
        r is Err ==> final(page).verts@ == old(page).verts@ && final(page).indices@ == old(
            page,
        ).indices@,
        (exists|i: int| 0 <= i < indices@.len() && #[trigger] indices@[i] >= verts@.len()) ==> r
            == Err::<(), MeshError>(MeshError::BadIndex),
        r is Ok <==> (forall|i: int| 0 <= i < indices@.len() ==> #[trigger] indices@[i] < verts@.len())
            && old(page).verts@.len() + verts@.len() <= 65536,
        r is Ok ==> final(page).verts@ == old(page).verts@ + verts@ && final(page).indices@ == old(
            page,
        ).indices@ + biased(indices@, old(page).verts@.len() as int),
{
    let mut i: usize = 0;
    while i < indices.len()
        invariant
            i <= indices@.len(),
            page.verts@ == old(page).verts@,
            page.indices@ == old(page).indices@,
            forall|j: int| 0 <= j < i ==> #[trigger] indices@[j] < verts@.len(),
        decreases indices.len() - i,
    {
        if indices[i] as usize >= verts.len() {
            return Err(MeshError::BadIndex);
        }
        i = i + 1;
    }
    if page.verts.len() > 65536 || verts.len() > 65536 - page.verts.len() {
        return Err(MeshError::TooManyVertices);
    }
    let offset = page.verts.len();
    let ghost old_indices = page.indices@;
    let mut j: usize = 0;
    while j < indices.len()
        invariant
            j <= indices@.len(),
            offset + verts@.len() <= 65536,
            offset == old(page).verts@.len(),
            page.verts@ == old(page).verts@,
            old_indices == old(page).indices@,
            forall|k: int| 0 <= k < indices@.len() ==> #[trigger] indices@[k] < verts@.len(),
            page.indices@ == old_indices + biased(indices@.subrange(0, j as int), offset as int),
        decreases indices.len() - j,
    {
        let v = indices[j];
        page.indices.push((v as usize + offset) as u16);
        assert(biased(indices@.subrange(0, j + 1), offset as int) == biased(
            indices@.subrange(0, j as int),
            offset as int,
        ).push((v + offset) as u16));
        j = j + 1;
    }
    assert(indices@.subrange(0, indices@.len() as int) == indices@);
    let ghost old_verts = page.verts@;
    let mut k: usize = 0;
    while k < verts.len()
        invariant
            k <= verts@.len(),
            offset == old(page).verts@.len(),
            old_verts == old(page).verts@,
            old_indices == old(page).indices@,
            page.verts@ == old_verts + verts@.subrange(0, k as int),
            page.indices@ == old_indices + biased(indices@, offset as int),
        decreases verts.len() - k,
    {
        page.verts.push(verts[k]);
        assert(verts@.subrange(0, k + 1) == verts@.subrange(0, k as int).push(verts@[k as int]));
        k = k + 1;
    }
    assert(verts@.subrange(0, verts@.len() as int) == verts@);
    Ok(())
}

/// Every index of a page built by `append_group` refers to one of its vertices.
pub proof fn lemma_biased_in_range(indices: Seq<u16>, group_len: int, offset: int)
    requires
        forall|i: int| 0 <= i < indices.len() ==> #[trigger] indices[i] < group_len,
        0 <= offset,
        offset + group_len <= 65536,
    ensures
        forall|i: int|
            0 <= i < indices.len() ==> #[trigger] biased(indices, offset)[i] < offset + group_len,
{
}

} // verus!
