use vstd::prelude::*;
use vstd::string::StringExecFns;

verus! {

/// A path to a tag together with the four-character code of its group.
pub struct TagPath {
    pub path: String,
    pub group: u32,
}

impl TagPath {
    pub fn duplicate(&self) -> (r: TagPath)
        ensures
            r == *self,
    {
        TagPath { path: self.path.clone(), group: self.group }
    }

    pub fn same_as(&self, other: &TagPath) -> (r: bool)
        ensures
            r == same_tag(*self, *other),
    {
        self.group == other.group && self.path == other.path
    }
}

pub open spec fn same_tag(a: TagPath, b: TagPath) -> bool {
    a.path@ == b.path@ && a.group == b.group
}

/// The four-character code of the bitmap tag group.
pub const BITMAP_GROUP: u32 = 0x6269746d;

pub open spec fn randoms_suffix() -> Seq<char> {
    seq!['_', 'r', 'a', 'n', 'd', 'o', 'm', 's']
}

/// The lightmap bitmap that the level's tools bake for a BSP: the same path,
/// in the bitmap group.
pub fn get_original_lm_tag_path(bsp_tag_path: &TagPath) -> (r: TagPath)
    ensures
        r.path@ == bsp_tag_path.path@,
        r.group == BITMAP_GROUP,
{
    TagPath { path: bsp_tag_path.path.clone(), group: BITMAP_GROUP }
}

/// The bitmap that holds a BSP's lightmaps with the randoms overlay: the
/// BSP's path with `_randoms` added, in the bitmap group.
pub fn get_output_lm_tag_path(bsp_tag_path: &TagPath) -> (r: TagPath)
    ensures
        r.path@ == bsp_tag_path.path@ + randoms_suffix(),
        r.group == BITMAP_GROUP,
{
    let mut path = bsp_tag_path.path.clone();
    path.append("_randoms");
    proof {
        reveal_strlit("_randoms");
    }
    assert("_randoms"@ =~= randoms_suffix());
    TagPath { path, group: BITMAP_GROUP }
}

/// The bit pattern of a 32-bit float, carried through unchanged.
#[derive(Clone, Copy, PartialEq, Eq, Structural, Debug)]
pub struct Point3 {
    pub x: u32,
    pub y: u32,
    pub z: u32,
}

/// Yaw, pitch and roll, each as the bit pattern of a 32-bit float angle.
#[derive(Clone, Copy, PartialEq, Eq, Structural, Debug)]
pub struct Euler3 {
    pub yaw: u32,
    pub pitch: u32,
    pub roll: u32,
}

/// The game types a player starting location can be enabled for.
#[derive(Clone, Copy, PartialEq, Eq, Structural, Debug)]
pub enum SpawnType {
    Unset,
    Ctf,
    Slayer,
    Oddball,
    KingOfTheHill,
    Race,
    Terminator,
    Reserved,
    AllGames,
    AllExceptCtf,
    AllExceptRaceAndCtf,
}

/// A player starting location as the level stores it.
#[derive(Clone, Copy)]
pub struct StartLocation {
    pub position: Point3,
    pub facing: u32,
    pub types: [SpawnType; 4],
}

/// A spawn point: where a player appears and which way they face.
#[derive(Clone, Copy, PartialEq, Eq, Structural, Debug)]
pub struct SpawnInfo {
    pub position: Point3,
    pub facing: u32,
}

/// One entry of the scenery palette: the kind of object it refers to.
pub struct PaletteEntry {
    pub name: Option<TagPath>,
}

/// One placed scenery object. `record` names the level's own record that the
/// object came from, so that its other fields survive; a marker placed here
/// has none.
#[derive(Clone, Copy, PartialEq, Eq, Structural, Debug)]
pub struct Scenery {
    pub palette_index: Option<u16>,
    pub position: Point3,
    pub rotation: Euler3,
    pub record: Option<u32>,
}

/// The level's scenery palette and the placed objects that refer to it.
pub struct Placements {
    pub palette: Vec<PaletteEntry>,
    pub scenery: Vec<Scenery>,
}

#[derive(Clone, Copy, PartialEq, Eq, Structural, Debug)]
pub enum PlacementError {
    /// The marker's own definition record does not exist.
    MarkerMissing,
    /// The palette has no free index left.
    PaletteFull,
}

/// The largest number of palette entries: an index is a `u16` and its
/// largest value means "no entry".
pub const MAX_PALETTE: usize = 65535;

pub open spec fn slayer_type(t: SpawnType) -> bool {
    t == SpawnType::Slayer || t == SpawnType::AllGames || t == SpawnType::AllExceptCtf
        || t == SpawnType::AllExceptRaceAndCtf
}

pub open spec fn is_slayer_location(l: StartLocation) -> bool {
    slayer_type(l.types[0]) || slayer_type(l.types[1]) || slayer_type(l.types[2])
        || slayer_type(l.types[3])
}

pub open spec fn spawn_of(l: StartLocation) -> SpawnInfo {
    SpawnInfo { position: l.position, facing: l.facing }
}

/// The spawns of the locations that slayer games use, in order.
pub open spec fn slayer_spawns(locs: Seq<StartLocation>) -> Seq<SpawnInfo>
    decreases locs.len(),
{
    if locs.len() == 0 {
        Seq::empty()
    } else {
        let rest = slayer_spawns(locs.drop_last());
        if is_slayer_location(locs.last()) {
            rest.push(spawn_of(locs.last()))
        } else {
            rest
        }
    }
}

pub open spec fn names(e: PaletteEntry, m: TagPath) -> bool {
    match e.name {
        Some(n) => same_tag(n, m),
        None => false,
    }
}

pub open spec fn has_marker(pal: Seq<PaletteEntry>, m: TagPath) -> bool {
    exists|i: int| 0 <= i < pal.len() && #[trigger] names(pal[i], m)
}

/// `k` is the first palette index whose entry names `m`.
pub open spec fn is_first_marker(pal: Seq<PaletteEntry>, m: TagPath, k: int) -> bool {
    &&& 0 <= k < pal.len()
    &&& names(pal[k], m)
    &&& forall|j: int| 0 <= j < k ==> !#[trigger] names(pal[j], m)
}

/// Every placement refers to a live palette entry or to none.
pub open spec fn well_formed(pal: Seq<PaletteEntry>, sc: Seq<Scenery>) -> bool {
    &&& pal.len() <= MAX_PALETTE
    &&& forall|i: int|
        0 <= i < sc.len() ==> match #[trigger] sc[i].palette_index {
            Some(t) => t < pal.len(),
            None => true,
        }
}

/// The placements that do not refer to palette index `k`, in order.
pub open spec fn keep_others(sc: Seq<Scenery>, k: int) -> Seq<Scenery>
    decreases sc.len(),
{
    if sc.len() == 0 {
        Seq::empty()
    } else {
        let rest = keep_others(sc.drop_last(), k);
        if sc.last().palette_index == Some(k as u16) {
            rest
        } else {
            rest.push(sc.last())
        }
    }
}

/// A placement after palette index `k` was deleted: later indices move down.
pub open spec fn renumbered(s: Scenery, k: int) -> Scenery {
    match s.palette_index {
        Some(t) => if t > k {
            Scenery { palette_index: Some((t - 1) as u16), ..s }
        } else {
            s
        },
        None => s,
    }
}

pub open spec fn renumber_all(sc: Seq<Scenery>, k: int) -> Seq<Scenery> {
    sc.map_values(|s: Scenery| renumbered(s, k))
}

pub open spec fn marker_for(s: SpawnInfo, k: int) -> Scenery {
    Scenery {
        palette_index: Some(k as u16),
        position: s.position,
        rotation: Euler3 { yaw: s.facing, pitch: 0, roll: 0 },
        record: None,
    }
}

pub open spec fn markers(spawns: Seq<SpawnInfo>, k: int) -> Seq<Scenery> {
    spawns.map_values(|s: SpawnInfo| marker_for(s, k))
}

/// What a successful `place_spawn_markers` leaves behind.
pub open spec fn added(
    pal: Seq<PaletteEntry>,
    sc: Seq<Scenery>,
    spawns: Seq<SpawnInfo>,
    m: TagPath,
    pal2: Seq<PaletteEntry>,
    sc2: Seq<Scenery>,
) -> bool {
    if has_marker(pal, m) {
        exists|k: int|
            is_first_marker(pal, m, k) && pal2 == pal && sc2 == keep_others(sc, k) + markers(
                spawns,
                k,
            )
    } else {
        &&& pal.len() < MAX_PALETTE
        &&& pal2.len() == pal.len() + 1
        &&& pal2.subrange(0, pal.len() as int) == pal
        &&& names(pal2.last(), m)
        &&& sc2 == sc + markers(spawns, pal.len() as int)
    }
}

/// What `remove_markers` leaves behind.
pub open spec fn removed(
    pal: Seq<PaletteEntry>,
    sc: Seq<Scenery>,
    m: TagPath,
    pal2: Seq<PaletteEntry>,
    sc2: Seq<Scenery>,
) -> bool {
    if has_marker(pal, m) {
        exists|k: int|
            is_first_marker(pal, m, k) && pal2 == pal.remove(k) && sc2 == renumber_all(
                keep_others(sc, k),
                k,
            )
    } else {
        pal2 == pal && sc2 == sc
    }
}

pub fn is_slayer_spawn(spawn_type: SpawnType) -> (r: bool)
    ensures
        r == slayer_type(spawn_type),
{
    match spawn_type {
        SpawnType::Slayer => true,
        SpawnType::AllGames => true,
        SpawnType::AllExceptCtf => true,
        SpawnType::AllExceptRaceAndCtf => true,
        _ => false,
    }
}

/// The spawn points of every starting location that slayer games use.
pub fn get_slayer_spawns(locations: &Vec<StartLocation>) -> (r: Vec<SpawnInfo>)
    ensures
        r@ == slayer_spawns(locations@),
{
    let mut r: Vec<SpawnInfo> = Vec::new();
    let mut i: usize = 0;
    while i < locations.len()
        invariant
            i <= locations.len(),
            r@ == slayer_spawns(locations@.subrange(0, i as int)),
        decreases locations.len() - i,
    {
        let loc = locations[i];
        assert(locations@.subrange(0, i + 1).drop_last() == locations@.subrange(0, i as int));
        if is_slayer_spawn(loc.types[0]) || is_slayer_spawn(loc.types[1]) || is_slayer_spawn(
            loc.types[2],
        ) || is_slayer_spawn(loc.types[3]) {
            r.push(SpawnInfo { position: loc.position, facing: loc.facing });
        }
        i = i + 1;
    }
    assert(locations@.subrange(0, locations.len() as int) == locations@);
    r
}

/// The index of the first palette entry that names `marker`.
pub fn get_marker_palette(p: &Placements, marker: &TagPath) -> (r: Option<u16>)
    requires
        p.palette@.len() <= MAX_PALETTE,
    ensures
        match r {
            Some(k) => is_first_marker(p.palette@, *marker, k as int),
            None => !has_marker(p.palette@, *marker),
        },
{
    let mut i: usize = 0;
    while i < p.palette.len()
        invariant
            i <= p.palette@.len() <= MAX_PALETTE,
            forall|j: int| 0 <= j < i ==> !#[trigger] names(p.palette@[j], *marker),
        decreases p.palette.len() - i,
    {
        let found = match &p.palette[i].name {
            Some(n) => n.same_as(marker),
            None => false,
        };
        if found {
            return Some(i as u16);
        }
        i = i + 1;
    }
    None
}

/// Deletes every placement that refers to palette index `index`.
pub fn remove_all_markers(p: &mut Placements, index: u16)
    ensures
        final(p).palette@ == old(p).palette@,
        final(p).scenery@ == keep_others(old(p).scenery@, index as int),
{
    let mut kept: Vec<Scenery> = Vec::new();
    let mut i: usize = 0;
    while i < p.scenery.len()
        invariant
            i <= p.scenery@.len(),
            kept@ == keep_others(p.scenery@.subrange(0, i as int), index as int),
        decreases p.scenery.len() - i,
    {
        let s = p.scenery[i];
        assert(p.scenery@.subrange(0, i + 1).drop_last() == p.scenery@.subrange(0, i as int));
        if s.palette_index != Some(index) {
            kept.push(s);
        }
        i = i + 1;
    }
    assert(p.scenery@.subrange(0, p.scenery@.len() as int) == p.scenery@);
    p.scenery = kept;
}

/// Deletes palette entry `index` and moves every later reference down by one.
pub fn remove_marker_palette(p: &mut Placements, index: u16)
    requires
        index < old(p).palette@.len(),
    ensures
        final(p).palette@ == old(p).palette@.remove(index as int),
        final(p).scenery@ == renumber_all(old(p).scenery@, index as int),
{
    p.palette.remove(index as usize);
    let ghost before = p.scenery@;
    let mut i: usize = 0;
    while i < p.scenery.len()
        invariant
            i <= p.scenery@.len() == before.len(),
            p.palette@ == old(p).palette@.remove(index as int),
            before == old(p).scenery@,
            forall|j: int| 0 <= j < i ==> p.scenery@[j] == renumbered(before[j], index as int),
            forall|j: int| i <= j < before.len() ==> p.scenery@[j] == before[j],
        decreases p.scenery.len() - i,
    {
        let s = p.scenery[i];
        if let Some(t) = s.palette_index {
            if t > index {
                p.scenery.set(i, Scenery { palette_index: Some(t - 1), ..s });
            }
        }
        i = i + 1;
    }
    assert(p.scenery@ == renumber_all(before, index as int));
}

/// Places one marker at every spawn point, referring to the palette entry of
/// `marker`; an entry is appended when the palette has none. Markers placed
/// earlier for the same entry are removed first, so the marker set is replaced.
/// Fails without a change when the marker's definition does not exist or the
/// palette is full.
pub fn place_spawn_markers(
    p: &mut Placements,
    spawns: &Vec<SpawnInfo>,
    marker: &TagPath,
    marker_exists: bool,
) -> (r: Result<(), PlacementError>)
    requires
        old(p).palette@.len() <= MAX_PALETTE,
    ensures
        !marker_exists ==> r == Err::<(), PlacementError>(PlacementError::MarkerMissing),
        marker_exists && !has_marker(old(p).palette@, *marker) && old(p).palette@.len()
            == MAX_PALETTE ==> r == Err::<(), PlacementError>(PlacementError::PaletteFull),
        r is Ok <==> marker_exists && (has_marker(old(p).palette@, *marker) || old(
            p,
        ).palette@.len() < MAX_PALETTE),
        r is Err ==> final(p).palette@ == old(p).palette@ && final(p).scenery@ == old(
            p,
        ).scenery@,
        r is Ok ==> added(
            old(p).palette@,
            old(p).scenery@,
            spawns@,
            *marker,
            final(p).palette@,
            final(p).scenery@,
        ),
{
    if !marker_exists {
        return Err(PlacementError::MarkerMissing);
    }
    let index: u16 = match get_marker_palette(p, marker) {
        Some(k) => {
            remove_all_markers(p, k);
            k
        },
        None => {
            if p.palette.len() >= MAX_PALETTE {
                return Err(PlacementError::PaletteFull);
            }
            let entry = PaletteEntry { name: Some(marker.duplicate()) };
            assert(names(entry, *marker));
            p.palette.push(entry);
            assert(p.palette@.subrange(0, old(p).palette@.len() as int) == old(p).palette@);
            (p.palette.len() - 1) as u16
        },
    };
    let ghost base = p.scenery@;
    let ghost pal_now = p.palette@;
    proof {
        if has_marker(old(p).palette@, *marker) {
            assert(is_first_marker(old(p).palette@, *marker, index as int));
        } else {
            assert(names(pal_now.last(), *marker));
        }
    }
    let mut i: usize = 0;
    while i < spawns.len()
        invariant
            i <= spawns@.len(),
            p.palette@ == pal_now,
            has_marker(old(p).palette@, *marker) ==> is_first_marker(
                old(p).palette@,
                *marker,
                index as int,
            ) && pal_now == old(p).palette@ && base == keep_others(
                old(p).scenery@,
                index as int,
            ),
            !has_marker(old(p).palette@, *marker) ==> old(p).palette@.len() < MAX_PALETTE
                && pal_now.len() == old(p).palette@.len() + 1
                && pal_now.subrange(0, old(p).palette@.len() as int) == old(p).palette@ && names(
                pal_now.last(),
                *marker,
            ) && base == old(p).scenery@ && index == old(p).palette@.len(),
            p.scenery@ == base + markers(spawns@.subrange(0, i as int), index as int),
        decreases spawns.len() - i,
    {
        let s = spawns[i];
        p.scenery.push(
            Scenery {
                palette_index: Some(index),
                position: s.position,
                rotation: Euler3 { yaw: s.facing, pitch: 0, roll: 0 },
                record: None,
            },
        );
        assert(markers(spawns@.subrange(0, i + 1), index as int) == markers(
            spawns@.subrange(0, i as int),
            index as int,
        ).push(marker_for(s, index as int)));
        i = i + 1;
    }
    assert(spawns@.subrange(0, spawns@.len() as int) == spawns@);
    Ok(())
}

/// Removes the palette entry of `marker`, if there is one, with every
/// placement that refers to it, and renumbers the placements after it.
pub fn remove_markers(p: &mut Placements, marker: &TagPath)
    requires
        old(p).palette@.len() <= MAX_PALETTE,
    ensures
        removed(
            old(p).palette@,
            old(p).scenery@,
            *marker,
            final(p).palette@,
            final(p).scenery@,
        ),
{
    if let Some(k) = get_marker_palette(p, marker) {
        remove_all_markers(p, k);
        remove_marker_palette(p, k);
        assert(is_first_marker(old(p).palette@, *marker, k as int));
    }
}

pub open spec fn bounded(s: Scenery, n: int) -> bool {
    match s.palette_index {
        Some(t) => t < n,
        None => true,
    }
}

proof fn lemma_first_marker_unique(pal: Seq<PaletteEntry>, m: TagPath, a: int, b: int)
    requires
        is_first_marker(pal, m, a),
        is_first_marker(pal, m, b),
    ensures
        a == b,
{
    if a < b {
        assert(names(pal[a], m));
    } else if b < a {
        assert(names(pal[b], m));
    }
}

proof fn lemma_keep_append(a: Seq<Scenery>, b: Seq<Scenery>, k: int)
    ensures
        keep_others(a + b, k) == keep_others(a, k) + keep_others(b, k),
    decreases b.len(),
{
    if b.len() == 0 {
        assert(a + b == a);
    } else {
        lemma_keep_append(a, b.drop_last(), k);
        assert((a + b).drop_last() == a + b.drop_last());
    }
}

proof fn lemma_keep_untouched(a: Seq<Scenery>, k: int)
    requires
        forall|i: int| 0 <= i < a.len() ==> #[trigger] a[i].palette_index != Some(k as u16),
    ensures
        keep_others(a, k) == a,
    decreases a.len(),
{
    if a.len() > 0 {
        lemma_keep_untouched(a.drop_last(), k);
        assert(a.drop_last().push(a.last()) == a);
    }
}

proof fn lemma_keep_markers(spawns: Seq<SpawnInfo>, k: int)
    ensures
        keep_others(markers(spawns, k), k) == Seq::<Scenery>::empty(),
    decreases spawns.len(),
{
    if spawns.len() > 0 {
        lemma_keep_markers(spawns.drop_last(), k);
        assert(markers(spawns, k).drop_last() == markers(spawns.drop_last(), k));
    }
}

proof fn lemma_keep_props(a: Seq<Scenery>, k: int, n: int)
    requires
        forall|i: int| 0 <= i < a.len() ==> bounded(#[trigger] a[i], n),
    ensures
        forall|i: int|
            0 <= i < keep_others(a, k).len() ==> bounded(#[trigger] keep_others(a, k)[i], n)
                && keep_others(a, k)[i].palette_index != Some(k as u16),
    decreases a.len(),
{
    if a.len() > 0 {
        assert forall|i: int| 0 <= i < a.drop_last().len() implies bounded(
            #[trigger] a.drop_last()[i],
            n,
        ) by {
            assert(a.drop_last()[i] == a[i]);
        }
        lemma_keep_props(a.drop_last(), k, n);
        assert(bounded(a[a.len() - 1], n));
    }
}

proof fn lemma_renumber_below(sc: Seq<Scenery>, k: int)
    requires
        forall|i: int| 0 <= i < sc.len() ==> bounded(#[trigger] sc[i], k + 1),
    ensures
        renumber_all(sc, k) == sc,
{
    assert(renumber_all(sc, k) =~= sc) by {
        assert forall|i: int| 0 <= i < sc.len() implies #[trigger] renumber_all(sc, k)[i]
            == sc[i] by {
            assert(bounded(sc[i], k + 1));
        }
    }
}

/// Placing markers for a kind that the palette does not hold, and then removing
/// that kind, gives back the palette and the placements exactly as they were.
pub proof fn lemma_add_then_remove_restores(
    pal: Seq<PaletteEntry>,
    sc: Seq<Scenery>,
    spawns: Seq<SpawnInfo>,
    m: TagPath,
    pal1: Seq<PaletteEntry>,
    sc1: Seq<Scenery>,
    pal2: Seq<PaletteEntry>,
    sc2: Seq<Scenery>,
)
    requires
        well_formed(pal, sc),
        !has_marker(pal, m),
        added(pal, sc, spawns, m, pal1, sc1),
        removed(pal1, sc1, m, pal2, sc2),
    ensures
        pal2 == pal,
        sc2 == sc,
{
    let n = pal.len() as int;
    assert forall|j: int| 0 <= j < n implies !#[trigger] names(pal1[j], m) by {
        assert(pal1[j] == pal1.subrange(0, n)[j]);
        if names(pal[j], m) {
            assert(has_marker(pal, m));
        }
    }
    assert(is_first_marker(pal1, m, n));
    assert(has_marker(pal1, m));
    let k = choose|k: int|
        is_first_marker(pal1, m, k) && pal2 == pal1.remove(k) && sc2 == renumber_all(
            keep_others(sc1, k),
            k,
        );
    lemma_first_marker_unique(pal1, m, k, n);
    assert(pal1.remove(n) =~= pal1.subrange(0, n));
    assert forall|i: int| 0 <= i < sc.len() implies #[trigger] sc[i].palette_index != Some(
        n as u16,
    ) by {
        assert(bounded(sc[i], n));
    }
    lemma_keep_append(sc, markers(spawns, n), n);
    lemma_keep_untouched(sc, n);
    lemma_keep_markers(spawns, n);
    assert(sc + Seq::<Scenery>::empty() == sc);
    assert forall|i: int| 0 <= i < sc.len() implies bounded(#[trigger] sc[i], n + 1) by {
        assert(bounded(sc[i], n));
    }
    lemma_renumber_below(sc, n);
}

/// Removing the kind at palette index `k` keeps exactly the placements that
/// did not refer to `k`: an index below `k` stays, one above `k` goes down by
/// one, and every survivor still refers to a live entry or to none.
pub proof fn lemma_remove_renumbers(
    pal: Seq<PaletteEntry>,
    sc: Seq<Scenery>,
    m: TagPath,
    pal2: Seq<PaletteEntry>,
    sc2: Seq<Scenery>,
)
    requires
        well_formed(pal, sc),
        has_marker(pal, m),
        removed(pal, sc, m, pal2, sc2),
    ensures
        exists|k: int|
            {
                &&& #[trigger] is_first_marker(pal, m, k)
                &&& sc2.len() == keep_others(sc, k).len()
                &&& forall|i: int|
                    0 <= i < sc2.len() ==> {
                        let before = keep_others(sc, k)[i].palette_index;
                        &&& before != Some(k as u16)
                        &&& match before {
                            Some(t) => if t < k {
                                #[trigger] sc2[i].palette_index == Some(t)
                            } else {
                                sc2[i].palette_index == Some((t - 1) as u16)
                            },
                            None => sc2[i].palette_index is None,
                        }
                    }
            },
        well_formed(pal2, sc2),
{
    let k = choose|k: int|
        is_first_marker(pal, m, k) && pal2 == pal.remove(k) && sc2 == renumber_all(
            keep_others(sc, k),
            k,
        );
    let kept = keep_others(sc, k);
    assert forall|i: int| 0 <= i < sc.len() implies bounded(#[trigger] sc[i], pal.len() as int) by {
        assert(well_formed(pal, sc));
    }
    lemma_keep_props(sc, k, pal.len() as int);
    assert forall|i: int| 0 <= i < sc2.len() implies match #[trigger] sc2[i].palette_index {
        Some(t) => t < pal2.len(),
        None => true,
    } by {
        assert(bounded(kept[i], pal.len() as int));
    }
    assert(is_first_marker(pal, m, k));
}

/// Placing the same spawns for the same kind twice in a row leaves the level as
/// placing them once did.
pub proof fn lemma_add_idempotent(
    pal: Seq<PaletteEntry>,
    sc: Seq<Scenery>,
    spawns: Seq<SpawnInfo>,
    m: TagPath,
    pal1: Seq<PaletteEntry>,
    sc1: Seq<Scenery>,
    pal2: Seq<PaletteEntry>,
    sc2: Seq<Scenery>,
)
    requires
        well_formed(pal, sc),
        added(pal, sc, spawns, m, pal1, sc1),
        added(pal1, sc1, spawns, m, pal2, sc2),
    ensures
        pal2 == pal1,
        sc2 == sc1,
{
    let n = pal.len() as int;
    let k = if has_marker(pal, m) {
        choose|k: int|
            is_first_marker(pal, m, k) && pal1 == pal && sc1 == keep_others(sc, k) + markers(
                spawns,
                k,
            )
    } else {
        n
    };
    if !has_marker(pal, m) {
        assert forall|j: int| 0 <= j < n implies !#[trigger] names(pal1[j], m) by {
            assert(pal1[j] == pal1.subrange(0, n)[j]);
            if names(pal[j], m) {
                assert(has_marker(pal, m));
            }
        }
        assert forall|i: int| 0 <= i < sc.len() implies #[trigger] sc[i].palette_index
            != Some(n as u16) by {
            assert(bounded(sc[i], n));
        }
        lemma_keep_untouched(sc, n);
    } else {
        assert forall|i: int| 0 <= i < sc.len() implies bounded(#[trigger] sc[i], n) by {
            assert(well_formed(pal, sc));
        }
        lemma_keep_props(sc, k, n);
        let kept = keep_others(sc, k);
        assert forall|i: int| 0 <= i < kept.len() implies #[trigger] kept[i].palette_index
            != Some(k as u16) by {}
        lemma_keep_untouched(kept, k);
    }
    assert(is_first_marker(pal1, m, k));
    assert(has_marker(pal1, m));
    let k2 = choose|k2: int|
        is_first_marker(pal1, m, k2) && pal2 == pal1 && sc2 == keep_others(sc1, k2) + markers(
            spawns,
            k2,
        );
    lemma_first_marker_unique(pal1, m, k, k2);
    let base = if has_marker(pal, m) { keep_others(sc, k) } else { sc };
    assert(sc1 == base + markers(spawns, k));
    lemma_keep_append(base, markers(spawns, k), k);
    lemma_keep_markers(spawns, k);
    assert(base + Seq::<Scenery>::empty() == base);
}

/// Placing markers keeps every placement referring to a live palette entry
/// or to none.
pub proof fn lemma_add_keeps_well_formed(
    pal: Seq<PaletteEntry>,
    sc: Seq<Scenery>,
    spawns: Seq<SpawnInfo>,
    m: TagPath,
    pal2: Seq<PaletteEntry>,
    sc2: Seq<Scenery>,
)
    requires
        well_formed(pal, sc),
        added(pal, sc, spawns, m, pal2, sc2),
    ensures
        well_formed(pal2, sc2),
{
    let n = pal.len() as int;
    assert forall|i: int| 0 <= i < sc.len() implies bounded(#[trigger] sc[i], n) by {
        assert(well_formed(pal, sc));
    }
    if has_marker(pal, m) {
        let k = choose|k: int|
            is_first_marker(pal, m, k) && pal2 == pal && sc2 == keep_others(sc, k) + markers(
                spawns,
                k,
            );
        lemma_keep_props(sc, k, n);
        let kept = keep_others(sc, k);
        assert forall|i: int| 0 <= i < sc2.len() implies match #[trigger] sc2[i].palette_index {
            Some(t) => t < pal2.len(),
            None => true,
        } by {
            if i < kept.len() {
                assert(bounded(kept[i], n));
            } else {
                assert(sc2[i] == marker_for(spawns[i - kept.len()], k));
            }
        }
    } else {
        assert forall|i: int| 0 <= i < sc2.len() implies match #[trigger] sc2[i].palette_index {
            Some(t) => t < pal2.len(),
            None => true,
        } by {
            if i < sc.len() {
                assert(bounded(sc[i], n));
            } else {
                assert(sc2[i] == marker_for(spawns[i - sc.len()], n));
            }
        }
    }
}

/// Removing a kind keeps every placement referring to a live palette entry
/// or to none.
pub proof fn lemma_remove_keeps_well_formed(
    pal: Seq<PaletteEntry>,
    sc: Seq<Scenery>,
    m: TagPath,
    pal2: Seq<PaletteEntry>,
    sc2: Seq<Scenery>,
)
    requires
        well_formed(pal, sc),
        removed(pal, sc, m, pal2, sc2),
    ensures
        well_formed(pal2, sc2),
{
    if has_marker(pal, m) {
        lemma_remove_renumbers(pal, sc, m, pal2, sc2);
    }
}

} // verus!
