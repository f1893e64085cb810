use spawn_camp::placement::{
    get_marker_palette, get_original_lm_tag_path, get_output_lm_tag_path, BITMAP_GROUP, get_slayer_spawns, place_spawn_markers, remove_all_markers,
    remove_marker_palette, remove_markers, Euler3, PaletteEntry, PlacementError, Placements,
    Point3, Scenery, SpawnInfo, SpawnType, StartLocation, TagPath,
};

const SCENERY: u32 = 0x7363656e;

fn tag(path: &str) -> TagPath {
    TagPath { path: path.to_string(), group: SCENERY }
}

fn point(x: u32, y: u32, z: u32) -> Point3 {
    Point3 { x, y, z }
}

fn placed(index: Option<u16>, x: u32) -> Scenery {
    Scenery {
        palette_index: index,
        position: point(x, 0, 0),
        rotation: Euler3 { yaw: 7, pitch: 8, roll: 9 },
        record: Some(x),
    }
}

fn level() -> Placements {
    Placements {
        palette: vec![
            PaletteEntry { name: Some(tag("scenery\\rock")) },
            PaletteEntry { name: None },
            PaletteEntry { name: Some(tag("scenery\\tree")) },
        ],
        scenery: vec![
            placed(Some(0), 1),
            placed(Some(2), 2),
            placed(None, 3),
            placed(Some(1), 4),
            placed(Some(2), 5),
        ],
    }
}

fn names(p: &Placements) -> Vec<Option<String>> {
    p.palette.iter().map(|e| e.name.as_ref().map(|t| t.path.clone())).collect()
}

fn spawns() -> Vec<SpawnInfo> {
    vec![
        SpawnInfo { position: point(10, 20, 30), facing: 0x3f80_0000 },
        SpawnInfo { position: point(40, 50, 60), facing: 0x4000_0000 },
    ]
}

#[test]
fn add_then_remove_restores_level() {
    let mut p = level();
    let before_names = names(&p);
    let before_scenery = p.scenery.clone();
    let marker = tag("scenery\\spawn_marker");
    assert_eq!(place_spawn_markers(&mut p, &spawns(), &marker, true), Ok(()));
    assert_eq!(p.palette.len(), 4);
    assert_eq!(p.scenery.len(), 7);
    remove_markers(&mut p, &marker);
    assert_eq!(names(&p), before_names);
    assert_eq!(p.scenery, before_scenery);
}

#[test]
fn add_places_one_marker_per_spawn() {
    let mut p = level();
    let marker = tag("scenery\\spawn_marker");
    place_spawn_markers(&mut p, &spawns(), &marker, true).unwrap();
    assert_eq!(p.palette[3].name.as_ref().unwrap().path, "scenery\\spawn_marker");
    assert_eq!(
        p.scenery[5],
        Scenery {
            palette_index: Some(3),
            position: point(10, 20, 30),
            rotation: Euler3 { yaw: 0x3f80_0000, pitch: 0, roll: 0 },
            record: None,
        }
    );
    assert_eq!(p.scenery[6].position, point(40, 50, 60));
    assert_eq!(p.scenery[6].rotation.yaw, 0x4000_0000);
}

#[test]
fn add_twice_same_as_once() {
    let marker = tag("scenery\\spawn_marker");
    let mut once = level();
    place_spawn_markers(&mut once, &spawns(), &marker, true).unwrap();
    let mut twice = level();
    place_spawn_markers(&mut twice, &spawns(), &marker, true).unwrap();
    place_spawn_markers(&mut twice, &spawns(), &marker, true).unwrap();
    assert_eq!(names(&once), names(&twice));
    assert_eq!(once.scenery, twice.scenery);
    assert_eq!(twice.scenery.len(), 7);
}

#[test]
fn add_reuses_existing_entry() {
    let mut p = level();
    let marker = tag("scenery\\tree");
    place_spawn_markers(&mut p, &spawns(), &marker, true).unwrap();
    assert_eq!(p.palette.len(), 3);
    assert_eq!(
        p.scenery.iter().map(|s| s.palette_index).collect::<Vec<_>>(),
        vec![Some(0), None, Some(1), Some(2), Some(2)]
    );
    assert_eq!(p.scenery[3].position, point(10, 20, 30));
}

#[test]
fn add_without_marker_definition_changes_nothing() {
    let mut p = level();
    let marker = tag("scenery\\spawn_marker");
    assert_eq!(
        place_spawn_markers(&mut p, &spawns(), &marker, false),
        Err(PlacementError::MarkerMissing)
    );
    assert_eq!(p.palette.len(), 3);
    assert_eq!(p.scenery, level().scenery);
}

#[test]
fn add_to_full_palette_fails() {
    let mut p = Placements { palette: Vec::new(), scenery: Vec::new() };
    for _ in 0..65535 {
        p.palette.push(PaletteEntry { name: None });
    }
    let marker = tag("scenery\\spawn_marker");
    assert_eq!(
        place_spawn_markers(&mut p, &spawns(), &marker, true),
        Err(PlacementError::PaletteFull)
    );
    assert_eq!(p.palette.len(), 65535);
    assert!(p.scenery.is_empty());
}

#[test]
fn remove_renumbers_later_indices() {
    let mut p = level();
    remove_markers(&mut p, &tag("scenery\\rock"));
    assert_eq!(names(&p), vec![None, Some("scenery\\tree".to_string())]);
    assert_eq!(
        p.scenery.iter().map(|s| (s.palette_index, s.position.x)).collect::<Vec<_>>(),
        vec![(Some(1), 2), (None, 3), (Some(0), 4), (Some(1), 5)]
    );
}

#[test]
fn remove_middle_index_keeps_lower_ones() {
    let mut p = level();
    remove_all_markers(&mut p, 1);
    remove_marker_palette(&mut p, 1);
    assert_eq!(
        p.scenery.iter().map(|s| s.palette_index).collect::<Vec<_>>(),
        vec![Some(0), Some(1), None, Some(1)]
    );
    assert!(p.scenery.iter().all(|s| s.palette_index.map_or(true, |i| (i as usize) < p.palette.len())));
}

#[test]
fn remove_absent_marker_is_noop() {
    let mut p = level();
    remove_markers(&mut p, &tag("scenery\\spawn_marker"));
    assert_eq!(p.palette.len(), 3);
    assert_eq!(p.scenery, level().scenery);
}

#[test]
fn marker_lookup_takes_first_match_and_group() {
    let mut p = level();
    p.palette.push(PaletteEntry { name: Some(tag("scenery\\rock")) });
    assert_eq!(get_marker_palette(&p, &tag("scenery\\rock")), Some(0));
    assert_eq!(get_marker_palette(&p, &tag("scenery\\tree")), Some(2));
    let other_group = TagPath { path: "scenery\\rock".to_string(), group: 1 };
    assert_eq!(get_marker_palette(&p, &other_group), None);
}

#[test]
fn slayer_spawns_keep_order() {
    let loc = |x: u32, types: [SpawnType; 4]| StartLocation { position: point(x, 0, 0), facing: x, types };
    let locations = vec![
        loc(1, [SpawnType::Ctf, SpawnType::Unset, SpawnType::Unset, SpawnType::Unset]),
        loc(2, [SpawnType::Ctf, SpawnType::Slayer, SpawnType::Unset, SpawnType::Unset]),
        loc(3, [SpawnType::Unset, SpawnType::Unset, SpawnType::Unset, SpawnType::AllGames]),
        loc(4, [SpawnType::Race, SpawnType::Oddball, SpawnType::KingOfTheHill, SpawnType::Terminator]),
        loc(5, [SpawnType::AllExceptCtf, SpawnType::Unset, SpawnType::Unset, SpawnType::Unset]),
        loc(6, [SpawnType::AllExceptRaceAndCtf, SpawnType::Unset, SpawnType::Unset, SpawnType::Unset]),
    ];
    let found = get_slayer_spawns(&locations);
    assert_eq!(found.iter().map(|s| s.position.x).collect::<Vec<_>>(), vec![2, 3, 5, 6]);
    assert_eq!(found[0].facing, 2);
}

#[test]
fn lightmap_paths_follow_the_bsp() {
    let bsp = TagPath { path: "levels\\test\\chillout\\chillout".to_string(), group: 0x73627370 };
    let original = get_original_lm_tag_path(&bsp);
    assert_eq!(original.path, "levels\\test\\chillout\\chillout");
    assert_eq!(original.group, BITMAP_GROUP);
    let output = get_output_lm_tag_path(&bsp);
    assert_eq!(output.path, "levels\\test\\chillout\\chillout_randoms");
    assert_eq!(output.group, 0x6269746d);
}
