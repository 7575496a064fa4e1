use bevy_ldtk_procgen::catalog::string_is;
use bevy_ldtk_procgen::generation::{nearby_doors, CAMERA_SPAWN_DIST};
use bevy_ldtk_procgen::geometry::floor_div;
use bevy_ldtk_procgen::room_index::{
    levels_readable, EntityInstance, FieldInstance, FieldValue, LayerInstance, Level,
};
use bevy_ldtk_procgen::{
    build_room_index, find_bridging_room, rects_collide, rects_collide_center, rects_collide_tl,
    try_place_room, Dir, Door, DoorDef, GenerationState, GridPos, Pos, Room, RoomDef, RoomIndex,
    RoomType, SpatialHash, WorldState,
};

fn four_door_def(iid: &str, room_type: RoomType) -> RoomDef {
    RoomDef {
        iid: iid.to_string(),
        size: GridPos::new(160, 160),
        offset: GridPos::new(0, 0),
        doors: vec![
            DoorDef { local_pos: GridPos::new(5, 0), width: 2, dir: Dir::N },
            DoorDef { local_pos: GridPos::new(5, -9), width: 2, dir: Dir::S },
            DoorDef { local_pos: GridPos::new(0, -4), width: 2, dir: Dir::W },
            DoorDef { local_pos: GridPos::new(10, -4), width: 2, dir: Dir::E },
        ],
        weight: 10,
        room_type,
    }
}

fn one_room_index() -> RoomIndex {
    RoomIndex {
        rooms: vec![four_door_def("room", RoomType::Room)],
        by_door_dir: vec![vec![0], vec![0], vec![0], vec![0]],
    }
}

#[test]
fn opposite_and_rotation() {
    for d in [Dir::N, Dir::S, Dir::E, Dir::W] {
        assert_eq!(d.opposite().opposite(), d);
        assert_ne!(d.opposite(), d);
        assert_eq!(d.rotate_cl().rotate_cl(), d.opposite());
        assert_eq!(d.rotate_cl().rotate_cl().rotate_cl().rotate_cl(), d);
        let v = d.as_vec();
        let o = d.opposite().as_vec();
        assert_eq!((v.x + o.x, v.y + o.y), (0, 0));
    }
    assert_eq!(Dir::N.rotate_cl(), Dir::E);
    assert_eq!(Dir::W.rotate_cl(), Dir::N);
    assert_eq!(Dir::S.as_vec(), Pos::new(0, -1));
    assert_eq!(Dir::W.index(), 3);
}

#[test]
fn door_offsets() {
    assert_eq!(Dir::N.door_offset(3), Pos::new(24, 0));
    assert_eq!(Dir::S.door_offset(3), Pos::new(24, -16));
    assert_eq!(Dir::E.door_offset(3), Pos::new(16, -24));
    assert_eq!(Dir::W.door_offset(3), Pos::new(0, -24));
}

#[test]
fn door_positions_and_clearance_zones() {
    let room = Room::new(&four_door_def("r", RoomType::Room), Pos::zero());
    let doors: Vec<Door> = room.room.doors.iter().map(|d| Door::new(&room, d)).collect();
    assert_eq!(doors[0].world_pos, Pos::new(80, 0));
    assert_eq!(doors[1].world_pos, Pos::new(80, -160));
    assert_eq!(doors[2].world_pos, Pos::new(0, -80));
    assert_eq!(doors[3].world_pos, Pos::new(160, -80));
    assert_eq!(doors[0].get_bounding_box(), (Pos::new(80, 24), Pos::new(64, 48)));
    assert_eq!(doors[1].get_bounding_box(), (Pos::new(80, -176), Pos::new(64, 32)));
    assert_eq!(doors[2].get_bounding_box(), (Pos::new(-16, -80), Pos::new(32, 80)));
    assert_eq!(doors[3].get_bounding_box(), (Pos::new(176, -80), Pos::new(32, 80)));
    // a room placed elsewhere shifts its doors with it
    let moved = Room::new(&four_door_def("r", RoomType::Room), Pos::new(-32, 48));
    assert_eq!(Door::new(&moved, &moved.room.doors[2]).world_pos, Pos::new(-32, -32));
}

#[test]
fn rectangle_overlaps() {
    assert!(rects_collide_tl(Pos::new(0, 0), Pos::new(10, 10), Pos::new(5, -5), Pos::new(10, 10)));
    // touching edges do not overlap
    assert!(!rects_collide_tl(Pos::new(0, 0), Pos::new(10, 10), Pos::new(10, 0), Pos::new(10, 10)));
    assert!(!rects_collide_tl(Pos::new(0, 0), Pos::new(10, 10), Pos::new(0, -10), Pos::new(10, 10)));
    // odd sizes keep their half-pixel edges
    assert!(rects_collide(Pos::new(0, 0), Pos::new(3, 3), Pos::new(1, 1), Pos::new(2, 2)));
    assert!(!rects_collide(Pos::new(0, 0), Pos::new(2, 2), Pos::new(1, 1), Pos::new(2, 2)));
    assert!(!rects_collide_center(Pos::new(0, 0), Pos::new(2, 2), Pos::new(2, 0), Pos::new(2, 2)));
    assert!(rects_collide_center(Pos::new(0, 0), Pos::new(4, 2), Pos::new(2, 0), Pos::new(2, 2)));
    // order does not matter
    assert_eq!(
        rects_collide_center(Pos::new(3, 1), Pos::new(5, 7), Pos::new(-1, 2), Pos::new(4, 4)),
        rects_collide_center(Pos::new(-1, 2), Pos::new(4, 4), Pos::new(3, 1), Pos::new(5, 7))
    );
    // a room resting on another's top edge does not overlap it, either way round
    assert!(!rects_collide_tl(Pos::new(0, 32), Pos::new(32, 32), Pos::new(0, 0), Pos::new(64, 64)));
    assert!(!rects_collide_tl(Pos::new(0, 0), Pos::new(64, 64), Pos::new(0, 32), Pos::new(32, 32)));
    // coordinates at the ends of the i64 range
    let big = Pos::new(i64::MAX, i64::MAX);
    assert!(rects_collide_tl(Pos::new(i64::MAX - 10, i64::MAX), Pos::new(20, 20), big, Pos::new(5, 5)));
    assert!(!rects_collide(Pos::new(i64::MIN, i64::MIN), Pos::new(2, 2), big, Pos::new(i64::MAX, i64::MAX)));
    assert!(rects_collide_center(big, Pos::new(i64::MAX, i64::MAX), big, Pos::new(2, 2)));
}

#[test]
fn floor_division() {
    assert_eq!(floor_div(-7, 2), -4);
    assert_eq!(floor_div(7, 2), 3);
    assert_eq!(floor_div(-8, 2), -4);
    assert_eq!(floor_div(0, 5), 0);
    assert_eq!(floor_div(-1, 256), -1);
}

#[test]
fn spatial_hash_lists_rooms_in_touched_cells() {
    let mut grid = SpatialHash::new(100);
    grid.insert(0, Pos::new(0, 0), Pos::new(50, 50));
    assert_eq!(grid.query(Pos::new(60, -60), Pos::new(10, 10)), vec![0]);
    assert!(grid.query(Pos::new(200, 200), Pos::new(10, 10)).is_empty());
    grid.insert(1, Pos::new(90, 10), Pos::new(20, 20));
    let mut all = grid.query(Pos::new(0, 0), Pos::new(300, 300));
    all.sort();
    assert_eq!(all, vec![0, 1]);
    // cell (1, 0) holds only room 1
    assert_eq!(grid.query(Pos::new(150, 50), Pos::new(10, 10)), vec![1]);
}

#[test]
fn room_type_names() {
    assert_eq!(RoomType::from_str("Hallway"), Ok(RoomType::Hallway));
    assert_eq!(RoomType::from_str("Room"), Ok(RoomType::Room));
    assert_eq!(RoomType::from_str("Spawn"), Ok(RoomType::Spawn));
    assert_eq!(RoomType::from_str("room"), Err(()));
    assert_eq!(RoomType::from_str(""), Err(()));
    assert!(string_is(&"Door".to_string(), "Door"));
    assert!(!string_is(&"Doors".to_string(), "Door"));
    assert_eq!(GenerationState::default(), GenerationState::AssetLoading);
}

fn entity(id: &str, gx: i32, gy: i32, w: i32, h: i32) -> EntityInstance {
    EntityInstance { identifier: id.to_string(), grid: GridPos::new(gx, gy), width: w, height: h }
}

#[test]
fn room_index_from_levels() {
    let levels = vec![
        Level {
            iid: "a".to_string(),
            px_wid: 160,
            px_hei: 160,
            world_x: 32,
            world_y: -48,
            layer_instances: Some(vec![
                LayerInstance {
                    identifier: "Tiles".to_string(),
                    entity_instances: vec![entity("Door", 1, 0, 32, 16)],
                },
                LayerInstance {
                    identifier: "Entities".to_string(),
                    entity_instances: vec![
                        entity("Door", 4, 0, 32, 16),
                        entity("Torch", 2, 2, 16, 16),
                        entity("Door", 4, 9, 32, 16),
                        entity("Door", 0, 4, 16, 32),
                        entity("Door", 9, 4, 16, 48),
                    ],
                },
            ]),
            field_instances: vec![
                FieldInstance { identifier: "weight".to_string(), value: FieldValue::Float(Some(25)) },
                FieldInstance {
                    identifier: "room_type".to_string(),
                    value: FieldValue::Enum(Some("Spawn".to_string())),
                },
            ],
        },
        Level {
            iid: "no_layers".to_string(),
            px_wid: 16,
            px_hei: 16,
            world_x: 0,
            world_y: 0,
            layer_instances: None,
            field_instances: vec![],
        },
        Level {
            iid: "b".to_string(),
            px_wid: 64,
            px_hei: 160,
            world_x: 0,
            world_y: 0,
            layer_instances: Some(vec![LayerInstance {
                identifier: "Entities".to_string(),
                entity_instances: vec![entity("Door", 1, 9, 32, 16), entity("Door", 1, 0, 32, 16)],
            }]),
            field_instances: vec![
                FieldInstance { identifier: "weight".to_string(), value: FieldValue::Other },
                FieldInstance {
                    identifier: "room_type".to_string(),
                    value: FieldValue::Enum(Some("Dungeon".to_string())),
                },
            ],
        },
    ];
    assert!(levels_readable(&levels));
    let idx = build_room_index(&levels);
    assert!(idx.is_well_formed());
    assert_eq!(idx.rooms.len(), 2);
    let a = &idx.rooms[0];
    assert_eq!(a.iid, "a");
    assert_eq!(a.size, GridPos::new(160, 160));
    assert_eq!(a.offset, GridPos::new(32, -48));
    assert_eq!(a.weight, 25);
    assert_eq!(a.room_type, RoomType::Spawn);
    assert_eq!(
        a.doors,
        vec![
            DoorDef { local_pos: GridPos::new(5, 0), width: 2, dir: Dir::N },
            DoorDef { local_pos: GridPos::new(5, -9), width: 2, dir: Dir::S },
            DoorDef { local_pos: GridPos::new(0, -4), width: 2, dir: Dir::W },
            DoorDef { local_pos: GridPos::new(10, -4), width: 3, dir: Dir::E },
        ]
    );
    let b = &idx.rooms[1];
    assert_eq!(b.weight, 10);
    assert_eq!(b.room_type, RoomType::Hallway);
    assert_eq!(b.doors[0].dir, Dir::S);
    assert_eq!(b.doors[1].dir, Dir::N);
    assert_eq!(idx.by_door_dir[Dir::N.index()], vec![0, 1]);
    assert_eq!(idx.by_door_dir[Dir::S.index()], vec![0, 1]);
    assert_eq!(idx.by_door_dir[Dir::E.index()], vec![0]);
    assert_eq!(idx.by_door_dir[Dir::W.index()], vec![0]);
    // without the room that has side doors, the side-door lists are empty
    let only_b: Vec<Level> = levels.into_iter().skip(2).collect();
    let idx_b = build_room_index(&only_b);
    assert_eq!(idx_b.by_door_dir[Dir::N.index()], vec![0]);
    assert!(idx_b.by_door_dir[Dir::E.index()].is_empty());
    assert!(idx_b.by_door_dir[Dir::W.index()].is_empty());
}

#[test]
fn unreadable_door_cells_are_detected() {
    let levels = vec![Level {
        iid: "x".to_string(),
        px_wid: 16,
        px_hei: 16,
        world_x: 0,
        world_y: 0,
        layer_instances: Some(vec![LayerInstance {
            identifier: "Entities".to_string(),
            entity_instances: vec![entity("Door", i32::MAX, 3, 16, 32)],
        }]),
        field_instances: vec![],
    }];
    assert!(!levels_readable(&levels));
}

#[test]
fn add_room_closes_matching_doors_and_opens_the_rest() {
    let def = four_door_def("r", RoomType::Room);
    let mut state = WorldState::new();
    state.add_room(Room::new(&def, Pos::zero()));
    assert_eq!(state.rooms.len(), 1);
    assert_eq!(state.open_doors.len(), 4);
    state.add_room(Room::new(&def, Pos::new(0, 160)));
    let positions: Vec<Pos> = state.open_doors.iter().map(|d| d.world_pos).collect();
    assert_eq!(
        positions,
        vec![
            Pos::new(80, 160),
            Pos::new(80, -160),
            Pos::new(0, -80),
            Pos::new(160, -80),
            Pos::new(0, 80),
            Pos::new(160, 80),
        ]
    );
    // the grid knows both rooms
    let mut near = state.room_grid.query(Pos::new(0, 0), Pos::new(10, 10));
    near.sort();
    assert_eq!(near, vec![0, 1]);
}

#[test]
fn placement_checks() {
    let idx = one_room_index();
    let def = &idx.rooms[0];
    let mut state = WorldState::new();
    state.add_room(Room::new(def, Pos::zero()));
    // above, door to door: fits on its own
    let above = Room::new(def, Pos::new(0, 160));
    let placed = try_place_room(&above, &state, &idx, 0).expect("room above fits");
    assert_eq!(placed.len(), 1);
    assert_eq!(placed[0].world_pos, Pos::new(0, 160));
    // on top of the first room: refused
    assert!(try_place_room(&Room::new(def, Pos::zero()), &state, &idx, 0).is_none());
    // overlapping by one tile: refused
    assert!(try_place_room(&Room::new(def, Pos::new(0, 144)), &state, &idx, 0).is_none());
    // too deep in bridging: refused
    assert!(try_place_room(&above, &state, &idx, 6).is_none());
    // far from everything: fits
    let far = try_place_room(&Room::new(def, Pos::new(2_000_000_000_000, 0)), &state, &idx, 0).expect("far room fits");
    assert_eq!(far[0].world_pos, Pos::new(2_000_000_000_000, 0));
    // an empty layout takes any room in the world unchanged, at the deepest level too
    let empty = WorldState::new();
    let lone = try_place_room(&Room::new(def, Pos::new(-100_000_000_000_000_000, 7)), &empty, &idx, 5).expect("fits");
    assert_eq!(lone.len(), 1);
    assert_eq!(lone[0].world_pos, Pos::new(-100_000_000_000_000_000, 7));
}

#[test]
fn bridging_rooms_fill_both_doors() {
    let idx = one_room_index();
    let a = Door { door: DoorDef { local_pos: GridPos::new(5, 0), width: 2, dir: Dir::N }, world_pos: Pos::new(80, 0) };
    let b = Door { door: DoorDef { local_pos: GridPos::new(0, 0), width: 2, dir: Dir::W }, world_pos: Pos::new(160, 80) };
    let found = find_bridging_room(&a, &b, &idx);
    assert_eq!(found.len(), 1);
    assert_eq!(found[0].world_pos, Pos::new(0, 160));
    let doors: Vec<Door> = found[0].room.doors.iter().map(|d| Door::new(&found[0], d)).collect();
    assert!(doors.iter().any(|d| d.world_pos == a.world_pos && d.door.dir == Dir::S));
    assert!(doors.iter().any(|d| d.world_pos == b.world_pos && d.door.dir == Dir::E));
    // no other door of the placed room faces a north door at its own north door
    let c = Door { door: DoorDef { local_pos: GridPos::new(0, 0), width: 2, dir: Dir::N }, world_pos: Pos::new(80, 160) };
    assert!(find_bridging_room(&a, &c, &idx).is_empty());
}

#[test]
fn nearby_doors_nearest_first() {
    let mk = |x: i64, dir: Dir| Door {
        door: DoorDef { local_pos: GridPos::new(0, 0), width: 2, dir },
        world_pos: Pos::new(x, 0),
    };
    let open = vec![mk(0, Dir::N), mk(500, Dir::N), mk(100, Dir::S), mk(2000, Dir::N), mk(-100, Dir::E)];
    let near = nearby_doors(&open, Pos::zero(), CAMERA_SPAWN_DIST);
    let xs: Vec<i64> = near.iter().map(|d| d.world_pos.x).collect();
    assert_eq!(xs, vec![0, 100, -100, 500]);
    assert_eq!(near[1].door.dir, Dir::S);
    assert_eq!(near[2].door.dir, Dir::E);
    // exactly at the reach limit counts, one past it does not
    let edge = vec![mk(1000, Dir::N), mk(1001, Dir::N)];
    assert_eq!(nearby_doors(&edge, Pos::zero(), CAMERA_SPAWN_DIST).len(), 1);
}
