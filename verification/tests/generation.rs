//! Drives generation batch by batch against a small catalog built the way level
//! data describes rooms: doors as `Door` entities on an `Entities` layer, and
//! `weight` / `room_type` fields.

use bevy_ldtk_procgen::generation::{fill_door, nearby_doors, CAMERA_SPAWN_DIST, MAX_ROOMS};
use bevy_ldtk_procgen::room_index::{EntityInstance, FieldInstance, FieldValue, LayerInstance, Level};
use bevy_ldtk_procgen::{
    build_room_index, generate_batch, rects_collide, rects_collide_tl, Dir, Door, GridPos, Pos, Room,
    RoomIndex, RoomType, WorldState,
};
use rand::rngs::SmallRng;
use rand::SeedableRng;
use std::time::{Duration, Instant};

const MAX_BATCHES: usize = 200;
const MIN_EXPECTED_ROOMS: usize = 3;

fn door_entity(gx: i32, gy: i32, width: i32, height: i32) -> EntityInstance {
    EntityInstance { identifier: "Door".to_string(), grid: GridPos::new(gx, gy), width, height }
}

fn level(iid: &str, w_tiles: i32, h_tiles: i32, doors: Vec<EntityInstance>, room_type: &str) -> Level {
    Level {
        iid: iid.to_string(),
        px_wid: w_tiles * 16,
        px_hei: h_tiles * 16,
        world_x: 0,
        world_y: 0,
        layer_instances: Some(vec![LayerInstance {
            identifier: "Entities".to_string(),
            entity_instances: doors,
        }]),
        field_instances: vec![
            FieldInstance { identifier: "weight".to_string(), value: FieldValue::Float(Some(10)) },
            FieldInstance {
                identifier: "room_type".to_string(),
                value: FieldValue::Enum(Some(room_type.to_string())),
            },
        ],
    }
}

fn four_door(iid: &str, room_type: &str) -> Level {
    level(
        iid,
        10,
        10,
        vec![
            door_entity(4, 0, 32, 16),
            door_entity(4, 9, 32, 16),
            door_entity(0, 4, 16, 32),
            door_entity(9, 4, 16, 32),
        ],
        room_type,
    )
}

fn catalog_levels() -> Vec<Level> {
    vec![
        four_door("spawn", "Spawn"),
        four_door("room", "Room"),
        level("hall_ns", 4, 10, vec![door_entity(1, 0, 32, 16), door_entity(1, 9, 32, 16)], "Hallway"),
        level("hall_ew", 10, 4, vec![door_entity(0, 1, 16, 32), door_entity(9, 1, 16, 32)], "Hallway"),
        level("cap_below_n", 4, 3, vec![door_entity(1, 2, 32, 16)], "Room"),
        level("cap_above_s", 4, 2, vec![door_entity(1, 0, 32, 16)], "Room"),
        level("cap_right_of_e", 2, 4, vec![door_entity(0, 1, 16, 32)], "Room"),
        level("cap_left_of_w", 2, 4, vec![door_entity(1, 1, 16, 32)], "Room"),
    ]
}

fn load_room_index() -> RoomIndex {
    let idx = build_room_index(&catalog_levels());
    assert!(idx.is_well_formed());
    idx
}

/// Commits a batch's placed rooms; door bookkeeping happens inside add_room.
fn commit_batch(state: &mut WorldState, placed: &[Room]) {
    for room in placed {
        state.add_room(room.clone());
    }
}

/// Runs `generate_batch` on a throwaway copy of the persistent state, then commits
/// what it placed, walking the camera to the last room placed each batch.
fn drive_generation(room_idx: &RoomIndex) -> WorldState {
    let mut state = WorldState::new();
    let mut rng = SmallRng::seed_from_u64(42);
    let mut cam_pos = Pos::zero();

    for _ in 0..MAX_BATCHES {
        let mut batch_state = state.clone();
        let placed = generate_batch(&mut batch_state, room_idx, cam_pos, CAMERA_SPAWN_DIST, MAX_ROOMS, &mut rng);
        if placed.is_empty() {
            break;
        }
        if let Some(last) = placed.last() {
            cam_pos = last.world_pos;
        }
        commit_batch(&mut state, &placed);
    }
    state
}

#[test]
fn no_overlapping_rooms_after_generation() {
    let room_idx = load_room_index();
    let state = drive_generation(&room_idx);

    assert!(
        state.rooms.len() >= MIN_EXPECTED_ROOMS,
        "generation stalled almost immediately - only {} rooms placed",
        state.rooms.len()
    );

    for (i, a) in state.rooms.iter().enumerate() {
        for b in &state.rooms[i + 1..] {
            assert!(
                !rects_collide_tl(a.world_pos, a.size(), b.world_pos, b.size()),
                "rooms {:?} and {:?} overlap at {:?} / {:?}",
                a.room.iid,
                b.room.iid,
                a.world_pos,
                b.world_pos,
            );
        }
    }
}

#[test]
fn generation_speed_smoke() {
    let room_idx = load_room_index();

    let start = Instant::now();
    let state = drive_generation(&room_idx);
    let elapsed = start.elapsed();

    let rooms_per_sec = state.rooms.len() as f64 / elapsed.as_secs_f64().max(1e-9);
    println!(
        "generated {} rooms in {:?} ({:.0} rooms/sec)",
        state.rooms.len(),
        elapsed,
        rooms_per_sec
    );

    assert!(
        elapsed < Duration::from_secs(5),
        "room generation took too long: {:?} for {} rooms - possible perf regression",
        elapsed,
        state.rooms.len()
    );
}

/// Only the clearance zones of doors still open at the end are checked: a resolved
/// door's reservation has served its purpose.
#[test]
fn no_door_overlaps_with_room_bodies_after_generation() {
    let room_idx = load_room_index();
    let state = drive_generation(&room_idx);

    assert!(
        state.rooms.len() >= MIN_EXPECTED_ROOMS,
        "generation stalled almost immediately - only {} rooms placed",
        state.rooms.len()
    );

    for (i, room) in state.rooms.iter().enumerate() {
        for doordef in &room.room.doors {
            let door = Door::new(room, doordef);

            let is_still_open = state.open_doors.iter().any(|d| d.world_pos == door.world_pos);
            if !is_still_open {
                continue;
            }

            let (bbox_pos, bbox_size) = door.get_bounding_box();

            for (j, other) in state.rooms.iter().enumerate() {
                if i == j {
                    continue;
                }
                if !rects_collide(bbox_pos, bbox_size, other.world_pos, other.size()) {
                    continue;
                }
                let is_matching_connection = other.room.doors.iter().any(|d| {
                    d.dir == doordef.dir.opposite() && Door::new(other, d).world_pos == door.world_pos
                });
                assert!(
                    is_matching_connection,
                    "open door of room {:?} (dir {:?}) at {:?} overlaps room {:?}'s body at {:?}/{:?} without a matching connection",
                    room.room.iid,
                    doordef.dir,
                    door.world_pos,
                    other.room.iid,
                    other.world_pos,
                    other.room.size,
                );
            }
        }
    }
}

/// With the camera fixed, every open door within reach gets filled within a few
/// batches.
#[test]
fn nearby_open_doors_get_filled_within_a_few_batches() {
    const FEW_BATCHES: usize = 100;

    let room_idx = load_room_index();
    let mut state = WorldState::new();
    let mut rng = SmallRng::seed_from_u64(42);
    let cam_pos = Pos::zero();

    for _ in 0..FEW_BATCHES {
        let mut batch_state = state.clone();
        let placed = generate_batch(&mut batch_state, &room_idx, cam_pos, CAMERA_SPAWN_DIST, MAX_ROOMS, &mut rng);
        if placed.is_empty() {
            break;
        }
        commit_batch(&mut state, &placed);
    }

    let stuck_doors: Vec<Pos> = nearby_doors(&state.open_doors, cam_pos, CAMERA_SPAWN_DIST).iter().map(|d| d.world_pos).collect();

    assert!(
        stuck_doors.is_empty(),
        "{} open door(s) within CAMERA_SPAWN_DIST ({}) of the camera are still unfilled after {} batches: {:?}",
        stuck_doors.len(),
        CAMERA_SPAWN_DIST,
        FEW_BATCHES,
        stuck_doors,
    );
}

#[test]
fn first_batch_places_a_spawn_room_at_the_origin_without_recording_it() {
    let room_idx = load_room_index();
    let mut state = WorldState::new();
    let mut rng = SmallRng::seed_from_u64(7);
    let placed = generate_batch(&mut state, &room_idx, Pos::zero(), CAMERA_SPAWN_DIST, MAX_ROOMS, &mut rng);
    assert_eq!(placed.len(), 1);
    assert_eq!(placed[0].world_pos, Pos::zero());
    assert_eq!(placed[0].room.room_type, RoomType::Spawn);
    assert_eq!(placed[0].room.iid, "spawn");
    assert!(state.rooms.is_empty());
    assert!(state.open_doors.is_empty());
}

#[test]
fn spawn_choice_follows_the_shuffle() {
    // Two spawn rooms: over a handful of seeds both get picked, so the choice is the
    // shuffle's, not always the first in catalog order.
    let mut levels = catalog_levels();
    levels.push(four_door("spawn_b", "Spawn"));
    let room_idx = build_room_index(&levels);
    let mut seen = std::collections::HashSet::new();
    for seed in 0..32u64 {
        let mut state = WorldState::new();
        let mut rng = SmallRng::seed_from_u64(seed);
        let placed = generate_batch(&mut state, &room_idx, Pos::zero(), CAMERA_SPAWN_DIST, MAX_ROOMS, &mut rng);
        seen.insert(placed[0].room.iid.clone());
    }
    assert!(seen.contains("spawn"));
    assert!(seen.contains("spawn_b"));
}

#[test]
fn batch_result_committed_equals_batch_state() {
    let room_idx = load_room_index();
    let mut state = WorldState::new();
    let mut rng = SmallRng::seed_from_u64(3);
    let spawn = generate_batch(&mut state.clone(), &room_idx, Pos::zero(), CAMERA_SPAWN_DIST, MAX_ROOMS, &mut rng);
    commit_batch(&mut state, &spawn);

    let mut batch_state = state.clone();
    let placed = generate_batch(&mut batch_state, &room_idx, Pos::zero(), CAMERA_SPAWN_DIST, MAX_ROOMS, &mut rng);
    assert!(!placed.is_empty());
    commit_batch(&mut state, &placed);

    assert_eq!(state.rooms.len(), batch_state.rooms.len());
    for (a, b) in state.rooms.iter().zip(batch_state.rooms.iter()) {
        assert_eq!(a.world_pos, b.world_pos);
        assert_eq!(a.room.iid, b.room.iid);
    }
    assert_eq!(state.open_doors, batch_state.open_doors);
}

#[test]
fn second_batch_connects_rooms_door_to_door() {
    let room_idx = load_room_index();
    let mut state = WorldState::new();
    let mut rng = SmallRng::seed_from_u64(11);
    let spawn = generate_batch(&mut state.clone(), &room_idx, Pos::zero(), CAMERA_SPAWN_DIST, MAX_ROOMS, &mut rng);
    commit_batch(&mut state, &spawn);
    assert_eq!(state.open_doors.len(), 4);

    let mut batch_state = state.clone();
    let placed = generate_batch(&mut batch_state, &room_idx, Pos::zero(), CAMERA_SPAWN_DIST, MAX_ROOMS, &mut rng);
    assert!(!placed.is_empty());
    // every placed room touches the layout through a door that stood open
    for room in &placed {
        let connects = room.room.doors.iter().any(|d| {
            let door = Door::new(room, d);
            state.open_doors.iter().any(|o| o.world_pos == door.world_pos && o.door.dir == d.dir.opposite())
                || placed.iter().any(|p| {
                    !std::ptr::eq(p, room)
                        && p.room.doors.iter().any(|pd| Door::new(p, pd).world_pos == door.world_pos)
                })
        });
        assert!(connects, "room {:?} at {:?} is not connected", room.room.iid, room.world_pos);
    }
}

#[test]
fn far_camera_places_nothing() {
    let room_idx = load_room_index();
    let state = drive_generation(&room_idx);
    let mut batch_state = state.clone();
    let mut rng = SmallRng::seed_from_u64(5);
    // far from every door: nothing to fill
    let placed = generate_batch(&mut batch_state, &room_idx, Pos::new(1_000_000, 1_000_000), CAMERA_SPAWN_DIST, MAX_ROOMS, &mut rng);
    assert!(placed.is_empty());
    assert_eq!(batch_state.rooms.len(), state.rooms.len());
}

#[test]
fn fill_door_places_the_first_candidate_that_fits() {
    let room_idx = load_room_index();
    let mut state = WorldState::new();
    let mut rng = SmallRng::seed_from_u64(1);
    let spawn = generate_batch(&mut state.clone(), &room_idx, Pos::zero(), CAMERA_SPAWN_DIST, MAX_ROOMS, &mut rng);
    commit_batch(&mut state, &spawn);
    let north = *state.open_doors.iter().find(|d| d.door.dir == Dir::N).unwrap();

    // hall_ew (3) has no door facing south, so it is passed over for cap_below_n (4)
    let mut placed: Vec<Room> = Vec::new();
    let mut filled = state.clone();
    fill_door(&mut filled, &room_idx, &north, &vec![3, 3, 4, 2], &mut placed);
    assert_eq!(placed.len(), 1);
    assert_eq!(placed[0].room.iid, "cap_below_n");
    assert_eq!(filled.rooms.len(), state.rooms.len() + 1);
    assert!(!filled.open_doors.iter().any(|d| d.world_pos == north.world_pos));

    // the same candidates in another order give another room
    let mut placed2: Vec<Room> = Vec::new();
    let mut filled2 = state.clone();
    fill_door(&mut filled2, &room_idx, &north, &vec![2, 4], &mut placed2);
    assert_eq!(placed2.len(), 1);
    assert_eq!(placed2[0].room.iid, "hall_ns");

    // no candidate fits: nothing changes
    let mut placed3: Vec<Room> = Vec::new();
    let mut filled3 = state.clone();
    fill_door(&mut filled3, &room_idx, &north, &vec![3, 6], &mut placed3);
    assert!(placed3.is_empty());
    assert_eq!(filled3.rooms.len(), state.rooms.len());
    assert_eq!(filled3.open_doors, state.open_doors);
}

#[test]
fn doors_beyond_the_search_radius_are_not_filled() {
    let room_idx = load_room_index();
    let mut state = WorldState::new();
    let mut rng = SmallRng::seed_from_u64(2);
    let spawn = generate_batch(&mut state.clone(), &room_idx, Pos::zero(), CAMERA_SPAWN_DIST, MAX_ROOMS, &mut rng);
    commit_batch(&mut state, &spawn);
    // the spawn room's doors are 80 px from its corner: a 50 px radius reaches none
    let mut batch_state = state.clone();
    let placed = generate_batch(&mut batch_state, &room_idx, Pos::zero(), 50, MAX_ROOMS, &mut rng);
    assert!(placed.is_empty());
    assert_eq!(batch_state.rooms.len(), state.rooms.len());
    assert_eq!(batch_state.open_doors, state.open_doors);
    // a 100 px radius reaches the north and west doors only
    assert_eq!(nearby_doors(&state.open_doors, Pos::zero(), 100).len(), 2);
    assert_eq!(nearby_doors(&state.open_doors, Pos::zero(), -1).len(), 0);
}

#[test]
fn no_room_is_placed_once_the_cap_is_reached() {
    let room_idx = load_room_index();
    let mut state = WorldState::new();
    let mut rng = SmallRng::seed_from_u64(2);
    let spawn = generate_batch(&mut state.clone(), &room_idx, Pos::zero(), CAMERA_SPAWN_DIST, MAX_ROOMS, &mut rng);
    commit_batch(&mut state, &spawn);
    let mut batch_state = state.clone();
    let placed = generate_batch(&mut batch_state, &room_idx, Pos::zero(), CAMERA_SPAWN_DIST, 1, &mut rng);
    assert!(placed.is_empty());
    assert_eq!(batch_state.rooms.len(), 1);
    // with room for two more (counting the batch's rooms twice), one door is filled
    let mut batch_state = state.clone();
    let placed = generate_batch(&mut batch_state, &room_idx, Pos::zero(), CAMERA_SPAWN_DIST, 3, &mut rng);
    assert!(!placed.is_empty());
    assert_eq!(batch_state.rooms.len(), 1 + placed.len());
}
