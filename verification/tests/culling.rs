use bevy_ldtk_procgen::culling::{is_beyond, reserved_rooms, respawn_dist, rooms_to_cull, rooms_to_respawn};
use bevy_ldtk_procgen::Pos;
use std::collections::HashSet;

#[test]
fn culls_rooms_beyond_cull_dist() {
    let spawned = vec![(0, Pos::new(0, 0)), (1, Pos::new(500, 0))];
    let culled = rooms_to_cull(&spawned, Pos::zero(), 100);
    assert_eq!(culled, vec![1]);
}

#[test]
fn keeps_rooms_within_cull_dist() {
    let spawned = vec![(0, Pos::new(50, 0))];
    let culled = rooms_to_cull(&spawned, Pos::zero(), 100);
    assert!(culled.is_empty());
}

#[test]
fn respawns_known_rooms_back_within_range() {
    let all_rooms = vec![(0, Pos::zero()), (1, Pos::new(500, 0))];
    let spawned = HashSet::new();
    let respawn = rooms_to_respawn(&all_rooms, &spawned, Pos::zero(), 100);
    assert_eq!(respawn, vec![0]);
}

#[test]
fn does_not_respawn_reserved_rooms() {
    // reserved covers both already-spawned rooms and rooms merely queued to spawn -
    // the function doesn't distinguish (the caller builds the union)
    let all_rooms = vec![(0, Pos::zero())];
    let mut reserved = HashSet::new();
    reserved.insert(0);
    let respawn = rooms_to_respawn(&all_rooms, &reserved, Pos::zero(), 100);
    assert!(respawn.is_empty());
}

#[test]
fn hysteresis_gap_is_neither_culled_nor_respawned() {
    // exactly between respawn_dist (80) and cull_dist (100)
    let pos = Pos::new(90, 0);
    let spawned = vec![(0, pos)];
    assert!(rooms_to_cull(&spawned, Pos::zero(), 100).is_empty());

    let all_rooms = vec![(0, pos)];
    let empty_spawned = HashSet::new();
    assert!(rooms_to_respawn(&all_rooms, &empty_spawned, Pos::zero(), 80).is_empty());
}

#[test]
fn cull_boundary_is_exclusive() {
    // (60, 80) is exactly 100 away: not beyond 100, beyond 99
    let p = Pos::new(60, 80);
    assert!(!is_beyond(p, Pos::zero(), 100));
    assert!(is_beyond(p, Pos::zero(), 99));
    let spawned = vec![(3, p), (4, Pos::new(61, 80))];
    assert_eq!(rooms_to_cull(&spawned, Pos::zero(), 100), vec![4]);
}

#[test]
fn negative_cull_distance_culls_everything() {
    let spawned = vec![(0, Pos::zero()), (1, Pos::new(1, 1))];
    assert_eq!(rooms_to_cull(&spawned, Pos::zero(), -1), vec![0, 1]);
    let none = HashSet::new();
    assert!(rooms_to_respawn(&spawned, &none, Pos::zero(), -1).is_empty());
}

#[test]
fn respawned_room_is_not_culled_at_the_same_camera() {
    let cam = Pos::new(-30, 45);
    let rooms = vec![(0, Pos::new(10, 10)), (1, Pos::new(200, 300)), (2, Pos::new(-60, 80))];
    let none = HashSet::new();
    let respawn = rooms_to_respawn(&rooms, &none, cam, 80);
    assert_eq!(respawn, vec![0, 2]);
    let spawned: Vec<(usize, Pos)> = rooms.iter().filter(|(i, _)| respawn.contains(i)).cloned().collect();
    assert!(rooms_to_cull(&spawned, cam, 100).is_empty());
}

#[test]
fn far_away_coordinates_do_not_overflow() {
    let far = Pos::new(i64::MAX, i64::MIN);
    assert!(is_beyond(far, Pos::new(i64::MIN, i64::MAX), i64::MAX));
    assert!(!is_beyond(far, far, 0));
}

#[test]
fn respawn_distance_is_four_fifths_of_the_cull_distance() {
    assert_eq!(respawn_dist(100), 80);
    assert_eq!(respawn_dist(2000), 1600);
    assert_eq!(respawn_dist(7), 5);
    assert_eq!(respawn_dist(0), 0);
    assert_eq!(respawn_dist(-3), -3);
    assert_eq!(respawn_dist(i64::MAX), 7378697629483820645);
}

#[test]
fn reserved_rooms_are_the_spawned_and_the_queued() {
    let reserved = reserved_rooms(&[3, 1], &[1, 7]);
    let expected: HashSet<usize> = [1, 3, 7].into_iter().collect();
    assert_eq!(reserved, expected);
    assert!(reserved_rooms(&[], &[]).is_empty());
}
