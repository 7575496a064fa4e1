//! Deciding where a room may go: bridging rooms for pairs of clashing doors, and
//! the validation of a placement.
use vstd::prelude::*;

use crate::catalog::{DoorDef, RoomDef, RoomDefView, RoomIndex};
use crate::geometry::{
    rects_collide, rects_collide_center, rects_collide_tl, spec_collide, spec_collide_center,
    spec_collide_tl, Pos,
};
use crate::room::{
    lemma_bounding_box_bounds, lemma_door_bounds, spec_bounding_box, spec_door, spec_door_pos,
    Door, Room, RoomView,
};
use crate::world_state::{room_views, spec_push_rooms, StateView, WorldState};

verus! {

/// Top-left corner at which a room must stand so that its door `d1` lands exactly
/// on `door_a`: the door position formula solved for the room's position.
pub open spec fn bridge_pos(door_a: Door, d1: DoorDef) -> Pos {
    Pos {
        x: (door_a.world_pos.x - 16 * d1.local_pos.x) as i64,
        y: (door_a.world_pos.y - 16 * d1.local_pos.y - d1.dir.spec_door_offset(
            d1.width as int,
        ).1) as i64,
    }
}

/// Copies of `placed` for each door among the first `m` of `c` other than `d1`
/// that lands on `door_b` facing it.
pub open spec fn bridges_via(
    c: RoomDefView,
    d1: DoorDef,
    placed: RoomView,
    door_b: Door,
    m: nat,
) -> Seq<RoomView>
    decreases m,
{
    if m == 0 {
        Seq::empty()
    } else {
        let d2 = c.doors[m - 1];
        let prev = bridges_via(c, d1, placed, door_b, (m - 1) as nat);
        if d2 != d1 && spec_door_pos(placed.pos, d2) == door_b.world_pos && d2.dir
            == door_b.door.dir.spec_opposite() {
            prev.push(placed)
        } else {
            prev
        }
    }
}

/// Placements of template `c` that fill both doors, for its first `n` doors taken
/// as the one landing on `door_a`.
pub open spec fn bridges_of_room(c: RoomDefView, door_a: Door, door_b: Door, n: nat) -> Seq<
    RoomView,
>
    decreases n,
{
    if n == 0 {
        Seq::empty()
    } else {
        let d1 = c.doors[n - 1];
        let prev = bridges_of_room(c, door_a, door_b, (n - 1) as nat);
        if d1.dir != door_a.door.dir.spec_opposite() {
            prev
        } else {
            let placed = RoomView { def: c, pos: bridge_pos(door_a, d1) };
            prev + bridges_via(c, d1, placed, door_b, c.doors.len())
        }
    }
}

/// Every placement of the first `n` templates of the catalog that fills both
/// `door_a` and `door_b`, in catalog order.
pub open spec fn spec_find_bridging(cat: Seq<RoomDefView>, door_a: Door, door_b: Door, n: nat) -> Seq<
    RoomView,
>
    decreases n,
{
    if n == 0 {
        Seq::empty()
    } else {
        spec_find_bridging(cat, door_a, door_b, (n - 1) as nat) + bridges_of_room(
            cat[n - 1],
            door_a,
            door_b,
            cat[n - 1].doors.len(),
        )
    }
}

/// A bridge position is exact and the door it was solved from lands back on
/// `door_a`; computed from a door near the world it is within reach.
pub proof fn lemma_bridge_pos(door_a: Door, d1: DoorDef)
    requires
        door_a.world_pos.bridge_fits(),
    ensures
        bridge_pos(door_a, d1).door_fits(),
        door_a.world_pos.near_world() ==> bridge_pos(door_a, d1).in_reach(),
        bridge_pos(door_a, d1).x == door_a.world_pos.x - 16 * d1.local_pos.x,
        bridge_pos(door_a, d1).y == door_a.world_pos.y - 16 * d1.local_pos.y
            - d1.dir.spec_door_offset(d1.width as int).1,
        spec_door_pos(bridge_pos(door_a, d1), d1) == door_a.world_pos,
{
    lemma_door_bounds(bridge_pos(door_a, d1), d1);
}

/// Every room of the catalog, placed so that it fills both `door_a` and `door_b`
/// at once, in catalog order; a room appears once for every pair of its doors
/// that fits. All of them are returned, not only the first, so that a caller can
/// fall back to the next when one fails its own validation.
pub fn find_bridging_room(door_a: &Door, door_b: &Door, room_idx: &RoomIndex) -> (r: Vec<Room>)
    requires
        door_a.world_pos.bridge_fits(),
    ensures
        room_idx.wf() ==> forall|i: int| 0 <= i < r@.len() ==> (#[trigger] r@[i])@.def.wf(),
        crate::world_state::room_views(r@) == spec_find_bridging(
            room_idx.defs(),
            *door_a,
            *door_b,
            room_idx.rooms@.len(),
        ),
        door_a.world_pos.near_world() ==> forall|i: int| 0 <= i < r@.len() ==> (#[trigger] r@[i]).world_pos.in_reach(),
{
    let ghost cat = room_idx.defs();
    let mut candidates: Vec<Room> = Vec::new();
    let mut i: usize = 0;
    while i < room_idx.rooms.len()
        invariant
            i <= room_idx.rooms@.len(),
            cat == room_idx.defs(),
            door_a.world_pos.bridge_fits(),
            crate::world_state::room_views(candidates@) == spec_find_bridging(
                cat,
                *door_a,
                *door_b,
                i as nat,
            ),
            door_a.world_pos.near_world() ==> forall|t: int|
                0 <= t < candidates@.len() ==> (#[trigger] candidates@[t]).world_pos.in_reach(),
            room_idx.wf() ==> forall|t: int| 0 <= t < candidates@.len() ==> (#[trigger] candidates@[t])@.def.wf(),
        decreases room_idx.rooms@.len() - i,
    {
        let candidate = &room_idx.rooms[i];
        let ghost c = candidate@;
        proof {
            assert(cat[i as int] == c);
            if room_idx.wf() {
                assert(room_idx.rooms@[i as int].wf());
            }
        }
        let ghost base = crate::world_state::room_views(candidates@);
        let mut k: usize = 0;
        while k < candidate.doors.len()
            invariant
                k <= candidate.doors@.len(),
                c == candidate@,
                door_a.world_pos.bridge_fits(),
                crate::world_state::room_views(candidates@) == base + bridges_of_room(
                    c,
                    *door_a,
                    *door_b,
                    k as nat,
                ),
                door_a.world_pos.near_world() ==> forall|t: int|
                    0 <= t < candidates@.len() ==> (#[trigger] candidates@[t]).world_pos.in_reach(),
                room_idx.wf() ==> c.wf(),
                room_idx.wf() ==> forall|t: int| 0 <= t < candidates@.len() ==> (#[trigger] candidates@[t])@.def.wf(),
            decreases candidate.doors@.len() - k,
        {
            let d1 = candidate.doors[k];
            let ghost before = crate::world_state::room_views(candidates@);
            if d1.dir == door_a.door.dir.opposite() {
                proof {
                    lemma_bridge_pos(*door_a, d1);
                }
                let off = d1.dir.door_offset(d1.width);
                let room_world_pos = Pos {
                    x: door_a.world_pos.x - 16 * (d1.local_pos.x as i64),
                    y: door_a.world_pos.y - 16 * (d1.local_pos.y as i64) - off.y,
                };
                let placed = Room::new(candidate, room_world_pos);
                let ghost pv = placed@;
                let mut m: usize = 0;
                while m < candidate.doors.len()
                    invariant
                        m <= candidate.doors@.len(),
                        c == candidate@,
                        pv == placed@,
                        pv.def == c,
                        placed.world_pos.door_fits(),
                        door_a.world_pos.near_world() ==> placed.world_pos.in_reach(),
                        crate::world_state::room_views(candidates@) == before + bridges_via(
                            c,
                            d1,
                            pv,
                            *door_b,
                            m as nat,
                        ),
                        door_a.world_pos.near_world() ==> forall|t: int|
                            0 <= t < candidates@.len() ==> (#[trigger] candidates@[t]).world_pos.in_reach(),
                        room_idx.wf() ==> c.wf(),
                        room_idx.wf() ==> forall|t: int| 0 <= t < candidates@.len() ==> (#[trigger] candidates@[t])@.def.wf(),
                    decreases candidate.doors@.len() - m,
                {
                    let d2 = candidate.doors[m];
                    if d2 != d1 {
                        let d2_door = Door::new(&placed, &d2);
                        if d2_door.world_pos == door_b.world_pos && d2.dir == door_b.door.dir.opposite() {
                            let copy = placed.clone();
                            let ghost prev = candidates@;
                            candidates.push(copy);
                            proof {
                                assert(crate::world_state::room_views(candidates@) =~= crate::world_state::room_views(prev).push(pv));
                                assert forall|t: int| 0 <= t < candidates@.len() implies (door_a.world_pos.near_world() ==> (#[trigger] candidates@[t]).world_pos.in_reach()) && (room_idx.wf() ==> candidates@[t]@.def.wf()) by {
                                    if t < prev.len() {
                                        assert(candidates@[t] == prev[t]);
                                    } else {
                                        assert(candidates@[t]@ == pv);
                                    }
                                }
                            }
                        }
                    }
                    m += 1;
                }
                proof {
                    assert(bridges_of_room(c, *door_a, *door_b, (k + 1) as nat) == bridges_of_room(
                        c,
                        *door_a,
                        *door_b,
                        k as nat,
                    ) + bridges_via(c, d1, pv, *door_b, c.doors.len()));
                    assert(base + bridges_of_room(c, *door_a, *door_b, (k + 1) as nat) =~= before
                        + bridges_via(c, d1, pv, *door_b, c.doors.len()));
                }
            }
            k += 1;
        }
        proof {
            assert(spec_find_bridging(cat, *door_a, *door_b, (i + 1) as nat) == base + bridges_of_room(
                c,
                *door_a,
                *door_b,
                c.doors.len(),
            ));
        }
        i += 1;
    }
    candidates
}

/// How deep bridging may nest: a bridge needed by a bridge needed by ... a room.
pub const MAX_BRIDGE_DEPTH: usize = 5;

/// `room` overlaps none of `rooms`.
pub open spec fn clear_of_rooms(room: RoomView, rooms: Seq<RoomView>) -> bool {
    forall|i: int|
        0 <= i < rooms.len() ==> !spec_collide_tl(
            room.pos,
            room.size(),
            #[trigger] rooms[i].pos,
            rooms[i].size(),
        )
}

/// Some open door stands where `door` stands and faces it: `door` is completing a
/// connection.
pub open spec fn is_active_connection(open: Seq<Door>, door: Door) -> bool {
    exists|j: int|
        0 <= j < open.len() && (#[trigger] open[j]).world_pos == door.world_pos && open[j].door.dir
            == door.door.dir.spec_opposite()
}

/// One of the doors of `r` stands at `p`.
pub open spec fn is_door_spot(r: RoomView, p: Pos) -> bool {
    exists|k: int| 0 <= k < r.def.doors.len() && spec_door_pos(r.pos, #[trigger] r.def.doors[k]) == p
}

/// The clearance zone of `door` is free of room `r`, or `door` sits on one of the
/// doors of `r`.
pub open spec fn door_clear_of(door: Door, r: RoomView) -> bool {
    !spec_collide(spec_bounding_box(door).0, spec_bounding_box(door).1, r.pos, r.size())
        || is_door_spot(r, door.world_pos)
}

/// Every door of `room` that is not completing a connection keeps its clearance
/// zone free of the placed rooms (or sits on one of their doors).
pub open spec fn doors_clear_of_rooms(room: RoomView, s: StateView) -> bool {
    forall|k: int, i: int|
        #![trigger room.def.doors[k], s.rooms[i]]
        0 <= k < room.def.doors.len() && 0 <= i < s.rooms.len() ==> {
            let door = spec_door(room.pos, room.def.doors[k]);
            is_active_connection(s.open_doors, door) || door_clear_of(door, s.rooms[i])
        }
}

/// `room` has a door at the position of `e` facing it.
pub open spec fn is_own_door(room: RoomView, e: Door) -> bool {
    exists|k: int|
        0 <= k < room.def.doors.len() && (#[trigger] room.def.doors[k]).dir == e.door.dir.spec_opposite()
            && spec_door_pos(room.pos, room.def.doors[k]) == e.world_pos
}

/// No open door's clearance zone reaches into `room`, except open doors that
/// `room` itself connects to.
pub open spec fn open_doors_clear_of_room(room: RoomView, s: StateView) -> bool {
    forall|j: int|
        0 <= j < s.open_doors.len() ==> {
            let e = #[trigger] s.open_doors[j];
            !spec_collide(spec_bounding_box(e).0, spec_bounding_box(e).1, room.pos, room.size())
                || is_own_door(room, e)
        }
}

/// `new_door` and the open door `e` clash: they stand apart but their clearance
/// zones overlap.
pub open spec fn doors_clash(new_door: Door, e: Door) -> bool {
    new_door.world_pos != e.world_pos && spec_collide_center(
        spec_bounding_box(new_door).0,
        spec_bounding_box(new_door).1,
        spec_bounding_box(e).0,
        spec_bounding_box(e).1,
    )
}

/// Pairs of `new_door` with each of the first `m` open doors it clashes with.
pub open spec fn clashes_of_door(new_door: Door, open: Seq<Door>, m: nat) -> Seq<(Door, Door)>
    decreases m,
{
    if m == 0 {
        Seq::empty()
    } else {
        let prev = clashes_of_door(new_door, open, (m - 1) as nat);
        if doors_clash(new_door, open[m - 1]) {
            prev.push((new_door, open[m - 1]))
        } else {
            prev
        }
    }
}

/// Clashing pairs for the first `n` doors of `room`, door by door.
pub open spec fn clashes(room: RoomView, open: Seq<Door>, n: nat) -> Seq<(Door, Door)>
    decreases n,
{
    if n == 0 {
        Seq::empty()
    } else {
        clashes(room, open, (n - 1) as nat) + clashes_of_door(
            spec_door(room.pos, room.def.doors[n - 1]),
            open,
            open.len(),
        )
    }
}

/// The checks that `room` passes directly, before any bridging.
pub open spec fn passes_checks(room: RoomView, s: StateView) -> bool {
    &&& clear_of_rooms(room, s.rooms)
    &&& doors_clear_of_rooms(room, s)
    &&& open_doors_clear_of_room(room, s)
}

/// Result of placing `room` in state `s` at bridging depth `depth`: `None` if it
/// cannot be placed, else the room followed by the bridging rooms it needs.
pub open spec fn spec_place(room: RoomView, s: StateView, cat: Seq<RoomDefView>, depth: nat) -> Option<
    Seq<RoomView>,
>
    decreases MAX_BRIDGE_DEPTH + 1 - depth, 2nat, 0nat,
{
    if depth > MAX_BRIDGE_DEPTH {
        None
    } else if !passes_checks(room, s) {
        None
    } else {
        let pairs = clashes(room, s.open_doors, room.def.doors.len());
        match spec_bridges(pairs, spec_push_rooms(s, seq![room]), cat, depth, pairs.len()) {
            None => None,
            Some(b) => Some(seq![room] + b),
        }
    }
}

/// Bridging rooms for the first `n` clashing pairs, each validated one level deeper
/// against `pretend` with the bridging rooms of the earlier pairs added; `None` as
/// soon as one pair cannot be bridged.
pub open spec fn spec_bridges(
    pairs: Seq<(Door, Door)>,
    pretend: StateView,
    cat: Seq<RoomDefView>,
    depth: nat,
    n: nat,
) -> Option<Seq<RoomView>>
    decreases MAX_BRIDGE_DEPTH + 1 - depth, 1nat, n,
{
    if depth > MAX_BRIDGE_DEPTH {
        None
    } else if n == 0 {
        Some(Seq::empty())
    } else {
        match spec_bridges(pairs, pretend, cat, depth, (n - 1) as nat) {
            None => None,
            Some(b) => {
                let pair = pairs[n - 1];
                let cands = spec_find_bridging(cat, pair.0, pair.1, cat.len());
                match spec_first_bridge(cands, spec_push_rooms(pretend, b), cat, depth, 0) {
                    None => None,
                    Some(x) => Some(b + x),
                }
            },
        }
    }
}

/// The placement of the first of `cands[i..]` that can be placed in `pretend` one
/// level deeper.
pub open spec fn spec_first_bridge(
    cands: Seq<RoomView>,
    pretend: StateView,
    cat: Seq<RoomDefView>,
    depth: nat,
    i: nat,
) -> Option<Seq<RoomView>>
    decreases MAX_BRIDGE_DEPTH + 1 - depth, 0nat, cands.len() - i,
{
    if depth > MAX_BRIDGE_DEPTH || i >= cands.len() {
        None
    } else if !cands[i as int].pos.in_world() {
        spec_first_bridge(cands, pretend, cat, depth, i + 1)
    } else {
        match spec_place(cands[i as int], pretend, cat, depth + 1) {
            Some(v) => Some(v),
            None => spec_first_bridge(cands, pretend, cat, depth, i + 1),
        }
    }
}

/// Exact test of `clear_of_rooms` against the placed rooms, asking the grid only
/// about rooms near `room`.
#[verifier::loop_isolation(false)]
fn room_clear_of_rooms(room: &Room, state: &WorldState) -> (b: bool)
    requires
        state.wf(),
        room@.wf(),
    ensures
        b == clear_of_rooms(room@, state.view_state().rooms),
{
    let ghost rv = state.view_state().rooms;
    let size = room.size();
    let near = state.room_grid.query(room.world_pos, size);
    let mut t: usize = 0;
    while t < near.len()
        invariant
            t <= near@.len(),
            state.wf(),
            room@.wf(),
            size == room@.size(),
            rv == state.view_state().rooms,
            forall|j: usize| #[trigger] near@.contains(j) <==> state.room_grid.listed_near(room.world_pos, size, j),
            forall|u: int|
                0 <= u < t ==> !spec_collide_tl(
                    room.world_pos,
                    size,
                    rv[#[trigger] near@[u] as int].pos,
                    rv[near@[u] as int].size(),
                ),
        decreases near@.len() - t,
    {
        let idx = near[t];
        proof {
            assert(near@.contains(idx));
            crate::spatial_hash::lemma_listed_below(
                state.room_grid,
                room.world_pos,
                size,
                idx,
                state.rooms@.len(),
            );
        }
        let r = &state.rooms[idx];
        proof {
            assert(rv[idx as int] == r@);
        }
        if rects_collide_tl(room.world_pos, size, r.world_pos, r.size()) {
            return false;
        }
        t += 1;
    }
    proof {
        assert forall|i: int| 0 <= i < rv.len() implies !spec_collide_tl(
            room@.pos,
            room@.size(),
            #[trigger] rv[i].pos,
            rv[i].size(),
        ) by {
            assert(rv.len() == state.rooms@.len());
            assert(state.rooms@.len() == state.rooms.len());
            assert(rv[i] == state.rooms@[i]@);
            assert((i as usize) as int == i);
            if spec_collide_tl(room@.pos, room@.size(), rv[i].pos, rv[i].size()) {
                crate::geometry::law_collide_tl_symmetric(room@.pos, room@.size(), rv[i].pos, rv[i].size());
                crate::world_state::law_grid_finds_overlapping_rooms(*state, room.world_pos, size, i);
                assert(near@.contains(i as usize));
                let u = choose|u: int| 0 <= u < near@.len() && near@[u] == i as usize;
                assert(!spec_collide_tl(room.world_pos, size, rv[near@[u] as int].pos, rv[near@[u] as int].size()));
            }
        }
    }
    true
}

/// Exact test of `is_active_connection`.
fn active_connection(open: &Vec<Door>, door: &Door) -> (b: bool)
    ensures
        b == is_active_connection(open@, *door),
{
    let want = door.door.dir.opposite();
    let mut j: usize = 0;
    while j < open.len()
        invariant
            j <= open@.len(),
            want == door.door.dir.spec_opposite(),
            forall|u: int|
                0 <= u < j ==> !((#[trigger] open@[u]).world_pos == door.world_pos && open@[u].door.dir
                    == want),
        decreases open@.len() - j,
    {
        if open[j].world_pos == door.world_pos && open[j].door.dir == want {
            return true;
        }
        j += 1;
    }
    false
}

/// Exact test of `is_door_spot`.
fn door_spot(r: &Room, p: Pos) -> (b: bool)
    requires
        r.world_pos.in_reach(),
    ensures
        b == is_door_spot(r@, p),
{
    let mut k: usize = 0;
    while k < r.room.doors.len()
        invariant
            k <= r.room.doors@.len(),
            r.world_pos.in_reach(),
            forall|u: int| 0 <= u < k ==> spec_door_pos(r@.pos, #[trigger] r@.def.doors[u]) != p,
        decreases r.room.doors@.len() - k,
    {
        let d = Door::new(r, &r.room.doors[k]);
        if d.world_pos == p {
            proof {
                assert(spec_door_pos(r@.pos, r@.def.doors[k as int]) == p);
            }
            return true;
        }
        k += 1;
    }
    false
}

/// Exact test of `is_own_door`.
fn own_door(room: &Room, e: &Door) -> (b: bool)
    requires
        room.world_pos.in_reach(),
    ensures
        b == is_own_door(room@, *e),
{
    let want = e.door.dir.opposite();
    let mut k: usize = 0;
    while k < room.room.doors.len()
        invariant
            k <= room.room.doors@.len(),
            room.world_pos.in_reach(),
            want == e.door.dir.spec_opposite(),
            forall|u: int|
                0 <= u < k ==> !((#[trigger] room@.def.doors[u]).dir == want && spec_door_pos(
                    room@.pos,
                    room@.def.doors[u],
                ) == e.world_pos),
        decreases room.room.doors@.len() - k,
    {
        let d = room.room.doors[k];
        if d.dir == want && Door::new(room, &d).world_pos == e.world_pos {
            return true;
        }
        k += 1;
    }
    false
}

/// Exact test of `doors_clear_of_rooms`, asking the grid only about rooms near each
/// door's clearance zone.
#[verifier::loop_isolation(false)]
fn doors_clear(room: &Room, state: &WorldState) -> (b: bool)
    requires
        state.wf(),
        room@.wf(),
    ensures
        b == doors_clear_of_rooms(room@, state.view_state()),
{
    let ghost sv = state.view_state();
    let ghost rv = sv.rooms;
    let mut k: usize = 0;
    while k < room.room.doors.len()
        invariant
            k <= room.room.doors@.len(),
            state.wf(),
            room@.wf(),
            sv == state.view_state(),
            rv == sv.rooms,
            forall|kk: int, i: int|
                #![trigger room@.def.doors[kk], rv[i]]
                0 <= kk < k && 0 <= i < rv.len() ==> {
                    let door = spec_door(room@.pos, room@.def.doors[kk]);
                    is_active_connection(sv.open_doors, door) || door_clear_of(door, rv[i])
                },
        decreases room.room.doors@.len() - k,
    {
        let doordef = room.room.doors[k];
        let door = Door::new(room, &doordef);
        proof {
            assert(room@.def.doors[k as int] == doordef);
        }
        if !active_connection(&state.open_doors, &door) {
            proof {
                lemma_bounding_box_bounds(door);
            }
            let (bc, bs) = door.get_bounding_box();
            let tl = Pos { x: bc.x - bs.x / 2, y: bc.y + bs.y / 2 };
            let near = state.room_grid.query(tl, bs);
            let mut t: usize = 0;
            while t < near.len()
                invariant
                    t <= near@.len(),
                    state.wf(),
                    room@.wf(),
                    rv == state.view_state().rooms,
                    door == spec_door(room@.pos, doordef),
                    door.world_pos.near_world(),
                    (bc, bs) == spec_bounding_box(door),
                    bc.small(),
                    bs.small(),
                    forall|j: usize| #[trigger] near@.contains(j) <==> state.room_grid.listed_near(tl, bs, j),
                    forall|u: int| 0 <= u < t ==> door_clear_of(door, rv[#[trigger] near@[u] as int]),
                decreases near@.len() - t,
            {
                let idx = near[t];
                proof {
                    assert(near@.contains(idx));
                    crate::spatial_hash::lemma_listed_below(
                        state.room_grid,
                        tl,
                        bs,
                        idx,
                        state.rooms@.len(),
                    );
                }
                let r = &state.rooms[idx];
                proof {
                    assert(rv[idx as int] == r@);
                }
                if rects_collide(bc, bs, r.world_pos, r.size()) && !door_spot(r, door.world_pos) {
                    proof {
                        assert(!door_clear_of(door, rv[idx as int]));
                        assert(!is_active_connection(sv.open_doors, door));
                        assert(!doors_clear_of_rooms(room@, sv)) by {
                            assert(room@.def.doors[k as int] == doordef);
                            assert(rv[idx as int] == sv.rooms[idx as int]);
                        }
                    }
                    return false;
                }
                t += 1;
            }
            proof {
                assert forall|i: int| 0 <= i < rv.len() implies door_clear_of(door, #[trigger] rv[i]) by {
                    assert(rv.len() == state.rooms@.len());
            assert(state.rooms@.len() == state.rooms.len());
                    assert(rv[i] == state.rooms@[i]@);
                    assert((i as usize) as int == i);
                    if spec_collide(bc, bs, rv[i].pos, rv[i].size()) {
                        crate::geometry::law_center_is_top_left(bc, bs, rv[i].pos, rv[i].size());
                        crate::geometry::law_collide_tl_symmetric(tl, bs, rv[i].pos, rv[i].size());
                        crate::world_state::law_grid_finds_overlapping_rooms(*state, tl, bs, i);
                        assert(near@.contains(i as usize));
                        let u = choose|u: int| 0 <= u < near@.len() && near@[u] == i as usize;
                        assert(door_clear_of(door, rv[near@[u] as int]));
                    }
                }
            }
        }
        k += 1;
    }
    true
}

/// Exact test of `open_doors_clear_of_room`.
fn open_doors_clear(room: &Room, state: &WorldState) -> (b: bool)
    requires
        state.wf(),
        room@.wf(),
    ensures
        b == open_doors_clear_of_room(room@, state.view_state()),
{
    let size = room.size();
    let mut j: usize = 0;
    while j < state.open_doors.len()
        invariant
            j <= state.open_doors@.len(),
            state.wf(),
            room@.wf(),
            size == room@.size(),
            forall|u: int|
                0 <= u < j ==> {
                    let e = #[trigger] state.open_doors@[u];
                    !spec_collide(spec_bounding_box(e).0, spec_bounding_box(e).1, room@.pos, room@.size())
                        || is_own_door(room@, e)
                },
        decreases state.open_doors@.len() - j,
    {
        let e = state.open_doors[j];
        proof {
            lemma_bounding_box_bounds(e);
        }
        let (bc, bs) = e.get_bounding_box();
        if rects_collide(bc, bs, room.world_pos, size) {
            if !own_door(room, &e) {
                return false;
            }
        }
        j += 1;
    }
    true
}

/// The clashing pairs of `room`'s doors with the open doors, door by door.
fn door_clashes(room: &Room, open: &Vec<Door>) -> (r: Vec<(Door, Door)>)
    requires
        room@.wf(),
        forall|i: int| 0 <= i < open@.len() ==> (#[trigger] open@[i]).world_pos.near_world(),
    ensures
        r@ == clashes(room@, open@, room@.def.doors.len()),
        forall|i: int| 0 <= i < r@.len() ==> (#[trigger] r@[i]).0.world_pos.near_world(),
{
    let mut pairs: Vec<(Door, Door)> = Vec::new();
    let mut k: usize = 0;
    while k < room.room.doors.len()
        invariant
            k <= room.room.doors@.len(),
            room@.wf(),
            forall|i: int| 0 <= i < open@.len() ==> (#[trigger] open@[i]).world_pos.near_world(),
            pairs@ == clashes(room@, open@, k as nat),
            forall|i: int| 0 <= i < pairs@.len() ==> (#[trigger] pairs@[i]).0.world_pos.near_world(),
        decreases room.room.doors@.len() - k,
    {
        let doordef = room.room.doors[k];
        let new_door = Door::new(room, &doordef);
        proof {
            assert(room@.def.doors[k as int] == doordef);
            lemma_bounding_box_bounds(new_door);
        }
        let (nc, ns) = new_door.get_bounding_box();
        let ghost base = pairs@;
        let mut j: usize = 0;
        while j < open.len()
            invariant
                j <= open@.len(),
                forall|i: int| 0 <= i < open@.len() ==> (#[trigger] open@[i]).world_pos.near_world(),
                new_door.world_pos.near_world(),
                (nc, ns) == spec_bounding_box(new_door),
                nc.small(),
                ns.small(),
                pairs@ == base + clashes_of_door(new_door, open@, j as nat),
                forall|i: int| 0 <= i < pairs@.len() ==> (#[trigger] pairs@[i]).0.world_pos.near_world(),
            decreases open@.len() - j,
        {
            let existing = open[j];
            proof {
                lemma_bounding_box_bounds(existing);
            }
            if new_door.world_pos != existing.world_pos {
                let (ec, es) = existing.get_bounding_box();
                if rects_collide_center(nc, ns, ec, es) {
                    pairs.push((new_door, existing));
                    proof {
                        assert(base + clashes_of_door(new_door, open@, (j + 1) as nat) =~= (base
                            + clashes_of_door(new_door, open@, j as nat)).push((new_door, existing)));
                    }
                }
            }
            j += 1;
        }
        proof {
            assert(spec_door(room@.pos, room@.def.doors[k as int]) == new_door);
            assert(clashes(room@, open@, (k + 1) as nat) == base + clashes_of_door(new_door, open@, open@.len()));
        }
        k += 1;
    }
    pairs
}

/// Rooms of an optional result as mathematical values.
pub open spec fn opt_views(o: Option<Vec<Room>>) -> Option<Seq<RoomView>> {
    match o {
        Some(v) => Some(room_views(v@)),
        None => None,
    }
}

/// Tries to place `room` in `state`, `depth` levels deep in bridging. The room's
/// corner must lie within `WORLD_LIMIT` (2^57 px) of the origin, the range in which
/// every position derived from it fits in an `i64`; bridging candidates outside it
/// are passed over. The room must pass, in order: no overlap with a placed room; no door's
/// clearance zone reaching into a placed room unless the door completes a
/// connection or sits on a door of that room; no open door's clearance zone
/// reaching into the room unless the room connects to it. Then each pair of a new
/// door and an open door whose clearance zones clash needs a bridging room: the
/// first candidate from `find_bridging_room` that can itself be placed, one level
/// deeper, in a trial layout holding `state`'s rooms, `room` and the bridging rooms
/// of the earlier pairs, with `state`'s open doors. Returns the room followed by
/// every bridging room, or `None`.
pub fn try_place_room(room: &Room, state: &WorldState, room_idx: &RoomIndex, depth: usize) -> (r:
    Option<Vec<Room>>)
    requires
        state.wf(),
        room_idx.wf(),
        room@.def.wf(),
        room.world_pos.in_world(),
    ensures
        opt_views(r) == spec_place(room@, state.view_state(), room_idx.defs(), depth as nat),
    decreases MAX_BRIDGE_DEPTH + 1 - depth, 2nat, 0nat,
{
    if depth > MAX_BRIDGE_DEPTH {
        return None;
    }
    if !room_clear_of_rooms(room, state) {
        return None;
    }
    if !doors_clear(room, state) {
        return None;
    }
    if !open_doors_clear(room, state) {
        return None;
    }
    let ghost sv = state.view_state();
    let ghost cat = room_idx.defs();
    let pairs = door_clashes(room, &state.open_doors);
    let mut result: Vec<Room> = Vec::new();
    result.push(room.clone());
    proof {
        assert(room_views(result@) =~= seq![room@]);
    }
    if pairs.len() == 0 {
        proof {
            assert(room_views(result@) =~= seq![room@] + Seq::<RoomView>::empty());
        }
        return Some(result);
    }
    let mut pretend = state.clone();
    pretend.push_room(room.clone());
    let ghost pv = spec_push_rooms(sv, seq![room@]);
    proof {
        assert(pretend.rooms@.len() == room_views(pretend.rooms@).len());
        assert(state.rooms@.len() == room_views(state.rooms@).len());
        assert(room_views(result@).drop_first() =~= Seq::<RoomView>::empty());
        assert(pv.rooms + Seq::<RoomView>::empty() =~= pv.rooms);
        assert forall|t: int| 0 <= t < cat.len() implies (#[trigger] cat[t]).wf() by {
            assert(cat[t] == room_idx.rooms@[t]@);
        }
    }
    let mut k: usize = 0;
    while k < pairs.len()
        invariant
            k <= pairs@.len(),
            pretend.wf(),
            room_idx.wf(),
            cat_wf(cat),
            depth <= MAX_BRIDGE_DEPTH,
            cat == room_idx.defs(),
            sv == state.view_state(),
            pv == spec_push_rooms(sv, seq![room@]),
            pretend.view_state() == spec_push_rooms(pv, room_views(result@).drop_first()),
            pairs@ == clashes(room@, sv.open_doors, room@.def.doors.len()),
            passes_checks(room@, sv),
            forall|i: int| 0 <= i < pairs@.len() ==> (#[trigger] pairs@[i]).0.world_pos.near_world(),
            spec_bridges(pairs@, pv, cat, depth as nat, k as nat) == Some(
                room_views(result@).drop_first(),
            ),
            room_views(result@).len() >= 1,
            room_views(result@)[0] == room@,
        decreases pairs@.len() - k,
    {
        let cands = find_bridging_room(&pairs[k].0, &pairs[k].1, room_idx);
        proof {
            assert(cat.len() == room_idx.rooms@.len());
        }
        let ghost before = room_views(result@);
        let ghost pk = pretend.view_state();
        match first_placeable(&cands, &pretend, room_idx, depth) {
            None => {
                proof {
                    lemma_bridges_none_extends(pairs@, pv, cat, depth as nat, (k + 1) as nat, pairs@.len());
                }
                return None;
            },
            Some(b) => {
                let ghost bv = room_views(b@);
                proof {
                    lemma_first_bridge_wf(room_views(cands@), pk, cat, depth as nat, 0);
                }
                push_all(&mut pretend, &b);
                let mut b = b;
                result.append(&mut b);
                proof {
                    assert(room_views(result@) =~= before + bv);
                    assert(room_views(result@).drop_first() =~= before.drop_first() + bv);
                    assert(pv.rooms + before.drop_first() + bv =~= pv.rooms + (before.drop_first() + bv));
                }
            },
        }
        k += 1;
    }
    proof {
        assert(seq![room@] + room_views(result@).drop_first() =~= room_views(result@));
    }
    Some(result)
}

/// Adds each of `rooms` to the trial layout, leaving its open doors as they are.
fn push_all(pretend: &mut WorldState, rooms: &Vec<Room>)
    requires
        old(pretend).wf(),
        all_wf(room_views(rooms@)),
    ensures
        final(pretend).wf(),
        final(pretend).view_state() == spec_push_rooms(old(pretend).view_state(), room_views(rooms@)),
{
    let ghost rv = room_views(rooms@);
    let ghost p0 = pretend.view_state();
    let mut t: usize = 0;
    proof {
        assert(p0.rooms + rv.take(0) =~= p0.rooms);
    }
    while t < rooms.len()
        invariant
            t <= rooms@.len(),
            pretend.wf(),
            rv == room_views(rooms@),
            all_wf(rv),
            pretend.view_state() == spec_push_rooms(p0, rv.take(t as int)),
        decreases rooms@.len() - t,
    {
        proof {
            assert(rv[t as int] == rooms@[t as int]@);
        }
        pretend.push_room(rooms[t].clone());
        proof {
            assert(rv.take(t as int + 1) =~= rv.take(t as int) + seq![rv[t as int]]);
            assert(p0.rooms + rv.take(t as int) + seq![rv[t as int]] =~= p0.rooms + rv.take(t as int + 1));
        }
        t += 1;
    }
    proof {
        assert(rv.take(rv.len() as int) =~= rv);
    }
}

/// Once bridging fails for a prefix of the pairs, it fails for every longer prefix.
pub proof fn lemma_bridges_none_extends(
    pairs: Seq<(Door, Door)>,
    pretend: StateView,
    cat: Seq<RoomDefView>,
    depth: nat,
    m: nat,
    n: nat,
)
    requires
        m <= n,
        spec_bridges(pairs, pretend, cat, depth, m) is None,
    ensures
        spec_bridges(pairs, pretend, cat, depth, n) is None,
    decreases n - m,
{
    if n > m {
        lemma_bridges_none_extends(pairs, pretend, cat, depth, m, (n - 1) as nat);
    }
}

/// The placement of the first of `cands` that can be placed in `pretend` one level
/// deeper than `depth`.
fn first_placeable(cands: &Vec<Room>, pretend: &WorldState, room_idx: &RoomIndex, depth: usize) -> (r:
    Option<Vec<Room>>)
    requires
        pretend.wf(),
        room_idx.wf(),
        depth <= MAX_BRIDGE_DEPTH,
        forall|i: int| 0 <= i < cands@.len() ==> (#[trigger] cands@[i]).world_pos.in_reach(),
        forall|i: int| 0 <= i < cands@.len() ==> (#[trigger] cands@[i])@.def.wf(),
    ensures
        opt_views(r) == spec_first_bridge(
            room_views(cands@),
            pretend.view_state(),
            room_idx.defs(),
            depth as nat,
            0,
        ),
    decreases MAX_BRIDGE_DEPTH + 1 - depth, 1nat, 0nat,
{
    let ghost cv = room_views(cands@);
    let ghost pv = pretend.view_state();
    let ghost cat = room_idx.defs();
    let mut i: usize = 0;
    while i < cands.len()
        invariant
            i <= cands@.len(),
            cv == room_views(cands@),
            pv == pretend.view_state(),
            cat == room_idx.defs(),
            pretend.wf(),
            room_idx.wf(),
            depth <= MAX_BRIDGE_DEPTH,
            forall|t: int| 0 <= t < cands@.len() ==> (#[trigger] cands@[t]).world_pos.in_reach(),
            forall|t: int| 0 <= t < cands@.len() ==> (#[trigger] cands@[t])@.def.wf(),
            spec_first_bridge(cv, pv, cat, depth as nat, 0) == spec_first_bridge(
                cv,
                pv,
                cat,
                depth as nat,
                i as nat,
            ),
        decreases cands@.len() - i,
    {
        proof {
            assert(cv.len() == cands@.len());
            assert(cv[i as int] == cands@[i as int]@);
        }
        if cands[i].world_pos.is_in_world() {
            let res = try_place_room(&cands[i], pretend, room_idx, depth + 1);
            proof {
                assert(opt_views(res) == spec_place(cv[i as int], pv, cat, (depth + 1) as nat));
            }
            if res.is_some() {
                return res;
            }
        }
        i += 1;
    }
    None
}

/// Every catalog template has a non-negative extent.
pub open spec fn cat_wf(cat: Seq<RoomDefView>) -> bool {
    forall|i: int| 0 <= i < cat.len() ==> (#[trigger] cat[i]).wf()
}

/// Every room of `v` lies in the world with a non-negative extent.
pub open spec fn all_wf(v: Seq<RoomView>) -> bool {
    forall|i: int| 0 <= i < v.len() ==> (#[trigger] v[i]).wf()
}

/// Bridging candidates are placements of catalog templates.
pub proof fn lemma_bridging_defs(cat: Seq<RoomDefView>, a: Door, b: Door, n: nat)
    requires
        cat_wf(cat),
        n <= cat.len(),
    ensures
        forall|i: int|
            0 <= i < spec_find_bridging(cat, a, b, n).len() ==> (#[trigger] spec_find_bridging(
                cat,
                a,
                b,
                n,
            )[i]).def.wf(),
    decreases n,
{
    if n > 0 {
        lemma_bridging_defs(cat, a, b, (n - 1) as nat);
        let c = cat[n - 1];
        assert(c.wf());
        lemma_bridges_of_room_defs(c, a, b, c.doors.len());
        let p = spec_find_bridging(cat, a, b, (n - 1) as nat);
        let q = bridges_of_room(c, a, b, c.doors.len());
        assert forall|i: int| 0 <= i < (p + q).len() implies (#[trigger] (p + q)[i]).def.wf() by {
            if i < p.len() {
                assert((p + q)[i] == p[i]);
            } else {
                assert((p + q)[i] == q[i - p.len()]);
            }
        }
    }
}

/// Placements of one template carry that template.
pub proof fn lemma_bridges_of_room_defs(c: RoomDefView, a: Door, b: Door, n: nat)
    requires
        n <= c.doors.len(),
    ensures
        forall|i: int|
            0 <= i < bridges_of_room(c, a, b, n).len() ==> (#[trigger] bridges_of_room(c, a, b, n)[i]).def
                == c,
    decreases n,
{
    if n > 0 {
        lemma_bridges_of_room_defs(c, a, b, (n - 1) as nat);
        let d1 = c.doors[n - 1];
        if d1.dir == a.door.dir.spec_opposite() {
            let placed = RoomView { def: c, pos: bridge_pos(a, d1) };
            lemma_bridges_via_all(c, d1, placed, b, c.doors.len());
            let p = bridges_of_room(c, a, b, (n - 1) as nat);
            let q = bridges_via(c, d1, placed, b, c.doors.len());
            assert forall|i: int| 0 <= i < (p + q).len() implies (#[trigger] (p + q)[i]).def == c by {
                if i < p.len() {
                    assert((p + q)[i] == p[i]);
                } else {
                    assert((p + q)[i] == q[i - p.len()]);
                }
            }
        }
    }
}

/// `bridges_via` only ever repeats `placed`.
pub proof fn lemma_bridges_via_all(c: RoomDefView, d1: DoorDef, placed: RoomView, b: Door, m: nat)
    ensures
        forall|i: int|
            0 <= i < bridges_via(c, d1, placed, b, m).len() ==> #[trigger] bridges_via(
                c,
                d1,
                placed,
                b,
                m,
            )[i] == placed,
    decreases m,
{
    if m > 0 {
        lemma_bridges_via_all(c, d1, placed, b, (m - 1) as nat);
    }
}

/// Every room of a placement lies in the world with a non-negative extent, when the
/// room and the catalog templates have non-negative extents.
pub proof fn lemma_place_wf(room: RoomView, s: StateView, cat: Seq<RoomDefView>, depth: nat)
    requires
        room.wf(),
        cat_wf(cat),
    ensures
        spec_place(room, s, cat, depth) matches Some(v) ==> all_wf(v),
    decreases MAX_BRIDGE_DEPTH + 1 - depth, 2nat, 0nat,
{
    if depth <= MAX_BRIDGE_DEPTH && passes_checks(room, s) {
        let pairs = clashes(room, s.open_doors, room.def.doors.len());
        let pretend = spec_push_rooms(s, seq![room]);
        lemma_bridges_wf(pairs, pretend, cat, depth, pairs.len());
        match spec_bridges(pairs, pretend, cat, depth, pairs.len()) {
            None => {},
            Some(b) => {
                let v = seq![room] + b;
                assert forall|i: int| 0 <= i < v.len() implies (#[trigger] v[i]).wf() by {
                    if i > 0 {
                        assert(v[i] == b[i - 1]);
                    }
                }
            },
        }
    }
}

/// Bridging rooms lie in the world with non-negative extents.
pub proof fn lemma_bridges_wf(
    pairs: Seq<(Door, Door)>,
    pretend: StateView,
    cat: Seq<RoomDefView>,
    depth: nat,
    n: nat,
)
    requires
        cat_wf(cat),
    ensures
        spec_bridges(pairs, pretend, cat, depth, n) matches Some(b) ==> all_wf(b),
    decreases MAX_BRIDGE_DEPTH + 1 - depth, 1nat, n,
{
    if depth <= MAX_BRIDGE_DEPTH && n > 0 {
        lemma_bridges_wf(pairs, pretend, cat, depth, (n - 1) as nat);
        let pair = pairs[n - 1];
        let cands = spec_find_bridging(cat, pair.0, pair.1, cat.len());
        lemma_bridging_defs(cat, pair.0, pair.1, cat.len());
        match spec_bridges(pairs, pretend, cat, depth, (n - 1) as nat) {
            None => {},
            Some(b) => {
                lemma_first_bridge_wf(cands, spec_push_rooms(pretend, b), cat, depth, 0);
                match spec_first_bridge(cands, spec_push_rooms(pretend, b), cat, depth, 0) {
                    None => {},
                    Some(x) => {
                        assert forall|i: int| 0 <= i < (b + x).len() implies (#[trigger] (b
                            + x)[i]).wf() by {
                            if i < b.len() {
                                assert((b + x)[i] == b[i]);
                            } else {
                                assert((b + x)[i] == x[i - b.len()]);
                            }
                        }
                    },
                }
            },
        }
    }
}

/// The first placeable candidate's placement lies in the world with non-negative
/// extents.
pub proof fn lemma_first_bridge_wf(
    cands: Seq<RoomView>,
    pretend: StateView,
    cat: Seq<RoomDefView>,
    depth: nat,
    i: nat,
)
    requires
        cat_wf(cat),
        forall|t: int| 0 <= t < cands.len() ==> (#[trigger] cands[t]).def.wf(),
    ensures
        spec_first_bridge(cands, pretend, cat, depth, i) matches Some(v) ==> all_wf(v),
    decreases MAX_BRIDGE_DEPTH + 1 - depth, 0nat, cands.len() - i,
{
    if depth <= MAX_BRIDGE_DEPTH && i < cands.len() {
        if cands[i as int].pos.in_world() {
            lemma_place_wf(cands[i as int], pretend, cat, depth + 1);
        }
        lemma_first_bridge_wf(cands, pretend, cat, depth, i + 1);
    }
}

/// Rooms `a` and `b` do not overlap.
pub open spec fn apart(a: RoomView, b: RoomView) -> bool {
    !spec_collide_tl(a.pos, a.size(), b.pos, b.size())
}

/// Every room of `v` overlaps none of `rooms`.
pub open spec fn all_clear_of(v: Seq<RoomView>, rooms: Seq<RoomView>) -> bool {
    forall|i: int, j: int|
        0 <= i < v.len() && 0 <= j < rooms.len() ==> apart(#[trigger] v[i], #[trigger] rooms[j])
}

/// No two of `rooms` overlap.
pub open spec fn pairwise_apart(rooms: Seq<RoomView>) -> bool {
    forall|i: int, j: int|
        0 <= i < rooms.len() && 0 <= j < rooms.len() && i != j ==> apart(#[trigger] rooms[i], #[trigger] rooms[j])
}

/// Two runs of rooms, each free of overlaps and the second overlapping none of the
/// first, together are free of overlaps.
pub proof fn lemma_concat_apart(a: Seq<RoomView>, b: Seq<RoomView>)
    requires
        pairwise_apart(a),
        pairwise_apart(b),
        all_clear_of(b, a),
    ensures
        pairwise_apart(a + b),
{
    let all = a + b;
    let n = a.len();
    assert forall|i: int, j: int| 0 <= i < all.len() && 0 <= j < all.len() && i != j implies apart(
        #[trigger] all[i],
        #[trigger] all[j],
    ) by {
        if i < n && j < n {
            assert(all[i] == a[i] && all[j] == a[j]);
        } else if i >= n && j >= n {
            assert(all[i] == b[i - n] && all[j] == b[j - n]);
        } else if i >= n && j < n {
            assert(all[i] == b[i - n] && all[j] == a[j]);
        } else {
            assert(all[i] == a[i] && all[j] == b[j - n]);
            assert(apart(b[j - n], a[i]));
            crate::geometry::law_collide_tl_symmetric(b[j - n].pos, b[j - n].size(), a[i].pos, a[i].size());
        }
    }
}

/// A placement never overlaps the layout or itself: it starts with the room, every
/// room it returns (the room, then its bridging rooms) overlaps none of the placed
/// rooms, and no two of them overlap each other.
pub proof fn law_placement_is_clear(room: RoomView, s: StateView, cat: Seq<RoomDefView>, depth: nat)
    ensures
        spec_place(room, s, cat, depth) matches Some(v) ==> {
            &&& v.len() >= 1
            &&& v[0] == room
            &&& all_clear_of(v, s.rooms)
            &&& pairwise_apart(v)
        },
    decreases MAX_BRIDGE_DEPTH + 1 - depth, 2nat, 0nat,
{
    if depth <= MAX_BRIDGE_DEPTH && passes_checks(room, s) {
        let pairs = clashes(room, s.open_doors, room.def.doors.len());
        let pretend = spec_push_rooms(s, seq![room]);
        lemma_bridges_clear(pairs, pretend, cat, depth, pairs.len());
        match spec_bridges(pairs, pretend, cat, depth, pairs.len()) {
            None => {},
            Some(b) => {
                let v = seq![room] + b;
                let n = s.rooms.len();
                assert forall|i: int, j: int| 0 <= i < v.len() && 0 <= j < s.rooms.len() implies apart(
                    #[trigger] v[i],
                    #[trigger] s.rooms[j],
                ) by {
                    if i > 0 {
                        assert(v[i] == b[i - 1]);
                        assert(pretend.rooms[j] == s.rooms[j]);
                    }
                }
                assert forall|i: int, j: int| 0 <= i < b.len() && 0 <= j < 1 implies apart(
                    #[trigger] b[i],
                    #[trigger] seq![room][j],
                ) by {
                    assert(pretend.rooms[n as int] == room);
                }
                lemma_concat_apart(seq![room], b);
            },
        }
    }
}

/// Bridging rooms overlap none of the rooms of the state they were placed in, nor
/// each other.
pub proof fn lemma_bridges_clear(
    pairs: Seq<(Door, Door)>,
    pretend: StateView,
    cat: Seq<RoomDefView>,
    depth: nat,
    n: nat,
)
    ensures
        spec_bridges(pairs, pretend, cat, depth, n) matches Some(b) ==> all_clear_of(b, pretend.rooms)
            && pairwise_apart(b),
    decreases MAX_BRIDGE_DEPTH + 1 - depth, 1nat, n,
{
    if depth <= MAX_BRIDGE_DEPTH && n > 0 {
        lemma_bridges_clear(pairs, pretend, cat, depth, (n - 1) as nat);
        let pair = pairs[n - 1];
        let cands = spec_find_bridging(cat, pair.0, pair.1, cat.len());
        match spec_bridges(pairs, pretend, cat, depth, (n - 1) as nat) {
            None => {},
            Some(b) => {
                let p2 = spec_push_rooms(pretend, b);
                lemma_first_bridge_clear(cands, p2, cat, depth, 0);
                match spec_first_bridge(cands, p2, cat, depth, 0) {
                    None => {},
                    Some(x) => {
                        let m = pretend.rooms.len();
                        assert forall|i: int, j: int|
                            0 <= i < (b + x).len() && 0 <= j < pretend.rooms.len() implies apart(
                            #[trigger] (b + x)[i],
                            #[trigger] pretend.rooms[j],
                        ) by {
                            if i < b.len() {
                                assert((b + x)[i] == b[i]);
                            } else {
                                assert((b + x)[i] == x[i - b.len()]);
                                assert(p2.rooms[j] == pretend.rooms[j]);
                            }
                        }
                        assert forall|i: int, j: int| 0 <= i < x.len() && 0 <= j < b.len() implies apart(
                            #[trigger] x[i],
                            #[trigger] b[j],
                        ) by {
                            assert(p2.rooms[m + j] == b[j]);
                        }
                        lemma_concat_apart(b, x);
                    },
                }
            },
        }
    }
}

/// The first placeable candidate's placement overlaps none of the rooms of the
/// state it was placed in, nor itself.
pub proof fn lemma_first_bridge_clear(
    cands: Seq<RoomView>,
    pretend: StateView,
    cat: Seq<RoomDefView>,
    depth: nat,
    i: nat,
)
    ensures
        spec_first_bridge(cands, pretend, cat, depth, i) matches Some(v) ==> all_clear_of(
            v,
            pretend.rooms,
        ) && pairwise_apart(v),
    decreases MAX_BRIDGE_DEPTH + 1 - depth, 0nat, cands.len() - i,
{
    if depth <= MAX_BRIDGE_DEPTH && i < cands.len() {
        if cands[i as int].pos.in_world() {
            law_placement_is_clear(cands[i as int], pretend, cat, depth + 1);
        }
        lemma_first_bridge_clear(cands, pretend, cat, depth, i + 1);
    }
}

/// Placing a room keeps a layout free of overlaps.
pub proof fn law_placement_keeps_layout_apart(
    room: RoomView,
    s: StateView,
    cat: Seq<RoomDefView>,
    depth: nat,
)
    requires
        pairwise_apart(s.rooms),
    ensures
        spec_place(room, s, cat, depth) matches Some(v) ==> pairwise_apart(s.rooms + v),
{
    law_placement_is_clear(room, s, cat, depth);
    if let Some(v) = spec_place(room, s, cat, depth) {
        lemma_concat_apart(s.rooms, v);
    }
}

/// Room `x` answers both doors: one of its doors lands on `a` facing it, and a
/// different one lands on `b` facing it.
pub open spec fn fills_both(x: RoomView, a: Door, b: Door) -> bool {
    exists|k1: int, k2: int|
        #![trigger x.def.doors[k1], x.def.doors[k2]]
        0 <= k1 < x.def.doors.len() && 0 <= k2 < x.def.doors.len() && x.def.doors[k1]
            != x.def.doors[k2] && x.def.doors[k1].dir == a.door.dir.spec_opposite() && spec_door_pos(
            x.pos,
            x.def.doors[k1],
        ) == a.world_pos && x.def.doors[k2].dir == b.door.dir.spec_opposite() && spec_door_pos(
            x.pos,
            x.def.doors[k2],
        ) == b.world_pos
}

/// Every bridging candidate fills both doors: one of its doors lands on the first
/// door facing it and another lands on the second facing it.
pub proof fn law_bridging_fills_both_doors(cat: Seq<RoomDefView>, a: Door, b: Door, n: nat)
    requires
        a.world_pos.near_world(),
        n <= cat.len(),
    ensures
        forall|i: int|
            0 <= i < spec_find_bridging(cat, a, b, n).len() ==> fills_both(
                #[trigger] spec_find_bridging(cat, a, b, n)[i],
                a,
                b,
            ),
    decreases n,
{
    if n > 0 {
        law_bridging_fills_both_doors(cat, a, b, (n - 1) as nat);
        let c = cat[n - 1];
        lemma_room_bridges_fill(c, a, b, c.doors.len());
        let p = spec_find_bridging(cat, a, b, (n - 1) as nat);
        let q = bridges_of_room(c, a, b, c.doors.len());
        assert forall|i: int| 0 <= i < (p + q).len() implies fills_both(#[trigger] (p + q)[i], a, b) by {
            if i < p.len() {
                assert((p + q)[i] == p[i]);
            } else {
                assert((p + q)[i] == q[i - p.len()]);
            }
        }
    }
}

/// The placements of one template fill both doors.
pub proof fn lemma_room_bridges_fill(c: RoomDefView, a: Door, b: Door, n: nat)
    requires
        a.world_pos.near_world(),
        n <= c.doors.len(),
    ensures
        forall|i: int|
            0 <= i < bridges_of_room(c, a, b, n).len() ==> fills_both(
                #[trigger] bridges_of_room(c, a, b, n)[i],
                a,
                b,
            ),
    decreases n,
{
    if n > 0 {
        lemma_room_bridges_fill(c, a, b, (n - 1) as nat);
        let d1 = c.doors[n - 1];
        if d1.dir == a.door.dir.spec_opposite() {
            let placed = RoomView { def: c, pos: bridge_pos(a, d1) };
            lemma_bridge_pos(a, d1);
            lemma_via_witness(c, d1, placed, b, c.doors.len());
            let p = bridges_of_room(c, a, b, (n - 1) as nat);
            let q = bridges_via(c, d1, placed, b, c.doors.len());
            assert(bridges_of_room(c, a, b, n) == p + q);
            assert forall|i: int| 0 <= i < (p + q).len() implies fills_both(#[trigger] (p + q)[i], a, b) by {
                if i < p.len() {
                    assert((p + q)[i] == p[i]);
                } else {
                    assert((p + q)[i] == q[i - p.len()]);
                    let k2 = choose|k2: int|
                        0 <= k2 < c.doors.len() && #[trigger] c.doors[k2] != d1 && spec_door_pos(
                            placed.pos,
                            c.doors[k2],
                        ) == b.world_pos && c.doors[k2].dir == b.door.dir.spec_opposite();
                    let k1 = (n - 1) as int;
                    assert(placed.def.doors[k1] == d1);
                    assert(placed.def.doors[k2] == c.doors[k2]);
                    assert(fills_both(placed, a, b));
                }
            }
        } else {
            assert(bridges_of_room(c, a, b, n) == bridges_of_room(c, a, b, (n - 1) as nat));
        }
    }
}

/// `bridges_via` repeats `placed` only for doors that land on `b` facing it.
pub proof fn lemma_via_witness(c: RoomDefView, d1: DoorDef, placed: RoomView, b: Door, m: nat)
    requires
        m <= c.doors.len(),
    ensures
        forall|i: int|
            0 <= i < bridges_via(c, d1, placed, b, m).len() ==> #[trigger] bridges_via(c, d1, placed, b, m)[i]
                == placed,
        bridges_via(c, d1, placed, b, m).len() > 0 ==> exists|k2: int|
            0 <= k2 < c.doors.len() && #[trigger] c.doors[k2] != d1 && spec_door_pos(
                placed.pos,
                c.doors[k2],
            ) == b.world_pos && c.doors[k2].dir == b.door.dir.spec_opposite(),
    decreases m,
{
    lemma_bridges_via_all(c, d1, placed, b, m);
    if m > 0 {
        lemma_via_witness(c, d1, placed, b, (m - 1) as nat);
        let d2 = c.doors[m - 1];
        if d2 != d1 && spec_door_pos(placed.pos, d2) == b.world_pos && d2.dir == b.door.dir.spec_opposite() {
            assert(c.doors[m - 1] != d1);
        }
    }
}

/// `bridges_via` lists `placed` for every door among the first `m` that lands on `b`
/// facing it.
pub proof fn lemma_via_contains(c: RoomDefView, d1: DoorDef, placed: RoomView, b: Door, m: nat, k2: int)
    requires
        m <= c.doors.len(),
        0 <= k2 < m,
        c.doors[k2] != d1,
        spec_door_pos(placed.pos, c.doors[k2]) == b.world_pos,
        c.doors[k2].dir == b.door.dir.spec_opposite(),
    ensures
        bridges_via(c, d1, placed, b, m).contains(placed),
    decreases m,
{
    let cur = bridges_via(c, d1, placed, b, m);
    let prev = bridges_via(c, d1, placed, b, (m - 1) as nat);
    if k2 == m - 1 {
        assert(cur == prev.push(placed));
        assert(cur[prev.len() as int] == placed);
    } else {
        lemma_via_contains(c, d1, placed, b, (m - 1) as nat, k2);
        let j = choose|j: int| 0 <= j < prev.len() && prev[j] == placed;
        assert(cur[j] == placed);
    }
}

/// `bridges_of_room` lists the template placed at `p` for every door `k1` among the
/// first `n` that, put on `a`, lets another door `k2` land on `b`.
pub proof fn lemma_of_room_contains(c: RoomDefView, a: Door, b: Door, n: nat, k1: int, k2: int, p: Pos)
    requires
        n <= c.doors.len(),
        0 <= k1 < n,
        0 <= k2 < c.doors.len(),
        c.doors[k1] != c.doors[k2],
        c.doors[k1].dir == a.door.dir.spec_opposite(),
        c.doors[k2].dir == b.door.dir.spec_opposite(),
        p == bridge_pos(a, c.doors[k1]),
        spec_door_pos(p, c.doors[k2]) == b.world_pos,
    ensures
        bridges_of_room(c, a, b, n).contains(RoomView { def: c, pos: p }),
    decreases n,
{
    let x = RoomView { def: c, pos: p };
    let prev = bridges_of_room(c, a, b, (n - 1) as nat);
    if k1 == n - 1 {
        let q = bridges_via(c, c.doors[k1], x, b, c.doors.len());
        lemma_via_contains(c, c.doors[k1], x, b, c.doors.len(), k2);
        assert(bridges_of_room(c, a, b, n) == prev + q);
        let j = choose|j: int| 0 <= j < q.len() && q[j] == x;
        assert((prev + q)[prev.len() + j] == x);
    } else {
        lemma_of_room_contains(c, a, b, (n - 1) as nat, k1, k2, p);
        let j = choose|j: int| 0 <= j < prev.len() && prev[j] == x;
        let d1 = c.doors[n - 1];
        if d1.dir == a.door.dir.spec_opposite() {
            let q = bridges_via(c, d1, RoomView { def: c, pos: bridge_pos(a, d1) }, b, c.doors.len());
            assert(bridges_of_room(c, a, b, n) == prev + q);
            assert((prev + q)[j] == x);
        }
    }
}

/// No bridge is missed: every catalog template with two different doors that can
/// stand on `a` and `b` at once, each facing back at its door, is among the bridging
/// candidates, at the position that puts those doors there.
pub proof fn law_bridging_finds_every_fit(
    cat: Seq<RoomDefView>,
    a: Door,
    b: Door,
    t: int,
    k1: int,
    k2: int,
    p: Pos,
)
    requires
        a.world_pos.bridge_fits(),
        0 <= t < cat.len(),
        0 <= k1 < cat[t].doors.len(),
        0 <= k2 < cat[t].doors.len(),
        cat[t].doors[k1] != cat[t].doors[k2],
        cat[t].doors[k1].dir == a.door.dir.spec_opposite(),
        cat[t].doors[k2].dir == b.door.dir.spec_opposite(),
        p.door_fits(),
        spec_door_pos(p, cat[t].doors[k1]) == a.world_pos,
        spec_door_pos(p, cat[t].doors[k2]) == b.world_pos,
    ensures
        spec_find_bridging(cat, a, b, cat.len()).contains(RoomView { def: cat[t], pos: p }),
{
    let d1 = cat[t].doors[k1];
    lemma_bridge_pos(a, d1);
    lemma_door_bounds(p, d1);
    lemma_door_bounds(bridge_pos(a, d1), d1);
    assert(p == bridge_pos(a, d1));
    lemma_find_contains(cat, a, b, cat.len(), t, k1, k2, p);
}

/// `spec_find_bridging` over the first `n` templates lists every fit of template
/// `t < n`.
pub proof fn lemma_find_contains(
    cat: Seq<RoomDefView>,
    a: Door,
    b: Door,
    n: nat,
    t: int,
    k1: int,
    k2: int,
    p: Pos,
)
    requires
        n <= cat.len(),
        0 <= t < n,
        0 <= k1 < cat[t].doors.len(),
        0 <= k2 < cat[t].doors.len(),
        cat[t].doors[k1] != cat[t].doors[k2],
        cat[t].doors[k1].dir == a.door.dir.spec_opposite(),
        cat[t].doors[k2].dir == b.door.dir.spec_opposite(),
        p == bridge_pos(a, cat[t].doors[k1]),
        spec_door_pos(p, cat[t].doors[k2]) == b.world_pos,
    ensures
        spec_find_bridging(cat, a, b, n).contains(RoomView { def: cat[t], pos: p }),
    decreases n,
{
    let x = RoomView { def: cat[t], pos: p };
    let prev = spec_find_bridging(cat, a, b, (n - 1) as nat);
    let q = bridges_of_room(cat[n - 1], a, b, cat[n - 1].doors.len());
    assert(spec_find_bridging(cat, a, b, n) == prev + q);
    if t == n - 1 {
        lemma_of_room_contains(cat[t], a, b, cat[t].doors.len(), k1, k2, p);
        let j = choose|j: int| 0 <= j < q.len() && q[j] == x;
        assert((prev + q)[prev.len() + j] == x);
    } else {
        lemma_find_contains(cat, a, b, (n - 1) as nat, t, k1, k2, p);
        let j = choose|j: int| 0 <= j < prev.len() && prev[j] == x;
        assert((prev + q)[j] == x);
    }
}

/// Each clashing pair is a door of the room (one of its first `n`) and an open door
/// it clashes with.
pub proof fn lemma_clashes_shape(room: RoomView, open: Seq<Door>, n: nat)
    requires
        n <= room.def.doors.len(),
    ensures
        forall|i: int|
            0 <= i < clashes(room, open, n).len() ==> exists|k: int|
                0 <= k < n && (#[trigger] clashes(room, open, n)[i]).0 == spec_door(room.pos, room.def.doors[k])
                    && doors_clash(clashes(room, open, n)[i].0, clashes(room, open, n)[i].1),
    decreases n,
{
    if n > 0 {
        lemma_clashes_shape(room, open, (n - 1) as nat);
        let p = clashes(room, open, (n - 1) as nat);
        let nd = spec_door(room.pos, room.def.doors[n - 1]);
        let q = clashes_of_door(nd, open, open.len());
        lemma_clashes_of_door_shape(nd, open, open.len());
        assert(clashes(room, open, n) == p + q);
        assert forall|i: int| 0 <= i < (p + q).len() implies exists|k: int|
            0 <= k < n && (#[trigger] (p + q)[i]).0 == spec_door(room.pos, room.def.doors[k]) && doors_clash(
                (p + q)[i].0,
                (p + q)[i].1,
            ) by {
            if i < p.len() {
                assert((p + q)[i] == p[i]);
                let k = choose|k: int|
                    0 <= k < n - 1 && (#[trigger] p[i]).0 == spec_door(room.pos, room.def.doors[k]) && doors_clash(
                        p[i].0,
                        p[i].1,
                    );
                assert(0 <= k < n);
            } else {
                assert((p + q)[i] == q[i - p.len()]);
                assert(spec_door(room.pos, room.def.doors[n - 1]) == nd);
            }
        }
    }
}

/// The pairs of one new door are that door and open doors it clashes with; with no
/// clash among the first `m` open doors there are none.
pub proof fn lemma_clashes_of_door_shape(nd: Door, open: Seq<Door>, m: nat)
    requires
        m <= open.len(),
    ensures
        forall|i: int|
            0 <= i < clashes_of_door(nd, open, m).len() ==> (#[trigger] clashes_of_door(nd, open, m)[i]).0 == nd
                && doors_clash(nd, clashes_of_door(nd, open, m)[i].1),
        (forall|j: int| 0 <= j < m ==> !doors_clash(nd, #[trigger] open[j])) ==> clashes_of_door(nd, open, m).len()
            == 0,
    decreases m,
{
    if m > 0 {
        lemma_clashes_of_door_shape(nd, open, (m - 1) as nat);
        let prev = clashes_of_door(nd, open, (m - 1) as nat);
        if doors_clash(nd, open[m - 1]) {
            assert forall|i: int| 0 <= i < prev.push((nd, open[m - 1])).len() implies (#[trigger] prev.push(
                (nd, open[m - 1]),
            )[i]).0 == nd && doors_clash(nd, prev.push((nd, open[m - 1]))[i].1) by {
                if i < prev.len() {
                    assert(prev.push((nd, open[m - 1]))[i] == prev[i]);
                }
            }
        }
    }
}

/// With no clash between any door of the room and any open door there is nothing
/// to bridge.
pub proof fn lemma_no_clashes(room: RoomView, open: Seq<Door>, n: nat)
    requires
        n <= room.def.doors.len(),
        forall|k: int, j: int|
            0 <= k < room.def.doors.len() && 0 <= j < open.len() ==> !doors_clash(
                spec_door(room.pos, #[trigger] room.def.doors[k]),
                #[trigger] open[j],
            ),
    ensures
        clashes(room, open, n).len() == 0,
    decreases n,
{
    if n > 0 {
        lemma_no_clashes(room, open, (n - 1) as nat);
        let nd = spec_door(room.pos, room.def.doors[n - 1]);
        assert forall|j: int| 0 <= j < open.len() implies !doors_clash(nd, #[trigger] open[j]) by {
            assert(!doors_clash(spec_door(room.pos, room.def.doors[n - 1]), open[j]));
        }
        lemma_clashes_of_door_shape(nd, open, open.len());
    }
}

/// A room that passes the direct checks and whose doors clash with no open door is
/// placed alone, as it is.
pub proof fn law_unclashing_room_is_placed(room: RoomView, s: StateView, cat: Seq<RoomDefView>, depth: nat)
    requires
        depth <= MAX_BRIDGE_DEPTH,
        passes_checks(room, s),
        forall|k: int, j: int|
            0 <= k < room.def.doors.len() && 0 <= j < s.open_doors.len() ==> !doors_clash(
                spec_door(room.pos, #[trigger] room.def.doors[k]),
                #[trigger] s.open_doors[j],
            ),
    ensures
        spec_place(room, s, cat, depth) == Some(seq![room]),
{
    lemma_no_clashes(room, s.open_doors, room.def.doors.len());
    let pairs = clashes(room, s.open_doors, room.def.doors.len());
    assert(spec_bridges(pairs, spec_push_rooms(s, seq![room]), cat, depth, 0) == Some(Seq::<RoomView>::empty()));
    assert(seq![room] + Seq::<RoomView>::empty() =~= seq![room]);
}

/// The first candidate, from `m` on, that lies in the world and can be placed gives
/// the bridge.
pub proof fn lemma_first_bridge_picks(
    cands: Seq<RoomView>,
    pretend: StateView,
    cat: Seq<RoomDefView>,
    depth: nat,
    m: nat,
    i: nat,
    x: Seq<RoomView>,
)
    requires
        depth <= MAX_BRIDGE_DEPTH,
        m <= i < cands.len(),
        cands[i as int].pos.in_world(),
        spec_place(cands[i as int], pretend, cat, depth + 1) == Some(x),
        forall|j: int|
            m <= j < i ==> !(#[trigger] cands[j]).pos.in_world() || spec_place(cands[j], pretend, cat, depth + 1)
                is None,
    ensures
        spec_first_bridge(cands, pretend, cat, depth, m) == Some(x),
    decreases i - m,
{
    if m < i {
        lemma_first_bridge_picks(cands, pretend, cat, depth, m + 1, i, x);
        assert(!cands[m as int].pos.in_world() || spec_place(cands[m as int], pretend, cat, depth + 1) is None);
    }
}

/// Bridging is attempted, and succeeds whenever a candidate fits: a room that passes
/// the direct checks and whose doors clash with exactly one open door is placed
/// together with the first bridging candidate, in catalog order, that lies in the
/// world and can itself be placed, one level deeper, in the layout with the room
/// added.
pub proof fn law_single_clash_is_bridged(
    room: RoomView,
    s: StateView,
    cat: Seq<RoomDefView>,
    depth: nat,
    i: nat,
    x: Seq<RoomView>,
)
    requires
        depth <= MAX_BRIDGE_DEPTH,
        passes_checks(room, s),
        clashes(room, s.open_doors, room.def.doors.len()).len() == 1,
        ({
            let pair = clashes(room, s.open_doors, room.def.doors.len())[0];
            let cands = spec_find_bridging(cat, pair.0, pair.1, cat.len());
            let trial = StateView { rooms: s.rooms.push(room), open_doors: s.open_doors };
            &&& i < cands.len()
            &&& cands[i as int].pos.in_world()
            &&& spec_place(cands[i as int], trial, cat, depth + 1) == Some(x)
            &&& forall|j: int|
                0 <= j < i ==> !(#[trigger] cands[j]).pos.in_world() || spec_place(cands[j], trial, cat, depth + 1)
                    is None
        }),
    ensures
        spec_place(room, s, cat, depth) == Some(seq![room] + x),
{
    let pairs = clashes(room, s.open_doors, room.def.doors.len());
    let pretend = spec_push_rooms(s, seq![room]);
    let trial = StateView { rooms: s.rooms.push(room), open_doors: s.open_doors };
    assert(pretend.rooms =~= trial.rooms);
    assert(pretend == trial);
    let pair = pairs[0];
    let cands = spec_find_bridging(cat, pair.0, pair.1, cat.len());
    let p1 = spec_push_rooms(pretend, Seq::<RoomView>::empty());
    assert(p1.rooms =~= pretend.rooms);
    assert(p1 == pretend);
    lemma_first_bridge_picks(cands, pretend, cat, depth, 0, i, x);
    assert(spec_bridges(pairs, pretend, cat, depth, 0) == Some(Seq::<RoomView>::empty()));
    assert(Seq::<RoomView>::empty() + x =~= x);
    assert(spec_bridges(pairs, pretend, cat, depth, 1) == Some(x));
}

/// A bridge placement starts with one of the candidates.
pub proof fn lemma_first_bridge_is_candidate(
    cands: Seq<RoomView>,
    pretend: StateView,
    cat: Seq<RoomDefView>,
    depth: nat,
    m: nat,
)
    ensures
        spec_first_bridge(cands, pretend, cat, depth, m) matches Some(x) ==> x.len() >= 1 && exists|i: int|
            m <= i < cands.len() && x[0] == #[trigger] cands[i],
    decreases cands.len() - m,
{
    if depth <= MAX_BRIDGE_DEPTH && m < cands.len() {
        lemma_first_bridge_is_candidate(cands, pretend, cat, depth, m + 1);
        if cands[m as int].pos.in_world() {
            law_placement_is_clear(cands[m as int], pretend, cat, depth + 1);
        }
    }
}

/// Some room of `v` fills both `a` and `e`.
pub open spec fn filled_by(v: Seq<RoomView>, a: Door, e: Door) -> bool {
    exists|t: int| 0 <= t < v.len() && fills_both(#[trigger] v[t], a, e)
}

/// Bridging the first `n` pairs yields, for each of them, a room that fills both of
/// its doors.
pub proof fn lemma_bridges_fill(
    pairs: Seq<(Door, Door)>,
    pretend: StateView,
    cat: Seq<RoomDefView>,
    depth: nat,
    n: nat,
)
    requires
        n <= pairs.len(),
        forall|q: int| 0 <= q < pairs.len() ==> (#[trigger] pairs[q]).0.world_pos.near_world(),
    ensures
        spec_bridges(pairs, pretend, cat, depth, n) matches Some(b) ==> forall|q: int|
            0 <= q < n ==> filled_by(b, (#[trigger] pairs[q]).0, pairs[q].1),
    decreases n,
{
    if depth <= MAX_BRIDGE_DEPTH && n > 0 {
        lemma_bridges_fill(pairs, pretend, cat, depth, (n - 1) as nat);
        match spec_bridges(pairs, pretend, cat, depth, (n - 1) as nat) {
            None => {},
            Some(b0) => {
                let pair = pairs[n - 1];
                let cands = spec_find_bridging(cat, pair.0, pair.1, cat.len());
                let p2 = spec_push_rooms(pretend, b0);
                lemma_first_bridge_is_candidate(cands, p2, cat, depth, 0);
                match spec_first_bridge(cands, p2, cat, depth, 0) {
                    None => {},
                    Some(x) => {
                        let b = b0 + x;
                        assert(spec_bridges(pairs, pretend, cat, depth, n) == Some(b));
                        let i = choose|i: int| 0 <= i < cands.len() && x[0] == #[trigger] cands[i];
                        assert(pairs[n - 1].0.world_pos.near_world());
                        law_bridging_fills_both_doors(cat, pair.0, pair.1, cat.len());
                        assert(fills_both(cands[i], pair.0, pair.1));
                        assert forall|q: int| 0 <= q < n implies filled_by(b, (#[trigger] pairs[q]).0, pairs[q].1) by {
                            if q == n - 1 {
                                assert(b[b0.len() as int] == x[0]);
                                assert(fills_both(b[b0.len() as int], pairs[q].0, pairs[q].1));
                            } else {
                                assert(filled_by(b0, pairs[q].0, pairs[q].1));
                                let t = choose|t: int|
                                    0 <= t < b0.len() && fills_both(#[trigger] b0[t], pairs[q].0, pairs[q].1);
                                assert(b[t] == b0[t]);
                            }
                        }
                    },
                }
            },
        }
    }
}

/// A placed room comes with, for each of its doors that clashes with an open door, a
/// bridging room that fills both doors.
pub proof fn law_placement_fills_clashes(room: RoomView, s: StateView, cat: Seq<RoomDefView>, depth: nat)
    requires
        room.pos.in_world(),
    ensures
        spec_place(room, s, cat, depth) matches Some(v) ==> forall|q: int|
            0 <= q < clashes(room, s.open_doors, room.def.doors.len()).len() ==> filled_by(
                v.drop_first(),
                (#[trigger] clashes(room, s.open_doors, room.def.doors.len())[q]).0,
                clashes(room, s.open_doors, room.def.doors.len())[q].1,
            ),
{
    let pairs = clashes(room, s.open_doors, room.def.doors.len());
    lemma_clashes_shape(room, s.open_doors, room.def.doors.len());
    assert forall|q: int| 0 <= q < pairs.len() implies (#[trigger] pairs[q]).0.world_pos.near_world() by {
        let k = choose|k: int|
            0 <= k < room.def.doors.len() && (#[trigger] pairs[q]).0 == spec_door(room.pos, room.def.doors[k])
                && doors_clash(pairs[q].0, pairs[q].1);
        lemma_door_bounds(room.pos, room.def.doors[k]);
    }
    let pretend = spec_push_rooms(s, seq![room]);
    lemma_bridges_fill(pairs, pretend, cat, depth, pairs.len());
    if depth <= MAX_BRIDGE_DEPTH && passes_checks(room, s) {
        match spec_bridges(pairs, pretend, cat, depth, pairs.len()) {
            None => {},
            Some(b) => {
                let v = seq![room] + b;
                assert(spec_place(room, s, cat, depth) == Some(v));
                assert(v.drop_first() =~= b);
            },
        }
    }
}

} // verus!
