//! One generation batch: fill the open doors near the camera, nearest first, with
//! randomly chosen rooms from the catalog.
use vstd::prelude::*;
use rand::rngs::SmallRng;
use rand::seq::SliceRandom;
use std::collections::HashSet;

use crate::catalog::{DoorDef, RoomDef, RoomDefView, RoomIndex, RoomType};
use crate::dir::Dir;
use crate::geometry::Pos;
use crate::placement::{
    all_clear_of, all_wf, apart, cat_wf, law_placement_is_clear, lemma_place_wf, opt_views, pairwise_apart,
    spec_place, try_place_room,
};
use crate::room::{Door, Room, RoomView};
use crate::world_state::{
    door_spots_distinct, law_add_rooms_keeps_door_spots_distinct, room_views, spec_add_room, spec_add_rooms,
    StateView, WorldState,
};

verus! {

broadcast use vstd::std_specs::hash::group_hash_axioms;

/// Default session-wide cap on placed rooms.
pub const MAX_ROOMS: usize = 1000;

/// Default distance from the camera, in pixels, within which open doors are filled.
pub const CAMERA_SPAWN_DIST: i64 = 1000;

#[verifier::external_type_specification]
#[verifier::external_body]
pub struct ExSmallRng(SmallRng);

/// Shuffles `v` with `rand::seq::SliceRandom::shuffle` on its slice. What the
/// contract claims: the result holds the same elements, each as often as before.
/// Which order comes out depends on the state of `rng`, and is not stated.
#[verifier::external_body]
fn shuffle_indices(v: &mut Vec<usize>, rng: &mut SmallRng)
    ensures
        final(v)@.to_multiset() == old(v)@.to_multiset(),
{
    v.as_mut_slice().shuffle(rng);
}

// ---------------------------------------------------------------------------
// Doors near the camera, nearest first.

/// Squared distance from `p` to `cam`.
pub open spec fn dist2(p: Pos, cam: Pos) -> int {
    (p.x - cam.x) * (p.x - cam.x) + (p.y - cam.y) * (p.y - cam.y)
}

/// `p` lies within distance `dist` of `cam`.
pub open spec fn is_near(p: Pos, cam: Pos, dist: i64) -> bool {
    dist >= 0 && dist2(p, cam) <= dist * dist
}

/// Index of the first of `s[..n]` farther from `cam` than `x`, or `n`.
pub open spec fn first_farther(s: Seq<Door>, x: Door, cam: Pos, n: nat) -> nat
    decreases n,
{
    if n == 0 {
        0
    } else if first_farther(s, x, cam, (n - 1) as nat) < n - 1 {
        first_farther(s, x, cam, (n - 1) as nat)
    } else if dist2(s[n - 1].world_pos, cam) > dist2(x.world_pos, cam) {
        (n - 1) as nat
    } else {
        n
    }
}

/// The doors of `open[..n]` within `dist` of `cam`, ordered by distance, doors at
/// equal distance in their order in `open`.
pub open spec fn spec_nearby(open: Seq<Door>, cam: Pos, dist: i64, n: nat) -> Seq<Door>
    decreases n,
{
    if n == 0 {
        Seq::empty()
    } else {
        let prev = spec_nearby(open, cam, dist, (n - 1) as nat);
        let d = open[n - 1];
        if is_near(d.world_pos, cam, dist) {
            prev.insert(first_farther(prev, d, cam, prev.len()) as int, d)
        } else {
            prev
        }
    }
}

/// Exact test of `is_near`, and the squared distance when near.
fn near_dist2(p: Pos, cam: Pos, dist: i64) -> (r: Option<i128>)
    ensures
        r is Some <==> is_near(p, cam, dist),
        r matches Some(d) ==> d == dist2(p, cam),
{
    if dist < 0 {
        return None;
    }
    let dx: i128 = p.x as i128 - cam.x as i128;
    let dy: i128 = p.y as i128 - cam.y as i128;
    let r: i128 = dist as i128;
    proof {
        assert(dx * dx >= 0 && dy * dy >= 0) by (nonlinear_arith);
        assert(dist2(p, cam) == dx * dx + dy * dy);
    }
    if dx < -r || dx > r || dy < -r || dy > r {
        proof {
            if dx < -r || dx > r {
                assert(dx * dx > r * r) by (nonlinear_arith)
                    requires
                        dx < -r || dx > r,
                        r >= 0,
                ;
            } else {
                assert(dy * dy > r * r) by (nonlinear_arith)
                    requires
                        dy < -r || dy > r,
                        r >= 0,
                ;
            }
        }
        return None;
    }
    proof {
        assert(dx * dx <= r * r) by (nonlinear_arith)
            requires
                -r <= dx <= r,
        ;
        assert(dy * dy <= r * r) by (nonlinear_arith)
            requires
                -r <= dy <= r,
        ;
        assert(r * r <= 0x3fff_ffff_ffff_ffff_0000_0000_0000_0001) by (nonlinear_arith)
            requires
                0 <= r <= 0x7fff_ffff_ffff_ffff,
        ;
    }
    let d2: i128 = dx * dx + dy * dy;
    let rr: i128 = r * r;
    if d2 <= rr {
        Some(d2)
    } else {
        None
    }
}

/// The open doors within `dist` of `cam`, nearest first; doors at equal distance
/// keep their order.
pub fn nearby_doors(open: &Vec<Door>, cam: Pos, dist: i64) -> (r: Vec<Door>)
    ensures
        r@ == spec_nearby(open@, cam, dist, open@.len()),
        (forall|i: int| 0 <= i < open@.len() ==> (#[trigger] open@[i]).world_pos.near_world()) ==> forall|
            i: int,
        | 0 <= i < r@.len() ==> (#[trigger] r@[i]).world_pos.near_world(),
{
    let mut out: Vec<Door> = Vec::new();
    let mut keys: Vec<i128> = Vec::new();
    let mut j: usize = 0;
    while j < open.len()
        invariant
            j <= open@.len(),
            out@ == spec_nearby(open@, cam, dist, j as nat),
            (forall|i: int| 0 <= i < open@.len() ==> (#[trigger] open@[i]).world_pos.near_world()) ==> forall|
                i: int,
            | 0 <= i < out@.len() ==> (#[trigger] out@[i]).world_pos.near_world(),
            keys@.len() == out@.len(),
            forall|t: int| 0 <= t < keys@.len() ==> keys@[t] == dist2(#[trigger] out@[t].world_pos, cam),
        decreases open@.len() - j,
    {
        let d = open[j];
        match near_dist2(d.world_pos, cam, dist) {
            None => {},
            Some(k) => {
                let ghost prev = out@;
                let mut i: usize = 0;
                while i < out.len() && keys[i] <= k
                    invariant
                        i <= out@.len(),
                        out@ == prev,
                        keys@.len() == out@.len(),
                        forall|t: int| 0 <= t < keys@.len() ==> keys@[t] == dist2(#[trigger] out@[t].world_pos, cam),
                        k == dist2(d.world_pos, cam),
                        d == open@[j as int],
                        first_farther(prev, d, cam, i as nat) == i,
                    decreases out@.len() - i,
                {
                    i += 1;
                }
                proof {
                    if i < prev.len() {
                        assert(first_farther(prev, d, cam, (i + 1) as nat) == i);
                        lemma_first_farther_stable(prev, d, cam, (i + 1) as nat, prev.len());
                    }
                    assert(spec_nearby(open@, cam, dist, (j + 1) as nat) == prev.insert(i as int, d));
                }
                out.insert(i, d);
                keys.insert(i, k);
                proof {
                    assert forall|t: int| 0 <= t < keys@.len() implies keys@[t] == dist2(
                        #[trigger] out@[t].world_pos,
                        cam,
                    ) by {
                        if t < i {
                            assert(out@[t] == prev[t]);
                        } else if t > i {
                            assert(out@[t] == prev[t - 1]);
                        }
                    }
                    if forall|i: int| 0 <= i < open@.len() ==> (#[trigger] open@[i]).world_pos.near_world() {
                        assert(d.world_pos.near_world());
                        assert forall|t: int| 0 <= t < out@.len() implies (#[trigger] out@[t]).world_pos.near_world() by {
                            if t < i {
                                assert(out@[t] == prev[t]);
                            } else if t > i {
                                assert(out@[t] == prev[t - 1]);
                            }
                        }
                    }
                }
            },
        }
        j += 1;
    }
    out
}

/// Once a farther door is found among the first `m`, looking further finds the same.
pub proof fn lemma_first_farther_stable(s: Seq<Door>, x: Door, cam: Pos, m: nat, n: nat)
    requires
        m <= n,
        first_farther(s, x, cam, m) < m,
    ensures
        first_farther(s, x, cam, n) == first_farther(s, x, cam, m),
    decreases n - m,
{
    if n > m {
        lemma_first_farther_stable(s, x, cam, m, (n - 1) as nat);
    }
}

// ---------------------------------------------------------------------------
// Candidates for one door.

/// How many times a room of weight `w` (in tenths) goes into the candidate list.
pub open spec fn copies(w: usize) -> nat {
    if w == 0 {
        1
    } else {
        w as nat
    }
}

/// The candidate list for the first `n` entries: each entry repeated by its room's
/// weight.
pub open spec fn weighted(entries: Seq<usize>, cat: Seq<RoomDefView>, n: nat) -> Seq<usize>
    decreases n,
{
    if n == 0 {
        Seq::empty()
    } else {
        let e = entries[n - 1];
        weighted(entries, cat, (n - 1) as nat) + Seq::new(copies(cat[e as int].weight), |_i: int| e)
    }
}

/// Every element of the candidate list is one of the entries.
pub proof fn lemma_weighted_members(entries: Seq<usize>, cat: Seq<RoomDefView>, n: nat, bound: nat)
    requires
        n <= entries.len(),
        forall|i: int| 0 <= i < entries.len() ==> #[trigger] entries[i] < bound,
    ensures
        forall|i: int| 0 <= i < weighted(entries, cat, n).len() ==> #[trigger] weighted(entries, cat, n)[i] < bound,
    decreases n,
{
    if n > 0 {
        lemma_weighted_members(entries, cat, (n - 1) as nat, bound);
        let p = weighted(entries, cat, (n - 1) as nat);
        let e = entries[n - 1];
        let q = Seq::new(copies(cat[e as int].weight), |_i: int| e);
        assert forall|i: int| 0 <= i < (p + q).len() implies #[trigger] (p + q)[i] < bound by {
            if i < p.len() {
                assert((p + q)[i] == p[i]);
            } else {
                assert((p + q)[i] == q[i - p.len()]);
            }
        }
    }
}

/// Each entry repeated as many times as its room's weight in tenths (at least once).
fn weighted_candidates(entries: &Vec<usize>, room_idx: &RoomIndex) -> (r: Vec<usize>)
    requires
        forall|i: int| 0 <= i < entries@.len() ==> #[trigger] entries@[i] < room_idx.rooms@.len(),
    ensures
        r@ == weighted(entries@, room_idx.defs(), entries@.len()),
{
    let ghost cat = room_idx.defs();
    let mut out: Vec<usize> = Vec::new();
    let mut n: usize = 0;
    while n < entries.len()
        invariant
            n <= entries@.len(),
            cat == room_idx.defs(),
            forall|i: int| 0 <= i < entries@.len() ==> #[trigger] entries@[i] < room_idx.rooms@.len(),
            out@ == weighted(entries@, cat, n as nat),
        decreases entries@.len() - n,
    {
        let e = entries[n];
        let w = room_idx.rooms[e].weight;
        let count = if w == 0 {
            1
        } else {
            w
        };
        proof {
            assert(cat[e as int] == room_idx.rooms@[e as int]@);
        }
        let ghost base = out@;
        let mut c: usize = 0;
        while c < count
            invariant
                c <= count,
                out@ == base + Seq::new(c as nat, |_i: int| e),
            decreases count - c,
        {
            out.push(e);
            proof {
                assert(base + Seq::new((c + 1) as nat, |_i: int| e) =~= (base + Seq::new(
                    c as nat,
                    |_i: int| e,
                )).push(e));
            }
            c += 1;
        }
        proof {
            assert(count == copies(cat[e as int].weight));
        }
        n += 1;
    }
    out
}

/// The first of `doors[..n]` facing `d`.
pub open spec fn first_facing(doors: Seq<DoorDef>, d: Dir, n: nat) -> Option<DoorDef>
    decreases n,
{
    if n == 0 {
        None
    } else {
        match first_facing(doors, d, (n - 1) as nat) {
            Some(x) => Some(x),
            None => if doors[n - 1].dir == d {
                Some(doors[n - 1])
            } else {
                None
            },
        }
    }
}

/// The first door of `doors` facing `d`.
fn first_door_facing(doors: &Vec<DoorDef>, d: Dir) -> (r: Option<DoorDef>)
    ensures
        r == first_facing(doors@, d, doors@.len()),
{
    let mut k: usize = 0;
    while k < doors.len()
        invariant
            k <= doors@.len(),
            first_facing(doors@, d, k as nat) is None,
        decreases doors@.len() - k,
    {
        if doors[k].dir == d {
            proof {
                lemma_first_facing_stable(doors@, d, (k + 1) as nat, doors@.len());
            }
            return Some(doors[k]);
        }
        k += 1;
    }
    None
}

/// Once a facing door is found among the first `m`, looking further finds the same.
pub proof fn lemma_first_facing_stable(doors: Seq<DoorDef>, d: Dir, m: nat, n: nat)
    requires
        m <= n,
        first_facing(doors, d, m) is Some,
    ensures
        first_facing(doors, d, n) == first_facing(doors, d, m),
    decreases n - m,
{
    if n > m {
        lemma_first_facing_stable(doors, d, m, (n - 1) as nat);
    }
}

/// Top-left corner at which a room whose door `md` answers the open door `door`
/// is tried.
pub open spec fn candidate_pos(door: Door, md: DoorDef) -> Pos {
    let v = door.door.dir.spec_as_vec();
    let adj: (int, int) = match door.door.dir {
        Dir::S => (0, 16),
        Dir::E => (-16, 16),
        Dir::W => (16, 16),
        Dir::N => (0, 0),
    };
    Pos {
        x: (door.world_pos.x - 16 * (md.local_pos.x - v.x) + adj.0) as i64,
        y: (door.world_pos.y - 16 * (md.local_pos.y - v.y) + adj.1) as i64,
    }
}

/// Where a room whose door `md` answers the open door `door` is tried.
fn room_pos_for(door: &Door, md: &DoorDef) -> (r: Pos)
    requires
        door.world_pos.near_world(),
    ensures
        r == candidate_pos(*door, *md),
        r.in_reach(),
{
    let v = door.door.dir.as_vec();
    let adj = match door.door.dir {
        Dir::S => Pos { x: 0, y: 16 },
        Dir::E => Pos { x: -16, y: 16 },
        Dir::W => Pos { x: 16, y: 16 },
        Dir::N => Pos { x: 0, y: 0 },
    };
    Pos {
        x: door.world_pos.x - 16 * ((md.local_pos.x as i64) - v.x) + adj.x,
        y: door.world_pos.y - 16 * ((md.local_pos.y as i64) - v.y) + adj.y,
    }
}

/// The placement tried for candidate `pick` at `door`: its first door facing back
/// at `door` is made to answer it. A position beyond `WORLD_LIMIT` is passed over.
pub open spec fn try_pick(s: StateView, door: Door, pick: usize, cat: Seq<RoomDefView>) -> Option<
    Seq<RoomView>,
> {
    let def = cat[pick as int];
    match first_facing(def.doors, door.door.dir.spec_opposite(), def.doors.len()) {
        None => None,
        Some(md) => if candidate_pos(door, md).in_world() {
            spec_place(RoomView { def, pos: candidate_pos(door, md) }, s, cat, 0)
        } else {
            None
        },
    }
}

/// The rooms placed at `door`: the placement of the first of `cands[i..]` that can
/// be placed, or nothing.
pub open spec fn fill_spec(s: StateView, door: Door, cands: Seq<usize>, cat: Seq<RoomDefView>, i: nat) -> Seq<
    RoomView,
>
    decreases cands.len() - i,
{
    if i >= cands.len() {
        Seq::empty()
    } else {
        match try_pick(s, door, cands[i as int], cat) {
            Some(v) => v,
            None => fill_spec(s, door, cands, cat, i + 1),
        }
    }
}

/// Tries the candidates in order, each distinct one once, and places the first that
/// fits (with any bridging rooms it needs), appending them to `placed`.
pub fn fill_door(
    state: &mut WorldState,
    room_idx: &RoomIndex,
    door: &Door,
    cands: &Vec<usize>,
    placed: &mut Vec<Room>,
)
    requires
        old(state).wf(),
        room_idx.wf(),
        door.world_pos.near_world(),
        forall|i: int| 0 <= i < cands@.len() ==> #[trigger] cands@[i] < room_idx.rooms@.len(),
    ensures
        final(state).wf(),
        final(state).view_state() == spec_add_rooms(
            old(state).view_state(),
            fill_spec(old(state).view_state(), *door, cands@, room_idx.defs(), 0),
        ),
        room_views(final(placed)@) == room_views(old(placed)@) + fill_spec(
            old(state).view_state(),
            *door,
            cands@,
            room_idx.defs(),
            0,
        ),
{
    let ghost sv = state.view_state();
    let ghost cat = room_idx.defs();
    let ghost p0 = room_views(placed@);
    let want = door.door.dir.opposite();
    let mut tried: HashSet<usize> = HashSet::new();
    let mut i: usize = 0;
    while i < cands.len()
        invariant
            i <= cands@.len(),
            state.wf(),
            room_idx.wf(),
            *state == *old(state),
            *placed == *old(placed),
            sv == state.view_state(),
            cat == room_idx.defs(),
            p0 == room_views(placed@),
            want == door.door.dir.spec_opposite(),
            door.world_pos.near_world(),
            forall|t: int| 0 <= t < cands@.len() ==> #[trigger] cands@[t] < room_idx.rooms@.len(),
            fill_spec(sv, *door, cands@, cat, 0) == fill_spec(sv, *door, cands@, cat, i as nat),
            forall|j: usize| #[trigger] tried@.contains(j) ==> try_pick(sv, *door, j, cat) is None,
        decreases cands@.len() - i,
    {
        let pick = cands[i];
        if !tried.contains(&pick) {
            tried.insert(pick);
            let roomdef = &room_idx.rooms[pick];
            proof {
                assert(cat[pick as int] == roomdef@);
                assert(roomdef.wf());
            }
            match first_door_facing(&roomdef.doors, want) {
                None => {},
                Some(md) => {
                    let pos = room_pos_for(door, &md);
                    if pos.is_in_world() {
                        let room = Room::new(roomdef, pos);
                        let res = try_place_room(&room, state, room_idx, 0);
                        match res {
                            None => {},
                            Some(rooms) => {
                                proof {
                                    assert(try_pick(sv, *door, pick, cat) == Some(room_views(rooms@)));
                                    assert(fill_spec(sv, *door, cands@, cat, i as nat) == room_views(rooms@));
                                    assert forall|t: int| 0 <= t < cat.len() implies (#[trigger] cat[t]).wf() by {
                                        assert(cat[t] == room_idx.rooms@[t]@);
                                    }
                                    lemma_place_wf(room@, sv, cat, 0);
                                }
                                add_all(state, placed, &rooms);
                                return;
                            },
                        }
                    }
                },
            }
        }
        i += 1;
    }
}

/// Adds each of `rooms` to the layout and to `placed`, in order.
fn add_all(state: &mut WorldState, placed: &mut Vec<Room>, rooms: &Vec<Room>)
    requires
        old(state).wf(),
        all_wf(room_views(rooms@)),
    ensures
        final(state).wf(),
        final(state).view_state() == spec_add_rooms(old(state).view_state(), room_views(rooms@)),
        room_views(final(placed)@) == room_views(old(placed)@) + room_views(rooms@),
{
    let ghost rv = room_views(rooms@);
    let ghost s0 = state.view_state();
    let ghost p0 = room_views(placed@);
    let mut t: usize = 0;
    while t < rooms.len()
        invariant
            t <= rooms@.len(),
            state.wf(),
            rv == room_views(rooms@),
            all_wf(rv),
            state.view_state() == spec_add_rooms(s0, rv.take(t as int)),
            room_views(placed@) == p0 + rv.take(t as int),
        decreases rooms@.len() - t,
    {
        proof {
            assert(rv[t as int] == rooms@[t as int]@);
            assert(rv[t as int].wf());
        }
        let ghost before = room_views(placed@);
        state.add_room(rooms[t].clone());
        placed.push(rooms[t].clone());
        proof {
            assert(rv.take(t as int + 1).drop_last() =~= rv.take(t as int));
            assert(rv.take(t as int + 1).last() == rv[t as int]);
            assert(room_views(placed@) =~= before.push(rv[t as int]));
            assert(p0 + rv.take(t as int + 1) =~= (p0 + rv.take(t as int)).push(rv[t as int]));
        }
        t += 1;
    }
    proof {
        assert(rv.take(rv.len() as int) =~= rv);
    }
}

// ---------------------------------------------------------------------------
// The batch.

/// Some open door stands at `p`.
pub open spec fn door_open(open: Seq<Door>, p: Pos) -> bool {
    exists|j: int| 0 <= j < open.len() && (#[trigger] open[j]).world_pos == p
}

/// The direction table of a catalog as mathematical values.
pub open spec fn table_of(room_idx: RoomIndex) -> Seq<Seq<usize>> {
    room_idx.by_door_dir@.map_values(|v: Vec<usize>| v@)
}

/// The catalog has a room of type `Spawn`.
pub open spec fn has_spawn(cat: Seq<RoomDefView>) -> bool {
    exists|j: int| 0 <= j < cat.len() && (#[trigger] cat[j]).room_type == RoomType::Spawn
}

/// `rooms` is a single `Spawn` room of the catalog, placed at the origin.
pub open spec fn spawn_pick(cat: Seq<RoomDefView>, rooms: Seq<RoomView>) -> bool {
    exists|j: int|
        0 <= j < cat.len() && (#[trigger] cat[j]).room_type == RoomType::Spawn && rooms == seq![
            RoomView { def: cat[j], pos: Pos { x: 0, y: 0 } },
        ]
}

/// One door of the batch, handled in state `sp` with `r0` placed so far and the
/// candidates shuffled into `perm`, leads to `r` placed and state `s`. A door no
/// longer open is skipped; an open door, while the layout holds fewer than
/// `max_rooms` rooms counting the batch's once more, is filled from `perm`, a
/// shuffle of the weighted candidates facing back at it.
pub open spec fn step_ok(
    door: Door,
    sp: StateView,
    r0: Seq<RoomView>,
    perm: Seq<usize>,
    r: Seq<RoomView>,
    s: StateView,
    cat: Seq<RoomDefView>,
    table: Seq<Seq<usize>>,
    max_rooms: usize,
) -> bool {
    if !door_open(sp.open_doors, door.world_pos) {
        r == r0 && s == sp
    } else {
        let entries = table[door.door.dir.spec_opposite().spec_index() as int];
        let g = fill_spec(sp, door, perm, cat, 0);
        &&& sp.rooms.len() + r0.len() < max_rooms
        &&& perm.to_multiset() == weighted(entries, cat, entries.len()).to_multiset()
        &&& r == r0 + g
        &&& s == spec_add_rooms(sp, g)
    }
}

/// Handling the first `k` of `doors` from state `s0` can lead to `r` placed and
/// state `s`, for some shuffles of the candidates.
pub open spec fn batch_reach(
    doors: Seq<Door>,
    k: nat,
    s0: StateView,
    cat: Seq<RoomDefView>,
    table: Seq<Seq<usize>>,
    r: Seq<RoomView>,
    s: StateView,
    max_rooms: usize,
) -> bool
    decreases k,
{
    if k == 0 {
        r.len() == 0 && s == s0
    } else {
        exists|r0: Seq<RoomView>, sp: StateView, perm: Seq<usize>|
            #[trigger] step_ok(doors[k - 1], sp, r0, perm, r, s, cat, table, max_rooms) && batch_reach(
                doors,
                (k - 1) as nat,
                s0,
                cat,
                table,
                r0,
                sp, max_rooms,
            )
    }
}

/// The batch stops at `door`: it is open but the layout is full.
pub open spec fn batch_stops(door: Door, s: StateView, placed_len: nat, max_rooms: usize) -> bool {
    door_open(s.open_doors, door.world_pos) && s.rooms.len() + placed_len >= max_rooms
}

/// A batch from state `s0` with the camera at `cam` can place `r` and leave state
/// `s`: the open doors within `dist` of the camera are handled nearest first until
/// they run out or the layout holds `max_rooms` rooms.
pub open spec fn batch_outcome(
    s0: StateView,
    cam: Pos,
    cat: Seq<RoomDefView>,
    table: Seq<Seq<usize>>,
    r: Seq<RoomView>,
    s: StateView,
    dist: i64,
    max_rooms: usize,
) -> bool {
    let doors = spec_nearby(s0.open_doors, cam, dist, s0.open_doors.len());
    exists|k: nat|
        k <= doors.len() && #[trigger] batch_reach(doors, k, s0, cat, table, r, s, max_rooms) && (k == doors.len()
            || batch_stops(doors[k as int], s, r.len(), max_rooms))
}

/// Exact test of `door_open`.
fn door_is_open(open: &Vec<Door>, p: Pos) -> (b: bool)
    ensures
        b == door_open(open@, p),
{
    let mut j: usize = 0;
    while j < open.len()
        invariant
            j <= open@.len(),
            forall|t: int| 0 <= t < j ==> (#[trigger] open@[t]).world_pos != p,
        decreases open@.len() - j,
    {
        if open[j].world_pos == p {
            return true;
        }
        j += 1;
    }
    false
}

/// Indices of the `Spawn` rooms of the catalog, in catalog order.
fn spawn_indices(room_idx: &RoomIndex) -> (r: Vec<usize>)
    ensures
        forall|t: int|
            0 <= t < r@.len() ==> #[trigger] r@[t] < room_idx.rooms@.len() && room_idx.defs()[r@[t] as int].room_type
                == RoomType::Spawn,
        has_spawn(room_idx.defs()) ==> r@.len() > 0,
{
    let ghost cat = room_idx.defs();
    let mut out: Vec<usize> = Vec::new();
    let mut i: usize = 0;
    while i < room_idx.rooms.len()
        invariant
            i <= room_idx.rooms@.len(),
            cat == room_idx.defs(),
            forall|t: int|
                0 <= t < out@.len() ==> #[trigger] out@[t] < room_idx.rooms@.len() && cat[out@[t] as int].room_type
                    == RoomType::Spawn,
            (exists|j: int| 0 <= j < i && (#[trigger] cat[j]).room_type == RoomType::Spawn) ==> out@.len() > 0,
        decreases room_idx.rooms@.len() - i,
    {
        proof {
            assert(cat[i as int] == room_idx.rooms@[i as int]@);
        }
        if room_idx.rooms[i].room_type == RoomType::Spawn {
            out.push(i);
        }
        i += 1;
    }
    out
}

/// Runs one generation batch and returns the rooms it placed.
///
/// With no room placed yet, it picks a random `Spawn` room, places it at the origin
/// and returns it without recording it in `state`. Otherwise it takes the open doors
/// within `search_dist` of `cam_pos`, nearest first, and for each one still open
/// (while the layout, counting the batch's rooms once more, holds fewer than
/// `max_rooms` rooms) shuffles the rooms with a door facing back at
/// it, each repeated by its weight, and places the first that `try_place_room`
/// accepts, recording it and its bridging rooms in `state` at once so that later
/// doors of the batch see them. A candidate position beyond `WORLD_LIMIT` (2^57 px),
/// where positions derived from it would leave the `i64` range, is passed over.
pub fn generate_batch(
    state: &mut WorldState,
    room_idx: &RoomIndex,
    cam_pos: Pos,
    search_dist: i64,
    max_rooms: usize,
    rng: &mut SmallRng,
) -> (r: Vec<Room>)
    requires
        old(state).wf(),
        room_idx.wf(),
        old(state).rooms@.len() == 0 ==> has_spawn(room_idx.defs()),
    ensures
        final(state).wf(),
        old(state).rooms@.len() == 0 ==> *final(state) == *old(state) && spawn_pick(
            room_idx.defs(),
            room_views(r@),
        ),
        old(state).rooms@.len() > 0 ==> batch_outcome(
            old(state).view_state(),
            cam_pos,
            room_idx.defs(),
            table_of(*room_idx),
            room_views(r@),
            final(state).view_state(),
            search_dist,
            max_rooms,
        ),
        old(state).rooms@.len() > 0 ==> pairwise_apart(room_views(r@)),
        old(state).rooms@.len() > 0 ==> exists|doors: Seq<Door>, k: nat|
            #[trigger] handled_nearest_first(
                doors,
                k,
                old(state).view_state(),
                cam_pos,
                room_idx.defs(),
                table_of(*room_idx),
                room_views(r@),
                final(state).view_state(),
                search_dist,
                max_rooms,
            ),
        pairwise_apart(room_views(old(state).rooms@)) ==> pairwise_apart(room_views(final(state).rooms@)),
        door_spots_distinct(old(state).open_doors@) ==> door_spots_distinct(final(state).open_doors@),
{
    let ghost cat = room_idx.defs();
    if state.rooms.len() == 0 {
        let mut spawn_rooms = spawn_indices(room_idx);
        let ghost before = spawn_rooms@;
        shuffle_indices(&mut spawn_rooms, rng);
        proof {
            vstd::seq_lib::to_multiset_len(before);
            vstd::seq_lib::to_multiset_len(spawn_rooms@);
            vstd::seq_lib::to_multiset_contains(before, spawn_rooms@[0]);
            vstd::seq_lib::to_multiset_contains(spawn_rooms@, spawn_rooms@[0]);
            assert(spawn_rooms@.contains(spawn_rooms@[0]));
        }
        let pick = spawn_rooms[0];
        let room = Room::new(&room_idx.rooms[pick], Pos::zero());
        let mut placed: Vec<Room> = Vec::new();
        placed.push(room);
        proof {
            let t = choose|t: int| 0 <= t < before.len() && before[t] == pick;
            assert(cat[pick as int] == room_idx.rooms@[pick as int]@);
            assert(room_views(placed@) =~= seq![RoomView { def: cat[pick as int], pos: Pos { x: 0, y: 0 } }]);
        }
        return placed;
    }
    let ghost s0 = state.view_state();
    let ghost tab = table_of(*room_idx);
    proof {
        assert forall|i: int| 0 <= i < state.open_doors@.len() implies (#[trigger] state.open_doors@[i]).world_pos.near_world() by {}
    }
    let nearby = nearby_doors(&state.open_doors, cam_pos, search_dist);
    let mut placed: Vec<Room> = Vec::new();
    proof {
        assert(room_views(placed@).len() == 0);
    }
    let mut t: usize = 0;
    let mut stopped = false;
    while t < nearby.len() && !stopped
        invariant
            t <= nearby@.len(),
            state.wf(),
            room_idx.wf(),
            cat == room_idx.defs(),
            tab == table_of(*room_idx),
            nearby@ == spec_nearby(s0.open_doors, cam_pos, search_dist, s0.open_doors.len()),
            forall|i: int| 0 <= i < nearby@.len() ==> (#[trigger] nearby@[i]).world_pos.near_world(),
            batch_reach(nearby@, t as nat, s0, cat, tab, room_views(placed@), state.view_state(), max_rooms),
            stopped ==> t < nearby@.len() && batch_stops(
                nearby@[t as int],
                state.view_state(),
                room_views(placed@).len(), max_rooms,
            ),
        decreases nearby@.len() - t + if stopped {
            0int
        } else {
            1int
        },
    {
        let door = nearby[t];
        let ghost sp = state.view_state();
        let ghost r0 = room_views(placed@);
        if !door_is_open(&state.open_doors, door.world_pos) {
            proof {
                let perm = Seq::<usize>::empty();
                assert(step_ok(door, sp, r0, perm, r0, sp, cat, tab, max_rooms));
                assert(batch_reach(nearby@, (t + 1) as nat, s0, cat, tab, r0, sp, max_rooms));
            }
            t += 1;
        } else if state.rooms.len() >= max_rooms || placed.len() >= max_rooms - state.rooms.len() {
            proof {
                assert(sp.rooms.len() == state.rooms@.len());
                assert(r0.len() == placed@.len());
            }
            stopped = true;
        } else {
            let k = door.door.dir.opposite().index();
            let entries = &room_idx.by_door_dir[k];
            proof {
                assert(tab[k as int] == entries@);
                assert forall|i: int| 0 <= i < entries@.len() implies #[trigger] entries@[i] < room_idx.rooms@.len() by {
                    assert(room_idx.by_door_dir@[k as int]@[i] < room_idx.rooms@.len());
                }
            }
            let mut cands = weighted_candidates(entries, room_idx);
            let ghost w = cands@;
            shuffle_indices(&mut cands, rng);
            proof {
                lemma_weighted_members(entries@, cat, entries@.len(), room_idx.rooms@.len());
                assert forall|i: int| 0 <= i < cands@.len() implies #[trigger] cands@[i] < room_idx.rooms@.len() by {
                    vstd::seq_lib::to_multiset_contains(cands@, cands@[i]);
                    vstd::seq_lib::to_multiset_contains(w, cands@[i]);
                    assert(cands@.contains(cands@[i]));
                    let u = choose|u: int| 0 <= u < w.len() && w[u] == cands@[i];
                    assert(w[u] < room_idx.rooms@.len());
                }
                assert(sp.rooms.len() == state.rooms@.len());
                assert(r0.len() == placed@.len());
            }
            fill_door(state, room_idx, &door, &cands, &mut placed);
            proof {
                let perm = cands@;
                let g = fill_spec(sp, door, perm, cat, 0);
                assert(room_views(placed@) == r0 + g);
                assert(step_ok(door, sp, r0, perm, room_views(placed@), state.view_state(), cat, tab, max_rooms));
                assert(nearby@[(t + 1) - 1] == door);
                assert(batch_reach(nearby@, (t + 1) as nat, s0, cat, tab, room_views(placed@), state.view_state(), max_rooms));
            }
            t += 1;
        }
    }
    proof {
        assert(batch_reach(nearby@, t as nat, s0, cat, tab, room_views(placed@), state.view_state(), max_rooms));
        assert(batch_outcome(s0, cam_pos, cat, tab, room_views(placed@), state.view_state(), search_dist, max_rooms));
        law_batch_keeps_layout_apart(s0, cam_pos, cat, tab, room_views(placed@), state.view_state(), search_dist, max_rooms);
        law_batch_handles_nearest_first(s0, cam_pos, cat, tab, room_views(placed@), state.view_state(), search_dist, max_rooms);
        if door_spots_distinct(s0.open_doors) {
            law_batch_keeps_door_spots_distinct(s0, cam_pos, cat, tab, room_views(placed@), state.view_state(), search_dist, max_rooms);
        }
    }
    placed
}

// ---------------------------------------------------------------------------
// Laws.

/// The room tried at an open door is positioned so that its answering door lands
/// exactly on the open door. This holds for every top and bottom door, and for side
/// doors two tiles tall (the door size the catalog is authored with).
pub proof fn law_candidate_meets_open_door(door: Door, md: DoorDef)
    requires
        door.world_pos.near_world(),
        md.dir == door.door.dir.spec_opposite(),
        door.door.dir == Dir::N || door.door.dir == Dir::S || md.width == 2,
    ensures
        crate::room::spec_door_pos(candidate_pos(door, md), md) == door.world_pos,
{
    crate::room::lemma_door_bounds(candidate_pos(door, md), md);
}

/// Adding rooms in two runs is adding them in one.
pub proof fn lemma_add_rooms_concat(s: StateView, a: Seq<RoomView>, b: Seq<RoomView>)
    ensures
        spec_add_rooms(s, a + b) == spec_add_rooms(spec_add_rooms(s, a), b),
    decreases b.len(),
{
    if b.len() == 0 {
        assert(a + b =~= a);
    } else {
        lemma_add_rooms_concat(s, a, b.drop_last());
        assert((a + b).drop_last() =~= a + b.drop_last());
        assert((a + b).last() == b.last());
    }
}

/// Handling doors only ever adds the rooms it returns: the state reached is the
/// starting state with those rooms added in order.
pub proof fn lemma_batch_reach_adds(
    doors: Seq<Door>,
    k: nat,
    s0: StateView,
    cat: Seq<RoomDefView>,
    table: Seq<Seq<usize>>,
    r: Seq<RoomView>,
    s: StateView,
    max_rooms: usize,
)
    requires
        batch_reach(doors, k, s0, cat, table, r, s, max_rooms),
    ensures
        s == spec_add_rooms(s0, r),
    decreases k,
{
    if k == 0 {
        assert(r =~= Seq::<RoomView>::empty());
    } else {
        let (r0, sp, perm) = choose|r0: Seq<RoomView>, sp: StateView, perm: Seq<usize>|
            #[trigger] step_ok(doors[k - 1], sp, r0, perm, r, s, cat, table, max_rooms) && batch_reach(
                doors,
                (k - 1) as nat,
                s0,
                cat,
                table,
                r0,
                sp, max_rooms,
            );
        lemma_batch_reach_adds(doors, (k - 1) as nat, s0, cat, table, r0, sp, max_rooms);
        if door_open(sp.open_doors, doors[k - 1].world_pos) {
            let g = fill_spec(sp, doors[k - 1], perm, cat, 0);
            lemma_add_rooms_concat(s0, r0, g);
        }
    }
}

/// A batch's result is exactly what it added: committing the returned rooms, in
/// order, to the state it started from gives the state it left.
pub proof fn law_batch_commits_its_rooms(
    s0: StateView,
    cam: Pos,
    cat: Seq<RoomDefView>,
    table: Seq<Seq<usize>>,
    r: Seq<RoomView>,
    s: StateView,
    dist: i64,
    max_rooms: usize,
)
    requires
        batch_outcome(s0, cam, cat, table, r, s, dist, max_rooms),
    ensures
        s == spec_add_rooms(s0, r),
{
    let doors = spec_nearby(s0.open_doors, cam, dist, s0.open_doors.len());
    let k = choose|k: nat|
        k <= doors.len() && #[trigger] batch_reach(doors, k, s0, cat, table, r, s, max_rooms) && (k == doors.len()
            || batch_stops(doors[k as int], s, r.len(), max_rooms));
    lemma_batch_reach_adds(doors, k, s0, cat, table, r, s, max_rooms);
}

/// Adding rooms appends them to the layout's rooms.
pub proof fn lemma_add_rooms_rooms(s: StateView, r: Seq<RoomView>)
    ensures
        spec_add_rooms(s, r).rooms == s.rooms + r,
    decreases r.len(),
{
    if r.len() == 0 {
        assert(s.rooms + r =~= s.rooms);
    } else {
        lemma_add_rooms_rooms(s, r.drop_last());
        assert(s.rooms + r =~= (s.rooms + r.drop_last()).push(r.last()));
    }
}

/// The rooms placed at a door overlap none of the rooms of the layout they were
/// placed in, nor each other.
pub proof fn lemma_fill_clear(s: StateView, door: Door, cands: Seq<usize>, cat: Seq<RoomDefView>, i: nat)
    ensures
        all_clear_of(fill_spec(s, door, cands, cat, i), s.rooms),
        pairwise_apart(fill_spec(s, door, cands, cat, i)),
    decreases cands.len() - i,
{
    if i < cands.len() {
        match try_pick(s, door, cands[i as int], cat) {
            Some(v) => {
                let def = cat[cands[i as int] as int];
                let md = first_facing(def.doors, door.door.dir.spec_opposite(), def.doors.len()).unwrap();
                law_placement_is_clear(RoomView { def, pos: candidate_pos(door, md) }, s, cat, 0);
            },
            None => lemma_fill_clear(s, door, cands, cat, i + 1),
        }
    }
}

/// Handling doors places no room over a room of the starting layout, nor over
/// another room it places.
pub proof fn lemma_batch_reach_clear(
    doors: Seq<Door>,
    k: nat,
    s0: StateView,
    cat: Seq<RoomDefView>,
    table: Seq<Seq<usize>>,
    r: Seq<RoomView>,
    s: StateView,
    max_rooms: usize,
)
    requires
        batch_reach(doors, k, s0, cat, table, r, s, max_rooms),
    ensures
        all_clear_of(r, s0.rooms),
        pairwise_apart(r),
    decreases k,
{
    if k == 0 {
        assert(r.len() == 0);
    } else {
        let (r0, sp, perm) = choose|r0: Seq<RoomView>, sp: StateView, perm: Seq<usize>|
            #[trigger] step_ok(doors[k - 1], sp, r0, perm, r, s, cat, table, max_rooms) && batch_reach(
                doors,
                (k - 1) as nat,
                s0,
                cat,
                table,
                r0,
                sp, max_rooms,
            );
        lemma_batch_reach_clear(doors, (k - 1) as nat, s0, cat, table, r0, sp, max_rooms);
        if door_open(sp.open_doors, doors[k - 1].world_pos) {
            let g = fill_spec(sp, doors[k - 1], perm, cat, 0);
            lemma_fill_clear(sp, doors[k - 1], perm, cat, 0);
            lemma_batch_reach_adds(doors, (k - 1) as nat, s0, cat, table, r0, sp, max_rooms);
            lemma_add_rooms_rooms(s0, r0);
            assert forall|i: int, j: int| 0 <= i < r.len() && 0 <= j < s0.rooms.len() implies apart(
                #[trigger] r[i],
                #[trigger] s0.rooms[j],
            ) by {
                if i < r0.len() {
                    assert(r[i] == r0[i]);
                } else {
                    assert(r[i] == g[i - r0.len()]);
                    assert(sp.rooms[j] == s0.rooms[j]);
                }
            }
            assert forall|i: int, j: int| 0 <= i < g.len() && 0 <= j < r0.len() implies apart(
                #[trigger] g[i],
                #[trigger] r0[j],
            ) by {
                assert(sp.rooms[s0.rooms.len() + j] == r0[j]);
            }
            crate::placement::lemma_concat_apart(r0, g);
            assert(r == r0 + g);
        }
    }
}

/// A batch never places a room over the layout it started from nor over another
/// room it places, so it keeps a layout free of overlaps.
pub proof fn law_batch_keeps_layout_apart(
    s0: StateView,
    cam: Pos,
    cat: Seq<RoomDefView>,
    table: Seq<Seq<usize>>,
    r: Seq<RoomView>,
    s: StateView,
    dist: i64,
    max_rooms: usize,
)
    requires
        batch_outcome(s0, cam, cat, table, r, s, dist, max_rooms),
    ensures
        all_clear_of(r, s0.rooms),
        pairwise_apart(r),
        pairwise_apart(s0.rooms) ==> pairwise_apart(s.rooms),
{
    let doors = spec_nearby(s0.open_doors, cam, dist, s0.open_doors.len());
    let k = choose|k: nat|
        k <= doors.len() && #[trigger] batch_reach(doors, k, s0, cat, table, r, s, max_rooms) && (k == doors.len()
            || batch_stops(doors[k as int], s, r.len(), max_rooms));
    lemma_batch_reach_clear(doors, k, s0, cat, table, r, s, max_rooms);
    lemma_batch_reach_adds(doors, k, s0, cat, table, r, s, max_rooms);
    lemma_add_rooms_rooms(s0, r);
    if pairwise_apart(s0.rooms) {
        crate::placement::lemma_concat_apart(s0.rooms, r);
    }
}

/// A batch keeps the positions of the open doors distinct: a placed room's door at
/// an open door's position closes that door, and any other door is added once.
pub proof fn law_batch_keeps_door_spots_distinct(
    s0: StateView,
    cam: Pos,
    cat: Seq<RoomDefView>,
    table: Seq<Seq<usize>>,
    r: Seq<RoomView>,
    s: StateView,
    dist: i64,
    max_rooms: usize,
)
    requires
        batch_outcome(s0, cam, cat, table, r, s, dist, max_rooms),
        door_spots_distinct(s0.open_doors),
    ensures
        door_spots_distinct(s.open_doors),
{
    law_batch_commits_its_rooms(s0, cam, cat, table, r, s, dist, max_rooms);
    law_add_rooms_keeps_door_spots_distinct(s0, r);
}

/// `s` is ordered by distance from `cam`, nearest first.
pub open spec fn sorted_by_dist(s: Seq<Door>, cam: Pos) -> bool {
    forall|i: int, j: int|
        0 <= i <= j < s.len() ==> dist2((#[trigger] s[i]).world_pos, cam) <= dist2(
            (#[trigger] s[j]).world_pos,
            cam,
        )
}

/// Where `first_farther` points: every earlier door is no farther than `x`, and the
/// door there, if any, is farther.
pub proof fn lemma_first_farther(s: Seq<Door>, x: Door, cam: Pos, n: nat)
    requires
        n <= s.len(),
    ensures
        first_farther(s, x, cam, n) <= n,
        forall|i: int|
            0 <= i < first_farther(s, x, cam, n) ==> dist2((#[trigger] s[i]).world_pos, cam) <= dist2(
                x.world_pos,
                cam,
            ),
        first_farther(s, x, cam, n) < n ==> dist2(s[first_farther(s, x, cam, n) as int].world_pos, cam)
            > dist2(x.world_pos, cam),
    decreases n,
{
    if n > 0 {
        lemma_first_farther(s, x, cam, (n - 1) as nat);
    }
}

/// The doors near the camera come out nearest first, and all of them are near.
pub proof fn law_nearby_sorted(open: Seq<Door>, cam: Pos, dist: i64, n: nat)
    requires
        n <= open.len(),
    ensures
        sorted_by_dist(spec_nearby(open, cam, dist, n), cam),
        forall|i: int|
            0 <= i < spec_nearby(open, cam, dist, n).len() ==> is_near(
                (#[trigger] spec_nearby(open, cam, dist, n)[i]).world_pos,
                cam,
                dist,
            ),
    decreases n,
{
    if n > 0 {
        law_nearby_sorted(open, cam, dist, (n - 1) as nat);
        let prev = spec_nearby(open, cam, dist, (n - 1) as nat);
        let d = open[n - 1];
        if is_near(d.world_pos, cam, dist) {
            let f = first_farther(prev, d, cam, prev.len());
            lemma_first_farther(prev, d, cam, prev.len());
            let cur = prev.insert(f as int, d);
            assert forall|i: int| 0 <= i < cur.len() implies #[trigger] cur[i] == if i < f {
                prev[i]
            } else if i == f {
                d
            } else {
                prev[i - 1]
            } by {}
            assert forall|i: int, j: int| 0 <= i <= j < cur.len() implies dist2(
                (#[trigger] cur[i]).world_pos,
                cam,
            ) <= dist2((#[trigger] cur[j]).world_pos, cam) by {
                if i < f && j > f {
                    assert(dist2(prev[i].world_pos, cam) <= dist2(d.world_pos, cam));
                    assert(dist2(prev[f as int].world_pos, cam) > dist2(d.world_pos, cam));
                    assert(dist2(prev[f as int].world_pos, cam) <= dist2(prev[j - 1].world_pos, cam));
                } else if i == f && j > f {
                    assert(dist2(prev[f as int].world_pos, cam) <= dist2(prev[j - 1].world_pos, cam));
                }
            }
        }
    }
}

/// The doors near the camera are exactly the open doors within `dist` of it: every
/// open door within `dist` appears, and every door that appears is one of the open
/// doors.
pub proof fn law_nearby_complete(open: Seq<Door>, cam: Pos, dist: i64, n: nat)
    requires
        n <= open.len(),
    ensures
        forall|j: int|
            #![trigger open[j]]
            0 <= j < n && is_near(open[j].world_pos, cam, dist) ==> spec_nearby(open, cam, dist, n).contains(
                open[j],
            ),
        forall|i: int|
            0 <= i < spec_nearby(open, cam, dist, n).len() ==> exists|j: int|
                0 <= j < n && open[j] == #[trigger] spec_nearby(open, cam, dist, n)[i],
    decreases n,
{
    if n > 0 {
        law_nearby_complete(open, cam, dist, (n - 1) as nat);
        let prev = spec_nearby(open, cam, dist, (n - 1) as nat);
        let d = open[n - 1];
        if is_near(d.world_pos, cam, dist) {
            let f = first_farther(prev, d, cam, prev.len());
            lemma_first_farther(prev, d, cam, prev.len());
            let cur = prev.insert(f as int, d);
            assert(cur == spec_nearby(open, cam, dist, n));
            assert forall|i: int| 0 <= i < cur.len() implies #[trigger] cur[i] == if i < f {
                prev[i]
            } else if i == f {
                d
            } else {
                prev[i - 1]
            } by {}
            assert forall|j: int|
                #![trigger open[j]]
                0 <= j < n && is_near(open[j].world_pos, cam, dist) implies cur.contains(open[j]) by {
                if j == n - 1 {
                    assert(cur[f as int] == d);
                } else {
                    assert(prev.contains(open[j]));
                    let k = choose|k: int| 0 <= k < prev.len() && prev[k] == open[j];
                    if k < f {
                        assert(cur[k] == open[j]);
                    } else {
                        assert(cur[k + 1] == open[j]);
                    }
                }
            }
            assert forall|i: int| 0 <= i < cur.len() implies exists|j: int|
                0 <= j < n && open[j] == #[trigger] cur[i] by {
                if i < f {
                    assert(cur[i] == prev[i]);
                    let j = choose|j: int| 0 <= j < n - 1 && open[j] == prev[i];
                    assert(open[j] == cur[i]);
                } else if i == f {
                    assert(open[n - 1] == cur[i]);
                } else {
                    assert(cur[i] == prev[i - 1]);
                    let j = choose|j: int| 0 <= j < n - 1 && open[j] == prev[i - 1];
                    assert(open[j] == cur[i]);
                }
            }
        } else {
            assert(spec_nearby(open, cam, dist, n) == prev);
            assert forall|i: int| 0 <= i < prev.len() implies exists|j: int|
                0 <= j < n && open[j] == #[trigger] prev[i] by {
                let j = choose|j: int| 0 <= j < n - 1 && open[j] == prev[i];
                assert(open[j] == prev[i]);
            }
        }
    }
}

/// `doors` are the open doors of `s0` within `dist` of `cam`, nearest first, and
/// handling the first `k` of them, until they run out or the layout is full, leads
/// from `s0` to `r` placed and state `s`.
pub open spec fn handled_nearest_first(
    doors: Seq<Door>,
    k: nat,
    s0: StateView,
    cam: Pos,
    cat: Seq<RoomDefView>,
    table: Seq<Seq<usize>>,
    r: Seq<RoomView>,
    s: StateView,
    dist: i64,
    max_rooms: usize,
) -> bool {
    &&& sorted_by_dist(doors, cam)
    &&& forall|i: int| 0 <= i < doors.len() ==> s0.open_doors.contains(#[trigger] doors[i]) && is_near(
        doors[i].world_pos,
        cam,
        dist,
    )
    &&& forall|j: int|
        #![trigger s0.open_doors[j]]
        0 <= j < s0.open_doors.len() && is_near(s0.open_doors[j].world_pos, cam, dist) ==> doors.contains(
            s0.open_doors[j],
        )
    &&& k <= doors.len()
    &&& batch_reach(doors, k, s0, cat, table, r, s, max_rooms)
    &&& (k == doors.len() || batch_stops(doors[k as int], s, r.len(), max_rooms))
}

/// A batch handles the open doors near the camera nearest first: the doors it goes
/// through are exactly the open doors within the search distance, each no farther
/// from the camera than the next, and it stops only when they run out or the layout
/// is full.
pub proof fn law_batch_handles_nearest_first(
    s0: StateView,
    cam: Pos,
    cat: Seq<RoomDefView>,
    table: Seq<Seq<usize>>,
    r: Seq<RoomView>,
    s: StateView,
    dist: i64,
    max_rooms: usize,
)
    requires
        batch_outcome(s0, cam, cat, table, r, s, dist, max_rooms),
    ensures
        exists|doors: Seq<Door>, k: nat|
            #[trigger] handled_nearest_first(doors, k, s0, cam, cat, table, r, s, dist, max_rooms),
{
    let n = s0.open_doors.len();
    let doors = spec_nearby(s0.open_doors, cam, dist, n);
    let k = choose|k: nat|
        k <= doors.len() && #[trigger] batch_reach(doors, k, s0, cat, table, r, s, max_rooms) && (k == doors.len()
            || batch_stops(doors[k as int], s, r.len(), max_rooms));
    law_nearby_sorted(s0.open_doors, cam, dist, n);
    law_nearby_complete(s0.open_doors, cam, dist, n);
    assert forall|i: int| 0 <= i < doors.len() implies s0.open_doors.contains(#[trigger] doors[i]) && is_near(
        doors[i].world_pos,
        cam,
        dist,
    ) by {
        let j = choose|j: int| 0 <= j < n && s0.open_doors[j] == doors[i];
    }
    assert(handled_nearest_first(doors, k, s0, cam, cat, table, r, s, dist, max_rooms));
}

} // verus!
