//! The layout generated so far: the placed rooms, the doors still waiting for a
//! neighbour, and the grid that indexes the rooms.
use vstd::prelude::*;

use crate::catalog::DoorDef;
use crate::geometry::{spec_collide_tl, Pos};
use crate::room::{lemma_door_bounds, spec_door, Door, Room, RoomView};
use crate::spatial_hash::{cell_coord_ok, in_range, rect_ok, SpatialHash};

verus! {

/// The stages generation goes through: waiting for the level file, building the
/// room catalog from it, then generating.
#[derive(Clone, Copy, Debug, PartialEq, Eq, Hash, Structural)]
pub enum GenerationState {
    AssetLoading,
    Indexing,
    Ready,
}

impl Default for GenerationState {
    fn default() -> (r: Self)
        ensures
            r == GenerationState::AssetLoading,
    {
        GenerationState::AssetLoading
    }
}

/// Width in pixels of the cells of the room grid.
pub const ROOM_GRID_CELL_SIZE: i64 = 256;

/// Index of the first door of `open[..n]` standing at `p`, if any.
pub open spec fn first_door_at(open: Seq<Door>, p: Pos, n: nat) -> Option<int>
    decreases n,
{
    if n == 0 {
        None
    } else {
        match first_door_at(open, p, (n - 1) as nat) {
            Some(i) => Some(i),
            None => if open[n - 1].world_pos == p {
                Some(n - 1)
            } else {
                None
            },
        }
    }
}

/// `s` with element `i` replaced by the last one and the last one dropped.
pub open spec fn swap_remove_at<T>(s: Seq<T>, i: int) -> Seq<T> {
    s.update(i, s.last()).drop_last()
}

/// One door of a new room joins the open doors: an open door standing where it
/// stands is matched and leaves; otherwise the new door becomes open.
pub open spec fn join_door(open: Seq<Door>, door: Door) -> Seq<Door> {
    match first_door_at(open, door.world_pos, open.len()) {
        Some(i) => swap_remove_at(open, i),
        None => open.push(door),
    }
}

/// The open doors after the doors `doors` of a room at `room_pos` join them, in order.
pub open spec fn join_doors(open: Seq<Door>, room_pos: Pos, doors: Seq<DoorDef>) -> Seq<Door>
    decreases doors.len(),
{
    if doors.len() == 0 {
        open
    } else {
        join_door(join_doors(open, room_pos, doors.drop_last()), spec_door(room_pos, doors.last()))
    }
}

/// The mathematical content of a `WorldState` that placement decisions read.
pub struct StateView {
    pub rooms: Seq<RoomView>,
    pub open_doors: Seq<Door>,
}

/// The state after `room` is added.
pub open spec fn spec_add_room(s: StateView, room: RoomView) -> StateView {
    StateView {
        rooms: s.rooms.push(room),
        open_doors: join_doors(s.open_doors, room.pos, room.def.doors),
    }
}

/// The state after each of `rooms` is added, in order.
pub open spec fn spec_add_rooms(s: StateView, rooms: Seq<RoomView>) -> StateView
    decreases rooms.len(),
{
    if rooms.len() == 0 {
        s
    } else {
        spec_add_room(spec_add_rooms(s, rooms.drop_last()), rooms.last())
    }
}

/// The state with `rooms` appended to its rooms and its open doors untouched.
pub open spec fn spec_push_rooms(s: StateView, rooms: Seq<RoomView>) -> StateView {
    StateView { rooms: s.rooms + rooms, open_doors: s.open_doors }
}

/// Rooms as mathematical values.
pub open spec fn room_views(rooms: Seq<Room>) -> Seq<RoomView> {
    rooms.map_values(|r: Room| r@)
}

/// Every cell touched by room `i` lists `i`.
pub open spec fn grid_covers(grid: SpatialHash, rooms: Seq<RoomView>) -> bool {
    forall|i: int, cx: int, cy: int|
        #![trigger rooms[i], grid.cell(cx, cy)]
        0 <= i < rooms.len() && in_range(grid.range_of(rooms[i].pos, rooms[i].size()), cx, cy)
            ==> grid.cell(cx, cy).contains(i as usize)
}

/// The generated layout. `add_room` is the one place that places a room: it
/// records the room, lists it in the grid and updates the open doors together.
pub struct WorldState {
    pub open_doors: Vec<Door>,
    pub rooms: Vec<Room>,
    pub room_grid: SpatialHash,
}

impl WorldState {
    pub open spec fn view_state(&self) -> StateView {
        StateView { rooms: room_views(self.rooms@), open_doors: self.open_doors@ }
    }

    /// Every room lies in the world with a non-negative extent, the grid lists each
    /// room in every cell it touches and lists nothing else, and every open door
    /// lies near the world.
    pub open spec fn wf(&self) -> bool {
        &&& self.room_grid.wf()
        &&& forall|i: int| 0 <= i < self.rooms@.len() ==> (#[trigger] self.rooms@[i])@.wf()
        &&& grid_covers(self.room_grid, room_views(self.rooms@))
        &&& self.room_grid.all_below(self.rooms@.len())
        &&& forall|i: int|
            0 <= i < self.open_doors@.len() ==> (#[trigger] self.open_doors@[i]).world_pos.near_world()
    }

    /// An empty layout.
    pub fn new() -> (r: WorldState)
        ensures
            r.wf(),
            r.rooms@.len() == 0,
            r.open_doors@.len() == 0,
            r.room_grid.cell_size == ROOM_GRID_CELL_SIZE,
            r.room_grid.cells@ == Map::<i128, Vec<usize>>::empty(),
    {
        WorldState {
            open_doors: Vec::new(),
            rooms: Vec::new(),
            room_grid: SpatialHash::new(ROOM_GRID_CELL_SIZE),
        }
    }

    /// Places `room`: appends it to the rooms, lists it in the grid, and lets each of
    /// its doors, in order, either close a matching open door (one at the same
    /// position, which leaves the open doors by `swap_remove`) or become open.
    pub fn add_room(&mut self, room: Room)
        requires
            old(self).wf(),
            room@.wf(),
        ensures
            final(self).wf(),
            final(self).view_state() == spec_add_room(old(self).view_state(), room@),
            final(self).room_grid.cell_size == old(self).room_grid.cell_size,
            forall|cx: int, cy: int|
                cell_coord_ok(cx) && cell_coord_ok(cy) ==> #[trigger] final(self).room_grid.cell(cx, cy)
                    == if in_range(old(self).room_grid.range_of(room.world_pos, room@.size()), cx, cy) {
                    old(self).room_grid.cell(cx, cy).push(old(self).rooms@.len() as usize)
                } else {
                    old(self).room_grid.cell(cx, cy)
                },
    {
        let ghost old_self = *old(self);
        let index = self.rooms.len();
        let size = room.size();
        self.room_grid.insert(index, room.world_pos, size);
        proof {
            let rv = room_views(old_self.rooms@.push(room));
            assert(rv =~= room_views(old_self.rooms@).push(room@));
            assert forall|i: int, cx: int, cy: int|
                #![trigger rv[i], self.room_grid.cell(cx, cy)]
                0 <= i < rv.len() && in_range(self.room_grid.range_of(rv[i].pos, rv[i].size()), cx, cy)
                    implies self.room_grid.cell(cx, cy).contains(i as usize) by {
                crate::spatial_hash::lemma_range_coords(
                    self.room_grid.cell_size as int,
                    rv[i].pos,
                    rv[i].size(),
                    cx,
                    cy,
                );
                if i < old_self.rooms@.len() {
                    assert(rv[i] == room_views(old_self.rooms@)[i]);
                    assert(old_self.room_grid.cell(cx, cy).contains(i as usize));
                    crate::spatial_hash::lemma_push_keeps(old_self.room_grid.cell(cx, cy), index);
                } else {
                    crate::spatial_hash::lemma_push_keeps(old_self.room_grid.cell(cx, cy), index);
                }
            }
            assert(self.room_grid.all_below((old_self.rooms@.len() + 1) as nat)) by {
                assert(old_self.room_grid.all_below((old_self.rooms@.len() + 1) as nat));
            }
        }

        let ghost grid_after = self.room_grid;
        let mut k: usize = 0;
        while k < room.room.doors.len()
            invariant
                k <= room.room.doors@.len(),
                room@.wf(),
                self.rooms == old_self.rooms,
                self.room_grid == grid_after,
                self.open_doors@ == join_doors(
                    old_self.open_doors@,
                    room.world_pos,
                    room.room.doors@.take(k as int),
                ),
                forall|i: int|
                    0 <= i < self.open_doors@.len() ==> (#[trigger] self.open_doors@[i]).world_pos.near_world(),
            decreases room.room.doors@.len() - k,
        {
            let doordef = room.room.doors[k];
            let door = Door::new(&room, &doordef);
            let ghost before = self.open_doors@;
            let pos = position_of_door_at(&self.open_doors, door.world_pos);
            proof {
                assert(room.room.doors@.take(k as int + 1).drop_last() =~= room.room.doors@.take(k as int));
                assert(room.room.doors@.take(k as int + 1).last() == doordef);
                assert(join_doors(old_self.open_doors@, room.world_pos, room.room.doors@.take(k as int + 1))
                    == join_door(before, door));
            }
            match pos {
                Some(idx) => {
                    self.open_doors.swap_remove(idx);
                },
                None => {
                    self.open_doors.push(door);
                },
            }
            proof {
                assert forall|i: int| 0 <= i < self.open_doors@.len() implies (#[trigger] self.open_doors@[i]).world_pos.near_world() by {
                    match pos {
                        Some(idx) => {
                            if i == idx {
                                assert(self.open_doors@[i] == before.last());
                            } else {
                                assert(self.open_doors@[i] == before[i]);
                            }
                        },
                        None => {
                            if i < before.len() {
                                assert(self.open_doors@[i] == before[i]);
                            }
                        },
                    }
                }
            }
            k += 1;
        }
        proof {
            assert(room.room.doors@.take(room.room.doors@.len() as int) =~= room.room.doors@);
        }
        self.rooms.push(room);
        proof {
            assert(room_views(self.rooms@) =~= room_views(old_self.rooms@).push(room@));
        }
    }

    /// Appends `room` and lists it in the grid, leaving the open doors as they are:
    /// the trial layout in which bridging rooms are checked.
    pub fn push_room(&mut self, room: Room)
        requires
            old(self).wf(),
            room@.wf(),
        ensures
            final(self).wf(),
            final(self).view_state() == spec_push_rooms(old(self).view_state(), seq![room@]),
    {
        let ghost old_self = *old(self);
        let index = self.rooms.len();
        let size = room.size();
        self.room_grid.insert(index, room.world_pos, size);
        proof {
            let rv = room_views(old_self.rooms@.push(room));
            assert(rv =~= room_views(old_self.rooms@).push(room@));
            assert forall|i: int, cx: int, cy: int|
                #![trigger rv[i], self.room_grid.cell(cx, cy)]
                0 <= i < rv.len() && in_range(self.room_grid.range_of(rv[i].pos, rv[i].size()), cx, cy)
                    implies self.room_grid.cell(cx, cy).contains(i as usize) by {
                crate::spatial_hash::lemma_range_coords(
                    self.room_grid.cell_size as int,
                    rv[i].pos,
                    rv[i].size(),
                    cx,
                    cy,
                );
                if i < old_self.rooms@.len() {
                    assert(rv[i] == room_views(old_self.rooms@)[i]);
                    assert(old_self.room_grid.cell(cx, cy).contains(i as usize));
                    crate::spatial_hash::lemma_push_keeps(old_self.room_grid.cell(cx, cy), index);
                } else {
                    crate::spatial_hash::lemma_push_keeps(old_self.room_grid.cell(cx, cy), index);
                }
            }
            assert(self.room_grid.all_below((old_self.rooms@.len() + 1) as nat)) by {
                assert(old_self.room_grid.all_below((old_self.rooms@.len() + 1) as nat));
            }
        }
        self.rooms.push(room);
        proof {
            assert(room_views(self.rooms@) =~= room_views(old_self.rooms@).push(room@));
            assert(room_views(old_self.rooms@) + seq![room@] =~= room_views(old_self.rooms@).push(room@));
        }
    }
}

/// The room grid misses no room: every room whose rectangle overlaps a query
/// rectangle (of non-negative size) is among the rooms listed near it.
pub proof fn law_grid_finds_overlapping_rooms(state: WorldState, q_pos: Pos, q_size: Pos, i: int)
    requires
        state.wf(),
        q_size.x >= 0,
        q_size.y >= 0,
        0 <= i < state.rooms@.len(),
        spec_collide_tl(state.rooms@[i].world_pos, state.rooms@[i]@.size(), q_pos, q_size),
    ensures
        state.room_grid.listed_near(q_pos, q_size, i as usize),
{
    let rv = room_views(state.rooms@);
    assert(rv[i] == state.rooms@[i]@);
    assert forall|cx: int, cy: int|
        in_range(state.room_grid.range_of(rv[i].pos, rv[i].size()), cx, cy) implies #[trigger] state.room_grid.cell(
        cx,
        cy,
    ).contains(i as usize) by {
        assert(rv[i] == state.rooms@[i]@);
    }
    crate::spatial_hash::law_query_finds_overlap(
        state.room_grid,
        rv[i].pos,
        rv[i].size(),
        q_pos,
        q_size,
        i as usize,
    );
}

/// Position of the first door of `open` standing at `p`, if any.
pub fn position_of_door_at(open: &Vec<Door>, p: Pos) -> (r: Option<usize>)
    ensures
        r matches Some(i) ==> i < open@.len() && first_door_at(open@, p, open@.len()) == Some(i as int),
        r is None ==> first_door_at(open@, p, open@.len()) is None,
{
    let mut idx: usize = 0;
    while idx < open.len()
        invariant
            idx <= open@.len(),
            first_door_at(open@, p, idx as nat) is None,
        decreases open@.len() - idx,
    {
        if open[idx].world_pos == p {
            proof {
                lemma_first_door_at_stable(open@, p, (idx + 1) as nat, open@.len());
            }
            return Some(idx);
        }
        idx += 1;
    }
    None
}

/// Once a door at `p` is found among the first `m` open doors, looking further
/// finds the same one.
pub proof fn lemma_first_door_at_stable(open: Seq<Door>, p: Pos, m: nat, n: nat)
    requires
        m <= n,
        first_door_at(open, p, m) is Some,
    ensures
        first_door_at(open, p, n) == first_door_at(open, p, m),
    decreases n - m,
{
    if n > m {
        lemma_first_door_at_stable(open, p, m, (n - 1) as nat);
    }
}

/// No two open doors stand at the same position.
pub open spec fn door_spots_distinct(open: Seq<Door>) -> bool {
    forall|i: int, j: int|
        0 <= i < open.len() && 0 <= j < open.len() && i != j ==> (#[trigger] open[i]).world_pos
            != (#[trigger] open[j]).world_pos
}

/// What the search for a door at `p` finds: the index of one standing there, or
/// none among the first `n`.
pub proof fn lemma_first_door_at(open: Seq<Door>, p: Pos, n: nat)
    requires
        n <= open.len(),
    ensures
        first_door_at(open, p, n) matches Some(i) ==> 0 <= i < n && open[i].world_pos == p,
        first_door_at(open, p, n) is None ==> forall|i: int| 0 <= i < n ==> (#[trigger] open[i]).world_pos != p,
    decreases n,
{
    if n > 0 {
        lemma_first_door_at(open, p, (n - 1) as nat);
    }
}

/// A door joining the open doors keeps their positions distinct.
pub proof fn lemma_join_door_distinct(open: Seq<Door>, door: Door)
    requires
        door_spots_distinct(open),
    ensures
        door_spots_distinct(join_door(open, door)),
{
    lemma_first_door_at(open, door.world_pos, open.len());
    match first_door_at(open, door.world_pos, open.len()) {
        Some(k) => {
            let cur = swap_remove_at(open, k);
            let last = open.len() - 1;
            assert forall|i: int, j: int|
                0 <= i < cur.len() && 0 <= j < cur.len() && i != j implies (#[trigger] cur[i]).world_pos
                    != (#[trigger] cur[j]).world_pos by {
                let oi = if i == k { last } else { i };
                let oj = if j == k { last } else { j };
                assert(cur[i] == open[oi]);
                assert(cur[j] == open[oj]);
            }
        },
        None => {
            let cur = open.push(door);
            assert forall|i: int, j: int|
                0 <= i < cur.len() && 0 <= j < cur.len() && i != j implies (#[trigger] cur[i]).world_pos
                    != (#[trigger] cur[j]).world_pos by {
                if i < open.len() && j < open.len() {
                    assert(cur[i] == open[i] && cur[j] == open[j]);
                } else if i < open.len() {
                    assert(cur[i] == open[i]);
                } else {
                    assert(cur[j] == open[j]);
                }
            }
        },
    }
}

/// A room's doors joining the open doors keep their positions distinct.
pub proof fn lemma_join_doors_distinct(open: Seq<Door>, room_pos: Pos, doors: Seq<DoorDef>)
    requires
        door_spots_distinct(open),
    ensures
        door_spots_distinct(join_doors(open, room_pos, doors)),
    decreases doors.len(),
{
    if doors.len() > 0 {
        lemma_join_doors_distinct(open, room_pos, doors.drop_last());
        lemma_join_door_distinct(join_doors(open, room_pos, doors.drop_last()), spec_door(room_pos, doors.last()));
    }
}

/// Adding rooms keeps the positions of the open doors distinct: a new door at an
/// open door's position closes it, and any other new door is added once.
pub proof fn law_add_rooms_keeps_door_spots_distinct(s: StateView, rooms: Seq<RoomView>)
    requires
        door_spots_distinct(s.open_doors),
    ensures
        door_spots_distinct(spec_add_rooms(s, rooms).open_doors),
    decreases rooms.len(),
{
    if rooms.len() > 0 {
        law_add_rooms_keeps_door_spots_distinct(s, rooms.drop_last());
        let prev = spec_add_rooms(s, rooms.drop_last());
        lemma_join_doors_distinct(prev.open_doors, rooms.last().pos, rooms.last().def.doors);
    }
}

impl Clone for WorldState {
    fn clone(&self) -> (r: Self)
        ensures
            r.view_state() == self.view_state(),
            r.room_grid.cell_size == self.room_grid.cell_size,
            r.room_grid.cells@ == self.room_grid.cells@,
            self.wf() ==> r.wf(),
    {
        let rooms = self.rooms.clone();
        proof {
            assert(room_views(rooms@) =~= room_views(self.rooms@));
        }
        let open_doors = self.open_doors.clone();
        proof {
            assert(open_doors@ =~= self.open_doors@);
        }
        let r = WorldState { open_doors, rooms, room_grid: self.room_grid.clone() };
        proof {
            if self.wf() {
                assert forall|i: int| 0 <= i < r.rooms@.len() implies (#[trigger] r.rooms@[i])@.wf() by {
                    assert(room_views(r.rooms@)[i] == room_views(self.rooms@)[i]);
                }
                assert forall|i: int, cx: int, cy: int|
                    #![trigger room_views(r.rooms@)[i], r.room_grid.cell(cx, cy)]
                    0 <= i < room_views(r.rooms@).len() && in_range(
                        r.room_grid.range_of(room_views(r.rooms@)[i].pos, room_views(r.rooms@)[i].size()),
                        cx,
                        cy,
                    ) implies r.room_grid.cell(cx, cy).contains(i as usize) by {
                    assert(room_views(r.rooms@)[i] == room_views(self.rooms@)[i]);
                    assert(r.room_grid.cell(cx, cy) == self.room_grid.cell(cx, cy));
                }
                assert(r.room_grid.all_below(r.rooms@.len()) == self.room_grid.all_below(self.rooms@.len()));
            }
        }
        r
    }
}

impl Default for WorldState {
    fn default() -> (r: Self)
        ensures
            r.wf(),
            r.rooms@.len() == 0,
            r.open_doors@.len() == 0,
            r.room_grid.cell_size == ROOM_GRID_CELL_SIZE,
            r.room_grid.cells@ == Map::<i128, Vec<usize>>::empty(),
    {
        WorldState::new()
    }
}

} // verus!
