//! Rooms placed in the world and the doors they open.
use vstd::prelude::*;

use crate::catalog::{DoorDef, RoomDef, RoomDefView};
use crate::dir::Dir;
use crate::geometry::Pos;

verus! {

/// A room template placed with its top-left corner at `world_pos`.
#[derive(Debug)]
pub struct Room {
    pub room: RoomDef,
    pub world_pos: Pos,
}

/// The mathematical content of a `Room`.
pub struct RoomView {
    pub def: RoomDefView,
    pub pos: Pos,
}

impl View for Room {
    type V = RoomView;

    open spec fn view(&self) -> RoomView {
        RoomView { def: self.room@, pos: self.world_pos }
    }
}

impl RoomView {
    /// A placed room has a non-negative extent and lies in the world.
    pub open spec fn wf(self) -> bool {
        self.def.wf() && self.pos.in_world()
    }

    /// Extent of the room in pixels.
    pub open spec fn size(self) -> Pos {
        Pos { x: self.def.size.x as i64, y: self.def.size.y as i64 }
    }
}

impl Room {
    pub open spec fn wf(&self) -> bool {
        self@.wf()
    }

    /// Places a copy of `roomdef` at `world_pos`.
    pub fn new(roomdef: &RoomDef, world_pos: Pos) -> (r: Room)
        ensures
            r@ == (RoomView { def: roomdef@, pos: world_pos }),
    {
        Room { world_pos, room: roomdef.clone() }
    }

    /// Extent of the room in pixels.
    pub fn size(&self) -> (r: Pos)
        ensures
            r == self@.size(),
    {
        Pos { x: self.room.size.x as i64, y: self.room.size.y as i64 }
    }
}

impl Clone for Room {
    fn clone(&self) -> (r: Self)
        ensures
            r@ == self@,
    {
        Room { room: self.room.clone(), world_pos: self.world_pos }
    }
}

/// A door of a placed room, at its world position.
#[derive(Clone, Copy, Debug, PartialEq, Eq, Structural)]
pub struct Door {
    pub door: DoorDef,
    pub world_pos: Pos,
}

/// World position of door `d` of a room whose top-left corner is at `room_pos`:
/// its grid cell scaled to pixels, plus the vertical part of the door offset.
pub open spec fn spec_door_pos(room_pos: Pos, d: DoorDef) -> Pos {
    Pos {
        x: (room_pos.x + 16 * d.local_pos.x) as i64,
        y: (room_pos.y + 16 * d.local_pos.y + d.dir.spec_door_offset(d.width as int).1) as i64,
    }
}

/// Door `d` of a room whose top-left corner is at `room_pos`.
pub open spec fn spec_door(room_pos: Pos, d: DoorDef) -> Door {
    Door { door: d, world_pos: spec_door_pos(room_pos, d) }
}

/// Center and size of the clearance zone in front of a door: one tile out from the
/// door, centered on its width axis (a north box reaches half a tile further out).
pub open spec fn spec_bounding_box(door: Door) -> (Pos, Pos) {
    let v = door.door.dir.spec_as_vec();
    let px = door.world_pos.x + 16 * v.x;
    let py = door.world_pos.y + 16 * v.y;
    match door.door.dir {
        Dir::N => (Pos { x: px as i64, y: (py + 8) as i64 }, Pos { x: 64, y: 48 }),
        Dir::S => (Pos { x: px as i64, y: py as i64 }, Pos { x: 64, y: 32 }),
        Dir::E => (Pos { x: px as i64, y: py as i64 }, Pos { x: 32, y: 80 }),
        Dir::W => (Pos { x: px as i64, y: py as i64 }, Pos { x: 32, y: 80 }),
    }
}

/// A door of a room in the world lies near the world, and its clearance zone is
/// small enough for the rectangle tests.
pub proof fn lemma_door_bounds(room_pos: Pos, d: DoorDef)
    requires
        room_pos.door_fits(),
    ensures
        spec_door_pos(room_pos, d).x == room_pos.x + 16 * d.local_pos.x,
        spec_door_pos(room_pos, d).y == room_pos.y + 16 * d.local_pos.y
            + d.dir.spec_door_offset(d.width as int).1,
        room_pos.in_world() ==> spec_door_pos(room_pos, d).near_world(),
        room_pos.in_reach() ==> spec_door_pos(room_pos, d).small(),
{
}

/// The clearance zone of a door near the world has exact coordinates and fits the
/// rectangle tests.
pub proof fn lemma_bounding_box_bounds(door: Door)
    requires
        door.world_pos.near_world(),
    ensures
        spec_bounding_box(door).0.small(),
        spec_bounding_box(door).1.small(),
        spec_bounding_box(door).1.x % 2 == 0,
        spec_bounding_box(door).1.y % 2 == 0,
        spec_bounding_box(door).1.x > 0,
        spec_bounding_box(door).1.y > 0,
        spec_bounding_box(door).0.x == door.world_pos.x + 16 * door.door.dir.spec_as_vec().x,
        spec_bounding_box(door).0.y == door.world_pos.y + 16 * door.door.dir.spec_as_vec().y + (
        if door.door.dir == Dir::N {
            8int
        } else {
            0int
        }),
        -5 * crate::geometry::WORLD_LIMIT <= spec_bounding_box(door).0.x <= 5
            * crate::geometry::WORLD_LIMIT,
        -5 * crate::geometry::WORLD_LIMIT <= spec_bounding_box(door).0.y <= 5
            * crate::geometry::WORLD_LIMIT,
{
}

impl Door {
    /// Door `door` of `room`, at its world position.
    pub fn new(room: &Room, door: &DoorDef) -> (r: Door)
        requires
            room.world_pos.door_fits(),
        ensures
            r == spec_door(room.world_pos, *door),
            room.world_pos.in_world() ==> r.world_pos.near_world(),
            room.world_pos.in_reach() ==> r.world_pos.small(),
    {
        proof {
            lemma_door_bounds(room.world_pos, *door);
        }
        let off = door.dir.door_offset(door.width);
        Door {
            door: *door,
            world_pos: Pos {
                x: room.world_pos.x + 16 * (door.local_pos.x as i64),
                y: room.world_pos.y + 16 * (door.local_pos.y as i64) + off.y,
            },
        }
    }

    /// Minimum clearance zone reserved in front of a door, as its center and size,
    /// centered on the door's width axis. A north door reserves three tiles of depth
    /// (two of wall and one for the door); the others reserve two (one of wall and one
    /// for the door).
    pub fn get_bounding_box(&self) -> (r: (Pos, Pos))
        requires
            self.world_pos.box_fits(),
        ensures
            r == spec_bounding_box(*self),
    {
        let v = self.door.dir.as_vec();
        let px = self.world_pos.x + 16 * v.x;
        let py = self.world_pos.y + 16 * v.y;
        match self.door.dir {
            Dir::N => (Pos { x: px, y: py + 8 }, Pos { x: 64, y: 48 }),
            Dir::S => (Pos { x: px, y: py }, Pos { x: 64, y: 32 }),
            Dir::E => (Pos { x: px, y: py }, Pos { x: 32, y: 80 }),
            Dir::W => (Pos { x: px, y: py }, Pos { x: 32, y: 80 }),
        }
    }
}

} // verus!
