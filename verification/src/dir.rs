//! The four directions a door can face.
use vstd::prelude::*;

use crate::geometry::Pos;

verus! {

/// The side of a room a door sits on, and so the way it faces.
#[derive(Clone, Copy, Debug, PartialEq, Eq, Hash, Structural)]
pub enum Dir {
    N,
    S,
    E,
    W,
}

impl Dir {
    pub open spec fn spec_opposite(self) -> Dir {
        match self {
            Dir::N => Dir::S,
            Dir::S => Dir::N,
            Dir::E => Dir::W,
            Dir::W => Dir::E,
        }
    }

    pub open spec fn spec_rotate_cl(self) -> Dir {
        match self {
            Dir::N => Dir::E,
            Dir::S => Dir::W,
            Dir::E => Dir::S,
            Dir::W => Dir::N,
        }
    }

    /// Unit step in this direction (y up).
    pub open spec fn spec_as_vec(self) -> Pos {
        match self {
            Dir::N => Pos { x: 0i64, y: 1i64 },
            Dir::S => Pos { x: 0i64, y: -1i64 },
            Dir::E => Pos { x: 1i64, y: 0i64 },
            Dir::W => Pos { x: -1i64, y: 0i64 },
        }
    }

    /// Offset, in pixels, from a door's grid cell to the point that stands for the
    /// door, for a door `width` tiles wide.
    pub open spec fn spec_door_offset(self, width: int) -> (int, int) {
        match self {
            Dir::N => (8 * width, 0),
            Dir::S => (8 * width, -16),
            Dir::E => (16, -8 * width),
            Dir::W => (0, -8 * width),
        }
    }

    /// Slot of this direction in a four-entry table.
    pub open spec fn spec_index(self) -> nat {
        match self {
            Dir::N => 0,
            Dir::S => 1,
            Dir::E => 2,
            Dir::W => 3,
        }
    }

    /// The direction facing the other way.
    pub fn opposite(&self) -> (r: Dir)
        ensures
            r == self.spec_opposite(),
    {
        match self {
            Dir::N => Dir::S,
            Dir::S => Dir::N,
            Dir::E => Dir::W,
            Dir::W => Dir::E,
        }
    }

    /// The direction a quarter turn clockwise.
    pub fn rotate_cl(&self) -> (r: Dir)
        ensures
            r == self.spec_rotate_cl(),
    {
        match self {
            Dir::N => Dir::E,
            Dir::S => Dir::W,
            Dir::E => Dir::S,
            Dir::W => Dir::N,
        }
    }

    /// Unit step in this direction (y up).
    pub fn as_vec(&self) -> (r: Pos)
        ensures
            r == self.spec_as_vec(),
    {
        match self {
            Dir::N => Pos { x: 0, y: 1 },
            Dir::S => Pos { x: 0, y: -1 },
            Dir::E => Pos { x: 1, y: 0 },
            Dir::W => Pos { x: -1, y: 0 },
        }
    }

    /// Offset, in pixels, from a door's grid cell to the point that stands for the
    /// door, for a door `width` tiles wide.
    pub fn door_offset(&self, width: i32) -> (r: Pos)
        ensures
            r.x == self.spec_door_offset(width as int).0,
            r.y == self.spec_door_offset(width as int).1,
    {
        let wh = 8 * (width as i64);
        match self {
            Dir::N => Pos { x: wh, y: 0 },
            Dir::S => Pos { x: wh, y: -16 },
            Dir::E => Pos { x: 16, y: -wh },
            Dir::W => Pos { x: 0, y: -wh },
        }
    }

    /// Slot of this direction in a four-entry table.
    pub fn index(&self) -> (r: usize)
        ensures
            r == self.spec_index(),
    {
        match self {
            Dir::N => 0,
            Dir::S => 1,
            Dir::E => 2,
            Dir::W => 3,
        }
    }
}

/// Turning around twice faces the way it started, and never faces the same way once.
pub proof fn law_opposite_involution(d: Dir)
    ensures
        d.spec_opposite().spec_opposite() == d,
        d.spec_opposite() != d,
{
}

/// Four quarter turns clockwise come back to the start, and two make the opposite.
pub proof fn law_rotate_cl_cycle(d: Dir)
    ensures
        d.spec_rotate_cl().spec_rotate_cl() == d.spec_opposite(),
        d.spec_rotate_cl().spec_rotate_cl().spec_rotate_cl().spec_rotate_cl() == d,
{
}

/// The unit steps of opposite directions cancel.
pub proof fn law_as_vec_opposite(d: Dir)
    ensures
        d.spec_as_vec().x + d.spec_opposite().spec_as_vec().x == 0,
        d.spec_as_vec().y + d.spec_opposite().spec_as_vec().y == 0,
{
}

/// Distinct directions occupy distinct table slots, each below four.
pub proof fn law_index_injective(a: Dir, b: Dir)
    ensures
        a.spec_index() < 4,
        a.spec_index() == b.spec_index() <==> a == b,
{
}

} // verus!
