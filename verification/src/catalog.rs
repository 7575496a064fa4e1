//! The room catalog: room templates, their doors, and the index of rooms by the
//! directions their doors face.
use vstd::prelude::*;

use crate::dir::Dir;
use crate::geometry::GridPos;

verus! {

/// What role a room template plays in generation.
#[derive(Clone, Copy, Debug, PartialEq, Eq, Structural)]
pub enum RoomType {
    Spawn,
    Room,
    Hallway,
}

/// The room type a name stands for, if any.
pub open spec fn spec_room_type_from(s: Seq<char>) -> Option<RoomType> {
    if s == "Hallway"@ {
        Some(RoomType::Hallway)
    } else if s == "Room"@ {
        Some(RoomType::Room)
    } else if s == "Spawn"@ {
        Some(RoomType::Spawn)
    } else {
        None
    }
}

/// `s` holds exactly the characters of `lit`.
pub fn string_is(s: &String, lit: &str) -> (b: bool)
    ensures
        b == (s@ == lit@),
{
    let l: String = lit.to_owned();
    *s == l
}

impl RoomType {
    /// Parses a room type from its name: `Hallway`, `Room` or `Spawn`.
    pub fn from_str(input: &str) -> (r: Result<RoomType, ()>)
        ensures
            r == (match spec_room_type_from(input@) {
                Some(t) => Ok(t),
                None => Err(()),
            }),
    {
        let s: String = input.to_owned();
        if string_is(&s, "Hallway") {
            Ok(RoomType::Hallway)
        } else if string_is(&s, "Room") {
            Ok(RoomType::Room)
        } else if string_is(&s, "Spawn") {
            Ok(RoomType::Spawn)
        } else {
            Err(())
        }
    }
}

/// A door of a room template, in the room's tile grid.
#[derive(Clone, Copy, Debug, PartialEq, Eq, Structural)]
pub struct DoorDef {
    /// Grid cell of the door relative to the room's top-left corner, y up.
    pub local_pos: GridPos,
    /// Width of the door in tiles.
    pub width: i32,
    pub dir: Dir,
}

/// A room template.
#[derive(Debug)]
pub struct RoomDef {
    /// Identifier of the level the template comes from.
    pub iid: String,
    /// Width and height in pixels.
    pub size: GridPos,
    /// Position of the level in the editor's own world.
    pub offset: GridPos,
    pub doors: Vec<DoorDef>,
    /// Relative chance of being picked, in tenths (10 stands for a weight of 1.0).
    pub weight: usize,
    pub room_type: RoomType,
}

/// The mathematical content of a `RoomDef`.
pub struct RoomDefView {
    pub iid: Seq<char>,
    pub size: GridPos,
    pub offset: GridPos,
    pub doors: Seq<DoorDef>,
    pub weight: usize,
    pub room_type: RoomType,
}

impl View for RoomDef {
    type V = RoomDefView;

    open spec fn view(&self) -> RoomDefView {
        RoomDefView {
            iid: self.iid@,
            size: self.size,
            offset: self.offset,
            doors: self.doors@,
            weight: self.weight,
            room_type: self.room_type,
        }
    }
}

impl RoomDefView {
    /// A template has a non-negative extent.
    pub open spec fn wf(self) -> bool {
        self.size.x >= 0 && self.size.y >= 0
    }
}

impl RoomDef {
    pub open spec fn wf(&self) -> bool {
        self@.wf()
    }
}

impl Clone for RoomDef {
    fn clone(&self) -> (r: Self)
        ensures
            r@ == self@,
    {
        let doors = self.doors.clone();
        proof {
            assert(doors@ =~= self.doors@);
        }
        RoomDef {
            iid: self.iid.clone(),
            size: self.size,
            offset: self.offset,
            doors,
            weight: self.weight,
            room_type: self.room_type,
        }
    }
}

/// The room catalog, with the rooms indexed by the directions their doors face.
#[derive(Debug)]
pub struct RoomIndex {
    pub rooms: Vec<RoomDef>,
    /// `by_door_dir[d.index()]` lists, in catalog order, each room once for every
    /// door of it that faces `d`.
    pub by_door_dir: Vec<Vec<usize>>,
}

/// The catalog's rooms as mathematical values.
pub open spec fn rooms_view(rooms: Seq<RoomDef>) -> Seq<RoomDefView> {
    rooms.map_values(|r: RoomDef| r@)
}

impl RoomIndex {
    /// The catalog's rooms as mathematical values.
    pub open spec fn defs(&self) -> Seq<RoomDefView> {
        rooms_view(self.rooms@)
    }

    /// The entries listed for direction `d`.
    pub open spec fn entries(&self, d: Dir) -> Seq<usize> {
        self.by_door_dir@[d.spec_index() as int]@
    }

    /// Every template has a non-negative extent, the direction table has its four
    /// slots, and every entry of it names a room of the catalog.
    pub open spec fn wf(&self) -> bool {
        &&& forall|i: int| 0 <= i < self.rooms@.len() ==> (#[trigger] self.rooms@[i]).wf()
        &&& self.by_door_dir@.len() == 4
        &&& forall|k: int, j: int|
            0 <= k < 4 && 0 <= j < self.by_door_dir@[k]@.len() ==> #[trigger] self.by_door_dir@[k]@[j]
                < self.rooms@.len()
    }

    /// Exact test of `wf`.
    pub fn is_well_formed(&self) -> (b: bool)
        ensures
            b == self.wf(),
    {
        let mut i: usize = 0;
        while i < self.rooms.len()
            invariant
                i <= self.rooms@.len(),
                forall|j: int| 0 <= j < i ==> (#[trigger] self.rooms@[j]).wf(),
            decreases self.rooms@.len() - i,
        {
            if self.rooms[i].size.x < 0 || self.rooms[i].size.y < 0 {
                return false;
            }
            i += 1;
        }
        if self.by_door_dir.len() != 4 {
            return false;
        }
        let mut k: usize = 0;
        while k < 4
            invariant
                k <= 4,
                self.by_door_dir@.len() == 4,
                forall|kk: int, j: int|
                    0 <= kk < k && 0 <= j < self.by_door_dir@[kk]@.len()
                        ==> #[trigger] self.by_door_dir@[kk]@[j] < self.rooms@.len(),
            decreases 4 - k,
        {
            let entries = &self.by_door_dir[k];
            let mut j: usize = 0;
            while j < entries.len()
                invariant
                    j <= entries@.len(),
                    k < 4,
                    self.by_door_dir@.len() == 4,
                    *entries == self.by_door_dir@[k as int],
                    forall|jj: int| 0 <= jj < j ==> #[trigger] entries@[jj] < self.rooms@.len(),
                decreases entries@.len() - j,
            {
                if entries[j] >= self.rooms.len() {
                    return false;
                }
                j += 1;
            }
            k += 1;
        }
        true
    }
}

impl Clone for RoomIndex {
    fn clone(&self) -> (r: Self)
        ensures
            r.defs() == self.defs(),
            r.by_door_dir@.len() == self.by_door_dir@.len(),
            forall|k: int| 0 <= k < self.by_door_dir@.len() ==> #[trigger] r.by_door_dir@[k]@ == self.by_door_dir@[k]@,
            self.wf() ==> r.wf(),
    {
        let mut rooms: Vec<RoomDef> = Vec::new();
        let mut i: usize = 0;
        while i < self.rooms.len()
            invariant
                i <= self.rooms@.len(),
                rooms@.len() == i,
                forall|j: int| 0 <= j < i ==> (#[trigger] rooms@[j])@ == self.rooms@[j]@,
            decreases self.rooms@.len() - i,
        {
            rooms.push(self.rooms[i].clone());
            i += 1;
        }
        let mut table: Vec<Vec<usize>> = Vec::new();
        let mut k: usize = 0;
        while k < self.by_door_dir.len()
            invariant
                k <= self.by_door_dir@.len(),
                table@.len() == k,
                forall|j: int| 0 <= j < k ==> (#[trigger] table@[j])@ == self.by_door_dir@[j]@,
            decreases self.by_door_dir@.len() - k,
        {
            let mut entries: Vec<usize> = Vec::new();
            let mut j: usize = 0;
            while j < self.by_door_dir[k].len()
                invariant
                    k < self.by_door_dir@.len(),
                    j <= self.by_door_dir@[k as int]@.len(),
                    entries@ == self.by_door_dir@[k as int]@.subrange(0, j as int),
                decreases self.by_door_dir@[k as int]@.len() - j,
            {
                entries.push(self.by_door_dir[k][j]);
                j += 1;
                assert(entries@ =~= self.by_door_dir@[k as int]@.subrange(0, j as int));
            }
            assert(entries@ =~= self.by_door_dir@[k as int]@);
            table.push(entries);
            k += 1;
        }
        let r = RoomIndex { rooms, by_door_dir: table };
        assert(r.defs() =~= self.defs());
        r
    }
}

impl Default for RoomIndex {
    fn default() -> (r: Self)
        ensures
            r.rooms@.len() == 0,
            r.by_door_dir@.len() == 4,
            forall|k: int| 0 <= k < 4 ==> #[trigger] r.by_door_dir@[k]@.len() == 0,
    {
        RoomIndex { rooms: Vec::new(), by_door_dir: vec![Vec::new(), Vec::new(), Vec::new(), Vec::new()] }
    }
}

} // verus!
