//! Building the room catalog from level data: one room per level, doors from the
//! `Door` entities of its `Entities` layer, weight and room type from its fields.
use vstd::prelude::*;

use crate::catalog::{spec_room_type_from, string_is, DoorDef, RoomDef, RoomDefView, RoomIndex, RoomType};
use crate::dir::Dir;
use crate::geometry::GridPos;

verus! {

/// An entity of a level layer, as much of it as the catalog reads.
#[derive(Debug)]
pub struct EntityInstance {
    pub identifier: String,
    /// Grid cell of the entity's top-left corner, y down.
    pub grid: GridPos,
    /// Size in pixels.
    pub width: i32,
    pub height: i32,
}

/// A layer of a level.
#[derive(Debug)]
pub struct LayerInstance {
    pub identifier: String,
    pub entity_instances: Vec<EntityInstance>,
}

/// The value of a level field.
#[derive(Debug)]
pub enum FieldValue {
    /// A float field, held as its value times ten, rounded (10 stands for 1.0).
    Float(Option<usize>),
    Enum(Option<String>),
    Other,
}

/// A named field of a level.
#[derive(Debug)]
pub struct FieldInstance {
    pub identifier: String,
    pub value: FieldValue,
}

/// A level of the project: one room template.
#[derive(Debug)]
pub struct Level {
    pub iid: String,
    pub px_wid: i32,
    pub px_hei: i32,
    pub world_x: i32,
    pub world_y: i32,
    pub layer_instances: Option<Vec<LayerInstance>>,
    pub field_instances: Vec<FieldInstance>,
}

/// `x / 16`, rounded toward zero.
pub open spec fn div16(x: int) -> int {
    if x >= 0 {
        x / 16
    } else {
        -((-x) / 16)
    }
}

/// The door a `Door` entity stands for. A door exactly one tile (16 px) wide is a
/// side door: west when it touches the left edge, east otherwise. A wider one is a
/// top or bottom door: north when it touches the top edge, south otherwise.
pub open spec fn entity_door(e: EntityInstance) -> DoorDef {
    let dir = if e.width != 16 {
        if e.grid.y == 0 {
            Dir::N
        } else {
            Dir::S
        }
    } else {
        if e.grid.x == 0 {
            Dir::W
        } else {
            Dir::E
        }
    };
    let width = if e.width == 16 {
        div16(e.height as int)
    } else {
        div16(e.width as int)
    };
    DoorDef {
        local_pos: GridPos {
            x: (e.grid.x + if dir == Dir::W {
                0int
            } else {
                1int
            }) as i32,
            y: (-e.grid.y) as i32,
        },
        width: width as i32,
        dir,
    }
}

/// The doors among the first `n` entities.
pub open spec fn entity_doors(es: Seq<EntityInstance>, n: nat) -> Seq<DoorDef>
    decreases n,
{
    if n == 0 {
        Seq::empty()
    } else {
        let prev = entity_doors(es, (n - 1) as nat);
        if es[n - 1].identifier@ == "Door"@ {
            prev.push(entity_door(es[n - 1]))
        } else {
            prev
        }
    }
}

/// The doors of the `Entities` layers among the first `n` layers.
pub open spec fn layer_doors(layers: Seq<LayerInstance>, n: nat) -> Seq<DoorDef>
    decreases n,
{
    if n == 0 {
        Seq::empty()
    } else {
        let prev = layer_doors(layers, (n - 1) as nat);
        let l = layers[n - 1];
        if l.identifier@ == "Entities"@ {
            prev + entity_doors(l.entity_instances@, l.entity_instances@.len())
        } else {
            prev
        }
    }
}

/// The first of the first `n` fields named `name`.
pub open spec fn first_field(fields: Seq<FieldInstance>, name: Seq<char>, n: nat) -> Option<
    FieldInstance,
>
    decreases n,
{
    if n == 0 {
        None
    } else {
        match first_field(fields, name, (n - 1) as nat) {
            Some(f) => Some(f),
            None => if fields[n - 1].identifier@ == name {
                Some(fields[n - 1])
            } else {
                None
            },
        }
    }
}

/// Weight, in tenths, from the first field named `weight`: its value if it is a
/// float, else 1.0.
pub open spec fn weight_of(fields: Seq<FieldInstance>) -> usize {
    match first_field(fields, "weight"@, fields.len()) {
        Some(f) => match f.value {
            FieldValue::Float(Some(v)) => v,
            _ => 10,
        },
        None => 10,
    }
}

/// Room type from the first field named `room_type`: the type its enum value names,
/// else `Hallway`.
pub open spec fn room_type_of(fields: Seq<FieldInstance>) -> RoomType {
    match first_field(fields, "room_type"@, fields.len()) {
        Some(f) => match f.value {
            FieldValue::Enum(Some(s)) => match spec_room_type_from(s@) {
                Some(t) => t,
                None => RoomType::Hallway,
            },
            _ => RoomType::Hallway,
        },
        None => RoomType::Hallway,
    }
}

/// The room template a level with layers stands for.
pub open spec fn level_room(l: Level, layers: Seq<LayerInstance>) -> RoomDefView {
    RoomDefView {
        iid: l.iid@,
        size: GridPos { x: l.px_wid, y: l.px_hei },
        offset: GridPos { x: l.world_x, y: l.world_y },
        doors: layer_doors(layers, layers.len()),
        weight: weight_of(l.field_instances@),
        room_type: room_type_of(l.field_instances@),
    }
}

/// The rooms of the first `n` levels; a level without layers is skipped.
pub open spec fn rooms_of(levels: Seq<Level>, n: nat) -> Seq<RoomDefView>
    decreases n,
{
    if n == 0 {
        Seq::empty()
    } else {
        let prev = rooms_of(levels, (n - 1) as nat);
        match levels[n - 1].layer_instances {
            Some(layers) => prev.push(level_room(levels[n - 1], layers@)),
            None => prev,
        }
    }
}

/// `i` once for each of the first `n` doors facing `d`.
pub open spec fn door_copies(i: usize, doors: Seq<DoorDef>, d: Dir, n: nat) -> Seq<usize>
    decreases n,
{
    if n == 0 {
        Seq::empty()
    } else {
        let prev = door_copies(i, doors, d, (n - 1) as nat);
        if doors[n - 1].dir == d {
            prev.push(i)
        } else {
            prev
        }
    }
}

/// The direction table entries for `d` over the first `n` rooms.
pub open spec fn dir_entries(rooms: Seq<RoomDefView>, d: Dir, n: nat) -> Seq<usize>
    decreases n,
{
    if n == 0 {
        Seq::empty()
    } else {
        dir_entries(rooms, d, (n - 1) as nat) + door_copies(
            (n - 1) as usize,
            rooms[n - 1].doors,
            d,
            rooms[n - 1].doors.len(),
        )
    }
}

/// The `Door` entities of the `Entities` layers can be read without overflow: the
/// cell right of one and the mirror of its row are 32-bit integers.
pub open spec fn levels_ok(levels: Seq<Level>) -> bool {
    forall|i: int|
        0 <= i < levels.len() ==> match (#[trigger] levels[i]).layer_instances {
            Some(layers) => forall|j: int|
                0 <= j < layers@.len() && (#[trigger] layers@[j]).identifier@ == "Entities"@ ==> forall|
                    k: int,
                |
                    0 <= k < layers@[j].entity_instances@.len()
                        && (#[trigger] layers@[j].entity_instances@[k]).identifier@ == "Door"@
                        ==> layers@[j].entity_instances@[k].grid.x < i32::MAX
                        && layers@[j].entity_instances@[k].grid.y > i32::MIN,
            None => true,
        }
}

/// Exact test of `levels_ok`.
#[verifier::loop_isolation(false)]
pub fn levels_readable(levels: &Vec<Level>) -> (b: bool)
    ensures
        b == levels_ok(levels@),
{
    let mut i: usize = 0;
    while i < levels.len()
        invariant
            i <= levels@.len(),
            forall|ii: int|
                0 <= ii < i ==> match (#[trigger] levels@[ii]).layer_instances {
                    Some(layers) => forall|j: int|
                        0 <= j < layers@.len() && (#[trigger] layers@[j]).identifier@ == "Entities"@
                            ==> forall|k: int|
                            0 <= k < layers@[j].entity_instances@.len()
                                && (#[trigger] layers@[j].entity_instances@[k]).identifier@
                                == "Door"@ ==> layers@[j].entity_instances@[k].grid.x < i32::MAX
                                && layers@[j].entity_instances@[k].grid.y > i32::MIN,
                    None => true,
                },
        decreases levels@.len() - i,
    {
        match &levels[i].layer_instances {
            None => {},
            Some(layers) => {
                let mut j: usize = 0;
                while j < layers.len()
                    invariant
                        j <= layers@.len(),
                        forall|jj: int|
                            0 <= jj < j && (#[trigger] layers@[jj]).identifier@ == "Entities"@
                                ==> forall|k: int|
                                0 <= k < layers@[jj].entity_instances@.len()
                                    && (#[trigger] layers@[jj].entity_instances@[k]).identifier@
                                    == "Door"@ ==> layers@[jj].entity_instances@[k].grid.x < i32::MAX
                                    && layers@[jj].entity_instances@[k].grid.y > i32::MIN,
                    decreases layers@.len() - j,
                {
                    let layer = &layers[j];
                    if string_is(&layer.identifier, "Entities") {
                        let mut k: usize = 0;
                        while k < layer.entity_instances.len()
                            invariant
                                k <= layer.entity_instances@.len(),
                                forall|kk: int|
                                    0 <= kk < k && (#[trigger] layer.entity_instances@[kk]).identifier@
                                        == "Door"@ ==> layer.entity_instances@[kk].grid.x < i32::MAX
                                        && layer.entity_instances@[kk].grid.y > i32::MIN,
                            decreases layer.entity_instances@.len() - k,
                        {
                            let e = &layer.entity_instances[k];
                            if string_is(&e.identifier, "Door") && (e.grid.x == i32::MAX || e.grid.y
                                == i32::MIN) {
                                proof {
                                    assert(levels@[i as int].layer_instances == Some(*layers));
                                    assert(layers@[j as int] == *layer);
                                    assert(layer.entity_instances@[k as int] == *e);
                                    assert(layers@[j as int].identifier@ == "Entities"@);
                                    assert(layers@[j as int].entity_instances@[k as int].identifier@ == "Door"@);
                                }
                                return false;
                            }
                            k += 1;
                        }
                    }
                    j += 1;
                }
            },
        }
        i += 1;
    }
    true
}

/// `x / 16`, rounded toward zero.
fn div16_exec(x: i32) -> (r: i32)
    ensures
        r == div16(x as int),
{
    if x >= 0 {
        x / 16
    } else {
        let n: i64 = -(x as i64);
        let q: i64 = n / 16;
        -(q as i32)
    }
}

/// The door a `Door` entity stands for.
fn door_of_entity(e: &EntityInstance) -> (r: DoorDef)
    requires
        e.grid.x < i32::MAX,
        e.grid.y > i32::MIN,
    ensures
        r == entity_door(*e),
{
    let dir = if e.width != 16 {
        if e.grid.y == 0 {
            Dir::N
        } else {
            Dir::S
        }
    } else {
        if e.grid.x == 0 {
            Dir::W
        } else {
            Dir::E
        }
    };
    let width = if e.width == 16 {
        div16_exec(e.height)
    } else {
        div16_exec(e.width)
    };
    let shift: i32 = match dir {
        Dir::W => 0,
        _ => 1,
    };
    DoorDef { local_pos: GridPos { x: e.grid.x + shift, y: -e.grid.y }, width, dir }
}

/// The first field of `fields` named `name`, by position.
fn find_field(fields: &Vec<FieldInstance>, name: &str) -> (r: Option<usize>)
    ensures
        r matches Some(i) ==> i < fields@.len() && first_field(fields@, name@, fields@.len()) == Some(
            fields@[i as int],
        ),
        r is None ==> first_field(fields@, name@, fields@.len()) is None,
{
    let mut i: usize = 0;
    while i < fields.len()
        invariant
            i <= fields@.len(),
            first_field(fields@, name@, i as nat) is None,
        decreases fields@.len() - i,
    {
        if string_is(&fields[i].identifier, name) {
            proof {
                lemma_first_field_stable(fields@, name@, (i + 1) as nat, fields@.len());
            }
            return Some(i);
        }
        i += 1;
    }
    None
}

/// Once a field is found among the first `m`, looking further finds the same.
pub proof fn lemma_first_field_stable(fields: Seq<FieldInstance>, name: Seq<char>, m: nat, n: nat)
    requires
        m <= n,
        first_field(fields, name, m) is Some,
    ensures
        first_field(fields, name, n) == first_field(fields, name, m),
    decreases n - m,
{
    if n > m {
        lemma_first_field_stable(fields, name, m, (n - 1) as nat);
    }
}

/// Weight, in tenths, of a level.
fn level_weight(fields: &Vec<FieldInstance>) -> (r: usize)
    ensures
        r == weight_of(fields@),
{
    match find_field(fields, "weight") {
        Some(i) => match &fields[i].value {
            FieldValue::Float(Some(v)) => *v,
            _ => 10,
        },
        None => 10,
    }
}

/// Room type of a level.
fn level_room_type(fields: &Vec<FieldInstance>) -> (r: RoomType)
    ensures
        r == room_type_of(fields@),
{
    match find_field(fields, "room_type") {
        Some(i) => match &fields[i].value {
            FieldValue::Enum(Some(v)) => match RoomType::from_str(v.as_str()) {
                Ok(t) => t,
                Err(_) => RoomType::Hallway,
            },
            _ => RoomType::Hallway,
        },
        None => RoomType::Hallway,
    }
}

/// The doors of a level's `Entities` layers, in order.
#[verifier::loop_isolation(false)]
fn level_doors(layers: &Vec<LayerInstance>) -> (r: Vec<DoorDef>)
    requires
        forall|j: int|
            0 <= j < layers@.len() && (#[trigger] layers@[j]).identifier@ == "Entities"@ ==> forall|
                k: int,
            |
                0 <= k < layers@[j].entity_instances@.len()
                    && (#[trigger] layers@[j].entity_instances@[k]).identifier@ == "Door"@
                    ==> layers@[j].entity_instances@[k].grid.x < i32::MAX
                    && layers@[j].entity_instances@[k].grid.y > i32::MIN,
    ensures
        r@ == layer_doors(layers@, layers@.len()),
{
    let mut doors: Vec<DoorDef> = Vec::new();
    let mut j: usize = 0;
    while j < layers.len()
        invariant
            j <= layers@.len(),
            doors@ == layer_doors(layers@, j as nat),
        decreases layers@.len() - j,
    {
        let layer = &layers[j];
        if string_is(&layer.identifier, "Entities") {
            let ghost base = doors@;
            let mut k: usize = 0;
            while k < layer.entity_instances.len()
                invariant
                    k <= layer.entity_instances@.len(),
                    *layer == layers@[j as int],
                    layer.identifier@ == "Entities"@,
                    doors@ == base + entity_doors(layer.entity_instances@, k as nat),
                decreases layer.entity_instances@.len() - k,
            {
                let e = &layer.entity_instances[k];
                if string_is(&e.identifier, "Door") {
                    proof {
                        assert(layers@[j as int].entity_instances@[k as int] == *e);
                    }
                    let d = door_of_entity(e);
                    doors.push(d);
                    proof {
                        assert(base + entity_doors(layer.entity_instances@, (k + 1) as nat) =~= (base
                            + entity_doors(layer.entity_instances@, k as nat)).push(d));
                    }
                }
                k += 1;
            }
        }
        j += 1;
    }
    doors
}

/// Builds the catalog: one room per level that has layers, in level order, then the
/// table that lists each room once for every door of it facing each direction.
pub fn build_room_index(levels: &Vec<Level>) -> (r: RoomIndex)
    requires
        levels_ok(levels@),
    ensures
        r.defs() == rooms_of(levels@, levels@.len()),
        r.by_door_dir@.len() == 4,
        forall|d: Dir| #[trigger] r.entries(d) == dir_entries(r.defs(), d, r.defs().len()),
        (forall|i: int| 0 <= i < levels@.len() ==> (#[trigger] levels@[i]).px_wid >= 0 && levels@[i].px_hei >= 0)
            ==> r.wf(),
{
    let mut rooms: Vec<RoomDef> = Vec::new();
    let mut i: usize = 0;
    while i < levels.len()
        invariant
            i <= levels@.len(),
            levels_ok(levels@),
            crate::catalog::rooms_view(rooms@) == rooms_of(levels@, i as nat),
            (forall|t: int| 0 <= t < levels@.len() ==> (#[trigger] levels@[t]).px_wid >= 0 && levels@[t].px_hei >= 0)
                ==> forall|t: int| 0 <= t < rooms@.len() ==> (#[trigger] rooms@[t]).wf(),
        decreases levels@.len() - i,
    {
        let level = &levels[i];
        match &level.layer_instances {
            None => {},
            Some(layers) => {
                proof {
                    assert(levels_ok(levels@));
                    assert(levels@[i as int] == *level);
                }
                let doors = level_doors(layers);
                let room = RoomDef {
                    iid: level.iid.clone(),
                    size: GridPos { x: level.px_wid, y: level.px_hei },
                    offset: GridPos { x: level.world_x, y: level.world_y },
                    doors,
                    weight: level_weight(&level.field_instances),
                    room_type: level_room_type(&level.field_instances),
                };
                let ghost before = rooms@;
                rooms.push(room);
                proof {
                    assert(crate::catalog::rooms_view(rooms@) =~= crate::catalog::rooms_view(before).push(
                        room@,
                    ));
                    if forall|t: int| 0 <= t < levels@.len() ==> (#[trigger] levels@[t]).px_wid >= 0 && levels@[t].px_hei >= 0 {
                        assert(levels@[i as int].px_wid >= 0);
                        assert forall|t: int| 0 <= t < rooms@.len() implies (#[trigger] rooms@[t]).wf() by {
                            if t < before.len() {
                                assert(rooms@[t] == before[t]);
                            }
                        }
                    }
                }
            },
        }
        i += 1;
    }
    let ghost defs = crate::catalog::rooms_view(rooms@);
    let ghost rooms_wf = forall|t: int| 0 <= t < rooms@.len() ==> (#[trigger] rooms@[t]).wf();
    let mut n_list: Vec<usize> = Vec::new();
    let mut s_list: Vec<usize> = Vec::new();
    let mut e_list: Vec<usize> = Vec::new();
    let mut w_list: Vec<usize> = Vec::new();
    let mut i: usize = 0;
    while i < rooms.len()
        invariant
            i <= rooms@.len(),
            defs == crate::catalog::rooms_view(rooms@),
            rooms_wf == forall|t: int| 0 <= t < rooms@.len() ==> (#[trigger] rooms@[t]).wf(),
            n_list@ == dir_entries(defs, Dir::N, i as nat),
            s_list@ == dir_entries(defs, Dir::S, i as nat),
            e_list@ == dir_entries(defs, Dir::E, i as nat),
            w_list@ == dir_entries(defs, Dir::W, i as nat),
            forall|t: int| 0 <= t < n_list@.len() ==> #[trigger] n_list@[t] < i,
            forall|t: int| 0 <= t < s_list@.len() ==> #[trigger] s_list@[t] < i,
            forall|t: int| 0 <= t < e_list@.len() ==> #[trigger] e_list@[t] < i,
            forall|t: int| 0 <= t < w_list@.len() ==> #[trigger] w_list@[t] < i,
        decreases rooms@.len() - i,
    {
        let ghost (n0, s0, e0, w0) = (n_list@, s_list@, e_list@, w_list@);
        let doors = &rooms[i].doors;
        proof {
            assert(defs[i as int].doors == doors@);
        }
        let mut k: usize = 0;
        while k < doors.len()
            invariant
                k <= doors@.len(),
                i < rooms@.len(),
                n_list@ == n0 + door_copies(i, doors@, Dir::N, k as nat),
                s_list@ == s0 + door_copies(i, doors@, Dir::S, k as nat),
                e_list@ == e0 + door_copies(i, doors@, Dir::E, k as nat),
                w_list@ == w0 + door_copies(i, doors@, Dir::W, k as nat),
                forall|t: int| 0 <= t < n_list@.len() ==> #[trigger] n_list@[t] < i + 1,
                forall|t: int| 0 <= t < s_list@.len() ==> #[trigger] s_list@[t] < i + 1,
                forall|t: int| 0 <= t < e_list@.len() ==> #[trigger] e_list@[t] < i + 1,
                forall|t: int| 0 <= t < w_list@.len() ==> #[trigger] w_list@[t] < i + 1,
            decreases doors@.len() - k,
        {
            let ghost (n1, s1, e1, w1) = (n_list@, s_list@, e_list@, w_list@);
            match doors[k].dir {
                Dir::N => n_list.push(i),
                Dir::S => s_list.push(i),
                Dir::E => e_list.push(i),
                Dir::W => w_list.push(i),
            }
            proof {
                assert(n0 + door_copies(i, doors@, Dir::N, (k + 1) as nat) =~= if doors@[k as int].dir
                    == Dir::N {
                    n1.push(i)
                } else {
                    n1
                });
                assert(s0 + door_copies(i, doors@, Dir::S, (k + 1) as nat) =~= if doors@[k as int].dir
                    == Dir::S {
                    s1.push(i)
                } else {
                    s1
                });
                assert(e0 + door_copies(i, doors@, Dir::E, (k + 1) as nat) =~= if doors@[k as int].dir
                    == Dir::E {
                    e1.push(i)
                } else {
                    e1
                });
                assert(w0 + door_copies(i, doors@, Dir::W, (k + 1) as nat) =~= if doors@[k as int].dir
                    == Dir::W {
                    w1.push(i)
                } else {
                    w1
                });
            }
            k += 1;
        }
        i += 1;
    }
    let by_door_dir = vec![n_list, s_list, e_list, w_list];
    let r = RoomIndex { rooms, by_door_dir };
    proof {
        assert(r.defs() == defs);
        assert forall|k: int, j: int| 0 <= k < 4 && 0 <= j < r.by_door_dir@[k]@.len() implies #[trigger] r.by_door_dir@[k]@[j] < r.rooms@.len() by {
            if k == 0 { assert(r.by_door_dir@[k]@ == n_list@); }
            else if k == 1 { assert(r.by_door_dir@[k]@ == s_list@); }
            else if k == 2 { assert(r.by_door_dir@[k]@ == e_list@); }
            else { assert(r.by_door_dir@[k]@ == w_list@); }
        }
        assert forall|d: Dir| #[trigger] r.entries(d) == dir_entries(r.defs(), d, r.defs().len()) by {
            match d {
                Dir::N => assert(r.by_door_dir@[0]@ == n_list@),
                Dir::S => assert(r.by_door_dir@[1]@ == s_list@),
                Dir::E => assert(r.by_door_dir@[2]@ == e_list@),
                Dir::W => assert(r.by_door_dir@[3]@ == w_list@),
            }
        }
    }
    r
}

/// Every entry of the table for `d` names an earlier room, and that room has a
/// door facing `d`.
pub proof fn law_dir_entries_face(rooms: Seq<RoomDefView>, d: Dir, n: nat)
    requires
        n <= rooms.len(),
        n <= usize::MAX,
    ensures
        forall|t: int|
            0 <= t < dir_entries(rooms, d, n).len() ==> {
                let e = #[trigger] dir_entries(rooms, d, n)[t];
                &&& e < n
                &&& exists|k: int| 0 <= k < rooms[e as int].doors.len() && (#[trigger] rooms[e as int].doors[k]).dir == d
            },
    decreases n,
{
    if n > 0 {
        law_dir_entries_face(rooms, d, (n - 1) as nat);
        let p = dir_entries(rooms, d, (n - 1) as nat);
        let i = (n - 1) as usize;
        let ds = rooms[n - 1].doors;
        lemma_door_copies(i, ds, d, ds.len());
        let q = door_copies(i, ds, d, ds.len());
        assert forall|t: int| 0 <= t < (p + q).len() implies {
            let e = #[trigger] (p + q)[t];
            &&& e < n
            &&& exists|k: int| 0 <= k < rooms[e as int].doors.len() && (#[trigger] rooms[e as int].doors[k]).dir == d
        } by {
            if t < p.len() {
                assert((p + q)[t] == p[t]);
            } else {
                assert((p + q)[t] == q[t - p.len()]);
                assert(q[t - p.len()] == i);
                assert(q.len() > 0);
                let k = choose|k: int| 0 <= k < ds.len() && (#[trigger] ds[k]).dir == d;
                assert(rooms[i as int].doors[k].dir == d);
            }
        }
        assert(dir_entries(rooms, d, n) == p + q);
    }
}

/// `door_copies` lists only `i`, and only when some door faces `d`.
pub proof fn lemma_door_copies(i: usize, doors: Seq<DoorDef>, d: Dir, n: nat)
    requires
        n <= doors.len(),
    ensures
        forall|t: int| 0 <= t < door_copies(i, doors, d, n).len() ==> #[trigger] door_copies(i, doors, d, n)[t] == i,
        door_copies(i, doors, d, n).len() > 0 ==> exists|k: int| 0 <= k < doors.len() && (#[trigger] doors[k]).dir == d,
    decreases n,
{
    if n > 0 {
        lemma_door_copies(i, doors, d, (n - 1) as nat);
        let prev = door_copies(i, doors, d, (n - 1) as nat);
        let cur = door_copies(i, doors, d, n);
        assert forall|t: int| 0 <= t < cur.len() implies #[trigger] cur[t] == i by {
            if t < prev.len() {
                assert(cur[t] == prev[t]);
            }
        }
        if doors[n - 1].dir == d {
            assert(doors[n - 1].dir == d);
        }
    }
}

/// A room's entries are empty exactly when none of its first `n` doors faces `d`.
pub proof fn lemma_door_copies_empty(i: usize, doors: Seq<DoorDef>, d: Dir, n: nat)
    requires
        n <= doors.len(),
    ensures
        door_copies(i, doors, d, n).len() == 0 <==> forall|k: int| 0 <= k < n ==> (#[trigger] doors[k]).dir != d,
    decreases n,
{
    if n > 0 {
        lemma_door_copies_empty(i, doors, d, (n - 1) as nat);
    }
}

/// The direction table for `d` lists room indices in catalog order, each below the
/// number of rooms, and is empty exactly when no room has a door facing `d`.
pub proof fn law_dir_table(rooms: Seq<RoomDefView>, d: Dir, n: nat)
    requires
        n <= rooms.len(),
        n <= usize::MAX,
    ensures
        forall|t1: int, t2: int|
            0 <= t1 <= t2 < dir_entries(rooms, d, n).len() ==> #[trigger] dir_entries(rooms, d, n)[t1]
                <= #[trigger] dir_entries(rooms, d, n)[t2],
        forall|t: int| 0 <= t < dir_entries(rooms, d, n).len() ==> #[trigger] dir_entries(rooms, d, n)[t] < n,
        dir_entries(rooms, d, n).len() == 0 <==> forall|i: int, k: int|
            0 <= i < n && 0 <= k < rooms[i].doors.len() ==> (#[trigger] rooms[i].doors[k]).dir != d,
    decreases n,
{
    law_dir_entries_face(rooms, d, n);
    if n > 0 {
        law_dir_table(rooms, d, (n - 1) as nat);
        law_dir_entries_face(rooms, d, (n - 1) as nat);
        let p = dir_entries(rooms, d, (n - 1) as nat);
        let i = (n - 1) as usize;
        let ds = rooms[n - 1].doors;
        lemma_door_copies(i, ds, d, ds.len());
        lemma_door_copies_empty(i, ds, d, ds.len());
        let q = door_copies(i, ds, d, ds.len());
        let e = p + q;
        assert(e == dir_entries(rooms, d, n));
        assert forall|t1: int, t2: int| 0 <= t1 <= t2 < e.len() implies #[trigger] e[t1] <= #[trigger] e[t2] by {
            if t2 < p.len() {
                assert(e[t1] == p[t1] && e[t2] == p[t2]);
            } else if t1 < p.len() {
                assert(e[t1] == p[t1] && e[t2] == q[t2 - p.len()]);
            } else {
                assert(e[t1] == q[t1 - p.len()] && e[t2] == q[t2 - p.len()]);
            }
        }
        if e.len() == 0 {
            assert forall|ii: int, k: int|
                0 <= ii < n && 0 <= k < rooms[ii].doors.len() implies (#[trigger] rooms[ii].doors[k]).dir != d by {
                if ii == n - 1 {
                    assert(ds[k] == rooms[ii].doors[k]);
                }
            }
        } else {
            if p.len() == 0 {
                assert(q.len() > 0);
                let k = choose|k: int| 0 <= k < ds.len() && (#[trigger] ds[k]).dir == d;
                assert(rooms[n - 1].doors[k].dir == d);
            } else {
                let (ii, k) = choose|ii: int, k: int|
                    0 <= ii < n - 1 && 0 <= k < rooms[ii].doors.len() && (#[trigger] rooms[ii].doors[k]).dir == d;
                assert(rooms[ii].doors[k].dir == d);
            }
        }
    }
}

/// How many of the first `n` doors face `d`.
pub open spec fn facing_count(doors: Seq<DoorDef>, d: Dir, n: nat) -> nat
    decreases n,
{
    if n == 0 {
        0
    } else {
        facing_count(doors, d, (n - 1) as nat) + if doors[n - 1].dir == d {
            1nat
        } else {
            0nat
        }
    }
}

/// A room's entries list it once per door facing `d`, and nothing else.
pub proof fn lemma_door_copies_count(i: usize, doors: Seq<DoorDef>, d: Dir, n: nat, j: usize)
    requires
        n <= doors.len(),
    ensures
        door_copies(i, doors, d, n).to_multiset().count(j) == if j == i {
            facing_count(doors, d, n)
        } else {
            0
        },
    decreases n,
{
    broadcast use vstd::multiset::group_multiset_axioms;

    if n == 0 {
        vstd::seq_lib::to_multiset_contains(door_copies(i, doors, d, n), j);
    } else {
        lemma_door_copies_count(i, doors, d, (n - 1) as nat, j);
        let prev = door_copies(i, doors, d, (n - 1) as nat);
        if doors[n - 1].dir == d {
            vstd::seq_lib::to_multiset_build(prev, i);
        }
    }
}

/// Each room occurs in the direction table for `d` once for every door of it that
/// faces `d`, and no other index occurs.
pub proof fn law_dir_table_counts(rooms: Seq<RoomDefView>, d: Dir, n: nat, j: usize)
    requires
        n <= rooms.len(),
        n <= usize::MAX,
    ensures
        dir_entries(rooms, d, n).to_multiset().count(j) == if j < n {
            facing_count(rooms[j as int].doors, d, rooms[j as int].doors.len())
        } else {
            0
        },
    decreases n,
{
    broadcast use vstd::multiset::group_multiset_axioms;

    if n == 0 {
        vstd::seq_lib::to_multiset_contains(dir_entries(rooms, d, n), j);
    } else {
        law_dir_table_counts(rooms, d, (n - 1) as nat, j);
        let p = dir_entries(rooms, d, (n - 1) as nat);
        let i = (n - 1) as usize;
        let ds = rooms[n - 1].doors;
        let q = door_copies(i, ds, d, ds.len());
        lemma_door_copies_count(i, ds, d, ds.len(), j);
        vstd::seq_lib::lemma_multiset_commutative(p, q);
        assert(dir_entries(rooms, d, n) == p + q);
    }
}

} // verus!
