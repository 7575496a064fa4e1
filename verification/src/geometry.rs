//! Integer world geometry: points, axis-aligned rectangles and their overlap tests.
//!
//! World space is y-up and measured in pixels. Every position the generator
//! produces is a whole number of pixels (tiles are 16 px and door offsets are
//! multiples of 8 px), so points are held as integers.
use vstd::prelude::*;

verus! {

/// Half the side of the square in which every placed room's top-left corner lies:
/// 2^57 px, as far out as positions can go while every position computed from them
/// (doors, clearance boxes, candidate rooms, grid cells, doubled coordinates in the
/// overlap tests) still fits in an `i64`.
pub const WORLD_LIMIT: i64 = 144115188075855872;

/// 2^60: a bound on the positions derived from rooms within reach (doors and their
/// clearance boxes), far from the edge of the `i64` range.
pub const COORD_LIMIT: i64 = 1152921504606846976;

/// A pair of 32-bit integers: a grid cell, or a size or offset in pixels.
#[derive(Clone, Copy, Debug, PartialEq, Eq, Structural)]
pub struct GridPos {
    pub x: i32,
    pub y: i32,
}

impl GridPos {
    pub fn new(x: i32, y: i32) -> (r: GridPos)
        ensures
            r.x == x,
            r.y == y,
    {
        GridPos { x, y }
    }
}

/// A point (or a 2D extent) in world pixels.
#[derive(Clone, Copy, Debug, PartialEq, Eq, Structural)]
pub struct Pos {
    pub x: i64,
    pub y: i64,
}

impl Pos {
    pub fn new(x: i64, y: i64) -> (r: Pos)
        ensures
            r.x == x,
            r.y == y,
    {
        Pos { x, y }
    }

    /// The origin.
    pub fn zero() -> (r: Pos)
        ensures
            r.x == 0,
            r.y == 0,
    {
        Pos { x: 0, y: 0 }
    }

    /// Both coordinates lie within `WORLD_LIMIT` of the origin.
    pub open spec fn in_world(self) -> bool {
        &&& -WORLD_LIMIT <= self.x <= WORLD_LIMIT
        &&& -WORLD_LIMIT <= self.y <= WORLD_LIMIT
    }

    /// Both coordinates lie within `4 * WORLD_LIMIT` of the origin; doors and their
    /// clearance boxes stay in this range whenever their room is in the world.
    pub open spec fn near_world(self) -> bool {
        &&& -4 * WORLD_LIMIT <= self.x <= 4 * WORLD_LIMIT
        &&& -4 * WORLD_LIMIT <= self.y <= 4 * WORLD_LIMIT
    }

    /// Both coordinates lie within `6 * WORLD_LIMIT` of the origin: the range of the
    /// positions considered for new rooms.
    pub open spec fn in_reach(self) -> bool {
        &&& -6 * WORLD_LIMIT <= self.x <= 6 * WORLD_LIMIT
        &&& -6 * WORLD_LIMIT <= self.y <= 6 * WORLD_LIMIT
    }

    /// Both coordinates lie at least 2^36 inside the `i64` range: room positions at
    /// which door positions (at most 2^36 px away) can be computed.
    pub open spec fn door_fits(self) -> bool {
        &&& -0x7fff_ffef_ffff_ffff <= self.x <= 0x7fff_ffef_ffff_ffff
        &&& -0x7fff_ffef_ffff_ffff <= self.y <= 0x7fff_ffef_ffff_ffff
    }

    /// Both coordinates lie at least 2^37 inside the `i64` range: door positions
    /// from which the position of a room answering the door, and that room's doors,
    /// can be computed.
    pub open spec fn bridge_fits(self) -> bool {
        &&& -0x7fff_ffdf_ffff_ffff <= self.x <= 0x7fff_ffdf_ffff_ffff
        &&& -0x7fff_ffdf_ffff_ffff <= self.y <= 0x7fff_ffdf_ffff_ffff
    }

    /// Both coordinates lie at least 32 inside the `i64` range: door positions at
    /// which the clearance box (at most 24 px away) can be computed.
    pub open spec fn box_fits(self) -> bool {
        &&& -0x7fff_ffff_ffff_ffdf <= self.x <= 0x7fff_ffff_ffff_ffdf
        &&& -0x7fff_ffff_ffff_ffdf <= self.y <= 0x7fff_ffff_ffff_ffdf
    }

    /// Both coordinates lie within `COORD_LIMIT` of the origin.
    pub open spec fn small(self) -> bool {
        &&& -COORD_LIMIT <= self.x <= COORD_LIMIT
        &&& -COORD_LIMIT <= self.y <= COORD_LIMIT
    }

    /// Exact test of `in_world`.
    pub fn is_in_world(&self) -> (b: bool)
        ensures
            b == self.in_world(),
    {
        -WORLD_LIMIT <= self.x && self.x <= WORLD_LIMIT && -WORLD_LIMIT <= self.y && self.y
            <= WORLD_LIMIT
    }
}

/// Open intervals `(l1, r1)` and `(l2, r2)` on both axes overlap.
pub open spec fn boxes_overlap(
    l1: int,
    r1: int,
    b1: int,
    t1: int,
    l2: int,
    r2: int,
    b2: int,
    t2: int,
) -> bool {
    l1 < r2 && r1 > l2 && b1 < t2 && t1 > b2
}

/// Rectangle A given by its top-left corner, rectangle B likewise; both extend
/// right and down. They overlap with positive area.
pub open spec fn spec_collide_tl(top_left_a: Pos, size_a: Pos, top_left_b: Pos, size_b: Pos) -> bool {
    boxes_overlap(
        top_left_a.x as int,
        top_left_a.x + size_a.x,
        top_left_a.y - size_a.y,
        top_left_a.y as int,
        top_left_b.x as int,
        top_left_b.x + size_b.x,
        top_left_b.y - size_b.y,
        top_left_b.y as int,
    )
}

/// Rectangle A given by its center, rectangle B by its top-left corner. Stated on
/// doubled coordinates so that odd sizes keep their half-pixel edges.
pub open spec fn spec_collide(center_a: Pos, size_a: Pos, top_left_b: Pos, size_b: Pos) -> bool {
    boxes_overlap(
        2 * center_a.x - size_a.x,
        2 * center_a.x + size_a.x,
        2 * center_a.y - size_a.y,
        2 * center_a.y + size_a.y,
        2 * top_left_b.x,
        2 * (top_left_b.x + size_b.x),
        2 * (top_left_b.y - size_b.y),
        2 * top_left_b.y,
    )
}

/// Both rectangles given by their centers, on doubled coordinates.
pub open spec fn spec_collide_center(center_a: Pos, size_a: Pos, center_b: Pos, size_b: Pos) -> bool {
    boxes_overlap(
        2 * center_a.x - size_a.x,
        2 * center_a.x + size_a.x,
        2 * center_a.y - size_a.y,
        2 * center_a.y + size_a.y,
        2 * center_b.x - size_b.x,
        2 * center_b.x + size_b.x,
        2 * center_b.y - size_b.y,
        2 * center_b.y + size_b.y,
    )
}

/// Rectangle A by its center, rectangle B by its top-left corner: do they overlap?
pub fn rects_collide(center_a: Pos, size_a: Pos, top_left_b: Pos, size_b: Pos) -> (b: bool)
    ensures
        b == spec_collide(center_a, size_a, top_left_b, size_b),
{
    let a_left: i128 = 2 * (center_a.x as i128) - (size_a.x as i128);
    let a_right: i128 = 2 * (center_a.x as i128) + (size_a.x as i128);
    let a_top: i128 = 2 * (center_a.y as i128) + (size_a.y as i128);
    let a_bottom: i128 = 2 * (center_a.y as i128) - (size_a.y as i128);

    let b_left: i128 = 2 * (top_left_b.x as i128);
    let b_right: i128 = 2 * ((top_left_b.x as i128) + (size_b.x as i128));
    let b_top: i128 = 2 * (top_left_b.y as i128);
    let b_bottom: i128 = 2 * ((top_left_b.y as i128) - (size_b.y as i128));

    a_left < b_right && a_right > b_left && a_bottom < b_top && a_top > b_bottom
}

/// Both rectangles by their top-left corners: do they overlap?
pub fn rects_collide_tl(top_left_a: Pos, size_a: Pos, top_left_b: Pos, size_b: Pos) -> (b: bool)
    ensures
        b == spec_collide_tl(top_left_a, size_a, top_left_b, size_b),
{
    let a_left: i128 = (top_left_a.x as i128);
    let a_right: i128 = (top_left_a.x as i128) + (size_a.x as i128);
    let a_top: i128 = (top_left_a.y as i128);
    let a_bottom: i128 = (top_left_a.y as i128) - (size_a.y as i128);

    let b_left: i128 = (top_left_b.x as i128);
    let b_right: i128 = (top_left_b.x as i128) + (size_b.x as i128);
    let b_top: i128 = (top_left_b.y as i128);
    let b_bottom: i128 = (top_left_b.y as i128) - (size_b.y as i128);

    a_left < b_right && a_right > b_left && a_bottom < b_top && a_top > b_bottom
}

/// Both rectangles by their centers: do they overlap?
pub fn rects_collide_center(center_a: Pos, size_a: Pos, center_b: Pos, size_b: Pos) -> (b: bool)
    ensures
        b == spec_collide_center(center_a, size_a, center_b, size_b),
{
    let a_left: i128 = 2 * (center_a.x as i128) - (size_a.x as i128);
    let a_right: i128 = 2 * (center_a.x as i128) + (size_a.x as i128);
    let a_top: i128 = 2 * (center_a.y as i128) + (size_a.y as i128);
    let a_bottom: i128 = 2 * (center_a.y as i128) - (size_a.y as i128);

    let b_left: i128 = 2 * (center_b.x as i128) - (size_b.x as i128);
    let b_right: i128 = 2 * (center_b.x as i128) + (size_b.x as i128);
    let b_top: i128 = 2 * (center_b.y as i128) + (size_b.y as i128);
    let b_bottom: i128 = 2 * (center_b.y as i128) - (size_b.y as i128);

    a_left < b_right && a_right > b_left && a_bottom < b_top && a_top > b_bottom
}

/// Overlap of two rectangles given by their top-left corners does not depend on
/// which one is named first.
pub proof fn law_collide_tl_symmetric(a: Pos, size_a: Pos, b: Pos, size_b: Pos)
    ensures
        spec_collide_tl(a, size_a, b, size_b) == spec_collide_tl(b, size_b, a, size_a),
{
}

/// Overlap of two rectangles given by their centers does not depend on which one is
/// named first.
pub proof fn law_collide_center_symmetric(a: Pos, size_a: Pos, b: Pos, size_b: Pos)
    ensures
        spec_collide_center(a, size_a, b, size_b) == spec_collide_center(b, size_b, a, size_a),
{
}

/// A rectangle of even size given by its center is the same rectangle as the one
/// whose top-left corner lies half its size left of and above that center.
pub proof fn law_center_is_top_left(center_a: Pos, size_a: Pos, top_left_b: Pos, size_b: Pos)
    requires
        center_a.small(),
        size_a.small(),
        size_a.x % 2 == 0,
        size_a.y % 2 == 0,
    ensures
        spec_collide(center_a, size_a, top_left_b, size_b) == spec_collide_tl(
            Pos { x: (center_a.x - size_a.x / 2) as i64, y: (center_a.y + size_a.y / 2) as i64 },
            size_a,
            top_left_b,
            size_b,
        ),
{
}

/// Largest integer not above `a / b`.
pub fn floor_div(a: i64, b: i64) -> (r: i64)
    requires
        b > 0,
    ensures
        r == a / b,
{
    if a >= 0 {
        let q = (a as u64) / (b as u64);
        q as i64
    } else {
        let n: u64 = (-(a + 1)) as u64;
        let t: u64 = n / (b as u64);
        proof {
            let ai = a as int;
            let bi = b as int;
            let ti = t as int;
            let ni = n as int;
            assert(ti * bi <= ni < ti * bi + bi) by (nonlinear_arith)
                requires
                    ti == ni / bi,
                    bi > 0,
                    ni >= 0,
            ;
            assert((-ti - 1) * bi <= ai < (-ti - 1) * bi + bi) by (nonlinear_arith)
                requires
                    ti * bi <= ni < ti * bi + bi,
                    ni == -ai - 1,
            ;
            vstd::arithmetic::div_mod::lemma_fundamental_div_mod_converse(
                ai,
                bi,
                -ti - 1,
                ai - (-ti - 1) * bi,
            );
            assert(ti <= ni) by (nonlinear_arith)
                requires
                    ti * bi <= ni,
                    bi >= 1,
                    ti >= 0,
            ;
        }
        -(t as i64) - 1
    }
}

} // verus!
