//! A uniform grid over world space that records which rooms touch which cells, so
//! that collision checks only look at rooms near the rectangle being checked.
use vstd::prelude::*;
use std::collections::HashMap;
use std::collections::HashSet;

use crate::geometry::{floor_div, spec_collide_tl, Pos, WORLD_LIMIT};

verus! {

broadcast use vstd::std_specs::hash::group_hash_axioms;

/// Distance between the two parts of a cell's key: a cell `(cx, cy)` is stored
/// under `cx * KEY_STRIDE + cy`.
pub const KEY_STRIDE: i128 = 18446744073709551616;

/// The key a cell is stored under.
pub open spec fn cell_key(cx: int, cy: int) -> int {
    cx * KEY_STRIDE + cy
}

/// Coordinates of a cell fit in 63 bits.
pub open spec fn cell_coord_ok(c: int) -> bool {
    -0x4000_0000_0000_0000 <= c < 0x4000_0000_0000_0000
}

/// Distinct cells are stored under distinct keys.
pub proof fn lemma_cell_key_injective(ax: int, ay: int, bx: int, by: int)
    requires
        cell_coord_ok(ay),
        cell_coord_ok(by),
        cell_key(ax, ay) == cell_key(bx, by),
    ensures
        ax == bx,
        ay == by,
{
    assert((ax - bx) * KEY_STRIDE == by - ay) by (nonlinear_arith)
        requires
            ax * KEY_STRIDE + ay == bx * KEY_STRIDE + by,
    ;
    if ax > bx {
        assert((ax - bx) * KEY_STRIDE >= KEY_STRIDE) by (nonlinear_arith)
            requires
                ax - bx >= 1,
        ;
    } else if ax < bx {
        assert((bx - ax) * KEY_STRIDE >= KEY_STRIDE) by (nonlinear_arith)
            requires
                bx - ax >= 1,
        ;
        assert((ax - bx) * KEY_STRIDE == -((bx - ax) * KEY_STRIDE)) by (nonlinear_arith);
    }
}

/// A rectangle, by its top-left corner and size, that the grid can take: within
/// eight times `WORLD_LIMIT` of the origin on every side.
pub open spec fn rect_ok(pos: Pos, size: Pos) -> bool {
    &&& -8 * WORLD_LIMIT <= pos.x <= 8 * WORLD_LIMIT
    &&& -8 * WORLD_LIMIT <= pos.y <= 8 * WORLD_LIMIT
    &&& -8 * WORLD_LIMIT <= size.x <= 8 * WORLD_LIMIT
    &&& -8 * WORLD_LIMIT <= size.y <= 8 * WORLD_LIMIT
}

/// The cells a rectangle touches: columns `.0 ..= .1`, rows `.2 ..= .3`.
pub open spec fn cell_range(cell_size: int, pos: Pos, size: Pos) -> (int, int, int, int) {
    (
        (pos.x as int) / cell_size,
        (pos.x + size.x) / cell_size,
        (pos.y - size.y) / cell_size,
        (pos.y as int) / cell_size,
    )
}

pub open spec fn in_range(r: (int, int, int, int), cx: int, cy: int) -> bool {
    r.0 <= cx <= r.1 && r.2 <= cy <= r.3
}

/// `k` is the key of one of the cells of range `r`.
pub open spec fn covers_key(r: (int, int, int, int), k: int) -> bool {
    exists|cx: int, cy: int| in_range(r, cx, cy) && #[trigger] cell_key(cx, cy) == k
}

/// Uniform grid of square cells `cell_size` pixels wide; each cell lists the rooms
/// (by index) whose rectangle touches it.
pub struct SpatialHash {
    pub cell_size: i64,
    pub cells: HashMap<i128, Vec<usize>>,
}

impl SpatialHash {
    pub open spec fn wf(&self) -> bool {
        self.cell_size > 0
    }

    /// The rooms listed in cell `(cx, cy)`.
    pub open spec fn cell(&self, cx: int, cy: int) -> Seq<usize> {
        if self.cells@.contains_key(cell_key(cx, cy) as i128) {
            self.cells@[cell_key(cx, cy) as i128]@
        } else {
            Seq::empty()
        }
    }

    /// Every room index listed anywhere is below `n`.
    pub open spec fn all_below(&self, n: nat) -> bool {
        forall|k: i128, j: int|
            #![trigger self.cells@[k]@[j]]
            self.cells@.contains_key(k) && 0 <= j < self.cells@[k]@.len() ==> self.cells@[k]@[j] < n
    }

    /// The cells touched by a rectangle.
    pub open spec fn range_of(&self, pos: Pos, size: Pos) -> (int, int, int, int) {
        cell_range(self.cell_size as int, pos, size)
    }

    /// Room `j` is listed in some cell touched by the rectangle.
    pub open spec fn listed_near(&self, pos: Pos, size: Pos, j: usize) -> bool {
        exists|cx: int, cy: int|
            in_range(self.range_of(pos, size), cx, cy) && #[trigger] self.cell(cx, cy).contains(j)
    }

    /// An empty grid with cells `cell_size` pixels wide.
    pub fn new(cell_size: i64) -> (r: SpatialHash)
        requires
            cell_size > 0,
        ensures
            r.wf(),
            r.cell_size == cell_size,
            r.cells@ == Map::<i128, Vec<usize>>::empty(),
    {
        SpatialHash { cell_size, cells: HashMap::new() }
    }

    /// Lists room `index` in every cell its rectangle touches. The rectangle's
    /// edges count as touching: a room ending exactly on a cell border is also
    /// listed in the next cell.
    pub fn insert(&mut self, index: usize, world_pos: Pos, size: Pos)
        requires
            old(self).wf(),
            rect_ok(world_pos, size),
        ensures
            final(self).wf(),
            final(self).cell_size == old(self).cell_size,
            forall|cx: int, cy: int|
                cell_coord_ok(cx) && cell_coord_ok(cy) ==> #[trigger] final(self).cell(cx, cy) == if in_range(
                    old(self).range_of(world_pos, size),
                    cx,
                    cy,
                ) {
                    old(self).cell(cx, cy).push(index)
                } else {
                    old(self).cell(cx, cy)
                },
            forall|n: nat| old(self).all_below(n) && index < n ==> #[trigger] final(self).all_below(n),
            forall|k: i128|
                #[trigger] final(self).cells@.contains_key(k) <==> old(self).cells@.contains_key(k) || covers_key(
                    old(self).range_of(world_pos, size),
                    k as int,
                ),
    {
        let c = self.cell_size;
        let ghost old_self = *old(self);
        let ghost range = old_self.range_of(world_pos, size);
        let left = world_pos.x;
        let right = world_pos.x + size.x;
        let bottom = world_pos.y - size.y;
        let top = world_pos.y;

        let cx_min = floor_div(left, c);
        let cx_max = floor_div(right, c);
        let cy_min = floor_div(bottom, c);
        let cy_max = floor_div(top, c);
        proof {
            lemma_floor_bound(left as int, c as int);
            lemma_floor_bound(right as int, c as int);
            lemma_floor_bound(bottom as int, c as int);
            lemma_floor_bound(top as int, c as int);
        }

        let mut cx = cx_min;
        while cx <= cx_max
            invariant
                self.wf(),
                self.cell_size == c,
                c == old_self.cell_size,
                range == (cx_min as int, cx_max as int, cy_min as int, cy_max as int),
                cx_min <= cx,
                cx <= cx_max + 1 || cx == cx_min,
                -16 * WORLD_LIMIT <= cx_min,
                cx_max <= 16 * WORLD_LIMIT,
                -16 * WORLD_LIMIT <= cy_min,
                cy_max <= 16 * WORLD_LIMIT,
                forall|x: int, y: int|
                    cell_coord_ok(x) && cell_coord_ok(y) ==> #[trigger] self.cell(x, y) == if in_range(range, x, y) && x
                        < cx {
                        old_self.cell(x, y).push(index)
                    } else {
                        old_self.cell(x, y)
                    },
                forall|n: nat| old_self.all_below(n) && index < n ==> #[trigger] self.all_below(n),
                forall|k: i128| #[trigger] self.cells@.contains_key(k) ==> old_self.cells@.contains_key(k) || covers_key(range, k as int),
                forall|k: i128| old_self.cells@.contains_key(k) ==> #[trigger] self.cells@.contains_key(k),
                forall|x: int, y: int|
                    in_range(range, x, y) && x < cx ==> self.cells@.contains_key(#[trigger] cell_key(x, y) as i128),
            decreases cx_max - cx + 1,
        {
            let mut cy = cy_min;
            while cy <= cy_max
                invariant
                    self.wf(),
                    self.cell_size == c,
                    range == (cx_min as int, cx_max as int, cy_min as int, cy_max as int),
                    cx_min <= cx <= cx_max,
                    cy_min <= cy,
                    cy <= cy_max + 1 || cy == cy_min,
                    -16 * WORLD_LIMIT <= cx_min,
                    cx_max <= 16 * WORLD_LIMIT,
                    -16 * WORLD_LIMIT <= cy_min,
                    cy_max <= 16 * WORLD_LIMIT,
                    forall|x: int, y: int|
                        cell_coord_ok(x) && cell_coord_ok(y) ==> #[trigger] self.cell(x, y) == if in_range(range, x, y)
                            && (x < cx || (x == cx && y < cy)) {
                            old_self.cell(x, y).push(index)
                        } else {
                            old_self.cell(x, y)
                        },
                    forall|n: nat| old_self.all_below(n) && index < n ==> #[trigger] self.all_below(n),
                    forall|k: i128| #[trigger] self.cells@.contains_key(k) ==> old_self.cells@.contains_key(k) || covers_key(range, k as int),
                    forall|k: i128| old_self.cells@.contains_key(k) ==> #[trigger] self.cells@.contains_key(k),
                    forall|x: int, y: int|
                        in_range(range, x, y) && (x < cx || (x == cx && y < cy)) ==> self.cells@.contains_key(
                            #[trigger] cell_key(x, y) as i128,
                        ),
                decreases cy_max - cy + 1,
            {
                let key: i128 = (cx as i128) * KEY_STRIDE + (cy as i128);
                let ghost before = *self;
                let mut v = match self.cells.remove(&key) {
                    Some(v) => v,
                    None => Vec::new(),
                };
                v.push(index);
                self.cells.insert(key, v);
                proof {
                    assert(key == cell_key(cx as int, cy as int));
                    assert(in_range(range, cx as int, cy as int));
                    assert(covers_key(range, key as int));
                    assert(self.cell(cx as int, cy as int) == before.cell(cx as int, cy as int).push(
                        index,
                    ));
                    assert forall|x: int, y: int| cell_coord_ok(x) && cell_coord_ok(y) && (x != cx || y != cy) implies #[trigger] self.cell(
                        x,
                        y,
                    ) == before.cell(x, y) by {
                        if cell_key(x, y) == cell_key(cx as int, cy as int) {
                            lemma_cell_key_injective(x, y, cx as int, cy as int);
                        }
                    }
                    assert forall|n: nat| old_self.all_below(n) && index < n implies #[trigger] self.all_below(
                        n,
                    ) by {
                        assert(before.all_below(n));
                        assert forall|k: i128, j: int|
                            self.cells@.contains_key(k) && 0 <= j < self.cells@[k]@.len() implies #[trigger] self.cells@[k]@[j]
                            < n by {
                            if k != key {
                                assert(before.cells@.contains_key(k));
                                assert(self.cells@[k] == before.cells@[k]);
                            } else if j < self.cells@[k]@.len() - 1 {
                                assert(before.cells@.contains_key(k));
                            }
                        }
                    }
                }
                cy = cy + 1;
            }
            cx = cx + 1;
        }
    }

    /// Every room listed in some cell the rectangle touches, each once.
    pub fn query(&self, world_pos: Pos, size: Pos) -> (r: Vec<usize>)
        requires
            self.wf(),
            rect_ok(world_pos, size),
        ensures
            r@.no_duplicates(),
            forall|j: usize| #[trigger] r@.contains(j) <==> self.listed_near(world_pos, size, j),
    {
        let c = self.cell_size;
        let ghost range = self.range_of(world_pos, size);
        let left = world_pos.x;
        let right = world_pos.x + size.x;
        let bottom = world_pos.y - size.y;
        let top = world_pos.y;

        let cx_min = floor_div(left, c);
        let cx_max = floor_div(right, c);
        let cy_min = floor_div(bottom, c);
        let cy_max = floor_div(top, c);
        proof {
            lemma_floor_bound(left as int, c as int);
            lemma_floor_bound(right as int, c as int);
            lemma_floor_bound(bottom as int, c as int);
            lemma_floor_bound(top as int, c as int);
        }

        let mut seen: HashSet<usize> = HashSet::new();
        let mut out: Vec<usize> = Vec::new();
        let mut cx = cx_min;
        while cx <= cx_max
            invariant
                self.wf(),
                c == self.cell_size,
                range == (cx_min as int, cx_max as int, cy_min as int, cy_max as int),
                cx_min <= cx,
                cx <= cx_max + 1 || cx == cx_min,
                -16 * WORLD_LIMIT <= cx_min,
                cx_max <= 16 * WORLD_LIMIT,
                -16 * WORLD_LIMIT <= cy_min,
                cy_max <= 16 * WORLD_LIMIT,
                out@.no_duplicates(),
                forall|j: usize| #[trigger] seen@.contains(j) <==> out@.contains(j),
                forall|j: usize|
                    #[trigger] out@.contains(j) ==> exists|x: int, y: int|
                        in_range(range, x, y) && #[trigger] self.cell(x, y).contains(j),
                forall|x: int, y: int, j: usize|
                    in_range(range, x, y) && x < cx && #[trigger] self.cell(x, y).contains(j)
                        ==> out@.contains(j),
            decreases cx_max - cx + 1,
        {
            let mut cy = cy_min;
            while cy <= cy_max
                invariant
                    self.wf(),
                    c == self.cell_size,
                    range == (cx_min as int, cx_max as int, cy_min as int, cy_max as int),
                    cx_min <= cx <= cx_max,
                    cy_min <= cy,
                    cy <= cy_max + 1 || cy == cy_min,
                    -16 * WORLD_LIMIT <= cx_min,
                    cx_max <= 16 * WORLD_LIMIT,
                    -16 * WORLD_LIMIT <= cy_min,
                    cy_max <= 16 * WORLD_LIMIT,
                    out@.no_duplicates(),
                    forall|j: usize| #[trigger] seen@.contains(j) <==> out@.contains(j),
                    forall|j: usize|
                        #[trigger] out@.contains(j) ==> exists|x: int, y: int|
                            in_range(range, x, y) && #[trigger] self.cell(x, y).contains(j),
                    forall|x: int, y: int, j: usize|
                        in_range(range, x, y) && (x < cx || (x == cx && y < cy))
                            && #[trigger] self.cell(x, y).contains(j) ==> out@.contains(j),
                decreases cy_max - cy + 1,
            {
                let key: i128 = (cx as i128) * KEY_STRIDE + (cy as i128);
                proof {
                    assert(key == cell_key(cx as int, cy as int));
                }
                match self.cells.get(&key) {
                    Some(indices) => {
                        proof {
                            assert(self.cell(cx as int, cy as int) == indices@);
                        }
                        let mut k: usize = 0;
                        while k < indices.len()
                            invariant
                                k <= indices@.len(),
                                indices@ == self.cell(cx as int, cy as int),
                                in_range(range, cx as int, cy as int),
                                out@.no_duplicates(),
                                forall|j: usize| #[trigger] seen@.contains(j) <==> out@.contains(j),
                                forall|j: usize|
                                    #[trigger] out@.contains(j) ==> exists|x: int, y: int|
                                        in_range(range, x, y) && #[trigger] self.cell(x, y).contains(
                                            j,
                                        ),
                                forall|x: int, y: int, j: usize|
                                    in_range(range, x, y) && (x < cx || (x == cx && y < cy))
                                        && #[trigger] self.cell(x, y).contains(j) ==> out@.contains(
                                        j,
                                    ),
                                forall|i: int| 0 <= i < k ==> out@.contains(#[trigger] indices@[i]),
                            decreases indices@.len() - k,
                        {
                            let j = indices[k];
                            if !seen.contains(&j) {
                                seen.insert(j);
                                let ghost prev = out@;
                                out.push(j);
                                proof {
                                    lemma_push_keeps(prev, j);
                                    assert(self.cell(cx as int, cy as int).contains(j)) by {
                                        assert(self.cell(cx as int, cy as int)[k as int] == j);
                                    }
                                    assert forall|jj: usize| #[trigger] out@.contains(jj) implies exists|
                                        x: int,
                                        y: int,
                                    | in_range(range, x, y) && #[trigger] self.cell(x, y).contains(jj) by {
                                        if jj != j {
                                            assert(prev.contains(jj));
                                        }
                                    }
                                    assert(out@[out@.len() - 1] == j);
                                    assert forall|i: int| 0 <= i < k + 1 implies out@.contains(
                                        #[trigger] indices@[i],
                                    ) by {
                                        if i < k {
                                            assert(prev.contains(indices@[i]));
                                        }
                                    }
                                    assert forall|jj: usize| #[trigger] seen@.contains(jj) <==> out@.contains(jj) by {
                                        if jj != j {
                                            assert(out@.contains(jj) <==> prev.contains(jj));
                                        }
                                    }
                                }
                            }
                            k += 1;
                        }
                        proof {
                            assert forall|x: int, y: int, j: usize|
                                in_range(range, x, y) && (x < cx || (x == cx && y < cy + 1))
                                    && #[trigger] self.cell(x, y).contains(j) implies out@.contains(
                                j,
                            ) by {
                                if x == cx && y == cy {
                                    let i = choose|i: int|
                                        0 <= i < indices@.len() && indices@[i] == j;
                                    assert(out@.contains(indices@[i]));
                                }
                            }
                        }
                    },
                    None => {
                        proof {
                            assert(self.cell(cx as int, cy as int) == Seq::<usize>::empty());
                        }
                    },
                }
                cy = cy + 1;
            }
            cx = cx + 1;
        }
        out
    }
}

impl Clone for SpatialHash {
    fn clone(&self) -> (r: Self)
        ensures
            r.cell_size == self.cell_size,
            r.cells@ == self.cells@,
    {
        SpatialHash { cell_size: self.cell_size, cells: self.cells.clone() }
    }
}

/// The rectangles touch: their closed extents meet on both axes (edges and corners
/// count).
pub open spec fn rects_touch(pos: Pos, size: Pos, q_pos: Pos, q_size: Pos) -> bool {
    &&& pos.x <= q_pos.x + q_size.x
    &&& q_pos.x <= pos.x + size.x
    &&& pos.y - size.y <= q_pos.y
    &&& q_pos.y - q_size.y <= pos.y
}

/// The grid misses no inserted rectangle: when every cell touched by a rectangle
/// lists `i` (as `insert` leaves it), every query rectangle that touches it finds
/// `i`, so `query` returns `i`.
pub proof fn law_query_finds_touching(
    grid: SpatialHash,
    pos: Pos,
    size: Pos,
    q_pos: Pos,
    q_size: Pos,
    i: usize,
)
    requires
        grid.wf(),
        size.x >= 0,
        size.y >= 0,
        q_size.x >= 0,
        q_size.y >= 0,
        rects_touch(pos, size, q_pos, q_size),
        forall|cx: int, cy: int|
            in_range(grid.range_of(pos, size), cx, cy) ==> #[trigger] grid.cell(cx, cy).contains(i),
    ensures
        grid.listed_near(q_pos, q_size, i),
{
    let c = grid.cell_size as int;
    let r = grid.range_of(pos, size);
    let q = grid.range_of(q_pos, q_size);
    vstd::arithmetic::div_mod::lemma_div_is_ordered(pos.x as int, pos.x + size.x, c);
    vstd::arithmetic::div_mod::lemma_div_is_ordered(pos.x as int, q_pos.x + q_size.x, c);
    vstd::arithmetic::div_mod::lemma_div_is_ordered(q_pos.x as int, pos.x + size.x, c);
    vstd::arithmetic::div_mod::lemma_div_is_ordered(q_pos.x as int, q_pos.x + q_size.x, c);
    vstd::arithmetic::div_mod::lemma_div_is_ordered(pos.y - size.y, pos.y as int, c);
    vstd::arithmetic::div_mod::lemma_div_is_ordered(pos.y - size.y, q_pos.y as int, c);
    vstd::arithmetic::div_mod::lemma_div_is_ordered(q_pos.y - q_size.y, pos.y as int, c);
    vstd::arithmetic::div_mod::lemma_div_is_ordered(q_pos.y - q_size.y, q_pos.y as int, c);
    let cx = if r.0 >= q.0 {
        r.0
    } else {
        q.0
    };
    let cy = if r.2 >= q.2 {
        r.2
    } else {
        q.2
    };
    assert(in_range(r, cx, cy));
    assert(in_range(q, cx, cy));
    assert(grid.cell(cx, cy).contains(i));
}

/// The grid misses no overlap: when every cell touched by a rectangle lists room
/// `i`, a query with any rectangle that overlaps it finds `i`.
pub proof fn law_query_finds_overlap(
    grid: SpatialHash,
    pos: Pos,
    size: Pos,
    q_pos: Pos,
    q_size: Pos,
    i: usize,
)
    requires
        grid.wf(),
        size.x >= 0,
        size.y >= 0,
        q_size.x >= 0,
        q_size.y >= 0,
        spec_collide_tl(pos, size, q_pos, q_size),
        forall|cx: int, cy: int|
            in_range(grid.range_of(pos, size), cx, cy) ==> #[trigger] grid.cell(cx, cy).contains(i),
    ensures
        grid.listed_near(q_pos, q_size, i),
{
    law_query_finds_touching(grid, pos, size, q_pos, q_size, i);
}

/// A room found near a rectangle is one of the rooms the grid lists, so it is below
/// any bound on all of them.
pub proof fn lemma_listed_below(grid: SpatialHash, pos: Pos, size: Pos, j: usize, n: nat)
    requires
        grid.all_below(n),
        grid.listed_near(pos, size, j),
    ensures
        j < n,
{
    let (cx, cy) = choose|cx: int, cy: int|
        in_range(grid.range_of(pos, size), cx, cy) && #[trigger] grid.cell(cx, cy).contains(j);
    let k = cell_key(cx, cy) as i128;
    let t = choose|t: int| 0 <= t < grid.cell(cx, cy).len() && grid.cell(cx, cy)[t] == j;
    assert(grid.cells@.contains_key(k));
    assert(grid.cells@[k]@[t] == j);
}

/// Cells touched by a rectangle the grid can take have coordinates that fit in
/// 63 bits.
pub proof fn lemma_range_coords(c: int, pos: Pos, size: Pos, cx: int, cy: int)
    requires
        c >= 1,
        rect_ok(pos, size),
        in_range(cell_range(c, pos, size), cx, cy),
    ensures
        cell_coord_ok(cx),
        cell_coord_ok(cy),
{
    lemma_floor_bound(pos.x as int, c);
    lemma_floor_bound(pos.x + size.x, c);
    lemma_floor_bound(pos.y - size.y, c);
    lemma_floor_bound(pos.y as int, c);
}

/// Pushing onto a sequence keeps what it held and adds the new element; nothing
/// else appears.
pub proof fn lemma_push_keeps(s: Seq<usize>, v: usize)
    ensures
        s.push(v).contains(v),
        forall|x: usize| s.contains(x) ==> #[trigger] s.push(v).contains(x),
        forall|x: usize| #[trigger] s.push(v).contains(x) && x != v ==> s.contains(x),
{
    assert(s.push(v)[s.len() as int] == v);
    assert forall|x: usize| s.contains(x) implies #[trigger] s.push(v).contains(x) by {
        let t = choose|t: int| 0 <= t < s.len() && s[t] == x;
        assert(s.push(v)[t] == x);
    }
    assert forall|x: usize| #[trigger] s.push(v).contains(x) && x != v implies s.contains(x) by {
        let t = choose|t: int| 0 <= t < s.len() + 1 && s.push(v)[t] == x;
        assert(s[t] == x);
    }
}

/// Dividing a coordinate within 8 `WORLD_LIMIT`s by a positive cell size gives a
/// cell coordinate within 16 `WORLD_LIMIT`s.
pub proof fn lemma_floor_bound(a: int, c: int)
    requires
        c >= 1,
        -16 * WORLD_LIMIT <= a <= 16 * WORLD_LIMIT,
    ensures
        -16 * WORLD_LIMIT <= a / c <= 16 * WORLD_LIMIT,
{
    if a >= 0 {
        vstd::arithmetic::div_mod::lemma_div_is_ordered_by_denominator(a, 1, c);
        vstd::arithmetic::div_mod::lemma_div_pos_is_pos(a, c);
    } else {
        vstd::arithmetic::div_mod::lemma_fundamental_div_mod(a, c);
        assert(a / c >= a) by (nonlinear_arith)
            requires
                a < 0,
                c >= 1,
                a == c * (a / c) + a % c,
                0 <= a % c < c,
        ;
        assert(a / c < 0) by (nonlinear_arith)
            requires
                a < 0,
                c >= 1,
                a == c * (a / c) + a % c,
                0 <= a % c < c,
        ;
    }
}

} // verus!
