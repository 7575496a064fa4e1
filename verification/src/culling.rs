//! Which placed rooms to drop from, and bring back into, the rendered world as the
//! camera moves.
use vstd::prelude::*;
use std::collections::HashSet;

use crate::geometry::Pos;

verus! {

broadcast use vstd::std_specs::hash::group_hash_axioms;

/// `p` lies farther than `dist` from `cam` (every point does when `dist` is negative).
pub open spec fn beyond(p: Pos, cam: Pos, dist: i64) -> bool {
    dist < 0 || (p.x - cam.x) * (p.x - cam.x) + (p.y - cam.y) * (p.y - cam.y) > dist * dist
}

/// Exact test of `beyond`.
pub fn is_beyond(p: Pos, cam: Pos, dist: i64) -> (b: bool)
    ensures
        b == beyond(p, cam, dist),
{
    if dist < 0 {
        return true;
    }
    let dx: i128 = p.x as i128 - cam.x as i128;
    let dy: i128 = p.y as i128 - cam.y as i128;
    let ax: u128 = if dx < 0 {
        (-dx) as u128
    } else {
        dx as u128
    };
    let ay: u128 = if dy < 0 {
        (-dy) as u128
    } else {
        dy as u128
    };
    let d: u128 = dist as u128;
    let ghost dxi = p.x - cam.x;
    let ghost dyi = p.y - cam.y;
    proof {
        assert(ax * ax == dxi * dxi) by (nonlinear_arith)
            requires
                ax == dxi || ax == -dxi,
        ;
        assert(ay * ay == dyi * dyi) by (nonlinear_arith)
            requires
                ay == dyi || ay == -dyi,
        ;
        assert(dxi * dxi >= 0 && dyi * dyi >= 0) by (nonlinear_arith);
    }
    if ax > d || ay > d {
        proof {
            if ax > d {
                assert(ax * ax > d * d) by (nonlinear_arith)
                    requires
                        ax > d,
                        d >= 0,
                ;
            } else {
                assert(ay * ay > d * d) by (nonlinear_arith)
                    requires
                        ay > d,
                        d >= 0,
                ;
            }
        }
        return true;
    }
    proof {
        assert(ax * ax <= d * d && ay * ay <= d * d && d * d <= 0x4000_0000_0000_0000_0000_0000_0000_0000)
            by (nonlinear_arith)
            requires
                0 <= ax <= d,
                0 <= ay <= d,
                d <= 0x8000_0000_0000_0000,
        ;
    }
    ax * ax + ay * ay > d * d
}

/// Entries of `s[..n]` whose position is beyond `dist` from `cam`, by index.
pub open spec fn spec_cull(s: Seq<(usize, Pos)>, cam: Pos, dist: i64, n: nat) -> Seq<usize>
    decreases n,
{
    if n == 0 {
        Seq::empty()
    } else {
        let prev = spec_cull(s, cam, dist, (n - 1) as nat);
        if beyond(s[n - 1].1, cam, dist) {
            prev.push(s[n - 1].0)
        } else {
            prev
        }
    }
}

/// Entries of `s[..n]` not in `reserved` whose position is within `dist` of `cam`,
/// by index.
pub open spec fn spec_respawn(s: Seq<(usize, Pos)>, reserved: Set<usize>, cam: Pos, dist: i64, n: nat) -> Seq<
    usize,
>
    decreases n,
{
    if n == 0 {
        Seq::empty()
    } else {
        let prev = spec_respawn(s, reserved, cam, dist, (n - 1) as nat);
        if !reserved.contains(s[n - 1].0) && !beyond(s[n - 1].1, cam, dist) {
            prev.push(s[n - 1].0)
        } else {
            prev
        }
    }
}

/// The distance within which culled rooms are brought back: four fifths of the cull
/// distance, rounded down, so that a room between the two distances is neither
/// culled nor brought back on every tick. A negative cull distance (every room lies
/// beyond it) is kept as it is.
pub fn respawn_dist(cull_dist: i64) -> (r: i64)
    ensures
        cull_dist >= 0 ==> r == 4 * cull_dist / 5,
        cull_dist >= 0 ==> 0 <= r <= cull_dist,
        cull_dist < 0 ==> r == cull_dist,
{
    if cull_dist < 0 {
        return cull_dist;
    }
    let c: u128 = cull_dist as u128;
    let r: u128 = 4 * c / 5;
    proof {
        assert(4 * c / 5 <= c) by (nonlinear_arith)
            requires
                c >= 0,
        ;
    }
    r as i64
}

/// Every room already spawned or already waiting in the spawn queue.
pub fn reserved_rooms(spawned: &[usize], queued: &[usize]) -> (r: HashSet<usize>)
    ensures
        forall|x: usize| #[trigger] r@.contains(x) <==> spawned@.contains(x) || queued@.contains(x),
{
    let mut out: HashSet<usize> = HashSet::new();
    let mut i: usize = 0;
    while i < spawned.len()
        invariant
            i <= spawned@.len(),
            forall|x: usize| #[trigger] out@.contains(x) <==> spawned@.take(i as int).contains(x),
        decreases spawned@.len() - i,
    {
        out.insert(spawned[i]);
        proof {
            let t0 = spawned@.take(i as int);
            let t1 = spawned@.take(i as int + 1);
            assert(t1 =~= t0.push(spawned@[i as int]));
            assert forall|x: usize| #[trigger] out@.contains(x) <==> t1.contains(x) by {
                if t1.contains(x) && x != spawned@[i as int] {
                    let k = choose|k: int| 0 <= k < t1.len() && t1[k] == x;
                    assert(k < t0.len());
                    assert(t0[k] == x);
                }
                if t0.contains(x) {
                    let k = choose|k: int| 0 <= k < t0.len() && t0[k] == x;
                    assert(t1[k] == x);
                }
                if x == spawned@[i as int] {
                    assert(t1[i as int] == x);
                }
            }
        }
        i += 1;
    }
    proof {
        assert(spawned@.take(spawned@.len() as int) =~= spawned@);
    }
    let mut j: usize = 0;
    while j < queued.len()
        invariant
            j <= queued@.len(),
            forall|x: usize| #[trigger] out@.contains(x) <==> spawned@.contains(x) || queued@.take(j as int).contains(x),
        decreases queued@.len() - j,
    {
        out.insert(queued[j]);
        proof {
            let t0 = queued@.take(j as int);
            let t1 = queued@.take(j as int + 1);
            assert(t1 =~= t0.push(queued@[j as int]));
            assert forall|x: usize| #[trigger] out@.contains(x) <==> spawned@.contains(x) || t1.contains(x) by {
                if t1.contains(x) && x != queued@[j as int] {
                    let k = choose|k: int| 0 <= k < t1.len() && t1[k] == x;
                    assert(k < t0.len());
                    assert(t0[k] == x);
                }
                if t0.contains(x) {
                    let k = choose|k: int| 0 <= k < t0.len() && t0[k] == x;
                    assert(t1[k] == x);
                }
                if x == queued@[j as int] {
                    assert(t1[j as int] == x);
                }
            }
        }
        j += 1;
    }
    proof {
        assert(queued@.take(queued@.len() as int) =~= queued@);
    }
    out
}

/// Indices, in order, of the spawned rooms farther than `cull_dist` from `cam_pos`.
pub fn rooms_to_cull(spawned: &[(usize, Pos)], cam_pos: Pos, cull_dist: i64) -> (r: Vec<usize>)
    ensures
        r@ == spec_cull(spawned@, cam_pos, cull_dist, spawned@.len()),
        r@ == spawned@.filter(far_from(cam_pos, cull_dist)).map_values(entry_index()),
{
    proof {
        law_cull_is_distance_filter(spawned@, cam_pos, cull_dist, spawned@.len());
        assert(spawned@.take(spawned@.len() as int) =~= spawned@);
    }
    let mut out: Vec<usize> = Vec::new();
    let mut i: usize = 0;
    while i < spawned.len()
        invariant
            i <= spawned@.len(),
            out@ == spec_cull(spawned@, cam_pos, cull_dist, i as nat),
        decreases spawned@.len() - i,
    {
        let (index, pos) = spawned[i];
        if is_beyond(pos, cam_pos, cull_dist) {
            out.push(index);
        }
        i += 1;
    }
    out
}

/// Indices, in order, of the rooms within `respawn_dist` of `cam_pos` that are not in
/// `reserved`: every room already spawned or already queued to spawn, so that no
/// room is queued twice. `respawn_dist` should stay below the cull distance, so that
/// a room on the boundary is not dropped and brought back on every tick.
pub fn rooms_to_respawn(
    all_rooms: &[(usize, Pos)],
    reserved: &HashSet<usize>,
    cam_pos: Pos,
    respawn_dist: i64,
) -> (r: Vec<usize>)
    ensures
        r@ == spec_respawn(all_rooms@, reserved@, cam_pos, respawn_dist, all_rooms@.len()),
        r@ == all_rooms@.filter(back_in_reach(reserved@, cam_pos, respawn_dist)).map_values(entry_index()),
{
    proof {
        law_respawn_is_distance_filter(all_rooms@, reserved@, cam_pos, respawn_dist, all_rooms@.len());
        assert(all_rooms@.take(all_rooms@.len() as int) =~= all_rooms@);
    }
    let mut out: Vec<usize> = Vec::new();
    let mut i: usize = 0;
    while i < all_rooms.len()
        invariant
            i <= all_rooms@.len(),
            out@ == spec_respawn(all_rooms@, reserved@, cam_pos, respawn_dist, i as nat),
        decreases all_rooms@.len() - i,
    {
        let (index, pos) = all_rooms[i];
        if !reserved.contains(&index) && !is_beyond(pos, cam_pos, respawn_dist) {
            out.push(index);
        }
        i += 1;
    }
    out
}

/// Hysteresis: with the respawn distance no larger than the cull distance, a room
/// close enough to be brought back is not far enough to be dropped, and a room in
/// between is neither.
pub proof fn law_respawned_rooms_are_not_culled(p: Pos, cam: Pos, respawn_dist: i64, cull_dist: i64)
    requires
        0 <= respawn_dist <= cull_dist,
    ensures
        !beyond(p, cam, respawn_dist) ==> !beyond(p, cam, cull_dist),
        beyond(p, cam, cull_dist) ==> beyond(p, cam, respawn_dist),
{
    assert(respawn_dist * respawn_dist <= cull_dist * cull_dist) by (nonlinear_arith)
        requires
            0 <= respawn_dist <= cull_dist,
    ;
}

/// A reserved room is never brought back.
pub proof fn law_reserved_rooms_not_respawned(
    s: Seq<(usize, Pos)>,
    reserved: Set<usize>,
    cam: Pos,
    dist: i64,
    n: nat,
)
    requires
        n <= s.len(),
    ensures
        forall|i: int|
            0 <= i < spec_respawn(s, reserved, cam, dist, n).len() ==> !reserved.contains(
                #[trigger] spec_respawn(s, reserved, cam, dist, n)[i],
            ),
    decreases n,
{
    if n > 0 {
        law_reserved_rooms_not_respawned(s, reserved, cam, dist, (n - 1) as nat);
        let prev = spec_respawn(s, reserved, cam, dist, (n - 1) as nat);
        let cur = spec_respawn(s, reserved, cam, dist, n);
        assert forall|i: int| 0 <= i < cur.len() implies !reserved.contains(#[trigger] cur[i]) by {
            if i < prev.len() {
                assert(cur[i] == prev[i]);
            }
        }
    }
}

/// Entries farther than `dist` from `cam` by Euclidean distance (every entry, when
/// `dist` is negative).
pub open spec fn far_from(cam: Pos, dist: i64) -> spec_fn((usize, Pos)) -> bool {
    |e: (usize, Pos)|
        dist < 0 || (e.1.x - cam.x) * (e.1.x - cam.x) + (e.1.y - cam.y) * (e.1.y - cam.y) > dist * dist
}

/// Entries not in `reserved` within `dist` of `cam` by Euclidean distance (none,
/// when `dist` is negative).
pub open spec fn back_in_reach(reserved: Set<usize>, cam: Pos, dist: i64) -> spec_fn((usize, Pos)) -> bool {
    |e: (usize, Pos)|
        !reserved.contains(e.0) && dist >= 0 && (e.1.x - cam.x) * (e.1.x - cam.x) + (e.1.y - cam.y) * (e.1.y
            - cam.y) <= dist * dist
}

/// The index of an entry.
pub open spec fn entry_index() -> spec_fn((usize, Pos)) -> usize {
    |e: (usize, Pos)| e.0
}

/// Culling keeps, in order, the indices of exactly the entries farther than
/// `cull_dist` from the camera: the result depends on where the camera stands, and
/// an entry at the camera itself is never culled for a non-negative distance.
pub proof fn law_cull_is_distance_filter(s: Seq<(usize, Pos)>, cam: Pos, dist: i64, n: nat)
    requires
        n <= s.len(),
    ensures
        spec_cull(s, cam, dist, n) == s.take(n as int).filter(far_from(cam, dist)).map_values(entry_index()),
    decreases n,
{
    reveal(Seq::filter);
    let t = s.take(n as int);
    if n == 0 {
        assert(t.filter(far_from(cam, dist)) =~= Seq::<(usize, Pos)>::empty());
        assert(t.filter(far_from(cam, dist)).map_values(entry_index()) =~= Seq::<usize>::empty());
    } else {
        law_cull_is_distance_filter(s, cam, dist, (n - 1) as nat);
        let t0 = s.take(n - 1);
        assert(t.drop_last() =~= t0);
        assert(t.last() == s[n - 1]);
        let f0 = t0.filter(far_from(cam, dist));
        if far_from(cam, dist)(s[n - 1]) {
            assert(t.filter(far_from(cam, dist)) == f0.push(s[n - 1]));
            assert(f0.push(s[n - 1]).map_values(entry_index()) =~= f0.map_values(entry_index()).push(s[n - 1].0));
        } else {
            assert(t.filter(far_from(cam, dist)) == f0);
        }
    }
}

/// Respawning keeps, in order, the indices of exactly the entries not reserved and
/// within `respawn_dist` of the camera.
pub proof fn law_respawn_is_distance_filter(
    s: Seq<(usize, Pos)>,
    reserved: Set<usize>,
    cam: Pos,
    dist: i64,
    n: nat,
)
    requires
        n <= s.len(),
    ensures
        spec_respawn(s, reserved, cam, dist, n) == s.take(n as int).filter(back_in_reach(reserved, cam, dist)).map_values(
            entry_index(),
        ),
    decreases n,
{
    reveal(Seq::filter);
    let t = s.take(n as int);
    let p = back_in_reach(reserved, cam, dist);
    if n == 0 {
        assert(t.filter(p) =~= Seq::<(usize, Pos)>::empty());
        assert(t.filter(p).map_values(entry_index()) =~= Seq::<usize>::empty());
    } else {
        law_respawn_is_distance_filter(s, reserved, cam, dist, (n - 1) as nat);
        let t0 = s.take(n - 1);
        assert(t.drop_last() =~= t0);
        assert(t.last() == s[n - 1]);
        let f0 = t0.filter(p);
        if p(s[n - 1]) {
            assert(t.filter(p) == f0.push(s[n - 1]));
            assert(f0.push(s[n - 1]).map_values(entry_index()) =~= f0.map_values(entry_index()).push(s[n - 1].0));
        } else {
            assert(t.filter(p) == f0);
        }
    }
}

/// A room brought back is not culled again at the same camera: no entry kept by
/// respawning at `respawn_dist` is farther than any cull distance at least as large.
pub proof fn law_respawned_entries_stay(
    e: (usize, Pos),
    reserved: Set<usize>,
    cam: Pos,
    respawn_dist: i64,
    cull_dist: i64,
)
    requires
        respawn_dist <= cull_dist,
        back_in_reach(reserved, cam, respawn_dist)(e),
    ensures
        !far_from(cam, cull_dist)(e),
{
    assert(respawn_dist * respawn_dist <= cull_dist * cull_dist) by (nonlinear_arith)
        requires
            0 <= respawn_dist <= cull_dist,
    ;
}

} // verus!
