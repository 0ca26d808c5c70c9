//! What holds of every walk: the facts a caller can rely on, stated over the model
//! and proved.
use vstd::prelude::*;
use vstd::arithmetic::div_mod::lemma_div_is_ordered;
use crate::model::{
    between, component, coord, first_voxel, in_i32, last_voxel, manhattan, normal_at, pick, ray,
    shifted, step, t_den, valid_segment, visit_count_is, visited, voxel_at, Cell, Segment,
};
use crate::traversal::lemma_ends_in_i32;

verus! {

/// The voxel holding the start lies between the ends.
pub(crate) proof fn lemma_first_between(seg: Segment)
    requires
        valid_segment(seg),
    ensures
        between(seg, first_voxel(seg)),
{
    let d = seg.scale as int;
    assert forall|a: int| 0 <= a < 3 implies if step(seg, a) > 0 {
        component(first_voxel(seg), a) <= #[trigger] component(first_voxel(seg), a) <= component(
            last_voxel(seg),
            a,
        )
    } else {
        component(last_voxel(seg), a) <= component(first_voxel(seg), a) <= component(
            first_voxel(seg),
            a,
        )
    } by {
        let s = coord(seg.start, a);
        let e = coord(seg.end, a);
        assert(component(first_voxel(seg), a) == s / d);
        assert(component(last_voxel(seg), a) == e / d);
        if e >= s {
            lemma_div_is_ordered(s, e, d);
        } else {
            lemma_div_is_ordered(e, s, d);
        }
    }
}

/// Moving an axis that has not arrived one step in its direction of travel keeps a
/// voxel between the ends, one step nearer to the last voxel.
pub(crate) proof fn lemma_step_between(seg: Segment, c: Cell, a: int)
    requires
        valid_segment(seg),
        0 <= a < 3,
        between(seg, c),
        component(c, a) != component(last_voxel(seg), a),
    ensures
        between(seg, shifted(c, a, step(seg, a))),
        manhattan(shifted(c, a, step(seg, a)), last_voxel(seg)) == manhattan(c, last_voxel(seg)) - 1,
{
    let l = last_voxel(seg);
    let n = shifted(c, a, step(seg, a));
    assert(between(seg, c) ==> if step(seg, a) > 0 {
        component(first_voxel(seg), a) <= component(c, a) <= component(l, a)
    } else {
        component(l, a) <= component(c, a) <= component(first_voxel(seg), a)
    });
    assert forall|b: int| 0 <= b < 3 implies if step(seg, b) > 0 {
        component(first_voxel(seg), b) <= #[trigger] component(n, b) <= component(l, b)
    } else {
        component(l, b) <= component(n, b) <= component(first_voxel(seg), b)
    } by {
        assert(between(seg, c) ==> if step(seg, b) > 0 {
            component(first_voxel(seg), b) <= component(c, b) <= component(l, b)
        } else {
            component(l, b) <= component(c, b) <= component(first_voxel(seg), b)
        });
    }
}

/// A voxel between the ends has `i32` coordinates.
pub(crate) proof fn lemma_between_in_i32(seg: Segment, c: Cell)
    requires
        valid_segment(seg),
        between(seg, c),
    ensures
        in_i32(c),
{
    lemma_ends_in_i32(seg);
    let f = first_voxel(seg);
    let l = last_voxel(seg);
    assert(between(seg, c) ==> if step(seg, 0) > 0 {
        component(f, 0) <= component(c, 0) <= component(l, 0)
    } else {
        component(l, 0) <= component(c, 0) <= component(f, 0)
    });
    assert(between(seg, c) ==> if step(seg, 1) > 0 {
        component(f, 1) <= component(c, 1) <= component(l, 1)
    } else {
        component(l, 1) <= component(c, 1) <= component(f, 1)
    });
    assert(between(seg, c) ==> if step(seg, 2) > 0 {
        component(f, 2) <= component(c, 2) <= component(l, 2)
    } else {
        component(l, 2) <= component(c, 2) <= component(f, 2)
    });
}

/// Away from the last voxel, the axis chosen next still has to move.
pub(crate) proof fn lemma_pick_active(seg: Segment, c: Cell)
    requires
        valid_segment(seg),
        between(seg, c),
        c != last_voxel(seg),
    ensures
        0 <= pick(seg, c) < 3,
        component(c, pick(seg, c)) != component(last_voxel(seg), pick(seg, c)),
{
    reveal(pick);
    let f = first_voxel(seg);
    let l = last_voxel(seg);
    assert forall|a: int| 0 <= a < 3 && component(c, a) != component(l, a) implies t_den(seg, a)
        != 0 by {
        assert(between(seg, c) ==> if step(seg, a) > 0 {
            component(f, a) <= component(c, a) <= component(l, a)
        } else {
            component(l, a) <= component(c, a) <= component(f, a)
        });
        if ray(seg, a) == 0 {
            assert(coord(seg.start, a) == coord(seg.end, a));
            assert(component(f, a) == component(l, a));
        }
        let r = ray(seg, a);
        let st = step(seg, a);
        assert(st * r != 0) by (nonlinear_arith)
            requires
                r != 0,
                st == 1 || st == -1,
        ;
    }
    assert(component(c, 0) != component(l, 0) || component(c, 1) != component(l, 1) || component(c, 2)
        != component(l, 2));
}

/// The `k`-th voxel, for `k` up to the Manhattan distance between the end voxels,
/// lies between the ends, `k` steps nearer to the last one, and is visited.
proof fn lemma_progress(seg: Segment, k: nat)
    requires
        valid_segment(seg),
        k <= manhattan(first_voxel(seg), last_voxel(seg)),
    ensures
        between(seg, voxel_at(seg, k)),
        manhattan(voxel_at(seg, k), last_voxel(seg)) == manhattan(first_voxel(seg), last_voxel(seg))
            - k,
        visited(seg, k),
    decreases k,
{
    if k == 0 {
        lemma_first_between(seg);
    } else {
        let j = (k - 1) as nat;
        lemma_progress(seg, j);
        let c = voxel_at(seg, j);
        lemma_pick_active(seg, c);
        let a = pick(seg, c);
        assert(voxel_at(seg, k) == shifted(c, a, step(seg, a)));
        lemma_step_between(seg, c, a);
    }
}

/// A visit takes place only where every earlier one did.
proof fn lemma_visited_prefix(seg: Segment, j: nat, k: nat)
    requires
        j <= k,
        visited(seg, k),
    ensures
        visited(seg, j),
    decreases k - j,
{
    if j < k {
        lemma_visited_prefix(seg, j, (k - 1) as nat);
    }
}

/// The walk makes exactly one visit more than the Manhattan distance between the
/// voxels of the two ends, and its last visit is the voxel holding the end point.
pub proof fn lemma_visit_count(seg: Segment)
    requires
        valid_segment(seg),
    ensures
        visit_count_is(seg, (manhattan(first_voxel(seg), last_voxel(seg)) + 1) as nat),
        voxel_at(seg, manhattan(first_voxel(seg), last_voxel(seg)) as nat) == last_voxel(seg),
{
    let m = manhattan(first_voxel(seg), last_voxel(seg)) as nat;
    lemma_progress(seg, m);
    assert(voxel_at(seg, m) == last_voxel(seg));
    assert(!visited(seg, m + 1));
}

/// However many visits the walk makes, the last of them is the voxel holding the
/// end point.
pub proof fn lemma_ends_on_last(seg: Segment, n: nat)
    requires
        valid_segment(seg),
        visit_count_is(seg, n),
    ensures
        n == manhattan(first_voxel(seg), last_voxel(seg)) + 1,
        voxel_at(seg, (n - 1) as nat) == last_voxel(seg),
{
    let m = manhattan(first_voxel(seg), last_voxel(seg)) as nat;
    lemma_visit_count(seg);
    if n < m + 1 {
        lemma_progress(seg, n);
    } else if n > m + 1 {
        lemma_visited_prefix(seg, m + 1, (n - 1) as nat);
    }
}

/// Every visited voxel lies in the box between the end voxels, and each visit is
/// one step nearer to the last voxel than the one before.
pub proof fn lemma_stays_between(seg: Segment, k: nat)
    requires
        valid_segment(seg),
        visited(seg, k),
    ensures
        between(seg, voxel_at(seg, k)),
        manhattan(voxel_at(seg, k), last_voxel(seg)) == manhattan(first_voxel(seg), last_voxel(seg))
            - k,
{
    let m = manhattan(first_voxel(seg), last_voxel(seg)) as nat;
    lemma_visit_count(seg);
    if k > m {
        lemma_visited_prefix(seg, m + 1, k);
    }
    lemma_progress(seg, k);
}

/// The walk starts in the voxel holding the start point, with a zero normal.
pub proof fn lemma_origin_first(seg: Segment)
    requires
        valid_segment(seg),
    ensures
        visited(seg, 0),
        voxel_at(seg, 0) == first_voxel(seg),
        normal_at(seg, 0) == (0int, 0int, 0int),
{
}

/// Each voxel after the first is a face neighbour of the one before it: they
/// differ by one unit on exactly one axis.
pub proof fn lemma_unit_step(seg: Segment, k: nat)
    requires
        k >= 1,
    ensures
        manhattan(voxel_at(seg, (k - 1) as nat), voxel_at(seg, k)) == 1,
{
    let c = voxel_at(seg, (k - 1) as nat);
    let a = pick(seg, c);
    assert(0 <= a < 3) by {
        reveal(pick);
    }
    assert(voxel_at(seg, k) == shifted(c, a, step(seg, a)));
}

/// The normal of each visit after the first has one non-zero component, on the
/// axis that was advanced, and it is minus the direction of travel on that axis:
/// it points back into the voxel just left.
pub proof fn lemma_entry_normal(seg: Segment, k: nat)
    requires
        k >= 1,
    ensures
        ({
            let c = voxel_at(seg, (k - 1) as nat);
            let a = pick(seg, c);
            &&& 0 <= a < 3
            &&& voxel_at(seg, k) == shifted(c, a, step(seg, a))
            &&& normal_at(seg, k) == shifted((0, 0, 0), a, -step(seg, a))
            &&& component(normal_at(seg, k), a) == -step(seg, a)
            &&& manhattan((0, 0, 0), normal_at(seg, k)) == 1
        }),
{
    let c = voxel_at(seg, (k - 1) as nat);
    let a = pick(seg, c);
    assert(0 <= a < 3) by {
        reveal(pick);
    }
    assert(voxel_at(seg, k) == shifted(c, a, step(seg, a)));
}

/// A segment that starts and ends at one point visits exactly one voxel, with a
/// zero normal.
pub proof fn lemma_single_voxel(seg: Segment)
    requires
        valid_segment(seg),
        seg.start == seg.end,
    ensures
        visit_count_is(seg, 1),
        voxel_at(seg, 0) == first_voxel(seg),
        normal_at(seg, 0) == (0int, 0int, 0int),
{
    assert(first_voxel(seg) == last_voxel(seg));
    assert(!visited(seg, 1));
}
} // verus!
