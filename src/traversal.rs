//! The traversal engine: a step machine that hands out one visit per call, and a
//! driver that feeds the visits to a visitor until it asks to stop.
use vstd::prelude::*;
use vstd::arithmetic::div_mod::{lemma_fundamental_div_mod, lemma_fundamental_div_mod_converse};
use crate::model::{
    active_den, advance, between, boundary, cell, component, coord, coord_in_range, entry_normal,
    first_voxel, in_i32, last_voxel, manhattan, normal_at, pick, segment_of, shifted, step, t_before,
    t_den, t_num, valid_segment, visit_args, visited, voxel_at, FixedPoint, Segment, Triple,
    MAX_SCALE, VOXEL_LIMIT,
};
use crate::laws::{
    lemma_between_in_i32, lemma_ends_on_last, lemma_first_between, lemma_pick_active, lemma_step_between,
};

verus! {

/// Floor of `num / scale`.
pub fn floor_div(num: i64, scale: i64) -> (r: i64)
    requires
        scale > 0,
    ensures
        r == num as int / scale as int,
{
    if num >= 0 {
        ((num as u64) / (scale as u64)) as i64
    } else {
        let m: u64 = (-(num + 1)) as u64;
        let q: u64 = m / (scale as u64);
        proof {
            lemma_fundamental_div_mod(m as int, scale as int);
            let r = (m as int) % (scale as int);
            assert(num == (-(q as int) - 1) * scale + (scale - r - 1)) by (nonlinear_arith)
                requires
                    m as int == scale * (q as int) + r,
                    m as int == -(num + 1),
            ;
            lemma_fundamental_div_mod_converse(num as int, scale as int, -(q as int) - 1, scale - r - 1);
        }
        -(q as i64) - 1
    }
}

/// Both ends of a segment lie in voxels with `i32` coordinates, at a scale this
/// engine accepts.
pub fn segment_in_range(seg: &Segment) -> (r: bool)
    ensures
        r == valid_segment(*seg),
{
    let s = seg.scale;
    if s < 1 || s > MAX_SCALE {
        return false;
    }
    assert(VOXEL_LIMIT * s <= 0x2000_0000_0000_0000) by (nonlinear_arith)
        requires
            s <= MAX_SCALE,
    ;
    let lo: i64 = -VOXEL_LIMIT * s;
    let hi: i64 = VOXEL_LIMIT * s;
    let a = seg.start;
    let b = seg.end;
    lo <= a.x && a.x < hi && lo <= a.y && a.y < hi && lo <= a.z && a.z < hi && lo <= b.x && b.x < hi
        && lo <= b.y && b.y < hi && lo <= b.z && b.z < hi
}

proof fn lemma_floor_in_i32(c: int, scale: int)
    requires
        1 <= scale,
        coord_in_range(c, scale),
    ensures
        i32::MIN <= c / scale <= i32::MAX,
{
    lemma_fundamental_div_mod(c, scale);
    let q = c / scale;
    let r = c % scale;
    assert(i32::MIN <= q <= i32::MAX) by (nonlinear_arith)
        requires
            c == scale * q + r,
            0 <= r < scale,
            -0x8000_0000 * scale <= c < 0x8000_0000 * scale,
    ;
}

/// Both end voxels of a valid segment have `i32` coordinates.
pub proof fn lemma_ends_in_i32(seg: Segment)
    requires
        valid_segment(seg),
    ensures
        in_i32(first_voxel(seg)),
        in_i32(last_voxel(seg)),
{
    let s = seg.scale as int;
    lemma_floor_in_i32(seg.start.x as int, s);
    lemma_floor_in_i32(seg.start.y as int, s);
    lemma_floor_in_i32(seg.start.z as int, s);
    lemma_floor_in_i32(seg.end.x as int, s);
    lemma_floor_in_i32(seg.end.y as int, s);
    lemma_floor_in_i32(seg.end.z as int, s);
}

fn axis_coord(p: &FixedPoint, axis: usize) -> (r: i64)
    requires
        axis < 3,
    ensures
        r == coord(*p, axis as int),
{
    if axis == 0 {
        p.x
    } else if axis == 1 {
        p.y
    } else {
        p.z
    }
}

fn axis_voxel(c: Triple, axis: usize) -> (r: i32)
    requires
        axis < 3,
    ensures
        r == component(cell(c), axis as int),
{
    if axis == 0 {
        c.0
    } else if axis == 1 {
        c.1
    } else {
        c.2
    }
}

/// The voxels that a segment passes through, handed out one per call of
/// `next_visit`.
pub struct Traversal {
    seg: Segment,
    current: Triple,
    last: Triple,
    started: bool,
    emitted: Ghost<nat>,
}

impl Traversal {
    /// The segment walked.
    pub closed spec fn segment(&self) -> Segment {
        self.seg
    }

    /// How many visits have been handed out.
    pub closed spec fn emitted(&self) -> nat {
        self.emitted@
    }

    /// How many visits are still to come.
    pub closed spec fn remaining(&self) -> nat {
        if self.started {
            manhattan(cell(self.current), last_voxel(self.seg)) as nat
        } else {
            (manhattan(first_voxel(self.seg), last_voxel(self.seg)) + 1) as nat
        }
    }

    pub closed spec fn wf(&self) -> bool {
        &&& valid_segment(self.seg)
        &&& cell(self.last) == last_voxel(self.seg)
        &&& (self.started <==> self.emitted@ > 0)
        &&& !self.started ==> cell(self.current) == first_voxel(self.seg)
        &&& self.started ==> cell(self.current) == voxel_at(self.seg, (self.emitted@ - 1) as nat)
            && visited(self.seg, (self.emitted@ - 1) as nat)
        &&& between(self.seg, cell(self.current))
        &&& self.emitted@ + self.remaining() == manhattan(first_voxel(self.seg), last_voxel(self.seg))
            + 1
    }

    /// No walk hands out more visits than there are `i32` coordinates to cross.
    pub proof fn lemma_emitted_bounded(&self)
        requires
            self.wf(),
        ensures
            self.emitted() <= 0x3_0000_0000,
    {
        lemma_ends_in_i32(self.seg);
        lemma_between_in_i32(self.seg, cell(self.current));
    }

    /// A walk along `seg` that has not yet visited anything.
    pub fn new(seg: Segment) -> (t: Traversal)
        requires
            valid_segment(seg),
        ensures
            t.wf(),
            t.segment() == seg,
            t.emitted() == 0,
    {
        proof {
            lemma_ends_in_i32(seg);
            lemma_first_between(seg);
        }
        let current = (
            floor_div(seg.start.x, seg.scale) as i32,
            floor_div(seg.start.y, seg.scale) as i32,
            floor_div(seg.start.z, seg.scale) as i32,
        );
        let last = (
            floor_div(seg.end.x, seg.scale) as i32,
            floor_div(seg.end.y, seg.scale) as i32,
            floor_div(seg.end.z, seg.scale) as i32,
        );
        Traversal { seg, current, last, started: false, emitted: Ghost(0) }
    }

    fn step_of(&self, axis: usize) -> (r: i64)
        requires
            axis < 3,
        ensures
            r == step(self.seg, axis as int),
    {
        if axis_coord(&self.seg.end, axis) >= axis_coord(&self.seg.start, axis) {
            1
        } else {
            -1
        }
    }

    /// `t_den` on `axis`, below `2^62`.
    fn t_den_of(&self, axis: usize) -> (r: i64)
        requires
            axis < 3,
            valid_segment(self.seg),
        ensures
            r == t_den(self.seg, axis as int),
            0 <= r < 0x4000_0000_0000_0000,
    {
        let d = axis_coord(&self.seg.end, axis) - axis_coord(&self.seg.start, axis);
        if d >= 0 {
            d
        } else {
            -d
        }
    }

    /// `t_num` on `axis` from the current voxel, of magnitude at most `2^62`.
    fn t_num_of(&self, axis: usize) -> (r: i64)
        requires
            axis < 3,
            valid_segment(self.seg),
        ensures
            r == t_num(self.seg, axis as int, component(cell(self.current), axis as int)),
            -0x4000_0000_0000_0000 <= r <= 0x4000_0000_0000_0000,
    {
        let up = self.step_of(axis) > 0;
        let c = axis_voxel(self.current, axis) as i64;
        let b: i64 = if up { c + 1 } else { c };
        let s = self.seg.scale;
        assert(-0x8000_0000 * s <= b * s <= 0x8000_0000 * s) by (nonlinear_arith)
            requires
                -0x8000_0000 <= b <= 0x8000_0000,
                1 <= s,
        ;
        assert(0x8000_0000 * s <= 0x2000_0000_0000_0000) by (nonlinear_arith)
            requires
                s <= 0x4000_0000,
        ;
        let p = axis_coord(&self.seg.start, axis);
        assert(coord_in_range(p as int, s as int));
        let d = b * s - p;
        proof {
            let sg = step(self.seg, axis as int);
            let x = boundary(self.seg, axis as int, c as int) * s - p;
            assert(x == d);
            assert(sg * x == if up { x } else { -x }) by (nonlinear_arith)
                requires
                    sg == if up { 1int } else { -1int },
            ;
        }
        if up {
            d
        } else {
            -d
        }
    }

    /// `active_den` on `axis` from the current voxel.
    fn active_den_of(&self, axis: usize) -> (r: i64)
        requires
            axis < 3,
            valid_segment(self.seg),
            cell(self.last) == last_voxel(self.seg),
        ensures
            r == active_den(self.seg, cell(self.current), axis as int),
            0 <= r < 0x4000_0000_0000_0000,
    {
        if axis_voxel(self.current, axis) == axis_voxel(self.last, axis) {
            0
        } else {
            self.t_den_of(axis)
        }
    }

    /// Whether `tMax` on axis `a` is strictly below `tMax` on axis `b`.
    fn before(&self, a: usize, b: usize) -> (r: bool)
        requires
            a < 3,
            b < 3,
            valid_segment(self.seg),
            cell(self.last) == last_voxel(self.seg),
        ensures
            r == t_before(self.seg, cell(self.current), a as int, b as int),
    {
        let da = self.active_den_of(a);
        let db = self.active_den_of(b);
        if da == 0 {
            return false;
        }
        if db == 0 {
            return true;
        }
        let na = self.t_num_of(a);
        let nb = self.t_num_of(b);
        let bound: i128 = 0x4000_0000_0000_0000;
        assert(-bound * bound <= (na as i128) * (db as i128) <= bound * bound) by (nonlinear_arith)
            requires
                -bound <= na <= bound,
                0 <= db < bound,
        ;
        assert(-bound * bound <= (nb as i128) * (da as i128) <= bound * bound) by (nonlinear_arith)
            requires
                -bound <= nb <= bound,
                0 <= da < bound,
        ;
        (na as i128) * (db as i128) < (nb as i128) * (da as i128)
    }

    /// The next visit: the voxel entered and the normal of the face crossed to
    /// enter it (zero for the first). `None` once the last voxel has been visited.
    pub fn next_visit(&mut self) -> (r: Option<(Triple, Triple)>)
        requires
            old(self).wf(),
        ensures
            final(self).wf(),
            final(self).segment() == old(self).segment(),
            visited(old(self).segment(), old(self).emitted()) ==> (r matches Some(v) && cell(v.0)
                == voxel_at(old(self).segment(), old(self).emitted()) && cell(v.1) == normal_at(
                old(self).segment(),
                old(self).emitted(),
            ) && final(self).emitted() == old(self).emitted() + 1 && final(self).remaining()
                < old(self).remaining()),
            !visited(old(self).segment(), old(self).emitted()) ==> (r is None && final(self).emitted()
                == old(self).emitted()),
    {
        let ghost seg = self.seg;
        let ghost k = self.emitted@;
        if !self.started {
            self.started = true;
            self.emitted = Ghost(1);
            return Some((self.current, (0, 0, 0)));
        }
        proof {
            assert(visited(seg, k) == (visited(seg, (k - 1) as nat) && voxel_at(seg, (k - 1) as nat)
                != last_voxel(seg)));
            assert(voxel_at(seg, k) == advance(seg, voxel_at(seg, (k - 1) as nat)));
            assert(normal_at(seg, k) == entry_normal(seg, voxel_at(seg, (k - 1) as nat)));
        }
        let cur = self.current;
        if cur.0 == self.last.0 && cur.1 == self.last.1 && cur.2 == self.last.2 {
            return None;
        }
        let axis: usize = if self.before(0, 1) {
            if self.before(2, 0) {
                2
            } else {
                0
            }
        } else if self.before(1, 2) {
            1
        } else {
            2
        };
        assert(axis as int == pick(seg, cell(cur))) by {
            reveal(pick);
        }
        let dir = self.step_of(axis);
        let c = axis_voxel(cur, axis);
        proof {
            let a = axis as int;
            lemma_pick_active(seg, cell(cur));
            lemma_step_between(seg, cell(cur), a);
            lemma_between_in_i32(seg, shifted(cell(cur), a, step(seg, a)));
            assert(component(shifted(cell(cur), a, step(seg, a)), a) == c + dir);
        }
        let moved: i32 = if dir > 0 {
            c + 1
        } else {
            c - 1
        };
        let face: i32 = if dir > 0 {
            -1
        } else {
            1
        };
        let (next, normal) = if axis == 0 {
            ((moved, cur.1, cur.2), (face, 0, 0))
        } else if axis == 1 {
            ((cur.0, moved, cur.2), (0, face, 0))
        } else {
            ((cur.0, cur.1, moved), (0, 0, face))
        };
        self.current = next;
        self.emitted = Ghost(k + 1);
        Some((next, normal))
    }
}

/// Walks the voxels that the segment from `ray_start` to `ray_end` passes
/// through (coordinates in sub-units of `1 / scale`), calling `visit` with each
/// voxel and the normal of the face through which it was entered. The walk ends
/// after the last voxel, or right after a call of `visit` that returns `true`.
/// Returns the number of calls made: `visit` is called with the first `n` visits
/// of the walk, in order, and nothing else.
pub fn voxel_traversal_fixed<F>(ray_start: FixedPoint, ray_end: FixedPoint, scale: i64, visit: F) -> (n: u64) where
    F: FnMut(Triple, Triple) -> bool,

    requires
        valid_segment(segment_of(ray_start, ray_end, scale)),
        forall|v: Triple, m: Triple| call_requires(visit, (v, m)),
    ensures
        n >= 1,
        visited(segment_of(ray_start, ray_end, scale), (n - 1) as nat),
        forall|i: nat|
            i + 1 < n ==> call_ensures(
                visit,
                #[trigger] visit_args(segment_of(ray_start, ray_end, scale), i),
                false,
            ),
        call_ensures(visit, visit_args(segment_of(ray_start, ray_end, scale), (n - 1) as nat), true)
            || call_ensures(
            visit,
            visit_args(segment_of(ray_start, ray_end, scale), (n - 1) as nat),
            false,
        ),
        visited(segment_of(ray_start, ray_end, scale), n as nat) ==> call_ensures(
            visit,
            visit_args(segment_of(ray_start, ray_end, scale), (n - 1) as nat),
            true,
        ),
        !visited(segment_of(ray_start, ray_end, scale), n as nat) ==> n == manhattan(
            first_voxel(segment_of(ray_start, ray_end, scale)),
            last_voxel(segment_of(ray_start, ray_end, scale)),
        ) + 1 && voxel_at(segment_of(ray_start, ray_end, scale), (n - 1) as nat) == last_voxel(
            segment_of(ray_start, ray_end, scale),
        ),
{
    let mut visitor = visit;
    let seg = Segment { start: ray_start, end: ray_end, scale };
    let mut walk = Traversal::new(seg);
    let mut n: u64 = 0;
    loop
        invariant
            walk.wf(),
            seg == segment_of(ray_start, ray_end, scale),
            visitor == visit,
            walk.segment() == seg,
            walk.emitted() == n,
            n > 0 ==> visited(seg, (n - 1) as nat),
            forall|v: Triple, m: Triple| call_requires(visitor, (v, m)),
            forall|i: nat|
                i < n ==> call_ensures(visit, #[trigger] visit_args(seg, i), false),
        decreases walk.remaining(),
    {
        let ghost k = n as nat;
        assert(visited(seg, 0));
        match walk.next_visit() {
            None => {
                assert(!visited(seg, k));
                proof {
                    lemma_ends_on_last(seg, k);
                }
                return n;
            },
            Some(v) => {
                proof {
                    walk.lemma_emitted_bounded();
                }
                assert(visited(seg, k));
                assert(visit_args(seg, k) == v);
                n = n + 1;
                let stop = visitor(v.0, v.1);
                assert(call_ensures(visit, (v.0, v.1), stop));
                if stop {
                    proof {
                        if !visited(seg, n as nat) {
                            lemma_ends_on_last(seg, n as nat);
                        }
                    }
                    return n;
                }
            },
        }
    }
}

} // verus!
