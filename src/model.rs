//! The mathematical model of a traversal: which voxels a segment enters, in which
//! order, and through which face.
//!
//! Coordinates are exact: a point holds integer numerators over a shared positive
//! `scale`, so every boundary distance `tMax` is a ratio of integers and every
//! comparison between two of them is a comparison of cross products.
use vstd::prelude::*;

verus! {

/// Largest accepted number of sub-units per grid unit.
pub const MAX_SCALE: i64 = 0x4000_0000;

/// Voxel coordinates lie in `[-VOXEL_LIMIT, VOXEL_LIMIT)`, the range of `i32`.
pub const VOXEL_LIMIT: i64 = 0x8000_0000;

/// A point in continuous space; each coordinate counts sub-units of `1 / scale`.
#[derive(Clone, Copy, Debug, PartialEq, Eq, Structural)]
pub struct FixedPoint {
    pub x: i64,
    pub y: i64,
    pub z: i64,
}

/// A segment from `start` to `end`, both measured in sub-units of `1 / scale`.
#[derive(Clone, Copy, Debug, PartialEq, Eq, Structural)]
pub struct Segment {
    pub start: FixedPoint,
    pub end: FixedPoint,
    pub scale: i64,
}

pub open spec fn segment_of(start: FixedPoint, end: FixedPoint, scale: i64) -> Segment {
    Segment { start, end, scale }
}

/// Integer triple as handed to a visitor: a voxel or a face normal.
pub type Triple = (i32, i32, i32);

/// A voxel or a normal in the model.
pub type Cell = (int, int, int);

pub open spec fn coord(p: FixedPoint, axis: int) -> int {
    if axis == 0 {
        p.x as int
    } else if axis == 1 {
        p.y as int
    } else {
        p.z as int
    }
}

pub open spec fn component(c: Cell, axis: int) -> int {
    if axis == 0 {
        c.0
    } else if axis == 1 {
        c.1
    } else {
        c.2
    }
}

/// `c` with `d` added to its component on `axis`.
pub open spec fn shifted(c: Cell, axis: int, d: int) -> Cell {
    if axis == 0 {
        (c.0 + d, c.1, c.2)
    } else if axis == 1 {
        (c.0, c.1 + d, c.2)
    } else {
        (c.0, c.1, c.2 + d)
    }
}

pub open spec fn cell(t: Triple) -> Cell {
    (t.0 as int, t.1 as int, t.2 as int)
}

pub open spec fn triple(c: Cell) -> Triple {
    (c.0 as i32, c.1 as i32, c.2 as i32)
}

pub open spec fn in_i32(c: Cell) -> bool {
    &&& i32::MIN <= c.0 <= i32::MAX
    &&& i32::MIN <= c.1 <= i32::MAX
    &&& i32::MIN <= c.2 <= i32::MAX
}

pub open spec fn coord_in_range(c: int, scale: int) -> bool {
    -VOXEL_LIMIT * scale <= c < VOXEL_LIMIT * scale
}

pub open spec fn point_in_range(p: FixedPoint, scale: int) -> bool {
    &&& coord_in_range(p.x as int, scale)
    &&& coord_in_range(p.y as int, scale)
    &&& coord_in_range(p.z as int, scale)
}

/// The scale is positive and bounded, and both ends lie in voxels with `i32`
/// coordinates.
pub open spec fn valid_segment(seg: Segment) -> bool {
    &&& 1 <= seg.scale <= MAX_SCALE
    &&& point_in_range(seg.start, seg.scale as int)
    &&& point_in_range(seg.end, seg.scale as int)
}

/// The voxel holding `p`: the floor of each coordinate.
pub open spec fn voxel_of(p: FixedPoint, scale: int) -> Cell {
    (p.x as int / scale, p.y as int / scale, p.z as int / scale)
}

pub open spec fn first_voxel(seg: Segment) -> Cell {
    voxel_of(seg.start, seg.scale as int)
}

pub open spec fn last_voxel(seg: Segment) -> Cell {
    voxel_of(seg.end, seg.scale as int)
}

/// Component of `end - start` on `axis`, in sub-units.
pub open spec fn ray(seg: Segment, axis: int) -> int {
    coord(seg.end, axis) - coord(seg.start, axis)
}

/// Direction of travel on `axis`: `+1` where the ray does not decrease, else `-1`.
pub open spec fn step(seg: Segment, axis: int) -> int {
    if ray(seg, axis) >= 0 {
        1
    } else {
        -1
    }
}

/// The grid plane ahead of travel on `axis`, seen from voxel coordinate `c`.
pub open spec fn boundary(seg: Segment, axis: int, c: int) -> int {
    if step(seg, axis) > 0 {
        c + 1
    } else {
        c
    }
}

/// Numerator of `tMax` on `axis` from voxel coordinate `c`: the parameter at which
/// the ray meets the next plane is `t_num / t_den`.
pub open spec fn t_num(seg: Segment, axis: int, c: int) -> int {
    step(seg, axis) * (boundary(seg, axis, c) * seg.scale - coord(seg.start, axis))
}

/// Denominator of `tMax` on `axis`: `|ray|`; zero means that the ray never meets
/// a plane of this axis (`tMax` is infinite).
pub open spec fn t_den(seg: Segment, axis: int) -> int {
    step(seg, axis) * ray(seg, axis)
}

/// `t_den` on `axis` from voxel `cur`, or zero (an infinite `tMax`) where `cur`
/// already has the last voxel's coordinate on `axis`: such an axis is never
/// stepped again.
pub open spec fn active_den(seg: Segment, cur: Cell, axis: int) -> int {
    if component(cur, axis) == component(last_voxel(seg), axis) {
        0
    } else {
        t_den(seg, axis)
    }
}

/// Whether `tMax` on axis `a` is strictly below `tMax` on axis `b`, from voxel `cur`.
pub open spec fn t_before(seg: Segment, cur: Cell, a: int, b: int) -> bool {
    &&& active_den(seg, cur, a) != 0
    &&& (active_den(seg, cur, b) == 0 || t_num(seg, a, component(cur, a)) * active_den(seg, cur, b)
        < t_num(seg, b, component(cur, b)) * active_den(seg, cur, a))
}

/// The axis advanced from voxel `cur`: among the axes still short of the last
/// voxel, the one with the smallest `tMax`. On equal values x wins over z, y over
/// x, and z over y; on three equal values z wins.
#[verifier::opaque]
pub open spec fn pick(seg: Segment, cur: Cell) -> int {
    if t_before(seg, cur, 0, 1) {
        if t_before(seg, cur, 2, 0) {
            2
        } else {
            0
        }
    } else if t_before(seg, cur, 1, 2) {
        1
    } else {
        2
    }
}

/// The voxel entered after `cur`.
pub open spec fn advance(seg: Segment, cur: Cell) -> Cell {
    shifted(cur, pick(seg, cur), step(seg, pick(seg, cur)))
}

/// The normal of the face crossed when leaving `cur`.
pub open spec fn entry_normal(seg: Segment, cur: Cell) -> Cell {
    shifted((0, 0, 0), pick(seg, cur), -step(seg, pick(seg, cur)))
}

/// The voxel of the `k`-th visit (counting from zero) of an unbounded walk.
pub open spec fn voxel_at(seg: Segment, k: nat) -> Cell
    decreases k,
{
    if k == 0 {
        first_voxel(seg)
    } else {
        advance(seg, voxel_at(seg, (k - 1) as nat))
    }
}

/// The normal reported with the `k`-th visit.
pub open spec fn normal_at(seg: Segment, k: nat) -> Cell {
    if k == 0 {
        (0, 0, 0)
    } else {
        entry_normal(seg, voxel_at(seg, (k - 1) as nat))
    }
}

/// The arguments handed to a visitor at the `k`-th visit.
pub open spec fn visit_args(seg: Segment, k: nat) -> (Triple, Triple) {
    (triple(voxel_at(seg, k)), triple(normal_at(seg, k)))
}

/// Whether the `k`-th visit takes place: no earlier visit reached the last voxel.
pub open spec fn visited(seg: Segment, k: nat) -> bool
    decreases k,
{
    if k == 0 {
        true
    } else {
        &&& visited(seg, (k - 1) as nat)
        &&& voxel_at(seg, (k - 1) as nat) != last_voxel(seg)
    }
}

/// The walk makes exactly `n` visits.
pub open spec fn visit_count_is(seg: Segment, n: nat) -> bool {
    &&& n >= 1
    &&& visited(seg, (n - 1) as nat)
    &&& !visited(seg, n)
}

pub open spec fn abs(v: int) -> int {
    if v >= 0 {
        v
    } else {
        -v
    }
}

pub open spec fn manhattan(a: Cell, b: Cell) -> int {
    abs(b.0 - a.0) + abs(b.1 - a.1) + abs(b.2 - a.2)
}

/// On each axis the voxel lies between the first and the last voxel.
pub open spec fn between(seg: Segment, c: Cell) -> bool {
    forall|a: int|
        0 <= a < 3 ==> if step(seg, a) > 0 {
            component(first_voxel(seg), a) <= #[trigger] component(c, a) <= component(
                last_voxel(seg),
                a,
            )
        } else {
            component(last_voxel(seg), a) <= component(c, a) <= component(first_voxel(seg), a)
        }
}

} // verus!
