//! Polylines: the snake's body as a chain of straight sides.

use vstd::prelude::*;
use vstd::slice::slice_index_get;
use crate::segment::{distance, near, on_segment, Segment};
use crate::vector::{Point, Vector};

verus! {

/// The mathematical points of a stored chain of vectors.
pub open spec fn polyline(points: Seq<Vector>) -> Seq<Point> {
    points.map_values(|v: Vector| v@)
}

/// Every point of the chain lies within the engine's coordinate range.
pub open spec fn in_range(body: Seq<Point>) -> bool {
    forall|i: int| 0 <= i < body.len() ==> (#[trigger] body[i]).bounded()
}

/// Side `i` of the chain runs along one of the two axes.
pub open spec fn side_aligned(body: Seq<Point>, i: int) -> bool {
    body[i + 1].minus(body[i]).axis_aligned()
}

/// Every side of the chain runs along one of the two axes.
pub open spec fn rectilinear(body: Seq<Point>) -> bool {
    forall|i: int| 0 <= i < body.len() - 1 ==> #[trigger] side_aligned(body, i)
}

/// Sum of the lengths of all sides of the chain.
pub open spec fn total_length(body: Seq<Point>) -> nat
    decreases body.len(),
{
    if body.len() < 2 {
        0
    } else {
        distance(body[0], body[1]) + total_length(body.subrange(1, body.len() as int))
    }
}

/// Side `i` of the chain passes through `p`.
pub open spec fn side_covers(body: Seq<Point>, i: int, p: Point) -> bool {
    on_segment(body[i], body[i + 1], p)
}

/// Some side of the chain passes through `p`.
pub open spec fn covered(body: Seq<Point>, p: Point) -> bool {
    exists|i: int| 0 <= i < body.len() - 1 && #[trigger] side_covers(body, i, p)
}

/// Pairs each point of the chain with its successor.
pub fn get_segments_from_vectors<'a>(vectors: &'a [Vector]) -> (r: Vec<Segment<'a>>)
    requires
        vectors@.len() >= 1,
    ensures
        r@.len() == vectors@.len() - 1,
        forall|i: int|
            0 <= i < r@.len() ==> *(#[trigger] r@[i]).start == vectors@[i] && *r@[i].end
                == vectors@[i + 1],
{
    let mut segments: Vec<Segment<'a>> = Vec::new();
    let n: usize = vectors.len();
    let mut i: usize = 0;
    while i + 1 < n
        invariant
            n == vectors@.len(),
            i + 1 <= n,
            segments@.len() == i,
            forall|k: int|
                0 <= k < i ==> *(#[trigger] segments@[k]).start == vectors@[k]
                    && *segments@[k].end == vectors@[k + 1],
        decreases vectors@.len() - i,
    {
        segments.push(Segment::new(slice_index_get(vectors, i), slice_index_get(vectors, i + 1)));
        i += 1;
    }
    segments
}

/// Tells whether any of the segments passes through the point.
pub fn any_segment_contains(segments: &Vec<Segment>, point: &Vector) -> (r: bool)
    requires
        forall|i: int|
            0 <= i < segments@.len() ==> near((#[trigger] segments@[i]).start@, segments@[i].end@)
                && near(segments@[i].start@, point@) && near(point@, segments@[i].end@),
    ensures
        r == exists|i: int|
            0 <= i < segments@.len() && on_segment(
                (#[trigger] segments@[i]).start@,
                segments@[i].end@,
                point@,
            ),
{
    let mut i: usize = 0;
    while i < segments.len()
        invariant
            i <= segments@.len(),
            forall|k: int|
                0 <= k < segments@.len() ==> near(
                    (#[trigger] segments@[k]).start@,
                    segments@[k].end@,
                ) && near(segments@[k].start@, point@) && near(point@, segments@[k].end@),
            forall|k: int|
                0 <= k < i ==> !on_segment(
                    (#[trigger] segments@[k]).start@,
                    segments@[k].end@,
                    point@,
                ),
        decreases segments@.len() - i,
    {
        if segments[i].is_point_inside(point) {
            return true;
        }
        i += 1;
    }
    false
}

} // verus!
