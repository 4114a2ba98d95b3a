//! The movement engine: tail contraction, head extension and turning at
//! cell boundaries.

use vstd::prelude::*;
use crate::error::GameError;
use crate::polyline::{in_range, polyline, rectilinear, side_aligned, total_length};
use crate::scalar::{
    abs, are_equal, close, is_half_integer, nearest_cell, quot, round, rounded, HALF_UNIT, LIMIT,
    UNIT,
};
use crate::segment::{distance, lemma_abs_product, lemma_quot_bounded, Segment};
use crate::vector::{lemma_length_at_most_sum, lemma_length_axis_aligned, Point, Vector, ZOOM};

verus! {

/// A request to turn the snake.
#[derive(Copy, Clone, Debug, PartialEq, Eq, Structural)]
pub enum Movement {
    TOP,
    RIGHT,
    DOWN,
    LEFT,
}

/// The displacement of one cell that a movement stands for.
pub open spec fn heading(movement: Movement) -> Point {
    match movement {
        Movement::TOP => Point { x: 0, y: -UNIT },
        Movement::RIGHT => Point { x: UNIT as int, y: 0 },
        Movement::DOWN => Point { x: 0, y: UNIT as int },
        Movement::LEFT => Point { x: -UNIT, y: 0 },
    }
}

/// One of the four displacements of one cell along an axis.
pub open spec fn is_direction(d: Point) -> bool {
    d == heading(Movement::TOP) || d == heading(Movement::RIGHT) || d == heading(Movement::DOWN)
        || d == heading(Movement::LEFT)
}

impl Movement {
    /// The unit vector of this movement.
    pub fn direction(&self) -> (r: Vector)
        ensures
            r@ == heading(*self),
    {
        match self {
            Movement::TOP => Vector { x: 0, y: -UNIT },
            Movement::RIGHT => Vector { x: UNIT, y: 0 },
            Movement::DOWN => Vector { x: 0, y: UNIT },
            Movement::LEFT => Vector { x: -UNIT, y: 0 },
        }
    }
}

/// Tells whether the vector is one of the four headings.
pub fn is_heading(d: &Vector) -> (r: bool)
    ensures
        r == is_direction(d@),
{
    (d.x == 0 && (d.y == UNIT || d.y == -UNIT)) || (d.y == 0 && (d.x == UNIT || d.x == -UNIT))
}

/// The point `budget` along the way from `a` to `b`: `a` moved by the
/// displacement to `b` times the budget over the distance.
pub open spec fn advanced(a: Point, b: Point, budget: int) -> Point {
    a.plus(b.minus(a).ratio(budget, distance(a, b) as int))
}

/// The body with `budget` of its length taken off at the tail: whole sides
/// shorter than what is left of the budget go, and the first side that is at
/// least as long has its start moved forward. `None` when that side has no
/// extent or no side is long enough.
pub open spec fn contracted(body: Seq<Point>, budget: int) -> Option<Seq<Point>>
    decreases body.len(),
{
    if body.len() < 2 {
        None
    } else if distance(body[0], body[1]) >= budget {
        if distance(body[0], body[1]) == 0 {
            None
        } else {
            Some(seq![advanced(body[0], body[1], budget)] + body.subrange(1, body.len() as int))
        }
    } else {
        contracted(body.subrange(1, body.len() as int), budget - distance(body[0], body[1]))
    }
}

/// A quotient of a multiple by its factor is the other factor.
pub proof fn lemma_quot_multiple(a: int, b: int)
    requires
        b > 0,
    ensures
        quot(a * b, b) == a,
        quot(b * a, b) == a,
{
    assert(a * b == b * a) by (nonlinear_arith);
    if a >= 0 {
        assert(a * b >= 0) by (nonlinear_arith)
            requires
                a >= 0,
                b > 0,
        ;
        assert((a * b) / b == a) by (nonlinear_arith)
            requires
                b > 0,
        ;
    } else {
        assert(a * b < 0) by (nonlinear_arith)
            requires
                a < 0,
                b > 0,
        ;
        assert(-(a * b) == (-a) * b) by (nonlinear_arith);
        assert(((-a) * b) / b == -a) by (nonlinear_arith)
            requires
                b > 0,
        ;
    }
}

/// Along an axis, advancing by a budget moves the one coordinate by exactly
/// that budget toward the end of the side.
pub proof fn lemma_advanced_axis(a: Point, b: Point, budget: int)
    requires
        b.minus(a).axis_aligned(),
        distance(a, b) > 0,
    ensures
        distance(a, b) == abs(b.x - a.x) + abs(b.y - a.y),
        b.x > a.x ==> b.minus(a).unit() == (Point { x: UNIT as int, y: 0 }) && advanced(
            a,
            b,
            budget,
        ) == (Point { x: a.x + budget, y: a.y }),
        b.x < a.x ==> b.minus(a).unit() == (Point { x: -UNIT, y: 0 }) && advanced(a, b, budget)
            == (Point { x: a.x - budget, y: a.y }),
        b.y > a.y ==> b.minus(a).unit() == (Point { x: 0, y: UNIT as int }) && advanced(
            a,
            b,
            budget,
        ) == (Point { x: a.x, y: a.y + budget }),
        b.y < a.y ==> b.minus(a).unit() == (Point { x: 0, y: -UNIT }) && advanced(a, b, budget)
            == (Point { x: a.x, y: a.y - budget }),
{
    let v = b.minus(a);
    let m = v.magnified();
    let z = ZOOM as int;
    assert(0 * z == 0) by (nonlinear_arith);
    assert(v.x > 0 ==> v.x * z > 0) by (nonlinear_arith)
        requires
            z > 0,
    ;
    assert(v.x < 0 ==> v.x * z < 0) by (nonlinear_arith)
        requires
            z > 0,
    ;
    assert(v.y > 0 ==> v.y * z > 0) by (nonlinear_arith)
        requires
            z > 0,
    ;
    assert(v.y < 0 ==> v.y * z < 0) by (nonlinear_arith)
        requires
            z > 0,
    ;
    lemma_length_axis_aligned(v);
    lemma_length_axis_aligned(m);
    let len = m.length() as int;
    let side = v.length() as int;
    let u = UNIT as int;
    lemma_quot_multiple(u, len);
    lemma_quot_multiple(-u, len);
    lemma_quot_multiple(budget, side);
    lemma_quot_multiple(-budget, side);
    assert(0 * u == 0 && 0 * budget == 0) by (nonlinear_arith);
    assert((-len) * u == (-u) * len) by (nonlinear_arith);
    assert((-side) * budget == (-budget) * side) by (nonlinear_arith);
    assert(quot(0, len) == 0);
    assert(quot(0, side) == 0);
}

/// Between two points in range, advancing by no more than their distance
/// stays within what an `i64` holds.
pub proof fn lemma_advanced_fits(a: Point, b: Point, budget: int)
    requires
        a.bounded(),
        b.bounded(),
        distance(a, b) > 0,
        0 <= budget <= distance(a, b),
    ensures
        distance(a, b) <= 4 * LIMIT,
        b.minus(a).fits(),
        b.minus(a).ratio(budget, distance(a, b) as int).fits(),
        advanced(a, b, budget).fits(),
{
    let v = b.minus(a);
    let len = v.length() as int;
    lemma_length_at_most_sum(v);
    lemma_abs_product(v.x, budget, abs(v.x), len);
    lemma_abs_product(v.y, budget, abs(v.y), len);
    lemma_quot_bounded(v.x * budget, len, abs(v.x));
    lemma_quot_bounded(v.y * budget, len, abs(v.y));
}

/// Takes `distance` of length off the tail of the snake and returns what
/// is left, tail tip first.
pub fn contract_tail(snake: &Vec<Vector>, distance: i64) -> (r: Option<Vec<Vector>>)
    requires
        in_range(polyline(snake@)),
        0 <= distance,
    ensures
        match contracted(polyline(snake@), distance as int) {
            Some(tail) => r is Some && polyline(r.unwrap()@) == tail,
            None => r is None,
        },
{
    let ghost body = polyline(snake@);
    let n: usize = snake.len();
    if n < 2 {
        return None;
    }
    let mut remaining: i64 = distance;
    let mut i: usize = 0;
    assert(body.subrange(0, n as int) =~= body);
    while i < n - 1
        invariant
            n == snake@.len(),
            n >= 2,
            body == polyline(snake@),
            in_range(body),
            i <= n - 1,
            0 <= remaining <= distance,
            contracted(body, distance as int) == contracted(
                body.subrange(i as int, n as int),
                remaining as int,
            ),
        decreases n - i,
    {
        let point: Vector = snake[i];
        let next: &Vector = &snake[i + 1];
        let ghost rest = body.subrange(i as int, n as int);
        proof {
            assert(rest[0] == body[i as int] && rest[1] == body[i + 1]);
            assert(body[i as int].bounded() && body[i + 1].bounded());
            lemma_length_at_most_sum(next@.minus(point@));
            assert(rest.subrange(1, rest.len() as int) =~= body.subrange(i + 1, n as int));
        }
        let segment = Segment::new(&point, next);
        let length: i64 = segment.length();
        if length >= remaining {
            if length == 0 {
                return None;
            }
            proof {
                lemma_advanced_fits(point@, next@, remaining as int);
            }
            let vector = segment.get_vector().scale_by_ratio(remaining, length);
            let mut tail: Vec<Vector> = Vec::new();
            tail.push(point.add(&vector));
            let mut j: usize = i + 1;
            while j < n
                invariant
                    n == snake@.len(),
                    body == polyline(snake@),
                    i + 1 <= j <= n,
                    polyline(tail@) =~= seq![advanced(point@, next@, remaining as int)]
                        + body.subrange(i + 1, j as int),
                decreases n - j,
            {
                let ghost before = tail@;
                tail.push(snake[j]);
                proof {
                    assert(polyline(tail@) =~= polyline(before).push(body[j as int]));
                    assert(body.subrange(i + 1, j + 1) =~= body.subrange(i + 1, j as int).push(
                        body[j as int],
                    ));
                }
                j += 1;
            }
            assert(body.subrange(i + 1, n as int) =~= rest.subrange(1, rest.len() as int));
            return Some(tail);
        }
        remaining -= length;
        i += 1;
    }
    None
}

/// The way from `prev` to `head` runs in direction `d` or has no extent.
pub open spec fn heads_along(prev: Point, head: Point, d: Point) -> bool {
    let v = head.minus(prev);
    &&& d.x == 0 ==> v.x == 0
    &&& d.y == 0 ==> v.y == 0
    &&& d.x > 0 ==> v.x >= 0
    &&& d.x < 0 ==> v.x <= 0
    &&& d.y > 0 ==> v.y >= 0
    &&& d.y < 0 ==> v.y <= 0
}

/// What the engine keeps true of a snake and its direction: at least one
/// side, every point in range, every side along an axis, and the last side
/// running in the stored direction.
pub open spec fn valid_body(body: Seq<Point>, direction: Point) -> bool {
    &&& body.len() >= 2
    &&& in_range(body)
    &&& rectilinear(body)
    &&& is_direction(direction)
    &&& heads_along(body[body.len() - 2], body[body.len() - 1], direction)
}

/// Appending a point lengthens a chain by the distance from its last point.
pub proof fn lemma_total_length_push(body: Seq<Point>, p: Point)
    requires
        body.len() >= 1,
    ensures
        total_length(body.push(p)) == total_length(body) + distance(body.last(), p),
    decreases body.len(),
{
    let longer = body.push(p);
    assert(longer.subrange(1, longer.len() as int) =~= body.subrange(1, body.len() as int).push(p));
    if body.len() == 1 {
        assert(total_length(longer.subrange(1, longer.len() as int)) == 0);
    } else {
        lemma_total_length_push(body.subrange(1, body.len() as int), p);
    }
}

/// What is left after a contraction has at least one side and the head
/// that the body had.
pub proof fn lemma_contracted_keeps_head(body: Seq<Point>, budget: int)
    requires
        contracted(body, budget) is Some,
    ensures
        contracted(body, budget).unwrap().len() >= 2,
        contracted(body, budget).unwrap().last() == body.last(),
    decreases body.len(),
{
    if distance(body[0], body[1]) < budget {
        let rest = body.subrange(1, body.len() as int);
        assert(contracted(body, budget) == contracted(rest, budget - distance(body[0], body[1])));
        lemma_contracted_keeps_head(rest, budget - distance(body[0], body[1]));
    }
}

/// Contraction keeps a snake valid, keeps its head, and shortens it by
/// exactly the budget.
pub proof fn lemma_contracted_shape(body: Seq<Point>, budget: int, direction: Point)
    requires
        valid_body(body, direction),
        budget >= 0,
        contracted(body, budget) is Some,
    ensures
        valid_body(contracted(body, budget).unwrap(), direction),
        contracted(body, budget).unwrap().last() == body.last(),
        total_length(contracted(body, budget).unwrap()) + budget == total_length(body),
    decreases body.len(),
{
    let n = body.len() as int;
    let tail = contracted(body, budget).unwrap();
    let rest = body.subrange(1, n);
    let a = body[0];
    let b = body[1];
    assert(side_aligned(body, 0));
    assert(a.bounded() && b.bounded());
    lemma_length_axis_aligned(b.minus(a));
    if distance(a, b) >= budget {
        lemma_advanced_axis(a, b, budget);
        let tip = advanced(a, b, budget);
        assert(tail == seq![tip] + rest);
        assert(tail.subrange(1, tail.len() as int) =~= rest);
        lemma_length_axis_aligned(b.minus(tip));
        assert(in_range(tail)) by {
            assert forall|i: int| 0 <= i < tail.len() implies (#[trigger] tail[i]).bounded() by {
                if i > 0 {
                    assert(tail[i] == body[i]);
                }
            }
        }
        assert(rectilinear(tail)) by {
            assert forall|i: int| 0 <= i < tail.len() - 1 implies #[trigger] side_aligned(
                tail,
                i,
            ) by {
                if i > 0 {
                    assert(side_aligned(body, i));
                }
            }
        }
    } else {
        assert(contracted(body, budget) == contracted(rest, budget - distance(a, b)));
        if rest.len() < 2 {
            assert(contracted(rest, budget - distance(a, b)) is None);
        }
        assert(in_range(rest)) by {
            assert forall|i: int| 0 <= i < rest.len() implies (#[trigger] rest[i]).bounded() by {
                assert(rest[i] == body[i + 1]);
            }
        }
        assert(rectilinear(rest)) by {
            assert forall|i: int| 0 <= i < rest.len() - 1 implies #[trigger] side_aligned(
                rest,
                i,
            ) by {
                assert(side_aligned(body, i + 1));
            }
        }
        lemma_contracted_shape(rest, budget - distance(a, b), direction);
    }
}

/// A turn is asked for that neither reverses nor repeats the direction.
pub open spec fn wants_turn(direction: Point, movement: Option<Movement>) -> bool {
    movement is Some && !direction.opposite(heading(movement.unwrap())) && !direction.close_to(
        heading(movement.unwrap()),
    )
}

/// On the way from coordinate `old` to `new` the nearest whole cell changes.
pub open spec fn crosses(old: int, new: int) -> bool {
    !close(rounded(old), rounded(new))
}

/// The cell boundary next to `old` on the side of `new`.
pub open spec fn boundary(old: int, new: int) -> int {
    if rounded(new) > rounded(old) {
        rounded(old) + HALF_UNIT
    } else {
        rounded(old) - HALF_UNIT
    }
}

/// Corner and head of a turn toward `turn`, for a head that would go
/// straight from `old_head` to `straight` over the distance `d`; `None`
/// while no cell boundary is crossed.
pub open spec fn bend(old_head: Point, straight: Point, turn: Point, d: int) -> Option<
    (Point, Point),
> {
    if crosses(old_head.x, straight.x) {
        let corner = Point { x: boundary(old_head.x, straight.x), y: old_head.y };
        Some((corner, corner.plus(turn.times(d - abs(old_head.x - corner.x)))))
    } else if crosses(old_head.y, straight.y) {
        let corner = Point { x: old_head.x, y: boundary(old_head.y, straight.y) };
        Some((corner, corner.plus(turn.times(d - abs(old_head.y - corner.y)))))
    } else {
        None
    }
}

/// A snake and its direction after one step.
pub struct Step {
    pub body: Seq<Point>,
    pub direction: Point,
}

/// One step of the movement engine over the distance `d`.
pub open spec fn step(body: Seq<Point>, direction: Point, d: int, movement: Option<Movement>)
    -> Result<Step, GameError> {
    if d < 0 || d > 2 * LIMIT {
        Err(GameError::OutOfRange)
    } else if contracted(body, d) is None {
        Err(GameError::DegenerateGeometry)
    } else {
        let tail = contracted(body, d).unwrap();
        let old_head = tail.last();
        let straight = old_head.plus(direction.times(d));
        if !straight.bounded() {
            Err(GameError::OutOfRange)
        } else if wants_turn(direction, movement) && bend(
            old_head,
            straight,
            heading(movement.unwrap()),
            d,
        ) is Some {
            let (corner, head) = bend(old_head, straight, heading(movement.unwrap()), d).unwrap();
            if !head.bounded() {
                Err(GameError::OutOfRange)
            } else {
                Ok(
                    Step {
                        body: tail.drop_last().push(corner).push(head),
                        direction: heading(movement.unwrap()),
                    },
                )
            }
        } else {
            Ok(Step { body: tail.drop_last().push(straight), direction })
        }
    }
}

/// A scalar lies within half a cell of its rounding, and roundings are
/// whole cells.
pub proof fn lemma_rounded_near(a: int)
    ensures
        rounded(a) - HALF_UNIT <= a <= rounded(a) + HALF_UNIT,
        rounded(a) == nearest_cell(a) * UNIT,
        is_half_integer(rounded(a) + HALF_UNIT),
        is_half_integer(rounded(a) - HALF_UNIT),
{
    let u = UNIT as int;
    let r = nearest_cell(a);
    assert((r * u) % u == 0 && ((r - 1) * u) % u == 0) by (nonlinear_arith)
        requires
            u > 0,
    ;
    assert((r - 1) * u == r * u - u) by (nonlinear_arith);
}

/// Rounding keeps the order of scalars.
pub proof fn lemma_rounded_monotone(a: int, b: int)
    requires
        a <= b,
    ensures
        rounded(a) <= rounded(b),
{
    let u = UNIT as int;
    assert(nearest_cell(a) <= nearest_cell(b));
    assert(nearest_cell(a) * u <= nearest_cell(b) * u) by (nonlinear_arith)
        requires
            nearest_cell(a) <= nearest_cell(b),
            u > 0,
    ;
}

/// A crossed boundary lies between the two coordinates, at a half-integer.
pub proof fn lemma_boundary_between(old: int, new: int)
    requires
        crosses(old, new),
    ensures
        is_half_integer(boundary(old, new)),
        old <= new ==> old <= boundary(old, new) <= new,
        new <= old ==> new <= boundary(old, new) <= old,
{
    let u = UNIT as int;
    lemma_rounded_near(old);
    lemma_rounded_near(new);
    if old <= new {
        lemma_rounded_monotone(old, new);
    }
    if new <= old {
        lemma_rounded_monotone(new, old);
    }
    let ro = nearest_cell(old);
    let rn = nearest_cell(new);
    assert(ro != rn);
    assert(ro < rn ==> ro * u + u <= rn * u) by (nonlinear_arith)
        requires
            u > 0,
    ;
    assert(rn < ro ==> rn * u + u <= ro * u) by (nonlinear_arith)
        requires
            u > 0,
    ;
}

/// A heading scaled by a distance is that distance along the heading's axis.
pub proof fn lemma_heading_times(direction: Point, d: int)
    requires
        is_direction(direction),
    ensures
        direction == heading(Movement::TOP) ==> direction.times(d) == (Point { x: 0, y: -d }),
        direction == heading(Movement::RIGHT) ==> direction.times(d) == (Point { x: d, y: 0 }),
        direction == heading(Movement::DOWN) ==> direction.times(d) == (Point { x: 0, y: d }),
        direction == heading(Movement::LEFT) ==> direction.times(d) == (Point { x: -d, y: 0 }),
{
    let u = UNIT as int;
    lemma_quot_multiple(d, u);
    lemma_quot_multiple(-d, u);
    assert(0 * d == 0) by (nonlinear_arith);
    assert((-u) * d == u * (-d)) by (nonlinear_arith);
    assert(quot(0, u) == 0);
}

/// A turn that is taken leads onto the other axis.
pub proof fn lemma_turn_is_perpendicular(direction: Point, movement: Option<Movement>)
    requires
        is_direction(direction),
        wants_turn(direction, movement),
    ensures
        direction.x == 0 <==> heading(movement.unwrap()).y == 0,
        direction.y == 0 <==> heading(movement.unwrap()).x == 0,
{
}

/// Chains that agree on all but their last point have sides that agree on
/// all but the last.
proof fn lemma_replaced_head(tail: Seq<Point>, longer: Seq<Point>, kept: int)
    requires
        in_range(tail),
        rectilinear(tail),
        1 <= kept < tail.len(),
        kept < longer.len(),
        forall|i: int| 0 <= i < kept ==> longer[i] == tail[i],
        forall|i: int| kept <= i < longer.len() ==> (#[trigger] longer[i]).bounded(),
        forall|i: int| kept - 1 <= i < longer.len() - 1 ==> #[trigger] side_aligned(longer, i),
    ensures
        in_range(longer),
        rectilinear(longer),
{
    assert forall|i: int| 0 <= i < longer.len() implies (#[trigger] longer[i]).bounded() by {
        if i < kept {
            assert(tail[i].bounded());
        }
    }
    assert forall|i: int| 0 <= i < longer.len() - 1 implies #[trigger] side_aligned(longer, i) by {
        if i < kept - 1 {
            assert(side_aligned(tail, i));
        }
    }
}

/// A step that succeeds keeps the snake valid and its length unchanged.
pub proof fn lemma_step_shape(
    body: Seq<Point>,
    direction: Point,
    d: int,
    movement: Option<Movement>,
)
    requires
        valid_body(body, direction),
        step(body, direction, d, movement) is Ok,
    ensures
        valid_body(
            step(body, direction, d, movement).unwrap().body,
            step(body, direction, d, movement).unwrap().direction,
        ),
        total_length(step(body, direction, d, movement).unwrap().body) == total_length(body),
{
    let s = step(body, direction, d, movement).unwrap();
    let tail = contracted(body, d).unwrap();
    lemma_contracted_shape(body, d, direction);
    let m = tail.len() as int;
    let prev = tail[m - 2];
    let old_head = tail[m - 1];
    let rest = tail.drop_last();
    assert(tail =~= rest.push(old_head));
    lemma_total_length_push(rest, old_head);
    lemma_heading_times(direction, d);
    let straight = old_head.plus(direction.times(d));
    assert(side_aligned(tail, m - 2));
    assert(prev.bounded() && old_head.bounded());
    lemma_length_axis_aligned(old_head.minus(prev));
    if wants_turn(direction, movement) && bend(
        old_head,
        straight,
        heading(movement.unwrap()),
        d,
    ) is Some {
        let turn = heading(movement.unwrap());
        lemma_turn_is_perpendicular(direction, movement);
        let (corner, head) = bend(old_head, straight, turn, d).unwrap();
        if direction.y == 0 {
            assert(straight.y == old_head.y);
            lemma_boundary_between(old_head.x, straight.x);
            lemma_heading_times(turn, d - abs(old_head.x - corner.x));
        } else {
            assert(straight.x == old_head.x);
            assert(!crosses(old_head.x, straight.x));
            lemma_boundary_between(old_head.y, straight.y);
            lemma_heading_times(turn, d - abs(old_head.y - corner.y));
        }
        let first = rest.push(corner);
        assert(s.body == first.push(head));
        lemma_total_length_push(rest, corner);
        lemma_total_length_push(first, head);
        lemma_length_axis_aligned(corner.minus(prev));
        lemma_length_axis_aligned(head.minus(corner));
        assert(corner.bounded());
        assert(side_aligned(s.body, m - 2));
        assert(side_aligned(s.body, m - 1));
        lemma_replaced_head(tail, s.body, m - 1);
    } else {
        assert(s.body == rest.push(straight));
        lemma_total_length_push(rest, straight);
        lemma_length_axis_aligned(straight.minus(prev));
        assert(side_aligned(s.body, m - 2));
        lemma_replaced_head(tail, s.body, m - 1);
    }
}

/// A budget that is positive and no more than the length of the body can
/// be taken off its tail.
pub proof fn lemma_contraction_succeeds(body: Seq<Point>, budget: int)
    requires
        0 < budget <= total_length(body),
    ensures
        contracted(body, budget) is Some,
    decreases body.len(),
{
    if body.len() >= 2 && distance(body[0], body[1]) < budget {
        lemma_contraction_succeeds(
            body.subrange(1, body.len() as int),
            budget - distance(body[0], body[1]),
        );
    }
}

/// A step succeeds when its distance is positive and no more than the
/// length of the snake, and the head is at least that distance inside the
/// coordinate range.
pub proof fn lemma_step_succeeds(
    body: Seq<Point>,
    direction: Point,
    d: int,
    movement: Option<Movement>,
)
    requires
        valid_body(body, direction),
        0 < d <= total_length(body),
        -LIMIT + d <= body.last().x <= LIMIT - d,
        -LIMIT + d <= body.last().y <= LIMIT - d,
    ensures
        step(body, direction, d, movement) is Ok,
{
    lemma_contraction_succeeds(body, d);
    lemma_contracted_keeps_head(body, d);
    let old_head = body.last();
    lemma_heading_times(direction, d);
    let straight = old_head.plus(direction.times(d));
    if wants_turn(direction, movement) && bend(
        old_head,
        straight,
        heading(movement.unwrap()),
        d,
    ) is Some {
        let turn = heading(movement.unwrap());
        lemma_turn_is_perpendicular(direction, movement);
        let (corner, head) = bend(old_head, straight, turn, d).unwrap();
        if direction.y == 0 {
            lemma_boundary_between(old_head.x, straight.x);
            lemma_heading_times(turn, d - abs(old_head.x - corner.x));
        } else {
            assert(!crosses(old_head.x, straight.x));
            lemma_boundary_between(old_head.y, straight.y);
            lemma_heading_times(turn, d - abs(old_head.y - corner.y));
        }
    }
}

/// A step that keeps the direction carries the head over the distance of
/// the step along that direction.
pub proof fn lemma_step_moves_head(
    body: Seq<Point>,
    direction: Point,
    d: int,
    movement: Option<Movement>,
)
    requires
        is_direction(direction),
        step(body, direction, d, movement) is Ok,
        step(body, direction, d, movement).unwrap().direction == direction,
    ensures
        step(body, direction, d, movement).unwrap().body.last() == body.last().plus(
            direction.times(d),
        ),
{
    lemma_contracted_keeps_head(body, d);
    if wants_turn(direction, movement) {
        lemma_turn_is_perpendicular(direction, movement);
    }
}

/// A request to reverse is dropped: the step is the one without a request,
/// and the direction stays as it is.
pub proof fn lemma_reverse_is_ignored(
    body: Seq<Point>,
    direction: Point,
    d: int,
    movement: Movement,
)
    requires
        direction.opposite(heading(movement)),
    ensures
        step(body, direction, d, Some(movement)) == step(body, direction, d, None),
        step(body, direction, d, Some(movement)) is Ok ==> step(
            body,
            direction,
            d,
            Some(movement),
        ).unwrap().direction == direction,
{
}

/// Every heading is opposite to its negation.
pub proof fn lemma_negation_is_opposite(direction: Point)
    ensures
        direction.opposite(Point { x: -direction.x, y: -direction.y }),
{
}

/// A step that keeps the direction only moves the head of the contracted
/// snake. A step that changes the direction puts one more point in front of
/// the new head, a corner. The corner lies where the head was, but for the
/// axis along which the snake was moving: there it lies on the cell boundary
/// next to the old head on the side of the move, at a half-integer
/// coordinate.
pub proof fn lemma_turn_at_boundary(
    body: Seq<Point>,
    direction: Point,
    d: int,
    movement: Option<Movement>,
)
    requires
        valid_body(body, direction),
        step(body, direction, d, movement) is Ok,
    ensures
        ({
            let after = step(body, direction, d, movement).unwrap();
            let tail = contracted(body, d).unwrap();
            let corner = after.body[after.body.len() - 2];
            let old_head = body.last();
            let straight = old_head.plus(direction.times(d));
            &&& after.direction == direction ==> after.body.len() == tail.len()
            &&& after.direction != direction ==> {
                &&& after.body.len() == tail.len() + 1
                &&& direction.y == 0 ==> {
                    &&& corner.y == old_head.y
                    &&& corner.x == boundary(old_head.x, straight.x)
                    &&& is_half_integer(corner.x)
                }
                &&& direction.x == 0 ==> {
                    &&& corner.x == old_head.x
                    &&& corner.y == boundary(old_head.y, straight.y)
                    &&& is_half_integer(corner.y)
                }
            }
        }),
{
    let s = step(body, direction, d, movement).unwrap();
    let tail = contracted(body, d).unwrap();
    lemma_contracted_shape(body, d, direction);
    let old_head = tail.last();
    lemma_heading_times(direction, d);
    let straight = old_head.plus(direction.times(d));
    if s.direction != direction {
        lemma_turn_is_perpendicular(direction, movement);
        if direction.y == 0 {
            lemma_boundary_between(old_head.x, straight.x);
        } else {
            assert(!crosses(old_head.x, straight.x));
            lemma_boundary_between(old_head.y, straight.y);
        }
    } else if wants_turn(direction, movement) {
        lemma_turn_is_perpendicular(direction, movement);
    }
}

/// Finds the corner and the head of a turn toward `new_direction`, for a
/// head that would go straight from `old_head` to `new_head`: the corner
/// lies on the first cell boundary on the way, and the head goes on from
/// there in the new direction for what is left of `distance`.
pub fn turn_at_boundary(
    old_head: &Vector,
    new_head: &Vector,
    new_direction: &Vector,
    distance: i64,
) -> (r: Option<(Vector, Vector)>)
    requires
        old_head@.bounded(),
        new_head@.bounded(),
        is_direction(new_direction@),
        0 <= distance <= 2 * LIMIT,
    ensures
        match bend(old_head@, new_head@, new_direction@, distance as int) {
            Some((corner, head)) => r is Some && r.unwrap().0@ == corner && r.unwrap().1@ == head,
            None => r is None,
        },
{
    let old_x: i64 = old_head.x;
    let old_y: i64 = old_head.y;
    let old_x_rounded: i64 = round(old_x);
    let old_y_rounded: i64 = round(old_y);
    let new_x_rounded: i64 = round(new_head.x);
    let new_y_rounded: i64 = round(new_head.y);
    let rounded_x_changed: bool = !are_equal(old_x_rounded, new_x_rounded);
    let rounded_y_changed: bool = !are_equal(old_y_rounded, new_y_rounded);
    if rounded_x_changed || rounded_y_changed {
        let (old, old_rounded, new_rounded): (i64, i64, i64) = if rounded_x_changed {
            (old_x, old_x_rounded, new_x_rounded)
        } else {
            (old_y, old_y_rounded, new_y_rounded)
        };
        proof {
            lemma_rounded_near(old as int);
        }
        let breakpoint_component: i64 = old_rounded + (if new_rounded > old_rounded {
            HALF_UNIT
        } else {
            -HALF_UNIT
        });
        let breakpoint: Vector = if rounded_x_changed {
            Vector::new(breakpoint_component, old_y)
        } else {
            Vector::new(old_x, breakpoint_component)
        };
        let gap: i64 = if old >= breakpoint_component {
            old - breakpoint_component
        } else {
            breakpoint_component - old
        };
        proof {
            lemma_heading_times(new_direction@, distance - gap);
        }
        let vector: Vector = new_direction.scale_by(distance - gap);
        let head: Vector = breakpoint.add(&vector);
        Some((breakpoint, head))
    } else {
        None
    }
}

/// Moves a snake one step over `distance`: contracts the tail, extends the
/// head along `direction`, and turns at the cell boundary where `movement`
/// asks for a turn and the head crosses one. Returns the new snake and its
/// direction.
pub fn advance(
    snake: &Vec<Vector>,
    direction: &Vector,
    distance: i64,
    movement: Option<Movement>,
) -> (r: Result<(Vec<Vector>, Vector), GameError>)
    requires
        in_range(polyline(snake@)),
        is_direction(direction@),
    ensures
        match step(polyline(snake@), direction@, distance as int, movement) {
            Ok(s) => r is Ok && polyline(r.unwrap().0@) == s.body && r.unwrap().1@ == s.direction,
            Err(e) => r is Err && r->Err_0 == e,
        },
{
    let ghost body = polyline(snake@);
    if distance < 0 || distance > 2 * LIMIT {
        return Err(GameError::OutOfRange);
    }
    let mut tail: Vec<Vector> = match contract_tail(snake, distance) {
        Some(t) => t,
        None => {
            return Err(GameError::DegenerateGeometry);
        },
    };
    let ghost shorter = polyline(tail@);
    proof {
        lemma_contracted_keeps_head(body, distance as int);
        lemma_heading_times(direction@, distance as int);
        assert(body[body.len() - 1].bounded());
    }
    let old_head: Vector = tail.pop().unwrap();
    assert(polyline(tail@) =~= shorter.drop_last());
    assert(old_head@ == shorter.last());
    let new_head: Vector = old_head.add(&direction.scale_by(distance));
    if !new_head.is_bounded() {
        return Err(GameError::OutOfRange);
    }
    match movement {
        Some(m) => {
            let new_direction: Vector = m.direction();
            if !direction.is_opposite(&new_direction) && !direction.equal_to(&new_direction) {
                match turn_at_boundary(&old_head, &new_head, &new_direction, distance) {
                    Some((breakpoint, head)) => {
                        if !head.is_bounded() {
                            return Err(GameError::OutOfRange);
                        }
                        tail.push(breakpoint);
                        tail.push(head);
                        assert(polyline(tail@) =~= shorter.drop_last().push(breakpoint@).push(
                            head@,
                        ));
                        return Ok((tail, new_direction));
                    },
                    None => {},
                }
            }
        },
        None => {},
    }
    tail.push(new_head);
    assert(polyline(tail@) =~= shorter.drop_last().push(new_head@));
    Ok((tail, *direction))
}

} // verus!
