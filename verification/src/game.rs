//! The game: a snake on a board, its food and its score.

use vstd::prelude::*;
use vstd::slice::slice_subrange;
use crate::error::GameError;
use crate::food::{free_cells, get_food, is_free_cell, lemma_free_cells};
use crate::movement::{
    advance, heading, is_direction, is_heading, lemma_advanced_axis, lemma_heading_times,
    lemma_reverse_is_ignored, lemma_step_moves_head, lemma_step_shape, lemma_step_succeeds,
    step, valid_body, Movement,
};
use crate::polyline::{
    get_segments_from_vectors, in_range, polyline, rectilinear, side_aligned, total_length,
};
use crate::scalar::{round, rounded, scaled, HALF_UNIT, LIMIT, UNIT};
use crate::segment::{
    degenerate, distance, lemma_projection_bounded, on_segment, projection, Segment,
};
use crate::vector::{
    lemma_length_at_most_sum, lemma_length_axis_aligned, lemma_product_fits, Point, Vector,
};

verus! {

/// The coordinate at which a snake starts on an axis with `cells` cells: the
/// center of the middle cell.
pub open spec fn spawn(cells: int) -> int {
    rounded(cells * HALF_UNIT) - HALF_UNIT
}

/// The snake that a new game starts with: from the tail tip straight to the
/// head in the middle of the board.
pub open spec fn initial_body(width: int, height: int, snake_length: int, direction: Point)
    -> Result<Seq<Point>, GameError> {
    let head = Point { x: spawn(width), y: spawn(height) };
    let tailtip = head.minus(direction.times(snake_length * UNIT));
    if !is_direction(direction) || snake_length < 0 {
        Err(GameError::InvalidParameters)
    } else if width * UNIT > LIMIT || height * UNIT > LIMIT || !head.bounded()
        || !tailtip.bounded() {
        Err(GameError::OutOfRange)
    } else {
        Ok(seq![tailtip, head])
    }
}

/// How close the head may come to an old side of the body: half a cell,
/// the thickness of the body.
pub const STRIKE_DISTANCE: i64 = 50_000_000;

/// The number of sides next to the head that the head cannot strike.
pub const HEAD_SIDES: usize = 3;

/// The point lies off the board.
pub open spec fn outside(head: Point, width: int, height: int) -> bool {
    head.x < 0 || head.x > width * UNIT || head.y < 0 || head.y > height * UNIT
}

/// The head comes too close to the side from `a` to `b`: its foot on the
/// side's line lies on the side, less than `STRIKE_DISTANCE` away. A side
/// without extent is never struck.
pub open spec fn strikes(a: Point, b: Point, head: Point) -> bool {
    !degenerate(a, b) && on_segment(a, b, projection(a, b, head)) && distance(
        head,
        projection(a, b, head),
    ) < STRIKE_DISTANCE
}

/// The head of the chain strikes its side `i`.
pub open spec fn side_struck(body: Seq<Point>, i: int) -> bool {
    strikes(body[i], body[i + 1], body.last())
}

/// The head strikes a side of the body other than the `HEAD_SIDES` nearest
/// to it; a body with no more than one side beyond those cannot.
pub open spec fn bites_itself(body: Seq<Point>) -> bool {
    body.len() >= HEAD_SIDES + 2 && exists|i: int|
        0 <= i < body.len() - HEAD_SIDES - 1 && #[trigger] side_struck(body, i)
}

/// The game has ended: the head left the board or struck the body.
pub open spec fn game_over(body: Seq<Point>, width: int, height: int) -> bool {
    outside(body.last(), width, height) || bites_itself(body)
}

/// The head's side of the body passes through the food.
pub open spec fn fed(body: Seq<Point>, food: Point) -> bool {
    on_segment(body[body.len() - 2], body[body.len() - 1], food)
}

/// The body with its tail tip pushed back by one cell along the tail's own
/// direction.
pub open spec fn grown(body: Seq<Point>) -> Result<Seq<Point>, GameError> {
    let tip = body[0].plus(body[0].minus(body[1]).unit());
    if distance(body[1], body[0]) == 0 {
        Err(GameError::DegenerateGeometry)
    } else if !tip.bounded() {
        Err(GameError::OutOfRange)
    } else {
        Ok(body.update(0, tip))
    }
}

/// What the food does to a snake that has just moved: nothing while the
/// head's side misses it (`None`); else the snake grows, provided its tail
/// has a direction, the grown tail and the score stay in range and the board
/// has a free cell left for the next food.
pub open spec fn meal(body: Seq<Point>, food: Point, score: int, width: int, height: int)
    -> Result<Option<Seq<Point>>, GameError> {
    if !fed(body, food) {
        Ok(None)
    } else {
        match grown(body) {
            Err(e) => Err(e),
            Ok(longer) => if score >= i32::MAX {
                Err(GameError::OutOfRange)
            } else if free_cells(width, height, longer).len() == 0 {
                Err(GameError::NoFreeCell)
            } else {
                Ok(Some(longer))
            },
        }
    }
}

/// What one tick makes of a game, food position aside.
pub struct Tick {
    pub body: Seq<Point>,
    pub direction: Point,
    pub fed: bool,
    pub error: Option<GameError>,
}

/// The result of a tick reports exactly the given error, or success where
/// there is none.
pub open spec fn reports(r: Result<(), GameError>, error: Option<GameError>) -> bool {
    match r {
        Ok(_) => error is None,
        Err(e) => error == Some(e),
    }
}

/// One tick over the distance `d`: the movement engine, then the food. A
/// tick that fails leaves the snake and its direction as they were.
pub open spec fn tick(
    body: Seq<Point>,
    direction: Point,
    food: Point,
    score: int,
    width: int,
    height: int,
    d: int,
    movement: Option<Movement>,
) -> Tick {
    match step(body, direction, d, movement) {
        Err(e) => Tick { body, direction, fed: false, error: Some(e) },
        Ok(s) => match meal(s.body, food, score, width, height) {
            Err(e) => Tick { body, direction, fed: false, error: Some(e) },
            Ok(None) => Tick { body: s.body, direction: s.direction, fed: false, error: None },
            Ok(Some(longer)) => Tick {
                body: longer,
                direction: s.direction,
                fed: true,
                error: None,
            },
        },
    }
}

/// Growing keeps a snake valid and adds exactly one cell to its length.
pub proof fn lemma_grown_shape(body: Seq<Point>, direction: Point)
    requires
        valid_body(body, direction),
        grown(body) is Ok,
    ensures
        valid_body(grown(body).unwrap(), direction),
        total_length(grown(body).unwrap()) == total_length(body) + UNIT,
{
    let longer = grown(body).unwrap();
    let a = body[0];
    let b = body[1];
    let tip = longer[0];
    assert(side_aligned(body, 0));
    assert(a.bounded() && b.bounded());
    lemma_length_axis_aligned(a.minus(b));
    lemma_advanced_axis(b, a, 0);
    lemma_length_axis_aligned(b.minus(tip));
    lemma_length_axis_aligned(b.minus(a));
    assert(longer.subrange(1, longer.len() as int) =~= body.subrange(1, body.len() as int));
    assert(in_range(longer)) by {
        assert forall|i: int| 0 <= i < longer.len() implies (#[trigger] longer[i]).bounded() by {
            if i > 0 {
                assert(body[i].bounded());
            }
        }
    }
    assert(rectilinear(longer)) by {
        assert forall|i: int| 0 <= i < longer.len() - 1 implies #[trigger] side_aligned(
            longer,
            i,
        ) by {
            if i > 0 {
                assert(side_aligned(body, i));
            }
        }
    }
}

/// A snake whose head's side passes through the food grows when its tail
/// side has extent, its tail tip is at least one cell inside the coordinate
/// range, the score can still rise, and the grown snake leaves a cell free.
pub proof fn lemma_meal_succeeds(
    body: Seq<Point>,
    direction: Point,
    food: Point,
    score: int,
    width: int,
    height: int,
)
    requires
        valid_body(body, direction),
        fed(body, food),
        distance(body[1], body[0]) > 0,
        -LIMIT + UNIT <= body[0].x <= LIMIT - UNIT,
        -LIMIT + UNIT <= body[0].y <= LIMIT - UNIT,
        score < i32::MAX,
        free_cells(width, height, grown(body).unwrap()).len() > 0,
    ensures
        grown(body) is Ok,
        meal(body, food, score, width, height) == Ok::<Option<Seq<Point>>, GameError>(
            Some(grown(body).unwrap()),
        ),
{
    assert(side_aligned(body, 0));
    lemma_advanced_axis(body[1], body[0], 0);
}

/// Across a tick the snake stays valid; its length stays the same when no
/// food is eaten and grows by exactly one cell when food is.
pub proof fn lemma_tick_length(
    body: Seq<Point>,
    direction: Point,
    food: Point,
    score: int,
    width: int,
    height: int,
    d: int,
    movement: Option<Movement>,
)
    requires
        valid_body(body, direction),
    ensures
        ({
            let t = tick(body, direction, food, score, width, height, d, movement);
            &&& valid_body(t.body, t.direction)
            &&& !t.fed ==> total_length(t.body) == total_length(body)
            &&& t.fed ==> total_length(t.body) == total_length(body) + UNIT
        }),
{
    if step(body, direction, d, movement) is Ok {
        lemma_step_shape(body, direction, d, movement);
        let s = step(body, direction, d, movement).unwrap();
        if fed(s.body, food) && grown(s.body) is Ok {
            lemma_grown_shape(s.body, s.direction);
        }
    }
}

/// A tick that succeeds and keeps the direction carries the head over the
/// distance of the tick along that direction; where that leads off the
/// board, the game is over.
pub proof fn lemma_tick_moves_head(
    body: Seq<Point>,
    direction: Point,
    food: Point,
    score: int,
    width: int,
    height: int,
    d: int,
    movement: Option<Movement>,
)
    requires
        valid_body(body, direction),
        tick(body, direction, food, score, width, height, d, movement).error is None,
        tick(body, direction, food, score, width, height, d, movement).direction == direction,
    ensures
        ({
            let t = tick(body, direction, food, score, width, height, d, movement);
            let head = body.last().plus(direction.times(d));
            &&& t.body.last() == head
            &&& outside(head, width, height) ==> game_over(t.body, width, height)
        }),
{
    lemma_step_shape(body, direction, d, movement);
    lemma_step_moves_head(body, direction, d, movement);
}

/// A tick succeeds when its distance is positive and no more than the
/// length of the snake, the head is at least that distance inside the
/// coordinate range, and the head's new side misses the food.
pub proof fn lemma_tick_succeeds(
    body: Seq<Point>,
    direction: Point,
    food: Point,
    score: int,
    width: int,
    height: int,
    d: int,
    movement: Option<Movement>,
)
    requires
        valid_body(body, direction),
        0 < d <= total_length(body),
        -LIMIT + d <= body.last().x <= LIMIT - d,
        -LIMIT + d <= body.last().y <= LIMIT - d,
        !fed(step(body, direction, d, movement).unwrap().body, food),
    ensures
        tick(body, direction, food, score, width, height, d, movement).error is None,
        !tick(body, direction, food, score, width, height, d, movement).fed,
{
    lemma_step_succeeds(body, direction, d, movement);
}

/// A tick with a request to reverse is the tick without a request: the
/// direction stays as it is.
pub proof fn lemma_tick_ignores_reverse(
    body: Seq<Point>,
    direction: Point,
    food: Point,
    score: int,
    width: int,
    height: int,
    d: int,
    movement: Movement,
)
    requires
        direction.opposite(heading(movement)),
    ensures
        tick(body, direction, food, score, width, height, d, Some(movement)) == tick(
            body,
            direction,
            food,
            score,
            width,
            height,
            d,
            None,
        ),
        tick(body, direction, food, score, width, height, d, Some(movement)).direction
            == direction,
{
    lemma_reverse_is_ignored(body, direction, d, movement);
}

/// After a tick in which food is eaten, the new food lies on the center of
/// a cell of the board that the snake, as the tick leaves it, does not pass
/// through, wherever among the free cells it was put.
pub proof fn lemma_food_is_free(
    body: Seq<Point>,
    direction: Point,
    food: Point,
    score: int,
    width: int,
    height: int,
    d: int,
    movement: Option<Movement>,
    new_food: Point,
)
    requires
        tick(body, direction, food, score, width, height, d, movement).fed,
        free_cells(
            width,
            height,
            tick(body, direction, food, score, width, height, d, movement).body,
        ).contains(new_food),
    ensures
        is_free_cell(
            width,
            height,
            tick(body, direction, food, score, width, height, d, movement).body,
            new_food,
        ),
{
    let t = tick(body, direction, food, score, width, height, d, movement);
    lemma_free_cells(width, height, t.body, new_food);
}

/// Tells whether the head comes closer than `STRIKE_DISTANCE` to the segment.
pub fn head_strikes(segment: &Segment, head: &Vector) -> (r: bool)
    requires
        segment.start@.bounded(),
        segment.end@.bounded(),
        head@.bounded(),
    ensures
        r == strikes(segment.start@, segment.end@, head@),
{
    if segment.start.x == segment.end.x && segment.start.y == segment.end.y {
        return false;
    }
    proof {
        lemma_projection_bounded(
            segment.end@.minus(segment.start@),
            head@.minus(segment.start@),
        );
    }
    let projected = segment.get_projected_point(head);
    if !segment.is_point_inside(&projected) {
        return false;
    }
    proof {
        lemma_length_at_most_sum(projected@.minus(head@));
    }
    Segment::new(head, &projected).length() < STRIKE_DISTANCE
}

/// A game of snake: the board, the snake, the food and the score.
#[derive(Debug)]
pub struct Game {
    pub width: i32,
    pub height: i32,
    pub speed: i64,
    pub snake: Vec<Vector>,
    pub direction: Vector,
    pub food: Vector,
    pub score: i32,
}

impl Game {
    /// The snake as a chain of points, tail tip first.
    pub open spec fn body(&self) -> Seq<Point> {
        polyline(self.snake@)
    }

    /// The state is one that the engine works on: a valid snake, a board
    /// within the coordinate range, and food within that range.
    pub open spec fn wf(&self) -> bool {
        &&& valid_body(self.body(), self.direction@)
        &&& self.width * UNIT <= LIMIT
        &&& self.height * UNIT <= LIMIT
        &&& self.food@.bounded()
    }

    /// Width, height and speed are those of `other`.
    pub open spec fn same_board(&self, other: &Game) -> bool {
        self.width == other.width && self.height == other.height && self.speed == other.speed
    }

    /// Nothing differs from `other`.
    pub open spec fn same_as(&self, other: &Game) -> bool {
        &&& self.same_board(other)
        &&& self.snake@ == other.snake@
        &&& self.direction == other.direction
        &&& self.food == other.food
        &&& self.score == other.score
    }

    /// Tells whether the state is one that the engine works on.
    pub fn is_valid(&self) -> (r: bool)
        ensures
            r == self.wf(),
    {
        let ghost body = self.body();
        let n: usize = self.snake.len();
        if n < 2 {
            return false;
        }
        let d: Vector = self.direction;
        if !is_heading(&d) || self.width as i64 * UNIT > LIMIT || self.height as i64 * UNIT > LIMIT
            || !self.food.is_bounded() {
            return false;
        }
        if !self.snake[0].is_bounded() {
            assert(!body[0].bounded());
            return false;
        }
        let mut i: usize = 1;
        while i < n
            invariant
                body == self.body(),
                n == body.len(),
                1 <= i <= n,
                forall|k: int| 0 <= k < i ==> (#[trigger] body[k]).bounded(),
                forall|k: int| 0 <= k < i - 1 ==> #[trigger] side_aligned(body, k),
            decreases n - i,
        {
            let a: Vector = self.snake[i - 1];
            let b: Vector = self.snake[i];
            if !b.is_bounded() {
                assert(!body[i as int].bounded());
                return false;
            }
            if a.x != b.x && a.y != b.y {
                assert(!side_aligned(body, i - 1));
                return false;
            }
            i += 1;
        }
        let prev: Vector = self.snake[n - 2];
        let head: Vector = self.snake[n - 1];
        assert(prev@ == body[n - 2] && head@ == body[n - 1]);
        assert(prev@.bounded() && head@.bounded());
        let vx: i64 = head.x - prev.x;
        let vy: i64 = head.y - prev.y;
        (d.x != 0 || vx == 0) && (d.y != 0 || vy == 0) && (d.x <= 0 || vx >= 0) && (d.x >= 0 || vx
            <= 0) && (d.y <= 0 || vy >= 0) && (d.y >= 0 || vy <= 0)
    }

    /// Starts a game: the head in the middle of the board, the tail tip
    /// `snake_length` cells behind it, food on a free cell, no score.
    pub fn new(width: i32, height: i32, speed: i64, snake_length: i32, direction: Vector) -> (r:
        Result<Game, GameError>)
        ensures
            match initial_body(width as int, height as int, snake_length as int, direction@) {
                Err(e) => r is Err && r->Err_0 == e,
                Ok(body) => if free_cells(width as int, height as int, body).len() == 0 {
                    r is Err && r->Err_0 == GameError::NoFreeCell
                } else {
                    &&& r is Ok
                    &&& r->Ok_0.wf()
                    &&& r->Ok_0.body() == body
                    &&& r->Ok_0.width == width
                    &&& r->Ok_0.height == height
                    &&& r->Ok_0.speed == speed
                    &&& r->Ok_0.direction == direction
                    &&& r->Ok_0.score == 0
                    &&& free_cells(width as int, height as int, body).contains(r->Ok_0.food@)
                },
            },
    {
        if !is_heading(&direction) || snake_length < 0 {
            return Err(GameError::InvalidParameters);
        }
        let head_x: i64 = round(width as i64 * HALF_UNIT) - HALF_UNIT;
        let head_y: i64 = round(height as i64 * HALF_UNIT) - HALF_UNIT;
        let head = Vector::new(head_x, head_y);
        proof {
            lemma_heading_times(direction@, snake_length * UNIT);
        }
        let tailtip = head.subtract(&direction.scale_by(snake_length as i64 * UNIT));
        if width as i64 * UNIT > LIMIT || height as i64 * UNIT > LIMIT || !head.is_bounded()
            || !tailtip.is_bounded() {
            return Err(GameError::OutOfRange);
        }
        let snake: Vec<Vector> = vec![tailtip, head];
        let ghost body = polyline(snake@);
        proof {
            assert(body =~= seq![tailtip@, head@]);
            assert(side_aligned(body, 0));
        }
        let food = match get_food(width, height, snake.as_slice()) {
            Ok(food) => food,
            Err(e) => {
                return Err(e);
            },
        };
        proof {
            lemma_free_cells(width as int, height as int, body, food@);
        }
        Ok(Game { width, height, speed, snake, direction, food, score: 0 })
    }

    /// Tells whether the game has ended.
    pub fn is_over(&self) -> (r: bool)
        requires
            self.snake@.len() >= 1,
            in_range(self.body()),
        ensures
            r == game_over(self.body(), self.width as int, self.height as int),
    {
        let ghost body = self.body();
        let snake_len: usize = self.snake.len();
        let last: Vector = self.snake[snake_len - 1];
        assert(last@ == body.last());
        assert(body[snake_len - 1].bounded());
        let Vector { x, y } = last;
        if x < 0 || x > self.width as i64 * UNIT || y < 0 || y > self.height as i64 * UNIT {
            return true;
        }
        if snake_len < HEAD_SIDES + 2 {
            return false;
        }
        let segments = get_segments_from_vectors(
            slice_subrange(self.snake.as_slice(), 0, snake_len - HEAD_SIDES),
        );
        let mut i: usize = 0;
        while i < segments.len()
            invariant
                body == self.body(),
                in_range(body),
                snake_len == body.len(),
                snake_len >= HEAD_SIDES + 2,
                last@ == body.last(),
                segments@.len() == snake_len - HEAD_SIDES - 1,
                i <= segments@.len(),
                forall|k: int|
                    0 <= k < segments@.len() ==> (#[trigger] segments@[k]).start@ == body[k]
                        && segments@[k].end@ == body[k + 1],
                forall|k: int| 0 <= k < i ==> !#[trigger] side_struck(body, k),
            decreases segments@.len() - i,
        {
            assert(body[i as int].bounded() && body[i + 1].bounded() && last@.bounded());
            if head_strikes(&segments[i], &last) {
                assert(side_struck(body, i as int));
                return true;
            }
            i += 1;
        }
        false
    }

    /// The distance that the snake covers in `timespan`.
    pub open spec fn reach(&self, timespan: i64) -> int {
        scaled(self.speed as int, timespan as int)
    }

    /// What a tick of `timespan` makes of this game.
    pub open spec fn next(&self, timespan: i64, movement: Option<Movement>) -> Tick {
        tick(
            self.body(),
            self.direction@,
            self.food@,
            self.score as int,
            self.width as int,
            self.height as int,
            self.reach(timespan),
            movement,
        )
    }

    /// Runs the movement engine for one tick of `timespan`.
    pub fn process_movement(&mut self, timespan: i64, movement: Option<Movement>) -> (r: Result<
        (),
        GameError,
    >)
        requires
            old(self).wf(),
        ensures
            final(self).wf(),
            final(self).same_board(old(self)),
            final(self).food == old(self).food,
            final(self).score == old(self).score,
            match step(old(self).body(), old(self).direction@, old(self).reach(timespan), movement) {
                Ok(s) => r is Ok && final(self).body() == s.body && final(self).direction@
                    == s.direction,
                Err(e) => r is Err && r->Err_0 == e && final(self).same_as(old(self)),
            },
    {
        proof {
            lemma_product_fits(self.speed as int, timespan as int);
        }
        let product: i128 = (self.speed as i128) * (timespan as i128);
        let reach: i128 = product / (UNIT as i128);
        if reach < 0 || reach > 2 * (LIMIT as i128) {
            return Err(GameError::OutOfRange);
        }
        let distance: i64 = reach as i64;
        match advance(&self.snake, &self.direction, distance, movement) {
            Ok((snake, direction)) => {
                proof {
                    lemma_step_shape(self.body(), self.direction@, distance as int, movement);
                }
                self.snake = snake;
                self.direction = direction;
                Ok(())
            },
            Err(e) => Err(e),
        }
    }

    /// Lets the snake eat: when the head's side passes through the food, the
    /// tail grows by one cell, the food moves to a free cell chosen at
    /// random, and the score goes up by one.
    pub fn process_food(&mut self) -> (r: Result<(), GameError>)
        requires
            old(self).wf(),
        ensures
            final(self).wf(),
            final(self).same_board(old(self)),
            final(self).direction == old(self).direction,
            match meal(
                old(self).body(),
                old(self).food@,
                old(self).score as int,
                old(self).width as int,
                old(self).height as int,
            ) {
                Err(e) => r is Err && r->Err_0 == e && final(self).same_as(old(self)),
                Ok(None) => r is Ok && final(self).same_as(old(self)),
                Ok(Some(longer)) => {
                    &&& r is Ok
                    &&& final(self).body() == longer
                    &&& final(self).score == old(self).score + 1
                    &&& free_cells(
                        old(self).width as int,
                        old(self).height as int,
                        longer,
                    ).contains(final(self).food@)
                },
            },
    {
        let ghost body = self.body();
        let snake_len: usize = self.snake.len();
        proof {
            assert(body[snake_len - 2].bounded() && body[snake_len - 1].bounded());
            assert(body[0].bounded() && body[1].bounded());
            assert(side_aligned(body, 0));
        }
        let head_segment = Segment::new(&self.snake[snake_len - 2], &self.snake[snake_len - 1]);
        if head_segment.is_point_inside(&self.food) {
            let tail_end: Vector = self.snake[0];
            let before_tail_end: Vector = self.snake[1];
            let tail_segment = Segment::new(&before_tail_end, &tail_end);
            proof {
                lemma_length_axis_aligned(tail_end@.minus(before_tail_end@));
            }
            if tail_segment.length() == 0 {
                return Err(GameError::DegenerateGeometry);
            }
            proof {
                lemma_advanced_axis(before_tail_end@, tail_end@, 0);
            }
            let new_tail_end: Vector = tail_end.add(&tail_segment.get_vector().normalize());
            if !new_tail_end.is_bounded() {
                return Err(GameError::OutOfRange);
            }
            if self.score == i32::MAX {
                return Err(GameError::OutOfRange);
            }
            proof {
                lemma_grown_shape(body, self.direction@);
            }
            self.snake.set(0, new_tail_end);
            assert(self.body() =~= body.update(0, new_tail_end@));
            match get_food(self.width, self.height, self.snake.as_slice()) {
                Ok(food) => {
                    proof {
                        lemma_free_cells(
                            self.width as int,
                            self.height as int,
                            self.body(),
                            food@,
                        );
                    }
                    self.food = food;
                    self.score += 1;
                    Ok(())
                },
                Err(e) => {
                    self.snake.set(0, tail_end);
                    assert(self.snake@ =~= old(self).snake@);
                    Err(e)
                },
            }
        } else {
            Ok(())
        }
    }

    /// Advances the game by one tick of `timespan`: the movement engine,
    /// then the food. A tick that fails changes nothing.
    pub fn process(&mut self, timespan: i64, movement: Option<Movement>) -> (r: Result<
        (),
        GameError,
    >)
        requires
            old(self).wf(),
        ensures
            final(self).wf(),
            final(self).same_board(old(self)),
            reports(r, old(self).next(timespan, movement).error),
            r is Err ==> final(self).same_as(old(self)),
            final(self).body() == old(self).next(timespan, movement).body,
            final(self).direction@ == old(self).next(timespan, movement).direction,
            old(self).next(timespan, movement).fed ==> final(self).score == old(self).score + 1
                && is_free_cell(
                final(self).width as int,
                final(self).height as int,
                final(self).body(),
                final(self).food@,
            ),
            !old(self).next(timespan, movement).fed ==> final(self).score == old(self).score
                && final(self).food == old(self).food,
            total_length(final(self).body()) == total_length(old(self).body()) + (if old(
                self,
            ).next(timespan, movement).fed {
                UNIT as int
            } else {
                0
            }),
            movement is Some && old(self).direction@.opposite(heading(movement.unwrap()))
                ==> final(self).direction == old(self).direction,
    {
        proof {
            let d = self.reach(timespan);
            lemma_tick_length(
                self.body(),
                self.direction@,
                self.food@,
                self.score as int,
                self.width as int,
                self.height as int,
                d,
                movement,
            );
            if movement is Some && self.direction@.opposite(heading(movement.unwrap())) {
                lemma_reverse_is_ignored(self.body(), self.direction@, d, movement.unwrap());
            }
        }
        let snake: Vec<Vector> = self.snake.clone();
        let direction: Vector = self.direction;
        match self.process_movement(timespan, movement) {
            Ok(()) => {},
            Err(e) => {
                return Err(e);
            },
        }
        proof {
            if grown(self.body()) is Ok {
                lemma_grown_shape(self.body(), self.direction@);
            }
        }
        match self.process_food() {
            Ok(()) => {
                proof {
                    if old(self).next(timespan, movement).fed {
                        lemma_free_cells(
                            self.width as int,
                            self.height as int,
                            self.body(),
                            self.food@,
                        );
                    }
                }
                Ok(())
            },
            Err(e) => {
                self.snake = snake;
                self.direction = direction;
                Err(e)
            },
        }
    }

    /// The snake's points, tail tip first.
    pub fn get_snake(&self) -> (r: Vec<Vector>)
        ensures
            r@ == self.snake@,
    {
        self.snake.clone()
    }
}

} // verus!
