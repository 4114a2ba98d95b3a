//! Food placement: the free cells of the board and the choice among them.

use rand::Rng;
use vstd::prelude::*;
use crate::error::GameError;
use crate::polyline::{
    any_segment_contains, covered, get_segments_from_vectors, in_range, polyline, side_covers,
};
use crate::scalar::{HALF_UNIT, LIMIT, UNIT};
use crate::segment::on_segment;
use crate::vector::{Point, Vector};

verus! {

/// The center of the grid cell in column `ix` and row `iy`.
pub open spec fn cell_center(ix: int, iy: int) -> Point {
    Point { x: ix * UNIT + HALF_UNIT, y: iy * UNIT + HALF_UNIT }
}

/// The centers of the first `rows` cells of column `ix` that no side of the
/// body passes through, from row 0 up.
pub open spec fn free_in_column(body: Seq<Point>, ix: int, rows: int) -> Seq<Point>
    decreases rows,
{
    if rows <= 0 {
        Seq::empty()
    } else if covered(body, cell_center(ix, rows - 1)) {
        free_in_column(body, ix, rows - 1)
    } else {
        free_in_column(body, ix, rows - 1).push(cell_center(ix, rows - 1))
    }
}

/// The centers of the cells of a board of `width` columns and `height` rows
/// that no side of the body passes through, column by column.
pub open spec fn free_cells(width: int, height: int, body: Seq<Point>) -> Seq<Point>
    decreases width,
{
    if width <= 0 {
        Seq::empty()
    } else {
        free_cells(width - 1, height, body) + free_in_column(body, width - 1, height)
    }
}

/// `p` is the center of a cell of the board that the body leaves free.
pub open spec fn is_free_cell(width: int, height: int, body: Seq<Point>, p: Point) -> bool {
    exists|ix: int, iy: int|
        0 <= ix < width && 0 <= iy < height && p == #[trigger] cell_center(ix, iy) && !covered(
            body,
            p,
        )
}

/// A column's free cells are exactly its cell centers that the body leaves free.
pub proof fn lemma_free_in_column(body: Seq<Point>, ix: int, rows: int, p: Point)
    ensures
        free_in_column(body, ix, rows).contains(p) <==> exists|iy: int|
            0 <= iy < rows && p == #[trigger] cell_center(ix, iy) && !covered(body, p),
    decreases rows,
{
    if rows > 0 {
        lemma_free_in_column(body, ix, rows - 1, p);
        let below = free_in_column(body, ix, rows - 1);
        let c = cell_center(ix, rows - 1);
        if free_in_column(body, ix, rows).contains(p) {
            if !below.contains(p) {
                let k = choose|k: int|
                    0 <= k < free_in_column(body, ix, rows).len() && free_in_column(
                        body,
                        ix,
                        rows,
                    )[k] == p;
                assert(!covered(body, c));
                if k < below.len() {
                    assert(below[k] == p);
                }
                assert(p == c);
                assert(p == cell_center(ix, rows - 1));
            } else {
                let iy = choose|iy: int|
                    0 <= iy < rows - 1 && p == #[trigger] cell_center(ix, iy) && !covered(body, p);
                assert(0 <= iy < rows && p == cell_center(ix, iy));
            }
        }
        if exists|iy: int| 0 <= iy < rows && p == #[trigger] cell_center(ix, iy) && !covered(body, p) {
            let iy = choose|iy: int|
                0 <= iy < rows && p == #[trigger] cell_center(ix, iy) && !covered(body, p);
            if iy == rows - 1 {
                assert(free_in_column(body, ix, rows) == below.push(c));
                assert(below.push(c)[below.len() as int] == p);
            } else {
                assert(0 <= iy < rows - 1 && p == cell_center(ix, iy));
                assert(below.contains(p));
                let k = choose|k: int| 0 <= k < below.len() && below[k] == p;
                assert(free_in_column(body, ix, rows)[k] == p);
            }
        }
    }
}

/// The free cells of a board are exactly its cell centers that the body
/// leaves free.
pub proof fn lemma_free_cells(width: int, height: int, body: Seq<Point>, p: Point)
    ensures
        free_cells(width, height, body).contains(p) <==> is_free_cell(width, height, body, p),
    decreases width,
{
    if width > 0 {
        lemma_free_cells(width - 1, height, body, p);
        lemma_free_in_column(body, width - 1, height, p);
        let before = free_cells(width - 1, height, body);
        let column = free_in_column(body, width - 1, height);
        let all = free_cells(width, height, body);
        assert(all == before + column);
        if all.contains(p) {
            let k = choose|k: int| 0 <= k < all.len() && all[k] == p;
            if k < before.len() {
                assert(before[k] == p);
                let (ix, iy) = choose|ix: int, iy: int|
                    0 <= ix < width - 1 && 0 <= iy < height && p == #[trigger] cell_center(ix, iy)
                        && !covered(body, p);
                assert(0 <= ix < width && 0 <= iy < height && p == cell_center(ix, iy));
            } else {
                assert(column[k - before.len()] == p);
                let iy = choose|iy: int|
                    0 <= iy < height && p == #[trigger] cell_center(width - 1, iy) && !covered(
                        body,
                        p,
                    );
                assert(0 <= width - 1 < width && p == cell_center(width - 1, iy));
            }
        }
        if is_free_cell(width, height, body, p) {
            let (ix, iy) = choose|ix: int, iy: int|
                0 <= ix < width && 0 <= iy < height && p == #[trigger] cell_center(ix, iy)
                    && !covered(body, p);
            if ix == width - 1 {
                assert(0 <= iy < height && p == cell_center(width - 1, iy));
                assert(column.contains(p));
                let k = choose|k: int| 0 <= k < column.len() && column[k] == p;
                assert(all[before.len() + k] == p);
            } else {
                assert(0 <= ix < width - 1 && 0 <= iy < height && p == cell_center(ix, iy));
                assert(before.contains(p));
                let k = choose|k: int| 0 <= k < before.len() && before[k] == p;
                assert(all[k] == p);
            }
        }
    }
}

/// Cells of different columns or rows have different centers.
pub proof fn lemma_cell_center_differs(ix: int, iy: int, jx: int, jy: int)
    requires
        ix != jx || iy != jy,
    ensures
        cell_center(ix, iy) != cell_center(jx, jy),
{
    let u = UNIT as int;
    assert(ix != jx ==> ix * u != jx * u) by (nonlinear_arith)
        requires
            u > 0,
    ;
    assert(iy != jy ==> iy * u != jy * u) by (nonlinear_arith)
        requires
            u > 0,
    ;
}

/// No cell occurs twice among the free cells of a column.
pub proof fn lemma_free_in_column_distinct(body: Seq<Point>, ix: int, rows: int, i: int, j: int)
    requires
        0 <= i < j < free_in_column(body, ix, rows).len(),
    ensures
        free_in_column(body, ix, rows)[i] != free_in_column(body, ix, rows)[j],
    decreases rows,
{
    if rows > 0 {
        let below = free_in_column(body, ix, rows - 1);
        if j < below.len() {
            lemma_free_in_column_distinct(body, ix, rows - 1, i, j);
        } else {
            assert(free_in_column(body, ix, rows) == below.push(cell_center(ix, rows - 1)));
            assert(below.contains(below[i]));
            lemma_free_in_column(body, ix, rows - 1, below[i]);
            let iy = choose|iy: int|
                0 <= iy < rows - 1 && below[i] == #[trigger] cell_center(ix, iy) && !covered(
                    body,
                    below[i],
                );
            lemma_cell_center_differs(ix, iy, ix, rows - 1);
        }
    }
}

/// No cell occurs twice among the free cells of a board: the food is drawn
/// from a set.
pub proof fn lemma_free_cells_distinct(
    width: int,
    height: int,
    body: Seq<Point>,
    i: int,
    j: int,
)
    requires
        0 <= i < j < free_cells(width, height, body).len(),
    ensures
        free_cells(width, height, body)[i] != free_cells(width, height, body)[j],
    decreases width,
{
    if width > 0 {
        let before = free_cells(width - 1, height, body);
        let column = free_in_column(body, width - 1, height);
        assert(free_cells(width, height, body) == before + column);
        if j < before.len() {
            lemma_free_cells_distinct(width - 1, height, body, i, j);
        } else if i >= before.len() {
            lemma_free_in_column_distinct(
                body,
                width - 1,
                height,
                i - before.len(),
                j - before.len(),
            );
        } else {
            let p = before[i];
            let q = column[j - before.len()];
            assert(before.contains(p));
            assert(column.contains(q));
            lemma_free_cells(width - 1, height, body, p);
            lemma_free_in_column(body, width - 1, height, q);
            let (px, py) = choose|ix: int, iy: int|
                0 <= ix < width - 1 && 0 <= iy < height && p == #[trigger] cell_center(ix, iy)
                    && !covered(body, p);
            let qy = choose|iy: int|
                0 <= iy < height && q == #[trigger] cell_center(width - 1, iy) && !covered(
                    body,
                    q,
                );
            lemma_cell_center_differs(px, py, width - 1, qy);
        }
    }
}

/// Lists the centers of the cells that the snake leaves free, column by
/// column and row by row.
pub fn free_positions(width: i32, height: i32, snake: &[Vector]) -> (r: Vec<Vector>)
    requires
        snake@.len() >= 1,
        in_range(polyline(snake@)),
    ensures
        polyline(r@) == free_cells(width as int, height as int, polyline(snake@)),
{
    let ghost body = polyline(snake@);
    let segments = get_segments_from_vectors(snake);
    let mut free_positions: Vec<Vector> = Vec::new();
    let mut x: i32 = 0;
    assert(polyline(free_positions@) =~= free_cells(0, height as int, body));
    while x < width
        invariant
            0 <= x,
            width > 0 ==> x <= width,
            width <= 0 ==> x == 0,
            body == polyline(snake@),
            in_range(body),
            segments@.len() == snake@.len() - 1,
            forall|i: int|
                0 <= i < segments@.len() ==> *(#[trigger] segments@[i]).start == snake@[i]
                    && *segments@[i].end == snake@[i + 1],
            polyline(free_positions@) == free_cells(x as int, height as int, body),
        decreases width - x,
    {
        let mut y: i32 = 0;
        assert(polyline(free_positions@) =~= free_cells(x as int, height as int, body)
            + free_in_column(body, x as int, 0));
        while y < height
            invariant
                0 <= x < width,
                0 <= y,
                height > 0 ==> y <= height,
                height <= 0 ==> y == 0,
                body == polyline(snake@),
                in_range(body),
                segments@.len() == snake@.len() - 1,
                forall|i: int|
                    0 <= i < segments@.len() ==> *(#[trigger] segments@[i]).start == snake@[i]
                        && *segments@[i].end == snake@[i + 1],
                polyline(free_positions@) == free_cells(x as int, height as int, body)
                    + free_in_column(body, x as int, y as int),
            decreases height - y,
        {
            let point = Vector::new(x as i64 * UNIT + HALF_UNIT, y as i64 * UNIT + HALF_UNIT);
            assert(point@ == cell_center(x as int, y as int));
            proof {
                assert forall|i: int| 0 <= i < segments@.len() implies (#[trigger] segments@[i]).start@
                    == body[i] && segments@[i].end@ == body[i + 1] by {}
                assert forall|i: int| 0 <= i < body.len() implies -LIMIT
                    <= (#[trigger] body[i]).x <= LIMIT && -LIMIT
                    <= body[i].y <= LIMIT by {
                    assert(body[i].bounded());
                }
            }
            let taken: bool = any_segment_contains(&segments, &point);
            proof {
                if taken {
                    let i = choose|i: int|
                        0 <= i < segments@.len() && on_segment(
                            (#[trigger] segments@[i]).start@,
                            segments@[i].end@,
                            point@,
                        );
                    assert(side_covers(body, i, point@));
                }
                if covered(body, point@) {
                    let i = choose|i: int|
                        0 <= i < body.len() - 1 && #[trigger] side_covers(body, i, point@);
                    assert(on_segment(
                        segments@[i].start@,
                        segments@[i].end@,
                        point@,
                    ));
                }
                assert(taken == covered(body, point@));
            }
            let ghost before = free_positions@;
            if !taken {
                free_positions.push(point);
                assert(polyline(free_positions@) =~= polyline(before).push(point@));
            }
            y += 1;
            assert(polyline(free_positions@) =~= free_cells(x as int, height as int, body)
                + free_in_column(body, x as int, y as int));
        }
        assert(free_in_column(body, x as int, y as int) == free_in_column(
            body,
            x as int,
            height as int,
        ));
        x += 1;
    }
    assert(free_cells(x as int, height as int, body) == free_cells(
        width as int,
        height as int,
        body,
    ));
    free_positions
}

/// Draws an index below `n` from the thread's random generator, by
/// `rand::Rng::gen_range(0, n)` on `rand::thread_rng()`. Nothing is claimed of
/// the draw but that it lies in `0..n`; for `n == 0` the generator panics.
/// The generator is seeded on its first use in a thread, and that fails
/// where the system offers no source of entropy.
#[verifier::external_body]
fn random_index(n: usize) -> (r: usize)
    requires
        n > 0,
    ensures
        r < n,
{
    rand::thread_rng().gen_range(0, n)
}

/// Picks the position that a roll selects among the free ones: the roll
/// counts around the list.
pub fn pick_food(free_positions: &Vec<Vector>, roll: usize) -> (r: Result<Vector, GameError>)
    ensures
        free_positions@.len() == 0 ==> r == Err::<Vector, GameError>(GameError::NoFreeCell),
        free_positions@.len() > 0 ==> r == Ok::<Vector, GameError>(
            free_positions@[roll as int % free_positions@.len() as int],
        ),
{
    if free_positions.len() == 0 {
        Err(GameError::NoFreeCell)
    } else {
        Ok(free_positions[roll % free_positions.len()])
    }
}

/// Chooses a free cell center for the food at random.
pub fn get_food(width: i32, height: i32, snake: &[Vector]) -> (r: Result<Vector, GameError>)
    requires
        snake@.len() >= 1,
        in_range(polyline(snake@)),
    ensures
        r is Err <==> free_cells(width as int, height as int, polyline(snake@)).len() == 0,
        r is Err ==> r == Err::<Vector, GameError>(GameError::NoFreeCell),
        r is Ok ==> free_cells(width as int, height as int, polyline(snake@)).contains(
            r.unwrap()@,
        ),
{
    let free_positions = free_positions(width, height, snake);
    if free_positions.len() == 0 {
        return Err(GameError::NoFreeCell);
    }
    let index = random_index(free_positions.len());
    let picked = pick_food(&free_positions, index);
    proof {
        let cells = free_cells(width as int, height as int, polyline(snake@));
        assert(index as int % free_positions@.len() as int == index) by (nonlinear_arith)
            requires
                0 <= index < free_positions@.len(),
        ;
        assert(cells[index as int] == free_positions@[index as int]@);
    }
    picked
}

} // verus!
