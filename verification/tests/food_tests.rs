use snake_game::food::{free_positions, get_food, pick_food};
use snake_game::polyline::{any_segment_contains, get_segments_from_vectors};
use snake_game::{GameError, Vector};

fn fx(cells: f64) -> i64 {
    (cells * 1e8).round() as i64
}

fn v(x: f64, y: f64) -> Vector {
    Vector::new(fx(x), fx(y))
}

fn chain(points: &[(f64, f64)]) -> Vec<Vector> {
    points.iter().map(|p| v(p.0, p.1)).collect()
}

#[test]
fn free_positions_skip_the_cells_under_the_snake() {
    let snake = chain(&[(0.5, 0.5), (2.5, 0.5)]);
    assert_eq!(free_positions(3, 2, &snake), chain(&[(0.5, 1.5), (1.5, 1.5), (2.5, 1.5)]));
}

#[test]
fn free_positions_come_column_by_column() {
    let snake = chain(&[(7.5, 7.5), (9.5, 7.5)]);
    assert_eq!(
        free_positions(2, 3, &snake),
        chain(&[(0.5, 0.5), (0.5, 1.5), (0.5, 2.5), (1.5, 0.5), (1.5, 1.5), (1.5, 2.5)])
    );
}

#[test]
fn free_positions_under_a_bent_snake() {
    let snake = chain(&[(0.5, 1.5), (1.5, 1.5), (1.5, 0.2)]);
    assert_eq!(
        free_positions(3, 2, &snake),
        chain(&[(0.5, 0.5), (2.5, 0.5), (2.5, 1.5)])
    );
}

#[test]
fn a_snake_between_the_centers_covers_none() {
    let snake = chain(&[(0.0, 1.0), (3.0, 1.0)]);
    assert_eq!(free_positions(3, 2, &snake).len(), 6);
    let short = chain(&[(0.6, 0.5), (1.4, 0.5)]);
    assert_eq!(free_positions(2, 1, &short), chain(&[(0.5, 0.5), (1.5, 0.5)]));
}

#[test]
fn a_board_without_cells_has_no_free_positions() {
    let snake = chain(&[(7.5, 7.5), (9.5, 7.5)]);
    assert_eq!(free_positions(0, 5, &snake), Vec::new());
    assert_eq!(free_positions(5, 0, &snake), Vec::new());
    assert_eq!(free_positions(-3, 5, &snake), Vec::new());
    assert_eq!(free_positions(5, -3, &snake), Vec::new());
}

#[test]
fn pick_food_counts_around_the_list() {
    let free = chain(&[(0.5, 1.5), (1.5, 1.5), (2.5, 1.5)]);
    assert_eq!(pick_food(&free, 0), Ok(v(0.5, 1.5)));
    assert_eq!(pick_food(&free, 2), Ok(v(2.5, 1.5)));
    assert_eq!(pick_food(&free, 3), Ok(v(0.5, 1.5)));
    assert_eq!(pick_food(&free, 4), Ok(v(1.5, 1.5)));
    assert_eq!(pick_food(&free, usize::MAX), Ok(free[usize::MAX % 3]));
}

#[test]
fn pick_food_without_a_free_position_fails() {
    assert_eq!(pick_food(&Vec::new(), 0), Err(GameError::NoFreeCell));
    assert_eq!(pick_food(&Vec::new(), 7), Err(GameError::NoFreeCell));
}

#[test]
fn get_food_picks_a_free_position() {
    let snake = chain(&[(0.5, 1.5), (1.5, 1.5), (1.5, 0.2)]);
    let free = free_positions(3, 2, &snake);
    let segments = get_segments_from_vectors(&snake);
    for _ in 0..50 {
        let food = get_food(3, 2, &snake).unwrap();
        assert!(free.contains(&food));
        assert!(!any_segment_contains(&segments, &food));
    }
}

#[test]
fn get_food_reaches_every_free_position() {
    let snake = chain(&[(0.5, 0.5), (2.5, 0.5)]);
    let free = free_positions(3, 2, &snake);
    let mut seen = vec![false; free.len()];
    for _ in 0..400 {
        let food = get_food(3, 2, &snake).unwrap();
        let at = free.iter().position(|p| *p == food).unwrap();
        seen[at] = true;
    }
    assert_eq!(seen, vec![true, true, true]);
}

#[test]
fn get_food_on_a_single_free_cell() {
    let snake = chain(&[(0.5, 0.5), (1.5, 0.5)]);
    for _ in 0..20 {
        assert_eq!(get_food(3, 1, &snake), Ok(v(2.5, 0.5)));
    }
}

#[test]
fn get_food_on_a_full_board_fails() {
    let snake = chain(&[(0.5, 0.5), (2.5, 0.5)]);
    assert_eq!(get_food(3, 1, &snake), Err(GameError::NoFreeCell));
    assert_eq!(get_food(0, 0, &snake), Err(GameError::NoFreeCell));
    assert_eq!(get_food(-1, 4, &snake), Err(GameError::NoFreeCell));
}

#[test]
fn no_free_position_comes_twice() {
    let snake = chain(&[(0.5, 1.5), (1.5, 1.5), (1.5, 0.2)]);
    let free = free_positions(6, 5, &snake);
    assert_eq!(free.len(), 27);
    for i in 0..free.len() {
        for j in (i + 1)..free.len() {
            assert!(free[i] != free[j]);
        }
    }
}
