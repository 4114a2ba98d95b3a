use snake_game::food::free_positions;
use snake_game::polyline::{any_segment_contains, get_segments_from_vectors};
use snake_game::scalar::{HALF_UNIT, UNIT};
use snake_game::segment::span;
use snake_game::{Game, GameError, Movement, Vector};

fn fx(cells: f64) -> i64 {
    (cells * 1e8).round() as i64
}

fn v(x: f64, y: f64) -> Vector {
    Vector::new(fx(x), fx(y))
}

fn chain(points: &[(f64, f64)]) -> Vec<Vector> {
    points.iter().map(|p| v(p.0, p.1)).collect()
}

fn game_with(points: &[(f64, f64)], heading: Movement, food: (f64, f64)) -> Game {
    Game {
        width: 17,
        height: 15,
        speed: fx(0.006),
        snake: chain(points),
        direction: heading.direction(),
        food: v(food.0, food.1),
        score: 0,
    }
}

fn body_length(snake: &[Vector]) -> u64 {
    snake.windows(2).map(|side| span(&side[0], &side[1])).sum()
}

#[test]
fn new_game_starts_in_the_middle_of_the_board() {
    let game = Game::new(17, 15, fx(0.006), 3, Movement::RIGHT.direction()).unwrap();
    assert_eq!(game.get_snake(), chain(&[(5.5, 7.5), (8.5, 7.5)]));
    assert_eq!(game.width, 17);
    assert_eq!(game.height, 15);
    assert_eq!(game.speed, fx(0.006));
    assert_eq!(game.direction, v(1.0, 0.0));
    assert_eq!(game.score, 0);
    assert!(!game.is_over());
}

#[test]
fn new_game_lays_the_tail_behind_the_head() {
    let up = Game::new(17, 15, fx(0.006), 3, Movement::TOP.direction()).unwrap();
    assert_eq!(up.get_snake(), chain(&[(8.5, 10.5), (8.5, 7.5)]));
    let left = Game::new(17, 15, fx(0.006), 4, Movement::LEFT.direction()).unwrap();
    assert_eq!(left.get_snake(), chain(&[(12.5, 7.5), (8.5, 7.5)]));
    let down = Game::new(17, 15, fx(0.006), 2, Movement::DOWN.direction()).unwrap();
    assert_eq!(down.get_snake(), chain(&[(8.5, 5.5), (8.5, 7.5)]));
}

#[test]
fn new_game_on_a_board_of_even_size() {
    let game = Game::new(16, 10, fx(0.006), 3, Movement::RIGHT.direction()).unwrap();
    assert_eq!(game.get_snake(), chain(&[(4.5, 4.5), (7.5, 4.5)]));
    let small = Game::new(2, 1, fx(0.006), 0, Movement::RIGHT.direction()).unwrap();
    assert_eq!(small.get_snake(), chain(&[(0.5, 0.5), (0.5, 0.5)]));
    assert_eq!(small.food, v(1.5, 0.5));
}

#[test]
fn new_game_puts_food_on_a_free_cell() {
    for _ in 0..30 {
        let game = Game::new(6, 3, fx(0.006), 3, Movement::RIGHT.direction()).unwrap();
        let snake = game.get_snake();
        assert_eq!(snake, chain(&[(-0.5, 1.5), (2.5, 1.5)]));
        assert!(free_positions(6, 3, &snake).contains(&game.food));
        assert!(!any_segment_contains(&get_segments_from_vectors(&snake), &game.food));
        assert!(game.food.x > 0 && game.food.x < 6 * UNIT);
        assert!(game.food.y > 0 && game.food.y < 3 * UNIT);
        assert_eq!((game.food.x - HALF_UNIT) % UNIT, 0);
        assert_eq!((game.food.y - HALF_UNIT) % UNIT, 0);
    }
}

#[test]
fn new_game_refuses_a_direction_that_is_no_heading() {
    for direction in [v(1.0, 1.0), v(2.0, 0.0), v(0.0, 0.0), v(0.0, 0.5), Vector::new(UNIT + 1, 0)] {
        assert_eq!(
            Game::new(17, 15, fx(0.006), 3, direction).err(),
            Some(GameError::InvalidParameters)
        );
    }
}

#[test]
fn new_game_refuses_a_negative_length() {
    assert_eq!(
        Game::new(17, 15, fx(0.006), -1, Movement::RIGHT.direction()).err(),
        Some(GameError::InvalidParameters)
    );
}

#[test]
fn new_game_refuses_a_board_out_of_range() {
    let right = Movement::RIGHT.direction();
    assert_eq!(Game::new(10_996, 15, fx(0.006), 3, right).err(), Some(GameError::OutOfRange));
    assert_eq!(Game::new(17, 10_996, fx(0.006), 3, right).err(), Some(GameError::OutOfRange));
    assert_eq!(Game::new(i32::MAX, 15, fx(0.006), 3, right).err(), Some(GameError::OutOfRange));
    assert_eq!(Game::new(17, 15, fx(0.006), 20_000, right).err(), Some(GameError::OutOfRange));
    assert_eq!(Game::new(i32::MIN, 15, fx(0.006), 3, right).err(), Some(GameError::OutOfRange));
}

#[test]
fn new_game_without_a_free_cell_fails() {
    let right = Movement::RIGHT.direction();
    assert_eq!(Game::new(1, 1, fx(0.006), 3, right).err(), Some(GameError::NoFreeCell));
    assert_eq!(Game::new(0, 0, fx(0.006), 3, right).err(), Some(GameError::NoFreeCell));
    assert_eq!(Game::new(-3, 4, fx(0.006), 3, right).err(), Some(GameError::NoFreeCell));
    let left = Movement::LEFT.direction();
    assert_eq!(Game::new(2, 1, fx(0.006), 3, left).err(), Some(GameError::NoFreeCell));
    assert!(Game::new(2, 1, fx(0.006), 3, right).is_ok());
}

#[test]
fn head_leaving_the_board_on_the_left_ends_the_game() {
    let mut game = game_with(&[(3.3, 5.0), (0.3, 5.0)], Movement::LEFT, (10.5, 10.5));
    assert!(!game.is_over());
    assert_eq!(game.process(fx(100.0), None), Ok(()));
    assert_eq!(game.get_snake(), chain(&[(2.7, 5.0), (-0.3, 5.0)]));
    assert!(game.is_over());
}

#[test]
fn the_border_itself_is_on_the_board() {
    assert!(!game_with(&[(3.0, 5.0), (0.0, 5.0)], Movement::LEFT, (10.5, 10.5)).is_over());
    assert!(!game_with(&[(14.0, 5.0), (17.0, 5.0)], Movement::RIGHT, (10.5, 10.5)).is_over());
    assert!(!game_with(&[(4.0, 3.0), (4.0, 0.0)], Movement::TOP, (10.5, 10.5)).is_over());
    assert!(!game_with(&[(4.0, 12.0), (4.0, 15.0)], Movement::DOWN, (10.5, 10.5)).is_over());
}

#[test]
fn a_step_beyond_any_border_ends_the_game() {
    let mut left = game_with(&[(3.0, 5.0), (0.0, 5.0)], Movement::LEFT, (10.5, 10.5));
    left.snake[1].x -= 1;
    assert!(left.is_over());
    let mut right = game_with(&[(14.0, 5.0), (17.0, 5.0)], Movement::RIGHT, (10.5, 10.5));
    right.snake[1].x += 1;
    assert!(right.is_over());
    let mut top = game_with(&[(4.0, 3.0), (4.0, 0.0)], Movement::TOP, (10.5, 10.5));
    top.snake[1].y -= 1;
    assert!(top.is_over());
    let mut bottom = game_with(&[(4.0, 12.0), (4.0, 15.0)], Movement::DOWN, (10.5, 10.5));
    bottom.snake[1].y += 1;
    assert!(bottom.is_over());
}

#[test]
fn head_close_to_an_old_side_ends_the_game() {
    let looped = game_with(
        &[(1.5, 1.5), (6.5, 1.5), (6.5, 3.5), (3.5, 3.5), (3.5, 1.9)],
        Movement::TOP,
        (10.5, 10.5),
    );
    assert!(looped.is_over());
    let away = game_with(
        &[(1.5, 1.5), (6.5, 1.5), (6.5, 3.5), (3.5, 3.5), (3.5, 2.1)],
        Movement::TOP,
        (10.5, 10.5),
    );
    assert!(!away.is_over());
}

#[test]
fn half_a_cell_from_an_old_side_is_far_enough() {
    let mut game = game_with(
        &[(1.5, 1.5), (6.5, 1.5), (6.5, 3.5), (3.5, 3.5), (3.5, 2.0)],
        Movement::TOP,
        (10.5, 10.5),
    );
    assert!(!game.is_over());
    game.snake[4].y -= 1;
    assert!(game.is_over());
}

#[test]
fn head_beside_the_end_of_an_old_side_goes_on() {
    let game = game_with(
        &[(4.5, 1.5), (6.5, 1.5), (6.5, 3.5), (3.5, 3.5), (3.5, 1.6)],
        Movement::TOP,
        (10.5, 10.5),
    );
    assert!(!game.is_over());
}

#[test]
fn a_short_snake_cannot_strike_itself() {
    let game = game_with(
        &[(1.5, 1.5), (6.5, 1.5), (6.5, 1.6), (3.5, 1.6)],
        Movement::LEFT,
        (10.5, 10.5),
    );
    assert!(!game.is_over());
}

#[test]
fn the_three_sides_next_to_the_head_are_not_struck() {
    let game = game_with(
        &[(1.5, 9.5), (1.5, 1.5), (6.5, 1.5), (6.5, 1.7), (3.5, 1.7)],
        Movement::LEFT,
        (10.5, 10.5),
    );
    assert!(!game.is_over());
    let longer = game_with(
        &[(9.5, 1.5), (1.5, 1.5), (1.5, 1.6), (6.5, 1.6), (6.5, 1.7), (3.5, 1.7)],
        Movement::LEFT,
        (10.5, 10.5),
    );
    assert!(longer.is_over());
}

#[test]
fn a_side_without_extent_is_never_struck() {
    let game = game_with(
        &[(3.5, 1.6), (3.5, 1.6), (6.5, 1.6), (6.5, 1.9), (3.5, 1.9)],
        Movement::LEFT,
        (10.5, 10.5),
    );
    assert!(!game.is_over());
}

#[test]
fn ticks_follow_the_requests_and_keep_the_length() {
    let mut game = Game::new(17, 15, fx(0.006), 3, Movement::RIGHT.direction()).unwrap();
    game.food = v(0.5, 0.5);
    let steps: [(Option<Movement>, &[(f64, f64)], Movement); 7] = [
        (None, &[(6.1, 7.5), (9.1, 7.5)], Movement::RIGHT),
        (Some(Movement::TOP), &[(6.7, 7.5), (9.5, 7.5), (9.5, 7.3)], Movement::TOP),
        (None, &[(7.3, 7.5), (9.5, 7.5), (9.5, 6.7)], Movement::TOP),
        (
            Some(Movement::LEFT),
            &[(7.9, 7.5), (9.5, 7.5), (9.5, 6.5), (9.1, 6.5)],
            Movement::LEFT,
        ),
        (
            Some(Movement::DOWN),
            &[(8.5, 7.5), (9.5, 7.5), (9.5, 6.5), (8.5, 6.5)],
            Movement::LEFT,
        ),
        (
            Some(Movement::DOWN),
            &[(9.1, 7.5), (9.5, 7.5), (9.5, 6.5), (8.5, 6.5), (8.5, 7.1)],
            Movement::DOWN,
        ),
        (None, &[(9.5, 7.3), (9.5, 6.5), (8.5, 6.5), (8.5, 7.7)], Movement::DOWN),
    ];
    for (movement, snake, heading) in steps {
        assert_eq!(game.process(fx(100.0), movement), Ok(()));
        assert_eq!(game.get_snake(), chain(snake));
        assert_eq!(game.direction, heading.direction());
        assert_eq!(body_length(&game.snake), fx(3.0) as u64);
        assert_eq!(game.score, 0);
        assert_eq!(game.food, v(0.5, 0.5));
        assert!(!game.is_over());
    }
}

#[test]
fn a_request_to_reverse_never_changes_the_direction() {
    let headings = [Movement::TOP, Movement::RIGHT, Movement::DOWN, Movement::LEFT];
    let reverse = [Movement::DOWN, Movement::LEFT, Movement::TOP, Movement::RIGHT];
    for k in 0..4 {
        let mut game = Game::new(17, 15, fx(0.006), 3, headings[k].direction()).unwrap();
        game.food = v(0.5, 0.5);
        for _ in 0..6 {
            assert_eq!(game.process(fx(150.0), Some(reverse[k])), Ok(()));
            assert_eq!(game.direction, headings[k].direction());
            assert_eq!(game.snake.len(), 2);
        }
    }
}

#[test]
fn every_bend_lies_on_a_cell_boundary() {
    let mut game = Game::new(17, 15, fx(0.0061), 3, Movement::RIGHT.direction()).unwrap();
    game.food = v(0.5, 0.5);
    let requests = [Movement::TOP, Movement::LEFT, Movement::DOWN, Movement::RIGHT, Movement::TOP];
    let mut bends = 0;
    for tick in 0..40 {
        let before = game.direction;
        let points = game.snake.len();
        assert_eq!(game.process(fx(37.0), Some(requests[tick / 8])), Ok(()));
        if game.direction != before {
            bends += 1;
            let corner = game.snake[game.snake.len() - 2];
            let head = game.snake[game.snake.len() - 1];
            if before.y == 0 {
                assert_eq!((corner.x - HALF_UNIT).rem_euclid(UNIT), 0);
                assert_eq!(head.x, corner.x);
            } else {
                assert_eq!((corner.y - HALF_UNIT).rem_euclid(UNIT), 0);
                assert_eq!(head.y, corner.y);
            }
            assert!(game.snake.len() <= points + 1);
        }
        assert_eq!(body_length(&game.snake), fx(3.0) as u64);
    }
    assert_eq!(bends, 5);
}

#[test]
fn eating_grows_the_tail_by_one_cell() {
    let mut game = game_with(&[(5.5, 7.5), (8.5, 7.5)], Movement::RIGHT, (9.5, 7.5));
    assert_eq!(game.process(fx(200.0), None), Ok(()));
    assert_eq!(game.get_snake(), chain(&[(5.7, 7.5), (9.7, 7.5)]));
    assert_eq!(game.score, 1);
    assert_eq!(body_length(&game.snake), fx(4.0) as u64);
    assert_eq!(game.direction, v(1.0, 0.0));
}

#[test]
fn eating_moves_the_food_to_a_free_cell() {
    for _ in 0..40 {
        let mut game = game_with(&[(5.5, 7.5), (8.5, 7.5)], Movement::RIGHT, (9.5, 7.5));
        assert_eq!(game.process(fx(200.0), Some(Movement::DOWN)), Ok(()));
        assert_eq!(game.get_snake(), chain(&[(5.7, 7.5), (9.5, 7.5), (9.5, 7.7)]));
        assert_eq!(game.score, 1);
        assert!(free_positions(17, 15, &game.snake).contains(&game.food));
        assert!(!any_segment_contains(&get_segments_from_vectors(&game.snake), &game.food));
        assert!(game.food != v(9.5, 7.5));
    }
}

#[test]
fn eating_grows_a_bent_tail_along_its_own_direction() {
    let mut game = game_with(&[(3.5, 2.0), (3.5, 4.5), (6.0, 4.5)], Movement::RIGHT, (6.5, 4.5));
    assert_eq!(game.process(fx(100.0), None), Ok(()));
    assert_eq!(game.get_snake(), chain(&[(3.5, 1.6), (3.5, 4.5), (6.6, 4.5)]));
    assert_eq!(game.score, 1);
    assert_eq!(body_length(&game.snake), fx(6.0) as u64);
}

#[test]
fn food_beside_the_head_is_not_eaten() {
    let mut game = game_with(&[(5.5, 7.5), (8.5, 7.5)], Movement::RIGHT, (9.5, 8.5));
    assert_eq!(game.process(fx(200.0), None), Ok(()));
    assert_eq!(game.get_snake(), chain(&[(6.7, 7.5), (9.7, 7.5)]));
    assert_eq!(game.score, 0);
    assert_eq!(game.food, v(9.5, 8.5));
}

#[test]
fn food_ahead_of_the_head_is_not_eaten_yet() {
    let mut game = game_with(&[(5.5, 7.5), (8.5, 7.5)], Movement::RIGHT, (9.5, 7.5));
    assert_eq!(game.process(fx(100.0), None), Ok(()));
    assert_eq!(game.get_snake(), chain(&[(6.1, 7.5), (9.1, 7.5)]));
    assert_eq!(game.score, 0);
    assert_eq!(game.process(fx(100.0), None), Ok(()));
    assert_eq!(game.get_snake(), chain(&[(5.7, 7.5), (9.7, 7.5)]));
    assert_eq!(game.score, 1);
}

#[test]
fn a_tick_longer_than_the_snake_fails_and_changes_nothing() {
    let mut game = game_with(&[(5.5, 7.5), (8.5, 7.5)], Movement::RIGHT, (0.5, 0.5));
    assert_eq!(game.process(fx(600.0), None), Err(GameError::DegenerateGeometry));
    assert_eq!(game.get_snake(), chain(&[(5.5, 7.5), (8.5, 7.5)]));
    assert_eq!(game.direction, v(1.0, 0.0));
    assert_eq!(game.process(fx(500.0), None), Ok(()));
    assert_eq!(game.get_snake(), chain(&[(8.5, 7.5), (11.5, 7.5)]));
}

#[test]
fn a_tick_back_in_time_fails() {
    let mut game = game_with(&[(5.5, 7.5), (8.5, 7.5)], Movement::RIGHT, (0.5, 0.5));
    assert_eq!(game.process(fx(-100.0), None), Err(GameError::OutOfRange));
    assert_eq!(game.process(i64::MAX, None), Err(GameError::OutOfRange));
    assert_eq!(game.get_snake(), chain(&[(5.5, 7.5), (8.5, 7.5)]));
}

#[test]
fn a_tick_of_no_time_changes_nothing() {
    let mut game = game_with(&[(5.5, 7.5), (8.5, 7.5)], Movement::RIGHT, (0.5, 0.5));
    assert_eq!(game.process(0, Some(Movement::TOP)), Ok(()));
    assert_eq!(game.get_snake(), chain(&[(5.5, 7.5), (8.5, 7.5)]));
    assert_eq!(game.direction, v(1.0, 0.0));
}

#[test]
fn eating_with_a_tail_without_direction_fails_and_changes_nothing() {
    let mut game = game_with(&[(4.5, 7.5), (5.5, 7.5), (5.5, 4.5)], Movement::TOP, (5.5, 4.5));
    game.speed = fx(0.01);
    assert_eq!(game.process(fx(100.0), None), Err(GameError::DegenerateGeometry));
    assert_eq!(game.get_snake(), chain(&[(4.5, 7.5), (5.5, 7.5), (5.5, 4.5)]));
    assert_eq!(game.score, 0);
    assert_eq!(game.food, v(5.5, 4.5));
}

#[test]
fn eating_the_last_free_cell_fails_and_changes_nothing() {
    let mut game = game_with(&[(0.5, 3.5), (0.5, 1.0)], Movement::TOP, (0.5, 0.5));
    game.width = 1;
    game.height = 1;
    assert_eq!(game.process(fx(100.0), None), Err(GameError::NoFreeCell));
    assert_eq!(game.get_snake(), chain(&[(0.5, 3.5), (0.5, 1.0)]));
    assert_eq!(game.score, 0);
    assert_eq!(game.food, v(0.5, 0.5));
}

#[test]
fn eating_at_the_highest_score_fails() {
    let mut game = game_with(&[(5.5, 7.5), (8.5, 7.5)], Movement::RIGHT, (9.5, 7.5));
    game.score = i32::MAX;
    assert_eq!(game.process(fx(200.0), None), Err(GameError::OutOfRange));
    assert_eq!(game.get_snake(), chain(&[(5.5, 7.5), (8.5, 7.5)]));
    assert_eq!(game.score, i32::MAX);
    game.score = i32::MAX - 1;
    assert_eq!(game.process(fx(200.0), None), Ok(()));
    assert_eq!(game.score, i32::MAX);
}

#[test]
fn process_movement_alone_does_not_eat() {
    let mut game = game_with(&[(5.5, 7.5), (8.5, 7.5)], Movement::RIGHT, (9.5, 7.5));
    assert_eq!(game.process_movement(fx(200.0), None), Ok(()));
    assert_eq!(game.get_snake(), chain(&[(6.7, 7.5), (9.7, 7.5)]));
    assert_eq!(game.score, 0);
    assert_eq!(game.food, v(9.5, 7.5));
    assert_eq!(game.process_food(), Ok(()));
    assert_eq!(game.get_snake(), chain(&[(5.7, 7.5), (9.7, 7.5)]));
    assert_eq!(game.score, 1);
    assert!(game.food != v(9.5, 7.5));
}

#[test]
fn process_food_away_from_the_food_changes_nothing() {
    let mut game = game_with(&[(5.5, 7.5), (8.5, 7.5)], Movement::RIGHT, (9.5, 7.5));
    assert_eq!(game.process_food(), Ok(()));
    assert_eq!(game.get_snake(), chain(&[(5.5, 7.5), (8.5, 7.5)]));
    assert_eq!(game.score, 0);
    assert_eq!(game.food, v(9.5, 7.5));
}

#[test]
fn get_snake_is_a_snapshot() {
    let mut game = game_with(&[(5.5, 7.5), (8.5, 7.5)], Movement::RIGHT, (0.5, 0.5));
    let before = game.get_snake();
    assert_eq!(game.process(fx(100.0), None), Ok(()));
    assert_eq!(before, chain(&[(5.5, 7.5), (8.5, 7.5)]));
    assert_eq!(game.get_snake(), chain(&[(6.1, 7.5), (9.1, 7.5)]));
}

#[test]
fn a_new_game_is_valid() {
    for heading in [Movement::TOP, Movement::RIGHT, Movement::DOWN, Movement::LEFT] {
        let mut game = Game::new(17, 15, fx(0.006), 3, heading.direction()).unwrap();
        assert!(game.is_valid());
        game.food = v(0.5, 0.5);
        for _ in 0..5 {
            assert_eq!(game.process(fx(70.0), Some(Movement::TOP)), Ok(()));
            assert!(game.is_valid());
        }
    }
    assert!(Game::new(2, 1, fx(0.006), 0, Movement::RIGHT.direction()).unwrap().is_valid());
}

#[test]
fn a_game_with_a_broken_snake_is_not_valid() {
    let good = || game_with(&[(1.5, 1.5), (6.5, 1.5), (6.5, 3.5)], Movement::DOWN, (10.5, 10.5));
    assert!(good().is_valid());
    let mut short = good();
    short.snake.truncate(1);
    assert!(!short.is_valid());
    let mut empty = good();
    empty.snake.clear();
    assert!(!empty.is_valid());
    let mut slanted = good();
    slanted.snake[0] = v(1.5, 1.6);
    assert!(!slanted.is_valid());
    let mut far = good();
    far.snake[0] = Vector::new(-(1i64 << 40) - 1, fx(1.5));
    assert!(!far.is_valid());
    let mut far_head = good();
    far_head.snake[2] = Vector::new(fx(6.5), (1i64 << 40) + 1);
    assert!(!far_head.is_valid());
}

#[test]
fn a_game_heading_away_from_its_last_side_is_not_valid() {
    let points = [(1.5, 1.5), (6.5, 1.5), (6.5, 3.5)];
    assert!(game_with(&points, Movement::DOWN, (10.5, 10.5)).is_valid());
    assert!(!game_with(&points, Movement::TOP, (10.5, 10.5)).is_valid());
    assert!(!game_with(&points, Movement::LEFT, (10.5, 10.5)).is_valid());
    assert!(!game_with(&points, Movement::RIGHT, (10.5, 10.5)).is_valid());
    let still = [(1.5, 1.5), (6.5, 1.5), (6.5, 1.5)];
    for heading in [Movement::TOP, Movement::RIGHT, Movement::DOWN, Movement::LEFT] {
        assert!(game_with(&still, heading, (10.5, 10.5)).is_valid());
    }
    let mut skewed = game_with(&points, Movement::DOWN, (10.5, 10.5));
    skewed.direction = v(0.0, 2.0);
    assert!(!skewed.is_valid());
    skewed.direction = v(1.0, 1.0);
    assert!(!skewed.is_valid());
}

#[test]
fn a_game_with_board_or_food_out_of_range_is_not_valid() {
    let good = || game_with(&[(1.5, 1.5), (6.5, 1.5), (6.5, 3.5)], Movement::DOWN, (10.5, 10.5));
    let mut wide = good();
    wide.width = 10_996;
    assert!(!wide.is_valid());
    wide.width = 10_995;
    assert!(wide.is_valid());
    wide.width = -4;
    assert!(wide.is_valid());
    let mut high = good();
    high.height = i32::MAX;
    assert!(!high.is_valid());
    let mut lost = good();
    lost.food = Vector::new(i64::MIN, 0);
    assert!(!lost.is_valid());
    lost.food = Vector::new(1i64 << 40, -(1i64 << 40));
    assert!(lost.is_valid());
}

fn next_seed(seed: u64) -> u64 {
    seed.wrapping_mul(6_364_136_223_846_793_005).wrapping_add(1_442_695_040_888_963_407)
}

fn food_near_the_head(game: &Game, seed: u64) -> Vector {
    let head = game.snake[game.snake.len() - 1];
    let free = free_positions(game.width, game.height, &game.snake);
    let near: Vec<Vector> = free
        .iter()
        .copied()
        .filter(|p| (p.x - head.x).abs() <= 2 * UNIT && (p.y - head.y).abs() <= 2 * UNIT)
        .collect();
    let among = if near.is_empty() { &free } else { &near };
    among[((seed >> 20) % among.len() as u64) as usize]
}

#[test]
fn a_long_walk_keeps_the_game_valid() {
    let requests = [
        None,
        Some(Movement::TOP),
        Some(Movement::RIGHT),
        Some(Movement::DOWN),
        Some(Movement::LEFT),
    ];
    let spans = [fx(16.0), fx(33.5), fx(50.0), fx(7.25)];
    let mut seed: u64 = 0x2545_f491_4f6c_dd1d;
    let mut game = Game::new(17, 15, fx(0.006), 3, Movement::RIGHT.direction()).unwrap();
    game.food = food_near_the_head(&game, seed);
    let mut games = 1;
    let mut eaten = 0;
    for _ in 0..6000 {
        seed = next_seed(seed);
        let request = requests[((seed >> 33) % 5) as usize];
        let span_of_time = spans[((seed >> 40) % 4) as usize];
        let before = game.get_snake();
        let score = game.score;
        let food = game.food;
        let heading = game.direction;
        match game.process(span_of_time, request) {
            Ok(()) => {
                assert!(game.is_valid());
                assert!(game.score == score || game.score == score + 1);
                assert_eq!(body_length(&game.snake), (fx(3.0) + game.score as i64 * UNIT) as u64);
                if game.score > score {
                    eaten += 1;
                    assert!(free_positions(17, 15, &game.snake).contains(&game.food));
                    game.food = food_near_the_head(&game, seed);
                } else {
                    assert_eq!(game.food, food);
                }
                if game.direction != heading {
                    assert!(!game.direction.is_opposite(&heading));
                    let corner = game.snake[game.snake.len() - 2];
                    if heading.y == 0 {
                        assert_eq!((corner.x - HALF_UNIT).rem_euclid(UNIT), 0);
                    } else {
                        assert_eq!((corner.y - HALF_UNIT).rem_euclid(UNIT), 0);
                    }
                }
            }
            Err(error) => {
                assert_eq!(error, GameError::DegenerateGeometry);
                assert_eq!(game.get_snake(), before);
                assert_eq!(game.score, score);
                assert_eq!(game.food, food);
                assert_eq!(game.direction, heading);
            }
        }
        if game.is_over() {
            game = Game::new(17, 15, fx(0.006), 3, Movement::RIGHT.direction()).unwrap();
            game.food = food_near_the_head(&game, seed);
            games += 1;
        }
    }
    assert!(games > 1, "games: {}", games);
    assert!(eaten > 0, "eaten: {}", eaten);
}
