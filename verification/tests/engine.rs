use snake::Cell;
use snake::Direction;
use snake::Game;
use snake::Snake;
use std::collections::VecDeque;

fn idx(game: &Game, x: usize, y: usize) -> usize {
    y * game.width + x
}

fn count_cells(game: &Game, kind: Cell) -> usize {
    game.cells.iter().filter(|c| **c == kind).count()
}

/// A hand-built 2x2 open board with a snake of the given body indices
/// (front = head) and no walls or food.
fn open_board_2x2(body: &[usize], direction: Direction) -> Game {
    let mut cells = vec![Cell::Plain; 4];
    let mut coordinates = VecDeque::new();
    for &i in body {
        cells[i] = Cell::Snake;
        coordinates.push_back(i);
    }
    Game {
        cells,
        width: 2,
        height: 2,
        snake: Snake { coordinates, direction },
        score: 0,
        game_over: false,
        grow_on_eat: false,
    }
}

#[test]
fn new_board_has_wall_ring_snake_and_one_food() {
    let game = Game::new(20, 10, true);
    assert_eq!(game.width, 20);
    assert_eq!(game.height, 10);
    assert_eq!(game.cells.len(), 200);
    for x in 0..20 {
        assert_eq!(game.cells[idx(&game, x, 0)], Cell::Wall);
        assert_eq!(game.cells[idx(&game, x, 9)], Cell::Wall);
    }
    for y in 0..10 {
        assert_eq!(game.cells[idx(&game, 0, y)], Cell::Wall);
        assert_eq!(game.cells[idx(&game, 19, y)], Cell::Wall);
    }
    assert_eq!(game.cells[idx(&game, 2, 2)], Cell::Snake);
    assert_eq!(count_cells(&game, Cell::Snake), 1);
    assert_eq!(count_cells(&game, Cell::Food), 1);
    assert_eq!(game.snake.coordinates.len(), 1);
    assert_eq!(*game.snake.coordinates.front().unwrap(), 2 * 20 + 2);
    assert_eq!(game.snake.direction, Direction::Right);
    assert_eq!(game.score, 0);
    assert!(!game.game_over);
}

#[test]
fn new_minimal_board_puts_food_on_the_only_plain_cell() {
    // on a 3x3 grid the fixed start index 2 * width + 2 = 8 sits on the
    // ring, so the single interior cell 4 is the only Plain cell left
    let game = Game::new(3, 3, false);
    assert_eq!(game.cells[8], Cell::Snake);
    assert_eq!(game.cells[4], Cell::Food);
    assert_eq!(count_cells(&game, Cell::Food), 1);
}

#[test]
fn growth_mode_eating_lengthens_and_scores() {
    // one row: S E W, so the food lands on the single Plain cell 1
    let mut game = Game::from_string("B1x3|S1E1W1", true).unwrap();
    assert_eq!(game.cells[1], Cell::Food);
    game.update(Direction::Right);
    assert!(!game.game_over);
    assert_eq!(game.score, 1);
    assert_eq!(game.snake.coordinates.len(), 2);
    assert_eq!(*game.snake.coordinates.front().unwrap(), 1);
    assert_eq!(*game.snake.coordinates.back().unwrap(), 0);
    assert_eq!(game.cells[0], Cell::Snake);
    assert_eq!(game.cells[1], Cell::Snake);
}

#[test]
fn constant_length_eating_scores_and_moves_tail() {
    let mut game = Game::from_string("B1x3|S1E1W1", false).unwrap();
    assert_eq!(game.cells[1], Cell::Food);
    game.update(Direction::Right);
    assert!(!game.game_over);
    assert_eq!(game.score, 1);
    assert_eq!(game.snake.coordinates.len(), 1);
    assert_eq!(*game.snake.coordinates.front().unwrap(), 1);
    assert_eq!(game.cells[1], Cell::Snake);
    // the vacated cell is the only Plain cell, so the new food sits there
    assert_eq!(game.cells[0], Cell::Food);
}

#[test]
fn tail_follow_does_not_end_the_game() {
    // head at 1 = (1,0), tail at 0 = (0,0); moving Left from a Down
    // heading walks into the tail cell, which is vacated the same tick
    let mut game = open_board_2x2(&[1, 0], Direction::Down);
    game.update(Direction::Left);
    assert!(!game.game_over);
    assert_eq!(*game.snake.coordinates.front().unwrap(), 0);
    assert_eq!(*game.snake.coordinates.back().unwrap(), 1);
    assert_eq!(game.cells[0], Cell::Snake);
    assert_eq!(game.cells[1], Cell::Snake);
    assert_eq!(game.cells[2], Cell::Plain);
    assert_eq!(game.cells[3], Cell::Plain);
}

#[test]
fn moving_into_a_non_tail_segment_ends_the_game() {
    // body 0 -> 1 -> 3, head at 0 = (0,0); moving Right hits segment 1,
    // which is not the tail
    let mut game = open_board_2x2(&[0, 1, 3], Direction::Down);
    game.update(Direction::Right);
    assert!(game.game_over);
    assert_eq!(game.snake.coordinates.len(), 3);
    assert_eq!(game.cells[0], Cell::Snake);
    assert_eq!(game.cells[1], Cell::Snake);
    assert_eq!(game.cells[3], Cell::Snake);
}

#[test]
fn reversal_is_rejected_for_a_long_snake() {
    let mut game = open_board_2x2(&[1, 0], Direction::Right);
    // head at 1 = (1,0); Left would reverse, so the snake keeps moving
    // Right and crosses the bound
    game.update(Direction::Left);
    assert_eq!(game.snake.direction, Direction::Right);
    assert!(game.game_over);
}

#[test]
fn reversal_is_accepted_for_a_single_segment_snake() {
    // one row: E S W with the food on cell 0; a length-1 snake may turn
    // straight around
    let mut game = Game::from_string("B1x3|E1S1W1", false).unwrap();
    assert_eq!(game.cells[0], Cell::Food);
    assert_eq!(game.snake.direction, Direction::Right);
    game.update(Direction::Left);
    assert_eq!(game.snake.direction, Direction::Left);
    assert!(!game.game_over);
    assert_eq!(game.score, 1);
    assert_eq!(*game.snake.coordinates.front().unwrap(), 0);
}

#[test]
fn keep_input_keeps_the_current_direction() {
    let mut game = open_board_2x2(&[0], Direction::Down);
    game.update(Direction::Keep);
    assert_eq!(game.snake.direction, Direction::Down);
    assert_eq!(*game.snake.coordinates.front().unwrap(), 2);
}

#[test]
fn crossing_the_bound_ends_the_game_without_mutation() {
    let mut game = Game::from_string("B1x2|S1E1", false).unwrap();
    let cells_before = game.cells.clone();
    game.update(Direction::Up);
    assert!(game.game_over);
    assert_eq!(game.cells, cells_before);
    assert_eq!(game.snake.coordinates.len(), 1);
    assert_eq!(*game.snake.coordinates.front().unwrap(), 0);
    assert_eq!(game.score, 0);
}

#[test]
fn crossing_the_left_bound_ends_the_game() {
    let mut game = Game::from_string("B1x2|S1E1", false).unwrap();
    game.update(Direction::Left);
    assert!(game.game_over);
}

#[test]
fn a_finished_game_is_frozen() {
    let mut game = Game::from_string("B1x2|S1E1", false).unwrap();
    game.update(Direction::Up);
    assert!(game.game_over);
    let cells_before = game.cells.clone();
    let dir_before = game.snake.direction;
    game.update(Direction::Down);
    assert!(game.game_over);
    assert_eq!(game.cells, cells_before);
    assert_eq!(game.snake.direction, dir_before);
    assert_eq!(game.score, 0);
}

#[test]
fn walking_into_a_wall_ends_the_game() {
    // one row: S W with the food impossible; cells S W E keeps a Plain
    // cell for the food, and the wall sits straight ahead
    let mut game = Game::from_string("B1x3|S1W1E1", false).unwrap();
    game.update(Direction::Right);
    assert!(game.game_over);
}
