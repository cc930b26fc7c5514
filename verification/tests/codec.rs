use snake::Cell;
use snake::Game;
use snake::codec::DecodeError;

fn decode_err(s: &str) -> DecodeError {
    Game::from_string(s, false).unwrap_err()
}

#[test]
fn empty_input_is_its_own_error() {
    assert_eq!(decode_err(""), DecodeError::EmptyInput);
}

#[test]
fn missing_board_prefix_is_rejected() {
    assert_eq!(decode_err("3x3|W9"), DecodeError::MissingBoardPrefix);
    assert_eq!(decode_err("|W9"), DecodeError::MissingBoardPrefix);
}

#[test]
fn bad_dimension_split_is_rejected() {
    assert_eq!(decode_err("B3|W9"), DecodeError::BadDimensionSplit);
    assert_eq!(decode_err("B3x3x3|W27"), DecodeError::BadDimensionSplit);
    assert_eq!(decode_err("B|W1"), DecodeError::BadDimensionSplit);
}

#[test]
fn unparsable_dimensions_are_rejected() {
    assert_eq!(decode_err("Bax3|W9"), DecodeError::InvalidHeight);
    assert_eq!(decode_err("B3xa|W9"), DecodeError::InvalidWidth);
    assert_eq!(decode_err("Bx3|W9"), DecodeError::InvalidHeight);
    // a value past the machine word fails the standard parse
    assert_eq!(
        decode_err("B99999999999999999999999999x3|W9"),
        DecodeError::InvalidHeight
    );
}

#[test]
fn unknown_letter_codes_are_rejected() {
    assert_eq!(decode_err("B3x3|W3|W1S1Q1|W3"), DecodeError::UnknownChar);
    assert_eq!(decode_err("B1x1|Z1"), DecodeError::UnknownChar);
}

#[test]
fn duplicate_snake_cells_are_rejected() {
    assert_eq!(decode_err("B1x4|S1E1S1W1"), DecodeError::MultipleSnakes);
    // a single S token of run length 2 already writes two snake cells
    assert_eq!(decode_err("B1x2|S2"), DecodeError::MultipleSnakes);
}

#[test]
fn cell_count_must_match_the_dimensions() {
    assert_eq!(decode_err("B3x3|W3"), DecodeError::DimensionMismatch);
    assert_eq!(decode_err("B1x2|S1E1W1"), DecodeError::DimensionMismatch);
}

#[test]
fn a_board_without_a_snake_is_rejected() {
    assert_eq!(decode_err("B1x3|W3"), DecodeError::NoSnake);
}

#[test]
fn a_bare_letter_emits_zero_cells() {
    // "W" with no digits counts 0 cells, a quirk the format keeps
    let game = Game::from_string("B1x2|S1E1W", false).unwrap();
    assert_eq!(game.cells.len(), 2);
    assert_eq!(game.cells[0], Cell::Snake);
    // a bare "S" emits no snake cell at all
    assert_eq!(decode_err("B1x1|S"), DecodeError::DimensionMismatch);
}

#[test]
fn a_segment_break_detaches_run_digits() {
    // the digit after the '|' no longer belongs to the "E" token, so
    // only one cell is decoded
    assert_eq!(decode_err("B1x2|S1E|1"), DecodeError::DimensionMismatch);
}

#[test]
fn rows_are_filled_flat_without_regard_to_row_breaks() {
    let game = Game::from_string("B2x3|S1W5", false).unwrap();
    assert_eq!(game.height, 2);
    assert_eq!(game.width, 3);
    assert_eq!(game.cells.len(), 6);
    assert_eq!(game.cells[0], Cell::Snake);
}

#[test]
fn a_leading_plus_parses_like_the_standard_library() {
    let game = Game::from_string("B+1x+3|S1E1W1", false).unwrap();
    assert_eq!(game.height, 1);
    assert_eq!(game.width, 3);
}

#[test]
fn decoding_initial_state() {
    let game = Game::from_string("B3x3|W3|W1S1E1|W3", true).unwrap();
    assert_eq!(game.height, 3);
    assert_eq!(game.width, 3);
    assert_eq!(game.score, 0);
    assert!(!game.game_over);
    assert_eq!(game.snake.coordinates.len(), 1);
    assert_eq!(*game.snake.coordinates.front().unwrap(), 4);
    // the single Plain cell receives the food
    assert_eq!(game.cells[5], Cell::Food);
}

#[test]
fn encode_writes_the_canonical_run_length_form() {
    let game = Game::from_string("B3x3|W3|W1S1E1|W3", true).unwrap();
    // the food on cell 5 is written as Plain
    assert_eq!(game.encode(), "B3x3|W4S1E1W3");
}

#[test]
fn encode_then_decode_round_trips() {
    let game = Game::from_string("B3x3|W3|W1S1E1|W3", true).unwrap();
    let encoded = game.encode();
    let again = Game::from_string(&encoded, true).unwrap();
    assert_eq!(again.width, game.width);
    assert_eq!(again.height, game.height);
    assert_eq!(again.snake.coordinates, game.snake.coordinates);
    // the sole Plain cell of the shape receives the food again, so even
    // the food position survives this round trip
    assert_eq!(again.cells, game.cells);
}

#[test]
fn round_trip_of_a_fresh_board_keeps_the_shape() {
    let game = Game::new(6, 5, false);
    let encoded = game.encode();
    let again = Game::from_string(&encoded, false).unwrap();
    assert_eq!(again.width, 6);
    assert_eq!(again.height, 5);
    assert_eq!(again.snake.coordinates, game.snake.coordinates);
    assert_eq!(again.cells.len(), game.cells.len());
    for i in 0..game.cells.len() {
        let a = game.cells[i];
        let b = again.cells[i];
        // food is placed independently on each side of the round trip
        let a_shape = if a == Cell::Food { Cell::Plain } else { a };
        let b_shape = if b == Cell::Food { Cell::Plain } else { b };
        assert_eq!(a_shape, b_shape);
    }
}

#[test]
fn error_messages_are_human_readable() {
    assert_eq!(DecodeError::EmptyInput.message(), "Empty string");
    assert_eq!(DecodeError::MultipleSnakes.message(), "Multiple snakes");
    assert_eq!(DecodeError::NoSnake.message(), "No snake found");
}
