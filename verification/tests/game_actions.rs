use game2048::board::Board;
use game2048::board_value::BoardValue;
use game2048::field::Field;
use game2048::highscore_calculator::Highscore;
use game2048::random::RandomNumber;

const X: BoardValue = BoardValue { value: 0 };
const TWO: BoardValue = BoardValue { value: 2 };
const FOUR: BoardValue = BoardValue { value: 4 };

/// The draw nearest below the given number of the range from zero to one.
fn draw(number: f32) -> RandomNumber {
    RandomNumber::new((number * 16_777_216.0) as u32).unwrap()
}

fn move_field_down(field: Field, value: f32, position: f32) -> (Field, Highscore) {
    game2048::game_actions::move_field_down(field, draw(value), draw(position))
}

fn move_field_right(field: Field, value: f32, position: f32) -> (Field, Highscore) {
    game2048::game_actions::move_field_right(field, draw(value), draw(position))
}

fn move_field_up(field: Field, value: f32, position: f32) -> (Field, Highscore) {
    game2048::game_actions::move_field_up(field, draw(value), draw(position))
}

fn move_field_left(field: Field, value: f32, position: f32) -> (Field, Highscore) {
    game2048::game_actions::move_field_left(field, draw(value), draw(position))
}

fn initialize(board: &mut Board, value: f32, position: f32) {
    game2048::game_actions::initialize(board, draw(value), draw(position))
}

#[test]
fn game_actions_it_should_perform_the_action() {
    let source_field = [
        [TWO, TWO, X, TWO],
        [TWO, X, X, TWO],
        [X, X, X, TWO],
        [X, X, TWO, TWO]
    ];
    let (new_field, _) = move_field_down(source_field, 0.0, 0.0);
    assert_eq!(new_field, [
        [TWO, X, X, X],
        [X, X, X, X],
        [X, X, X, FOUR],
        [FOUR, TWO, TWO, FOUR]
    ]);
}

#[test]
fn game_actions_it_should_not_add_value_if_nothing_changed() {
    let source_field = [
        [X, X, X, X],
        [X, X, X, X],
        [X, X, X, X],
        [TWO, X, X, X]
    ];
    let (new_field, _) = move_field_down(source_field, 0.0, 0.0);
    assert_eq!(new_field, [
        [X, X, X, X],
        [X, X, X, X],
        [X, X, X, X],
        [TWO, X, X, X]
    ]);
}

#[test]
fn game_actions_it_should_return_added_points() {
    let source_field = [
        [X, X, X, X],
        [X, X, X, X],
        [TWO, X, X, X],
        [TWO, X, X, X]
    ];
    let (_, actual_added_points) = move_field_down(source_field, 0.0, 0.0);
    assert_eq!(actual_added_points, 4);
}

#[test]
fn it_should_perform_the_action() {
    let source_field = [
        [TWO, TWO, X, TWO],
        [TWO, X, X, TWO],
        [X, X, X, TWO],
        [X, X, TWO, TWO]
    ];

    let (new_field, _) = move_field_right(source_field, 0.0, 0.0);
    assert_eq!(new_field, [
        [TWO, X, TWO, FOUR],
        [X, X, X, FOUR],
        [X, X, X, TWO],
        [X, X, X, FOUR]
    ]);
}

#[test]
fn it_should_not_add_value_if_nothing_changed() {
    let source_field = [
        [X, X, X, TWO],
        [X, X, X, X],
        [X, X, X, X],
        [X, X, X, X]
    ];

    let (new_field, _) = move_field_right(source_field, 0.0, 0.0);
    assert_eq!(new_field, [
        [X, X, X, TWO],
        [X, X, X, X],
        [X, X, X, X],
        [X, X, X, X]
    ]);
}

#[test]
fn it_should_return_added_points() {
    let source_field = [
        [X, X, TWO, TWO],
        [X, X, X, X],
        [X, TWO, TWO, X],
        [X, X, X, X]
    ];

    let (_, actual_added_points) = move_field_right(source_field, 0.0, 0.0);
    assert_eq!(actual_added_points, 8);
}

#[test]
fn game_actions_it_should_perform_the_action_move_field_up() {
    let source_field = [
        [TWO, TWO, X, TWO],
        [TWO, X, X, TWO],
        [X, X, X, TWO],
        [X, X, TWO, TWO]
    ];

    let (new_field, _) = move_field_up(source_field, 0.0, 0.0);
    assert_eq!(new_field, [
        [FOUR, TWO , TWO, FOUR],
        [TWO, X, X, FOUR],
        [X, X, X, X],
        [X, X, X, X]
    ]);
}

#[test]
fn game_actions_it_should_not_add_value_if_nothing_changed_move_field_up() {
    let source_field= [
        [TWO, X, X, X],
        [X, X, X, X],
        [X, X, X, X],
        [X, X, X, X]
    ];

    let (new_field, _) = move_field_up(source_field, 0.0, 0.0);
    assert_eq!(new_field, [
        [TWO, X, X, X],
        [X, X, X, X],
        [X, X, X, X],
        [X, X, X, X]
    ]);
}

#[test]
fn game_actions_it_should_return_added_points_move_field_up() {
    let source_field = [
        [TWO, X, X, FOUR],
        [TWO, X, X, FOUR],
        [X, X, X, X],
        [X, X, X, X]
    ];

    let (_, actual_added_points) = move_field_up(source_field, 0.0, 0.0);

    assert_eq!(actual_added_points, 12);
}

#[test]
fn game_actions_it_should_perform_the_action_move_field_left() {
    let source_field = [
        [TWO, TWO, X, TWO],
        [TWO, X, X, TWO],
        [X, X, X, TWO],
        [X, X, TWO, TWO]
    ];

    let (new_field, _) = move_field_left(source_field, 0.99, 0.99);
    assert_eq!(new_field, [
        [FOUR, TWO, X, X],
        [FOUR, X, X, X],
        [TWO, X, X, X],
        [FOUR, X, X, FOUR]
    ]);
}

#[test]
fn game_actions_it_should_not_add_value_if_nothing_changed_move_field_left() {
    let source_field= [
        [X, X, X, X],
        [X, X, X, X],
        [X, X, X, X],
        [TWO, X, X, X]
    ];

    let (new_field, _) = move_field_left(source_field, 0.0, 0.0);
    assert_eq!(new_field, [
        [X, X, X, X],
        [X, X, X, X],
        [X, X, X, X],
        [TWO, X, X, X]
    ]);
}

#[test]
fn game_actions_it_should_return_added_points_move_field_left() {
    let source_field = [
        [X, FOUR, FOUR, X],
        [X, X, X, X],
        [X, X, X, X],
        [TWO, TWO, TWO, TWO]
    ];

    let (_, actual_added_points) = move_field_left(source_field, 0.0, 0.0);

    assert_eq!(actual_added_points, 16);
}

#[test]
fn it_should_initialize_the_board() {
    let mut board = Board::from_field([
        [X, X, X, X],
        [X, X, X, X],
        [X, X, X, X],
        [X, X, X, X]
    ]);
    initialize(&mut board, 0.0, 0.0);
    assert_eq!(board, Board::from_field([
        [TWO, X, X, X],
        [X, X, X, X],
        [X, X, X, X],
        [X, X, X, X]
    ]));
}
