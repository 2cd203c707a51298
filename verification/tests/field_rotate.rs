use game2048::board_value::BoardValue;
use game2048::field::Field;
use game2048::field_rotate::{rotate_clockwise, rotate_counterclockwise};

const X: BoardValue = BoardValue { value: 0 };
const TWO: BoardValue = BoardValue { value: 2 };
const EMPTY_FIELD: Field = [[X, X, X, X], [X, X, X, X], [X, X, X, X], [X, X, X, X]];

#[test]
fn field_rotate_it_should_rotate_empty_field() {
    assert_eq!(rotate_clockwise(EMPTY_FIELD), EMPTY_FIELD);
}

#[test]
fn field_rotate_it_should_rotate_top_left_value_to_top_right_value() {
    assert_eq!(
        rotate_clockwise([[TWO, X, X, X], [X, X, X, X], [X, X, X, X], [X, X, X, X]]),
        [[X, X, X, TWO], [X, X, X, X], [X, X, X, X], [X, X, X, X]]
    );
}

#[test]
fn it_should_rotate_empty_field() {
    assert_eq!(rotate_counterclockwise(EMPTY_FIELD), EMPTY_FIELD);
}

#[test]
fn it_should_rotate_top_left_value_to_top_right_value() {
    assert_eq!(
        rotate_counterclockwise([[TWO, X, X, X], [X, X, X, X], [X, X, X, X], [X, X, X, X]]),
        [[X, X, X, X], [X, X, X, X], [X, X, X, X], [TWO, X, X, X]]
    );
}
