use game2048::board_value::BoardValue;
use game2048::field::Field;
use game2048::field_move_and_merge::{
    move_and_merge_down, move_and_merge_left, move_and_merge_right, move_and_merge_row_left,
    move_and_merge_up,
};

const X: BoardValue = BoardValue { value: 0 };
const TWO: BoardValue = BoardValue { value: 2 };
const FOUR: BoardValue = BoardValue { value: 4 };
const EIGHT: BoardValue = BoardValue { value: 8 };
const SIXTEEN: BoardValue = BoardValue { value: 16 };
const EMPTY_FIELD: Field = [[X, X, X, X], [X, X, X, X], [X, X, X, X], [X, X, X, X]];
const ALL_VALUES_LEFT: Field = [
    [TWO, X, X, X],
    [FOUR, X, X, X],
    [EIGHT, X, X, X],
    [SIXTEEN, X, X, X],
];
const ALL_VALUES_RIGHT: Field = [
    [X, X, X, TWO],
    [X, X, X, FOUR],
    [X, X, X, EIGHT],
    [X, X, X, SIXTEEN],
];
const ALL_VALUES_DOWN: Field = [
    [X, X, X, X],
    [X, X, X, X],
    [X, X, X, X],
    [SIXTEEN, EIGHT, FOUR, TWO],
];
const ALL_VALUES_UP: Field = [
    [SIXTEEN, EIGHT, FOUR, TWO],
    [X, X, X, X],
    [X, X, X, X],
    [X, X, X, X],
];

#[test]
fn field_move_and_merge_it_should_do_nothing_on_an_empty_field() {
    assert_eq!(move_and_merge_down(EMPTY_FIELD), EMPTY_FIELD);
}

#[test]
fn it_should_move_values_in_all_columns_downwards() {
    assert_eq!(move_and_merge_down(ALL_VALUES_UP), ALL_VALUES_DOWN);
}

#[test]
fn it_should_merge_values_in_all_columns_downwards() {
    assert_eq!(
        move_and_merge_down([
            [EIGHT, EIGHT, FOUR, TWO],
            [EIGHT, EIGHT, FOUR, TWO],
            [X, X, X, X],
            [X, X, X, X]
        ]),
        [
            [X, X, X, X],
            [X, X, X, X],
            [X, X, X, X],
            [SIXTEEN, SIXTEEN, EIGHT, FOUR]
        ]
    );
}

#[test]
fn it_should_do_nothing_on_an_empty_field() {
    assert_eq!(move_and_merge_up(EMPTY_FIELD), EMPTY_FIELD);
}

#[test]
fn it_should_move_values_in_all_columns_upwards() {
    assert_eq!(move_and_merge_up(ALL_VALUES_DOWN), ALL_VALUES_UP);
}

#[test]
fn it_should_merge_values_in_all_columns_upwards() {
    assert_eq!(
        move_and_merge_up([
            [X, X, X, X],
            [X, X, X, X],
            [EIGHT, EIGHT, FOUR, TWO],
            [EIGHT, EIGHT, FOUR, TWO]
        ]),
        [
            [SIXTEEN, SIXTEEN, EIGHT, FOUR],
            [X, X, X, X],
            [X, X, X, X],
            [X, X, X, X]
        ]
    );
}

#[test]
fn field_move_and_merge_it_should_do_nothing_on_an_empty_field_move_and_merge_right() {
    assert_eq!(move_and_merge_right(EMPTY_FIELD), EMPTY_FIELD);
}

#[test]
fn it_should_move_values_in_all_rows_to_the_right() {
    assert_eq!(move_and_merge_right(ALL_VALUES_LEFT), ALL_VALUES_RIGHT);
}

#[test]
fn field_move_and_merge_it_should_merge_values_in_all_rows_to_the_left() {
    assert_eq!(
        move_and_merge_right([
            [TWO, TWO, X, X],
            [FOUR, FOUR, X, X],
            [EIGHT, EIGHT, X, X],
            [EIGHT, EIGHT, X, X]
        ]),
        [
            [X, X, X, FOUR],
            [X, X, X, EIGHT],
            [X, X, X, SIXTEEN],
            [X, X, X, SIXTEEN]
        ]
    );
}

#[test]
fn field_move_and_merge_it_should_do_nothing_on_an_empty_field_move_and_merge_left() {
    assert_eq!(move_and_merge_left(EMPTY_FIELD), EMPTY_FIELD);
}

#[test]
fn field_move_and_merge_it_should_move_values_in_all_rows_to_the_left() {
    assert_eq!(move_and_merge_left(ALL_VALUES_RIGHT), ALL_VALUES_LEFT);
}

#[test]
fn it_should_merge_values_in_all_rows_to_the_left() {
    assert_eq!(
        move_and_merge_left([
            [X, X, TWO, TWO],
            [X, X, FOUR, FOUR],
            [X, X, EIGHT, EIGHT],
            [X, X, EIGHT, EIGHT]
        ]),
        [
            [FOUR, X, X, X],
            [EIGHT, X, X, X],
            [SIXTEEN, X, X, X],
            [SIXTEEN, X, X, X]
        ]
    );
}

#[test]
fn field_move_and_merge_it_should_do_nothing_on_an_empty_row() {
    assert_eq!(move_and_merge_row_left([X, X, X, X]), [X, X, X, X]);
}

#[test]
fn field_move_and_merge_it_should_move_one_value_from_last_to_first_spot() {
    assert_eq!(move_and_merge_row_left([X, X, X, TWO]), [TWO, X, X, X]);
}

#[test]
fn field_move_and_merge_it_should_move_one_value_from_third_to_first_spot() {
    assert_eq!(move_and_merge_row_left([X, X, TWO, X]), [TWO, X, X, X]);
}

#[test]
fn field_move_and_merge_it_should_not_move_value_in_first_spot() {
    assert_eq!(move_and_merge_row_left([TWO, X, X, X]), [TWO, X, X, X]);
}

#[test]
fn field_move_and_merge_it_should_move_one_value_from_second_to_first_spot() {
    assert_eq!(move_and_merge_row_left([X, TWO, X, X]), [TWO, X, X, X]);
}

#[test]
fn field_move_and_merge_it_should_stack_different_values() {
    assert_eq!(
        move_and_merge_row_left([TWO, X, FOUR, X]),
        [TWO, FOUR, X, X]
    );
}

#[test]
fn field_move_and_merge_it_should_move_stacked_values() {
    assert_eq!(
        move_and_merge_row_left([X, TWO, FOUR, X]),
        [TWO, FOUR, X, X]
    );
}

#[test]
fn field_move_and_merge_it_should_not_move_when_all_spots_have_different_values() {
    assert_eq!(
        move_and_merge_row_left([TWO, FOUR, EIGHT, SIXTEEN]),
        [TWO, FOUR, EIGHT, SIXTEEN]
    );
}

#[test]
fn field_move_and_merge_it_should_merge_same_values() {
    assert_eq!(move_and_merge_row_left([TWO, TWO, X, X]), [FOUR, X, X, X]);
}

#[test]
fn field_move_and_merge_it_should_merge_two_values_with_four() {
    assert_eq!(
        move_and_merge_row_left([FOUR, FOUR, X, X]),
        [EIGHT, X, X, X]
    );
}

#[test]
fn field_move_and_merge_it_should_merge_same_values_but_apart() {
    assert_eq!(move_and_merge_row_left([TWO, X, X, TWO]), [FOUR, X, X, X]);
}

#[test]
fn field_move_and_merge_it_should_merge_same_values_but_apart_not_in_first_spot() {
    assert_eq!(move_and_merge_row_left([X, TWO, X, TWO]), [FOUR, X, X, X]);
}

#[test]
fn field_move_and_merge_it_should_merge_two_same_values_and_leave_the_third_same_value() {
    assert_eq!(
        move_and_merge_row_left([TWO, TWO, TWO, X]),
        [FOUR, TWO, X, X]
    );
}

#[test]
fn field_move_and_merge_it_should_merge_two_same_values_and_leave_the_third_same_value_first_spot_empty() {
    assert_eq!(
        move_and_merge_row_left([X, TWO, TWO, TWO]),
        [FOUR, TWO, X, X]
    );
}

#[test]
fn field_move_and_merge_it_should_merge_both_twins_of_same_values() {
    assert_eq!(
        move_and_merge_row_left([TWO, TWO, TWO, TWO]),
        [FOUR, FOUR, X, X]
    );
}

#[test]
fn field_move_and_merge_it_should_merge_and_move_two_same_values() {
    assert_eq!(
        move_and_merge_row_left([FOUR, X, TWO, TWO]),
        [FOUR, FOUR, X, X]
    );
}

#[test]
fn field_move_and_merge_it_should_merge_and_move_two_same_values_empty_in_between() {
    assert_eq!(
        move_and_merge_row_left([FOUR, TWO, X, TWO]),
        [FOUR, FOUR, X, X]
    );
}

#[test]
fn field_move_and_merge_it_should_merge_and_move_two_same_values_first_spot_empty() {
    assert_eq!(
        move_and_merge_row_left([X, FOUR, TWO, TWO]),
        [FOUR, FOUR, X, X]
    );
}

#[test]
fn field_move_and_merge_it_should_merge_and_move_two_same_values_in_between_other_values() {
    assert_eq!(
        move_and_merge_row_left([FOUR, TWO, TWO, FOUR]),
        [FOUR, FOUR, FOUR, X]
    );
}
