use game2048::board_value::BoardValue;
use game2048::field::{Field, Row};
use game2048::highscore_calculator::{
    calculate_added_points_down, calculate_added_points_left, calculate_added_points_per_row_left,
    calculate_added_points_right, calculate_added_points_up,
};

const X: BoardValue = BoardValue { value: 0 };
const TWO: BoardValue = BoardValue { value: 2 };
const FOUR: BoardValue = BoardValue { value: 4 };
const EIGHT: BoardValue = BoardValue { value: 8 };
const EMPTY_FIELD: Field = [[X, X, X, X], [X, X, X, X], [X, X, X, X], [X, X, X, X]];
const EMPTY_ROW: Row = [X, X, X, X];
const ROW_WITH_TWO_LEFT: Row = [TWO, X, X, X];

#[test]
fn highscore_calculator_it_should_return_zero_if_fields_are_equal() {
    assert_eq!(calculate_added_points_down(EMPTY_FIELD, EMPTY_FIELD), 0);
}

#[test]
fn highscore_calculator_it_should_calculate_all_rows() {
    assert_eq!(
        calculate_added_points_down(
            [
                [TWO, TWO, X, X],
                [X, TWO, X, X],
                [X, X, X, X],
                [TWO, TWO, TWO, TWO]
            ],
            [
                [X, X, X, X],
                [X, X, X, X],
                [X, TWO, X, X],
                [FOUR, FOUR, TWO, TWO] // 4    4   0   0
            ]
        ),
        4 + 4
    );
}

#[test]
fn it_should_return_zero_if_fields_are_equal() {
    assert_eq!(calculate_added_points_up(EMPTY_FIELD, EMPTY_FIELD), 0);
}

#[test]
fn it_should_calculate_all_rows() {
    assert_eq!(
        calculate_added_points_up(
            [
                [TWO, TWO, TWO, TWO],
                [X, X, X, X],
                [X, TWO, X, X],
                [TWO, TWO, X, X]
            ],
            [
                // 4    4   0   0
                [FOUR, FOUR, TWO, TWO],
                [X, TWO, X, X],
                [X, X, X, X],
                [X, X, X, X]
            ]
        ),
        4 + 4
    );
}

#[test]
fn highscore_calculator_it_should_return_zero_if_fields_are_equal_calculate_added_points_right() {
    assert_eq!(calculate_added_points_right(EMPTY_FIELD, EMPTY_FIELD), 0);
}

#[test]
fn highscore_calculator_it_should_calculate_all_rows_calculate_added_points_right() {
    assert_eq!(
        calculate_added_points_right(
            [
                [TWO, TWO, TWO, TWO],
                [X, X, X, X],
                [X, TWO, X, X],
                [TWO, TWO, X, X]
            ],
            [
                [X, X, FOUR, FOUR], // 8 points
                [X, X, X, X],       // 0 points
                [X, X, X, TWO],     // 0 points
                [X, X, X, FOUR]     // 4 points
            ]
        ),
        8 + 4
    );
}

#[test]
fn highscore_calculator_it_should_return_zero_if_fields_are_equal_calculate_added_points_left() {
    assert_eq!(calculate_added_points_left(EMPTY_FIELD, EMPTY_FIELD), 0);
}

#[test]
fn highscore_calculator_it_should_calculate_all_rows_calculate_added_points_left() {
    assert_eq!(
        calculate_added_points_left(
            [
                [TWO, TWO, TWO, TWO],
                [X, X, X, X],
                [X, TWO, X, X],
                [TWO, TWO, X, X]
            ],
            [
                [FOUR, FOUR, X, X], // 8 points
                [X, X, X, X],       // 0 points
                [TWO, X, X, X],     // 0 points
                [FOUR, X, X, X]     // 4 points
            ]
        ),
        8 + 4
    );
}

#[test]
fn it_should_return_zero_if_rows_are_equal() {
    assert_eq!(calculate_added_points_per_row_left(EMPTY_ROW, EMPTY_ROW), 0);
}

#[test]
fn it_should_return_zero_if_non_empty_rows_are_equal() {
    assert_eq!(
        calculate_added_points_per_row_left(ROW_WITH_TWO_LEFT, ROW_WITH_TWO_LEFT),
        0
    );
}

#[test]
fn it_should_return_four_if_two_twos_are_merged() {
    assert_eq!(
        calculate_added_points_per_row_left([TWO, TWO, X, X], [FOUR, X, X, X]),
        4
    );
}

#[test]
fn it_should_return_eight_if_four_twos_are_merged() {
    assert_eq!(
        calculate_added_points_per_row_left([TWO, TWO, TWO, TWO], [FOUR, FOUR, X, X]),
        8
    );
}

#[test]
fn it_should_return_zero_if_nothing_was_merged() {
    assert_eq!(
        calculate_added_points_per_row_left([TWO, FOUR, X, X], [TWO, FOUR, X, X]),
        0
    );
}

#[test]
fn it_should_return_four_last_two_twos_are_merged() {
    assert_eq!(
        calculate_added_points_per_row_left(
            [EIGHT, FOUR, TWO, TWO],
            [EIGHT, FOUR, FOUR, X]
        ),
        4
    );
}

#[test]
fn it_should_return_zero_if_two_was_just_moved() {
    assert_eq!(
        calculate_added_points_per_row_left([X, X, X, TWO], [TWO, X, X, X]),
        0
    );
}

#[test]
fn it_should_return_zero_if_four_was_just_moved() {
    assert_eq!(
        calculate_added_points_per_row_left([X, X, TWO, FOUR], [TWO, FOUR, X, X]),
        0
    );
}

#[test]
fn it_should_return_zero_if_eight_was_just_moved() {
    assert_eq!(
        calculate_added_points_per_row_left([X, TWO, FOUR, EIGHT], [TWO, FOUR, EIGHT, X]),
        0
    );
}

#[test]
fn it_should_return_four_if_two_twos_are_moved_and_merged() {
    assert_eq!(
        calculate_added_points_per_row_left([X, TWO, X, TWO], [FOUR, X, X, X]),
        4
    );
}

#[test]
fn it_should_return_four_if_two_twos_are_merged_and_one_is_moved() {
    assert_eq!(
        calculate_added_points_per_row_left([X, TWO, TWO, TWO], [FOUR, TWO, X, X]),
        4
    );
}

#[test]
fn it_should_return_four_if_two_twos_are_merged_and_one_four_is_moved() {
    assert_eq!(
        calculate_added_points_per_row_left([X, TWO, TWO, FOUR], [FOUR, FOUR, X, X]),
        4
    );
}

#[test]
fn it_should_return_four_if_two_fours_are_merged_and_two_twos_are_moved() {
    assert_eq!(
        calculate_added_points_per_row_left([TWO, FOUR, FOUR, TWO], [TWO, EIGHT, TWO, X]),
        8
    );
}

#[test]
fn it_should_return_four_if_two_fours_and_two_twos_are_merged() {
    assert_eq!(
        calculate_added_points_per_row_left([FOUR, FOUR, TWO, TWO], [EIGHT, FOUR, X, X]),
        12
    );
}
