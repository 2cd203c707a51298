use game2048::board_value::BoardValue;
use game2048::field::Field;
use game2048::field_gameover::{get_all_cell_neighbours, is_game_over};

const X: BoardValue = BoardValue { value: 0 };
const TWO: BoardValue = BoardValue { value: 2 };
const FOUR: BoardValue = BoardValue { value: 4 };
const EIGHT: BoardValue = BoardValue { value: 8 };

#[test]
fn it_should_return_all_touples_in_an_full_field() {
    const FULL_FIELD: Field = [
        [FOUR, TWO, FOUR, TWO],
        [TWO, FOUR, TWO, FOUR],
        [FOUR, TWO, FOUR, TWO],
        [TWO, FOUR, TWO, FOUR],
    ];
    let actual = get_all_cell_neighbours(FULL_FIELD);
    assert_eq!(24, actual.len());
}

#[test]
fn it_should_return_true_if_field_is_full_of_unmergeable_numbers() {
    const FULL_FIELD: Field = [
        [FOUR, TWO, FOUR, TWO],
        [TWO, FOUR, TWO, FOUR],
        [FOUR, TWO, FOUR, TWO],
        [TWO, FOUR, TWO, FOUR],
    ];
    assert_eq!(true, is_game_over(FULL_FIELD));
}

#[test]
fn it_should_return_false_if_field_can_be_moved_down() {
    const LAST_ROW_EMPTY: Field = [
        [FOUR, TWO, FOUR, TWO],
        [TWO, FOUR, TWO, FOUR],
        [FOUR, TWO, FOUR, TWO],
        [X, X, X, X],
    ];
    assert_eq!(false, is_game_over(LAST_ROW_EMPTY));
}

#[test]
fn it_should_return_false_if_field_can_be_moved_up() {
    const FIRST_ROW_EMPTY: Field = [
        [X, X, X, X],
        [FOUR, TWO, FOUR, TWO],
        [TWO, FOUR, TWO, FOUR],
        [FOUR, TWO, FOUR, TWO],
    ];
    assert_eq!(false, is_game_over(FIRST_ROW_EMPTY));
}

#[test]
fn it_should_return_false_if_field_can_be_moved_left() {
    const LEFT_COLUMN_EMPTY: Field = [
        [X, FOUR, TWO, FOUR],
        [X, TWO, FOUR, TWO],
        [X, FOUR, TWO, FOUR],
        [X, TWO, FOUR, TWO],
    ];
    assert_eq!(false, is_game_over(LEFT_COLUMN_EMPTY));
}

#[test]
fn it_should_return_false_if_field_can_be_moved_right() {
    const RIGHT_COLUMN_EMPTY: Field = [
        [TWO, FOUR, TWO, X],
        [FOUR, TWO, FOUR, X],
        [TWO, FOUR, TWO, X],
        [FOUR, TWO, FOUR, X],
    ];
    assert_eq!(false, is_game_over(RIGHT_COLUMN_EMPTY));
}

#[test]
fn it_should_return_false_if_field_can_be_merged_right() {
    const FULL_BUT_MERGEABLE: Field = [
        [TWO, FOUR, EIGHT, EIGHT], // can be merged left or right
        [FOUR, TWO, FOUR, TWO],
        [TWO, FOUR, TWO, FOUR],
        [FOUR, TWO, FOUR, TWO],
    ];
    assert_eq!(false, is_game_over(FULL_BUT_MERGEABLE));
}

#[test]
fn it_should_return_false_if_one_field_is_zero() {
    const ONE_FIELD_ZERO: Field = [
        [TWO, FOUR, TWO, X],
        [FOUR, TWO, FOUR, TWO],
        [TWO, FOUR, TWO, FOUR],
        [FOUR, TWO, FOUR, TWO],
    ];
    assert_eq!(false, is_game_over(ONE_FIELD_ZERO));
}

#[test]
fn it_should_return_false_if_field_can_be_merged_right_by_same_value_instances() {
    const EIGHT_ONE:BoardValue = BoardValue { value: 8 };
    const EIGHT_TWO:BoardValue = BoardValue { value: 8 };
    const FULL_BUT_MERGEABLE: Field = [
        [TWO, FOUR, EIGHT_ONE, EIGHT_TWO], // can be merged left or right
        [FOUR, TWO, FOUR, TWO],
        [TWO, FOUR, TWO, FOUR],
        [FOUR, TWO, FOUR, TWO],
    ];
    assert_eq!(false, is_game_over(FULL_BUT_MERGEABLE));
}
