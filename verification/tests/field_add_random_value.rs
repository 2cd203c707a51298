use game2048::board_value::BoardValue;
use game2048::field::Field;
use game2048::random::RandomNumber;

const X: BoardValue = BoardValue { value: 0 };
const TWO: BoardValue = BoardValue { value: 2 };
const FOUR: BoardValue = BoardValue { value: 4 };
const EMPTY_FIELD: Field = [[X, X, X, X], [X, X, X, X], [X, X, X, X], [X, X, X, X]];
const NON_EMPTY_FIELD: Field = [[TWO, X, X, X], [X, X, X, X], [X, X, X, X], [X, X, X, X]];
const ONLY_ONE_EMPTY_CELL_FIELD: Field = [
    [TWO, TWO, TWO, TWO],
    [TWO, TWO, TWO, TWO],
    [TWO, TWO, TWO, TWO],
    [TWO, TWO, TWO, X],
];
const FULL_FIELD: Field = [
    [TWO, TWO, TWO, TWO],
    [TWO, TWO, TWO, TWO],
    [TWO, TWO, TWO, TWO],
    [TWO, TWO, TWO, TWO],
];
const FAKE_RANDOM_NUMBER_VALUE_ZERO: f32 = 0.0;
const FAKE_RANDOM_NUMBER_POSITION_ZERO: f32 = 0.0;
const FAKE_RANDOM_NUMBER_VALUE_ZERO_POINT_ONE: f32 = 0.1;
const FAKE_RANDOM_NUMBER_VALUE_ZERO_POINT_EIGHT: f32 = 0.8;
const FAKE_RANDOM_NUMBER_VALUE_ZERO_POINT_NINE: f32 = 0.9;
const FAKE_RANDOM_NUMBER_POSITION_ZERO_POINT_NINE_NINE: f32 = 0.99;
const FAKE_RANDOM_NUMBER_POSITION_ZERO_POINT_FIVE: f32 = 0.54;

/// The draw nearest below the given number of the range from zero to one.
fn draw(number: f32) -> RandomNumber {
    RandomNumber::new((number * 16_777_216.0) as u32).unwrap()
}

fn add_value(field: Field, random_number_value: f32, random_number_position: f32) -> Field {
    game2048::field_add_random_value::add_value(
        field,
        draw(random_number_value),
        draw(random_number_position),
    )
}

#[test]
fn field_add_random_value_it_should_return_field_with_two_in_the_first_empty_cell_for_empty_field() {
    let new_field = add_value(
        EMPTY_FIELD,
        FAKE_RANDOM_NUMBER_VALUE_ZERO,
        FAKE_RANDOM_NUMBER_POSITION_ZERO,
    );
    let expected_field = [[TWO, X, X, X], [X, X, X, X], [X, X, X, X], [X, X, X, X]];
    assert_eq!(new_field, expected_field);
}

#[test]
fn field_add_random_value_it_should_return_field_with_two_in_the_first_empty_cell_for_non_empty_field() {
    let new_field = add_value(
        NON_EMPTY_FIELD,
        FAKE_RANDOM_NUMBER_VALUE_ZERO,
        FAKE_RANDOM_NUMBER_POSITION_ZERO,
    );
    let expected_field = [[TWO, TWO, X, X], [X, X, X, X], [X, X, X, X], [X, X, X, X]];
    assert_eq!(new_field, expected_field);
}

#[test]
fn it_should_return_field_with_two_in_the_first_empty_cell_for_only_one_empty_cell_field() {
    let new_field = add_value(
        ONLY_ONE_EMPTY_CELL_FIELD,
        FAKE_RANDOM_NUMBER_VALUE_ZERO,
        FAKE_RANDOM_NUMBER_POSITION_ZERO,
    );
    assert_eq!(new_field, FULL_FIELD);
}

#[test]
fn it_should_return_field_with_two_in_the_first_empty_cell_for_empty_field() {
    let new_field = add_value(
        EMPTY_FIELD,
        FAKE_RANDOM_NUMBER_VALUE_ZERO_POINT_ONE,
        FAKE_RANDOM_NUMBER_POSITION_ZERO,
    );
    let expected_field = [[TWO, X, X, X], [X, X, X, X], [X, X, X, X], [X, X, X, X]];
    assert_eq!(new_field, expected_field);
}

#[test]
fn it_should_return_field_with_two_in_the_first_empty_cell_for_non_empty_field() {
    let new_field = add_value(
        NON_EMPTY_FIELD,
        FAKE_RANDOM_NUMBER_VALUE_ZERO_POINT_ONE,
        FAKE_RANDOM_NUMBER_POSITION_ZERO,
    );
    let expected_field = [[TWO, TWO, X, X], [X, X, X, X], [X, X, X, X], [X, X, X, X]];
    assert_eq!(new_field, expected_field);
}

#[test]
fn field_add_random_value_it_should_return_field_with_two_in_the_first_empty_cell_for_empty_field_given_random_number_value_zero_point_eight() {
    let new_field = add_value(
        EMPTY_FIELD,
        FAKE_RANDOM_NUMBER_VALUE_ZERO_POINT_EIGHT,
        FAKE_RANDOM_NUMBER_POSITION_ZERO,
    );
    let expected_field = [[TWO, X, X, X], [X, X, X, X], [X, X, X, X], [X, X, X, X]];
    assert_eq!(new_field, expected_field);
}

#[test]
fn it_should_return_field_with_four_in_the_first_empty_cell_for_empty_field() {
    let new_field = add_value(
        EMPTY_FIELD,
        FAKE_RANDOM_NUMBER_VALUE_ZERO_POINT_NINE,
        FAKE_RANDOM_NUMBER_POSITION_ZERO,
    );
    let expected_field = [[FOUR, X, X, X], [X, X, X, X], [X, X, X, X], [X, X, X, X]];
    assert_eq!(new_field, expected_field);
}

#[test]
fn it_should_return_field_with_two_in_the_last_empty_cell_for_empty_field() {
    let new_field = add_value(
        EMPTY_FIELD,
        FAKE_RANDOM_NUMBER_VALUE_ZERO,
        FAKE_RANDOM_NUMBER_POSITION_ZERO_POINT_NINE_NINE,
    );
    let expected_field = [[X, X, X, X], [X, X, X, X], [X, X, X, X], [X, X, X, TWO]];
    assert_eq!(new_field, expected_field);
}

#[test]
fn it_should_return_field_with_two_in_the_last_empty_cell_for_non_empty_field() {
    let new_field = add_value(
        NON_EMPTY_FIELD,
        FAKE_RANDOM_NUMBER_VALUE_ZERO,
        FAKE_RANDOM_NUMBER_POSITION_ZERO_POINT_NINE_NINE,
    );
    let expected_field = [[TWO, X, X, X], [X, X, X, X], [X, X, X, X], [X, X, X, TWO]];
    assert_eq!(new_field, expected_field);
}

#[test]
fn it_should_return_field_with_two_in_the_last_empty_cell_for_last_position_filled_field() {
    const LAST_POSITION_FILLED_FIELD: Field =
        [[X, X, X, X], [X, X, X, X], [X, X, X, X], [X, X, X, TWO]];
    let new_field = add_value(
        LAST_POSITION_FILLED_FIELD,
        FAKE_RANDOM_NUMBER_VALUE_ZERO,
        FAKE_RANDOM_NUMBER_POSITION_ZERO_POINT_NINE_NINE,
    );
    let expected_field = [[X, X, X, X], [X, X, X, X], [X, X, X, X], [X, X, TWO, TWO]];
    assert_eq!(new_field, expected_field);
}

#[test]
fn it_should_return_field_with_two_in_the_nineth_empty_cell_for_empty_field() {
    let new_field = add_value(
        EMPTY_FIELD,
        FAKE_RANDOM_NUMBER_VALUE_ZERO,
        FAKE_RANDOM_NUMBER_POSITION_ZERO_POINT_FIVE,
    );
    let expected_field = [[X, X, X, X], [X, X, X, X], [TWO, X, X, X], [X, X, X, X]];
    assert_eq!(new_field, expected_field);
}

#[test]
fn it_should_return_field_completly_filled_for_only_one_empty_cell_field() {
    let new_field = add_value(
        ONLY_ONE_EMPTY_CELL_FIELD,
        FAKE_RANDOM_NUMBER_VALUE_ZERO,
        FAKE_RANDOM_NUMBER_POSITION_ZERO_POINT_FIVE,
    );
    assert_eq!(new_field, FULL_FIELD);
}
