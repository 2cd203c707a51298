//! Quarter turns of the grid.

use crate::board_value::is_cell_value;
use crate::field::{Field, Row, field_values, grid_is_valid, is_grid, row_is_valid};
use vstd::prelude::*;

verus! {

/// The grid turned a quarter turn clockwise: the left column, read from the
/// bottom up, becomes the top row.
pub open spec fn spec_rotate_clockwise(grid: Seq<Seq<nat>>) -> Seq<Seq<nat>> {
    Seq::new(4, |row: int| Seq::new(4, |column: int| grid[3 - column][row]))
}

/// The grid turned a quarter turn counterclockwise: the right column, read
/// from the top down, becomes the top row.
pub open spec fn spec_rotate_counterclockwise(grid: Seq<Seq<nat>>) -> Seq<Seq<nat>> {
    Seq::new(4, |row: int| Seq::new(4, |column: int| grid[column][3 - row]))
}

/// Turns the grid a quarter turn counterclockwise.
pub fn rotate_counterclockwise(field: Field) -> (result: Field)
    ensures
        field_values(result) == spec_rotate_counterclockwise(field_values(field)),
{
    let result = [
        extract_column_reversed(field, 3),
        extract_column_reversed(field, 2),
        extract_column_reversed(field, 1),
        extract_column_reversed(field, 0),
    ];
    assert(field_values(result) =~~= spec_rotate_counterclockwise(field_values(field)));
    result
}

/// A column of the grid, read from the top down.
fn extract_column_reversed(field: Field, column_index: usize) -> (result: Row)
    requires
        column_index < 4,
    ensures
        forall|i: int| 0 <= i < 4 ==> result[i] == field[i][column_index as int],
{
    [
        field[0][column_index],
        field[1][column_index],
        field[2][column_index],
        field[3][column_index],
    ]
}

/// Turns the grid a quarter turn clockwise.
pub fn rotate_clockwise(field: Field) -> (result: Field)
    ensures
        field_values(result) == spec_rotate_clockwise(field_values(field)),
{
    let result = [
        extract_column(field, 0),
        extract_column(field, 1),
        extract_column(field, 2),
        extract_column(field, 3),
    ];
    assert(field_values(result) =~~= spec_rotate_clockwise(field_values(field)));
    result
}

/// A column of the grid, read from the bottom up.
fn extract_column(field: Field, index: usize) -> (result: Row)
    requires
        index < 4,
    ensures
        forall|i: int| 0 <= i < 4 ==> result[i] == field[3 - i][index as int],
{
    [field[3][index], field[2][index], field[1][index], field[0][index]]
}

/// A clockwise quarter turn followed by a counterclockwise one gives the grid
/// back.
pub proof fn lemma_rotate_clockwise_then_counterclockwise(grid: Seq<Seq<nat>>)
    requires
        is_grid(grid),
    ensures
        spec_rotate_counterclockwise(spec_rotate_clockwise(grid)) == grid,
{
    assert(spec_rotate_counterclockwise(spec_rotate_clockwise(grid)) =~~= grid);
}

/// A counterclockwise quarter turn followed by a clockwise one gives the grid
/// back.
pub proof fn lemma_rotate_counterclockwise_then_clockwise(grid: Seq<Seq<nat>>)
    requires
        is_grid(grid),
    ensures
        spec_rotate_clockwise(spec_rotate_counterclockwise(grid)) == grid,
{
    assert(spec_rotate_clockwise(spec_rotate_counterclockwise(grid)) =~~= grid);
}

/// Four clockwise quarter turns give the grid back.
pub proof fn lemma_rotate_clockwise_four_times(grid: Seq<Seq<nat>>)
    requires
        is_grid(grid),
    ensures
        spec_rotate_clockwise(
            spec_rotate_clockwise(spec_rotate_clockwise(spec_rotate_clockwise(grid))),
        ) == grid,
{
    assert(spec_rotate_clockwise(
        spec_rotate_clockwise(spec_rotate_clockwise(spec_rotate_clockwise(grid))),
    ) =~~= grid);
}

/// A valid grid stays valid when it is turned clockwise.
pub proof fn lemma_rotate_clockwise_is_valid(grid: Seq<Seq<nat>>)
    requires
        is_grid(grid),
        grid_is_valid(grid),
    ensures
        grid_is_valid(spec_rotate_clockwise(grid)),
        is_grid(spec_rotate_clockwise(grid)),
{
    let turned = spec_rotate_clockwise(grid);
    assert forall|row: int|
        0 <= row < turned.len() implies row_is_valid(#[trigger] turned[row]) by {
        assert forall|column: int| 0 <= column < turned[row].len() implies is_cell_value(
            #[trigger] turned[row][column],
        ) by {
            assert(row_is_valid(grid[3 - column]));
            assert(is_cell_value(grid[3 - column][row]));
        }
    }
}

/// A valid grid stays valid when it is turned counterclockwise.
pub proof fn lemma_rotate_counterclockwise_is_valid(grid: Seq<Seq<nat>>)
    requires
        is_grid(grid),
        grid_is_valid(grid),
    ensures
        grid_is_valid(spec_rotate_counterclockwise(grid)),
        is_grid(spec_rotate_counterclockwise(grid)),
{
    let turned = spec_rotate_counterclockwise(grid);
    assert forall|row: int|
        0 <= row < turned.len() implies row_is_valid(#[trigger] turned[row]) by {
        assert forall|column: int| 0 <= column < turned[row].len() implies is_cell_value(
            #[trigger] turned[row][column],
        ) by {
            assert(row_is_valid(grid[column]));
            assert(is_cell_value(grid[column][3 - row]));
        }
    }
}

} // verus!
