//! The grid and its mathematical model.
//!
//! In executable code a grid is an array of four rows of four cells. In
//! contracts it is a sequence of four sequences of four natural numbers, the
//! values of the cells, with zero for an empty cell.

use crate::board_value::{BoardValue, is_cell_value};
use vstd::prelude::*;

verus! {

/// The four cells of a row, from left to right.
pub type Row = [BoardValue; 4];

/// The four rows of a grid, from the top down.
pub type Field = [Row; 4];

/// The values of the four cells of a row, from left to right.
pub open spec fn row_values(row: Row) -> Seq<nat> {
    Seq::new(4, |column: int| row[column].value as nat)
}

/// The values of the cells of a grid, row by row from the top.
pub open spec fn field_values(field: Field) -> Seq<Seq<nat>> {
    Seq::new(4, |row: int| row_values(field[row]))
}

/// `grid` has four rows of four cells.
pub open spec fn is_grid(grid: Seq<Seq<nat>>) -> bool {
    &&& grid.len() == 4
    &&& forall|row: int| 0 <= row < 4 ==> (#[trigger] grid[row]).len() == 4
}

/// Every value of `cells` can be stored in a cell.
pub open spec fn row_fits(cells: Seq<nat>) -> bool {
    forall|i: int| 0 <= i < cells.len() ==> #[trigger] cells[i] <= u32::MAX
}

/// Every value of `grid` can be stored in a cell.
pub open spec fn grid_fits(grid: Seq<Seq<nat>>) -> bool {
    forall|row: int| 0 <= row < grid.len() ==> row_fits(#[trigger] grid[row])
}

/// Every cell of the row is empty or holds a power of two.
pub open spec fn row_is_valid(cells: Seq<nat>) -> bool {
    forall|i: int| 0 <= i < cells.len() ==> is_cell_value(#[trigger] cells[i])
}

/// Every cell of the grid is empty or holds a power of two.
pub open spec fn grid_is_valid(grid: Seq<Seq<nat>>) -> bool {
    forall|row: int| 0 <= row < grid.len() ==> row_is_valid(#[trigger] grid[row])
}

/// Every tile of the grid can double: twice its value can be stored in a
/// cell.
pub open spec fn grid_can_double(grid: Seq<Seq<nat>>) -> bool {
    forall|row: int, column: int|
        0 <= row < 4 && 0 <= column < 4 ==> 2 * #[trigger] grid[row][column] <= u32::MAX
}

/// Some cell of the grid is empty.
pub open spec fn has_empty_cell(grid: Seq<Seq<nat>>) -> bool {
    exists|row: int, column: int|
        0 <= row < 4 && 0 <= column < 4 && #[trigger] grid[row][column] == 0
}

/// Whether every cell of the grid is empty or holds a power of two.
pub fn field_is_valid(field: Field) -> (valid: bool)
    ensures
        valid == grid_is_valid(field_values(field)),
{
    let ghost grid = field_values(field);
    for row in 0..4
        invariant
            grid == field_values(field),
            forall|r: int, c: int|
                0 <= r < row && 0 <= c < 4 ==> is_cell_value(#[trigger] grid[r][c]),
    {
        for column in 0..4
            invariant
                row < 4,
                grid == field_values(field),
                forall|r: int, c: int|
                    0 <= r < row && 0 <= c < 4 ==> is_cell_value(#[trigger] grid[r][c]),
                forall|c: int| 0 <= c < column ==> is_cell_value(#[trigger] grid[row as int][c]),
        {
            assert(grid[row as int][column as int] == field[row as int][column as int].value);
            if !field[row][column].is_valid() {
                assert(!row_is_valid(grid[row as int]));
                return false;
            }
        }
    }
    assert forall|r: int| 0 <= r < grid.len() implies row_is_valid(#[trigger] grid[r]) by {
        assert forall|c: int|
            0 <= c < grid[r].len() implies is_cell_value(#[trigger] grid[r][c]) by {}
    }
    true
}

/// Whether every tile of the grid can double.
pub fn field_can_double(field: Field) -> (can: bool)
    ensures
        can == grid_can_double(field_values(field)),
{
    let ghost grid = field_values(field);
    for row in 0..4
        invariant
            grid == field_values(field),
            forall|r: int, c: int|
                0 <= r < row && 0 <= c < 4 ==> 2 * #[trigger] grid[r][c] <= u32::MAX,
    {
        for column in 0..4
            invariant
                row < 4,
                grid == field_values(field),
                forall|r: int, c: int|
                    0 <= r < row && 0 <= c < 4 ==> 2 * #[trigger] grid[r][c] <= u32::MAX,
                forall|c: int| 0 <= c < column ==> 2 * #[trigger] grid[row as int][c] <= u32::MAX,
        {
            assert(grid[row as int][column as int] == field[row as int][column as int].value);
            if field[row][column].get_value() > u32::MAX / 2 {
                return false;
            }
        }
    }
    true
}

/// Whether some cell of the grid is empty.
pub fn field_has_empty_cell(field: Field) -> (has: bool)
    ensures
        has == has_empty_cell(field_values(field)),
{
    let ghost grid = field_values(field);
    for row in 0..4
        invariant
            grid == field_values(field),
            forall|r: int, c: int| 0 <= r < row && 0 <= c < 4 ==> #[trigger] grid[r][c] != 0,
    {
        for column in 0..4
            invariant
                row < 4,
                grid == field_values(field),
                forall|r: int, c: int| 0 <= r < row && 0 <= c < 4 ==> #[trigger] grid[r][c] != 0,
                forall|c: int| 0 <= c < column ==> #[trigger] grid[row as int][c] != 0,
        {
            assert(grid[row as int][column as int] == field[row as int][column as int].value);
            if field[row][column].get_value() == 0 {
                return true;
            }
        }
    }
    false
}

/// Two rows with the same cell values are the same row.
pub proof fn lemma_row_values_injective(a: Row, b: Row)
    requires
        row_values(a) == row_values(b),
    ensures
        a == b,
{
    assert forall|column: int| 0 <= column < 4 implies a[column] == b[column] by {
        assert(row_values(a)[column] == a[column].value as nat);
        assert(row_values(b)[column] == b[column].value as nat);
    }
    assert(a =~= b);
}

/// Two grids with the same cell values are the same grid.
pub proof fn lemma_field_values_injective(a: Field, b: Field)
    requires
        field_values(a) == field_values(b),
    ensures
        a == b,
{
    assert forall|row: int| 0 <= row < 4 implies a[row] == b[row] by {
        assert(field_values(a)[row] == field_values(b)[row]);
        lemma_row_values_injective(a[row], b[row]);
    }
    assert(a =~= b);
}

/// The values of a grid of cells form a grid and fit in cells.
pub proof fn lemma_field_values_fit(field: Field)
    ensures
        is_grid(field_values(field)),
        grid_fits(field_values(field)),
{
    let grid = field_values(field);
    assert forall|row: int| 0 <= row < grid.len() implies row_fits(#[trigger] grid[row]) by {
        assert forall|column: int|
            0 <= column < grid[row].len() implies #[trigger] grid[row][column]
            <= u32::MAX by {
            assert(grid[row][column] == field[row][column].value);
        }
    }
}

} // verus!
