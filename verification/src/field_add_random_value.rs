//! Placing a new tile on an empty cell.

use crate::board_value::{BoardValue, is_cell_value, is_power_of_two};
use crate::coordinate::Coordinate;
use crate::field::{
    Field, field_values, grid_fits, grid_is_valid, has_empty_cell, is_grid, row_fits, row_is_valid,
};
use crate::random::{RandomNumber, SCALE};
use vstd::arithmetic::power2::{lemma2_to64, pow2};
use vstd::prelude::*;

verus! {

/// The smallest numerator of a draw that gives a four: nine tenths of the
/// scale, to the nearest numerator. Draws below it, nine in ten, give a two.
pub const FOUR_FROM: u32 = 15_099_494;

/// The value of the new tile for a draw: two for a draw below nine tenths,
/// four otherwise.
pub open spec fn spec_new_board_value(draw: nat) -> nat {
    if draw < FOUR_FROM {
        2
    } else {
        4
    }
}

/// Which of `count` empty cells gets the new tile: `count` times the draw,
/// rounded to the nearest whole number with halves rounded up, less one, and
/// the first cell where that would be less than zero.
pub open spec fn spec_index_for_coordinate(draw: nat, count: nat) -> nat {
    let rounded = (count * draw + SCALE / 2) / (SCALE as int);
    if rounded <= 0 {
        0
    } else {
        (rounded - 1) as nat
    }
}

/// The cell with the given number in reading order.
pub open spec fn coordinate_of(number: int) -> Coordinate {
    Coordinate { row: (number / 4) as u8, column: (number % 4) as u8 }
}

/// The empty cells among those numbered `from` and up, in reading order.
pub open spec fn empty_cells_from(grid: Seq<Seq<nat>>, from: int) -> Seq<Coordinate>
    decreases 16 - from,
{
    if from < 0 || from >= 16 {
        Seq::empty()
    } else if grid[from / 4][from % 4] == 0 {
        seq![coordinate_of(from)] + empty_cells_from(grid, from + 1)
    } else {
        empty_cells_from(grid, from + 1)
    }
}

/// The empty cells of the grid in reading order: row by row from the top,
/// each row from the left.
pub open spec fn empty_cells(grid: Seq<Seq<nat>>) -> Seq<Coordinate> {
    empty_cells_from(grid, 0)
}

/// The empty cell that a draw picks.
pub open spec fn spec_coordinate(grid: Seq<Seq<nat>>, draw: nat) -> Coordinate {
    empty_cells(grid)[spec_index_for_coordinate(draw, empty_cells(grid).len()) as int]
}

/// The grid with `value` in the cell at `coordinate`.
pub open spec fn with_value(grid: Seq<Seq<nat>>, coordinate: Coordinate, value: nat) -> Seq<
    Seq<nat>,
> {
    grid.update(
        coordinate.row as int,
        grid[coordinate.row as int].update(coordinate.column as int, value),
    )
}

/// The grid with a new tile: the second draw picks the empty cell, the first
/// the value of the tile.
pub open spec fn spec_add_value(grid: Seq<Seq<nat>>, value_draw: nat, position_draw: nat) -> Seq<
    Seq<nat>,
> {
    with_value(grid, spec_coordinate(grid, position_draw), spec_new_board_value(value_draw))
}

/// Places a new tile on an empty cell of the grid. The first draw decides
/// its value, the second the cell.
pub fn add_value(
    field: Field,
    random_number_value: RandomNumber,
    random_number_position: RandomNumber,
) -> (new_field: Field)
    requires
        has_empty_cell(field_values(field)),
    ensures
        field_values(new_field) == spec_add_value(
            field_values(field),
            random_number_value@,
            random_number_position@,
        ),
{
    proof {
        lemma_has_empty_cell(field_values(field));
    }
    let mut new_field = field;
    let new_board_value = get_new_board_value(random_number_value);
    let coordinate = get_coordinate(field, random_number_position);
    let row = coordinate.row as usize;
    let column = coordinate.column as usize;
    let mut new_row = new_field[row];
    new_row[column] = new_board_value;
    new_field[row] = new_row;
    assert(field_values(new_field) =~~= spec_add_value(
        field_values(field),
        random_number_value@,
        random_number_position@,
    ));
    new_field
}

/// The empty cell that the draw picks.
fn get_coordinate(field: Field, random_number: RandomNumber) -> (coordinate: Coordinate)
    requires
        empty_cells(field_values(field)).len() > 0,
    ensures
        coordinate == spec_coordinate(field_values(field), random_number@),
        coordinate.on_grid(),
{
    let vec: Vec<Coordinate> = get_coordinates_of_empty_cells(field);
    let coordinate_index = get_index_for_coordinate(random_number, vec.len());
    proof {
        lemma_empty_cells_from(field_values(field), 0);
    }
    vec[coordinate_index]
}

/// Which of the empty cells the draw picks, counted from zero.
fn get_index_for_coordinate(random_number: RandomNumber, free_coordinate_count: usize) -> (index:
    usize)
    ensures
        index == spec_index_for_coordinate(random_number@, free_coordinate_count as nat),
        free_coordinate_count > 0 ==> index < free_coordinate_count,
{
    let draw = random_number.numerator();
    assert(free_coordinate_count * draw <= 0xffff_ffff_ffff_ffff * 0x1_00_0000)
        by (nonlinear_arith)
        requires
            free_coordinate_count <= 0xffff_ffff_ffff_ffff,
            draw < 0x1_00_0000,
    ;
    let product: u128 = (free_coordinate_count as u128) * (draw as u128);
    let number_for_coordinate: u128 = (product + (SCALE / 2) as u128) / (SCALE as u128);
    proof {
        assert(product == (free_coordinate_count as nat) * random_number@);
        assert(number_for_coordinate == ((free_coordinate_count as nat) * random_number@ + SCALE
            / 2) / (SCALE as int));
        if free_coordinate_count > 0 {
            lemma_index_for_coordinate_in_range(random_number@, free_coordinate_count as nat);
        }
    }
    if number_for_coordinate == 0 {
        0
    } else {
        (number_for_coordinate - 1) as usize
    }
}

/// The empty cells of the grid in reading order.
fn get_coordinates_of_empty_cells(field: Field) -> (vec: Vec<Coordinate>)
    ensures
        vec@ == empty_cells(field_values(field)),
{
    let mut vec: Vec<Coordinate> = Vec::new();
    let ghost grid = field_values(field);
    for row in 0..4u8
        invariant
            grid == field_values(field),
            empty_cells(grid) == vec@ + empty_cells_from(grid, 4 * row),
    {
        for column in 0..4u8
            invariant
                row < 4,
                grid == field_values(field),
                empty_cells(grid) == vec@ + empty_cells_from(grid, 4 * row + column),
        {
            let ghost found = vec@;
            let ghost number = 4 * row + column;
            assert(grid[number / 4][number % 4] == field[row as int][column as int].value);
            if field[row as usize][column as usize] == BoardValue::new(0) {
                vec.push(Coordinate { row, column });
                assert(coordinate_of(number) == Coordinate { row, column });
                assert(empty_cells(grid) =~= vec@ + empty_cells_from(grid, number + 1));
            }
        }
    }
    assert(empty_cells(grid) =~= vec@);
    vec
}

/// The new tile for a draw: a two for nine draws in ten, else a four.
fn get_new_board_value(random_number: RandomNumber) -> (new_number: BoardValue)
    ensures
        new_number.value == spec_new_board_value(random_number@),
{
    let new_number: BoardValue;
    if random_number.numerator() < FOUR_FROM {
        new_number = BoardValue::new(2);
    } else {
        new_number = BoardValue::new(4);
    }
    new_number
}

/// A new tile takes an empty cell and has the value two or four; all other
/// cells stay as they are. So a grid stays a grid, and its values stay fit
/// for cells and stay valid.
pub proof fn lemma_add_value_fills_empty_cell(
    grid: Seq<Seq<nat>>,
    value_draw: nat,
    position_draw: nat,
)
    requires
        is_grid(grid),
        has_empty_cell(grid),
        position_draw < SCALE,
    ensures
        spec_coordinate(grid, position_draw).on_grid(),
        grid[spec_coordinate(grid, position_draw).row as int][spec_coordinate(
            grid,
            position_draw,
        ).column as int] == 0,
        spec_new_board_value(value_draw) == 2 || spec_new_board_value(value_draw) == 4,
        spec_add_value(grid, value_draw, position_draw) != grid,
        is_grid(spec_add_value(grid, value_draw, position_draw)),
        grid_fits(grid) ==> grid_fits(spec_add_value(grid, value_draw, position_draw)),
        grid_is_valid(grid) ==> grid_is_valid(spec_add_value(grid, value_draw, position_draw)),
{
    lemma_has_empty_cell(grid);
    lemma_empty_cells_from(grid, 0);
    let cells = empty_cells(grid);
    lemma_index_for_coordinate_in_range(position_draw, cells.len());
    let index = spec_index_for_coordinate(position_draw, cells.len()) as int;
    let cell = cells[index];
    let value = spec_new_board_value(value_draw);
    let added = spec_add_value(grid, value_draw, position_draw);
    assert(added[cell.row as int][cell.column as int] == value);
    assert(is_power_of_two(value)) by {
        lemma2_to64();
        assert(value == pow2(1) || value == pow2(2));
    }
    assert forall|row: int| 0 <= row < 4 implies (#[trigger] added[row]).len() == 4 by {}
    if grid_fits(grid) {
        assert forall|row: int| 0 <= row < added.len() implies row_fits(#[trigger] added[row]) by {
            assert(row_fits(grid[row]));
        }
    }
    if grid_is_valid(grid) {
        assert forall|row: int| 0 <= row < added.len() implies row_is_valid(
            #[trigger] added[row],
        ) by {
            assert(row_is_valid(grid[row]));
            assert forall|column: int| 0 <= column < added[row].len() implies is_cell_value(
                #[trigger] added[row][column],
            ) by {
                if row != cell.row || column != cell.column {
                    assert(is_cell_value(grid[row][column]));
                }
            }
        }
    }
}

/// A grid has an empty cell if and only if its list of empty cells is not
/// empty.
pub proof fn lemma_has_empty_cell(grid: Seq<Seq<nat>>)
    ensures
        empty_cells(grid).len() > 0 <==> has_empty_cell(grid),
{
    lemma_empty_cells_from(grid, 0);
    if empty_cells(grid).len() > 0 {
        let cell = empty_cells(grid)[0];
        assert(grid[cell.row as int][cell.column as int] == 0);
    }
    if has_empty_cell(grid) {
        let (row, column) = choose|row: int, column: int|
            0 <= row < 4 && 0 <= column < 4 && #[trigger] grid[row][column] == 0;
        let number = 4 * row + column;
        assert(grid[number / 4][number % 4] == 0);
        assert(empty_cells(grid).contains(coordinate_of(number)));
    }
}

/// The empty cells from a cell on lie on the grid, are empty, and are all
/// the empty cells from there on.
pub proof fn lemma_empty_cells_from(grid: Seq<Seq<nat>>, from: int)
    requires
        0 <= from <= 16,
    ensures
        empty_cells_from(grid, from).len() <= 16 - from,
        forall|i: int|
            0 <= i < empty_cells_from(grid, from).len() ==> {
                let cell = #[trigger] empty_cells_from(grid, from)[i];
                &&& cell.on_grid()
                &&& from <= 4 * cell.row + cell.column
                &&& grid[cell.row as int][cell.column as int] == 0
            },
        forall|number: int|
            from <= number < 16 && grid[number / 4][number % 4] == 0 ==> empty_cells_from(
                grid,
                from,
            ).contains(#[trigger] coordinate_of(number)),
    decreases 16 - from,
{
    if from < 16 {
        lemma_empty_cells_from(grid, from + 1);
        let cells = empty_cells_from(grid, from);
        let tail = empty_cells_from(grid, from + 1);
        assert forall|i: int| 0 <= i < cells.len() implies {
            let cell = #[trigger] cells[i];
            &&& cell.on_grid()
            &&& from <= 4 * cell.row + cell.column
            &&& grid[cell.row as int][cell.column as int] == 0
        } by {
            if grid[from / 4][from % 4] == 0 {
                if i > 0 {
                    assert(cells[i] == tail[i - 1]);
                }
            } else {
                assert(cells[i] == tail[i]);
            }
        }
        assert forall|number: int|
            from <= number < 16 && grid[number / 4][number % 4] == 0 implies cells.contains(
            #[trigger] coordinate_of(number),
        ) by {
            if number == from {
                assert(cells[0] == coordinate_of(number));
            } else {
                assert(tail.contains(coordinate_of(number)));
                let i = choose|i: int| 0 <= i < tail.len() && tail[i] == coordinate_of(number);
                if grid[from / 4][from % 4] == 0 {
                    assert(cells[i + 1] == tail[i]);
                } else {
                    assert(cells[i] == tail[i]);
                }
            }
        }
    }
}

/// The cell that a draw picks is one of the empty cells.
pub proof fn lemma_index_for_coordinate_in_range(draw: nat, count: nat)
    requires
        draw < SCALE,
        count > 0,
    ensures
        spec_index_for_coordinate(draw, count) < count,
{
    assert(count * draw + SCALE / 2 < (count + 1) * SCALE) by (nonlinear_arith)
        requires
            draw < SCALE,
            count > 0,
            SCALE == 16_777_216,
    ;
    let rounded = (count * draw + SCALE / 2) / (SCALE as int);
    assert(rounded <= count) by (nonlinear_arith)
        requires
            rounded == (count * draw + SCALE / 2) / (SCALE as int),
            count * draw + SCALE / 2 < (count + 1) * SCALE,
            SCALE == 16_777_216,
    ;
}

} // verus!
