//! Detecting that no move is left.

use crate::board_value::BoardValue;
use crate::field::{Field, field_values, is_grid};
use crate::field_move_and_merge::{
    spec_move_and_merge_down, spec_move_and_merge_left, spec_move_and_merge_right,
    spec_move_and_merge_up,
};
use crate::move_laws::{
    column_of, has_equal_tiles_side_by_side, lemma_down_unchanged_iff_settled,
    lemma_left_unchanged_iff_settled, lemma_right_unchanged_iff_settled,
    lemma_up_unchanged_iff_settled, reversed, row_is_settled,
};
use vstd::prelude::*;

verus! {

/// The cell holds a tile that differs from the tile below it and from the
/// tile to its right, as far as the grid has such neighbours.
pub open spec fn cell_is_settled(grid: Seq<Seq<nat>>, row: int, column: int) -> bool {
    &&& grid[row][column] != 0
    &&& row < 3 ==> grid[row][column] != grid[row + 1][column]
    &&& column < 3 ==> grid[row][column] != grid[row][column + 1]
}

/// No move is left: no cell is empty and no two neighbouring tiles, side by
/// side or one above the other, are equal.
pub open spec fn spec_is_game_over(grid: Seq<Seq<nat>>) -> bool {
    forall|row: int, column: int|
        0 <= row < 4 && 0 <= column < 4 ==> #[trigger] cell_is_settled(grid, row, column)
}

/// Some cell of the grid holds a tile.
pub open spec fn has_tile(grid: Seq<Seq<nat>>) -> bool {
    exists|row: int, column: int|
        0 <= row < 4 && 0 <= column < 4 && #[trigger] grid[row][column] != 0
}

/// No move in any of the four directions changes the grid.
pub open spec fn no_move_is_left(grid: Seq<Seq<nat>>) -> bool {
    &&& spec_move_and_merge_left(grid) == grid
    &&& spec_move_and_merge_right(grid) == grid
    &&& spec_move_and_merge_up(grid) == grid
    &&& spec_move_and_merge_down(grid) == grid
}

/// A cell and the cell below it.
pub open spec fn below_pair(grid: Seq<Seq<nat>>, row: int, column: int) -> (nat, nat) {
    (grid[row][column], grid[row + 1][column])
}

/// A cell and the cell to its right.
pub open spec fn right_pair(grid: Seq<Seq<nat>>, row: int, column: int) -> (nat, nat) {
    (grid[row][column], grid[row][column + 1])
}

/// The neighbour pair at position `index` of the list of all pairs.
pub open spec fn pair_at(grid: Seq<Seq<nat>>, index: int) -> (nat, nat) {
    if index < 21 {
        let row = index / 7;
        let column = (index % 7) / 2;
        if (index % 7) % 2 == 0 {
            below_pair(grid, row, column)
        } else {
            right_pair(grid, row, column)
        }
    } else {
        right_pair(grid, 3, index - 21)
    }
}

/// All pairs of neighbouring cells, each pair once: the cells in reading
/// order, each with the cell below it and then with the cell to its right.
pub open spec fn spec_cell_neighbours(grid: Seq<Seq<nat>>) -> Seq<(nat, nat)> {
    Seq::new(24, |index: int| pair_at(grid, index))
}

/// The values of a list of pairs of cells.
pub open spec fn pair_values(pairs: Seq<(BoardValue, BoardValue)>) -> Seq<(nat, nat)> {
    Seq::new(pairs.len(), |index: int| (pairs[index].0.value as nat, pairs[index].1.value as nat))
}

/// Both cells of the pair hold a tile, and the tiles differ.
pub open spec fn pair_is_settled(pair: (nat, nat)) -> bool {
    pair.0 != 0 && pair.1 != 0 && pair.0 != pair.1
}

/// The number of neighbour pairs listed for the cells that come before
/// `(row, column)` in reading order. A cell is listed with the cell below it,
/// then with the cell to its right, as far as it has them.
pub open spec fn pairs_before(row: int, column: int) -> int {
    if row < 3 {
        7 * row + if column < 4 {
            2 * column
        } else {
            7
        }
    } else if row == 3 {
        21 + if column < 3 {
            column
        } else {
            3
        }
    } else {
        24
    }
}

/// Whether no move is left: no cell is empty, and no two neighbours are equal.
pub fn is_game_over(field: Field) -> (over: bool)
    ensures
        over == spec_is_game_over(field_values(field)),
{
    let tuples = get_all_cell_neighbours(field);
    let ghost grid = field_values(field);
    let ghost pairs = spec_cell_neighbours(grid);
    for index in 0..tuples.len()
        invariant
            tuples.len() == 24,
            grid == field_values(field),
            pairs == spec_cell_neighbours(grid),
            pair_values(tuples@) == pairs,
            forall|i: int| 0 <= i < index ==> pair_is_settled(#[trigger] pairs[i]),
    {
        let (current, neighbour) = tuples[index];
        assert(pairs[index as int] == (current.value as nat, neighbour.value as nat)) by {
            assert(pair_values(tuples@)[index as int] == pairs[index as int]);
        }
        if current == BoardValue::new(0) || neighbour == BoardValue::new(0) || current
            == neighbour {
            proof {
                lemma_unsettled_pair(grid, index as int);
            }
            return false;
        }
    }
    proof {
        lemma_all_pairs_settled(grid);
    }
    true
}

/// Lists all pairs of neighbouring cells, each pair once.
pub fn get_all_cell_neighbours(field: Field) -> (tuples: Vec<(BoardValue, BoardValue)>)
    ensures
        tuples.len() == 24,
        pair_values(tuples@) == spec_cell_neighbours(field_values(field)),
{
    let mut tuples: Vec<(BoardValue, BoardValue)> = vec![];
    let ghost grid = field_values(field);
    for row in 0..4usize
        invariant
            grid == field_values(field),
            tuples.len() == pairs_before(row as int, 0),
            forall|i: int|
                0 <= i < tuples.len() ==> (tuples[i].0.value as nat, tuples[i].1.value as nat)
                    == #[trigger] pair_at(grid, i),
    {
        for column in 0..4usize
            invariant
                row < 4,
                grid == field_values(field),
                tuples.len() == pairs_before(row as int, column as int),
                forall|i: int|
                    0 <= i < tuples.len() ==> (tuples[i].0.value as nat, tuples[i].1.value as nat)
                        == #[trigger] pair_at(grid, i),
        {
            let current = field[row][column];
            assert(grid[row as int][column as int] == current.value);
            if row < 3 {
                assert(grid[row + 1][column as int] == field[row + 1][column as int].value);
                tuples.push((current, field[row + 1][column]));
            }
            if column < 3 {
                assert(grid[row as int][column + 1] == field[row as int][column + 1].value);
                tuples.push((current, field[row][column + 1]));
            }
        }
    }
    assert(pair_values(tuples@) =~= spec_cell_neighbours(grid));
    tuples
}

/// Once the game is over no move is left: if no cell is empty and no two
/// equal tiles are neighbours, no move changes the grid.
pub proof fn lemma_game_over_no_move_is_left(grid: Seq<Seq<nat>>)
    requires
        is_grid(grid),
        spec_is_game_over(grid),
    ensures
        no_move_is_left(grid),
{
    assert forall|i: int| 0 <= i < 4 implies settled_both_ways(#[trigger] grid[i]) by {
        assert forall|k: int| 0 <= k < 4 implies #[trigger] grid[i][k] != 0 by {
            assert(cell_is_settled(grid, i, k));
        }
        assert forall|k: int| 0 <= k < 3 implies #[trigger] grid[i][k] != grid[i][k + 1] by {
            assert(cell_is_settled(grid, i, k));
        }
        lemma_full_cells_are_settled(grid[i]);
    }
    assert forall|i: int| 0 <= i < 4 implies settled_both_ways(#[trigger] column_of(grid, i)) by {
        let column = column_of(grid, i);
        assert forall|k: int| 0 <= k < 4 implies #[trigger] column[k] != 0 by {
            assert(cell_is_settled(grid, k, i));
        }
        assert forall|k: int| 0 <= k < 3 implies #[trigger] column[k] != column[k + 1] by {
            assert(cell_is_settled(grid, k, i));
        }
        lemma_full_cells_are_settled(column);
    }
    lemma_left_unchanged_iff_settled(grid);
    lemma_right_unchanged_iff_settled(grid);
    lemma_up_unchanged_iff_settled(grid);
    lemma_down_unchanged_iff_settled(grid);
}

/// While a move is left the game is not over: if no move changes a grid that
/// holds a tile, no cell is empty and no two equal tiles are neighbours. (No
/// move changes the grid without tiles, which is not over: it has empty
/// cells.)
pub proof fn lemma_no_move_is_left_game_over(grid: Seq<Seq<nat>>)
    requires
        is_grid(grid),
        has_tile(grid),
        no_move_is_left(grid),
    ensures
        spec_is_game_over(grid),
{
    lemma_left_unchanged_iff_settled(grid);
    lemma_right_unchanged_iff_settled(grid);
    lemma_up_unchanged_iff_settled(grid);
    lemma_down_unchanged_iff_settled(grid);
    let (tile_row, tile_column) = choose|row: int, column: int|
        0 <= row < 4 && 0 <= column < 4 && #[trigger] grid[row][column] != 0;
    assert forall|row: int, column: int|
        0 <= row < 4 && 0 <= column < 4 implies #[trigger] cell_is_settled(
        grid,
        row,
        column,
    ) by {
        assert(settled_both_ways(grid[tile_row]));
        assert(settled_both_ways(grid[row]));
        assert(settled_both_ways(column_of(grid, column)));
        lemma_settled_cells(grid[tile_row], tile_column, column);
        lemma_settled_cells(column_of(grid, column), tile_row, row);
        if column < 3 {
            lemma_settled_cells(grid[row], column, column + 1);
        }
        if row < 3 {
            lemma_settled_cells(column_of(grid, column), row, row + 1);
        }
    }
}

/// A neighbour pair that is not settled shows that a move is left.
proof fn lemma_unsettled_pair(grid: Seq<Seq<nat>>, index: int)
    requires
        0 <= index < 24,
        !pair_is_settled(spec_cell_neighbours(grid)[index]),
    ensures
        !spec_is_game_over(grid),
{
    let pair = spec_cell_neighbours(grid)[index];
    let row = if index < 21 {
        index / 7
    } else {
        3
    };
    let column = if index < 21 {
        (index % 7) / 2
    } else {
        index - 21
    };
    let below = index < 21 && (index % 7) % 2 == 0;
    if pair.0 == 0 || pair.0 == pair.1 {
        assert(!cell_is_settled(grid, row, column));
    } else if below {
        assert(!cell_is_settled(grid, row + 1, column));
    } else {
        assert(!cell_is_settled(grid, row, column + 1));
    }
}

/// If every neighbour pair is settled, no move is left.
proof fn lemma_all_pairs_settled(grid: Seq<Seq<nat>>)
    requires
        forall|i: int| 0 <= i < 24 ==> pair_is_settled(#[trigger] spec_cell_neighbours(grid)[i]),
    ensures
        spec_is_game_over(grid),
{
    let pairs = spec_cell_neighbours(grid);
    assert forall|row: int, column: int|
        0 <= row < 4 && 0 <= column < 4 implies #[trigger] cell_is_settled(
        grid,
        row,
        column,
    ) by {
        if row < 3 {
            let i = 7 * row + 2 * column;
            assert(pair_is_settled(pairs[i]));
            assert(pairs[i] == below_pair(grid, row, column));
        }
        if column < 3 {
            let i = if row < 3 {
                7 * row + 2 * column + 1
            } else {
                21 + column
            };
            assert(pair_is_settled(pairs[i]));
            assert(pairs[i] == right_pair(grid, row, column));
        }
        if row == 3 && column == 3 {
            assert(pair_is_settled(pairs[23]));
            assert(pairs[23] == right_pair(grid, 3, 2));
        }
    }
}

/// The cells read from either end are settled: the cells are all empty or
/// all tiles, and no two equal tiles lie side by side.
spec fn settled_both_ways(cells: Seq<nat>) -> bool {
    row_is_settled(cells) && row_is_settled(reversed(cells))
}

/// Four cells without an empty cell and without equal neighbours are settled
/// from either end.
proof fn lemma_full_cells_are_settled(cells: Seq<nat>)
    requires
        cells.len() == 4,
        forall|i: int| 0 <= i < 4 ==> #[trigger] cells[i] != 0,
        forall|i: int| 0 <= i < 3 ==> #[trigger] cells[i] != cells[i + 1],
    ensures
        settled_both_ways(cells),
{
    let back = reversed(cells);
    assert forall|i: int| 0 <= i < 4 implies #[trigger] back[i] != 0 by {
        assert(cells[3 - i] != 0);
    }
    if has_equal_tiles_side_by_side(back) {
        let i = choose|i: int|
            0 <= i < back.len() - 1 && #[trigger] back[i] == back[i + 1] && back[i] != 0;
        assert(cells[2 - i] != cells[2 - i + 1]);
    }
}

/// Cells that are settled from either end are all empty or all tiles, and
/// no two neighbours among them are equal tiles.
proof fn lemma_settled_cells(cells: Seq<nat>, i: int, j: int)
    requires
        cells.len() == 4,
        settled_both_ways(cells),
        0 <= i < 4,
        0 <= j < 4,
    ensures
        cells[i] != 0 ==> cells[j] != 0,
        j == i + 1 && cells[i] != 0 ==> cells[i] != cells[j],
{
    let back = reversed(cells);
    if cells[j] == 0 {
        if j < i {
            assert(cells[j] == 0 ==> cells[i] == 0);
        } else if j > i {
            assert(back[3 - j] == 0 ==> back[3 - i] == 0);
        }
    }
    if j == i + 1 && cells[i] != 0 && cells[i] == cells[j] {
        assert(cells[i] == cells[i + 1]);
    }
}

} // verus!
