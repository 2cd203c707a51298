//! What holds of every move: how many tiles it leaves, when it changes
//! nothing, what it does to rows and columns in each direction.

use crate::board_value::{is_cell_value, is_power_of_two};
use crate::field::{
    grid_can_double, grid_fits, grid_is_valid, has_empty_cell, is_grid, row_fits, row_is_valid,
};
use crate::field_move_and_merge::{
    lemma_merge_tiles_len, lemma_move_and_merge_left_is_grid, lemma_move_and_merge_row_left_len,
    lemma_pad_right_push_front, lemma_tiles_from_len, lemma_tiles_from_skip_zeros, merge_count,
    merge_tiles, pad_right, spec_move_and_merge_down, spec_move_and_merge_left,
    spec_move_and_merge_right, spec_move_and_merge_row_left, spec_move_and_merge_up, tiles,
    tiles_from,
};
use crate::field_rotate::{
    lemma_rotate_clockwise_is_valid, lemma_rotate_clockwise_then_counterclockwise,
    lemma_rotate_counterclockwise_is_valid, lemma_rotate_counterclockwise_then_clockwise,
    spec_rotate_clockwise, spec_rotate_counterclockwise,
};
use vstd::arithmetic::power2::{lemma_pow2_unfold, pow2};
use vstd::prelude::*;

verus! {

/// A column of the grid, from the top down.
pub open spec fn column_of(grid: Seq<Seq<nat>>, column: int) -> Seq<nat> {
    Seq::new(4, |row: int| grid[row][column])
}

/// The cells in the opposite order.
pub open spec fn reversed(cells: Seq<nat>) -> Seq<nat> {
    Seq::new(cells.len(), |i: int| cells[cells.len() - 1 - i])
}

/// Two tiles that lie side by side are equal.
pub open spec fn has_equal_neighbours(tiles: Seq<nat>) -> bool {
    exists|i: int| 0 <= i < tiles.len() - 1 && #[trigger] tiles[i] == tiles[i + 1]
}

/// No empty cell lies to the left of a tile.
pub open spec fn is_packed(cells: Seq<nat>) -> bool {
    forall|i: int, j: int|
        0 <= i < j < cells.len() && #[trigger] cells[i] == 0 ==> #[trigger] cells[j] == 0
}

/// Two cells that lie side by side hold equal tiles.
pub open spec fn has_equal_tiles_side_by_side(cells: Seq<nat>) -> bool {
    exists|i: int| 0 <= i < cells.len() - 1 && #[trigger] cells[i] == cells[i + 1] && cells[i] != 0
}

/// A move to the left has nothing to do in the row: the tiles lie at the left
/// end without a gap, and no two equal tiles lie side by side.
pub open spec fn row_is_settled(cells: Seq<nat>) -> bool {
    is_packed(cells) && !has_equal_tiles_side_by_side(cells)
}

/// A move never adds a tile to a row, and it takes away one tile for each
/// merge: the moved row has as many tiles as the row had, less the number of
/// merges. So it has fewer tiles if and only if something merged, which is
/// the case if and only if two equal tiles lie side by side, with at most
/// empty cells between them.
pub proof fn lemma_move_tile_count(cells: Seq<nat>)
    ensures
        tiles(spec_move_and_merge_row_left(cells)).len() + merge_count(tiles(cells)) == tiles(
            cells,
        ).len(),
        tiles(spec_move_and_merge_row_left(cells)).len() <= tiles(cells).len(),
        tiles(spec_move_and_merge_row_left(cells)).len() < tiles(cells).len() <==> merge_count(
            tiles(cells),
        ) > 0,
        merge_count(tiles(cells)) > 0 <==> has_equal_neighbours(tiles(cells)),
{
    lemma_tiles_of_moved_row(cells);
    lemma_merge_tiles_len(tiles(cells));
    lemma_merge_count_equal_neighbours(tiles(cells));
}

/// A second move to the left changes nothing, provided that the first move
/// left no two equal tiles side by side in any row.
pub proof fn lemma_move_and_merge_left_twice(grid: Seq<Seq<nat>>)
    requires
        is_grid(grid),
        forall|row: int|
            0 <= row < 4 ==> !has_equal_tiles_side_by_side(
                #[trigger] spec_move_and_merge_left(grid)[row],
            ),
    ensures
        spec_move_and_merge_left(spec_move_and_merge_left(grid)) == spec_move_and_merge_left(
            grid,
        ),
{
    let once = spec_move_and_merge_left(grid);
    assert forall|row: int| 0 <= row < 4 implies #[trigger] spec_move_and_merge_left(once)[row]
        == once[row] by {
        assert(!has_equal_tiles_side_by_side(once[row]));
        lemma_move_row_twice(grid[row]);
    }
    assert(spec_move_and_merge_left(once) =~= once);
}

/// A second move of a row changes nothing if and only if the first move left
/// no two equal tiles side by side.
pub proof fn lemma_move_row_twice(cells: Seq<nat>)
    ensures
        spec_move_and_merge_row_left(spec_move_and_merge_row_left(cells))
            == spec_move_and_merge_row_left(cells) <==> !has_equal_tiles_side_by_side(
            spec_move_and_merge_row_left(cells),
        ),
{
    lemma_moved_row_is_packed(cells);
    lemma_row_unchanged_iff_settled(spec_move_and_merge_row_left(cells));
}

/// A move leaves no empty cell to the left of a tile.
pub proof fn lemma_moved_row_is_packed(cells: Seq<nat>)
    ensures
        is_packed(spec_move_and_merge_row_left(cells)),
{
    let merged = merge_tiles(tiles(cells));
    let moved = spec_move_and_merge_row_left(cells);
    lemma_tiles_from_not_empty(cells, 0);
    lemma_merge_tiles_len(tiles(cells));
    assert forall|i: int, j: int|
        0 <= i < j < moved.len() && #[trigger] moved[i] == 0 implies #[trigger] moved[j] == 0 by {
        if i < merged.len() {
            assert(moved[i] == merged[i]);
        }
    }
}

/// A move to the right moves every row by itself towards its right end: read
/// from the right, the moved row is the row read from the right and moved to
/// the left.
pub proof fn lemma_move_and_merge_right_by_rows(grid: Seq<Seq<nat>>, row: int)
    requires
        is_grid(grid),
        0 <= row < 4,
    ensures
        spec_move_and_merge_right(grid)[row] == reversed(
            spec_move_and_merge_row_left(reversed(grid[row])),
        ),
{
    let half_turned = spec_rotate_counterclockwise(spec_rotate_counterclockwise(grid));
    assert(half_turned[3 - row] =~= reversed(grid[row]));
    lemma_move_and_merge_row_left_len(reversed(grid[row]));
    assert(spec_move_and_merge_right(grid)[row] =~= reversed(
        spec_move_and_merge_row_left(reversed(grid[row])),
    ));
}

/// A move up moves every column by itself towards its upper end: the moved
/// column is the column, read from the top, moved to the left.
pub proof fn lemma_move_and_merge_up_by_columns(grid: Seq<Seq<nat>>, column: int)
    requires
        is_grid(grid),
        0 <= column < 4,
    ensures
        column_of(spec_move_and_merge_up(grid), column) == spec_move_and_merge_row_left(
            column_of(grid, column),
        ),
{
    let turned = spec_rotate_counterclockwise(grid);
    assert(turned[3 - column] =~= column_of(grid, column));
    lemma_move_and_merge_row_left_len(column_of(grid, column));
    assert(column_of(spec_move_and_merge_up(grid), column) =~= spec_move_and_merge_row_left(
        column_of(grid, column),
    ));
}

/// A move down moves every column by itself towards its lower end: read from
/// the bottom, the moved column is the column read from the bottom and moved
/// to the left.
pub proof fn lemma_move_and_merge_down_by_columns(grid: Seq<Seq<nat>>, column: int)
    requires
        is_grid(grid),
        0 <= column < 4,
    ensures
        column_of(spec_move_and_merge_down(grid), column) == reversed(
            spec_move_and_merge_row_left(reversed(column_of(grid, column))),
        ),
{
    let turned = spec_rotate_clockwise(grid);
    assert(turned[column] =~= reversed(column_of(grid, column)));
    lemma_move_and_merge_row_left_len(reversed(column_of(grid, column)));
    assert(column_of(spec_move_and_merge_down(grid), column) =~= reversed(
        spec_move_and_merge_row_left(reversed(column_of(grid, column))),
    ));
}

/// A move to the left leaves a row as it is if and only if the row is
/// settled.
pub proof fn lemma_row_unchanged_iff_settled(cells: Seq<nat>)
    ensures
        spec_move_and_merge_row_left(cells) == cells <==> row_is_settled(cells),
{
    let row_tiles = tiles(cells);
    let merged = merge_tiles(row_tiles);
    let moved = spec_move_and_merge_row_left(cells);
    lemma_tiles_from_len(cells, 0);
    lemma_tiles_from_not_empty(cells, 0);
    lemma_merge_tiles_len(row_tiles);
    lemma_merge_count_equal_neighbours(row_tiles);
    if moved == cells {
        lemma_tiles_of_moved_row(cells);
        lemma_moved_row_is_packed(cells);
        if has_equal_tiles_side_by_side(cells) {
            let i = choose|i: int|
                0 <= i < cells.len() - 1 && #[trigger] cells[i] == cells[i + 1] && cells[i] != 0;
            if i + 1 >= merged.len() {
                assert(moved[i + 1] == 0);
            }
            assert(row_tiles[i] == moved[i]);
            assert(row_tiles[i + 1] == moved[i + 1]);
            assert(has_equal_neighbours(row_tiles));
        }
    }
    if row_is_settled(cells) {
        lemma_packed_is_padded_tiles(cells, 0);
        assert(cells.skip(0) =~= cells);
        let padded = pad_right(row_tiles, cells.len());
        if has_equal_neighbours(row_tiles) {
            let i = choose|i: int|
                0 <= i < row_tiles.len() - 1 && #[trigger] row_tiles[i] == row_tiles[i + 1];
            assert(padded[i] == row_tiles[i]);
            assert(padded[i + 1] == row_tiles[i + 1]);
            assert(cells[i] == cells[i + 1] && cells[i] != 0);
        }
        lemma_merge_tiles_without_merge(row_tiles);
    }
}

/// A move to the left leaves a grid as it is if and only if every row is
/// settled.
pub proof fn lemma_left_unchanged_iff_settled(grid: Seq<Seq<nat>>)
    requires
        is_grid(grid),
    ensures
        spec_move_and_merge_left(grid) == grid <==> forall|row: int|
            0 <= row < 4 ==> row_is_settled(#[trigger] grid[row]),
{
    let moved = spec_move_and_merge_left(grid);
    assert forall|row: int| 0 <= row < 4 implies (moved[row] == grid[row] <==> row_is_settled(
        #[trigger] grid[row],
    )) by {
        lemma_row_unchanged_iff_settled(grid[row]);
    }
    if forall|row: int| 0 <= row < 4 ==> row_is_settled(#[trigger] grid[row]) {
        assert(moved =~= grid);
    }
}

/// A move to the right leaves a grid as it is if and only if every row, read
/// from the right, is settled.
pub proof fn lemma_right_unchanged_iff_settled(grid: Seq<Seq<nat>>)
    requires
        is_grid(grid),
    ensures
        spec_move_and_merge_right(grid) == grid <==> forall|row: int|
            0 <= row < 4 ==> row_is_settled(reversed(#[trigger] grid[row])),
{
    let moved = spec_move_and_merge_right(grid);
    assert forall|row: int| 0 <= row < 4 implies (moved[row] == grid[row] <==> row_is_settled(
        reversed(#[trigger] grid[row]),
    )) by {
        lemma_move_and_merge_right_by_rows(grid, row);
        lemma_row_unchanged_iff_settled(reversed(grid[row]));
        lemma_reversed_twice(grid[row]);
        lemma_reversed_twice(spec_move_and_merge_row_left(reversed(grid[row])));
    }
    if forall|row: int| 0 <= row < 4 ==> row_is_settled(reversed(#[trigger] grid[row])) {
        assert(moved =~= grid);
    }
}

/// A move up leaves a grid as it is if and only if every column, read from
/// the top, is settled.
pub proof fn lemma_up_unchanged_iff_settled(grid: Seq<Seq<nat>>)
    requires
        is_grid(grid),
    ensures
        spec_move_and_merge_up(grid) == grid <==> forall|column: int|
            0 <= column < 4 ==> row_is_settled(#[trigger] column_of(grid, column)),
{
    let moved = spec_move_and_merge_up(grid);
    assert forall|column: int| 0 <= column < 4 implies (column_of(moved, column) == column_of(
        grid,
        column,
    ) <==> row_is_settled(#[trigger] column_of(grid, column))) by {
        lemma_move_and_merge_up_by_columns(grid, column);
        lemma_row_unchanged_iff_settled(column_of(grid, column));
    }
    if forall|column: int| 0 <= column < 4 ==> row_is_settled(#[trigger] column_of(grid, column)) {
        lemma_same_columns(moved, grid);
    }
}

/// A move down leaves a grid as it is if and only if every column, read from
/// the bottom, is settled.
pub proof fn lemma_down_unchanged_iff_settled(grid: Seq<Seq<nat>>)
    requires
        is_grid(grid),
    ensures
        spec_move_and_merge_down(grid) == grid <==> forall|column: int|
            0 <= column < 4 ==> row_is_settled(reversed(#[trigger] column_of(grid, column))),
{
    let moved = spec_move_and_merge_down(grid);
    assert forall|column: int| 0 <= column < 4 implies (column_of(moved, column) == column_of(
        grid,
        column,
    ) <==> row_is_settled(reversed(#[trigger] column_of(grid, column)))) by {
        lemma_move_and_merge_down_by_columns(grid, column);
        lemma_row_unchanged_iff_settled(reversed(column_of(grid, column)));
        lemma_reversed_twice(column_of(grid, column));
        lemma_reversed_twice(spec_move_and_merge_row_left(reversed(column_of(grid, column))));
    }
    if forall|column: int|
        0 <= column < 4 ==> row_is_settled(reversed(#[trigger] column_of(grid, column))) {
        lemma_same_columns(moved, grid);
    }
}

/// A move that changes a row leaves an empty cell in it.
pub proof fn lemma_changed_row_has_empty_cell(cells: Seq<nat>)
    requires
        spec_move_and_merge_row_left(cells) != cells,
    ensures
        exists|column: int|
            0 <= column < cells.len() && #[trigger] spec_move_and_merge_row_left(cells)[column]
                == 0,
{
    let moved = spec_move_and_merge_row_left(cells);
    let merged = merge_tiles(tiles(cells));
    lemma_tiles_from_len(cells, 0);
    lemma_merge_tiles_len(tiles(cells));
    if merged.len() == cells.len() {
        lemma_tiles_of_full_tail(cells, 0);
        lemma_merge_tiles_without_merge(tiles(cells));
        assert(moved =~= cells);
    } else {
        assert(moved[cells.len() - 1] == 0);
    }
}

/// A move to the left that changes the grid leaves an empty cell.
pub proof fn lemma_changed_left_has_empty_cell(grid: Seq<Seq<nat>>)
    requires
        is_grid(grid),
        spec_move_and_merge_left(grid) != grid,
    ensures
        has_empty_cell(spec_move_and_merge_left(grid)),
{
    let moved = spec_move_and_merge_left(grid);
    if forall|row: int| 0 <= row < 4 ==> #[trigger] moved[row] == grid[row] {
        assert(moved =~= grid);
    } else {
        let row = choose|row: int| 0 <= row < 4 && #[trigger] moved[row] != grid[row];
        lemma_changed_row_has_empty_cell(grid[row]);
        let column = choose|column: int|
            0 <= column < 4 && #[trigger] spec_move_and_merge_row_left(grid[row])[column] == 0;
        assert(moved[row][column] == 0);
    }
}

/// A move up that changes the grid leaves an empty cell.
pub proof fn lemma_changed_up_has_empty_cell(grid: Seq<Seq<nat>>)
    requires
        is_grid(grid),
        spec_move_and_merge_up(grid) != grid,
    ensures
        has_empty_cell(spec_move_and_merge_up(grid)),
{
    let turned = spec_rotate_counterclockwise(grid);
    let moved = spec_move_and_merge_left(turned);
    if moved == turned {
        lemma_rotate_counterclockwise_then_clockwise(grid);
    } else {
        lemma_changed_left_has_empty_cell(turned);
        let (row, column) = choose|row: int, column: int|
            0 <= row < 4 && 0 <= column < 4 && #[trigger] moved[row][column] == 0;
        assert(spec_rotate_clockwise(moved)[column][3 - row] == 0);
    }
}

/// A move down that changes the grid leaves an empty cell.
pub proof fn lemma_changed_down_has_empty_cell(grid: Seq<Seq<nat>>)
    requires
        is_grid(grid),
        spec_move_and_merge_down(grid) != grid,
    ensures
        has_empty_cell(spec_move_and_merge_down(grid)),
{
    let turned = spec_rotate_clockwise(grid);
    let moved = spec_move_and_merge_left(turned);
    if moved == turned {
        lemma_rotate_clockwise_then_counterclockwise(grid);
    } else {
        lemma_changed_left_has_empty_cell(turned);
        let (row, column) = choose|row: int, column: int|
            0 <= row < 4 && 0 <= column < 4 && #[trigger] moved[row][column] == 0;
        assert(spec_rotate_counterclockwise(moved)[3 - column][row] == 0);
    }
}

/// A move to the right that changes the grid leaves an empty cell.
pub proof fn lemma_changed_right_has_empty_cell(grid: Seq<Seq<nat>>)
    requires
        is_grid(grid),
        spec_move_and_merge_right(grid) != grid,
    ensures
        has_empty_cell(spec_move_and_merge_right(grid)),
{
    let turned = spec_rotate_counterclockwise(grid);
    let moved = spec_move_and_merge_up(turned);
    if moved == turned {
        lemma_rotate_counterclockwise_then_clockwise(grid);
    } else {
        lemma_changed_up_has_empty_cell(turned);
        let (row, column) = choose|row: int, column: int|
            0 <= row < 4 && 0 <= column < 4 && #[trigger] moved[row][column] == 0;
        assert(spec_rotate_clockwise(moved)[column][3 - row] == 0);
    }
}

/// A move keeps a row valid: its cells stay empty or powers of two.
pub proof fn lemma_move_and_merge_row_left_is_valid(cells: Seq<nat>)
    requires
        row_is_valid(cells),
    ensures
        row_is_valid(spec_move_and_merge_row_left(cells)),
{
    lemma_tiles_are_powers_of_two(cells, 0);
    lemma_merge_tiles_are_powers_of_two(tiles(cells));
    let merged = merge_tiles(tiles(cells));
    let moved = spec_move_and_merge_row_left(cells);
    assert forall|i: int| 0 <= i < moved.len() implies is_cell_value(#[trigger] moved[i]) by {
        if i < merged.len() {
            assert(is_power_of_two(merged[i]));
        }
    }
}

/// A move to the left keeps a grid valid.
pub proof fn lemma_move_and_merge_left_is_valid(grid: Seq<Seq<nat>>)
    requires
        is_grid(grid),
        grid_is_valid(grid),
    ensures
        grid_is_valid(spec_move_and_merge_left(grid)),
        is_grid(spec_move_and_merge_left(grid)),
{
    lemma_move_and_merge_left_is_grid(grid);
    let moved = spec_move_and_merge_left(grid);
    assert forall|row: int| 0 <= row < moved.len() implies row_is_valid(#[trigger] moved[row]) by {
        assert(row_is_valid(grid[row]));
        lemma_move_and_merge_row_left_is_valid(grid[row]);
    }
}

/// A move up keeps a grid valid.
pub proof fn lemma_move_and_merge_up_is_valid(grid: Seq<Seq<nat>>)
    requires
        is_grid(grid),
        grid_is_valid(grid),
    ensures
        grid_is_valid(spec_move_and_merge_up(grid)),
        is_grid(spec_move_and_merge_up(grid)),
{
    lemma_rotate_counterclockwise_is_valid(grid);
    lemma_move_and_merge_left_is_valid(spec_rotate_counterclockwise(grid));
    lemma_rotate_clockwise_is_valid(
        spec_move_and_merge_left(spec_rotate_counterclockwise(grid)),
    );
}

/// A move down keeps a grid valid.
pub proof fn lemma_move_and_merge_down_is_valid(grid: Seq<Seq<nat>>)
    requires
        is_grid(grid),
        grid_is_valid(grid),
    ensures
        grid_is_valid(spec_move_and_merge_down(grid)),
        is_grid(spec_move_and_merge_down(grid)),
{
    lemma_rotate_clockwise_is_valid(grid);
    lemma_move_and_merge_left_is_valid(spec_rotate_clockwise(grid));
    lemma_rotate_counterclockwise_is_valid(spec_move_and_merge_left(spec_rotate_clockwise(grid)));
}

/// A move to the right keeps a grid valid.
pub proof fn lemma_move_and_merge_right_is_valid(grid: Seq<Seq<nat>>)
    requires
        is_grid(grid),
        grid_is_valid(grid),
    ensures
        grid_is_valid(spec_move_and_merge_right(grid)),
        is_grid(spec_move_and_merge_right(grid)),
{
    lemma_rotate_counterclockwise_is_valid(grid);
    lemma_move_and_merge_up_is_valid(spec_rotate_counterclockwise(grid));
    lemma_rotate_clockwise_is_valid(spec_move_and_merge_up(spec_rotate_counterclockwise(grid)));
}

/// A move makes no tile larger than twice the largest tile of the row.
pub proof fn lemma_moved_row_bound(cells: Seq<nat>, bound: nat)
    requires
        forall|i: int| 0 <= i < cells.len() ==> #[trigger] cells[i] <= bound,
    ensures
        forall|i: int|
            0 <= i < spec_move_and_merge_row_left(cells).len()
                ==> #[trigger] spec_move_and_merge_row_left(cells)[i] <= 2 * bound,
{
    lemma_tiles_bound(cells, 0, bound);
    lemma_merge_tiles_bound(tiles(cells), bound);
}

/// No tile of a tail is larger than the largest cell.
pub proof fn lemma_tiles_bound(cells: Seq<nat>, from: int, bound: nat)
    requires
        0 <= from <= cells.len(),
        forall|i: int| 0 <= i < cells.len() ==> #[trigger] cells[i] <= bound,
    ensures
        forall|i: int|
            0 <= i < tiles_from(cells, from).len() ==> #[trigger] tiles_from(cells, from)[i]
                <= bound,
    decreases cells.len() - from,
{
    if from < cells.len() {
        lemma_tiles_bound(cells, from + 1, bound);
        let all = tiles_from(cells, from);
        let tail = tiles_from(cells, from + 1);
        assert forall|i: int| 0 <= i < all.len() implies #[trigger] all[i] <= bound by {
            if cells[from] != 0 && i > 0 {
                assert(all[i] == tail[i - 1]);
            }
        }
    }
}

/// No merged tile is larger than twice the largest tile.
proof fn lemma_merge_tiles_bound(tiles: Seq<nat>, bound: nat)
    requires
        forall|i: int| 0 <= i < tiles.len() ==> #[trigger] tiles[i] <= bound,
    ensures
        forall|i: int|
            0 <= i < merge_tiles(tiles).len() ==> #[trigger] merge_tiles(tiles)[i] <= 2 * bound,
    decreases tiles.len(),
{
    if tiles.len() >= 2 {
        let merged = merge_tiles(tiles);
        let rest = if tiles[0] == tiles[1] {
            tiles.skip(2)
        } else {
            tiles.skip(1)
        };
        assert forall|i: int| 0 <= i < rest.len() implies #[trigger] rest[i] <= bound by {
            assert(rest[i] == tiles[i + tiles.len() - rest.len()]);
        }
        lemma_merge_tiles_bound(rest, bound);
        assert(tiles[0] <= bound);
        assert forall|i: int| 0 <= i < merged.len() implies #[trigger] merged[i] <= 2 * bound by {
            if i > 0 {
                assert(merged[i] == merge_tiles(rest)[i - 1]);
            }
        }
    } else {
        assert forall|i: int| 0 <= i < tiles.len() implies #[trigger] merge_tiles(tiles)[i] <= 2
            * bound by {
            assert(tiles[i] <= bound);
        }
    }
}

/// Where every tile can double, every move fits: no move in any direction
/// makes a tile that is too large for a cell.
pub proof fn lemma_can_double_fits(grid: Seq<Seq<nat>>)
    requires
        is_grid(grid),
        grid_can_double(grid),
    ensures
        grid_fits(spec_move_and_merge_left(grid)),
        grid_fits(spec_move_and_merge_right(grid)),
        grid_fits(spec_move_and_merge_up(grid)),
        grid_fits(spec_move_and_merge_down(grid)),
{
    let left = spec_move_and_merge_left(grid);
    let right = spec_move_and_merge_right(grid);
    let up = spec_move_and_merge_up(grid);
    let down = spec_move_and_merge_down(grid);
    assert forall|row: int| 0 <= row < left.len() implies row_fits(#[trigger] left[row]) by {
        lemma_can_double_fits_at(grid, row);
    }
    assert forall|row: int| 0 <= row < right.len() implies row_fits(#[trigger] right[row]) by {
        lemma_can_double_fits_at(grid, row);
    }
    assert forall|row: int| 0 <= row < up.len() implies row_fits(#[trigger] up[row]) by {
        assert forall|k: int| 0 <= k < up[row].len() implies #[trigger] up[row][k] <= u32::MAX by {
            lemma_can_double_fits_at(grid, k);
            assert(column_of(up, k)[row] == up[row][k]);
        }
    }
    assert forall|row: int| 0 <= row < down.len() implies row_fits(#[trigger] down[row]) by {
        assert forall|k: int| 0 <= k < down[row].len() implies #[trigger] down[row][k]
            <= u32::MAX by {
            lemma_can_double_fits_at(grid, k);
            assert(column_of(down, k)[row] == down[row][k]);
        }
    }
}

/// Where every tile can double, the moved rows and columns with a given
/// number fit.
proof fn lemma_can_double_fits_at(grid: Seq<Seq<nat>>, i: int)
    requires
        is_grid(grid),
        grid_can_double(grid),
        0 <= i < 4,
    ensures
        row_fits(spec_move_and_merge_left(grid)[i]),
        row_fits(spec_move_and_merge_right(grid)[i]),
        row_fits(column_of(spec_move_and_merge_up(grid), i)),
        row_fits(column_of(spec_move_and_merge_down(grid), i)),
{
    let half = (u32::MAX / 2) as nat;
    let row = grid[i];
    let column = column_of(grid, i);
    assert forall|k: int| 0 <= k < 4 implies #[trigger] row[k] <= half by {
        assert(2 * grid[i][k] <= u32::MAX);
    }
    assert forall|k: int| 0 <= k < 4 implies #[trigger] column[k] <= half by {
        assert(2 * grid[k][i] <= u32::MAX);
    }
    assert forall|k: int| 0 <= k < 4 implies #[trigger] reversed(row)[k] <= half by {
        assert(2 * grid[i][3 - k] <= u32::MAX);
    }
    assert forall|k: int| 0 <= k < 4 implies #[trigger] reversed(column)[k] <= half by {
        assert(2 * grid[3 - k][i] <= u32::MAX);
    }
    lemma_moved_row_bound(row, half);
    lemma_moved_row_bound(reversed(row), half);
    lemma_moved_row_bound(column, half);
    lemma_moved_row_bound(reversed(column), half);
    lemma_move_and_merge_row_left_len(reversed(row));
    lemma_move_and_merge_row_left_len(reversed(column));
    lemma_move_and_merge_right_by_rows(grid, i);
    lemma_move_and_merge_up_by_columns(grid, i);
    lemma_move_and_merge_down_by_columns(grid, i);
    let right = spec_move_and_merge_right(grid)[i];
    let moved_back = spec_move_and_merge_row_left(reversed(row));
    assert forall|k: int| 0 <= k < right.len() implies #[trigger] right[k] <= u32::MAX by {
        assert(right[k] == moved_back[3 - k]);
    }
    let down = column_of(spec_move_and_merge_down(grid), i);
    let moved_column_back = spec_move_and_merge_row_left(reversed(column));
    assert forall|k: int| 0 <= k < down.len() implies #[trigger] down[k] <= u32::MAX by {
        assert(down[k] == moved_column_back[3 - k]);
    }
}

/// Something merges if and only if two equal tiles lie side by side.
pub proof fn lemma_merge_count_equal_neighbours(tiles: Seq<nat>)
    ensures
        merge_count(tiles) > 0 <==> has_equal_neighbours(tiles),
    decreases tiles.len(),
{
    if tiles.len() >= 2 {
        let rest = tiles.skip(1);
        lemma_merge_count_equal_neighbours(rest);
        if tiles[0] == tiles[1] {
        } else {
            if has_equal_neighbours(tiles) {
                let i = choose|i: int|
                    0 <= i < tiles.len() - 1 && #[trigger] tiles[i] == tiles[i + 1];
                assert(rest[i - 1] == rest[i - 1 + 1]);
            }
            if has_equal_neighbours(rest) {
                let i = choose|i: int| 0 <= i < rest.len() - 1 && #[trigger] rest[i] == rest[i + 1];
                assert(tiles[i + 1] == tiles[i + 1 + 1]);
            }
        }
    }
}

/// The tiles of a moved row are the merged tiles of the row.
pub proof fn lemma_tiles_of_moved_row(cells: Seq<nat>)
    ensures
        tiles(spec_move_and_merge_row_left(cells)) == merge_tiles(tiles(cells)),
{
    lemma_tiles_from_not_empty(cells, 0);
    lemma_merge_tiles_len(tiles(cells));
    lemma_tiles_of_padded(merge_tiles(tiles(cells)), cells.len(), 0);
    assert(merge_tiles(tiles(cells)).skip(0) =~= merge_tiles(tiles(cells)));
}

/// The tiles of a row that starts with tiles and ends in empty cells are
/// those tiles.
pub proof fn lemma_tiles_of_padded(tiles: Seq<nat>, width: nat, from: int)
    requires
        0 <= from <= tiles.len(),
        forall|i: int| 0 <= i < tiles.len() ==> tiles[i] != 0,
    ensures
        tiles_from(pad_right(tiles, width), from) == tiles.skip(from),
    decreases tiles.len() - from,
{
    let padded = pad_right(tiles, width);
    if from < tiles.len() {
        lemma_tiles_of_padded(tiles, width, from + 1);
        assert(padded[from] == tiles[from]);
        assert(seq![tiles[from]] + tiles.skip(from + 1) =~= tiles.skip(from));
    } else {
        lemma_tiles_from_skip_zeros(padded, from, padded.len() as int);
        assert(tiles.skip(from) =~= Seq::<nat>::empty());
    }
}

/// Every tile is a cell that is not empty.
pub proof fn lemma_tiles_from_not_empty(cells: Seq<nat>, from: int)
    requires
        0 <= from <= cells.len(),
    ensures
        forall|i: int|
            0 <= i < tiles_from(cells, from).len() ==> #[trigger] tiles_from(cells, from)[i] != 0,
    decreases cells.len() - from,
{
    if from < cells.len() {
        lemma_tiles_from_not_empty(cells, from + 1);
        let tail = tiles_from(cells, from + 1);
        assert forall|i: int| 0 <= i < tiles_from(cells, from).len() implies #[trigger] tiles_from(
            cells,
            from,
        )[i] != 0 by {
            if cells[from] != 0 && i > 0 {
                assert(tiles_from(cells, from)[i] == tail[i - 1]);
            }
        }
    }
}

/// Where nothing merges, merging changes nothing.
pub proof fn lemma_merge_tiles_without_merge(tiles: Seq<nat>)
    requires
        merge_count(tiles) == 0,
    ensures
        merge_tiles(tiles) == tiles,
    decreases tiles.len(),
{
    if tiles.len() >= 2 {
        lemma_merge_tiles_without_merge(tiles.skip(1));
        assert(seq![tiles[0]] + tiles.skip(1) =~= tiles);
    }
}

/// The tiles of a valid row are powers of two.
pub proof fn lemma_tiles_are_powers_of_two(cells: Seq<nat>, from: int)
    requires
        row_is_valid(cells),
        0 <= from <= cells.len(),
    ensures
        forall|i: int|
            0 <= i < tiles_from(cells, from).len() ==> is_power_of_two(
                #[trigger] tiles_from(cells, from)[i],
            ),
    decreases cells.len() - from,
{
    if from < cells.len() {
        lemma_tiles_are_powers_of_two(cells, from + 1);
        let all = tiles_from(cells, from);
        let tail = tiles_from(cells, from + 1);
        assert forall|i: int| 0 <= i < all.len() implies is_power_of_two(#[trigger] all[i]) by {
            assert(is_cell_value(cells[from]));
            if cells[from] != 0 && i > 0 {
                assert(all[i] == tail[i - 1]);
            }
        }
    }
}

/// Merging powers of two gives powers of two.
pub proof fn lemma_merge_tiles_are_powers_of_two(tiles: Seq<nat>)
    requires
        forall|i: int| 0 <= i < tiles.len() ==> is_power_of_two(#[trigger] tiles[i]),
    ensures
        forall|i: int|
            0 <= i < merge_tiles(tiles).len() ==> is_power_of_two(#[trigger] merge_tiles(tiles)[i]),
    decreases tiles.len(),
{
    if tiles.len() >= 2 {
        let merged = merge_tiles(tiles);
        if tiles[0] == tiles[1] {
            let rest = tiles.skip(2);
            assert forall|i: int| 0 <= i < rest.len() implies is_power_of_two(
                #[trigger] rest[i],
            ) by {
                assert(rest[i] == tiles[i + 2]);
            }
            lemma_merge_tiles_are_powers_of_two(rest);
            assert(is_power_of_two(tiles[0]));
            let exponent = choose|k: nat| tiles[0] == #[trigger] pow2(k);
            lemma_pow2_unfold(exponent + 1);
            assert(2 * tiles[0] == pow2(exponent + 1));
            assert forall|i: int| 0 <= i < merged.len() implies is_power_of_two(
                #[trigger] merged[i],
            ) by {
                if i > 0 {
                    assert(merged[i] == merge_tiles(rest)[i - 1]);
                }
            }
        } else {
            let rest = tiles.skip(1);
            assert forall|i: int| 0 <= i < rest.len() implies is_power_of_two(
                #[trigger] rest[i],
            ) by {
                assert(rest[i] == tiles[i + 1]);
            }
            lemma_merge_tiles_are_powers_of_two(rest);
            assert forall|i: int| 0 <= i < merged.len() implies is_power_of_two(
                #[trigger] merged[i],
            ) by {
                if i > 0 {
                    assert(merged[i] == merge_tiles(rest)[i - 1]);
                } else {
                    assert(is_power_of_two(tiles[0]));
                }
            }
        }
    }
}

/// Reading cells backwards twice gives the cells.
pub proof fn lemma_reversed_twice(cells: Seq<nat>)
    ensures
        reversed(reversed(cells)) == cells,
{
    assert(reversed(reversed(cells)) =~= cells);
}

/// Where every cell of a tail holds a tile, the tiles are the cells.
proof fn lemma_tiles_of_full_tail(cells: Seq<nat>, from: int)
    requires
        0 <= from <= cells.len(),
        tiles_from(cells, from).len() == cells.len() - from,
    ensures
        tiles_from(cells, from) == cells.skip(from),
    decreases cells.len() - from,
{
    if from < cells.len() {
        lemma_tiles_from_len(cells, from + 1);
        lemma_tiles_of_full_tail(cells, from + 1);
        assert(seq![cells[from]] + cells.skip(from + 1) =~= cells.skip(from));
    } else {
        assert(cells.skip(from) =~= Seq::<nat>::empty());
    }
}

/// A packed tail is its tiles followed by empty cells.
proof fn lemma_packed_is_padded_tiles(cells: Seq<nat>, from: int)
    requires
        is_packed(cells),
        0 <= from <= cells.len(),
    ensures
        pad_right(tiles_from(cells, from), (cells.len() - from) as nat) == cells.skip(from),
    decreases cells.len() - from,
{
    let width = (cells.len() - from) as nat;
    if from < cells.len() {
        if cells[from] == 0 {
            assert forall|k: int| from <= k < cells.len() implies cells[k] == 0 by {
                if k > from {
                    assert(cells[from] == 0 ==> cells[k] == 0);
                }
            }
            lemma_tiles_from_skip_zeros(cells, from, cells.len() as int);
            assert(pad_right(tiles_from(cells, from), width) =~= cells.skip(from));
        } else {
            lemma_packed_is_padded_tiles(cells, from + 1);
            lemma_pad_right_push_front(cells[from], tiles_from(cells, from + 1), width);
            assert(seq![cells[from]] + cells.skip(from + 1) =~= cells.skip(from));
        }
    } else {
        assert(pad_right(tiles_from(cells, from), width) =~= cells.skip(from));
    }
}

/// Two grids with the same columns are the same grid.
proof fn lemma_same_columns(a: Seq<Seq<nat>>, b: Seq<Seq<nat>>)
    requires
        is_grid(a),
        is_grid(b),
        forall|column: int|
            0 <= column < 4 ==> #[trigger] column_of(a, column) == column_of(b, column),
    ensures
        a == b,
{
    assert forall|row: int, column: int|
        0 <= row < 4 && 0 <= column < 4 implies #[trigger] a[row][column]
        == b[row][column] by {
        assert(column_of(a, column)[row] == column_of(b, column)[row]);
    }
    assert(a =~~= b);
}

} // verus!
