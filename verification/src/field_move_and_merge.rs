//! Sliding and merging the tiles of a grid in one direction.
//!
//! A move to the left is the model of all four moves: the other directions
//! turn the grid so that their direction becomes left, move to the left, and
//! turn the grid back.

use crate::board_value::BoardValue;
use crate::field::{Field, Row, field_values, grid_fits, is_grid, row_fits, row_values};
use crate::field_rotate::{
    rotate_clockwise, rotate_counterclockwise, spec_rotate_clockwise, spec_rotate_counterclockwise,
};
use vstd::prelude::*;

verus! {

/// The tiles among `cells[from..]`, in their order: the cells that are not
/// empty.
pub open spec fn tiles_from(cells: Seq<nat>, from: int) -> Seq<nat>
    decreases cells.len() - from,
{
    if from < 0 || from >= cells.len() {
        Seq::empty()
    } else if cells[from] == 0 {
        tiles_from(cells, from + 1)
    } else {
        seq![cells[from]] + tiles_from(cells, from + 1)
    }
}

/// The tiles of a row, in their order.
pub open spec fn tiles(cells: Seq<nat>) -> Seq<nat> {
    tiles_from(cells, 0)
}

/// Merges equal neighbours among `tiles`, pairing from the left: the first two
/// tiles merge into one of twice the value if they are equal, and the merged
/// tile takes no part in a second merge.
pub open spec fn merge_tiles(tiles: Seq<nat>) -> Seq<nat>
    decreases tiles.len(),
{
    if tiles.len() < 2 {
        tiles
    } else if tiles[0] == tiles[1] {
        seq![2 * tiles[0]] + merge_tiles(tiles.skip(2))
    } else {
        seq![tiles[0]] + merge_tiles(tiles.skip(1))
    }
}

/// The number of merges among `tiles` in one move: the pairs of equal
/// neighbours, paired from the left.
pub open spec fn merge_count(tiles: Seq<nat>) -> nat
    decreases tiles.len(),
{
    if tiles.len() < 2 {
        0
    } else if tiles[0] == tiles[1] {
        1 + merge_count(tiles.skip(2))
    } else {
        merge_count(tiles.skip(1))
    }
}

/// `tiles` followed by empty cells up to `width` cells.
pub open spec fn pad_right(tiles: Seq<nat>, width: nat) -> Seq<nat> {
    tiles + Seq::new((width - tiles.len()) as nat, |i: int| 0nat)
}

/// The cells `cells[from..]` after a move to the left.
pub open spec fn compact_from(cells: Seq<nat>, from: int) -> Seq<nat> {
    pad_right(merge_tiles(tiles_from(cells, from)), (cells.len() - from) as nat)
}

/// A row after a move to the left: its tiles slide to the left end, equal
/// neighbours merge, and the rest of the row is empty.
pub open spec fn spec_move_and_merge_row_left(cells: Seq<nat>) -> Seq<nat> {
    compact_from(cells, 0)
}

/// The grid after a move to the left: every row moves by itself.
pub open spec fn spec_move_and_merge_left(grid: Seq<Seq<nat>>) -> Seq<Seq<nat>> {
    Seq::new(4, |row: int| spec_move_and_merge_row_left(grid[row]))
}

/// The grid after a move up: turned so that up becomes left, moved to the
/// left, and turned back.
pub open spec fn spec_move_and_merge_up(grid: Seq<Seq<nat>>) -> Seq<Seq<nat>> {
    spec_rotate_clockwise(spec_move_and_merge_left(spec_rotate_counterclockwise(grid)))
}

/// The grid after a move down: turned so that down becomes left, moved to
/// the left, and turned back.
pub open spec fn spec_move_and_merge_down(grid: Seq<Seq<nat>>) -> Seq<Seq<nat>> {
    spec_rotate_counterclockwise(spec_move_and_merge_left(spec_rotate_clockwise(grid)))
}

/// The grid after a move to the right: turned so that right becomes up, moved
/// up, and turned back.
pub open spec fn spec_move_and_merge_right(grid: Seq<Seq<nat>>) -> Seq<Seq<nat>> {
    spec_rotate_clockwise(spec_move_and_merge_up(spec_rotate_counterclockwise(grid)))
}

/// Moves the tiles of every row to the left end and merges equal neighbours.
/// No merge may make a tile that is too large for a cell.
pub fn move_and_merge_left(field: Field) -> (result: Field)
    requires
        grid_fits(spec_move_and_merge_left(field_values(field))),
    ensures
        field_values(result) == spec_move_and_merge_left(field_values(field)),
{
    let ghost moved = spec_move_and_merge_left(field_values(field));
    assert(row_fits(moved[0]) && row_fits(moved[1]) && row_fits(moved[2]) && row_fits(moved[3]));
    let result = [
        move_and_merge_row_left(field[0]),
        move_and_merge_row_left(field[1]),
        move_and_merge_row_left(field[2]),
        move_and_merge_row_left(field[3]),
    ];
    assert(field_values(result) =~= moved);
    result
}

/// Moves the tiles of every column to the upper end and merges equal
/// neighbours. No merge may make a tile that is too large for a cell.
pub fn move_and_merge_up(field: Field) -> (result: Field)
    requires
        grid_fits(spec_move_and_merge_up(field_values(field))),
    ensures
        field_values(result) == spec_move_and_merge_up(field_values(field)),
{
    proof {
        lemma_move_and_merge_left_is_grid(spec_rotate_counterclockwise(field_values(field)));
        lemma_grid_fits_unrotate_clockwise(
            spec_move_and_merge_left(spec_rotate_counterclockwise(field_values(field))),
        );
    }
    rotate_clockwise(move_and_merge_left(rotate_counterclockwise(field)))
}

/// Moves the tiles of every column to the lower end and merges equal
/// neighbours. No merge may make a tile that is too large for a cell.
pub fn move_and_merge_down(field: Field) -> (result: Field)
    requires
        grid_fits(spec_move_and_merge_down(field_values(field))),
    ensures
        field_values(result) == spec_move_and_merge_down(field_values(field)),
{
    proof {
        lemma_move_and_merge_left_is_grid(spec_rotate_clockwise(field_values(field)));
        lemma_grid_fits_unrotate_counterclockwise(
            spec_move_and_merge_left(spec_rotate_clockwise(field_values(field))),
        );
    }
    rotate_counterclockwise(move_and_merge_left(rotate_clockwise(field)))
}

/// Moves the tiles of every row to the right end and merges equal
/// neighbours. No merge may make a tile that is too large for a cell.
pub fn move_and_merge_right(field: Field) -> (result: Field)
    requires
        grid_fits(spec_move_and_merge_right(field_values(field))),
    ensures
        field_values(result) == spec_move_and_merge_right(field_values(field)),
{
    proof {
        lemma_grid_fits_unrotate_clockwise(
            spec_move_and_merge_up(spec_rotate_counterclockwise(field_values(field))),
        );
    }
    rotate_clockwise(move_and_merge_up(rotate_counterclockwise(field)))
}

/// Moves the tiles of a row to the left and merges equal neighbours.
pub fn move_and_merge_row_left(row: Row) -> (result: Row)
    requires
        row_fits(spec_move_and_merge_row_left(row_values(row))),
    ensures
        row_values(result) == spec_move_and_merge_row_left(row_values(row)),
{
    let mut result: Row = row;
    let ghost moved = spec_move_and_merge_row_left(row_values(row));
    assert(moved =~= row_values(result).take(0) + compact_from(row_values(result), 0));
    for index in 0..3
        invariant
            row_fits(moved),
            moved == row_values(result).take(index as int) + compact_from(
                row_values(result),
                index as int,
            ),
    {
        let ghost before = row_values(result);
        result = pull(result, index);
        proof {
            let pulled = row_values(result);
            assert(pulled.take(index as int) =~= before.take(index as int));
            assert forall|k: int| 0 <= k < compact_from(pulled, index as int).len() implies
                #[trigger] compact_from(pulled, index as int)[k] <= u32::MAX by {
                assert(moved[index + k] == compact_from(pulled, index as int)[k]);
            }
        }
        let ghost pulled = row_values(result);
        result = merge(result, index);
        proof {
            let merged = row_values(result);
            assert(merged.take(index + 1) =~= pulled.take(index as int) + seq![
                merged[index as int],
            ]);
            assert(moved =~= merged.take(index + 1) + compact_from(merged, index + 1));
        }
    }
    proof {
        let values = row_values(result);
        reveal_with_fuel(tiles_from, 2);
        assert(compact_from(values, 3) =~= seq![values[3]]);
        assert(moved =~= values);
    }
    result
}

/// Fills the cell at `index`, if it is empty, with the next tile to its
/// right. The tiles from `index` on stay the same tiles in the same order.
fn pull(row: Row, index: usize) -> (result: Row)
    requires
        index < 3,
    ensures
        forall|k: int| 0 <= k < index ==> result[k] == row[k],
        tiles_from(row_values(result), index as int) == tiles_from(
            row_values(row),
            index as int,
        ),
        result[index as int].value == 0 ==> tiles_from(row_values(row), index as int).len()
            == 0,
{
    let mut result = row;
    let next_value = find_next_value(result, index + 1);
    if result[index].get_value() == 0 {
        result[index] = result[next_value];
        result[next_value] = BoardValue::new(0);
    }
    proof {
        reveal_with_fuel(tiles_from, 5);
        assert(tiles_from(row_values(result), index as int) =~= tiles_from(
            row_values(row),
            index as int,
        ));
    }
    result
}

/// Merges the tile at `index` with the next tile to its right, if they are
/// equal, and closes the gap. After that the cell at `index` is as the move
/// leaves it.
fn merge(row: Row, index: usize) -> (result: Row)
    requires
        index < 3,
        row[index as int].value == 0 ==> tiles_from(row_values(row), index as int).len() == 0,
        row_fits(compact_from(row_values(row), index as int)),
    ensures
        forall|k: int| 0 <= k < index ==> result[k] == row[k],
        compact_from(row_values(row), index as int) == seq![result[index as int].value as nat]
            + compact_from(row_values(result), index + 1),
{
    let mut result = row;
    let next_value = find_next_value(result, index + 1);
    let ghost before = row_values(row);
    let ghost first = before[index as int];
    let ghost width = (4 - index) as nat;
    proof {
        lemma_tiles_from_skip_zeros(before, index + 1, next_value as int);
        if first == 0 {
            lemma_no_tiles_all_empty(before, index as int);
        }
    }
    if result[index].get_value() == result[next_value].get_value() {
        proof {
            if first != 0 {
                let rest = tiles_from(before, next_value + 1);
                assert(before[next_value as int] == first);
                assert(tiles_from(before, next_value as int) == seq![first] + rest);
                assert(tiles_from(before, index as int) == seq![first] + tiles_from(
                    before,
                    index + 1,
                ));
                assert(tiles_from(before, index as int) =~= seq![first, first] + rest);
                assert((seq![first, first] + rest).skip(2) =~= rest);
                assert(merge_tiles(seq![first, first] + rest) == seq![2 * first] + merge_tiles(
                    rest,
                ));
                lemma_pad_right_push_front(2 * first, merge_tiles(rest), width);
                assert(compact_from(before, index as int)[0] == 2 * first);
            }
        }
        result[index] = result[index].duplicate();
        result[next_value] = BoardValue::new(0);
        let ghost middle = row_values(result);
        result = shift_values(result, index + 1);
        proof {
            let after = row_values(result);
            lemma_tiles_from_same_tail(middle, index + 2, after, index + 1);
            lemma_tiles_from_skip_zeros(middle, index + 2, next_value + 1);
            lemma_tiles_from_same_tail(middle, next_value + 1, before, next_value + 1);
            assert(tiles_from(after, index + 1) == tiles_from(before, next_value + 1));
            assert(after[index as int] == 2 * first);
            if first == 0 {
                lemma_tiles_from_skip_zeros(before, next_value + 1, 4);
                assert(compact_from(before, index as int) =~= seq![0nat] + compact_from(
                    after,
                    index + 1,
                ));
            }
        }
    } else {
        proof {
            let tail = tiles_from(before, index + 1);
            assert(tiles_from(before, index as int) =~= seq![first] + tail);
            assert((seq![first] + tail).skip(1) =~= tail);
            if before[next_value as int] == 0 {
                lemma_tiles_from_skip_zeros(before, index + 1, 4);
                assert(merge_tiles(seq![first] + tail) =~= seq![first] + merge_tiles(tail));
            } else {
                assert(tail == tiles_from(before, next_value as int));
                assert(tail[0] == before[next_value as int]);
                assert((seq![first] + tail)[1] == tail[0]);
            }
            assert(merge_tiles(seq![first] + tail) == seq![first] + merge_tiles(tail));
            lemma_pad_right_push_front(first, merge_tiles(tail), width);
        }
    }
    result
}

/// The place of the first tile at or after `start_index`, and `start_index`
/// if there is none.
fn find_next_value(row: Row, start_index: usize) -> (result: usize)
    requires
        1 <= start_index <= 3,
    ensures
        start_index <= result <= 3,
        forall|k: int| start_index <= k < result ==> row[k].value == 0,
        row[result as int].value == 0 ==> result == start_index && forall|k: int|
            start_index <= k < 4 ==> row[k].value == 0,
{
    let mut index = start_index;
    while index < 4
        invariant
            start_index <= index <= 4,
            forall|k: int| start_index <= k < index ==> row[k].value == 0,
        decreases 4 - index,
    {
        if row[index].get_value() != 0 {
            return index;
        }
        index += 1;
    }
    start_index
}

/// Moves the cells after `start_index` one place to the left, onto the cell
/// at `start_index`, and leaves the last cell empty.
fn shift_values(row: Row, start_index: usize) -> (result: Row)
    requires
        1 <= start_index <= 3,
    ensures
        forall|k: int| 0 <= k < start_index ==> result[k] == row[k],
        forall|k: int| start_index <= k < 3 ==> result[k] == row[k + 1],
        start_index < 4 - 1 ==> result[3].value == 0,
        start_index == 3 ==> result[3] == row[3],
{
    let mut result: Row = row;
    let mut index = start_index;
    while index <= 2
        invariant
            1 <= start_index <= index <= 3,
            forall|k: int| 0 <= k < start_index ==> result[k] == row[k],
            forall|k: int| start_index <= k < index ==> result[k] == row[k + 1],
            forall|k: int| index < k < 4 ==> result[k] == row[k],
            index > start_index ==> result[index as int].value == 0,
            index == start_index ==> result[index as int] == row[index as int],
        decreases 3 - index,
    {
        let source_index = index + 1;
        result[index] = result[source_index];
        result[source_index] = BoardValue::new(0);
        index += 1;
    }
    result
}

/// There are no more tiles in a tail than cells.
pub proof fn lemma_tiles_from_len(cells: Seq<nat>, from: int)
    requires
        0 <= from <= cells.len(),
    ensures
        tiles_from(cells, from).len() <= cells.len() - from,
    decreases cells.len() - from,
{
    if from < cells.len() {
        lemma_tiles_from_len(cells, from + 1);
    }
}

/// Each merge takes one tile away, and merging leaves no empty cell among
/// tiles.
pub proof fn lemma_merge_tiles_len(tiles: Seq<nat>)
    ensures
        merge_tiles(tiles).len() + merge_count(tiles) == tiles.len(),
        (forall|i: int| 0 <= i < tiles.len() ==> tiles[i] != 0) ==> forall|i: int|
            0 <= i < merge_tiles(tiles).len() ==> merge_tiles(tiles)[i] != 0,
    decreases tiles.len(),
{
    if tiles.len() >= 2 {
        if tiles[0] == tiles[1] {
            lemma_merge_tiles_len(tiles.skip(2));
        } else {
            lemma_merge_tiles_len(tiles.skip(1));
        }
    }
}

/// A moved row is as long as the row.
pub proof fn lemma_move_and_merge_row_left_len(cells: Seq<nat>)
    ensures
        spec_move_and_merge_row_left(cells).len() == cells.len(),
{
    lemma_tiles_from_len(cells, 0);
    lemma_merge_tiles_len(tiles_from(cells, 0));
}

/// A moved grid is a grid.
pub proof fn lemma_move_and_merge_left_is_grid(grid: Seq<Seq<nat>>)
    requires
        is_grid(grid),
    ensures
        is_grid(spec_move_and_merge_left(grid)),
{
    assert forall|row: int| 0 <= row < 4 implies (#[trigger] spec_move_and_merge_left(
        grid,
    )[row]).len() == 4 by {
        lemma_move_and_merge_row_left_len(grid[row]);
    }
}

/// Empty cells in front do not change the tiles: if `cells[from..to]` is
/// empty, the tiles from `from` on are the tiles from `to` on.
pub proof fn lemma_tiles_from_skip_zeros(cells: Seq<nat>, from: int, to: int)
    requires
        0 <= from <= to <= cells.len(),
        forall|k: int| from <= k < to ==> cells[k] == 0,
    ensures
        tiles_from(cells, from) == tiles_from(cells, to),
    decreases to - from,
{
    if from < to {
        lemma_tiles_from_skip_zeros(cells, from + 1, to);
    }
}

/// The tiles of a tail depend on its cells alone, and empty cells behind it
/// add none: if `a[from_a..]` equals the start of `b[from_b..]` and the rest
/// of `b` is empty, both tails have the same tiles.
proof fn lemma_tiles_from_same_tail(a: Seq<nat>, from_a: int, b: Seq<nat>, from_b: int)
    requires
        0 <= from_a <= a.len(),
        0 <= from_b <= b.len(),
        a.len() - from_a <= b.len() - from_b,
        forall|i: int| from_a <= i < a.len() ==> a[i] == b[i - from_a + from_b],
        forall|j: int| from_b + (a.len() - from_a) <= j < b.len() ==> b[j] == 0,
    ensures
        tiles_from(a, from_a) == tiles_from(b, from_b),
    decreases a.len() - from_a,
{
    if from_a < a.len() {
        assert(a[from_a] == b[from_a - from_a + from_b]);
        lemma_tiles_from_same_tail(a, from_a + 1, b, from_b + 1);
    } else {
        lemma_tiles_from_skip_zeros(b, from_b, b.len() as int);
    }
}

/// A tail without tiles is empty throughout.
proof fn lemma_no_tiles_all_empty(cells: Seq<nat>, from: int)
    requires
        0 <= from <= cells.len(),
        tiles_from(cells, from).len() == 0,
    ensures
        forall|k: int| from <= k < cells.len() ==> cells[k] == 0,
    decreases cells.len() - from,
{
    if from < cells.len() {
        lemma_no_tiles_all_empty(cells, from + 1);
    }
}

/// Padding a row that starts with `first` is `first` followed by the padded
/// rest.
pub proof fn lemma_pad_right_push_front(first: nat, rest: Seq<nat>, width: nat)
    requires
        width >= 1,
    ensures
        pad_right(seq![first] + rest, width) == seq![first] + pad_right(
            rest,
            (width - 1) as nat,
        ),
{
    assert(pad_right(seq![first] + rest, width) =~= seq![first] + pad_right(
        rest,
        (width - 1) as nat,
    ));
}

/// If the clockwise turn of a grid fits, so does the grid.
proof fn lemma_grid_fits_unrotate_clockwise(grid: Seq<Seq<nat>>)
    requires
        is_grid(grid),
        grid_fits(spec_rotate_clockwise(grid)),
    ensures
        grid_fits(grid),
{
    let turned = spec_rotate_clockwise(grid);
    assert forall|row: int| 0 <= row < grid.len() implies row_fits(#[trigger] grid[row]) by {
        assert forall|column: int|
            0 <= column < grid[row].len() implies #[trigger] grid[row][column]
            <= u32::MAX by {
            assert(row_fits(turned[column]));
            assert(turned[column][3 - row] == grid[row][column]);
        }
    }
}

/// If the counterclockwise turn of a grid fits, so does the grid.
proof fn lemma_grid_fits_unrotate_counterclockwise(grid: Seq<Seq<nat>>)
    requires
        is_grid(grid),
        grid_fits(spec_rotate_counterclockwise(grid)),
    ensures
        grid_fits(grid),
{
    let turned = spec_rotate_counterclockwise(grid);
    assert forall|row: int| 0 <= row < grid.len() implies row_fits(#[trigger] grid[row]) by {
        assert forall|column: int|
            0 <= column < grid[row].len() implies #[trigger] grid[row][column]
            <= u32::MAX by {
            assert(row_fits(turned[3 - column]));
            assert(turned[3 - column][row] == grid[row][column]);
        }
    }
}

} // verus!
