//! The points that a move scores: the values of the tiles that its merges
//! make.

use crate::board_value::{BoardValue, is_power_of_two};
use crate::field::{
    Field, Row, field_values, grid_fits, grid_is_valid, is_grid, row_fits, row_is_valid, row_values,
};
use crate::field_move_and_merge::{
    lemma_move_and_merge_left_is_grid, lemma_tiles_from_len, merge_count, merge_tiles,
    spec_move_and_merge_down, spec_move_and_merge_left, spec_move_and_merge_right,
    spec_move_and_merge_row_left, spec_move_and_merge_up, tiles, tiles_from,
};
use crate::field_rotate::{
    lemma_rotate_clockwise_four_times, lemma_rotate_clockwise_is_valid,
    lemma_rotate_clockwise_then_counterclockwise, lemma_rotate_counterclockwise_is_valid,
    lemma_rotate_counterclockwise_then_clockwise, rotate_clockwise, rotate_counterclockwise,
    spec_rotate_clockwise, spec_rotate_counterclockwise,
};
use crate::move_laws::{
    lemma_move_tile_count, lemma_tiles_are_powers_of_two, lemma_tiles_bound,
    lemma_tiles_of_moved_row,
};
use vstd::arithmetic::power2::{lemma_pow2_strictly_increases, lemma_pow2_unfold, pow2};
use vstd::multiset::Multiset;
use vstd::prelude::*;
use vstd::relations::{sorted_by, total_ordering};
use vstd::seq_lib::{to_multiset_build, to_multiset_contains, to_multiset_len, to_multiset_remove};

verus! {

/// A number of points.
pub type Highscore = u64;

/// The tiles that the merges of one move make out of `tiles`: one tile of
/// twice the value for each pair of equal neighbours, paired from the left.
pub open spec fn merged_tiles(tiles: Seq<nat>) -> Seq<nat>
    decreases tiles.len(),
{
    if tiles.len() < 2 {
        Seq::empty()
    } else if tiles[0] == tiles[1] {
        seq![2 * tiles[0]] + merged_tiles(tiles.skip(2))
    } else {
        merged_tiles(tiles.skip(1))
    }
}

/// The sum of `values`.
pub open spec fn sum_of(values: Seq<nat>) -> nat
    decreases values.len(),
{
    if values.len() == 0 {
        0
    } else {
        values[0] + sum_of(values.skip(1))
    }
}

/// The points that a move to the left scores in one row: the sum of the
/// tiles that merges make.
pub open spec fn spec_added_points_per_row_left(cells: Seq<nat>) -> nat {
    sum_of(merged_tiles(tiles(cells)))
}

/// The points that a move to the left scores: those of its four rows.
pub open spec fn spec_added_points_left(grid: Seq<Seq<nat>>) -> nat {
    spec_added_points_per_row_left(grid[0]) + spec_added_points_per_row_left(grid[1])
        + spec_added_points_per_row_left(grid[2]) + spec_added_points_per_row_left(grid[3])
}

/// The points that a move up scores: those of a move to the left of the grid
/// turned so that up becomes left.
pub open spec fn spec_added_points_up(grid: Seq<Seq<nat>>) -> nat {
    spec_added_points_left(spec_rotate_counterclockwise(grid))
}

/// The points that a move to the right scores: those of a move to the left
/// of the grid turned upside down.
pub open spec fn spec_added_points_right(grid: Seq<Seq<nat>>) -> nat {
    spec_added_points_left(spec_rotate_clockwise(spec_rotate_clockwise(grid)))
}

/// The points that a move down scores: those of a move to the left of the
/// grid turned so that down becomes left.
pub open spec fn spec_added_points_down(grid: Seq<Seq<nat>>) -> nat {
    spec_added_points_left(spec_rotate_clockwise(grid))
}

/// The values of a list of cells.
pub open spec fn values_of(cells: Seq<BoardValue>) -> Seq<nat> {
    Seq::new(cells.len(), |i: int| cells[i].value as nat)
}

/// The order in which both rows are sorted before they are matched: larger
/// values first.
pub open spec fn descending() -> spec_fn(nat, nat) -> bool {
    |a: nat, b: nat| a >= b
}

/// The tiles of a row, the largest first.
pub open spec fn sorted_tiles(cells: Seq<nat>) -> Seq<nat> {
    tiles(cells).sort_by(descending())
}

/// `values` without its first `count` values, or without all of them if
/// there are fewer.
pub open spec fn skip_up_to(values: Seq<nat>, count: nat) -> Seq<nat> {
    if values.len() >= count {
        values.skip(count as int)
    } else {
        Seq::empty()
    }
}

/// Matching `to` against `from` never runs out of values of `from`: each
/// value of `to` finds a value of `from` to be held against.
pub open spec fn can_match(from: Seq<nat>, to: Seq<nat>) -> bool
    decreases to.len(),
{
    if to.len() == 0 {
        true
    } else if from.len() == 0 {
        false
    } else if from[0] == to[0] {
        can_match(from.skip(1), to.skip(1))
    } else {
        can_match(skip_up_to(from, 2), to.skip(1))
    }
}

/// The values of `to` that find no equal value in `from`, both taken from
/// the front: a value of `to` that equals the next value of `from` is
/// matched and uses it up; one that differs is unmatched and uses up the next
/// two values of `from`.
pub open spec fn unmatched(from: Seq<nat>, to: Seq<nat>) -> Seq<nat>
    decreases to.len(),
{
    if to.len() == 0 {
        Seq::empty()
    } else if from.len() > 0 && from[0] == to[0] {
        unmatched(from.skip(1), to.skip(1))
    } else {
        seq![to[0]] + unmatched(skip_up_to(from, 2), to.skip(1))
    }
}

/// The points that the move to the left from `from` to `to` scored.
pub fn calculate_added_points_left(from: Field, to: Field) -> (points: Highscore)
    requires
        grid_is_valid(field_values(from)),
        field_values(to) == spec_move_and_merge_left(field_values(from)),
    ensures
        points == spec_added_points_left(field_values(from)),
{
    let ghost grid = field_values(from);
    let ghost moved = field_values(to);
    assert(row_is_valid(grid[0]) && row_is_valid(grid[1]) && row_is_valid(grid[2])
        && row_is_valid(grid[3]));
    assert(moved[0] == spec_move_and_merge_row_left(grid[0]));
    assert(moved[1] == spec_move_and_merge_row_left(grid[1]));
    assert(moved[2] == spec_move_and_merge_row_left(grid[2]));
    assert(moved[3] == spec_move_and_merge_row_left(grid[3]));
    calculate_added_points_per_row_left(from[0], to[0]) + calculate_added_points_per_row_left(
        from[1],
        to[1],
    ) + calculate_added_points_per_row_left(from[2], to[2])
        + calculate_added_points_per_row_left(from[3], to[3])
}

/// The points that the move up from `from` to `to` scored.
pub fn calculate_added_points_up(from: Field, to: Field) -> (points: Highscore)
    requires
        grid_is_valid(field_values(from)),
        field_values(to) == spec_move_and_merge_up(field_values(from)),
    ensures
        points == spec_added_points_up(field_values(from)),
{
    proof {
        let turned = spec_rotate_counterclockwise(field_values(from));
        lemma_rotate_counterclockwise_is_valid(field_values(from));
        lemma_move_and_merge_left_is_grid(turned);
        lemma_rotate_clockwise_then_counterclockwise(spec_move_and_merge_left(turned));
    }
    calculate_added_points_left(rotate_counterclockwise(from), rotate_counterclockwise(to))
}

/// The points that the move to the right from `from` to `to` scored.
pub fn calculate_added_points_right(from: Field, to: Field) -> (points: Highscore)
    requires
        grid_is_valid(field_values(from)),
        field_values(to) == spec_move_and_merge_right(field_values(from)),
    ensures
        points == spec_added_points_right(field_values(from)),
{
    proof {
        let grid = field_values(from);
        let turned = spec_rotate_counterclockwise(spec_rotate_counterclockwise(grid));
        lemma_rotate_clockwise_is_valid(grid);
        lemma_rotate_clockwise_is_valid(spec_rotate_clockwise(grid));
        assert(spec_rotate_clockwise(spec_rotate_clockwise(grid)) =~~= turned);
        lemma_move_and_merge_left_is_grid(turned);
        lemma_rotate_clockwise_four_times(spec_move_and_merge_left(turned));
    }
    calculate_added_points_left(
        rotate_clockwise(rotate_clockwise(from)),
        rotate_clockwise(rotate_clockwise(to)),
    )
}

/// The points that the move down from `from` to `to` scored.
pub fn calculate_added_points_down(from: Field, to: Field) -> (points: Highscore)
    requires
        grid_is_valid(field_values(from)),
        field_values(to) == spec_move_and_merge_down(field_values(from)),
    ensures
        points == spec_added_points_down(field_values(from)),
{
    proof {
        let turned = spec_rotate_clockwise(field_values(from));
        lemma_rotate_clockwise_is_valid(field_values(from));
        lemma_move_and_merge_left_is_grid(turned);
        lemma_rotate_counterclockwise_then_clockwise(spec_move_and_merge_left(turned));
    }
    calculate_added_points_left(rotate_clockwise(from), rotate_clockwise(to))
}

/// The points that a move to the left scores in one row, found by sorting
/// the tiles of the row before and after the move and matching them.
pub fn calculate_added_points_per_row_left(from: Row, to: Row) -> (points: Highscore)
    requires
        row_is_valid(row_values(from)),
        row_values(to) == spec_move_and_merge_row_left(row_values(from)),
    ensures
        points == spec_added_points_per_row_left(row_values(from)),
        points <= 4 * u32::MAX,
{
    proof {
        lemma_unmatched_are_merged(row_values(from));
    }
    let merged = get_merged_values(from, to);
    let ghost values = values_of(merged@);
    let mut sum: Highscore = 0;
    assert(values.skip(0) =~= values);
    for index in 0..merged.len()
        invariant
            merged.len() <= 4,
            values == values_of(merged@),
            sum + sum_of(values.skip(index as int)) == sum_of(values),
            sum <= index * u32::MAX,
    {
        assert(values.skip(index as int).skip(1) =~= values.skip(index + 1));
        assert(values.skip(index as int)[0] == merged[index as int].value);
        sum += merged[index].get_value() as Highscore;
    }
    sum
}

/// The values of `to` that stay unmatched when its tiles are matched against
/// those of `from`, the tiles of both sorted with the largest first.
fn get_merged_values(from: Row, to: Row) -> (merged_values: Vec<BoardValue>)
    requires
        can_match(sorted_tiles(row_values(from)), sorted_tiles(row_values(to))),
    ensures
        values_of(merged_values@) == unmatched(
            sorted_tiles(row_values(from)),
            sorted_tiles(row_values(to)),
        ),
        merged_values.len() <= 4,
{
    let from_vector = get_vector_without_zeros_sorted_descending(from);
    let to_vector = get_vector_without_zeros_sorted_descending(to);
    let ghost from_values = sorted_tiles(row_values(from));
    let ghost to_values = sorted_tiles(row_values(to));

    let mut from_index: usize = 0;
    let mut merged_values: Vec<BoardValue> = Vec::new();
    assert(from_values.skip(0) =~= from_values);
    assert(to_values.skip(0) =~= to_values);
    for to_index in 0..to_vector.len()
        invariant
            to_vector.len() <= 4,
            from_values == values_of(from_vector@),
            to_values == values_of(to_vector@),
            from_index <= from_vector.len(),
            merged_values.len() <= to_index,
            can_match(from_values.skip(from_index as int), to_values.skip(to_index as int)),
            unmatched(from_values, to_values) == values_of(merged_values@) + unmatched(
                from_values.skip(from_index as int),
                to_values.skip(to_index as int),
            ),
    {
        let ghost from_rest = from_values.skip(from_index as int);
        let ghost to_rest = to_values.skip(to_index as int);
        let ghost found = values_of(merged_values@);
        assert(to_rest.skip(1) =~= to_values.skip(to_index + 1));
        assert(to_rest[0] == to_vector[to_index as int].value);
        assert(from_rest[0] == from_vector[from_index as int].value);
        let current_to = to_vector[to_index];
        let current_from = from_vector[from_index];
        from_index += 1;
        if current_from == current_to {
            assert(from_rest.skip(1) =~= from_values.skip(from_index as int));
        } else {
            if from_index < from_vector.len() {
                from_index += 1;
                assert(from_rest.skip(2) =~= from_values.skip(from_index as int));
            } else {
                assert(from_values.skip(from_index as int) =~= Seq::<nat>::empty());
                assert(from_rest.skip(1) =~= Seq::<nat>::empty());
            }
            merged_values.push(current_to);
            assert(values_of(merged_values@) =~= found + seq![to_rest[0]]);
            assert(unmatched(from_values, to_values) =~= values_of(merged_values@) + unmatched(
                from_values.skip(from_index as int),
                to_values.skip(to_index + 1),
            ));
        }
    }
    assert(values_of(merged_values@) =~= unmatched(from_values, to_values));
    merged_values
}

/// The tiles of a row, in their order.
fn get_vector_without_zeros(row: Row) -> (result_vector: Vec<BoardValue>)
    ensures
        values_of(result_vector@) == tiles(row_values(row)),
        result_vector.len() <= 4,
{
    let mut result_vector: Vec<BoardValue> = Vec::new();
    let ghost cells = row_values(row);
    for index in 0..4
        invariant
            cells == row_values(row),
            result_vector.len() <= index,
            tiles(cells) == values_of(result_vector@) + tiles_from(cells, index as int),
    {
        let ghost found = values_of(result_vector@);
        if row[index] != BoardValue::new(0) {
            result_vector.push(row[index]);
            assert(values_of(result_vector@) =~= found + seq![cells[index as int]]);
            assert(tiles(cells) =~= values_of(result_vector@) + tiles_from(cells, index + 1));
        }
    }
    assert(tiles(cells) =~= values_of(result_vector@));
    result_vector
}

/// The tiles of a row, the largest first.
fn get_vector_without_zeros_sorted_descending(row: Row) -> (values: Vec<BoardValue>)
    ensures
        values_of(values@) == sorted_tiles(row_values(row)),
        values.len() <= 4,
{
    let mut values = get_vector_without_zeros(row);
    let ghost unsorted = values_of(values@);
    let mut sorted_len: usize = 1;
    while sorted_len < values.len()
        invariant
            values.len() == unsorted.len(),
            values_of(values@).to_multiset() == unsorted.to_multiset(),
            forall|a: int, b: int|
                0 <= a < b < sorted_len && b < values.len() ==> values[a].value
                    >= values[b].value,
        decreases values.len() - sorted_len,
    {
        let mut position = sorted_len;
        while position > 0 && values[position - 1].get_value() < values[position].get_value()
            invariant
                position <= sorted_len < values.len(),
                values.len() == unsorted.len(),
                values_of(values@).to_multiset() == unsorted.to_multiset(),
                forall|a: int, b: int|
                    0 <= a < b <= sorted_len && a != position && b != position
                        ==> values[a].value >= values[b].value,
                forall|b: int|
                    position < b <= sorted_len ==> values[position as int].value
                        > values[b].value,
            decreases position,
        {
            let ghost before = values_of(values@);
            let moving = values[position];
            let passed = values[position - 1];
            values.set(position, passed);
            values.set(position - 1, moving);
            proof {
                lemma_swap_multiset(before, position as int, position - 1);
                assert(values_of(values@) =~= before.update(
                    position as int,
                    before[position - 1],
                ).update(position - 1, before[position as int]));
            }
            position -= 1;
        }
        sorted_len += 1;
    }
    proof {
        let sorted = values_of(values@);
        assert(sorted_by(sorted, descending())) by {
            assert forall|a: int, b: int| 0 <= a < b < sorted.len() implies #[trigger] descending()(
                sorted[a],
                sorted[b],
            ) by {
                assert(values[a].value >= values[b].value);
            }
        }
        lemma_descending_is_total();
        unsorted.lemma_sort_by_ensures(descending());
        vstd::seq_lib::lemma_sorted_unique(sorted, unsorted.sort_by(descending()), descending());
    }
    values
}

/// Sorting and matching finds the points of a move: with the tiles of a
/// valid row before and after a move to the left, both sorted with the
/// largest first, the matching never runs out of values, and the values
/// after the move that stay unmatched add up to the points of the move.
pub proof fn lemma_unmatched_are_merged(cells: Seq<nat>)
    requires
        row_is_valid(cells),
    ensures
        can_match(sorted_tiles(cells), sorted_tiles(spec_move_and_merge_row_left(cells))),
        sum_of(unmatched(sorted_tiles(cells), sorted_tiles(spec_move_and_merge_row_left(cells))))
            == spec_added_points_per_row_left(cells),
{
    let before = tiles(cells);
    let after = tiles(spec_move_and_merge_row_left(cells));
    let from = sorted_tiles(cells);
    let to = sorted_tiles(spec_move_and_merge_row_left(cells));
    lemma_tiles_of_moved_row(cells);
    lemma_descending_is_total();
    before.lemma_sort_by_ensures(descending());
    after.lemma_sort_by_ensures(descending());
    lemma_merge_multisets(before);
    lemma_tiles_are_powers_of_two(cells, 0);
    assert forall|i: int| 0 <= i < from.len() implies is_power_of_two(#[trigger] from[i]) by {
        to_multiset_contains(from, from[i]);
        to_multiset_contains(before, from[i]);
        let k = choose|k: int| 0 <= k < before.len() && before[k] == from[i];
        assert(is_power_of_two(before[k]));
    }
    lemma_unmatched_sum(from, to, unmerged_tiles(before), merging_tiles(before));
    lemma_sum_doubled(merging_tiles(before));
}

/// A move that leaves a row as it is scores nothing in it.
pub proof fn lemma_unchanged_row_scores_nothing(cells: Seq<nat>)
    requires
        spec_move_and_merge_row_left(cells) == cells,
    ensures
        spec_added_points_per_row_left(cells) == 0,
{
    lemma_move_tile_count(cells);
    lemma_merged_tiles_len(tiles(cells));
}

/// A move to the left that leaves the grid as it is scores nothing.
pub proof fn lemma_unchanged_left_scores_nothing(grid: Seq<Seq<nat>>)
    requires
        is_grid(grid),
        spec_move_and_merge_left(grid) == grid,
    ensures
        spec_added_points_left(grid) == 0,
{
    assert forall|row: int| 0 <= row < 4 implies spec_added_points_per_row_left(
        #[trigger] grid[row],
    ) == 0 by {
        assert(spec_move_and_merge_left(grid)[row] == spec_move_and_merge_row_left(grid[row]));
        lemma_unchanged_row_scores_nothing(grid[row]);
    }
}

/// A move up that leaves the grid as it is scores nothing.
pub proof fn lemma_unchanged_up_scores_nothing(grid: Seq<Seq<nat>>)
    requires
        is_grid(grid),
        spec_move_and_merge_up(grid) == grid,
    ensures
        spec_added_points_up(grid) == 0,
{
    let turned = spec_rotate_counterclockwise(grid);
    lemma_move_and_merge_left_is_grid(turned);
    lemma_rotate_clockwise_then_counterclockwise(spec_move_and_merge_left(turned));
    lemma_unchanged_left_scores_nothing(turned);
}

/// A move down that leaves the grid as it is scores nothing.
pub proof fn lemma_unchanged_down_scores_nothing(grid: Seq<Seq<nat>>)
    requires
        is_grid(grid),
        spec_move_and_merge_down(grid) == grid,
    ensures
        spec_added_points_down(grid) == 0,
{
    let turned = spec_rotate_clockwise(grid);
    lemma_move_and_merge_left_is_grid(turned);
    lemma_rotate_counterclockwise_then_clockwise(spec_move_and_merge_left(turned));
    lemma_unchanged_left_scores_nothing(turned);
}

/// A move to the right that leaves the grid as it is scores nothing.
pub proof fn lemma_unchanged_right_scores_nothing(grid: Seq<Seq<nat>>)
    requires
        is_grid(grid),
        spec_move_and_merge_right(grid) == grid,
    ensures
        spec_added_points_right(grid) == 0,
{
    let turned = spec_rotate_counterclockwise(spec_rotate_counterclockwise(grid));
    assert(spec_rotate_clockwise(spec_rotate_clockwise(grid)) =~~= turned);
    lemma_move_and_merge_left_is_grid(turned);
    lemma_rotate_clockwise_four_times(spec_move_and_merge_left(turned));
    lemma_unchanged_left_scores_nothing(turned);
}

/// No move scores more than the tiles on the grid add up to, and those add
/// up to no more than sixteen times the largest value of a cell.
pub proof fn lemma_added_points_bound(grid: Seq<Seq<nat>>)
    requires
        is_grid(grid),
        grid_fits(grid),
    ensures
        spec_added_points_left(grid) <= 16 * u32::MAX,
        spec_added_points_right(grid) <= 16 * u32::MAX,
        spec_added_points_up(grid) <= 16 * u32::MAX,
        spec_added_points_down(grid) <= 16 * u32::MAX,
{
    lemma_added_points_left_bound(grid);
    let upside_down = spec_rotate_clockwise(spec_rotate_clockwise(grid));
    assert forall|row: int| 0 <= row < upside_down.len() implies row_fits(
        #[trigger] upside_down[row],
    ) by {
        assert forall|column: int|
            0 <= column < upside_down[row].len() implies #[trigger] upside_down[row][column]
            <= u32::MAX by {
            assert(row_fits(grid[3 - row]));
            assert(upside_down[row][column] == grid[3 - row][3 - column]);
        }
    }
    lemma_added_points_left_bound(upside_down);
    let turned = spec_rotate_counterclockwise(grid);
    assert forall|row: int| 0 <= row < turned.len() implies row_fits(#[trigger] turned[row]) by {
        assert forall|column: int|
            0 <= column < turned[row].len() implies #[trigger] turned[row][column]
            <= u32::MAX by {
            assert(row_fits(grid[column]));
            assert(turned[row][column] == grid[column][3 - row]);
        }
    }
    lemma_added_points_left_bound(turned);
    let turned = spec_rotate_clockwise(grid);
    assert forall|row: int| 0 <= row < turned.len() implies row_fits(#[trigger] turned[row]) by {
        assert forall|column: int|
            0 <= column < turned[row].len() implies #[trigger] turned[row][column]
            <= u32::MAX by {
            assert(row_fits(grid[3 - column]));
            assert(turned[row][column] == grid[3 - column][row]);
        }
    }
    lemma_added_points_left_bound(turned);
}

/// A move to the left scores no more than sixteen times the largest value of
/// a cell.
proof fn lemma_added_points_left_bound(grid: Seq<Seq<nat>>)
    requires
        is_grid(grid),
        grid_fits(grid),
    ensures
        spec_added_points_left(grid) <= 16 * u32::MAX,
{
    assert forall|row: int| 0 <= row < 4 implies spec_added_points_per_row_left(
        #[trigger] grid[row],
    ) <= 4 * u32::MAX by {
        let cells = grid[row];
        assert(row_fits(cells));
        lemma_tiles_bound(cells, 0, u32::MAX as nat);
        lemma_tiles_from_len(cells, 0);
        lemma_merged_sum_bound(tiles(cells));
        lemma_sum_bound(tiles(cells), u32::MAX as nat);
    }
    assert(spec_added_points_per_row_left(grid[0]) <= 4 * u32::MAX);
    assert(spec_added_points_per_row_left(grid[1]) <= 4 * u32::MAX);
    assert(spec_added_points_per_row_left(grid[2]) <= 4 * u32::MAX);
    assert(spec_added_points_per_row_left(grid[3]) <= 4 * u32::MAX);
}

/// The merged tiles add up to no more than the tiles.
proof fn lemma_merged_sum_bound(tiles: Seq<nat>)
    ensures
        sum_of(merged_tiles(tiles)) <= sum_of(tiles),
    decreases tiles.len(),
{
    if tiles.len() >= 2 {
        assert(tiles.skip(1).skip(1) =~= tiles.skip(2));
        assert(tiles.skip(1)[0] == tiles[1]);
        assert(sum_of(tiles.skip(1)) == tiles[1] + sum_of(tiles.skip(2)));
        assert(sum_of(tiles) == tiles[0] + sum_of(tiles.skip(1)));
        if tiles[0] == tiles[1] {
            lemma_merged_sum_bound(tiles.skip(2));
            let merged = merged_tiles(tiles);
            assert(merged.skip(1) =~= merged_tiles(tiles.skip(2)));
            assert(sum_of(merged) == merged[0] + sum_of(merged.skip(1)));
        } else {
            lemma_merged_sum_bound(tiles.skip(1));
        }
    }
}

/// Values add up to no more than their number times the largest.
proof fn lemma_sum_bound(values: Seq<nat>, bound: nat)
    requires
        forall|i: int| 0 <= i < values.len() ==> #[trigger] values[i] <= bound,
    ensures
        sum_of(values) <= values.len() * bound,
    decreases values.len(),
{
    if values.len() > 0 {
        let rest = values.skip(1);
        assert forall|i: int| 0 <= i < rest.len() implies #[trigger] rest[i] <= bound by {
            assert(rest[i] == values[i + 1]);
        }
        lemma_sum_bound(rest, bound);
        assert(values[0] <= bound);
        assert(bound + rest.len() * bound == values.len() * bound) by (nonlinear_arith)
            requires
                values.len() == rest.len() + 1,
        ;
    }
}

/// The tiles that take part in a merge, one for each pair: the left tile of
/// each pair of equal neighbours, paired from the left.
spec fn merging_tiles(tiles: Seq<nat>) -> Seq<nat>
    decreases tiles.len(),
{
    if tiles.len() < 2 {
        Seq::empty()
    } else if tiles[0] == tiles[1] {
        seq![tiles[0]] + merging_tiles(tiles.skip(2))
    } else {
        merging_tiles(tiles.skip(1))
    }
}

/// The tiles that take no part in a merge.
spec fn unmerged_tiles(tiles: Seq<nat>) -> Seq<nat>
    decreases tiles.len(),
{
    if tiles.len() < 2 {
        tiles
    } else if tiles[0] == tiles[1] {
        unmerged_tiles(tiles.skip(2))
    } else {
        seq![tiles[0]] + unmerged_tiles(tiles.skip(1))
    }
}

/// Each value of `values` twice as large.
spec fn doubled(values: Seq<nat>) -> Seq<nat> {
    Seq::new(values.len(), |i: int| 2 * values[i])
}

/// The heart of the score: matching the descending tiles of a row after a
/// move against those before it leaves unmatched exactly the merged tiles.
///
/// `from` holds the tiles `unmerged` once and the tiles `merging` twice, `to`
/// holds `unmerged` once and the doubles of `merging` once. Then the matching
/// never runs out of values, and the unmatched values add up to the doubles
/// of `merging`. This rests on the tiles being powers of two: between a tile
/// and its double there is room for no other tile.
proof fn lemma_unmatched_sum(
    from: Seq<nat>,
    to: Seq<nat>,
    unmerged: Seq<nat>,
    merging: Seq<nat>,
)
    requires
        sorted_by(from, descending()),
        sorted_by(to, descending()),
        forall|i: int| 0 <= i < from.len() ==> is_power_of_two(#[trigger] from[i]),
        from.to_multiset() == unmerged.to_multiset().add(merging.to_multiset()).add(
            merging.to_multiset(),
        ),
        to.to_multiset() == unmerged.to_multiset().add(doubled(merging).to_multiset()),
    ensures
        can_match(from, to),
        sum_of(unmatched(from, to)) == 2 * sum_of(merging),
    decreases to.len(),
{
    broadcast use vstd::multiset::group_multiset_axioms;

    to_multiset_len(from);
    to_multiset_len(to);
    to_multiset_len(unmerged);
    to_multiset_len(merging);
    to_multiset_len(doubled(merging));
    if to.len() == 0 {
        assert(merging =~= Seq::<nat>::empty());
    } else {
        let first_to = to[0];
        let first_from = from[0];
        lemma_power_of_two_positive(first_from);
        assert(to.to_multiset().count(first_to) > 0) by {
            to_multiset_contains(to, first_to);
        }
        assert(from.to_multiset().count(first_from) > 0) by {
            to_multiset_contains(from, first_from);
        }
        lemma_skip_is_sorted(to, 1);
        lemma_skip_first_multiset(to);
        lemma_skip_first_multiset(from);
        // A value among `merging` has its double in `to`, so that it is at most half of the
        // first value of `to`.
        assert forall|value: nat| merging.to_multiset().count(value) > 0 implies 2 * value
            <= first_to by {
            to_multiset_contains(merging, value);
            let k = choose|k: int| 0 <= k < merging.len() && merging[k] == value;
            assert(doubled(merging)[k] == 2 * value);
            to_multiset_contains(doubled(merging), 2 * value);
            lemma_first_is_largest(to, 2 * value);
        }
        if first_from == first_to {
            assert(unmerged.to_multiset().count(first_from) > 0);
            to_multiset_contains(unmerged, first_from);
            let k = choose|k: int| 0 <= k < unmerged.len() && unmerged[k] == first_from;
            let rest = unmerged.remove(k);
            to_multiset_remove(unmerged, k);
            lemma_skip_is_sorted(from, 1);
            assert(from.skip(1).to_multiset() =~= rest.to_multiset().add(
                merging.to_multiset(),
            ).add(merging.to_multiset()));
            assert(to.skip(1).to_multiset() =~= rest.to_multiset().add(
                doubled(merging).to_multiset(),
            ));
            lemma_unmatched_sum(from.skip(1), to.skip(1), rest, merging);
        } else {
            // The first value of `from` is in `to` or has its double there.
            if unmerged.to_multiset().count(first_from) > 0 {
                lemma_first_is_largest(to, first_from);
            }
            assert(first_from < first_to);
            // So the first value of `to` is not in `from`: it is a double.
            if unmerged.to_multiset().count(first_to) > 0 {
                lemma_first_is_largest(from, first_to);
            }
            assert(doubled(merging).to_multiset().count(first_to) > 0);
            to_multiset_contains(doubled(merging), first_to);
            let k = choose|k: int|
                0 <= k < doubled(merging).len() && doubled(merging)[k] == first_to;
            let half = merging[k];
            assert(2 * half == first_to);
            assert(merging.to_multiset().count(half) > 0) by {
                to_multiset_contains(merging, half);
            }
            lemma_first_is_largest(from, half);
            to_multiset_contains(from, half);
            let h = choose|h: int| 0 <= h < from.len() && from[h] == half;
            assert(is_power_of_two(from[h]));
            lemma_power_of_two_gap(half, first_from);
            // It is the double of the first value of `from`, which `from` holds twice.
            assert(from.skip(1).to_multiset().count(half) > 0);
            lemma_skip_is_sorted(from, 1);
            lemma_first_is_largest(from.skip(1), half);
            assert(from.skip(1)[0] == from[1]);
            assert(descending()(from[0], from[1]));
            assert(from[1] == half);
            lemma_skip_first_multiset(from.skip(1));
            assert(from.skip(1).skip(1) =~= from.skip(2));
            lemma_skip_is_sorted(from, 2);
            let rest = merging.remove(k);
            to_multiset_remove(merging, k);
            assert(doubled(rest) =~= doubled(merging).remove(k));
            to_multiset_remove(doubled(merging), k);
            assert(from.skip(2).to_multiset() =~= unmerged.to_multiset().add(
                rest.to_multiset(),
            ).add(rest.to_multiset()));
            assert(to.skip(1).to_multiset() =~= unmerged.to_multiset().add(
                doubled(rest).to_multiset(),
            ));
            lemma_unmatched_sum(from.skip(2), to.skip(1), unmerged, rest);
            lemma_sum_remove(merging, k);
            let others = unmatched(from.skip(2), to.skip(1));
            assert((seq![first_to] + others).skip(1) =~= others);
        }
    }
}

/// How a move changes the tiles of a row: the tiles are those that take no
/// part in a merge and, twice, those that do; after the move they are those
/// that took no part and, once, the doubles of those that did.
proof fn lemma_merge_multisets(tiles: Seq<nat>)
    ensures
        tiles.to_multiset() == unmerged_tiles(tiles).to_multiset().add(
            merging_tiles(tiles).to_multiset(),
        ).add(merging_tiles(tiles).to_multiset()),
        merge_tiles(tiles).to_multiset() == unmerged_tiles(tiles).to_multiset().add(
            doubled(merging_tiles(tiles)).to_multiset(),
        ),
        merged_tiles(tiles) == doubled(merging_tiles(tiles)),
    decreases tiles.len(),
{
    broadcast use vstd::multiset::group_multiset_axioms;
    broadcast use vstd::seq_lib::lemma_multiset_commutative;

    lemma_small_multisets(0);
    if tiles.len() < 2 {
        assert(merging_tiles(tiles).to_multiset() =~= Multiset::<nat>::empty());
        assert(doubled(merging_tiles(tiles)) =~= Seq::<nat>::empty());
        assert(tiles.to_multiset() =~= unmerged_tiles(tiles).to_multiset().add(
            merging_tiles(tiles).to_multiset(),
        ).add(merging_tiles(tiles).to_multiset()));
        assert(merge_tiles(tiles).to_multiset() =~= unmerged_tiles(tiles).to_multiset().add(
            doubled(merging_tiles(tiles)).to_multiset(),
        ));
    } else if tiles[0] == tiles[1] {
        let rest = tiles.skip(2);
        lemma_merge_multisets(rest);
        assert(tiles =~= seq![tiles[0]] + (seq![tiles[1]] + rest));
        assert(doubled(merging_tiles(tiles)) =~= seq![2 * tiles[0]] + doubled(
            merging_tiles(rest),
        ));
        lemma_small_multisets(tiles[0]);
        lemma_small_multisets(2 * tiles[0]);
        assert(tiles.to_multiset() =~= unmerged_tiles(tiles).to_multiset().add(
            merging_tiles(tiles).to_multiset(),
        ).add(merging_tiles(tiles).to_multiset()));
        assert(merge_tiles(tiles).to_multiset() =~= unmerged_tiles(tiles).to_multiset().add(
            doubled(merging_tiles(tiles)).to_multiset(),
        ));
    } else {
        let rest = tiles.skip(1);
        lemma_merge_multisets(rest);
        lemma_small_multisets(tiles[0]);
        assert(tiles =~= seq![tiles[0]] + rest);
        assert(tiles.to_multiset() =~= unmerged_tiles(tiles).to_multiset().add(
            merging_tiles(tiles).to_multiset(),
        ).add(merging_tiles(tiles).to_multiset()));
        assert(merge_tiles(tiles).to_multiset() =~= unmerged_tiles(tiles).to_multiset().add(
            doubled(merging_tiles(tiles)).to_multiset(),
        ));
    }
}

/// There are as many merged tiles as merges.
proof fn lemma_merged_tiles_len(tiles: Seq<nat>)
    ensures
        merged_tiles(tiles).len() == merge_count(tiles),
    decreases tiles.len(),
{
    if tiles.len() >= 2 {
        if tiles[0] == tiles[1] {
            lemma_merged_tiles_len(tiles.skip(2));
        } else {
            lemma_merged_tiles_len(tiles.skip(1));
        }
    }
}

/// Between a power of two and its double lies no other power of two.
proof fn lemma_power_of_two_gap(x: nat, y: nat)
    requires
        is_power_of_two(x),
        is_power_of_two(y),
        x <= y < 2 * x,
    ensures
        x == y,
{
    let a = choose|k: nat| x == #[trigger] pow2(k);
    let b = choose|k: nat| y == #[trigger] pow2(k);
    if b < a {
        lemma_pow2_strictly_increases(b, a);
    } else if b > a {
        lemma_pow2_unfold(a + 1);
        if b > a + 1 {
            lemma_pow2_strictly_increases(a + 1, b);
        }
    }
}

/// A power of two is positive.
proof fn lemma_power_of_two_positive(x: nat)
    requires
        is_power_of_two(x),
    ensures
        x > 0,
{
    let a = choose|k: nat| x == #[trigger] pow2(k);
    vstd::arithmetic::power2::lemma_pow2_pos(a);
}

/// The sum of a list is one of its values plus the sum of the others.
proof fn lemma_sum_remove(values: Seq<nat>, index: int)
    requires
        0 <= index < values.len(),
    ensures
        sum_of(values) == values[index] + sum_of(values.remove(index)),
    decreases values.len(),
{
    if index == 0 {
        assert(values.remove(0) =~= values.skip(1));
    } else {
        lemma_sum_remove(values.skip(1), index - 1);
        assert(values.remove(index).skip(1) =~= values.skip(1).remove(index - 1));
        assert(values.remove(index)[0] == values[0]);
    }
}

/// The sum of the doubled values is twice the sum.
proof fn lemma_sum_doubled(values: Seq<nat>)
    ensures
        sum_of(doubled(values)) == 2 * sum_of(values),
    decreases values.len(),
{
    if values.len() > 0 {
        lemma_sum_doubled(values.skip(1));
        assert(doubled(values).skip(1) =~= doubled(values.skip(1)));
    }
}

/// In a descending list no value is larger than the first.
proof fn lemma_first_is_largest(values: Seq<nat>, value: nat)
    requires
        sorted_by(values, descending()),
        values.to_multiset().count(value) > 0,
    ensures
        values.len() > 0,
        value <= values[0],
{
    to_multiset_contains(values, value);
    let index = choose|i: int| 0 <= i < values.len() && values[i] == value;
    if index > 0 {
        assert(descending()(values[0], values[index]));
    }
}

/// A descending list stays descending without its first values.
proof fn lemma_skip_is_sorted(values: Seq<nat>, count: int)
    requires
        sorted_by(values, descending()),
        0 <= count <= values.len(),
    ensures
        sorted_by(values.skip(count), descending()),
{
    let rest = values.skip(count);
    assert forall|i: int, j: int| 0 <= i < j < rest.len() implies #[trigger] descending()(
        rest[i],
        rest[j],
    ) by {
        assert(descending()(values[i + count], values[j + count]));
    }
}

/// A list without its first value holds that value once less.
proof fn lemma_skip_first_multiset(values: Seq<nat>)
    requires
        values.len() > 0,
    ensures
        values.skip(1).to_multiset() == values.to_multiset().remove(values[0]),
{
    to_multiset_remove(values, 0);
    assert(values.remove(0) =~= values.skip(1));
}

/// Exchanging two values of a list changes no count.
proof fn lemma_swap_multiset(values: Seq<nat>, i: int, j: int)
    requires
        0 <= i < values.len(),
        0 <= j < values.len(),
    ensures
        values.update(i, values[j]).update(j, values[i]).to_multiset() == values.to_multiset(),
{
    broadcast use vstd::multiset::group_multiset_axioms;

    vstd::seq_lib::to_multiset_update(values, i, values[j]);
    vstd::seq_lib::to_multiset_update(values.update(i, values[j]), j, values[i]);
    to_multiset_contains(values, values[i]);
    to_multiset_contains(values, values[j]);
    assert(values.update(i, values[j]).update(j, values[i]).to_multiset()
        =~= values.to_multiset());
}

/// Larger-first is a total order.
proof fn lemma_descending_is_total()
    ensures
        total_ordering(descending()),
{
    let order = descending();
    assert(vstd::relations::reflexive(order));
    assert(vstd::relations::antisymmetric(order));
    assert(vstd::relations::transitive(order));
    assert(vstd::relations::strongly_connected(order));
}

/// The multiset of the empty list is empty, and that of a list of one value
/// holds that value once.
proof fn lemma_small_multisets(value: nat)
    ensures
        Seq::<nat>::empty().to_multiset() == Multiset::<nat>::empty(),
        seq![value].to_multiset() == Multiset::<nat>::singleton(value),
{
    broadcast use vstd::multiset::group_multiset_axioms;

    let nothing = Seq::<nat>::empty();
    to_multiset_len(nothing);
    vstd::multiset::lemma_multiset_empty_len(nothing.to_multiset());
    assert(nothing.to_multiset() =~= Multiset::<nat>::empty());
    to_multiset_build(nothing, value);
    assert(nothing.push(value) =~= seq![value]);
    assert(seq![value].to_multiset() =~= Multiset::<nat>::singleton(value));
}

} // verus!
