//! One turn of the game: a move, its points, and a new tile if the move
//! changed the grid.

use crate::board::{Board, lemma_saved_representation, spec_representation, spec_saved};
use crate::board_value::BoardValue;
use crate::coordinate::Coordinate;
use crate::field::{
    Field, field_values, grid_fits, grid_is_valid, has_empty_cell, is_grid, lemma_field_values_fit,
    lemma_field_values_injective,
};
use crate::field_add_random_value::{add_value, lemma_add_value_fills_empty_cell, spec_add_value};
use crate::field_move_and_merge::{
    lemma_move_and_merge_left_is_grid, move_and_merge_down, move_and_merge_left,
    move_and_merge_right, move_and_merge_up, spec_move_and_merge_down, spec_move_and_merge_left,
    spec_move_and_merge_right, spec_move_and_merge_up,
};
use crate::highscore_calculator::{
    Highscore, calculate_added_points_down, calculate_added_points_left,
    calculate_added_points_right, calculate_added_points_up, spec_added_points_down,
    spec_added_points_left, spec_added_points_right, spec_added_points_up,
};
use crate::move_laws::{
    lemma_changed_down_has_empty_cell, lemma_changed_left_has_empty_cell,
    lemma_changed_right_has_empty_cell, lemma_changed_up_has_empty_cell,
};
use crate::random::RandomNumber;
use vstd::prelude::*;

verus! {

/// The grid at the end of a turn: the moved grid, with a new tile if the move
/// changed the grid.
pub open spec fn spec_turn(
    grid: Seq<Seq<nat>>,
    moved: Seq<Seq<nat>>,
    value_draw: nat,
    position_draw: nat,
) -> Seq<Seq<nat>> {
    if moved != grid {
        spec_add_value(moved, value_draw, position_draw)
    } else {
        moved
    }
}

/// The grid after a turn down.
pub open spec fn spec_move_field_down(
    grid: Seq<Seq<nat>>,
    value_draw: nat,
    position_draw: nat,
) -> Seq<Seq<nat>> {
    spec_turn(grid, spec_move_and_merge_down(grid), value_draw, position_draw)
}

/// The grid after a turn to the right.
pub open spec fn spec_move_field_right(
    grid: Seq<Seq<nat>>,
    value_draw: nat,
    position_draw: nat,
) -> Seq<Seq<nat>> {
    spec_turn(grid, spec_move_and_merge_right(grid), value_draw, position_draw)
}

/// The grid after a turn up.
pub open spec fn spec_move_field_up(
    grid: Seq<Seq<nat>>,
    value_draw: nat,
    position_draw: nat,
) -> Seq<Seq<nat>> {
    spec_turn(grid, spec_move_and_merge_up(grid), value_draw, position_draw)
}

/// The grid after a turn to the left.
pub open spec fn spec_move_field_left(
    grid: Seq<Seq<nat>>,
    value_draw: nat,
    position_draw: nat,
) -> Seq<Seq<nat>> {
    spec_turn(grid, spec_move_and_merge_left(grid), value_draw, position_draw)
}

/// One turn down on a grid: the grid after the turn and the points that
/// the move scored.
pub fn move_field_down(
    field: Field,
    random_number_value: RandomNumber,
    random_number_position: RandomNumber,
) -> (result: (Field, Highscore))
    requires
        grid_is_valid(field_values(field)),
        grid_fits(spec_move_and_merge_down(field_values(field))),
    ensures
        field_values(result.0) == spec_move_field_down(
            field_values(field),
            random_number_value@,
            random_number_position@,
        ),
        result.1 == spec_added_points_down(field_values(field)),
{
    let mut board = Board::new();
    board.save_representation(field);
    proof {
        lemma_field_values_fit(field);
        lemma_saved_representation(Map::<Coordinate, BoardValue>::empty(), field_values(field));
    }
    let ghost saved = board@;
    let score = move_down(&mut board, random_number_value, random_number_position);
    proof {
        lemma_saved_representation(
            saved,
            spec_move_field_down(
                field_values(field),
                random_number_value@,
                random_number_position@,
            ),
        );
    }
    (board.get_representation(), score)
}

/// One turn down on a board: moves the tiles, places a new tile if the move
/// changed the grid, and returns the points that the move scored.
pub fn move_down(
    board: &mut Board,
    random_number_value: RandomNumber,
    random_number_position: RandomNumber,
) -> (gained_points: Highscore)
    requires
        grid_is_valid(spec_representation(old(board)@)),
        grid_fits(spec_move_and_merge_down(spec_representation(old(board)@))),
    ensures
        gained_points == spec_added_points_down(spec_representation(old(board)@)),
        final(board)@ == spec_saved(
            old(board)@,
            spec_move_field_down(
                spec_representation(old(board)@),
                random_number_value@,
                random_number_position@,
            ),
        ),
        is_grid(
            spec_move_field_down(
                spec_representation(old(board)@),
                random_number_value@,
                random_number_position@,
            ),
        ),
        grid_fits(
            spec_move_field_down(
                spec_representation(old(board)@),
                random_number_value@,
                random_number_position@,
            ),
        ),
{
    let ghost grid = spec_representation(board@);
    proof {
        random_number_position.lemma_below_one();
        assert forall|field: Field, moved: Field|
            field_values(field) == grid && call_ensures(
                move_and_merge_down,
                (field,),
                moved,
            ) implies call_requires(calculate_added_points_down, (field, moved)) && (moved
            != field ==> has_empty_cell(field_values(moved))) by {
            lemma_field_values_fit(moved);
            if moved != field {
                if field_values(moved) == field_values(field) {
                    lemma_field_values_injective(moved, field);
                }
                lemma_changed_down_has_empty_cell(grid);
            }
        }
        let moved = spec_move_and_merge_down(grid);
        if moved != grid {
            lemma_changed_down_has_empty_cell(grid);
            lemma_add_value_fills_empty_cell(
                moved,
                random_number_value@,
                random_number_position@,
            );
        }
    }
    move_board(
        board,
        move_and_merge_down,
        calculate_added_points_down,
        random_number_value,
        random_number_position,
    )
}

/// One turn to the right on a grid: the grid after the turn and the points that
/// the move scored.
pub fn move_field_right(
    field: Field,
    random_number_value: RandomNumber,
    random_number_position: RandomNumber,
) -> (result: (Field, Highscore))
    requires
        grid_is_valid(field_values(field)),
        grid_fits(spec_move_and_merge_right(field_values(field))),
    ensures
        field_values(result.0) == spec_move_field_right(
            field_values(field),
            random_number_value@,
            random_number_position@,
        ),
        result.1 == spec_added_points_right(field_values(field)),
{
    let mut board = Board::new();
    board.save_representation(field);
    proof {
        lemma_field_values_fit(field);
        lemma_saved_representation(Map::<Coordinate, BoardValue>::empty(), field_values(field));
    }
    let ghost saved = board@;
    let score = move_right(&mut board, random_number_value, random_number_position);
    proof {
        lemma_saved_representation(
            saved,
            spec_move_field_right(
                field_values(field),
                random_number_value@,
                random_number_position@,
            ),
        );
    }
    (board.get_representation(), score)
}

/// One turn to the right on a board: moves the tiles, places a new tile if the move
/// changed the grid, and returns the points that the move scored.
pub fn move_right(
    board: &mut Board,
    random_number_value: RandomNumber,
    random_number_position: RandomNumber,
) -> (gained_points: Highscore)
    requires
        grid_is_valid(spec_representation(old(board)@)),
        grid_fits(spec_move_and_merge_right(spec_representation(old(board)@))),
    ensures
        gained_points == spec_added_points_right(spec_representation(old(board)@)),
        final(board)@ == spec_saved(
            old(board)@,
            spec_move_field_right(
                spec_representation(old(board)@),
                random_number_value@,
                random_number_position@,
            ),
        ),
        is_grid(
            spec_move_field_right(
                spec_representation(old(board)@),
                random_number_value@,
                random_number_position@,
            ),
        ),
        grid_fits(
            spec_move_field_right(
                spec_representation(old(board)@),
                random_number_value@,
                random_number_position@,
            ),
        ),
{
    let ghost grid = spec_representation(board@);
    proof {
        random_number_position.lemma_below_one();
        assert forall|field: Field, moved: Field|
            field_values(field) == grid && call_ensures(
                move_and_merge_right,
                (field,),
                moved,
            ) implies call_requires(calculate_added_points_right, (field, moved)) && (moved
            != field ==> has_empty_cell(field_values(moved))) by {
            lemma_field_values_fit(moved);
            if moved != field {
                if field_values(moved) == field_values(field) {
                    lemma_field_values_injective(moved, field);
                }
                lemma_changed_right_has_empty_cell(grid);
            }
        }
        let moved = spec_move_and_merge_right(grid);
        if moved != grid {
            lemma_changed_right_has_empty_cell(grid);
            lemma_add_value_fills_empty_cell(
                moved,
                random_number_value@,
                random_number_position@,
            );
        }
    }
    move_board(
        board,
        move_and_merge_right,
        calculate_added_points_right,
        random_number_value,
        random_number_position,
    )
}

/// One turn up on a grid: the grid after the turn and the points that
/// the move scored.
pub fn move_field_up(
    field: Field,
    random_number_value: RandomNumber,
    random_number_position: RandomNumber,
) -> (result: (Field, Highscore))
    requires
        grid_is_valid(field_values(field)),
        grid_fits(spec_move_and_merge_up(field_values(field))),
    ensures
        field_values(result.0) == spec_move_field_up(
            field_values(field),
            random_number_value@,
            random_number_position@,
        ),
        result.1 == spec_added_points_up(field_values(field)),
{
    let mut board = Board::new();
    board.save_representation(field);
    proof {
        lemma_field_values_fit(field);
        lemma_saved_representation(Map::<Coordinate, BoardValue>::empty(), field_values(field));
    }
    let ghost saved = board@;
    let score = move_up(&mut board, random_number_value, random_number_position);
    proof {
        lemma_saved_representation(
            saved,
            spec_move_field_up(
                field_values(field),
                random_number_value@,
                random_number_position@,
            ),
        );
    }
    (board.get_representation(), score)
}

/// One turn up on a board: moves the tiles, places a new tile if the move
/// changed the grid, and returns the points that the move scored.
pub fn move_up(
    board: &mut Board,
    random_number_value: RandomNumber,
    random_number_position: RandomNumber,
) -> (gained_points: Highscore)
    requires
        grid_is_valid(spec_representation(old(board)@)),
        grid_fits(spec_move_and_merge_up(spec_representation(old(board)@))),
    ensures
        gained_points == spec_added_points_up(spec_representation(old(board)@)),
        final(board)@ == spec_saved(
            old(board)@,
            spec_move_field_up(
                spec_representation(old(board)@),
                random_number_value@,
                random_number_position@,
            ),
        ),
        is_grid(
            spec_move_field_up(
                spec_representation(old(board)@),
                random_number_value@,
                random_number_position@,
            ),
        ),
        grid_fits(
            spec_move_field_up(
                spec_representation(old(board)@),
                random_number_value@,
                random_number_position@,
            ),
        ),
{
    let ghost grid = spec_representation(board@);
    proof {
        random_number_position.lemma_below_one();
        assert forall|field: Field, moved: Field|
            field_values(field) == grid && call_ensures(
                move_and_merge_up,
                (field,),
                moved,
            ) implies call_requires(calculate_added_points_up, (field, moved)) && (moved
            != field ==> has_empty_cell(field_values(moved))) by {
            lemma_field_values_fit(moved);
            if moved != field {
                if field_values(moved) == field_values(field) {
                    lemma_field_values_injective(moved, field);
                }
                lemma_changed_up_has_empty_cell(grid);
            }
        }
        let moved = spec_move_and_merge_up(grid);
        if moved != grid {
            lemma_changed_up_has_empty_cell(grid);
            lemma_add_value_fills_empty_cell(
                moved,
                random_number_value@,
                random_number_position@,
            );
        }
    }
    move_board(
        board,
        move_and_merge_up,
        calculate_added_points_up,
        random_number_value,
        random_number_position,
    )
}

/// One turn to the left on a grid: the grid after the turn and the points that
/// the move scored.
pub fn move_field_left(
    field: Field,
    random_number_value: RandomNumber,
    random_number_position: RandomNumber,
) -> (result: (Field, Highscore))
    requires
        grid_is_valid(field_values(field)),
        grid_fits(spec_move_and_merge_left(field_values(field))),
    ensures
        field_values(result.0) == spec_move_field_left(
            field_values(field),
            random_number_value@,
            random_number_position@,
        ),
        result.1 == spec_added_points_left(field_values(field)),
{
    let mut board = Board::new();
    board.save_representation(field);
    proof {
        lemma_field_values_fit(field);
        lemma_saved_representation(Map::<Coordinate, BoardValue>::empty(), field_values(field));
    }
    let ghost saved = board@;
    let score = move_left(&mut board, random_number_value, random_number_position);
    proof {
        lemma_saved_representation(
            saved,
            spec_move_field_left(
                field_values(field),
                random_number_value@,
                random_number_position@,
            ),
        );
    }
    (board.get_representation(), score)
}

/// One turn to the left on a board: moves the tiles, places a new tile if the move
/// changed the grid, and returns the points that the move scored.
pub fn move_left(
    board: &mut Board,
    random_number_value: RandomNumber,
    random_number_position: RandomNumber,
) -> (gained_points: Highscore)
    requires
        grid_is_valid(spec_representation(old(board)@)),
        grid_fits(spec_move_and_merge_left(spec_representation(old(board)@))),
    ensures
        gained_points == spec_added_points_left(spec_representation(old(board)@)),
        final(board)@ == spec_saved(
            old(board)@,
            spec_move_field_left(
                spec_representation(old(board)@),
                random_number_value@,
                random_number_position@,
            ),
        ),
        is_grid(
            spec_move_field_left(
                spec_representation(old(board)@),
                random_number_value@,
                random_number_position@,
            ),
        ),
        grid_fits(
            spec_move_field_left(
                spec_representation(old(board)@),
                random_number_value@,
                random_number_position@,
            ),
        ),
{
    let ghost grid = spec_representation(board@);
    proof {
        random_number_position.lemma_below_one();
        assert forall|field: Field, moved: Field|
            field_values(field) == grid && call_ensures(
                move_and_merge_left,
                (field,),
                moved,
            ) implies call_requires(calculate_added_points_left, (field, moved)) && (moved
            != field ==> has_empty_cell(field_values(moved))) by {
            lemma_field_values_fit(moved);
            if moved != field {
                if field_values(moved) == field_values(field) {
                    lemma_field_values_injective(moved, field);
                }
                lemma_changed_left_has_empty_cell(grid);
            }
        }
        let moved = spec_move_and_merge_left(grid);
        lemma_move_and_merge_left_is_grid(grid);
        if moved != grid {
            lemma_changed_left_has_empty_cell(grid);
            lemma_add_value_fills_empty_cell(
                moved,
                random_number_value@,
                random_number_position@,
            );
        }
    }
    move_board(
        board,
        move_and_merge_left,
        calculate_added_points_left,
        random_number_value,
        random_number_position,
    )
}

/// One turn on a board with the given move and the given count of its
/// points: moves the tiles, places a new tile if the move changed the grid,
/// stores the grid, and returns the points.
fn move_board<Operation: Fn(Field) -> Field, Calculation: Fn(Field, Field) -> Highscore>(
    board: &mut Board,
    move_and_merge_operation: Operation,
    highscore_calculate_function: Calculation,
    random_number_value: RandomNumber,
    random_number_position: RandomNumber,
) -> (gained_points: Highscore)
    requires
        forall|field: Field|
            field_values(field) == spec_representation(old(board)@) ==> call_requires(
                move_and_merge_operation,
                (field,),
            ),
        forall|field: Field, moved: Field|
            field_values(field) == spec_representation(old(board)@) && call_ensures(
                move_and_merge_operation,
                (field,),
                moved,
            ) ==> call_requires(highscore_calculate_function, (field, moved)) && (moved != field
                ==> has_empty_cell(field_values(moved))),
    ensures
        exists|field: Field, moved: Field|
            {
                &&& field_values(field) == spec_representation(old(board)@)
                &&& call_ensures(move_and_merge_operation, (field,), moved)
                &&& call_ensures(highscore_calculate_function, (field, moved), gained_points)
                &&& final(board)@ == spec_saved(
                    old(board)@,
                    spec_turn(
                        field_values(field),
                        field_values(moved),
                        random_number_value@,
                        random_number_position@,
                    ),
                )
            },
{
    let old_field = board.get_representation();
    let mut moved = move_and_merge_operation(old_field);
    let ghost merged = moved;
    let gained_points = highscore_calculate_function(old_field, moved);
    if !fields_are_equal(old_field, moved) {
        moved = add_value(moved, random_number_value, random_number_position);
    }
    board.save_representation(moved);
    proof {
        assert(field_values(moved) == spec_turn(
            field_values(old_field),
            field_values(merged),
            random_number_value@,
            random_number_position@,
        ));
        assert(call_ensures(move_and_merge_operation, (old_field,), merged));
        assert(call_ensures(highscore_calculate_function, (old_field, merged), gained_points));
    }
    gained_points
}

/// Places the first tile of a game on a board.
pub fn initialize(
    board: &mut Board,
    random_number_value: RandomNumber,
    random_number_position: RandomNumber,
)
    requires
        has_empty_cell(spec_representation(old(board)@)),
    ensures
        final(board)@ == spec_saved(
            old(board)@,
            spec_add_value(
                spec_representation(old(board)@),
                random_number_value@,
                random_number_position@,
            ),
        ),
{
    board.save_representation(
        add_value(board.get_representation(), random_number_value, random_number_position),
    );
}

/// Places the first tile of a game on a grid.
pub fn initialize_field(
    field: Field,
    random_number_value: RandomNumber,
    random_number_position: RandomNumber,
) -> (initialized: Field)
    requires
        has_empty_cell(field_values(field)),
    ensures
        field_values(initialized) == spec_add_value(
            field_values(field),
            random_number_value@,
            random_number_position@,
        ),
{
    add_value(field, random_number_value, random_number_position)
}

/// Whether two grids hold the same values.
fn fields_are_equal(a: Field, b: Field) -> (equal: bool)
    ensures
        equal == (a == b),
        equal == (field_values(a) == field_values(b)),
{
    let mut equal = true;
    for row in 0..4
        invariant
            equal == (forall|r: int, c: int| 0 <= r < row && 0 <= c < 4 ==> a[r][c] == b[r][c]),
    {
        for column in 0..4
            invariant
                row < 4,
                equal == ((forall|r: int, c: int|
                    0 <= r < row && 0 <= c < 4 ==> a[r][c] == b[r][c]) && (forall|c: int|
                    0 <= c < column ==> a[row as int][c] == b[row as int][c])),
        {
            if a[row][column] != b[row][column] {
                equal = false;
            }
        }
    }
    proof {
        if equal {
            assert forall|r: int| 0 <= r < 4 implies a[r] == b[r] by {
                assert forall|c: int| 0 <= c < 4 implies a[r][c] == b[r][c] by {}
                assert(a[r] =~= b[r]);
            }
            assert(a =~= b);
        }
        if field_values(a) == field_values(b) {
            lemma_field_values_injective(a, b);
        }
    }
    equal
}

} // verus!
