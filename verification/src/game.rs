//! A game: a grid and the score so far.

use crate::board_value::BoardValue;
use crate::field::{
    Field, field_can_double, field_is_valid, field_values, grid_can_double, grid_fits,
    grid_is_valid, is_grid, lemma_field_values_fit, row_is_valid,
};
use crate::field_add_random_value::{lemma_add_value_fills_empty_cell, spec_add_value};
use crate::field_gameover::{is_game_over, spec_is_game_over};
use crate::field_move_and_merge::{
    spec_move_and_merge_down, spec_move_and_merge_left, spec_move_and_merge_right,
    spec_move_and_merge_up,
};
use crate::game_actions::{
    initialize_field, move_field_down, move_field_left, move_field_right, move_field_up,
    spec_move_field_down, spec_move_field_left, spec_move_field_right, spec_move_field_up,
};
use crate::highscore_calculator::{
    Highscore, lemma_added_points_bound, lemma_unchanged_down_scores_nothing,
    lemma_unchanged_left_scores_nothing, lemma_unchanged_right_scores_nothing,
    lemma_unchanged_up_scores_nothing, spec_added_points_down, spec_added_points_left,
    spec_added_points_right, spec_added_points_up,
};
use crate::move_laws::{
    lemma_can_double_fits, lemma_changed_down_has_empty_cell, lemma_changed_left_has_empty_cell,
    lemma_changed_right_has_empty_cell, lemma_changed_up_has_empty_cell,
    lemma_move_and_merge_down_is_valid, lemma_move_and_merge_left_is_valid,
    lemma_move_and_merge_right_is_valid, lemma_move_and_merge_up_is_valid,
};
use crate::random::{SCALE, random};
use vstd::prelude::*;

verus! {

/// The points of a game.
pub type Score = Highscore;

/// The values of a grid in one list, row after row.
pub type ExternalFieldRepresentation = Vec<u32>;

/// The points of a game as callers see them.
pub type ExternalScore = u64;

/// A game: the grid and the points scored so far.
pub struct Game {
    field: Field,
    score: Score,
}

/// The grid without tiles.
pub open spec fn empty_grid() -> Seq<Seq<nat>> {
    Seq::new(4, |row: int| Seq::new(4, |column: int| 0nat))
}

/// The values of a grid in one list, row after row.
pub open spec fn spec_flat(grid: Seq<Seq<nat>>) -> Seq<nat> {
    Seq::new(16, |index: int| grid[index / 4][index % 4])
}

impl Game {
    /// The values of the cells of the grid.
    pub closed spec fn grid(&self) -> Seq<Seq<nat>> {
        field_values(self.field)
    }

    /// The points scored so far.
    pub closed spec fn score(&self) -> nat {
        self.score as nat
    }

    /// The grid of a game is a grid, and its values fit in cells.
    pub proof fn lemma_grid_fits(&self)
        ensures
            is_grid(self.grid()),
            grid_fits(self.grid()),
    {
        lemma_field_values_fit(self.field);
    }

    /// A turn in any direction can be taken: the grid is valid, every tile
    /// can double, and the score has room for the points of a move.
    pub open spec fn spec_can_take_turn(&self) -> bool {
        &&& grid_is_valid(self.grid())
        &&& grid_can_double(self.grid())
        &&& self.score() + 16 * u32::MAX <= u64::MAX
    }

    /// Whether a turn in any direction can be taken. If so, the grid and the
    /// score meet what each of the four moves asks of them.
    #[verifier::when_used_as_spec(spec_can_take_turn)]
    pub fn can_take_turn(&self) -> (can: bool)
        ensures
            can == self.spec_can_take_turn(),
            can ==> {
                &&& grid_fits(spec_move_and_merge_left(self.grid()))
                &&& grid_fits(spec_move_and_merge_right(self.grid()))
                &&& grid_fits(spec_move_and_merge_up(self.grid()))
                &&& grid_fits(spec_move_and_merge_down(self.grid()))
                &&& self.score() + spec_added_points_left(self.grid()) <= u64::MAX
                &&& self.score() + spec_added_points_right(self.grid()) <= u64::MAX
                &&& self.score() + spec_added_points_up(self.grid()) <= u64::MAX
                &&& self.score() + spec_added_points_down(self.grid()) <= u64::MAX
            },
    {
        proof {
            lemma_field_values_fit(self.field);
            lemma_added_points_bound(self.grid());
            if grid_can_double(self.grid()) {
                lemma_can_double_fits(self.grid());
            }
        }
        field_is_valid(self.field) && field_can_double(self.field) && self.score
            <= u64::MAX - 16 * (u32::MAX as u64)
    }

    /// A new game: no points, and one tile, a two or a four, on a grid that
    /// is empty otherwise. Two random draws decide value and place.
    pub fn new() -> (game: Game)
        ensures
            game.score() == 0,
            exists|value_draw: nat, position_draw: nat|
                position_draw < SCALE && game.grid() == spec_add_value(
                    empty_grid(),
                    value_draw,
                    position_draw,
                ),
            game.spec_can_take_turn(),
    {
        let empty = BoardValue::new(0);
        let empty_field: Field = [
            [empty, empty, empty, empty],
            [empty, empty, empty, empty],
            [empty, empty, empty, empty],
            [empty, empty, empty, empty],
        ];
        assert(field_values(empty_field) =~~= empty_grid());
        assert(empty_grid()[0][0] == 0);
        let value_draw = random();
        let position_draw = random();
        let initialized_field = initialize_field(empty_field, value_draw, position_draw);
        proof {
            position_draw.lemma_below_one();
            assert(grid_is_valid(empty_grid())) by {
                assert forall|row: int| 0 <= row < empty_grid().len() implies row_is_valid(
                    #[trigger] empty_grid()[row],
                ) by {}
            }
            lemma_add_value_fills_empty_cell(empty_grid(), value_draw@, position_draw@);
            let grid = field_values(initialized_field);
            assert forall|row: int, column: int| 0 <= row < 4 && 0 <= column < 4 implies 2
                * #[trigger] grid[row][column] <= u32::MAX by {
                assert(empty_grid()[row][column] == 0);
            }
        }
        Self { field: initialized_field, score: 0 }
    }

    /// A game with the given grid and no points.
    pub fn from_field(field: Field) -> (game: Game)
        ensures
            game.grid() == field_values(field),
            game.score() == 0,
    {
        Self { field, score: 0 }
    }

    /// The points scored so far.
    pub fn get_score(&self) -> (score: ExternalScore)
        ensures
            score == self.score(),
    {
        self.score
    }

    /// The values of the grid in one list, row after row.
    pub fn get_field(&self) -> (values: ExternalFieldRepresentation)
        ensures
            values@.len() == 16,
            forall|index: int| 0 <= index < 16 ==> values@[index] == spec_flat(self.grid())[index],
    {
        let mut values: Vec<u32> = Vec::new();
        for row in 0..4usize
            invariant
                values@.len() == 4 * row,
                forall|index: int|
                    0 <= index < values@.len() ==> values@[index] == spec_flat(self.grid())[index],
        {
            for column in 0..4usize
                invariant
                    row < 4,
                    values@.len() == 4 * row + column,
                    forall|index: int|
                        0 <= index < values@.len() ==> values@[index] == spec_flat(
                            self.grid(),
                        )[index],
            {
                let ghost index = 4 * row + column;
                assert(spec_flat(self.grid())[index] == self.field[row as int][column
                    as int].value);
                values.push(self.field[row][column].get_value());
            }
        }
        values
    }

    /// One turn down: the tiles move and merge, the merges score, and if the
    /// move changed the grid a new tile appears, placed by two random draws.
    /// A move that changes nothing adds no tile and no points.
    pub fn move_down(&mut self)
        requires
            grid_is_valid(old(self).grid()),
            grid_fits(spec_move_and_merge_down(old(self).grid())),
            old(self).score() + spec_added_points_down(old(self).grid()) <= u64::MAX,
        ensures
            final(self).score() == old(self).score() + spec_added_points_down(old(self).grid()),
            final(self).score() >= old(self).score(),
            exists|value_draw: nat, position_draw: nat|
                position_draw < SCALE && final(self).grid() == spec_move_field_down(
                    old(self).grid(),
                    value_draw,
                    position_draw,
                ),
            spec_move_and_merge_down(old(self).grid()) == old(self).grid() ==> final(self).grid()
                == old(self).grid() && final(self).score() == old(self).score(),
            grid_is_valid(final(self).grid()),
    {
        let value_draw = random();
        let position_draw = random();
        let (field, added_points) = move_field_down(self.field, value_draw, position_draw);
        proof {
            let grid = self.grid();
            let moved = spec_move_and_merge_down(grid);
            position_draw.lemma_below_one();
            lemma_field_values_fit(self.field);
            lemma_move_and_merge_down_is_valid(grid);
            if moved == grid {
                lemma_unchanged_down_scores_nothing(grid);
            } else {
                lemma_changed_down_has_empty_cell(grid);
                lemma_add_value_fills_empty_cell(moved, value_draw@, position_draw@);
            }
        }
        self.field = field;
        self.score += added_points;
    }

    /// One turn to the right: the tiles move and merge, the merges score, and if the
    /// move changed the grid a new tile appears, placed by two random draws.
    /// A move that changes nothing adds no tile and no points.
    pub fn move_right(&mut self)
        requires
            grid_is_valid(old(self).grid()),
            grid_fits(spec_move_and_merge_right(old(self).grid())),
            old(self).score() + spec_added_points_right(old(self).grid()) <= u64::MAX,
        ensures
            final(self).score() == old(self).score() + spec_added_points_right(old(self).grid()),
            final(self).score() >= old(self).score(),
            exists|value_draw: nat, position_draw: nat|
                position_draw < SCALE && final(self).grid() == spec_move_field_right(
                    old(self).grid(),
                    value_draw,
                    position_draw,
                ),
            spec_move_and_merge_right(old(self).grid()) == old(self).grid() ==> final(self).grid()
                == old(self).grid() && final(self).score() == old(self).score(),
            grid_is_valid(final(self).grid()),
    {
        let value_draw = random();
        let position_draw = random();
        let (field, added_points) = move_field_right(self.field, value_draw, position_draw);
        proof {
            let grid = self.grid();
            let moved = spec_move_and_merge_right(grid);
            position_draw.lemma_below_one();
            lemma_field_values_fit(self.field);
            lemma_move_and_merge_right_is_valid(grid);
            if moved == grid {
                lemma_unchanged_right_scores_nothing(grid);
            } else {
                lemma_changed_right_has_empty_cell(grid);
                lemma_add_value_fills_empty_cell(moved, value_draw@, position_draw@);
            }
        }
        self.field = field;
        self.score += added_points;
    }

    /// One turn up: the tiles move and merge, the merges score, and if the
    /// move changed the grid a new tile appears, placed by two random draws.
    /// A move that changes nothing adds no tile and no points.
    pub fn move_up(&mut self)
        requires
            grid_is_valid(old(self).grid()),
            grid_fits(spec_move_and_merge_up(old(self).grid())),
            old(self).score() + spec_added_points_up(old(self).grid()) <= u64::MAX,
        ensures
            final(self).score() == old(self).score() + spec_added_points_up(old(self).grid()),
            final(self).score() >= old(self).score(),
            exists|value_draw: nat, position_draw: nat|
                position_draw < SCALE && final(self).grid() == spec_move_field_up(
                    old(self).grid(),
                    value_draw,
                    position_draw,
                ),
            spec_move_and_merge_up(old(self).grid()) == old(self).grid() ==> final(self).grid()
                == old(self).grid() && final(self).score() == old(self).score(),
            grid_is_valid(final(self).grid()),
    {
        let value_draw = random();
        let position_draw = random();
        let (field, added_points) = move_field_up(self.field, value_draw, position_draw);
        proof {
            let grid = self.grid();
            let moved = spec_move_and_merge_up(grid);
            position_draw.lemma_below_one();
            lemma_field_values_fit(self.field);
            lemma_move_and_merge_up_is_valid(grid);
            if moved == grid {
                lemma_unchanged_up_scores_nothing(grid);
            } else {
                lemma_changed_up_has_empty_cell(grid);
                lemma_add_value_fills_empty_cell(moved, value_draw@, position_draw@);
            }
        }
        self.field = field;
        self.score += added_points;
    }

    /// One turn to the left: the tiles move and merge, the merges score, and if the
    /// move changed the grid a new tile appears, placed by two random draws.
    /// A move that changes nothing adds no tile and no points.
    pub fn move_left(&mut self)
        requires
            grid_is_valid(old(self).grid()),
            grid_fits(spec_move_and_merge_left(old(self).grid())),
            old(self).score() + spec_added_points_left(old(self).grid()) <= u64::MAX,
        ensures
            final(self).score() == old(self).score() + spec_added_points_left(old(self).grid()),
            final(self).score() >= old(self).score(),
            exists|value_draw: nat, position_draw: nat|
                position_draw < SCALE && final(self).grid() == spec_move_field_left(
                    old(self).grid(),
                    value_draw,
                    position_draw,
                ),
            spec_move_and_merge_left(old(self).grid()) == old(self).grid() ==> final(self).grid()
                == old(self).grid() && final(self).score() == old(self).score(),
            grid_is_valid(final(self).grid()),
    {
        let value_draw = random();
        let position_draw = random();
        let (field, added_points) = move_field_left(self.field, value_draw, position_draw);
        proof {
            let grid = self.grid();
            let moved = spec_move_and_merge_left(grid);
            position_draw.lemma_below_one();
            lemma_field_values_fit(self.field);
            lemma_move_and_merge_left_is_valid(grid);
            if moved == grid {
                lemma_unchanged_left_scores_nothing(grid);
            } else {
                lemma_changed_left_has_empty_cell(grid);
                lemma_add_value_fills_empty_cell(moved, value_draw@, position_draw@);
            }
        }
        self.field = field;
        self.score += added_points;
    }

    /// Whether no move is left.
    pub fn is_game_over(&self) -> (over: bool)
        ensures
            over == spec_is_game_over(self.grid()),
    {
        is_game_over(self.field)
    }
}

impl Default for Game {
    /// A new game, as `new` gives it.
    fn default() -> (game: Game)
        ensures
            game.score() == 0,
            exists|value_draw: nat, position_draw: nat|
                position_draw < SCALE && game.grid() == spec_add_value(
                    empty_grid(),
                    value_draw,
                    position_draw,
                ),
            game.spec_can_take_turn(),
    {
        Game::new()
    }
}

} // verus!
