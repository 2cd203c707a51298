//! The grid as a sparse map from coordinates to tiles.

use crate::board_value::BoardValue;
use crate::coordinate::Coordinate;
use crate::field::{Field, field_values, grid_fits, is_grid, lemma_field_values_fit, row_fits};
use std::collections::HashMap;
use vstd::prelude::*;
use vstd::std_specs::iter::IteratorSpec;

verus! {

broadcast use vstd::std_specs::hash::group_hash_axioms;

/// A board that stores its tiles by coordinate. A coordinate without a stored
/// value is an empty cell.
#[derive(Debug)]
pub struct Board {
    cells: HashMap<u16, BoardValue>,
}

/// The number of rows of the grid, and of its columns.
pub const SIZE: u8 = 4;

/// The number under which the value at a coordinate is stored.
pub closed spec fn spec_key(coordinate: Coordinate) -> u16 {
    (coordinate.row * 256 + coordinate.column) as u16
}

/// The coordinate of a row and a column of the grid.
pub open spec fn coordinate_at(row: int, column: int) -> Coordinate {
    Coordinate { row: row as u8, column: column as u8 }
}

/// The grid that a map of stored values stands for: the stored value where
/// there is one, an empty cell elsewhere.
pub open spec fn spec_representation(cells: Map<Coordinate, BoardValue>) -> Seq<Seq<nat>> {
    Seq::new(
        4,
        |row: int|
            Seq::new(
                4,
                |column: int|
                    if cells.contains_key(coordinate_at(row, column)) {
                        cells[coordinate_at(row, column)].value as nat
                    } else {
                        0
                    },
            ),
    )
}

/// The stored values after a grid is saved over them: on the grid, the tiles
/// of the grid and nothing for its empty cells; off the grid, what was
/// stored before.
pub open spec fn spec_saved(cells: Map<Coordinate, BoardValue>, grid: Seq<Seq<nat>>) -> Map<
    Coordinate,
    BoardValue,
> {
    Map::new(
        |coordinate: Coordinate|
            if coordinate.on_grid() {
                grid[coordinate.row as int][coordinate.column as int] != 0
            } else {
                cells.contains_key(coordinate)
            },
        |coordinate: Coordinate|
            if coordinate.on_grid() {
                BoardValue {
                    value: grid[coordinate.row as int][coordinate.column as int] as u32,
                }
            } else {
                cells[coordinate]
            },
    )
}

/// The stored values while a grid is being saved over them, when the cells
/// that come before `(row, column)` in reading order have been saved.
spec fn saved_before(
    cells: Map<Coordinate, BoardValue>,
    grid: Seq<Seq<nat>>,
    row: int,
    column: int,
) -> Map<Coordinate, BoardValue> {
    Map::new(
        |coordinate: Coordinate|
            if coordinate.on_grid() && (coordinate.row < row || (coordinate.row == row
                && coordinate.column < column)) {
                grid[coordinate.row as int][coordinate.column as int] != 0
            } else {
                cells.contains_key(coordinate)
            },
        |coordinate: Coordinate|
            if coordinate.on_grid() && (coordinate.row < row || (coordinate.row == row
                && coordinate.column < column)) {
                BoardValue {
                    value: grid[coordinate.row as int][coordinate.column as int] as u32,
                }
            } else {
                cells[coordinate]
            },
    )
}

/// Saving a grid and reading the board gives the grid back.
pub proof fn lemma_saved_representation(cells: Map<Coordinate, BoardValue>, grid: Seq<Seq<nat>>)
    requires
        is_grid(grid),
        grid_fits(grid),
    ensures
        spec_representation(spec_saved(cells, grid)) == grid,
{
    let saved = spec_saved(cells, grid);
    assert forall|row: int, column: int| 0 <= row < 4 && 0 <= column < 4 implies (
    #[trigger] spec_representation(saved)[row][column]) == grid[row][column] by {
        assert(coordinate_at(row, column).on_grid());
        assert(row_fits(grid[row]));
        assert(grid[row][column] <= u32::MAX);
    }
    assert(spec_representation(saved) =~~= grid);
}

/// The number under which the value at a coordinate is stored.
fn key_of(coordinate: Coordinate) -> (key: u16)
    ensures
        key == spec_key(coordinate),
{
    (coordinate.row as u16) * 256 + (coordinate.column as u16)
}

/// Different coordinates are stored under different numbers.
proof fn lemma_key_is_injective(a: Coordinate, b: Coordinate)
    requires
        spec_key(a) == spec_key(b),
    ensures
        a == b,
{
}

impl View for Board {
    type V = Map<Coordinate, BoardValue>;

    /// The stored values by coordinate.
    closed spec fn view(&self) -> Map<Coordinate, BoardValue> {
        Map::new(
            |coordinate: Coordinate| self.cells@.contains_key(spec_key(coordinate)),
            |coordinate: Coordinate| self.cells@[spec_key(coordinate)],
        )
    }
}

impl Board {
    /// A board without tiles.
    pub fn new() -> (board: Board)
        ensures
            board@ == Map::<Coordinate, BoardValue>::empty(),
    {
        let board = Board { cells: HashMap::new() };
        assert(board@ =~= Map::<Coordinate, BoardValue>::empty());
        board
    }

    /// The board that stands for a grid: it stores the tiles of the grid.
    pub fn from_field(field: Field) -> (board: Board)
        ensures
            board@ == spec_saved(Map::<Coordinate, BoardValue>::empty(), field_values(field)),
            spec_representation(board@) == field_values(field),
    {
        let mut board = Board::new();
        board.save_representation(field);
        proof {
            lemma_field_values_fit(field);
            lemma_saved_representation(
                Map::<Coordinate, BoardValue>::empty(),
                field_values(field),
            );
        }
        board
    }

    /// Whether a value is stored at the coordinate.
    pub fn has_value(&self, coordinate: Coordinate) -> (stored: bool)
        ensures
            stored == self@.contains_key(coordinate),
    {
        let key = key_of(coordinate);
        self.cells.get(&key).is_some()
    }

    /// Stores a value at the coordinate, in place of the value stored there, if any.
    pub fn set_value(&mut self, coordinate: Coordinate, value: BoardValue)
        ensures
            final(self)@ == old(self)@.insert(coordinate, value),
    {
        let key = key_of(coordinate);
        self.cells.insert(key, value);
        proof {
            assert forall|other: Coordinate| spec_key(other) == key implies other
                == coordinate by {
                lemma_key_is_injective(other, coordinate);
            }
            assert(self@ =~= old(self)@.insert(coordinate, value));
        }
    }

    /// The value stored at a coordinate that has one.
    pub fn get_value(&self, coordinate: Coordinate) -> (value: BoardValue)
        requires
            self@.contains_key(coordinate),
        ensures
            value == self@[coordinate],
    {
        let key = key_of(coordinate);
        *self.cells.get(&key).unwrap()
    }

    /// Removes the value stored at the coordinate, if any.
    pub fn delete_value(&mut self, coordinate: Coordinate)
        ensures
            final(self)@ == old(self)@.remove(coordinate),
    {
        let key = key_of(coordinate);
        self.cells.remove(&key);
        proof {
            assert forall|other: Coordinate| spec_key(other) == key implies other
                == coordinate by {
                lemma_key_is_injective(other, coordinate);
            }
            assert(self@ =~= old(self)@.remove(coordinate));
        }
    }

    /// The grid that the board stands for.
    pub fn get_representation(&self) -> (result: Field)
        ensures
            field_values(result) == spec_representation(self@),
    {
        let empty = BoardValue::new(0);
        let mut result: Field = [
            [empty, empty, empty, empty],
            [empty, empty, empty, empty],
            [empty, empty, empty, empty],
            [empty, empty, empty, empty],
        ];
        let ghost grid = spec_representation(self@);
        for row in 0..SIZE
            invariant
                grid == spec_representation(self@),
                forall|r: int, c: int|
                    0 <= r < row && 0 <= c < 4 ==> result[r][c].value == grid[r][c],
                forall|r: int, c: int| row <= r < 4 && 0 <= c < 4 ==> result[r][c].value == 0,
        {
            for column in 0..SIZE
                invariant
                    row < 4,
                    grid == spec_representation(self@),
                    forall|r: int, c: int|
                        0 <= r < row && 0 <= c < 4 ==> result[r][c].value == grid[r][c],
                    forall|c: int|
                        0 <= c < column ==> result[row as int][c].value == grid[row as int][c],
                    forall|c: int| column <= c < 4 ==> result[row as int][c].value == 0,
                    forall|r: int, c: int| row < r < 4 && 0 <= c < 4 ==> result[r][c].value == 0,
            {
                let coordinate = Coordinate { row, column };
                assert(coordinate == coordinate_at(row as int, column as int));
                if self.has_value(coordinate) {
                    let mut cells = result[row as usize];
                    cells[column as usize] = self.get_value(coordinate);
                    result[row as usize] = cells;
                }
            }
        }
        assert(field_values(result) =~~= grid);
        result
    }

    /// Stores the grid: its tiles become the stored values, and no value
    /// stays stored for its empty cells.
    pub fn save_representation(&mut self, field: Field)
        ensures
            final(self)@ == spec_saved(old(self)@, field_values(field)),
    {
        let ghost before = self@;
        let ghost grid = field_values(field);
        assert(self@ =~= saved_before(before, grid, 0, 0));
        for row in 0..SIZE
            invariant
                grid == field_values(field),
                self@ == saved_before(before, grid, row as int, 0),
        {
            for column in 0..SIZE
                invariant
                    row < 4,
                    grid == field_values(field),
                    self@ == saved_before(before, grid, row as int, column as int),
            {
                let value = field[row as usize][column as usize];
                assert(grid[row as int][column as int] == value.value);
                let coordinate = Coordinate { row, column };
                if value == BoardValue::new(0) {
                    self.delete_value(coordinate);
                } else {
                    self.set_value(coordinate, value);
                }
                assert(self@ =~= saved_before(before, grid, row as int, column + 1));
            }
            assert(self@ =~= saved_before(before, grid, row + 1, 0));
        }
        assert(self@ =~= spec_saved(before, grid));
    }
}

impl PartialEq for Board {
    /// Whether both boards store the same values at the same coordinates.
    fn eq(&self, other: &Board) -> (equal: bool) {
        if self.cells.len() != other.cells.len() {
            proof {
                if self@ == other@ {
                    lemma_same_view_same_cells(*self, *other);
                }
            }
            return false;
        }
        let ghost keys = self.cells.keys().remaining().unref();
        for key in iter: self.cells.keys()
            invariant
                iter.seq().unref() == keys,
                keys.to_set() == self.cells@.dom(),
                forall|i: int|
                    0 <= i < iter.index() ==> other.cells@.contains_key(#[trigger] keys[i])
                        && other.cells@[keys[i]] == self.cells@[keys[i]],
        {
            assert(keys[iter.index()] == *key);
            assert(keys.to_set().contains(*key));
            let mine = self.cells.get(key);
            let theirs = other.cells.get(key);
            if theirs.is_none() || *theirs.unwrap() != *mine.unwrap() {
                proof {
                    if self@ == other@ {
                        lemma_same_view_same_cells(*self, *other);
                    }
                }
                return false;
            }
        }
        proof {
            assert forall|key: u16|
                self.cells@.dom().contains(key) implies other.cells@.dom().contains(
                key,
            ) && other.cells@[key] == self.cells@[key] by {
                assert(keys.to_set().contains(key));
                let i = choose|i: int| 0 <= i < keys.len() && keys[i] == key;
                assert(other.cells@.contains_key(keys[i]));
            }
            assert(self.cells@.dom().subset_of(other.cells@.dom()));
            vstd::set_lib::lemma_subset_equality(self.cells@.dom(), other.cells@.dom());
            assert(self.cells@ =~= other.cells@);
            assert(self@ =~= other@);
        }
        true
    }
}

impl vstd::std_specs::cmp::PartialEqSpecImpl for Board {
    open spec fn obeys_eq_spec() -> bool {
        true
    }

    open spec fn eq_spec(&self, other: &Board) -> bool {
        self@ == other@
    }
}

/// Boards with the same stored values by coordinate store the same values by
/// number.
proof fn lemma_same_view_same_cells(a: Board, b: Board)
    requires
        a@ == b@,
    ensures
        a.cells@ == b.cells@,
{
    assert forall|key: u16| #[trigger]
        a.cells@.dom().contains(key) == b.cells@.dom().contains(key) by {
        let coordinate = Coordinate { row: (key / 256) as u8, column: (key % 256) as u8 };
        assert(spec_key(coordinate) == key);
        assert(a@.contains_key(coordinate) == a.cells@.contains_key(key));
        assert(b@.contains_key(coordinate) == b.cells@.contains_key(key));
    }
    assert forall|key: u16| a.cells@.dom().contains(key) implies #[trigger] a.cells@[key]
        == b.cells@[key] by {
        let coordinate = Coordinate { row: (key / 256) as u8, column: (key % 256) as u8 };
        assert(spec_key(coordinate) == key);
        assert(a@.contains_key(coordinate));
        assert(a@[coordinate] == a.cells@[key]);
        assert(b@[coordinate] == b.cells@[key]);
    }
    assert(a.cells@ =~= b.cells@);
}

impl Default for Board {
    /// A board without tiles.
    fn default() -> (board: Board)
        ensures
            board@ == Map::<Coordinate, BoardValue>::empty(),
    {
        Board::new()
    }
}

} // verus!
