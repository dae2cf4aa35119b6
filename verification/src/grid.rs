//! Geometry of a row-major grid: indices, coordinates and neighbourhood.

use vstd::prelude::*;
use vstd::arithmetic::div_mod::{lemma_fundamental_div_mod, lemma_fundamental_div_mod_converse, lemma_mod_bound, lemma_multiply_divide_lt, lemma_div_pos_is_pos};
use vstd::arithmetic::mul::{lemma_mul_inequality, lemma_mul_is_commutative, lemma_mul_is_distributive_add_other_way};

verus! {

/// The row-major index of the cell in row `row` and column `column`.
pub open spec fn cell_index(columns: int, row: int, column: int) -> int {
    row * columns + column
}

/// The row of the cell with index `index`.
pub open spec fn row_of(columns: int, index: int) -> int {
    index / columns
}

/// The column of the cell with index `index`.
pub open spec fn column_of(columns: int, index: int) -> int {
    index % columns
}

/// Whether (`row`, `column`) lies on a grid of `rows` by `columns` cells.
pub open spec fn on_board(rows: int, columns: int, row: int, column: int) -> bool {
    0 <= row < rows && 0 <= column < columns
}

/// Whether the cells with indices `a` and `b` are neighbours: two different
/// cells whose rows and whose columns differ by at most one.
pub open spec fn adjacent(columns: int, a: int, b: int) -> bool {
    &&& a != b
    &&& -1 <= row_of(columns, a) - row_of(columns, b) <= 1
    &&& -1 <= column_of(columns, a) - column_of(columns, b) <= 1
}

/// A coordinate on the board has an index on the board, and the index gives
/// the coordinate back.
pub proof fn lemma_cell_index(rows: int, columns: int, row: int, column: int)
    requires
        on_board(rows, columns, row, column),
    ensures
        0 <= row * columns <= cell_index(columns, row, column) < rows * columns,
        row_of(columns, cell_index(columns, row, column)) == row,
        column_of(columns, cell_index(columns, row, column)) == column,
{
    lemma_fundamental_div_mod_converse(cell_index(columns, row, column), columns, row, column);
    lemma_mul_inequality(0, row, columns);
    lemma_mul_inequality(row + 1, rows, columns);
    lemma_mul_is_distributive_add_other_way(columns, row, 1);
}

/// An index on the board has a coordinate on the board, and the coordinate
/// gives the index back.
pub proof fn lemma_coordinates(rows: int, columns: int, index: int)
    requires
        0 < columns,
        0 <= index < rows * columns,
    ensures
        on_board(rows, columns, row_of(columns, index), column_of(columns, index)),
        cell_index(columns, row_of(columns, index), column_of(columns, index)) == index,
{
    lemma_fundamental_div_mod(index, columns);
    lemma_mod_bound(index, columns);
    lemma_mul_is_commutative(columns, index / columns);
    lemma_mul_is_commutative(columns, rows);
    lemma_multiply_divide_lt(index, columns, rows);
    lemma_div_pos_is_pos(index, columns);
}

/// Every neighbour of the cell at (`row`, `column`) is one of the eight cells
/// around it, as far as they are on the board.
pub proof fn lemma_neighbours(rows: int, columns: int, row: int, column: int, j: int)
    requires
        on_board(rows, columns, row, column),
        0 <= j < rows * columns,
        adjacent(columns, cell_index(columns, row, column), j),
    ensures
        ({
            ||| on_board(rows, columns, row - 1, column - 1) && j == cell_index(columns, row - 1, column - 1)
            ||| on_board(rows, columns, row, column - 1) && j == cell_index(columns, row, column - 1)
            ||| on_board(rows, columns, row + 1, column - 1) && j == cell_index(columns, row + 1, column - 1)
            ||| on_board(rows, columns, row - 1, column) && j == cell_index(columns, row - 1, column)
            ||| on_board(rows, columns, row + 1, column) && j == cell_index(columns, row + 1, column)
            ||| on_board(rows, columns, row - 1, column + 1) && j == cell_index(columns, row - 1, column + 1)
            ||| on_board(rows, columns, row, column + 1) && j == cell_index(columns, row, column + 1)
            ||| on_board(rows, columns, row + 1, column + 1) && j == cell_index(columns, row + 1, column + 1)
        }),
{
    lemma_cell_index(rows, columns, row, column);
    lemma_coordinates(rows, columns, j);
    let r = row_of(columns, j);
    let c = column_of(columns, j);
    assert(j == cell_index(columns, r, c));
    assert(r == row - 1 || r == row || r == row + 1);
    assert(c == column - 1 || c == column || c == column + 1);
}

/// Each of the up to eight cells around (`row`, `column`) that is on the board
/// is a neighbour of the cell there.
pub proof fn lemma_around_is_adjacent(
    rows: int,
    columns: int,
    row: int,
    column: int,
    other_row: int,
    other_column: int,
)
    requires
        on_board(rows, columns, row, column),
        on_board(rows, columns, other_row, other_column),
        -1 <= other_row - row <= 1,
        -1 <= other_column - column <= 1,
        other_row != row || other_column != column,
    ensures
        adjacent(
            columns,
            cell_index(columns, row, column),
            cell_index(columns, other_row, other_column),
        ),
        0 <= cell_index(columns, other_row, other_column) < rows * columns,
{
    lemma_cell_index(rows, columns, row, column);
    lemma_cell_index(rows, columns, other_row, other_column);
}

} // verus!
