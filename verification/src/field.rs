//! The minefield: laying the mines at random and counting, for every cell
//! without a mine, the mines among its neighbours.

use rand::seq::SliceRandom;
use rand::thread_rng;
use vstd::prelude::*;
use vstd::multiset::{lemma_insert_increases_count_by_1, lemma_insert_other_elements_unchanged};
use vstd::seq_lib::{to_multiset_build, to_multiset_contains, to_multiset_len};
use vstd::set_lib::{lemma_int_range, set_int_range};
use vstd::arithmetic::div_mod::lemma_mod_bound;
use crate::cell::{Cell, CellTag};
use crate::census::{lemma_index_set, mined, mines_of};
use crate::grid::{cell_index, column_of, lemma_cell_index, lemma_coordinates, on_board, row_of};

verus! {

/// One if (`row`, `column`) is on the board and holds a mine, else zero.
pub open spec fn mine_at(mines: Seq<bool>, rows: int, columns: int, row: int, column: int) -> int {
    if on_board(rows, columns, row, column) && mines[cell_index(columns, row, column)] {
        1
    } else {
        0
    }
}

/// The number of mines among the up to eight neighbours of (`row`, `column`):
/// a cell on an edge or in a corner has fewer neighbours.
pub open spec fn mines_around(mines: Seq<bool>, rows: int, columns: int, row: int, column: int) -> int {
    mine_at(mines, rows, columns, row - 1, column - 1)
        + mine_at(mines, rows, columns, row, column - 1)
        + mine_at(mines, rows, columns, row + 1, column - 1)
        + mine_at(mines, rows, columns, row - 1, column)
        + mine_at(mines, rows, columns, row + 1, column)
        + mine_at(mines, rows, columns, row - 1, column + 1)
        + mine_at(mines, rows, columns, row, column + 1)
        + mine_at(mines, rows, columns, row + 1, column + 1)
}

/// Whether every cell without a mine carries the number of mines around it.
pub open spec fn counted(cells: Seq<Cell>, rows: int, columns: int) -> bool {
    forall|i: int|
        0 <= i < cells.len() && !cells[i].mine ==> (#[trigger] cells[i]).adjacency
            == mines_around(
            mines_of(cells),
            rows,
            columns,
            row_of(columns, i),
            column_of(columns, i),
        )
}

/// The board `cells` with the count of neighbouring mines written into every
/// cell without a mine; cells with a mine, and all tags, are kept.
pub open spec fn with_counts(cells: Seq<Cell>, rows: int, columns: int) -> Seq<Cell> {
    Seq::new(
        cells.len(),
        |i: int|
            if cells[i].mine {
                cells[i]
            } else {
                Cell {
                    adjacency: mines_around(
                        mines_of(cells),
                        rows,
                        columns,
                        row_of(columns, i),
                        column_of(columns, i),
                    ) as u8,
                    mine: false,
                    tag: cells[i].tag,
                }
            },
    )
}

/// A board as a new game finds it: `rows * columns` covered, unmarked cells,
/// each cell without a mine with its count, each mine with a count of zero.
pub open spec fn fresh_board(cells: Seq<Cell>, rows: int, columns: int) -> bool {
    &&& cells.len() == rows * columns
    &&& counted(cells, rows, columns)
    &&& forall|i: int| 0 <= i < cells.len() ==> (#[trigger] cells[i]).tag == CellTag::UNSELECTED
    &&& forall|i: int| 0 <= i < cells.len() && cells[i].mine ==> (#[trigger] cells[i]).adjacency == 0
}

/// The board that a new game finds over the mines `mines`.
pub open spec fn board_of(mines: Seq<bool>, rows: int, columns: int) -> Seq<Cell> {
    Seq::new(
        mines.len(),
        |i: int|
            Cell {
                adjacency: if mines[i] {
                    0
                } else {
                    mines_around(mines, rows, columns, row_of(columns, i), column_of(columns, i)) as u8
                },
                mine: mines[i],
                tag: CellTag::UNSELECTED,
            },
    )
}

/// A count of neighbouring mines is at most eight.
pub proof fn lemma_mines_around_bound(mines: Seq<bool>, rows: int, columns: int, row: int, column: int)
    ensures
        0 <= mines_around(mines, rows, columns, row, column) <= 8,
{
}

/// A fresh board is the board over its own mines: the mines decide it.
pub proof fn lemma_fresh_board_is_board_of(cells: Seq<Cell>, rows: int, columns: int)
    requires
        fresh_board(cells, rows, columns),
    ensures
        cells == board_of(mines_of(cells), rows, columns),
{
    let board = board_of(mines_of(cells), rows, columns);
    assert forall|i: int| 0 <= i < cells.len() implies cells[i] == board[i] by {
        lemma_mines_around_bound(
            mines_of(cells),
            rows,
            columns,
            row_of(columns, i),
            column_of(columns, i),
        );
    }
    assert(cells =~= board);
}

/// The board over given mines is a fresh board with those mines.
pub proof fn lemma_board_of_fresh(mines: Seq<bool>, rows: int, columns: int)
    requires
        mines.len() == rows * columns,
    ensures
        fresh_board(board_of(mines, rows, columns), rows, columns),
        mines_of(board_of(mines, rows, columns)) == mines,
{
    let board = board_of(mines, rows, columns);
    assert(mines_of(board) =~= mines);
    assert forall|i: int| 0 <= i < board.len() && !board[i].mine implies (#[trigger] board[i]).adjacency
        == mines_around(mines_of(board), rows, columns, row_of(columns, i), column_of(columns, i)) by {
        lemma_mines_around_bound(mines, rows, columns, row_of(columns, i), column_of(columns, i));
    }
}

/// Whether the cell at (`row`, `column`) holds a mine, as a number.
fn mine_in(cells: &Vec<Cell>, rows: usize, columns: usize, row: usize, column: usize) -> (n: u8)
    requires
        cells.len() == rows * columns,
        on_board(rows as int, columns as int, row as int, column as int),
    ensures
        n == mine_at(mines_of(cells@), rows as int, columns as int, row as int, column as int),
{
    proof {
        lemma_cell_index(rows as int, columns as int, row as int, column as int);
    }
    if cells[row * columns + column].mine {
        1
    } else {
        0
    }
}

/// Counts the mines among the neighbours of the cell at (`row`, `column`).
pub fn neighbour_mines(cells: &Vec<Cell>, rows: usize, columns: usize, row: usize, column: usize) -> (count: u8)
    requires
        cells.len() == rows * columns,
        on_board(rows as int, columns as int, row as int, column as int),
    ensures
        count == mines_around(
            mines_of(cells@),
            rows as int,
            columns as int,
            row as int,
            column as int,
        ),
{
    let mut count: u8 = 0;
    // north-west, west, south-west
    if row > 0 && column > 0 {
        count = count + mine_in(cells, rows, columns, row - 1, column - 1);
    }
    if column > 0 {
        count = count + mine_in(cells, rows, columns, row, column - 1);
    }
    if row < rows - 1 && column > 0 {
        count = count + mine_in(cells, rows, columns, row + 1, column - 1);
    }
    // north, south
    if row > 0 {
        count = count + mine_in(cells, rows, columns, row - 1, column);
    }
    if row < rows - 1 {
        count = count + mine_in(cells, rows, columns, row + 1, column);
    }
    // north-east, east, south-east
    if row > 0 && column < columns - 1 {
        count = count + mine_in(cells, rows, columns, row - 1, column + 1);
    }
    if column < columns - 1 {
        count = count + mine_in(cells, rows, columns, row, column + 1);
    }
    if row < rows - 1 && column < columns - 1 {
        count = count + mine_in(cells, rows, columns, row + 1, column + 1);
    }
    count
}

/// Writes into every cell without a mine the number of mines among its
/// neighbours. Cells with a mine and all tags stay as they are.
pub fn count_neighbour_mines(cells: &mut Vec<Cell>, rows: usize, columns: usize)
    requires
        old(cells).len() == rows * columns,
    ensures
        final(cells)@ == with_counts(old(cells)@, rows as int, columns as int),
        counted(final(cells)@, rows as int, columns as int),
        mines_of(final(cells)@) == mines_of(old(cells)@),
{
    let ghost before = cells@;
    let ghost goal = with_counts(before, rows as int, columns as int);
    if rows == 0 || columns == 0 {
        proof {
            assert(rows * columns == 0) by (nonlinear_arith)
                requires
                    rows == 0 || columns == 0,
            ;
            assert(cells@ =~= goal);
            lemma_with_counts_counted(before, rows as int, columns as int);
        }
        return ;
    }
    proof {
        assert forall|i: int| 0 <= i < cells.len() implies 0 <= row_of(columns as int, i) by {
            lemma_coordinates(rows as int, columns as int, i);
        }
    }
    for row in 0..rows
        invariant
            0 < columns,
            goal == with_counts(before, rows as int, columns as int),
            cells.len() == rows * columns,
            cells.len() == before.len(),
            mines_of(cells@) == mines_of(before),
            forall|i: int|
                0 <= i < cells.len() ==> #[trigger] cells[i] == if row_of(columns as int, i) < row {
                    goal[i]
                } else {
                    before[i]
                },
    {
        proof {
            assert forall|i: int| 0 <= i < cells.len() implies 0 <= column_of(columns as int, i) by {
                lemma_coordinates(rows as int, columns as int, i);
            }
        }
        for column in 0..columns
            invariant
                row < rows,
                0 < columns,
                goal == with_counts(before, rows as int, columns as int),
                cells.len() == rows * columns,
                cells.len() == before.len(),
                mines_of(cells@) == mines_of(before),
                forall|i: int|
                    0 <= i < cells.len() ==> #[trigger] cells[i] == if row_of(columns as int, i) < row
                        || (row_of(columns as int, i) == row && column_of(columns as int, i)
                        < column) {
                        goal[i]
                    } else {
                        before[i]
                    },
        {
            proof {
                lemma_cell_index(rows as int, columns as int, row as int, column as int);
            }
            let index: usize = row * columns + column;
            let cell: Cell = cells[index];
            if !cell.mine {
                let count: u8 = neighbour_mines(cells, rows, columns, row, column);
                cells.set(index, Cell { adjacency: count, mine: false, tag: cell.tag });
            }
            proof {
                assert(mines_of(cells@) =~= mines_of(before));
                assert forall|i: int| 0 <= i < cells.len() implies #[trigger] cells[i] == if row_of(
                    columns as int,
                    i,
                ) < row || (row_of(columns as int, i) == row && column_of(columns as int, i)
                    < column + 1) {
                    goal[i]
                } else {
                    before[i]
                } by {
                    lemma_coordinates(rows as int, columns as int, i);
                }
            }
        }
        proof {
            assert forall|i: int| 0 <= i < cells.len() implies #[trigger] cells[i] == if row_of(
                columns as int,
                i,
            ) < row + 1 {
                goal[i]
            } else {
                before[i]
            } by {
                lemma_mod_bound(i, columns as int);
            }
        }
    }
    proof {
        assert forall|i: int| 0 <= i < cells.len() implies cells[i] == goal[i] by {
            lemma_coordinates(rows as int, columns as int, i);
        }
        assert(cells@ =~= goal);
        lemma_with_counts_counted(before, rows as int, columns as int);
    }
}

/// A board with the counts written in is counted, and has the mines it had.
pub proof fn lemma_with_counts_counted(cells: Seq<Cell>, rows: int, columns: int)
    ensures
        mines_of(with_counts(cells, rows, columns)) == mines_of(cells),
        counted(with_counts(cells, rows, columns), rows, columns),
{
    let goal = with_counts(cells, rows, columns);
    assert(mines_of(goal) =~= mines_of(cells));
    assert forall|i: int| 0 <= i < goal.len() && !goal[i].mine implies (#[trigger] goal[i]).adjacency
        == mines_around(mines_of(goal), rows, columns, row_of(columns, i), column_of(columns, i)) by {
        lemma_mines_around_bound(
            mines_of(cells),
            rows,
            columns,
            row_of(columns, i),
            column_of(columns, i),
        );
    }
}

/// On a board of uncounted cells, the number of mines is the number of times
/// that the uncounted mine occurs among the cells.
pub proof fn lemma_mines_by_occurrence(cells: Seq<Cell>)
    requires
        forall|i: int| 0 <= i < cells.len() ==> #[trigger] cells[i] == Cell::uncounted(cells[i].mine),
    ensures
        mined(cells).finite(),
        mined(cells).len() == cells.to_multiset().count(Cell::uncounted(true)),
    decreases cells.len(),
{
    lemma_index_set(mined(cells), cells.len() as int);
    if cells.len() == 0 {
        assert(mined(cells) =~= Set::<int>::empty());
        to_multiset_len(cells);
        to_multiset_contains(cells, Cell::uncounted(true));
    } else {
        let front = cells.drop_last();
        let last = cells.last();
        lemma_mines_by_occurrence(front);
        assert(cells =~= front.push(last));
        to_multiset_build(front, last);
        assert(last == cells[cells.len() - 1]);
        if last.mine {
            assert(last == Cell::uncounted(true));
            lemma_insert_increases_count_by_1(front.to_multiset(), last);
            assert(mined(cells) =~= mined(front).insert(cells.len() - 1));
        } else {
            lemma_insert_other_elements_unchanged(front.to_multiset(), last, Cell::uncounted(true));
            assert(mined(cells) =~= mined(front));
        }
    }
}

/// Rearranging a board of uncounted cells gives a board of uncounted cells of
/// the same size with as many mines.
pub proof fn lemma_scattered(before: Seq<Cell>, after: Seq<Cell>)
    requires
        after.to_multiset() == before.to_multiset(),
        forall|i: int| 0 <= i < before.len() ==> #[trigger] before[i] == Cell::uncounted(before[i].mine),
    ensures
        after.len() == before.len(),
        forall|i: int| 0 <= i < after.len() ==> #[trigger] after[i] == Cell::uncounted(after[i].mine),
        mined(after).len() == mined(before).len(),
{
    to_multiset_len(before);
    to_multiset_len(after);
    assert forall|i: int| 0 <= i < after.len() implies #[trigger] after[i] == Cell::uncounted(
        after[i].mine,
    ) by {
        let cell = after[i];
        assert(after.contains(cell));
        to_multiset_contains(after, cell);
        to_multiset_contains(before, cell);
        let j = choose|j: int| 0 <= j < before.len() && before[j] == cell;
        assert(before[j] == Cell::uncounted(before[j].mine));
    }
    lemma_mines_by_occurrence(before);
    lemma_mines_by_occurrence(after);
}

/// Rearranges the cells at random, in place.
///
/// The body calls `SliceRandom::shuffle` of the crate `rand` on the cells, with
/// the generator that `rand::thread_rng()` hands out. The order that results
/// is a matter of chance, and nothing here is proved of it. The contract
/// claims only what every outcome shares: `shuffle` does nothing but swap
/// pairs of cells, so the same cells are there afterwards, each as often as
/// before. (`thread_rng` stops the program if the system cannot seed the
/// generator.)
#[verifier::external_body]
fn shuffle_cells(cells: &mut Vec<Cell>)
    ensures
        final(cells)@.to_multiset() == old(cells)@.to_multiset(),
{
    cells.shuffle(&mut thread_rng());
}

/// Builds the board of a new game: `rows * columns` covered cells, `n_mines` of
/// them (or all, if there are fewer cells) with a mine at places chosen at
/// random, and every other cell with the number of mines around it.
pub fn get_map_vec(rows: usize, columns: usize, n_mines: usize) -> (map: Vec<Cell>)
    requires
        rows * columns <= usize::MAX,
    ensures
        fresh_board(map@, rows as int, columns as int),
        mined(map@).len() == if n_mines <= rows * columns {
            n_mines as int
        } else {
            rows * columns
        },
{
    let len: usize = rows * columns;
    // every cell without a mine, covered and unmarked
    let mut m_vec: Vec<Cell> = vec![Cell::covered(false); len];
    // mines in the first n_mines positions
    let laid: usize = if n_mines <= len {
        n_mines
    } else {
        len
    };
    for i in 0..laid
        invariant
            laid <= len,
            m_vec.len() == len,
            forall|j: int| 0 <= j < len ==> #[trigger] m_vec[j] == Cell::uncounted(j < i),
    {
        m_vec.set(i, Cell::covered(true));
    }
    let ghost in_order = m_vec@;
    proof {
        assert(mined(in_order) =~= set_int_range(0, laid as int));
        lemma_int_range(0, laid as int);
    }
    // shuffle, and shuffle again
    shuffle_cells(&mut m_vec);
    let ghost once = m_vec@;
    shuffle_cells(&mut m_vec);
    let ghost twice = m_vec@;
    proof {
        lemma_scattered(in_order, once);
        lemma_scattered(once, twice);
    }
    // for each cell without a mine, count the mines around it
    count_neighbour_mines(&mut m_vec, rows, columns);
    proof {
        assert(mined(m_vec@) =~= mined(twice)) by {
            assert forall|i: int| 0 <= i < twice.len() implies m_vec[i].mine == twice[i].mine by {
                assert(mines_of(m_vec@)[i] == mines_of(twice)[i]);
            }
        }
    }
    m_vec
}

} // verus!
