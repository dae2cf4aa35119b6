//! What the rules of the game guarantee, stated over the model and proved.

use vstd::prelude::*;
use vstd::set::axiom_set_contains_len;
use crate::cell::CellTag;
use crate::census::{lemma_census_finite, lemma_index_set, same_values, tagged};
use crate::field::{mine_at, mines_around};
use crate::flood::{lemma_path_front, lemma_reaches_on, lemma_reaches_start};
use crate::grid::{adjacent, cell_index, lemma_around_is_adjacent, lemma_cell_index, lemma_neighbours, on_board};
use crate::state::{lemma_click_lawful, lemma_right_click_lawful, GameState, GameStatus};

verus! {

/// The neighbours of the cell `index` that hold a mine.
pub open spec fn mined_neighbours(mines: Seq<bool>, columns: int, index: int) -> Set<int> {
    Set::new(|j: int| 0 <= j < mines.len() && adjacent(columns, index, j) && mines[j])
}

/// The set `so_far` with the cell at (`row`, `column`), if that is on the
/// board and holds a mine.
pub open spec fn with_mine_at(
    so_far: Set<int>,
    mines: Seq<bool>,
    rows: int,
    columns: int,
    row: int,
    column: int,
) -> Set<int> {
    if mine_at(mines, rows, columns, row, column) == 1 {
        so_far.insert(cell_index(columns, row, column))
    } else {
        so_far
    }
}

/// The count that a cell carries is the number of its neighbours that hold a
/// mine: the eight places around a cell, as far as they are on the board, are
/// its neighbours, and it has no others.
pub proof fn lemma_mines_around_counts_neighbours(
    mines: Seq<bool>,
    rows: int,
    columns: int,
    row: int,
    column: int,
)
    requires
        mines.len() == rows * columns,
        on_board(rows, columns, row, column),
    ensures
        mined_neighbours(mines, columns, cell_index(columns, row, column)).finite(),
        mines_around(mines, rows, columns, row, column) == mined_neighbours(
            mines,
            columns,
            cell_index(columns, row, column),
        ).len(),
{
    let here = cell_index(columns, row, column);
    let found = mined_neighbours(mines, columns, here);
    lemma_index_set(found, mines.len() as int);
    lemma_cell_index(rows, columns, row, column);
    if on_board(rows, columns, row - 1, column - 1) {
        lemma_around_is_adjacent(rows, columns, row, column, row - 1, column - 1);
        lemma_cell_index(rows, columns, row - 1, column - 1);
    }
    if on_board(rows, columns, row, column - 1) {
        lemma_around_is_adjacent(rows, columns, row, column, row, column - 1);
        lemma_cell_index(rows, columns, row, column - 1);
    }
    if on_board(rows, columns, row + 1, column - 1) {
        lemma_around_is_adjacent(rows, columns, row, column, row + 1, column - 1);
        lemma_cell_index(rows, columns, row + 1, column - 1);
    }
    if on_board(rows, columns, row - 1, column) {
        lemma_around_is_adjacent(rows, columns, row, column, row - 1, column);
        lemma_cell_index(rows, columns, row - 1, column);
    }
    if on_board(rows, columns, row + 1, column) {
        lemma_around_is_adjacent(rows, columns, row, column, row + 1, column);
        lemma_cell_index(rows, columns, row + 1, column);
    }
    if on_board(rows, columns, row - 1, column + 1) {
        lemma_around_is_adjacent(rows, columns, row, column, row - 1, column + 1);
        lemma_cell_index(rows, columns, row - 1, column + 1);
    }
    if on_board(rows, columns, row, column + 1) {
        lemma_around_is_adjacent(rows, columns, row, column, row, column + 1);
        lemma_cell_index(rows, columns, row, column + 1);
    }
    if on_board(rows, columns, row + 1, column + 1) {
        lemma_around_is_adjacent(rows, columns, row, column, row + 1, column + 1);
        lemma_cell_index(rows, columns, row + 1, column + 1);
    }
    let s0 = Set::<int>::empty();
    let s1 = with_mine_at(s0, mines, rows, columns, row - 1, column - 1);
    let s2 = with_mine_at(s1, mines, rows, columns, row, column - 1);
    let s3 = with_mine_at(s2, mines, rows, columns, row + 1, column - 1);
    let s4 = with_mine_at(s3, mines, rows, columns, row - 1, column);
    let s5 = with_mine_at(s4, mines, rows, columns, row + 1, column);
    let s6 = with_mine_at(s5, mines, rows, columns, row - 1, column + 1);
    let s7 = with_mine_at(s6, mines, rows, columns, row, column + 1);
    let s8 = with_mine_at(s7, mines, rows, columns, row + 1, column + 1);
    assert(s1.finite() && s1.len() == mine_at(mines, rows, columns, row - 1, column - 1));
    assert(s2.finite() && s2.len() == s1.len() + mine_at(mines, rows, columns, row, column - 1));
    assert(s3.finite() && s3.len() == s2.len() + mine_at(mines, rows, columns, row + 1, column - 1));
    assert(s4.finite() && s4.len() == s3.len() + mine_at(mines, rows, columns, row - 1, column));
    assert(s5.finite() && s5.len() == s4.len() + mine_at(mines, rows, columns, row + 1, column));
    assert(s6.finite() && s6.len() == s5.len() + mine_at(mines, rows, columns, row - 1, column + 1));
    assert(s7.finite() && s7.len() == s6.len() + mine_at(mines, rows, columns, row, column + 1));
    assert(s8.finite() && s8.len() == s7.len() + mine_at(mines, rows, columns, row + 1, column + 1));
    assert forall|j: int| found.contains(j) implies s8.contains(j) by {
        lemma_neighbours(rows, columns, row, column, j);
    }
    assert(found =~= s8);
}

/// A reveal that begins at a blank, covered, unmarked cell uncovers a region
/// around that cell and nothing else:
/// - the cell itself is revealed;
/// - no cell with a mine changes;
/// - the region is maximal: from each blank cell that the reveal uncovers, it
///   uncovers every coverable neighbour, blank or with a count;
/// - the region is connected: each cell that the reveal uncovers, but for the
///   start, is the neighbour of a blank cell that is the start or uncovered
///   too, so a cell with a count is revealed only on the border of the blank
///   cells;
/// - a cell that the reveal does not uncover stays as it is.
pub proof fn lemma_spread_region(g: GameState, start: int)
    requires
        0 <= start < g.cells.len(),
        g.cells[start].blank(),
        g.cells[start].tag == CellTag::UNSELECTED,
    ensures
        g.spread(start).cells[start] == g.cells[start].tagged(CellTag::SELECTED),
        forall|i: int|
            0 <= i < g.cells.len() && g.cells[i].mine ==> #[trigger] g.spread(start).cells[i]
                == g.cells[i],
        forall|i: int, j: int|
            #![trigger g.uncovers(start, i), g.uncovers(start, j)]
            g.uncovers(start, i) && g.cells[i].blank() && 0 <= j < g.cells.len()
                && g.cells[j].coverable() && adjacent(g.columns as int, i, j) ==> g.uncovers(
                start,
                j,
            ),
        forall|i: int|
            #![trigger g.uncovers(start, i)]
            g.uncovers(start, i) && i != start ==> exists|k: int|
                #![trigger g.uncovers(start, k)]
                g.uncovers(start, k) && g.cells[k].blank() && adjacent(g.columns as int, k, i),
        forall|i: int|
            0 <= i < g.cells.len() ==> #[trigger] g.spread(start).cells[i] == if g.uncovers(
                start,
                i,
            ) {
                g.cells[i].tagged(CellTag::SELECTED)
            } else {
                g.cells[i]
            },
{
    lemma_reaches_start(g, start);
    assert(g.uncovers(start, start));
    assert forall|i: int, j: int|
        #![trigger g.uncovers(start, i), g.uncovers(start, j)]
        g.uncovers(start, i) && g.cells[i].blank() && 0 <= j < g.cells.len()
            && g.cells[j].coverable() && adjacent(g.columns as int, i, j) implies g.uncovers(
        start,
        j,
    ) by {
        lemma_reaches_on(g, start, i, j);
    }
    assert forall|i: int|
        #![trigger g.uncovers(start, i)]
        g.uncovers(start, i) && i != start implies exists|k: int|
        #![trigger g.uncovers(start, k)]
        g.uncovers(start, k) && g.cells[k].blank() && adjacent(g.columns as int, k, i) by {
        let path = choose|path: Seq<int>| #[trigger] g.leads(path, start, i);
        lemma_path_front(g, path);
        let front = path.drop_last();
        let k = front.last();
        assert(g.leads(front, start, k));
        assert(k == path[path.len() - 2]);
        assert(i == path[path.len() - 1]);
        if path.len() > 2 {
            assert(g.cells[k].coverable());
        }
        assert(g.uncovers(start, k));
    }
}

/// A click on a mine, while the game goes on, loses the game: that cell is
/// dead, and afterwards no cell is covered and unmarked.
pub proof fn lemma_click_on_mine(g: GameState, row: int, column: int)
    requires
        g.lawful(),
        g.status == GameStatus::Playing,
        0 <= row < g.rows,
        0 <= column < g.columns,
        g.cells[g.index(row, column)].mine,
    ensures
        g.click(row, column).status == GameStatus::Lost,
        g.click(row, column).cells[g.index(row, column)].tag == CellTag::DEAD,
        forall|i: int|
            0 <= i < g.cells.len() ==> (#[trigger] g.click(row, column).cells[i]).tag
                != CellTag::UNSELECTED,
{
    lemma_cell_index(g.rows as int, g.columns as int, row, column);
    lemma_click_lawful(g, row, column);
}

/// Once a click or a right click has left every cell revealed or flagged, the
/// game is won, unless it is lost.
pub proof fn lemma_full_board_wins(g: GameState, row: int, column: int)
    requires
        g.lawful(),
        0 <= row < g.rows,
        0 <= column < g.columns,
    ensures
        ({
            let after = g.click(row, column);
            &&& after.cells.len() == g.cells.len()
            &&& after.selected + after.flagged == after.cells.len() ==> after.status
                == GameStatus::Won || after.status == GameStatus::Lost
        }),
        ({
            let after = g.right_click(row, column);
            &&& after.cells.len() == g.cells.len()
            &&& after.selected + after.flagged == after.cells.len() ==> after.status
                == GameStatus::Won || g.status == GameStatus::Lost
        }),
{
    lemma_click_lawful(g, row, column);
    lemma_right_click_lawful(g, row, column);
}

/// Toggling the flag of a covered, unmarked cell twice gives the game back
/// as it was: the cell is covered and unmarked, and as many flags are set.
pub proof fn lemma_toggle_flag_twice(g: GameState, index: int)
    requires
        0 <= index < g.cells.len(),
        g.cells[index].tag == CellTag::UNSELECTED,
    ensures
        g.toggle_flag(index).toggle_flag(index) == g,
{
    let twice = g.toggle_flag(index).toggle_flag(index);
    assert(twice.cells =~= g.cells);
}

/// In a game that is won, no cell is covered and unmarked.
pub proof fn lemma_won_all_uncovered(g: GameState)
    requires
        g.lawful(),
        g.status == GameStatus::Won,
    ensures
        forall|i: int| 0 <= i < g.cells.len() ==> (#[trigger] g.cells[i]).tag != CellTag::UNSELECTED,
{
    lemma_census_finite(g.cells);
    assert forall|i: int| 0 <= i < g.cells.len() implies (#[trigger] g.cells[i]).tag
        != CellTag::UNSELECTED by {
        if g.cells[i].tag == CellTag::UNSELECTED {
            assert(tagged(g.cells, CellTag::UNSELECTED).contains(i));
            axiom_set_contains_len(tagged(g.cells, CellTag::UNSELECTED), i);
        }
    }
}

/// Neither action moves a mine or changes a count: only tags change.
pub proof fn lemma_actions_keep_values(g: GameState, row: int, column: int)
    requires
        0 <= g.index(row, column) < g.cells.len(),
    ensures
        same_values(g.cells, g.click(row, column).cells),
        same_values(g.cells, g.right_click(row, column).cells),
{
}

/// How a click moves the tags. A revealed or dead cell stays as it is. A flag
/// stays unless the click is on it. No cell becomes flagged, or covered and
/// unmarked. A cell becomes dead only if it is the cell clicked and holds a
/// mine; any other cell that changes becomes revealed.
pub proof fn lemma_click_moves_tags_forward(g: GameState, row: int, column: int, i: int)
    requires
        0 <= g.index(row, column) < g.cells.len(),
        0 <= i < g.cells.len(),
    ensures
        ({
            let before = g.cells[i].tag;
            let after = g.click(row, column).cells[i].tag;
            &&& before == CellTag::SELECTED || before == CellTag::DEAD ==> after == before
            &&& before == CellTag::FLAGGED && i != g.index(row, column) ==> after == before
            &&& after == CellTag::FLAGGED || after == CellTag::UNSELECTED ==> after == before
            &&& after == CellTag::DEAD && before != CellTag::DEAD ==> i == g.index(row, column)
                && g.cells[i].mine
        }),
{
}

/// How a right click moves the tags: only the cell clicked can change, from
/// covered and unmarked to flagged or back.
pub proof fn lemma_right_click_moves_one_flag(g: GameState, row: int, column: int, i: int)
    requires
        0 <= g.index(row, column) < g.cells.len(),
        0 <= i < g.cells.len(),
    ensures
        ({
            let before = g.cells[i].tag;
            let after = g.right_click(row, column).cells[i].tag;
            &&& i != g.index(row, column) ==> after == before
            &&& after != before ==> (before == CellTag::UNSELECTED && after == CellTag::FLAGGED) || (
            before == CellTag::FLAGGED && after == CellTag::UNSELECTED)
        }),
{
}

} // verus!
