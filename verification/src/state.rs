//! The game as a mathematical value, and its rules as functions on it.
//!
//! [`GameState`] is the model that the contracts of the engine speak of: the
//! board, the counters, the status and the clock. Each rule of the game is a
//! function from one state to the next.

use vstd::prelude::*;
use vstd::set_lib::lemma_set_disjoint_lens;
use crate::cell::{Cell, CellTag};
use crate::census::{lemma_census_finite, lemma_index_set, lemma_retag, mined, mines_of, same_values, tagged};
use crate::field::{board_of, counted, lemma_board_of_fresh, mines_around};
use crate::grid::{adjacent, cell_index, column_of, lemma_cell_index, row_of};

verus! {

/// Whether a game is still being played, and how it ended if not.
#[derive(Debug, Clone, Copy, PartialEq, Eq, Structural)]
pub enum GameStatus {
    /// The game goes on.
    Playing,
    /// Every cell is revealed or flagged.
    Won,
    /// A mine was revealed.
    Lost,
}

/// Why the engine refused a request.
#[derive(Debug, Clone, Copy, PartialEq, Eq, Structural)]
pub enum GameError {
    /// A row or a column that is not on the board.
    OutOfRange,
    /// A board without rows or columns, or of a size that cannot be held.
    InvalidConfiguration,
}

/// A game, as a mathematical value.
pub struct GameState {
    /// Number of rows of the board.
    pub rows: nat,
    /// Number of columns of the board.
    pub columns: nat,
    /// The cells in row-major order.
    pub cells: Seq<Cell>,
    /// Playing, won or lost.
    pub status: GameStatus,
    /// Number of cells that the player's reveals have uncovered.
    pub selected: nat,
    /// Number of flags on the board.
    pub flagged: nat,
    /// Number of mines on the board.
    pub mines: nat,
    /// The time at which the game began, in milliseconds.
    pub started: nat,
    /// The time played, in milliseconds, as of the last look at the clock.
    pub elapsed: nat,
}

/// The board `cells` after the sweep that ends a lost game: every covered,
/// unmarked cell is revealed; flags and all other cells stay.
pub open spec fn swept(cells: Seq<Cell>) -> Seq<Cell> {
    Seq::new(
        cells.len(),
        |i: int|
            if cells[i].tag == CellTag::UNSELECTED {
                cells[i].tagged(CellTag::SELECTED)
            } else {
                cells[i]
            },
    )
}

/// Whether `dead` is the one cell tagged `DEAD`, and holds a mine.
pub open spec fn sole_dead(cells: Seq<Cell>, dead: int) -> bool {
    &&& 0 <= dead < cells.len()
    &&& cells[dead].mine
    &&& cells[dead].tag == CellTag::DEAD
    &&& forall|i: int| 0 <= i < cells.len() && (#[trigger] cells[i]).tag == CellTag::DEAD ==> i == dead
}

impl GameState {
    /// The game that begins at time `now` over the mines `mines`.
    pub open spec fn fresh(rows: nat, columns: nat, mines: Seq<bool>, now: nat) -> GameState {
        GameState {
            rows,
            columns,
            cells: board_of(mines, rows as int, columns as int),
            status: GameStatus::Playing,
            selected: 0,
            flagged: 0,
            mines: mined(board_of(mines, rows as int, columns as int)).len(),
            started: now,
            elapsed: 0,
        }
    }

    /// The index of the cell at (`row`, `column`).
    pub open spec fn index(self, row: int, column: int) -> int {
        cell_index(self.columns as int, row, column)
    }

    /// The state with the cell at `index` under the tag `tag`.
    pub open spec fn retag(self, index: int, tag: CellTag) -> GameState {
        GameState { cells: self.cells.update(index, self.cells[index].tagged(tag)), ..self }
    }

    /// Board and counters agree. The board has `rows * columns` cells and fewer
    /// mines than cells, and every cell without a mine carries the number of
    /// mines around it. There are as many flags as flagged cells, and no more
    /// than mines. The count of revealed cells, the flags and the cells still
    /// covered and unmarked together never exceed the number of cells. Until
    /// the game is lost the count of revealed cells is the number of revealed
    /// cells and no cell is dead; once it is lost exactly one cell, a mine, is
    /// dead. Every operation of the engine needs this and keeps it.
    pub open spec fn wf(self) -> bool {
        &&& self.rows >= 1
        &&& self.columns >= 1
        &&& self.cells.len() == (self.rows as int) * (self.columns as int)
        &&& counted(self.cells, self.rows as int, self.columns as int)
        &&& self.mines == mined(self.cells).len()
        &&& self.mines < self.cells.len()
        &&& self.flagged == tagged(self.cells, CellTag::FLAGGED).len()
        &&& self.flagged <= self.mines
        &&& self.selected + tagged(self.cells, CellTag::UNSELECTED).len() + self.flagged
            <= self.cells.len()
        &&& self.status != GameStatus::Lost ==> {
            &&& self.selected == tagged(self.cells, CellTag::SELECTED).len()
            &&& forall|i: int|
                0 <= i < self.cells.len() ==> (#[trigger] self.cells[i]).tag != CellTag::DEAD
        }
        &&& self.status == GameStatus::Lost ==> exists|dead: int| sole_dead(self.cells, dead)
    }

    /// What holds, beyond [`Self::wf`], of every state that a new game and the
    /// player's two actions lead to. While the game goes on some cell is still
    /// neither revealed nor flagged; a game that is won has none such left.
    /// Until the game is lost no mine is revealed; once it is lost no cell is
    /// left covered and unmarked.
    pub open spec fn lawful(self) -> bool {
        &&& self.wf()
        &&& self.status == GameStatus::Playing ==> self.selected + self.flagged < self.cells.len()
        &&& self.status == GameStatus::Won ==> self.selected + self.flagged >= self.cells.len()
        &&& self.status != GameStatus::Lost ==> forall|i: int|
            0 <= i < self.cells.len() && self.cells[i].mine ==> (#[trigger] self.cells[i]).tag
                != CellTag::SELECTED
        &&& self.status == GameStatus::Lost ==> forall|i: int|
            0 <= i < self.cells.len() ==> (#[trigger] self.cells[i]).tag != CellTag::UNSELECTED
    }

    /// Reveals the cell at `index` if it is covered and unmarked, and counts
    /// it; any other cell stays as it is.
    pub open spec fn select(self, index: int) -> GameState {
        if self.cells[index].tag == CellTag::UNSELECTED {
            GameState { selected: self.selected + 1, ..self.retag(index, CellTag::SELECTED) }
        } else {
            self
        }
    }

    /// Flags the cell at `index` if it is covered and unmarked and fewer flags
    /// than mines are set; takes the flag back if the cell is flagged; leaves
    /// a revealed or dead cell alone.
    pub open spec fn toggle_flag(self, index: int) -> GameState {
        match self.cells[index].tag {
            CellTag::UNSELECTED => if self.flagged < self.mines {
                GameState { flagged: self.flagged + 1, ..self.retag(index, CellTag::FLAGGED) }
            } else {
                self
            },
            CellTag::FLAGGED => GameState {
                flagged: if self.flagged > 0 {
                    (self.flagged - 1) as nat
                } else {
                    0
                },
                ..self.retag(index, CellTag::UNSELECTED)
            },
            _ => self,
        }
    }

    /// Whether a reveal can spread along `path`, a sequence of cell indices:
    /// each cell is a neighbour of the one before it, every cell but the last
    /// is blank (no mine in it or around it), and every cell but the first is
    /// coverable (covered, unmarked, no mine in it).
    pub open spec fn spread_path(self, path: Seq<int>) -> bool {
        &&& path.len() >= 1
        &&& forall|k: int| 0 <= k < path.len() ==> 0 <= #[trigger] path[k] < self.cells.len()
        &&& forall|k: int|
            0 <= k < path.len() - 1 ==> self.cells[#[trigger] path[k]].blank() && adjacent(
                self.columns as int,
                path[k],
                path[k + 1],
            )
        &&& forall|k: int| 1 <= k < path.len() ==> self.cells[#[trigger] path[k]].coverable()
    }

    /// Whether `path` leads a reveal from the cell `start` to the cell `index`.
    pub open spec fn leads(self, path: Seq<int>, start: int, index: int) -> bool {
        self.spread_path(path) && path[0] == start && path.last() == index
    }

    /// Whether a reveal that begins at `start` reaches the cell at `index`.
    pub open spec fn reaches(self, start: int, index: int) -> bool {
        exists|path: Seq<int>| #[trigger] self.leads(path, start, index)
    }

    /// Whether a reveal that begins at `start` uncovers the cell at `index`:
    /// the cell is coverable and the reveal reaches it.
    pub open spec fn uncovers(self, start: int, index: int) -> bool {
        &&& 0 <= index < self.cells.len()
        &&& self.cells[index].coverable()
        &&& self.reaches(start, index)
    }

    /// The cells that a reveal beginning at `start` uncovers.
    pub open spec fn uncovered(self, start: int) -> Set<int> {
        Set::new(|i: int| self.uncovers(start, i))
    }

    /// The state after a reveal that begins at `start`: every cell that the
    /// reveal uncovers is revealed and counted, nothing else changes.
    pub open spec fn spread(self, start: int) -> GameState {
        GameState {
            cells: Seq::new(
                self.cells.len(),
                |i: int|
                    if self.uncovers(start, i) {
                        self.cells[i].tagged(CellTag::SELECTED)
                    } else {
                        self.cells[i]
                    },
            ),
            selected: self.selected + self.uncovered(start).len(),
            ..self
        }
    }

    /// The state after the mine at `index` went off: the game is lost, that
    /// cell is dead, and every covered, unmarked cell is revealed.
    pub open spec fn explode(self, index: int) -> GameState {
        GameState {
            status: GameStatus::Lost,
            cells: swept(self.cells.update(index, self.cells[index].tagged(CellTag::DEAD))),
            ..self
        }
    }

    /// The state after the check for a win: a game that goes on is won once
    /// the revealed and the flagged cells together make up the board.
    pub open spec fn settle(self) -> GameState {
        if self.status == GameStatus::Playing && self.selected + self.flagged >= self.cells.len() {
            GameState { status: GameStatus::Won, ..self }
        } else {
            self
        }
    }

    /// The state after a click on the cell at (`row`, `column`).
    ///
    /// Nothing happens unless the game goes on and the cell is covered. A flag
    /// on the cell is taken back, and the cell is revealed and counted. A mine
    /// ends the game as lost. Otherwise the reveal spreads from a blank cell,
    /// and the game is won once every cell is revealed or flagged.
    pub open spec fn click(self, row: int, column: int) -> GameState {
        let index = self.index(row, column);
        let cell = self.cells[index];
        if self.status != GameStatus::Playing || cell.tag == CellTag::SELECTED || cell.tag
            == CellTag::DEAD {
            self
        } else {
            let unmarked = if cell.tag == CellTag::FLAGGED {
                self.toggle_flag(index)
            } else {
                self
            };
            let opened = unmarked.select(index);
            if cell.mine {
                opened.explode(index)
            } else if cell.adjacency == 0 {
                opened.spread(index).settle()
            } else {
                opened.settle()
            }
        }
    }

    /// The state after a right click on the cell at (`row`, `column`): while
    /// the game goes on, the flag is toggled and the win is checked.
    pub open spec fn right_click(self, row: int, column: int) -> GameState {
        if self.status != GameStatus::Playing {
            self
        } else {
            self.toggle_flag(self.index(row, column)).settle()
        }
    }

    /// The state after a look at the clock at time `now`: while the game goes
    /// on, the time played is the time since the start (nothing, if the clock
    /// shows a time before the start); once the game is over it stands still.
    pub open spec fn tick(self, now: nat) -> GameState {
        if self.status == GameStatus::Playing {
            GameState {
                elapsed: if now >= self.started {
                    (now - self.started) as nat
                } else {
                    0
                },
                ..self
            }
        } else {
            self
        }
    }
}

/// A board that differs from a counted board in tags alone is counted, and
/// has its mines where the other has them.
pub proof fn lemma_same_board(then: Seq<Cell>, now: Seq<Cell>, rows: int, columns: int)
    requires
        same_values(then, now),
        counted(then, rows, columns),
    ensures
        counted(now, rows, columns),
        mines_of(now) == mines_of(then),
        mined(now) == mined(then),
{
    assert(mines_of(now) =~= mines_of(then));
    assert(mined(now) =~= mined(then));
    assert forall|i: int| 0 <= i < now.len() && !now[i].mine implies (#[trigger] now[i]).adjacency
        == mines_around(mines_of(now), rows, columns, row_of(columns, i), column_of(columns, i)) by {
        assert(now[i].adjacency == then[i].adjacency);
    }
}

/// Another tag on one cell leaves the mines where they were and the counts of
/// neighbouring mines right.
pub proof fn lemma_retag_board(g: GameState, index: int, tag: CellTag)
    requires
        0 <= index < g.cells.len(),
        counted(g.cells, g.rows as int, g.columns as int),
    ensures
        counted(g.retag(index, tag).cells, g.rows as int, g.columns as int),
        mined(g.retag(index, tag).cells) == mined(g.cells),
        g.retag(index, tag).cells.len() == g.cells.len(),
{
    lemma_same_board(g.cells, g.retag(index, tag).cells, g.rows as int, g.columns as int);
}

/// Revealing a cell keeps board and counters in agreement.
pub proof fn lemma_select_wf(g: GameState, index: int)
    requires
        g.wf(),
        0 <= index < g.cells.len(),
    ensures
        g.select(index).wf(),
{
    if g.cells[index].tag == CellTag::UNSELECTED {
        let after = g.select(index);
        lemma_retag_board(g, index, CellTag::SELECTED);
        lemma_retag(g.cells, index, CellTag::SELECTED);
        if g.status == GameStatus::Lost {
            let dead = choose|dead: int| sole_dead(g.cells, dead);
            assert(sole_dead(after.cells, dead));
        }
    }
}

/// Setting a flag or taking one back keeps board and counters in agreement.
pub proof fn lemma_toggle_flag_wf(g: GameState, index: int)
    requires
        g.wf(),
        0 <= index < g.cells.len(),
    ensures
        g.toggle_flag(index).wf(),
{
    let after = g.toggle_flag(index);
    if g.cells[index].tag == CellTag::UNSELECTED && g.flagged < g.mines {
        lemma_retag_board(g, index, CellTag::FLAGGED);
        lemma_retag(g.cells, index, CellTag::FLAGGED);
        if g.status == GameStatus::Lost {
            let dead = choose|dead: int| sole_dead(g.cells, dead);
            assert(sole_dead(after.cells, dead));
        }
    } else if g.cells[index].tag == CellTag::FLAGGED {
        lemma_retag_board(g, index, CellTag::UNSELECTED);
        lemma_retag(g.cells, index, CellTag::UNSELECTED);
        if g.status == GameStatus::Lost {
            let dead = choose|dead: int| sole_dead(g.cells, dead);
            assert(sole_dead(after.cells, dead));
        }
    }
}

/// The game over a fresh board with fewer mines than cells is in order.
pub proof fn lemma_fresh_lawful(rows: nat, columns: nat, mines: Seq<bool>, now: nat)
    requires
        rows >= 1,
        columns >= 1,
        mines.len() == (rows as int) * (columns as int),
        mined(board_of(mines, rows as int, columns as int)).len() < mines.len(),
    ensures
        GameState::fresh(rows, columns, mines, now).lawful(),
{
    let g = GameState::fresh(rows, columns, mines, now);
    lemma_census_finite(g.cells);
    assert(tagged(g.cells, CellTag::FLAGGED) =~= Set::<int>::empty());
    assert(tagged(g.cells, CellTag::SELECTED) =~= Set::<int>::empty());
    assert(tagged(g.cells, CellTag::UNSELECTED).len() <= g.cells.len());
    assert(mines_of(g.cells) =~= mines);
    lemma_board_of_fresh(mines, rows as int, columns as int);
}

/// A reveal that spreads keeps board and counters in agreement.
pub proof fn lemma_spread_wf(g: GameState, start: int)
    requires
        g.wf(),
    ensures
        g.spread(start).wf(),
{
    let after = g.spread(start);
    let risen = g.uncovered(start);
    lemma_index_set(risen, g.cells.len() as int);
    lemma_census_finite(g.cells);
    lemma_census_finite(after.cells);
    lemma_same_board(g.cells, after.cells, g.rows as int, g.columns as int);
    let revealed = tagged(g.cells, CellTag::SELECTED);
    let covered = tagged(after.cells, CellTag::UNSELECTED);
    assert(tagged(after.cells, CellTag::SELECTED) =~= revealed + risen);
    assert(revealed.disjoint(risen));
    lemma_set_disjoint_lens(revealed, risen);
    assert(tagged(g.cells, CellTag::UNSELECTED) =~= covered + risen);
    assert(covered.disjoint(risen));
    lemma_set_disjoint_lens(covered, risen);
    assert(tagged(after.cells, CellTag::FLAGGED) =~= tagged(g.cells, CellTag::FLAGGED));
    if g.status == GameStatus::Lost {
        let dead = choose|dead: int| sole_dead(g.cells, dead);
        assert(sole_dead(after.cells, dead));
    }
}

/// The mine that goes off under a revealed cell ends the game in order: board
/// and counters agree, and no cell is left covered and unmarked.
pub proof fn lemma_explode_lawful(g: GameState, index: int)
    requires
        g.wf(),
        g.status != GameStatus::Lost,
        0 <= index < g.cells.len(),
        g.cells[index].mine,
        g.cells[index].tag == CellTag::SELECTED,
    ensures
        g.explode(index).lawful(),
{
    let after = g.explode(index);
    lemma_census_finite(g.cells);
    lemma_census_finite(after.cells);
    lemma_same_board(g.cells, after.cells, g.rows as int, g.columns as int);
    assert(tagged(after.cells, CellTag::FLAGGED) =~= tagged(g.cells, CellTag::FLAGGED));
    assert(tagged(after.cells, CellTag::UNSELECTED) =~= Set::<int>::empty());
    assert(sole_dead(after.cells, index));
}

/// A click leaves a game that was in order in order.
pub proof fn lemma_click_lawful(g: GameState, row: int, column: int)
    requires
        g.lawful(),
        0 <= row < g.rows,
        0 <= column < g.columns,
    ensures
        g.click(row, column).lawful(),
{
    let index = g.index(row, column);
    lemma_cell_index(g.rows as int, g.columns as int, row, column);
    let cell = g.cells[index];
    if g.status == GameStatus::Playing && cell.tag != CellTag::SELECTED && cell.tag != CellTag::DEAD {
        let unmarked = if cell.tag == CellTag::FLAGGED {
            g.toggle_flag(index)
        } else {
            g
        };
        lemma_toggle_flag_wf(g, index);
        let opened = unmarked.select(index);
        lemma_select_wf(unmarked, index);
        if cell.mine {
            lemma_explode_lawful(opened, index);
        } else if cell.adjacency == 0 {
            lemma_spread_wf(opened, index);
        }
    }
}

/// A right click leaves a game that was in order in order.
pub proof fn lemma_right_click_lawful(g: GameState, row: int, column: int)
    requires
        g.lawful(),
        0 <= row < g.rows,
        0 <= column < g.columns,
    ensures
        g.right_click(row, column).lawful(),
{
    let index = g.index(row, column);
    lemma_cell_index(g.rows as int, g.columns as int, row, column);
    lemma_toggle_flag_wf(g, index);
}

/// A click keeps board and counters in agreement.
pub proof fn lemma_click_wf(g: GameState, row: int, column: int)
    requires
        g.wf(),
        0 <= row < g.rows,
        0 <= column < g.columns,
    ensures
        g.click(row, column).wf(),
{
    let index = g.index(row, column);
    lemma_cell_index(g.rows as int, g.columns as int, row, column);
    let cell = g.cells[index];
    if g.status == GameStatus::Playing && cell.tag != CellTag::SELECTED && cell.tag != CellTag::DEAD {
        let unmarked = if cell.tag == CellTag::FLAGGED {
            g.toggle_flag(index)
        } else {
            g
        };
        lemma_toggle_flag_wf(g, index);
        let opened = unmarked.select(index);
        lemma_select_wf(unmarked, index);
        if cell.mine {
            lemma_explode_lawful(opened, index);
        } else if cell.adjacency == 0 {
            lemma_spread_wf(opened, index);
        }
    }
}

/// A right click keeps board and counters in agreement.
pub proof fn lemma_right_click_wf(g: GameState, row: int, column: int)
    requires
        g.wf(),
        0 <= row < g.rows,
        0 <= column < g.columns,
    ensures
        g.right_click(row, column).wf(),
{
    let index = g.index(row, column);
    lemma_cell_index(g.rows as int, g.columns as int, row, column);
    lemma_toggle_flag_wf(g, index);
}

} // verus!
