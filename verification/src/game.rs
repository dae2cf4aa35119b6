//! The game state machine: the board with its counters, status and clock, the
//! player's two actions, and the queries that a front end draws from.

use vstd::prelude::*;
use crate::cell::{Cell, CellTag};
use crate::census::{lemma_census_finite, lemma_retag, mined, mines_of, tagged};
use crate::field::{board_of, count_neighbour_mines, get_map_vec, lemma_fresh_board_is_board_of};
use crate::flood::{lemma_sealed, lemma_spread_done, lemma_spreading_begins, lemma_spreading_frame, lemma_spreading_pop, lemma_spreading_push, lemma_spreading_sealed, lemma_spreading_wf, none_coverable, spreading};
use crate::grid::{cell_index, lemma_cell_index, on_board};
use crate::state::{lemma_click_lawful, lemma_click_wf, lemma_fresh_lawful, lemma_right_click_lawful, lemma_right_click_wf, lemma_select_wf, lemma_toggle_flag_wf, swept, GameError, GameState, GameStatus};

verus! {

/// What a query tells of the inside of a cell.
#[derive(Debug, Clone, Copy, PartialEq, Eq, Structural)]
pub enum Content {
    /// The cell is covered and the game goes on: nothing is told.
    Hidden,
    /// The cell holds a mine.
    Mine,
    /// The cell holds no mine; the number of mines around it.
    Safe(u8),
}

/// What a query tells of one cell.
#[derive(Debug, Clone, Copy, PartialEq, Eq, Structural)]
pub struct CellInfo {
    pub tag: CellTag,
    pub content: Content,
}

/// The counters of a game.
#[derive(Debug, Clone, Copy, PartialEq, Eq, Structural)]
pub struct Counts {
    pub selected: usize,
    pub flagged: usize,
    pub total_mines: usize,
    pub total_cells: usize,
}

/// A game: the board, the counters, the status and the clock.
pub struct AppGui {
    state: GameStatus,
    s_time: u64,
    f_time: u64,
    selected: usize,
    n_mines: usize,
    f_mines: usize,
    rows: usize,
    columns: usize,
    map: Vec<Cell>,
}

impl View for AppGui {
    type V = GameState;

    closed spec fn view(&self) -> GameState {
        GameState {
            rows: self.rows as nat,
            columns: self.columns as nat,
            cells: self.map@,
            status: self.state,
            selected: self.selected as nat,
            flagged: self.f_mines as nat,
            mines: self.n_mines as nat,
            started: self.s_time as nat,
            elapsed: self.f_time as nat,
        }
    }
}

/// What a query tells of the cell at `index` of the game `g`: the content of a
/// revealed or dead cell, and of every cell once the game is over.
pub open spec fn disclosed(g: GameState, index: int) -> CellInfo {
    let cell = g.cells[index];
    CellInfo {
        tag: cell.tag,
        content: if g.status == GameStatus::Playing && cell.tag != CellTag::SELECTED && cell.tag
            != CellTag::DEAD {
            Content::Hidden
        } else if cell.mine {
            Content::Mine
        } else {
            Content::Safe(cell.adjacency)
        },
    }
}

impl AppGui {
    /// Board and counters agree, as [`GameState::wf`] says.
    pub open spec fn wf(&self) -> bool {
        self@.wf()
    }

    /// Begins a game at time `now` (in milliseconds) on a board of `rows` by
    /// `columns` cells with `n_mines` mines at places chosen at random. A
    /// number of mines that would fill the board is cut down to leave one cell
    /// free. A board without rows or columns, or with more cells than can be
    /// held, is refused.
    pub fn new(rows: usize, columns: usize, n_mines: usize, now: u64) -> (game: Result<
        AppGui,
        GameError,
    >)
        ensures
            game is Ok <==> rows >= 1 && columns >= 1 && rows * columns <= usize::MAX,
            game matches Err(e) ==> e == GameError::InvalidConfiguration,
            game matches Ok(g) ==> {
                &&& g@.lawful()
                &&& g@ == GameState::fresh(rows as nat, columns as nat, mines_of(g@.cells), now as nat)
                &&& g@.mines == if n_mines < rows * columns {
                    n_mines as int
                } else {
                    rows * columns - 1
                }
            },
    {
        if rows == 0 || columns == 0 {
            return Err(GameError::InvalidConfiguration);
        }
        let len: usize = match rows.checked_mul(columns) {
            Some(len) => len,
            None => {
                return Err(GameError::InvalidConfiguration);
            },
        };
        proof {
            lemma_cell_index(rows as int, columns as int, 0, 0);
        }
        // the mines must leave one cell free
        let n_mines: usize = if n_mines >= len {
            len - 1
        } else {
            n_mines
        };
        let map: Vec<Cell> = get_map_vec(rows, columns, n_mines);
        proof {
            lemma_fresh_board_is_board_of(map@, rows as int, columns as int);
            lemma_fresh_lawful(rows as nat, columns as nat, mines_of(map@), now as nat);
        }
        Ok(
            AppGui {
                state: GameStatus::Playing,
                s_time: now,
                f_time: 0,
                selected: 0,
                n_mines,
                f_mines: 0,
                rows,
                columns,
                map,
            },
        )
    }

    /// Begins a game at time `now` (in milliseconds) on a board of `rows` by
    /// `columns` cells whose mines lie where `mines` says, cell by cell in
    /// row-major order. Refused are a board without rows or columns, a layout
    /// that is not `rows * columns` long, and one that leaves no cell free.
    pub fn with_mines(rows: usize, columns: usize, mines: &Vec<bool>, now: u64) -> (game: Result<
        AppGui,
        GameError,
    >)
        ensures
            game is Ok <==> {
                &&& rows >= 1
                &&& columns >= 1
                &&& mines.len() == rows * columns
                &&& exists|i: int| 0 <= i < mines.len() && !mines[i]
            },
            game matches Err(e) ==> e == GameError::InvalidConfiguration,
            game matches Ok(g) ==> {
                &&& g@.lawful()
                &&& g@ == GameState::fresh(rows as nat, columns as nat, mines@, now as nat)
            },
    {
        if rows == 0 || columns == 0 {
            return Err(GameError::InvalidConfiguration);
        }
        let len: usize = match rows.checked_mul(columns) {
            Some(len) => len,
            None => {
                return Err(GameError::InvalidConfiguration);
            },
        };
        if mines.len() != len {
            return Err(GameError::InvalidConfiguration);
        }
        let mut map: Vec<Cell> = Vec::new();
        let mut n_mines: usize = 0;
        proof {
            assert(mined(map@) =~= Set::<int>::empty());
        }
        for i in 0..len
            invariant
                mines.len() == len,
                map.len() == i,
                forall|j: int| 0 <= j < i ==> #[trigger] map[j] == Cell::uncounted(mines[j]),
                n_mines == mined(map@).len(),
                n_mines <= i,
                n_mines < i <==> exists|j: int| 0 <= j < i && !mines[j],
        {
            let ghost before = map@;
            let mine: bool = mines[i];
            map.push(Cell::covered(mine));
            proof {
                lemma_census_finite(before);
                if mine {
                    assert(mined(map@) =~= mined(before).insert(i as int));
                } else {
                    assert(mined(map@) =~= mined(before));
                }
            }
            if mine {
                n_mines = n_mines + 1;
            }
        }
        if n_mines >= len {
            return Err(GameError::InvalidConfiguration);
        }
        let ghost plain = map@;
        count_neighbour_mines(&mut map, rows, columns);
        proof {
            assert(mines_of(plain) =~= mines@);
            assert(map@ =~= board_of(mines@, rows as int, columns as int));
            assert(mined(map@) =~= mined(plain));
            lemma_fresh_lawful(rows as nat, columns as nat, mines@, now as nat);
        }
        Ok(
            AppGui {
                state: GameStatus::Playing,
                s_time: now,
                f_time: 0,
                selected: 0,
                n_mines,
                f_mines: 0,
                rows,
                columns,
                map,
            },
        )
    }

    /// Reveals the cell at index `ind` and counts it, if the cell is covered
    /// and unmarked; any other cell stays as it is.
    pub fn set_selected(&mut self, ind: usize)
        requires
            old(self).wf(),
            ind < old(self)@.cells.len(),
        ensures
            final(self)@ == old(self)@.select(ind as int),
            final(self).wf(),
    {
        let cell: Cell = self.map[ind];
        if cell.tag == CellTag::UNSELECTED {
            proof {
                lemma_select_wf(self@, ind as int);
                lemma_retag(self@.cells, ind as int, CellTag::SELECTED);
                assert(self.selected < self.map.len());
            }
            self.map.set(ind, cell.with_tag(CellTag::SELECTED));
            self.selected = self.selected + 1;
        }
    }

    /// Looks at (`row`, `column`), a neighbour of the blank cell (`r`, `c`) from
    /// which a reveal spreads: a coverable neighbour is revealed, counted and
    /// put on the stack, any other is left alone.
    fn spread_to(
        &mut self,
        stack: &mut Vec<(usize, usize)>,
        r: usize,
        c: usize,
        row: usize,
        column: usize,
        Ghost(begun): Ghost<GameState>,
        Ghost(start): Ghost<int>,
        Ghost(seen): Ghost<Set<int>>,
    )
        requires
            on_board(old(self)@.rows as int, old(self)@.columns as int, r as int, c as int),
            on_board(old(self)@.rows as int, old(self)@.columns as int, row as int, column as int),
            -1 <= row - r <= 1,
            -1 <= column - c <= 1,
            row != r || column != c,
            spreading(begun, old(self)@, start, old(stack)@, old(self)@.index(r as int, c as int)),
            none_coverable(old(self)@.cells, seen),
        ensures
            final(self)@.rows == old(self)@.rows,
            final(self)@.columns == old(self)@.columns,
            final(self)@.cells.len() == old(self)@.cells.len(),
            spreading(begun, final(self)@, start, final(stack)@, old(self)@.index(r as int, c as int)),
            none_coverable(
                final(self)@.cells,
                seen.insert(old(self)@.index(row as int, column as int)),
            ),
            2 * tagged(final(self)@.cells, CellTag::UNSELECTED).len() + final(stack).len() <= 2
                * tagged(old(self)@.cells, CellTag::UNSELECTED).len() + old(stack).len(),
    {
        proof {
            let pending = self@.index(r as int, c as int);
            lemma_spreading_frame(begun, self@, start, stack@, pending);
            lemma_spreading_wf(begun, self@, start, stack@, pending);
            lemma_cell_index(self.rows as int, self.columns as int, r as int, c as int);
            lemma_cell_index(self.rows as int, self.columns as int, row as int, column as int);
            assert(self.map.len() == self.rows * self.columns);
        }
        let i: usize = row * self.columns + column;
        let cell: Cell = self.map[i];
        if !cell.mine && cell.tag == CellTag::UNSELECTED {
            proof {
                lemma_spreading_push(
                    begun,
                    self@,
                    start,
                    stack@,
                    self@.index(r as int, c as int),
                    row,
                    column,
                );
                lemma_retag(self@.cells, i as int, CellTag::SELECTED);
            }
            self.set_selected(i);
            stack.push((row, column));
        }
    }

    /// Looks at the up to eight neighbours of the blank cell (`r`, `c`) from
    /// which a reveal spreads.
    fn spread_around(
        &mut self,
        stack: &mut Vec<(usize, usize)>,
        r: usize,
        c: usize,
        Ghost(begun): Ghost<GameState>,
        Ghost(start): Ghost<int>,
    )
        requires
            on_board(old(self)@.rows as int, old(self)@.columns as int, r as int, c as int),
            spreading(begun, old(self)@, start, old(stack)@, old(self)@.index(r as int, c as int)),
        ensures
            spreading(begun, final(self)@, start, final(stack)@, -1),
            2 * tagged(final(self)@.cells, CellTag::UNSELECTED).len() + final(stack).len() <= 2
                * tagged(old(self)@.cells, CellTag::UNSELECTED).len() + old(stack).len(),
    {
        let ghost mut seen: Set<int> = Set::empty();
        let ghost rows = self.rows as int;
        let ghost columns = self.columns as int;
        // north-west
        if r > 0 && c > 0 {
            self.spread_to(stack, r, c, r - 1, c - 1, Ghost(begun), Ghost(start), Ghost(seen));
            proof {
                seen = seen.insert(cell_index(columns, r - 1, c - 1));
            }
        }
        // west
        if c > 0 {
            self.spread_to(stack, r, c, r, c - 1, Ghost(begun), Ghost(start), Ghost(seen));
            proof {
                seen = seen.insert(cell_index(columns, r as int, c - 1));
            }
        }
        // south-west
        if r < self.rows - 1 && c > 0 {
            self.spread_to(stack, r, c, r + 1, c - 1, Ghost(begun), Ghost(start), Ghost(seen));
            proof {
                seen = seen.insert(cell_index(columns, r + 1, c - 1));
            }
        }
        // north
        if r > 0 {
            self.spread_to(stack, r, c, r - 1, c, Ghost(begun), Ghost(start), Ghost(seen));
            proof {
                seen = seen.insert(cell_index(columns, r - 1, c as int));
            }
        }
        // south
        if r < self.rows - 1 {
            self.spread_to(stack, r, c, r + 1, c, Ghost(begun), Ghost(start), Ghost(seen));
            proof {
                seen = seen.insert(cell_index(columns, r + 1, c as int));
            }
        }
        // east
        if c < self.columns - 1 {
            self.spread_to(stack, r, c, r, c + 1, Ghost(begun), Ghost(start), Ghost(seen));
            proof {
                seen = seen.insert(cell_index(columns, r as int, c + 1));
            }
        }
        // north-east
        if r > 0 && c < self.columns - 1 {
            self.spread_to(stack, r, c, r - 1, c + 1, Ghost(begun), Ghost(start), Ghost(seen));
            proof {
                seen = seen.insert(cell_index(columns, r - 1, c + 1));
            }
        }
        // south-east
        if r < self.rows - 1 && c < self.columns - 1 {
            self.spread_to(stack, r, c, r + 1, c + 1, Ghost(begun), Ghost(start), Ghost(seen));
            proof {
                seen = seen.insert(cell_index(columns, r + 1, c + 1));
            }
        }
        proof {
            let pending = cell_index(columns, r as int, c as int);
            lemma_spreading_frame(begun, self@, start, stack@, pending);
            lemma_sealed(self@.cells, rows, columns, r as int, c as int, seen);
            lemma_spreading_sealed(begun, self@, start, stack@, pending);
        }
    }

    /// Spreads a reveal from the cell at (`row`, `column`). The cell itself is
    /// revealed if it is coverable. If it is blank, so is every coverable
    /// neighbour, and the reveal goes on from each blank cell it reaches: it
    /// uncovers the whole connected region of blank cells and the cells with a
    /// count that border it, and stops there. It never touches a mine or a
    /// flag, and counts each cell that it reveals.
    pub fn clean_neighbour_cells(&mut self, row: usize, column: usize)
        requires
            old(self).wf(),
            row < old(self)@.rows,
            column < old(self)@.columns,
        ensures
            final(self)@ == old(self)@.spread(old(self)@.index(row as int, column as int)),
            final(self).wf(),
    {
        let ghost begun = self@;
        let ghost start = self@.index(row as int, column as int);
        proof {
            lemma_cell_index(self.rows as int, self.columns as int, row as int, column as int);
            lemma_spreading_begins(begun, row, column);
            assert(self.map.len() == self.rows * self.columns);
        }
        // the cell itself
        let first: usize = row * self.columns + column;
        if !self.map[first].mine {
            self.set_selected(first);
        }
        // the cells whose neighbours are still to be looked at
        let mut cells: Vec<(usize, usize)> = Vec::new();
        cells.push((row, column));
        proof {
            assert(cells@ =~= seq![(row, column)]);
        }
        while cells.len() > 0
            invariant
                spreading(begun, self@, start, cells@, -1),
            decreases 2 * tagged(self@.cells, CellTag::UNSELECTED).len() + cells.len(),
        {
            proof {
                lemma_spreading_pop(begun, self@, start, cells@);
                lemma_spreading_frame(begun, self@, start, cells@, -1);
            }
            let top: (usize, usize) = cells.pop().unwrap();
            let r: usize = top.0;
            let c: usize = top.1;
            proof {
                lemma_cell_index(self.rows as int, self.columns as int, r as int, c as int);
                assert(self.map.len() == self.rows * self.columns);
            }
            let cell: Cell = self.map[r * self.columns + c];
            // a cell with a count, or a mine, ends the spread
            if !cell.mine && cell.adjacency == 0 {
                self.spread_around(&mut cells, r, c, Ghost(begun), Ghost(start));
            }
        }
        proof {
            assert(cells@ =~= Seq::<(usize, usize)>::empty());
            lemma_spreading_wf(begun, self@, start, cells@, -1);
            lemma_spread_done(begun, self@, start);
        }
    }

    /// Sets a flag on the cell at index `ind` if the cell is covered and
    /// unmarked and fewer flags than mines are set; takes the flag back if the
    /// cell is flagged; leaves a revealed or dead cell alone.
    pub fn toggle_flag(&mut self, ind: usize)
        requires
            old(self).wf(),
            ind < old(self)@.cells.len(),
        ensures
            final(self)@ == old(self)@.toggle_flag(ind as int),
            final(self).wf(),
    {
        proof {
            lemma_toggle_flag_wf(self@, ind as int);
        }
        let cell: Cell = self.map[ind];
        if cell.tag == CellTag::FLAGGED {
            self.map.set(ind, cell.with_tag(CellTag::UNSELECTED));
            if self.f_mines > 0 {
                self.f_mines = self.f_mines - 1;
            }
        } else if cell.tag == CellTag::UNSELECTED && self.f_mines < self.n_mines {
            self.map.set(ind, cell.with_tag(CellTag::FLAGGED));
            self.f_mines = self.f_mines + 1;
        }
    }

    /// Reveals every cell that is still covered and unmarked, as at the end of
    /// a lost game. Flags stay, and no counter moves.
    fn check_looser_map(&mut self)
        ensures
            final(self)@ == (GameState { cells: swept(old(self)@.cells), ..old(self)@ }),
    {
        let ghost before = self.map@;
        let len: usize = self.map.len();
        for i in 0..len
            invariant
                len == self.map.len(),
                before.len() == len,
                self@ == (GameState { cells: self.map@, ..old(self)@ }),
                forall|j: int|
                    0 <= j < len ==> #[trigger] self.map[j] == if j < i {
                        swept(before)[j]
                    } else {
                        before[j]
                    },
        {
            let cell: Cell = self.map[i];
            if cell.tag == CellTag::UNSELECTED {
                self.map.set(i, cell.with_tag(CellTag::SELECTED));
            }
        }
        proof {
            assert(self.map@ =~= swept(before));
        }
    }

    /// The player clicks the cell at (`row`, `column`).
    ///
    /// Nothing happens unless the game goes on and the cell is covered. A
    /// flag on the cell is taken back, and the cell is revealed and counted.
    /// If it holds a mine the game is lost: the cell is dead and every cell
    /// still covered and unmarked is revealed. Otherwise the reveal spreads
    /// from a blank cell, and the game is won once every cell is revealed or
    /// flagged. A place off the board is an error and changes nothing.
    pub fn click(&mut self, row: usize, column: usize) -> (done: Result<(), GameError>)
        requires
            old(self).wf(),
        ensures
            done is Ok <==> row < old(self)@.rows && column < old(self)@.columns,
            done matches Err(e) ==> e == GameError::OutOfRange && final(self)@ == old(self)@,
            done is Ok ==> final(self)@ == old(self)@.click(row as int, column as int),
            final(self).wf(),
            old(self)@.lawful() ==> final(self)@.lawful(),
            final(self)@.selected >= old(self)@.selected,
    {
        if row >= self.rows || column >= self.columns {
            return Err(GameError::OutOfRange);
        }
        proof {
            lemma_cell_index(self.rows as int, self.columns as int, row as int, column as int);
            assert(self.map.len() == self.rows * self.columns);
            lemma_click_wf(self@, row as int, column as int);
            if self@.lawful() {
                lemma_click_lawful(self@, row as int, column as int);
            }
        }
        let ind: usize = row * self.columns + column;
        let cell: Cell = self.map[ind];
        if self.state != GameStatus::Playing || cell.tag == CellTag::SELECTED || cell.tag
            == CellTag::DEAD {
            return Ok(());
        }
        // a click on a flagged cell takes the flag back
        if cell.tag == CellTag::FLAGGED {
            self.toggle_flag(ind);
        }
        self.set_selected(ind);
        if cell.mine {
            // lost
            self.state = GameStatus::Lost;
            self.map.set(ind, cell.with_tag(CellTag::DEAD));
            self.check_looser_map();
        } else {
            if cell.adjacency == 0 {
                self.clean_neighbour_cells(row, column);
            }
            if self.selected + self.f_mines >= self.map.len() {
                // won
                self.state = GameStatus::Won;
            }
        }
        Ok(())
    }

    /// The player right-clicks the cell at (`row`, `column`): while the game
    /// goes on, the flag on the cell is toggled, and the game is won once
    /// every cell is revealed or flagged. A place off the board is an error
    /// and changes nothing.
    pub fn right_click(&mut self, row: usize, column: usize) -> (done: Result<(), GameError>)
        requires
            old(self).wf(),
        ensures
            done is Ok <==> row < old(self)@.rows && column < old(self)@.columns,
            done matches Err(e) ==> e == GameError::OutOfRange && final(self)@ == old(self)@,
            done is Ok ==> final(self)@ == old(self)@.right_click(row as int, column as int),
            final(self).wf(),
            old(self)@.lawful() ==> final(self)@.lawful(),
            final(self)@.selected == old(self)@.selected,
    {
        if row >= self.rows || column >= self.columns {
            return Err(GameError::OutOfRange);
        }
        proof {
            lemma_cell_index(self.rows as int, self.columns as int, row as int, column as int);
            assert(self.map.len() == self.rows * self.columns);
            lemma_right_click_wf(self@, row as int, column as int);
            if self@.lawful() {
                lemma_right_click_lawful(self@, row as int, column as int);
            }
        }
        if self.state != GameStatus::Playing {
            return Ok(());
        }
        self.toggle_flag(row * self.columns + column);
        if self.selected + self.f_mines >= self.map.len() {
            // won
            self.state = GameStatus::Won;
        }
        Ok(())
    }

    /// Whether the game goes on, is won or is lost.
    pub fn status(&self) -> (status: GameStatus)
        ensures
            status == self@.status,
    {
        self.state
    }

    /// The number of rows of the board.
    pub fn rows(&self) -> (rows: usize)
        ensures
            rows == self@.rows,
    {
        self.rows
    }

    /// The number of columns of the board.
    pub fn columns(&self) -> (columns: usize)
        ensures
            columns == self@.columns,
    {
        self.columns
    }

    /// The counters: revealed cells, flags, mines and cells.
    pub fn counts(&self) -> (counts: Counts)
        ensures
            counts.selected == self@.selected,
            counts.flagged == self@.flagged,
            counts.total_mines == self@.mines,
            counts.total_cells == self@.cells.len(),
    {
        Counts {
            selected: self.selected,
            flagged: self.f_mines,
            total_mines: self.n_mines,
            total_cells: self.map.len(),
        }
    }

    /// The time played, in milliseconds, as of the last look at the clock.
    pub fn elapsed(&self) -> (elapsed: u64)
        ensures
            elapsed == self@.elapsed,
    {
        self.f_time
    }

    /// Looks at the clock, which shows `now` (in milliseconds). While the game
    /// goes on the time played becomes the time since the start; once the
    /// game is over it stands still.
    pub fn tick(&mut self, now: u64)
        ensures
            final(self)@ == old(self)@.tick(now as nat),
            old(self).wf() ==> final(self).wf(),
            old(self)@.lawful() ==> final(self)@.lawful(),
    {
        if self.state == GameStatus::Playing {
            self.f_time = if now >= self.s_time {
                now - self.s_time
            } else {
                0
            };
        }
    }

    /// What may be told of the cell at (`row`, `column`): its tag, and its
    /// content if the cell is revealed or dead or the game is over. A place
    /// off the board is an error.
    pub fn cell_at(&self, row: usize, column: usize) -> (info: Result<CellInfo, GameError>)
        requires
            self.wf(),
        ensures
            info is Ok <==> row < self@.rows && column < self@.columns,
            info matches Err(e) ==> e == GameError::OutOfRange,
            info matches Ok(i) ==> i == disclosed(self@, self@.index(row as int, column as int)),
    {
        if row >= self.rows || column >= self.columns {
            return Err(GameError::OutOfRange);
        }
        proof {
            lemma_cell_index(self.rows as int, self.columns as int, row as int, column as int);
            assert(self.map.len() == self.rows * self.columns);
        }
        let cell: Cell = self.map[row * self.columns + column];
        let content: Content = if self.state == GameStatus::Playing && cell.tag != CellTag::SELECTED
            && cell.tag != CellTag::DEAD {
            Content::Hidden
        } else if cell.mine {
            Content::Mine
        } else {
            Content::Safe(cell.adjacency)
        };
        Ok(CellInfo { tag: cell.tag, content })
    }
}

} // verus!
