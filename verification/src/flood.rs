//! How a reveal spreads: the invariant of the worklist that carries it over
//! the board, and the proof that the worklist, once empty, has uncovered
//! exactly the cells that [`GameState::spread`] names.

use vstd::prelude::*;
use crate::cell::{Cell, CellTag};
use crate::census::lemma_index_set;
use crate::grid::{adjacent, cell_index, lemma_cell_index, lemma_neighbours, on_board};
use crate::state::{lemma_select_wf, GameState};

verus! {

/// The cells in which the board `now` differs from the board `then`.
pub open spec fn changed(then: Seq<Cell>, now: Seq<Cell>) -> Set<int> {
    Set::new(|i: int| 0 <= i < then.len() && now[i] != then[i])
}

/// Whether no neighbour of the cell `centre` is left coverable.
pub open spec fn sealed(cells: Seq<Cell>, columns: int, centre: int) -> bool {
    forall|j: int|
        0 <= j < cells.len() && adjacent(columns, centre, j) ==> !(#[trigger] cells[j]).coverable()
}

/// Whether the worklist holds the cell with index `index`.
pub open spec fn on_stack(stack: Seq<(usize, usize)>, columns: int, index: int) -> bool {
    exists|k: int|
        0 <= k < stack.len() && cell_index(columns, (#[trigger] stack[k]).0 as int, stack[k].1 as int)
            == index
}

/// Whether none of the cells `seen` is coverable.
pub open spec fn none_coverable(cells: Seq<Cell>, seen: Set<int>) -> bool {
    forall|j: int| 0 <= j < cells.len() && seen.contains(j) ==> !(#[trigger] cells[j]).coverable()
}

/// What holds while a reveal that began at `start` in the state `begun`
/// spreads, with the state `now` reached, the cells on `stack` still to be
/// looked at, and the neighbours of the cell `pending` (if it is a cell)
/// being looked at:
/// - board and counters agree;
/// - only cells and the count of revealed cells have changed;
/// - a cell that has changed is one that the reveal uncovers, and is revealed;
/// - the count has grown by the number of cells that have changed;
/// - every cell on the stack is on the board and reached by the reveal;
/// - a blank cell that is the start or has changed is pending, or on the
///   stack, or has no coverable neighbour left;
/// - the start is not coverable;
/// - the pending cell is blank and reached by the reveal.
#[verifier::opaque]
pub open spec fn spreading(
    begun: GameState,
    now: GameState,
    start: int,
    stack: Seq<(usize, usize)>,
    pending: int,
) -> bool {
    &&& now.wf()
    &&& now == (GameState { cells: now.cells, selected: now.selected, ..begun })
    &&& now.cells.len() == begun.cells.len()
    &&& 0 <= start < begun.cells.len()
    &&& forall|i: int|
        0 <= i < begun.cells.len() ==> #[trigger] now.cells[i] == begun.cells[i] || (begun.uncovers(
            start,
            i,
        ) && now.cells[i] == begun.cells[i].tagged(CellTag::SELECTED))
    &&& now.selected == begun.selected + changed(begun.cells, now.cells).len()
    &&& forall|k: int|
        0 <= k < stack.len() ==> on_board(
            begun.rows as int,
            begun.columns as int,
            (#[trigger] stack[k]).0 as int,
            stack[k].1 as int,
        ) && begun.reaches(start, begun.index(stack[k].0 as int, stack[k].1 as int))
    &&& forall|q: int|
        0 <= q < begun.cells.len() && (q == start || now.cells[q] != begun.cells[q])
            && (#[trigger] begun.cells[q]).blank() ==> q == pending || on_stack(
            stack,
            begun.columns as int,
            q,
        ) || sealed(now.cells, begun.columns as int, q)
    &&& !now.cells[start].coverable()
    &&& 0 <= pending < begun.cells.len() ==> begun.cells[pending].blank() && begun.reaches(
        start,
        pending,
    )
}

/// While a reveal spreads, the board keeps its size and the game its status,
/// flags, mines and clock.
pub proof fn lemma_spreading_frame(
    begun: GameState,
    now: GameState,
    start: int,
    stack: Seq<(usize, usize)>,
    pending: int,
)
    requires
        spreading(begun, now, start, stack, pending),
    ensures
        now == (GameState { cells: now.cells, selected: now.selected, ..begun }),
        now.cells.len() == begun.cells.len(),
        now.cells.len() == (now.rows as int) * (now.columns as int),
{
    reveal(spreading);
}

/// While a reveal spreads, board and counters agree.
pub proof fn lemma_spreading_wf(
    begun: GameState,
    now: GameState,
    start: int,
    stack: Seq<(usize, usize)>,
    pending: int,
)
    requires
        spreading(begun, now, start, stack, pending),
    ensures
        now.wf(),
{
    reveal(spreading);
}

/// A reveal reaches the cell at which it begins.
pub proof fn lemma_reaches_start(g: GameState, start: int)
    requires
        0 <= start < g.cells.len(),
    ensures
        g.reaches(start, start),
{
    let path = seq![start];
    assert(g.leads(path, start, start));
}

/// A path of a reveal without its last cell is a path of the reveal.
pub proof fn lemma_path_front(g: GameState, path: Seq<int>)
    requires
        g.spread_path(path),
        path.len() > 1,
    ensures
        g.spread_path(path.drop_last()),
        path.drop_last()[0] == path[0],
        path.drop_last().last() == path[path.len() - 2],
{
    let front = path.drop_last();
    assert forall|k: int| 0 <= k < front.len() implies 0 <= #[trigger] front[k] < g.cells.len() by {
        assert(front[k] == path[k]);
    }
    assert forall|k: int| 0 <= k < front.len() - 1 implies g.cells[#[trigger] front[k]].blank()
        && adjacent(g.columns as int, front[k], front[k + 1]) by {
        assert(front[k] == path[k]);
        assert(front[k + 1] == path[k + 1]);
    }
    assert forall|k: int| 1 <= k < front.len() implies g.cells[#[trigger] front[k]].coverable() by {
        assert(front[k] == path[k]);
    }
}

/// A reveal that reaches a blank cell reaches each coverable neighbour of it.
pub proof fn lemma_reaches_on(g: GameState, start: int, from: int, to: int)
    requires
        g.reaches(start, from),
        g.cells[from].blank(),
        0 <= to < g.cells.len(),
        g.cells[to].coverable(),
        adjacent(g.columns as int, from, to),
    ensures
        g.reaches(start, to),
{
    let path = choose|path: Seq<int>| #[trigger] g.leads(path, start, from);
    let longer = path.push(to);
    assert forall|k: int| 0 <= k < longer.len() - 1 implies g.cells[#[trigger] longer[k]].blank()
        && adjacent(g.columns as int, longer[k], longer[k + 1]) by {
        if k < path.len() - 1 {
            assert(longer[k] == path[k]);
            assert(longer[k + 1] == path[k + 1]);
        }
    }
    assert forall|k: int| 1 <= k < longer.len() implies g.cells[#[trigger] longer[k]].coverable() by {
        if k < path.len() {
            assert(longer[k] == path[k]);
        }
    }
    assert forall|k: int| 0 <= k < longer.len() implies 0 <= #[trigger] longer[k] < g.cells.len() by {
        if k < path.len() {
            assert(longer[k] == path[k]);
        }
    }
    assert(g.leads(longer, start, to));
}

/// The invariant holds when a reveal begins: the start has been revealed if
/// it was coverable, and alone is on the stack.
pub proof fn lemma_spreading_begins(begun: GameState, row: usize, column: usize)
    requires
        begun.wf(),
        on_board(begun.rows as int, begun.columns as int, row as int, column as int),
    ensures
        ({
            let start = begun.index(row as int, column as int);
            let now = if begun.cells[start].mine {
                begun
            } else {
                begun.select(start)
            };
            spreading(begun, now, start, seq![(row, column)], -1)
        }),
{
    reveal(spreading);
    let start = begun.index(row as int, column as int);
    lemma_cell_index(begun.rows as int, begun.columns as int, row as int, column as int);
    let now = if begun.cells[start].mine {
        begun
    } else {
        begun.select(start)
    };
    let stack = seq![(row, column)];
    lemma_select_wf(begun, start);
    lemma_reaches_start(begun, start);
    lemma_index_set(changed(begun.cells, now.cells), begun.cells.len() as int);
    if begun.cells[start].coverable() {
        assert(changed(begun.cells, now.cells) =~= Set::<int>::empty().insert(start));
    } else {
        assert(now == begun);
        assert(changed(begun.cells, now.cells) =~= Set::<int>::empty());
    }
    assert(stack[0] == (row, column));
    assert forall|q: int|
        0 <= q < begun.cells.len() && (q == start || now.cells[q] != begun.cells[q])
            && (#[trigger] begun.cells[q]).blank() implies q == -1 || on_stack(
        stack,
        begun.columns as int,
        q,
    ) || sealed(now.cells, begun.columns as int, q) by {
        assert(q == start);
        assert(cell_index(begun.columns as int, stack[0].0 as int, stack[0].1 as int) == q);
    }
}

/// Taking the top cell off the stack keeps the invariant: a blank cell becomes
/// the pending one, any other cell is done with.
pub proof fn lemma_spreading_pop(begun: GameState, now: GameState, start: int, stack: Seq<(usize, usize)>)
    requires
        spreading(begun, now, start, stack, -1),
        stack.len() > 0,
    ensures
        ({
            let top = begun.index(stack.last().0 as int, stack.last().1 as int);
            &&& spreading(
                begun,
                now,
                start,
                stack.drop_last(),
                if begun.cells[top].blank() {
                    top
                } else {
                    -1
                },
            )
            &&& on_board(
                begun.rows as int,
                begun.columns as int,
                stack.last().0 as int,
                stack.last().1 as int,
            )
            &&& now.cells[top].blank() == begun.cells[top].blank()
        }),
{
    reveal(spreading);
    lemma_spreading_frame(begun, now, start, stack, -1);
    let top = begun.index(stack.last().0 as int, stack.last().1 as int);
    lemma_cell_index(
        begun.rows as int,
        begun.columns as int,
        stack.last().0 as int,
        stack.last().1 as int,
    );
    let rest = stack.drop_last();
    let pending = if begun.cells[top].blank() {
        top
    } else {
        -1
    };
    assert forall|k: int| 0 <= k < rest.len() implies on_board(
        begun.rows as int,
        begun.columns as int,
        (#[trigger] rest[k]).0 as int,
        rest[k].1 as int,
    ) && begun.reaches(start, begun.index(rest[k].0 as int, rest[k].1 as int)) by {
        assert(rest[k] == stack[k]);
    }
    assert forall|q: int|
        0 <= q < begun.cells.len() && (q == start || now.cells[q] != begun.cells[q])
            && (#[trigger] begun.cells[q]).blank() implies q == pending || on_stack(
        rest,
        begun.columns as int,
        q,
    ) || sealed(now.cells, begun.columns as int, q) by {
        if on_stack(stack, begun.columns as int, q) {
            let k = choose|k: int|
                0 <= k < stack.len() && cell_index(
                    begun.columns as int,
                    (#[trigger] stack[k]).0 as int,
                    stack[k].1 as int,
                ) == q;
            if k < rest.len() {
                assert(rest[k] == stack[k]);
            }
        }
    }
}

/// Revealing a coverable neighbour of the pending cell and putting it on the
/// stack keeps the invariant.
pub proof fn lemma_spreading_push(
    begun: GameState,
    now: GameState,
    start: int,
    stack: Seq<(usize, usize)>,
    pending: int,
    row: usize,
    column: usize,
)
    requires
        spreading(begun, now, start, stack, pending),
        on_board(begun.rows as int, begun.columns as int, row as int, column as int),
        0 <= begun.index(row as int, column as int) < begun.cells.len(),
        now.cells[begun.index(row as int, column as int)].coverable(),
        0 <= pending < begun.cells.len(),
        adjacent(begun.columns as int, pending, begun.index(row as int, column as int)),
    ensures
        spreading(
            begun,
            now.select(begun.index(row as int, column as int)),
            start,
            stack.push((row, column)),
            pending,
        ),
{
    reveal(spreading);
    let to = begun.index(row as int, column as int);
    let next = now.select(to);
    let longer = stack.push((row, column));
    assert(now.cells[to] == begun.cells[to]);
    lemma_select_wf(now, to);
    lemma_reaches_on(begun, start, pending, to);
    lemma_index_set(changed(begun.cells, now.cells), begun.cells.len() as int);
    assert(changed(begun.cells, next.cells) =~= changed(begun.cells, now.cells).insert(to));
    assert forall|k: int| 0 <= k < longer.len() implies on_board(
        begun.rows as int,
        begun.columns as int,
        (#[trigger] longer[k]).0 as int,
        longer[k].1 as int,
    ) && begun.reaches(start, begun.index(longer[k].0 as int, longer[k].1 as int)) by {
        if k < stack.len() {
            assert(longer[k] == stack[k]);
        }
    }
    assert forall|q: int|
        0 <= q < begun.cells.len() && (q == start || next.cells[q] != begun.cells[q])
            && (#[trigger] begun.cells[q]).blank() implies q == pending || on_stack(
        longer,
        begun.columns as int,
        q,
    ) || sealed(next.cells, begun.columns as int, q) by {
        if q == to {
            assert(longer[stack.len() as int] == (row, column));
        } else if q != pending {
            if on_stack(stack, begun.columns as int, q) {
                let k = choose|k: int|
                    0 <= k < stack.len() && cell_index(
                        begun.columns as int,
                        (#[trigger] stack[k]).0 as int,
                        stack[k].1 as int,
                    ) == q;
                assert(longer[k] == stack[k]);
            } else {
                assert(sealed(now.cells, begun.columns as int, q));
                assert forall|j: int|
                    0 <= j < next.cells.len() && adjacent(
                        begun.columns as int,
                        q,
                        j,
                    ) implies !(#[trigger] next.cells[j]).coverable() by {
                    assert(!now.cells[j].coverable());
                }
            }
        }
    }
}

/// Once no neighbour of the pending cell is coverable, the cell is done with.
pub proof fn lemma_spreading_sealed(
    begun: GameState,
    now: GameState,
    start: int,
    stack: Seq<(usize, usize)>,
    pending: int,
)
    requires
        spreading(begun, now, start, stack, pending),
        0 <= pending < begun.cells.len() ==> sealed(now.cells, begun.columns as int, pending),
    ensures
        spreading(begun, now, start, stack, -1),
{
    reveal(spreading);
}

/// With the stack empty, no cell at the end of a path of the reveal is left
/// coverable.
pub proof fn lemma_spread_along(begun: GameState, now: GameState, start: int, path: Seq<int>)
    requires
        spreading(begun, now, start, Seq::<(usize, usize)>::empty(), -1),
        begun.spread_path(path),
        path[0] == start,
    ensures
        !now.cells[path.last()].coverable(),
    decreases path.len(),
{
    reveal(spreading);
    if path.len() > 1 {
        let front = path.drop_last();
        lemma_path_front(begun, path);
        lemma_spread_along(begun, now, start, front);
        let q = front.last();
        let last = path.last();
        assert(q == path[path.len() - 2]);
        assert(last == path[path.len() - 1]);
        assert(begun.cells[q].blank());
        assert(adjacent(begun.columns as int, q, last));
        if path.len() > 2 {
            assert(begun.cells[q].coverable());
        }
        assert(q == start || now.cells[q] != begun.cells[q]);
        assert(!on_stack(Seq::<(usize, usize)>::empty(), begun.columns as int, q));
        assert(sealed(now.cells, begun.columns as int, q));
        assert(0 <= last < now.cells.len());
    }
}

/// With the stack empty, the reveal has done what [`GameState::spread`] says.
pub proof fn lemma_spread_done(begun: GameState, now: GameState, start: int)
    requires
        spreading(begun, now, start, Seq::<(usize, usize)>::empty(), -1),
    ensures
        now == begun.spread(start),
{
    reveal(spreading);
    let goal = begun.spread(start);
    assert forall|i: int| 0 <= i < begun.cells.len() implies now.cells[i] == goal.cells[i] by {
        if begun.uncovers(start, i) {
            let path = choose|path: Seq<int>| #[trigger] begun.leads(path, start, i);
            lemma_spread_along(begun, now, start, path);
        }
    }
    assert(now.cells =~= goal.cells);
    assert(changed(begun.cells, now.cells) =~= begun.uncovered(start));
}

/// Once none of the up to eight cells around (`row`, `column`) is coverable,
/// the cell has no coverable neighbour left.
pub proof fn lemma_sealed(cells: Seq<Cell>, rows: int, columns: int, row: int, column: int, seen: Set<int>)
    requires
        cells.len() == rows * columns,
        on_board(rows, columns, row, column),
        none_coverable(cells, seen),
        on_board(rows, columns, row - 1, column - 1) ==> seen.contains(
            cell_index(columns, row - 1, column - 1),
        ),
        on_board(rows, columns, row, column - 1) ==> seen.contains(cell_index(columns, row, column - 1)),
        on_board(rows, columns, row + 1, column - 1) ==> seen.contains(
            cell_index(columns, row + 1, column - 1),
        ),
        on_board(rows, columns, row - 1, column) ==> seen.contains(cell_index(columns, row - 1, column)),
        on_board(rows, columns, row + 1, column) ==> seen.contains(cell_index(columns, row + 1, column)),
        on_board(rows, columns, row - 1, column + 1) ==> seen.contains(
            cell_index(columns, row - 1, column + 1),
        ),
        on_board(rows, columns, row, column + 1) ==> seen.contains(cell_index(columns, row, column + 1)),
        on_board(rows, columns, row + 1, column + 1) ==> seen.contains(
            cell_index(columns, row + 1, column + 1),
        ),
    ensures
        sealed(cells, columns, cell_index(columns, row, column)),
{
    assert forall|j: int|
        0 <= j < cells.len() && adjacent(columns, cell_index(columns, row, column), j) implies !(
    #[trigger] cells[j]).coverable() by {
        lemma_neighbours(rows, columns, row, column, j);
        assert(seen.contains(j));
    }
}

} // verus!
