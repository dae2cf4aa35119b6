//! Counting cells: the sets of indices at which a board holds a mine or a
//! given tag, and how they change when one cell changes.

use vstd::prelude::*;
use vstd::set_lib::{lemma_int_range, lemma_len_subset, set_int_range};
use crate::cell::{Cell, CellTag};

verus! {

/// Where the mines are, cell by cell.
pub open spec fn mines_of(cells: Seq<Cell>) -> Seq<bool> {
    Seq::new(cells.len(), |i: int| cells[i].mine)
}

/// The indices of the cells that hold a mine.
pub open spec fn mined(cells: Seq<Cell>) -> Set<int> {
    Set::new(|i: int| 0 <= i < cells.len() && cells[i].mine)
}

/// The indices of the cells that carry `tag`.
pub open spec fn tagged(cells: Seq<Cell>, tag: CellTag) -> Set<int> {
    Set::new(|i: int| 0 <= i < cells.len() && cells[i].tag == tag)
}

/// Whether the board `now` has the mines and the counts of the board `then`.
pub open spec fn same_values(then: Seq<Cell>, now: Seq<Cell>) -> bool {
    &&& now.len() == then.len()
    &&& forall|i: int|
        0 <= i < then.len() ==> (#[trigger] now[i]).mine == then[i].mine && now[i].adjacency
            == then[i].adjacency
}

/// A set of indices of a sequence is finite and no larger than the sequence.
pub proof fn lemma_index_set(indices: Set<int>, len: int)
    requires
        0 <= len,
        forall|i: int| indices.contains(i) ==> 0 <= i < len,
    ensures
        indices.finite(),
        indices.len() <= len,
{
    lemma_int_range(0, len);
    lemma_len_subset(indices, set_int_range(0, len));
}

/// The mines and each set of tagged cells are finite and bounded by the board.
pub proof fn lemma_census_finite(cells: Seq<Cell>)
    ensures
        mined(cells).finite(),
        mined(cells).len() <= cells.len(),
        forall|tag: CellTag|
            #![trigger tagged(cells, tag)]
            tagged(cells, tag).finite() && tagged(cells, tag).len() <= cells.len(),
{
    lemma_index_set(mined(cells), cells.len() as int);
    assert forall|tag: CellTag|
        #![trigger tagged(cells, tag)]
        tagged(cells, tag).finite() && tagged(cells, tag).len() <= cells.len() by {
        lemma_index_set(tagged(cells, tag), cells.len() as int);
    }
}

/// Giving the cell at `index` another tag moves that index from the set of its
/// old tag to the set of its new tag and leaves every other set, and the
/// mines, as they were.
pub proof fn lemma_retag(cells: Seq<Cell>, index: int, tag: CellTag)
    requires
        0 <= index < cells.len(),
        cells[index].tag != tag,
    ensures
        mines_of(cells.update(index, cells[index].tagged(tag))) == mines_of(cells),
        mined(cells.update(index, cells[index].tagged(tag))) == mined(cells),
        tagged(cells.update(index, cells[index].tagged(tag)), tag) == tagged(cells, tag).insert(
            index,
        ),
        tagged(cells.update(index, cells[index].tagged(tag)), cells[index].tag) == tagged(
            cells,
            cells[index].tag,
        ).remove(index),
        forall|other: CellTag|
            other != tag && other != cells[index].tag ==> #[trigger] tagged(
                cells.update(index, cells[index].tagged(tag)),
                other,
            ) == tagged(cells, other),
        tagged(cells.update(index, cells[index].tagged(tag)), tag).len() == tagged(
            cells,
            tag,
        ).len() + 1,
        tagged(cells.update(index, cells[index].tagged(tag)), cells[index].tag).len()
            == tagged(cells, cells[index].tag).len() - 1,
{
    let after = cells.update(index, cells[index].tagged(tag));
    let before_tag = cells[index].tag;
    lemma_census_finite(cells);
    assert(mines_of(after) =~= mines_of(cells));
    assert(mined(after) =~= mined(cells));
    assert(tagged(after, tag) =~= tagged(cells, tag).insert(index));
    assert(tagged(after, before_tag) =~= tagged(cells, before_tag).remove(index));
    assert forall|other: CellTag| other != tag && other != before_tag implies #[trigger] tagged(
        after,
        other,
    ) == tagged(cells, other) by {
        assert(tagged(after, other) =~= tagged(cells, other));
    }
    assert(tagged(cells, before_tag).contains(index));
    assert(!tagged(cells, tag).contains(index));
}

} // verus!
