//! The cell: what lies in it, and what the player has done to it.

use vstd::prelude::*;

verus! {

/// What the player has done to a cell.
///
/// Every cell starts `UNSELECTED`. A cell becomes `FLAGGED` or `SELECTED` only
/// from `UNSELECTED`, a flag can be taken back, and `DEAD` marks the one mine
/// whose reveal lost the game.
#[derive(Debug, Clone, Copy, PartialEq, Eq, Structural)]
pub enum CellTag {
    /// Covered and unmarked.
    UNSELECTED,
    /// Covered, marked by the player as a suspected mine.
    FLAGGED,
    /// Revealed.
    SELECTED,
    /// The mine that exploded.
    DEAD,
}

/// One cell of the board.
///
/// `mine` is the authority on whether the cell holds a mine; `adjacency` is the
/// number of mines among the neighbours and means something only for a cell
/// without a mine.
#[derive(Debug, Clone, Copy, PartialEq, Eq, Structural)]
pub struct Cell {
    pub adjacency: u8,
    pub mine: bool,
    pub tag: CellTag,
}

impl Cell {
    /// The same cell under another tag.
    pub open spec fn tagged(self, tag: CellTag) -> Cell {
        Cell { adjacency: self.adjacency, mine: self.mine, tag }
    }

    /// A covered, unmarked cell without a mine: one that a reveal may uncover.
    pub open spec fn coverable(self) -> bool {
        !self.mine && self.tag == CellTag::UNSELECTED
    }

    /// A cell without a mine and with no mine around it: a reveal spreads on
    /// from such a cell to its neighbours.
    pub open spec fn blank(self) -> bool {
        !self.mine && self.adjacency == 0
    }

    /// A covered, unmarked cell that carries no count yet.
    pub open spec fn uncounted(mine: bool) -> Cell {
        Cell { adjacency: 0, mine, tag: CellTag::UNSELECTED }
    }

    /// A covered, unmarked cell with the given content and no count yet.
    pub fn covered(mine: bool) -> (cell: Cell)
        ensures
            cell == Cell::uncounted(mine),
    {
        Cell { adjacency: 0, mine, tag: CellTag::UNSELECTED }
    }

    /// The same cell under another tag.
    pub fn with_tag(self, tag: CellTag) -> (cell: Cell)
        ensures
            cell == self.tagged(tag),
    {
        Cell { adjacency: self.adjacency, mine: self.mine, tag }
    }
}

} // verus!
