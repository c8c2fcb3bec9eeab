//! Ships: kind, occupied cells and damage state.

use crate::board::{cell_index, is_damaged_cell, Board, BoardCell};
use crate::position::{Position, ShipOrientation};
use vstd::prelude::*;

verus! {

/// The five ship kinds; each has a fixed size.
#[derive(Clone, Copy, Debug, PartialEq, Eq, Structural)]
pub enum ShipKind {
    Patrol,
    Submarine,
    Destroyer,
    Battleship,
    Carrier,
}

/// The fixed size of each ship kind.
pub open spec fn spec_size_of_kind(kind: ShipKind) -> u8 {
    match kind {
        ShipKind::Patrol => 2,
        ShipKind::Submarine => 3,
        ShipKind::Destroyer => 3,
        ShipKind::Battleship => 4,
        ShipKind::Carrier => 5,
    }
}

/// Lookup table from ship kind to its fixed size.
pub fn size_of_kind(kind: ShipKind) -> (s: u8)
    ensures
        s == spec_size_of_kind(kind),
{
    match kind {
        ShipKind::Patrol => 2,
        ShipKind::Submarine => 3,
        ShipKind::Destroyer => 3,
        ShipKind::Battleship => 4,
        ShipKind::Carrier => 5,
    }
}

/// Damage state of one ship: `Damaged` carries the number of its cells hit so
/// far, which is positive and below the ship's size.
#[derive(Clone, Copy, Debug, PartialEq, Eq, Structural)]
pub enum ShipStatus {
    Undamaged,
    Damaged(u8),
    Destroyed,
}

/// The damage state a ship with `size` cells has after `hits` of them were
/// hit.
pub open spec fn status_for_hits(hits: nat, size: u8) -> ShipStatus {
    if hits == 0 {
        ShipStatus::Undamaged
    } else if hits < size {
        ShipStatus::Damaged(hits as u8)
    } else {
        ShipStatus::Destroyed
    }
}

/// The cell `i` steps away from `anchor` along `orient`.
pub open spec fn run_cell(anchor: Position, orient: ShipOrientation, i: int) -> Position {
    match orient {
        ShipOrientation::Horizontal => Position { x: (anchor.x + i) as u8, y: anchor.y },
        ShipOrientation::Vertical => Position { x: anchor.x, y: (anchor.y + i) as u8 },
    }
}

/// How many of `cells` are marked as hit (`DamagedShip` or `DestroyedShip`)
/// on the board `b`.
pub open spec fn damaged_count(b: Seq<BoardCell>, cells: Seq<Position>) -> nat
    decreases cells.len(),
{
    if cells.len() == 0 {
        0
    } else {
        damaged_count(b, cells.drop_last()) + if is_damaged_cell(
            b[cell_index(cells.last())],
        ) {
            1nat
        } else {
            0nat
        }
    }
}

/// No more cells can be hit than the ship has.
pub proof fn lemma_damaged_count_le_len(b: Seq<BoardCell>, cells: Seq<Position>)
    ensures
        damaged_count(b, cells) <= cells.len(),
    decreases cells.len(),
{
    if cells.len() > 0 {
        lemma_damaged_count_le_len(b, cells.drop_last());
    }
}

/// Every cell is hit exactly when the count reaches the number of cells.
pub proof fn lemma_damaged_count_full(b: Seq<BoardCell>, cells: Seq<Position>)
    ensures
        damaged_count(b, cells) == cells.len() <==> forall|i: int|
            0 <= i < cells.len() ==> is_damaged_cell(b[cell_index(cells[i])]),
    decreases cells.len(),
{
    lemma_damaged_count_le_len(b, cells);
    if cells.len() > 0 {
        lemma_damaged_count_full(b, cells.drop_last());
        lemma_damaged_count_le_len(b, cells.drop_last());
        if damaged_count(b, cells) == cells.len() {
            assert forall|i: int| 0 <= i < cells.len() implies is_damaged_cell(
                b[cell_index(cells[i])],
            ) by {
                if i < cells.len() - 1 {
                    assert(cells.drop_last()[i] == cells[i]);
                }
            }
        } else {
            if forall|i: int| 0 <= i < cells.len() ==> is_damaged_cell(b[cell_index(cells[i])]) {
                assert forall|i: int| 0 <= i < cells.drop_last().len() implies is_damaged_cell(
                    b[cell_index(cells.drop_last()[i])],
                ) by {
                    assert(cells.drop_last()[i] == cells[i]);
                }
                assert(is_damaged_cell(b[cell_index(cells.last())]));
                assert(false);
            }
        }
    }
}

/// No cell is hit exactly when the count is zero.
pub proof fn lemma_damaged_count_zero(b: Seq<BoardCell>, cells: Seq<Position>)
    ensures
        damaged_count(b, cells) == 0 <==> forall|i: int|
            0 <= i < cells.len() ==> !is_damaged_cell(b[cell_index(cells[i])]),
    decreases cells.len(),
{
    if cells.len() > 0 {
        lemma_damaged_count_zero(b, cells.drop_last());
        if damaged_count(b, cells) == 0 {
            assert forall|i: int| 0 <= i < cells.len() implies !is_damaged_cell(
                b[cell_index(cells[i])],
            ) by {
                if i < cells.len() - 1 {
                    assert(cells.drop_last()[i] == cells[i]);
                }
            }
        } else {
            if forall|i: int| 0 <= i < cells.len() ==> !is_damaged_cell(b[cell_index(cells[i])]) {
                assert forall|i: int| 0 <= i < cells.drop_last().len() implies !is_damaged_cell(
                    b[cell_index(cells.drop_last()[i])],
                ) by {
                    assert(cells.drop_last()[i] == cells[i]);
                }
                assert(!is_damaged_cell(b[cell_index(cells.last())]));
                assert(false);
            }
        }
    }
}

/// Two boards that agree on whether each of a ship's cells is hit give it the
/// same count of hits.
pub proof fn lemma_damaged_count_congruence(
    b1: Seq<BoardCell>,
    b2: Seq<BoardCell>,
    cells: Seq<Position>,
)
    requires
        forall|i: int| 0 <= i < cells.len() ==> is_damaged_cell(b1[cell_index(cells[i])])
            == is_damaged_cell(b2[cell_index(cells[i])]),
    ensures
        damaged_count(b1, cells) == damaged_count(b2, cells),
    decreases cells.len(),
{
    if cells.len() > 0 {
        assert forall|i: int| 0 <= i < cells.drop_last().len() implies is_damaged_cell(
            b1[cell_index(cells.drop_last()[i])],
        ) == is_damaged_cell(b2[cell_index(cells.drop_last()[i])]) by {
            assert(cells.drop_last()[i] == cells[i]);
        }
        lemma_damaged_count_congruence(b1, b2, cells.drop_last());
        assert(cells.last() == cells[cells.len() - 1]);
    }
}

/// One ship: a kind, the ordered cells it occupies (set once at placement)
/// and its damage state.
#[derive(Debug)]
pub struct Ship {
    pub kind: ShipKind,
    pub size: u8,
    pub position: Vec<Position>,
    pub status: ShipStatus,
}

impl Ship {
    /// The cells this ship occupies.
    pub open spec fn cells(self) -> Seq<Position> {
        self.position@
    }

    /// A placed ship: its size matches its kind, it occupies exactly `size`
    /// distinct in-bounds cells.
    pub open spec fn wf_placed(self) -> bool {
        &&& self.size == spec_size_of_kind(self.kind)
        &&& self.cells().len() == self.size as int
        &&& forall|i: int| 0 <= i < self.cells().len() ==> self.cells()[i].in_bounds()
        &&& forall|i: int, j: int|
            0 <= i < j < self.cells().len() ==> self.cells()[i] != self.cells()[j]
    }

    /// Whether `p` is one of this ship's cells.
    pub open spec fn covers(self, p: Position) -> bool {
        self.cells().contains(p)
    }

    /// The ship's damage state matches the board: its hit count equals the
    /// number of its cells marked as hit, a destroyed ship has every cell
    /// `DestroyedShip`, and a surviving ship's cells are `Ship` or
    /// `DamagedShip`.
    pub open spec fn status_consistent(self, b: Seq<BoardCell>) -> bool {
        &&& self.status == status_for_hits(damaged_count(b, self.cells()), self.size)
        &&& (self.status is Destroyed ==> forall|i: int|
            0 <= i < self.cells().len() ==> b[cell_index(self.cells()[i])]
                == BoardCell::DestroyedShip)
        &&& (!(self.status is Destroyed) ==> forall|i: int|
            0 <= i < self.cells().len() ==> b[cell_index(self.cells()[i])] == BoardCell::Ship
                || b[cell_index(self.cells()[i])] == BoardCell::DamagedShip)
    }

    /// A fresh, unplaced, undamaged ship of the given kind.
    pub fn new(kind: ShipKind) -> (s: Ship)
        ensures
            s.kind == kind,
            s.size == spec_size_of_kind(kind),
            s.cells().len() == 0,
            s.status == ShipStatus::Undamaged,
    {
        Ship { kind, size: size_of_kind(kind), position: Vec::new(), status: ShipStatus::Undamaged }
    }

    /// Generates the ship's cells by extending from `anchor` along `orient`:
    /// cell `i` lies `i` steps from the anchor. The cells may leave the grid;
    /// the caller validates them.
    pub fn place_at(&mut self, pos: Position, orient: ShipOrientation)
        requires
            orient is Horizontal ==> pos.x + old(self).size <= u8::MAX + 1,
            orient is Vertical ==> pos.y + old(self).size <= u8::MAX + 1,
        ensures
            final(self).kind == old(self).kind,
            final(self).size == old(self).size,
            final(self).status == old(self).status,
            final(self).cells().len() == old(self).size as int,
            forall|i: int|
                0 <= i < old(self).size ==> final(self).cells()[i] == run_cell(pos, orient, i),
    {
        self.position.clear();
        let mut i: u8 = 0;
        while i < self.size
            invariant
                i <= self.size,
                self.kind == old(self).kind,
                self.size == old(self).size,
                self.status == old(self).status,
                orient is Horizontal ==> pos.x + self.size <= u8::MAX + 1,
                orient is Vertical ==> pos.y + self.size <= u8::MAX + 1,
                self.cells().len() == i as int,
                forall|k: int| 0 <= k < i ==> self.cells()[k] == run_cell(pos, orient, k),
            decreases self.size - i,
        {
            let cell = match orient {
                ShipOrientation::Horizontal => Position { x: pos.x + i, y: pos.y },
                ShipOrientation::Vertical => Position { x: pos.x, y: pos.y + i },
            };
            self.position.push(cell);
            i = i + 1;
        }
    }

    /// A copy of the ship's cells, in placement order.
    pub fn positions(&self) -> (r: Vec<Position>)
        ensures
            r@ == self.cells(),
    {
        let mut r: Vec<Position> = Vec::new();
        let mut i: usize = 0;
        while i < self.position.len()
            invariant
                i <= self.cells().len(),
                r@ == self.cells().take(i as int),
            decreases self.cells().len() - i,
        {
            r.push(self.position[i]);
            proof {
                assert(self.cells().take(i + 1) =~= self.cells().take(i as int).push(
                    self.cells()[i as int],
                ));
            }
            i = i + 1;
        }
        proof {
            assert(self.cells().take(self.cells().len() as int) =~= self.cells());
        }
        r
    }

    /// Whether any of the ship's cells occurs in `positions`.
    pub fn intersects(&self, positions: &Vec<Position>) -> (r: bool)
        ensures
            r == exists|i: int| 0 <= i < self.cells().len() && positions@.contains(self.cells()[i]),
    {
        let mut i: usize = 0;
        while i < self.position.len()
            invariant
                i <= self.cells().len(),
                forall|k: int| 0 <= k < i ==> !positions@.contains(self.cells()[k]),
            decreases self.cells().len() - i,
        {
            if self.position[i].overlaps(positions) {
                return true;
            }
            i = i + 1;
        }
        false
    }

    /// Recomputes the damage state from the board: counts the ship's cells
    /// marked as hit and classifies accordingly.
    pub fn update_status(&mut self, board: &Board)
        requires
            old(self).wf_placed(),
            board.wf(),
        ensures
            final(self).kind == old(self).kind,
            final(self).size == old(self).size,
            final(self).position == old(self).position,
            final(self).status == status_for_hits(
                damaged_count(board@, old(self).cells()),
                old(self).size,
            ),
    {
        let mut hits: u8 = 0;
        let mut i: usize = 0;
        while i < self.position.len()
            invariant
                i <= self.cells().len(),
                self.cells().len() <= self.size,
                board.wf(),
                forall|k: int| 0 <= k < self.cells().len() ==> self.cells()[k].in_bounds(),
                hits as nat == damaged_count(board@, self.cells().take(i as int)),
                hits <= i,
            decreases self.cells().len() - i,
        {
            let c = board.get_cell_value(self.position[i]);
            proof {
                assert(self.cells().take(i + 1).drop_last() =~= self.cells().take(i as int));
                assert(self.cells().take(i + 1).last() == self.cells()[i as int]);
            }
            if c == BoardCell::DamagedShip || c == BoardCell::DestroyedShip {
                hits = hits + 1;
            }
            i = i + 1;
        }
        proof {
            assert(self.cells().take(self.cells().len() as int) =~= self.cells());
        }
        self.status = if hits == 0 {
            ShipStatus::Undamaged
        } else if hits < self.size {
            ShipStatus::Damaged(hits)
        } else {
            ShipStatus::Destroyed
        };
    }

}

} // verus!
