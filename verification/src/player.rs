//! One side of the match: its fleet and the coordinates it has attacked.

use crate::position::Position;
use crate::ship::{spec_size_of_kind, Ship, ShipKind};
use vstd::prelude::*;

verus! {

/// The fixed, deterministic order in which the fleet's kinds are placed.
pub open spec fn fleet_kinds() -> Seq<ShipKind> {
    seq![
        ShipKind::Submarine,
        ShipKind::Patrol,
        ShipKind::Destroyer,
        ShipKind::Battleship,
        ShipKind::Carrier,
    ]
}

/// All cells occupied by the given ships, in placement order.
pub open spec fn cells_of_ships(ships: Seq<Ship>) -> Seq<Position>
    decreases ships.len(),
{
    if ships.len() == 0 {
        Seq::empty()
    } else {
        cells_of_ships(ships.drop_last()) + ships.last().cells()
    }
}

/// Whether some of the given ships occupies `p`.
pub open spec fn covered(ships: Seq<Ship>, p: Position) -> bool {
    exists|i: int| 0 <= i < ships.len() && ships[i].covers(p)
}

/// No cell is occupied by two of the given ships.
pub open spec fn ships_disjoint(ships: Seq<Ship>) -> bool {
    forall|i: int, j: int, p: Position|
        0 <= i < j < ships.len() && ships[i].covers(p) ==> !ships[j].covers(p)
}

/// A complete fleet: the five kinds in placement order, each placed on
/// distinct in-bounds cells, no two ships overlapping.
pub open spec fn fleet_complete(ships: Seq<Ship>) -> bool {
    &&& ships.len() == 5
    &&& forall|i: int|
        0 <= i < 5 ==> ships[i].kind == fleet_kinds()[i] && ships[i].wf_placed()
    &&& ships_disjoint(ships)
}

/// A cell is among the ships' cells exactly when one of the ships covers it.
pub proof fn lemma_cells_covered(ships: Seq<Ship>, p: Position)
    ensures
        cells_of_ships(ships).contains(p) <==> covered(ships, p),
    decreases ships.len(),
{
    if ships.len() > 0 {
        lemma_cells_covered(ships.drop_last(), p);
        let flat = cells_of_ships(ships);
        let front = cells_of_ships(ships.drop_last());
        if flat.contains(p) {
            let k = choose|k: int| 0 <= k < flat.len() && flat[k] == p;
            if k < front.len() {
                assert(front[k] == p);
                let i = choose|i: int| 0 <= i < ships.drop_last().len() && ships.drop_last()[i].covers(p);
                assert(ships[i] == ships.drop_last()[i]);
            } else {
                assert(ships.last().cells()[k - front.len()] == p);
                assert(ships[ships.len() - 1].covers(p));
            }
        }
        if covered(ships, p) {
            let i = choose|i: int| 0 <= i < ships.len() && ships[i].covers(p);
            if i < ships.len() - 1 {
                assert(ships.drop_last()[i].covers(p));
                let k = choose|k: int| 0 <= k < front.len() && front[k] == p;
                assert(flat[k] == p);
            } else {
                let k = choose|k: int| 0 <= k < ships.last().cells().len() && ships.last().cells()[k]
                    == p;
                assert(flat[front.len() + k] == p);
            }
        }
    }
}

/// Concatenating duplicate-free sequences with no common element stays
/// duplicate-free.
proof fn lemma_concat_no_duplicates(a: Seq<Position>, b: Seq<Position>)
    requires
        a.no_duplicates(),
        b.no_duplicates(),
        forall|p: Position| a.contains(p) ==> !b.contains(p),
    ensures
        (a + b).no_duplicates(),
{
    let c = a + b;
    assert forall|i: int, j: int| 0 <= i < j < c.len() implies c[i] != c[j] by {
        if i < a.len() && j >= a.len() {
            if c[i] == c[j] {
                assert(a.contains(c[i]));
                assert(b[j - a.len()] == c[j]);
                assert(b.contains(c[j]));
            }
        }
    }
}

/// The cells of pairwise-disjoint, well-placed ships hold no duplicates.
pub proof fn lemma_fleet_cells_distinct(ships: Seq<Ship>)
    requires
        forall|i: int| 0 <= i < ships.len() ==> ships[i].wf_placed(),
        ships_disjoint(ships),
    ensures
        cells_of_ships(ships).no_duplicates(),
    decreases ships.len(),
{
    if ships.len() > 0 {
        let front = ships.drop_last();
        let last = ships.last();
        assert forall|i: int, j: int, p: Position|
            0 <= i < j < front.len() && front[i].covers(p) implies !front[j].covers(p) by {
            assert(front[i] == ships[i] && front[j] == ships[j]);
        }
        lemma_fleet_cells_distinct(front);
        assert(last.cells().no_duplicates());
        assert forall|p: Position| cells_of_ships(front).contains(p) implies !last.cells().contains(
            p,
        ) by {
            lemma_cells_covered(front, p);
            if cells_of_ships(front).contains(p) {
                let i = choose|i: int| 0 <= i < front.len() && front[i].covers(p);
                assert(ships[i].covers(p));
                assert(!ships[ships.len() - 1].covers(p));
            }
        }
        lemma_concat_no_duplicates(cells_of_ships(front), last.cells());
    }
}

/// A complete fleet occupies exactly `2 + 3 + 3 + 4 + 5 == 17` distinct
/// cells.
pub proof fn lemma_fleet_completeness(ships: Seq<Ship>)
    requires
        fleet_complete(ships),
    ensures
        cells_of_ships(ships).len() == 17,
        cells_of_ships(ships).no_duplicates(),
        cells_of_ships(ships).to_set().len() == 17,
{
    lemma_fleet_cells_distinct(ships);
    cells_of_ships(ships).unique_seq_to_set();
    let s4 = ships.drop_last();
    let s3 = s4.drop_last();
    let s2 = s3.drop_last();
    let s1 = s2.drop_last();
    let s0 = s1.drop_last();
    assert(s0.len() == 0);
    assert(cells_of_ships(s0).len() == 0);
    assert(s1.last() == ships[0] && spec_size_of_kind(ships[0].kind) == 3);
    assert(cells_of_ships(s1).len() == 3);
    assert(s2.last() == ships[1] && spec_size_of_kind(ships[1].kind) == 2);
    assert(cells_of_ships(s2).len() == 5);
    assert(s3.last() == ships[2] && spec_size_of_kind(ships[2].kind) == 3);
    assert(cells_of_ships(s3).len() == 8);
    assert(s4.last() == ships[3] && spec_size_of_kind(ships[3].kind) == 4);
    assert(cells_of_ships(s4).len() == 12);
    assert(ships.last() == ships[4] && spec_size_of_kind(ships[4].kind) == 5);
}

/// Distinct ships of a disjoint fleet never cover the same cell, so the ship
/// covering a given cell is unique.
pub proof fn lemma_covering_unique(ships: Seq<Ship>, p: Position, i: int, j: int)
    requires
        ships_disjoint(ships),
        0 <= i < ships.len(),
        0 <= j < ships.len(),
        ships[i].covers(p),
        ships[j].covers(p),
    ensures
        i == j,
{
}

/// One side of the match: the ships it owns and the coordinates it has
/// attacked so far.
#[derive(Debug)]
pub struct Player {
    pub ships: Vec<Ship>,
    pub attacks_made: Vec<Position>,
}

impl Player {
    /// A fresh player with no ships and no attacks made.
    pub fn new() -> (p: Player)
        ensures
            p.ships@.len() == 0,
            p.attacks_made@.len() == 0,
    {
        Player { ships: Vec::new(), attacks_made: Vec::new() }
    }

    /// All cells occupied by this player's ships, in placement order.
    pub fn all_ship_positions(&self) -> (r: Vec<Position>)
        ensures
            r@ == cells_of_ships(self.ships@),
    {
        let mut r: Vec<Position> = Vec::new();
        let mut i: usize = 0;
        while i < self.ships.len()
            invariant
                i <= self.ships@.len(),
                r@ == cells_of_ships(self.ships@.take(i as int)),
            decreases self.ships@.len() - i,
        {
            let mut cells = self.ships[i].positions();
            r.append(&mut cells);
            proof {
                assert(self.ships@.take(i + 1).drop_last() =~= self.ships@.take(i as int));
                assert(self.ships@.take(i + 1).last() == self.ships@[i as int]);
            }
            i = i + 1;
        }
        proof {
            assert(self.ships@.take(self.ships@.len() as int) =~= self.ships@);
        }
        r
    }

    /// Appends a ship to the fleet.
    pub fn add_ship(&mut self, ship: Ship)
        ensures
            final(self).ships@ == old(self).ships@.push(ship),
            final(self).attacks_made == old(self).attacks_made,
    {
        self.ships.push(ship)
    }

    /// The player's fleet.
    pub fn ships(&self) -> (r: &Vec<Ship>)
        ensures
            r@ == self.ships@,
    {
        &self.ships
    }

    /// Borrows the ship at the given index.
    pub fn ship_at(&self, i: usize) -> (s: &Ship)
        requires
            i < self.ships@.len(),
        ensures
            *s == self.ships@[i as int],
    {
        &self.ships[i]
    }

    /// Mutably borrows the ship at the given index.
    pub fn ship_at_mut(&mut self, i: usize) -> (s: &mut Ship)
        requires
            i < old(self).ships@.len(),
        ensures
            *s == old(self).ships@[i as int],
            final(self).ships@ == old(self).ships@.update(i as int, *final(s)),
            final(self).attacks_made == old(self).attacks_made,
    {
        &mut self.ships[i]
    }

    /// The index of a ship covering `pos`.
    pub fn find_covering_ship(&self, pos: Position) -> (j: usize)
        requires
            covered(self.ships@, pos),
        ensures
            j < self.ships@.len(),
            self.ships@[j as int].covers(pos),
    {
        let mut j: usize = 0;
        while j < self.ships.len()
            invariant
                j <= self.ships@.len(),
                covered(self.ships@, pos),
                forall|k: int| 0 <= k < j ==> !(#[trigger] self.ships@[k]).covers(pos),
            decreases self.ships@.len() - j,
        {
            if pos.overlaps(&self.ships[j].position) {
                return j;
            }
            j = j + 1;
        }
        proof {
            let i = choose|i: int|
                0 <= i < self.ships@.len() && (#[trigger] self.ships@[i]).covers(pos);
            assert(false);
        }
        0
    }

    /// Whether the fleet holds the five kinds, in placement order.
    pub fn fleet_ready(&self) -> (r: bool)
        ensures
            r == (self.ships@.len() == 5 && forall|i: int|
                0 <= i < 5 ==> self.ships@[i].kind == fleet_kinds()[i]),
    {
        if self.ships.len() != 5 {
            return false;
        }
        let r = self.ships[0].kind == ShipKind::Submarine && self.ships[1].kind
            == ShipKind::Patrol && self.ships[2].kind == ShipKind::Destroyer && self.ships[3].kind
            == ShipKind::Battleship && self.ships[4].kind == ShipKind::Carrier;
        proof {
            assert(fleet_kinds()[0] == ShipKind::Submarine);
            assert(fleet_kinds()[1] == ShipKind::Patrol);
            assert(fleet_kinds()[2] == ShipKind::Destroyer);
            assert(fleet_kinds()[3] == ShipKind::Battleship);
            assert(fleet_kinds()[4] == ShipKind::Carrier);
        }
        r
    }

    /// Records a coordinate this player has attacked.
    pub fn record_attack(&mut self, pos: Position)
        ensures
            final(self).attacks_made@ == old(self).attacks_made@.push(pos),
            final(self).ships == old(self).ships,
    {
        self.attacks_made.push(pos)
    }
}

} // verus!
