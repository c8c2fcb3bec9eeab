//! The match: two players, their four boards, placement, attack resolution
//! and win detection.

use crate::board::{
    cell_index, count_cells, is_attack_board_cell, is_damaged_cell, is_ship_board_cell,
    lemma_count_cells_update, lemma_count_zero_iff_none, lemma_index_injective,
    lemma_index_of_position, lemma_position_of_index, position_of, some_cell_is, Board, BoardCell,
};
use crate::player::{
    cells_of_ships, covered, fleet_complete, fleet_kinds, lemma_cells_covered, ships_disjoint,
    Player,
};
use crate::position::{Position, ShipOrientation, GRID_SIZE};
use crate::ship::{
    damaged_count, run_cell, spec_size_of_kind, status_for_hits, Ship, ShipKind,
};
use vstd::prelude::*;

verus! {

/// The two competing sides.
#[derive(Clone, Copy, Debug, PartialEq, Eq, Structural)]
pub enum PlayerID {
    P1,
    P2,
}

/// The side a given side plays against.
pub open spec fn opponent(id: PlayerID) -> PlayerID {
    match id {
        PlayerID::P1 => PlayerID::P2,
        PlayerID::P2 => PlayerID::P1,
    }
}

/// Overall state of the match. `Complete` carries the winning side and is
/// terminal.
#[derive(Clone, Copy, Debug, PartialEq, Eq, Structural)]
pub enum GameStatus {
    NotStarted,
    InProgress,
    Complete(PlayerID),
}

/// What one attack produced.
#[derive(Clone, Copy, Debug, PartialEq, Eq, Structural)]
pub enum AttackOutcome {
    Hit,
    Miss,
}

/// Why a request was rejected: the coordinate lies off the grid, the match is
/// in the wrong phase for the request (including repeating an attack), or
/// automated placement gave up after its attempt bound.
#[derive(Clone, Copy, Debug, PartialEq, Eq, Structural)]
pub enum GameError {
    InvalidCoordinate,
    InvalidState,
    PlacementExhausted,
}

/// How often automated placement retries one ship before failing loudly.
pub const PLACEMENT_ATTEMPT_LIMIT: u32 = 10000;

/// How often automated targeting samples at random before falling back to a
/// scan of the board.
pub const TARGET_SAMPLE_LIMIT: u32 = 10000;

/// A side's ship board matches its fleet: every ship is placed on distinct
/// in-bounds cells, no two ships overlap, a square is non-`Empty` exactly
/// where a ship lies, and each ship's damage state agrees with the board.
pub open spec fn side_wf(player: Player, sb: Board) -> bool {
    &&& sb.wf()
    &&& forall|k: int| 0 <= k < 100 ==> is_ship_board_cell(#[trigger] sb@[k])
    &&& forall|i: int|
        0 <= i < player.ships@.len() ==> (#[trigger] player.ships@[i]).wf_placed()
            && player.ships@[i].status_consistent(sb@)
    &&& ships_disjoint(player.ships@)
    &&& forall|p: Position|
        p.in_bounds() ==> (#[trigger] sb.cell(p) != BoardCell::Empty <==> covered(
            player.ships@,
            p,
        ))
}

/// A side's attack board matches its attack history: a square is non-`Empty`
/// exactly where the side has attacked, and no coordinate was attacked twice.
pub open spec fn attacks_wf(player: Player, ab: Board) -> bool {
    &&& ab.wf()
    &&& forall|k: int| 0 <= k < 100 ==> is_attack_board_cell(#[trigger] ab@[k])
    &&& forall|i: int|
        0 <= i < player.attacks_made@.len() ==> (#[trigger] player.attacks_made@[i]).in_bounds()
    &&& player.attacks_made@.no_duplicates()
    &&& forall|p: Position|
        p.in_bounds() ==> (#[trigger] ab.cell(p) != BoardCell::Empty
            <==> player.attacks_made@.contains(p))
}

/// One side's attack board agrees with the opposing ship board: a shot is
/// recorded successful exactly where the opponent's ship board records a hit,
/// and a failed shot lies on water.
pub open spec fn cross_wf(ab: Board, sb: Board) -> bool {
    &&& forall|p: Position|
        p.in_bounds() ==> (#[trigger] ab.cell(p) == BoardCell::SuccessfulAttack
            <==> is_damaged_cell(sb.cell(p)))
    &&& forall|p: Position|
        p.in_bounds() ==> (#[trigger] ab.cell(p) == BoardCell::FailedAttack ==> sb.cell(p)
            == BoardCell::Empty)
}

/// Whether a ship of the given kind, anchored at `pos` along `orient`, may be
/// placed beside the ships already present: every generated cell lies on the
/// grid and none is already occupied.
pub open spec fn can_place(
    ships: Seq<Ship>,
    kind: ShipKind,
    pos: Position,
    orient: ShipOrientation,
) -> bool {
    &&& pos.in_bounds()
    &&& forall|i: int|
        0 <= i < spec_size_of_kind(kind) ==> (#[trigger] run_cell(pos, orient, i)).in_bounds()
    &&& forall|i: int|
        0 <= i < spec_size_of_kind(kind) ==> !covered(ships, #[trigger] run_cell(pos, orient, i))
}

/// What a successful placement does: one fresh, undamaged ship of the given
/// kind is appended to the side's fleet, its cells are written as `Ship` onto
/// that side's ship board, and nothing else changes.
pub open spec fn placement_applied(
    old_g: GameState,
    new_g: GameState,
    id: PlayerID,
    kind: ShipKind,
    pos: Position,
    orient: ShipOrientation,
) -> bool {
    let old_ships = old_g.spec_player(id).ships@;
    let new_ships = new_g.spec_player(id).ships@;
    let old_sb = old_g.spec_ship_board(id);
    let new_sb = new_g.spec_ship_board(id);
    let size = spec_size_of_kind(kind);
    &&& new_ships.len() == old_ships.len() + 1
    &&& forall|k: int| 0 <= k < old_ships.len() ==> new_ships[k] == old_ships[k]
    &&& new_ships.last().kind == kind
    &&& new_ships.last().size == size
    &&& new_ships.last().status is Undamaged
    &&& new_ships.last().cells().len() == size as int
    &&& forall|i: int|
        0 <= i < size ==> new_ships.last().cells()[i] == run_cell(pos, orient, i)
    &&& new_g.spec_player(id).attacks_made == old_g.spec_player(id).attacks_made
    &&& new_sb.wf()
    &&& forall|q: Position|
        q.in_bounds() ==> new_sb.cell(q) == (if new_ships.last().covers(q) {
            BoardCell::Ship
        } else {
            old_sb.cell(q)
        })
    &&& forall|k: int|
        0 <= k < 100 ==> new_sb@[k] == (if new_ships.last().covers(position_of(k)) {
            BoardCell::Ship
        } else {
            old_sb@[k]
        })
    &&& new_g.spec_player(opponent(id)) == old_g.spec_player(opponent(id))
    &&& new_g.spec_ship_board(opponent(id)) == old_g.spec_ship_board(opponent(id))
    &&& new_g.spec_attack_board(PlayerID::P1) == old_g.spec_attack_board(PlayerID::P1)
    &&& new_g.spec_attack_board(PlayerID::P2) == old_g.spec_attack_board(PlayerID::P2)
    &&& new_g.status == old_g.status
}

/// A fresh attack is admissible: the match is running, the coordinate lies on
/// the grid and the attacker has not fired there before.
pub open spec fn fresh_attack_allowed(g: GameState, attacker: PlayerID, pos: Position) -> bool {
    &&& g.status is InProgress
    &&& pos.in_bounds()
    &&& g.spec_attack_board(attacker).cell(pos) == BoardCell::Empty
}

/// What a hit at `pos` does to the defender's fleet and ship board, where `j`
/// is the index of the ship covering `pos`: the square is marked
/// `DamagedShip`, the ship's hit count is re-derived from the board, and a
/// fully hit ship is recolored `DestroyedShip` on every one of its cells.
pub open spec fn hit_applied_at(
    old_ships: Seq<Ship>,
    new_ships: Seq<Ship>,
    old_b: Seq<BoardCell>,
    new_b: Seq<BoardCell>,
    pos: Position,
    j: int,
) -> bool {
    let b1 = old_b.update(cell_index(pos), BoardCell::DamagedShip);
    let hits = damaged_count(b1, old_ships[j].cells());
    let destroyed = hits >= old_ships[j].size;
    &&& new_ships.len() == old_ships.len()
    &&& forall|k: int| 0 <= k < new_ships.len() && k != j ==> new_ships[k] == old_ships[k]
    &&& new_ships[j].kind == old_ships[j].kind
    &&& new_ships[j].size == old_ships[j].size
    &&& new_ships[j].cells() == old_ships[j].cells()
    &&& new_ships[j].status == status_for_hits(hits, old_ships[j].size)
    &&& new_b.len() == old_b.len()
    &&& forall|q: Position|
        q.in_bounds() ==> new_b[cell_index(q)] == (if destroyed && old_ships[j].covers(q) {
            BoardCell::DestroyedShip
        } else if q == pos {
            BoardCell::DamagedShip
        } else {
            old_b[cell_index(q)]
        })
}

/// What a hit at `pos` does, for the (unique) ship covering `pos`.
pub open spec fn hit_applied(
    old_ships: Seq<Ship>,
    new_ships: Seq<Ship>,
    old_b: Seq<BoardCell>,
    new_b: Seq<BoardCell>,
    pos: Position,
) -> bool {
    exists|j: int|
        0 <= j < old_ships.len() && (#[trigger] old_ships[j]).covers(pos) && hit_applied_at(
            old_ships,
            new_ships,
            old_b,
            new_b,
            pos,
            j,
        )
}

/// What one resolved attack does to the whole match: the attacker's attack
/// board is marked at `pos` (successful exactly on a hit), the coordinate is
/// recorded in the attacker's history, the defender's ship board and fleet
/// take the hit, and nothing else changes. Match status is untouched: win
/// detection is a separate step.
pub open spec fn attack_transition(
    old_g: GameState,
    new_g: GameState,
    attacker: PlayerID,
    pos: Position,
    outcome: AttackOutcome,
) -> bool {
    let defender = opponent(attacker);
    &&& fresh_attack_allowed(old_g, attacker, pos)
    &&& new_g.status == old_g.status
    &&& new_g.spec_player(attacker).attacks_made@ == old_g.spec_player(
        attacker,
    ).attacks_made@.push(pos)
    &&& new_g.spec_player(attacker).ships == old_g.spec_player(attacker).ships
    &&& new_g.spec_ship_board(attacker) == old_g.spec_ship_board(attacker)
    &&& new_g.spec_attack_board(defender) == old_g.spec_attack_board(defender)
    &&& new_g.spec_player(defender).attacks_made == old_g.spec_player(defender).attacks_made
    &&& (outcome is Hit <==> old_g.spec_ship_board(defender).cell(pos) == BoardCell::Ship)
    &&& new_g.spec_attack_board(attacker)@ == old_g.spec_attack_board(attacker)@.update(
        cell_index(pos),
        if outcome is Hit {
            BoardCell::SuccessfulAttack
        } else {
            BoardCell::FailedAttack
        },
    )
    &&& (outcome is Miss ==> new_g.spec_ship_board(defender)@ == old_g.spec_ship_board(defender)@
        && new_g.spec_player(defender).ships == old_g.spec_player(defender).ships)
    &&& (outcome is Hit ==> hit_applied(
        old_g.spec_player(defender).ships@,
        new_g.spec_player(defender).ships@,
        old_g.spec_ship_board(defender)@,
        new_g.spec_ship_board(defender)@,
        pos,
    ))
}

/// Appending a coordinate not yet in a duplicate-free history keeps it
/// duplicate-free.
proof fn lemma_push_no_duplicates(s: Seq<Position>, p: Position)
    requires
        s.no_duplicates(),
        !s.contains(p),
    ensures
        s.push(p).no_duplicates(),
{
    let t = s.push(p);
    assert forall|i: int, j: int| 0 <= i < j < t.len() implies t[i] != t[j] by {
        if j == s.len() {
            if t[i] == p {
                assert(s[i] == p);
                assert(s.contains(p));
            }
        }
    }
}

/// A valid placement applied to a well-formed, not yet started match keeps
/// the match invariant.
proof fn lemma_place_preserves_wf(
    old_g: GameState,
    new_g: GameState,
    id: PlayerID,
    kind: ShipKind,
    pos: Position,
    orient: ShipOrientation,
)
    requires
        old_g.wf(),
        old_g.status is NotStarted,
        can_place(old_g.spec_player(id).ships@, kind, pos, orient),
        placement_applied(old_g, new_g, id, kind, pos, orient),
    ensures
        new_g.wf(),
{
    let old_ships = old_g.spec_player(id).ships@;
    let new_ships = new_g.spec_player(id).ships@;
    let old_sb = old_g.spec_ship_board(id);
    let new_sb = new_g.spec_ship_board(id);
    let s = new_ships.last();
    let size = spec_size_of_kind(kind);
    assert(2 <= size <= 5);

    // the fresh ship is well placed: its cells are distinct and in bounds
    assert forall|i: int| 0 <= i < s.cells().len() implies (#[trigger] s.cells()[i]).in_bounds() by {
        assert(s.cells()[i] == run_cell(pos, orient, i));
    }
    assert forall|a: int, b: int| 0 <= a < b < s.cells().len() implies s.cells()[a]
        != s.cells()[b] by {
        assert(s.cells()[a] == run_cell(pos, orient, a));
        assert(s.cells()[b] == run_cell(pos, orient, b));
        assert(pos.x + a <= 14 && pos.y + a <= 14 && pos.x + b <= 14 && pos.y + b <= 14);
    }
    assert(s.wf_placed());

    // squares not under the fresh ship keep their classification, so the
    // older ships keep their damage bookkeeping
    assert forall|k: int|
        0 <= k < old_ships.len() implies (#[trigger] new_ships[k]).wf_placed()
            && new_ships[k].status_consistent(new_sb@) by {
        assert(new_ships[k] == old_ships[k]);
        assert(old_ships[k].wf_placed());
        assert forall|c: int| 0 <= c < old_ships[k].cells().len() implies new_sb@[cell_index(
            #[trigger] old_ships[k].cells()[c],
        )] == old_sb@[cell_index(old_ships[k].cells()[c])] by {
            let q = old_ships[k].cells()[c];
            if s.covers(q) {
                let i = choose|i: int| 0 <= i < s.cells().len() && s.cells()[i] == q;
                assert(s.cells()[i] == run_cell(pos, orient, i));
                assert(old_ships[k].covers(q));
                assert(covered(old_ships, run_cell(pos, orient, i)));
            }
        }
        crate::ship::lemma_damaged_count_congruence(old_sb@, new_sb@, old_ships[k].cells());
    }

    // the fresh ship starts undamaged and every one of its squares says Ship
    assert forall|c: int| 0 <= c < s.cells().len() implies !is_damaged_cell(
        new_sb@[cell_index(#[trigger] s.cells()[c])],
    ) by {
        assert(s.covers(s.cells()[c]));
    }
    crate::ship::lemma_damaged_count_zero(new_sb@, s.cells());
    assert(s.status_consistent(new_sb@));

    // disjointness extends to the fresh ship
    assert forall|i: int, j: int, p: Position|
        #![trigger new_ships[i].covers(p), new_ships[j].covers(p)]
        0 <= i < j < new_ships.len() && new_ships[i].covers(p) implies !new_ships[j].covers(
        p,
    ) by {
        if j < old_ships.len() {
            assert(new_ships[i] == old_ships[i] && new_ships[j] == old_ships[j]);
        } else {
            assert(new_ships[i] == old_ships[i]);
            if new_ships[j].covers(p) {
                let c = choose|c: int| 0 <= c < s.cells().len() && s.cells()[c] == p;
                assert(s.cells()[c] == run_cell(pos, orient, c));
                assert(covered(old_ships, run_cell(pos, orient, c)));
            }
        }
    }

    // a square is occupied exactly where some ship now lies
    assert forall|p: Position| p.in_bounds() implies (#[trigger] new_sb.cell(p)
        != BoardCell::Empty <==> covered(new_ships, p)) by {
        if s.covers(p) {
            assert(new_ships[new_ships.len() - 1].covers(p));
        } else {
            if covered(new_ships, p) {
                let i = choose|i: int| 0 <= i < new_ships.len() && new_ships[i].covers(p);
                assert(i < old_ships.len());
                assert(old_ships[i].covers(p));
                assert(covered(old_ships, p));
            }
            if covered(old_ships, p) {
                let i = choose|i: int| 0 <= i < old_ships.len() && old_ships[i].covers(p);
                assert(new_ships[i].covers(p));
            }
        }
    }

    // before the match starts no shot is on any attack board, so the boards
    // of opposing sides still agree
    let oab = old_g.spec_attack_board(opponent(id));
    assert forall|p: Position| p.in_bounds() implies #[trigger] oab.cell(p)
        == BoardCell::Empty by {
        assert(!old_g.spec_player(opponent(id)).attacks_made@.contains(p));
    }
    assert forall|p: Position| p.in_bounds() implies !is_damaged_cell(
        #[trigger] new_sb.cell(p),
    ) by {
        if !s.covers(p) {
            assert(new_sb.cell(p) == old_sb.cell(p));
            assert(oab.cell(p) != BoardCell::SuccessfulAttack);
        }
    }
    assert(cross_wf(new_g.spec_attack_board(opponent(id)), new_g.spec_ship_board(id)));
    assert(side_wf(new_g.spec_player(id), new_g.spec_ship_board(id)));
    assert(new_g.spec_player(id).attacks_made@ == old_g.spec_player(id).attacks_made@);
    assert(attacks_wf(new_g.spec_player(id), new_g.spec_attack_board(id)));
}

/// A fleet stays complete when only the ships' damage states change.
proof fn lemma_fleet_complete_preserved(old_ships: Seq<Ship>, new_ships: Seq<Ship>)
    requires
        fleet_complete(old_ships),
        new_ships.len() == old_ships.len(),
        forall|i: int|
            0 <= i < new_ships.len() ==> (#[trigger] new_ships[i]).kind == old_ships[i].kind
                && new_ships[i].size == old_ships[i].size && new_ships[i].cells()
                == old_ships[i].cells(),
    ensures
        fleet_complete(new_ships),
{
    assert forall|i: int|
        0 <= i < 5 implies (#[trigger] new_ships[i]).kind == fleet_kinds()[i]
            && new_ships[i].wf_placed() by {
        assert(old_ships[i].wf_placed());
        assert(new_ships[i].cells() == old_ships[i].cells());
    }
    assert forall|i: int, j: int, p: Position|
        #![trigger new_ships[i].covers(p), new_ships[j].covers(p)]
        0 <= i < j < new_ships.len() && new_ships[i].covers(p) implies !new_ships[j].covers(
        p,
    ) by {
        assert(new_ships[i].cells() == old_ships[i].cells());
        assert(new_ships[j].cells() == old_ships[j].cells());
        assert(old_ships[i].covers(p));
    }
}

/// A hit resolved against a well-formed side keeps that side's ship board and
/// fleet in agreement, changes no square's emptiness, and changes which
/// squares record hits only at the point of impact.
proof fn lemma_hit_preserves_side(
    old_ships: Seq<Ship>,
    new_ships: Seq<Ship>,
    old_b: Seq<BoardCell>,
    new_b: Seq<BoardCell>,
    pos: Position,
    j: int,
)
    requires
        old_b.len() == 100,
        forall|k: int| 0 <= k < 100 ==> is_ship_board_cell(#[trigger] old_b[k]),
        forall|i: int|
            0 <= i < old_ships.len() ==> (#[trigger] old_ships[i]).wf_placed()
                && old_ships[i].status_consistent(old_b),
        ships_disjoint(old_ships),
        forall|p: Position|
            p.in_bounds() ==> ((#[trigger] old_b[cell_index(p)]) != BoardCell::Empty <==> covered(
                old_ships,
                p,
            )),
        pos.in_bounds(),
        old_b[cell_index(pos)] == BoardCell::Ship,
        0 <= j < old_ships.len(),
        old_ships[j].covers(pos),
        hit_applied_at(old_ships, new_ships, old_b, new_b, pos, j),
    ensures
        new_b.len() == 100,
        forall|k: int| 0 <= k < 100 ==> is_ship_board_cell(#[trigger] new_b[k]),
        forall|i: int|
            0 <= i < new_ships.len() ==> (#[trigger] new_ships[i]).wf_placed()
                && new_ships[i].status_consistent(new_b),
        ships_disjoint(new_ships),
        forall|p: Position|
            p.in_bounds() ==> ((#[trigger] new_b[cell_index(p)]) != BoardCell::Empty <==> covered(
                new_ships,
                p,
            )),
        forall|q: Position|
            q.in_bounds() && q != pos ==> is_damaged_cell(#[trigger] new_b[cell_index(q)])
                == is_damaged_cell(old_b[cell_index(q)]),
        is_damaged_cell(new_b[cell_index(pos)]),
        forall|q: Position|
            q.in_bounds() ==> ((#[trigger] new_b[cell_index(q)] == BoardCell::Empty) == (
            old_b[cell_index(q)] == BoardCell::Empty)),
{
    let sj = old_ships[j];
    let cells_j = sj.cells();
    let b1 = old_b.update(cell_index(pos), BoardCell::DamagedShip);
    let h = damaged_count(b1, cells_j);
    let destroyed = h >= sj.size;
    lemma_index_of_position(pos);
    crate::ship::lemma_damaged_count_le_len(b1, cells_j);
    crate::ship::lemma_damaged_count_full(b1, cells_j);

    // the covering ship had not been destroyed before this hit
    assert(!(sj.status is Destroyed)) by {
        if sj.status is Destroyed {
            let c = choose|c: int| 0 <= c < cells_j.len() && cells_j[c] == pos;
            assert(old_b[cell_index(cells_j[c])] == BoardCell::DestroyedShip);
        }
    }

    // pointwise: how the board changed, and what stays the same
    assert forall|q: Position| q.in_bounds() implies is_damaged_cell(
        #[trigger] new_b[cell_index(q)],
    ) == is_damaged_cell(b1[cell_index(q)]) && ((new_b[cell_index(q)] == BoardCell::Empty) == (
    b1[cell_index(q)] == BoardCell::Empty)) by {
        lemma_index_of_position(q);
        if q != pos {
            lemma_index_injective(pos, q);
        }
        if destroyed && sj.covers(q) {
            let c = choose|c: int| 0 <= c < cells_j.len() && cells_j[c] == q;
            assert(is_damaged_cell(b1[cell_index(cells_j[c])]));
        }
    }
    assert forall|q: Position|
        q.in_bounds() && q != pos implies is_damaged_cell(#[trigger] new_b[cell_index(q)])
            == is_damaged_cell(old_b[cell_index(q)]) && ((new_b[cell_index(q)]
            == BoardCell::Empty) == (old_b[cell_index(q)] == BoardCell::Empty)) by {
        lemma_index_injective(pos, q);
    }

    // the board still holds only ship-board classifications
    assert forall|k: int| 0 <= k < 100 implies is_ship_board_cell(#[trigger] new_b[k]) by {
        lemma_position_of_index(k);
        let q = position_of(k);
        assert(new_b[cell_index(q)] == new_b[k]);
    }

    // ships cover the same squares as before
    assert forall|i: int, p: Position| #![trigger new_ships[i].covers(p)]
        0 <= i < new_ships.len() implies new_ships[i].covers(p) == old_ships[i].covers(p) by {
        assert(new_ships[i].cells() == old_ships[i].cells());
    }
    assert forall|p: Position| #![trigger covered(new_ships, p)]
        covered(new_ships, p) == covered(old_ships, p) by {
        if covered(new_ships, p) {
            let i = choose|i: int| 0 <= i < new_ships.len() && (#[trigger] new_ships[i]).covers(p);
            assert(old_ships[i].covers(p));
        }
        if covered(old_ships, p) {
            let i = choose|i: int| 0 <= i < old_ships.len() && (#[trigger] old_ships[i]).covers(p);
            assert(new_ships[i].covers(p));
        }
    }
    assert forall|i: int, j2: int, p: Position|
        #![trigger new_ships[i].covers(p), new_ships[j2].covers(p)]
        0 <= i < j2 < new_ships.len() && new_ships[i].covers(p) implies !new_ships[j2].covers(
        p,
    ) by {
        assert(old_ships[i].covers(p));
    }

    // each ship's damage state still agrees with the board
    assert forall|i: int|
        0 <= i < new_ships.len() implies (#[trigger] new_ships[i]).wf_placed()
            && new_ships[i].status_consistent(new_b) by {
        if i != j {
            assert(new_ships[i] == old_ships[i]);
            let cells_i = old_ships[i].cells();
            assert forall|c: int| 0 <= c < cells_i.len() implies new_b[cell_index(
                #[trigger] cells_i[c],
            )] == old_b[cell_index(cells_i[c])] by {
                let q = cells_i[c];
                assert(old_ships[i].covers(q));
                if q == pos || sj.covers(q) {
                    assert(old_ships[i].covers(q) && old_ships[j].covers(q));
                    crate::player::lemma_covering_unique(old_ships, q, i, j);
                }
                lemma_index_injective(pos, q);
            }
            assert forall|c: int| 0 <= c < cells_i.len() implies is_damaged_cell(
                new_b[cell_index(#[trigger] cells_i[c])],
            ) == is_damaged_cell(old_b[cell_index(cells_i[c])]) by {}
            crate::ship::lemma_damaged_count_congruence(old_b, new_b, cells_i);
        } else {
            assert(new_ships[j].wf_placed()) by {
                assert(new_ships[j].cells() == cells_j);
                assert(old_ships[j].wf_placed());
            }
            assert forall|c: int| 0 <= c < cells_j.len() implies is_damaged_cell(
                new_b[cell_index(#[trigger] cells_j[c])],
            ) == is_damaged_cell(b1[cell_index(cells_j[c])]) by {
                assert(cells_j[c].in_bounds());
            }
            assert(new_ships[j].cells() == cells_j);
            crate::ship::lemma_damaged_count_congruence(b1, new_b, cells_j);
            assert(damaged_count(new_b, new_ships[j].cells()) == h);
            if destroyed {
                assert(h == sj.size);
                assert forall|c: int| 0 <= c < cells_j.len() implies new_b[cell_index(
                    #[trigger] cells_j[c],
                )] == BoardCell::DestroyedShip by {
                    assert(sj.covers(cells_j[c]));
                    assert(cells_j[c].in_bounds());
                }
            } else {
                assert forall|c: int| 0 <= c < cells_j.len() implies (new_b[cell_index(
                    #[trigger] cells_j[c],
                )] == BoardCell::Ship || new_b[cell_index(cells_j[c])]
                    == BoardCell::DamagedShip) by {
                    let q = cells_j[c];
                    assert(q.in_bounds());
                    if q != pos {
                        lemma_index_injective(pos, q);
                        assert(old_b[cell_index(q)] == BoardCell::Ship || old_b[cell_index(q)]
                            == BoardCell::DamagedShip);
                    }
                }
            }
        }
    }

    // a square is occupied exactly where some ship lies, as before
    assert forall|p: Position| p.in_bounds() implies ((#[trigger] new_b[cell_index(p)])
        != BoardCell::Empty <==> covered(new_ships, p)) by {
        assert((new_b[cell_index(p)] == BoardCell::Empty) == (old_b[cell_index(p)]
            == BoardCell::Empty));
    }
}

/// Bounds invariant: in a well-formed match, every occupied coordinate of
/// every placed ship lies on the grid.
pub proof fn lemma_placed_in_bounds(g: GameState)
    requires
        g.wf(),
    ensures
        forall|id: PlayerID, i: int, c: int|
            0 <= i < g.spec_player(id).ships@.len() && 0 <= c < g.spec_player(
                id,
            ).ships@[i].cells().len() ==> (#[trigger] g.spec_player(id).ships@[i].cells()[c]).in_bounds(),
{
    assert forall|id: PlayerID, i: int, c: int|
        0 <= i < g.spec_player(id).ships@.len() && 0 <= c < g.spec_player(
            id,
        ).ships@[i].cells().len() implies (#[trigger] g.spec_player(
        id,
    ).ships@[i].cells()[c]).in_bounds() by {
        assert(g.spec_player(id).ships@[i].wf_placed());
    }
}

/// Win detection: a side's ship board has no square classified `Ship` left
/// exactly when every cell of every one of its ships is marked as hit — so
/// `check_winner` completes the match at the deciding attack and not before.
pub proof fn lemma_win_detection(player: Player, sb: Board)
    requires
        side_wf(player, sb),
    ensures
        (forall|i: int, c: int|
            0 <= i < player.ships@.len() && 0 <= c < player.ships@[i].cells().len()
                ==> is_damaged_cell(sb.cell(#[trigger] player.ships@[i].cells()[c]))) <==> !some_cell_is(
            sb@,
            BoardCell::Ship,
        ),
{
    let ships = player.ships@;
    if forall|i: int, c: int|
        0 <= i < ships.len() && 0 <= c < ships[i].cells().len() ==> is_damaged_cell(
            sb.cell(#[trigger] ships[i].cells()[c]),
        ) {
        if some_cell_is(sb@, BoardCell::Ship) {
            let p = choose|p: Position| p.in_bounds() && sb@[cell_index(p)] == BoardCell::Ship;
            assert(sb.cell(p) != BoardCell::Empty);
            assert(covered(ships, p));
            let i = choose|i: int| 0 <= i < ships.len() && (#[trigger] ships[i]).covers(p);
            let c = choose|c: int| 0 <= c < ships[i].cells().len() && ships[i].cells()[c] == p;
            assert(is_damaged_cell(sb.cell(ships[i].cells()[c])));
            assert(false);
        }
    }
    if !some_cell_is(sb@, BoardCell::Ship) {
        assert forall|i: int, c: int|
            0 <= i < ships.len() && 0 <= c < ships[i].cells().len() implies is_damaged_cell(
            sb.cell(#[trigger] ships[i].cells()[c]),
        ) by {
            let q = ships[i].cells()[c];
            assert(ships[i].wf_placed());
            assert(q.in_bounds());
            assert(ships[i].covers(q));
            assert(covered(ships, q)) by {
                assert(0 <= i < ships.len() && ships[i].covers(q));
            }
            assert(sb.cell(q) != BoardCell::Empty);
            lemma_index_of_position(q);
            assert(is_ship_board_cell(sb@[cell_index(q)]));
            assert(sb@[cell_index(q)] != BoardCell::Ship);
        }
    }
}

/// Attack idempotence: once an attack has been resolved at a coordinate, a
/// further attack there is no longer admissible — `attack` then rejects it
/// with `InvalidState` and leaves the match unchanged.
pub proof fn lemma_no_repeat_attack(
    old_g: GameState,
    new_g: GameState,
    attacker: PlayerID,
    pos: Position,
    outcome: AttackOutcome,
)
    requires
        old_g.spec_attack_board(attacker).wf(),
        attack_transition(old_g, new_g, attacker, pos, outcome),
    ensures
        !fresh_attack_allowed(new_g, attacker, pos),
{
    lemma_index_of_position(pos);
}

/// Termination of automated targeting: each resolved attack turns exactly one
/// previously untouched square of the attacker's board non-`Empty`, so the
/// search space of `randomly_attack` strictly shrinks and the whole grid is
/// visited after at most one attack per square.
pub proof fn lemma_attack_shrinks_search(
    old_g: GameState,
    new_g: GameState,
    attacker: PlayerID,
    pos: Position,
    outcome: AttackOutcome,
)
    requires
        old_g.spec_attack_board(attacker).wf(),
        attack_transition(old_g, new_g, attacker, pos, outcome),
    ensures
        count_cells(new_g.spec_attack_board(attacker)@, BoardCell::Empty) + 1 == count_cells(
            old_g.spec_attack_board(attacker)@,
            BoardCell::Empty,
        ),
        new_g.spec_attack_board(attacker).cell(pos) != BoardCell::Empty,
{
    lemma_index_of_position(pos);
    let v = if outcome is Hit {
        BoardCell::SuccessfulAttack
    } else {
        BoardCell::FailedAttack
    };
    lemma_count_cells_update(
        old_g.spec_attack_board(attacker)@,
        BoardCell::Empty,
        cell_index(pos),
        v,
    );
}

/// The match: both players, one ship board and one attack board per side, and
/// the overall status.
#[derive(Debug)]
pub struct GameState {
    pub player_one: Player,
    pub player_two: Player,
    pub ship_board_one: Board,
    pub ship_board_two: Board,
    pub attack_board_one: Board,
    pub attack_board_two: Board,
    pub status: GameStatus,
}

impl GameState {
    /// The player of the given side.
    pub open spec fn spec_player(self, id: PlayerID) -> Player {
        match id {
            PlayerID::P1 => self.player_one,
            PlayerID::P2 => self.player_two,
        }
    }

    /// The ship board of the given side.
    pub open spec fn spec_ship_board(self, id: PlayerID) -> Board {
        match id {
            PlayerID::P1 => self.ship_board_one,
            PlayerID::P2 => self.ship_board_two,
        }
    }

    /// The attack board of the given side.
    pub open spec fn spec_attack_board(self, id: PlayerID) -> Board {
        match id {
            PlayerID::P1 => self.attack_board_one,
            PlayerID::P2 => self.attack_board_two,
        }
    }

    /// The match invariant: every board matches its fleet and its attack
    /// history, the boards of opposing sides agree, fleets are complete once
    /// the match has started, and no shot is recorded before it starts.
    pub open spec fn wf(self) -> bool {
        &&& side_wf(self.player_one, self.ship_board_one)
        &&& side_wf(self.player_two, self.ship_board_two)
        &&& attacks_wf(self.player_one, self.attack_board_one)
        &&& attacks_wf(self.player_two, self.attack_board_two)
        &&& cross_wf(self.attack_board_one, self.ship_board_two)
        &&& cross_wf(self.attack_board_two, self.ship_board_one)
        &&& !(self.status is NotStarted) ==> fleet_complete(self.player_one.ships@)
            && fleet_complete(self.player_two.ships@)
        &&& self.status is NotStarted ==> self.player_one.attacks_made@.len() == 0
            && self.player_two.attacks_made@.len() == 0
    }

    /// A fresh match: no ships placed, no shots recorded, status `NotStarted`.
    pub fn initialize() -> (g: GameState)
        ensures
            g.wf(),
            g.status is NotStarted,
            g.player_one.ships@.len() == 0,
            g.player_two.ships@.len() == 0,
            g.player_one.attacks_made@.len() == 0,
            g.player_two.attacks_made@.len() == 0,
            forall|p: Position| p.in_bounds() ==> g.ship_board_one.cell(p) == BoardCell::Empty,
            forall|p: Position| p.in_bounds() ==> g.ship_board_two.cell(p) == BoardCell::Empty,
            forall|p: Position| p.in_bounds() ==> g.attack_board_one.cell(p) == BoardCell::Empty,
            forall|p: Position| p.in_bounds() ==> g.attack_board_two.cell(p) == BoardCell::Empty,
    {
        let g = GameState {
            player_one: Player::new(),
            player_two: Player::new(),
            ship_board_one: Board::new(),
            ship_board_two: Board::new(),
            attack_board_one: Board::new(),
            attack_board_two: Board::new(),
            status: GameStatus::NotStarted,
        };
        g
    }

    /// The overall status of the match.
    pub fn status(&self) -> (s: GameStatus)
        ensures
            s == self.status,
    {
        self.status
    }

    /// Read-only snapshot of one side's ship board, for rendering.
    pub fn ship_board(&self, id: PlayerID) -> (b: &Board)
        ensures
            *b == self.spec_ship_board(id),
    {
        match id {
            PlayerID::P1 => &self.ship_board_one,
            PlayerID::P2 => &self.ship_board_two,
        }
    }

    /// Read-only snapshot of one side's attack board, for rendering.
    pub fn attack_board(&self, id: PlayerID) -> (b: &Board)
        ensures
            *b == self.spec_attack_board(id),
    {
        match id {
            PlayerID::P1 => &self.attack_board_one,
            PlayerID::P2 => &self.attack_board_two,
        }
    }

    /// Attempts to place one ship for the given side: generates the ship's
    /// cells from the anchor and orientation, validates that every cell lies
    /// on the grid and that none is already occupied by that side, and only
    /// on success commits the ship to the fleet and its cells, as `Ship`, to
    /// that side's ship board. Placement is only allowed before the match
    /// starts.
    pub fn try_place_ship(
        &mut self,
        id: PlayerID,
        kind: ShipKind,
        pos: Position,
        orient: ShipOrientation,
    ) -> (placed: bool)
        requires
            old(self).wf(),
            old(self).status is NotStarted,
        ensures
            final(self).wf(),
            final(self).status is NotStarted,
            placed == can_place(old(self).spec_player(id).ships@, kind, pos, orient),
            !placed ==> *final(self) == *old(self),
            placed ==> placement_applied(*old(self), *final(self), id, kind, pos, orient),
    {
        proof {
            assert(2 <= spec_size_of_kind(kind) <= 5);
        }
        if pos.x >= GRID_SIZE || pos.y >= GRID_SIZE {
            proof {
                assert(run_cell(pos, orient, 0) == pos);
            }
            return false;
        }
        let mut ship = Ship::new(kind);
        ship.place_at(pos, orient);
        let cells = ship.positions();

        let mut within = true;
        let mut i: usize = 0;
        while i < cells.len()
            invariant
                i <= cells@.len(),
                within == forall|k: int| 0 <= k < i ==> (#[trigger] cells@[k]).in_bounds(),
            decreases cells@.len() - i,
        {
            if cells[i].x >= GRID_SIZE || cells[i].y >= GRID_SIZE {
                within = false;
            }
            i = i + 1;
        }

        let occupied = match id {
            PlayerID::P1 => self.player_one.all_ship_positions(),
            PlayerID::P2 => self.player_two.all_ship_positions(),
        };
        let overlap = ship.intersects(&occupied);
        let ghost old_ships = old(self).spec_player(id).ships@;
        proof {
            assert(occupied@ == cells_of_ships(old_ships));
            assert forall|c: Position| #[trigger] occupied@.contains(c) <==> covered(
                old_ships,
                c,
            ) by {
                lemma_cells_covered(old_ships, c);
            }
            if within && !overlap {
                assert forall|k: int|
                    0 <= k < spec_size_of_kind(kind) implies (#[trigger] run_cell(
                    pos,
                    orient,
                    k,
                )).in_bounds() && !covered(old_ships, run_cell(pos, orient, k)) by {
                    assert(cells@[k] == run_cell(pos, orient, k));
                    assert(cells@[k].in_bounds());
                    assert(!occupied@.contains(cells@[k]));
                }
                assert(can_place(old_ships, kind, pos, orient));
            } else {
                if can_place(old_ships, kind, pos, orient) {
                    assert forall|k: int|
                        0 <= k < cells@.len() implies (#[trigger] cells@[k]).in_bounds() by {
                        assert(cells@[k] == run_cell(pos, orient, k));
                    }
                    assert(within);
                    if overlap {
                        let j = choose|j: int|
                            0 <= j < ship.cells().len() && occupied@.contains(
                                #[trigger] ship.cells()[j],
                            );
                        assert(ship.cells()[j] == run_cell(pos, orient, j));
                        assert(covered(old_ships, run_cell(pos, orient, j)));
                        assert(false);
                    }
                }
            }
        }
        if within && !overlap {
            let ghost placed_ship = ship;
            match id {
                PlayerID::P1 => {
                    self.player_one.add_ship(ship);
                    self.ship_board_one.set_cells(&cells, BoardCell::Ship);
                }
                PlayerID::P2 => {
                    self.player_two.add_ship(ship);
                    self.ship_board_two.set_cells(&cells, BoardCell::Ship);
                }
            }
            proof {
                let new_ships = self.spec_player(id).ships@;
                assert(new_ships == old_ships.push(placed_ship));
                assert(new_ships.last() == placed_ship);
                assert(placed_ship.cells() == cells@);
                assert forall|q: Position|
                    q.in_bounds() implies self.spec_ship_board(id).cell(q) == (
                if new_ships.last().covers(q) {
                    BoardCell::Ship
                } else {
                    old(self).spec_ship_board(id).cell(q)
                }) by {}
                assert(placement_applied(*old(self), *self, id, kind, pos, orient));
                lemma_place_preserves_wf(*old(self), *self, id, kind, pos, orient);
            }
            true
        } else {
            false
        }
    }

    /// Places one ship of the given kind at fresh random anchors and
    /// orientations until a valid spot is found, failing loudly once the
    /// attempt bound is reached.
    fn place_ship_randomly(&mut self, id: PlayerID, kind: ShipKind) -> (r: Result<
        (),
        GameError,
    >)
        requires
            old(self).wf(),
            old(self).status is NotStarted,
        ensures
            final(self).wf(),
            final(self).status is NotStarted,
            r is Err ==> *final(self) == *old(self) && r == Err::<(), GameError>(
                GameError::PlacementExhausted,
            ),
            r is Ok ==> exists|pos: Position, orient: ShipOrientation|
                placement_applied(*old(self), *final(self), id, kind, pos, orient),
    {
        let mut attempts: u32 = 0;
        while attempts < PLACEMENT_ATTEMPT_LIMIT
            invariant
                *self == *old(self),
                self.wf(),
                self.status is NotStarted,
            decreases PLACEMENT_ATTEMPT_LIMIT - attempts,
        {
            let pos = Position::random();
            let orient = ShipOrientation::random();
            if self.try_place_ship(id, kind, pos, orient) {
                proof {
                    assert(placement_applied(*old(self), *self, id, kind, pos, orient));
                }
                return Ok(());
            }
            attempts = attempts + 1;
        }
        Err(GameError::PlacementExhausted)
    }

    /// Places the full fleet for one side, kind by kind in the fixed order,
    /// each at fresh random anchors and orientations.
    fn place_randomly(&mut self, id: PlayerID) -> (r: Result<(), GameError>)
        requires
            old(self).wf(),
            old(self).status is NotStarted,
            old(self).spec_player(id).ships@.len() == 0,
        ensures
            final(self).wf(),
            final(self).status is NotStarted,
            r is Err ==> r == Err::<(), GameError>(GameError::PlacementExhausted),
            r is Ok ==> fleet_complete(final(self).spec_player(id).ships@),
            r is Ok ==> final(self).spec_player(id).attacks_made == old(self).spec_player(
                id,
            ).attacks_made,
            r is Ok ==> final(self).spec_player(opponent(id)) == old(self).spec_player(
                opponent(id),
            ),
            r is Ok ==> final(self).spec_ship_board(opponent(id)) == old(self).spec_ship_board(
                opponent(id),
            ),
            r is Ok ==> final(self).spec_attack_board(PlayerID::P1) == old(
                self,
            ).spec_attack_board(PlayerID::P1),
            r is Ok ==> final(self).spec_attack_board(PlayerID::P2) == old(
                self,
            ).spec_attack_board(PlayerID::P2),
    {
        let mut n: usize = 0;
        while n < 5
            invariant
                self.wf(),
                self.status is NotStarted,
                n <= 5,
                self.spec_player(id).ships@.len() == n as int,
                forall|i: int|
                    0 <= i < n ==> (#[trigger] self.spec_player(id).ships@[i]).kind
                        == fleet_kinds()[i],
                self.spec_player(id).attacks_made == old(self).spec_player(id).attacks_made,
                self.spec_player(opponent(id)) == old(self).spec_player(opponent(id)),
                self.spec_ship_board(opponent(id)) == old(self).spec_ship_board(opponent(id)),
                self.spec_attack_board(PlayerID::P1) == old(self).spec_attack_board(PlayerID::P1),
                self.spec_attack_board(PlayerID::P2) == old(self).spec_attack_board(PlayerID::P2),
            decreases 5 - n,
        {
            let kind = if n == 0 {
                ShipKind::Submarine
            } else if n == 1 {
                ShipKind::Patrol
            } else if n == 2 {
                ShipKind::Destroyer
            } else if n == 3 {
                ShipKind::Battleship
            } else {
                ShipKind::Carrier
            };
            proof {
                assert(kind == fleet_kinds()[n as int]);
            }
            let ghost prev = *self;
            match self.place_ship_randomly(id, kind) {
                Ok(()) => {},
                Err(e) => {
                    return Err(e);
                },
            }
            proof {
                let (pos, orient) = choose|pos: Position, orient: ShipOrientation|
                    placement_applied(prev, *self, id, kind, pos, orient);
                assert(self.spec_player(id).ships@.len() == n + 1);
                assert forall|i: int|
                    0 <= i < n + 1 implies (#[trigger] self.spec_player(id).ships@[i]).kind
                        == fleet_kinds()[i] by {
                    if i < n {
                        assert(self.spec_player(id).ships@[i] == prev.spec_player(id).ships@[i]);
                    } else {
                        assert(self.spec_player(id).ships@.last().kind == kind);
                    }
                }
            }
            n = n + 1;
        }
        proof {
            assert(fleet_complete(self.spec_player(id).ships@));
        }
        Ok(())
    }

    /// Resolves one admissible attack: reads the target square, records the
    /// shot on the attacker's attack board and history, and on a hit marks
    /// the square `DamagedShip`, re-derives the struck ship's damage state
    /// and recolors it `DestroyedShip` once every one of its cells is hit.
    fn resolve_attack(
        ab: &mut Board,
        attacker: &mut Player,
        sb: &mut Board,
        defender: &mut Player,
        pos: Position,
    ) -> (hit: bool)
        requires
            pos.in_bounds(),
            side_wf(*old(defender), *old(sb)),
            attacks_wf(*old(attacker), *old(ab)),
            cross_wf(*old(ab), *old(sb)),
            old(ab).cell(pos) == BoardCell::Empty,
        ensures
            side_wf(*final(defender), *final(sb)),
            attacks_wf(*final(attacker), *final(ab)),
            cross_wf(*final(ab), *final(sb)),
            hit <==> old(sb).cell(pos) == BoardCell::Ship,
            final(ab)@ == old(ab)@.update(
                cell_index(pos),
                if hit {
                    BoardCell::SuccessfulAttack
                } else {
                    BoardCell::FailedAttack
                },
            ),
            final(attacker).attacks_made@ == old(attacker).attacks_made@.push(pos),
            final(attacker).ships == old(attacker).ships,
            final(defender).attacks_made == old(defender).attacks_made,
            !hit ==> final(sb)@ == old(sb)@ && final(defender).ships == old(defender).ships,
            hit ==> hit_applied(
                old(defender).ships@,
                final(defender).ships@,
                old(sb)@,
                final(sb)@,
                pos,
            ),
            final(defender).ships@.len() == old(defender).ships@.len(),
            forall|i: int|
                0 <= i < final(defender).ships@.len() ==> ((#[trigger] final(defender).ships@[i]).kind
                    == old(defender).ships@[i].kind
                    && final(defender).ships@[i].size == old(defender).ships@[i].size
                    && final(defender).ships@[i].cells() == old(defender).ships@[i].cells()),
    {
        let target_cell = sb.get_cell_value(pos);
        let hit = target_cell == BoardCell::Ship;
        proof {
            lemma_index_of_position(pos);
            assert(!old(attacker).attacks_made@.contains(pos));
            lemma_push_no_duplicates(old(attacker).attacks_made@, pos);
        }
        attacker.record_attack(pos);
        if hit {
            ab.set_cell(pos, BoardCell::SuccessfulAttack);
            proof {
                assert(covered(defender.ships@, pos));
            }
            sb.set_cell(pos, BoardCell::DamagedShip);
            let ghost b1 = sb@;
            let ghost old_ships = defender.ships@;
            let j = defender.find_covering_ship(pos);
            {
                let s = defender.ship_at_mut(j);
                s.update_status(sb);
            }
            let destroyed = match defender.ship_at(j).status {
                crate::ship::ShipStatus::Destroyed => true,
                _ => false,
            };
            proof {
                assert(defender.ships@[j as int].status == status_for_hits(
                    damaged_count(b1, old_ships[j as int].cells()),
                    old_ships[j as int].size,
                ));
                assert(2 <= old_ships[j as int].size) by {
                    assert(old_ships[j as int].wf_placed());
                }
            }
            if destroyed {
                let cells = defender.ship_at(j).positions();
                sb.set_cells(&cells, BoardCell::DestroyedShip);
            }
            proof {
                let new_ships = defender.ships@;
                let sj = old_ships[j as int];
                let h = damaged_count(b1, sj.cells());
                assert(destroyed == (h >= sj.size));
                assert forall|q: Position| q.in_bounds() implies sb@[cell_index(q)] == (if (h
                    >= sj.size) && sj.covers(q) {
                    BoardCell::DestroyedShip
                } else if q == pos {
                    BoardCell::DamagedShip
                } else {
                    old(sb)@[cell_index(q)]
                }) by {
                    lemma_index_of_position(q);
                    if q != pos {
                        lemma_index_injective(pos, q);
                    }
                }
                assert(hit_applied_at(old_ships, new_ships, old(sb)@, sb@, pos, j as int));
                lemma_hit_preserves_side(old_ships, new_ships, old(sb)@, sb@, pos, j as int);
                assert(side_wf(*defender, *sb));

                // the attacker's record and board stay in step
                assert forall|p: Position| p.in_bounds() implies ((#[trigger] ab.cell(p))
                    != BoardCell::Empty <==> attacker.attacks_made@.contains(p)) by {
                    lemma_index_of_position(p);
                    if p == pos {
                        assert(attacker.attacks_made@[old(attacker).attacks_made@.len() as int]
                            == pos);
                    } else {
                        lemma_index_injective(pos, p);
                        if attacker.attacks_made@.contains(p) {
                            let k = choose|k: int|
                                0 <= k < attacker.attacks_made@.len()
                                    && attacker.attacks_made@[k] == p;
                            assert(old(attacker).attacks_made@[k] == p);
                        }
                        if old(attacker).attacks_made@.contains(p) {
                            let k = choose|k: int|
                                0 <= k < old(attacker).attacks_made@.len() && old(
                                    attacker,
                                ).attacks_made@[k] == p;
                            assert(attacker.attacks_made@[k] == p);
                        }
                    }
                }
                assert(attacks_wf(*attacker, *ab));

                // the shot record agrees with the struck board
                assert forall|p: Position| p.in_bounds() implies (((#[trigger] ab.cell(p))
                    == BoardCell::SuccessfulAttack <==> is_damaged_cell(sb.cell(p))) && (ab.cell(p)
                    == BoardCell::FailedAttack ==> sb.cell(p) == BoardCell::Empty)) by {
                    lemma_index_of_position(p);
                    if p != pos {
                        lemma_index_injective(pos, p);
                    }
                }
                assert(cross_wf(*ab, *sb));
            }
            true
        } else {
            ab.set_cell(pos, BoardCell::FailedAttack);
            proof {
                assert forall|p: Position| p.in_bounds() implies ((#[trigger] ab.cell(p))
                    != BoardCell::Empty <==> attacker.attacks_made@.contains(p)) by {
                    lemma_index_of_position(p);
                    if p == pos {
                        assert(attacker.attacks_made@[old(attacker).attacks_made@.len() as int]
                            == pos);
                    } else {
                        lemma_index_injective(pos, p);
                        if attacker.attacks_made@.contains(p) {
                            let k = choose|k: int|
                                0 <= k < attacker.attacks_made@.len()
                                    && attacker.attacks_made@[k] == p;
                            assert(old(attacker).attacks_made@[k] == p);
                        }
                        if old(attacker).attacks_made@.contains(p) {
                            let k = choose|k: int|
                                0 <= k < old(attacker).attacks_made@.len() && old(
                                    attacker,
                                ).attacks_made@[k] == p;
                            assert(attacker.attacks_made@[k] == p);
                        }
                    }
                }
                assert(attacks_wf(*attacker, *ab));
                assert forall|p: Position| p.in_bounds() implies (((#[trigger] ab.cell(p))
                    == BoardCell::SuccessfulAttack <==> is_damaged_cell(sb.cell(p))) && (ab.cell(p)
                    == BoardCell::FailedAttack ==> sb.cell(p) == BoardCell::Empty)) by {
                    lemma_index_of_position(p);
                    if p == pos {
                        assert(!is_damaged_cell(sb.cell(pos)));
                        assert(is_ship_board_cell(sb@[cell_index(pos)]));
                    } else {
                        lemma_index_injective(pos, p);
                    }
                }
                assert(cross_wf(*ab, *sb));
            }
            false
        }
    }

    /// Fires at `pos` for the given side against the opponent's board.
    /// Returns `Hit` exactly when the square held an undamaged ship cell,
    /// recording the outcome on the attacker's attack board and, on a hit,
    /// the damage on the defender's ship board and fleet. Rejected when the
    /// match is not running, the coordinate is off the grid, or the side has
    /// already fired there (duplicate attacks are errors, not repeats). The
    /// match status is not advanced here: callers run `check_winner` after an
    /// exchange.
    pub fn attack(&mut self, player: PlayerID, pos: Position) -> (r: Result<
        AttackOutcome,
        GameError,
    >)
        requires
            old(self).wf(),
        ensures
            final(self).wf(),
            !(old(self).status is InProgress) ==> r == Err::<AttackOutcome, GameError>(
                GameError::InvalidState,
            ) && *final(self) == *old(self),
            old(self).status is InProgress && !pos.in_bounds() ==> r == Err::<
                AttackOutcome,
                GameError,
            >(GameError::InvalidCoordinate) && *final(self) == *old(self),
            old(self).status is InProgress && pos.in_bounds() && old(self).spec_attack_board(
                player,
            ).cell(pos) != BoardCell::Empty ==> r == Err::<AttackOutcome, GameError>(
                GameError::InvalidState,
            ) && *final(self) == *old(self),
            fresh_attack_allowed(*old(self), player, pos) ==> (r matches Ok(o)
                && attack_transition(*old(self), *final(self), player, pos, o)),
            r matches Ok(o) ==> fresh_attack_allowed(*old(self), player, pos) && (o
                is Hit <==> old(self).spec_ship_board(opponent(player)).cell(pos)
                == BoardCell::Ship),
    {
        if self.status != GameStatus::InProgress {
            return Err(GameError::InvalidState);
        }
        if pos.x >= GRID_SIZE || pos.y >= GRID_SIZE {
            return Err(GameError::InvalidCoordinate);
        }
        let hit = match player {
            PlayerID::P1 => {
                if self.attack_board_one.get_cell_value(pos) != BoardCell::Empty {
                    return Err(GameError::InvalidState);
                }
                Self::resolve_attack(
                    &mut self.attack_board_one,
                    &mut self.player_one,
                    &mut self.ship_board_two,
                    &mut self.player_two,
                    pos,
                )
            },
            PlayerID::P2 => {
                if self.attack_board_two.get_cell_value(pos) != BoardCell::Empty {
                    return Err(GameError::InvalidState);
                }
                Self::resolve_attack(
                    &mut self.attack_board_two,
                    &mut self.player_two,
                    &mut self.ship_board_one,
                    &mut self.player_one,
                    pos,
                )
            },
        };
        proof {
            let defender = opponent(player);
            lemma_fleet_complete_preserved(
                old(self).spec_player(defender).ships@,
                self.spec_player(defender).ships@,
            );
            assert(side_wf(self.spec_player(player), self.spec_ship_board(player))) by {
                assert(self.spec_player(player).ships == old(self).spec_player(player).ships);
                assert(side_wf(old(self).spec_player(player), old(self).spec_ship_board(player)));
            }
            assert(attacks_wf(self.spec_player(defender), self.spec_attack_board(defender))) by {
                assert(self.spec_player(defender).attacks_made == old(self).spec_player(
                    defender,
                ).attacks_made);
            }
            assert(attack_transition(
                *old(self),
                *self,
                player,
                pos,
                if hit {
                    AttackOutcome::Hit
                } else {
                    AttackOutcome::Miss
                },
            ));
        }
        if hit {
            Ok(AttackOutcome::Hit)
        } else {
            Ok(AttackOutcome::Miss)
        }
    }

    /// Transitions a fresh match to `InProgress` after placing both fleets at
    /// random. Rejects a match that has already started or already holds
    /// ships; if placement exhausts its attempt bound the match is left
    /// fresh, as `initialize` made it.
    pub fn start(&mut self) -> (r: Result<(), GameError>)
        requires
            old(self).wf(),
        ensures
            final(self).wf(),
            !(old(self).status is NotStarted && old(self).player_one.ships@.len() == 0 && old(
                self,
            ).player_two.ships@.len() == 0) ==> r == Err::<(), GameError>(GameError::InvalidState)
                && *final(self) == *old(self),
            old(self).status is NotStarted && old(self).player_one.ships@.len() == 0 && old(
                self,
            ).player_two.ships@.len() == 0 ==> (r is Ok || r == Err::<(), GameError>(
                GameError::PlacementExhausted,
            )),
            r is Ok ==> final(self).status is InProgress,
            r is Ok ==> fleet_complete(final(self).player_one.ships@) && fleet_complete(
                final(self).player_two.ships@,
            ),
            r is Ok ==> cells_of_ships(final(self).player_one.ships@).len() == 17
                && cells_of_ships(final(self).player_one.ships@).no_duplicates()
                && cells_of_ships(final(self).player_one.ships@).to_set().len() == 17,
            r is Ok ==> cells_of_ships(final(self).player_two.ships@).len() == 17
                && cells_of_ships(final(self).player_two.ships@).no_duplicates()
                && cells_of_ships(final(self).player_two.ships@).to_set().len() == 17,
            r == Err::<(), GameError>(GameError::PlacementExhausted) ==> (final(self).status
                is NotStarted && final(self).player_one.ships@.len() == 0
                && final(self).player_two.ships@.len() == 0),
    {
        if self.status != GameStatus::NotStarted {
            return Err(GameError::InvalidState);
        }
        if self.player_one.ships.len() > 0 || self.player_two.ships.len() > 0 {
            return Err(GameError::InvalidState);
        }
        match self.place_randomly(PlayerID::P1) {
            Ok(()) => {},
            Err(_) => {
                *self = GameState::initialize();
                return Err(GameError::PlacementExhausted);
            },
        }
        match self.place_randomly(PlayerID::P2) {
            Ok(()) => {},
            Err(_) => {
                *self = GameState::initialize();
                return Err(GameError::PlacementExhausted);
            },
        }
        self.status = GameStatus::InProgress;
        proof {
            crate::player::lemma_fleet_completeness(self.player_one.ships@);
            crate::player::lemma_fleet_completeness(self.player_two.ships@);
        }
        Ok(())
    }

    /// Transitions a manually placed match to `InProgress`: both fleets must
    /// be complete (placed with `try_place_ship`) and the match not yet
    /// started.
    pub fn begin(&mut self) -> (r: Result<(), GameError>)
        requires
            old(self).wf(),
        ensures
            final(self).wf(),
            r is Ok <==> old(self).status is NotStarted && fleet_complete(
                old(self).player_one.ships@,
            ) && fleet_complete(old(self).player_two.ships@),
            r is Ok ==> (final(self).status is InProgress
                && final(self).player_one == old(self).player_one
                && final(self).player_two == old(self).player_two
                && final(self).ship_board_one == old(self).ship_board_one
                && final(self).ship_board_two == old(self).ship_board_two
                && final(self).attack_board_one == old(self).attack_board_one
                && final(self).attack_board_two == old(self).attack_board_two),
            r is Err ==> r == Err::<(), GameError>(GameError::InvalidState) && *final(self)
                == *old(self),
    {
        if self.status != GameStatus::NotStarted {
            return Err(GameError::InvalidState);
        }
        let ready = self.player_one.fleet_ready() && self.player_two.fleet_ready();
        if !ready {
            return Err(GameError::InvalidState);
        }
        self.status = GameStatus::InProgress;
        Ok(())
    }

    /// Fires one automated shot for the given side at a square it has not
    /// attacked before: fresh random coordinates are sampled until an
    /// untouched square is found; after the sample bound, the board is
    /// scanned for one instead, so the shot lands whenever an untouched
    /// square exists at all. Rejected when the match is not running or every
    /// square has been attacked.
    pub fn randomly_attack(&mut self, player: PlayerID) -> (r: Result<AttackOutcome, GameError>)
        requires
            old(self).wf(),
        ensures
            final(self).wf(),
            !(old(self).status is InProgress) ==> r == Err::<AttackOutcome, GameError>(
                GameError::InvalidState,
            ) && *final(self) == *old(self),
            old(self).status is InProgress && !some_cell_is(
                old(self).spec_attack_board(player)@,
                BoardCell::Empty,
            ) ==> r == Err::<AttackOutcome, GameError>(GameError::InvalidState) && *final(self)
                == *old(self),
            old(self).status is InProgress && some_cell_is(
                old(self).spec_attack_board(player)@,
                BoardCell::Empty,
            ) ==> (r matches Ok(o) && exists|pos: Position|
                fresh_attack_allowed(*old(self), player, pos) && #[trigger] attack_transition(
                    *old(self),
                    *final(self),
                    player,
                    pos,
                    o,
                )),
    {
        if self.status != GameStatus::InProgress {
            return Err(GameError::InvalidState);
        }
        let mut attempts: u32 = 0;
        while attempts < TARGET_SAMPLE_LIMIT
            invariant
                *self == *old(self),
                self.wf(),
                self.status is InProgress,
            decreases TARGET_SAMPLE_LIMIT - attempts,
        {
            let pos = Position::random();
            let untouched = self.attack_board(player).get_cell_value(pos) == BoardCell::Empty;
            if untouched {
                proof {
                    lemma_index_of_position(pos);
                }
                return self.attack(player, pos);
            }
            attempts = attempts + 1;
        }
        let found = self.attack_board(player).find_empty_cell();
        match found {
            Some(pos) => self.attack(player, pos),
            None => Err(GameError::InvalidState),
        }
    }

    /// Scans both ship boards for squares still classified `Ship` and, while
    /// the match is running, completes it in favour of the side whose
    /// opponent has none left. The side that just attacked is checked first,
    /// so it wins the deciding exchange; a match not in progress is left
    /// untouched.
    pub fn check_winner(&mut self)
        requires
            old(self).wf(),
        ensures
            final(self).wf(),
            final(self).player_one == old(self).player_one,
            final(self).player_two == old(self).player_two,
            final(self).ship_board_one == old(self).ship_board_one,
            final(self).ship_board_two == old(self).ship_board_two,
            final(self).attack_board_one == old(self).attack_board_one,
            final(self).attack_board_two == old(self).attack_board_two,
            !(old(self).status is InProgress) ==> *final(self) == *old(self),
            old(self).status is InProgress ==> final(self).status == (if !some_cell_is(
                old(self).ship_board_two@,
                BoardCell::Ship,
            ) {
                GameStatus::Complete(PlayerID::P1)
            } else if !some_cell_is(old(self).ship_board_one@, BoardCell::Ship) {
                GameStatus::Complete(PlayerID::P2)
            } else {
                GameStatus::InProgress
            }),
    {
        if self.status != GameStatus::InProgress {
            return;
        }
        let p2_remaining = self.ship_board_two.count_cells_equal(BoardCell::Ship);
        let p1_remaining = self.ship_board_one.count_cells_equal(BoardCell::Ship);
        proof {
            lemma_count_zero_iff_none(self.ship_board_two@, BoardCell::Ship);
            lemma_count_zero_iff_none(self.ship_board_one@, BoardCell::Ship);
        }
        if p2_remaining == 0 {
            self.status = GameStatus::Complete(PlayerID::P1);
        } else if p1_remaining == 0 {
            self.status = GameStatus::Complete(PlayerID::P2);
        }
    }

    /// Read-only view of one side's player.
    pub fn player(&self, id: PlayerID) -> (p: &Player)
        ensures
            *p == self.spec_player(id),
    {
        match id {
            PlayerID::P1 => &self.player_one,
            PlayerID::P2 => &self.player_two,
        }
    }
}

} // verus!
