use battleship::board::BoardCell;
use battleship::game::{AttackOutcome, GameError, GameState, GameStatus, PlayerID};
use battleship::position::Position;
use battleship::position::ShipOrientation;
use battleship::ship::ShipKind;

/// Places a fixed, collision-free fleet for one side, in the kind order the
/// library uses: Submarine, Patrol, Destroyer, Battleship, Carrier.
fn place_standard_fleet(g: &mut GameState, id: PlayerID) {
    assert!(g.try_place_ship(id, ShipKind::Submarine, Position { x: 0, y: 0 }, ShipOrientation::Vertical));
    assert!(g.try_place_ship(id, ShipKind::Patrol, Position { x: 3, y: 3 }, ShipOrientation::Horizontal));
    assert!(g.try_place_ship(id, ShipKind::Destroyer, Position { x: 0, y: 6 }, ShipOrientation::Horizontal));
    assert!(g.try_place_ship(id, ShipKind::Battleship, Position { x: 0, y: 7 }, ShipOrientation::Horizontal));
    assert!(g.try_place_ship(id, ShipKind::Carrier, Position { x: 0, y: 8 }, ShipOrientation::Horizontal));
}

/// The 17 cells of the standard fleet, in placement order.
fn standard_fleet_cells() -> Vec<Position> {
    let mut cells = Vec::new();
    for y in 0..3u8 {
        cells.push(Position { x: 0, y });
    }
    cells.push(Position { x: 3, y: 3 });
    cells.push(Position { x: 4, y: 3 });
    for x in 0..3u8 {
        cells.push(Position { x, y: 6 });
    }
    for x in 0..4u8 {
        cells.push(Position { x, y: 7 });
    }
    for x in 0..5u8 {
        cells.push(Position { x, y: 8 });
    }
    cells
}

fn snapshot(g: &GameState) -> Vec<BoardCell> {
    let mut cells = Vec::new();
    for x in 0..10u8 {
        for y in 0..10u8 {
            let p = Position { x, y };
            cells.push(g.ship_board(PlayerID::P1).get_cell_value(p));
            cells.push(g.ship_board(PlayerID::P2).get_cell_value(p));
            cells.push(g.attack_board(PlayerID::P1).get_cell_value(p));
            cells.push(g.attack_board(PlayerID::P2).get_cell_value(p));
        }
    }
    cells
}

#[test]
fn fleet_completeness_after_start() {
    let mut g = GameState::initialize();
    assert_eq!(g.start(), Ok(()));
    assert_eq!(g.status(), GameStatus::InProgress);
    for id in [PlayerID::P1, PlayerID::P2] {
        let player = g.player(id);
        assert_eq!(player.ships().len(), 5);
        let cells = player.all_ship_positions();
        assert_eq!(cells.len(), 17);
        for i in 0..cells.len() {
            for j in 0..i {
                assert_ne!(cells[i], cells[j], "two ships occupy one cell");
            }
        }
    }
}

#[test]
fn placed_ships_stay_in_bounds() {
    let mut g = GameState::initialize();
    assert_eq!(g.start(), Ok(()));
    for id in [PlayerID::P1, PlayerID::P2] {
        for p in g.player(id).all_ship_positions() {
            assert!(p.x <= 9 && p.y <= 9);
        }
    }
}

#[test]
fn duplicate_attack_rejected_without_change() {
    let mut g = GameState::initialize();
    place_standard_fleet(&mut g, PlayerID::P1);
    place_standard_fleet(&mut g, PlayerID::P2);
    assert_eq!(g.begin(), Ok(()));

    // a miss, repeated
    let miss_at = Position { x: 9, y: 9 };
    assert_eq!(g.attack(PlayerID::P1, miss_at), Ok(AttackOutcome::Miss));
    let before = snapshot(&g);
    assert_eq!(g.attack(PlayerID::P1, miss_at), Err(GameError::InvalidState));
    assert_eq!(snapshot(&g), before);
    assert_eq!(g.status(), GameStatus::InProgress);

    // a hit, repeated
    let hit_at = Position { x: 3, y: 3 };
    assert_eq!(g.attack(PlayerID::P1, hit_at), Ok(AttackOutcome::Hit));
    let before = snapshot(&g);
    assert_eq!(g.attack(PlayerID::P1, hit_at), Err(GameError::InvalidState));
    assert_eq!(snapshot(&g), before);
}

#[test]
fn hit_and_miss_classification() {
    let mut g = GameState::initialize();
    place_standard_fleet(&mut g, PlayerID::P1);
    place_standard_fleet(&mut g, PlayerID::P2);
    assert_eq!(g.begin(), Ok(()));

    let ship_cell = Position { x: 3, y: 3 };
    assert_eq!(g.ship_board(PlayerID::P2).get_cell_value(ship_cell), BoardCell::Ship);
    assert_eq!(g.attack(PlayerID::P1, ship_cell), Ok(AttackOutcome::Hit));
    assert_eq!(g.ship_board(PlayerID::P2).get_cell_value(ship_cell), BoardCell::DamagedShip);
    assert_eq!(g.attack_board(PlayerID::P1).get_cell_value(ship_cell), BoardCell::SuccessfulAttack);

    let water = Position { x: 4, y: 4 };
    assert_eq!(g.attack(PlayerID::P1, water), Ok(AttackOutcome::Miss));
    assert_eq!(g.attack_board(PlayerID::P1).get_cell_value(water), BoardCell::FailedAttack);
    assert_eq!(g.ship_board(PlayerID::P2).get_cell_value(water), BoardCell::Empty);
}

#[test]
fn destroyed_ship_is_recolored_and_counted() {
    let mut g = GameState::initialize();
    place_standard_fleet(&mut g, PlayerID::P1);
    place_standard_fleet(&mut g, PlayerID::P2);
    assert_eq!(g.begin(), Ok(()));

    // sink the patrol boat: (3,3) and (4,3)
    assert_eq!(g.attack(PlayerID::P1, Position { x: 3, y: 3 }), Ok(AttackOutcome::Hit));
    assert_eq!(
        g.ship_board(PlayerID::P2).get_cell_value(Position { x: 3, y: 3 }),
        BoardCell::DamagedShip
    );
    assert_eq!(g.attack(PlayerID::P1, Position { x: 4, y: 3 }), Ok(AttackOutcome::Hit));
    assert_eq!(
        g.ship_board(PlayerID::P2).get_cell_value(Position { x: 3, y: 3 }),
        BoardCell::DestroyedShip
    );
    assert_eq!(
        g.ship_board(PlayerID::P2).get_cell_value(Position { x: 4, y: 3 }),
        BoardCell::DestroyedShip
    );
}

#[test]
fn win_detection_at_deciding_attack_and_not_before() {
    let mut g = GameState::initialize();
    place_standard_fleet(&mut g, PlayerID::P1);
    place_standard_fleet(&mut g, PlayerID::P2);
    assert_eq!(g.begin(), Ok(()));

    let cells = standard_fleet_cells();
    for (n, p) in cells.iter().enumerate() {
        assert_eq!(g.status(), GameStatus::InProgress, "complete too early");
        assert_eq!(g.attack(PlayerID::P1, *p), Ok(AttackOutcome::Hit));
        g.check_winner();
        if n + 1 < cells.len() {
            assert_eq!(g.status(), GameStatus::InProgress, "complete before the deciding attack");
        }
    }
    assert_eq!(g.status(), GameStatus::Complete(PlayerID::P1));
}

#[test]
fn automated_targeting_visits_each_square_once() {
    let mut g = GameState::initialize();
    assert_eq!(g.start(), Ok(()));
    for _ in 0..100 {
        assert!(g.randomly_attack(PlayerID::P1).is_ok());
    }
    // every square was attacked exactly once: none is still empty
    for x in 0..10u8 {
        for y in 0..10u8 {
            let c = g.attack_board(PlayerID::P1).get_cell_value(Position { x, y });
            assert_ne!(c, BoardCell::Empty);
        }
    }
    // the board is exhausted
    assert_eq!(g.randomly_attack(PlayerID::P1), Err(GameError::InvalidState));
}

#[test]
fn end_to_end_match() {
    let mut g = GameState::initialize();
    assert_eq!(g.start(), Ok(()));
    let mut hits = 0;
    let mut misses = 0;
    for x in 0..10u8 {
        for y in 0..10u8 {
            match g.attack(PlayerID::P1, Position { x, y }) {
                Ok(AttackOutcome::Hit) => hits += 1,
                Ok(AttackOutcome::Miss) => misses += 1,
                Err(e) => panic!("attack rejected: {:?}", e),
            }
        }
    }
    assert_eq!(hits, 17);
    assert_eq!(misses, 83);
    assert_eq!(g.status(), GameStatus::InProgress);
    g.check_winner();
    assert_eq!(g.status(), GameStatus::Complete(PlayerID::P1));
}

#[test]
fn attack_rejected_when_not_in_progress() {
    let mut g = GameState::initialize();
    assert_eq!(
        g.attack(PlayerID::P1, Position { x: 0, y: 0 }),
        Err(GameError::InvalidState)
    );
    assert_eq!(g.randomly_attack(PlayerID::P1), Err(GameError::InvalidState));
}

#[test]
fn attack_rejected_off_grid() {
    let mut g = GameState::initialize();
    assert_eq!(g.start(), Ok(()));
    assert_eq!(
        g.attack(PlayerID::P1, Position { x: 10, y: 0 }),
        Err(GameError::InvalidCoordinate)
    );
    assert_eq!(
        g.attack(PlayerID::P2, Position { x: 0, y: 255 }),
        Err(GameError::InvalidCoordinate)
    );
}

#[test]
fn start_rejected_once_started_or_placed() {
    let mut g = GameState::initialize();
    assert_eq!(g.start(), Ok(()));
    assert_eq!(g.start(), Err(GameError::InvalidState));

    let mut h = GameState::initialize();
    place_standard_fleet(&mut h, PlayerID::P1);
    assert_eq!(h.start(), Err(GameError::InvalidState));
}

#[test]
fn begin_requires_complete_fleets() {
    let mut g = GameState::initialize();
    assert_eq!(g.begin(), Err(GameError::InvalidState));
    place_standard_fleet(&mut g, PlayerID::P1);
    assert_eq!(g.begin(), Err(GameError::InvalidState));
    place_standard_fleet(&mut g, PlayerID::P2);
    assert_eq!(g.begin(), Ok(()));
    assert_eq!(g.begin(), Err(GameError::InvalidState));
}

#[test]
fn placement_rejected_out_of_bounds_or_overlapping() {
    let mut g = GameState::initialize();
    // off-grid anchor
    assert!(!g.try_place_ship(
        PlayerID::P1,
        ShipKind::Carrier,
        Position { x: 10, y: 0 },
        ShipOrientation::Vertical
    ));
    // runs off the grid
    assert!(!g.try_place_ship(
        PlayerID::P1,
        ShipKind::Carrier,
        Position { x: 6, y: 0 },
        ShipOrientation::Horizontal
    ));
    // fits exactly at the edge
    assert!(g.try_place_ship(
        PlayerID::P1,
        ShipKind::Carrier,
        Position { x: 5, y: 0 },
        ShipOrientation::Horizontal
    ));
    // overlaps the carrier
    assert!(!g.try_place_ship(
        PlayerID::P1,
        ShipKind::Patrol,
        Position { x: 9, y: 0 },
        ShipOrientation::Vertical
    ));
    // touches nothing
    assert!(g.try_place_ship(
        PlayerID::P1,
        ShipKind::Patrol,
        Position { x: 0, y: 9 },
        ShipOrientation::Horizontal
    ));
}

#[test]
fn attacker_history_records_attacks() {
    let mut g = GameState::initialize();
    place_standard_fleet(&mut g, PlayerID::P1);
    place_standard_fleet(&mut g, PlayerID::P2);
    assert_eq!(g.begin(), Ok(()));
    assert!(g.player(PlayerID::P1).attacks_made.is_empty());
    assert_eq!(g.attack(PlayerID::P1, Position { x: 9, y: 9 }), Ok(AttackOutcome::Miss));
    assert_eq!(g.attack(PlayerID::P1, Position { x: 3, y: 3 }), Ok(AttackOutcome::Hit));
    assert_eq!(
        g.player(PlayerID::P1).attacks_made,
        vec![Position { x: 9, y: 9 }, Position { x: 3, y: 3 }]
    );
    assert!(g.player(PlayerID::P2).attacks_made.is_empty());
}
