use battleship::board::{Board, BoardCell};
use battleship::player::Player;
use battleship::position::{Position, ShipOrientation};
use battleship::ship::{size_of_kind, Ship, ShipKind, ShipStatus};

#[test]
fn ship_sizes_are_fixed_per_kind() {
    assert_eq!(size_of_kind(ShipKind::Patrol), 2);
    assert_eq!(size_of_kind(ShipKind::Submarine), 3);
    assert_eq!(size_of_kind(ShipKind::Destroyer), 3);
    assert_eq!(size_of_kind(ShipKind::Battleship), 4);
    assert_eq!(size_of_kind(ShipKind::Carrier), 5);
}

#[test]
fn new_ship_is_unplaced_and_undamaged() {
    let s = Ship::new(ShipKind::Battleship);
    assert_eq!(s.kind, ShipKind::Battleship);
    assert_eq!(s.size, 4);
    assert!(s.positions().is_empty());
    assert_eq!(s.status, ShipStatus::Undamaged);
}

#[test]
fn place_at_extends_from_the_anchor() {
    let mut s = Ship::new(ShipKind::Destroyer);
    s.place_at(Position { x: 2, y: 5 }, ShipOrientation::Horizontal);
    assert_eq!(
        s.positions(),
        vec![
            Position { x: 2, y: 5 },
            Position { x: 3, y: 5 },
            Position { x: 4, y: 5 },
        ]
    );
    s.place_at(Position { x: 7, y: 7 }, ShipOrientation::Vertical);
    assert_eq!(
        s.positions(),
        vec![
            Position { x: 7, y: 7 },
            Position { x: 7, y: 8 },
            Position { x: 7, y: 9 },
        ]
    );
}

#[test]
fn place_at_may_leave_the_grid() {
    // validity is checked by the caller, not prevented here
    let mut s = Ship::new(ShipKind::Patrol);
    s.place_at(Position { x: 9, y: 0 }, ShipOrientation::Horizontal);
    assert_eq!(
        s.positions(),
        vec![Position { x: 9, y: 0 }, Position { x: 10, y: 0 }]
    );
}

#[test]
fn overlaps_and_intersects() {
    let cells = vec![Position { x: 1, y: 1 }, Position { x: 2, y: 2 }];
    assert!(Position { x: 2, y: 2 }.overlaps(&cells));
    assert!(!Position { x: 3, y: 3 }.overlaps(&cells));

    let mut s = Ship::new(ShipKind::Patrol);
    s.place_at(Position { x: 2, y: 2 }, ShipOrientation::Vertical);
    assert!(s.intersects(&cells));
    let mut t = Ship::new(ShipKind::Patrol);
    t.place_at(Position { x: 5, y: 5 }, ShipOrientation::Vertical);
    assert!(!t.intersects(&cells));
}

#[test]
fn orientation_toggles() {
    assert_eq!(ShipOrientation::Horizontal.toggled(), ShipOrientation::Vertical);
    assert_eq!(ShipOrientation::Vertical.toggled(), ShipOrientation::Horizontal);
}

#[test]
fn random_positions_stay_on_the_grid() {
    for _ in 0..200 {
        let p = Position::random();
        assert!(p.x <= 9 && p.y <= 9);
    }
}

#[test]
fn random_orientation_is_one_of_the_two() {
    for _ in 0..20 {
        let o = ShipOrientation::random();
        assert!(o == ShipOrientation::Horizontal || o == ShipOrientation::Vertical);
    }
}

#[test]
fn boards_start_empty_and_record_writes() {
    let mut b = Board::new();
    for x in 0..10u8 {
        for y in 0..10u8 {
            assert_eq!(b.get_cell_value(Position { x, y }), BoardCell::Empty);
        }
    }
    b.set_cell(Position { x: 4, y: 7 }, BoardCell::Ship);
    assert_eq!(b.get_cell_value(Position { x: 4, y: 7 }), BoardCell::Ship);
    assert_eq!(b.get_cell_value(Position { x: 7, y: 4 }), BoardCell::Empty);
    assert_eq!(b.count_cells_equal(BoardCell::Ship), 1);
    assert_eq!(b.count_cells_equal(BoardCell::Empty), 99);
}

#[test]
fn players_collect_all_ship_cells() {
    let mut p = Player::new();
    let mut s = Ship::new(ShipKind::Patrol);
    s.place_at(Position { x: 0, y: 0 }, ShipOrientation::Horizontal);
    p.add_ship(s);
    let mut t = Ship::new(ShipKind::Submarine);
    t.place_at(Position { x: 5, y: 5 }, ShipOrientation::Vertical);
    p.add_ship(t);
    assert_eq!(p.ships().len(), 2);
    assert_eq!(
        p.all_ship_positions(),
        vec![
            Position { x: 0, y: 0 },
            Position { x: 1, y: 0 },
            Position { x: 5, y: 5 },
            Position { x: 5, y: 6 },
            Position { x: 5, y: 7 },
        ]
    );
}

#[test]
fn rendering_maps_each_classification_to_its_glyph() {
    let mut b = Board::new();
    b.set_cell(Position { x: 0, y: 0 }, BoardCell::Ship);
    b.set_cell(Position { x: 1, y: 0 }, BoardCell::DamagedShip);
    b.set_cell(Position { x: 2, y: 0 }, BoardCell::DestroyedShip);
    b.set_cell(Position { x: 3, y: 0 }, BoardCell::FailedAttack);
    b.set_cell(Position { x: 4, y: 0 }, BoardCell::SuccessfulAttack);
    let text: String = b.render_text().into_iter().collect();
    let expected = " 0123456789\n\
                    AS.........\n\
                    Bx.........\n\
                    CX.........\n\
                    Do.........\n\
                    E*.........\n\
                    F..........\n\
                    G..........\n\
                    H..........\n\
                    I..........\n\
                    J..........\n";
    assert_eq!(text, expected);
}
