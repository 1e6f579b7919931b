use card_runs::board::{Board, Inventory};
use card_runs::game::Game;
use card_runs::tile::{Color, Face, Tile};

fn snapshot(b: &Board) -> (Board, Inventory, Inventory) {
    (b.clone(), Inventory::new(3), Inventory::new(3))
}

#[test]
fn new_game_starts_with_one_record() {
    let mut g = Game::new(7, 7);
    assert_eq!(g.get_pos(), 0);
    assert!(g.get_move().0.is_none());
    let b = g.last_move();
    assert_eq!(b.get_tile(3, 3).unwrap(), Tile::Card(Face::Wild, Color::Both));
    assert_eq!(g.get_pos(), 0);
    assert_eq!(g.get_move().2 .0.get_num_face(Face::Ace), 3);
    assert_eq!(g.get_move().2 .1.get_num_face(Face::Jack), 3);
}

#[test]
fn add_moves_and_navigate() {
    let mut g = Game::new(7, 7);
    let mut b = Board::new(7, 7);
    b.place_tile(3, 2, Face::Ace).unwrap();
    let (s1, r1, k1) = snapshot(&b);
    g.add_move(3, 2, Face::Ace, s1, r1, k1);
    assert_eq!(g.get_pos(), 1);
    b.place_tile(2, 3, Face::King).unwrap();
    let (s2, r2, k2) = snapshot(&b);
    g.add_move(2, 3, Face::King, s2, r2, k2);
    assert_eq!(g.get_pos(), 2);

    g.prev_move();
    assert_eq!(g.get_pos(), 1);
    let rec = g.get_move();
    let mv = rec.0.as_ref().unwrap();
    assert_eq!((mv.x, mv.y, mv.face), (3, 2, Face::Ace));
    assert_eq!(rec.1.get_tile(3, 2).unwrap(), Tile::Card(Face::Ace, Color::Red));
    assert_eq!(rec.1.get_tile(2, 3).unwrap(), Tile::Empty);

    g.first_move();
    assert_eq!(g.get_pos(), 0);
    g.prev_move();
    assert_eq!(g.get_pos(), 0);
    g.next_move();
    assert_eq!(g.get_pos(), 1);
    g.last_move();
    assert_eq!(g.get_pos(), 2);
    g.next_move();
    assert_eq!(g.get_pos(), 2);
}

#[test]
fn branching_discards_the_undone_future() {
    // three moves, two steps back, one new move: every record after the
    // cursor is discarded before the append, so the history holds the
    // initial record, the one record at the cursor, and the new move
    let mut g = Game::new(7, 7);
    let b = Board::new(7, 7);
    for (i, f) in [Face::Ace, Face::King, Face::Queen].iter().enumerate() {
        let (s, r, k) = snapshot(&b);
        g.add_move(i as u32, 0, *f, s, r, k);
    }
    assert_eq!(g.get_pos(), 3);
    g.prev_move();
    g.prev_move();
    assert_eq!(g.get_pos(), 1);
    let (s, r, k) = snapshot(&b);
    g.add_move(6, 6, Face::Jack, s, r, k);
    assert_eq!(g.get_pos(), 2);
    // the last record is the newly added move
    g.last_move();
    assert_eq!(g.get_pos(), 2);
    let mv = g.get_move().0.as_ref().unwrap();
    assert_eq!((mv.x, mv.y, mv.face), (6, 6, Face::Jack));
    // stepping forward from the end stays put: nothing was redoable
    g.next_move();
    assert_eq!(g.get_pos(), 2);
    // the record at the branch point survived
    g.prev_move();
    let mv = g.get_move().0.as_ref().unwrap();
    assert_eq!((mv.x, mv.y, mv.face), (0, 0, Face::Ace));
}

#[test]
fn get_mut_move_edits_the_current_record() {
    let mut g = Game::new(7, 7);
    let b = Board::new(7, 7);
    let (s, r, k) = snapshot(&b);
    g.add_move(1, 1, Face::Queen, s, r, k);
    {
        let rec = g.get_mut_move();
        rec.1.set_tile(0, 0, Tile::Card(Face::Jack, Color::Black));
    }
    assert_eq!(g.get_move().1.get_tile(0, 0).unwrap(), Tile::Card(Face::Jack, Color::Black));
}

#[test]
fn inventory_counts_and_decrements() {
    let mut inv = Inventory::new(3);
    for f in [Face::Ace, Face::King, Face::Queen, Face::Jack] {
        assert_eq!(inv.get_num_face(f), 3);
        assert!(inv.can_place_face(f));
    }
    assert!(!inv.can_place_face(Face::Wild));
    inv.place_face(Face::Ace);
    inv.place_face(Face::Ace);
    inv.place_face(Face::Ace);
    assert_eq!(inv.get_num_face(Face::Ace), 0);
    assert!(!inv.can_place_face(Face::Ace));
    assert!(!inv.can_place_ace());
    assert_eq!(inv.get_num_face(Face::King), 3);
    inv.place_face(Face::Wild);
    assert_eq!(inv.get_num_face(Face::King), 3);
    assert_eq!(inv.get_num_face(Face::Jack), 3);
}

#[test]
fn inventory_per_face_operations() {
    let mut inv = Inventory::new(1);
    assert!(inv.can_place_king() && inv.can_place_queen() && inv.can_place_jack());
    inv.place_king();
    inv.place_queen();
    inv.place_jack();
    assert!(!inv.can_place_king());
    assert!(!inv.can_place_queen());
    assert!(!inv.can_place_jack());
    assert!(inv.can_place_ace());
    inv.place_ace();
    assert!(!inv.can_place_ace());
}

#[test]
fn face_order_and_conversions() {
    assert_eq!(Face::from_num(0), Face::Jack);
    assert_eq!(Face::from_num(1), Face::Queen);
    assert_eq!(Face::from_num(2), Face::King);
    assert_eq!(Face::from_num(3), Face::Ace);

    let wild = Tile::Card(Face::Wild, Color::Both);
    let king = Tile::Card(Face::King, Color::Red);
    assert!(wild.is_ascending_from_face(Face::Ace));
    assert!(king.is_ascending_from_face(Face::Queen));
    assert!(!king.is_ascending_from_face(Face::King));
    assert!(!king.is_ascending_from_face(Face::Ace));
    assert!(!Tile::Empty.is_ascending_from_face(Face::Jack));
    assert!(!Tile::Blocked.is_ascending_from_face(Face::Jack));

    assert!(Face::Queen.is_descending_from_tile(king));
    assert!(!Face::King.is_descending_from_tile(king));
    assert!(!Face::Ace.is_descending_from_tile(Tile::Empty));

    assert!(king.is_card());
    assert!(!Tile::Empty.is_card());
    assert!(!Tile::Blocked.is_card());
}

#[test]
fn colour_alternation() {
    let mut c = Color::Red;
    c.next();
    assert_eq!(c, Color::Black);
    c.next();
    assert_eq!(c, Color::Red);
    let mut b = Color::Both;
    b.next();
    assert_eq!(b, Color::Both);
}
