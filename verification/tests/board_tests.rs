use card_runs::board::{Board, Dir, TileError};
use card_runs::tile::{Color, Face, Tile};

fn tiles_of(b: &Board, w: u32, h: u32) -> Vec<Tile> {
    let mut out = Vec::new();
    for y in 0..h {
        for x in 0..w {
            out.push(b.get_tile(x, y).unwrap());
        }
    }
    out
}

#[test]
fn new_board_has_seed_wild_at_center() {
    let b = Board::new(7, 7);
    // centre of the 7x7 grid is flat index 24 = (3, 3)
    assert_eq!(b.get_tile(3, 3).unwrap(), Tile::Card(Face::Wild, Color::Both));
    for y in 0..7 {
        for x in 0..7 {
            if (x, y) != (3, 3) {
                assert_eq!(b.get_tile(x, y).unwrap(), Tile::Empty);
            }
        }
    }
    assert_eq!(b.color, Color::Red);
}

#[test]
fn new_board_large_config_has_seed_at_center() {
    let b = Board::new(13, 13);
    assert_eq!(b.get_tile(6, 6).unwrap(), Tile::Card(Face::Wild, Color::Both));
    for y in 0..13 {
        for x in 0..13 {
            if (x, y) != (6, 6) {
                assert_eq!(b.get_tile(x, y).unwrap(), Tile::Empty);
            }
        }
    }
}

#[test]
fn new_board_smallest_config() {
    let b = Board::new(1, 1);
    assert_eq!(b.get_tile(0, 0).unwrap(), Tile::Card(Face::Wild, Color::Both));
}

#[test]
fn get_tile_out_of_bounds_errors() {
    let b = Board::new(7, 7);
    assert_eq!(b.get_tile(7, 0), Err(TileError::XOutOfBounds));
    assert_eq!(b.get_tile(0, 7), Err(TileError::YOutOfBounds));
    assert_eq!(b.get_tile(9, 9), Err(TileError::XOutOfBounds));
}

#[test]
fn set_tile_and_get_mut_tile_write_through() {
    let mut b = Board::new(7, 7);
    b.set_tile(1, 2, Tile::Card(Face::Queen, Color::Black));
    assert_eq!(b.get_tile(1, 2).unwrap(), Tile::Card(Face::Queen, Color::Black));
    *b.get_mut_tile(1, 2).unwrap() = Tile::Card(Face::King, Color::Red);
    assert_eq!(b.get_tile(1, 2).unwrap(), Tile::Card(Face::King, Color::Red));
    assert_eq!(b.get_mut_tile(7, 0).map(|_| ()), Err(TileError::XOutOfBounds));
    assert_eq!(b.get_mut_tile(0, 7).map(|_| ()), Err(TileError::YOutOfBounds));
}

#[test]
fn jack_next_to_wild_is_legal_but_two_cells_away_is_not() {
    let b = Board::new(7, 7);
    assert!(b.can_place_tile(3, 2, Face::Jack).is_ok());
    assert_eq!(b.can_place_tile(3, 1, Face::Jack), Err(TileError::NonDescending));
    let mut b = b;
    assert!(b.place_tile(3, 2, Face::Jack).is_ok());
    assert_eq!(b.get_tile(3, 2).unwrap(), Tile::Card(Face::Jack, Color::Red));
}

#[test]
fn can_place_tile_rejects_occupied_and_out_of_bounds() {
    let b = Board::new(7, 7);
    assert_eq!(b.can_place_tile(3, 3, Face::Jack), Err(TileError::BlockedTile));
    assert_eq!(b.can_place_tile(7, 3, Face::Jack), Err(TileError::XOutOfBounds));
    assert_eq!(b.can_place_tile(3, 7, Face::Jack), Err(TileError::YOutOfBounds));
}

#[test]
fn place_tile_reports_the_normal_check_error_when_both_checks_fail() {
    let mut b = Board::new(7, 7);
    // (3, 1) is two cells from the seed: the normal check fails with
    // NonDescending, and since Jack still has legal cells elsewhere the
    // free-placement check fails too; the normal check's error is reported
    assert_eq!(b.place_tile(3, 1, Face::Jack), Err(TileError::NonDescending));
    // on an occupied cell the normal check's BlockedTile is reported
    assert_eq!(b.place_tile(3, 3, Face::Jack), Err(TileError::BlockedTile));
    assert_eq!(b.place_tile(9, 0, Face::Jack), Err(TileError::XOutOfBounds));
}

#[test]
fn failed_placement_changes_nothing() {
    let mut b = Board::new(7, 7);
    b.place_tile(3, 2, Face::Queen).unwrap();
    let before = tiles_of(&b, 7, 7);
    let turn_before = b.color;
    assert!(b.place_tile(0, 0, Face::Jack).is_err());
    assert!(b.place_tile(3, 3, Face::Jack).is_err());
    assert!(b.place_tile(9, 0, Face::Jack).is_err());
    assert_eq!(tiles_of(&b, 7, 7), before);
    assert_eq!(b.color, turn_before);
}

#[test]
fn turn_alternates_on_each_successful_placement() {
    let mut b = Board::new(7, 7);
    assert_eq!(b.color, Color::Red);
    b.place_tile(3, 2, Face::Ace).unwrap();
    assert_eq!(b.color, Color::Black);
    b.place_tile(2, 3, Face::Ace).unwrap();
    assert_eq!(b.color, Color::Red);
}

#[test]
fn surrounded_seed_forces_free_placement() {
    let mut b = Board::new(7, 7);
    b.place_tile(3, 2, Face::Jack).unwrap();
    b.place_tile(2, 3, Face::Jack).unwrap();
    // a Jack-legal cell still exists next to the seed
    assert_eq!(b.can_place_free(3, 1, Face::Jack), Err(TileError::NotFree));
    b.place_tile(3, 4, Face::Jack).unwrap();
    b.place_tile(4, 3, Face::Jack).unwrap();
    // now every neighbour of the seed is taken: no normal Jack move is left
    assert!(!b.any_legal_move(Face::Jack));
    // free placement wants an empty cell beside some card
    assert_eq!(b.can_place_free(0, 0, Face::Jack), Err(TileError::NonDescending));
    assert!(b.can_place_free(3, 1, Face::Jack).is_ok());
    assert!(b.place_tile(3, 1, Face::Jack).is_ok());
    assert_eq!(b.get_tile(3, 1).unwrap(), Tile::Card(Face::Jack, Color::Red));
}

#[test]
fn any_legal_move_sees_the_whole_grid() {
    let b = Board::new(7, 7);
    assert!(b.any_legal_move(Face::Jack));
    assert!(b.any_legal_move(Face::Ace));
    // nothing outranks the Wild, so the Wild itself has no legal move
    assert!(!b.any_legal_move(Face::Wild));
}

#[test]
fn contiguous_run_casts_shadow_one_square_past_its_far_end() {
    // Along row 6 of a 13x13 board: Ace at x=3, King at x=4, seed Wild at
    // x=6.  Placing an Ace at x=5 walks left over the King and the Ace and
    // blocks the square immediately beyond the first Ace.
    let mut b = Board::new(13, 13);
    b.set_tile(3, 6, Tile::Card(Face::Ace, Color::Black));
    b.set_tile(4, 6, Tile::Card(Face::King, Color::Black));
    assert_eq!(b.get_blocked_tile(5, 6, Dir::Left), Some((2, 6)));
    assert_eq!(b.get_blocked_tile(5, 6, Dir::Right), None);
    assert!(b.place_tile(5, 6, Face::Ace).is_ok());
    assert_eq!(b.get_tile(2, 6).unwrap(), Tile::Blocked);
    assert_eq!(b.get_tile(1, 6).unwrap(), Tile::Empty);
    // rightwards the walk meets the Wild, which never arms the shadow
    assert_eq!(b.get_tile(7, 6).unwrap(), Tile::Empty);
}

#[test]
fn blocked_tile_is_not_a_placement_target() {
    let mut b = Board::new(13, 13);
    b.set_tile(3, 6, Tile::Card(Face::Ace, Color::Black));
    b.set_tile(4, 6, Tile::Card(Face::King, Color::Black));
    b.place_tile(5, 6, Face::Ace).unwrap();
    assert_eq!(b.get_tile(2, 6).unwrap(), Tile::Blocked);
    assert_eq!(b.can_place_tile(2, 6, Face::Jack), Err(TileError::BlockedTile));
}

#[test]
fn clear_blocked_tiles_is_idempotent() {
    let mut b = Board::new(13, 13);
    b.set_tile(3, 6, Tile::Card(Face::Ace, Color::Black));
    b.set_tile(4, 6, Tile::Card(Face::King, Color::Black));
    b.place_tile(5, 6, Face::Ace).unwrap();
    b.clear_blocked_tiles();
    let once = tiles_of(&b, 13, 13);
    assert!(!once.contains(&Tile::Blocked));
    b.clear_blocked_tiles();
    assert_eq!(tiles_of(&b, 13, 13), once);
}

#[test]
fn a_later_move_clears_unrelated_blocks() {
    // the clear-then-recompute-only-new-rays rule: a block cast by an
    // earlier move vanishes when a later move elsewhere recomputes blocking
    let mut b = Board::new(13, 13);
    b.set_tile(3, 6, Tile::Card(Face::Ace, Color::Black));
    b.set_tile(4, 6, Tile::Card(Face::King, Color::Black));
    b.place_tile(5, 6, Face::Ace).unwrap();
    assert_eq!(b.get_tile(2, 6).unwrap(), Tile::Blocked);
    b.place_tile(6, 5, Face::Queen).unwrap();
    assert_eq!(b.get_tile(2, 6).unwrap(), Tile::Empty);
}

#[test]
fn dir_offsets() {
    assert_eq!(Dir::Left.offset(), (-1, 0));
    assert_eq!(Dir::Up.offset(), (0, -1));
    assert_eq!(Dir::Right.offset(), (1, 0));
    assert_eq!(Dir::Down.offset(), (0, 1));
}
