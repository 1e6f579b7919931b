use card_runs::board::Board;
use card_runs::tile::{Color, Face, Tile};

#[test]
fn fresh_board_scores_one_singleton_run_per_orientation_per_colour() {
    let b = Board::new(7, 7);
    let (red, black) = b.get_lines();
    // the seed is scored once for Red and once for Black, in each of the
    // four orientations, always as a run of length one
    assert_eq!(red, vec![4, 0, 0, 0, 0, 0, 0]);
    assert_eq!(black, vec![4, 0, 0, 0, 0, 0, 0]);
}

#[test]
fn horizontal_run_of_three_fills_exactly_its_bucket() {
    let mut b = Board::new(7, 7);
    b.set_tile(0, 0, Tile::Card(Face::Jack, Color::Red));
    b.set_tile(1, 0, Tile::Card(Face::Queen, Color::Red));
    b.set_tile(2, 0, Tile::Card(Face::King, Color::Red));
    let (red, black) = b.get_lines();
    // the run of three is counted once, in the bucket for length three;
    // each of the three cards also stands alone vertically and in both
    // diagonals, and the seed contributes its four singleton runs
    assert_eq!(red[2], 1);
    assert_eq!(red[1], 0);
    assert_eq!(red[0], 13);
    assert_eq!(red, vec![13, 0, 1, 0, 0, 0, 0]);
    assert_eq!(black, vec![4, 0, 0, 0, 0, 0, 0]);
}

#[test]
fn run_length_sums_tally_with_the_tile_counts() {
    let mut b = Board::new(7, 7);
    b.set_tile(0, 0, Tile::Card(Face::Jack, Color::Red));
    b.set_tile(1, 0, Tile::Card(Face::Queen, Color::Red));
    b.set_tile(2, 0, Tile::Card(Face::King, Color::Red));
    b.set_tile(5, 5, Tile::Card(Face::Jack, Color::Black));
    let (red, black) = b.get_lines();
    let weighted = |hist: &Vec<usize>| -> usize {
        hist.iter().enumerate().map(|(l, n)| (l + 1) * n).sum()
    };
    // each of the four orientations partitions a colour's tiles (seed
    // included) into runs, so the weighted sum is four times the count
    assert_eq!(weighted(&red), 4 * (3 + 1));
    assert_eq!(weighted(&black), 4 * (1 + 1));
}

#[test]
fn both_seed_extends_runs_for_each_colour_separately() {
    let mut b = Board::new(7, 7);
    // a Red card right of the seed and a Black card below it
    b.set_tile(4, 3, Tile::Card(Face::Ace, Color::Red));
    b.set_tile(3, 4, Tile::Card(Face::Ace, Color::Black));
    let (red, black) = b.get_lines();
    // Red: horizontal run of two from the seed, plus seed singletons in
    // the other three orientations, plus the card's own three singletons
    assert_eq!(red, vec![6, 1, 0, 0, 0, 0, 0]);
    // Black: vertical run of two from the seed, mirrored
    assert_eq!(black, vec![6, 1, 0, 0, 0, 0, 0]);
}

#[test]
fn diagonal_runs_are_scored() {
    let mut b = Board::new(7, 7);
    // a down-right diagonal pair away from the seed
    b.set_tile(0, 0, Tile::Card(Face::Jack, Color::Black));
    b.set_tile(1, 1, Tile::Card(Face::Jack, Color::Black));
    // a down-left diagonal pair
    b.set_tile(6, 4, Tile::Card(Face::Jack, Color::Red));
    b.set_tile(5, 5, Tile::Card(Face::Jack, Color::Red));
    let (red, black) = b.get_lines();
    // each pair: one run of two in its diagonal, six singletons elsewhere
    assert_eq!(red, vec![10, 1, 0, 0, 0, 0, 0]);
    assert_eq!(black, vec![10, 1, 0, 0, 0, 0, 0]);
}

#[test]
fn histogram_length_follows_the_larger_dimension() {
    let b = Board::new(13, 13);
    let (red, black) = b.get_lines();
    assert_eq!(red.len(), 13);
    assert_eq!(black.len(), 13);
    assert_eq!(red[0], 4);
    assert_eq!(black[0], 4);
}
