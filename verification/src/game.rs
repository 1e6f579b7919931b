//! The move history: an append-only log of move records with a live
//! cursor, supporting undo, redo, and branch-on-new-move.

use vstd::prelude::*;

verus! {

use crate::board::{is_fresh_board, Board, Inventory};
use crate::tile::Face;

/// One played move: the coordinate and the face that were placed.
pub struct Move {
    pub x: u32,
    pub y: u32,
    pub face: Face,
}

/// A full game: the sequence of move records, each holding the optional
/// move plus the board and both inventories as they stood after it, and a
/// cursor into that sequence.  The first record has no move and is the
/// starting position.
pub struct Game {
    moves: Vec<(Option<Move>, Board, (Inventory, Inventory))>,
    pos: usize,
}

impl Game {
    /// The recorded sequence of move records.
    pub closed spec fn history(self) -> Seq<(Option<Move>, Board, (Inventory, Inventory))> {
        self.moves@
    }

    /// The cursor: the index of the record currently displayed.
    pub closed spec fn cursor(self) -> int {
        self.pos as int
    }

    /// The cursor is always a valid index of a non-empty history.
    pub open spec fn well_formed(self) -> bool {
        0 <= self.cursor() < self.history().len()
    }

    /// A fresh game: one record holding no move, a fresh board, and a
    /// stock of three cards of each face for both players.
    pub fn new(x: u32, y: u32) -> (g: Game)
        requires
            1 <= x,
            1 <= y,
            x as int * y as int <= u32::MAX,
        ensures
            g.well_formed(),
            g.history().len() == 1,
            g.cursor() == 0,
            g.history()[0].0 is None,
            is_fresh_board(g.history()[0].1, x as int, y as int),
            forall|f: Face|
                f != Face::Wild ==> #[trigger] g.history()[0].2.0.count(f) == 3,
            forall|f: Face|
                f != Face::Wild ==> #[trigger] g.history()[0].2.1.count(f) == 3,
    {
        let mut moves: Vec<(Option<Move>, Board, (Inventory, Inventory))> = Vec::new();
        moves.push((None, Board::new(x, y), (Inventory::new(3), Inventory::new(3))));
        Game { moves, pos: 0 }
    }

    /// Rewind the cursor to the starting position.
    pub fn first_move(&mut self) -> (b: &Board)
        requires
            old(self).well_formed(),
        ensures
            final(self).well_formed(),
            final(self).history() == old(self).history(),
            final(self).cursor() == 0,
            *b == final(self).history()[0].1,
    {
        self.pos = 0;
        &self.moves[self.pos].1
    }

    /// Step the cursor one record back, saturating at the start.
    pub fn prev_move(&mut self) -> (b: &Board)
        requires
            old(self).well_formed(),
        ensures
            final(self).well_formed(),
            final(self).history() == old(self).history(),
            final(self).cursor() == if old(self).cursor() > 0 {
                old(self).cursor() - 1
            } else {
                0
            },
            *b == final(self).history()[final(self).cursor()].1,
    {
        if self.pos > 0 {
            self.pos = self.pos - 1;
        }
        &self.moves[self.pos].1
    }

    /// Step the cursor one record forward, saturating at the last record.
    pub fn next_move(&mut self) -> (b: &Board)
        requires
            old(self).well_formed(),
        ensures
            final(self).well_formed(),
            final(self).history() == old(self).history(),
            final(self).cursor() == if old(self).cursor() + 1 < old(self).history().len() {
                old(self).cursor() + 1
            } else {
                old(self).cursor()
            },
            *b == final(self).history()[final(self).cursor()].1,
    {
        let n = self.moves.len();
        if self.pos < n - 1 {
            self.pos = self.pos + 1;
        }
        &self.moves[self.pos].1
    }

    /// Jump the cursor to the last record.
    pub fn last_move(&mut self) -> (b: &Board)
        requires
            old(self).well_formed(),
        ensures
            final(self).well_formed(),
            final(self).history() == old(self).history(),
            final(self).cursor() == old(self).history().len() - 1,
            *b == final(self).history()[final(self).cursor()].1,
    {
        self.pos = self.moves.len() - 1;
        &self.moves[self.pos].1
    }

    /// Record a new move: every record after the cursor is discarded, the
    /// new record is appended, and the cursor moves to it.
    pub fn add_move(
        &mut self,
        x: u32,
        y: u32,
        face: Face,
        board: Board,
        red_inv: Inventory,
        black_inv: Inventory,
    )
        requires
            old(self).well_formed(),
        ensures
            final(self).well_formed(),
            final(self).history() == old(self).history().subrange(
                0,
                old(self).cursor() + 1,
            ).push((Some((Move { x, y, face })), board, (red_inv, black_inv))),
            final(self).cursor() == old(self).cursor() + 1,
    {
        let n = self.moves.len();
        assert(self.pos < n);
        self.moves.truncate(self.pos + 1);
        self.moves.push((Some(Move { x, y, face }), board, (red_inv, black_inv)));
        self.pos = self.pos + 1;
    }

    /// Read the record at the cursor.
    pub fn get_move(&self) -> (m: &(Option<Move>, Board, (Inventory, Inventory)))
        requires
            self.well_formed(),
        ensures
            *m == self.history()[self.cursor()],
    {
        &self.moves[self.pos]
    }

    /// Borrow the record at the cursor mutably.
    pub fn get_mut_move(&mut self) -> (m: &mut (Option<Move>, Board, (Inventory, Inventory)))
        requires
            old(self).well_formed(),
        ensures
            *m == old(self).history()[old(self).cursor()],
            final(self).history() == old(self).history().update(old(self).cursor(), *final(m)),
            final(self).cursor() == old(self).cursor(),
            final(self).well_formed(),
    {
        &mut self.moves[self.pos]
    }

    /// Read the cursor position.
    pub fn get_pos(&self) -> (p: usize)
        ensures
            p == self.cursor(),
    {
        self.pos
    }
}

} // verus!
