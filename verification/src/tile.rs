//! The atomic board cell model: card faces, player colours, and tiles.

use vstd::prelude::*;

verus! {

/// Card strength tier, in ascending order: Jack < Queen < King < Ace < Wild.
#[derive(Clone, Copy, Debug, PartialEq, Eq, Structural)]
pub enum Face {
    Jack,
    Queen,
    King,
    Ace,
    Wild,
}

/// Which player's card occupies a tile.  `Both` marks the single seed tile
/// and is never produced by a player placement.
#[derive(Clone, Copy, Debug, PartialEq, Eq, Structural)]
pub enum Color {
    Both,
    Red,
    Black,
}

/// One board cell: empty, transiently blocked, or holding a card.
#[derive(Clone, Copy, Debug, PartialEq, Eq, Structural)]
pub enum Tile {
    Empty,
    Blocked,
    Card(Face, Color),
}

/// `t` holds a card of strictly higher rank than `face`.
pub open spec fn spec_ascends(t: Tile, face: Face) -> bool {
    match t {
        Tile::Card(f, _) => f.rank() > face.rank(),
        _ => false,
    }
}

/// The turn after `c`: Red and Black alternate, `Both` never changes.
pub open spec fn flip(c: Color) -> Color {
    match c {
        Color::Red => Color::Black,
        Color::Black => Color::Red,
        Color::Both => Color::Both,
    }
}

impl Face {
    /// Position of this face in the rank order, Jack lowest.
    pub open spec fn rank(self) -> int {
        match self {
            Face::Jack => 0,
            Face::Queen => 1,
            Face::King => 2,
            Face::Ace => 3,
            Face::Wild => 4,
        }
    }

    /// Runtime counterpart of `rank`.
    fn rank_num(&self) -> (r: u32)
        ensures
            r == self.rank(),
    {
        match self {
            Face::Jack => 0,
            Face::Queen => 1,
            Face::King => 2,
            Face::Ace => 3,
            Face::Wild => 4,
        }
    }

    /// True when this face ranks strictly below the card on `tile`.
    pub fn is_descending_from_tile(&self, tile: Tile) -> (r: bool)
        ensures
            r == spec_ascends(tile, *self),
    {
        if let Tile::Card(face, _) = tile {
            self.rank_num() < face.rank_num()
        } else {
            false
        }
    }

    /// The face at position `num` of the rank order, for the four
    /// player-placeable faces.
    pub fn from_num(num: u32) -> (f: Face)
        requires
            num <= 3,
        ensures
            f.rank() == num,
    {
        if num == 0 {
            Face::Jack
        } else if num == 1 {
            Face::Queen
        } else if num == 2 {
            Face::King
        } else {
            Face::Ace
        }
    }
}

impl Tile {
    /// True when this tile holds a card of strictly higher rank than `face`.
    pub fn is_ascending_from_face(&self, face: Face) -> (r: bool)
        ensures
            r == spec_ascends(*self, face),
    {
        if let Tile::Card(s_face, _) = self {
            s_face.rank_num() > face.rank_num()
        } else {
            false
        }
    }

    /// True when this tile holds a card.
    pub fn is_card(&self) -> (r: bool)
        ensures
            r == (*self is Card),
    {
        if let Tile::Card(..) = self {
            true
        } else {
            false
        }
    }
}

impl Color {
    /// Advance the turn: Red and Black swap, `Both` stays as it is.
    pub fn next(&mut self)
        ensures
            *final(self) == flip(*old(self)),
    {
        *self = match *self {
            Color::Red => Color::Black,
            Color::Black => Color::Red,
            c => c,
        };
    }
}

/// The face a caller has currently picked to place, if any.
pub struct Selected {
    pub face: Option<Face>,
}

} // verus!
