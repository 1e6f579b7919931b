//! The board: a fixed-size grid of tiles with placement legality checks,
//! blocking propagation and line scoring, plus the per-player card stock.

use vstd::prelude::*;

verus! {

use crate::lines::{
    Orient, add_cell, add_orient, bit_set, cell, consumed_before, covered, flags_ok, grid_idx,
    hist_bumped, hist_ints, hist_upto, in_class, is_start, lemma_add_cell_bound,
    lemma_add_cell_skip, lemma_add_orient_bound, lemma_bit_clear_zero, lemma_ext_bound,
    lemma_flags_advance_empty, lemma_flags_wrap, lemma_grid_idx_in_range,
    lemma_grid_idx_injective, lemma_hist_bumped_ints, lemma_mask_or, lemma_orient_advance_both,
    lemma_orient_advance_nostart, lemma_orient_advance_walk, lemma_start_of, maxdim, on_grid,
    orient_bits_ok, ray_pos, run_ext, spec_lines, start_of, walk_bits,
};
use crate::tile::{flip, spec_ascends, Color, Face, Tile};

/// Why a coordinate access or a placement was rejected.
#[derive(Clone, Copy, Debug, PartialEq, Eq, Structural)]
pub enum TileError {
    XOutOfBounds,
    YOutOfBounds,
    BlockedTile,
    NonDescending,
    NotFree,
}

/// One of the four cardinal directions used by the blocking walk.
#[derive(Clone, Copy, Debug, PartialEq, Eq, Structural)]
pub enum Dir {
    Left,
    Up,
    Right,
    Down,
}

impl Dir {
    /// The unit step of this direction, as (dx, dy).
    pub open spec fn spec_offset(self) -> (int, int) {
        match self {
            Dir::Left => (-1, 0),
            Dir::Up => (0, -1),
            Dir::Right => (1, 0),
            Dir::Down => (0, 1),
        }
    }

    /// Runtime counterpart of `spec_offset`.
    pub fn offset(&self) -> (r: (i32, i32))
        ensures
            r.0 == self.spec_offset().0,
            r.1 == self.spec_offset().1,
    {
        match self {
            Dir::Left => (-1, 0),
            Dir::Up => (0, -1),
            Dir::Right => (1, 0),
            Dir::Down => (0, 1),
        }
    }
}

/// Runtime counterpart of `Orient::mask`.
fn orient_mask(o: Orient) -> (m: u8)
    ensures
        m == o.mask(),
{
    match o {
        Orient::DownRight => 8,
        Orient::Vertical => 4,
        Orient::DownLeft => 2,
        Orient::Horizontal => 1,
    }
}

/// A caller-side tag holding the flat index of a displayed cell.
pub struct Index(pub usize);

/// `b` is a freshly constructed x-by-y board: well formed, Red to move,
/// with the seed Wild at the centre and every other tile empty.
pub open spec fn is_fresh_board(b: Board, x: int, y: int) -> bool {
    &&& b.well_formed()
    &&& b.spec_width() == x
    &&& b.spec_height() == y
    &&& b.turn() == Color::Red
    &&& b.tiles()[b.center()] == Tile::Card(Face::Wild, Color::Both)
    &&& forall|i: int| 0 <= i < b.tiles().len() && i != b.center() ==> b.tiles()[i] == Tile::Empty
}

/// The playing board: a row-major grid of tiles and the colour whose turn
/// it is.
#[derive(Clone)]
pub struct Board {
    size_x: u32,
    size_y: u32,
    board: Vec<Tile>,
    pub color: Color,
}

impl Board {
    /// The colour whose turn it is.
    pub closed spec fn turn(self) -> Color {
        self.color
    }

    /// Board width, in cells.
    pub closed spec fn spec_width(self) -> int {
        self.size_x as int
    }

    /// Board height, in cells.
    pub closed spec fn spec_height(self) -> int {
        self.size_y as int
    }

    /// The flat row-major tile sequence.
    pub closed spec fn tiles(self) -> Seq<Tile> {
        self.board@
    }

    /// The flat index of the cell at (x, y).
    pub open spec fn spec_idx(self, x: int, y: int) -> int {
        grid_idx(self.spec_width(), x, y)
    }

    /// (x, y) lies on the board.
    pub open spec fn in_bounds(self, x: int, y: int) -> bool {
        on_grid(self.spec_width(), self.spec_height(), x, y)
    }

    /// The tile at (x, y).
    pub open spec fn tile_at(self, x: int, y: int) -> Tile {
        self.tiles()[self.spec_idx(x, y)]
    }

    /// Structural invariant: the grid is non-empty, its flat length matches
    /// the dimensions, and the turn belongs to one of the two players.
    pub open spec fn well_formed(self) -> bool {
        &&& 1 <= self.spec_width()
        &&& 1 <= self.spec_height()
        &&& self.spec_width() * self.spec_height() <= u32::MAX
        &&& self.tiles().len() == self.spec_width() * self.spec_height()
        &&& (self.turn() == Color::Red || self.turn() == Color::Black)
    }

    /// The flat index of the seed tile: the row-major midpoint.
    pub open spec fn center(self) -> int {
        self.spec_width() * self.spec_height() / 2
    }

    /// A fresh board: all tiles empty except the central seed card, a Wild
    /// owned by both players, and Red to move.
    pub fn new(x: u32, y: u32) -> (b: Board)
        requires
            1 <= x,
            1 <= y,
            x as int * y as int <= u32::MAX,
        ensures
            is_fresh_board(b, x as int, y as int),
    {
        proof {
            assert(1 <= x as int * y as int) by (nonlinear_arith)
                requires
                    1 <= x,
                    1 <= y,
            ;
        }
        let n = x * y;
        let mut board: Vec<Tile> = Vec::new();
        let mut i: u32 = 0;
        while i < n
            invariant
                i <= n,
                board@.len() == i,
                forall|j: int| 0 <= j < i ==> board@[j] == Tile::Empty,
            decreases n - i,
        {
            board.push(Tile::Empty);
            i = i + 1;
        }
        board[(n / 2) as usize] = Tile::Card(Face::Wild, Color::Both);
        Board { size_x: x, size_y: y, board, color: Color::Red }
    }

    /// What `get_tile` returns for each coordinate.
    pub open spec fn spec_get_tile(self, x: int, y: int) -> Result<Tile, TileError> {
        if x >= self.spec_width() {
            Err(TileError::XOutOfBounds)
        } else if y >= self.spec_height() {
            Err(TileError::YOutOfBounds)
        } else {
            Ok(self.tile_at(x, y))
        }
    }

    /// Read the tile at (x, y), rejecting out-of-range coordinates.
    pub fn get_tile(&self, x: u32, y: u32) -> (r: Result<Tile, TileError>)
        requires
            self.well_formed(),
        ensures
            r == self.spec_get_tile(x as int, y as int),
    {
        if x >= self.size_x {
            return Err(TileError::XOutOfBounds);
        }
        if y >= self.size_y {
            return Err(TileError::YOutOfBounds);
        }
        proof {
            lemma_grid_idx_in_range(self.spec_width(), self.spec_height(), x as int, y as int);
        }
        let index = self.size_x * y + x;
        Ok(self.board[index as usize])
    }

    /// Borrow the tile at (x, y) mutably, rejecting out-of-range coordinates.
    pub fn get_mut_tile(&mut self, x: u32, y: u32) -> (r: Result<&mut Tile, TileError>)
        requires
            old(self).well_formed(),
        ensures
            r is Ok <==> old(self).in_bounds(x as int, y as int),
            r matches Ok(t) ==> {
                &&& *t == old(self).tile_at(x as int, y as int)
                &&& final(self).tiles() == old(self).tiles().update(
                    old(self).spec_idx(x as int, y as int),
                    *final(t),
                )
                &&& final(self).spec_width() == old(self).spec_width()
                &&& final(self).spec_height() == old(self).spec_height()
                &&& final(self).turn() == old(self).turn()
            },
            r matches Err(e) ==> {
                &&& *final(self) == *old(self)
                &&& old(self).spec_get_tile(x as int, y as int) == Err::<Tile, TileError>(e)
            },
    {
        if x >= self.size_x {
            return Err(TileError::XOutOfBounds);
        }
        if y >= self.size_y {
            return Err(TileError::YOutOfBounds);
        }
        proof {
            lemma_grid_idx_in_range(self.spec_width(), self.spec_height(), x as int, y as int);
        }
        let index = self.size_x * y + x;
        Ok(&mut self.board[index as usize])
    }

    /// Overwrite the tile at (x, y); the coordinate must already be known to
    /// be on the board.
    pub fn set_tile(&mut self, x: u32, y: u32, tile: Tile)
        requires
            old(self).well_formed(),
            old(self).in_bounds(x as int, y as int),
        ensures
            final(self).well_formed(),
            final(self).tiles() == old(self).tiles().update(
                old(self).spec_idx(x as int, y as int),
                tile,
            ),
            final(self).spec_width() == old(self).spec_width(),
            final(self).spec_height() == old(self).spec_height(),
            final(self).turn() == old(self).turn(),
    {
        proof {
            lemma_grid_idx_in_range(self.spec_width(), self.spec_height(), x as int, y as int);
        }
        let index = self.size_x * y + x;
        self.board[index as usize] = tile;
    }

    /// Read an on-board tile without the bounds-error plumbing.
    fn tile(&self, x: u32, y: u32) -> (t: Tile)
        requires
            self.well_formed(),
            self.in_bounds(x as int, y as int),
        ensures
            t == self.tile_at(x as int, y as int),
    {
        proof {
            lemma_grid_idx_in_range(self.spec_width(), self.spec_height(), x as int, y as int);
        }
        let index = self.size_x * y + x;
        self.board[index as usize]
    }

    /// Some orthogonal neighbour of (x, y) holds a card of strictly higher
    /// rank than `face`.
    pub open spec fn has_ascending_neighbor(self, x: int, y: int, face: Face) -> bool {
        ||| x > 0 && spec_ascends(self.tile_at(x - 1, y), face)
        ||| y > 0 && spec_ascends(self.tile_at(x, y - 1), face)
        ||| x + 1 < self.spec_width() && spec_ascends(self.tile_at(x + 1, y), face)
        ||| y + 1 < self.spec_height() && spec_ascends(self.tile_at(x, y + 1), face)
    }

    /// Some orthogonal neighbour of (x, y) holds a card of any rank.
    pub open spec fn has_card_neighbor(self, x: int, y: int) -> bool {
        ||| x > 0 && self.tile_at(x - 1, y) is Card
        ||| y > 0 && self.tile_at(x, y - 1) is Card
        ||| x + 1 < self.spec_width() && self.tile_at(x + 1, y) is Card
        ||| y + 1 < self.spec_height() && self.tile_at(x, y + 1) is Card
    }

    /// What `can_place_tile` returns: the target must be on the board and
    /// empty, with a strictly higher-ranked card on some orthogonal
    /// neighbour.
    pub open spec fn spec_can_place(self, x: int, y: int, face: Face) -> Result<(), TileError> {
        if x >= self.spec_width() {
            Err(TileError::XOutOfBounds)
        } else if y >= self.spec_height() {
            Err(TileError::YOutOfBounds)
        } else if self.tile_at(x, y) != Tile::Empty {
            Err(TileError::BlockedTile)
        } else if !self.has_ascending_neighbor(x, y, face) {
            Err(TileError::NonDescending)
        } else {
            Ok(())
        }
    }

    /// Some cell of the board admits a normal placement of `face`.
    pub open spec fn has_legal_move(self, face: Face) -> bool {
        exists|x: int, y: int|
            0 <= x && 0 <= y && #[trigger] self.spec_can_place(x, y, face) is Ok
    }

    /// What `can_place_free` returns: free placement is available only when
    /// no normal placement of `face` exists anywhere, and then only on an
    /// empty on-board cell orthogonally adjacent to any card.
    pub open spec fn spec_can_place_free(self, x: int, y: int, face: Face) -> Result<
        (),
        TileError,
    > {
        if self.has_legal_move(face) {
            Err(TileError::NotFree)
        } else if x >= self.spec_width() {
            Err(TileError::XOutOfBounds)
        } else if y >= self.spec_height() {
            Err(TileError::YOutOfBounds)
        } else if self.tile_at(x, y) != Tile::Empty {
            Err(TileError::BlockedTile)
        } else if !self.has_card_neighbor(x, y) {
            Err(TileError::NonDescending)
        } else {
            Ok(())
        }
    }

    /// What `place_tile` returns: the normal check, with the free-placement
    /// check consulted only for its success; when both fail, the first
    /// legality error - the normal check's - is the one reported.
    pub open spec fn spec_place_check(self, x: int, y: int, face: Face) -> Result<(), TileError> {
        if self.spec_can_place(x, y, face) is Ok || self.spec_can_place_free(x, y, face) is Ok {
            Ok(())
        } else {
            self.spec_can_place(x, y, face)
        }
    }

    /// Check a normal placement of `face` at (x, y).
    pub fn can_place_tile(&self, x: u32, y: u32, face: Face) -> (r: Result<(), TileError>)
        requires
            self.well_formed(),
        ensures
            r == self.spec_can_place(x as int, y as int, face),
    {
        if x >= self.size_x {
            return Err(TileError::XOutOfBounds);
        }
        if y >= self.size_y {
            return Err(TileError::YOutOfBounds);
        }
        if !(matches!(self.tile(x, y), Tile::Empty)) {
            return Err(TileError::BlockedTile);
        }
        let mut found = false;
        if x > 0 {
            found = self.tile(x - 1, y).is_ascending_from_face(face);
        }
        if !found && y > 0 {
            found = self.tile(x, y - 1).is_ascending_from_face(face);
        }
        if !found && x + 1 < self.size_x {
            found = self.tile(x + 1, y).is_ascending_from_face(face);
        }
        if !found && y + 1 < self.size_y {
            found = self.tile(x, y + 1).is_ascending_from_face(face);
        }
        if found {
            Ok(())
        } else {
            Err(TileError::NonDescending)
        }
    }

    /// Scan the whole grid for a cell where a normal placement of `face`
    /// would be accepted.
    pub fn any_legal_move(&self, face: Face) -> (r: bool)
        requires
            self.well_formed(),
        ensures
            r == self.has_legal_move(face),
    {
        let mut y: u32 = 0;
        while y < self.size_y
            invariant
                self.well_formed(),
                y <= self.size_y,
                forall|i: int, j: int|
                    0 <= i && 0 <= j < y ==> !(#[trigger] self.spec_can_place(i, j, face) is Ok),
            decreases self.spec_height() - y,
        {
            let mut x: u32 = 0;
            while x < self.size_x
                invariant
                    self.well_formed(),
                    y < self.size_y,
                    x <= self.size_x,
                    forall|i: int, j: int|
                        0 <= i && 0 <= j < y ==> !(#[trigger] self.spec_can_place(
                            i,
                            j,
                            face,
                        ) is Ok),
                    forall|i: int|
                        0 <= i < x ==> !(#[trigger] self.spec_can_place(i, y as int, face) is Ok),
                decreases self.spec_width() - x,
            {
                if self.can_place_tile(x, y, face).is_ok() {
                    return true;
                }
                x = x + 1;
            }
            y = y + 1;
        }
        false
    }

    /// Check a free placement of `face` at (x, y).
    pub fn can_place_free(&self, x: u32, y: u32, face: Face) -> (r: Result<(), TileError>)
        requires
            self.well_formed(),
        ensures
            r == self.spec_can_place_free(x as int, y as int, face),
    {
        if self.any_legal_move(face) {
            return Err(TileError::NotFree);
        }
        if x >= self.size_x {
            return Err(TileError::XOutOfBounds);
        }
        if y >= self.size_y {
            return Err(TileError::YOutOfBounds);
        }
        if !(matches!(self.tile(x, y), Tile::Empty)) {
            return Err(TileError::BlockedTile);
        }
        let mut found = false;
        if x > 0 {
            found = self.tile(x - 1, y).is_card();
        }
        if !found && y > 0 {
            found = self.tile(x, y - 1).is_card();
        }
        if !found && x + 1 < self.size_x {
            found = self.tile(x + 1, y).is_card();
        }
        if !found && y + 1 < self.size_y {
            found = self.tile(x, y + 1).is_card();
        }
        if found {
            Ok(())
        } else {
            Err(TileError::NonDescending)
        }
    }

    /// Revert every blocked tile on the board to empty.
    pub fn clear_blocked_tiles(&mut self)
        requires
            old(self).well_formed(),
        ensures
            final(self).well_formed(),
            final(self).tiles() == spec_clear_blocked(old(self).tiles()),
            final(self).spec_width() == old(self).spec_width(),
            final(self).spec_height() == old(self).spec_height(),
            final(self).turn() == old(self).turn(),
    {
        let n = self.board.len();
        let mut i: usize = 0;
        while i < n
            invariant
                self.board@.len() == n,
                old(self).board@.len() == n,
                i <= n,
                self.size_x == old(self).size_x,
                self.size_y == old(self).size_y,
                self.color == old(self).color,
                forall|j: int| 0 <= j < i ==> self.board@[j] == clear_tile(old(self).board@[j]),
                forall|j: int| i <= j < n ==> self.board@[j] == old(self).board@[j],
            decreases n - i,
        {
            let t = self.board[i];
            if matches!(t, Tile::Blocked) {
                self.board[i] = Tile::Empty;
            }
            i = i + 1;
        }
        proof {
            assert(self.tiles() =~= spec_clear_blocked(old(self).tiles()));
        }
    }

    /// Walk outward from (x, y) along `dir` and report the tile that must
    /// become blocked, if any.
    pub fn get_blocked_tile(&self, x: u32, y: u32, dir: Dir) -> (r: Option<(u32, u32)>)
        requires
            self.well_formed(),
            self.in_bounds(x as int, y as int),
        ensures
            (match r {
                Some(p) => blocked_walk(
                    self.tiles(),
                    self.spec_width(),
                    self.spec_height(),
                    x as int,
                    y as int,
                    dir,
                    false,
                ) == Some((p.0 as int, p.1 as int)),
                None => blocked_walk(
                    self.tiles(),
                    self.spec_width(),
                    self.spec_height(),
                    x as int,
                    y as int,
                    dir,
                    false,
                ) is None,
            }),
    {
        let mut cx = x;
        let mut cy = y;
        let mut will_block = false;
        loop
            invariant
                self.well_formed(),
                self.in_bounds(cx as int, cy as int),
                blocked_walk(
                    self.tiles(),
                    self.spec_width(),
                    self.spec_height(),
                    x as int,
                    y as int,
                    dir,
                    false,
                ) == blocked_walk(
                    self.tiles(),
                    self.spec_width(),
                    self.spec_height(),
                    cx as int,
                    cy as int,
                    dir,
                    will_block,
                ),
            decreases
                (match dir {
                    Dir::Left => cx as int,
                    Dir::Up => cy as int,
                    Dir::Right => self.spec_width() - cx,
                    Dir::Down => self.spec_height() - cy,
                }),
        {
            let (dx, dy) = dir.offset();
            let nxi = cx as i64 + dx as i64;
            let nyi = cy as i64 + dy as i64;
            if nxi < 0 || nyi < 0 || nxi >= self.size_x as i64 || nyi >= self.size_y as i64 {
                return None;
            }
            let nx = nxi as u32;
            let ny = nyi as u32;
            match self.tile(nx, ny) {
                Tile::Empty => {
                    if will_block {
                        return Some((nx, ny));
                    } else {
                        return None;
                    }
                },
                Tile::Blocked => {
                    return None;
                },
                Tile::Card(f, _) => {
                    if !(matches!(f, Face::Wild)) {
                        will_block = true;
                    }
                },
            }
            cx = nx;
            cy = ny;
        }
    }

    /// Run one directional blocking walk from (x, y) and mark its shadowed
    /// tile, if any.
    fn block_dir(&mut self, x: u32, y: u32, dir: Dir)
        requires
            old(self).well_formed(),
            old(self).in_bounds(x as int, y as int),
        ensures
            final(self).well_formed(),
            final(self).tiles() == apply_block_dir(
                old(self).tiles(),
                old(self).spec_width(),
                old(self).spec_height(),
                x as int,
                y as int,
                dir,
            ),
            final(self).spec_width() == old(self).spec_width(),
            final(self).spec_height() == old(self).spec_height(),
            final(self).turn() == old(self).turn(),
    {
        proof {
            lemma_blocked_walk_on_grid(
                self.tiles(),
                self.spec_width(),
                self.spec_height(),
                x as int,
                y as int,
                dir,
                false,
            );
        }
        if let Some((bx, by)) = self.get_blocked_tile(x, y, dir) {
            self.set_tile(bx, by, Tile::Blocked);
        }
    }

    /// Step one cell along `o` from (x, y), or report that the step leaves
    /// the grid.
    fn step_in(&self, o: Orient, x: u32, y: u32) -> (r: Option<(u32, u32)>)
        requires
            self.well_formed(),
            self.in_bounds(x as int, y as int),
        ensures
            (match r {
                Some(p) => {
                    &&& on_grid(
                        self.spec_width(),
                        self.spec_height(),
                        x as int + o.dx(),
                        y as int + o.dy(),
                    )
                    &&& p.0 == x as int + o.dx()
                    &&& p.1 == y as int + o.dy()
                },
                None => !on_grid(
                    self.spec_width(),
                    self.spec_height(),
                    x as int + o.dx(),
                    y as int + o.dy(),
                ),
            }),
    {
        match o {
            Orient::DownRight => if x + 1 < self.size_x && y + 1 < self.size_y {
                Some((x + 1, y + 1))
            } else {
                None
            },
            Orient::Vertical => if y + 1 < self.size_y {
                Some((x, y + 1))
            } else {
                None
            },
            Orient::DownLeft => if x > 0 && y + 1 < self.size_y {
                Some((x - 1, y + 1))
            } else {
                None
            },
            Orient::Horizontal => if x + 1 < self.size_x {
                Some((x + 1, y))
            } else {
                None
            },
        }
    }

    /// Walk the run of colour `c` that begins at (x, y) along `o`: mark the
    /// orientation's visited bit on every consumed cell and count the run's
    /// length in the histogram bucket for that length.
    fn handle_line(
        &self,
        flags: &mut Vec<u8>,
        hist: &mut Vec<usize>,
        x: u32,
        y: u32,
        c: Color,
        o: Orient,
    )
        requires
            self.well_formed(),
            self.in_bounds(x as int, y as int),
            is_start(
                self.tiles(),
                self.spec_width(),
                self.spec_height(),
                o,
                c,
                x as int,
                y as int,
            ),
            old(flags)@.len() == self.spec_width() * self.spec_height(),
            old(hist)@.len() == maxdim(self.spec_width(), self.spec_height()),
            forall|l: int| 0 <= l < old(hist)@.len() ==> (#[trigger] old(hist)@[l]) < usize::MAX,
        ensures
            walk_bits(
                self.tiles(),
                self.spec_width(),
                self.spec_height(),
                o,
                c,
                x as int,
                y as int,
                old(flags)@,
                final(flags)@,
            ),
            hist_bumped(
                old(hist)@,
                final(hist)@,
                run_ext(
                    self.tiles(),
                    self.spec_width(),
                    self.spec_height(),
                    o,
                    c,
                    x as int,
                    y as int,
                ),
            ),
    {
        let ghost s = self.tiles();
        let ghost w = self.spec_width();
        let ghost h = self.spec_height();
        let ghost ext_total = run_ext(s, w, h, o, c, x as int, y as int);
        let ghost entry_flags = old(flags)@;
        proof {
            lemma_ext_bound(s, w, h, o, c, x as int, y as int);
            lemma_grid_idx_in_range(w, h, x as int, y as int);
        }
        let m = orient_mask(o);
        let start_index = (self.size_x * y + x) as usize;
        let f0 = flags[start_index];
        flags[start_index] = f0 | m;
        proof {
            assert forall|tx: int, ty: int, o2: Orient| on_grid(w, h, tx, ty) implies (
            #[trigger] bit_set(flags@[grid_idx(w, tx, ty)], o2) == (bit_set(
                entry_flags[grid_idx(w, tx, ty)],
                o2,
            ) || (o2 == o && in_class(cell(s, w, tx, ty), c) && start_of(s, w, h, o, c, tx, ty)
                == (x as int, y as int) && exists|t: int|
                0 <= t < 1 && #[trigger] ray_pos(o, x as int, y as int, t) == (tx, ty)))) by {
                lemma_grid_idx_in_range(w, h, tx, ty);
                lemma_mask_or(f0, o, o2);
                if grid_idx(w, tx, ty) == grid_idx(w, x as int, y as int) {
                    lemma_grid_idx_injective(w, tx, ty, x as int, y as int);
                    assert(ray_pos(o, x as int, y as int, 0) == (tx, ty));
                } else {
                    if o2 == o && in_class(cell(s, w, tx, ty), c) && exists|t: int|
                        0 <= t < 1 && #[trigger] ray_pos(o, x as int, y as int, t) == (tx, ty) {
                        assert(ray_pos(o, x as int, y as int, 0) == (tx, ty));
                        assert(false);
                    }
                }
            }
        }
        let mut cx = x;
        let mut cy = y;
        let mut count: usize = 1;
        loop
            invariant
                self.well_formed(),
                s == self.tiles(),
                w == self.spec_width(),
                h == self.spec_height(),
                m == o.mask(),
                on_grid(w, h, cx as int, cy as int),
                in_class(cell(s, w, cx as int, cy as int), c),
                start_of(s, w, h, o, c, cx as int, cy as int) == (x as int, y as int),
                ray_pos(o, x as int, y as int, count - 1) == (cx as int, cy as int),
                1 <= count,
                count - 1 + run_ext(s, w, h, o, c, cx as int, cy as int) == ext_total,
                0 <= run_ext(s, w, h, o, c, cx as int, cy as int),
                ext_total < maxdim(w, h),
                flags@.len() == w * h,
                hist@ == old(hist)@,
                forall|tx: int, ty: int, o2: Orient|
                    on_grid(w, h, tx, ty) ==> (#[trigger] bit_set(
                        flags@[grid_idx(w, tx, ty)],
                        o2,
                    ) == (bit_set(entry_flags[grid_idx(w, tx, ty)], o2) || (o2 == o && in_class(
                        cell(s, w, tx, ty),
                        c,
                    ) && start_of(s, w, h, o, c, tx, ty) == (x as int, y as int) && exists|t: int|
                        0 <= t < count && #[trigger] ray_pos(o, x as int, y as int, t) == (
                        tx,
                        ty,
                        )))),
            ensures
                run_ext(s, w, h, o, c, cx as int, cy as int) == 0,
            decreases ext_total + 1 - count,
        {
            let next = self.step_in(o, cx, cy);
            if next.is_none() {
                proof {
                    assert(run_ext(s, w, h, o, c, cx as int, cy as int) == 0);
                }
                break;
            }
            let (nx, ny) = next.unwrap();
            let nt = self.tile(nx, ny);
            let cont = match nt {
                Tile::Card(_, cc) => cc == c,
                _ => false,
            };
            if !cont {
                proof {
                    assert(run_ext(s, w, h, o, c, cx as int, cy as int) == 0);
                }
                break;
            }
            proof {
                assert(run_ext(s, w, h, o, c, cx as int, cy as int) == 1 + run_ext(
                    s,
                    w,
                    h,
                    o,
                    c,
                    nx as int,
                    ny as int,
                ));
                lemma_ext_bound(s, w, h, o, c, nx as int, ny as int);
                assert(covered(s, w, h, o, c, nx as int, ny as int));
                assert(start_of(s, w, h, o, c, nx as int, ny as int) == (x as int, y as int));
                assert(ray_pos(o, x as int, y as int, count as int) == (nx as int, ny as int));
                lemma_grid_idx_in_range(w, h, nx as int, ny as int);
            }
            let index = (self.size_x * ny + nx) as usize;
            let ghost pre = flags@;
            let fprev = flags[index];
            flags[index] = fprev | m;
            proof {
                assert(flags@ == pre.update(grid_idx(w, nx as int, ny as int), fprev | m));
                assert forall|tx: int, ty: int, o2: Orient| on_grid(w, h, tx, ty) implies (
                #[trigger] bit_set(flags@[grid_idx(w, tx, ty)], o2) == (bit_set(
                    entry_flags[grid_idx(w, tx, ty)],
                    o2,
                ) || (o2 == o && in_class(cell(s, w, tx, ty), c) && start_of(s, w, h, o, c, tx, ty)
                    == (x as int, y as int) && exists|t: int|
                    0 <= t < count + 1 && #[trigger] ray_pos(o, x as int, y as int, t) == (
                    tx,
                    ty,
                    )))) by {
                    lemma_grid_idx_in_range(w, h, tx, ty);
                    lemma_mask_or(fprev, o, o2);
                    let gi = grid_idx(w, tx, ty);
                    assert(bit_set(pre[gi], o2) == (bit_set(entry_flags[gi], o2) || (o2 == o
                        && in_class(cell(s, w, tx, ty), c) && start_of(s, w, h, o, c, tx, ty) == (
                    x as int,
                    y as int,
                    ) && exists|t: int|
                        0 <= t < count && #[trigger] ray_pos(o, x as int, y as int, t) == (
                        tx,
                        ty,
                        ))));
                    if gi == grid_idx(w, nx as int, ny as int) {
                        lemma_grid_idx_injective(w, tx, ty, nx as int, ny as int);
                        if o2 == o {
                            assert(ray_pos(o, x as int, y as int, count as int) == (tx, ty));
                            assert(exists|t: int|
                                0 <= t < count + 1 && #[trigger] ray_pos(o, x as int, y as int, t)
                                    == (tx, ty));
                        }
                    } else {
                        assert(flags@[gi] == pre[gi]);
                        if o2 == o && in_class(cell(s, w, tx, ty), c) && start_of(
                            s,
                            w,
                            h,
                            o,
                            c,
                            tx,
                            ty,
                        ) == (x as int, y as int) {
                            if exists|t: int|
                                0 <= t < count + 1 && #[trigger] ray_pos(o, x as int, y as int, t)
                                    == (tx, ty) {
                                let t = choose|t: int|
                                    0 <= t < count + 1 && #[trigger] ray_pos(
                                        o,
                                        x as int,
                                        y as int,
                                        t,
                                    ) == (tx, ty);
                                if t == count as int {
                                    assert((tx, ty) == (nx as int, ny as int));
                                    assert(false);
                                }
                            }
                        }
                    }
                }
            }
            cx = nx;
            cy = ny;
            count = count + 1;
        }
        proof {
            assert(count - 1 == ext_total);
            assert forall|tx: int, ty: int, o2: Orient| on_grid(w, h, tx, ty) implies (
            #[trigger] bit_set(flags@[grid_idx(w, tx, ty)], o2) == (bit_set(
                entry_flags[grid_idx(w, tx, ty)],
                o2,
            ) || (o2 == o && in_class(cell(s, w, tx, ty), c) && start_of(s, w, h, o, c, tx, ty)
                == (x as int, y as int)))) by {
                if in_class(cell(s, w, tx, ty), c) && start_of(s, w, h, o, c, tx, ty) == (
                    x as int,
                    y as int,
                ) {
                    lemma_start_of(s, w, h, o, c, tx, ty);
                    let t = choose|t: int|
                        0 <= t <= run_ext(s, w, h, o, c, x as int, y as int) && #[trigger] ray_pos(
                            o,
                            x as int,
                            y as int,
                            t,
                        ) == (tx, ty);
                    assert(0 <= t < count);
                }
            }
        }
        let bucket = count - 1;
        let prev = hist[bucket];
        hist[bucket] = prev + 1;
    }

    /// Process one orientation of the scan at the card cell (x, y) owned by
    /// `col`: if the cell's visited bit is clear, walk and count the run
    /// beginning here, once per colour the cell scores for.
    fn handle_orient(
        &self,
        flags: &mut Vec<u8>,
        red: &mut Vec<usize>,
        black: &mut Vec<usize>,
        x: u32,
        y: u32,
        col: Color,
        o: Orient,
    )
        requires
            self.well_formed(),
            self.in_bounds(x as int, y as int),
            (match cell(self.tiles(), self.spec_width(), x as int, y as int) {
                Tile::Card(_, cc) => cc == col,
                _ => false,
            }),
            old(flags)@.len() == self.spec_width() * self.spec_height(),
            orient_bits_ok(
                self.tiles(),
                self.spec_width(),
                self.spec_height(),
                o,
                old(flags)@,
                y as int,
                x as int,
            ),
            old(red)@.len() == maxdim(self.spec_width(), self.spec_height()),
            old(black)@.len() == maxdim(self.spec_width(), self.spec_height()),
            forall|l: int| 0 <= l < old(red)@.len() ==> (#[trigger] old(red)@[l]) < usize::MAX,
            forall|l: int| 0 <= l < old(black)@.len() ==> (#[trigger] old(black)@[l]) < usize::MAX,
        ensures
            final(flags)@.len() == old(flags)@.len(),
            orient_bits_ok(
                self.tiles(),
                self.spec_width(),
                self.spec_height(),
                o,
                final(flags)@,
                y as int,
                x as int + 1,
            ),
            forall|tx: int, ty: int, o2: Orient|
                on_grid(self.spec_width(), self.spec_height(), tx, ty) && o2 != o
                    ==> #[trigger] bit_set(
                    final(flags)@[grid_idx(self.spec_width(), tx, ty)],
                    o2,
                ) == bit_set(old(flags)@[grid_idx(self.spec_width(), tx, ty)], o2),
            hist_ints(final(red)@) == add_orient(
                self.tiles(),
                self.spec_width(),
                self.spec_height(),
                o,
                Color::Red,
                x as int,
                y as int,
                hist_ints(old(red)@),
            ),
            hist_ints(final(black)@) == add_orient(
                self.tiles(),
                self.spec_width(),
                self.spec_height(),
                o,
                Color::Black,
                x as int,
                y as int,
                hist_ints(old(black)@),
            ),
            final(red)@.len() == old(red)@.len(),
            final(black)@.len() == old(black)@.len(),
    {
        let ghost s = self.tiles();
        let ghost w = self.spec_width();
        let ghost h = self.spec_height();
        proof {
            lemma_grid_idx_in_range(w, h, x as int, y as int);
        }
        let i = (self.size_x * y + x) as usize;
        let fb = flags[i];
        let m = orient_mask(o);
        if fb & m == 0 {
            proof {
                assert(!bit_set(old(flags)@[grid_idx(w, x as int, y as int)], o));
                assert(!consumed_before(s, w, h, o, x as int, y as int, y as int, x as int));
            }
            if matches!(col, Color::Both) {
                proof {
                    assert(in_class(cell(s, w, x as int, y as int), Color::Red));
                    assert(in_class(cell(s, w, x as int, y as int), Color::Black));
                    assert(is_start(s, w, h, o, Color::Red, x as int, y as int));
                    assert(is_start(s, w, h, o, Color::Black, x as int, y as int));
                    lemma_ext_bound(s, w, h, o, Color::Red, x as int, y as int);
                    lemma_ext_bound(s, w, h, o, Color::Black, x as int, y as int);
                }
                let ghost f_pre = flags@;
                let ghost r_pre = red@;
                self.handle_line(flags, red, x, y, Color::Red, o);
                let ghost f_mid = flags@;
                let ghost b_pre = black@;
                self.handle_line(flags, black, x, y, Color::Black, o);
                proof {
                    lemma_orient_advance_both(s, w, h, o, x as int, y as int, f_pre, f_mid, flags@);
                    lemma_hist_bumped_ints(
                        r_pre,
                        red@,
                        run_ext(s, w, h, o, Color::Red, x as int, y as int),
                    );
                    lemma_hist_bumped_ints(
                        b_pre,
                        black@,
                        run_ext(s, w, h, o, Color::Black, x as int, y as int),
                    );
                }
            } else {
                proof {
                    assert(in_class(cell(s, w, x as int, y as int), col));
                    lemma_start_of(s, w, h, o, col, x as int, y as int);
                    assert(start_of(s, w, h, o, col, x as int, y as int) == (x as int, y as int));
                    assert(is_start(s, w, h, o, col, x as int, y as int));
                    lemma_ext_bound(s, w, h, o, col, x as int, y as int);
                }
                let ghost f_pre = flags@;
                if matches!(col, Color::Red) {
                    let ghost r_pre = red@;
                    self.handle_line(flags, red, x, y, col, o);
                    proof {
                        lemma_hist_bumped_ints(
                            r_pre,
                            red@,
                            run_ext(s, w, h, o, col, x as int, y as int),
                        );
                        assert(!in_class(cell(s, w, x as int, y as int), Color::Black));
                        assert(!is_start(s, w, h, o, Color::Black, x as int, y as int));
                    }
                } else {
                    let ghost b_pre = black@;
                    self.handle_line(flags, black, x, y, col, o);
                    proof {
                        lemma_hist_bumped_ints(
                            b_pre,
                            black@,
                            run_ext(s, w, h, o, col, x as int, y as int),
                        );
                        assert(!in_class(cell(s, w, x as int, y as int), Color::Red));
                        assert(!is_start(s, w, h, o, Color::Red, x as int, y as int));
                    }
                }
                proof {
                    lemma_orient_advance_walk(
                        s,
                        w,
                        h,
                        o,
                        col,
                        x as int,
                        y as int,
                        f_pre,
                        flags@,
                    );
                }
            }
        } else {
            proof {
                assert(bit_set(old(flags)@[grid_idx(w, x as int, y as int)], o));
                assert(consumed_before(s, w, h, o, x as int, y as int, y as int, x as int));
                if matches!(col, Color::Both) {
                    assert(!covered(s, w, h, o, Color::Red, x as int, y as int));
                    assert(start_of(s, w, h, o, Color::Red, x as int, y as int) == (
                    x as int,
                    y as int,
                    ));
                    assert(!covered(s, w, h, o, Color::Black, x as int, y as int));
                    assert(start_of(s, w, h, o, Color::Black, x as int, y as int) == (
                    x as int,
                    y as int,
                    ));
                    assert(false);
                }
                if matches!(col, Color::Red) {
                    lemma_start_of(s, w, h, o, Color::Red, x as int, y as int);
                    assert(!is_start(s, w, h, o, Color::Red, x as int, y as int));
                    assert(!in_class(cell(s, w, x as int, y as int), Color::Black));
                } else {
                    lemma_start_of(s, w, h, o, Color::Black, x as int, y as int);
                    assert(!is_start(s, w, h, o, Color::Black, x as int, y as int));
                    assert(!in_class(cell(s, w, x as int, y as int), Color::Red));
                }
                lemma_orient_advance_nostart(s, w, h, o, x as int, y as int, flags@);
            }
        }
    }

    /// Process the scan at the card cell (x, y) owned by `col`: each of the
    /// four orientations is handled in turn, counting the runs that begin
    /// here for every colour the cell scores for.
    fn handle_lines(
        &self,
        flags: &mut Vec<u8>,
        red: &mut Vec<usize>,
        black: &mut Vec<usize>,
        x: u32,
        y: u32,
        col: Color,
    )
        requires
            self.well_formed(),
            self.in_bounds(x as int, y as int),
            (match cell(self.tiles(), self.spec_width(), x as int, y as int) {
                Tile::Card(_, cc) => cc == col,
                _ => false,
            }),
            flags_ok(
                self.tiles(),
                self.spec_width(),
                self.spec_height(),
                old(flags)@,
                y as int,
                x as int,
            ),
            old(red)@.len() == maxdim(self.spec_width(), self.spec_height()),
            old(black)@.len() == maxdim(self.spec_width(), self.spec_height()),
            forall|l: int|
                0 <= l < old(red)@.len() ==> (#[trigger] old(red)@[l]) + 4 <= usize::MAX,
            forall|l: int|
                0 <= l < old(black)@.len() ==> (#[trigger] old(black)@[l]) + 4 <= usize::MAX,
        ensures
            flags_ok(
                self.tiles(),
                self.spec_width(),
                self.spec_height(),
                final(flags)@,
                y as int,
                x as int + 1,
            ),
            hist_ints(final(red)@) == add_cell(
                self.tiles(),
                self.spec_width(),
                self.spec_height(),
                Color::Red,
                x as int,
                y as int,
                hist_ints(old(red)@),
            ),
            hist_ints(final(black)@) == add_cell(
                self.tiles(),
                self.spec_width(),
                self.spec_height(),
                Color::Black,
                x as int,
                y as int,
                hist_ints(old(black)@),
            ),
            final(red)@.len() == old(red)@.len(),
            final(black)@.len() == old(black)@.len(),
    {
        let ghost s = self.tiles();
        let ghost w = self.spec_width();
        let ghost h = self.spec_height();
        let ghost r_in_DownRight = hist_ints(red@);
        let ghost b_in_DownRight = hist_ints(black@);
        self.handle_orient(flags, red, black, x, y, col, Orient::DownRight);
        proof {
            lemma_add_orient_bound(s, w, h, Orient::DownRight, Color::Red, x as int, y as int, r_in_DownRight);
            lemma_add_orient_bound(
                s,
                w,
                h,
                Orient::DownRight,
                Color::Black,
                x as int,
                y as int,
                b_in_DownRight,
            );
            assert(forall|l: int|
                0 <= l < red@.len() ==> (#[trigger] red@[l]) as int == hist_ints(red@)[l]);
            assert(forall|l: int|
                0 <= l < black@.len() ==> (#[trigger] black@[l]) as int == hist_ints(black@)[l]);
            assert forall|tx: int, ty: int| on_grid(w, h, tx, ty) implies (#[trigger] bit_set(
                flags@[grid_idx(w, tx, ty)],
                Orient::Vertical,
            ) == consumed_before(s, w, h, Orient::Vertical, tx, ty, y as int, x as int)) by {}
            assert forall|tx: int, ty: int| on_grid(w, h, tx, ty) implies (#[trigger] bit_set(
                flags@[grid_idx(w, tx, ty)],
                Orient::DownLeft,
            ) == consumed_before(s, w, h, Orient::DownLeft, tx, ty, y as int, x as int)) by {}
            assert forall|tx: int, ty: int| on_grid(w, h, tx, ty) implies (#[trigger] bit_set(
                flags@[grid_idx(w, tx, ty)],
                Orient::Horizontal,
            ) == consumed_before(s, w, h, Orient::Horizontal, tx, ty, y as int, x as int)) by {}
        }
        let ghost r_in_Vertical = hist_ints(red@);
        let ghost b_in_Vertical = hist_ints(black@);
        self.handle_orient(flags, red, black, x, y, col, Orient::Vertical);
        proof {
            lemma_add_orient_bound(s, w, h, Orient::Vertical, Color::Red, x as int, y as int, r_in_Vertical);
            lemma_add_orient_bound(
                s,
                w,
                h,
                Orient::Vertical,
                Color::Black,
                x as int,
                y as int,
                b_in_Vertical,
            );
            assert(forall|l: int|
                0 <= l < red@.len() ==> (#[trigger] red@[l]) as int == hist_ints(red@)[l]);
            assert(forall|l: int|
                0 <= l < black@.len() ==> (#[trigger] black@[l]) as int == hist_ints(black@)[l]);
            assert forall|tx: int, ty: int| on_grid(w, h, tx, ty) implies (#[trigger] bit_set(
                flags@[grid_idx(w, tx, ty)],
                Orient::DownRight,
            ) == consumed_before(s, w, h, Orient::DownRight, tx, ty, y as int, x as int + 1)) by {}
            assert forall|tx: int, ty: int| on_grid(w, h, tx, ty) implies (#[trigger] bit_set(
                flags@[grid_idx(w, tx, ty)],
                Orient::DownLeft,
            ) == consumed_before(s, w, h, Orient::DownLeft, tx, ty, y as int, x as int)) by {}
            assert forall|tx: int, ty: int| on_grid(w, h, tx, ty) implies (#[trigger] bit_set(
                flags@[grid_idx(w, tx, ty)],
                Orient::Horizontal,
            ) == consumed_before(s, w, h, Orient::Horizontal, tx, ty, y as int, x as int)) by {}
        }
        let ghost r_in_DownLeft = hist_ints(red@);
        let ghost b_in_DownLeft = hist_ints(black@);
        self.handle_orient(flags, red, black, x, y, col, Orient::DownLeft);
        proof {
            lemma_add_orient_bound(s, w, h, Orient::DownLeft, Color::Red, x as int, y as int, r_in_DownLeft);
            lemma_add_orient_bound(
                s,
                w,
                h,
                Orient::DownLeft,
                Color::Black,
                x as int,
                y as int,
                b_in_DownLeft,
            );
            assert(forall|l: int|
                0 <= l < red@.len() ==> (#[trigger] red@[l]) as int == hist_ints(red@)[l]);
            assert(forall|l: int|
                0 <= l < black@.len() ==> (#[trigger] black@[l]) as int == hist_ints(black@)[l]);
            assert forall|tx: int, ty: int| on_grid(w, h, tx, ty) implies (#[trigger] bit_set(
                flags@[grid_idx(w, tx, ty)],
                Orient::DownRight,
            ) == consumed_before(s, w, h, Orient::DownRight, tx, ty, y as int, x as int + 1)) by {}
            assert forall|tx: int, ty: int| on_grid(w, h, tx, ty) implies (#[trigger] bit_set(
                flags@[grid_idx(w, tx, ty)],
                Orient::Vertical,
            ) == consumed_before(s, w, h, Orient::Vertical, tx, ty, y as int, x as int + 1)) by {}
            assert forall|tx: int, ty: int| on_grid(w, h, tx, ty) implies (#[trigger] bit_set(
                flags@[grid_idx(w, tx, ty)],
                Orient::Horizontal,
            ) == consumed_before(s, w, h, Orient::Horizontal, tx, ty, y as int, x as int)) by {}
        }
        let ghost r_in_Horizontal = hist_ints(red@);
        let ghost b_in_Horizontal = hist_ints(black@);
        self.handle_orient(flags, red, black, x, y, col, Orient::Horizontal);
        proof {
            lemma_add_orient_bound(s, w, h, Orient::Horizontal, Color::Red, x as int, y as int, r_in_Horizontal);
            lemma_add_orient_bound(
                s,
                w,
                h,
                Orient::Horizontal,
                Color::Black,
                x as int,
                y as int,
                b_in_Horizontal,
            );
            assert(forall|l: int|
                0 <= l < red@.len() ==> (#[trigger] red@[l]) as int == hist_ints(red@)[l]);
            assert(forall|l: int|
                0 <= l < black@.len() ==> (#[trigger] black@[l]) as int == hist_ints(black@)[l]);
            assert forall|tx: int, ty: int| on_grid(w, h, tx, ty) implies (#[trigger] bit_set(
                flags@[grid_idx(w, tx, ty)],
                Orient::DownRight,
            ) == consumed_before(s, w, h, Orient::DownRight, tx, ty, y as int, x as int + 1)) by {}
            assert forall|tx: int, ty: int| on_grid(w, h, tx, ty) implies (#[trigger] bit_set(
                flags@[grid_idx(w, tx, ty)],
                Orient::Vertical,
            ) == consumed_before(s, w, h, Orient::Vertical, tx, ty, y as int, x as int + 1)) by {}
            assert forall|tx: int, ty: int| on_grid(w, h, tx, ty) implies (#[trigger] bit_set(
                flags@[grid_idx(w, tx, ty)],
                Orient::DownLeft,
            ) == consumed_before(s, w, h, Orient::DownLeft, tx, ty, y as int, x as int + 1)) by {}
        }
        proof {
            assert forall|tx: int, ty: int, o2: Orient| on_grid(w, h, tx, ty) implies (
            #[trigger] bit_set(flags@[grid_idx(w, tx, ty)], o2) == consumed_before(
                s,
                w,
                h,
                o2,
                tx,
                ty,
                y as int,
                x as int + 1,
            )) by {}
        }
    }

    /// Score the board: for each colour, a histogram whose bucket `l`
    /// counts the maximal runs of length `l + 1` of that colour class, over
    /// the four orientations.  Returns the Red histogram first.
    pub fn get_lines(&self) -> (r: (Vec<usize>, Vec<usize>))
        requires
            self.well_formed(),
            4 * (self.spec_width() * self.spec_height()) <= usize::MAX,
        ensures
            r.0@.len() == maxdim(self.spec_width(), self.spec_height()),
            r.1@.len() == maxdim(self.spec_width(), self.spec_height()),
            hist_ints(r.0@) == spec_lines(
                self.tiles(),
                self.spec_width(),
                self.spec_height(),
                Color::Red,
            ),
            hist_ints(r.1@) == spec_lines(
                self.tiles(),
                self.spec_width(),
                self.spec_height(),
                Color::Black,
            ),
    {
        let ghost s = self.tiles();
        let ghost w = self.spec_width();
        let ghost h = self.spec_height();
        let n = (self.size_x * self.size_y) as usize;
        let mut flags: Vec<u8> = Vec::new();
        let mut i: usize = 0;
        while i < n
            invariant
                i <= n,
                flags@.len() == i,
                forall|j: int| 0 <= j < i ==> flags@[j] == 0u8,
            decreases n - i,
        {
            flags.push(0);
            i = i + 1;
        }
        let md = (if self.size_x >= self.size_y {
            self.size_x
        } else {
            self.size_y
        }) as usize;
        let mut red: Vec<usize> = Vec::new();
        let mut i: usize = 0;
        while i < md
            invariant
                i <= md,
                red@.len() == i,
                forall|j: int| 0 <= j < i ==> red@[j] == 0usize,
            decreases md - i,
        {
            red.push(0);
            i = i + 1;
        }
        let mut black: Vec<usize> = Vec::new();
        let mut i: usize = 0;
        while i < md
            invariant
                i <= md,
                black@.len() == i,
                forall|j: int| 0 <= j < i ==> black@[j] == 0usize,
            decreases md - i,
        {
            black.push(0);
            i = i + 1;
        }
        proof {
            assert(hist_ints(red@) =~= hist_upto(s, w, h, Color::Red, 0, 0));
            assert(hist_ints(black@) =~= hist_upto(s, w, h, Color::Black, 0, 0));
            assert forall|tx: int, ty: int, o: Orient| on_grid(w, h, tx, ty) implies (
            #[trigger] bit_set(flags@[grid_idx(w, tx, ty)], o) == consumed_before(
                s,
                w,
                h,
                o,
                tx,
                ty,
                0,
                0,
            )) by {
                lemma_grid_idx_in_range(w, h, tx, ty);
                lemma_bit_clear_zero(o);
                if in_class(cell(s, w, tx, ty), Color::Red) {
                    lemma_start_of(s, w, h, o, Color::Red, tx, ty);
                }
                if in_class(cell(s, w, tx, ty), Color::Black) {
                    lemma_start_of(s, w, h, o, Color::Black, tx, ty);
                }
            }
            assert(flags_ok(s, w, h, flags@, 0, 0));
        }
        let mut y: u32 = 0;
        while y < self.size_y
            invariant
                self.well_formed(),
                s == self.tiles(),
                w == self.spec_width(),
                h == self.spec_height(),
                4 * (w * h) <= usize::MAX,
                y <= self.size_y,
                flags_ok(s, w, h, flags@, y as int, 0),
                red@.len() == maxdim(w, h),
                black@.len() == maxdim(w, h),
                hist_ints(red@) == hist_upto(s, w, h, Color::Red, y as int, 0),
                hist_ints(black@) == hist_upto(s, w, h, Color::Black, y as int, 0),
                forall|l: int|
                    0 <= l < red@.len() ==> (#[trigger] red@[l]) as int <= 4 * (y as int * w),
                forall|l: int|
                    0 <= l < black@.len() ==> (#[trigger] black@[l]) as int <= 4 * (y as int * w),
            decreases h - y,
        {
            let mut x: u32 = 0;
            while x < self.size_x
                invariant
                    self.well_formed(),
                    s == self.tiles(),
                    w == self.spec_width(),
                    h == self.spec_height(),
                    4 * (w * h) <= usize::MAX,
                    y < self.size_y,
                    x <= self.size_x,
                    flags_ok(s, w, h, flags@, y as int, x as int),
                    red@.len() == maxdim(w, h),
                    black@.len() == maxdim(w, h),
                    hist_ints(red@) == hist_upto(s, w, h, Color::Red, y as int, x as int),
                    hist_ints(black@) == hist_upto(s, w, h, Color::Black, y as int, x as int),
                    forall|l: int|
                        0 <= l < red@.len() ==> (#[trigger] red@[l]) as int <= 4 * (y as int * w
                            + x as int),
                    forall|l: int|
                        0 <= l < black@.len() ==> (#[trigger] black@[l]) as int <= 4 * (
                        y as int * w + x as int),
                decreases w - x,
            {
                proof {
                    lemma_grid_idx_in_range(w, h, x as int, y as int);
                    assert(4 * (y as int * w + x as int) + 4 <= 4 * (w * h));
                }
                let t = self.tile(x, y);
                match t {
                    Tile::Card(_, col) => {
                        let ghost r_pre = hist_ints(red@);
                        let ghost b_pre = hist_ints(black@);
                        self.handle_lines(&mut flags, &mut red, &mut black, x, y, col);
                        proof {
                            lemma_add_cell_bound(s, w, h, Color::Red, x as int, y as int, r_pre);
                            lemma_add_cell_bound(s, w, h, Color::Black, x as int, y as int, b_pre);
                            assert(forall|l: int|
                                0 <= l < red@.len() ==> (#[trigger] red@[l]) as int == hist_ints(
                                    red@,
                                )[l]);
                            assert(forall|l: int|
                                0 <= l < black@.len() ==> (#[trigger] black@[l]) as int
                                    == hist_ints(black@)[l]);
                        }
                    },
                    _ => {
                        proof {
                            lemma_flags_advance_empty(s, w, h, flags@, y as int, x as int);
                            lemma_add_cell_skip(
                                s,
                                w,
                                h,
                                Color::Red,
                                x as int,
                                y as int,
                                hist_ints(red@),
                            );
                            lemma_add_cell_skip(
                                s,
                                w,
                                h,
                                Color::Black,
                                x as int,
                                y as int,
                                hist_ints(black@),
                            );
                        }
                    },
                }
                x = x + 1;
            }
            proof {
                lemma_flags_wrap(s, w, h, flags@, y as int);
                assert((y as int + 1) * w == y as int * w + w) by (nonlinear_arith);
            }
            y = y + 1;
        }
        (red, black)
    }

    /// Attempt to place `face` at (x, y) for the colour whose turn it is.
    /// On success the card is written, blocking is recomputed along the four
    /// rays from the new card, and the turn flips; on failure nothing
    /// changes.
    pub fn place_tile(&mut self, x: u32, y: u32, face: Face) -> (r: Result<(), TileError>)
        requires
            old(self).well_formed(),
        ensures
            final(self).well_formed(),
            r == old(self).spec_place_check(x as int, y as int, face),
            final(self).spec_width() == old(self).spec_width(),
            final(self).spec_height() == old(self).spec_height(),
            r is Err ==> *final(self) == *old(self),
            r is Ok ==> final(self).tiles() == board_after_place(
                old(self).tiles(),
                old(self).spec_width(),
                old(self).spec_height(),
                x as int,
                y as int,
                face,
                old(self).turn(),
            ),
            r is Ok ==> final(self).turn() == flip(old(self).turn()),
    {
        let first = self.can_place_tile(x, y, face);
        if let Err(e) = first {
            let second = self.can_place_free(x, y, face);
            if second.is_err() {
                return Err(e);
            }
        }
        let c = self.color;
        self.set_tile(x, y, Tile::Card(face, c));
        self.clear_blocked_tiles();
        self.block_dir(x, y, Dir::Left);
        self.block_dir(x, y, Dir::Up);
        self.block_dir(x, y, Dir::Right);
        self.block_dir(x, y, Dir::Down);
        self.color.next();
        Ok(())
    }
}

/// `t` after board-wide clearing of blocks: a blocked tile reverts to empty.
pub open spec fn clear_tile(t: Tile) -> Tile {
    if t == Tile::Blocked {
        Tile::Empty
    } else {
        t
    }
}

/// The whole grid after clearing every blocked tile back to empty.
pub open spec fn spec_clear_blocked(s: Seq<Tile>) -> Seq<Tile> {
    Seq::new(s.len(), |i: int| clear_tile(s[i]))
}

/// Clearing blocked tiles twice yields the same board as clearing them once.
pub proof fn lemma_clear_blocked_idempotent(s: Seq<Tile>)
    ensures
        spec_clear_blocked(spec_clear_blocked(s)) == spec_clear_blocked(s),
{
    assert(spec_clear_blocked(spec_clear_blocked(s)) =~= spec_clear_blocked(s));
}

/// The blocking walk: starting beside (x, y) and stepping along `dir`, the
/// first empty tile reached in the shadow of a non-Wild card becomes blocked.
/// Returns the coordinate of that tile, or `None` when the walk leaves the
/// grid, meets an already blocked tile, or reaches an empty tile without a
/// non-Wild card behind it.
pub open spec fn blocked_walk(
    s: Seq<Tile>,
    w: int,
    h: int,
    x: int,
    y: int,
    dir: Dir,
    will_block: bool,
) -> Option<(int, int)>
    decreases
        (match dir {
            Dir::Left => x,
            Dir::Up => y,
            Dir::Right => w - x,
            Dir::Down => h - y,
        }),
{
    let nx = x + dir.spec_offset().0;
    let ny = y + dir.spec_offset().1;
    if !on_grid(w, h, nx, ny) {
        None
    } else {
        match s[grid_idx(w, nx, ny)] {
            Tile::Empty => if will_block {
                Some((nx, ny))
            } else {
                None
            },
            Tile::Blocked => None,
            Tile::Card(f, _) => blocked_walk(s, w, h, nx, ny, dir, will_block || f != Face::Wild),
        }
    }
}

/// A tile the blocking walk stops on lies on the grid.
pub proof fn lemma_blocked_walk_on_grid(
    s: Seq<Tile>,
    w: int,
    h: int,
    x: int,
    y: int,
    dir: Dir,
    will_block: bool,
)
    ensures
        blocked_walk(s, w, h, x, y, dir, will_block) matches Some(p) ==> on_grid(w, h, p.0, p.1),
    decreases
        (match dir {
            Dir::Left => x,
            Dir::Up => y,
            Dir::Right => w - x,
            Dir::Down => h - y,
        }),
{
    let nx = x + dir.spec_offset().0;
    let ny = y + dir.spec_offset().1;
    if on_grid(w, h, nx, ny) {
        match s[grid_idx(w, nx, ny)] {
            Tile::Card(f, _) => {
                lemma_blocked_walk_on_grid(s, w, h, nx, ny, dir, will_block || f != Face::Wild);
            },
            _ => {},
        }
    }
}

/// The grid after the blocking walk from (x, y) along `dir` has marked its
/// one shadowed tile, if any.
pub open spec fn apply_block_dir(s: Seq<Tile>, w: int, h: int, x: int, y: int, dir: Dir) -> Seq<
    Tile,
> {
    match blocked_walk(s, w, h, x, y, dir, false) {
        Some(p) => s.update(grid_idx(w, p.0, p.1), Tile::Blocked),
        None => s,
    }
}

/// The grid after the four directional blocking walks from (x, y), applied
/// left, up, right, then down.
pub open spec fn place_blocks(s: Seq<Tile>, w: int, h: int, x: int, y: int) -> Seq<Tile> {
    let s1 = apply_block_dir(s, w, h, x, y, Dir::Left);
    let s2 = apply_block_dir(s1, w, h, x, y, Dir::Up);
    let s3 = apply_block_dir(s2, w, h, x, y, Dir::Right);
    apply_block_dir(s3, w, h, x, y, Dir::Down)
}

/// The whole grid after an accepted placement of `face` by `color` at
/// (x, y): the card is written, every stale block is cleared, and the four
/// rays from the new card are re-shadowed.
pub open spec fn board_after_place(
    s: Seq<Tile>,
    w: int,
    h: int,
    x: int,
    y: int,
    face: Face,
    color: Color,
) -> Seq<Tile> {
    place_blocks(
        spec_clear_blocked(s.update(grid_idx(w, x, y), Tile::Card(face, color))),
        w,
        h,
        x,
        y,
    )
}

/// The remaining card stock of one player: one counter per placeable face.
#[derive(Clone)]
pub struct Inventory {
    aces: u32,
    kings: u32,
    queens: u32,
    jacks: u32,
}

impl Inventory {
    /// How many cards of `face` remain; Wild is never in stock.
    pub closed spec fn count(self, face: Face) -> u32 {
        match face {
            Face::Ace => self.aces,
            Face::King => self.kings,
            Face::Queen => self.queens,
            Face::Jack => self.jacks,
            Face::Wild => 0,
        }
    }

    /// A fresh stock with `num_cards` of every placeable face.
    pub fn new(num_cards: u32) -> (inv: Inventory)
        ensures
            forall|f: Face| f != Face::Wild ==> #[trigger] inv.count(f) == num_cards,
            inv.count(Face::Wild) == 0,
    {
        Inventory { aces: num_cards, kings: num_cards, queens: num_cards, jacks: num_cards }
    }

    /// A card of `face` can be placed exactly when stock remains; Wild never
    /// can.
    pub fn can_place_face(&self, face: Face) -> (r: bool)
        ensures
            r == (face != Face::Wild && self.count(face) > 0),
    {
        match face {
            Face::Ace => self.can_place_ace(),
            Face::King => self.can_place_king(),
            Face::Queen => self.can_place_queen(),
            Face::Jack => self.can_place_jack(),
            _ => false,
        }
    }

    /// Consume one card of `face`; a no-op for Wild.
    pub fn place_face(&mut self, face: Face)
        requires
            face == Face::Wild || old(self).count(face) > 0,
        ensures
            forall|f: Face| #[trigger]
                final(self).count(f) == if f == face && f != Face::Wild {
                    (old(self).count(f) - 1) as u32
                } else {
                    old(self).count(f)
                },
    {
        match face {
            Face::Ace => self.place_ace(),
            Face::King => self.place_king(),
            Face::Queen => self.place_queen(),
            Face::Jack => self.place_jack(),
            _ => (),
        }
    }

    pub fn can_place_ace(&self) -> (r: bool)
        ensures
            r == (self.count(Face::Ace) > 0),
    {
        self.aces > 0
    }

    pub fn place_ace(&mut self)
        requires
            old(self).count(Face::Ace) > 0,
        ensures
            final(self).count(Face::Ace) == old(self).count(Face::Ace) - 1,
            forall|f: Face|
                f != Face::Ace ==> #[trigger] final(self).count(f) == old(self).count(f),
    {
        self.aces = self.aces - 1;
    }

    pub fn can_place_king(&self) -> (r: bool)
        ensures
            r == (self.count(Face::King) > 0),
    {
        self.kings > 0
    }

    pub fn place_king(&mut self)
        requires
            old(self).count(Face::King) > 0,
        ensures
            final(self).count(Face::King) == old(self).count(Face::King) - 1,
            forall|f: Face|
                f != Face::King ==> #[trigger] final(self).count(f) == old(self).count(f),
    {
        self.kings = self.kings - 1;
    }

    pub fn can_place_queen(&self) -> (r: bool)
        ensures
            r == (self.count(Face::Queen) > 0),
    {
        self.queens > 0
    }

    pub fn place_queen(&mut self)
        requires
            old(self).count(Face::Queen) > 0,
        ensures
            final(self).count(Face::Queen) == old(self).count(Face::Queen) - 1,
            forall|f: Face|
                f != Face::Queen ==> #[trigger] final(self).count(f) == old(self).count(f),
    {
        self.queens = self.queens - 1;
    }

    pub fn can_place_jack(&self) -> (r: bool)
        ensures
            r == (self.count(Face::Jack) > 0),
    {
        self.jacks > 0
    }

    pub fn place_jack(&mut self)
        requires
            old(self).count(Face::Jack) > 0,
        ensures
            final(self).count(Face::Jack) == old(self).count(Face::Jack) - 1,
            forall|f: Face|
                f != Face::Jack ==> #[trigger] final(self).count(f) == old(self).count(f),
    {
        self.jacks = self.jacks - 1;
    }

    /// Read the remaining stock of a placeable face.
    pub fn get_num_face(&self, face: Face) -> (r: u32)
        requires
            face != Face::Wild,
        ensures
            r == self.count(face),
    {
        match face {
            Face::Ace => self.aces,
            Face::King => self.kings,
            Face::Queen => self.queens,
            _ => self.jacks,
        }
    }
}

} // verus!
