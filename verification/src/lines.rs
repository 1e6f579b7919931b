//! The mathematical model of the grid and of aligned same-colour runs.
//!
//! A board is a flat row-major sequence of tiles together with its width and
//! height.  This module defines the spec-level geometry (index arithmetic)
//! and, further down, the run model used by the scoring algorithm.

use vstd::prelude::*;

verus! {

use crate::tile::{Color, Tile};

/// Row-major index of the cell at column `x`, row `y`.
pub open spec fn grid_idx(w: int, x: int, y: int) -> int {
    y * w + x
}

/// The cell (x, y) lies on a w-by-h grid.
pub open spec fn on_grid(w: int, h: int, x: int, y: int) -> bool {
    0 <= x < w && 0 <= y < h
}

/// A row-major index of an on-grid cell is a valid index of the flat tile
/// sequence.
pub proof fn lemma_grid_idx_in_range(w: int, h: int, x: int, y: int)
    requires
        on_grid(w, h, x, y),
    ensures
        0 <= grid_idx(w, x, y) < w * h,
        w * y + x == grid_idx(w, x, y),
{
    assert(0 <= y * w + x < w * h && w * y == y * w) by (nonlinear_arith)
        requires
            0 <= x < w,
            0 <= y < h,
    ;
}

/// Distinct on-grid cells have distinct row-major indices.
pub proof fn lemma_grid_idx_injective(w: int, x1: int, y1: int, x2: int, y2: int)
    requires
        0 <= x1 < w,
        0 <= x2 < w,
        0 <= y1,
        0 <= y2,
        grid_idx(w, x1, y1) == grid_idx(w, x2, y2),
    ensures
        x1 == x2 && y1 == y2,
{
    assert(x1 == x2 && y1 == y2) by (nonlinear_arith)
        requires
            0 <= x1 < w,
            0 <= x2 < w,
            0 <= y1,
            0 <= y2,
            y1 * w + x1 == y2 * w + x2,
    ;
}

/// The four scan orientations of the line-scoring pass; each walks the grid
/// with a fixed forward step.
#[derive(Clone, Copy, Debug, PartialEq, Eq, Structural)]
pub enum Orient {
    DownRight,
    Vertical,
    DownLeft,
    Horizontal,
}

impl Orient {
    /// Horizontal component of this orientation's forward step.
    pub open spec fn dx(self) -> int {
        match self {
            Orient::DownRight => 1,
            Orient::Vertical => 0,
            Orient::DownLeft => -1,
            Orient::Horizontal => 1,
        }
    }

    /// Vertical component of this orientation's forward step.
    pub open spec fn dy(self) -> int {
        match self {
            Orient::DownRight => 1,
            Orient::Vertical => 1,
            Orient::DownLeft => 1,
            Orient::Horizontal => 0,
        }
    }

    /// The bit this orientation owns in the per-tile visited mask.
    pub open spec fn mask(self) -> u8 {
        match self {
            Orient::DownRight => 8,
            Orient::Vertical => 4,
            Orient::DownLeft => 2,
            Orient::Horizontal => 1,
        }
    }
}

/// The orientation's bit is set in the mask byte `f`.
pub open spec fn bit_set(f: u8, o: Orient) -> bool {
    f & o.mask() != 0
}

/// Setting one orientation's bit leaves exactly the other bits unchanged.
pub proof fn lemma_mask_or(f: u8, o: Orient, o2: Orient)
    ensures
        bit_set(f | o.mask(), o2) == (o2 == o || bit_set(f, o2)),
{
    let m1 = o.mask();
    let m2 = o2.mask();
    assert(((f | m1) & m2 != 0) == ((m1 == m2) || (f & m2 != 0))) by (bit_vector)
        requires
            (m1 == 1 || m1 == 2 || m1 == 4 || m1 == 8) && (m2 == 1 || m2 == 2 || m2 == 4 || m2
                == 8),
    ;
}

/// The tile at (x, y) of the flat grid `s`.
pub open spec fn cell(s: Seq<Tile>, w: int, x: int, y: int) -> Tile {
    s[grid_idx(w, x, y)]
}

/// `t` is a card owned exactly by the pure colour `c`: the only tiles a
/// scoring walk may consume after its origin.
pub open spec fn runs_with(t: Tile, c: Color) -> bool {
    match t {
        Tile::Card(_, cc) => cc == c,
        _ => false,
    }
}

/// `t` belongs to the colour class of `c`: owned by `c`, or the dual seed
/// owner that scores for both players.
pub open spec fn in_class(t: Tile, c: Color) -> bool {
    match t {
        Tile::Card(_, cc) => cc == c || cc == Color::Both,
        _ => false,
    }
}

/// How many consecutive tiles of pure colour `c` follow (x, y) along `o`;
/// the measured run length is one more than this.
pub open spec fn run_ext(s: Seq<Tile>, w: int, h: int, o: Orient, c: Color, x: int, y: int) -> int
    decreases h - y, w - x,
{
    let nx = x + o.dx();
    let ny = y + o.dy();
    if !on_grid(w, h, nx, ny) {
        0
    } else if runs_with(cell(s, w, nx, ny), c) {
        1 + run_ext(s, w, h, o, c, nx, ny)
    } else {
        0
    }
}

/// The walk for colour `c` that consumes the tile before (x, y) along `o`
/// also consumes (x, y).
pub open spec fn covered(s: Seq<Tile>, w: int, h: int, o: Orient, c: Color, x: int, y: int) -> bool {
    let px = x - o.dx();
    let py = y - o.dy();
    &&& on_grid(w, h, px, py)
    &&& in_class(cell(s, w, px, py), c)
    &&& runs_with(cell(s, w, x, y), c)
}

/// A scoring walk for colour `c` along `o` begins at (x, y): the tile is of
/// the colour class and no walk arrives from the previous cell.
pub open spec fn is_start(s: Seq<Tile>, w: int, h: int, o: Orient, c: Color, x: int, y: int) -> bool {
    in_class(cell(s, w, x, y), c) && !covered(s, w, h, o, c, x, y)
}

/// The origin of the walk for colour `c` that consumes (x, y): step
/// backwards along `o` while the walk is inherited from the previous cell.
pub open spec fn start_of(s: Seq<Tile>, w: int, h: int, o: Orient, c: Color, x: int, y: int) -> (
    int,
    int,
)
    decreases y, x,
{
    if covered(s, w, h, o, c, x, y) {
        start_of(s, w, h, o, c, x - o.dx(), y - o.dy())
    } else {
        (x, y)
    }
}

/// The cell `t` forward steps along `o` from (sx, sy).
pub open spec fn ray_pos(o: Orient, sx: int, sy: int, t: int) -> (int, int)
    decreases t,
{
    if t <= 0 {
        (sx, sy)
    } else {
        let p = ray_pos(o, sx, sy, t - 1);
        (p.0 + o.dx(), p.1 + o.dy())
    }
}

/// A run's extent stays within the grid: at most to the right edge for the
/// horizontal orientation and at most to the bottom edge for the others.
pub proof fn lemma_ext_bound(s: Seq<Tile>, w: int, h: int, o: Orient, c: Color, x: int, y: int)
    requires
        on_grid(w, h, x, y),
    ensures
        0 <= run_ext(s, w, h, o, c, x, y),
        o == Orient::Horizontal ==> run_ext(s, w, h, o, c, x, y) <= w - 1 - x,
        o != Orient::Horizontal ==> run_ext(s, w, h, o, c, x, y) <= h - 1 - y,
    decreases h - y, w - x,
{
    let nx = x + o.dx();
    let ny = y + o.dy();
    if on_grid(w, h, nx, ny) && runs_with(cell(s, w, nx, ny), c) {
        lemma_ext_bound(s, w, h, o, c, nx, ny);
    }
}

/// Every cell of a walk's run is on the grid, keeps the walk's origin, and
/// carries the remaining extent; cells after the origin are of the pure
/// colour.
pub proof fn lemma_run_ray(s: Seq<Tile>, w: int, h: int, o: Orient, c: Color, sx: int, sy: int, t: int)
    requires
        on_grid(w, h, sx, sy),
        is_start(s, w, h, o, c, sx, sy),
        0 <= t <= run_ext(s, w, h, o, c, sx, sy),
    ensures
        on_grid(w, h, ray_pos(o, sx, sy, t).0, ray_pos(o, sx, sy, t).1),
        in_class(cell(s, w, ray_pos(o, sx, sy, t).0, ray_pos(o, sx, sy, t).1), c),
        t > 0 ==> runs_with(cell(s, w, ray_pos(o, sx, sy, t).0, ray_pos(o, sx, sy, t).1), c),
        start_of(s, w, h, o, c, ray_pos(o, sx, sy, t).0, ray_pos(o, sx, sy, t).1) == (sx, sy),
        run_ext(s, w, h, o, c, ray_pos(o, sx, sy, t).0, ray_pos(o, sx, sy, t).1) == run_ext(
            s,
            w,
            h,
            o,
            c,
            sx,
            sy,
        ) - t,
    decreases t,
{
    if t > 0 {
        lemma_run_ray(s, w, h, o, c, sx, sy, t - 1);
        let p = ray_pos(o, sx, sy, t - 1);
        let q = ray_pos(o, sx, sy, t);
        assert(run_ext(s, w, h, o, c, p.0, p.1) >= 1);
        assert(q == (p.0 + o.dx(), p.1 + o.dy()));
        assert(on_grid(w, h, q.0, q.1) && runs_with(cell(s, w, q.0, q.1), c));
        assert(covered(s, w, h, o, c, q.0, q.1));
    }
}

/// The origin recorded for a class tile is itself a walk start, lies on the
/// grid no later in scan order, and reaches the tile within its extent.
pub proof fn lemma_start_of(s: Seq<Tile>, w: int, h: int, o: Orient, c: Color, x: int, y: int)
    requires
        on_grid(w, h, x, y),
        in_class(cell(s, w, x, y), c),
    ensures
        on_grid(w, h, start_of(s, w, h, o, c, x, y).0, start_of(s, w, h, o, c, x, y).1),
        in_class(cell(s, w, start_of(s, w, h, o, c, x, y).0, start_of(s, w, h, o, c, x, y).1), c),
        is_start(s, w, h, o, c, start_of(s, w, h, o, c, x, y).0, start_of(s, w, h, o, c, x, y).1),
        start_of(s, w, h, o, c, x, y).1 < y || (start_of(s, w, h, o, c, x, y).1 == y && start_of(
            s,
            w,
            h,
            o,
            c,
            x,
            y,
        ).0 <= x),
        covered(s, w, h, o, c, x, y) ==> (start_of(s, w, h, o, c, x, y).1 < y || (start_of(
            s,
            w,
            h,
            o,
            c,
            x,
            y,
        ).1 == y && start_of(s, w, h, o, c, x, y).0 < x)),
        exists|t: int|
            0 <= t <= run_ext(
                s,
                w,
                h,
                o,
                c,
                start_of(s, w, h, o, c, x, y).0,
                start_of(s, w, h, o, c, x, y).1,
            ) && #[trigger] ray_pos(o, start_of(s, w, h, o, c, x, y).0, start_of(s, w, h, o, c, x, y).1, t)
                == (x, y),
    decreases y, x,
{
    let st = start_of(s, w, h, o, c, x, y);
    if covered(s, w, h, o, c, x, y) {
        let px = x - o.dx();
        let py = y - o.dy();
        lemma_start_of(s, w, h, o, c, px, py);
        assert(st == start_of(s, w, h, o, c, px, py));
        let t = choose|t: int|
            0 <= t <= run_ext(s, w, h, o, c, st.0, st.1) && #[trigger] ray_pos(o, st.0, st.1, t)
                == (px, py);
        lemma_run_ray(s, w, h, o, c, st.0, st.1, t);
        lemma_ext_bound(s, w, h, o, c, x, y);
        assert(run_ext(s, w, h, o, c, px, py) == 1 + run_ext(s, w, h, o, c, x, y));
        assert(ray_pos(
            o,
            start_of(s, w, h, o, c, x, y).0,
            start_of(s, w, h, o, c, x, y).1,
            t + 1,
        ) == (x, y));
        assert(t + 1 <= run_ext(s, w, h, o, c, st.0, st.1));
    } else {
        lemma_ext_bound(s, w, h, o, c, x, y);
        assert(ray_pos(
            o,
            start_of(s, w, h, o, c, x, y).0,
            start_of(s, w, h, o, c, x, y).1,
            0,
        ) == (x, y));
    }
}

/// The larger board dimension: an upper bound on any run length, and the
/// length of each histogram.
pub open spec fn maxdim(w: int, h: int) -> int {
    if w >= h {
        w
    } else {
        h
    }
}

/// (y1, x1) comes strictly before (y2, x2) in row-major scan order.
pub open spec fn scan_lt(y1: int, x1: int, y2: int, x2: int) -> bool {
    y1 < y2 || (y1 == y2 && x1 < x2)
}

/// An all-zero histogram with one bucket per possible run length.
pub open spec fn zero_hist(n: int) -> Seq<int> {
    Seq::new(n as nat, |i: int| 0)
}

/// `p` with one more run counted in the bucket for extent `e`.
pub open spec fn bump(p: Seq<int>, e: int) -> Seq<int> {
    p.update(e, p[e] + 1)
}

/// `p` after counting the run of colour `c` that begins at (x, y) along
/// `o`, if one begins there.
pub open spec fn add_orient(
    s: Seq<Tile>,
    w: int,
    h: int,
    o: Orient,
    c: Color,
    x: int,
    y: int,
    p: Seq<int>,
) -> Seq<int> {
    if is_start(s, w, h, o, c, x, y) {
        bump(p, run_ext(s, w, h, o, c, x, y))
    } else {
        p
    }
}

/// `p` after counting, in the scan's fixed orientation order, every run of
/// colour `c` that begins at (x, y).
pub open spec fn add_cell(s: Seq<Tile>, w: int, h: int, c: Color, x: int, y: int, p: Seq<int>) -> Seq<
    int,
> {
    let p1 = add_orient(s, w, h, Orient::DownRight, c, x, y, p);
    let p2 = add_orient(s, w, h, Orient::Vertical, c, x, y, p1);
    let p3 = add_orient(s, w, h, Orient::DownLeft, c, x, y, p2);
    add_orient(s, w, h, Orient::Horizontal, c, x, y, p3)
}

/// The histogram for colour `c` over every cell scanned strictly before
/// (x, y) in row-major order, with `x == w` meaning the whole row `y` is
/// done.
pub open spec fn hist_upto(s: Seq<Tile>, w: int, h: int, c: Color, y: int, x: int) -> Seq<int>
    decreases y, x,
{
    if y <= 0 && x <= 0 {
        zero_hist(maxdim(w, h))
    } else if x <= 0 {
        hist_upto(s, w, h, c, y - 1, w)
    } else {
        add_cell(s, w, h, c, x - 1, y, hist_upto(s, w, h, c, y, x - 1))
    }
}

/// The full histogram for colour `c`: every maximal run of that colour
/// class, over all four orientations, counted in the bucket of its length
/// minus one.
pub open spec fn spec_lines(s: Seq<Tile>, w: int, h: int, c: Color) -> Seq<int> {
    hist_upto(s, w, h, c, h, 0)
}

/// A cell that holds no card of the class of `c` begins no run of `c` and
/// leaves the histogram as it is.
pub proof fn lemma_add_cell_skip(s: Seq<Tile>, w: int, h: int, c: Color, x: int, y: int, p: Seq<int>)
    requires
        !in_class(cell(s, w, x, y), c),
    ensures
        add_cell(s, w, h, c, x, y, p) == p,
{
}

/// The visited bit of orientation `o` on the class tile at (x, y) is owed
/// exactly when the walk that consumes the tile began strictly before scan
/// position (py, px).
pub open spec fn consumed_before(
    s: Seq<Tile>,
    w: int,
    h: int,
    o: Orient,
    x: int,
    y: int,
    py: int,
    px: int,
) -> bool {
    ||| (in_class(cell(s, w, x, y), Color::Red) && scan_lt(
        start_of(s, w, h, o, Color::Red, x, y).1,
        start_of(s, w, h, o, Color::Red, x, y).0,
        py,
        px,
    ))
    ||| (in_class(cell(s, w, x, y), Color::Black) && scan_lt(
        start_of(s, w, h, o, Color::Black, x, y).1,
        start_of(s, w, h, o, Color::Black, x, y).0,
        py,
        px,
    ))
}

/// The visited mask is exactly right for scan position (py, px): each
/// orientation bit of each cell says whether a walk consumed the cell from
/// a start already scanned.
pub open spec fn flags_ok(
    s: Seq<Tile>,
    w: int,
    h: int,
    flags: Seq<u8>,
    py: int,
    px: int,
) -> bool {
    &&& flags.len() == w * h
    &&& forall|x: int, y: int, o: Orient|
        on_grid(w, h, x, y) ==> (#[trigger] bit_set(flags[grid_idx(w, x, y)], o)
            == consumed_before(s, w, h, o, x, y, py, px))
}

/// Advancing the scan past a cell that holds no card changes no owed bit.
pub proof fn lemma_flags_advance_empty(s: Seq<Tile>, w: int, h: int, flags: Seq<u8>, py: int, px: int)
    requires
        flags_ok(s, w, h, flags, py, px),
        on_grid(w, h, px, py),
        !(cell(s, w, px, py) is Card),
    ensures
        flags_ok(s, w, h, flags, py, px + 1),
{
    assert forall|x: int, y: int, o: Orient| on_grid(w, h, x, y) implies (#[trigger] bit_set(
        flags[grid_idx(w, x, y)],
        o,
    ) == consumed_before(s, w, h, o, x, y, py, px + 1)) by {
        if in_class(cell(s, w, x, y), Color::Red) {
            lemma_start_of(s, w, h, o, Color::Red, x, y);
            assert(start_of(s, w, h, o, Color::Red, x, y) != (px, py));
        }
        if in_class(cell(s, w, x, y), Color::Black) {
            lemma_start_of(s, w, h, o, Color::Black, x, y);
            assert(start_of(s, w, h, o, Color::Black, x, y) != (px, py));
        }
    }
}

/// Finishing a row is the same scan position as beginning the next row.
pub proof fn lemma_flags_wrap(s: Seq<Tile>, w: int, h: int, flags: Seq<u8>, py: int)
    requires
        flags_ok(s, w, h, flags, py, w),
    ensures
        flags_ok(s, w, h, flags, py + 1, 0),
{
    assert forall|x: int, y: int, o: Orient| on_grid(w, h, x, y) implies (#[trigger] bit_set(
        flags[grid_idx(w, x, y)],
        o,
    ) == consumed_before(s, w, h, o, x, y, py + 1, 0)) by {
        if in_class(cell(s, w, x, y), Color::Red) {
            lemma_start_of(s, w, h, o, Color::Red, x, y);
        }
        if in_class(cell(s, w, x, y), Color::Black) {
            lemma_start_of(s, w, h, o, Color::Black, x, y);
        }
    }
}

/// The new mask sequence differs from the old exactly by setting
/// orientation `o`'s bit on every cell of the run of colour `c` that
/// begins at (sx, sy).
pub open spec fn walk_bits(
    s: Seq<Tile>,
    w: int,
    h: int,
    o: Orient,
    c: Color,
    sx: int,
    sy: int,
    oldf: Seq<u8>,
    newf: Seq<u8>,
) -> bool {
    &&& newf.len() == oldf.len()
    &&& forall|tx: int, ty: int, o2: Orient|
        on_grid(w, h, tx, ty) ==> (#[trigger] bit_set(newf[grid_idx(w, tx, ty)], o2) == (bit_set(
            oldf[grid_idx(w, tx, ty)],
            o2,
        ) || (o2 == o && in_class(cell(s, w, tx, ty), c) && start_of(s, w, h, o, c, tx, ty) == (
            sx,
            sy,
        ))))
}

/// The new histogram differs from the old exactly by one more count in
/// bucket `e`.
pub open spec fn hist_bumped(oldh: Seq<usize>, newh: Seq<usize>, e: int) -> bool {
    &&& newh.len() == oldh.len()
    &&& forall|l: int|
        0 <= l < oldh.len() ==> #[trigger] newh[l] as int == (if l == e {
            oldh[l] + 1
        } else {
            oldh[l] as int
        })
}

/// The bits of one orientation are exactly right for scan position
/// (py, px).
pub open spec fn orient_bits_ok(
    s: Seq<Tile>,
    w: int,
    h: int,
    o: Orient,
    flags: Seq<u8>,
    py: int,
    px: int,
) -> bool {
    forall|tx: int, ty: int|
        on_grid(w, h, tx, ty) ==> (#[trigger] bit_set(flags[grid_idx(w, tx, ty)], o)
            == consumed_before(s, w, h, o, tx, ty, py, px))
}

/// When no run of either colour begins at the scanned cell, the
/// orientation's bits are already right for the next scan position.
pub proof fn lemma_orient_advance_nostart(
    s: Seq<Tile>,
    w: int,
    h: int,
    o: Orient,
    x: int,
    y: int,
    f: Seq<u8>,
)
    requires
        on_grid(w, h, x, y),
        orient_bits_ok(s, w, h, o, f, y, x),
        !is_start(s, w, h, o, Color::Red, x, y),
        !is_start(s, w, h, o, Color::Black, x, y),
    ensures
        orient_bits_ok(s, w, h, o, f, y, x + 1),
{
    assert forall|tx: int, ty: int| on_grid(w, h, tx, ty) implies (#[trigger] bit_set(
        f[grid_idx(w, tx, ty)],
        o,
    ) == consumed_before(s, w, h, o, tx, ty, y, x + 1)) by {
        if in_class(cell(s, w, tx, ty), Color::Red) {
            lemma_start_of(s, w, h, o, Color::Red, tx, ty);
            assert(start_of(s, w, h, o, Color::Red, tx, ty) != (x, y));
        }
        if in_class(cell(s, w, tx, ty), Color::Black) {
            lemma_start_of(s, w, h, o, Color::Black, tx, ty);
            assert(start_of(s, w, h, o, Color::Black, tx, ty) != (x, y));
        }
    }
}

/// After the walk from a start on a pure-colour cell, the orientation's
/// bits are right for the next scan position.
pub proof fn lemma_orient_advance_walk(
    s: Seq<Tile>,
    w: int,
    h: int,
    o: Orient,
    c: Color,
    x: int,
    y: int,
    oldf: Seq<u8>,
    newf: Seq<u8>,
)
    requires
        on_grid(w, h, x, y),
        c == Color::Red || c == Color::Black,
        runs_with(cell(s, w, x, y), c),
        orient_bits_ok(s, w, h, o, oldf, y, x),
        walk_bits(s, w, h, o, c, x, y, oldf, newf),
    ensures
        orient_bits_ok(s, w, h, o, newf, y, x + 1),
{
    assert forall|tx: int, ty: int| on_grid(w, h, tx, ty) implies (#[trigger] bit_set(
        newf[grid_idx(w, tx, ty)],
        o,
    ) == consumed_before(s, w, h, o, tx, ty, y, x + 1)) by {
        if in_class(cell(s, w, tx, ty), Color::Red) {
            lemma_start_of(s, w, h, o, Color::Red, tx, ty);
        }
        if in_class(cell(s, w, tx, ty), Color::Black) {
            lemma_start_of(s, w, h, o, Color::Black, tx, ty);
        }
    }
}

/// After the two walks from the dual seed cell, one for each colour, the
/// orientation's bits are right for the next scan position.
pub proof fn lemma_orient_advance_both(
    s: Seq<Tile>,
    w: int,
    h: int,
    o: Orient,
    x: int,
    y: int,
    oldf: Seq<u8>,
    midf: Seq<u8>,
    newf: Seq<u8>,
)
    requires
        on_grid(w, h, x, y),
        in_class(cell(s, w, x, y), Color::Red),
        in_class(cell(s, w, x, y), Color::Black),
        orient_bits_ok(s, w, h, o, oldf, y, x),
        walk_bits(s, w, h, o, Color::Red, x, y, oldf, midf),
        walk_bits(s, w, h, o, Color::Black, x, y, midf, newf),
    ensures
        orient_bits_ok(s, w, h, o, newf, y, x + 1),
{
    assert forall|tx: int, ty: int| on_grid(w, h, tx, ty) implies (#[trigger] bit_set(
        newf[grid_idx(w, tx, ty)],
        o,
    ) == consumed_before(s, w, h, o, tx, ty, y, x + 1)) by {
        if in_class(cell(s, w, tx, ty), Color::Red) {
            lemma_start_of(s, w, h, o, Color::Red, tx, ty);
        }
        if in_class(cell(s, w, tx, ty), Color::Black) {
            lemma_start_of(s, w, h, o, Color::Black, tx, ty);
        }
    }
}

/// The histogram of a counter vector, as unbounded integers.
pub open spec fn hist_ints(p: Seq<usize>) -> Seq<int> {
    Seq::new(p.len(), |i: int| p[i] as int)
}

/// A bumped counter vector is the bumped histogram.
pub proof fn lemma_hist_bumped_ints(oldh: Seq<usize>, newh: Seq<usize>, e: int)
    requires
        hist_bumped(oldh, newh, e),
        0 <= e < oldh.len(),
    ensures
        hist_ints(newh) == bump(hist_ints(oldh), e),
{
    assert(hist_ints(newh) =~= bump(hist_ints(oldh), e));
}

/// Counting one run changes one bucket by one at most.
pub proof fn lemma_add_orient_bound(
    s: Seq<Tile>,
    w: int,
    h: int,
    o: Orient,
    c: Color,
    x: int,
    y: int,
    p: Seq<int>,
)
    requires
        on_grid(w, h, x, y),
        p.len() == maxdim(w, h),
    ensures
        add_orient(s, w, h, o, c, x, y, p).len() == p.len(),
        forall|l: int|
            0 <= l < p.len() ==> p[l] <= #[trigger] add_orient(s, w, h, o, c, x, y, p)[l] <= p[l]
                + 1,
{
    lemma_ext_bound(s, w, h, o, c, x, y);
}

/// Scanning one cell changes each bucket by at most four: one count per
/// orientation.
pub proof fn lemma_add_cell_bound(
    s: Seq<Tile>,
    w: int,
    h: int,
    c: Color,
    x: int,
    y: int,
    p: Seq<int>,
)
    requires
        on_grid(w, h, x, y),
        p.len() == maxdim(w, h),
    ensures
        add_cell(s, w, h, c, x, y, p).len() == p.len(),
        forall|l: int|
            0 <= l < p.len() ==> p[l] <= #[trigger] add_cell(s, w, h, c, x, y, p)[l] <= p[l] + 4,
{
    let p1 = add_orient(s, w, h, Orient::DownRight, c, x, y, p);
    let p2 = add_orient(s, w, h, Orient::Vertical, c, x, y, p1);
    let p3 = add_orient(s, w, h, Orient::DownLeft, c, x, y, p2);
    lemma_add_orient_bound(s, w, h, Orient::DownRight, c, x, y, p);
    lemma_add_orient_bound(s, w, h, Orient::Vertical, c, x, y, p1);
    lemma_add_orient_bound(s, w, h, Orient::DownLeft, c, x, y, p2);
    lemma_add_orient_bound(s, w, h, Orient::Horizontal, c, x, y, p3);
}

/// A zero mask byte has no orientation bit set.
pub proof fn lemma_bit_clear_zero(o: Orient)
    ensures
        !bit_set(0u8, o),
{
    let m = o.mask();
    assert(0u8 & m == 0) by (bit_vector);
}
/// Sum of the measured lengths of the runs of colour `c` along `o` that
/// begin in row `y` at column `x` or later.
pub open spec fn row_runs_from(
    s: Seq<Tile>,
    w: int,
    h: int,
    o: Orient,
    c: Color,
    y: int,
    x: int,
) -> int
    decreases w - x,
{
    if x >= w {
        0
    } else {
        (if is_start(s, w, h, o, c, x, y) {
            1 + run_ext(s, w, h, o, c, x, y)
        } else {
            0
        }) + row_runs_from(s, w, h, o, c, y, x + 1)
    }
}

/// How many tiles of the colour class of `c` lie in row `y` at column `x`
/// or later.
pub open spec fn row_class_from(s: Seq<Tile>, w: int, c: Color, y: int, x: int) -> int
    decreases w - x,
{
    if x >= w {
        0
    } else {
        (if in_class(cell(s, w, x, y), c) {
            1int
        } else {
            0int
        }) + row_class_from(s, w, c, y, x + 1)
    }
}

/// What a run of colour `c` arriving at (x, y) from the previous cell
/// along `o` still owes: that cell and its remaining extent.
spec fn cov_term(s: Seq<Tile>, w: int, h: int, o: Orient, c: Color, x: int, y: int) -> int {
    if covered(s, w, h, o, c, x, y) {
        1 + run_ext(s, w, h, o, c, x, y)
    } else {
        0
    }
}

/// Sum of `cov_term` over row `y` at column `x` or later.
spec fn row_cov_sum(s: Seq<Tile>, w: int, h: int, o: Orient, c: Color, y: int, x: int) -> int
    decreases w - x,
{
    if x >= w {
        0
    } else {
        cov_term(s, w, h, o, c, x, y) + row_cov_sum(s, w, h, o, c, y, x + 1)
    }
}

/// Sum of the run extents of the class tiles of row `y` at column `x` or
/// later.
spec fn row_ext_sum(s: Seq<Tile>, w: int, h: int, o: Orient, c: Color, y: int, x: int) -> int
    decreases w - x,
{
    if x >= w {
        0
    } else {
        (if in_class(cell(s, w, x, y), c) {
            run_ext(s, w, h, o, c, x, y)
        } else {
            0
        }) + row_ext_sum(s, w, h, o, c, y, x + 1)
    }
}

/// A class tile's extent is exactly what its run still owes at the next
/// cell along `o`; a non-class tile owes nothing forward.
proof fn lemma_ext_is_next_cov(s: Seq<Tile>, w: int, h: int, o: Orient, c: Color, x: int, y: int)
    requires
        on_grid(w, h, x, y),
    ensures
        (if in_class(cell(s, w, x, y), c) {
            run_ext(s, w, h, o, c, x, y)
        } else {
            0
        }) == (if on_grid(w, h, x + o.dx(), y + o.dy()) {
            cov_term(s, w, h, o, c, x + o.dx(), y + o.dy())
        } else {
            0
        }),
{
    if on_grid(w, h, x + o.dx(), y + o.dy()) {
        lemma_ext_bound(s, w, h, o, c, x + o.dx(), y + o.dy());
    }
}

/// Within a row, runs begun plus runs owed equal class tiles plus extents
/// owed onward: every class tile either begins a run or is owed to one.
proof fn lemma_row_split(s: Seq<Tile>, w: int, h: int, o: Orient, c: Color, y: int, x: int)
    requires
        0 <= x,
    ensures
        row_runs_from(s, w, h, o, c, y, x) + row_cov_sum(s, w, h, o, c, y, x) == row_class_from(
            s,
            w,
            c,
            y,
            x,
        ) + row_ext_sum(s, w, h, o, c, y, x),
    decreases w - x,
{
    if x < w {
        lemma_row_split(s, w, h, o, c, y, x + 1);
    }
}

/// Horizontal extents owed by row `y` are the cover terms of the same row,
/// one column further right.
proof fn lemma_ext_shift_h(s: Seq<Tile>, w: int, h: int, c: Color, y: int, x: int)
    requires
        0 <= x <= w,
        0 <= y < h,
    ensures
        row_ext_sum(s, w, h, Orient::Horizontal, c, y, x) == row_cov_sum(
            s,
            w,
            h,
            Orient::Horizontal,
            c,
            y,
            x + 1,
        ),
    decreases w - x,
{
    if x < w {
        lemma_ext_is_next_cov(s, w, h, Orient::Horizontal, c, x, y);
        lemma_ext_shift_h(s, w, h, c, y, x + 1);
    }
}

/// Vertical extents owed by row `y` are the cover terms of the next row,
/// same columns.
proof fn lemma_ext_shift_v(s: Seq<Tile>, w: int, h: int, c: Color, y: int, x: int)
    requires
        0 <= x <= w,
        0 <= y < h,
    ensures
        row_ext_sum(s, w, h, Orient::Vertical, c, y, x) == (if y + 1 < h {
            row_cov_sum(s, w, h, Orient::Vertical, c, y + 1, x)
        } else {
            0
        }),
    decreases w - x,
{
    if x < w {
        lemma_ext_is_next_cov(s, w, h, Orient::Vertical, c, x, y);
        lemma_ext_shift_v(s, w, h, c, y, x + 1);
    }
}

/// Down-right extents owed by row `y` are the cover terms of the next row,
/// one column further right.
proof fn lemma_ext_shift_dr(s: Seq<Tile>, w: int, h: int, c: Color, y: int, x: int)
    requires
        0 <= x <= w,
        0 <= y < h,
    ensures
        row_ext_sum(s, w, h, Orient::DownRight, c, y, x) == (if y + 1 < h {
            row_cov_sum(s, w, h, Orient::DownRight, c, y + 1, x + 1)
        } else {
            0
        }),
    decreases w - x,
{
    if x < w {
        lemma_ext_is_next_cov(s, w, h, Orient::DownRight, c, x, y);
        lemma_ext_shift_dr(s, w, h, c, y, x + 1);
    }
}

/// Down-left extents owed by row `y` are the cover terms of the next row,
/// one column further left; the next row's rightmost cover term is carried
/// explicitly.
proof fn lemma_ext_shift_dl(s: Seq<Tile>, w: int, h: int, c: Color, y: int, x: int)
    requires
        1 <= x <= w,
        0 <= y,
        y + 1 < h,
    ensures
        row_ext_sum(s, w, h, Orient::DownLeft, c, y, x) + cov_term(
            s,
            w,
            h,
            Orient::DownLeft,
            c,
            w - 1,
            y + 1,
        ) == row_cov_sum(s, w, h, Orient::DownLeft, c, y + 1, x - 1),
    decreases w - x,
{
    if x < w {
        lemma_ext_is_next_cov(s, w, h, Orient::DownLeft, c, x, y);
        lemma_ext_shift_dl(s, w, h, c, y, x + 1);
    } else {
        assert(row_cov_sum(s, w, h, Orient::DownLeft, c, y + 1, w - 1) == cov_term(
            s,
            w,
            h,
            Orient::DownLeft,
            c,
            w - 1,
            y + 1,
        ) + row_cov_sum(s, w, h, Orient::DownLeft, c, y + 1, w));
    }
}

/// No extent is owed out of the bottom row.
proof fn lemma_ext_last_row(s: Seq<Tile>, w: int, h: int, o: Orient, c: Color, y: int, x: int)
    requires
        o != Orient::Horizontal,
        0 <= x,
        y + 1 == h,
    ensures
        row_ext_sum(s, w, h, o, c, y, x) == 0,
    decreases w - x,
{
    if x < w {
        lemma_ext_last_row(s, w, h, o, c, y, x + 1);
    }
}

/// No run is owed into the top row from above.
proof fn lemma_cov_top(s: Seq<Tile>, w: int, h: int, o: Orient, c: Color, x: int)
    requires
        o != Orient::Horizontal,
        0 <= x,
    ensures
        row_cov_sum(s, w, h, o, c, 0, x) == 0,
    decreases w - x,
{
    if x < w {
        lemma_cov_top(s, w, h, o, c, x + 1);
    }
}

/// Within one row, the horizontal runs partition exactly the class tiles
/// of that row.
proof fn lemma_row_law_h(s: Seq<Tile>, w: int, h: int, c: Color, y: int)
    requires
        0 <= y < h,
    ensures
        row_runs_from(s, w, h, Orient::Horizontal, c, y, 0) == row_class_from(s, w, c, y, 0),
{
    lemma_row_split(s, w, h, Orient::Horizontal, c, y, 0);
    if w >= 1 {
        lemma_ext_shift_h(s, w, h, c, y, 0);
        assert(!covered(s, w, h, Orient::Horizontal, c, 0, y));
        assert(row_cov_sum(s, w, h, Orient::Horizontal, c, y, 0) == row_cov_sum(
            s,
            w,
            h,
            Orient::Horizontal,
            c,
            y,
            1,
        ));
    }
}

/// Within one row, the runs of a downward orientation begun there plus
/// those owed into the row equal the row's class tiles plus what is owed
/// to the next row.
proof fn lemma_row_law_dy1(s: Seq<Tile>, w: int, h: int, o: Orient, c: Color, y: int)
    requires
        o != Orient::Horizontal,
        0 <= y < h,
    ensures
        row_runs_from(s, w, h, o, c, y, 0) + row_cov_sum(s, w, h, o, c, y, 0) == row_class_from(
            s,
            w,
            c,
            y,
            0,
        ) + (if y + 1 < h {
            row_cov_sum(s, w, h, o, c, y + 1, 0)
        } else {
            0
        }),
{
    lemma_row_split(s, w, h, o, c, y, 0);
    if y + 1 == h {
        lemma_ext_last_row(s, w, h, o, c, y, 0);
    } else if w < 1 {
        lemma_ext_last_row_trivial(s, w, h, o, c, y);
    } else {
        match o {
            Orient::Vertical => {
                lemma_ext_shift_v(s, w, h, c, y, 0);
            },
            Orient::DownRight => {
                lemma_ext_shift_dr(s, w, h, c, y, 0);
                assert(!covered(s, w, h, Orient::DownRight, c, 0, y + 1));
                assert(row_cov_sum(s, w, h, Orient::DownRight, c, y + 1, 0) == row_cov_sum(
                    s,
                    w,
                    h,
                    Orient::DownRight,
                    c,
                    y + 1,
                    1,
                ));
            },
            Orient::DownLeft => {
                lemma_ext_is_next_cov(s, w, h, Orient::DownLeft, c, 0, y);
                lemma_ext_shift_dl(s, w, h, c, y, 1);
                assert(!covered(s, w, h, Orient::DownLeft, c, w - 1, y + 1));
            },
            Orient::Horizontal => {},
        }
    }
}

/// With no columns at all, nothing is owed anywhere.
proof fn lemma_ext_last_row_trivial(s: Seq<Tile>, w: int, h: int, o: Orient, c: Color, y: int)
    requires
        w < 1,
    ensures
        row_ext_sum(s, w, h, o, c, y, 0) == 0,
        row_cov_sum(s, w, h, o, c, y + 1, 0) == 0,
{
}

/// Sum of the measured lengths of the runs of colour `c` along `o` in
/// rows `y` and below.
pub open spec fn runs_below(s: Seq<Tile>, w: int, h: int, o: Orient, c: Color, y: int) -> int
    decreases h - y,
{
    if y >= h {
        0
    } else {
        row_runs_from(s, w, h, o, c, y, 0) + runs_below(s, w, h, o, c, y + 1)
    }
}

/// How many tiles of the colour class of `c` lie in rows `y` and below.
pub open spec fn class_below(s: Seq<Tile>, w: int, h: int, c: Color, y: int) -> int
    decreases h - y,
{
    if y >= h {
        0
    } else {
        row_class_from(s, w, c, y, 0) + class_below(s, w, h, c, y + 1)
    }
}

/// Horizontal partial sums of the law below, from row `y` down.
proof fn lemma_total_h(s: Seq<Tile>, w: int, h: int, c: Color, y: int)
    requires
        0 <= y <= h,
    ensures
        runs_below(s, w, h, Orient::Horizontal, c, y) == class_below(s, w, h, c, y),
    decreases h - y,
{
    if y < h {
        lemma_row_law_h(s, w, h, c, y);
        lemma_total_h(s, w, h, c, y + 1);
    }
}

/// Downward-orientation partial sums of the law below, from row `y` down,
/// carrying what earlier rows still owe into row `y`.
proof fn lemma_total_dy1(s: Seq<Tile>, w: int, h: int, o: Orient, c: Color, y: int)
    requires
        o != Orient::Horizontal,
        0 <= y <= h,
    ensures
        runs_below(s, w, h, o, c, y) + (if y < h {
            row_cov_sum(s, w, h, o, c, y, 0)
        } else {
            0
        }) == class_below(s, w, h, c, y),
    decreases h - y,
{
    if y < h {
        lemma_row_law_dy1(s, w, h, o, c, y);
        lemma_total_dy1(s, w, h, o, c, y + 1);
    }
}

/// The run-length sums tally with the board, in every orientation: the
/// measured lengths of the maximal runs of a colour along `o` add up to
/// the number of tiles of that colour class, because every tile of the
/// colour lies in exactly one such run, and the dual seed tile begins one
/// run of each colour.
pub proof fn lemma_orientation_runs_sum(s: Seq<Tile>, w: int, h: int, o: Orient, c: Color)
    requires
        0 <= w,
        0 <= h,
    ensures
        runs_below(s, w, h, o, c, 0) == class_below(s, w, h, c, 0),
{
    if o == Orient::Horizontal {
        lemma_total_h(s, w, h, c, 0);
    } else {
        lemma_total_dy1(s, w, h, o, c, 0);
        if h > 0 {
            lemma_cov_top(s, w, h, o, c, 0);
        }
    }
}

/// The histogram's length-weighted total from bucket `l` on: each bucket's
/// count times the run length it stands for.
pub open spec fn weighted_from(p: Seq<int>, l: int) -> int
    decreases p.len() - l,
{
    if !(0 <= l < p.len()) {
        0
    } else {
        (l + 1) * p[l] + weighted_from(p, l + 1)
    }
}

/// An all-zero histogram weighs nothing.
proof fn lemma_weighted_zero(n: int, l: int)
    requires
        0 <= n,
        0 <= l,
    ensures
        weighted_from(zero_hist(n), l) == 0,
    decreases n - l,
{
    if l < zero_hist(n).len() {
        lemma_weighted_zero(n, l + 1);
    }
}

/// Counting one more run of extent `e` adds that run's length to the
/// weighted total.
proof fn lemma_weighted_bump(p: Seq<int>, e: int, l: int)
    requires
        0 <= e < p.len(),
        0 <= l,
    ensures
        weighted_from(bump(p, e), l) == weighted_from(p, l) + (if l <= e {
            e + 1
        } else {
            0
        }),
    decreases p.len() - l,
{
    if l < p.len() {
        lemma_weighted_bump(p, e, l + 1);
        if l == e {
            assert((l + 1) * (p[l] + 1) == (l + 1) * p[l] + (l + 1)) by (nonlinear_arith);
        }
    }
}

/// Counting the run of colour `c` that begins at (x, y) along `o`, if one
/// does, adds its length to the weighted total.
proof fn lemma_weighted_add_orient(
    s: Seq<Tile>,
    w: int,
    h: int,
    o: Orient,
    c: Color,
    x: int,
    y: int,
    p: Seq<int>,
)
    requires
        on_grid(w, h, x, y),
        p.len() == maxdim(w, h),
    ensures
        add_orient(s, w, h, o, c, x, y, p).len() == p.len(),
        weighted_from(add_orient(s, w, h, o, c, x, y, p), 0) == weighted_from(p, 0) + (
        if is_start(s, w, h, o, c, x, y) {
            1 + run_ext(s, w, h, o, c, x, y)
        } else {
            0
        }),
{
    lemma_ext_bound(s, w, h, o, c, x, y);
    if is_start(s, w, h, o, c, x, y) {
        lemma_weighted_bump(p, run_ext(s, w, h, o, c, x, y), 0);
    }
}

/// Sum of the lengths of the runs of colour `c` along `o` that begin at a
/// cell the scan visits strictly before (x, y), with `x == w` meaning the
/// whole row `y` is done.
spec fn runs_weight_upto(s: Seq<Tile>, w: int, h: int, o: Orient, c: Color, y: int, x: int) -> int
    decreases y, x,
{
    if y <= 0 && x <= 0 {
        0
    } else if x <= 0 {
        runs_weight_upto(s, w, h, o, c, y - 1, w)
    } else {
        runs_weight_upto(s, w, h, o, c, y, x - 1) + (if is_start(s, w, h, o, c, x - 1, y) {
            1 + run_ext(s, w, h, o, c, x - 1, y)
        } else {
            0
        })
    }
}

/// The histogram accumulated up to a scan position weighs exactly the
/// lengths of the runs begun at the cells already scanned, over the four
/// orientations.
proof fn lemma_weighted_hist_upto(s: Seq<Tile>, w: int, h: int, c: Color, y: int, x: int)
    requires
        1 <= w,
        1 <= h,
        0 <= y <= h,
        0 <= x <= w,
        y == h ==> x == 0,
    ensures
        hist_upto(s, w, h, c, y, x).len() == maxdim(w, h),
        weighted_from(hist_upto(s, w, h, c, y, x), 0) == runs_weight_upto(
            s,
            w,
            h,
            Orient::DownRight,
            c,
            y,
            x,
        ) + runs_weight_upto(s, w, h, Orient::Vertical, c, y, x) + runs_weight_upto(
            s,
            w,
            h,
            Orient::DownLeft,
            c,
            y,
            x,
        ) + runs_weight_upto(s, w, h, Orient::Horizontal, c, y, x),
    decreases y, x,
{
    if y <= 0 && x <= 0 {
        lemma_weighted_zero(maxdim(w, h), 0);
    } else if x <= 0 {
        lemma_weighted_hist_upto(s, w, h, c, y - 1, w);
    } else {
        lemma_weighted_hist_upto(s, w, h, c, y, x - 1);
        let p = hist_upto(s, w, h, c, y, x - 1);
        let p1 = add_orient(s, w, h, Orient::DownRight, c, x - 1, y, p);
        let p2 = add_orient(s, w, h, Orient::Vertical, c, x - 1, y, p1);
        let p3 = add_orient(s, w, h, Orient::DownLeft, c, x - 1, y, p2);
        lemma_weighted_add_orient(s, w, h, Orient::DownRight, c, x - 1, y, p);
        lemma_weighted_add_orient(s, w, h, Orient::Vertical, c, x - 1, y, p1);
        lemma_weighted_add_orient(s, w, h, Orient::DownLeft, c, x - 1, y, p2);
        lemma_weighted_add_orient(s, w, h, Orient::Horizontal, c, x - 1, y, p3);
    }
}

/// Within a row, the scanned run weights grow by exactly the row's run
/// lengths consumed so far.
proof fn lemma_runs_weight_row(
    s: Seq<Tile>,
    w: int,
    h: int,
    o: Orient,
    c: Color,
    y: int,
    x: int,
)
    requires
        0 <= x <= w,
        0 <= y,
    ensures
        runs_weight_upto(s, w, h, o, c, y, x) == runs_weight_upto(s, w, h, o, c, y, 0)
            + row_runs_from(s, w, h, o, c, y, 0) - row_runs_from(s, w, h, o, c, y, x),
    decreases x,
{
    if x > 0 {
        lemma_runs_weight_row(s, w, h, o, c, y, x - 1);
    }
}

/// The run weights scanned before row `y` are the run lengths of the rows
/// above it.
proof fn lemma_runs_weight_rows(s: Seq<Tile>, w: int, h: int, o: Orient, c: Color, y: int)
    requires
        1 <= w,
        0 <= y <= h,
    ensures
        runs_weight_upto(s, w, h, o, c, y, 0) + runs_below(s, w, h, o, c, y) == runs_below(
            s,
            w,
            h,
            o,
            c,
            0,
        ),
    decreases y,
{
    if y > 0 {
        lemma_runs_weight_rows(s, w, h, o, c, y - 1);
        lemma_runs_weight_row(s, w, h, o, c, y - 1, w);
    }
}

/// The histogram weighs the whole board, four times over: each of the four
/// orientations partitions the tiles of a colour class into maximal runs,
/// so the histogram's length-weighted total is four times the number of
/// tiles of that colour class.
pub proof fn lemma_run_weight_total(s: Seq<Tile>, w: int, h: int, c: Color)
    requires
        1 <= w,
        1 <= h,
    ensures
        weighted_from(spec_lines(s, w, h, c), 0) == 4 * class_below(s, w, h, c, 0),
{
    lemma_weighted_hist_upto(s, w, h, c, h, 0);
    lemma_runs_weight_rows(s, w, h, Orient::DownRight, c, h);
    lemma_runs_weight_rows(s, w, h, Orient::Vertical, c, h);
    lemma_runs_weight_rows(s, w, h, Orient::DownLeft, c, h);
    lemma_runs_weight_rows(s, w, h, Orient::Horizontal, c, h);
    lemma_orientation_runs_sum(s, w, h, Orient::DownRight, c);
    lemma_orientation_runs_sum(s, w, h, Orient::Vertical, c);
    lemma_orientation_runs_sum(s, w, h, Orient::DownLeft, c);
    lemma_orientation_runs_sum(s, w, h, Orient::Horizontal, c);
}

} // verus!
