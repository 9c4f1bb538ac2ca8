//! Axial coordinates on the triangular grid of the board.
//!
//! A point `(q, r)` lies at squared distance `q*q - q*r + r*r` from the centre;
//! the board holds every point whose squared distance is at most
//! `RADIUS_SQUARED`. The six grid directions are numbered `0..6`; the first
//! three are the positive directions of the three line axes and direction
//! `d + 3` is the opposite of direction `d`.
use vstd::arithmetic::div_mod::lemma_fundamental_div_mod_converse;
use vstd::prelude::*;

verus! {

/// Largest squared distance from the centre of a point on the board.
pub const RADIUS_SQUARED: i64 = 21;

/// Bound on the absolute value of either component of a point on the board.
pub const MAX_COMPONENT: i64 = 5;

/// Side length of the square of axial coordinates that encloses the board.
pub const SPAN: usize = 11;

/// Number of points in that square.
pub const NUM_CELLS: usize = 121;

/// Number of grid directions.
pub const NUM_DIRECTIONS: usize = 6;

/// Number of line axes (the positive directions).
pub const NUM_AXES: usize = 3;

/// One intersection of the grid, in axial coordinates.
#[derive(Clone, Copy, Debug, PartialEq, Eq, Hash, Structural)]
pub struct HexCoord {
    pub q: i32,
    pub r: i32,
}

/// Squared distance from the centre of the point `(q, r)`.
pub open spec fn norm(q: int, r: int) -> int {
    q * q - q * r + r * r
}

/// Whether the point `(q, r)` lies on the board.
pub open spec fn on_board(q: int, r: int) -> bool {
    norm(q, r) <= RADIUS_SQUARED
}

/// Whether `(q, r)` lies in the square that encloses the board.
pub open spec fn in_square(q: int, r: int) -> bool {
    -MAX_COMPONENT <= q <= MAX_COMPONENT && -MAX_COMPONENT <= r <= MAX_COMPONENT
}

/// First component of the point `j` steps from `(q, _)` in direction `d`.
pub open spec fn line_q(q: int, d: int, j: int) -> int {
    if d == 0 || d == 2 {
        q + j
    } else if d == 3 || d == 5 {
        q - j
    } else {
        q
    }
}

/// Second component of the point `j` steps from `(_, r)` in direction `d`.
pub open spec fn line_r(r: int, d: int, j: int) -> int {
    if d == 1 || d == 2 {
        r + j
    } else if d == 4 || d == 5 {
        r - j
    } else {
        r
    }
}

/// The point as a coordinate value (exact for points of the board).
pub open spec fn pt(q: int, r: int) -> HexCoord {
    HexCoord { q: q as i32, r: r as i32 }
}

/// The point `j` steps from `c` in direction `d`.
pub open spec fn along(c: HexCoord, d: int, j: int) -> HexCoord {
    pt(line_q(c.q as int, d, j), line_r(c.r as int, d, j))
}

/// Whether the point `j` steps from `c` in direction `d` lies on the board.
pub open spec fn along_on_board(c: HexCoord, d: int, j: int) -> bool {
    on_board(line_q(c.q as int, d, j), line_r(c.r as int, d, j))
}

/// Position of an enclosed point in the row-major numbering of the square.
pub open spec fn index_of(c: HexCoord) -> int {
    (c.q + MAX_COMPONENT) * SPAN + (c.r + MAX_COMPONENT)
}

/// The point with the given position in the numbering of the square.
pub open spec fn coord_at(i: int) -> HexCoord {
    pt(i / SPAN as int - MAX_COMPONENT, i % SPAN as int - MAX_COMPONENT)
}

impl HexCoord {
    /// Whether the coordinate lies on the board.
    pub open spec fn valid(self) -> bool {
        on_board(self.q as int, self.r as int)
    }

    pub fn new(q: i32, r: i32) -> (c: HexCoord)
        ensures
            c.q == q,
            c.r == r,
    {
        HexCoord { q, r }
    }

    /// Tests whether the coordinate lies on the board.
    pub fn is_valid(&self) -> (b: bool)
        ensures
            b == self.valid(),
    {
        is_on_board(self.q as i64, self.r as i64)
    }
}

/// A point of the board lies in the enclosing square.
pub proof fn lemma_on_board_in_square(q: int, r: int)
    requires
        on_board(q, r),
    ensures
        in_square(q, r),
{
    assert(r * r <= 28) by (nonlinear_arith)
        requires
            q * q - q * r + r * r <= 21,
    {
        assert(4 * (q * q - q * r + r * r) == (2 * q - r) * (2 * q - r) + 3 * (r * r));
        assert(0 <= (2 * q - r) * (2 * q - r));
    }
    assert(q * q <= 28) by (nonlinear_arith)
        requires
            q * q - q * r + r * r <= 21,
    {
        assert(4 * (q * q - q * r + r * r) == (2 * r - q) * (2 * r - q) + 3 * (q * q));
        assert(0 <= (2 * r - q) * (2 * r - q));
    }
    assert(-5 <= r <= 5) by (nonlinear_arith)
        requires
            r * r <= 28,
    ;
    assert(-5 <= q <= 5) by (nonlinear_arith)
        requires
            q * q <= 28,
    ;
}

/// Numbering and un-numbering the enclosing square are inverse.
pub proof fn lemma_index_of(c: HexCoord)
    requires
        in_square(c.q as int, c.r as int),
    ensures
        0 <= index_of(c) < NUM_CELLS,
        coord_at(index_of(c)) == c,
{
    lemma_fundamental_div_mod_converse(
        index_of(c),
        SPAN as int,
        c.q + MAX_COMPONENT,
        c.r + MAX_COMPONENT,
    );
}

/// Every coordinate of the board has its own position in the numbering.
pub proof fn lemma_valid_indices()
    ensures
        forall|c: HexCoord|
            c.valid() ==> 0 <= #[trigger] index_of(c) < NUM_CELLS && coord_at(index_of(c)) == c,
{
    assert forall|c: HexCoord| c.valid() implies 0 <= #[trigger] index_of(c) < NUM_CELLS && coord_at(
        index_of(c),
    ) == c by {
        lemma_on_board_in_square(c.q as int, c.r as int);
        lemma_index_of(c);
    }
}

/// Two coordinates of the square with the same position are equal.
pub proof fn lemma_index_of_injective(a: HexCoord, b: HexCoord)
    requires
        in_square(a.q as int, a.r as int),
        in_square(b.q as int, b.r as int),
        index_of(a) == index_of(b),
    ensures
        a == b,
{
    lemma_index_of(a);
    lemma_index_of(b);
}

/// Every position of the numbering belongs to a point of the square.
pub proof fn lemma_coord_at(i: int)
    requires
        0 <= i < NUM_CELLS,
    ensures
        in_square(coord_at(i).q as int, coord_at(i).r as int),
        index_of(coord_at(i)) == i,
{
    let a = i / SPAN as int;
    let b = i % SPAN as int;
    assert(0 <= a < SPAN && 0 <= b < SPAN && i == a * SPAN + b) by {
        vstd::arithmetic::div_mod::lemma_fundamental_div_mod(i, SPAN as int);
        vstd::arithmetic::div_mod::lemma_div_pos_is_pos(i, SPAN as int);
        vstd::arithmetic::div_mod::lemma_div_is_ordered(i, NUM_CELLS as int - 1, SPAN as int);
        vstd::arithmetic::div_mod::lemma_mod_bound(i, SPAN as int);
    }
}

/// Tests whether the point `(q, r)` lies on the board.
pub fn is_on_board(q: i64, r: i64) -> (b: bool)
    ensures
        b == on_board(q as int, r as int),
{
    if q < -MAX_COMPONENT || q > MAX_COMPONENT || r < -MAX_COMPONENT || r > MAX_COMPONENT {
        proof {
            if on_board(q as int, r as int) {
                lemma_on_board_in_square(q as int, r as int);
            }
        }
        false
    } else {
        assert(-25 <= q * q <= 25 && -25 <= q * r <= 25 && -25 <= r * r <= 25) by (nonlinear_arith)
            requires
                -5 <= q <= 5,
                -5 <= r <= 5,
        ;
        q * q - q * r + r * r <= RADIUS_SQUARED
    }
}

/// The point one step from `(q, r)` in direction `d`.
pub fn step(q: i64, r: i64, d: usize) -> (res: (i64, i64))
    requires
        d < NUM_DIRECTIONS,
        -0x1_0000_0000 <= q <= 0x1_0000_0000,
        -0x1_0000_0000 <= r <= 0x1_0000_0000,
    ensures
        res.0 == line_q(q as int, d as int, 1),
        res.1 == line_r(r as int, d as int, 1),
{
    if d == 0 {
        (q + 1, r)
    } else if d == 1 {
        (q, r + 1)
    } else if d == 2 {
        (q + 1, r + 1)
    } else if d == 3 {
        (q - 1, r)
    } else if d == 4 {
        (q, r - 1)
    } else {
        (q - 1, r - 1)
    }
}

/// The coordinate with the given position in the numbering of the square.
pub fn coord_at_index(i: usize) -> (c: HexCoord)
    requires
        i < NUM_CELLS,
    ensures
        c == coord_at(i as int),
        in_square(c.q as int, c.r as int),
        index_of(c) == i,
{
    proof {
        lemma_coord_at(i as int);
    }
    let a = (i / SPAN) as i32;
    let b = (i % SPAN) as i32;
    HexCoord { q: a - 5, r: b - 5 }
}

/// The position of a coordinate of the board in the numbering of the square.
pub fn index_of_coord(c: &HexCoord) -> (i: usize)
    requires
        c.valid(),
    ensures
        i == index_of(*c),
        i < NUM_CELLS,
        coord_at(i as int) == *c,
{
    proof {
        lemma_on_board_in_square(c.q as int, c.r as int);
        lemma_index_of(*c);
    }
    ((c.q + 5) as usize) * SPAN + ((c.r + 5) as usize)
}

} // verus!
