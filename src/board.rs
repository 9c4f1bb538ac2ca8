//! The board: what each point of the grid holds, and the geometry of slides
//! and rows that the rules read from it.
use crate::coord::{
    along, along_on_board, coord_at, coord_at_index, in_square, index_of, index_of_coord,
    is_on_board, lemma_coord_at, lemma_index_of, lemma_index_of_injective,
    lemma_on_board_in_square, lemma_valid_indices, line_q, line_r, on_board, pt, step, HexCoord,
    NUM_AXES, NUM_CELLS, NUM_DIRECTIONS, RADIUS_SQUARED,
};
use crate::entities::{opponent, Piece, Player};
use vstd::prelude::*;

verus! {

/// What the point `(q, r)` holds on the board `m` (nothing off the board).
pub open spec fn content(m: Map<HexCoord, Piece>, q: int, r: int) -> Option<Piece> {
    if on_board(q, r) && m.dom().contains(pt(q, r)) {
        Some(m[pt(q, r)])
    } else {
        None
    }
}

/// What the point `j` steps from `c` in direction `d` holds.
pub open spec fn content_along(m: Map<HexCoord, Piece>, c: HexCoord, d: int, j: int) -> Option<Piece> {
    content(m, line_q(c.q as int, d, j), line_r(c.r as int, d, j))
}

/// What the coordinate `c` holds.
pub open spec fn piece_at(m: Map<HexCoord, Piece>, c: HexCoord) -> Option<Piece> {
    if m.dom().contains(c) {
        Some(m[c])
    } else {
        None
    }
}

/// Whether every occupied coordinate of `m` lies on the board.
pub open spec fn all_on_board(m: Map<HexCoord, Piece>) -> bool {
    forall|c: HexCoord| #[trigger] m.dom().contains(c) ==> c.valid()
}

/// Whether `piece` is a ring (`rings` true) or a marker (`rings` false).
pub open spec fn of_kind(piece: Piece, rings: bool) -> bool {
    if rings {
        piece is Ring
    } else {
        piece is Marker
    }
}

/// The coordinates that hold a ring (`rings` true) or a marker (`rings` false).
pub open spec fn cells_of_kind(m: Map<HexCoord, Piece>, rings: bool) -> Set<HexCoord> {
    Set::new(|c: HexCoord| m.dom().contains(c) && of_kind(m[c], rings))
}

/// Number of rings on the board.
pub open spec fn num_rings(m: Map<HexCoord, Piece>) -> nat {
    cells_of_kind(m, true).len()
}

/// Whether `o` is a marker of either player.
pub open spec fn holds_marker(o: Option<Piece>) -> bool {
    o matches Some(Piece::Marker(_))
}

/// Whether `o` is a ring of either player.
pub open spec fn holds_ring(o: Option<Piece>) -> bool {
    o matches Some(Piece::Ring(_))
}

/// Whether a ring at `from` can pass over the points `1..k` steps away in
/// direction `d`: they lie on the board, none holds a ring, and the markers
/// among them form one contiguous block.
pub open spec fn clear_path(m: Map<HexCoord, Piece>, from: HexCoord, d: int, k: int) -> bool {
    &&& forall|j: int|
        1 <= j < k ==> #[trigger] along_on_board(from, d, j) && !holds_ring(content_along(m, from, d, j))
    &&& forall|i: int, j: int, l: int|
        #![trigger content_along(m, from, d, i), content_along(m, from, d, j), content_along(m, from, d, l)]
        1 <= i < j < l < k && holds_marker(content_along(m, from, d, i)) && holds_marker(
            content_along(m, from, d, l),
        ) ==> holds_marker(content_along(m, from, d, j))
}

/// Whether a ring at `from` can slide `k` steps in direction `d`: the point
/// there lies on the board and is empty, and the points before it are passable.
pub open spec fn lands(m: Map<HexCoord, Piece>, from: HexCoord, d: int, k: int) -> bool {
    &&& 1 <= k
    &&& along_on_board(from, d, k)
    &&& content_along(m, from, d, k) is None
    &&& clear_path(m, from, d, k)
}

/// Whether a ring at `from` can slide to `t`.
pub open spec fn is_ring_target(m: Map<HexCoord, Piece>, from: HexCoord, t: HexCoord) -> bool {
    exists|d: int, k: int| 0 <= d < NUM_DIRECTIONS && #[trigger] lands(m, from, d, k) && t == along(from, d, k)
}

/// The landing points of the first `j` steps from `from` in direction `d`, nearest first.
pub open spec fn targets_upto(m: Map<HexCoord, Piece>, from: HexCoord, d: int, j: int) -> Seq<HexCoord>
    decreases j,
{
    if j <= 0 {
        Seq::empty()
    } else if lands(m, from, d, j) {
        targets_upto(m, from, d, j - 1).push(along(from, d, j))
    } else {
        targets_upto(m, from, d, j - 1)
    }
}

/// The landing points among the first `j` steps are exactly the points
/// reached by a slide of at most `j` steps, each listed once.
proof fn lemma_targets_upto(m: Map<HexCoord, Piece>, from: HexCoord, d: int, j: int)
    requires
        0 <= d < NUM_DIRECTIONS,
    ensures
        forall|x: HexCoord|
            targets_upto(m, from, d, j).contains(x) <==> exists|k: int|
                1 <= k <= j && #[trigger] lands(m, from, d, k) && x == along(from, d, k),
        targets_upto(m, from, d, j).no_duplicates(),
    decreases j,
{
    if j > 0 {
        lemma_targets_upto(m, from, d, j - 1);
        let prev = targets_upto(m, from, d, j - 1);
        assert forall|x: HexCoord|
            targets_upto(m, from, d, j).contains(x) <==> exists|k: int|
                1 <= k <= j && #[trigger] lands(m, from, d, k) && x == along(from, d, k) by {
            if targets_upto(m, from, d, j).contains(x) {
                if !prev.contains(x) {
                    assert(targets_upto(m, from, d, j).last() == x);
                    assert(lands(m, from, d, j));
                }
            }
            if exists|k: int| 1 <= k <= j && #[trigger] lands(m, from, d, k) && x == along(from, d, k) {
                let k = choose|k: int| 1 <= k <= j && #[trigger] lands(m, from, d, k) && x == along(from, d, k);
                if k == j {
                    assert(targets_upto(m, from, d, j).last() == x);
                } else {
                    assert(prev.contains(x));
                    let i = choose|i: int| 0 <= i < prev.len() && prev[i] == x;
                    assert(targets_upto(m, from, d, j)[i] == x);
                }
            }
        }
        if lands(m, from, d, j) {
            assert forall|x: HexCoord| prev.contains(x) implies x != along(from, d, j) by {
                let k = choose|k: int| 1 <= k <= j - 1 && #[trigger] lands(m, from, d, k) && x == along(from, d, k);
                if x == along(from, d, j) {
                    lemma_along_injective(from, d, k, d, j);
                }
            }
            let all = targets_upto(m, from, d, j);
            assert forall|a: int, b: int| 0 <= a < b < all.len() implies all[a] != all[b] by {
                if b == all.len() - 1 {
                    assert(prev.contains(all[a]));
                } else {
                    assert(prev[a] == all[a] && prev[b] == all[b]);
                }
            }
        }
    }
}

/// Distinct slides from one point end at distinct points of the board.
pub proof fn lemma_along_injective(from: HexCoord, d1: int, k1: int, d2: int, k2: int)
    requires
        0 <= d1 < NUM_DIRECTIONS,
        0 <= d2 < NUM_DIRECTIONS,
        1 <= k1,
        1 <= k2,
        along_on_board(from, d1, k1),
        along_on_board(from, d2, k2),
        along(from, d1, k1) == along(from, d2, k2),
    ensures
        d1 == d2,
        k1 == k2,
{
    lemma_on_board_in_square(line_q(from.q as int, d1, k1), line_r(from.r as int, d1, k1));
    lemma_on_board_in_square(line_q(from.q as int, d2, k2), line_r(from.r as int, d2, k2));
}

/// A line of the board has at most eleven points.
proof fn lemma_line_length(from: HexCoord, d: int, j: int)
    requires
        0 <= d < NUM_DIRECTIONS,
        1 <= j,
        along_on_board(from, d, 1),
        along_on_board(from, d, j),
    ensures
        j <= 11,
{
    lemma_on_board_in_square(line_q(from.q as int, d, 1), line_r(from.r as int, d, 1));
    lemma_on_board_in_square(line_q(from.q as int, d, j), line_r(from.r as int, d, j));
}

/// A slide never ends on a ring, nor on a marker of the block it jumps: its
/// landing point lies on the board and is empty.
pub proof fn lemma_ring_target_is_empty(m: Map<HexCoord, Piece>, from: HexCoord, t: HexCoord)
    requires
        is_ring_target(m, from, t),
    ensures
        piece_at(m, t) is None,
        t.valid(),
{
    let (d, k) = choose|d: int, k: int| 0 <= d < NUM_DIRECTIONS && #[trigger] lands(m, from, d, k) && t == along(from, d, k);
    lemma_on_board_in_square(line_q(from.q as int, d, k), line_r(from.r as int, d, k));
}

/// Whether `c` lies strictly between `from` and `to` on a line of the grid.
pub open spec fn between(from: HexCoord, to: HexCoord, c: HexCoord) -> bool {
    exists|d: int, k: int, j: int|
        #![trigger line_q(from.q as int, d, k), line_q(from.q as int, d, j)]
        0 <= d < NUM_DIRECTIONS && 1 <= j < k && to.q == line_q(from.q as int, d, k) && to.r
            == line_r(from.r as int, d, k) && line_q(from.q as int, d, j) == c.q
            && line_r(from.r as int, d, j) == c.r
}

/// The piece `o` at `c` after the markers between `from` and `to` change owner.
pub open spec fn flip_piece(from: HexCoord, to: HexCoord, c: HexCoord, o: Piece) -> Piece {
    match o {
        Piece::Marker(p) => if between(from, to, c) {
            Piece::Marker(opponent(p))
        } else {
            o
        },
        Piece::Ring(_) => o,
    }
}

/// The board `m` after the markers between `from` and `to` change owner.
pub open spec fn flipped(m: Map<HexCoord, Piece>, from: HexCoord, to: HexCoord) -> Map<HexCoord, Piece> {
    Map::new(|c: HexCoord| m.dom().contains(c), |c: HexCoord| flip_piece(from, to, c, m[c]))
}

/// Tests whether `c` lies strictly between `from` and `to` on a line of the grid.
pub fn lies_between(from: &HexCoord, to: &HexCoord, c: &HexCoord) -> (b: bool)
    ensures
        b == between(*from, *to, *c),
{
    let tq = to.q as i64 - from.q as i64;
    let tr = to.r as i64 - from.r as i64;
    let cq = c.q as i64 - from.q as i64;
    let cr = c.r as i64 - from.r as i64;
    let b = if tr == 0 {
        cr == 0 && ((0 < cq && cq < tq) || (tq < cq && cq < 0))
    } else if tq == 0 {
        cq == 0 && ((0 < cr && cr < tr) || (tr < cr && cr < 0))
    } else if tq == tr {
        cq == cr && ((0 < cq && cq < tq) || (tq < cq && cq < 0))
    } else {
        false
    };
    proof {
        let fq = from.q as int;
        let fr = from.r as int;
        if b {
            let (d, k, j) = if tr == 0 {
                if tq > 0 {
                    (0int, tq as int, cq as int)
                } else {
                    (3int, -tq, -cq)
                }
            } else if tq == 0 {
                if tr > 0 {
                    (1int, tr as int, cr as int)
                } else {
                    (4int, -tr, -cr)
                }
            } else {
                if tq > 0 {
                    (2int, tq as int, cq as int)
                } else {
                    (5int, -tq, -cq)
                }
            };
            assert(line_q(fq, d, k) == to.q && line_q(fq, d, j) == c.q);
        }
        if between(*from, *to, *c) {
            let (d, k, j) = choose|d: int, k: int, j: int|
                #![trigger line_q(from.q as int, d, k), line_q(from.q as int, d, j)]
                0 <= d < NUM_DIRECTIONS && 1 <= j < k && to.q == line_q(from.q as int, d, k) && to.r
                    == line_r(from.r as int, d, k) && line_q(from.q as int, d, j) == c.q
                    && line_r(from.r as int, d, j) == c.r;
            assert(b);
        }
    }
    b
}

/// Whether a maximal line of exactly five markers of `p` starts at `c` and
/// runs along axis `d`.
pub open spec fn run_at(m: Map<HexCoord, Piece>, p: Player, c: HexCoord, d: int) -> bool {
    &&& forall|i: int| 0 <= i < 5 ==> #[trigger] content_along(m, c, d, i) == Some(Piece::Marker(p))
    &&& content_along(m, c, d, -1) != Some(Piece::Marker(p))
    &&& content_along(m, c, d, 5) != Some(Piece::Marker(p))
}

/// The five points of the line that starts at `c` and runs along axis `d`.
pub open spec fn run_seq(c: HexCoord, d: int) -> Seq<HexCoord> {
    Seq::new(5, |i: int| along(c, d, i))
}

/// Whether `s` is a run of `p`: the five points, in order along an axis, of
/// a maximal line of exactly five markers of `p`.
pub open spec fn is_run(m: Map<HexCoord, Piece>, p: Player, s: Seq<HexCoord>) -> bool {
    exists|c: HexCoord, d: int| 0 <= d < NUM_AXES && #[trigger] run_at(m, p, c, d) && s == run_seq(c, d)
}

/// The runs of `p` that start at `c`, by axis.
pub open spec fn runs_from(m: Map<HexCoord, Piece>, p: Player, c: HexCoord, d: int) -> Seq<Seq<HexCoord>>
    decreases d,
{
    if d <= 0 {
        Seq::empty()
    } else if run_at(m, p, c, d - 1) {
        runs_from(m, p, c, d - 1).push(run_seq(c, d - 1))
    } else {
        runs_from(m, p, c, d - 1)
    }
}

/// The runs of `p` that start at the first `i` points of the numbering.
pub open spec fn runs_before(m: Map<HexCoord, Piece>, p: Player, i: int) -> Seq<Seq<HexCoord>>
    decreases i,
{
    if i <= 0 {
        Seq::empty()
    } else {
        runs_before(m, p, i - 1) + runs_from(m, p, coord_at(i - 1), NUM_AXES as int)
    }
}

/// Every run of `p` on the board, in the order in which `Board::runs` lists them.
pub open spec fn board_runs(m: Map<HexCoord, Piece>, p: Player) -> Seq<Seq<HexCoord>> {
    runs_before(m, p, NUM_CELLS as int)
}

/// Boards on which the same runs start list the same runs.
proof fn lemma_runs_before_agree(m1: Map<HexCoord, Piece>, m2: Map<HexCoord, Piece>, p: Player, i: int)
    requires
        forall|c: HexCoord, d: int| run_at(m1, p, c, d) == run_at(m2, p, c, d),
    ensures
        runs_before(m1, p, i) == runs_before(m2, p, i),
    decreases i,
{
    if i > 0 {
        lemma_runs_before_agree(m1, m2, p, i - 1);
        lemma_runs_from_agree(m1, m2, p, coord_at(i - 1), NUM_AXES as int);
    }
}

/// Boards on which the same runs start list the same runs from each point.
proof fn lemma_runs_from_agree(m1: Map<HexCoord, Piece>, m2: Map<HexCoord, Piece>, p: Player, c: HexCoord, d: int)
    requires
        forall|c: HexCoord, d: int| run_at(m1, p, c, d) == run_at(m2, p, c, d),
    ensures
        runs_from(m1, p, c, d) == runs_from(m2, p, c, d),
    decreases d,
{
    if d > 0 {
        lemma_runs_from_agree(m1, m2, p, c, d - 1);
        assert(run_at(m1, p, c, d - 1) == run_at(m2, p, c, d - 1));
    }
}

/// The views of a list of runs.
pub open spec fn runs_view(v: Seq<Vec<HexCoord>>) -> Seq<Seq<HexCoord>> {
    v.map_values(|r: Vec<HexCoord>| r@)
}

/// A run starts on the board and determines its start and its axis.
proof fn lemma_run_seq_injective(m: Map<HexCoord, Piece>, p: Player, c1: HexCoord, d1: int, c2: HexCoord, d2: int)
    requires
        0 <= d1 < NUM_AXES,
        0 <= d2 < NUM_AXES,
        run_at(m, p, c1, d1),
        run_at(m, p, c2, d2),
        run_seq(c1, d1) == run_seq(c2, d2),
    ensures
        c1 == c2,
        d1 == d2,
{
    assert(content_along(m, c1, d1, 1) == Some(Piece::Marker(p)));
    assert(content_along(m, c2, d2, 1) == Some(Piece::Marker(p)));
    assert(run_seq(c1, d1)[0] == along(c1, d1, 0));
    assert(run_seq(c2, d2)[0] == along(c2, d2, 0));
    assert(line_q(c1.q as int, d1, 0) == c1.q as int);
    assert(line_r(c1.r as int, d1, 0) == c1.r as int);
    assert(line_q(c2.q as int, d2, 0) == c2.q as int);
    assert(line_r(c2.r as int, d2, 0) == c2.r as int);
    assert(along(c1, d1, 0) == c1);
    assert(along(c2, d2, 0) == c2);
    assert(c1 == c2);
    assert(run_seq(c1, d1)[1] == along(c1, d1, 1));
    assert(run_seq(c2, d2)[1] == along(c2, d2, 1));
    lemma_along_injective(c1, d1, 1, d2, 1);
}

/// The runs that start at `c` along the first `d` axes are those of
/// `run_at`, each listed once.
proof fn lemma_runs_from(m: Map<HexCoord, Piece>, p: Player, c: HexCoord, d: int)
    requires
        0 <= d <= NUM_AXES,
    ensures
        forall|s: Seq<HexCoord>|
            runs_from(m, p, c, d).contains(s) <==> exists|e: int|
                0 <= e < d && #[trigger] run_at(m, p, c, e) && s == run_seq(c, e),
        runs_from(m, p, c, d).no_duplicates(),
    decreases d,
{
    if d > 0 {
        lemma_runs_from(m, p, c, d - 1);
        let prev = runs_from(m, p, c, d - 1);
        let all = runs_from(m, p, c, d);
        assert forall|s: Seq<HexCoord>|
            all.contains(s) <==> exists|e: int| 0 <= e < d && #[trigger] run_at(m, p, c, e) && s == run_seq(c, e) by {
            if all.contains(s) && !prev.contains(s) {
                assert(all.last() == s);
            }
            if exists|e: int| 0 <= e < d && #[trigger] run_at(m, p, c, e) && s == run_seq(c, e) {
                let e = choose|e: int| 0 <= e < d && #[trigger] run_at(m, p, c, e) && s == run_seq(c, e);
                if e == d - 1 {
                    assert(all.last() == s);
                } else {
                    assert(prev.contains(s));
                    let i = choose|i: int| 0 <= i < prev.len() && prev[i] == s;
                    assert(all[i] == s);
                }
            }
        }
        if run_at(m, p, c, d - 1) {
            assert forall|a: int, b: int| 0 <= a < b < all.len() implies all[a] != all[b] by {
                if b == all.len() - 1 {
                    assert(prev.contains(all[a]));
                    let e = choose|e: int| 0 <= e < d - 1 && #[trigger] run_at(m, p, c, e) && all[a] == run_seq(c, e);
                    if all[a] == all[b] {
                        lemma_run_seq_injective(m, p, c, e, c, d - 1);
                    }
                } else {
                    assert(prev[a] == all[a] && prev[b] == all[b]);
                }
            }
        }
    }
}

/// The runs that start at the first `i` points of the numbering, each listed once.
proof fn lemma_runs_before(m: Map<HexCoord, Piece>, p: Player, i: int)
    requires
        0 <= i <= NUM_CELLS,
    ensures
        forall|s: Seq<HexCoord>|
            runs_before(m, p, i).contains(s) <==> exists|c: HexCoord, d: int|
                0 <= d < NUM_AXES && #[trigger] run_at(m, p, c, d) && s == run_seq(c, d) && in_square(c.q as int, c.r as int)
                    && index_of(c) < i,
        runs_before(m, p, i).no_duplicates(),
    decreases i,
{
    if i > 0 {
        lemma_runs_before(m, p, i - 1);
        let c = coord_at(i - 1);
        lemma_coord_at(i - 1);
        lemma_runs_from(m, p, c, NUM_AXES as int);
        let a = runs_before(m, p, i - 1);
        let b = runs_from(m, p, c, NUM_AXES as int);
        assert forall|x: int, y: int| 0 <= x < a.len() && 0 <= y < b.len() implies a[x] != b[y] by {
            assert(a.contains(a[x]));
            assert(b.contains(b[y]));
            let (c1, d1) = choose|c1: HexCoord, d1: int|
                0 <= d1 < NUM_AXES && #[trigger] run_at(m, p, c1, d1) && a[x] == run_seq(c1, d1) && in_square(c1.q as int, c1.r as int)
                    && index_of(c1) < i - 1;
            let e = choose|e: int| 0 <= e < NUM_AXES && #[trigger] run_at(m, p, c, e) && b[y] == run_seq(c, e);
            if a[x] == b[y] {
                lemma_run_seq_injective(m, p, c1, d1, c, e);
            }
        }
        vstd::seq_lib::lemma_no_dup_in_concat(a, b);
        assert forall|s: Seq<HexCoord>|
            runs_before(m, p, i).contains(s) <==> exists|c2: HexCoord, d: int|
                0 <= d < NUM_AXES && #[trigger] run_at(m, p, c2, d) && s == run_seq(c2, d) && in_square(c2.q as int, c2.r as int)
                    && index_of(c2) < i by {
            let all = runs_before(m, p, i);
            assert(all == a + b);
            if all.contains(s) {
                let k = choose|k: int| 0 <= k < all.len() && all[k] == s;
                if k < a.len() {
                    assert(a.contains(s));
                } else {
                    assert(b[k - a.len()] == s);
                    assert(b.contains(s));
                    let e = choose|e: int| 0 <= e < NUM_AXES && #[trigger] run_at(m, p, c, e) && s == run_seq(c, e);
                    assert(run_at(m, p, c, e) && s == run_seq(c, e) && in_square(c.q as int, c.r as int) && index_of(c) < i);
                }
            }
            if exists|c2: HexCoord, d: int|
                0 <= d < NUM_AXES && #[trigger] run_at(m, p, c2, d) && s == run_seq(c2, d) && in_square(c2.q as int, c2.r as int)
                    && index_of(c2) < i {
                let (c2, d) = choose|c2: HexCoord, d: int|
                    0 <= d < NUM_AXES && #[trigger] run_at(m, p, c2, d) && s == run_seq(c2, d) && in_square(c2.q as int, c2.r as int)
                        && index_of(c2) < i;
                if index_of(c2) < i - 1 {
                    assert(a.contains(s));
                    let k = choose|k: int| 0 <= k < a.len() && a[k] == s;
                    assert(all[k] == s);
                } else {
                    lemma_index_of_injective(c2, c);
                    assert(b.contains(s));
                    let k = choose|k: int| 0 <= k < b.len() && b[k] == s;
                    assert(all[a.len() + k] == s);
                }
            }
        }
    }
}

/// The list of runs holds every run exactly once.
pub proof fn lemma_all_runs(m: Map<HexCoord, Piece>, p: Player)
    ensures
        forall|s: Seq<HexCoord>| board_runs(m, p).contains(s) <==> is_run(m, p, s),
        board_runs(m, p).no_duplicates(),
{
    lemma_runs_before(m, p, NUM_CELLS as int);
    assert forall|s: Seq<HexCoord>| is_run(m, p, s) implies runs_before(m, p, NUM_CELLS as int).contains(s) by {
        let (c, d) = choose|c: HexCoord, d: int| 0 <= d < NUM_AXES && #[trigger] run_at(m, p, c, d) && s == run_seq(c, d);
        assert(content_along(m, c, d, 0) == Some(Piece::Marker(p)));
        lemma_on_board_in_square(c.q as int, c.r as int);
        lemma_index_of(c);
    }
}

/// A point is free exactly when nothing occupies it and it lies on the board.
pub proof fn lemma_free_field(m: Map<HexCoord, Piece>, pos: HexCoord)
    ensures
        (pos.valid() && !m.dom().contains(pos)) <==> (piece_at(m, pos) is None && pos.valid()),
{
}

/// Five markers of `p` in a row along an axis, with no marker of `p` at
/// either end, form a run of `p`: the five points in order.
pub proof fn lemma_five_in_a_row(m: Map<HexCoord, Piece>, p: Player, c: HexCoord, d: int)
    requires
        0 <= d < NUM_AXES,
        forall|i: int| 0 <= i < 5 ==> #[trigger] content_along(m, c, d, i) == Some(Piece::Marker(p)),
        content_along(m, c, d, -1) != Some(Piece::Marker(p)),
        content_along(m, c, d, 5) != Some(Piece::Marker(p)),
    ensures
        is_run(m, p, run_seq(c, d)),
{
    assert(run_at(m, p, c, d));
}

/// Four markers of `p` in a row along an axis, with no marker of `p` at
/// either end, belong to no run of `p` along that axis.
pub proof fn lemma_four_in_a_row(
    m: Map<HexCoord, Piece>,
    p: Player,
    c: HexCoord,
    d: int,
    start: HexCoord,
    i: int,
    j: int,
)
    requires
        0 <= d < NUM_AXES,
        forall|k: int| 0 <= k < 4 ==> #[trigger] content_along(m, c, d, k) == Some(Piece::Marker(p)),
        content_along(m, c, d, -1) != Some(Piece::Marker(p)),
        content_along(m, c, d, 4) != Some(Piece::Marker(p)),
        run_at(m, p, start, d),
        0 <= i < 5,
        0 <= j < 4,
    ensures
        run_seq(start, d)[i] != along(c, d, j),
{
    if run_seq(start, d)[i] == along(c, d, j) {
        assert(content_along(m, start, d, i) == Some(Piece::Marker(p)));
        assert(content_along(m, c, d, j) == Some(Piece::Marker(p)));
        lemma_on_board_in_square(line_q(start.q as int, d, i), line_r(start.r as int, d, i));
        lemma_on_board_in_square(line_q(c.q as int, d, j), line_r(c.r as int, d, j));
        assert(line_q(start.q as int, d, i) == line_q(c.q as int, d, j));
        assert(line_r(start.r as int, d, i) == line_r(c.r as int, d, j));
        let o = j - i;
        if o <= -1 {
            let t = -1 - o;
            assert(content_along(m, start, d, t) == Some(Piece::Marker(p)));
            assert(line_q(start.q as int, d, t) == line_q(c.q as int, d, -1));
            assert(line_r(start.r as int, d, t) == line_r(c.r as int, d, -1));
        } else {
            let t = 4 - o;
            assert(content_along(m, start, d, t) == Some(Piece::Marker(p)));
            assert(line_q(start.q as int, d, t) == line_q(c.q as int, d, 4));
            assert(line_r(start.r as int, d, t) == line_r(c.r as int, d, 4));
        }
    }
}

/// Whether `o` is a marker of `p`.
pub open spec fn is_marker_of(o: Option<Piece>, p: Player) -> bool {
    o == Some(Piece::Marker(p))
}

/// Whether two boards hold the same markers (rings may differ).
pub open spec fn same_markers(m1: Map<HexCoord, Piece>, m2: Map<HexCoord, Piece>) -> bool {
    forall|c: HexCoord, p: Player| #[trigger] is_marker_of(piece_at(m1, c), p) == is_marker_of(piece_at(m2, c), p)
}

/// Whether `p` has at least one run on the board.
pub open spec fn has_runs(m: Map<HexCoord, Piece>, p: Player) -> bool {
    exists|s: Seq<HexCoord>| is_run(m, p, s)
}

/// The board `m` with the points of `cells` cleared.
pub open spec fn without_cells(m: Map<HexCoord, Piece>, cells: Seq<HexCoord>) -> Map<HexCoord, Piece> {
    Map::new(|c: HexCoord| m.dom().contains(c) && !cells.contains(c), |c: HexCoord| m[c])
}

/// The board `m` with a marker of `p` on each point of `cells` that lies on the board.
pub open spec fn with_markers(m: Map<HexCoord, Piece>, cells: Seq<HexCoord>, p: Player) -> Map<HexCoord, Piece> {
    Map::new(
        |c: HexCoord| m.dom().contains(c) || (cells.contains(c) && c.valid()),
        |c: HexCoord| if cells.contains(c) { Piece::Marker(p) } else { m[c] },
    )
}

/// Runs are made of markers alone: boards with the same markers have the same runs.
pub proof fn lemma_runs_ignore_rings(m1: Map<HexCoord, Piece>, m2: Map<HexCoord, Piece>, p: Player)
    requires
        same_markers(m1, m2),
    ensures
        forall|s: Seq<HexCoord>| is_run(m1, p, s) == is_run(m2, p, s),
        has_runs(m1, p) == has_runs(m2, p),
        board_runs(m1, p) == board_runs(m2, p),
{
    assert forall|c: HexCoord, d: int| run_at(m1, p, c, d) == run_at(m2, p, c, d) by {
        assert forall|i: int|
            (content_along(m1, c, d, i) == Some(Piece::Marker(p))) == (content_along(m2, c, d, i) == Some(
                Piece::Marker(p),
            )) by {
            let x = along(c, d, i);
            assert(is_marker_of(piece_at(m1, x), p) == is_marker_of(piece_at(m2, x), p));
        }
    }
    assert forall|s: Seq<HexCoord>| is_run(m1, p, s) == is_run(m2, p, s) by {
        if is_run(m1, p, s) {
            let (c, d) = choose|c: HexCoord, d: int| 0 <= d < NUM_AXES && #[trigger] run_at(m1, p, c, d) && s == run_seq(c, d);
            assert(run_at(m2, p, c, d));
        }
        if is_run(m2, p, s) {
            let (c, d) = choose|c: HexCoord, d: int| 0 <= d < NUM_AXES && #[trigger] run_at(m2, p, c, d) && s == run_seq(c, d);
            assert(run_at(m1, p, c, d));
        }
    }
    lemma_runs_before_agree(m1, m2, p, NUM_CELLS as int);
    if has_runs(m1, p) {
        let s = choose|s: Seq<HexCoord>| is_run(m1, p, s);
        assert(is_run(m2, p, s));
    }
    if has_runs(m2, p) {
        let s = choose|s: Seq<HexCoord>| is_run(m2, p, s);
        assert(is_run(m1, p, s));
    }
}

/// Every point of a run holds a marker of its player.
pub proof fn lemma_run_cells(m: Map<HexCoord, Piece>, p: Player, s: Seq<HexCoord>)
    requires
        is_run(m, p, s),
    ensures
        s.len() == 5,
        forall|i: int| 0 <= i < 5 ==> piece_at(m, #[trigger] s[i]) == Some(Piece::Marker(p)) && s[i].valid(),
{
    let (c, d) = choose|c: HexCoord, d: int| 0 <= d < NUM_AXES && #[trigger] run_at(m, p, c, d) && s == run_seq(c, d);
    assert forall|i: int| 0 <= i < 5 implies piece_at(m, #[trigger] s[i]) == Some(Piece::Marker(p)) && s[i].valid() by {
        assert(content_along(m, c, d, i) == Some(Piece::Marker(p)));
        lemma_on_board_in_square(line_q(c.q as int, d, i), line_r(c.r as int, d, i));
        assert(s[i] == along(c, d, i));
    }
}

/// The sparse mapping from coordinates of the board to pieces.
#[derive(Clone, Debug)]
pub struct Board {
    cells: Vec<Option<Piece>>,
}

impl View for Board {
    type V = Map<HexCoord, Piece>;

    closed spec fn view(&self) -> Map<HexCoord, Piece> {
        Map::new(
            |c: HexCoord| c.valid() && self.cells@[index_of(c)] is Some,
            |c: HexCoord| self.cells@[index_of(c)]->0,
        )
    }
}

impl Board {
    /// The storage holds one entry per point of the enclosing square.
    pub closed spec fn wf(&self) -> bool {
        self.cells@.len() == NUM_CELLS
    }

    /// Every occupied coordinate lies on the board.
    pub proof fn lemma_on_board(&self)
        ensures
            all_on_board(self@),
    {
    }

    /// An empty board.
    pub fn new() -> (b: Board)
        ensures
            b.wf(),
            b@ == Map::<HexCoord, Piece>::empty(),
    {
        let mut cells: Vec<Option<Piece>> = Vec::new();
        let mut i: usize = 0;
        while i < NUM_CELLS
            invariant
                i <= NUM_CELLS,
                cells@.len() == i,
                forall|k: int| 0 <= k < i ==> (#[trigger] cells@[k]) is None,
            decreases NUM_CELLS - i,
        {
            cells.push(None);
            i = i + 1;
        }
        let b = Board { cells };
        proof {
            lemma_valid_indices();
        }
        assert(b@ =~= Map::<HexCoord, Piece>::empty());
        b
    }

    /// The largest squared distance from the centre of a point of the board.
    pub fn get_radius_squared(&self) -> (r: i64)
        ensures
            r == RADIUS_SQUARED,
    {
        RADIUS_SQUARED
    }

    /// The piece at `pos`, if any.
    pub fn occupied(&self, pos: &HexCoord) -> (r: Option<Piece>)
        requires
            self.wf(),
        ensures
            r == piece_at(self@, *pos),
    {
        if pos.is_valid() {
            let i = index_of_coord(pos);
            self.cells[i]
        } else {
            None
        }
    }

    /// Whether `pos` lies on the board and holds nothing.
    pub fn free_board_field(&self, pos: &HexCoord) -> (b: bool)
        requires
            self.wf(),
        ensures
            b == (pos.valid() && !self@.dom().contains(*pos)),
    {
        pos.is_valid() && self.occupied(pos).is_none()
    }

    /// What the point `(q, r)` holds.
    pub fn content_at(&self, q: i64, r: i64) -> (res: Option<Piece>)
        requires
            self.wf(),
            i32::MIN <= q <= i32::MAX,
            i32::MIN <= r <= i32::MAX,
        ensures
            res == content(self@, q as int, r as int),
    {
        if is_on_board(q, r) {
            proof {
                lemma_on_board_in_square(q as int, r as int);
            }
            self.occupied(&HexCoord { q: q as i32, r: r as i32 })
        } else {
            None
        }
    }

    /// Puts `piece` at `pos`, replacing what was there; a coordinate off the
    /// board is left alone, since the board stores nothing there.
    pub fn place_unchecked(&mut self, piece: &Piece, pos: &HexCoord)
        requires
            old(self).wf(),
        ensures
            final(self).wf(),
            final(self)@ == (if pos.valid() {
                old(self)@.insert(*pos, *piece)
            } else {
                old(self)@
            }),
    {
        if pos.is_valid() {
            let i = index_of_coord(pos);
            self.cells.set(i, Some(*piece));
            proof {
                lemma_valid_indices();
            }
            assert(self@ =~= old(self)@.insert(*pos, *piece));
        }
    }

    /// Clears `pos`.
    pub fn remove(&mut self, pos: &HexCoord)
        requires
            old(self).wf(),
        ensures
            final(self).wf(),
            final(self)@ == old(self)@.remove(*pos),
    {
        if pos.is_valid() {
            let i = index_of_coord(pos);
            self.cells.set(i, None);
            proof {
                lemma_valid_indices();
            }
        }
        assert(self@ =~= old(self)@.remove(*pos));
    }

    /// Whether `pos` holds a ring of `player`.
    pub fn player_ring_at(&self, pos: &HexCoord, player: &Player) -> (b: bool)
        requires
            self.wf(),
        ensures
            b == (piece_at(self@, *pos) == Some(Piece::Ring(*player))),
    {
        match self.occupied(pos) {
            Some(Piece::Ring(p)) => p == *player,
            _ => false,
        }
    }

    /// Whether `pos` holds a marker of `player`.
    pub fn player_marker_at(&self, pos: &HexCoord, player: &Player) -> (b: bool)
        requires
            self.wf(),
        ensures
            b == (piece_at(self@, *pos) == Some(Piece::Marker(*player))),
    {
        match self.occupied(pos) {
            Some(Piece::Marker(p)) => p == *player,
            _ => false,
        }
    }

    /// The coordinates that hold `piece`, in the order of the numbering.
    fn coords_holding(&self, piece: Piece) -> (out: Vec<HexCoord>)
        requires
            self.wf(),
        ensures
            forall|c: HexCoord| out@.contains(c) <==> piece_at(self@, c) == Some(piece),
            out@.no_duplicates(),
    {
        proof {
            lemma_valid_indices();
        }
        let mut out: Vec<HexCoord> = Vec::new();
        let mut i: usize = 0;
        while i < NUM_CELLS
            invariant
                self.wf(),
                i <= NUM_CELLS,
                forall|c: HexCoord| c.valid() ==> 0 <= #[trigger] index_of(c) < NUM_CELLS,
                forall|k: int|
                    0 <= k < out@.len() ==> piece_at(self@, #[trigger] out@[k]) == Some(piece)
                        && index_of(out@[k]) < i,
                forall|a: int, b: int|
                    0 <= a < b < out@.len() ==> index_of(#[trigger] out@[a]) < index_of(
                        #[trigger] out@[b],
                    ),
                forall|c: HexCoord|
                    index_of(c) < i && piece_at(self@, c) == Some(piece) ==> #[trigger] out@.contains(c),
            decreases NUM_CELLS - i,
        {
            let c = coord_at_index(i);
            let here = self.occupied(&c);
            let ghost before = out@;
            if here == Some(piece) {
                out.push(c);
                proof {
                    assert(out@[out@.len() - 1] == c);
                }
            }
            proof {
                assert forall|x: HexCoord|
                    index_of(x) < i + 1 && piece_at(self@, x) == Some(piece) implies #[trigger] out@.contains(x) by {
                    if index_of(x) == i {
                        lemma_on_board_in_square(x.q as int, x.r as int);
                        lemma_index_of_injective(x, c);
                        assert(out@[out@.len() - 1] == c);
                    } else {
                        assert(before.contains(x));
                        let k = choose|k: int| 0 <= k < before.len() && before[k] == x;
                        assert(out@[k] == x);
                    }
                }
            }
            i = i + 1;
        }
        proof {
            assert forall|c: HexCoord| piece_at(self@, c) == Some(piece) implies #[trigger] out@.contains(c) by {
                assert(c.valid());
            }
        }
        out
    }

    /// The coordinates that hold a ring of `player`.
    pub fn player_rings(&self, player: Player) -> (out: Vec<HexCoord>)
        requires
            self.wf(),
        ensures
            forall|c: HexCoord| out@.contains(c) <==> piece_at(self@, c) == Some(Piece::Ring(player)),
            out@.no_duplicates(),
    {
        self.coords_holding(Piece::Ring(player))
    }

    /// The coordinates that hold a marker of `player`.
    pub fn player_markers(&self, player: Player) -> (out: Vec<HexCoord>)
        requires
            self.wf(),
        ensures
            forall|c: HexCoord| out@.contains(c) <==> piece_at(self@, c) == Some(Piece::Marker(player)),
            out@.no_duplicates(),
    {
        self.coords_holding(Piece::Marker(player))
    }

    /// Every ring (`rings` true) or every marker (`rings` false) with its owner.
    fn pieces_of_kind(&self, rings: bool) -> (out: Vec<(HexCoord, Player)>)
        requires
            self.wf(),
        ensures
            forall|c: HexCoord, p: Player|
                out@.contains((c, p)) <==> piece_at(self@, c) == Some(
                    if rings {
                        Piece::Ring(p)
                    } else {
                        Piece::Marker(p)
                    },
                ),
            out@.no_duplicates(),
            out@.len() == cells_of_kind(self@, rings).len(),
    {
        proof {
            lemma_valid_indices();
        }
        let mut out: Vec<(HexCoord, Player)> = Vec::new();
        let ghost mut seen: Set<HexCoord> = Set::empty();
        let mut i: usize = 0;
        while i < NUM_CELLS
            invariant
                self.wf(),
                i <= NUM_CELLS,
                forall|c: HexCoord| c.valid() ==> 0 <= #[trigger] index_of(c) < NUM_CELLS,
                forall|k: int|
                    0 <= k < out@.len() ==> piece_at(self@, (#[trigger] out@[k]).0) == Some(
                        if rings {
                            Piece::Ring(out@[k].1)
                        } else {
                            Piece::Marker(out@[k].1)
                        },
                    ) && index_of(out@[k].0) < i,
                forall|a: int, b: int|
                    0 <= a < b < out@.len() ==> index_of((#[trigger] out@[a]).0) < index_of(
                        (#[trigger] out@[b]).0,
                    ),
                forall|c: HexCoord|
                    index_of(c) < i && self@.dom().contains(c) && of_kind(self@[c], rings)
                        ==> #[trigger] out@.contains((c, self@[c].owner())),
                seen.finite(),
                seen.len() == out@.len(),
                forall|c: HexCoord|
                    #[trigger] seen.contains(c) <==> (index_of(c) < i && self@.dom().contains(c)
                        && of_kind(self@[c], rings)),
            decreases NUM_CELLS - i,
        {
            let c = coord_at_index(i);
            let here = self.occupied(&c);
            let ghost before = out@;
            let ghost seen_before = seen;
            let found = match here {
                Some(Piece::Ring(p)) => if rings {
                    Some(p)
                } else {
                    None
                },
                Some(Piece::Marker(p)) => if rings {
                    None
                } else {
                    Some(p)
                },
                None => None,
            };
            if let Some(p) = found {
                out.push((c, p));
                proof {
                    assert(!seen.contains(c));
                    seen = seen.insert(c);
                    assert(out@[out@.len() - 1] == (c, p));
                }
            }
            proof {
                assert forall|x: HexCoord|
                    index_of(x) < i + 1 && self@.dom().contains(x) && of_kind(self@[x], rings)
                        implies #[trigger] out@.contains((x, self@[x].owner())) by {
                    lemma_on_board_in_square(x.q as int, x.r as int);
                    if index_of(x) == i {
                        lemma_index_of_injective(x, c);
                        assert(out@[out@.len() - 1] == (c, self@[c].owner()));
                    } else {
                        assert(before.contains((x, self@[x].owner())));
                        let k = choose|k: int| 0 <= k < before.len() && before[k] == (x, self@[x].owner());
                        assert(out@[k] == (x, self@[x].owner()));
                    }
                }
                assert forall|x: HexCoord|
                    #[trigger] seen.contains(x) <==> (index_of(x) < i + 1 && self@.dom().contains(x)
                        && of_kind(self@[x], rings)) by {
                    if self@.dom().contains(x) {
                        lemma_on_board_in_square(x.q as int, x.r as int);
                        if index_of(x) == i {
                            lemma_index_of_injective(x, c);
                        }
                    }
                }
            }
            i = i + 1;
        }
        proof {
            assert forall|c: HexCoord, p: Player|
                out@.contains((c, p)) <==> piece_at(self@, c) == Some(
                    if rings {
                        Piece::Ring(p)
                    } else {
                        Piece::Marker(p)
                    },
                ) by {
                if out@.contains((c, p)) {
                    let k = choose|k: int| 0 <= k < out@.len() && out@[k] == (c, p);
                    assert(piece_at(self@, out@[k].0) == Some(
                        if rings {
                            Piece::Ring(out@[k].1)
                        } else {
                            Piece::Marker(out@[k].1)
                        },
                    ));
                }
                if piece_at(self@, c) == Some(
                    if rings {
                        Piece::Ring(p)
                    } else {
                        Piece::Marker(p)
                    },
                ) {
                    assert(c.valid());
                    assert(out@.contains((c, self@[c].owner())));
                }
            }
            assert(seen =~= cells_of_kind(self@, rings)) by {
                assert forall|c: HexCoord| self@.dom().contains(c) implies index_of(c) < NUM_CELLS by {
                    assert(c.valid());
                }
            }
        }
        out
    }

    /// Every ring on the board with its owner.
    pub fn rings(&self) -> (out: Vec<(HexCoord, Player)>)
        requires
            self.wf(),
        ensures
            forall|c: HexCoord, p: Player|
                out@.contains((c, p)) <==> piece_at(self@, c) == Some(Piece::Ring(p)),
            out@.no_duplicates(),
            out@.len() == num_rings(self@),
    {
        self.pieces_of_kind(true)
    }

    /// Every marker on the board with its owner.
    pub fn markers(&self) -> (out: Vec<(HexCoord, Player)>)
        requires
            self.wf(),
        ensures
            forall|c: HexCoord, p: Player|
                out@.contains((c, p)) <==> piece_at(self@, c) == Some(Piece::Marker(p)),
            out@.no_duplicates(),
            out@.len() == cells_of_kind(self@, false).len(),
    {
        self.pieces_of_kind(false)
    }

    /// Every coordinate of the board.
    pub fn board_coords(&self) -> (out: Vec<HexCoord>)
        ensures
            forall|c: HexCoord| out@.contains(c) <==> c.valid(),
            out@.no_duplicates(),
    {
        proof {
            lemma_valid_indices();
        }
        let mut out: Vec<HexCoord> = Vec::new();
        let mut i: usize = 0;
        while i < NUM_CELLS
            invariant
                i <= NUM_CELLS,
                forall|c: HexCoord| c.valid() ==> 0 <= #[trigger] index_of(c) < NUM_CELLS,
                forall|k: int| 0 <= k < out@.len() ==> (#[trigger] out@[k]).valid() && index_of(out@[k]) < i,
                forall|a: int, b: int|
                    0 <= a < b < out@.len() ==> index_of(#[trigger] out@[a]) < index_of(
                        #[trigger] out@[b],
                    ),
                forall|c: HexCoord| index_of(c) < i && c.valid() ==> #[trigger] out@.contains(c),
            decreases NUM_CELLS - i,
        {
            let c = coord_at_index(i);
            let ghost before = out@;
            if c.is_valid() {
                out.push(c);
                proof {
                    assert(out@[out@.len() - 1] == c);
                }
            }
            proof {
                assert forall|x: HexCoord| index_of(x) < i + 1 && x.valid() implies #[trigger] out@.contains(x) by {
                    lemma_on_board_in_square(x.q as int, x.r as int);
                    if index_of(x) == i {
                        lemma_index_of_injective(x, c);
                        assert(out@[out@.len() - 1] == c);
                    } else {
                        assert(before.contains(x));
                        let k = choose|k: int| 0 <= k < before.len() && before[k] == x;
                        assert(out@[k] == x);
                    }
                }
            }
            i = i + 1;
        }
        out
    }

    /// The landing points of a ring at `from` sliding in direction `d`, nearest first.
    #[verifier::rlimit(40)]
    fn targets_in_direction(&self, from: &HexCoord, d: usize) -> (out: Vec<HexCoord>)
        requires
            self.wf(),
            d < NUM_DIRECTIONS,
        ensures
            forall|x: HexCoord|
                out@.contains(x) <==> exists|k: int|
                    #[trigger] lands(self@, *from, d as int, k) && x == along(*from, d as int, k),
            out@.no_duplicates(),
    {
        let ghost m = self@;
        let ghost dd = d as int;
        let mut out: Vec<HexCoord> = Vec::new();
        let mut q: i64 = from.q as i64;
        let mut r: i64 = from.r as i64;
        let mut j: i64 = 0;
        // 0: no marker passed yet; 1: on a block of markers; 2: past the block
        let mut passed: u8 = 0;
        loop
            invariant
                self.wf(),
                m == self@,
                dd == d,
                d < NUM_DIRECTIONS,
                0 <= j <= 11,
                q == line_q(from.q as int, dd, j as int),
                r == line_r(from.r as int, dd, j as int),
                out@ == targets_upto(m, *from, dd, j as int),
                clear_path(m, *from, dd, j + 1),
                j >= 1 ==> along_on_board(*from, dd, 1),
                passed <= 2,
                passed == 0 ==> forall|i: int| 1 <= i <= j ==> !holds_marker(#[trigger] content_along(m, *from, dd, i)),
                passed == 1 ==> j >= 1 && holds_marker(content_along(m, *from, dd, j as int)),
                passed == 2 ==> j >= 1 && content_along(m, *from, dd, j as int) is None && exists|i: int|
                    1 <= i < j && holds_marker(#[trigger] content_along(m, *from, dd, i)),
            ensures
                out@ == targets_upto(m, *from, dd, j as int),
                forall|k: int| k > j ==> !#[trigger] lands(m, *from, dd, k),
            decreases 11 - j,
        {
            let (nq, nr) = step(q, r, d);
            if !is_on_board(nq, nr) {
                proof {
                    assert forall|k: int| k > j implies !#[trigger] lands(m, *from, dd, k) by {
                        if k > j + 1 && lands(m, *from, dd, k) {
                            assert(along_on_board(*from, dd, j + 1));
                        }
                    }
                }
                break;
            }
            proof {
                lemma_on_board_in_square(nq as int, nr as int);
            }
            let here = self.content_at(nq, nr);
            let ghost nj = j + 1;
            match here {
                None => {
                    proof {
                        lemma_on_board_in_square(nq as int, nr as int);
                    }
                    out.push(HexCoord { q: nq as i32, r: nr as i32 });
                    if passed == 1 {
                        passed = 2;
                    }
                    proof {
                        assert(lands(m, *from, dd, nj));
                    }
                },
                Some(Piece::Ring(_)) => {
                    proof {
                        assert forall|k: int| k > j implies !#[trigger] lands(m, *from, dd, k) by {
                            if k > j + 1 && lands(m, *from, dd, k) {
                                assert(along_on_board(*from, dd, j + 1));
                                assert(holds_ring(content_along(m, *from, dd, j + 1)));
                            }
                        }
                    }
                    break;
                },
                Some(Piece::Marker(_)) => {
                    if passed == 2 {
                        proof {
                            let i = choose|i: int| 1 <= i < j && holds_marker(#[trigger] content_along(m, *from, dd, i));
                            assert forall|k: int| k > j implies !#[trigger] lands(m, *from, dd, k) by {
                                if k > j + 1 && lands(m, *from, dd, k) {
                                    assert(holds_marker(content_along(m, *from, dd, j as int)));
                                }
                            }
                        }
                        break;
                    }
                    passed = 1;
                },
            }
            proof {
                assert(along_on_board(*from, dd, nj) && !holds_ring(content_along(m, *from, dd, nj)));
                assert forall|jj: int| 1 <= jj < nj + 1 implies #[trigger] along_on_board(*from, dd, jj)
                    && !holds_ring(content_along(m, *from, dd, jj)) by {
                    if jj < nj {
                        assert(along_on_board(*from, dd, jj));
                    }
                }
                if j >= 1 {
                    lemma_line_length(*from, dd, nj);
                }
                assert forall|i: int, jj: int, l: int|
                    #![trigger content_along(m, *from, dd, i), content_along(m, *from, dd, jj), content_along(m, *from, dd, l)]
                    1 <= i < jj < l < nj + 1 && holds_marker(content_along(m, *from, dd, i)) && holds_marker(
                        content_along(m, *from, dd, l),
                    ) implies holds_marker(content_along(m, *from, dd, jj)) by {
                    if l == nj {
                        if jj < j {
                            assert(holds_marker(content_along(m, *from, dd, j as int)));
                        }
                    }
                }
            }
            j = j + 1;
            q = nq;
            r = nr;
        }
        proof {
            lemma_targets_upto(m, *from, dd, j as int);
        }
        out
    }

    /// Every point to which a ring at `from` can slide.
    pub fn ring_targets(&self, from: &HexCoord) -> (out: Vec<HexCoord>)
        requires
            self.wf(),
        ensures
            forall|t: HexCoord| out@.contains(t) <==> is_ring_target(self@, *from, t),
            out@.no_duplicates(),
    {
        let ghost m = self@;
        let mut out: Vec<HexCoord> = Vec::new();
        let mut d: usize = 0;
        while d < NUM_DIRECTIONS
            invariant
                self.wf(),
                m == self@,
                d <= NUM_DIRECTIONS,
                out@.no_duplicates(),
                forall|x: HexCoord|
                    out@.contains(x) <==> exists|e: int, k: int|
                        0 <= e < d && #[trigger] lands(m, *from, e, k) && x == along(*from, e, k),
            decreases NUM_DIRECTIONS - d,
        {
            let mut more = self.targets_in_direction(from, d);
            let ghost a = out@;
            let ghost b = more@;
            proof {
                assert forall|i: int, jj: int| 0 <= i < a.len() && 0 <= jj < b.len() implies a[i] != b[jj] by {
                    assert(a.contains(a[i]));
                    assert(b.contains(b[jj]));
                    let (e, k) = choose|e: int, k: int|
                        0 <= e < d && #[trigger] lands(m, *from, e, k) && a[i] == along(*from, e, k);
                    let k2 = choose|k2: int| #[trigger] lands(m, *from, d as int, k2) && b[jj] == along(*from, d as int, k2);
                    if a[i] == b[jj] {
                        lemma_along_injective(*from, e, k, d as int, k2);
                    }
                }
                vstd::seq_lib::lemma_no_dup_in_concat(a, b);
            }
            out.append(&mut more);
            proof {
                assert(out@ == a + b);
                assert forall|x: HexCoord|
                    out@.contains(x) <==> exists|e: int, k: int|
                        0 <= e < d + 1 && #[trigger] lands(m, *from, e, k) && x == along(*from, e, k) by {
                    if out@.contains(x) {
                        let i = choose|i: int| 0 <= i < out@.len() && out@[i] == x;
                        if i < a.len() {
                            assert(a.contains(x));
                        } else {
                            assert(b[i - a.len()] == x);
                            assert(b.contains(x));
                        }
                    }
                    if exists|e: int, k: int| 0 <= e < d + 1 && #[trigger] lands(m, *from, e, k) && x == along(*from, e, k) {
                        let (e, k) = choose|e: int, k: int|
                            0 <= e < d + 1 && #[trigger] lands(m, *from, e, k) && x == along(*from, e, k);
                        if e < d {
                            assert(a.contains(x));
                            let i = choose|i: int| 0 <= i < a.len() && a[i] == x;
                            assert(out@[i] == x);
                        } else {
                            assert(b.contains(x));
                            let i = choose|i: int| 0 <= i < b.len() && b[i] == x;
                            assert(out@[a.len() + i] == x);
                        }
                    }
                }
            }
            d = d + 1;
        }
        out
    }

    /// Hands every marker strictly between `from` and `to` on a line of the
    /// grid to the other player; returns the points whose marker changed.
    pub fn flip_between(&mut self, from: &HexCoord, to: &HexCoord) -> (out: Vec<HexCoord>)
        requires
            old(self).wf(),
        ensures
            final(self).wf(),
            final(self)@ == flipped(old(self)@, *from, *to),
            forall|c: HexCoord|
                out@.contains(c) <==> between(*from, *to, c) && holds_marker(piece_at(old(self)@, c)),
            out@.no_duplicates(),
    {
        proof {
            lemma_valid_indices();
        }
        let ghost before = self.cells@;
        let mut out: Vec<HexCoord> = Vec::new();
        let mut i: usize = 0;
        while i < NUM_CELLS
            invariant
                self.wf(),
                before.len() == NUM_CELLS,
                i <= NUM_CELLS,
                forall|c: HexCoord| c.valid() ==> 0 <= #[trigger] index_of(c) < NUM_CELLS && coord_at(index_of(c)) == c,
                forall|k: int|
                    0 <= k < NUM_CELLS ==> #[trigger] self.cells@[k] == if k < i && coord_at(k).valid() && between(
                        *from,
                        *to,
                        coord_at(k),
                    ) && holds_marker(before[k]) {
                        Some(flip_piece(*from, *to, coord_at(k), before[k]->0))
                    } else {
                        before[k]
                    },
                forall|k: int|
                    0 <= k < out@.len() ==> (#[trigger] out@[k]).valid() && index_of(out@[k]) < i
                        && between(*from, *to, out@[k]) && holds_marker(before[index_of(out@[k])]),
                forall|a: int, b: int|
                    0 <= a < b < out@.len() ==> index_of(#[trigger] out@[a]) < index_of(
                        #[trigger] out@[b],
                    ),
                forall|c: HexCoord|
                    c.valid() && index_of(c) < i && between(*from, *to, c) && holds_marker(before[index_of(c)])
                        ==> #[trigger] out@.contains(c),
            decreases NUM_CELLS - i,
        {
            let c = coord_at_index(i);
            let ghost prev = out@;
            if c.is_valid() && lies_between(from, to, &c) {
                if let Some(Piece::Marker(p)) = self.cells[i] {
                    self.cells.set(i, Some(Piece::Marker(p.other())));
                    out.push(c);
                    proof {
                        assert(out@[out@.len() - 1] == c);
                    }
                }
            }
            proof {
                assert forall|x: HexCoord|
                    x.valid() && index_of(x) < i + 1 && between(*from, *to, x) && holds_marker(before[index_of(x)])
                        implies #[trigger] out@.contains(x) by {
                    lemma_on_board_in_square(x.q as int, x.r as int);
                    if index_of(x) == i {
                        lemma_index_of_injective(x, c);
                        assert(out@[out@.len() - 1] == c);
                    } else {
                        assert(prev.contains(x));
                        let k = choose|k: int| 0 <= k < prev.len() && prev[k] == x;
                        assert(out@[k] == x);
                    }
                }
            }
            i = i + 1;
        }
        proof {
            assert(self@ =~= flipped(old(self)@, *from, *to));
            assert forall|c: HexCoord|
                out@.contains(c) <==> between(*from, *to, c) && holds_marker(piece_at(old(self)@, c)) by {
                if out@.contains(c) {
                    let k = choose|k: int| 0 <= k < out@.len() && out@[k] == c;
                    assert(out@[k].valid());
                }
                if between(*from, *to, c) && holds_marker(piece_at(old(self)@, c)) {
                    assert(c.valid());
                    assert(out@.contains(c));
                }
            }
        }
        out
    }

    /// Tests whether a maximal line of exactly five markers of `p` starts at
    /// `c` and runs along axis `d`.
    fn run_starts_at(&self, c: &HexCoord, d: usize, p: Player) -> (b: bool)
        requires
            self.wf(),
            d < NUM_AXES,
            in_square(c.q as int, c.r as int),
        ensures
            b == run_at(self@, p, *c, d as int),
    {
        let ghost m = self@;
        let (bq, br) = step(c.q as i64, c.r as i64, d + 3);
        if self.content_at(bq, br) == Some(Piece::Marker(p)) {
            return false;
        }
        let mut q: i64 = c.q as i64;
        let mut r: i64 = c.r as i64;
        let mut i: i64 = 0;
        while i < 5
            invariant
                self.wf(),
                m == self@,
                d < NUM_AXES,
                in_square(c.q as int, c.r as int),
                0 <= i <= 5,
                q == line_q(c.q as int, d as int, i as int),
                r == line_r(c.r as int, d as int, i as int),
                content_along(m, *c, d as int, -1) != Some(Piece::Marker(p)),
                forall|k: int| 0 <= k < i ==> #[trigger] content_along(m, *c, d as int, k) == Some(Piece::Marker(p)),
            decreases 5 - i,
        {
            if self.content_at(q, r) != Some(Piece::Marker(p)) {
                proof {
                    assert(content_along(m, *c, d as int, i as int) != Some(Piece::Marker(p)));
                }
                return false;
            }
            let (nq, nr) = step(q, r, d);
            q = nq;
            r = nr;
            i = i + 1;
        }
        self.content_at(q, r) != Some(Piece::Marker(p))
    }

    /// The five points of the line that starts at `c` and runs along axis `d`.
    fn run_points(c: &HexCoord, d: usize) -> (out: Vec<HexCoord>)
        requires
            d < NUM_AXES,
            in_square(c.q as int, c.r as int),
        ensures
            out@ == run_seq(*c, d as int),
    {
        let mut out: Vec<HexCoord> = Vec::new();
        let mut q: i64 = c.q as i64;
        let mut r: i64 = c.r as i64;
        let mut i: i64 = 0;
        while i < 5
            invariant
                d < NUM_AXES,
                in_square(c.q as int, c.r as int),
                0 <= i <= 5,
                q == line_q(c.q as int, d as int, i as int),
                r == line_r(c.r as int, d as int, i as int),
                out@.len() == i,
                forall|k: int| 0 <= k < i ==> #[trigger] out@[k] == along(*c, d as int, k),
            decreases 5 - i,
        {
            out.push(HexCoord { q: q as i32, r: r as i32 });
            let (nq, nr) = step(q, r, d);
            q = nq;
            r = nr;
            i = i + 1;
        }
        assert(out@ =~= run_seq(*c, d as int));
        out
    }

    /// Every run of `player`: each maximal line of exactly five of their
    /// markers along an axis, as its five points in order, listed once.
    pub fn runs(&self, player: &Player) -> (out: Vec<Vec<HexCoord>>)
        requires
            self.wf(),
        ensures
            runs_view(out@) == board_runs(self@, *player),
            forall|s: Seq<HexCoord>| runs_view(out@).contains(s) <==> is_run(self@, *player, s),
            runs_view(out@).no_duplicates(),
    {
        let ghost m = self@;
        let p = *player;
        let mut out: Vec<Vec<HexCoord>> = Vec::new();
        let mut i: usize = 0;
        while i < NUM_CELLS
            invariant
                self.wf(),
                m == self@,
                p == *player,
                i <= NUM_CELLS,
                runs_view(out@) == runs_before(m, p, i as int),
            decreases NUM_CELLS - i,
        {
            let c = coord_at_index(i);
            let mut d: usize = 0;
            while d < NUM_AXES
                invariant
                    self.wf(),
                    m == self@,
                    i < NUM_CELLS,
                    c == coord_at(i as int),
                    in_square(c.q as int, c.r as int),
                    d <= NUM_AXES,
                    runs_view(out@) == runs_before(m, p, i as int) + runs_from(m, p, c, d as int),
                decreases NUM_AXES - d,
            {
                if self.run_starts_at(&c, d, p) {
                    let v = Board::run_points(&c, d);
                    let ghost prev = runs_view(out@);
                    out.push(v);
                    proof {
                        assert(runs_view(out@) =~= prev.push(run_seq(c, d as int)));
                        assert(runs_from(m, p, c, d + 1) == runs_from(m, p, c, d as int).push(run_seq(c, d as int)));
                        assert(runs_before(m, p, i as int) + runs_from(m, p, c, d + 1) =~= prev.push(run_seq(c, d as int)));
                    }
                }
                d = d + 1;
            }
            proof {
                assert(runs_before(m, p, i + 1) == runs_before(m, p, i as int) + runs_from(m, p, coord_at(i as int), NUM_AXES as int));
            }
            i = i + 1;
        }
        proof {
            lemma_all_runs(m, p);
        }
        out
    }

    /// Every point of the board that holds nothing.
    pub fn free_fields(&self) -> (out: Vec<HexCoord>)
        requires
            self.wf(),
        ensures
            forall|c: HexCoord| out@.contains(c) <==> c.valid() && !self@.dom().contains(c),
            out@.no_duplicates(),
    {
        proof {
            lemma_valid_indices();
        }
        let mut out: Vec<HexCoord> = Vec::new();
        let mut i: usize = 0;
        while i < NUM_CELLS
            invariant
                self.wf(),
                i <= NUM_CELLS,
                forall|c: HexCoord| c.valid() ==> 0 <= #[trigger] index_of(c) < NUM_CELLS,
                forall|k: int|
                    0 <= k < out@.len() ==> (#[trigger] out@[k]).valid() && !self@.dom().contains(out@[k])
                        && index_of(out@[k]) < i,
                forall|a: int, b: int|
                    0 <= a < b < out@.len() ==> index_of(#[trigger] out@[a]) < index_of(
                        #[trigger] out@[b],
                    ),
                forall|c: HexCoord|
                    index_of(c) < i && c.valid() && !self@.dom().contains(c) ==> #[trigger] out@.contains(c),
            decreases NUM_CELLS - i,
        {
            let c = coord_at_index(i);
            let ghost before = out@;
            if self.free_board_field(&c) {
                out.push(c);
                proof {
                    assert(out@[out@.len() - 1] == c);
                }
            }
            proof {
                assert forall|x: HexCoord|
                    index_of(x) < i + 1 && x.valid() && !self@.dom().contains(x) implies #[trigger] out@.contains(x) by {
                    lemma_on_board_in_square(x.q as int, x.r as int);
                    if index_of(x) == i {
                        lemma_index_of_injective(x, c);
                        assert(out@[out@.len() - 1] == c);
                    } else {
                        assert(before.contains(x));
                        let k = choose|k: int| 0 <= k < before.len() && before[k] == x;
                        assert(out@[k] == x);
                    }
                }
            }
            i = i + 1;
        }
        proof {
            assert forall|c: HexCoord| out@.contains(c) implies c.valid() && !self@.dom().contains(c) by {
                let k = choose|k: int| 0 <= k < out@.len() && out@[k] == c;
                assert(out@[k].valid());
            }
        }
        out
    }
}

} // verus!
