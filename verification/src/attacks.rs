//! Which squares a piece attacks.

use vstd::prelude::*;

use crate::bits;
use crate::bits::{count, on, one_if, row_count};
use crate::types::{Color, PieceType, file, on_board, rank};

verus! {

/// The distance between two numbers.
pub open spec fn gap(a: int, b: int) -> int {
    if a < b {
        b - a
    } else {
        a - b
    }
}

/// A knight on `s` attacks `t`.
pub open spec fn knight_hits(s: int, t: int) -> bool {
    ||| gap(file(s), file(t)) == 1 && gap(rank(s), rank(t)) == 2
    ||| gap(file(s), file(t)) == 2 && gap(rank(s), rank(t)) == 1
}

/// A king on `s` attacks `t`.
pub open spec fn king_hits(s: int, t: int) -> bool {
    s != t && gap(file(s), file(t)) <= 1 && gap(rank(s), rank(t)) <= 1
}

/// A pawn of color `c` on `s` attacks `t`.
pub open spec fn pawn_hits(c: Color, s: int, t: int) -> bool {
    gap(file(s), file(t)) == 1 && rank(t) == rank(s) + c.forward()
}

/// Two different squares on one file or one rank.
pub open spec fn straight(s: int, t: int) -> bool {
    s != t && (file(s) == file(t) || rank(s) == rank(t))
}

/// Two different squares on one diagonal.
pub open spec fn diagonal(s: int, t: int) -> bool {
    s != t && gap(file(s), file(t)) == gap(rank(s), rank(t))
}

/// `b` lies strictly between `a` and `c`.
pub open spec fn inside(a: int, b: int, c: int) -> bool {
    a < b < c || c < b < a
}

/// `u` lies on the straight or diagonal segment from `s` to `t`, strictly
/// between its ends.
pub open spec fn between(s: int, u: int, t: int) -> bool {
    ||| file(s) == file(t) && file(u) == file(s) && inside(rank(s), rank(u), rank(t))
    ||| rank(s) == rank(t) && rank(u) == rank(s) && inside(file(s), file(u), file(t))
    ||| file(t) - file(s) == rank(t) - rank(s) && file(u) - file(s) == rank(u) - rank(s) && inside(
        file(s),
        file(u),
        file(t),
    )
    ||| file(t) - file(s) == rank(s) - rank(t) && file(u) - file(s) == rank(s) - rank(u) && inside(
        file(s),
        file(u),
        file(t),
    )
}

/// Nothing of `occ` stands between `s` and `t`.
pub open spec fn clear(occ: u64, s: int, t: int) -> bool {
    forall|u: int| 0 <= u < 64 && #[trigger] between(s, u, t) ==> !on(occ, u)
}

/// A rook on `s` attacks `t` on a board whose occupied squares are `occ`.
pub open spec fn rook_hits(occ: u64, s: int, t: int) -> bool {
    straight(s, t) && clear(occ, s, t)
}

/// A bishop on `s` attacks `t` on a board whose occupied squares are `occ`.
pub open spec fn bishop_hits(occ: u64, s: int, t: int) -> bool {
    diagonal(s, t) && clear(occ, s, t)
}

/// A piece other than a pawn, of kind `pt`, on `s` attacks `t`.
pub open spec fn piece_hits(pt: PieceType, occ: u64, s: int, t: int) -> bool {
    match pt {
        PieceType::Pawn => false,
        PieceType::Knight => knight_hits(s, t),
        PieceType::Bishop => bishop_hits(occ, s, t),
        PieceType::Rook => rook_hits(occ, s, t),
        PieceType::Queen => rook_hits(occ, s, t) || bishop_hits(occ, s, t),
        PieceType::King => king_hits(s, t),
    }
}

/// Attacking is mutual: whoever sees is seen.
pub proof fn lemma_hits_symmetric(pt: PieceType, occ: u64, s: int, t: int)
    ensures
        piece_hits(pt, occ, s, t) == piece_hits(pt, occ, t, s),
{
    assert forall|u: int| #[trigger] between(s, u, t) == between(t, u, s) by {}
    assert(clear(occ, s, t) == clear(occ, t, s)) by {
        if clear(occ, s, t) {
            assert forall|u: int| 0 <= u < 64 && #[trigger] between(t, u, s) implies !on(occ, u) by {
                assert(between(s, u, t));
            }
        }
        if clear(occ, t, s) {
            assert forall|u: int| 0 <= u < 64 && #[trigger] between(s, u, t) implies !on(occ, u) by {
                assert(between(t, u, s));
            }
        }
    }
}

/// A pawn attacks backwards what a pawn of the other color attacks forwards.
pub proof fn lemma_pawn_symmetric(c: Color, s: int, t: int)
    ensures
        pawn_hits(c, s, t) == pawn_hits(c.other(), t, s),
{
}

// ---------------------------------------------------------------------------
// Steppers.
// ---------------------------------------------------------------------------

const NOT_A: u64 = 0xFEFE_FEFE_FEFE_FEFE;

const NOT_AB: u64 = 0xFCFC_FCFC_FCFC_FCFC;

const NOT_H: u64 = 0x7F7F_7F7F_7F7F_7F7F;

const NOT_GH: u64 = 0x3F3F_3F3F_3F3F_3F3F;

/// The squares that a knight on `s` attacks.
pub fn knight_attacks(s: usize) -> (r: u64)
    requires
        s < 64,
    ensures
        forall|t: int| 0 <= t < 64 ==> #[trigger] on(r, t) == knight_hits(s as int, t),
{
    let b: u64 = 1u64 << (s as u64);
    let h1: u64 = ((b >> 1u64) & NOT_H) | ((b << 1u64) & NOT_A);
    let h2: u64 = ((b >> 2u64) & NOT_GH) | ((b << 2u64) & NOT_AB);
    let r: u64 = (h1 << 16u64) | (h1 >> 16u64) | (h2 << 8u64) | (h2 >> 8u64);
    proof {
        let a = s as u64;
        assert forall|t: int| 0 <= t < 64 implies #[trigger] on(r, t) == knight_hits(
            s as int,
            t,
        ) by {
            let u = t as u64;
            assert(((r >> u) & 1 == 1) <==> (((a % 8 + 1 == u % 8 || u % 8 + 1 == a % 8) && (a / 8
                + 2 == u / 8 || u / 8 + 2 == a / 8)) || ((a % 8 + 2 == u % 8 || u % 8 + 2 == a % 8)
                && (a / 8 + 1 == u / 8 || u / 8 + 1 == a / 8)))) by (bit_vector)
                requires
                    a < 64,
                    u < 64,
                    b == 1u64 << a,
                    h1 == ((b >> 1u64) & 0x7F7F_7F7F_7F7F_7F7Fu64) | ((b << 1u64)
                        & 0xFEFE_FEFE_FEFE_FEFEu64),
                    h2 == ((b >> 2u64) & 0x3F3F_3F3F_3F3F_3F3Fu64) | ((b << 2u64)
                        & 0xFCFC_FCFC_FCFC_FCFCu64),
                    r == (h1 << 16u64) | (h1 >> 16u64) | (h2 << 8u64) | (h2 >> 8u64),
            ;
        }
    }
    r
}

/// The squares that a king on `s` attacks.
pub fn king_attacks(s: usize) -> (r: u64)
    requires
        s < 64,
    ensures
        forall|t: int| 0 <= t < 64 ==> #[trigger] on(r, t) == king_hits(s as int, t),
{
    let b: u64 = 1u64 << (s as u64);
    let side: u64 = ((b >> 1u64) & NOT_H) | ((b << 1u64) & NOT_A);
    let row: u64 = side | b;
    let r: u64 = side | (row << 8u64) | (row >> 8u64);
    proof {
        let a = s as u64;
        assert forall|t: int| 0 <= t < 64 implies #[trigger] on(r, t) == king_hits(
            s as int,
            t,
        ) by {
            let u = t as u64;
            assert(((r >> u) & 1 == 1) <==> (a != u && (a % 8 == u % 8 || a % 8 + 1 == u % 8 || u
                % 8 + 1 == a % 8) && (a / 8 == u / 8 || a / 8 + 1 == u / 8 || u / 8 + 1 == a / 8)))
                by (bit_vector)
                requires
                    a < 64,
                    u < 64,
                    b == 1u64 << a,
                    side == ((b >> 1u64) & 0x7F7F_7F7F_7F7F_7F7Fu64) | ((b << 1u64)
                        & 0xFEFE_FEFE_FEFE_FEFEu64),
                    row == side | b,
                    r == side | (row << 8u64) | (row >> 8u64),
            ;
        }
    }
    r
}

/// The squares that a pawn of color `c` on `s` attacks.
pub fn pawn_attacks(c: Color, s: usize) -> (r: u64)
    requires
        s < 64,
    ensures
        forall|t: int| 0 <= t < 64 ==> #[trigger] on(r, t) == pawn_hits(c, s as int, t),
{
    let b: u64 = 1u64 << (s as u64);
    let side: u64 = ((b >> 1u64) & NOT_H) | ((b << 1u64) & NOT_A);
    let r: u64 = match c {
        Color::White => side << 8u64,
        Color::Black => side >> 8u64,
    };
    proof {
        let a = s as u64;
        assert forall|t: int| 0 <= t < 64 implies #[trigger] on(r, t) == pawn_hits(
            c,
            s as int,
            t,
        ) by {
            let u = t as u64;
            assert((((side << 8u64) >> u) & 1 == 1) <==> ((a % 8 + 1 == u % 8 || u % 8 + 1 == a % 8)
                && a / 8 + 1 == u / 8)) by (bit_vector)
                requires
                    a < 64,
                    u < 64,
                    b == 1u64 << a,
                    side == ((b >> 1u64) & 0x7F7F_7F7F_7F7F_7F7Fu64) | ((b << 1u64)
                        & 0xFEFE_FEFE_FEFE_FEFEu64),
            ;
            assert((((side >> 8u64) >> u) & 1 == 1) <==> ((a % 8 + 1 == u % 8 || u % 8 + 1 == a % 8)
                && u / 8 + 1 == a / 8)) by (bit_vector)
                requires
                    a < 64,
                    u < 64,
                    b == 1u64 << a,
                    side == ((b >> 1u64) & 0x7F7F_7F7F_7F7F_7F7Fu64) | ((b << 1u64)
                        & 0xFEFE_FEFE_FEFE_FEFEu64),
            ;
        }
    }
    r
}

// ---------------------------------------------------------------------------
// Sliders.
// ---------------------------------------------------------------------------

/// `k` steps of size `d`, where `d` is `-1`, `0` or `1`.
spec fn times(d: int, k: int) -> int {
    if d == 1 {
        k
    } else if d == -1 {
        -k
    } else {
        0
    }
}

/// `t` is `k` steps away from `s` in the direction `(df, dr)`.
spec fn steps(s: int, df: int, dr: int, k: int, t: int) -> bool {
    file(t) == file(s) + times(df, k) && rank(t) == rank(s) + times(dr, k)
}

/// `t` lies in the direction `(df, dr)` from `s`.
spec fn ahead(s: int, df: int, dr: int, t: int) -> bool {
    exists|k: int| 1 <= k <= 7 && #[trigger] steps(s, df, dr, k, t)
}

/// The squares in one direction up to and including the first occupied one.
#[verifier::rlimit(30)]
fn slide(occ: u64, s: usize, df: i8, dr: i8) -> (r: u64)
    requires
        s < 64,
        -1 <= df <= 1,
        -1 <= dr <= 1,
        df != 0 || dr != 0,
    ensures
        forall|t: int|
            0 <= t < 64 ==> #[trigger] on(r, t) == (ahead(s as int, df as int, dr as int, t)
                && clear(occ, s as int, t)),
{
    let mut r: u64 = 0;
    let mut f: i8 = (s % 8) as i8 + df;
    let mut k: i8 = (s / 8) as i8 + dr;
    let ghost mut n: int = 1;
    let ghost a = s as int;
    let ghost x = df as int;
    let ghost y = dr as int;
    proof {
        bits::lemma_empty();
    }
    loop
        invariant_except_break
            1 <= n <= 8,
            a == s,
            s < 64,
            x == df,
            y == dr,
            -1 <= x <= 1,
            -1 <= y <= 1,
            x != 0 || y != 0,
            f == file(a) + times(x, n),
            k == rank(a) + times(y, n),
            -1 <= f <= 8,
            -1 <= k <= 8,
            forall|t: int| 0 <= t < 64 ==> (#[trigger] on(r, t) <==> exists|j: int| 1 <= j < n
                && #[trigger] steps(a, x, y, j, t)),
            forall|j: int, t: int| 1 <= j < n && 0 <= t < 64 && #[trigger] steps(a, x, y, j, t) ==> !on(occ, t),
        ensures
            forall|t: int|
                0 <= t < 64 ==> #[trigger] on(r, t) == (ahead(a, x, y, t) && clear(occ, a, t)),
        decreases 9 - n,
    {
        if !(0 <= f && f < 8 && 0 <= k && k < 8) {
            proof {
                assert forall|q: int| 0 <= q < 64 implies #[trigger] on(r, q) == (ahead(a, x, y, q)
                    && clear(occ, a, q)) by {
                    lemma_ray_open(occ, r, a, x, y, n, q);
                }
            }
            break;
        }
        let t: usize = 8 * (k as usize) + (f as usize);
        let b: u64 = bits::one(t);
        let ghost before = r;
        r = r | b;
        proof {
            bits::lemma_ops(before, b);
            assert(steps(a, x, y, n, t as int));
            assert forall|q: int| 0 <= q < 64 implies (#[trigger] on(r, q) <==> exists|j: int| 1
                <= j < n + 1 && #[trigger] steps(a, x, y, j, q)) by {
                if on(r, q) {
                    if on(before, q) {
                        let j = choose|j: int| 1 <= j < n && #[trigger] steps(a, x, y, j, q);
                        assert(steps(a, x, y, j, q));
                    }
                }
                if exists|j: int| 1 <= j < n + 1 && #[trigger] steps(a, x, y, j, q) {
                    let j = choose|j: int| 1 <= j < n + 1 && #[trigger] steps(a, x, y, j, q);
                    if j == n {
                        assert(q == t);
                    }
                }
            }
        }
        if bits::test(occ, t) {
            proof {
                assert forall|q: int| 0 <= q < 64 implies #[trigger] on(r, q) == (ahead(a, x, y, q)
                    && clear(occ, a, q)) by {
                    lemma_ray_blocked(occ, r, a, x, y, n, t as int, q);
                }
            }
            break;
        }
        proof {
            n = n + 1;
        }
        f = f + df;
        k = k + dr;
    }
    r
}

/// Walking a ray that ends at an occupied square finds exactly the seen squares.
proof fn lemma_ray_blocked(occ: u64, r: u64, s: int, df: int, dr: int, n: int, stop: int, q: int)
    requires
        0 <= s < 64,
        0 <= stop < 64,
        0 <= q < 64,
        -1 <= df <= 1,
        -1 <= dr <= 1,
        df != 0 || dr != 0,
        1 <= n <= 8,
        steps(s, df, dr, n, stop),
        on(occ, stop),
        on(r, q) <==> exists|j: int| 1 <= j < n + 1 && #[trigger] steps(s, df, dr, j, q),
        forall|j: int, t: int| 1 <= j < n && 0 <= t < 64 && #[trigger] steps(s, df, dr, j, t) ==> !on(occ, t),
    ensures
        on(r, q) == (ahead(s, df, dr, q) && clear(occ, s, q)),
{
    if on(r, q) {
        let j = choose|j: int| 1 <= j < n + 1 && #[trigger] steps(s, df, dr, j, q);
        assert(j <= 7);
        assert(ahead(s, df, dr, q));
        assert forall|u: int| 0 <= u < 64 && #[trigger] between(s, u, q) implies !on(occ, u) by {
            lemma_between_steps(s, df, dr, j, q, u);
            let i = choose|i: int| 1 <= i < j && #[trigger] steps(s, df, dr, i, u);
            assert(steps(s, df, dr, i, u));
        }
    } else if ahead(s, df, dr, q) {
        let j = choose|j: int| 1 <= j <= 7 && #[trigger] steps(s, df, dr, j, q);
        assert(j > n);
        lemma_steps_between(s, df, dr, j, q, n, stop);
        assert(between(s, stop, q));
    }
}

/// Walking a ray to the edge of the board finds exactly the seen squares.
proof fn lemma_ray_open(occ: u64, r: u64, s: int, df: int, dr: int, n: int, q: int)
    requires
        0 <= s < 64,
        0 <= q < 64,
        -1 <= df <= 1,
        -1 <= dr <= 1,
        df != 0 || dr != 0,
        1 <= n <= 8,
        !on_board(file(s) + times(df, n), rank(s) + times(dr, n)),
        on(r, q) <==> exists|j: int| 1 <= j < n && #[trigger] steps(s, df, dr, j, q),
        forall|j: int, t: int| 1 <= j < n && 0 <= t < 64 && #[trigger] steps(s, df, dr, j, t) ==> !on(occ, t),
    ensures
        on(r, q) == (ahead(s, df, dr, q) && clear(occ, s, q)),
{
    if on(r, q) {
        let j = choose|j: int| 1 <= j < n && #[trigger] steps(s, df, dr, j, q);
        assert(j <= 7);
        assert(ahead(s, df, dr, q));
        assert forall|u: int| 0 <= u < 64 && #[trigger] between(s, u, q) implies !on(occ, u) by {
            lemma_between_steps(s, df, dr, j, q, u);
            let i = choose|i: int| 1 <= i < j && #[trigger] steps(s, df, dr, i, u);
            assert(steps(s, df, dr, i, u));
        }
    } else if ahead(s, df, dr, q) {
        let j = choose|j: int| 1 <= j <= 7 && #[trigger] steps(s, df, dr, j, q);
        assert(steps(s, df, dr, j, q));
        assert(j >= n);
        assert(on_board(file(q), rank(q)));
    }
}

/// A square between `s` and the square `j` steps ahead is fewer steps ahead.
proof fn lemma_between_steps(s: int, df: int, dr: int, j: int, q: int, u: int)
    requires
        0 <= s < 64,
        0 <= q < 64,
        0 <= u < 64,
        -1 <= df <= 1,
        -1 <= dr <= 1,
        df != 0 || dr != 0,
        1 <= j,
        steps(s, df, dr, j, q),
        between(s, u, q),
    ensures
        exists|i: int| 1 <= i < j && #[trigger] steps(s, df, dr, i, u),
{
    let i = if df != 0 {
        gap(file(s), file(u))
    } else {
        gap(rank(s), rank(u))
    };
    assert(steps(s, df, dr, i, u));
}

/// Fewer steps ahead means between.
proof fn lemma_steps_between(s: int, df: int, dr: int, j: int, q: int, i: int, u: int)
    requires
        0 <= s < 64,
        0 <= q < 64,
        0 <= u < 64,
        -1 <= df <= 1,
        -1 <= dr <= 1,
        df != 0 || dr != 0,
        1 <= i < j,
        steps(s, df, dr, j, q),
        steps(s, df, dr, i, u),
    ensures
        between(s, u, q),
{
}

/// The four straight directions together are the straight lines.
proof fn lemma_straight(s: int, t: int)
    requires
        0 <= s < 64,
        0 <= t < 64,
    ensures
        straight(s, t) <==> (ahead(s, 0, 1, t) || ahead(s, 0, -1, t) || ahead(s, 1, 0, t) || ahead(
            s,
            -1,
            0,
            t,
        )),
{
    if straight(s, t) {
        if file(s) == file(t) {
            let k = gap(rank(s), rank(t));
            if rank(t) > rank(s) {
                assert(steps(s, 0, 1, k, t));
            } else {
                assert(steps(s, 0, -1, k, t));
            }
        } else {
            let k = gap(file(s), file(t));
            if file(t) > file(s) {
                assert(steps(s, 1, 0, k, t));
            } else {
                assert(steps(s, -1, 0, k, t));
            }
        }
    }
}

/// The four slanted directions together are the diagonals.
proof fn lemma_diagonal(s: int, t: int)
    requires
        0 <= s < 64,
        0 <= t < 64,
    ensures
        diagonal(s, t) <==> (ahead(s, 1, 1, t) || ahead(s, 1, -1, t) || ahead(s, -1, 1, t) || ahead(
            s,
            -1,
            -1,
            t,
        )),
{
    if diagonal(s, t) {
        let k = gap(file(s), file(t));
        if file(t) > file(s) {
            if rank(t) > rank(s) {
                assert(steps(s, 1, 1, k, t));
            } else {
                assert(steps(s, 1, -1, k, t));
            }
        } else {
            if rank(t) > rank(s) {
                assert(steps(s, -1, 1, k, t));
            } else {
                assert(steps(s, -1, -1, k, t));
            }
        }
    }
}

/// The squares that a rook on `s` attacks.
pub fn rook_attacks(s: usize, occ: u64) -> (r: u64)
    requires
        s < 64,
    ensures
        forall|t: int| 0 <= t < 64 ==> #[trigger] on(r, t) == rook_hits(occ, s as int, t),
{
    let a = slide(occ, s, 0, 1);
    let b = slide(occ, s, 0, -1);
    let c = slide(occ, s, 1, 0);
    let d = slide(occ, s, -1, 0);
    let r: u64 = (a | b) | (c | d);
    proof {
        bits::lemma_ops(a, b);
        bits::lemma_ops(c, d);
        bits::lemma_ops(a | b, c | d);
        assert forall|t: int| 0 <= t < 64 implies #[trigger] on(r, t) == rook_hits(
            occ,
            s as int,
            t,
        ) by {
            lemma_straight(s as int, t);
        }
    }
    r
}

/// The squares that a bishop on `s` attacks.
pub fn bishop_attacks(s: usize, occ: u64) -> (r: u64)
    requires
        s < 64,
    ensures
        forall|t: int| 0 <= t < 64 ==> #[trigger] on(r, t) == bishop_hits(occ, s as int, t),
{
    let a = slide(occ, s, 1, 1);
    let b = slide(occ, s, 1, -1);
    let c = slide(occ, s, -1, 1);
    let d = slide(occ, s, -1, -1);
    let r: u64 = (a | b) | (c | d);
    proof {
        bits::lemma_ops(a, b);
        bits::lemma_ops(c, d);
        bits::lemma_ops(a | b, c | d);
        assert forall|t: int| 0 <= t < 64 implies #[trigger] on(r, t) == bishop_hits(
            occ,
            s as int,
            t,
        ) by {
            lemma_diagonal(s as int, t);
        }
    }
    r
}

/// The squares that a queen on `s` attacks.
pub fn queen_attacks(s: usize, occ: u64) -> (r: u64)
    requires
        s < 64,
    ensures
        forall|t: int|
            0 <= t < 64 ==> #[trigger] on(r, t) == piece_hits(PieceType::Queen, occ, s as int, t),
{
    let a = rook_attacks(s, occ);
    let b = bishop_attacks(s, occ);
    proof {
        bits::lemma_ops(a, b);
    }
    a | b
}

/// The squares that a piece other than a pawn attacks.
pub fn piece_attacks(pt: PieceType, s: usize, occ: u64) -> (r: u64)
    requires
        s < 64,
    ensures
        forall|t: int|
            0 <= t < 64 ==> #[trigger] on(r, t) == piece_hits(pt, occ, s as int, t),
{
    match pt {
        PieceType::Pawn => {
            proof {
                bits::lemma_empty();
            }
            0
        },
        PieceType::Knight => knight_attacks(s),
        PieceType::Bishop => bishop_attacks(s, occ),
        PieceType::Rook => rook_attacks(s, occ),
        PieceType::Queen => queen_attacks(s, occ),
        PieceType::King => king_attacks(s),
    }
}

// ---------------------------------------------------------------------------
// How many squares a piece can attack.
// ---------------------------------------------------------------------------

/// At most two squares of a row, on the files `a` and `b`.
proof fn lemma_row_two(p: spec_fn(int) -> bool, r: int, a: int, b: int)
    requires
        0 <= r < 8,
        forall|t: int|
            0 <= t < 64 && rank(t) == r && #[trigger] p(t) ==> file(t) == a || file(t) == b,
    ensures
        row_count(p, r) <= one_if(0 <= a < 8) + one_if(0 <= b < 8),
        row_count(p, r) >= 0,
{
    reveal(row_count);
    assert(p(8 * r + 0) ==> 0 == a || 0 == b);
    assert(p(8 * r + 1) ==> 1 == a || 1 == b);
    assert(p(8 * r + 2) ==> 2 == a || 2 == b);
    assert(p(8 * r + 3) ==> 3 == a || 3 == b);
    assert(p(8 * r + 4) ==> 4 == a || 4 == b);
    assert(p(8 * r + 5) ==> 5 == a || 5 == b);
    assert(p(8 * r + 6) ==> 6 == a || 6 == b);
    assert(p(8 * r + 7) ==> 7 == a || 7 == b);
}

/// A row without one of its squares.
proof fn lemma_row_seven(p: spec_fn(int) -> bool, r: int, f: int)
    requires
        0 <= f < 8,
        !p(8 * r + f),
    ensures
        row_count(p, r) <= 7,
{
    reveal(row_count);
    assert(f == 0 || f == 1 || f == 2 || f == 3 || f == 4 || f == 5 || f == 6 || f == 7);
}

/// The eight row counts added up.
spec fn eight(p: spec_fn(int) -> bool) -> int {
    row_count(p, 0) + row_count(p, 1) + row_count(p, 2) + row_count(p, 3) + row_count(p, 4)
        + row_count(p, 5) + row_count(p, 6) + row_count(p, 7)
}

/// A knight attacks at most eight squares.
pub proof fn lemma_knight_count(s: int)
    requires
        0 <= s < 64,
    ensures
        count(|t: int| knight_hits(s, t)) <= 8,
{
    let p = |t: int| knight_hits(s, t);
    let k = rank(s);
    bits::lemma_count_rows(p);
    assert forall|r: int| 0 <= r < 8 implies #[trigger] row_count(p, r) <= (if gap(k, r) == 1
        || gap(k, r) == 2 {
        2int
    } else {
        0
    }) by {
        if gap(k, r) == 1 {
            lemma_row_two(p, r, file(s) - 2, file(s) + 2);
        } else if gap(k, r) == 2 {
            lemma_row_two(p, r, file(s) - 1, file(s) + 1);
        } else {
            lemma_row_two(p, r, -1, -1);
        }
    }
    assert(0 <= k < 8);
    assert(eight(p) <= 8);
}

/// There are at most thirteen squares on the diagonals of a square.
proof fn lemma_diagonal_count(s: int)
    requires
        0 <= s < 64,
    ensures
        count(|t: int| diagonal(s, t)) <= 13,
{
    let p = |t: int| diagonal(s, t);
    let k = rank(s);
    let f = file(s);
    bits::lemma_count_rows(p);
    assert forall|r: int| 0 <= r < 8 implies #[trigger] row_count(p, r) <= (if r == k {
        0
    } else {
        one_if(0 <= f - gap(k, r)) + one_if(f + gap(k, r) < 8)
    }) by {
        if r == k {
            lemma_row_two(p, r, -1, -1);
        } else {
            lemma_row_two(p, r, f - gap(k, r), f + gap(k, r));
        }
    }
    assert(0 <= k < 8 && 0 <= f < 8);
    assert(eight(p) <= 13);
}

/// There are at most fourteen other squares on the file and the rank of a square.
proof fn lemma_straight_count(s: int)
    requires
        0 <= s < 64,
    ensures
        count(|t: int| straight(s, t)) <= 14,
{
    let p = |t: int| straight(s, t);
    let k = rank(s);
    bits::lemma_count_rows(p);
    assert forall|r: int| 0 <= r < 8 implies #[trigger] row_count(p, r) <= (if r == k {
        7int
    } else {
        1
    }) by {
        if r == k {
            assert(8 * r + file(s) == s);
            assert(!p(s));
            lemma_row_seven(p, r, file(s));
        } else {
            lemma_row_two(p, r, file(s), -1);
        }
    }
    assert(0 <= k < 8);
    assert(eight(p) <= 14);
}

/// The most squares that a piece can attack.
pub open spec fn max_reach(pt: PieceType) -> int {
    match pt {
        PieceType::Pawn => 0,
        PieceType::Knight => 8,
        PieceType::Bishop => 13,
        PieceType::Rook => 14,
        PieceType::Queen => 27,
        PieceType::King => 64,
    }
}

/// No piece attacks more squares than its kind can.
pub proof fn lemma_reach_count(pt: PieceType, occ: u64, s: int, p: spec_fn(int) -> bool)
    requires
        0 <= s < 64,
        forall|t: int| 0 <= t < 64 && #[trigger] p(t) ==> piece_hits(pt, occ, s, t),
    ensures
        0 <= count(p) <= max_reach(pt),
{
    bits::lemma_count_bound(p);
    let d = |t: int| diagonal(s, t);
    let l = |t: int| straight(s, t);
    match pt {
        PieceType::Pawn => {
            assert forall|t: int| 0 <= t < 64 implies #[trigger] p(t) == (|t: int| false)(t) by {}
            bits::lemma_count_ext(p, |t: int| false);
            bits::lemma_sum_skip(|i: int| one_if((|t: int| false)(i)), 0, 64);
        },
        PieceType::Knight => {
            lemma_knight_count(s);
            bits::lemma_count_le(p, |t: int| knight_hits(s, t));
        },
        PieceType::Bishop => {
            lemma_diagonal_count(s);
            bits::lemma_count_le(p, d);
        },
        PieceType::Rook => {
            lemma_straight_count(s);
            bits::lemma_count_le(p, l);
        },
        PieceType::Queen => {
            lemma_diagonal_count(s);
            lemma_straight_count(s);
            bits::lemma_count_or(l, d, p);
        },
        PieceType::King => {},
    }
}

} // verus!
