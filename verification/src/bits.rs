//! Bit-level facts about 64-bit words, and sums over the sixty-four squares.
//!
//! A word stands for a set of squares: square `i` is in the set exactly when
//! bit `i` is set.  Every bitboard contract in the crate is phrased with [`on`]
//! and the counting and summing functions of this file.

use vstd::prelude::*;

verus! {

/// Square `i` belongs to the set `x`.
pub open spec fn on(x: u64, i: int) -> bool {
    0 <= i < 64 && (x >> (i as u64)) & 1 == 1
}

/// The word with only bit `i` set.
pub open spec fn bit(i: int) -> u64 {
    1u64 << (i as u64)
}

/// The sum of `f(0) + ... + f(n - 1)`.
pub open spec fn sum(f: spec_fn(int) -> int, n: int) -> int
    decreases n,
{
    if n <= 0 {
        0
    } else {
        sum(f, n - 1) + f(n - 1)
    }
}

/// `1` for a true statement and `0` for a false one.
pub open spec fn one_if(b: bool) -> int {
    if b {
        1
    } else {
        0
    }
}

/// How many squares satisfy `p`.
pub open spec fn count(p: spec_fn(int) -> bool) -> int {
    sum(|i: int| one_if(p(i)), 64)
}

/// Two functions that agree below `n` have the same sum.
pub proof fn lemma_sum_ext(f: spec_fn(int) -> int, g: spec_fn(int) -> int, n: int)
    requires
        forall|i: int| 0 <= i < n ==> #[trigger] f(i) == g(i),
    ensures
        sum(f, n) == sum(g, n),
    decreases n,
{
    if n > 0 {
        lemma_sum_ext(f, g, n - 1);
        assert(f(n - 1) == g(n - 1));
    }
}

/// A stretch of zeroes does not change the running sum.
pub proof fn lemma_sum_skip(f: spec_fn(int) -> int, a: int, b: int)
    requires
        0 <= a <= b,
        forall|i: int| a <= i < b ==> #[trigger] f(i) == 0,
    ensures
        sum(f, b) == sum(f, a),
    decreases b - a,
{
    if a < b {
        lemma_sum_skip(f, a, b - 1);
        assert(f(b - 1) == 0);
    }
}

/// A sum of `n` terms within `[lo, hi]` lies within `[n * lo, n * hi]`.
pub proof fn lemma_sum_bound(f: spec_fn(int) -> int, n: int, lo: int, hi: int)
    requires
        0 <= n,
        forall|i: int| 0 <= i < n ==> lo <= #[trigger] f(i) <= hi,
    ensures
        n * lo <= sum(f, n) <= n * hi,
    decreases n,
{
    if n > 0 {
        lemma_sum_bound(f, n - 1, lo, hi);
        assert(lo <= f(n - 1) <= hi);
        assert((n - 1) * lo + lo == n * lo && (n - 1) * hi + hi == n * hi) by (nonlinear_arith);
    } else {
        assert(n * lo == 0 && n * hi == 0) by (nonlinear_arith)
            requires
                n == 0,
        ;
    }
}

/// Sums add up term by term.
pub proof fn lemma_sum_add(
    f: spec_fn(int) -> int,
    g: spec_fn(int) -> int,
    h: spec_fn(int) -> int,
    n: int,
)
    requires
        forall|i: int| 0 <= i < n ==> #[trigger] h(i) == f(i) + g(i),
    ensures
        sum(h, n) == sum(f, n) + sum(g, n),
    decreases n,
{
    if n > 0 {
        lemma_sum_add(f, g, h, n - 1);
        assert(h(n - 1) == f(n - 1) + g(n - 1));
    }
}

/// Squares of the board with the ranks in reverse order: `a1` becomes `a8`.
pub open spec fn flip(i: int) -> int {
    8 * (7 - i / 8) + i % 8
}

/// Reading the board upside down does not change a sum over all its squares.
pub proof fn lemma_sum_flip(f: spec_fn(int) -> int, g: spec_fn(int) -> int)
    requires
        forall|i: int| 0 <= i < 64 ==> #[trigger] g(i) == f(flip(i)),
    ensures
        sum(g, 64) == sum(f, 64),
{
    reveal_with_fuel(sum, 65);
    assert(g(0) == f(56) && g(1) == f(57) && g(2) == f(58) && g(3) == f(59));
    assert(g(4) == f(60) && g(5) == f(61) && g(6) == f(62) && g(7) == f(63));
    assert(g(8) == f(48) && g(9) == f(49) && g(10) == f(50) && g(11) == f(51));
    assert(g(12) == f(52) && g(13) == f(53) && g(14) == f(54) && g(15) == f(55));
    assert(g(16) == f(40) && g(17) == f(41) && g(18) == f(42) && g(19) == f(43));
    assert(g(20) == f(44) && g(21) == f(45) && g(22) == f(46) && g(23) == f(47));
    assert(g(24) == f(32) && g(25) == f(33) && g(26) == f(34) && g(27) == f(35));
    assert(g(28) == f(36) && g(29) == f(37) && g(30) == f(38) && g(31) == f(39));
    assert(g(32) == f(24) && g(33) == f(25) && g(34) == f(26) && g(35) == f(27));
    assert(g(36) == f(28) && g(37) == f(29) && g(38) == f(30) && g(39) == f(31));
    assert(g(40) == f(16) && g(41) == f(17) && g(42) == f(18) && g(43) == f(19));
    assert(g(44) == f(20) && g(45) == f(21) && g(46) == f(22) && g(47) == f(23));
    assert(g(48) == f(8) && g(49) == f(9) && g(50) == f(10) && g(51) == f(11));
    assert(g(52) == f(12) && g(53) == f(13) && g(54) == f(14) && g(55) == f(15));
    assert(g(56) == f(0) && g(57) == f(1) && g(58) == f(2) && g(59) == f(3));
    assert(g(60) == f(4) && g(61) == f(5) && g(62) == f(6) && g(63) == f(7));
}

/// Statements that agree on every square hold on equally many squares.
pub proof fn lemma_count_ext(p: spec_fn(int) -> bool, q: spec_fn(int) -> bool)
    requires
        forall|i: int| 0 <= i < 64 ==> #[trigger] p(i) == q(i),
    ensures
        count(p) == count(q),
{
    let f = |i: int| one_if(p(i));
    let g = |i: int| one_if(q(i));
    assert forall|i: int| 0 <= i < 64 implies #[trigger] f(i) == g(i) by {
        assert(p(i) == q(i));
    }
    lemma_sum_ext(f, g, 64);
}

/// A running count is at least the number of two marked squares that it has passed.
proof fn lemma_sum_two(p: spec_fn(int) -> bool, s: int, t: int, n: int)
    requires
        s != t,
        0 <= s,
        0 <= t,
        p(s),
    ensures
        sum(|i: int| one_if(p(i)), n) >= one_if(s < n) + one_if(t < n && p(t)),
    decreases n,
{
    if n > 0 {
        lemma_sum_two(p, s, t, n - 1);
    }
}

/// Two squares that satisfy `p` count as two, and one as one.
pub proof fn lemma_count_two(p: spec_fn(int) -> bool, s: int, t: int)
    requires
        s != t,
        0 <= s < 64,
        0 <= t < 64,
        p(s),
    ensures
        count(p) >= 1 + one_if(p(t)),
{
    lemma_sum_two(p, s, t, 64);
}

/// If no other square than `s` satisfies `p`, the count is one at most.
pub proof fn lemma_count_single(p: spec_fn(int) -> bool, s: int)
    requires
        forall|i: int| 0 <= i < 64 && i != s ==> !#[trigger] p(i),
        0 <= s < 64,
    ensures
        count(p) == one_if(p(s)),
{
    let f = |i: int| one_if(p(i));
    assert forall|i: int| 0 <= i < s implies #[trigger] f(i) == 0 by {
        assert(!p(i));
    }
    lemma_sum_skip(f, 0, s);
    assert forall|i: int| s + 1 <= i < 64 implies #[trigger] f(i) == 0 by {
        assert(!p(i));
    }
    lemma_sum_skip(f, s + 1, 64);
    assert(sum(f, s + 1) == sum(f, s) + f(s));
}

/// Where more squares satisfy `q` than `p`, its count is no smaller.
pub proof fn lemma_count_more(p: spec_fn(int) -> bool, q: spec_fn(int) -> bool)
    requires
        forall|i: int| 0 <= i < 64 && #[trigger] p(i) ==> q(i),
    ensures
        0 <= count(p) <= count(q),
{
    lemma_sum_more(p, q, 64);
}

proof fn lemma_sum_more(p: spec_fn(int) -> bool, q: spec_fn(int) -> bool, n: int)
    requires
        forall|i: int| 0 <= i < n && #[trigger] p(i) ==> q(i),
    ensures
        0 <= sum(|i: int| one_if(p(i)), n) <= sum(|i: int| one_if(q(i)), n),
    decreases n,
{
    if n > 0 {
        lemma_sum_more(p, q, n - 1);
        assert(p(n - 1) ==> q(n - 1));
    }
}

/// Counting upside down gives the same count.
pub proof fn lemma_count_flip(p: spec_fn(int) -> bool, q: spec_fn(int) -> bool)
    requires
        forall|i: int| 0 <= i < 64 ==> #[trigger] q(i) == p(flip(i)),
    ensures
        count(q) == count(p),
{
    let f = |i: int| one_if(p(i));
    let g = |i: int| one_if(q(i));
    assert forall|i: int| 0 <= i < 64 implies #[trigger] g(i) == f(flip(i)) by {
        assert(q(i) == p(flip(i)));
    }
    lemma_sum_flip(f, g);
}

/// A count is between zero and sixty-four.
pub proof fn lemma_count_bound(p: spec_fn(int) -> bool)
    ensures
        0 <= count(p) <= 64,
{
    lemma_sum_bound(|i: int| one_if(p(i)), 64, 0, 1);
}

/// How many squares of one row satisfy `p`.
#[verifier::opaque]
pub open spec fn row_count(p: spec_fn(int) -> bool, r: int) -> int {
    one_if(p(8 * r)) + one_if(p(8 * r + 1)) + one_if(p(8 * r + 2)) + one_if(p(8 * r + 3)) + one_if(
        p(8 * r + 4),
    ) + one_if(p(8 * r + 5)) + one_if(p(8 * r + 6)) + one_if(p(8 * r + 7))
}

/// A count is the sum of the counts of the eight rows.
pub proof fn lemma_count_rows(p: spec_fn(int) -> bool)
    ensures
        count(p) == row_count(p, 0) + row_count(p, 1) + row_count(p, 2) + row_count(p, 3)
            + row_count(p, 4) + row_count(p, 5) + row_count(p, 6) + row_count(p, 7),
{
    lemma_row_sum(p, 0);
    lemma_row_sum(p, 1);
    lemma_row_sum(p, 2);
    lemma_row_sum(p, 3);
    lemma_row_sum(p, 4);
    lemma_row_sum(p, 5);
    lemma_row_sum(p, 6);
    lemma_row_sum(p, 7);
}

/// One more row adds the count of that row.
proof fn lemma_row_sum(p: spec_fn(int) -> bool, r: int)
    requires
        0 <= r < 8,
    ensures
        sum(|i: int| one_if(p(i)), 8 * r + 8) == sum(|i: int| one_if(p(i)), 8 * r) + row_count(p, r),
{
    reveal(row_count);
    let f = |i: int| one_if(p(i));
    assert(sum(f, 8 * r + 1) == sum(f, 8 * r) + f(8 * r));
    assert(sum(f, 8 * r + 2) == sum(f, 8 * r + 1) + f(8 * r + 1));
    assert(sum(f, 8 * r + 3) == sum(f, 8 * r + 2) + f(8 * r + 2));
    assert(sum(f, 8 * r + 4) == sum(f, 8 * r + 3) + f(8 * r + 3));
    assert(sum(f, 8 * r + 5) == sum(f, 8 * r + 4) + f(8 * r + 4));
    assert(sum(f, 8 * r + 6) == sum(f, 8 * r + 5) + f(8 * r + 5));
    assert(sum(f, 8 * r + 7) == sum(f, 8 * r + 6) + f(8 * r + 6));
    assert(sum(f, 8 * r + 8) == sum(f, 8 * r + 7) + f(8 * r + 7));
}

/// If one statement implies another, it holds on no more squares.
pub proof fn lemma_count_le(p: spec_fn(int) -> bool, q: spec_fn(int) -> bool)
    requires
        forall|i: int| 0 <= i < 64 && #[trigger] p(i) ==> q(i),
    ensures
        count(p) <= count(q),
{
    lemma_sum_le(|i: int| one_if(p(i)), |i: int| one_if(q(i)), 64);
}

/// Smaller terms have a smaller sum.
pub proof fn lemma_sum_le(f: spec_fn(int) -> int, g: spec_fn(int) -> int, n: int)
    requires
        forall|i: int| 0 <= i < n ==> #[trigger] f(i) <= g(i),
    ensures
        sum(f, n) <= sum(g, n),
    decreases n,
{
    if n > 0 {
        lemma_sum_le(f, g, n - 1);
        assert(f(n - 1) <= g(n - 1));
    }
}

/// A sum whose terms are within bounds where a statement holds, and nothing elsewhere.
pub proof fn lemma_sum_counted(
    f: spec_fn(int) -> int,
    p: spec_fn(int) -> bool,
    n: int,
    lo: int,
    hi: int,
)
    requires
        forall|i: int| 0 <= i < n && p(i) ==> lo <= #[trigger] f(i) <= hi,
        forall|i: int| 0 <= i < n && !p(i) ==> #[trigger] f(i) == 0,
    ensures
        lo * sum(|i: int| one_if(p(i)), n) <= sum(f, n) <= hi * sum(|i: int| one_if(p(i)), n),
    decreases n,
{
    let g = |i: int| one_if(p(i));
    if n > 0 {
        lemma_sum_counted(f, p, n - 1, lo, hi);
        let k = sum(g, n - 1);
        assert(sum(g, n) == k + g(n - 1));
        assert(lo * (k + 1) == lo * k + lo && hi * (k + 1) == hi * k + hi) by (nonlinear_arith);
        if p(n - 1) {
            assert(lo <= f(n - 1) <= hi);
        } else {
            assert(f(n - 1) == 0);
        }
    } else {
        assert(lo * 0 == 0 && hi * 0 == 0);
    }
}

/// A sum in which one term is another.
pub proof fn lemma_sum_one(f: spec_fn(int) -> int, g: spec_fn(int) -> int, k: int, n: int)
    requires
        0 <= k < n,
        forall|i: int| 0 <= i < n && i != k ==> #[trigger] f(i) == g(i),
    ensures
        sum(g, n) == sum(f, n) - f(k) + g(k),
    decreases n,
{
    if k == n - 1 {
        lemma_sum_ext(f, g, n - 1);
    } else {
        lemma_sum_one(f, g, k, n - 1);
        assert(f(n - 1) == g(n - 1));
    }
}

/// Where one of two statements holds, at most the sum of their counts.
pub proof fn lemma_count_or(
    p: spec_fn(int) -> bool,
    q: spec_fn(int) -> bool,
    r: spec_fn(int) -> bool,
)
    requires
        forall|i: int| 0 <= i < 64 && #[trigger] r(i) ==> p(i) || q(i),
    ensures
        count(r) <= count(p) + count(q),
{
    let f = |i: int| one_if(p(i));
    let g = |i: int| one_if(q(i));
    let h = |i: int| f(i) + g(i);
    let k = |i: int| one_if(r(i));
    lemma_sum_add(f, g, h, 64);
    assert forall|i: int| 0 <= i < 64 implies #[trigger] k(i) <= h(i) by {
        assert(r(i) ==> p(i) || q(i));
    }
    lemma_sum_le(k, h, 64);
}

// ---------------------------------------------------------------------------
// Sums over the squares of a set.
// ---------------------------------------------------------------------------

/// `rest` is what is left of `all` from square `at` on.
pub open spec fn left_from(all: u64, rest: u64, at: int) -> bool {
    0 <= at <= 64 && forall|j: int| #[trigger] on(rest, j) == (on(all, j) && j >= at)
}

/// `f` is zero outside the set `all`.
pub open spec fn zero_off(f: spec_fn(int) -> int, all: u64) -> bool {
    forall|j: int| 0 <= j < 64 && !on(all, j) ==> #[trigger] f(j) == 0
}

/// Walking on to the next square of a set: nothing is added in between.
pub proof fn lemma_walk(all: u64, rest: u64, at: int, i: int, f: spec_fn(int) -> int)
    requires
        left_from(all, rest, at),
        on(rest, i),
        forall|j: int| 0 <= j < i ==> !#[trigger] on(rest, j),
        zero_off(f, all),
    ensures
        at <= i < 64,
        sum(f, i) == sum(f, at),
        sum(f, i + 1) == sum(f, at) + f(i),
{
    assert forall|j: int| at <= j < i implies #[trigger] f(j) == 0 by {
        assert(!on(rest, j));
    }
    lemma_sum_skip(f, at, i);
}

/// Once the next square has been taken, what is left starts after it.
pub proof fn lemma_walk_left(all: u64, rest: u64, next: u64, at: int, i: int)
    requires
        left_from(all, rest, at),
        on(rest, i),
        forall|j: int| 0 <= j < i ==> !#[trigger] on(rest, j),
        forall|j: int| #[trigger] on(next, j) == (on(rest, j) && j != i),
    ensures
        left_from(all, next, i + 1),
{
    assert forall|j: int| #[trigger] on(next, j) == (on(all, j) && j >= i + 1) by {
        assert(on(rest, j) == (on(all, j) && j >= at));
        if j < i && 0 <= j {
            assert(!on(rest, j));
        }
    }
}

/// At the end of a set the running sum is the whole sum.
pub proof fn lemma_walk_end(all: u64, rest: u64, at: int, f: spec_fn(int) -> int)
    requires
        left_from(all, rest, at),
        rest == 0,
        zero_off(f, all),
    ensures
        sum(f, 64) == sum(f, at),
{
    lemma_empty();
    assert forall|j: int| at <= j < 64 implies #[trigger] f(j) == 0 by {
        assert(!on(rest, j));
    }
    lemma_sum_skip(f, at, 64);
}

// ---------------------------------------------------------------------------
// Single operations on words.
// ---------------------------------------------------------------------------

pub proof fn lemma_has_or(x: u64, y: u64, i: int)
    ensures
        on(x | y, i) == (on(x, i) || on(y, i)),
{
    if 0 <= i < 64 {
        let j = i as u64;
        assert(((x | y) >> j) & 1 == 1 <==> ((x >> j) & 1 == 1 || (y >> j) & 1 == 1))
            by (bit_vector)
            requires
                j < 64,
        ;
    }
}

pub proof fn lemma_has_and(x: u64, y: u64, i: int)
    ensures
        on(x & y, i) == (on(x, i) && on(y, i)),
{
    if 0 <= i < 64 {
        let j = i as u64;
        assert(((x & y) >> j) & 1 == 1 <==> ((x >> j) & 1 == 1 && (y >> j) & 1 == 1))
            by (bit_vector)
            requires
                j < 64,
        ;
    }
}

pub proof fn lemma_has_not(x: u64, i: int)
    requires
        0 <= i < 64,
    ensures
        on(!x, i) == !on(x, i),
{
    let j = i as u64;
    assert(((!x) >> j) & 1 == 1 <==> !((x >> j) & 1 == 1)) by (bit_vector)
        requires
            j < 64,
    ;
}

pub proof fn lemma_has_bit(k: int, i: int)
    requires
        0 <= k < 64,
    ensures
        on(bit(k), i) == (i == k),
{
    if 0 <= i < 64 {
        let j = i as u64;
        let m = k as u64;
        assert(((1u64 << m) >> j) & 1 == 1 <==> j == m) by (bit_vector)
            requires
                j < 64,
                m < 64,
        ;
    }
}

/// The facts above, for every square at once.
pub proof fn lemma_ops(x: u64, y: u64)
    ensures
        forall|i: int| #[trigger] on(x | y, i) == (on(x, i) || on(y, i)),
        forall|i: int| #[trigger] on(x & y, i) == (on(x, i) && on(y, i)),
        forall|i: int| 0 <= i < 64 ==> #[trigger] on(!x, i) == !on(x, i),
        forall|i: int| 0 <= i < 64 ==> #[trigger] on(!y, i) == !on(y, i),
{
    assert forall|i: int| #[trigger] on(x | y, i) == (on(x, i) || on(y, i)) by {
        lemma_has_or(x, y, i);
    }
    assert forall|i: int| #[trigger] on(x & y, i) == (on(x, i) && on(y, i)) by {
        lemma_has_and(x, y, i);
    }
    assert forall|i: int| 0 <= i < 64 implies #[trigger] on(!x, i) == !on(x, i) by {
        lemma_has_not(x, i);
    }
    assert forall|i: int| 0 <= i < 64 implies #[trigger] on(!y, i) == !on(y, i) by {
        lemma_has_not(y, i);
    }
}

pub proof fn lemma_empty()
    ensures
        forall|i: int| !#[trigger] on(0u64, i),
{
    assert forall|i: int| !#[trigger] on(0u64, i) by {
        if 0 <= i < 64 {
            let j = i as u64;
            assert((0u64 >> j) & 1 == 0) by (bit_vector)
                requires
                    j < 64,
            ;
        }
    }
}

/// There is a word for every set of squares.
pub proof fn lemma_word_of(p: spec_fn(int) -> bool) -> (w: u64)
    ensures
        forall|i: int| 0 <= i < 64 ==> #[trigger] on(w, i) == p(i),
{
    lemma_word_below(p, 64)
}

proof fn lemma_word_below(p: spec_fn(int) -> bool, n: int) -> (w: u64)
    requires
        0 <= n <= 64,
    ensures
        forall|i: int| 0 <= i < 64 ==> #[trigger] on(w, i) == (i < n && p(i)),
    decreases n,
{
    if n == 0 {
        lemma_empty();
        0u64
    } else {
        let x = lemma_word_below(p, n - 1);
        if p(n - 1) {
            lemma_ops(x, bit(n - 1));
            assert forall|i: int| 0 <= i < 64 implies #[trigger] on(x | bit(n - 1), i) == (i < n
                && p(i)) by {
                lemma_has_bit(n - 1, i);
            }
            x | bit(n - 1)
        } else {
            x
        }
    }
}

/// Two words with the same squares are equal.
pub proof fn lemma_word_ext(x: u64, y: u64)
    requires
        forall|i: int| 0 <= i < 64 ==> #[trigger] on(x, i) == on(y, i),
    ensures
        x == y,
{
    if x != y {
        let z = x ^ y;
        assert(z != 0) by (bit_vector)
            requires
                z == x ^ y,
                x != y,
        ;
        let k = lemma_some_bit(z);
        let j = k as u64;
        assert((z >> j) & 1 == 1);
        assert((x >> j) & 1 != (y >> j) & 1) by (bit_vector)
            requires
                j < 64,
                z == x ^ y,
                (z >> j) & 1 == 1,
        ;
        assert((x >> j) & 1 == 0 || (x >> j) & 1 == 1) by (bit_vector);
        assert((y >> j) & 1 == 0 || (y >> j) & 1 == 1) by (bit_vector);
        assert(on(x, k) == on(y, k));
    }
}

/// A word other than zero has a set bit.
pub proof fn lemma_some_bit(x: u64) -> (k: int)
    requires
        x != 0,
    ensures
        on(x, k),
{
    broadcast use vstd::std_specs::bits::axiom_u64_trailing_zeros;

    let t = vstd::std_specs::bits::u64_trailing_zeros(x);
    assert(t < 64);
    t as int
}

// ---------------------------------------------------------------------------
// Executable helpers.
// ---------------------------------------------------------------------------

/// Is square `i` in the set?
#[inline]
pub fn test(x: u64, i: usize) -> (r: bool)
    requires
        i < 64,
    ensures
        r == on(x, i as int),
{
    (x >> (i as u64)) & 1 == 1
}

/// The set that holds only square `i`.
#[inline]
pub fn one(i: usize) -> (r: u64)
    requires
        i < 64,
    ensures
        r == bit(i as int),
        forall|j: int| #[trigger] on(r, j) == (j == i),
{
    let r: u64 = 1u64 << (i as u64);
    proof {
        assert forall|j: int| #[trigger] on(r, j) == (j == i) by {
            lemma_has_bit(i as int, j);
        }
    }
    r
}

/// Remove and return the lowest square of a set that is not empty.
#[inline]
pub fn take_first(x: &mut u64) -> (i: usize)
    requires
        *old(x) != 0,
    ensures
        i < 64,
        on(*old(x), i as int),
        forall|j: int| 0 <= j < i ==> !#[trigger] on(*old(x), j),
        forall|j: int| #[trigger] on(*final(x), j) == (on(*old(x), j) && j != i),
{
    broadcast use vstd::std_specs::bits::axiom_u64_trailing_zeros;

    let w: u64 = *x;
    let i: u32 = w.trailing_zeros();
    proof {
        assert forall|j: int| 0 <= j < i implies !#[trigger] on(w, j) by {
            let k = j as u64;
            assert((w >> k) & 1u64 == 0u64);
        }
    }
    let b: u64 = one(i as usize);
    *x = w & !b;
    proof {
        lemma_ops(w, !b);
        lemma_ops(b, b);
    }
    i as usize
}

/// How many squares the set holds.
pub fn popcount(x: u64) -> (n: u32)
    ensures
        n == count(|i: int| on(x, i)),
        n <= 64,
{
    let ghost f = |i: int| one_if(on(x, i));
    let mut w: u64 = x;
    let mut n: u32 = 0;
    let ghost mut at: int = 0;
    while w != 0
        invariant
            0 <= at <= 64,
            n <= at,
            n == sum(f, at),
            f == (|i: int| one_if(on(x, i))),
            forall|j: int| #[trigger] on(w, j) == (on(x, j) && j >= at),
        decreases 64 - at,
    {
        let ghost before = w;
        let i = take_first(&mut w);
        proof {
            assert(on(before, i as int));
            assert forall|j: int| at <= j < i implies #[trigger] f(j) == 0 by {
                assert(!on(before, j));
            }
            lemma_sum_skip(f, at, i as int);
            at = i as int + 1;
            assert(sum(f, at) == sum(f, i as int) + f(i as int));
        }
        n = n + 1;
        assert forall|j: int| #[trigger] on(w, j) == (on(x, j) && j >= at) by {
            assert(on(w, j) == (on(before, j) && j != i));
        }
    }
    proof {
        lemma_empty();
        assert forall|j: int| at <= j < 64 implies #[trigger] f(j) == 0 by {
            assert(!on(w, j));
        }
        lemma_sum_skip(f, at, 64);
        lemma_count_bound(|i: int| on(x, i));
        assert(f =~= (|i: int| one_if((|k: int| on(x, k))(i))));
    }
    n
}

} // verus!
