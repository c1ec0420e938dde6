//! Sets of squares held in one machine word.

use vstd::prelude::*;

use crate::bits;
use crate::bits::{count, on};
use crate::types::{Direction, Square, file, on_board, rank};

verus! {

/// The a-file.
pub const FILE_A_BB: u64 = 0x0101_0101_0101_0101;

/// The h-file.
pub const FILE_H_BB: u64 = 0x8080_8080_8080_8080;

/// The first rank.
pub const RANK_1_BB: u64 = 0xFF;

/// A set of squares: square `i` is in the set when bit `i` is set.
#[derive(Clone, Copy, PartialEq, Eq, Structural, Debug, Hash)]
pub struct Bitboard(pub u64);

impl Bitboard {
    /// Square number `i` is in the set.
    pub open spec fn has_sq(self, i: int) -> bool {
        on(self.0, i)
    }

    #[inline]
    pub fn contains(self, s: Square) -> (r: bool)
        requires
            s.wf(),
        ensures
            r == self.has_sq(s.i()),
    {
        bits::test(self.0, s.index())
    }

    /// Is there a square in the set?
    #[inline]
    pub fn any(self) -> (r: bool)
        ensures
            r == (self.0 != 0),
            r == (exists|i: int| self.has_sq(i)),
    {
        proof {
            bits::lemma_empty();
            if self.0 != 0 {
                let k = bits::lemma_some_bit(self.0);
                assert(self.has_sq(k));
            }
        }
        self.0 != 0
    }

    /// How many squares are in the set.
    pub fn count(self) -> (n: u32)
        ensures
            n == count(|i: int| self.has_sq(i)),
            n <= 64,
    {
        let n = bits::popcount(self.0);
        proof {
            bits::lemma_count_ext(|i: int| on(self.0, i), |i: int| self.has_sq(i));
        }
        n
    }

    /// Are there at least two squares in the set?
    pub fn more_than_one(self) -> (r: bool)
        ensures
            r == (count(|i: int| self.has_sq(i)) > 1),
    {
        self.count() > 1
    }

    /// Every square moved one step; squares that leave the board are dropped.
    pub fn shift(self, d: Direction) -> (r: Bitboard)
        ensures
            forall|t: int|
                0 <= t < 64 ==> #[trigger] r.has_sq(t) == (on_board(
                    file(t) - d.df(),
                    rank(t) - d.dr(),
                ) && self.has_sq(8 * (rank(t) - d.dr()) + file(t) - d.df())),
    {
        let x: u64 = self.0;
        let r: u64 = match d {
            Direction::North => x << 8u64,
            Direction::South => x >> 8u64,
            Direction::East => (x & !FILE_H_BB) << 1u64,
            Direction::West => (x & !FILE_A_BB) >> 1u64,
            Direction::NorthEast => (x & !FILE_H_BB) << 9u64,
            Direction::NorthWest => (x & !FILE_A_BB) << 7u64,
            Direction::SouthEast => (x & !FILE_H_BB) >> 7u64,
            Direction::SouthWest => (x & !FILE_A_BB) >> 9u64,
        };
        proof {
            let rb = Bitboard(r);
            assert forall|t: int| 0 <= t < 64 implies #[trigger] rb.has_sq(t) == (on_board(
                file(t) - d.df(),
                rank(t) - d.dr(),
            ) && self.has_sq(8 * (rank(t) - d.dr()) + file(t) - d.df())) by {
                lemma_shift(x, t as u64);
                let f = file(t);
                let k = rank(t);
                assert(t == 8 * k + f && 0 <= f < 8 && 0 <= k < 8);
            }
        }
        Bitboard(r)
    }

    /// The file of a square.
    pub fn file_bb(s: Square) -> (r: Bitboard)
        requires
            s.wf(),
        ensures
            forall|t: int| 0 <= t < 64 ==> #[trigger] r.has_sq(t) == (file(t) == file(s.i())),
    {
        let f: u64 = (s.0 % 8) as u64;
        let r: u64 = FILE_A_BB << f;
        proof {
            let rb = Bitboard(r);
            assert forall|t: int| 0 <= t < 64 implies #[trigger] rb.has_sq(t) == (file(t) == file(
                s.i(),
            )) by {
                let u = t as u64;
                assert((((0x0101_0101_0101_0101u64 << f) >> u) & 1 == 1) == (u % 8 == f))
                    by (bit_vector)
                    requires
                        f < 8,
                        u < 64,
                ;
            }
        }
        Bitboard(r)
    }

    /// The rank of a square.
    pub fn rank_bb(s: Square) -> (r: Bitboard)
        requires
            s.wf(),
        ensures
            forall|t: int| 0 <= t < 64 ==> #[trigger] r.has_sq(t) == (rank(t) == rank(s.i())),
    {
        let k: u64 = (s.0 / 8) as u64;
        let r: u64 = RANK_1_BB << (8 * k);
        proof {
            let rb = Bitboard(r);
            assert forall|t: int| 0 <= t < 64 implies #[trigger] rb.has_sq(t) == (rank(t) == rank(
                s.i(),
            )) by {
                let u = t as u64;
                let k8: u64 = (8 * k) as u64;
                assert((((0xFFu64 << k8) >> u) & 1 == 1) == (u / 8 == k)) by (bit_vector)
                    requires
                        k < 8,
                        k8 == 8 * k,
                        u < 64,
                ;
            }
        }
        Bitboard(r)
    }
}

/// The eight steps, bit by bit.
proof fn lemma_shift(x: u64, t: u64)
    requires
        t < 64,
    ensures
        ((x << 8u64) >> t) & 1 == 1 <==> (t / 8 >= 1 && (x >> ((t - 8) as u64)) & 1 == 1),
        ((x >> 8u64) >> t) & 1 == 1 <==> (t / 8 <= 6 && (x >> ((t + 8) as u64)) & 1 == 1),
        (((x & !FILE_H_BB) << 1u64) >> t) & 1 == 1 <==> (t % 8 >= 1 && (x >> ((t - 1) as u64)) & 1
            == 1),
        (((x & !FILE_A_BB) >> 1u64) >> t) & 1 == 1 <==> (t % 8 <= 6 && (x >> ((t + 1) as u64)) & 1
            == 1),
        (((x & !FILE_H_BB) << 9u64) >> t) & 1 == 1 <==> (t % 8 >= 1 && t / 8 >= 1 && (x >> ((t
            - 9) as u64)) & 1 == 1),
        (((x & !FILE_A_BB) << 7u64) >> t) & 1 == 1 <==> (t % 8 <= 6 && t / 8 >= 1 && (x >> ((t
            - 7) as u64)) & 1 == 1),
        (((x & !FILE_H_BB) >> 7u64) >> t) & 1 == 1 <==> (t % 8 >= 1 && t / 8 <= 6 && (x >> ((t
            + 7) as u64)) & 1 == 1),
        (((x & !FILE_A_BB) >> 9u64) >> t) & 1 == 1 <==> (t % 8 <= 6 && t / 8 <= 6 && (x >> ((t
            + 9) as u64)) & 1 == 1),
{
    assert(((x << 8u64) >> t) & 1 == 1 <==> (t / 8 >= 1 && (x >> ((t - 8) as u64)) & 1 == 1))
        by (bit_vector)
        requires
            t < 64,
    ;
    assert(((x >> 8u64) >> t) & 1 == 1 <==> (t / 8 <= 6 && (x >> ((t + 8) as u64)) & 1 == 1))
        by (bit_vector)
        requires
            t < 64,
    ;
    assert((((x & !0x8080_8080_8080_8080u64) << 1u64) >> t) & 1 == 1 <==> (t % 8 >= 1 && (x >> ((t
        - 1) as u64)) & 1 == 1)) by (bit_vector)
        requires
            t < 64,
    ;
    assert((((x & !0x0101_0101_0101_0101u64) >> 1u64) >> t) & 1 == 1 <==> (t % 8 <= 6 && (x >> ((t
        + 1) as u64)) & 1 == 1)) by (bit_vector)
        requires
            t < 64,
    ;
    assert((((x & !0x8080_8080_8080_8080u64) << 9u64) >> t) & 1 == 1 <==> (t % 8 >= 1 && t / 8 >= 1
        && (x >> ((t - 9) as u64)) & 1 == 1)) by (bit_vector)
        requires
            t < 64,
    ;
    assert((((x & !0x0101_0101_0101_0101u64) << 7u64) >> t) & 1 == 1 <==> (t % 8 <= 6 && t / 8 >= 1
        && (x >> ((t - 7) as u64)) & 1 == 1)) by (bit_vector)
        requires
            t < 64,
    ;
    assert((((x & !0x8080_8080_8080_8080u64) >> 7u64) >> t) & 1 == 1 <==> (t % 8 >= 1 && t / 8 <= 6
        && (x >> ((t + 7) as u64)) & 1 == 1)) by (bit_vector)
        requires
            t < 64,
    ;
    assert((((x & !0x0101_0101_0101_0101u64) >> 9u64) >> t) & 1 == 1 <==> (t % 8 <= 6 && t / 8 <= 6
        && (x >> ((t + 9) as u64)) & 1 == 1)) by (bit_vector)
        requires
            t < 64,
    ;
}

} // verus!
