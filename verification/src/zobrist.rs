//! Zobrist hashing keys.
//!
//! Every independent feature of a position has its own 64-bit key, and the hash
//! of a position is the exclusive or of the keys of the features it has.  The
//! keys come from a generator with a fixed seed, so they are the same on every
//! run and on every machine.

use vstd::prelude::*;

use crate::rng;
use crate::rng::SplitMix64;
use crate::types::{Piece, Square};

verus! {

/// The fixed seed: "MYTHOSZB" in ASCII.
pub const ZOBRIST_SEED: u64 = 0x4D59_5448_4F53_5A42;

/// Key number `n`: first the piece-square keys, then the castling keys, the
/// en-passant keys and the side key.
pub open spec fn key(n: int) -> u64 {
    rng::output(ZOBRIST_SEED, n)
}

/// The key of a piece on a square.
pub open spec fn piece_key(p: Piece, s: int) -> u64 {
    key(64 * p.ord() + s)
}

/// The key of a mask of castling rights.
pub open spec fn castle_key(rights: int) -> u64 {
    key(768 + rights)
}

/// The key of an en-passant file.
pub open spec fn ep_key(file: int) -> u64 {
    key(784 + file)
}

/// The key of Black having the move.
pub open spec fn side_key() -> u64 {
    key(792)
}

/// Key number `n`, computed on the spot.
#[inline]
pub fn nth_key(n: u64) -> (r: u64)
    requires
        n < 793,
    ensures
        r == key(n as int),
{
    let step: u64 = rng::GAMMA.wrapping_mul(n + 1);
    let at: u64 = ZOBRIST_SEED.wrapping_add(step);
    proof {
        let m = 0x1_0000_0000_0000_0000int;
        let g = rng::GAMMA as int;
        let p = g * (n as int + 1);
        assert(p == (n as int + 1) * g) by (nonlinear_arith)
            requires
                p == g * (n as int + 1),
        ;
        assert(step as int == p % m);
        vstd::arithmetic::div_mod::lemma_add_mod_noop(ZOBRIST_SEED as int, p, m);
        vstd::arithmetic::div_mod::lemma_add_mod_noop(ZOBRIST_SEED as int, p % m, m);
        vstd::arithmetic::div_mod::lemma_mod_twice(p, m);
        assert(at as int == (ZOBRIST_SEED as int + p) % m);
        assert(at == rng::counter(ZOBRIST_SEED, n as int + 1));
    }
    rng::scramble(at)
}

/// All the keys that make up a position hash.
pub struct Zobrist {
    /// One key for each piece (`Piece::index`) on each square.
    pub psq: [[u64; 64]; 12],
    /// One key for each mask of castling rights.
    pub castling: [u64; 16],
    /// One key for each en-passant file.
    pub en_passant: [u64; 8],
    /// The key of Black having the move.
    pub side: u64,
}

impl Zobrist {
    /// The table holds the keys.
    pub open spec fn wf(&self) -> bool {
        &&& forall|p: int, s: int|
            0 <= p < 12 && 0 <= s < 64 ==> #[trigger] self.psq@[p]@[s] == key(64 * p + s)
        &&& forall|c: int| 0 <= c < 16 ==> #[trigger] self.castling@[c] == key(768 + c)
        &&& forall|f: int| 0 <= f < 8 ==> #[trigger] self.en_passant@[f] == key(784 + f)
        &&& self.side == side_key()
    }

    /// Generate the full key table from the fixed seed.
    pub fn new() -> (r: Zobrist)
        ensures
            r.wf(),
    {
        let mut g = SplitMix64::new(ZOBRIST_SEED);
        proof {
            rng::lemma_counter_step(ZOBRIST_SEED, 0);
        }
        let mut psq: [[u64; 64]; 12] = [[0u64; 64]; 12];
        let mut p: usize = 0;
        while p < 12
            invariant
                p <= 12,
                g.state == rng::counter(ZOBRIST_SEED, 64 * p),
                forall|q: int, s: int|
                    0 <= q < p && 0 <= s < 64 ==> #[trigger] psq@[q]@[s] == key(64 * q + s),
            decreases 12 - p,
        {
            let mut row: [u64; 64] = [0u64; 64];
            let mut s: usize = 0;
            while s < 64
                invariant
                    p < 12,
                    s <= 64,
                    g.state == rng::counter(ZOBRIST_SEED, 64 * p + s),
                    forall|t: int| 0 <= t < s ==> #[trigger] row@[t] == key(64 * p + t),
                decreases 64 - s,
            {
                proof {
                    rng::lemma_counter_step(ZOBRIST_SEED, 64 * p + s);
                }
                row[s] = g.next();
                s = s + 1;
            }
            psq[p] = row;
            p = p + 1;
        }
        let mut castling: [u64; 16] = [0u64; 16];
        let mut c: usize = 0;
        while c < 16
            invariant
                c <= 16,
                g.state == rng::counter(ZOBRIST_SEED, 768 + c),
                forall|t: int| 0 <= t < c ==> #[trigger] castling@[t] == key(768 + t),
            decreases 16 - c,
        {
            proof {
                rng::lemma_counter_step(ZOBRIST_SEED, 768 + c);
            }
            castling[c] = g.next();
            c = c + 1;
        }
        let mut en_passant: [u64; 8] = [0u64; 8];
        let mut f: usize = 0;
        while f < 8
            invariant
                f <= 8,
                g.state == rng::counter(ZOBRIST_SEED, 784 + f),
                forall|t: int| 0 <= t < f ==> #[trigger] en_passant@[t] == key(784 + t),
            decreases 8 - f,
        {
            proof {
                rng::lemma_counter_step(ZOBRIST_SEED, 784 + f);
            }
            en_passant[f] = g.next();
            f = f + 1;
        }
        proof {
            rng::lemma_counter_step(ZOBRIST_SEED, 792);
        }
        let side: u64 = g.next();
        Zobrist { psq, castling, en_passant, side }
    }

    /// The key for a given piece standing on a given square.
    #[inline]
    pub fn piece(&self, piece: Piece, sq: Square) -> (r: u64)
        requires
            self.wf(),
            sq.wf(),
        ensures
            r == piece_key(piece, sq.i()),
    {
        let row: &[u64; 64] = &self.psq[piece.index()];
        let r: u64 = row[sq.index()];
        assert(self.psq@[piece.ord()]@[sq.i()] == r);
        r
    }

    /// The key for a 4-bit mask of castling rights; higher bits are ignored.
    #[inline]
    pub fn castle(&self, rights: u8) -> (r: u64)
        requires
            self.wf(),
        ensures
            r == castle_key(rights as int % 16),
    {
        let m: u8 = rights & 0xF;
        assert(m == rights % 16) by (bit_vector)
            requires
                m == rights & 0xF,
        ;
        self.castling[m as usize]
    }

    /// The key for an en-passant file; higher bits are ignored.
    #[inline]
    pub fn ep(&self, file: u8) -> (r: u64)
        requires
            self.wf(),
        ensures
            r == ep_key(file as int % 8),
    {
        let m: u8 = file & 7;
        assert(m == file % 8) by (bit_vector)
            requires
                m == file & 7,
        ;
        self.en_passant[m as usize]
    }

    /// The side-to-move key.
    #[inline]
    pub fn side(&self) -> (r: u64)
        requires
            self.wf(),
        ensures
            r == side_key(),
    {
        self.side
    }
}

impl Default for Zobrist {
    fn default() -> (r: Zobrist)
        ensures
            r.wf(),
    {
        Zobrist::new()
    }
}

/// No two keys are equal.
pub proof fn law_keys_are_distinct(i: int, j: int)
    requires
        0 <= i < 793,
        0 <= j < 793,
        key(i) == key(j),
    ensures
        i == j,
{
    rng::law_outputs_are_distinct(ZOBRIST_SEED, i, j);
}

/// No key is zero.
pub proof fn law_keys_are_not_zero(n: int)
    requires
        0 <= n < 793,
    ensures
        key(n) != 0,
{
    if key(n) == 0 {
        // The counter reaches zero only at one far-away step.
        let zero = 0x573A_7946_D169_D846int;
        assert(rng::counter(ZOBRIST_SEED, zero) == 0);
        rng::lemma_mix_zero(rng::counter(ZOBRIST_SEED, n + 1));
        rng::law_outputs_are_distinct(ZOBRIST_SEED, n, zero - 1);
    }
}

/// Any two generated tables are the same table.
pub proof fn law_tables_are_equal(a: Zobrist, b: Zobrist)
    requires
        a.wf(),
        b.wf(),
    ensures
        forall|p: int, s: int|
            0 <= p < 12 && 0 <= s < 64 ==> #[trigger] a.psq@[p]@[s] == b.psq@[p]@[s],
        a.castling@ == b.castling@,
        a.en_passant@ == b.en_passant@,
        a.side == b.side,
{
    assert(a.castling@ =~= b.castling@);
    assert(a.en_passant@ =~= b.en_passant@);
    assert forall|p: int, s: int| 0 <= p < 12 && 0 <= s < 64 implies #[trigger] a.psq@[p]@[s]
        == b.psq@[p]@[s] by {
        assert(b.psq@[p]@[s] == key(64 * p + s));
    }
}

/// Adding a key to a hash and adding it again gives the hash back, and adding a
/// key once changes the hash.
pub proof fn law_keys_cancel(hash: u64, n: int)
    requires
        0 <= n < 793,
    ensures
        (hash ^ key(n)) ^ key(n) == hash,
        hash ^ key(n) != hash,
{
    law_keys_are_not_zero(n);
    lemma_xor(hash, key(n), 0);
}

/// Exclusive or is associative and commutative, undoes itself, and only zero
/// leaves a word unchanged.
pub proof fn lemma_xor(a: u64, b: u64, c: u64)
    ensures
        (a ^ b) ^ c == a ^ (b ^ c),
        (a ^ b) ^ c == (a ^ c) ^ b,
        (a ^ b) ^ b == a,
        a ^ b == b ^ a,
        a ^ 0 == a,
        0 ^ a == a,
        b != 0 ==> a ^ b != a,
{
    assert((a ^ b) ^ c == a ^ (b ^ c) && (a ^ b) ^ c == (a ^ c) ^ b && (a ^ b) ^ b == a && a ^ b == b
        ^ a && a ^ 0 == a && 0 ^ a == a && (b != 0 ==> a ^ b != a)) by (bit_vector);
}

} // verus!
