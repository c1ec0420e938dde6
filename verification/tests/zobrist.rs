use std::collections::HashSet;

use mythos::types::{Color, Piece, PieceType, Square};
use mythos::zobrist::Zobrist;

/// The keys must be reproducible: two independently-built tables must be
/// byte-for-byte identical, and so must the default one.
#[test]
fn determinism() {
    let a = Zobrist::new();
    let b = Zobrist::new();
    assert_eq!(a.psq, b.psq);
    assert_eq!(a.castling, b.castling);
    assert_eq!(a.en_passant, b.en_passant);
    assert_eq!(a.side, b.side);

    // The default table must match a freshly-built one too.
    let d = Zobrist::default();
    assert_eq!(d.psq, a.psq);
    assert_eq!(d.side, a.side);
}

/// Every piece-square key must be distinct and non-zero. Collisions here
/// would defeat the whole point of hashing, and a zero key would silently
/// vanish under XOR.
#[test]
fn psq_keys_distinct_and_nonzero() {
    let z = Zobrist::new();
    let mut seen = HashSet::new();
    for piece_keys in z.psq.iter() {
        for &key in piece_keys.iter() {
            assert_ne!(key, 0, "a psq key was zero");
            seen.insert(key);
        }
    }
    // 12 pieces * 64 squares = 768 keys, all unique.
    assert_eq!(seen.len(), 12 * 64);
}

/// The whole key set (psq + castling + en-passant + side) should also be
/// free of collisions.
#[test]
fn all_keys_distinct() {
    let z = Zobrist::new();
    let mut seen = HashSet::new();
    for piece_keys in z.psq.iter() {
        for &key in piece_keys.iter() {
            seen.insert(key);
        }
    }
    for &key in z.castling.iter() {
        seen.insert(key);
    }
    for &key in z.en_passant.iter() {
        seen.insert(key);
    }
    seen.insert(z.side);

    let total = 12 * 64 + 16 + 8 + 1;
    assert_eq!(seen.len(), total, "found a collision across all key tables");
}

/// The core invariant that makes incremental hashing work: XORing the same
/// key in twice cancels out, returning the hash to its original value.
#[test]
fn xor_cancellation() {
    let z = Zobrist::new();
    let piece = Piece::new(Color::White, PieceType::Knight);
    let key = z.piece(piece, Square::make(5, 2));

    // Starting from some arbitrary running hash...
    let original: u64 = 0x0123_4567_89AB_CDEF;
    let with_piece = original ^ key;
    assert_ne!(with_piece, original, "applying a key must change the hash");

    // ...applying the same key again undoes it exactly.
    let back = with_piece ^ key;
    assert_eq!(back, original);

    // Same story for the other key kinds.
    let h = original ^ z.side() ^ z.side();
    assert_eq!(h, original);
    let h = original ^ z.castle(0b1011) ^ z.castle(0b1011);
    assert_eq!(h, original);
    let h = original ^ z.ep(3) ^ z.ep(3);
    assert_eq!(h, original);
}
