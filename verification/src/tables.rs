//! The weights of the evaluation, in centipawns.
//!
//! Piece-square tables are written from a1 to h8, so a white piece reads them by
//! its square and a black piece by the square seen from the other side.

use vstd::prelude::*;

use crate::types::PieceType;

verus! {

/// Midgame material value of each kind of piece.
pub const MG_VALUE: [i32; 6] = [82, 337, 365, 477, 1025, 0];

/// Endgame material value of each kind of piece.
pub const EG_VALUE: [i32; 6] = [94, 281, 297, 512, 936, 0];

/// What each kind of piece adds to the phase.
pub const PHASE_INC: [i32; 6] = [0, 1, 1, 2, 4, 0];

/// The phase of the full starting army.
pub const MAX_PHASE: i32 = 24;

/// Midgame piece-square table of the pawn, from a1 to h8.
pub const MG_PAWN: [i32; 64] = [
    0, 0, 0, 0, 0, 0, 0, 0,
    -35, -1, -20, -23, -15, 24, 38, -22,
    -26, -4, -4, -10, 3, 3, 33, -12,
    -27, -2, -5, 12, 17, 6, 10, -25,
    -14, 13, 6, 21, 23, 12, 17, -23,
    -6, 7, 26, 31, 65, 56, 25, -20,
    98, 134, 61, 95, 68, 126, 34, -11,
    0, 0, 0, 0, 0, 0, 0, 0,
];

/// Endgame piece-square table of the pawn, from a1 to h8.
pub const EG_PAWN: [i32; 64] = [
    0, 0, 0, 0, 0, 0, 0, 0,
    13, 8, 8, 10, 13, 0, 2, -7,
    4, 7, -6, 1, 0, -5, -1, -8,
    13, 9, -3, -7, -7, -8, 3, -1,
    32, 24, 13, 5, -2, 4, 17, 17,
    94, 100, 85, 67, 56, 53, 82, 84,
    178, 173, 158, 134, 147, 132, 165, 187,
    0, 0, 0, 0, 0, 0, 0, 0,
];

/// Midgame piece-square table of the knight, from a1 to h8.
pub const MG_KNIGHT: [i32; 64] = [
    -105, -21, -58, -33, -17, -28, -19, -23,
    -29, -53, -12, -3, -1, 18, -14, -19,
    -23, -9, 12, 10, 19, 17, 25, -16,
    -13, 4, 16, 13, 28, 19, 21, -8,
    -9, 17, 19, 53, 37, 69, 18, 22,
    -47, 60, 37, 65, 84, 129, 73, 44,
    -73, -41, 72, 36, 23, 62, 7, -17,
    -167, -89, -34, -49, 61, -97, -15, -107,
];

/// Endgame piece-square table of the knight, from a1 to h8.
pub const EG_KNIGHT: [i32; 64] = [
    -29, -51, -23, -15, -22, -18, -50, -64,
    -42, -20, -10, -5, -2, -20, -23, -44,
    -23, -3, -1, 15, 10, -3, -20, -22,
    -18, -6, 16, 25, 16, 17, 4, -18,
    -17, 3, 22, 22, 22, 11, 8, -18,
    -24, -20, 10, 9, -1, -9, -19, -41,
    -25, -8, -25, -2, -9, -25, -24, -52,
    -58, -38, -13, -28, -31, -27, -63, -99,
];

/// Midgame piece-square table of the bishop, from a1 to h8.
pub const MG_BISHOP: [i32; 64] = [
    -33, -3, -14, -21, -13, -12, -39, -21,
    4, 15, 16, 0, 7, 21, 33, 1,
    0, 15, 15, 15, 14, 27, 18, 10,
    -6, 13, 13, 26, 34, 12, 10, 4,
    -4, 5, 19, 50, 37, 37, 7, -2,
    -16, 37, 43, 40, 35, 50, 37, -2,
    -26, 16, -18, -13, 30, 59, 18, -47,
    -29, 4, -82, -37, -25, -42, 7, -8,
];

/// Endgame piece-square table of the bishop, from a1 to h8.
pub const EG_BISHOP: [i32; 64] = [
    -23, -9, -23, -5, -9, -16, -5, -17,
    -14, -18, -7, -1, 4, -9, -15, -27,
    -12, -3, 8, 10, 13, 3, -7, -15,
    -6, 3, 13, 19, 7, 10, -3, -9,
    -3, 9, 12, 9, 14, 10, 3, 2,
    2, -8, 0, -1, -2, 6, 0, 4,
    -8, -4, 7, -12, -3, -13, -4, -14,
    -14, -21, -11, -8, -7, -9, -17, -24,
];

/// Midgame piece-square table of the rook, from a1 to h8.
pub const MG_ROOK: [i32; 64] = [
    -19, -13, 1, 17, 16, 7, -37, -26,
    -44, -16, -20, -9, -1, 11, -6, -71,
    -45, -25, -16, -17, 3, 0, -5, -33,
    -36, -26, -12, -1, 9, -7, 6, -23,
    -24, -11, 7, 26, 24, 35, -8, -20,
    -5, 19, 26, 36, 17, 45, 61, 16,
    27, 32, 58, 62, 80, 67, 26, 44,
    32, 42, 32, 51, 63, 9, 31, 43,
];

/// Endgame piece-square table of the rook, from a1 to h8.
pub const EG_ROOK: [i32; 64] = [
    -9, 2, 3, -1, -5, -13, 4, -20,
    -12, -8, -7, -6, -6, -7, 0, 3,
    6, -6, 0, 2, -9, -9, -11, -3,
    -4, 0, -5, -1, -7, -12, -8, -16,
    3, 5, 8, 4, -5, -6, -8, -11,
    7, 7, 7, 5, 4, -3, -5, -3,
    11, 13, 13, 11, -3, 3, 8, 3,
    13, 10, 18, 15, 12, 12, 8, 5,
];

/// Midgame piece-square table of the queen, from a1 to h8.
pub const MG_QUEEN: [i32; 64] = [
    -1, -18, -9, 10, -15, -25, -31, -50,
    -35, -8, 11, 2, 8, 15, -3, 1,
    -14, 2, -11, -2, -5, 2, 14, 5,
    -9, -26, -9, -10, -2, -4, 3, -3,
    -27, -27, -16, -16, -1, 17, -2, 1,
    -13, -17, 7, 8, 29, 56, 47, 57,
    -24, -39, -5, 1, -16, 57, 28, 54,
    -28, 0, 29, 12, 59, 44, 43, 45,
];

/// Endgame piece-square table of the queen, from a1 to h8.
pub const EG_QUEEN: [i32; 64] = [
    -33, -28, -22, -43, -5, -32, -20, -41,
    -22, -23, -30, -16, -16, -23, -36, -32,
    -16, -27, 15, 6, 9, 17, 10, 5,
    -18, 28, 19, 47, 31, 34, 39, 23,
    3, 22, 24, 45, 57, 40, 57, 36,
    -20, 6, 9, 49, 47, 35, 19, 9,
    -17, 20, 32, 41, 58, 25, 30, 0,
    -9, 22, 22, 27, 27, 19, 10, 20,
];

/// Midgame piece-square table of the king, from a1 to h8.
pub const MG_KING: [i32; 64] = [
    -15, 36, 12, -54, 8, -28, 24, 14,
    1, 7, -8, -64, -43, -16, 9, 8,
    -14, -14, -22, -46, -44, -30, -15, -27,
    -49, -1, -27, -39, -46, -44, -33, -51,
    -17, -20, -12, -27, -30, -25, -14, -36,
    -9, 24, 2, -16, -20, 6, 22, -22,
    29, -1, -20, -7, -8, -4, -38, -29,
    -65, 23, 16, -15, -56, -34, 2, 13,
];

/// Endgame piece-square table of the king, from a1 to h8.
pub const EG_KING: [i32; 64] = [
    -53, -34, -21, -11, -28, -14, -24, -43,
    -27, -11, 4, 13, 14, 4, -5, -17,
    -19, -3, 11, 21, 23, 16, 7, -9,
    -18, -4, 21, 24, 27, 23, 9, -11,
    -8, 22, 24, 27, 26, 33, 26, 3,
    10, 17, 23, 15, 20, 45, 44, 13,
    -12, 17, 14, 17, 17, 38, 23, 11,
    -74, -35, -18, -18, -11, 15, 4, -17,
];

/// Midgame mobility bonus of a knight by its number of safe squares.
pub const MG_KNIGHT_MOB: [i32; 9] = [
    -30, -20, -10, 0, 8, 14, 18, 22, 26,
];

/// Endgame mobility bonus of a knight by its number of safe squares.
pub const EG_KNIGHT_MOB: [i32; 9] = [
    -30, -20, -10, 0, 6, 11, 15, 18, 21,
];

/// Midgame mobility bonus of a bishop by its number of safe squares.
pub const MG_BISHOP_MOB: [i32; 14] = [
    -25, -12, 0, 8, 14, 19, 23, 26, 29, 31,
    33, 35, 37, 39,
];

/// Endgame mobility bonus of a bishop by its number of safe squares.
pub const EG_BISHOP_MOB: [i32; 14] = [
    -25, -12, 0, 7, 13, 18, 22, 25, 28, 30,
    32, 34, 36, 38,
];

/// Midgame mobility bonus of a rook by its number of safe squares.
pub const MG_ROOK_MOB: [i32; 15] = [
    -20, -10, 0, 4, 7, 10, 13, 16, 18, 20,
    22, 23, 24, 25, 26,
];

/// Endgame mobility bonus of a rook by its number of safe squares.
pub const EG_ROOK_MOB: [i32; 15] = [
    -30, -15, 0, 8, 15, 21, 26, 30, 34, 37,
    40, 42, 44, 45, 46,
];

/// Midgame mobility bonus of a queen by its number of safe squares.
pub const MG_QUEEN_MOB: [i32; 28] = [
    -15, -10, -5, 0, 3, 6, 8, 10, 12, 13,
    14, 15, 16, 17, 18, 19, 20, 21, 22, 23,
    24, 25, 25, 26, 26, 27, 27, 28,
];

/// Endgame mobility bonus of a queen by its number of safe squares.
pub const EG_QUEEN_MOB: [i32; 28] = [
    -20, -13, -7, 0, 5, 9, 13, 16, 19, 22,
    24, 26, 28, 30, 32, 34, 35, 37, 38, 40,
    41, 42, 43, 44, 45, 46, 47, 48,
];

/// Endgame bonus of a passed pawn by the ranks it has advanced.
pub const EG_PASSED_PAWN: [i32; 8] = [0, 10, 17, 15, 35, 75, 175, 0];

/// Midgame bonus of a passed pawn by the ranks it has advanced.
pub const MG_PASSED_PAWN: [i32; 8] = [0, 5, 8, 10, 20, 40, 65, 0];

/// Midgame and endgame penalty for each further pawn on a file.
pub const DOUBLED_PAWN: [i32; 2] = [-10, -20];

/// Midgame and endgame penalty of a pawn without neighbours.
pub const ISOLATED_PAWN: [i32; 2] = [-5, -15];

/// Midgame and endgame penalty of a backward pawn.
pub const BACKWARD_PAWN: [i32; 2] = [-8, -10];

/// Midgame and endgame bonus of holding both bishops.
pub const BISHOP_PAIR: [i32; 2] = [25, 40];

/// Midgame and endgame bonus of a rook on a file without pawns.
pub const ROOK_OPEN_FILE: [i32; 2] = [25, 10];

/// Midgame and endgame bonus of a rook on a file without own pawns.
pub const ROOK_SEMI_OPEN_FILE: [i32; 2] = [12, 6];

/// Midgame bonus of each pawn that shields the king.
pub const KING_SHIELD: i32 = 9;

/// Weight of each kind of piece that attacks the king's surroundings.
pub const KING_ATTACK_WEIGHT: [i32; 6] = [0, 2, 2, 3, 5, 0];

/// Midgame penalty by the summed weight of the attackers.
pub const KING_SAFETY_TABLE: [i32; 30] = [
    0, 0, 4, 8, 14, 22, 32, 44, 58, 74,
    92, 112, 134, 158, 184, 212, 242, 274, 308, 344,
    382, 400, 416, 430, 442, 452, 460, 466, 470, 472,
];

/// Midgame bonus of having the move.
pub const TEMPO_MG: i32 = 10;

/// Endgame bonus of having the move.
pub const TEMPO_EG: i32 = 5;

/// A piece-square table entry, midgame.
pub open spec fn mg_pst(pt: PieceType, i: int) -> int {
    match pt {
        PieceType::Pawn => MG_PAWN@[i] as int,
        PieceType::Knight => MG_KNIGHT@[i] as int,
        PieceType::Bishop => MG_BISHOP@[i] as int,
        PieceType::Rook => MG_ROOK@[i] as int,
        PieceType::Queen => MG_QUEEN@[i] as int,
        PieceType::King => MG_KING@[i] as int,
    }
}

/// A piece-square table entry, endgame.
pub open spec fn eg_pst(pt: PieceType, i: int) -> int {
    match pt {
        PieceType::Pawn => EG_PAWN@[i] as int,
        PieceType::Knight => EG_KNIGHT@[i] as int,
        PieceType::Bishop => EG_BISHOP@[i] as int,
        PieceType::Rook => EG_ROOK@[i] as int,
        PieceType::Queen => EG_QUEEN@[i] as int,
        PieceType::King => EG_KING@[i] as int,
    }
}

/// The entries of the piece-square tables are small.
#[verifier::rlimit(30)]
pub proof fn lemma_pst_bound(pt: PieceType, i: int)
    requires
        0 <= i < 64,
    ensures
        -200 <= mg_pst(pt, i) <= 200,
        -200 <= eg_pst(pt, i) <= 200,
{
    match pt {
        PieceType::Pawn => {
            assert(-200 <= MG_PAWN@[i] <= 200 && -200 <= EG_PAWN@[i] <= 200);
        },
        PieceType::Knight => {
            assert(-200 <= MG_KNIGHT@[i] <= 200 && -200 <= EG_KNIGHT@[i] <= 200);
        },
        PieceType::Bishop => {
            assert(-200 <= MG_BISHOP@[i] <= 200 && -200 <= EG_BISHOP@[i] <= 200);
        },
        PieceType::Rook => {
            assert(-200 <= MG_ROOK@[i] <= 200 && -200 <= EG_ROOK@[i] <= 200);
        },
        PieceType::Queen => {
            assert(-200 <= MG_QUEEN@[i] <= 200 && -200 <= EG_QUEEN@[i] <= 200);
        },
        PieceType::King => {
            assert(-200 <= MG_KING@[i] <= 200 && -200 <= EG_KING@[i] <= 200);
        },
    }
}

/// No piece is worth more than a queen on a good square, or much less than nothing.
#[verifier::rlimit(30)]
pub proof fn lemma_worth_bound(pt: PieceType, i: int)
    requires
        0 <= i < 64,
    ensures
        -100 <= MG_VALUE@[pt.ord()] + mg_pst(pt, i) <= 1100,
        -100 <= EG_VALUE@[pt.ord()] + eg_pst(pt, i) <= 1100,
{
    lemma_pst_bound(pt, i);
    match pt {
        PieceType::Pawn => {
            assert(-100 <= MG_PAWN@[i] && -100 <= EG_PAWN@[i]);
        },
        PieceType::Queen => {
            assert(MG_QUEEN@[i] <= 75 && EG_QUEEN@[i] <= 75);
        },
        PieceType::King => {
            assert(-100 <= MG_KING@[i] && -100 <= EG_KING@[i]);
        },
        _ => {},
    }
}

/// The piece-square table entries of a kind of piece.
#[inline]
pub fn pst(pt: PieceType, i: usize) -> (r: (i32, i32))
    requires
        i < 64,
    ensures
        r.0 == mg_pst(pt, i as int),
        r.1 == eg_pst(pt, i as int),
{
    match pt {
        PieceType::Pawn => (MG_PAWN[i], EG_PAWN[i]),
        PieceType::Knight => (MG_KNIGHT[i], EG_KNIGHT[i]),
        PieceType::Bishop => (MG_BISHOP[i], EG_BISHOP[i]),
        PieceType::Rook => (MG_ROOK[i], EG_ROOK[i]),
        PieceType::Queen => (MG_QUEEN[i], EG_QUEEN[i]),
        PieceType::King => (MG_KING[i], EG_KING[i]),
    }
}

} // verus!
