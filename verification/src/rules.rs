//! The rules of chess, stated over a mathematical model of a position.

use vstd::prelude::*;

use crate::attacks;
use crate::attacks::{between, diagonal, king_hits, knight_hits, pawn_hits, straight};
use crate::bits::on;
use crate::types::{Color, Move, MoveType, Piece, PieceType, Square, file, rank, rel_rank};
use crate::zobrist::{castle_key, ep_key, key, lemma_xor, piece_key, side_key};

verus! {

/// Who may still castle on which side.
#[derive(Clone, Copy, PartialEq, Eq, Structural, Debug, Hash)]
pub struct Rights {
    pub white_king: bool,
    pub white_queen: bool,
    pub black_king: bool,
    pub black_queen: bool,
}

impl Rights {
    /// The rights as a number below sixteen.
    pub open spec fn mask(self) -> int {
        (if self.white_king {
            1int
        } else {
            0
        }) + (if self.white_queen {
            2int
        } else {
            0
        }) + (if self.black_king {
            4int
        } else {
            0
        }) + (if self.black_queen {
            8int
        } else {
            0
        })
    }

    /// The rights as a number below sixteen.
    pub fn bits(self) -> (r: u8)
        ensures
            r == self.mask(),
            r < 16,
    {
        (if self.white_king {
            1u8
        } else {
            0
        }) + (if self.white_queen {
            2u8
        } else {
            0
        }) + (if self.black_king {
            4u8
        } else {
            0
        }) + (if self.black_queen {
            8u8
        } else {
            0
        })
    }

    /// The right of one player on the king's side or the queen's side.
    pub open spec fn allows(self, c: Color, kingside: bool) -> bool {
        match c {
            Color::White => if kingside {
                self.white_king
            } else {
                self.white_queen
            },
            Color::Black => if kingside {
                self.black_king
            } else {
                self.black_queen
            },
        }
    }

    /// What is left of the rights once something left or reached square `s`.
    pub open spec fn touched(self, s: int) -> Rights {
        Rights {
            white_king: self.white_king && s != 4 && s != 7,
            white_queen: self.white_queen && s != 4 && s != 0,
            black_king: self.black_king && s != 60 && s != 63,
            black_queen: self.black_queen && s != 60 && s != 56,
        }
    }

    /// What is left of the rights once something left or reached square `s`.
    #[inline]
    pub fn touch(self, s: usize) -> (r: Rights)
        ensures
            r == self.touched(s as int),
    {
        Rights {
            white_king: self.white_king && s != 4 && s != 7,
            white_queen: self.white_queen && s != 4 && s != 0,
            black_king: self.black_king && s != 60 && s != 63,
            black_queen: self.black_queen && s != 60 && s != 56,
        }
    }
}

/// A position: what stands where, who is to move, and what the history left
/// behind.
#[verifier::ext_equal]
pub struct PosView {
    /// The sixty-four squares.
    pub board: Seq<Option<Piece>>,
    pub side: Color,
    pub rights: Rights,
    /// The square that a pawn has just passed over in a double step.
    pub ep: Option<Square>,
    /// Half-moves since the last capture or pawn move.
    pub half: u32,
    /// The number of the move in the game.
    pub full: u32,
}

pub open spec fn piece(c: Color, pt: PieceType) -> Piece {
    Piece { color: c, piece_type: pt }
}

/// Square `s` holds the given piece.
pub open spec fn holds(b: Seq<Option<Piece>>, s: int, c: Color, pt: PieceType) -> bool {
    0 <= s < 64 && b[s] == Some(piece(c, pt))
}

/// Square `s` holds a piece of color `c`.
pub open spec fn owned(b: Seq<Option<Piece>>, s: int, c: Color) -> bool {
    0 <= s < 64 && b[s] is Some && b[s]->0.color == c
}

/// Player `c` has exactly one king.
pub open spec fn one_king(b: Seq<Option<Piece>>, c: Color) -> bool {
    &&& exists|k: int| #[trigger] holds(b, k, c, PieceType::King)
    &&& forall|j: int, k: int| #[trigger]
        holds(b, j, c, PieceType::King) && #[trigger] holds(b, k, c, PieceType::King) ==> j == k
}

/// Where the king of player `c` stands.
pub open spec fn king_sq(b: Seq<Option<Piece>>, c: Color) -> int {
    choose|k: int| #[trigger] holds(b, k, c, PieceType::King)
}

impl PosView {
    pub open spec fn wf(self) -> bool {
        &&& self.board.len() == 64
        &&& one_king(self.board, Color::White)
        &&& one_king(self.board, Color::Black)
        &&& self.ep is Some ==> self.ep->0.wf()
    }
}

// ---------------------------------------------------------------------------
// Attacks.
// ---------------------------------------------------------------------------

/// No piece stands between `s` and `t`.
pub open spec fn open_line(b: Seq<Option<Piece>>, s: int, t: int) -> bool {
    forall|u: int| 0 <= u < 64 && #[trigger] between(s, u, t) ==> b[u] is None
}

/// The piece `p` on `s` attacks `t`.
pub open spec fn reach(b: Seq<Option<Piece>>, p: Piece, s: int, t: int) -> bool {
    match p.piece_type {
        PieceType::Pawn => pawn_hits(p.color, s, t),
        PieceType::Knight => knight_hits(s, t),
        PieceType::Bishop => diagonal(s, t) && open_line(b, s, t),
        PieceType::Rook => straight(s, t) && open_line(b, s, t),
        PieceType::Queen => (straight(s, t) || diagonal(s, t)) && open_line(b, s, t),
        PieceType::King => king_hits(s, t),
    }
}

/// A piece of player `by` stands on `s` and attacks `t`.
pub open spec fn attacks_from(b: Seq<Option<Piece>>, by: Color, s: int, t: int) -> bool {
    owned(b, s, by) && reach(b, b[s]->0, s, t)
}

/// Player `by` attacks square `t`.
pub open spec fn attacked(b: Seq<Option<Piece>>, t: int, by: Color) -> bool {
    exists|s: int| #[trigger] attacks_from(b, by, s, t)
}

/// The king of player `c` is attacked.
pub open spec fn checked(b: Seq<Option<Piece>>, c: Color) -> bool {
    attacked(b, king_sq(b, c), c.other())
}

impl PosView {
    /// The player to move is in check.
    pub open spec fn in_check(self) -> bool {
        checked(self.board, self.side)
    }
}

/// The word `occ` marks the occupied squares.
pub open spec fn occupied_by(b: Seq<Option<Piece>>, occ: u64) -> bool {
    forall|u: int| 0 <= u < 64 ==> #[trigger] on(occ, u) == (b[u] is Some)
}

/// Attacks on a board are the attacks over the word of its occupied squares.
pub proof fn lemma_reach_word(b: Seq<Option<Piece>>, occ: u64, p: Piece, s: int, t: int)
    requires
        occupied_by(b, occ),
    ensures
        reach(b, p, s, t) == (if p.piece_type == PieceType::Pawn {
            pawn_hits(p.color, s, t)
        } else {
            attacks::piece_hits(p.piece_type, occ, s, t)
        }),
{
    assert(open_line(b, s, t) == attacks::clear(occ, s, t)) by {
        if open_line(b, s, t) {
            assert forall|u: int| 0 <= u < 64 && #[trigger] between(s, u, t) implies !on(occ, u) by {
                assert(b[u] is None);
            }
        }
        if attacks::clear(occ, s, t) {
            assert forall|u: int| 0 <= u < 64 && #[trigger] between(s, u, t) implies b[u] is None by {
                assert(!on(occ, u));
            }
        }
    }
}

// ---------------------------------------------------------------------------
// Making a move.
// ---------------------------------------------------------------------------

pub open spec fn bump(n: u32) -> u32 {
    if n == u32::MAX {
        n
    } else {
        (n + 1) as u32
    }
}

/// The square of the pawn that an en-passant capture by `c` onto `to` removes.
pub open spec fn ep_victim(c: Color, to: int) -> int {
    to - 8 * c.forward()
}

/// Where the rook ends up when the king castles.
pub open spec fn rook_lands(m: Move) -> int {
    if file(m.to.i()) > file(m.from.i()) {
        8 * rank(m.from.i()) + 5
    } else {
        8 * rank(m.from.i()) + 3
    }
}

/// The board after the move `m` of player `us`.
pub open spec fn moved(b: Seq<Option<Piece>>, us: Color, m: Move) -> Seq<Option<Piece>> {
    let from = m.from.i();
    let to = m.to.i();
    match m.kind {
        MoveType::Normal => b.update(from, None).update(to, b[from]),
        MoveType::Promotion => b.update(from, None).update(to, Some(piece(us, m.promo))),
        MoveType::EnPassant => b.update(from, None).update(ep_victim(us, to), None).update(
            to,
            b[from],
        ),
        MoveType::Castling => b.update(from, None).update(to, None).update(m.lands(), b[from]).update(
            rook_lands(m),
            b[to],
        ),
    }
}

/// The move captures something or moves a pawn.
pub open spec fn zeroing(b: Seq<Option<Piece>>, m: Move) -> bool {
    ||| b[m.from.i()] is Some && b[m.from.i()]->0.piece_type == PieceType::Pawn
    ||| m.kind != MoveType::Castling && b[m.to.i()] is Some
}

/// The square passed over by a double step of a pawn.
pub open spec fn new_ep(b: Seq<Option<Piece>>, m: Move) -> Option<Square> {
    if m.kind == MoveType::Normal && b[m.from.i()] is Some && b[m.from.i()]->0.piece_type
        == PieceType::Pawn && rank(m.to.i()) - rank(m.from.i()) == 2 {
        Some(Square((m.from.i() + 8) as u8))
    } else if m.kind == MoveType::Normal && b[m.from.i()] is Some && b[m.from.i()]->0.piece_type
        == PieceType::Pawn && rank(m.from.i()) - rank(m.to.i()) == 2 {
        Some(Square((m.from.i() - 8) as u8))
    } else {
        None
    }
}

/// The position after a move.
pub open spec fn apply(v: PosView, m: Move) -> PosView {
    PosView {
        board: moved(v.board, v.side, m),
        side: v.side.other(),
        rights: v.rights.touched(m.from.i()).touched(m.to.i()),
        ep: new_ep(v.board, m),
        half: if zeroing(v.board, m) {
            0
        } else {
            bump(v.half)
        },
        full: if v.side == Color::Black {
            bump(v.full)
        } else {
            v.full
        },
    }
}

/// The position after passing.
pub open spec fn pass(v: PosView) -> PosView {
    PosView {
        board: v.board,
        side: v.side.other(),
        rights: v.rights,
        ep: None,
        half: bump(v.half),
        full: if v.side == Color::Black {
            bump(v.full)
        } else {
            v.full
        },
    }
}

// ---------------------------------------------------------------------------
// Which moves there are.
// ---------------------------------------------------------------------------

/// A piece may come to stand on `to`: neither an own piece nor a king is there.
pub open spec fn landable(b: Seq<Option<Piece>>, us: Color, to: int) -> bool {
    0 <= to < 64 && (b[to] is None || (b[to]->0.color != us && b[to]->0.piece_type
        != PieceType::King))
}

/// A pawn of `us` on `from` may step or capture onto `to`.
pub open spec fn pawn_goes(b: Seq<Option<Piece>>, us: Color, from: int, to: int) -> bool {
    ||| to == from + 8 * us.forward() && b[to] is None
    ||| to == from + 16 * us.forward() && rel_rank(us, from) == 1 && b[from + 8 * us.forward()] is None
        && b[to] is None
    ||| pawn_hits(us, from, to) && b[to] is Some && landable(b, us, to)
}

pub open spec fn promotable(pt: PieceType) -> bool {
    pt == PieceType::Knight || pt == PieceType::Bishop || pt == PieceType::Rook || pt
        == PieceType::Queen
}

pub open spec fn king_home(c: Color) -> int {
    match c {
        Color::White => 4,
        Color::Black => 60,
    }
}

pub open spec fn rook_home(c: Color, kingside: bool) -> int {
    if kingside {
        king_home(c) + 3
    } else {
        king_home(c) - 4
    }
}

/// Castling is possible: the right is there, king and rook are at home with
/// nothing between them, and the king neither starts from, passes over nor
/// reaches an attacked square.
pub open spec fn may_castle(v: PosView, kingside: bool) -> bool {
    let us = v.side;
    let k = king_home(us);
    let r = rook_home(us, kingside);
    &&& v.rights.allows(us, kingside)
    &&& holds(v.board, k, us, PieceType::King)
    &&& holds(v.board, r, us, PieceType::Rook)
    &&& open_line(v.board, k, r)
    &&& !attacked(v.board, k, us.other())
    &&& !attacked(v.board, if kingside {
        k + 1
    } else {
        k - 1
    }, us.other())
    &&& !attacked(v.board, if kingside {
        k + 2
    } else {
        k - 2
    }, us.other())
}

/// The move obeys the way the pieces move, whether or not it leaves the own king
/// in check.
pub open spec fn pseudo(v: PosView, m: Move) -> bool {
    let us = v.side;
    let b = v.board;
    let from = m.from.i();
    let to = m.to.i();
    &&& m.wf()
    &&& owned(b, from, us)
    &&& match m.kind {
        MoveType::Normal => {
            &&& m.promo == PieceType::Knight
            &&& landable(b, us, to)
            &&& if b[from]->0.piece_type == PieceType::Pawn {
                pawn_goes(b, us, from, to) && rel_rank(us, to) != 7
            } else {
                reach(b, b[from]->0, from, to)
            }
        },
        MoveType::Promotion => {
            &&& promotable(m.promo)
            &&& landable(b, us, to)
            &&& b[from]->0.piece_type == PieceType::Pawn
            &&& pawn_goes(b, us, from, to)
            &&& rel_rank(us, to) == 7
        },
        MoveType::EnPassant => {
            &&& m.promo == PieceType::Knight
            &&& b[from]->0.piece_type == PieceType::Pawn
            &&& v.ep == Some(m.to)
            &&& pawn_hits(us, from, to)
            &&& b[to] is None
            &&& holds(b, ep_victim(us, to), us.other(), PieceType::Pawn)
        },
        MoveType::Castling => {
            &&& m.promo == PieceType::Knight
            &&& from == king_home(us)
            &&& to == rook_home(us, to > from)
            &&& may_castle(v, to > from)
        },
    }
}

/// A legal move: one that does not leave the own king in check.
pub open spec fn legal(v: PosView, m: Move) -> bool {
    pseudo(v, m) && !checked(moved(v.board, v.side, m), v.side)
}

/// The player to move has no legal move.
pub open spec fn stuck(v: PosView) -> bool {
    forall|m: Move| !#[trigger] legal(v, m)
}

// ---------------------------------------------------------------------------
// What a move keeps.
// ---------------------------------------------------------------------------

/// Finding the king: the square that holds it is the king's square.
pub proof fn lemma_king(b: Seq<Option<Piece>>, c: Color, k: int)
    requires
        one_king(b, c),
        holds(b, k, c, PieceType::King),
    ensures
        king_sq(b, c) == k,
{
    assert(holds(b, king_sq(b, c), c, PieceType::King));
}

/// The king's square holds the king.
pub proof fn lemma_king_held(b: Seq<Option<Piece>>, c: Color)
    requires
        one_king(b, c),
    ensures
        holds(b, king_sq(b, c), c, PieceType::King),
        0 <= king_sq(b, c) < 64,
{
    assert(holds(b, king_sq(b, c), c, PieceType::King));
}

/// Making a move leaves each player with one king.
pub proof fn lemma_apply_wf(v: PosView, m: Move)
    requires
        v.wf(),
        pseudo(v, m),
    ensures
        apply(v, m).wf(),
{
    let b = v.board;
    let us = v.side;
    let nb = moved(b, us, m);
    let from = m.from.i();
    let to = m.to.i();
    lemma_king_held(b, us);
    lemma_king_held(b, us.other());
    let k = king_sq(b, us);
    let e = king_sq(b, us.other());
    if m.kind == MoveType::Castling {
        assert(between(from, m.lands(), to));
        assert(between(from, rook_lands(m), to));
        assert(b[m.lands()] is None && b[rook_lands(m)] is None);
    }
    // The enemy king stays.
    assert(holds(nb, e, us.other(), PieceType::King));
    assert forall|i: int, j: int| #[trigger]
        holds(nb, i, us.other(), PieceType::King) && #[trigger] holds(
            nb,
            j,
            us.other(),
            PieceType::King,
        ) implies i == j by {
        assert(holds(b, i, us.other(), PieceType::King));
        assert(holds(b, j, us.other(), PieceType::King));
    }
    // The own king stays or is the piece that moves.
    let nk = if from == k {
        m.lands()
    } else {
        k
    };
    if from == k {
        assert(holds(b, from, us, PieceType::King));
    }
    assert(b[from]->0.piece_type == PieceType::King ==> from == k) by {
        if b[from]->0.piece_type == PieceType::King {
            assert(holds(b, from, us, PieceType::King));
        }
    }
    assert(holds(nb, nk, us, PieceType::King));
    assert forall|i: int| #[trigger] holds(nb, i, us, PieceType::King) implies i == nk by {
        if i != nk {
            if holds(b, i, us, PieceType::King) {
                assert(i == k);
            }
        }
    }
    assert(one_king(nb, us));
    assert(one_king(nb, us.other()));
}

/// Passing keeps the position well formed.
pub proof fn law_passing_keeps_positions_sound(v: PosView)
    requires
        v.wf(),
    ensures
        pass(v).wf(),
{
}

// ---------------------------------------------------------------------------
// The hash of a position.
// ---------------------------------------------------------------------------

/// The contribution of one square.
pub open spec fn square_hash(p: Option<Piece>, s: int) -> u64 {
    match p {
        Some(q) => piece_key(q, s),
        None => 0,
    }
}

/// The contribution of the first `n` squares.
pub open spec fn board_hash(b: Seq<Option<Piece>>, n: int) -> u64
    decreases n,
{
    if n <= 0 {
        0
    } else {
        board_hash(b, n - 1) ^ square_hash(b[n - 1], n - 1)
    }
}

pub open spec fn ep_hash(ep: Option<Square>) -> u64 {
    match ep {
        Some(s) => ep_key(file(s.i())),
        None => 0,
    }
}

pub open spec fn side_hash(c: Color) -> u64 {
    match c {
        Color::White => 0,
        Color::Black => side_key(),
    }
}

/// The hash of a position: the keys of all its features combined.
pub open spec fn hash(v: PosView) -> u64 {
    ((board_hash(v.board, 64) ^ castle_key(v.rights.mask())) ^ ep_hash(v.ep)) ^ side_hash(v.side)
}

/// Changing one square changes the hash by the two contributions of that square.
pub proof fn lemma_board_hash_update(b: Seq<Option<Piece>>, n: int, i: int, p: Option<Piece>)
    requires
        0 <= i < b.len(),
        0 <= n <= b.len(),
    ensures
        i < n ==> board_hash(b.update(i, p), n) == (board_hash(b, n) ^ square_hash(b[i], i))
            ^ square_hash(p, i),
        i >= n ==> board_hash(b.update(i, p), n) == board_hash(b, n),
    decreases n,
{
    if n > 0 {
        lemma_board_hash_update(b, n - 1, i, p);
        let h = board_hash(b, n - 1);
        let x = square_hash(b[i], i);
        let y = square_hash(p, i);
        let z = square_hash(b[n - 1], n - 1);
        if i < n - 1 {
            assert(b.update(i, p)[n - 1] == b[n - 1]);
            lemma_xor(h, x, y);
            lemma_xor(h ^ x, y, z);
            lemma_xor(h, x, z);
        } else if i == n - 1 {
            lemma_xor(h, x, y);
        }
    }
}

/// Replacing one part of a hash.
pub proof fn lemma_hash_parts(b: u64, c: u64, e: u64, s: u64, x: u64)
    ensures
        (((((b ^ c) ^ e) ^ s) ^ b) ^ x) == ((x ^ c) ^ e) ^ s,
        (((((b ^ c) ^ e) ^ s) ^ c) ^ x) == ((b ^ x) ^ e) ^ s,
        (((((b ^ c) ^ e) ^ s) ^ e) ^ x) == ((b ^ c) ^ x) ^ s,
        (((((b ^ c) ^ e) ^ s) ^ s) ^ x) == ((b ^ c) ^ e) ^ x,
        (((b ^ c) ^ e) ^ s) ^ x == (((b ^ x) ^ c) ^ e) ^ s,
{
    assert((((((b ^ c) ^ e) ^ s) ^ b) ^ x) == ((x ^ c) ^ e) ^ s && (((((b ^ c) ^ e) ^ s) ^ c) ^ x)
        == ((b ^ x) ^ e) ^ s && (((((b ^ c) ^ e) ^ s) ^ e) ^ x) == ((b ^ c) ^ x) ^ s && (((((b ^ c)
        ^ e) ^ s) ^ s) ^ x) == ((b ^ c) ^ e) ^ x && (((b ^ c) ^ e) ^ s) ^ x == (((b ^ x) ^ c) ^ e)
        ^ s) by (bit_vector);
}

/// The hash tells positions by their pieces, the player to move, the castling rights and
/// the file of an en-passant square; the clocks do not matter.
pub proof fn law_hashes_ignore_the_clocks(v: PosView, half: u32, full: u32)
    ensures
        hash(PosView { half, full, ..v }) == hash(v),
{
}

/// Passing the move changes the hash by one key, and changes it indeed.
pub proof fn law_hashes_tell_the_player(v: PosView)
    requires
        v.side == Color::White,
    ensures
        hash(PosView { side: Color::Black, ..v }) == hash(v) ^ key(792),
        hash(PosView { side: Color::Black, ..v }) != hash(v),
{
    let h = (board_hash(v.board, 64) ^ castle_key(v.rights.mask())) ^ ep_hash(v.ep);
    crate::zobrist::lemma_xor(h, side_key(), 0);
    crate::zobrist::law_keys_are_not_zero(792);
}

/// A piece that leaves its square changes the hash by the key of that piece on that square.
pub proof fn law_hashes_tell_the_pieces(v: PosView, s: int)
    requires
        v.board.len() == 64,
        0 <= s < 64,
        v.board[s] is Some,
    ensures
        hash(PosView { board: v.board.update(s, None), ..v }) == hash(v) ^ key(
            64 * v.board[s]->0.ord() + s,
        ),
        hash(PosView { board: v.board.update(s, None), ..v }) != hash(v),
{
    let k = square_hash(v.board[s], s);
    let h = board_hash(v.board, 64);
    let c = castle_key(v.rights.mask());
    let e = ep_hash(v.ep);
    let t = side_hash(v.side);
    lemma_board_hash_update(v.board, 64, s, None);
    crate::zobrist::lemma_xor(h, k, 0);
    lemma_hash_parts(h, c, e, t, k);
    let ord = v.board[s]->0.ord();
    assert(0 <= ord < 12);
    crate::zobrist::law_keys_are_not_zero(64 * ord + s);
    crate::zobrist::lemma_xor(((h ^ c) ^ e) ^ t, k, 0);
}

/// Different castling rights give different hashes.
pub proof fn law_hashes_tell_the_rights(v: PosView, r: Rights)
    requires
        r != v.rights,
    ensures
        hash(PosView { rights: r, ..v }) != hash(v),
{
    let h = board_hash(v.board, 64);
    let a = castle_key(v.rights.mask());
    let b = castle_key(r.mask());
    let e = ep_hash(v.ep);
    let t = side_hash(v.side);
    assert(0 <= r.mask() < 16 && 0 <= v.rights.mask() < 16);
    assert(r.mask() != v.rights.mask());
    if a == b {
        crate::zobrist::law_keys_are_distinct(768 + r.mask(), 768 + v.rights.mask());
    }
    if ((h ^ a) ^ e) ^ t == ((h ^ b) ^ e) ^ t {
        crate::zobrist::lemma_xor((h ^ a) ^ e, t, 0);
        crate::zobrist::lemma_xor((h ^ b) ^ e, t, 0);
        crate::zobrist::lemma_xor(h ^ a, e, 0);
        crate::zobrist::lemma_xor(h ^ b, e, 0);
        crate::zobrist::lemma_xor(a, h, 0);
        crate::zobrist::lemma_xor(b, h, 0);
        crate::zobrist::lemma_xor(h, a, 0);
        crate::zobrist::lemma_xor(h, b, 0);
    }
}

/// A move carries its piece to its square; a promotion puts the new piece there, an
/// en-passant capture removes the pawn beside, and castling puts the king two squares off
/// and the rook beyond it.  Other squares stay as they are.
pub proof fn law_moves_carry_pieces(v: PosView, m: Move, s: int)
    requires
        v.board.len() == 64,
        pseudo(v, m),
        0 <= s < 64,
    ensures
        ({
            let b = apply(v, m).board;
            let from = m.from.i();
            let to = m.to.i();
            &&& b.len() == 64
            &&& m.kind == MoveType::Normal ==> b[from] is None && b[to] == v.board[from] && (s
                != from && s != to ==> b[s] == v.board[s])
            &&& m.kind == MoveType::Promotion ==> b[from] is None && b[to] == Some(
                piece(v.side, m.promo),
            ) && (s != from && s != to ==> b[s] == v.board[s])
            &&& m.kind == MoveType::EnPassant ==> {
                let beside = 8 * (from / 8) + to % 8;
                &&& b[from] is None && b[to] == v.board[from] && b[beside] is None
                &&& s != from && s != to && s != beside ==> b[s] == v.board[s]
            }
            &&& m.kind == MoveType::Castling && to > from ==> {
                &&& b[from] is None && b[from + 3] is None
                &&& b[from + 2] == v.board[from] && b[from + 1] == v.board[from + 3]
                &&& s < from || s > from + 3 ==> b[s] == v.board[s]
            }
            &&& m.kind == MoveType::Castling && to < from ==> {
                &&& b[from] is None && b[from - 4] is None
                &&& b[from - 2] == v.board[from] && b[from - 1] == v.board[from - 4]
                &&& s > from || s < from - 4 || s == from - 3 ==> b[s] == v.board[s]
            }
        }),
{
}

/// After a move the other player is to move.  The clock of quiet plies starts again at a
/// capture or a pawn move and counts on otherwise; a move of Black ends the full move.
pub proof fn law_clocks_count(v: PosView, m: Move)
    requires
        pseudo(v, m),
        v.half < u32::MAX,
        v.full < u32::MAX,
    ensures
        apply(v, m).side != v.side,
        v.board[m.from.i()]->0.piece_type == PieceType::Pawn ==> apply(v, m).half == 0,
        m.kind == MoveType::Normal && v.board[m.to.i()] is Some ==> apply(v, m).half == 0,
        v.board[m.from.i()]->0.piece_type != PieceType::Pawn && (m.kind == MoveType::Castling
            || v.board[m.to.i()] is None) ==> apply(v, m).half == v.half + 1,
        v.side == Color::White ==> apply(v, m).full == v.full,
        v.side == Color::Black ==> apply(v, m).full == v.full + 1,
{
}

/// Castling rights are lost when the king or the rook leaves its square or the rook is
/// taken there, and never come back.
pub proof fn law_rights_are_lost(v: PosView, m: Move, c: Color, kingside: bool)
    ensures
        ({
            let king = if c == Color::White {
                4int
            } else {
                60
            };
            let rook = if kingside {
                king + 3
            } else {
                king - 4
            };
            let gone = m.from.i() == king || m.from.i() == rook || m.to.i() == king || m.to.i()
                == rook;
            apply(v, m).rights.allows(c, kingside) == (v.rights.allows(c, kingside) && !gone)
        }),
{
}

/// Only a double step of a pawn leaves a square for an en-passant capture: the one that it
/// passed over.
pub proof fn law_double_steps_can_be_taken(v: PosView, m: Move)
    requires
        pseudo(v, m),
    ensures
        m.kind == MoveType::Normal && v.board[m.from.i()]->0.piece_type == PieceType::Pawn && m.to.i()
            - m.from.i() == 16 ==> apply(v, m).ep is Some && apply(v, m).ep->0.i() == m.from.i() + 8,
        m.kind == MoveType::Normal && v.board[m.from.i()]->0.piece_type == PieceType::Pawn
            && m.from.i() - m.to.i() == 16 ==> apply(v, m).ep is Some && apply(v, m).ep->0.i()
            == m.from.i() - 8,
        v.board[m.from.i()]->0.piece_type != PieceType::Pawn ==> apply(v, m).ep is None,
        pass(v).ep is None && pass(v).side != v.side && pass(v).board == v.board,
{
}

/// A square for an en-passant capture counts by its file alone.
pub proof fn law_hashes_tell_the_file(v: PosView, s: Square)
    requires
        v.ep is None,
        s.wf(),
    ensures
        hash(PosView { ep: Some(s), ..v }) == hash(v) ^ key(784 + s.i() % 8),
        hash(PosView { ep: Some(s), ..v }) != hash(v),
{
    let h = board_hash(v.board, 64) ^ castle_key(v.rights.mask());
    let k = ep_key(file(s.i()));
    let t = side_hash(v.side);
    crate::zobrist::lemma_xor(h, k, t);
    crate::zobrist::lemma_xor(h, 0, t);
    crate::zobrist::lemma_xor(h, t, k);
    crate::zobrist::law_keys_are_not_zero(784 + s.i() % 8);
    crate::zobrist::lemma_xor(h ^ t, k, 0);
}

} // verus!
