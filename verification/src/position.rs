//! A position on the board, kept as a mailbox, as bitboards and as a hash.

use vstd::prelude::*;

use crate::attacks;
use crate::bitboard::Bitboard;
use crate::bits;
use crate::bits::on;
use crate::rules;
use crate::rules::{
    PosView, Rights, apply, attacked, attacks_from, board_hash, bump, ep_hash, hash, holds, king_sq,
    moved, occupied_by, owned, pass, pseudo, side_hash, square_hash,
};
use crate::types::{Color, Move, MoveType, Piece, PieceType, Square, file, rank};
use crate::zobrist;
use crate::zobrist::castle_key;

verus! {

/// A position.  The mailbox says what stands on each square; the bitboards and
/// the hash repeat it in the forms that the search reads.
#[derive(Clone, Copy)]
pub struct Position {
    /// What stands on each square.
    pub board: [Option<Piece>; 64],
    /// The squares of each of the twelve pieces.
    pub by_piece: [u64; 12],
    /// The squares of the white pieces.
    pub white: u64,
    /// The squares of the black pieces.
    pub black: u64,
    pub side: Color,
    pub rights: Rights,
    pub ep: Option<Square>,
    pub half: u32,
    pub full: u32,
    /// The hash of all of the above but the clocks.
    pub hash: u64,
}

/// What it takes to undo a move: the position before it.
#[derive(Clone, Copy)]
pub struct Undo {
    pub before: Position,
}

impl View for Position {
    type V = PosView;

    open spec fn view(&self) -> PosView {
        PosView {
            board: self.board@,
            side: self.side,
            rights: self.rights,
            ep: self.ep,
            half: self.half,
            full: self.full,
        }
    }
}

impl Position {
    /// The bitboard of a player's pieces.
    pub open spec fn color_word(&self, c: Color) -> u64 {
        match c {
            Color::White => self.white,
            Color::Black => self.black,
        }
    }

    /// The bitboards and the hash agree with the mailbox.
    pub open spec fn synced(&self) -> bool {
        &&& forall|p: Piece, i: int|
            0 <= i < 64 ==> #[trigger] on(self.by_piece@[p.ord()], i) == (self.board@[i] == Some(p))
        &&& forall|i: int|
            0 <= i < 64 ==> #[trigger] on(self.white, i) == owned(self.board@, i, Color::White)
        &&& forall|i: int|
            0 <= i < 64 ==> #[trigger] on(self.black, i) == owned(self.board@, i, Color::Black)
        &&& self.hash == hash(self@)
    }

    /// The position is well formed and its parts agree.
    pub open spec fn wf(&self) -> bool {
        self.synced() && self@.wf()
    }

    // -----------------------------------------------------------------------
    // Changing one square.
    // -----------------------------------------------------------------------

    /// Put a piece on an empty square.
    pub(crate) fn put(&mut self, s: usize, p: Piece)
        requires
            old(self).synced(),
            s < 64,
            old(self).board@[s as int] is None,
        ensures
            final(self).synced(),
            final(self).board@ == old(self).board@.update(s as int, Some(p)),
            final(self).side == old(self).side,
            final(self).rights == old(self).rights,
            final(self).ep == old(self).ep,
            final(self).half == old(self).half,
            final(self).full == old(self).full,
    {
        let ghost before = *self;
        let b: u64 = bits::one(s);
        let k: usize = p.index();
        let w: u64 = self.by_piece[k];
        self.board[s] = Some(p);
        self.by_piece[k] = w | b;
        match p.color {
            Color::White => {
                self.white = self.white | b;
            },
            Color::Black => {
                self.black = self.black | b;
            },
        }
        self.hash = self.hash ^ zobrist::nth_key(64 * (k as u64) + s as u64);
        proof {
            bits::lemma_ops(w, b);
            bits::lemma_ops(before.white, b);
            bits::lemma_ops(before.black, b);
            rules::lemma_board_hash_update(before.board@, 64, s as int, Some(p));
            let bh = board_hash(before.board@, 64);
            zobrist::lemma_xor(bh, 0, 0);
            rules::lemma_hash_parts(
                bh,
                castle_key(before.rights.mask()),
                ep_hash(before.ep),
                side_hash(before.side),
                square_hash(Some(p), s as int),
            );
            assert forall|q: Piece, i: int| 0 <= i < 64 implies #[trigger] on(
                self.by_piece@[q.ord()],
                i,
            ) == (self.board@[i] == Some(q)) by {
                assert(on(before.by_piece@[q.ord()], i) == (before.board@[i] == Some(q)));
                lemma_piece_ord(p, q);
            }
        }
    }

    /// Take the piece off an occupied square.
    fn remove(&mut self, s: usize) -> (p: Piece)
        requires
            old(self).synced(),
            s < 64,
            old(self).board@[s as int] is Some,
        ensures
            final(self).synced(),
            old(self).board@[s as int] == Some(p),
            final(self).board@ == old(self).board@.update(s as int, None),
            final(self).side == old(self).side,
            final(self).rights == old(self).rights,
            final(self).ep == old(self).ep,
            final(self).half == old(self).half,
            final(self).full == old(self).full,
    {
        let ghost before = *self;
        let p: Piece = self.board[s].unwrap();
        let b: u64 = bits::one(s);
        let k: usize = p.index();
        let w: u64 = self.by_piece[k];
        self.board[s] = None;
        self.by_piece[k] = w & !b;
        match p.color {
            Color::White => {
                self.white = self.white & !b;
            },
            Color::Black => {
                self.black = self.black & !b;
            },
        }
        self.hash = self.hash ^ zobrist::nth_key(64 * (k as u64) + s as u64);
        proof {
            bits::lemma_ops(b, b);
            bits::lemma_ops(w, !b);
            bits::lemma_ops(before.white, !b);
            bits::lemma_ops(before.black, !b);
            rules::lemma_board_hash_update(before.board@, 64, s as int, None);
            let bh = board_hash(before.board@, 64);
            zobrist::lemma_xor(bh ^ square_hash(Some(p), s as int), 0, 0);
            rules::lemma_hash_parts(
                bh,
                castle_key(before.rights.mask()),
                ep_hash(before.ep),
                side_hash(before.side),
                square_hash(Some(p), s as int),
            );
            assert forall|q: Piece, i: int| 0 <= i < 64 implies #[trigger] on(
                self.by_piece@[q.ord()],
                i,
            ) == (self.board@[i] == Some(q)) by {
                assert(on(before.by_piece@[q.ord()], i) == (before.board@[i] == Some(q)));
                lemma_piece_ord(p, q);
            }
        }
        p
    }

    /// Set everything but the board.
    pub(crate) fn set_state(
        &mut self,
        side: Color,
        rights: Rights,
        ep: Option<Square>,
        half: u32,
        full: u32,
    )
        requires
            old(self).synced(),
            ep is Some ==> ep->0.wf(),
            old(self).ep is Some ==> old(self).ep->0.wf(),
        ensures
            final(self).synced(),
            final(self)@ == (PosView { board: old(self).board@, side, rights, ep, half, full }),
    {
        let ghost bh = board_hash(self.board@, 64);
        let ghost c0 = castle_key(self.rights.mask());
        let ghost e0 = ep_hash(self.ep);
        let ghost s0 = side_hash(self.side);
        let ghost c1 = castle_key(rights.mask());
        let ghost e1 = ep_hash(ep);
        let ghost s1 = side_hash(side);
        let mut h: u64 = self.hash;
        h = (h ^ castle_word(self.rights)) ^ castle_word(rights);
        proof {
            rules::lemma_hash_parts(bh, c0, e0, s0, c1);
        }
        h = (h ^ ep_word(self.ep)) ^ ep_word(ep);
        proof {
            rules::lemma_hash_parts(bh, c1, e0, s0, e1);
        }
        h = (h ^ side_word(self.side)) ^ side_word(side);
        proof {
            rules::lemma_hash_parts(bh, c1, e1, s0, s1);
        }
        self.hash = h;
        self.side = side;
        self.rights = rights;
        self.ep = ep;
        self.half = half;
        self.full = full;
    }

    // -----------------------------------------------------------------------
    // Making and undoing moves.
    // -----------------------------------------------------------------------

    /// Play a move.
    #[verifier::rlimit(30)]
    pub fn make_move(&mut self, m: Move) -> (undo: Undo)
        requires
            old(self).wf(),
            pseudo(old(self)@, m),
        ensures
            final(self).wf(),
            final(self)@ == apply(old(self)@, m),
            undo.before == *old(self),
    {
        let undo = Undo { before: *self };
        let ghost b = self.board@;
        let ghost v = self@;
        let us = self.side;
        let from: usize = m.from.index();
        let to: usize = m.to.index();
        let pawn: bool = match self.board[from] {
            Some(p) => p.piece_type == PieceType::Pawn,
            None => false,
        };
        let takes: bool = match self.board[to] {
            Some(_) => m.kind != MoveType::Castling,
            None => false,
        };
        let rights = self.rights.touch(from).touch(to);
        let full: u32 = if us == Color::Black {
            saturating_bump(self.full)
        } else {
            self.full
        };
        let half: u32 = if pawn || takes {
            0
        } else {
            saturating_bump(self.half)
        };
        let mut ep: Option<Square> = None;
        match m.kind {
            MoveType::Normal => {
                if pawn {
                    if to >= 16 && m.to.rank() == m.from.rank() + 2 {
                        ep = Some(Square(m.from.0 + 8));
                    } else if from >= 16 && m.from.rank() == m.to.rank() + 2 {
                        ep = Some(Square(m.from.0 - 8));
                    }
                }
                let p = self.remove(from);
                if takes {
                    let _ = self.remove(to);
                }
                self.put(to, p);
            },
            MoveType::Promotion => {
                let _ = self.remove(from);
                if takes {
                    let _ = self.remove(to);
                }
                self.put(to, Piece { color: us, piece_type: m.promo });
            },
            MoveType::EnPassant => {
                let p = self.remove(from);
                let victim: usize = match us {
                    Color::White => to - 8,
                    Color::Black => to + 8,
                };
                let _ = self.remove(victim);
                self.put(to, p);
            },
            MoveType::Castling => {
                proof {
                    assert(attacks::between(from as int, m.lands(), to as int));
                    assert(attacks::between(from as int, rules::rook_lands(m), to as int));
                }
                let king = self.remove(from);
                let rook = self.remove(to);
                if to > from {
                    self.put(from + 2, king);
                    self.put(from + 1, rook);
                } else {
                    self.put(from - 2, king);
                    self.put(from - 1, rook);
                }
            },
        }
        assert(self.board@ =~= moved(b, us, m));
        assert(ep == rules::new_ep(b, m));
        self.set_state(us.opponent(), rights, ep, half, full);
        proof {
            rules::lemma_apply_wf(v, m);
        }
        undo
    }

    /// Take a move back.
    pub fn undo_move(&mut self, m: Move, undo: Undo)
        requires
            undo.before.wf(),
            old(self)@ == apply(undo.before@, m),
        ensures
            *final(self) == undo.before,
    {
        *self = undo.before;
    }

    /// Pass the move to the other player.
    pub fn make_null_move(&mut self) -> (undo: Undo)
        requires
            old(self).wf(),
        ensures
            final(self).wf(),
            final(self)@ == pass(old(self)@),
            undo.before == *old(self),
    {
        let undo = Undo { before: *self };
        let us = self.side;
        let full: u32 = if us == Color::Black {
            saturating_bump(self.full)
        } else {
            self.full
        };
        self.set_state(us.opponent(), self.rights, None, saturating_bump(self.half), full);
        undo
    }

    /// Take a pass back.
    pub fn undo_null_move(&mut self, undo: Undo)
        requires
            undo.before.wf(),
            old(self)@ == pass(undo.before@),
        ensures
            *final(self) == undo.before,
    {
        *self = undo.before;
    }

    // -----------------------------------------------------------------------
    // Reading a position.
    // -----------------------------------------------------------------------

    #[inline]
    pub fn side_to_move(&self) -> (r: Color)
        ensures
            r == self@.side,
    {
        self.side
    }

    #[inline]
    pub fn halfmove_clock(&self) -> (r: u32)
        ensures
            r == self@.half,
    {
        self.half
    }

    #[inline]
    pub fn fullmove_number(&self) -> (r: u32)
        ensures
            r == self@.full,
    {
        self.full
    }

    #[inline]
    pub fn ep_square(&self) -> (r: Option<Square>)
        ensures
            r == self@.ep,
    {
        self.ep
    }

    #[inline]
    pub fn castling_rights(&self) -> (r: Rights)
        ensures
            r == self@.rights,
    {
        self.rights
    }

    /// The Zobrist hash.
    #[inline]
    pub fn key(&self) -> (r: u64)
        requires
            self.wf(),
        ensures
            r == hash(self@),
    {
        self.hash
    }

    #[inline]
    pub fn piece_at(&self, s: Square) -> (r: Option<Piece>)
        requires
            s.wf(),
        ensures
            r == self@.board[s.i()],
    {
        self.board[s.index()]
    }

    /// The squares of a player's pieces of one kind.
    #[inline]
    pub fn pieces_cp(&self, c: Color, pt: PieceType) -> (r: Bitboard)
        requires
            self.wf(),
        ensures
            forall|i: int| #[trigger] on(r.0, i) == holds(self@.board, i, c, pt),
    {
        let p = Piece { color: c, piece_type: pt };
        let w: u64 = self.by_piece[p.index()];
        proof {
            assert forall|i: int| #[trigger] on(w, i) == holds(self@.board, i, c, pt) by {
                if 0 <= i < 64 {
                    assert(on(self.by_piece@[p.ord()], i) == (self.board@[i] == Some(p)));
                }
            }
        }
        Bitboard(w)
    }

    /// The squares of a player's pieces.
    #[inline]
    pub fn pieces(&self, c: Color) -> (r: Bitboard)
        requires
            self.wf(),
        ensures
            forall|i: int| #[trigger] on(r.0, i) == owned(self@.board, i, c),
    {
        let w: u64 = match c {
            Color::White => self.white,
            Color::Black => self.black,
        };
        Bitboard(w)
    }

    /// The occupied squares.
    #[inline]
    pub fn occupied(&self) -> (r: Bitboard)
        requires
            self.wf(),
        ensures
            occupied_by(self@.board, r.0),
    {
        proof {
            bits::lemma_ops(self.white, self.black);
        }
        Bitboard(self.white | self.black)
    }

    /// Where a player's king stands.
    #[inline]
    pub fn king_square(&self, c: Color) -> (r: Square)
        requires
            self.wf(),
        ensures
            r.wf(),
            r.i() == king_sq(self@.board, c),
            holds(self@.board, r.i(), c, PieceType::King),
    {
        let b = self.pieces_cp(c, PieceType::King);
        let mut w: u64 = b.0;
        proof {
            assert(rules::one_king(self@.board, c));
            rules::lemma_king_held(self@.board, c);
            assert(on(w, king_sq(self@.board, c)));
            bits::lemma_empty();
        }
        let s: usize = bits::take_first(&mut w);
        proof {
            rules::lemma_king(self@.board, c, s as int);
        }
        Square(s as u8)
    }

    /// Does player `by` attack square `s`?
    pub fn is_attacked(&self, s: Square, by: Color) -> (r: bool)
        requires
            self.wf(),
            s.wf(),
        ensures
            r == attacked(self@.board, s.i(), by),
    {
        let t: usize = s.index();
        let occ: u64 = self.occupied().0;
        let pawns: u64 = self.pieces_cp(by, PieceType::Pawn).0;
        let knights: u64 = self.pieces_cp(by, PieceType::Knight).0;
        let bishops: u64 = self.pieces_cp(by, PieceType::Bishop).0;
        let rooks: u64 = self.pieces_cp(by, PieceType::Rook).0;
        let queens: u64 = self.pieces_cp(by, PieceType::Queen).0;
        let kings: u64 = self.pieces_cp(by, PieceType::King).0;
        let ghost b = self@.board;
        let pa: u64 = attacks::pawn_attacks(by.opponent(), t);
        let na: u64 = attacks::knight_attacks(t);
        let ka: u64 = attacks::king_attacks(t);
        proof {
            bits::lemma_empty();
            bits::lemma_ops(pa, pawns);
            bits::lemma_ops(na, knights);
            bits::lemma_ops(ka, kings);
            bits::lemma_ops(bishops, queens);
            bits::lemma_ops(rooks, queens);
        }
        if pa & pawns != 0 {
            proof {
                let q = bits::lemma_some_bit(pa & pawns);
                attacks::lemma_pawn_symmetric(by, q, t as int);
                assert(attacks_from(b, by, q, t as int));
            }
            return true;
        }
        if na & knights != 0 {
            proof {
                let q = bits::lemma_some_bit(na & knights);
                assert(attacks_from(b, by, q, t as int));
            }
            return true;
        }
        if ka & kings != 0 {
            proof {
                let q = bits::lemma_some_bit(ka & kings);
                assert(attacks_from(b, by, q, t as int));
            }
            return true;
        }
        let slant: u64 = bishops | queens;
        let cross: u64 = rooks | queens;
        let ba: u64 = if slant != 0 {
            attacks::bishop_attacks(t, occ)
        } else {
            0
        };
        proof {
            bits::lemma_ops(ba, slant);
        }
        if ba & slant != 0 {
            proof {
                let q = bits::lemma_some_bit(ba & slant);
                rules::lemma_reach_word(b, occ, b[q]->0, q, t as int);
                attacks::lemma_hits_symmetric(PieceType::Bishop, occ, q, t as int);
                assert(attacks_from(b, by, q, t as int));
            }
            return true;
        }
        let ra: u64 = if cross != 0 {
            attacks::rook_attacks(t, occ)
        } else {
            0
        };
        proof {
            bits::lemma_ops(ra, cross);
        }
        if ra & cross != 0 {
            proof {
                let q = bits::lemma_some_bit(ra & cross);
                rules::lemma_reach_word(b, occ, b[q]->0, q, t as int);
                attacks::lemma_hits_symmetric(PieceType::Rook, occ, q, t as int);
                assert(attacks_from(b, by, q, t as int));
            }
            return true;
        }
        proof {
            assert forall|q: int| !#[trigger] attacks_from(b, by, q, t as int) by {
                if attacks_from(b, by, q, t as int) {
                    let p = b[q]->0;
                    rules::lemma_reach_word(b, occ, p, q, t as int);
                    attacks::lemma_pawn_symmetric(by, q, t as int);
                    attacks::lemma_hits_symmetric(PieceType::Bishop, occ, q, t as int);
                    attacks::lemma_hits_symmetric(PieceType::Rook, occ, q, t as int);
                    assert(holds(b, q, by, p.piece_type));
                    match p.piece_type {
                        PieceType::Pawn => {
                            assert(on(pa & pawns, q));
                        },
                        PieceType::Knight => {
                            assert(on(na & knights, q));
                        },
                        PieceType::King => {
                            assert(on(ka & kings, q));
                        },
                        PieceType::Bishop => {
                            assert(on(slant, q));
                            assert(on(ba & slant, q));
                        },
                        PieceType::Rook => {
                            assert(on(cross, q));
                            assert(on(ra & cross, q));
                        },
                        PieceType::Queen => {
                            assert(on(cross, q));
                            assert(on(slant, q));
                            if attacks::rook_hits(occ, q, t as int) {
                                assert(on(ra & cross, q));
                            } else {
                                assert(on(ba & slant, q));
                            }
                        },
                    }
                }
            }
        }
        false
    }

    /// Is the player to move in check?
    pub fn in_check(&self) -> (r: bool)
        requires
            self.wf(),
        ensures
            r == self@.in_check(),
    {
        self.is_attacked(self.king_square(self.side), self.side.opponent())
    }
}

/// Different pieces have different numbers.
proof fn lemma_piece_ord(p: Piece, q: Piece)
    ensures
        p.ord() == q.ord() ==> p == q,
        0 <= p.ord() < 12,
{
}

fn castle_word(r: Rights) -> (h: u64)
    ensures
        h == castle_key(r.mask()),
{
    zobrist::nth_key(768 + r.bits() as u64)
}

fn ep_word(ep: Option<Square>) -> (h: u64)
    requires
        ep is Some ==> ep->0.wf(),
    ensures
        h == ep_hash(ep),
{
    match ep {
        Some(s) => zobrist::nth_key(784 + s.file() as u64),
        None => 0,
    }
}

fn side_word(c: Color) -> (h: u64)
    ensures
        h == side_hash(c),
{
    match c {
        Color::White => 0,
        Color::Black => zobrist::nth_key(792),
    }
}

fn saturating_bump(n: u32) -> (r: u32)
    ensures
        r == bump(n),
{
    n.saturating_add(1)
}

} // verus!
