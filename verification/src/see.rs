//! Static exchange evaluation: what a capture is worth once every recapture on
//! its square has been made.

use vstd::prelude::*;

use crate::attacks;
use crate::attacks::{pawn_hits, piece_hits};
use crate::bits;
use crate::bits::on;
use crate::eval::{piece_value, value_of};
use crate::position::Position;
use crate::rules;
use crate::rules::{PosView, holds, moved, occupied_by, owned, pseudo};
use crate::types::{Color, Move, MoveType, Piece, PieceType};

verus! {

/// What losing the king counts in an exchange: more than everything else.
pub const KING_SEE_VALUE: i32 = 20_000;

/// The value of a piece in an exchange.
pub open spec fn see_value_of(pt: PieceType) -> int {
    if pt == PieceType::King {
        KING_SEE_VALUE as int
    } else {
        value_of(pt)
    }
}

/// The value of a piece in an exchange.
pub fn see_value(pt: PieceType) -> (r: i32)
    ensures
        r == see_value_of(pt),
        0 < r <= KING_SEE_VALUE,
{
    match pt {
        PieceType::King => KING_SEE_VALUE,
        _ => piece_value(pt),
    }
}

/// A piece of `side` on `i` that is still in the exchange attacks `s`, with the
/// squares of `occ` occupied.
pub open spec fn joins(b: Seq<Option<Piece>>, occ: u64, s: int, side: Color, i: int) -> bool {
    &&& on(occ, i)
    &&& owned(b, i, side)
    &&& if b[i]->0.piece_type == PieceType::Pawn {
        pawn_hits(side, i, s)
    } else {
        piece_hits(b[i]->0.piece_type, occ, i, s)
    }
}

/// The next piece to capture: the least valuable kind first and, within a kind,
/// the lowest square.
pub open spec fn is_next(b: Seq<Option<Piece>>, occ: u64, s: int, side: Color, i: int) -> bool {
    &&& joins(b, occ, s, side, i)
    &&& forall|j: int| #[trigger]
        joins(b, occ, s, side, j) ==> b[i]->0.piece_type.ord() < b[j]->0.piece_type.ord() || (
        b[i]->0.piece_type == b[j]->0.piece_type && i <= j)
}

pub open spec fn anyone(b: Seq<Option<Piece>>, occ: u64, s: int, side: Color) -> bool {
    exists|i: int| #[trigger] is_next(b, occ, s, side, i)
}

pub open spec fn next(b: Seq<Option<Piece>>, occ: u64, s: int, side: Color) -> int {
    choose|i: int| #[trigger] is_next(b, occ, s, side, i)
}

/// What `side` gains by capturing, or not, on square `s` where a piece worth
/// `prize` stands.
pub open spec fn gain(b: Seq<Option<Piece>>, occ: u64, s: int, side: Color, prize: int) -> int
    decreases occ,
    via gain_decreases
{
    if anyone(b, occ, s, side) {
        let i = next(b, occ, s, side);
        let reply = gain(b, occ & !bits::bit(i), s, side.other(), see_value_of(b[i]->0.piece_type));
        if prize - reply > 0 {
            prize - reply
        } else {
            0
        }
    } else {
        0
    }
}

#[via_fn]
proof fn gain_decreases(b: Seq<Option<Piece>>, occ: u64, s: int, side: Color, prize: int) {
    if anyone(b, occ, s, side) {
        let i = next(b, occ, s, side);
        assert(is_next(b, occ, s, side, i));
        lemma_clear_bit(occ, i);
    }
}

/// Taking a square out of a set makes the word smaller.
proof fn lemma_clear_bit(w: u64, i: int)
    requires
        on(w, i),
    ensures
        w & !bits::bit(i) < w,
{
    let k = i as u64;
    assert(w & !(1u64 << k) < w) by (bit_vector)
        requires
            k < 64,
            (w >> k) & 1 == 1,
    ;
}

/// What a move captures, counting the gain of a promotion.
pub open spec fn first_gain(v: PosView, m: Move) -> int {
    let taken = if m.kind == MoveType::EnPassant {
        value_of(PieceType::Pawn)
    } else if m.kind != MoveType::Castling && v.board[m.to.i()] is Some {
        see_value_of(v.board[m.to.i()]->0.piece_type)
    } else {
        0
    };
    if m.kind == MoveType::Promotion {
        taken + value_of(m.promo) - value_of(PieceType::Pawn)
    } else {
        taken
    }
}

/// The occupied squares of a board.
pub open spec fn occ_of(b: Seq<Option<Piece>>) -> u64 {
    choose|w: u64| #[trigger] occupied_by(b, w)
}

/// The static exchange value of a move.
#[verifier::opaque]
pub open spec fn exchange_value(v: PosView, m: Move) -> int {
    let b = moved(v.board, v.side, m);
    if m.kind == MoveType::Castling {
        0
    } else {
        first_gain(v, m) - gain(
            b,
            occ_of(b),
            m.to.i(),
            v.side.other(),
            see_value_of(b[m.to.i()]->0.piece_type),
        )
    }
}

/// A gain is never negative and never more than the prize.
pub proof fn lemma_gain_bound(b: Seq<Option<Piece>>, occ: u64, s: int, side: Color, prize: int)
    requires
        prize >= 0,
    ensures
        0 <= gain(b, occ, s, side, prize) <= prize,
    decreases occ,
{
    if anyone(b, occ, s, side) {
        let i = next(b, occ, s, side);
        assert(is_next(b, occ, s, side, i));
        lemma_clear_bit(occ, i);
        lemma_gain_bound(b, occ & !bits::bit(i), s, side.other(), see_value_of(b[i]->0.piece_type));
    }
}

/// Only one word marks the occupied squares of a board.
pub proof fn lemma_occ_unique(b: Seq<Option<Piece>>, w: u64)
    requires
        occupied_by(b, w),
    ensures
        occ_of(b) == w,
{
    let c = occ_of(b);
    assert(occupied_by(b, c));
    assert forall|i: int| 0 <= i < 64 implies #[trigger] on(c, i) == on(w, i) by {}
    bits::lemma_word_ext(c, w);
}

/// The pieces of one kind that attack a square, among those still there.
fn joiners(pos: &Position, pt: PieceType, side: Color, s: usize, occ: u64) -> (r: u64)
    requires
        pos.wf(),
        s < 64,
    ensures
        forall|i: int|
            #[trigger] on(r, i) == (holds(pos@.board, i, side, pt) && joins(
                pos@.board,
                occ,
                s as int,
                side,
                i,
            )),
{
    let own: u64 = pos.pieces_cp(side, pt).0;
    let here: u64 = own & occ;
    proof {
        bits::lemma_ops(own, occ);
        bits::lemma_empty();
    }
    if here == 0 {
        assert forall|i: int| #[trigger] on(0u64, i) == (holds(pos@.board, i, side, pt) && joins(
            pos@.board,
            occ,
            s as int,
            side,
            i,
        )) by {
            assert(!on(here, i));
        }
        return 0;
    }
    let hits: u64 = match pt {
        PieceType::Pawn => attacks::pawn_attacks(side.opponent(), s),
        _ => attacks::piece_attacks(pt, s, occ),
    };
    let r: u64 = here & hits;
    proof {
        bits::lemma_ops(here, hits);
        assert forall|i: int| #[trigger] on(r, i) == (holds(pos@.board, i, side, pt) && joins(
            pos@.board,
            occ,
            s as int,
            side,
            i,
        )) by {
            if 0 <= i < 64 {
                attacks::lemma_pawn_symmetric(side, i, s as int);
                attacks::lemma_hits_symmetric(pt, occ, i, s as int);
                assert(on(own, i) == holds(pos@.board, i, side, pt));
            }
        }
    }
    r
}

/// The next piece to capture on a square, if there is one.
fn next_joiner(pos: &Position, side: Color, s: usize, occ: u64) -> (r: Option<(usize, PieceType)>)
    requires
        pos.wf(),
        s < 64,
    ensures
        match r {
            Some((i, pt)) => {
                &&& i < 64
                &&& holds(pos@.board, i as int, side, pt)
                &&& anyone(pos@.board, occ, s as int, side)
                &&& i == next(pos@.board, occ, s as int, side)
                &&& on(occ, i as int)
            },
            None => !anyone(pos@.board, occ, s as int, side),
        },
{
    let ghost b = pos@.board;
    let order: [PieceType; 6] = [
        PieceType::Pawn,
        PieceType::Knight,
        PieceType::Bishop,
        PieceType::Rook,
        PieceType::Queen,
        PieceType::King,
    ];
    let mut k: usize = 0;
    while k < 6
        invariant
            k <= 6,
            pos.wf(),
            s < 64,
            b == pos@.board,
            forall|j: int| 0 <= j < 6 ==> (#[trigger] order@[j]).ord() == j,
            forall|i: int| #[trigger]
                joins(b, occ, s as int, side, i) ==> b[i]->0.piece_type.ord() >= k,
        decreases 6 - k,
    {
        let pt = order[k];
        let mut w: u64 = joiners(pos, pt, side, s, occ);
        let ghost all = w;
        assert(order@[k as int].ord() == k);
        if w != 0 {
            let i: usize = bits::take_first(&mut w);
            proof {
                assert(on(all, i as int));
                assert forall|j: int| #[trigger] joins(b, occ, s as int, side, j) implies pt.ord()
                    < b[j]->0.piece_type.ord() || (pt == b[j]->0.piece_type && i <= j) by {
                    if b[j]->0.piece_type.ord() == k {
                        lemma_kind_ord(pt, b[j]->0.piece_type);
                        assert(holds(b, j, side, pt));
                        assert(on(all, j));
                    }
                }
                assert(is_next(b, occ, s as int, side, i as int));
                let n = next(b, occ, s as int, side);
                assert(is_next(b, occ, s as int, side, n));
                assert(joins(b, occ, s as int, side, n));
            }
            return Some((i, pt));
        }
        proof {
            bits::lemma_empty();
            assert forall|i: int| #[trigger] joins(b, occ, s as int, side, i) implies b[i]->0.piece_type.ord()
                >= k + 1 by {
                if b[i]->0.piece_type.ord() == k {
                    lemma_kind_ord(pt, b[i]->0.piece_type);
                    assert(holds(b, i, side, pt));
                    assert(on(all, i));
                }
            }
        }
        k = k + 1;
    }
    proof {
        if anyone(b, occ, s as int, side) {
            let n = next(b, occ, s as int, side);
            assert(is_next(b, occ, s as int, side, n));
            assert(joins(b, occ, s as int, side, n));
        }
    }
    None
}

proof fn lemma_kind_ord(a: PieceType, b: PieceType)
    ensures
        a.ord() == b.ord() ==> a == b,
        0 <= a.ord() < 6,
{
}

/// What `side` gains by capturing, or not, on a square.
fn exchange(pos: &Position, s: usize, side: Color, occ: u64, prize: i32) -> (r: i32)
    requires
        pos.wf(),
        s < 64,
        0 <= prize <= KING_SEE_VALUE,
    ensures
        r == gain(pos@.board, occ, s as int, side, prize as int),
        0 <= r <= prize,
    decreases occ,
{
    match next_joiner(pos, side, s, occ) {
        Some((i, pt)) => {
            let b: u64 = bits::one(i);
            proof {
                lemma_clear_bit(occ, i as int);
            }
            let reply: i32 = exchange(pos, s, side.opponent(), occ & !b, see_value(pt));
            if prize - reply > 0 {
                prize - reply
            } else {
                0
            }
        },
        None => 0,
    }
}

/// The static exchange value of a move.
pub fn see(pos: &Position, m: Move) -> (r: i32)
    requires
        pos.wf(),
        pseudo(pos@, m),
    ensures
        r == exchange_value(pos@, m),
        -KING_SEE_VALUE <= r <= 2 * KING_SEE_VALUE,
{
    reveal(exchange_value);
    if m.move_type() == MoveType::Castling {
        return 0;
    }
    let to: usize = m.to.index();
    let mut first: i32 = match m.kind {
        MoveType::EnPassant => piece_value(PieceType::Pawn),
        _ => match pos.piece_at(m.to) {
            Some(p) => see_value(p.piece_type),
            None => 0,
        },
    };
    if m.kind == MoveType::Promotion {
        first = first + piece_value(m.promo) - piece_value(PieceType::Pawn);
    }
    let us = pos.side_to_move();
    let mut after: Position = *pos;
    let _ = after.make_move(m);
    let occ: u64 = after.occupied().0;
    proof {
        lemma_occ_unique(after@.board, occ);
    }
    let standing: PieceType = match after.piece_at(m.to) {
        Some(p) => p.piece_type,
        None => PieceType::Pawn,
    };
    first - exchange(&after, to, us.opponent(), occ, see_value(standing))
}

/// What a move takes, in centipawns, a promotion counting as the new piece less the pawn.
pub open spec fn taken_by(v: PosView, m: Move) -> int {
    (if m.kind == MoveType::EnPassant {
        82
    } else if m.kind == MoveType::Castling || v.board[m.to.i()] is None {
        0
    } else {
        piece_cost(v.board[m.to.i()]->0.piece_type)
    }) + (if m.kind == MoveType::Promotion {
        piece_cost(m.promo) - 82
    } else {
        0
    })
}

/// What losing a piece costs.
pub open spec fn piece_cost(pt: PieceType) -> int {
    match pt {
        PieceType::Pawn => 82,
        PieceType::Knight => 337,
        PieceType::Bishop => 365,
        PieceType::Rook => 477,
        PieceType::Queen => 1025,
        PieceType::King => 20_000,
    }
}

/// What is not defended is won: if no enemy piece attacks the square after the move, the
/// move is worth what it takes.
pub proof fn law_undefended_pieces_are_won(v: PosView, m: Move)
    requires
        v.wf(),
        pseudo(v, m),
        m.kind != MoveType::Castling,
        !rules::attacked(moved(v.board, v.side, m), m.to.i(), v.side.other()),
    ensures
        exchange_value(v, m) == taken_by(v, m),
{
    reveal(exchange_value);
    let b = moved(v.board, v.side, m);
    let occ = occ_of(b);
    let s = m.to.i();
    let them = v.side.other();
    assert(b.len() == 64);
    lemma_some_occ(b);
    assert(!anyone(b, occ, s, them)) by {
        if anyone(b, occ, s, them) {
            let i = next(b, occ, s, them);
            assert(is_next(b, occ, s, them, i));
            rules::lemma_reach_word(b, occ, b[i]->0, i, s);
            assert(rules::attacks_from(b, them, i, s));
        }
    }
}

/// Every board has a word of its occupied squares.
proof fn lemma_some_occ(b: Seq<Option<Piece>>)
    requires
        b.len() == 64,
    ensures
        occupied_by(b, occ_of(b)),
{
    let w = bits::lemma_word_of(|i: int| b[i] is Some);
    assert(occupied_by(b, w));
}

/// No move is worth more than it takes, nor less than it takes less the piece that it
/// risks; so taking a piece that is worth no less than the taker loses nothing.  Castling
/// is worth nothing.
pub proof fn law_exchanges_risk_one_piece(v: PosView, m: Move)
    requires
        v.wf(),
        pseudo(v, m),
    ensures
        exchange_value(v, m) <= taken_by(v, m),
        exchange_value(v, m) >= taken_by(v, m) - piece_cost(
            if m.kind == MoveType::Promotion {
                m.promo
            } else {
                v.board[m.from.i()]->0.piece_type
            },
        ),
        m.kind == MoveType::Castling ==> exchange_value(v, m) == 0,
{
    reveal(exchange_value);
    let b = moved(v.board, v.side, m);
    assert(b.len() == 64);
    if m.kind != MoveType::Castling {
        lemma_gain_bound(
            b,
            occ_of(b),
            m.to.i(),
            v.side.other(),
            see_value_of(b[m.to.i()]->0.piece_type),
        );
    }
}

/// A piece that is taken back, with nobody to take again, is lost: the move is worth what it
/// takes less the piece that moved.
pub proof fn law_defended_pieces_cost_the_taker(v: PosView, m: Move, d: int)
    requires
        v.wf(),
        pseudo(v, m),
        m.kind != MoveType::Castling,
        m.kind != MoveType::Promotion,
        rules::attacks_from(moved(v.board, v.side, m), v.side.other(), d, m.to.i()),
        forall|i: int| #[trigger]
            owned(moved(v.board, v.side, m), i, v.side) && i != m.to.i() ==> forall|occ: u64|
                !joins(moved(v.board, v.side, m), occ, m.to.i(), v.side, i),
    ensures
        exchange_value(v, m) == taken_by(v, m) - piece_cost(v.board[m.from.i()]->0.piece_type),
{
    reveal(exchange_value);
    let b = moved(v.board, v.side, m);
    let occ = occ_of(b);
    let s = m.to.i();
    let us = v.side;
    let them = v.side.other();
    assert(b.len() == 64);
    lemma_some_occ(b);
    rules::lemma_reach_word(b, occ, b[d]->0, d, s);
    assert(joins(b, occ, s, them, d));
    lemma_someone(b, occ, s, them, d);
    let i = next(b, occ, s, them);
    let left = occ & !bits::bit(i);
    assert(!anyone(b, left, s, us)) by {
        if anyone(b, left, s, us) {
            let j = next(b, left, s, us);
            assert(is_next(b, left, s, us, j));
            assert(owned(b, j, us));
            if j == s {
                assert(!joins(b, left, s, us, s));
            }
        }
    }
    assert(b[s] == v.board[m.from.i()]);
    assert(us.other().other() == us);
    assert(them.other() == us);
    assert(gain(b, left, s, us, see_value_of(b[i]->0.piece_type)) == 0);
}

/// If some piece joins an exchange, there is a next one.
proof fn lemma_someone(b: Seq<Option<Piece>>, occ: u64, s: int, side: Color, d: int)
    requires
        joins(b, occ, s, side, d),
    ensures
        anyone(b, occ, s, side),
    decreases 64 * b[d]->0.piece_type.ord() + d,
{
    if !is_next(b, occ, s, side, d) {
        let j = choose|j: int| #[trigger]
            joins(b, occ, s, side, j) && !(b[d]->0.piece_type.ord() < b[j]->0.piece_type.ord() || (
            b[d]->0.piece_type == b[j]->0.piece_type && d <= j));
        lemma_someone(b, occ, s, side, j);
    }
}

/// Is the static exchange value of a move at least the threshold?
pub fn see_ge(pos: &Position, m: Move, threshold: i32) -> (r: bool)
    requires
        pos.wf(),
        pseudo(pos@, m),
    ensures
        r == (exchange_value(pos@, m) >= threshold),
{
    see(pos, m) >= threshold
}

/// In an exchange the players take in turn, each with its cheapest piece that attacks the
/// square, and either may stop: a player takes only if that gains more than the reply costs.
pub proof fn law_exchanges_alternate(
    b: Seq<Option<Piece>>,
    occ: u64,
    s: int,
    side: Color,
    prize: int,
    j: int,
)
    requires
        joins(b, occ, s, side, j),
    ensures
        ({
            let i = next(b, occ, s, side);
            let reply = gain(
                b,
                occ & !bits::bit(i),
                s,
                if side == Color::White {
                    Color::Black
                } else {
                    Color::White
                },
                piece_cost(b[i]->0.piece_type),
            );
            &&& joins(b, occ, s, side, i)
            &&& piece_cost(b[i]->0.piece_type) <= piece_cost(b[j]->0.piece_type)
            &&& prize > reply ==> gain(b, occ, s, side, prize) == prize - reply
            &&& prize <= reply ==> gain(b, occ, s, side, prize) == 0
        }),
{
    lemma_someone(b, occ, s, side, j);
    let i = next(b, occ, s, side);
    assert(is_next(b, occ, s, side, i));
    assert(side.other() == (if side == Color::White {
        Color::Black
    } else {
        Color::White
    }));
    assert(see_value_of(b[i]->0.piece_type) == piece_cost(b[i]->0.piece_type));
}

} // verus!
