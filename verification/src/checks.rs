//! Checks and pins: what they leave a player to do.

use vstd::prelude::*;

use crate::attacks::{between, diagonal, straight};
use crate::rules;
use crate::rules::{
    PosView, attacks_from, ep_victim, holds, king_sq, legal, moved, open_line, owned, pseudo, reach,
};
use crate::types::{Move, MoveType, Piece, PieceType};

verus! {

/// The piece on `a` gives check to the player to move.
pub open spec fn gives_check(v: PosView, a: int) -> bool {
    attacks_from(v.board, v.side.other(), a, king_sq(v.board, v.side))
}

/// The piece could move along the line from `a` to `k` if nothing stood on it.
pub open spec fn slides(p: Piece, a: int, k: int) -> bool {
    match p.piece_type {
        PieceType::Bishop => diagonal(a, k),
        PieceType::Rook => straight(a, k),
        PieceType::Queen => straight(a, k) || diagonal(a, k),
        _ => false,
    }
}

/// The piece on `s` is all that stands between the king of the player to move
/// and an enemy piece on `a`, which would give check.
pub open spec fn pins(v: PosView, a: int, s: int) -> bool {
    let k = king_sq(v.board, v.side);
    &&& owned(v.board, a, v.side.other())
    &&& slides(v.board[a]->0, a, k)
    &&& between(a, s, k)
    &&& forall|u: int| 0 <= u < 64 && #[trigger] between(a, u, k) && u != s ==> v.board[u] is None
}

/// The move takes the piece on `a`.
pub open spec fn removes(v: PosView, m: Move, a: int) -> bool {
    ||| m.to.i() == a
    ||| m.kind == MoveType::EnPassant && ep_victim(v.side, m.to.i()) == a
}

/// What a move of another piece than the king leaves: the king where it was, and
/// every piece that was not taken.
proof fn lemma_after(v: PosView, m: Move)
    requires
        v.wf(),
        pseudo(v, m),
        m.from.i() != king_sq(v.board, v.side),
    ensures
        m.kind != MoveType::Castling,
        ({
            let nb = moved(v.board, v.side, m);
            let k = king_sq(v.board, v.side);
            &&& king_sq(nb, v.side) == k
            &&& 0 <= k < 64
            &&& nb.len() == 64
            &&& nb[m.from.i()] is None
            &&& owned(nb, m.to.i(), v.side)
            &&& forall|u: int|
                0 <= u < 64 && u != m.from.i() && !removes(v, m, u) ==> #[trigger] nb[u]
                    == v.board[u]
            &&& forall|u: int|
                0 <= u < 64 && u != m.to.i() && v.board[u] is None ==> (#[trigger] nb[u]) is None
        }),
{
    let b = v.board;
    let us = v.side;
    let nb = moved(b, us, m);
    let k = king_sq(b, us);
    rules::lemma_king_held(b, us);
    rules::lemma_apply_wf(v, m);
    if m.kind == MoveType::Castling {
        assert(holds(b, m.from.i(), us, PieceType::King));
        rules::lemma_king(b, us, m.from.i());
    }
    assert(holds(nb, k, us, PieceType::King));
    rules::lemma_king(nb, us, k);
}

/// A check is answered by moving the king, taking the piece that gives it, or
/// moving between that piece and the king.
pub proof fn law_checks_are_answered(v: PosView, m: Move, a: int)
    requires
        v.wf(),
        legal(v, m),
        gives_check(v, a),
    ensures
        m.from.i() == king_sq(v.board, v.side) || removes(v, m, a) || between(
            a,
            m.to.i(),
            king_sq(v.board, v.side),
        ),
{
    let b = v.board;
    let k = king_sq(b, v.side);
    if m.from.i() != k && !removes(v, m, a) && !between(a, m.to.i(), k) {
        let nb = moved(b, v.side, m);
        lemma_after(v, m);
        assert(a != m.from.i());
        assert(nb[a] == b[a]);
        if open_line(b, a, k) {
            assert forall|u: int| 0 <= u < 64 && #[trigger] between(a, u, k) implies nb[u] is None by {
                assert(b[u] is None);
            }
        }
        assert(attacks_from(nb, v.side.other(), a, k));
    }
}

/// Nothing stands in the way of a piece that gives check.
proof fn lemma_check_line(v: PosView, a: int, u: int)
    requires
        v.wf(),
        gives_check(v, a),
        0 <= u < 64,
        between(a, u, king_sq(v.board, v.side)),
    ensures
        v.board[u] is None,
        slides(v.board[a]->0, a, king_sq(v.board, v.side)),
{
    rules::lemma_king_held(v.board, v.side);
}

/// Of two squares on one line from the king, through the same square, one lies
/// between the other and the king.
proof fn lemma_same_ray(a: int, c: int, t: int, k: int)
    requires
        0 <= a < 64,
        0 <= c < 64,
        0 <= t < 64,
        0 <= k < 64,
        a != c,
        between(a, t, k),
        between(c, t, k),
    ensures
        between(a, c, k) || between(c, a, k),
{
}

/// When two pieces give check, only the king may move.
pub proof fn law_double_check_moves_the_king(v: PosView, m: Move, a: int, c: int)
    requires
        v.wf(),
        legal(v, m),
        gives_check(v, a),
        gives_check(v, c),
        a != c,
    ensures
        m.from.i() == king_sq(v.board, v.side),
{
    let b = v.board;
    let k = king_sq(b, v.side);
    let to = m.to.i();
    rules::lemma_king_held(b, v.side);
    if m.from.i() != k {
        lemma_after(v, m);
        law_checks_are_answered(v, m, a);
        law_checks_are_answered(v, m, c);
        if between(a, to, k) && between(c, to, k) {
            lemma_same_ray(a, c, to, k);
            if between(a, c, k) {
                lemma_check_line(v, a, c);
            } else {
                lemma_check_line(v, c, a);
            }
        } else if between(a, to, k) {
            lemma_one_answer(v, m, c, a);
        } else if between(c, to, k) {
            lemma_one_answer(v, m, a, c);
        }
    }
}

/// A move that takes one piece that gives check does not move in front of
/// another.
proof fn lemma_one_answer(v: PosView, m: Move, a: int, c: int)
    requires
        v.wf(),
        pseudo(v, m),
        gives_check(v, a),
        gives_check(v, c),
        between(c, m.to.i(), king_sq(v.board, v.side)),
    ensures
        !removes(v, m, a),
{
    let k = king_sq(v.board, v.side);
    rules::lemma_king_held(v.board, v.side);
    lemma_check_line(v, c, m.to.i());
    if removes(v, m, a) && m.to.i() != a {
        assert(crate::attacks::pawn_hits(v.side.other(), a, k));
    }
}

/// A pinned piece stays on the line of the pin: it moves towards the piece that
/// pins it, or takes it.
pub proof fn law_pinned_pieces_stay_on_the_line(v: PosView, m: Move, a: int)
    requires
        v.wf(),
        legal(v, m),
        pins(v, a, m.from.i()),
    ensures
        m.to.i() == a || between(a, m.to.i(), king_sq(v.board, v.side)),
{
    let b = v.board;
    let k = king_sq(b, v.side);
    rules::lemma_king_held(b, v.side);
    if m.to.i() != a && !between(a, m.to.i(), k) {
        let nb = moved(b, v.side, m);
        lemma_after(v, m);
        assert(!removes(v, m, a));
        assert(nb[a] == b[a]);
        assert forall|u: int| 0 <= u < 64 && #[trigger] between(a, u, k) implies nb[u] is None by {
            if u != m.from.i() {
                assert(b[u] is None);
            }
        }
        assert(attacks_from(nb, v.side.other(), a, k));
    }
}

/// Any other move of another piece than the king is legal: if its piece is not
/// pinned, it takes nothing in passing, and it answers a check that there is by
/// taking the piece that gives it or moving in between.
pub proof fn law_other_moves_are_legal(v: PosView, m: Move)
    requires
        v.wf(),
        pseudo(v, m),
        m.from.i() != king_sq(v.board, v.side),
        m.kind != MoveType::EnPassant,
        forall|a: int| !#[trigger] pins(v, a, m.from.i()),
        forall|a: int| #[trigger]
            gives_check(v, a) ==> m.to.i() == a || between(
                a,
                m.to.i(),
                king_sq(v.board, v.side),
            ),
    ensures
        legal(v, m),
{
    let b = v.board;
    let us = v.side;
    let them = us.other();
    let nb = moved(b, us, m);
    let k = king_sq(b, us);
    rules::lemma_king_held(b, us);
    lemma_after(v, m);
    assert forall|q: int| !#[trigger] attacks_from(nb, them, q, k) by {
        if attacks_from(nb, them, q, k) {
            assert(q != m.to.i() && q != m.from.i());
            assert(nb[q] == b[q]);
            if open_line(nb, q, k) && between(q, m.to.i(), k) {
                assert(nb[m.to.i()] is None);
            }
            if open_line(nb, q, k) {
                assert forall|u: int|
                    0 <= u < 64 && #[trigger] between(q, u, k) && u != m.from.i() implies b[u] is None by {
                    assert(nb[u] is None);
                    assert(u != m.to.i());
                }
                if slides(b[q]->0, q, k) && between(q, m.from.i(), k) {
                    assert(pins(v, q, m.from.i()));
                }
            }
            assert(reach(b, b[q]->0, q, k));
            assert(gives_check(v, q));
        }
    }
}

} // verus!
