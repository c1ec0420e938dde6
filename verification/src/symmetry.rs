//! The evaluation treats both players alike: turning the board around and
//! swapping the colors does not change it.

use vstd::prelude::*;

use crate::attacks::{between, gap, king_hits, pawn_hits};
use crate::bits;
use crate::bits::{flip, sum};
use crate::eval::{
    ahead, backward, base, base_at, danger_at, doubled_at, file_has, has_neighbour, in_shield,
    king_safety_of, mobility_at, mobility_of, on_file, own_view, pair_of, passed, pawn_at,
    pawn_covers, pawn_score, pawns_of, phase_at, phase_of, presses, rook_at, rooks_of, room,
    safe_square, score, side_total, span_covers, supported,
};
use crate::rules;
use crate::rules::{PosView, Rights, holds, king_sq, one_king, open_line, owned, reach};
use crate::types::{Color, Piece, PieceType, Square, file, rank, rel_rank};

verus! {

pub open spec fn swap_piece(p: Option<Piece>) -> Option<Piece> {
    match p {
        Some(q) => Some(q.swapped()),
        None => None,
    }
}

/// The board turned around, with the colors swapped.
pub open spec fn mirror_board(b: Seq<Option<Piece>>) -> Seq<Option<Piece>> {
    Seq::new(64, |i: int| swap_piece(b[flip(i)]))
}

/// The position turned around, with the players swapped.
pub open spec fn mirror(v: PosView) -> PosView {
    PosView {
        board: mirror_board(v.board),
        side: v.side.other(),
        rights: Rights {
            white_king: v.rights.black_king,
            white_queen: v.rights.black_queen,
            black_king: v.rights.white_king,
            black_queen: v.rights.white_queen,
        },
        ep: match v.ep {
            Some(s) => Some(Square(flip(s.i()) as u8)),
            None => None,
        },
        half: v.half,
        full: v.full,
    }
}

/// `q` is `p` on the board turned around.
spec fn flipped(p: spec_fn(int) -> bool, q: spec_fn(int) -> bool) -> bool {
    forall|i: int| #[trigger] q(i) == p(flip(i))
}

proof fn lemma_flip(i: int)
    ensures
        flip(flip(i)) == i,
        file(flip(i)) == file(i),
        rank(flip(i)) == 7 - rank(i),
        0 <= i < 64 <==> 0 <= flip(i) < 64,
{
}

proof fn lemma_owned(b: Seq<Option<Piece>>, i: int, c: Color, pt: PieceType)
    requires
        b.len() == 64,
    ensures
        owned(mirror_board(b), i, c) == owned(b, flip(i), c.other()),
        holds(mirror_board(b), i, c, pt) == holds(b, flip(i), c.other(), pt),
        0 <= i < 64 ==> mirror_board(b)[i] == swap_piece(b[flip(i)]),
{
    lemma_flip(i);
}

proof fn lemma_open_line(b: Seq<Option<Piece>>, s: int, t: int)
    requires
        b.len() == 64,
    ensures
        open_line(mirror_board(b), s, t) == open_line(b, flip(s), flip(t)),
{
    let mb = mirror_board(b);
    lemma_flip(s);
    lemma_flip(t);
    if open_line(mb, s, t) {
        assert forall|u: int| 0 <= u < 64 && #[trigger] between(flip(s), u, flip(t)) implies b[u] is None by {
            lemma_flip(u);
            assert(between(s, flip(u), t));
            assert(mb[flip(u)] is None);
        }
    }
    if open_line(b, flip(s), flip(t)) {
        assert forall|u: int| 0 <= u < 64 && #[trigger] between(s, u, t) implies mb[u] is None by {
            lemma_flip(u);
            assert(between(flip(s), flip(u), flip(t)));
            assert(b[flip(u)] is None);
        }
    }
}

proof fn lemma_reach(b: Seq<Option<Piece>>, p: Piece, s: int, t: int)
    requires
        b.len() == 64,
    ensures
        reach(mirror_board(b), p.swapped(), s, t) == reach(b, p, flip(s), flip(t)),
{
    lemma_flip(s);
    lemma_flip(t);
    lemma_open_line(b, s, t);
}

proof fn lemma_king_sq(b: Seq<Option<Piece>>, c: Color)
    requires
        b.len() == 64,
        one_king(b, c.other()),
    ensures
        one_king(mirror_board(b), c),
        king_sq(mirror_board(b), c) == flip(king_sq(b, c.other())),
{
    let mb = mirror_board(b);
    let k = king_sq(b, c.other());
    rules::lemma_king_held(b, c.other());
    lemma_flip(k);
    lemma_owned(b, flip(k), c, PieceType::King);
    assert(holds(mb, flip(k), c, PieceType::King));
    assert forall|i: int, j: int| #[trigger]
        holds(mb, i, c, PieceType::King) && #[trigger] holds(mb, j, c, PieceType::King) implies i
        == j by {
        lemma_owned(b, i, c, PieceType::King);
        lemma_owned(b, j, c, PieceType::King);
        lemma_flip(i);
        lemma_flip(j);
        assert(holds(b, flip(i), c.other(), PieceType::King));
        assert(holds(b, flip(j), c.other(), PieceType::King));
    }
    rules::lemma_king(mb, c, flip(k));
}

/// A mirrored position is well formed.
pub proof fn law_mirrored_positions_are_sound(v: PosView)
    requires
        v.wf(),
    ensures
        mirror(v).wf(),
{
    lemma_king_sq(v.board, Color::White);
    lemma_king_sq(v.board, Color::Black);
    if v.ep is Some {
        lemma_flip(v.ep->0.i());
    }
}

// ---------------------------------------------------------------------------
// Term by term.
// ---------------------------------------------------------------------------

proof fn lemma_base(ph: int, b: Seq<Option<Piece>>, c: Color)
    requires
        b.len() == 64,
    ensures
        base(ph, mirror_board(b), c) == base(ph, b, c.other()),
{
    let mb = mirror_board(b);
    let f = |i: int| base_at(ph, b, c.other(), i);
    let g = |i: int| base_at(ph, mb, c, i);
    assert forall|i: int| 0 <= i < 64 implies #[trigger] g(i) == f(flip(i)) by {
        lemma_owned(b, i, c, PieceType::Pawn);
        lemma_flip(i);
        assert(own_view(c, i) == own_view(c.other(), flip(i)));
    }
    bits::lemma_sum_flip(f, g);
}

proof fn lemma_phase(b: Seq<Option<Piece>>)
    requires
        b.len() == 64,
    ensures
        phase_of(mirror_board(b)) == phase_of(b),
{
    let mb = mirror_board(b);
    let f = |i: int| phase_at(b, i);
    let g = |i: int| phase_at(mb, i);
    assert forall|i: int| 0 <= i < 64 implies #[trigger] g(i) == f(flip(i)) by {
        lemma_owned(b, i, Color::White, PieceType::Pawn);
        lemma_flip(i);
    }
    bits::lemma_sum_flip(f, g);
}

proof fn lemma_pawns(b: Seq<Option<Piece>>, c: Color)
    requires
        b.len() == 64,
    ensures
        flipped(pawns_of(b, c.other()), pawns_of(mirror_board(b), c)),
{
    assert forall|i: int| #[trigger] pawns_of(mirror_board(b), c)(i) == pawns_of(b, c.other())(
        flip(i),
    ) by {
        lemma_owned(b, i, c, PieceType::Pawn);
    }
}

proof fn lemma_pawn_covers(c: Color, p: spec_fn(int) -> bool, q: spec_fn(int) -> bool, t: int)
    requires
        flipped(p, q),
    ensures
        pawn_covers(c, q, t) == pawn_covers(c.other(), p, flip(t)),
{
    lemma_flip(t);
    if pawn_covers(c, q, t) {
        let s = choose|s: int| #[trigger] q(s) && pawn_hits(c, s, t);
        lemma_flip(s);
        assert(p(flip(s)) && pawn_hits(c.other(), flip(s), flip(t)));
    }
    if pawn_covers(c.other(), p, flip(t)) {
        let s = choose|s: int| #[trigger] p(s) && pawn_hits(c.other(), s, flip(t));
        lemma_flip(s);
        assert(q(flip(s)) && pawn_hits(c, flip(s), t));
    }
}

proof fn lemma_span_covers(c: Color, p: spec_fn(int) -> bool, q: spec_fn(int) -> bool, t: int)
    requires
        flipped(p, q),
    ensures
        span_covers(c, q, t) == span_covers(c.other(), p, flip(t)),
{
    lemma_flip(t);
    if span_covers(c, q, t) {
        let s = choose|s: int| #[trigger] q(s) && gap(file(s), file(t)) <= 1 && ahead(c, s, t);
        lemma_flip(s);
        assert(p(flip(s)) && gap(file(flip(s)), file(flip(t))) <= 1 && ahead(
            c.other(),
            flip(s),
            flip(t),
        ));
    }
    if span_covers(c.other(), p, flip(t)) {
        let s = choose|s: int| #[trigger]
            p(s) && gap(file(s), file(flip(t))) <= 1 && ahead(c.other(), s, flip(t));
        lemma_flip(s);
        assert(q(flip(s)) && gap(file(flip(s)), file(t)) <= 1 && ahead(c, flip(s), t));
    }
}

proof fn lemma_room(b: Seq<Option<Piece>>, c: Color, i: int)
    requires
        b.len() == 64,
        owned(mirror_board(b), i, c),
    ensures
        room(mirror_board(b), c, i) == room(b, c.other(), flip(i)),
{
    let mb = mirror_board(b);
    lemma_owned(b, i, c, PieceType::Pawn);
    lemma_flip(i);
    let piece = b[flip(i)]->0;
    let p = |t: int| reach(b, piece, flip(i), t) && safe_square(b, c.other(), t);
    let q = |t: int| reach(mb, mb[i]->0, i, t) && safe_square(mb, c, t);
    assert forall|t: int| 0 <= t < 64 implies #[trigger] q(t) == p(flip(t)) by {
        lemma_reach(b, piece, i, t);
        lemma_owned(b, t, c, PieceType::Pawn);
        lemma_pawns(b, c.other());
        lemma_pawn_covers(c.other(), pawns_of(b, c), pawns_of(mb, c.other()), t);
    }
    bits::lemma_count_flip(p, q);
}

proof fn lemma_mobility(ph: int, b: Seq<Option<Piece>>, c: Color)
    requires
        b.len() == 64,
    ensures
        mobility_of(ph, mirror_board(b), c) == mobility_of(ph, b, c.other()),
{
    let mb = mirror_board(b);
    let f = |i: int| mobility_at(ph, b, c.other(), i);
    let g = |i: int| mobility_at(ph, mb, c, i);
    assert forall|i: int| 0 <= i < 64 implies #[trigger] g(i) == f(flip(i)) by {
        lemma_owned(b, i, c, PieceType::Pawn);
        lemma_flip(i);
        if owned(mb, i, c) {
            lemma_room(b, c, i);
        }
    }
    bits::lemma_sum_flip(f, g);
}

proof fn lemma_presses(b: Seq<Option<Piece>>, i: int, k: int)
    requires
        b.len() == 64,
        0 <= i < 64,
        mirror_board(b)[i] is Some,
    ensures
        presses(mirror_board(b), i, flip(k)) == presses(b, flip(i), k),
{
    let mb = mirror_board(b);
    lemma_flip(i);
    lemma_flip(k);
    let piece = b[flip(i)]->0;
    if presses(mb, i, flip(k)) {
        let t = choose|t: int|
            0 <= t < 64 && #[trigger] king_hits(flip(k), t) && reach(mb, mb[i]->0, i, t);
        lemma_flip(t);
        lemma_reach(b, piece, i, t);
        assert(king_hits(k, flip(t)) && reach(b, piece, flip(i), flip(t)));
    }
    if presses(b, flip(i), k) {
        let t = choose|t: int|
            0 <= t < 64 && #[trigger] king_hits(k, t) && reach(b, piece, flip(i), t);
        lemma_flip(t);
        lemma_reach(b, piece, i, flip(t));
        assert(king_hits(flip(k), flip(t)) && reach(mb, mb[i]->0, i, flip(t)));
    }
}

proof fn lemma_king_safety(b: Seq<Option<Piece>>, c: Color)
    requires
        b.len() == 64,
        one_king(b, c.other()),
    ensures
        king_safety_of(mirror_board(b), c) == king_safety_of(b, c.other()),
{
    let mb = mirror_board(b);
    lemma_king_sq(b, c);
    let k = king_sq(b, c.other());
    lemma_flip(k);
    let p = |t: int| holds(b, t, c.other(), PieceType::Pawn) && in_shield(c.other(), k, t);
    let q = |t: int| holds(mb, t, c, PieceType::Pawn) && in_shield(c, flip(k), t);
    assert forall|t: int| 0 <= t < 64 implies #[trigger] q(t) == p(flip(t)) by {
        lemma_owned(b, t, c, PieceType::Pawn);
        lemma_flip(t);
    }
    bits::lemma_count_flip(p, q);
    let f = |i: int| danger_at(b, c.other(), i);
    let g = |i: int| danger_at(mb, c, i);
    assert forall|i: int| 0 <= i < 64 implies #[trigger] g(i) == f(flip(i)) by {
        lemma_owned(b, i, c.other(), PieceType::Pawn);
        lemma_flip(i);
        if mb[i] is Some {
            lemma_presses(b, i, k);
        }
    }
    bits::lemma_sum_flip(f, g);
}

proof fn lemma_doubled(ph: int, p: spec_fn(int) -> bool, q: spec_fn(int) -> bool)
    requires
        flipped(p, q),
    ensures
        sum(|f: int| doubled_at(ph, q, f), 8) == sum(|f: int| doubled_at(ph, p, f), 8),
{
    let d = |f: int| doubled_at(ph, p, f);
    let e = |f: int| doubled_at(ph, q, f);
    assert forall|f: int| 0 <= f < 8 implies #[trigger] e(f) == d(f) by {
        let x = |t: int| p(t) && file(t) == f;
        let y = |t: int| q(t) && file(t) == f;
        assert forall|t: int| 0 <= t < 64 implies #[trigger] y(t) == x(flip(t)) by {
            lemma_flip(t);
        }
        bits::lemma_count_flip(x, y);
        assert(on_file(q, f) == on_file(p, f));
    }
    bits::lemma_sum_ext(e, d, 8);
}

proof fn lemma_neighbours(c: Color, p: spec_fn(int) -> bool, q: spec_fn(int) -> bool, s: int)
    requires
        flipped(p, q),
    ensures
        has_neighbour(q, s) == has_neighbour(p, flip(s)),
        supported(c, q, s) == supported(c.other(), p, flip(s)),
        file_has(q, s) == file_has(p, flip(s)),
{
    lemma_flip(s);
    if has_neighbour(q, s) {
        let t = choose|t: int| #[trigger] q(t) && gap(file(t), file(s)) == 1;
        lemma_flip(t);
        assert(p(flip(t)) && gap(file(flip(t)), file(flip(s))) == 1);
    }
    if has_neighbour(p, flip(s)) {
        let t = choose|t: int| #[trigger] p(t) && gap(file(t), file(flip(s))) == 1;
        lemma_flip(t);
        assert(q(flip(t)) && gap(file(flip(t)), file(s)) == 1);
    }
    if supported(c, q, s) {
        let t = choose|t: int| #[trigger] q(t) && gap(file(t), file(s)) == 1 && !ahead(c, s, t);
        lemma_flip(t);
        assert(p(flip(t)) && gap(file(flip(t)), file(flip(s))) == 1 && !ahead(
            c.other(),
            flip(s),
            flip(t),
        ));
    }
    if supported(c.other(), p, flip(s)) {
        let t = choose|t: int| #[trigger]
            p(t) && gap(file(t), file(flip(s))) == 1 && !ahead(c.other(), flip(s), t);
        lemma_flip(t);
        assert(q(flip(t)) && gap(file(flip(t)), file(s)) == 1 && !ahead(c, s, flip(t)));
    }
    if file_has(q, s) {
        let t = choose|t: int| #[trigger] q(t) && file(t) == file(s);
        lemma_flip(t);
        assert(p(flip(t)) && file(flip(t)) == file(flip(s)));
    }
    if file_has(p, flip(s)) {
        let t = choose|t: int| #[trigger] p(t) && file(t) == file(flip(s));
        lemma_flip(t);
        assert(q(flip(t)) && file(flip(t)) == file(s));
    }
}

/// Pawns turned around score the same for the other player.
#[verifier::rlimit(30)]
proof fn lemma_pawn_score(
    ph: int,
    c: Color,
    p: spec_fn(int) -> bool,
    q: spec_fn(int) -> bool,
    pe: spec_fn(int) -> bool,
    qe: spec_fn(int) -> bool,
)
    requires
        flipped(p, q),
        flipped(pe, qe),
    ensures
        pawn_score(ph, c, q, qe) == pawn_score(ph, c.other(), p, pe),
{
    lemma_doubled(ph, p, q);
    let f = |s: int| pawn_at(ph, c.other(), p, pe, s);
    let g = |s: int| pawn_at(ph, c, q, qe, s);
    assert forall|s: int| 0 <= s < 64 implies #[trigger] g(s) == f(flip(s)) by {
        lemma_flip(s);
        lemma_neighbours(c, p, q, s);
        lemma_span_covers(c.other(), pe, qe, s);
        lemma_pawn_covers(c.other(), pe, qe, s + 8 * c.forward());
        lemma_flip(s + 8 * c.forward());
        assert(flip(s + 8 * c.forward()) == flip(s) + 8 * c.other().forward());
        assert(backward(c, q, qe, s) == backward(c.other(), p, pe, flip(s)));
        assert(passed(c, qe, s) == passed(c.other(), pe, flip(s)));
        assert(rel_rank(c, s) == rel_rank(c.other(), flip(s)));
        assert(q(s) == p(flip(s)));
    }
    bits::lemma_sum_flip(f, g);
}

proof fn lemma_pair(ph: int, b: Seq<Option<Piece>>, c: Color)
    requires
        b.len() == 64,
    ensures
        pair_of(ph, mirror_board(b), c) == pair_of(ph, b, c.other()),
{
    let mb = mirror_board(b);
    let p = |i: int| holds(b, i, c.other(), PieceType::Bishop);
    let q = |i: int| holds(mb, i, c, PieceType::Bishop);
    assert forall|i: int| 0 <= i < 64 implies #[trigger] q(i) == p(flip(i)) by {
        lemma_owned(b, i, c, PieceType::Bishop);
    }
    bits::lemma_count_flip(p, q);
}

proof fn lemma_rooks(ph: int, b: Seq<Option<Piece>>, c: Color)
    requires
        b.len() == 64,
    ensures
        rooks_of(ph, mirror_board(b), c) == rooks_of(ph, b, c.other()),
{
    let mb = mirror_board(b);
    let f = |i: int| rook_at(ph, b, c.other(), i);
    let g = |i: int| rook_at(ph, mb, c, i);
    lemma_pawns(b, c);
    lemma_pawns(b, c.other());
    assert forall|i: int| 0 <= i < 64 implies #[trigger] g(i) == f(flip(i)) by {
        lemma_owned(b, i, c, PieceType::Rook);
        lemma_neighbours(c, pawns_of(b, c.other()), pawns_of(mb, c), i);
        lemma_neighbours(c, pawns_of(b, c), pawns_of(mb, c.other()), i);
    }
    bits::lemma_sum_flip(f, g);
}

/// Everything one player has is what the other player has on the board turned
/// around.
proof fn lemma_side_total(ph: int, b: Seq<Option<Piece>>, c: Color)
    requires
        b.len() == 64,
        one_king(b, c.other()),
    ensures
        side_total(ph, mirror_board(b), c) == side_total(ph, b, c.other()),
{
    let mb = mirror_board(b);
    lemma_base(ph, b, c);
    lemma_mobility(ph, b, c);
    lemma_king_safety(b, c);
    lemma_pawns(b, c);
    lemma_pawns(b, c.other());
    lemma_pawn_score(
        ph,
        c,
        pawns_of(b, c.other()),
        pawns_of(mb, c),
        pawns_of(b, c),
        pawns_of(mb, c.other()),
    );
    lemma_pair(ph, b, c);
    lemma_rooks(ph, b, c);
}

/// Turning the board around and swapping the players changes no evaluation.
pub proof fn law_evaluation_is_color_symmetric(v: PosView)
    requires
        v.wf(),
    ensures
        score(mirror(v)) == score(v),
{
    reveal(score);
    let c = v.side.other();
    lemma_side_total(0, v.board, c);
    lemma_side_total(1, v.board, c);
    lemma_side_total(0, v.board, c.other());
    lemma_side_total(1, v.board, c.other());
    lemma_phase(v.board);
}

} // verus!
