//! Evaluation: score a position in centipawns, from the side-to-move's view.
//!
//! Every term is computed for each player in the same way, with only the board
//! turned around, and counts for White and against Black.  Each term has a
//! midgame and an endgame weight; the two totals are blended by how much
//! material is left.

use vstd::prelude::*;

use crate::attacks;
use crate::attacks::{gap, king_hits, pawn_hits};
use crate::bitboard::Bitboard;
use crate::bits;
use crate::bits::{count, flip, left_from, on, one_if, sum, zero_off};
use crate::position::Position;
use crate::rules;
use crate::rules::{PosView, holds, king_sq, occupied_by, owned, reach};
use crate::tables::{
    BACKWARD_PAWN, BISHOP_PAIR, DOUBLED_PAWN, EG_BISHOP_MOB, EG_KNIGHT_MOB, EG_PASSED_PAWN,
    EG_QUEEN_MOB, EG_ROOK_MOB, EG_VALUE, ISOLATED_PAWN, KING_ATTACK_WEIGHT, KING_SAFETY_TABLE,
    KING_SHIELD, MAX_PHASE, MG_BISHOP_MOB, MG_KNIGHT_MOB, MG_PASSED_PAWN, MG_QUEEN_MOB, MG_ROOK_MOB,
    MG_VALUE, PHASE_INC, ROOK_OPEN_FILE, ROOK_SEMI_OPEN_FILE, TEMPO_EG, TEMPO_MG, eg_pst,
    lemma_pst_bound, lemma_worth_bound, mg_pst, pst,
};
use crate::types::{
    Color, Direction, Move, MoveType, Piece, PieceType, Square, file, on_board, rank, rel_rank,
};

verus! {

/// The midgame material value of a kind of piece, in centipawns.
pub open spec fn value_of(pt: PieceType) -> int {
    MG_VALUE@[pt.ord()] as int
}

/// The midgame material value of a kind of piece, in centipawns.
#[inline]
pub fn piece_value(pt: PieceType) -> (r: i32)
    ensures
        r == value_of(pt),
        0 <= r <= 1025,
        pt != PieceType::King ==> r > 0,
{
    MG_VALUE[pt.index()]
}

// ---------------------------------------------------------------------------
// Pawn geometry.
// ---------------------------------------------------------------------------

/// The squares of a word.
pub open spec fn set(w: u64) -> spec_fn(int) -> bool {
    |i: int| on(w, i)
}

/// The squares of a player's pawns.
pub open spec fn pawns_of(b: Seq<Option<Piece>>, c: Color) -> spec_fn(int) -> bool {
    |i: int| holds(b, i, c, PieceType::Pawn)
}

/// `t` is on a rank ahead of `s`, seen by player `c`.
pub open spec fn ahead(c: Color, s: int, t: int) -> bool {
    match c {
        Color::White => rank(s) < rank(t),
        Color::Black => rank(t) < rank(s),
    }
}

/// One of the pawns `own` of player `c` attacks `t`.
pub open spec fn pawn_covers(c: Color, own: spec_fn(int) -> bool, t: int) -> bool {
    exists|s: int| #[trigger] own(s) && pawn_hits(c, s, t)
}

/// `t` lies ahead of one of the pawns `own`, on its file or a neighbouring one.
pub open spec fn span_covers(c: Color, own: spec_fn(int) -> bool, t: int) -> bool {
    exists|s: int| #[trigger] own(s) && gap(file(s), file(t)) <= 1 && ahead(c, s, t)
}

/// What the positional terms read of one player's pawns.
pub struct PawnInfo {
    /// The pawns.
    pub pawns: Bitboard,
    /// The squares that the pawns attack.
    pub attacks: Bitboard,
    /// The squares ahead of the pawns on their own and the neighbouring files.
    pub front_span: Bitboard,
}

impl PawnInfo {
    pub open spec fn wf(&self, c: Color) -> bool {
        &&& forall|t: int|
            0 <= t < 64 ==> #[trigger] on(self.attacks.0, t) == pawn_covers(
                c,
                set(self.pawns.0),
                t,
            )
        &&& forall|t: int|
            0 <= t < 64 ==> #[trigger] on(self.front_span.0, t) == span_covers(
                c,
                set(self.pawns.0),
                t,
            )
    }

    /// The pawns are those of player `c` on the board `b`.
    pub open spec fn of(&self, b: Seq<Option<Piece>>, c: Color) -> bool {
        self.wf(c) && set(self.pawns.0) == pawns_of(b, c)
    }

    /// Gather one player's pawn geometry.
    pub fn new(pawns: Bitboard, color: Color) -> (r: PawnInfo)
        ensures
            r.pawns == pawns,
            r.wf(color),
    {
        let attacks = pawn_cover(pawns, color);
        let front_span = pawn_span(pawns, color);
        PawnInfo { pawns, attacks, front_span }
    }
}

/// The squares that pawns attack.
#[verifier::rlimit(30)]
fn pawn_cover(pawns: Bitboard, color: Color) -> (attacks: Bitboard)
    ensures
        forall|t: int|
            0 <= t < 64 ==> #[trigger] on(attacks.0, t) == pawn_covers(color, set(pawns.0), t),
{
    let (west_cap, east_cap) = match color {
        Color::White => (Direction::NorthWest, Direction::NorthEast),
        Color::Black => (Direction::SouthWest, Direction::SouthEast),
    };
    let west = pawns.shift(west_cap);
    let east = pawns.shift(east_cap);
    let attacks = Bitboard(west.0 | east.0);
    proof {
        bits::lemma_ops(west.0, east.0);
        let own = set(pawns.0);
        assert forall|t: int| 0 <= t < 64 implies #[trigger] on(attacks.0, t) == pawn_covers(
            color,
            own,
            t,
        ) by {
            assert(on(west.0, t) == west.has_sq(t) && on(east.0, t) == east.has_sq(t));
            let a = 8 * (rank(t) - west_cap.dr()) + file(t) - west_cap.df();
            let b = 8 * (rank(t) - east_cap.dr()) + file(t) - east_cap.df();
            if west.has_sq(t) {
                assert(own(a));
                assert(pawn_hits(color, a, t));
            }
            if east.has_sq(t) {
                assert(own(b));
                assert(pawn_hits(color, b, t));
            }
            if pawn_covers(color, own, t) {
                let s = choose|s: int| #[trigger] own(s) && pawn_hits(color, s, t);
                assert(s == a || s == b);
                assert(pawns.has_sq(s));
            }
        }
    }
    attacks
}

/// A square is ahead of pawns, on their own or a neighbouring file, if it or a
/// neighbour on its rank is ahead of one on the same file.
#[verifier::rlimit(30)]
proof fn lemma_span_at(color: Color, own: spec_fn(int) -> bool, span: u64, t: int)
    requires
        0 <= t < 64,
        forall|s: int| #[trigger] own(s) ==> 0 <= s < 64,
        forall|u: int|
            0 <= u < 64 ==> #[trigger] on(span, u) == (exists|s: int| #[trigger]
                own(s) && file(s) == file(u) && ahead(color, s, u)),
    ensures
        (on(span, t) || (file(t) < 7 && on(span, t + 1)) || (file(t) > 0 && on(span, t - 1)))
            == span_covers(color, own, t),
{
    if on(span, t) || (file(t) < 7 && on(span, t + 1)) || (file(t) > 0 && on(span, t - 1)) {
        let u = if on(span, t) {
            t
        } else if file(t) < 7 && on(span, t + 1) {
            t + 1
        } else {
            t - 1
        };
        let s = choose|s: int| #[trigger] own(s) && file(s) == file(u) && ahead(color, s, u);
        assert(own(s) && gap(file(s), file(t)) <= 1 && ahead(color, s, t));
    }
    if span_covers(color, own, t) {
        let s = choose|s: int| #[trigger]
            own(s) && gap(file(s), file(t)) <= 1 && ahead(color, s, t);
        let u = t + file(s) - file(t);
        assert(own(s) && file(s) == file(u) && ahead(color, s, u));
        assert(on(span, u));
    }
}

/// The squares ahead of pawns on their own and the neighbouring files.
fn pawn_span(pawns: Bitboard, color: Color) -> (front_span: Bitboard)
    ensures
        forall|t: int|
            0 <= t < 64 ==> #[trigger] on(front_span.0, t) == span_covers(color, set(pawns.0), t),
{
    let span = forward_fill(pawns, color);
    let span_west = span.shift(Direction::West);
    let span_east = span.shift(Direction::East);
    let side: u64 = span_west.0 | span_east.0;
    let front_span = Bitboard(span.0 | side);
    proof {
        bits::lemma_ops(span_west.0, span_east.0);
        bits::lemma_ops(span.0, side);
        let own = set(pawns.0);
        assert forall|t: int| 0 <= t < 64 implies #[trigger] on(front_span.0, t)
            == span_covers(color, own, t) by {
            assert(on(span_west.0, t) == span_west.has_sq(t));
            assert(on(span_east.0, t) == span_east.has_sq(t));
            assert(span.has_sq(t + 1) == on(span.0, t + 1));
            assert(span.has_sq(t - 1) == on(span.0, t - 1));
            lemma_span_at(color, own, span.0, t);
        }
    }
    front_span
}

/// A square of `w` lies `j` ranks behind `t` on its file.
spec fn stepped(c: Color, w: u64, t: int, j: int) -> bool {
    match c {
        Color::White => rank(t) - j >= 0 && on(w, t - 8 * j),
        Color::Black => rank(t) + j < 8 && on(w, t + 8 * j),
    }
}

/// The squares ahead of a set on the same file.
#[verifier::rlimit(30)]
fn forward_fill(pawns: Bitboard, color: Color) -> (r: Bitboard)
    ensures
        forall|t: int|
            0 <= t < 64 ==> #[trigger] on(r.0, t) == (exists|s: int| #[trigger]
                set(pawns.0)(s) && file(s) == file(t) && ahead(color, s, t)),
{
    let fwd = color.forward_direction();
    let ghost w = pawns.0;
    let mut span: u64 = 0;
    let mut walk: Bitboard = pawns.shift(fwd);
    let ghost mut k: int = 0;
    proof {
        bits::lemma_empty();
        assert forall|t: int| 0 <= t < 64 implies #[trigger] on(walk.0, t) == stepped(
            color,
            w,
            t,
            1,
        ) by {
            assert(walk.has_sq(t) == on(walk.0, t));
        }
    }
    while walk.0 != 0
        invariant
            0 <= k <= 7,
            fwd.df() == 0,
            fwd.dr() == color.forward(),
            w == pawns.0,
            forall|t: int|
                0 <= t < 64 ==> #[trigger] on(span, t) == (exists|j: int|
                    1 <= j <= k && #[trigger] stepped(color, w, t, j)),
            forall|t: int|
                0 <= t < 64 ==> #[trigger] on(walk.0, t) == stepped(color, w, t, k + 1),
        decreases 8 - k,
    {
        let ghost span0 = span;
        let ghost walk0 = walk.0;
        proof {
            bits::lemma_ops(span, walk.0);
            let t = bits::lemma_some_bit(walk.0);
            assert(stepped(color, w, t, k + 1));
            assert(k + 1 <= 7);
        }
        span = span | walk.0;
        walk = walk.shift(fwd);
        proof {
            k = k + 1;
            assert forall|t: int| 0 <= t < 64 implies #[trigger] on(span, t) == (exists|j: int|
                1 <= j <= k && #[trigger] stepped(color, w, t, j)) by {
                if on(span0, t) {
                    let j = choose|j: int| 1 <= j <= k - 1 && #[trigger] stepped(color, w, t, j);
                    assert(stepped(color, w, t, j));
                }
                if on(walk0, t) {
                    assert(stepped(color, w, t, k));
                }
                if exists|j: int| 1 <= j <= k && #[trigger] stepped(color, w, t, j) {
                    let j = choose|j: int| 1 <= j <= k && #[trigger] stepped(color, w, t, j);
                    if j < k {
                        assert(on(span0, t));
                    } else {
                        assert(on(walk0, t));
                    }
                }
            }
            assert forall|t: int| 0 <= t < 64 implies #[trigger] on(walk.0, t) == stepped(
                color,
                w,
                t,
                k + 1,
            ) by {
                assert(walk.has_sq(t) == on(walk.0, t));
                let u = 8 * (rank(t) - fwd.dr()) + file(t);
                if on_board(file(t), rank(t) - fwd.dr()) {
                    assert(on(walk0, u) == stepped(color, w, u, k));
                    assert(Bitboard(walk0).has_sq(u) == on(walk0, u));
                }
            }
        }
    }
    proof {
        bits::lemma_empty();
        assert forall|t: int| 0 <= t < 64 implies #[trigger] on(span, t) == (exists|s: int| #[trigger]
            set(w)(s) && file(s) == file(t) && ahead(color, s, t)) by {
            if on(span, t) {
                let j = choose|j: int| 1 <= j <= k && #[trigger] stepped(color, w, t, j);
                let s = t - 8 * j * color.forward();
                assert(s == t - 8 * j || s == t + 8 * j);
                assert(set(w)(s) && file(s) == file(t) && ahead(color, s, t));
            }
            if exists|s: int| #[trigger] set(w)(s) && file(s) == file(t) && ahead(color, s, t) {
                let s = choose|s: int| #[trigger]
                    set(w)(s) && file(s) == file(t) && ahead(color, s, t);
                let j = gap(rank(s), rank(t));
                assert(stepped(color, w, t, j));
                if j > k {
                    // The square from which `t` is `j - k - 1` ranks further on.
                    let u = match color {
                        Color::White => t - 8 * (j - k - 1),
                        Color::Black => t + 8 * (j - k - 1),
                    };
                    assert(stepped(color, w, u, k + 1));
                    assert(on(walk.0, u));
                }
            }
        }
    }
    Bitboard(span)
}

// ---------------------------------------------------------------------------
// Material and piece-square tables.
// ---------------------------------------------------------------------------

/// The square as its player sees it.
pub open spec fn own_view(c: Color, i: int) -> int {
    match c {
        Color::White => i,
        Color::Black => flip(i),
    }
}

/// The value of a kind of piece on a square; `ph` is `0` for the midgame and `1`
/// for the endgame.
pub open spec fn worth(ph: int, pt: PieceType, i: int) -> int {
    if ph == 0 {
        MG_VALUE@[pt.ord()] + mg_pst(pt, i)
    } else {
        EG_VALUE@[pt.ord()] + eg_pst(pt, i)
    }
}

pub open spec fn base_at(ph: int, b: Seq<Option<Piece>>, c: Color, i: int) -> int {
    if owned(b, i, c) {
        worth(ph, b[i]->0.piece_type, own_view(c, i))
    } else {
        0
    }
}

/// A player's material and piece-square total.
pub open spec fn base(ph: int, b: Seq<Option<Piece>>, c: Color) -> int {
    sum(|i: int| base_at(ph, b, c, i), 64)
}

pub open spec fn phase_at(b: Seq<Option<Piece>>, i: int) -> int {
    if b[i] is Some {
        PHASE_INC@[b[i]->0.piece_type.ord()] as int
    } else {
        0
    }
}

/// How much material is left, at most [`MAX_PHASE`].
pub open spec fn phase_of(b: Seq<Option<Piece>>) -> int {
    let p = sum(|i: int| phase_at(b, i), 64);
    if p > MAX_PHASE {
        MAX_PHASE as int
    } else {
        p
    }
}

/// The square as a player sees it.
fn seen_from(c: Color, i: usize) -> (r: usize)
    requires
        i < 64,
    ensures
        r == own_view(c, i as int),
        r < 64,
{
    match c {
        Color::White => i,
        Color::Black => 8 * (7 - i / 8) + i % 8,
    }
}

/// White's material and piece-square total minus Black's, and the phase.
#[verifier::rlimit(30)]
fn material(pos: &Position) -> (r: (i32, i32, i32))
    requires
        pos.wf(),
    ensures
        r.0 == base(0, pos@.board, Color::White) - base(0, pos@.board, Color::Black),
        r.1 == base(1, pos@.board, Color::White) - base(1, pos@.board, Color::Black),
        r.2 == phase_of(pos@.board),
        -83200 <= r.0 <= 83200,
        -83200 <= r.1 <= 83200,
        0 <= r.2 <= MAX_PHASE,
{
    let ghost b = pos@.board;
    let ghost w0 = |i: int| base_at(0, b, Color::White, i);
    let ghost w1 = |i: int| base_at(1, b, Color::White, i);
    let ghost b0 = |i: int| base_at(0, b, Color::Black, i);
    let ghost b1 = |i: int| base_at(1, b, Color::Black, i);
    let ghost ph = |i: int| phase_at(b, i);
    let mut mg: i32 = 0;
    let mut eg: i32 = 0;
    let mut phase: i32 = 0;
    let mut w: u64 = pos.occupied().0;
    let ghost all = w;
    let ghost mut at: int = 0;
    while w != 0
        invariant
            b == pos@.board,
            occupied_by(b, all),
            left_from(all, w, at),
            w0 == (|i: int| base_at(0, b, Color::White, i)),
            w1 == (|i: int| base_at(1, b, Color::White, i)),
            b0 == (|i: int| base_at(0, b, Color::Black, i)),
            b1 == (|i: int| base_at(1, b, Color::Black, i)),
            ph == (|i: int| phase_at(b, i)),
            zero_off(w0, all) && zero_off(w1, all) && zero_off(b0, all) && zero_off(b1, all)
                && zero_off(ph, all),
            mg == sum(w0, at) - sum(b0, at),
            eg == sum(w1, at) - sum(b1, at),
            phase == sum(ph, at),
            -1300 * at <= mg <= 1300 * at,
            -1300 * at <= eg <= 1300 * at,
            0 <= phase <= 4 * at,
        decreases 64 - at,
    {
        let ghost before = w;
        let i: usize = bits::take_first(&mut w);
        proof {
            bits::lemma_walk(all, before, at, i as int, w0);
            bits::lemma_walk(all, before, at, i as int, w1);
            bits::lemma_walk(all, before, at, i as int, b0);
            bits::lemma_walk(all, before, at, i as int, b1);
            bits::lemma_walk(all, before, at, i as int, ph);
            bits::lemma_walk_left(all, before, w, at, i as int);
            assert(on(all, i as int));
        }
        let p: Piece = pos.board[i].unwrap();
        let k: usize = p.piece_type.index();
        let (tm, te): (i32, i32) = pst(p.piece_type, seen_from(p.color, i));
        proof {
            lemma_pst_bound(p.piece_type, own_view(p.color, i as int));
        }
        let vm: i32 = MG_VALUE[k] + tm;
        let ve: i32 = EG_VALUE[k] + te;
        match p.color {
            Color::White => {
                mg = mg + vm;
                eg = eg + ve;
            },
            Color::Black => {
                mg = mg - vm;
                eg = eg - ve;
            },
        }
        phase = phase + PHASE_INC[k];
        proof {
            at = i as int + 1;
        }
    }
    proof {
        bits::lemma_walk_end(all, w, at, w0);
        bits::lemma_walk_end(all, w, at, w1);
        bits::lemma_walk_end(all, w, at, b0);
        bits::lemma_walk_end(all, w, at, b1);
        bits::lemma_walk_end(all, w, at, ph);
    }
    if phase > MAX_PHASE {
        phase = MAX_PHASE;
    }
    (mg, eg, phase)
}

// ---------------------------------------------------------------------------
// How many pieces there are.
// ---------------------------------------------------------------------------

/// How many pieces a player has.
pub open spec fn men(b: Seq<Option<Piece>>, c: Color) -> int {
    count(|i: int| owned(b, i, c))
}

/// No player has more pieces than at the start of a game.
#[verifier::opaque]
pub open spec fn ordinary(b: Seq<Option<Piece>>) -> bool {
    men(b, Color::White) <= 16 && men(b, Color::Black) <= 16
}

/// The number of pieces after a square is emptied or filled.
#[verifier::rlimit(30)]
proof fn lemma_men_update(b: Seq<Option<Piece>>, k: int, x: Option<Piece>, c: Color)
    requires
        b.len() == 64,
        0 <= k < 64,
    ensures
        men(b.update(k, x), c) == men(b, c) - bits::one_if(owned(b, k, c)) + bits::one_if(
            x is Some && x->0.color == c,
        ),
{
    let n = b.update(k, x);
    let f = |i: int| bits::one_if(owned(b, i, c));
    let g = |i: int| bits::one_if(owned(n, i, c));
    assert forall|i: int| 0 <= i < 64 && i != k implies #[trigger] f(i) == g(i) by {
        assert(n[i] == b[i]);
    }
    bits::lemma_sum_one(f, g, k, 64);
    let p = |i: int| owned(b, i, c);
    let q = |i: int| owned(n, i, c);
    assert(f =~= |i: int| bits::one_if(p(i)));
    assert(g =~= |i: int| bits::one_if(q(i)));
}

/// Moves add no pieces.
#[verifier::rlimit(30)]
pub proof fn lemma_ordinary(v: PosView, m: Move)
    requires
        v.wf(),
        rules::pseudo(v, m),
        ordinary(v.board),
    ensures
        ordinary(rules::apply(v, m).board),
{
    reveal(ordinary);
    let b = v.board;
    let from = m.from.i();
    let to = m.to.i();
    let one = b.update(from, None);
    lemma_men_update(b, from, None, Color::White);
    lemma_men_update(b, from, None, Color::Black);
    match m.kind {
        MoveType::Normal => {
            lemma_men_update(one, to, b[from], Color::White);
            lemma_men_update(one, to, b[from], Color::Black);
        },
        MoveType::Promotion => {
            let p = Some(rules::piece(v.side, m.promo));
            lemma_men_update(one, to, p, Color::White);
            lemma_men_update(one, to, p, Color::Black);
        },
        MoveType::EnPassant => {
            let k = rules::ep_victim(v.side, to);
            let two = one.update(k, None);
            lemma_men_update(one, k, None, Color::White);
            lemma_men_update(one, k, None, Color::Black);
            lemma_men_update(two, to, b[from], Color::White);
            lemma_men_update(two, to, b[from], Color::Black);
        },
        MoveType::Castling => {
            let two = one.update(to, None);
            let three = two.update(m.lands(), b[from]);
            lemma_men_update(one, to, None, Color::White);
            lemma_men_update(one, to, None, Color::Black);
            lemma_men_update(two, m.lands(), b[from], Color::White);
            lemma_men_update(two, m.lands(), b[from], Color::Black);
            lemma_men_update(three, rules::rook_lands(m), b[to], Color::White);
            lemma_men_update(three, rules::rook_lands(m), b[to], Color::Black);
        },
    }
}

// ---------------------------------------------------------------------------
// Mobility.
// ---------------------------------------------------------------------------

/// A square that player `c` can safely move to: no own piece is there and no
/// enemy pawn attacks it.
pub open spec fn safe_square(b: Seq<Option<Piece>>, c: Color, t: int) -> bool {
    !owned(b, t, c) && !pawn_covers(c.other(), pawns_of(b, c.other()), t)
}

/// How many safe squares the piece on `i` attacks.
pub open spec fn room(b: Seq<Option<Piece>>, c: Color, i: int) -> int {
    count(|t: int| reach(b, b[i]->0, i, t) && safe_square(b, c, t))
}

/// The mobility bonus of a kind of piece with `n` safe squares.
pub open spec fn mobility_bonus(ph: int, pt: PieceType, n: int) -> int {
    match pt {
        PieceType::Knight => if ph == 0 {
            MG_KNIGHT_MOB@[n] as int
        } else {
            EG_KNIGHT_MOB@[n] as int
        },
        PieceType::Bishop => if ph == 0 {
            MG_BISHOP_MOB@[n] as int
        } else {
            EG_BISHOP_MOB@[n] as int
        },
        PieceType::Rook => if ph == 0 {
            MG_ROOK_MOB@[n] as int
        } else {
            EG_ROOK_MOB@[n] as int
        },
        PieceType::Queen => if ph == 0 {
            MG_QUEEN_MOB@[n] as int
        } else {
            EG_QUEEN_MOB@[n] as int
        },
        _ => 0,
    }
}

pub open spec fn mobile(pt: PieceType) -> bool {
    pt == PieceType::Knight || pt == PieceType::Bishop || pt == PieceType::Rook || pt
        == PieceType::Queen
}

pub open spec fn mobility_at(ph: int, b: Seq<Option<Piece>>, c: Color, i: int) -> int {
    if owned(b, i, c) && mobile(b[i]->0.piece_type) {
        mobility_bonus(ph, b[i]->0.piece_type, room(b, c, i))
    } else {
        0
    }
}

/// A player's mobility total.
pub open spec fn mobility_of(ph: int, b: Seq<Option<Piece>>, c: Color) -> int {
    sum(|i: int| mobility_at(ph, b, c, i), 64)
}

/// The mobility bonuses of a kind of piece.
fn mobility_bonuses(pt: PieceType, n: usize) -> (r: (i32, i32))
    requires
        mobile(pt),
        n <= attacks::max_reach(pt),
    ensures
        r.0 == mobility_bonus(0, pt, n as int),
        r.1 == mobility_bonus(1, pt, n as int),
        -50 <= r.0 <= 50,
        -50 <= r.1 <= 50,
{
    match pt {
        PieceType::Knight => (MG_KNIGHT_MOB[n], EG_KNIGHT_MOB[n]),
        PieceType::Bishop => (MG_BISHOP_MOB[n], EG_BISHOP_MOB[n]),
        PieceType::Rook => (MG_ROOK_MOB[n], EG_ROOK_MOB[n]),
        _ => (MG_QUEEN_MOB[n], EG_QUEEN_MOB[n]),
    }
}

/// The knights, bishops, rooks and queens of a player.
fn mobile_pieces(pos: &Position, color: Color) -> (r: u64)
    requires
        pos.wf(),
    ensures
        forall|i: int|
            #[trigger] on(r, i) == (owned(pos@.board, i, color) && mobile(
                pos@.board[i]->0.piece_type,
            )),
{
    let n: u64 = pos.pieces_cp(color, PieceType::Knight).0;
    let d: u64 = pos.pieces_cp(color, PieceType::Bishop).0;
    let r: u64 = pos.pieces_cp(color, PieceType::Rook).0;
    let q: u64 = pos.pieces_cp(color, PieceType::Queen).0;
    proof {
        bits::lemma_ops(n, d);
        bits::lemma_ops(r, q);
        bits::lemma_ops(n | d, r | q);
    }
    (n | d) | (r | q)
}

/// One player's mobility.  `enemy_pawn_attacks` are the squares to avoid; own
/// pieces block their own moves.
#[verifier::rlimit(30)]
fn mobility_for(pos: &Position, color: Color, occ: Bitboard, enemy_pawn_attacks: Bitboard) -> (r: (
    i32,
    i32,
))
    requires
        pos.wf(),
        occupied_by(pos@.board, occ.0),
        forall|t: int|
            0 <= t < 64 ==> #[trigger] on(enemy_pawn_attacks.0, t) == pawn_covers(
                color.other(),
                pawns_of(pos@.board, color.other()),
                t,
            ),
    ensures
        r.0 == mobility_of(0, pos@.board, color),
        r.1 == mobility_of(1, pos@.board, color),
        -3200 <= r.0 <= 3200,
        -3200 <= r.1 <= 3200,
        -50 * men(pos@.board, color) <= r.0 <= 50 * men(pos@.board, color),
        -50 * men(pos@.board, color) <= r.1 <= 50 * men(pos@.board, color),
{
    let ghost b = pos@.board;
    let own: u64 = pos.pieces(color).0;
    let allowed: u64 = !own & !enemy_pawn_attacks.0;
    proof {
        bits::lemma_ops(own, enemy_pawn_attacks.0);
        bits::lemma_ops(!own, !enemy_pawn_attacks.0);
        assert forall|t: int| 0 <= t < 64 implies #[trigger] on(allowed, t) == safe_square(
            b,
            color,
            t,
        ) by {
            assert(on(own, t) == owned(b, t, color));
        }
    }
    let ghost f0 = |i: int| mobility_at(0, b, color, i);
    let ghost f1 = |i: int| mobility_at(1, b, color, i);
    let mut mg: i32 = 0;
    let mut eg: i32 = 0;
    let mut w: u64 = mobile_pieces(pos, color);
    let ghost all = w;
    let ghost ones = |i: int| one_if(on(all, i));
    let ghost mut at: int = 0;
    while w != 0
        invariant
            pos.wf(),
            b == pos@.board,
            ones == (|i: int| one_if(on(all, i))),
            zero_off(ones, all),
            -50 * sum(ones, at) <= mg <= 50 * sum(ones, at),
            -50 * sum(ones, at) <= eg <= 50 * sum(ones, at),
            occupied_by(b, occ.0),
            forall|t: int| 0 <= t < 64 ==> #[trigger] on(allowed, t) == safe_square(b, color, t),
            forall|i: int|
                #[trigger] on(all, i) == (owned(b, i, color) && mobile(b[i]->0.piece_type)),
            left_from(all, w, at),
            f0 == (|i: int| mobility_at(0, b, color, i)),
            f1 == (|i: int| mobility_at(1, b, color, i)),
            zero_off(f0, all) && zero_off(f1, all),
            mg == sum(f0, at),
            eg == sum(f1, at),
            -50 * at <= mg <= 50 * at,
            -50 * at <= eg <= 50 * at,
        decreases 64 - at,
    {
        let ghost before = w;
        let i: usize = bits::take_first(&mut w);
        proof {
            bits::lemma_walk(all, before, at, i as int, f0);
            bits::lemma_walk(all, before, at, i as int, f1);
            bits::lemma_walk(all, before, at, i as int, ones);
            bits::lemma_walk_left(all, before, w, at, i as int);
            assert(on(all, i as int));
        }
        let p: Piece = pos.board[i].unwrap();
        let hits: u64 = attacks::piece_attacks(p.piece_type, i, occ.0);
        let free: u64 = hits & allowed;
        let n: u32 = bits::popcount(free);
        proof {
            bits::lemma_ops(hits, allowed);
            let q = |t: int| on(free, t);
            let e = |t: int| reach(b, b[i as int]->0, i as int, t) && safe_square(b, color, t);
            assert forall|t: int| 0 <= t < 64 implies #[trigger] q(t) == e(t) by {
                rules::lemma_reach_word(b, occ.0, b[i as int]->0, i as int, t);
            }
            bits::lemma_count_ext(q, e);
            attacks::lemma_reach_count(p.piece_type, occ.0, i as int, q);
        }
        let (dm, de): (i32, i32) = mobility_bonuses(p.piece_type, n as usize);
        mg = mg + dm;
        eg = eg + de;
        proof {
            at = i as int + 1;
        }
    }
    proof {
        bits::lemma_walk_end(all, w, at, f0);
        bits::lemma_walk_end(all, w, at, f1);
        bits::lemma_walk_end(all, w, at, ones);
        let p = |i: int| on(all, i);
        bits::lemma_count_le(p, |i: int| owned(b, i, color));
        bits::lemma_sum_ext(ones, |i: int| one_if(p(i)), 64);
    }
    (mg, eg)
}

/// White's mobility minus Black's.
fn mobility(pos: &Position, white: &PawnInfo, black: &PawnInfo) -> (r: (i32, i32))
    requires
        pos.wf(),
        white.of(pos@.board, Color::White),
        black.of(pos@.board, Color::Black),
    ensures
        r.0 == mobility_of(0, pos@.board, Color::White) - mobility_of(
            0,
            pos@.board,
            Color::Black,
        ),
        r.1 == mobility_of(1, pos@.board, Color::White) - mobility_of(
            1,
            pos@.board,
            Color::Black,
        ),
        -6400 <= r.0 <= 6400,
        -6400 <= r.1 <= 6400,
        ordinary(pos@.board) ==> -1600 <= r.0 <= 1600 && -1600 <= r.1 <= 1600,
{
    let occ = pos.occupied();
    proof {
        reveal(ordinary);
    }
    let (wm, we): (i32, i32) = mobility_for(pos, Color::White, occ, black.attacks);
    let (bm, be): (i32, i32) = mobility_for(pos, Color::Black, occ, white.attacks);
    (wm - bm, we - be)
}

// ---------------------------------------------------------------------------
// King safety.
// ---------------------------------------------------------------------------

/// `t` is on one of the two ranks just ahead of the king on `k`, on its file or
/// a neighbouring one.
pub open spec fn in_shield(c: Color, k: int, t: int) -> bool {
    gap(file(k), file(t)) <= 1 && ahead(c, k, t) && gap(rank(k), rank(t)) <= 2
}

/// How many own pawns shield the king.
pub open spec fn shield_of(b: Seq<Option<Piece>>, c: Color) -> int {
    count(|t: int| holds(b, t, c, PieceType::Pawn) && in_shield(c, king_sq(b, c), t))
}

/// The piece on `i` attacks a square next to `k`.
pub open spec fn presses(b: Seq<Option<Piece>>, i: int, k: int) -> bool {
    exists|t: int| 0 <= t < 64 && #[trigger] king_hits(k, t) && reach(b, b[i]->0, i, t)
}

pub open spec fn danger_at(b: Seq<Option<Piece>>, c: Color, i: int) -> int {
    if owned(b, i, c.other()) && mobile(b[i]->0.piece_type) && presses(b, i, king_sq(b, c)) {
        KING_ATTACK_WEIGHT@[b[i]->0.piece_type.ord()] as int
    } else {
        0
    }
}

/// The summed weight of the enemy pieces that attack squares next to the king.
pub open spec fn danger_of(b: Seq<Option<Piece>>, c: Color) -> int {
    sum(|i: int| danger_at(b, c, i), 64)
}

/// The midgame king-safety score of a player.
pub open spec fn king_safety_of(b: Seq<Option<Piece>>, c: Color) -> int {
    let d = danger_of(b, c);
    KING_SHIELD * shield_of(b, c) - KING_SAFETY_TABLE@[if d > 29 {
        29
    } else {
        d
    }]
}

/// The squares behind a square as a player sees it, over the whole board.
pub fn behind_span(color: Color, sq: Square) -> (r: Bitboard)
    requires
        sq.wf(),
    ensures
        forall|t: int| 0 <= t < 64 ==> #[trigger] on(r.0, t) == ahead(color, t, sq.i()),
{
    let k: u64 = sq.rank() as u64;
    let w: u64 = match color {
        Color::White => !squares_from(8 * k),
        Color::Black => if k == 7 {
            0
        } else {
            squares_from(8 * k + 8)
        },
    };
    proof {
        bits::lemma_empty();
        assert forall|t: int| 0 <= t < 64 implies #[trigger] on(w, t) == ahead(
            color,
            t,
            sq.i(),
        ) by {
        }
    }
    Bitboard(w)
}

/// The squares from number `n` on.
fn squares_from(n: u64) -> (r: u64)
    requires
        n < 64,
    ensures
        forall|t: int| 0 <= t < 64 ==> #[trigger] on(r, t) == (t >= n),
        forall|t: int| 0 <= t < 64 ==> #[trigger] on(!r, t) == (t < n),
{
    let r: u64 = u64::MAX << n;
    proof {
        assert forall|t: int| 0 <= t < 64 implies #[trigger] on(r, t) == (t >= n) by {
            let u = t as u64;
            assert(((r >> u) & 1 == 1) == (u >= n)) by (bit_vector)
                requires
                    n < 64,
                    u < 64,
                    r == 0xFFFF_FFFF_FFFF_FFFFu64 << n,
            ;
        }
        bits::lemma_ops(r, r);
    }
    r
}

/// The squares on which own pawns shield the king on `ksq`.
fn shield_zone(color: Color, ksq: Square, ring: u64) -> (r: u64)
    requires
        ksq.wf(),
        forall|t: int| 0 <= t < 64 ==> #[trigger] on(ring, t) == king_hits(ksq.i(), t),
    ensures
        forall|t: int| 0 <= t < 64 ==> #[trigger] on(r, t) == in_shield(color, ksq.i(), t),
{
    let fwd = color.forward_direction();
    let far = Bitboard(ring).shift(fwd);
    let near: u64 = ring | far.0;
    let front: u64 = behind_span(color.opponent(), ksq).0;
    let r: u64 = near & front;
    proof {
        bits::lemma_ops(ring, far.0);
        bits::lemma_ops(near, front);
        let k = ksq.i();
        assert forall|t: int| 0 <= t < 64 implies #[trigger] on(r, t) == in_shield(color, k, t) by {
            assert(on(far.0, t) == far.has_sq(t));
            let u = 8 * (rank(t) - fwd.dr()) + file(t);
            if on_board(file(t), rank(t) - fwd.dr()) {
                assert(Bitboard(ring).has_sq(u) == on(ring, u));
                assert(on(ring, u) == king_hits(k, u));
                assert(file(u) == file(t) && rank(u) == rank(t) - fwd.dr());
            }
            assert(on(front, t) == ahead(color.other(), t, k));
        }
    }
    r
}

/// The summed weight of the enemy pieces that attack squares next to the king.
fn king_danger(pos: &Position, color: Color, ring: u64) -> (r: i32)
    requires
        pos.wf(),
        forall|t: int|
            0 <= t < 64 ==> #[trigger] on(ring, t) == king_hits(king_sq(pos@.board, color), t),
    ensures
        r == danger_of(pos@.board, color),
        0 <= r <= 320,
{
    let ghost b = pos@.board;
    let ghost k = king_sq(b, color);
    let enemy = color.opponent();
    let occ: u64 = pos.occupied().0;
    let ghost f = |i: int| danger_at(b, color, i);
    let mut danger: i32 = 0;
    let mut w: u64 = mobile_pieces(pos, enemy);
    let ghost all = w;
    let ghost mut at: int = 0;
    while w != 0
        invariant
            pos.wf(),
            b == pos@.board,
            k == king_sq(b, color),
            occupied_by(b, occ),
            forall|t: int| 0 <= t < 64 ==> #[trigger] on(ring, t) == king_hits(k, t),
            forall|i: int|
                #[trigger] on(all, i) == (owned(b, i, color.other()) && mobile(
                    b[i]->0.piece_type,
                )),
            left_from(all, w, at),
            f == (|i: int| danger_at(b, color, i)),
            zero_off(f, all),
            danger == sum(f, at),
            0 <= danger <= 5 * at,
        decreases 64 - at,
    {
        let ghost before = w;
        let i: usize = bits::take_first(&mut w);
        proof {
            bits::lemma_walk(all, before, at, i as int, f);
            bits::lemma_walk_left(all, before, w, at, i as int);
            assert(on(all, i as int));
        }
        let p: Piece = pos.board[i].unwrap();
        let hits: u64 = attacks::piece_attacks(p.piece_type, i, occ);
        let both: u64 = hits & ring;
        proof {
            bits::lemma_ops(hits, ring);
            bits::lemma_empty();
            if both != 0 {
                let t = bits::lemma_some_bit(both);
                rules::lemma_reach_word(b, occ, b[i as int]->0, i as int, t);
                assert(king_hits(k, t) && reach(b, b[i as int]->0, i as int, t));
            }
            if presses(b, i as int, k) {
                let t = choose|t: int|
                    0 <= t < 64 && #[trigger] king_hits(k, t) && reach(
                        b,
                        b[i as int]->0,
                        i as int,
                        t,
                    );
                rules::lemma_reach_word(b, occ, b[i as int]->0, i as int, t);
                assert(on(ring, t));
                assert(on(both, t));
            }
        }
        if both != 0 {
            danger = danger + KING_ATTACK_WEIGHT[p.piece_type.index()];
        }
        proof {
            at = i as int + 1;
        }
    }
    proof {
        bits::lemma_walk_end(all, w, at, f);
    }
    danger
}

/// The midgame king-safety score of a player.
#[verifier::rlimit(30)]
fn king_safety_for(pos: &Position, color: Color, own_pawns: &PawnInfo) -> (r: i32)
    requires
        pos.wf(),
        own_pawns.of(pos@.board, color),
    ensures
        r == king_safety_of(pos@.board, color),
        -600 <= r <= 600,
{
    let ghost b = pos@.board;
    let ksq = pos.king_square(color);
    let ring: u64 = attacks::king_attacks(ksq.index());
    let zone: u64 = shield_zone(color, ksq, ring);
    let guards: u64 = zone & own_pawns.pawns.0;
    let shield: i32 = bits::popcount(guards) as i32;
    proof {
        bits::lemma_ops(zone, own_pawns.pawns.0);
        let p = |t: int| on(guards, t);
        let q = |t: int|
            holds(b, t, color, PieceType::Pawn) && in_shield(color, king_sq(b, color), t);
        assert forall|t: int| 0 <= t < 64 implies #[trigger] p(t) == q(t) by {
            assert(set(own_pawns.pawns.0)(t) == pawns_of(b, color)(t));
        }
        bits::lemma_count_ext(p, q);
    }
    let sum: i32 = king_danger(pos, color, ring);
    let danger: usize = if sum > 29 {
        29
    } else {
        sum as usize
    };
    shield * KING_SHIELD - KING_SAFETY_TABLE[danger]
}

/// White's king safety minus Black's; it counts in the midgame only.
fn king_safety(pos: &Position, white: &PawnInfo, black: &PawnInfo) -> (r: (i32, i32))
    requires
        pos.wf(),
        white.of(pos@.board, Color::White),
        black.of(pos@.board, Color::Black),
    ensures
        r.0 == king_safety_of(pos@.board, Color::White) - king_safety_of(
            pos@.board,
            Color::Black,
        ),
        r.1 == 0,
        -1200 <= r.0 <= 1200,
{
    let w: i32 = king_safety_for(pos, Color::White, white);
    let b: i32 = king_safety_for(pos, Color::Black, black);
    (w - b, 0)
}

// ---------------------------------------------------------------------------
// Pawn structure.
// ---------------------------------------------------------------------------

/// How many pawns stand on a file.
pub open spec fn on_file(own: spec_fn(int) -> bool, f: int) -> int {
    count(|t: int| own(t) && file(t) == f)
}

/// The penalty for more than one pawn on a file.
pub open spec fn doubled_at(ph: int, own: spec_fn(int) -> bool, f: int) -> int {
    if on_file(own, f) > 1 {
        DOUBLED_PAWN@[ph] * (on_file(own, f) - 1)
    } else {
        0
    }
}

/// Another of the pawns stands on a neighbouring file.
pub open spec fn has_neighbour(own: spec_fn(int) -> bool, s: int) -> bool {
    exists|t: int| #[trigger] own(t) && gap(file(t), file(s)) == 1
}

/// Another of the pawns stands on a neighbouring file, level with `s` or behind
/// it.
pub open spec fn supported(c: Color, own: spec_fn(int) -> bool, s: int) -> bool {
    exists|t: int| #[trigger] own(t) && gap(file(t), file(s)) == 1 && !ahead(c, s, t)
}

/// The pawn on `s` lags behind its neighbours and an enemy pawn guards the square
/// in front of it.
pub open spec fn backward(
    c: Color,
    own: spec_fn(int) -> bool,
    enemy: spec_fn(int) -> bool,
    s: int,
) -> bool {
    &&& 0 <= rank(s) + c.forward() < 8
    &&& !supported(c, own, s)
    &&& pawn_covers(c.other(), enemy, s + 8 * c.forward())
}

/// No enemy pawn can stop or capture the pawn on `s` on its way.
pub open spec fn passed(c: Color, enemy: spec_fn(int) -> bool, s: int) -> bool {
    !span_covers(c.other(), enemy, s)
}

pub open spec fn passed_bonus(ph: int, r: int) -> int {
    if ph == 0 {
        MG_PASSED_PAWN@[r] as int
    } else {
        EG_PASSED_PAWN@[r] as int
    }
}

/// What the pawn on `s` adds to the score.
pub open spec fn pawn_at(
    ph: int,
    c: Color,
    own: spec_fn(int) -> bool,
    enemy: spec_fn(int) -> bool,
    s: int,
) -> int {
    if own(s) {
        (if !has_neighbour(own, s) {
            ISOLATED_PAWN@[ph] as int
        } else if backward(c, own, enemy, s) {
            BACKWARD_PAWN@[ph] as int
        } else {
            0
        }) + (if passed(c, enemy, s) {
            passed_bonus(ph, rel_rank(c, s))
        } else {
            0
        })
    } else {
        0
    }
}

/// The pawn-structure score of the pawns `own` of player `c`.
pub open spec fn pawn_score(
    ph: int,
    c: Color,
    own: spec_fn(int) -> bool,
    enemy: spec_fn(int) -> bool,
) -> int {
    sum(|f: int| doubled_at(ph, own, f), 8) + sum(|s: int| pawn_at(ph, c, own, enemy, s), 64)
}

/// The squares on the files next to a set of squares.
fn adjacent_files(files: Bitboard) -> (r: Bitboard)
    ensures
        forall|t: int|
            0 <= t < 64 ==> #[trigger] on(r.0, t) == ((file(t) < 7 && on(files.0, t + 1)) || (file(t)
                > 0 && on(files.0, t - 1))),
{
    let west = files.shift(Direction::West);
    let east = files.shift(Direction::East);
    proof {
        bits::lemma_ops(west.0, east.0);
        assert forall|t: int| 0 <= t < 64 implies #[trigger] on(west.0 | east.0, t) == ((file(t) < 7
            && on(files.0, t + 1)) || (file(t) > 0 && on(files.0, t - 1))) by {
            assert(on(west.0, t) == west.has_sq(t) && on(east.0, t) == east.has_sq(t));
            assert(files.has_sq(t + 1) == on(files.0, t + 1));
            assert(files.has_sq(t - 1) == on(files.0, t - 1));
        }
    }
    Bitboard(west.0 | east.0)
}

/// The files next to that of a square.
#[verifier::rlimit(30)]
fn neighbour_files(s: Square) -> (r: Bitboard)
    requires
        s.wf(),
    ensures
        forall|t: int|
            0 <= t < 64 ==> #[trigger] on(r.0, t) == (gap(file(t), file(s.i())) == 1),
{
    let f = Bitboard::file_bb(s);
    let r = adjacent_files(f);
    proof {
        assert forall|t: int| 0 <= t < 64 implies #[trigger] on(r.0, t) == (gap(
            file(t),
            file(s.i()),
        ) == 1) by {
            if file(t) < 7 {
                assert(f.has_sq(t + 1) == on(f.0, t + 1));
            }
            if file(t) > 0 {
                assert(f.has_sq(t - 1) == on(f.0, t - 1));
            }
        }
    }
    r
}

/// Is a pawn backward?
fn is_backward(color: Color, sq: Square, own: &PawnInfo, enemy: &PawnInfo) -> (r: bool)
    requires
        sq.wf(),
        own.wf(color),
        enemy.wf(color.other()),
    ensures
        r == backward(color, set(own.pawns.0), set(enemy.pawns.0), sq.i()),
{
    let fwd = color.forward_direction();
    let push = match sq.offset(fwd) {
        Some(s) => s,
        None => {
            return false;
        },
    };
    assert(push.i() == sq.i() + 8 * color.forward());
    let adj: u64 = neighbour_files(sq).0;
    let behind: u64 = behind_span(color, sq).0;
    let level = Bitboard::rank_bb(sq);
    let back: u64 = behind | level.0;
    let near: u64 = adj & back;
    let help: u64 = near & own.pawns.0;
    proof {
        bits::lemma_ops(behind, level.0);
        bits::lemma_ops(adj, back);
        bits::lemma_ops(near, own.pawns.0);
        bits::lemma_empty();
        let o = set(own.pawns.0);
        let s = sq.i();
        assert forall|t: int| 0 <= t < 64 implies #[trigger] on(help, t) == (o(t) && gap(
            file(t),
            file(s),
        ) == 1 && !ahead(color, s, t)) by {
            assert(level.has_sq(t) == on(level.0, t));
            assert(on(behind, t) == ahead(color, t, s));
        }
        if help != 0 {
            let t = bits::lemma_some_bit(help);
            assert(o(t));
        }
        if supported(color, o, s) {
            let t = choose|t: int| #[trigger]
                o(t) && gap(file(t), file(s)) == 1 && !ahead(color, s, t);
            assert(on(help, t));
        }
    }
    if help != 0 {
        return false;
    }
    enemy.attacks.contains(push)
}

/// A square's rank counted from the player's own back rank.
pub fn relative_rank(color: Color, sq: Square) -> (r: u8)
    requires
        sq.wf(),
    ensures
        r == rel_rank(color, sq.i()),
        r < 8,
{
    match color {
        Color::White => sq.rank(),
        Color::Black => 7 - sq.rank(),
    }
}

/// The penalties for doubled pawns.
fn doubled_pawns(pawns: Bitboard) -> (r: (i32, i32))
    ensures
        r.0 == sum(|f: int| doubled_at(0, set(pawns.0), f), 8),
        r.1 == sum(|f: int| doubled_at(1, set(pawns.0), f), 8),
        -10240 <= r.0 <= 0,
        -10240 <= r.1 <= 0,
{
    let ghost own = set(pawns.0);
    let ghost d0 = |f: int| doubled_at(0, own, f);
    let ghost d1 = |f: int| doubled_at(1, own, f);
    let mut mg: i32 = 0;
    let mut eg: i32 = 0;
    let mut f: u8 = 0;
    while f < 8
        invariant
            f <= 8,
            own == set(pawns.0),
            d0 == (|f: int| doubled_at(0, own, f)),
            d1 == (|f: int| doubled_at(1, own, f)),
            mg == sum(d0, f as int),
            eg == sum(d1, f as int),
            -1280 * f <= mg <= 0,
            -1280 * f <= eg <= 0,
        decreases 8 - f,
    {
        let mask = Bitboard::file_bb(Square::make(f, 0));
        let mine: u64 = pawns.0 & mask.0;
        let n: i32 = bits::popcount(mine) as i32;
        proof {
            bits::lemma_ops(pawns.0, mask.0);
            let p = |t: int| on(mine, t);
            let q = |t: int| own(t) && file(t) == f;
            assert forall|t: int| 0 <= t < 64 implies #[trigger] p(t) == q(t) by {
                assert(mask.has_sq(t) == on(mask.0, t));
            }
            bits::lemma_count_ext(p, q);
            assert(n == on_file(own, f as int));
        }
        if n > 1 {
            mg = mg + DOUBLED_PAWN[0] * (n - 1);
            eg = eg + DOUBLED_PAWN[1] * (n - 1);
        }
        f = f + 1;
    }
    (mg, eg)
}

/// One player's pawn-structure score.
#[verifier::rlimit(30)]
pub fn pawn_structure_for(color: Color, own: &PawnInfo, enemy: &PawnInfo) -> (r: (i32, i32))
    requires
        own.wf(color),
        enemy.wf(color.other()),
    ensures
        r.0 == pawn_score(0, color, set(own.pawns.0), set(enemy.pawns.0)),
        r.1 == pawn_score(1, color, set(own.pawns.0), set(enemy.pawns.0)),
        -23040 <= r.0 <= 12800,
        -23040 <= r.1 <= 12800,
{
    let ghost o = set(own.pawns.0);
    let ghost e = set(enemy.pawns.0);
    let ghost f0 = |s: int| pawn_at(0, color, o, e, s);
    let ghost f1 = |s: int| pawn_at(1, color, o, e, s);
    let mut mg: i32 = 0;
    let mut eg: i32 = 0;
    let mut w: u64 = own.pawns.0;
    let ghost all = w;
    let ghost mut at: int = 0;
    while w != 0
        invariant
            own.wf(color),
            enemy.wf(color.other()),
            all == own.pawns.0,
            o == set(own.pawns.0),
            e == set(enemy.pawns.0),
            left_from(all, w, at),
            f0 == (|s: int| pawn_at(0, color, o, e, s)),
            f1 == (|s: int| pawn_at(1, color, o, e, s)),
            zero_off(f0, all) && zero_off(f1, all),
            mg == sum(f0, at),
            eg == sum(f1, at),
            -200 * at <= mg <= 200 * at,
            -200 * at <= eg <= 200 * at,
        decreases 64 - at,
    {
        let ghost before = w;
        let i: usize = bits::take_first(&mut w);
        let ghost s = i as int;
        proof {
            bits::lemma_walk(all, before, at, s, f0);
            bits::lemma_walk(all, before, at, s, f1);
            bits::lemma_walk_left(all, before, w, at, s);
            assert(on(all, s));
        }
        let sq = Square(i as u8);
        let adj: u64 = neighbour_files(sq).0;
        let near: u64 = adj & own.pawns.0;
        proof {
            bits::lemma_ops(adj, own.pawns.0);
            bits::lemma_empty();
            if near != 0 {
                let t = bits::lemma_some_bit(near);
                assert(o(t) && gap(file(t), file(s)) == 1);
            }
            if has_neighbour(o, s) {
                let t = choose|t: int| #[trigger] o(t) && gap(file(t), file(s)) == 1;
                assert(on(near, t));
            }
        }
        if near == 0 {
            mg = mg + ISOLATED_PAWN[0];
            eg = eg + ISOLATED_PAWN[1];
        } else if is_backward(color, sq, own, enemy) {
            mg = mg + BACKWARD_PAWN[0];
            eg = eg + BACKWARD_PAWN[1];
        }
        if !enemy.front_span.contains(sq) {
            let r: usize = relative_rank(color, sq) as usize;
            mg = mg + MG_PASSED_PAWN[r];
            eg = eg + EG_PASSED_PAWN[r];
        }
        proof {
            at = s + 1;
        }
    }
    proof {
        bits::lemma_walk_end(all, w, at, f0);
        bits::lemma_walk_end(all, w, at, f1);
    }
    let (dm, de): (i32, i32) = doubled_pawns(own.pawns);
    (mg + dm, eg + de)
}

/// White's pawn structure minus Black's.
fn pawn_structure(white: &PawnInfo, black: &PawnInfo) -> (r: (i32, i32))
    requires
        white.wf(Color::White),
        black.wf(Color::Black),
    ensures
        r.0 == pawn_score(0, Color::White, set(white.pawns.0), set(black.pawns.0)) - pawn_score(
            0,
            Color::Black,
            set(black.pawns.0),
            set(white.pawns.0),
        ),
        r.1 == pawn_score(1, Color::White, set(white.pawns.0), set(black.pawns.0)) - pawn_score(
            1,
            Color::Black,
            set(black.pawns.0),
            set(white.pawns.0),
        ),
        -36000 <= r.0 <= 36000,
        -36000 <= r.1 <= 36000,
{
    let (wm, we): (i32, i32) = pawn_structure_for(Color::White, white, black);
    let (bm, be): (i32, i32) = pawn_structure_for(Color::Black, black, white);
    (wm - bm, we - be)
}

// ---------------------------------------------------------------------------
// Bishop pair and rook files.
// ---------------------------------------------------------------------------

/// The player holds more than one bishop.
pub open spec fn has_pair(b: Seq<Option<Piece>>, c: Color) -> bool {
    count(|i: int| holds(b, i, c, PieceType::Bishop)) > 1
}

pub open spec fn pair_of(ph: int, b: Seq<Option<Piece>>, c: Color) -> int {
    if has_pair(b, c) {
        BISHOP_PAIR@[ph] as int
    } else {
        0
    }
}

fn holds_pair(pos: &Position, c: Color) -> (r: bool)
    requires
        pos.wf(),
    ensures
        r == has_pair(pos@.board, c),
{
    let w = pos.pieces_cp(c, PieceType::Bishop);
    proof {
        bits::lemma_count_ext(
            |i: int| w.has_sq(i),
            |i: int| holds(pos@.board, i, c, PieceType::Bishop),
        );
    }
    w.more_than_one()
}

/// White's bonus for the bishop pair minus Black's.
fn bishop_pair(pos: &Position) -> (r: (i32, i32))
    requires
        pos.wf(),
    ensures
        r.0 == pair_of(0, pos@.board, Color::White) - pair_of(0, pos@.board, Color::Black),
        r.1 == pair_of(1, pos@.board, Color::White) - pair_of(1, pos@.board, Color::Black),
        -40 <= r.0 <= 40,
        -40 <= r.1 <= 40,
{
    let w: i32 = if holds_pair(pos, Color::White) {
        1
    } else {
        0
    };
    let b: i32 = if holds_pair(pos, Color::Black) {
        1
    } else {
        0
    };
    ((w - b) * BISHOP_PAIR[0], (w - b) * BISHOP_PAIR[1])
}

/// Some of the pawns stands on the file of `s`.
pub open spec fn file_has(own: spec_fn(int) -> bool, s: int) -> bool {
    exists|t: int| #[trigger] own(t) && file(t) == file(s)
}

pub open spec fn rook_at(ph: int, b: Seq<Option<Piece>>, c: Color, i: int) -> int {
    if holds(b, i, c, PieceType::Rook) {
        if !file_has(pawns_of(b, c), i) && !file_has(pawns_of(b, c.other()), i) {
            ROOK_OPEN_FILE@[ph] as int
        } else if !file_has(pawns_of(b, c), i) {
            ROOK_SEMI_OPEN_FILE@[ph] as int
        } else {
            0
        }
    } else {
        0
    }
}

/// A player's bonus for rooks on open files.
pub open spec fn rooks_of(ph: int, b: Seq<Option<Piece>>, c: Color) -> int {
    sum(|i: int| rook_at(ph, b, c, i), 64)
}

/// Does a pawn stand on the file of a square?
fn pawn_on_file(pawns: Bitboard, s: Square) -> (r: bool)
    requires
        s.wf(),
    ensures
        r == file_has(set(pawns.0), s.i()),
{
    let f = Bitboard::file_bb(s);
    let both: u64 = f.0 & pawns.0;
    proof {
        bits::lemma_ops(f.0, pawns.0);
        bits::lemma_empty();
        if both != 0 {
            let t = bits::lemma_some_bit(both);
            assert(f.has_sq(t) == on(f.0, t));
            assert(set(pawns.0)(t) && file(t) == file(s.i()));
        }
        if file_has(set(pawns.0), s.i()) {
            let t = choose|t: int| #[trigger] set(pawns.0)(t) && file(t) == file(s.i());
            assert(f.has_sq(t) == on(f.0, t));
            assert(on(both, t));
        }
    }
    both != 0
}

/// One player's bonus for rooks on open files.
fn rook_files_for(pos: &Position, color: Color, own_pawns: &PawnInfo, enemy_pawns: &PawnInfo) -> (r: (
    i32,
    i32,
))
    requires
        pos.wf(),
        own_pawns.of(pos@.board, color),
        enemy_pawns.of(pos@.board, color.other()),
    ensures
        r.0 == rooks_of(0, pos@.board, color),
        r.1 == rooks_of(1, pos@.board, color),
        0 <= r.0 <= 1600,
        0 <= r.1 <= 1600,
{
    let ghost b = pos@.board;
    let ghost f0 = |i: int| rook_at(0, b, color, i);
    let ghost f1 = |i: int| rook_at(1, b, color, i);
    let mut mg: i32 = 0;
    let mut eg: i32 = 0;
    let mut w: u64 = pos.pieces_cp(color, PieceType::Rook).0;
    let ghost all = w;
    let ghost mut at: int = 0;
    while w != 0
        invariant
            b == pos@.board,
            own_pawns.of(b, color),
            enemy_pawns.of(b, color.other()),
            forall|i: int| #[trigger] on(all, i) == holds(b, i, color, PieceType::Rook),
            left_from(all, w, at),
            f0 == (|i: int| rook_at(0, b, color, i)),
            f1 == (|i: int| rook_at(1, b, color, i)),
            zero_off(f0, all) && zero_off(f1, all),
            mg == sum(f0, at),
            eg == sum(f1, at),
            0 <= mg <= 25 * at,
            0 <= eg <= 25 * at,
        decreases 64 - at,
    {
        let ghost before = w;
        let i: usize = bits::take_first(&mut w);
        proof {
            bits::lemma_walk(all, before, at, i as int, f0);
            bits::lemma_walk(all, before, at, i as int, f1);
            bits::lemma_walk_left(all, before, w, at, i as int);
            assert(on(all, i as int));
        }
        let sq = Square(i as u8);
        let own_on_file = pawn_on_file(own_pawns.pawns, sq);
        let enemy_on_file = pawn_on_file(enemy_pawns.pawns, sq);
        if !own_on_file && !enemy_on_file {
            mg = mg + ROOK_OPEN_FILE[0];
            eg = eg + ROOK_OPEN_FILE[1];
        } else if !own_on_file {
            mg = mg + ROOK_SEMI_OPEN_FILE[0];
            eg = eg + ROOK_SEMI_OPEN_FILE[1];
        }
        proof {
            at = i as int + 1;
        }
    }
    proof {
        bits::lemma_walk_end(all, w, at, f0);
        bits::lemma_walk_end(all, w, at, f1);
    }
    (mg, eg)
}

/// White's bonus for rooks on open files minus Black's.
fn rook_files(pos: &Position, white: &PawnInfo, black: &PawnInfo) -> (r: (i32, i32))
    requires
        pos.wf(),
        white.of(pos@.board, Color::White),
        black.of(pos@.board, Color::Black),
    ensures
        r.0 == rooks_of(0, pos@.board, Color::White) - rooks_of(0, pos@.board, Color::Black),
        r.1 == rooks_of(1, pos@.board, Color::White) - rooks_of(1, pos@.board, Color::Black),
        -1600 <= r.0 <= 1600,
        -1600 <= r.1 <= 1600,
{
    let (wm, we): (i32, i32) = rook_files_for(pos, Color::White, white, black);
    let (bm, be): (i32, i32) = rook_files_for(pos, Color::Black, black, white);
    (wm - bm, we - be)
}

// ---------------------------------------------------------------------------
// The whole.
// ---------------------------------------------------------------------------

/// Everything that one player has going for it, in the midgame (`0`) or the
/// endgame (`1`).
pub open spec fn side_total(ph: int, b: Seq<Option<Piece>>, c: Color) -> int {
    base(ph, b, c) + mobility_of(ph, b, c) + (if ph == 0 {
        king_safety_of(b, c)
    } else {
        0
    }) + pawn_score(ph, c, pawns_of(b, c), pawns_of(b, c.other())) + pair_of(ph, b, c) + rooks_of(
        ph,
        b,
        c,
    )
}

/// Division that drops the fraction.
pub open spec fn quotient(a: int, b: int) -> int {
    if a >= 0 {
        a / b
    } else {
        -((-a) / b)
    }
}

/// The blend of a midgame and an endgame value at a phase.
pub open spec fn taper(mg: int, eg: int, phase: int) -> int {
    quotient(mg * phase + eg * (MAX_PHASE - phase), MAX_PHASE as int)
}

/// What a player is ahead by, blended by the phase.
pub open spec fn balance(b: Seq<Option<Piece>>, c: Color) -> int {
    taper(
        side_total(0, b, c) - side_total(0, b, c.other()),
        side_total(1, b, c) - side_total(1, b, c.other()),
        phase_of(b),
    )
}

/// The evaluation of a position for the player to move: what it is ahead by and
/// the bonus for having the move.
#[verifier::opaque]
pub open spec fn score(v: PosView) -> int {
    balance(v.board, v.side) + taper(TEMPO_MG as int, TEMPO_EG as int, phase_of(v.board))
}

/// No evaluation is further from zero than this.
pub const EVAL_MAX: i32 = 130_000;

/// Division that drops the fraction.
fn divide(a: i32, b: i32) -> (r: i32)
    requires
        b > 0,
        a > i32::MIN,
    ensures
        r == quotient(a as int, b as int),
        -b * EVAL_MAX <= a <= b * EVAL_MAX ==> -EVAL_MAX <= r <= EVAL_MAX,
        -b * 29_250 <= a <= b * 29_250 ==> -29_250 <= r <= 29_250,
{
    let n: u32 = if a >= 0 {
        a as u32
    } else {
        (-a) as u32
    };
    let q: u32 = n / (b as u32);
    proof {
        let ni = n as int;
        let bi = b as int;
        assert(ni / bi <= ni) by (nonlinear_arith)
            requires
                ni >= 0,
                bi > 0,
        ;
        if ni <= bi * EVAL_MAX {
            assert(ni / bi <= EVAL_MAX) by (nonlinear_arith)
                requires
                    0 <= ni <= bi * EVAL_MAX,
                    bi > 0,
            ;
        }
        if ni <= bi * 29_250 {
            assert(ni / bi <= 29_250) by (nonlinear_arith)
                requires
                    0 <= ni <= bi * 29_250,
                    bi > 0,
            ;
        }
    }
    if a >= 0 {
        q as i32
    } else {
        -(q as i32)
    }
}

/// Dividing the negated number negates the result.
proof fn lemma_taper_negates(mg: int, eg: int, phase: int)
    ensures
        taper(-mg, -eg, phase) == -taper(mg, eg, phase),
{
    let x = mg * phase + eg * (MAX_PHASE - phase);
    assert((-mg) * phase + (-eg) * (MAX_PHASE - phase) == -x) by (nonlinear_arith)
        requires
            x == mg * phase + eg * (MAX_PHASE - phase),
    ;
}

/// What the pieces and pawns of a player can add up to.
#[verifier::rlimit(30)]
proof fn lemma_side_bound(ph: int, b: Seq<Option<Piece>>, c: Color)
    requires
        b.len() == 64,
        0 <= ph < 2,
    ensures
        -100 * men(b, c) <= base(ph, b, c) <= 1100 * men(b, c),
        -175 * men(b, c) <= pawn_score(ph, c, pawns_of(b, c), pawns_of(b, c.other())) <= 175 * men(
            b,
            c,
        ),
{
    let p = |i: int| owned(b, i, c);
    let k = men(b, c);
    bits::lemma_count_bound(p);
    let f = |i: int| base_at(ph, b, c, i);
    assert forall|i: int| 0 <= i < 64 && p(i) implies -100 <= #[trigger] f(i) <= 1100 by {
        lemma_worth_bound(b[i]->0.piece_type, own_view(c, i));
    }
    bits::lemma_sum_counted(f, p, 64, -100, 1100);
    let own = pawns_of(b, c);
    let enemy = pawns_of(b, c.other());
    let g = |s: int| pawn_at(ph, c, own, enemy, s);
    assert forall|s: int| 0 <= s < 64 && p(s) implies -15 <= #[trigger] g(s) <= 175 by {
        let r = rel_rank(c, s);
        assert(0 <= r < 8);
        assert(0 <= passed_bonus(ph, r) <= 175) by {
            assert(r == 0 || r == 1 || r == 2 || r == 3 || r == 4 || r == 5 || r == 6 || r == 7);
        }
    }
    assert forall|s: int| 0 <= s < 64 && !p(s) implies #[trigger] g(s) == 0 by {
        assert(!own(s));
    }
    bits::lemma_sum_counted(g, p, 64, -15, 175);
    let d = |x: int| doubled_at(ph, own, x);
    assert forall|x: int| 0 <= x < 8 implies -20 * k <= #[trigger] d(x) <= 0 by {
        let q = |t: int| own(t) && file(t) == x;
        bits::lemma_count_le(q, p);
        let n = on_file(own, x);
        assert(n <= k);
        if n > 1 {
            if ph == 0 {
                assert(d(x) == -10 * (n - 1));
            } else {
                assert(d(x) == -20 * (n - 1));
            }
        }
    }
    bits::lemma_sum_bound(d, 8, -20 * k, 0);
}

/// What White is ahead by in the midgame and in the endgame, and the phase.
#[verifier::rlimit(30)]
fn totals(pos: &Position) -> (r: (i32, i32, i32))
    requires
        pos.wf(),
    ensures
        r.0 == side_total(0, pos@.board, Color::White) - side_total(0, pos@.board, Color::Black),
        r.1 == side_total(1, pos@.board, Color::White) - side_total(1, pos@.board, Color::Black),
        r.2 == phase_of(pos@.board),
        -EVAL_MAX <= r.0 <= EVAL_MAX,
        -EVAL_MAX <= r.1 <= EVAL_MAX,
        ordinary(pos@.board) ==> -29_250 <= r.0 <= 29_250 && -29_250 <= r.1 <= 29_250,
        0 <= r.2 <= MAX_PHASE,
{
    let ghost b = pos@.board;
    proof {
        reveal(ordinary);
        lemma_side_bound(0, b, Color::White);
        lemma_side_bound(0, b, Color::Black);
        lemma_side_bound(1, b, Color::White);
        lemma_side_bound(1, b, Color::Black);
        bits::lemma_count_bound(|i: int| owned(b, i, Color::White));
        bits::lemma_count_bound(|i: int| owned(b, i, Color::Black));
    }
    let (mg, eg, phase): (i32, i32, i32) = material(pos);
    let white = PawnInfo::new(pos.pieces_cp(Color::White, PieceType::Pawn), Color::White);
    let black = PawnInfo::new(pos.pieces_cp(Color::Black, PieceType::Pawn), Color::Black);
    proof {
        assert(set(white.pawns.0) =~= pawns_of(b, Color::White));
        assert(set(black.pawns.0) =~= pawns_of(b, Color::Black));
    }
    let (m_mg, m_eg): (i32, i32) = mobility(pos, &white, &black);
    let (k_mg, k_eg): (i32, i32) = king_safety(pos, &white, &black);
    let (p_mg, p_eg): (i32, i32) = pawn_structure(&white, &black);
    let (b_mg, b_eg): (i32, i32) = bishop_pair(pos);
    let (r_mg, r_eg): (i32, i32) = rook_files(pos, &white, &black);
    (mg + m_mg + k_mg + p_mg + b_mg + r_mg, eg + m_eg + k_eg + p_eg + b_eg + r_eg, phase)
}

/// Blend a midgame and an endgame value.
fn blend(mg: i32, eg: i32, phase: i32) -> (r: i32)
    requires
        -EVAL_MAX <= mg <= EVAL_MAX,
        -EVAL_MAX <= eg <= EVAL_MAX,
        0 <= phase <= MAX_PHASE,
    ensures
        r == taper(mg as int, eg as int, phase as int),
        -EVAL_MAX <= r <= EVAL_MAX,
        -29_250 <= mg <= 29_250 && -29_250 <= eg <= 29_250 ==> -29_250 <= r <= 29_250,
{
    proof {
        let p = phase as int;
        if -29_250 <= mg <= 29_250 && -29_250 <= eg <= 29_250 {
            assert(-29_250 * p <= mg * p <= 29_250 * p) by (nonlinear_arith)
                requires
                    0 <= p <= 24,
                    -29_250 <= mg <= 29_250,
            ;
            assert(-29_250 * (24 - p) <= eg * (24 - p) <= 29_250 * (24 - p)) by (nonlinear_arith)
                requires
                    0 <= p <= 24,
                    -29_250 <= eg <= 29_250,
            ;
        }
        assert(-130_000 * p <= mg * p <= 130_000 * p) by (nonlinear_arith)
            requires
                0 <= p <= 24,
                -130_000 <= mg <= 130_000,
        ;
        assert(-130_000 * (24 - p) <= eg * (24 - p) <= 130_000 * (24 - p)) by (nonlinear_arith)
            requires
                0 <= p <= 24,
                -130_000 <= eg <= 130_000,
        ;
    }
    divide(mg * phase + eg * (MAX_PHASE - phase), MAX_PHASE)
}

/// The bonus for having the move lies between its two weights.
proof fn lemma_tempo(p: int)
    requires
        0 <= p <= 24,
    ensures
        0 <= taper(TEMPO_MG as int, TEMPO_EG as int, p) <= 10,
{
}

/// Evaluate a position in centipawns, from the side-to-move's perspective.
#[verifier::rlimit(30)]
pub fn evaluate(pos: &Position) -> (r: i32)
    requires
        pos.wf(),
    ensures
        r == score(pos@),
        -EVAL_MAX - 10 <= r <= EVAL_MAX + 10,
        ordinary(pos@.board) ==> -29_260 <= r <= 29_260,
{
    let (mg, eg, phase): (i32, i32, i32) = totals(pos);
    let ahead_by: i32 = blend(mg, eg, phase);
    assert(ordinary(pos@.board) ==> -29_250 <= ahead_by <= 29_250);
    let tempo: i32 = blend(TEMPO_MG, TEMPO_EG, phase);
    proof {
        reveal(score);
        lemma_tempo(phase as int);
        lemma_taper_negates(mg as int, eg as int, phase as int);
    }
    match pos.side_to_move() {
        Color::White => ahead_by + tempo,
        Color::Black => -(ahead_by - tempo),
    }
}

} // verus!
