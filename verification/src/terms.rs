//! What the terms of the evaluation reward.

use vstd::prelude::*;

use crate::attacks::{gap, king_hits};
use crate::bits;
use crate::bits::{count, one_if, sum};
use crate::eval::{
    base, base_at, balance, danger_at, danger_of, doubled_at, file_has, king_safety_of,
    mobility_at, mobility_bonus, mobility_of, on_file, pair_of, pawn_at, pawn_score, pawns_of,
    phase_at, phase_of, presses, quotient, rook_at, rooks_of, score, shield_of, side_total,
    taper, value_of,
};
use crate::rules::{PosView, holds, king_sq, owned, reach};
use crate::tables::{
    EG_BISHOP, EG_KING, EG_KNIGHT, EG_PAWN, EG_QUEEN, EG_ROOK, MG_BISHOP, MG_KING, MG_KNIGHT,
    MG_PAWN, MG_QUEEN, MG_ROOK,
};
use crate::types::{Color, Piece, PieceType, file, rank};

verus! {

// ---------------------------------------------------------------------------
// Pawns.
// ---------------------------------------------------------------------------

/// A single pawn.
pub open spec fn lone(s: int) -> spec_fn(int) -> bool {
    |i: int| i == s
}

/// Two pawns.
pub open spec fn couple(s: int, t: int) -> spec_fn(int) -> bool {
    |i: int| i == s || i == t
}

/// No pawns.
pub open spec fn nobody() -> spec_fn(int) -> bool {
    |i: int| false
}

/// An enemy pawn stands ahead of a pawn of player `c` on `s`, on its file or a
/// neighbouring one.
pub open spec fn faced(c: Color, enemy: spec_fn(int) -> bool, s: int) -> bool {
    exists|e: int| #[trigger]
        enemy(e) && gap(e % 8, s % 8) <= 1 && (match c {
            Color::White => s / 8 < e / 8,
            Color::Black => e / 8 < s / 8,
        })
}

/// The ranks that a pawn of player `c` on `s` has left behind, its own back rank not
/// counted as one.
pub open spec fn advance(c: Color, s: int) -> int {
    match c {
        Color::White => s / 8,
        Color::Black => 7 - s / 8,
    }
}

/// The bonus of a passed pawn by the ranks that it has left behind.
pub open spec fn runner_bonus(ph: int, k: int) -> int {
    if k == 1 {
        if ph == 0 { 5 } else { 10 }
    } else if k == 2 {
        if ph == 0 { 8 } else { 17 }
    } else if k == 3 {
        if ph == 0 { 10 } else { 15 }
    } else if k == 4 {
        if ph == 0 { 20 } else { 35 }
    } else if k == 5 {
        if ph == 0 { 40 } else { 75 }
    } else if k == 6 {
        if ph == 0 { 65 } else { 175 }
    } else {
        0
    }
}

/// What being alone costs a pawn.
pub open spec fn loneliness(ph: int) -> int {
    if ph == 0 { 5 } else { 15 }
}

/// What the second pawn on a file costs.
pub open spec fn crowding(ph: int) -> int {
    if ph == 0 { 10 } else { 20 }
}

/// A sum of nothing but zeroes.
proof fn lemma_sum_zero(f: spec_fn(int) -> int, n: int)
    requires
        0 <= n,
        forall|i: int| 0 <= i < n ==> #[trigger] f(i) == 0,
    ensures
        sum(f, n) == 0,
{
    bits::lemma_sum_skip(f, 0, n);
}

/// A sum with one term.
proof fn lemma_sum_single(f: spec_fn(int) -> int, k: int, n: int)
    requires
        0 <= k < n,
        forall|i: int| 0 <= i < n && i != k ==> #[trigger] f(i) == 0,
    ensures
        sum(f, n) == f(k),
{
    let z = |i: int| 0int;
    lemma_sum_zero(z, n);
    assert forall|i: int| 0 <= i < n && i != k implies #[trigger] z(i) == f(i) by {
        assert(f(i) == 0);
    }
    bits::lemma_sum_one(z, f, k, n);
}

/// A sum with two terms.
proof fn lemma_sum_pair(f: spec_fn(int) -> int, j: int, k: int, n: int)
    requires
        0 <= j < n,
        0 <= k < n,
        j != k,
        forall|i: int| 0 <= i < n && i != j && i != k ==> #[trigger] f(i) == 0,
    ensures
        sum(f, n) == f(j) + f(k),
{
    let z = |i: int| if i == j { f(j) } else { 0int };
    lemma_sum_single(z, j, n);
    assert forall|i: int| 0 <= i < n && i != k implies #[trigger] z(i) == f(i) by {
        if i != j {
            assert(f(i) == 0);
        }
    }
    bits::lemma_sum_one(z, f, k, n);
}

/// A pawn without neighbours is worth less for that, and the more the further it has
/// advanced if no enemy pawn can stop or capture it on its way: the bonus depends on
/// the ranks that it has left behind.
pub proof fn law_lone_pawns(ph: int, c: Color, s: int, enemy: spec_fn(int) -> bool)
    requires
        ph == 0 || ph == 1,
        0 <= s < 64,
    ensures
        faced(c, enemy, s) ==> pawn_score(ph, c, lone(s), enemy) == -loneliness(ph),
        !faced(c, enemy, s) ==> pawn_score(ph, c, lone(s), enemy) == runner_bonus(ph, advance(c, s))
            - loneliness(ph),
{
    let own = lone(s);
    let d = |f: int| doubled_at(ph, own, f);
    assert forall|f: int| 0 <= f < 8 implies #[trigger] d(f) == 0 by {
        let p = |t: int| own(t) && file(t) == f;
        assert forall|t: int| 0 <= t < 64 && t != s implies !#[trigger] p(t) by {
        }
        bits::lemma_count_single(p, s);
    }
    lemma_sum_zero(d, 8);
    let g = |t: int| pawn_at(ph, c, own, enemy, t);
    assert forall|t: int| 0 <= t < 64 && t != s implies #[trigger] g(t) == 0 by {
        assert(!own(t));
    }
    lemma_sum_single(g, s, 64);
    assert(own(s));
    lemma_faced(c, enemy, s);
}

/// Being faced is not being passed.
proof fn lemma_faced(c: Color, enemy: spec_fn(int) -> bool, s: int)
    ensures
        crate::eval::passed(c, enemy, s) == !faced(c, enemy, s),
{
    if faced(c, enemy, s) {
        let e = choose|e: int| #[trigger]
            enemy(e) && gap(e % 8, s % 8) <= 1 && (match c {
                Color::White => s / 8 < e / 8,
                Color::Black => e / 8 < s / 8,
            });
        assert(enemy(e) && gap(file(e), file(s)) <= 1 && crate::eval::ahead(c.other(), e, s));
    }
    if crate::eval::span_covers(c.other(), enemy, s) {
        let e = choose|e: int| #[trigger]
            enemy(e) && gap(file(e), file(s)) <= 1 && crate::eval::ahead(c.other(), e, s);
        assert(enemy(e) && gap(e % 8, s % 8) <= 1);
    }
}

/// A lone passed pawn that is about to promote is worth more than one anywhere behind it,
/// in both phases and for both players.
pub proof fn law_passed_pawns_gain_by_advancing(ph: int, c: Color, s: int, t: int)
    requires
        ph == 0 || ph == 1,
        0 <= s < 64,
        0 <= t < 64,
        1 <= advance(c, s) <= 6,
        1 <= advance(c, t) <= 6,
    ensures
        advance(c, s) == 6 && advance(c, t) < 6 ==> pawn_score(ph, c, lone(s), nobody())
            > pawn_score(ph, c, lone(t), nobody()),
        advance(c, t) + 2 <= advance(c, s) ==> pawn_score(ph, c, lone(s), nobody()) > pawn_score(
            ph,
            c,
            lone(t),
            nobody(),
        ),
        pawn_score(ph, c, lone(t), nobody()) + loneliness(ph) > 0,
{
    law_lone_pawns(ph, c, s, nobody());
    law_lone_pawns(ph, c, t, nobody());
    assert(!faced(c, nobody(), s) && !faced(c, nobody(), t));
}

/// What pawns without neighbours add up to, whatever stands against them.
proof fn lemma_couple(ph: int, c: Color, s: int, t: int, enemy: spec_fn(int) -> bool)
    requires
        ph == 0 || ph == 1,
        0 <= s < 64,
        0 <= t < 64,
        s != t,
    ensures
        pawn_score(ph, c, couple(s, t), enemy) == pawn_at(ph, c, couple(s, t), enemy, s) + pawn_at(
            ph,
            c,
            couple(s, t),
            enemy,
            t,
        ) - (if s % 8 == t % 8 {
            crowding(ph)
        } else {
            0
        }),
{
    let own = couple(s, t);
    assert(own(s) && own(t));
    let d = |f: int| doubled_at(ph, own, f);
    assert forall|f: int| 0 <= f < 8 && f != s % 8 implies #[trigger] d(f) == 0 by {
        let p = |u: int| own(u) && file(u) == f;
        assert forall|u: int| 0 <= u < 64 && u != t implies !#[trigger] p(u) by {
        }
        bits::lemma_count_single(p, t);
    }
    lemma_sum_single(d, s % 8, 8);
    let p = |u: int| own(u) && file(u) == s % 8;
    if s % 8 == t % 8 {
        let f = |u: int| one_if(p(u));
        assert forall|u: int| 0 <= u < 64 && u != s && u != t implies #[trigger] f(u) == 0 by {
            assert(!own(u));
        }
        lemma_sum_pair(f, s, t, 64);
        assert(p(s) && p(t));
        assert(count(p) == 2);
    } else {
        assert forall|u: int| 0 <= u < 64 && u != s implies !#[trigger] p(u) by {
        }
        bits::lemma_count_single(p, s);
    }
    assert(on_file(own, s % 8) == count(p));
    let g = |u: int| pawn_at(ph, c, own, enemy, u);
    assert forall|u: int| 0 <= u < 64 && u != s && u != t implies #[trigger] g(u) == 0 by {
        assert(!own(u));
    }
    lemma_sum_pair(g, s, t, 64);
}

/// Two pawns on one file are worth less than each alone, by a penalty; on files that are
/// no neighbours they are worth what they are worth alone; and on neighbouring files,
/// where no enemy pawn holds them up, they are no longer isolated.
pub proof fn law_pawns_in_company(
    ph: int,
    c: Color,
    s: int,
    t: int,
    enemy: spec_fn(int) -> bool,
)
    requires
        ph == 0 || ph == 1,
        0 <= s < 64,
        0 <= t < 64,
        s != t,
    ensures
        s % 8 == t % 8 ==> pawn_score(ph, c, couple(s, t), enemy) == pawn_score(
            ph,
            c,
            lone(s),
            enemy,
        ) + pawn_score(ph, c, lone(t), enemy) - crowding(ph),
        gap(s % 8, t % 8) >= 2 ==> pawn_score(ph, c, couple(s, t), enemy) == pawn_score(
            ph,
            c,
            lone(s),
            enemy,
        ) + pawn_score(ph, c, lone(t), enemy),
        gap(s % 8, t % 8) == 1 ==> pawn_score(ph, c, couple(s, t), nobody()) == pawn_score(
            ph,
            c,
            lone(s),
            nobody(),
        ) + pawn_score(ph, c, lone(t), nobody()) + 2 * loneliness(ph),
{
    let own = couple(s, t);
    lemma_couple(ph, c, s, t, enemy);
    lemma_couple(ph, c, s, t, nobody());
    law_lone_pawns(ph, c, s, enemy);
    law_lone_pawns(ph, c, t, enemy);
    law_lone_pawns(ph, c, s, nobody());
    law_lone_pawns(ph, c, t, nobody());
    lemma_faced(c, enemy, s);
    lemma_faced(c, enemy, t);
    lemma_faced(c, nobody(), s);
    lemma_faced(c, nobody(), t);
    assert(own(s) && own(t));
    if gap(s % 8, t % 8) == 1 {
        assert(own(t) && gap(file(t), file(s)) == 1);
        assert(own(s) && gap(file(s), file(t)) == 1);
        assert(crate::eval::has_neighbour(own, s) && crate::eval::has_neighbour(own, t));
    } else {
        assert(!crate::eval::has_neighbour(own, s) && !crate::eval::has_neighbour(own, t));
    }
}

/// A pawn that has its only neighbour ahead of it, and whose next square an enemy pawn
/// attacks, is backward: it is worth less than if no enemy pawn did.  With a neighbour
/// beside or behind it is not.
pub proof fn law_backward_pawns(ph: int, c: Color, s: int, t: int, e: int)
    requires
        ph == 0 || ph == 1,
        0 <= s < 64,
        0 <= t < 64,
        0 <= e < 64,
        gap(s % 8, t % 8) == 1,
        1 <= advance(c, s) <= 6,
        1 <= advance(c, t) <= 6,
        // The enemy pawn stands diagonally ahead of the square before the pawn.
        gap(e % 8, s % 8) == 1,
        advance(c, e) == advance(c, s) + 2,
        // The neighbour has passed that pawn by.
        advance(c, t) != advance(c, s) + 1,
        advance(c, t) < advance(c, s) || advance(c, e) <= advance(c, t),
    ensures
        advance(c, t) > advance(c, s) ==> pawn_score(ph, c, couple(s, t), lone(e)) == runner_bonus(
            ph,
            advance(c, t),
        ) - (if ph == 0 {
            8int
        } else {
            10
        }),
        advance(c, t) <= advance(c, s) && gap(e % 8, t % 8) > 1 ==> pawn_score(
            ph,
            c,
            couple(s, t),
            lone(e),
        ) == runner_bonus(ph, advance(c, t)),
{
    let own = couple(s, t);
    let enemy = lone(e);
    lemma_couple(ph, c, s, t, enemy);
    lemma_faced(c, enemy, s);
    lemma_faced(c, enemy, t);
    assert(own(s) && own(t) && enemy(e));
    assert(own(t) && gap(file(t), file(s)) == 1);
    assert(own(s) && gap(file(s), file(t)) == 1);
    assert(crate::eval::has_neighbour(own, s) && crate::eval::has_neighbour(own, t));
    assert(faced(c, enemy, s));
    let front = s + 8 * c.forward();
    assert(front % 8 == s % 8);
    assert(crate::attacks::pawn_hits(c.other(), e, front));
    assert(crate::eval::pawn_covers(c.other(), enemy, front));
    if advance(c, t) > advance(c, s) {
        assert(!crate::eval::supported(c, own, s));
        assert(crate::eval::backward(c, own, enemy, s));
        assert(!crate::eval::ahead(c, t, s));
        assert(crate::eval::supported(c, own, t));
        assert(!faced(c, enemy, t));
    } else {
        assert(!crate::eval::ahead(c, s, t));
        assert(crate::eval::supported(c, own, s));
        if gap(e % 8, t % 8) > 1 {
            assert(!faced(c, enemy, t));
            assert(!crate::eval::pawn_covers(c.other(), enemy, t + 8 * c.forward())) by {
                assert((t + 8 * c.forward()) % 8 == t % 8);
            }
        }
    }
}

// ---------------------------------------------------------------------------
// Pieces.
// ---------------------------------------------------------------------------

/// A pawn of player `c` stands on the file of `s`.
pub open spec fn pawn_beside(b: Seq<Option<Piece>>, c: Color, s: int) -> bool {
    exists|t: int| #[trigger] holds(b, t, c, PieceType::Pawn) && t % 8 == s % 8
}

/// A rook is worth more on a file without own pawns, and most on one without any pawns.
pub proof fn law_rooks_like_open_files(ph: int, b: Seq<Option<Piece>>, c: Color, s: int)
    requires
        ph == 0 || ph == 1,
        b.len() == 64,
        holds(b, s, c, PieceType::Rook),
    ensures
        pawn_beside(b, c, s) ==> rooks_of(ph, b, c) == rooks_of(ph, b.update(s, None), c),
        !pawn_beside(b, c, s) && pawn_beside(b, c.other(), s) ==> rooks_of(ph, b, c) == rooks_of(
            ph,
            b.update(s, None),
            c,
        ) + (if ph == 0 {
            12int
        } else {
            6
        }),
        !pawn_beside(b, c, s) && !pawn_beside(b, c.other(), s) ==> rooks_of(ph, b, c) == rooks_of(
            ph,
            b.update(s, None),
            c,
        ) + (if ph == 0 {
            25int
        } else {
            10
        }),
{
    let w = b.update(s, None);
    let f = |i: int| rook_at(ph, b, c, i);
    let g = |i: int| rook_at(ph, w, c, i);
    assert(pawns_of(b, c) =~= pawns_of(w, c));
    assert(pawns_of(b, c.other()) =~= pawns_of(w, c.other()));
    assert forall|i: int| 0 <= i < 64 && i != s implies #[trigger] g(i) == f(i) by {
        assert(holds(w, i, c, PieceType::Rook) == holds(b, i, c, PieceType::Rook));
    }
    bits::lemma_sum_one(g, f, s, 64);
    lemma_file_has(b, c, s);
    lemma_file_has(b, c.other(), s);
}

proof fn lemma_file_has(b: Seq<Option<Piece>>, c: Color, s: int)
    ensures
        file_has(pawns_of(b, c), s) == pawn_beside(b, c, s),
{
    let own = pawns_of(b, c);
    if file_has(own, s) {
        let t = choose|t: int| #[trigger] own(t) && file(t) == file(s);
        assert(holds(b, t, c, PieceType::Pawn) && t % 8 == s % 8);
    }
    if pawn_beside(b, c, s) {
        let t = choose|t: int| #[trigger] holds(b, t, c, PieceType::Pawn) && t % 8 == s % 8;
        assert(own(t) && file(t) == file(s));
    }
}

/// A player without rooks gets nothing for open files, nor does one without knights,
/// bishops, rooks and queens for mobility.
pub proof fn law_absent_pieces_get_nothing(ph: int, b: Seq<Option<Piece>>, c: Color)
    ensures
        (forall|i: int| !#[trigger] holds(b, i, c, PieceType::Rook)) ==> rooks_of(ph, b, c) == 0,
        (forall|i: int| #[trigger]
            owned(b, i, c) ==> b[i]->0.piece_type == PieceType::Pawn || b[i]->0.piece_type
                == PieceType::King) ==> mobility_of(ph, b, c) == 0,
        (forall|i: int| !#[trigger] owned(b, i, c)) ==> base(ph, b, c) == 0,
{
    if forall|i: int| !#[trigger] holds(b, i, c, PieceType::Rook) {
        lemma_sum_zero(|i: int| rook_at(ph, b, c, i), 64);
    }
    if forall|i: int| #[trigger]
        owned(b, i, c) ==> b[i]->0.piece_type == PieceType::Pawn || b[i]->0.piece_type
            == PieceType::King {
        lemma_sum_zero(|i: int| mobility_at(ph, b, c, i), 64);
    }
    if forall|i: int| !#[trigger] owned(b, i, c) {
        lemma_sum_zero(|i: int| base_at(ph, b, c, i), 64);
    }
}

/// Two bishops are worth more than one and one: the bonus is for holding both, and larger
/// in the endgame.
pub proof fn law_bishops_come_in_pairs(b: Seq<Option<Piece>>, c: Color, s: int, t: int)
    requires
        0 <= s < 64,
        0 <= t < 64,
    ensures
        s != t && holds(b, s, c, PieceType::Bishop) && holds(b, t, c, PieceType::Bishop) ==> 0
            < pair_of(0, b, c) < pair_of(1, b, c),
        (forall|i: int| 0 <= i < 64 && i != s ==> !#[trigger] holds(b, i, c, PieceType::Bishop))
            ==> pair_of(0, b, c) == 0 && pair_of(1, b, c) == 0,
{
    let p = |i: int| holds(b, i, c, PieceType::Bishop);
    if s != t && p(s) && p(t) {
        bits::lemma_count_two(p, s, t);
    }
    if forall|i: int| 0 <= i < 64 && i != s ==> !#[trigger] holds(b, i, c, PieceType::Bishop) {
        assert forall|i: int| 0 <= i < 64 && i != s implies !#[trigger] p(i) by {
        }
        bits::lemma_count_single(p, s);
    }
}

/// The value of a piece on a square, from the tables as White sees the board.
pub open spec fn white_worth(ph: int, pt: PieceType, i: int) -> int {
    match pt {
        PieceType::Pawn => if ph == 0 { 82 + MG_PAWN@[i] } else { 94 + EG_PAWN@[i] },
        PieceType::Knight => if ph == 0 { 337 + MG_KNIGHT@[i] } else { 281 + EG_KNIGHT@[i] },
        PieceType::Bishop => if ph == 0 { 365 + MG_BISHOP@[i] } else { 297 + EG_BISHOP@[i] },
        PieceType::Rook => if ph == 0 { 477 + MG_ROOK@[i] } else { 512 + EG_ROOK@[i] },
        PieceType::Queen => if ph == 0 { 1025 + MG_QUEEN@[i] } else { 936 + EG_QUEEN@[i] },
        PieceType::King => if ph == 0 { MG_KING@[i] as int } else { EG_KING@[i] as int },
    }
}

/// A piece adds its value on its square to the total of its owner, Black's squares being
/// those that White sees from the other side, and nothing to the other total.
pub proof fn law_pieces_add_their_value(ph: int, b: Seq<Option<Piece>>, c: Color, s: int)
    requires
        ph == 0 || ph == 1,
        b.len() == 64,
        owned(b, s, c),
    ensures
        base(ph, b, c) == base(ph, b.update(s, None), c) + white_worth(
            ph,
            b[s]->0.piece_type,
            match c {
                Color::White => s,
                Color::Black => 8 * (7 - s / 8) + s % 8,
            },
        ),
        base(ph, b, c.other()) == base(ph, b.update(s, None), c.other()),
{
    let w = b.update(s, None);
    let f = |i: int| base_at(ph, b, c, i);
    let g = |i: int| base_at(ph, w, c, i);
    assert forall|i: int| 0 <= i < 64 && i != s implies #[trigger] g(i) == f(i) by {
        assert(w[i] == b[i]);
    }
    bits::lemma_sum_one(g, f, s, 64);
    let x = |i: int| base_at(ph, b, c.other(), i);
    let y = |i: int| base_at(ph, w, c.other(), i);
    assert forall|i: int| 0 <= i < 64 implies #[trigger] x(i) == y(i) by {
        assert(i != s ==> w[i] == b[i]);
    }
    bits::lemma_sum_ext(x, y, 64);
}

/// The midgame values are in the usual order.
pub proof fn law_piece_values_are_ordered()
    ensures
        0 == value_of(PieceType::King),
        0 < value_of(PieceType::Pawn),
        3 * value_of(PieceType::Pawn) < value_of(PieceType::Knight),
        value_of(PieceType::Knight) < value_of(PieceType::Bishop),
        value_of(PieceType::Bishop) < value_of(PieceType::Rook),
        2 * value_of(PieceType::Rook) < value_of(PieceType::Queen),
        value_of(PieceType::Queen) == 1025,
{
}

/// In the endgame a pawn on its seventh rank is worth more than the same pawn on its
/// second, for either player.
pub proof fn law_advanced_pawns_are_worth_more(b: Seq<Option<Piece>>, c: Color, s: int, t: int)
    requires
        b.len() == 64,
        0 <= s < 64,
        0 <= t < 64,
        b[s] is None,
        b[t] is None,
        s % 8 == t % 8,
        advance(c, s) == 6,
        advance(c, t) == 1,
    ensures
        base(1, b.update(s, Some(Piece { color: c, piece_type: PieceType::Pawn })), c) > base(
            1,
            b.update(t, Some(Piece { color: c, piece_type: PieceType::Pawn })),
            c,
        ) + 100,
{
    let p = Some(Piece { color: c, piece_type: PieceType::Pawn });
    let x = b.update(s, p);
    let y = b.update(t, p);
    law_pieces_add_their_value(1, x, c, s);
    law_pieces_add_their_value(1, y, c, t);
    assert(x.update(s, None) =~= b);
    assert(y.update(t, None) =~= b);
    assert(EG_PAWN@[48] == 178 && EG_PAWN@[49] == 173 && EG_PAWN@[50] == 158 && EG_PAWN@[51] == 134);
    assert(EG_PAWN@[52] == 147 && EG_PAWN@[53] == 132 && EG_PAWN@[54] == 165 && EG_PAWN@[55] == 187);
    assert(EG_PAWN@[8] == 13 && EG_PAWN@[9] == 8 && EG_PAWN@[10] == 8 && EG_PAWN@[11] == 10);
    assert(EG_PAWN@[12] == 13 && EG_PAWN@[13] == 0 && EG_PAWN@[14] == 2 && EG_PAWN@[15] == -7);
    let f = s % 8;
    assert(f == 0 || f == 1 || f == 2 || f == 3 || f == 4 || f == 5 || f == 6 || f == 7);
}

// ---------------------------------------------------------------------------
// Mobility.
// ---------------------------------------------------------------------------

/// A piece with more safe squares gets no smaller a bonus, and one with none a penalty.
pub proof fn law_mobility_is_rewarded(ph: int, pt: PieceType, n: int)
    requires
        ph == 0 || ph == 1,
        0 <= n,
        match pt {
            PieceType::Knight => n < 8,
            PieceType::Bishop => n < 13,
            PieceType::Rook => n < 14,
            PieceType::Queen => n < 27,
            _ => false,
        },
    ensures
        mobility_bonus(ph, pt, n) <= mobility_bonus(ph, pt, n + 1),
        mobility_bonus(ph, pt, 0) < 0,
        n > 3 ==> mobility_bonus(ph, pt, n) > 0,
{
}

/// A player whose only mobile piece stands on `s` gets the bonus for the squares that it
/// attacks, not counting squares of own pieces and those that enemy pawns attack.
pub proof fn law_mobility_counts_safe_squares(ph: int, b: Seq<Option<Piece>>, c: Color, s: int)
    requires
        b.len() == 64,
        owned(b, s, c),
        b[s]->0.piece_type != PieceType::Pawn,
        b[s]->0.piece_type != PieceType::King,
        forall|i: int| #[trigger]
            owned(b, i, c) && i != s ==> b[i]->0.piece_type == PieceType::Pawn
                || b[i]->0.piece_type == PieceType::King,
    ensures
        mobility_of(ph, b, c) == mobility_bonus(
            ph,
            b[s]->0.piece_type,
            count(
                |t: int|
                    reach(b, b[s]->0, s, t) && !(b[t] is Some && b[t]->0.color == c)
                        && !pawn_guards(b, c.other(), t),
            ),
        ),
{
    let f = |i: int| mobility_at(ph, b, c, i);
    assert forall|i: int| 0 <= i < 64 && i != s implies #[trigger] f(i) == 0 by {
        assert(owned(b, i, c) ==> b[i]->0.piece_type == PieceType::Pawn || b[i]->0.piece_type
            == PieceType::King);
    }
    lemma_sum_single(f, s, 64);
    let p = |t: int| reach(b, b[s]->0, s, t) && crate::eval::safe_square(b, c, t);
    let q = |t: int|
        reach(b, b[s]->0, s, t) && !(b[t] is Some && b[t]->0.color == c) && !pawn_guards(
            b,
            c.other(),
            t,
        );
    assert forall|t: int| 0 <= t < 64 implies #[trigger] p(t) == q(t) by {
        lemma_pawn_guards(b, c.other(), t);
    }
    bits::lemma_count_ext(p, q);
}

/// A pawn of player `c` attacks `t`.
pub open spec fn pawn_guards(b: Seq<Option<Piece>>, c: Color, t: int) -> bool {
    exists|i: int| #[trigger]
        holds(b, i, c, PieceType::Pawn) && gap(i % 8, t % 8) == 1 && (match c {
            Color::White => t / 8 == i / 8 + 1,
            Color::Black => t / 8 == i / 8 - 1,
        })
}

proof fn lemma_pawn_guards(b: Seq<Option<Piece>>, c: Color, t: int)
    ensures
        crate::eval::pawn_covers(c, pawns_of(b, c), t) == pawn_guards(b, c, t),
{
    let own = pawns_of(b, c);
    if crate::eval::pawn_covers(c, own, t) {
        let i = choose|i: int| #[trigger] own(i) && crate::attacks::pawn_hits(c, i, t);
        assert(holds(b, i, c, PieceType::Pawn) && gap(i % 8, t % 8) == 1);
    }
    if pawn_guards(b, c, t) {
        let i = choose|i: int| #[trigger]
            holds(b, i, c, PieceType::Pawn) && gap(i % 8, t % 8) == 1 && (match c {
                Color::White => t / 8 == i / 8 + 1,
                Color::Black => t / 8 == i / 8 - 1,
            });
        assert(own(i) && crate::attacks::pawn_hits(c, i, t));
    }
}

// ---------------------------------------------------------------------------
// King safety.
// ---------------------------------------------------------------------------

/// A king with no fewer shielding pawns and no more attackers is no less safe; a pawn more
/// in front of it makes it safer.
pub proof fn law_safe_kings(a: Seq<Option<Piece>>, b: Seq<Option<Piece>>, c: Color)
    requires
        0 <= danger_of(a, c) <= danger_of(b, c),
    ensures
        shield_of(a, c) >= shield_of(b, c) ==> king_safety_of(a, c) >= king_safety_of(b, c),
        shield_of(a, c) > shield_of(b, c) ==> king_safety_of(a, c) > king_safety_of(b, c),
        danger_of(a, c) == 0 ==> king_safety_of(a, c) == 9 * shield_of(a, c),
        danger_of(a, c) >= 2 ==> king_safety_of(a, c) < 9 * shield_of(a, c),
{
    assert(forall|i: int, j: int|
        0 <= i <= j < 30 ==> crate::tables::KING_SAFETY_TABLE@[i]
            <= crate::tables::KING_SAFETY_TABLE@[j]) by {
        lemma_safety_table();
    }
}

proof fn lemma_safety_table()
    ensures
        forall|i: int, j: int|
            0 <= i <= j < 30 ==> crate::tables::KING_SAFETY_TABLE@[i]
                <= crate::tables::KING_SAFETY_TABLE@[j],
{
    assert forall|i: int, j: int| 0 <= i <= j < 30 implies crate::tables::KING_SAFETY_TABLE@[i]
        <= crate::tables::KING_SAFETY_TABLE@[j] by {
        lemma_safety_step(i, j);
    }
}

proof fn lemma_safety_step(i: int, j: int)
    requires
        0 <= i <= j < 30,
    ensures
        crate::tables::KING_SAFETY_TABLE@[i] <= crate::tables::KING_SAFETY_TABLE@[j],
    decreases j - i,
{
    if i < j {
        lemma_safety_step(i, j - 1);
        let k = j - 1;
        assert(crate::tables::KING_SAFETY_TABLE@[k] <= crate::tables::KING_SAFETY_TABLE@[k + 1]);
    }
}

/// A pawn shields the king of its player from one of the two ranks just ahead of the king,
/// on its file or beside it; elsewhere it does not.
pub proof fn law_pawns_shield_the_king(b: Seq<Option<Piece>>, c: Color, s: int)
    requires
        b.len() == 64,
        holds(b, s, c, PieceType::Pawn),
    ensures
        ({
            let k = king_sq(b, c);
            let near = gap(k % 8, s % 8) <= 1 && (match c {
                Color::White => k / 8 + 1 <= s / 8 <= k / 8 + 2,
                Color::Black => k / 8 - 2 <= s / 8 <= k / 8 - 1,
            });
            king_sq(b.update(s, None), c) == k ==> shield_of(b, c) == shield_of(
                b.update(s, None),
                c,
            ) + one_if(near)
        }),
{
    let w = b.update(s, None);
    let k = king_sq(b, c);
    if king_sq(w, c) == k {
        let p = |t: int|
            holds(b, t, c, PieceType::Pawn) && crate::eval::in_shield(c, king_sq(b, c), t);
        let q = |t: int|
            holds(w, t, c, PieceType::Pawn) && crate::eval::in_shield(c, king_sq(w, c), t);
        let f = |i: int| one_if(p(i));
        let g = |i: int| one_if(q(i));
        assert forall|i: int| 0 <= i < 64 && i != s implies #[trigger] g(i) == f(i) by {
            assert(w[i] == b[i]);
        }
        bits::lemma_sum_one(g, f, s, 64);
    }
}

/// Only enemy knights, bishops, rooks and queens that attack a square next to the king
/// endanger it: one such piece by its weight, queens more than rooks, and these more than
/// knights and bishops.
pub proof fn law_attackers_endanger_the_king(b: Seq<Option<Piece>>, c: Color, s: int)
    requires
        b.len() == 64,
        0 <= s < 64,
        forall|i: int| #[trigger]
            owned(b, i, c.other()) && i != s ==> b[i]->0.piece_type == PieceType::Pawn
                || b[i]->0.piece_type == PieceType::King,
    ensures
        ({
            let k = king_sq(b, c);
            let close = owned(b, s, c.other()) && exists|t: int|
                0 <= t < 64 && #[trigger] king_hits(k, t) && reach(b, b[s]->0, s, t);
            danger_of(b, c) == (if !close {
                0int
            } else {
                match b[s]->0.piece_type {
                    PieceType::Queen => 5,
                    PieceType::Rook => 3,
                    PieceType::Bishop => 2,
                    PieceType::Knight => 2,
                    _ => 0,
                }
            })
        }),
{
    let f = |i: int| danger_at(b, c, i);
    assert forall|i: int| 0 <= i < 64 && i != s implies #[trigger] f(i) == 0 by {
        assert(owned(b, i, c.other()) ==> b[i]->0.piece_type == PieceType::Pawn
            || b[i]->0.piece_type == PieceType::King);
    }
    lemma_sum_single(f, s, 64);
    assert(presses(b, s, king_sq(b, c)) == exists|t: int|
        0 <= t < 64 && #[trigger] king_hits(king_sq(b, c), t) && reach(b, b[s]->0, s, t));
}

// ---------------------------------------------------------------------------
// The whole.
// ---------------------------------------------------------------------------

/// The phase runs from kings and pawns alone, zero, to the full army; a piece that leaves
/// the board never raises it.
pub proof fn law_phase_falls_with_the_pieces(b: Seq<Option<Piece>>, s: int)
    requires
        b.len() == 64,
        0 <= s < 64,
    ensures
        0 <= phase_of(b.update(s, None)) <= phase_of(b) <= 24,
        (forall|i: int|
            0 <= i < 64 && (#[trigger] b[i]) is Some ==> b[i]->0.piece_type == PieceType::Pawn
                || b[i]->0.piece_type == PieceType::King) ==> phase_of(b) == 0,
        b[s] is Some && b[s]->0.piece_type != PieceType::Pawn && b[s]->0.piece_type
            != PieceType::King && phase_of(b) < 24 ==> phase_of(b.update(s, None)) < phase_of(b),
{
    let w = b.update(s, None);
    let f = |i: int| phase_at(b, i);
    let g = |i: int| phase_at(w, i);
    assert forall|i: int| 0 <= i < 64 && i != s implies #[trigger] g(i) == f(i) by {
        assert(w[i] == b[i]);
    }
    bits::lemma_sum_one(g, f, s, 64);
    assert forall|i: int| 0 <= i < 64 implies 0 <= #[trigger] g(i) <= 4 by {
    }
    bits::lemma_sum_bound(g, 64, 0, 4);
    if forall|i: int|
        0 <= i < 64 && (#[trigger] b[i]) is Some ==> b[i]->0.piece_type == PieceType::Pawn
            || b[i]->0.piece_type == PieceType::King {
        lemma_sum_zero(f, 64);
    }
}

/// Dropping the fraction treats gains and losses alike.
proof fn lemma_quotient(a: int, b: int)
    requires
        b > 0,
    ensures
        quotient(-a, b) == -quotient(a, b),
        a >= 0 ==> quotient(a, b) >= 0,
{
}

/// The blend lies between its two parts, is the first at the full phase and the second at
/// none.
pub proof fn law_blends_lie_between(mg: int, eg: int, phase: int)
    requires
        0 <= phase <= 24,
    ensures
        taper(mg, eg, 24) == mg,
        taper(mg, eg, 0) == eg,
        mg <= eg ==> mg <= taper(mg, eg, phase) <= eg,
        eg <= mg ==> eg <= taper(mg, eg, phase) <= mg,
{
    let n = mg * phase + eg * (24 - phase);
    assert(mg * 24 + eg * (24 - 24) == 24 * mg) by (nonlinear_arith);
    assert(mg * 0 + eg * (24 - 0) == 24 * eg) by (nonlinear_arith);
    assert(mg <= eg ==> 24 * mg <= n <= 24 * eg) by (nonlinear_arith)
        requires
            n == mg * phase + eg * (24 - phase),
            0 <= phase <= 24,
    ;
    assert(eg <= mg ==> 24 * eg <= n <= 24 * mg) by (nonlinear_arith)
        requires
            n == mg * phase + eg * (24 - phase),
            0 <= phase <= 24,
    ;
}

/// What one player has in the midgame or the endgame is the sum of its terms; how safe the
/// king is matters in the midgame alone.
pub proof fn law_terms_add_up(b: Seq<Option<Piece>>, c: Color)
    ensures
        side_total(0, b, c) == base(0, b, c) + mobility_of(0, b, c) + king_safety_of(b, c)
            + pawn_score(0, c, pawns_of(b, c), pawns_of(b, c.other())) + pair_of(0, b, c) + rooks_of(
            0,
            b,
            c,
        ),
        side_total(1, b, c) == base(1, b, c) + mobility_of(1, b, c) + pawn_score(
            1,
            c,
            pawns_of(b, c),
            pawns_of(b, c.other()),
        ) + pair_of(1, b, c) + rooks_of(1, b, c),
{
}

/// The players see a position with opposite signs, but for the advantage of the move,
/// which is worth something to either.
pub proof fn law_the_move_is_an_advantage(v: PosView)
    requires
        v.board.len() == 64,
    ensures
        10 <= score(v) + score(PosView { side: v.side.other(), ..v }) <= 20,
{
    reveal(score);
    let b = v.board;
    let c = v.side;
    let mg = side_total(0, b, c) - side_total(0, b, c.other());
    let eg = side_total(1, b, c) - side_total(1, b, c.other());
    let p = phase_of(b);
    assert(c.other().other() == c);
    law_phase_falls_with_the_pieces(b, 0);
    law_blends_lie_between(10, 5, p);
    let n = mg * p + eg * (24 - p);
    assert((-mg) * p + (-eg) * (24 - p) == -n) by (nonlinear_arith)
        requires
            n == mg * p + eg * (24 - p),
    ;
    lemma_quotient(n, 24);
    assert(-mg == side_total(0, b, c.other()) - side_total(0, b, c));
    assert(-eg == side_total(1, b, c.other()) - side_total(1, b, c));
    assert(balance(b, c.other()) == -balance(b, c));
}

/// A player who is ahead in every phase is better off than one who is behind in every
/// phase, and the evaluation tells by how much: no less than the smaller lead and no more
/// than the larger one, apart from the advantage of the move.
pub proof fn law_leads_are_scored(v: PosView, lo: int, hi: int)
    requires
        v.board.len() == 64,
        lo <= side_total(0, v.board, v.side) - side_total(0, v.board, v.side.other()) <= hi,
        lo <= side_total(1, v.board, v.side) - side_total(1, v.board, v.side.other()) <= hi,
    ensures
        lo + 5 <= score(v) <= hi + 10,
{
    reveal(score);
    let b = v.board;
    let c = v.side;
    let mg = side_total(0, b, c) - side_total(0, b, c.other());
    let eg = side_total(1, b, c) - side_total(1, b, c.other());
    law_phase_falls_with_the_pieces(b, 0);
    law_blends_lie_between(10, 5, phase_of(b));
    law_blends_lie_between(mg, eg, phase_of(b));
}

/// With kings and pawns alone only the endgame counts, with the full army only the
/// midgame.
pub proof fn law_phases_are_told_apart(v: PosView)
    requires
        v.board.len() == 64,
    ensures
        phase_of(v.board) == 0 ==> score(v) == side_total(1, v.board, v.side) - side_total(
            1,
            v.board,
            v.side.other(),
        ) + 5,
        phase_of(v.board) == 24 ==> score(v) == side_total(0, v.board, v.side) - side_total(
            0,
            v.board,
            v.side.other(),
        ) + 10,
{
    reveal(score);
    let b = v.board;
    let c = v.side;
    let mg = side_total(0, b, c) - side_total(0, b, c.other());
    let eg = side_total(1, b, c) - side_total(1, b, c.other());
    law_blends_lie_between(10, 5, 0);
    law_blends_lie_between(mg, eg, 0);
}

// ---------------------------------------------------------------------------
// All the pieces together.
// ---------------------------------------------------------------------------

/// Each piece that leaves the board lowers the phase by its weight: a knight or a bishop by
/// one, a rook by two, a queen by four, a pawn or a king by nothing.
pub proof fn law_phase_weights(b: Seq<Option<Piece>>, s: int)
    requires
        b.len() == 64,
        0 <= s < 64,
        b[s] is Some,
        phase_of(b) < 24,
    ensures
        phase_of(b) - phase_of(b.update(s, None)) == (match b[s]->0.piece_type {
            PieceType::Knight => 1,
            PieceType::Bishop => 1,
            PieceType::Rook => 2,
            PieceType::Queen => 4,
            _ => 0int,
        }),
{
    let w = b.update(s, None);
    let f = |i: int| phase_at(b, i);
    let g = |i: int| phase_at(w, i);
    assert forall|i: int| 0 <= i < 64 && i != s implies #[trigger] g(i) == f(i) by {
        assert(w[i] == b[i]);
    }
    bits::lemma_sum_one(g, f, s, 64);
}

/// The mobility of a player is that of all its knights, bishops, rooks and queens, each by
/// the squares it attacks that hold no own piece and that no enemy pawn attacks.
pub proof fn law_mobility_of_all_pieces(ph: int, b: Seq<Option<Piece>>, c: Color)
    requires
        b.len() == 64,
    ensures
        mobility_of(ph, b, c) == sum(
            |i: int|
                if b[i] is Some && b[i]->0.color == c && b[i]->0.piece_type != PieceType::Pawn
                    && b[i]->0.piece_type != PieceType::King {
                    mobility_bonus(
                        ph,
                        b[i]->0.piece_type,
                        count(
                            |t: int|
                                reach(b, b[i]->0, i, t) && !(b[t] is Some && b[t]->0.color == c)
                                    && !pawn_guards(b, c.other(), t),
                        ),
                    )
                } else {
                    0
                },
            64,
        ),
{
    let f = |i: int| mobility_at(ph, b, c, i);
    let g = |i: int|
        if b[i] is Some && b[i]->0.color == c && b[i]->0.piece_type != PieceType::Pawn
            && b[i]->0.piece_type != PieceType::King {
            mobility_bonus(
                ph,
                b[i]->0.piece_type,
                count(
                    |t: int|
                        reach(b, b[i]->0, i, t) && !(b[t] is Some && b[t]->0.color == c)
                            && !pawn_guards(b, c.other(), t),
                ),
            )
        } else {
            0
        };
    assert forall|i: int| 0 <= i < 64 implies #[trigger] f(i) == g(i) by {
        let p = |t: int| reach(b, b[i]->0, i, t) && crate::eval::safe_square(b, c, t);
        let q = |t: int|
            reach(b, b[i]->0, i, t) && !(b[t] is Some && b[t]->0.color == c) && !pawn_guards(
                b,
                c.other(),
                t,
            );
        assert forall|t: int| 0 <= t < 64 implies #[trigger] p(t) == q(t) by {
            lemma_pawn_guards(b, c.other(), t);
        }
        bits::lemma_count_ext(p, q);
    }
    bits::lemma_sum_ext(f, g, 64);
}

/// The danger to a king is the weight of all the enemy knights, bishops, rooks and queens
/// that attack a square next to it.
pub proof fn law_danger_from_all_attackers(b: Seq<Option<Piece>>, c: Color)
    requires
        b.len() == 64,
    ensures
        danger_of(b, c) == sum(
            |i: int|
                if b[i] is Some && b[i]->0.color == c.other() && exists|t: int|
                    0 <= t < 64 && #[trigger] king_hits(king_sq(b, c), t) && reach(
                        b,
                        b[i]->0,
                        i,
                        t,
                    ) {
                    match b[i]->0.piece_type {
                        PieceType::Queen => 5int,
                        PieceType::Rook => 3,
                        PieceType::Bishop => 2,
                        PieceType::Knight => 2,
                        _ => 0,
                    }
                } else {
                    0
                },
            64,
        ),
        danger_of(b, c) >= 0,
{
    let f = |i: int| danger_at(b, c, i);
    let g = |i: int|
        if b[i] is Some && b[i]->0.color == c.other() && exists|t: int|
            0 <= t < 64 && #[trigger] king_hits(king_sq(b, c), t) && reach(b, b[i]->0, i, t) {
            match b[i]->0.piece_type {
                PieceType::Queen => 5int,
                PieceType::Rook => 3,
                PieceType::Bishop => 2,
                PieceType::Knight => 2,
                _ => 0,
            }
        } else {
            0
        };
    assert forall|i: int| 0 <= i < 64 implies #[trigger] f(i) == g(i) by {
    }
    bits::lemma_sum_ext(f, g, 64);
    bits::lemma_sum_bound(f, 64, 0, 5);
}

/// Knights stand better in the middle of the board than in its corners, and so do kings in
/// the endgame; in the midgame a king is better off near a corner of its own back rank than
/// in the middle.
pub proof fn law_pieces_like_good_squares(ph: int, corner: int, middle: int)
    requires
        ph == 0 || ph == 1,
        corner == 0 || corner == 7 || corner == 56 || corner == 63,
        middle == 27 || middle == 28 || middle == 35 || middle == 36,
    ensures
        white_worth(ph, PieceType::Knight, middle) > white_worth(ph, PieceType::Knight, corner),
        white_worth(1, PieceType::King, middle) > white_worth(1, PieceType::King, corner),
        white_worth(0, PieceType::King, 6) > white_worth(0, PieceType::King, middle),
        white_worth(0, PieceType::King, 2) > white_worth(0, PieceType::King, middle),
        white_worth(ph, PieceType::Queen, middle) > white_worth(ph, PieceType::Rook, middle)
            + white_worth(ph, PieceType::Pawn, middle),
{
    assert(MG_KNIGHT@[0] == -105 && MG_KNIGHT@[7] == -23 && MG_KNIGHT@[56] == -167
        && MG_KNIGHT@[63] == -107);
    assert(EG_KNIGHT@[0] == -29 && EG_KNIGHT@[7] == -64 && EG_KNIGHT@[56] == -58 && EG_KNIGHT@[63]
        == -99);
    assert(MG_KNIGHT@[27] == 13 && MG_KNIGHT@[28] == 28 && MG_KNIGHT@[35] == 53 && MG_KNIGHT@[36]
        == 37);
    assert(EG_KNIGHT@[27] == 25 && EG_KNIGHT@[28] == 16 && EG_KNIGHT@[35] == 22 && EG_KNIGHT@[36]
        == 22);
    assert(EG_KING@[0] == -53 && EG_KING@[7] == -43 && EG_KING@[56] == -74 && EG_KING@[63] == -17);
    assert(EG_KING@[27] == 24 && EG_KING@[28] == 27 && EG_KING@[35] == 27 && EG_KING@[36] == 26);
    assert(MG_KING@[6] == 24 && MG_KING@[2] == 12);
    assert(MG_KING@[27] == -39 && MG_KING@[28] == -46 && MG_KING@[35] == -27 && MG_KING@[36] == -30);
}

/// What mobility is worth: nothing for a few safe squares, most for all that a piece can
/// have, and a penalty for none; and what danger costs.
pub proof fn law_anchors_of_the_tables(ph: int)
    requires
        ph == 0 || ph == 1,
    ensures
        mobility_bonus(ph, PieceType::Knight, 3) == 0,
        mobility_bonus(ph, PieceType::Bishop, 2) == 0,
        mobility_bonus(ph, PieceType::Rook, 2) == 0,
        mobility_bonus(ph, PieceType::Queen, 3) == 0,
        mobility_bonus(0, PieceType::Knight, 8) == 26 && mobility_bonus(1, PieceType::Knight, 8)
            == 21,
        mobility_bonus(0, PieceType::Bishop, 13) == 39 && mobility_bonus(1, PieceType::Bishop, 13)
            == 38,
        mobility_bonus(0, PieceType::Rook, 14) == 26 && mobility_bonus(1, PieceType::Rook, 14)
            == 46,
        mobility_bonus(0, PieceType::Queen, 27) == 28 && mobility_bonus(1, PieceType::Queen, 27)
            == 48,
        mobility_bonus(0, PieceType::Knight, 0) == -30 && mobility_bonus(1, PieceType::Knight, 0)
            == -30,
        mobility_bonus(0, PieceType::Bishop, 0) == -25 && mobility_bonus(1, PieceType::Bishop, 0)
            == -25,
        mobility_bonus(0, PieceType::Rook, 0) == -20 && mobility_bonus(1, PieceType::Rook, 0)
            == -30,
        mobility_bonus(0, PieceType::Queen, 0) == -15 && mobility_bonus(1, PieceType::Queen, 0)
            == -20,
        mobility_bonus(ph, PieceType::Pawn, 4) == 0 && mobility_bonus(ph, PieceType::King, 4) == 0,
        crate::tables::KING_SAFETY_TABLE@[0] == 0 && crate::tables::KING_SAFETY_TABLE@[10] == 92,
        crate::tables::KING_SAFETY_TABLE@[20] == 382 && crate::tables::KING_SAFETY_TABLE@[29] == 472,
{
}

} // verus!
