//! Generating the legal moves of a position.

use vstd::prelude::*;

use crate::attacks;
use crate::attacks::{between, diagonal, straight};
use crate::bits;
use crate::bits::on;
use crate::position::Position;
use crate::rules;
use crate::rules::{
    PosView, attacks_from, holds, king_home, king_sq, landable, legal, may_castle, moved, open_line,
    owned, pawn_goes, pseudo, rook_home,
};
use crate::types::{Color, Move, MoveType, Piece, PieceType, Square, file, rank};

verus! {

// ---------------------------------------------------------------------------
// The list of legal moves.
// ---------------------------------------------------------------------------

/// A move between two squares.
pub open spec fn mv(from: int, to: int, kind: MoveType, promo: PieceType) -> Move {
    Move { from: Square(from as u8), to: Square(to as u8), kind, promo }
}

/// The move alone if it is legal, and nothing otherwise.
pub open spec fn pick(v: PosView, m: Move) -> Seq<Move> {
    if legal(v, m) {
        seq![m]
    } else {
        seq![]
    }
}

/// The legal moves from one square to another.
pub open spec fn cell(v: PosView, from: int, to: int) -> Seq<Move> {
    pick(v, mv(from, to, MoveType::Promotion, PieceType::Queen)) + pick(
        v,
        mv(from, to, MoveType::Promotion, PieceType::Rook),
    ) + pick(v, mv(from, to, MoveType::Promotion, PieceType::Bishop)) + pick(
        v,
        mv(from, to, MoveType::Promotion, PieceType::Knight),
    ) + pick(v, mv(from, to, MoveType::Normal, PieceType::Knight)) + pick(
        v,
        mv(from, to, MoveType::EnPassant, PieceType::Knight),
    ) + pick(v, mv(from, to, MoveType::Castling, PieceType::Knight))
}

/// The legal moves from one square to the first `n` squares.
pub open spec fn row(v: PosView, from: int, n: int) -> Seq<Move>
    decreases n,
{
    if n <= 0 {
        seq![]
    } else {
        row(v, from, n - 1) + cell(v, from, n - 1)
    }
}

/// The legal moves from the first `n` squares.
pub open spec fn rows(v: PosView, n: int) -> Seq<Move>
    decreases n,
{
    if n <= 0 {
        seq![]
    } else {
        rows(v, n - 1) + row(v, n - 1, 64)
    }
}

/// The legal moves of a position, ordered by origin and then by destination; of
/// promotions, the queen comes first and the knight last.
#[verifier::opaque]
pub open spec fn legal_moves(v: PosView) -> Seq<Move> {
    rows(v, 64)
}

// ---------------------------------------------------------------------------
// The list holds every legal move, once.
// ---------------------------------------------------------------------------

/// A legal move is one of the seven candidates of its cell.
proof fn lemma_in_cell(v: PosView, m: Move)
    requires
        legal(v, m),
    ensures
        cell(v, m.from.i(), m.to.i()).contains(m),
{
    let f = m.from.i();
    let t = m.to.i();
    let a = pick(v, mv(f, t, MoveType::Promotion, PieceType::Queen));
    let b = pick(v, mv(f, t, MoveType::Promotion, PieceType::Rook));
    let c = pick(v, mv(f, t, MoveType::Promotion, PieceType::Bishop));
    let d = pick(v, mv(f, t, MoveType::Promotion, PieceType::Knight));
    let e = pick(v, mv(f, t, MoveType::Normal, PieceType::Knight));
    let g = pick(v, mv(f, t, MoveType::EnPassant, PieceType::Knight));
    let h = pick(v, mv(f, t, MoveType::Castling, PieceType::Knight));
    let all = cell(v, f, t);
    assert(Square(f as u8) == m.from && Square(t as u8) == m.to);
    assert(all == a + b + c + d + e + g + h);
    let at = match m.kind {
        MoveType::Promotion => match m.promo {
            PieceType::Queen => 0,
            PieceType::Rook => a.len(),
            PieceType::Bishop => a.len() + b.len(),
            _ => a.len() + b.len() + c.len(),
        },
        MoveType::Normal => a.len() + b.len() + c.len() + d.len(),
        MoveType::EnPassant => a.len() + b.len() + c.len() + d.len() + e.len(),
        MoveType::Castling => a.len() + b.len() + c.len() + d.len() + e.len() + g.len(),
    };
    assert(all[at as int] == m);
}

/// What is in a cell is legal and goes between the cell's squares.
proof fn lemma_cell_sound(v: PosView, from: int, to: int, i: int)
    requires
        0 <= from < 64,
        0 <= to < 64,
        0 <= i < cell(v, from, to).len(),
    ensures
        legal(v, cell(v, from, to)[i]),
        cell(v, from, to)[i].from.i() == from,
        cell(v, from, to)[i].to.i() == to,
{
}

proof fn lemma_row_sound(v: PosView, from: int, n: int, i: int)
    requires
        0 <= from < 64,
        0 <= n <= 64,
        0 <= i < row(v, from, n).len(),
    ensures
        legal(v, row(v, from, n)[i]),
        row(v, from, n)[i].from.i() == from,
        row(v, from, n)[i].to.i() < n,
    decreases n,
{
    if n > 0 {
        let a = row(v, from, n - 1);
        if i < a.len() {
            lemma_row_sound(v, from, n - 1, i);
        } else {
            lemma_cell_sound(v, from, n - 1, i - a.len());
        }
    }
}

proof fn lemma_rows_sound(v: PosView, n: int, i: int)
    requires
        0 <= n <= 64,
        0 <= i < rows(v, n).len(),
    ensures
        legal(v, rows(v, n)[i]),
        rows(v, n)[i].from.i() < n,
    decreases n,
{
    if n > 0 {
        let a = rows(v, n - 1);
        if i < a.len() {
            lemma_rows_sound(v, n - 1, i);
        } else {
            lemma_row_sound(v, n - 1, 64, i - a.len());
        }
    }
}

proof fn lemma_row_complete(v: PosView, m: Move, n: int)
    requires
        legal(v, m),
        m.to.i() < n <= 64,
    ensures
        row(v, m.from.i(), n).contains(m),
    decreases n,
{
    let a = row(v, m.from.i(), n - 1);
    let b = cell(v, m.from.i(), n - 1);
    if m.to.i() == n - 1 {
        lemma_in_cell(v, m);
        let j = choose|j: int| 0 <= j < b.len() && b[j] == m;
        assert((a + b)[a.len() + j] == m);
    } else {
        lemma_row_complete(v, m, n - 1);
        let j = choose|j: int| 0 <= j < a.len() && a[j] == m;
        assert((a + b)[j] == m);
    }
}

proof fn lemma_rows_complete(v: PosView, m: Move, n: int)
    requires
        legal(v, m),
        m.from.i() < n <= 64,
    ensures
        rows(v, n).contains(m),
    decreases n,
{
    let a = rows(v, n - 1);
    let b = row(v, n - 1, 64);
    if m.from.i() == n - 1 {
        lemma_row_complete(v, m, 64);
        let j = choose|j: int| 0 <= j < b.len() && b[j] == m;
        assert((a + b)[a.len() + j] == m);
    } else {
        lemma_rows_complete(v, m, n - 1);
        let j = choose|j: int| 0 <= j < a.len() && a[j] == m;
        assert((a + b)[j] == m);
    }
}

/// The list of legal moves holds a move exactly when the move is legal.
pub proof fn law_legal_moves_complete(v: PosView, m: Move)
    ensures
        legal_moves(v).contains(m) <==> legal(v, m),
{
    reveal(legal_moves);
    if legal(v, m) {
        lemma_rows_complete(v, m, 64);
    }
    if legal_moves(v).contains(m) {
        let i = choose|i: int| 0 <= i < legal_moves(v).len() && legal_moves(v)[i] == m;
        lemma_rows_sound(v, 64, i);
    }
}

proof fn lemma_cell_unique(v: PosView, from: int, to: int, i: int, j: int)
    requires
        0 <= i < j < cell(v, from, to).len(),
    ensures
        cell(v, from, to)[i] != cell(v, from, to)[j],
{
    let a = pick(v, mv(from, to, MoveType::Promotion, PieceType::Queen));
    let b = pick(v, mv(from, to, MoveType::Promotion, PieceType::Rook));
    let c = pick(v, mv(from, to, MoveType::Promotion, PieceType::Bishop));
    let d = pick(v, mv(from, to, MoveType::Promotion, PieceType::Knight));
    let e = pick(v, mv(from, to, MoveType::Normal, PieceType::Knight));
    let g = pick(v, mv(from, to, MoveType::EnPassant, PieceType::Knight));
    let h = pick(v, mv(from, to, MoveType::Castling, PieceType::Knight));
    let ab = a + b;
    let abc = ab + c;
    let abcd = abc + d;
    let abcde = abcd + e;
    let abcdeg = abcde + g;
    assert(cell(v, from, to) == abcdeg + h);
    assert(forall|k: int| 0 <= k < ab.len() ==> #[trigger] ab[k].kind == MoveType::Promotion && (
    ab[k].promo == PieceType::Queen || ab[k].promo == PieceType::Rook));
    assert(forall|k: int| 0 <= k < abc.len() ==> #[trigger] abc[k].kind == MoveType::Promotion
        && abc[k].promo != PieceType::Knight);
    assert(forall|k: int| 0 <= k < abcd.len() ==> #[trigger] abcd[k].kind == MoveType::Promotion);
    assert(forall|k: int|
        0 <= k < abcde.len() ==> #[trigger] abcde[k].kind != MoveType::EnPassant && abcde[k].kind
            != MoveType::Castling);
    assert(forall|k: int| 0 <= k < abcdeg.len() ==> #[trigger] abcdeg[k].kind != MoveType::Castling);
}

proof fn lemma_row_unique(v: PosView, from: int, n: int, i: int, j: int)
    requires
        0 <= from < 64,
        0 <= n <= 64,
        0 <= i < j < row(v, from, n).len(),
    ensures
        row(v, from, n)[i] != row(v, from, n)[j],
    decreases n,
{
    if n > 0 {
        let a = row(v, from, n - 1);
        if j < a.len() {
            lemma_row_unique(v, from, n - 1, i, j);
        } else if i < a.len() {
            lemma_row_sound(v, from, n - 1, i);
            lemma_cell_sound(v, from, n - 1, j - a.len());
        } else {
            lemma_cell_unique(v, from, n - 1, i - a.len(), j - a.len());
        }
    }
}

proof fn lemma_rows_unique(v: PosView, n: int, i: int, j: int)
    requires
        0 <= n <= 64,
        0 <= i < j < rows(v, n).len(),
    ensures
        rows(v, n)[i] != rows(v, n)[j],
    decreases n,
{
    if n > 0 {
        let a = rows(v, n - 1);
        if j < a.len() {
            lemma_rows_unique(v, n - 1, i, j);
        } else if i < a.len() {
            lemma_rows_sound(v, n - 1, i);
            lemma_row_sound(v, n - 1, 64, j - a.len());
        } else {
            lemma_row_unique(v, n - 1, 64, i - a.len(), j - a.len());
        }
    }
}

/// The list of legal moves holds no move twice.
pub proof fn law_legal_moves_unique(v: PosView)
    ensures
        legal_moves(v).no_duplicates(),
{
    reveal(legal_moves);
    assert forall|i: int, j: int|
        0 <= i < legal_moves(v).len() && 0 <= j < legal_moves(v).len() && i
            != j implies legal_moves(v)[i] != legal_moves(v)[j] by {
        if i < j {
            lemma_rows_unique(v, 64, i, j);
        } else {
            lemma_rows_unique(v, 64, j, i);
        }
    }
}

/// Every move of the list is legal.
pub proof fn lemma_listed_legal(v: PosView, i: int)
    requires
        0 <= i < legal_moves(v).len(),
    ensures
        legal(v, legal_moves(v)[i]),
{
    reveal(legal_moves);
    lemma_rows_sound(v, 64, i);
}

/// There is no legal move exactly when the list is empty.
pub proof fn lemma_stuck(v: PosView)
    ensures
        rules::stuck(v) <==> legal_moves(v).len() == 0,
{
    if legal_moves(v).len() > 0 {
        lemma_listed_legal(v, 0);
    } else {
        assert forall|m: Move| !#[trigger] legal(v, m) by {
            law_legal_moves_complete(v, m);
        }
    }
}

// ---------------------------------------------------------------------------
// Legality.
// ---------------------------------------------------------------------------

/// A piece that does not share a line with its king uncovers no attack on it.
proof fn lemma_unpinned(v: PosView, m: Move)
    requires
        v.wf(),
        pseudo(v, m),
        m.kind == MoveType::Normal || m.kind == MoveType::Promotion,
        !v.in_check(),
        m.from.i() != king_sq(v.board, v.side),
        !straight(m.from.i(), king_sq(v.board, v.side)),
        !diagonal(m.from.i(), king_sq(v.board, v.side)),
    ensures
        legal(v, m),
{
    let b = v.board;
    let us = v.side;
    let them = us.other();
    let nb = moved(b, us, m);
    let k = king_sq(b, us);
    let from = m.from.i();
    let to = m.to.i();
    rules::lemma_king_held(b, us);
    rules::lemma_apply_wf(v, m);
    assert(holds(nb, k, us, PieceType::King));
    rules::lemma_king(nb, us, k);
    assert forall|q: int| !#[trigger] attacks_from(nb, them, q, k) by {
        if attacks_from(nb, them, q, k) {
            assert(q != to && q != from);
            assert(nb[q] == b[q]);
            if open_line(nb, q, k) {
                assert forall|u: int| 0 <= u < 64 && #[trigger] between(q, u, k) implies b[u] is None by {
                    assert(nb[u] is None);
                }
            }
            assert(attacks_from(b, them, q, k));
        }
    }
}

/// Is a move that obeys the way the pieces move legal?
pub fn is_safe(pos: &Position, m: Move, king: Square, in_check: bool) -> (r: bool)
    requires
        pos.wf(),
        pseudo(pos@, m),
        king.i() == king_sq(pos@.board, pos@.side),
        king.wf(),
        in_check == pos@.in_check(),
    ensures
        r == legal(pos@, m),
{
    if !in_check && (m.kind == MoveType::Normal || m.kind == MoveType::Promotion) && m.from.0
        != king.0 && m.from.file() != king.file() && m.from.rank() != king.rank() {
        let df: i8 = m.from.file() as i8 - king.file() as i8;
        let dr: i8 = m.from.rank() as i8 - king.rank() as i8;
        if df != dr && df != -dr {
            proof {
                lemma_unpinned(pos@, m);
            }
            return true;
        }
    }
    let us = pos.side_to_move();
    let mut after: Position = *pos;
    let _ = after.make_move(m);
    !after.is_attacked(after.king_square(us), us.opponent())
}

// ---------------------------------------------------------------------------
// Generation.
// ---------------------------------------------------------------------------

/// A list of moves.
pub struct MoveList {
    pub moves: Vec<Move>,
}

impl View for MoveList {
    type V = Seq<Move>;

    open spec fn view(&self) -> Seq<Move> {
        self.moves@
    }
}

impl MoveList {
    pub fn len(&self) -> (r: usize)
        ensures
            r == self@.len(),
    {
        self.moves.len()
    }

    pub fn is_empty(&self) -> (r: bool)
        ensures
            r == (self@.len() == 0),
    {
        self.moves.len() == 0
    }

    pub fn get(&self, i: usize) -> (r: Move)
        requires
            i < self@.len(),
        ensures
            r == self@[i as int],
    {
        self.moves[i]
    }

    pub fn contains(&self, m: Move) -> (r: bool)
        ensures
            r == self@.contains(m),
    {
        let mut i: usize = 0;
        while i < self.moves.len()
            invariant
                i <= self.moves@.len(),
                forall|j: int| 0 <= j < i ==> self.moves@[j] != m,
            decreases self.moves@.len() - i,
        {
            if self.moves[i] == m {
                assert(self.moves@[i as int] == m);
                return true;
            }
            i = i + 1;
        }
        false
    }
}

/// Some move from one square to another obeys the way the pieces move.
pub open spec fn goes(v: PosView, from: int, to: int) -> bool {
    exists|m: Move| m.from.i() == from && m.to.i() == to && #[trigger] pseudo(v, m)
}

/// Where the pawn on `from` may go, apart from capturing en passant.
fn pawn_targets(pos: &Position, from: usize, occ: u64, enemies: u64) -> (r: u64)
    requires
        pos.wf(),
        from < 64,
        rules::occupied_by(pos@.board, occ),
        forall|t: int|
            0 <= t < 64 ==> #[trigger] on(enemies, t) == (pos@.board[t] is Some && landable(
                pos@.board,
                pos@.side,
                t,
            )),
    ensures
        forall|t: int|
            0 <= t < 64 ==> #[trigger] on(r, t) == pawn_goes(
                pos@.board,
                pos@.side,
                from as int,
                t,
            ),
{
    let us = pos.side_to_move();
    let hits: u64 = attacks::pawn_attacks(us, from);
    let mut r: u64 = hits & enemies;
    proof {
        bits::lemma_ops(hits, enemies);
    }
    let has_step: bool = match us {
        Color::White => from < 56,
        Color::Black => from >= 8,
    };
    if has_step {
        let one: usize = match us {
            Color::White => from + 8,
            Color::Black => from - 8,
        };
        assert(one == from + 8 * us.forward());
        if !bits::test(occ, one) {
            let b: u64 = bits::one(one);
            proof {
                bits::lemma_ops(r, b);
            }
            r = r | b;
            let home: bool = match us {
                Color::White => from / 8 == 1,
                Color::Black => from / 8 == 6,
            };
            if home {
                let two: usize = match us {
                    Color::White => from + 16,
                    Color::Black => from - 16,
                };
                assert(two == from + 16 * us.forward());
                if !bits::test(occ, two) {
                    let c: u64 = bits::one(two);
                    proof {
                        bits::lemma_ops(r, c);
                    }
                    r = r | c;
                }
            }
        }
    }
    r
}

/// May the player to move castle on the given side?
pub fn can_castle(pos: &Position, kingside: bool, occ: u64, in_check: bool) -> (r: bool)
    requires
        pos.wf(),
        rules::occupied_by(pos@.board, occ),
        in_check == pos@.in_check(),
    ensures
        r == may_castle(pos@, kingside),
{
    let us = pos.side_to_move();
    let allowed: bool = match us {
        Color::White => if kingside {
            pos.rights.white_king
        } else {
            pos.rights.white_queen
        },
        Color::Black => if kingside {
            pos.rights.black_king
        } else {
            pos.rights.black_queen
        },
    };
    if !allowed {
        return false;
    }
    let k: u8 = match us {
        Color::White => 4,
        Color::Black => 60,
    };
    let ghost b = pos@.board;
    let ghost ki = king_home(us);
    let ghost ri = rook_home(us, kingside);
    let rook: u8 = if kingside {
        k + 3
    } else {
        k - 4
    };
    let kp = pos.piece_at(Square(k));
    let rp = pos.piece_at(Square(rook));
    if kp != Some(Piece { color: us, piece_type: PieceType::King }) {
        return false;
    }
    if rp != Some(Piece { color: us, piece_type: PieceType::Rook }) {
        return false;
    }
    proof {
        assert(holds(b, ki, us, PieceType::King));
        assert(holds(b, ri, us, PieceType::Rook));
        assert(rules::one_king(b, us));
        rules::lemma_king(b, us, ki);
    }
    if in_check {
        return false;
    }
    let (one, two): (u8, u8) = if kingside {
        (k + 1, k + 2)
    } else {
        (k - 1, k - 2)
    };
    if bits::test(occ, one as usize) || bits::test(occ, two as usize) {
        proof {
            assert(between(ki, one as int, ri) && between(ki, two as int, ri));
        }
        return false;
    }
    if !kingside && bits::test(occ, (k - 3) as usize) {
        proof {
            assert(between(ki, k as int - 3, ri));
        }
        return false;
    }
    assert(open_line(b, ki, ri)) by {
        assert forall|u: int| 0 <= u < 64 && #[trigger] between(ki, u, ri) implies b[u] is None by {
            assert(u == one || u == two || (!kingside && u == k - 3));
        }
    }
    let them = us.opponent();
    !pos.is_attacked(Square(one), them) && !pos.is_attacked(Square(two), them)
}

/// No move obeys the way the pieces move: the cell is empty.
proof fn lemma_cell_empty(v: PosView, from: int, to: int)
    requires
        0 <= from < 64,
        0 <= to < 64,
        !goes(v, from, to),
    ensures
        cell(v, from, to) == Seq::<Move>::empty(),
{
    assert forall|kind: MoveType, promo: PieceType| !pseudo(
        v,
        #[trigger] mv(from, to, kind, promo),
    ) by {
        let m = mv(from, to, kind, promo);
        assert(m.from.i() == from && m.to.i() == to);
    }
    assert(cell(v, from, to) =~= Seq::<Move>::empty());
}

/// A piece other than a pawn, or a pawn short of the last rank: the cell holds
/// at most the ordinary move.
proof fn lemma_cell_normal(v: PosView, from: int, to: int)
    requires
        0 <= from < 64,
        0 <= to < 64,
        pseudo(v, mv(from, to, MoveType::Normal, PieceType::Knight)),
    ensures
        cell(v, from, to) == pick(v, mv(from, to, MoveType::Normal, PieceType::Knight)),
{
    assert(!pseudo(v, mv(from, to, MoveType::EnPassant, PieceType::Knight)));
    assert(!pseudo(v, mv(from, to, MoveType::Castling, PieceType::Knight)));
    assert(cell(v, from, to) =~= pick(v, mv(from, to, MoveType::Normal, PieceType::Knight)));
}

/// A pawn reaching the last rank: the cell holds at most the four promotions.
proof fn lemma_cell_promotion(v: PosView, from: int, to: int)
    requires
        0 <= from < 64,
        0 <= to < 64,
        pseudo(v, mv(from, to, MoveType::Promotion, PieceType::Queen)),
    ensures
        cell(v, from, to) == pick(v, mv(from, to, MoveType::Promotion, PieceType::Queen)) + pick(
            v,
            mv(from, to, MoveType::Promotion, PieceType::Rook),
        ) + pick(v, mv(from, to, MoveType::Promotion, PieceType::Bishop)) + pick(
            v,
            mv(from, to, MoveType::Promotion, PieceType::Knight),
        ),
        pseudo(v, mv(from, to, MoveType::Promotion, PieceType::Rook)),
        pseudo(v, mv(from, to, MoveType::Promotion, PieceType::Bishop)),
        pseudo(v, mv(from, to, MoveType::Promotion, PieceType::Knight)),
{
    assert(!pseudo(v, mv(from, to, MoveType::Normal, PieceType::Knight)));
    assert(!pseudo(v, mv(from, to, MoveType::EnPassant, PieceType::Knight)));
    assert(!pseudo(v, mv(from, to, MoveType::Castling, PieceType::Knight)));
    assert(cell(v, from, to) =~= pick(v, mv(from, to, MoveType::Promotion, PieceType::Queen))
        + pick(v, mv(from, to, MoveType::Promotion, PieceType::Rook)) + pick(
        v,
        mv(from, to, MoveType::Promotion, PieceType::Bishop),
    ) + pick(v, mv(from, to, MoveType::Promotion, PieceType::Knight)));
}

/// A capture en passant is alone in its cell.
proof fn lemma_cell_ep(v: PosView, from: int, to: int)
    requires
        0 <= from < 64,
        0 <= to < 64,
        pseudo(v, mv(from, to, MoveType::EnPassant, PieceType::Knight)),
    ensures
        cell(v, from, to) == pick(v, mv(from, to, MoveType::EnPassant, PieceType::Knight)),
{
    assert(!pawn_goes(v.board, v.side, from, to));
    assert(!pseudo(v, mv(from, to, MoveType::Castling, PieceType::Knight)));
    assert(cell(v, from, to) =~= pick(v, mv(from, to, MoveType::EnPassant, PieceType::Knight)));
}

/// Castling is alone in its cell.
proof fn lemma_cell_castling(v: PosView, from: int, to: int)
    requires
        0 <= from < 64,
        0 <= to < 64,
        pseudo(v, mv(from, to, MoveType::Castling, PieceType::Knight)),
    ensures
        cell(v, from, to) == pick(v, mv(from, to, MoveType::Castling, PieceType::Knight)),
{
    assert(!landable(v.board, v.side, to));
    assert(cell(v, from, to) =~= pick(v, mv(from, to, MoveType::Castling, PieceType::Knight)));
}

/// A stretch of squares that cannot be reached adds nothing to a row.
proof fn lemma_row_skip(v: PosView, from: int, a: int, b: int)
    requires
        0 <= from < 64,
        0 <= a <= b <= 64,
        forall|t: int| a <= t < b ==> !#[trigger] goes(v, from, t),
    ensures
        row(v, from, b) == row(v, from, a),
    decreases b - a,
{
    if a < b {
        lemma_row_skip(v, from, a, b - 1);
        lemma_cell_empty(v, from, b - 1);
        assert(row(v, from, b) =~= row(v, from, a));
    }
}

/// A stretch of squares without an own piece adds nothing to the list.
proof fn lemma_rows_skip(v: PosView, a: int, b: int)
    requires
        0 <= a <= b <= 64,
        forall|f: int| a <= f < b ==> !#[trigger] owned(v.board, f, v.side),
    ensures
        rows(v, b) == rows(v, a),
    decreases b - a,
{
    if a < b {
        lemma_rows_skip(v, a, b - 1);
        assert(!owned(v.board, b - 1, v.side));
        assert forall|t: int| 0 <= t < 64 implies !#[trigger] goes(v, b - 1, t) by {}
        lemma_row_skip(v, b - 1, 0, 64);
        assert(rows(v, b) =~= rows(v, a));
    }
}

/// What the generator reads again and again.
struct Board {
    occ: u64,
    /// The squares on which a piece may come to stand.
    land: u64,
    /// The squares of enemy pieces that may be captured.
    prey: u64,
    king: Square,
    in_check: bool,
}

impl Board {
    spec fn of(&self, v: PosView) -> bool {
        &&& rules::occupied_by(v.board, self.occ)
        &&& forall|t: int|
            0 <= t < 64 ==> #[trigger] on(self.land, t) == landable(v.board, v.side, t)
        &&& forall|t: int|
            0 <= t < 64 ==> #[trigger] on(self.prey, t) == (v.board[t] is Some && landable(
                v.board,
                v.side,
                t,
            ))
        &&& self.king.wf()
        &&& self.king.i() == king_sq(v.board, v.side)
        &&& self.in_check == v.in_check()
    }
}

fn survey(pos: &Position) -> (r: Board)
    requires
        pos.wf(),
    ensures
        r.of(pos@),
{
    let us = pos.side_to_move();
    let occ: u64 = pos.occupied().0;
    let own: u64 = pos.pieces(us).0;
    let their_king: u64 = pos.pieces_cp(us.opponent(), PieceType::King).0;
    let land: u64 = !own & !their_king;
    let prey: u64 = land & occ;
    proof {
        bits::lemma_ops(own, their_king);
        bits::lemma_ops(!own, !their_king);
        bits::lemma_ops(land, occ);
        assert forall|t: int| 0 <= t < 64 implies #[trigger] on(land, t) == landable(
            pos@.board,
            pos@.side,
            t,
        ) by {
            assert(on(own, t) == owned(pos@.board, t, us));
            assert(on(their_king, t) == holds(pos@.board, t, us.other(), PieceType::King));
        }
    }
    let king = pos.king_square(us);
    let in_check = pos.in_check();
    Board { occ, land, prey, king, in_check }
}

/// Append a move if it is legal.
fn push_legal(pos: &Position, bd: &Board, m: Move, out: &mut Vec<Move>)
    requires
        pos.wf(),
        bd.of(pos@),
        pseudo(pos@, m),
    ensures
        final(out)@ == old(out)@ + pick(pos@, m),
{
    if is_safe(pos, m, bd.king, bd.in_check) {
        out.push(m);
    }
    assert(out@ =~= old(out)@ + pick(pos@, m));
}

/// Append the legal moves of a piece other than a pawn.
fn push_piece(pos: &Position, bd: &Board, from: usize, pt: PieceType, out: &mut Vec<Move>)
    requires
        pos.wf(),
        bd.of(pos@),
        from < 64,
        holds(pos@.board, from as int, pos@.side, pt),
        pt != PieceType::Pawn,
    ensures
        final(out)@ == old(out)@ + row(pos@, from as int, 64),
{
    let ghost v = pos@;
    let ghost f = from as int;
    let hits: u64 = attacks::piece_attacks(pt, from, bd.occ);
    let mut targets: u64 = hits & bd.land;
    let mut castles: u64 = 0;
    proof {
        bits::lemma_ops(hits, bd.land);
        bits::lemma_empty();
    }
    let home: usize = match pos.side_to_move() {
        Color::White => 4,
        Color::Black => 60,
    };
    if pt == PieceType::King && from == home {
        if can_castle(pos, true, bd.occ, bd.in_check) {
            let b: u64 = bits::one(home + 3);
            proof {
                bits::lemma_ops(castles, b);
            }
            castles = castles | b;
        }
        if can_castle(pos, false, bd.occ, bd.in_check) {
            let b: u64 = bits::one(home - 4);
            proof {
                bits::lemma_ops(castles, b);
            }
            castles = castles | b;
        }
    }
    proof {
        bits::lemma_ops(targets, castles);
    }
    let mut w: u64 = targets | castles;
    let ghost all = w;
    proof {
        assert forall|t: int| 0 <= t < 64 implies #[trigger] on(castles, t) == pseudo(
            v,
            mv(f, t, MoveType::Castling, PieceType::Knight),
        ) by {
            if pseudo(v, mv(f, t, MoveType::Castling, PieceType::Knight)) {
                assert(pt == PieceType::King);
            }
        }
        assert forall|t: int| 0 <= t < 64 implies #[trigger] on(targets, t) == pseudo(
            v,
            mv(f, t, MoveType::Normal, PieceType::Knight),
        ) by {
            rules::lemma_reach_word(v.board, bd.occ, v.board[f]->0, f, t);
        }
        assert forall|t: int| 0 <= t < 64 && #[trigger] goes(v, f, t) implies on(all, t) by {
            let m = choose|m: Move| m.from.i() == f && m.to.i() == t && #[trigger] pseudo(v, m);
            assert(m == mv(f, t, m.kind, m.promo));
            assert(on(targets, t) || on(castles, t));
        }
    }
    let ghost mut at: int = 0;
    while w != 0
        invariant
            pos.wf(),
            bd.of(v),
            v == pos@,
            f == from,
            from < 64,
            0 <= at <= 64,
            forall|t: int| #[trigger] on(w, t) == (on(all, t) && t >= at),
            forall|t: int| #[trigger] on(all, t) == (on(targets, t) || on(castles, t)),
            forall|t: int|
                0 <= t < 64 ==> #[trigger] on(castles, t) == pseudo(
                    v,
                    mv(f, t, MoveType::Castling, PieceType::Knight),
                ),
            forall|t: int|
                0 <= t < 64 ==> #[trigger] on(targets, t) == pseudo(
                    v,
                    mv(f, t, MoveType::Normal, PieceType::Knight),
                ),
            forall|t: int| 0 <= t < 64 && #[trigger] goes(v, f, t) ==> on(all, t),
            out@ == old(out)@ + row(v, f, at),
        decreases 64 - at,
    {
        let ghost before = w;
        let to: usize = bits::take_first(&mut w);
        let ghost t = to as int;
        proof {
            assert(on(before, t));
            assert forall|u: int| at <= u < t implies !#[trigger] goes(v, f, u) by {
                if goes(v, f, u) {
                    assert(on(before, u));
                }
            }
            lemma_row_skip(v, f, at, t);
        }
        let ghost so_far = out@;
        if bits::test(castles, to) {
            proof {
                lemma_cell_castling(v, f, t);
            }
            push_legal(pos, bd, Move::castling(Square(from as u8), Square(to as u8)), out);
        } else {
            proof {
                lemma_cell_normal(v, f, t);
            }
            push_legal(pos, bd, Move::normal(Square(from as u8), Square(to as u8)), out);
        }
        proof {
            at = t + 1;
            assert(out@ == so_far + cell(v, f, t));
            assert(row(v, f, at) == row(v, f, t) + cell(v, f, t));
            assert(out@ =~= old(out)@ + row(v, f, at));
            assert forall|u: int| #[trigger] on(w, u) == (on(all, u) && u >= at) by {
                assert(on(before, u) == (on(all, u) && u >= at - 1) || u < t);
            }
        }
    }
    proof {
        bits::lemma_empty();
        assert forall|u: int| at <= u < 64 implies !#[trigger] goes(v, f, u) by {
            assert(!on(w, u));
        }
        lemma_row_skip(v, f, at, 64);
    }
}

/// Append the legal moves of a pawn to one square.
fn push_pawn_moves(
    pos: &Position,
    bd: &Board,
    from: usize,
    to: usize,
    ep: bool,
    out: &mut Vec<Move>,
)
    requires
        pos.wf(),
        bd.of(pos@),
        from < 64,
        to < 64,
        holds(pos@.board, from as int, pos@.side, PieceType::Pawn),
        ep == pseudo(pos@, mv(from as int, to as int, MoveType::EnPassant, PieceType::Knight)),
        ep || pawn_goes(pos@.board, pos@.side, from as int, to as int),
    ensures
        final(out)@ == old(out)@ + cell(pos@, from as int, to as int),
{
    let ghost v = pos@;
    let ghost f = from as int;
    let ghost t = to as int;
    let ghost so_far = out@;
    let us = pos.side_to_move();
    let a = Square(from as u8);
    let b = Square(to as u8);
    let last: bool = match us {
        Color::White => to / 8 == 7,
        Color::Black => to / 8 == 0,
    };
    if ep {
        proof {
            lemma_cell_ep(v, f, t);
        }
        push_legal(pos, bd, Move::en_passant(a, b), out);
    } else if last {
        proof {
            assert(landable(v.board, us, t));
            assert(pseudo(v, mv(f, t, MoveType::Promotion, PieceType::Queen)));
            lemma_cell_promotion(v, f, t);
        }
        push_legal(pos, bd, Move::promotion(a, b, PieceType::Queen), out);
        push_legal(pos, bd, Move::promotion(a, b, PieceType::Rook), out);
        push_legal(pos, bd, Move::promotion(a, b, PieceType::Bishop), out);
        push_legal(pos, bd, Move::promotion(a, b, PieceType::Knight), out);
        assert(out@ =~= so_far + cell(v, f, t));
    } else {
        proof {
            assert(landable(v.board, us, t));
            assert(pseudo(v, mv(f, t, MoveType::Normal, PieceType::Knight)));
            lemma_cell_normal(v, f, t);
        }
        push_legal(pos, bd, Move::normal(a, b), out);
    }
}

/// Append the legal moves of a pawn.
#[verifier::rlimit(30)]
fn push_pawn(pos: &Position, bd: &Board, from: usize, out: &mut Vec<Move>)
    requires
        pos.wf(),
        bd.of(pos@),
        from < 64,
        holds(pos@.board, from as int, pos@.side, PieceType::Pawn),
    ensures
        final(out)@ == old(out)@ + row(pos@, from as int, 64),
{
    let ghost v = pos@;
    let ghost f = from as int;
    let us = pos.side_to_move();
    let targets: u64 = pawn_targets(pos, from, bd.occ, bd.prey);
    let mut eps: u64 = 0;
    proof {
        bits::lemma_empty();
    }
    match pos.ep_square() {
        Some(e) => {
            let hits: u64 = attacks::pawn_attacks(us, from);
            if bits::test(hits, e.index()) && !bits::test(bd.occ, e.index()) {
                let victim: usize = match us {
                    Color::White => e.index() - 8,
                    Color::Black => e.index() + 8,
                };
                assert(victim == rules::ep_victim(us, e.i()));
                if pos.piece_at(Square(victim as u8)) == Some(
                    Piece { color: us.opponent(), piece_type: PieceType::Pawn },
                ) {
                    eps = bits::one(e.index());
                }
            }
        },
        None => {},
    }
    proof {
        bits::lemma_ops(targets, eps);
    }
    let mut w: u64 = targets | eps;
    let ghost all = w;
    proof {
        assert forall|t: int| 0 <= t < 64 implies #[trigger] on(eps, t) == pseudo(
            v,
            mv(f, t, MoveType::EnPassant, PieceType::Knight),
        ) by {
            assert(Square(t as u8).i() == t);
        }
        assert forall|t: int| 0 <= t < 64 && #[trigger] goes(v, f, t) implies on(all, t) by {
            let m = choose|m: Move| m.from.i() == f && m.to.i() == t && #[trigger] pseudo(v, m);
            assert(m == mv(f, t, m.kind, m.promo));
            assert(on(targets, t) || on(eps, t));
        }
    }
    let ghost mut at: int = 0;
    while w != 0
        invariant
            pos.wf(),
            bd.of(v),
            v == pos@,
            f == from,
            us == v.side,
            from < 64,
            holds(v.board, f, us, PieceType::Pawn),
            0 <= at <= 64,
            forall|t: int| #[trigger] on(w, t) == (on(all, t) && t >= at),
            forall|t: int| #[trigger] on(all, t) == (on(targets, t) || on(eps, t)),
            forall|t: int|
                0 <= t < 64 ==> #[trigger] on(targets, t) == pawn_goes(v.board, us, f, t),
            forall|t: int|
                0 <= t < 64 ==> #[trigger] on(eps, t) == pseudo(
                    v,
                    mv(f, t, MoveType::EnPassant, PieceType::Knight),
                ),
            forall|t: int| 0 <= t < 64 && #[trigger] goes(v, f, t) ==> on(all, t),
            out@ == old(out)@ + row(v, f, at),
        decreases 64 - at,
    {
        let ghost before = w;
        let to: usize = bits::take_first(&mut w);
        let ghost t = to as int;
        proof {
            assert(on(before, t));
            assert forall|u: int| at <= u < t implies !#[trigger] goes(v, f, u) by {
                if goes(v, f, u) {
                    assert(on(before, u));
                }
            }
            lemma_row_skip(v, f, at, t);
        }
        let ghost so_far = out@;
        push_pawn_moves(pos, bd, from, to, bits::test(eps, to), out);
        proof {
            at = t + 1;
            assert(out@ == so_far + cell(v, f, t));
            assert(row(v, f, at) == row(v, f, t) + cell(v, f, t));
            assert(out@ =~= old(out)@ + row(v, f, at));
            assert forall|u: int| #[trigger] on(w, u) == (on(all, u) && u >= at) by {
                assert(on(before, u) == (on(all, u) && u >= at - 1) || u < t);
            }
        }
    }
    proof {
        bits::lemma_empty();
        assert forall|u: int| at <= u < 64 implies !#[trigger] goes(v, f, u) by {
            assert(!on(w, u));
        }
        lemma_row_skip(v, f, at, 64);
    }
}

/// The legal moves of a position.
pub fn generate_legal(pos: &Position) -> (r: MoveList)
    requires
        pos.wf(),
    ensures
        r@ == legal_moves(pos@),
{
    let ghost v = pos@;
    let bd = survey(pos);
    let us = pos.side_to_move();
    let mut out: Vec<Move> = Vec::with_capacity(48);
    let mut w: u64 = pos.pieces(us).0;
    let ghost own = w;
    let ghost mut at: int = 0;
    while w != 0
        invariant
            pos.wf(),
            bd.of(v),
            v == pos@,
            us == v.side,
            0 <= at <= 64,
            forall|f: int| #[trigger] on(w, f) == (on(own, f) && f >= at),
            forall|f: int| #[trigger] on(own, f) == owned(v.board, f, us),
            out@ == rows(v, at),
        decreases 64 - at,
    {
        let ghost before = w;
        let from: usize = bits::take_first(&mut w);
        let ghost f = from as int;
        proof {
            assert(on(before, f));
            assert forall|u: int| at <= u < f implies !#[trigger] owned(v.board, u, us) by {
                assert(!on(before, u));
                assert(on(own, u) == owned(v.board, u, us));
            }
            lemma_rows_skip(v, at, f);
        }
        let pt: PieceType = pos.board[from].unwrap().piece_type;
        assert(holds(v.board, f, us, pt));
        if pt == PieceType::Pawn {
            push_pawn(pos, &bd, from, &mut out);
        } else {
            push_piece(pos, &bd, from, pt, &mut out);
        }
        proof {
            at = f + 1;
            assert(out@ =~= rows(v, at));
            assert forall|u: int| #[trigger] on(w, u) == (on(own, u) && u >= at) by {
                assert(on(before, u) == (on(own, u) && u >= at - 1) || u < f);
            }
        }
    }
    proof {
        bits::lemma_empty();
        assert forall|u: int| at <= u < 64 implies !#[trigger] owned(v.board, u, us) by {
            assert(!on(w, u));
            assert(on(own, u) == owned(v.board, u, us));
        }
        lemma_rows_skip(v, at, 64);
        reveal(legal_moves);
    }
    MoveList { moves: out }
}

} // verus!
