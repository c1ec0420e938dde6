//! The features, the weights file and the incremental bookkeeping of the neural
//! network evaluation.
//!
//! A position switches on one of 768 input features for each piece: friendly or
//! enemy, six kinds, sixty-four squares, each seen from one player's side of the
//! board.  The arithmetic of the network itself is behind the [`Network`] trait;
//! this file decides which features are switched on and off.

use vstd::prelude::*;

use crate::bits::flip;
use crate::position::Position;
use crate::rules;
use crate::rules::{PosView, moved, pseudo};
use crate::types::{Color, Move, MoveType, Piece, PieceType, Square, file, rank};

verus! {

/// Hidden-layer width for each player.
pub const HIDDEN: usize = 256;

/// Number of input features.
pub const NUM_FEATURES: usize = 768;

/// Half of the features: the friendly ones come first.
pub const HALF: usize = 384;

// ---------------------------------------------------------------------------
// Features.
// ---------------------------------------------------------------------------

/// The square as a player sees it: turned around for Black.
pub open spec fn oriented(perspective: Color, s: int) -> int {
    match perspective {
        Color::White => s,
        Color::Black => flip(s),
    }
}

/// The feature of a piece on a square, seen by a player.
pub open spec fn feature(perspective: Color, c: Color, pt: PieceType, s: int) -> int {
    (if c == perspective {
        0int
    } else {
        HALF as int
    }) + 64 * pt.ord() + oriented(perspective, s)
}

/// The input feature of a piece on a square, seen by a player.
#[inline]
pub fn feature_index(perspective: Color, c: Color, pt: PieceType, sq: Square) -> (r: usize)
    requires
        sq.wf(),
    ensures
        r == feature(perspective, c, pt, sq.i()),
        r < NUM_FEATURES,
{
    let oriented_sq: usize = match perspective {
        Color::White => sq.index(),
        Color::Black => 8 * (7 - sq.index() / 8) + sq.index() % 8,
    };
    let half: usize = if c == perspective {
        0
    } else {
        HALF
    };
    half + pt.index() * 64 + oriented_sq
}

/// Different pieces or squares have different features.
pub proof fn law_features_distinct(
    perspective: Color,
    c: Color,
    pt: PieceType,
    s: int,
    d: Color,
    qt: PieceType,
    t: int,
)
    requires
        0 <= s < 64,
        0 <= t < 64,
        feature(perspective, c, pt, s) == feature(perspective, d, qt, t),
    ensures
        c == d,
        pt == qt,
        s == t,
{
    assert(0 <= oriented(perspective, s) < 64 && 0 <= oriented(perspective, t) < 64);
    assert(0 <= pt.ord() < 6 && 0 <= qt.ord() < 6);
    assert(pt.ord() == qt.ord());
}

/// Black sees the board as White sees it turned around with the colors swapped.
pub proof fn law_features_symmetric(c: Color, pt: PieceType, s: int)
    requires
        0 <= s < 64,
    ensures
        feature(Color::Black, c, pt, s) == feature(Color::White, c.other(), pt, flip(s)),
{
}

/// The number of a feature: the own pieces come first and the other player's pieces after
/// them, each kind by kind from the pawn to the king and square by square, with the own
/// back rank first and the files in their order.
pub proof fn law_feature_numbers(pt: PieceType, s: int)
    requires
        0 <= s < 64,
    ensures
        ({
            let kind: int = match pt {
                PieceType::Pawn => 0,
                PieceType::Knight => 64,
                PieceType::Bishop => 128,
                PieceType::Rook => 192,
                PieceType::Queen => 256,
                PieceType::King => 320,
            };
            let turned = 8 * (7 - s / 8) + s % 8;
            &&& feature(Color::White, Color::White, pt, s) == kind + s
            &&& feature(Color::White, Color::Black, pt, s) == 384 + kind + s
            &&& feature(Color::Black, Color::Black, pt, s) == kind + turned
            &&& feature(Color::Black, Color::White, pt, s) == 384 + kind + turned
        }),
{
}

/// Every piece on the board has its feature in the list, and nothing else has.
pub proof fn law_features_list_the_pieces(b: Seq<Option<Piece>>, perspective: Color, f: usize)
    requires
        b.len() == 64,
    ensures
        features(b, perspective, 64).contains(f) <==> exists|s: int|
            0 <= s < 64 && (#[trigger] b[s]) is Some && feature(
                perspective,
                b[s]->0.color,
                b[s]->0.piece_type,
                s,
            ) == f,
        features(b, perspective, 64).len() == crate::bits::count(|s: int| b[s] is Some),
{
    lemma_features_below(b, perspective, f, 64);
    let p = |s: int| b[s] is Some;
    crate::bits::lemma_sum_ext(
        |s: int| crate::bits::one_if(b[s] is Some),
        |s: int| crate::bits::one_if(p(s)),
        64,
    );
}

proof fn lemma_features_below(b: Seq<Option<Piece>>, perspective: Color, f: usize, n: int)
    requires
        b.len() == 64,
        0 <= n <= 64,
    ensures
        features(b, perspective, n).contains(f) <==> exists|s: int|
            0 <= s < n && (#[trigger] b[s]) is Some && feature(
                perspective,
                b[s]->0.color,
                b[s]->0.piece_type,
                s,
            ) == f,
        features(b, perspective, n).len() == crate::bits::sum(
            |s: int| crate::bits::one_if(b[s] is Some),
            n,
        ),
    decreases n,
{
    if n > 0 {
        lemma_features_below(b, perspective, f, n - 1);
        let before = features(b, perspective, n - 1);
        let all = features(b, perspective, n);
        if b[n - 1] is Some {
            let p = b[n - 1]->0;
            let g = feature(perspective, p.color, p.piece_type, n - 1);
            assert(0 <= g < 768);
            assert(all == before.push(g as usize));
            if all.contains(f) {
                let i = choose|i: int| 0 <= i < all.len() && all[i] == f;
                if i < before.len() {
                    assert(before[i] == f);
                }
            }
            if before.contains(f) {
                let i = choose|i: int| 0 <= i < before.len() && before[i] == f;
                assert(all[i] == f);
            }
            assert(all[before.len() as int] == g);
        }
    }
}

/// The features of the first `n` squares, in the order of the squares.
pub open spec fn features(b: Seq<Option<Piece>>, perspective: Color, n: int) -> Seq<usize>
    decreases n,
{
    if n <= 0 {
        seq![]
    } else {
        let before = features(b, perspective, n - 1);
        match b[n - 1] {
            Some(p) => before.push(feature(perspective, p.color, p.piece_type, n - 1) as usize),
            None => before,
        }
    }
}

/// Fill `out` with the features of every piece on the board, seen by a player.
pub fn active_features(pos: &Position, perspective: Color, out: &mut Vec<usize>)
    ensures
        final(out)@ == features(pos@.board, perspective, 64),
        forall|i: int| 0 <= i < final(out)@.len() ==> #[trigger] final(out)@[i] < NUM_FEATURES,
{
    out.clear();
    let mut i: u8 = 0;
    while i < 64
        invariant
            i <= 64,
            out@ == features(pos@.board, perspective, i as int),
            forall|j: int| 0 <= j < out@.len() ==> #[trigger] out@[j] < NUM_FEATURES,
        decreases 64 - i,
    {
        let sq = Square(i);
        match pos.piece_at(sq) {
            Some(p) => {
                out.push(feature_index(perspective, p.color, p.piece_type, sq));
            },
            None => {},
        }
        i = i + 1;
    }
}

// ---------------------------------------------------------------------------
// Changes of the board.
// ---------------------------------------------------------------------------

/// A piece that comes to a square or leaves it.
#[derive(Clone, Copy, PartialEq, Eq, Structural, Debug)]
pub struct Change {
    pub on: bool,
    pub piece: Piece,
    pub square: Square,
}

/// The board after a change.
pub open spec fn changed(b: Seq<Option<Piece>>, c: Change) -> Seq<Option<Piece>> {
    b.update(
        c.square.i(),
        if c.on {
            Some(c.piece)
        } else {
            None
        },
    )
}

/// The change can be made: a piece comes to an empty square, or leaves one on
/// which it stands.
pub open spec fn fits(b: Seq<Option<Piece>>, c: Change) -> bool {
    &&& b.len() == 64
    &&& c.square.wf()
    &&& b[c.square.i()] == (if c.on {
        None
    } else {
        Some(c.piece)
    })
}

/// The board after changes.
pub open spec fn edited(b: Seq<Option<Piece>>, cs: Seq<Change>) -> Seq<Option<Piece>>
    decreases cs.len(),
{
    if cs.len() == 0 {
        b
    } else {
        changed(edited(b, cs.drop_last()), cs.last())
    }
}

/// The changes can be made one after the other.
pub open spec fn sound(b: Seq<Option<Piece>>, cs: Seq<Change>) -> bool
    decreases cs.len(),
{
    cs.len() == 0 || (sound(b, cs.drop_last()) && fits(edited(b, cs.drop_last()), cs.last()))
}

/// Add a change behind others.
fn note(b: Ghost<Seq<Option<Piece>>>, cs: &mut Vec<Change>, on: bool, piece: Piece, square: Square)
    requires
        sound(b@, old(cs)@),
        fits(edited(b@, old(cs)@), (Change { on, piece, square })),
    ensures
        sound(b@, final(cs)@),
        edited(b@, final(cs)@) == changed(
            edited(b@, old(cs)@),
            (Change { on, piece, square }),
        ),
        final(cs)@ == old(cs)@.push(Change { on, piece, square }),
{
    let ghost before = cs@;
    cs.push(Change { on, piece, square });
    assert(cs@.drop_last() =~= before);
}

/// A piece comes to a square.
pub open spec fn comes(piece: Piece, s: int) -> Change {
    Change { on: true, piece, square: Square(s as u8) }
}

/// A piece leaves a square.
pub open spec fn leaves(piece: Piece, s: int) -> Change {
    Change { on: false, piece, square: Square(s as u8) }
}

/// The changes that a move makes on the board, in their order.
pub open spec fn shifts(v: PosView, m: Move) -> Seq<Change> {
    let from = m.from.i();
    let to = m.to.i();
    let mover = v.board[from]->0;
    let taken = match v.board[to] {
        Some(p) => seq![leaves(p, to)],
        None => seq![],
    };
    let rook = rules::piece(v.side, PieceType::Rook);
    match m.kind {
        MoveType::Normal => seq![leaves(mover, from)] + taken + seq![comes(mover, to)],
        MoveType::Promotion => seq![leaves(mover, from)] + taken + seq![
            comes(rules::piece(v.side, m.promo), to),
        ],
        MoveType::EnPassant => seq![
            leaves(mover, from),
            comes(mover, to),
            leaves(
                rules::piece(v.side.other(), PieceType::Pawn),
                rules::ep_victim(v.side, to),
            ),
        ],
        MoveType::Castling => seq![
            leaves(mover, from),
            comes(mover, m.lands()),
            leaves(rook, to),
            comes(rook, rules::rook_lands(m)),
        ],
    }
}

/// The changes that a move makes on the board: at most four.
#[verifier::rlimit(30)]
pub fn changes(pos_before: &Position, m: Move) -> (r: Vec<Change>)
    requires
        pos_before.wf(),
        pseudo(pos_before@, m),
    ensures
        sound(pos_before@.board, r@),
        edited(pos_before@.board, r@) == moved(pos_before@.board, pos_before@.side, m),
        r@ == shifts(pos_before@, m),
        r@.len() <= 4,
{
    let ghost b = pos_before@.board;
    let us = pos_before.side_to_move();
    let from = m.from_sq();
    let to = m.to_sq();
    let moving: Piece = match pos_before.piece_at(from) {
        Some(p) => p,
        None => Piece { color: us, piece_type: PieceType::Pawn },
    };
    let mut cs: Vec<Change> = Vec::new();
    match m.move_type() {
        MoveType::Normal => {
            note(Ghost(b), &mut cs, false, moving, from);
            match pos_before.piece_at(to) {
                Some(cap) => {
                    note(Ghost(b), &mut cs, false, cap, to);
                },
                None => {},
            }
            note(Ghost(b), &mut cs, true, moving, to);
        },
        MoveType::Promotion => {
            note(Ghost(b), &mut cs, false, moving, from);
            match pos_before.piece_at(to) {
                Some(cap) => {
                    note(Ghost(b), &mut cs, false, cap, to);
                },
                None => {},
            }
            note(
                Ghost(b),
                &mut cs,
                true,
                Piece { color: us, piece_type: m.promotion_type() },
                to,
            );
        },
        MoveType::EnPassant => {
            let cap_sq = Square::make(to.file(), from.rank());
            assert(cap_sq.i() == rules::ep_victim(us, to.i()));
            note(Ghost(b), &mut cs, false, moving, from);
            note(Ghost(b), &mut cs, true, moving, to);
            note(
                Ghost(b),
                &mut cs,
                false,
                Piece { color: us.opponent(), piece_type: PieceType::Pawn },
                cap_sq,
            );
        },
        MoveType::Castling => {
            proof {
                assert(crate::attacks::between(from.i(), m.lands(), to.i()));
                assert(crate::attacks::between(from.i(), rules::rook_lands(m), to.i()));
            }
            let (king_to, rook_to) = if to.file() > from.file() {
                (Square::make(6, from.rank()), Square::make(5, from.rank()))
            } else {
                (Square::make(2, from.rank()), Square::make(3, from.rank()))
            };
            let rook = Piece { color: us, piece_type: PieceType::Rook };
            note(Ghost(b), &mut cs, false, moving, from);
            note(Ghost(b), &mut cs, true, moving, king_to);
            note(Ghost(b), &mut cs, false, rook, to);
            note(Ghost(b), &mut cs, true, rook, rook_to);
        },
    }
    assert(edited(b, cs@) =~= moved(b, us, m));
    assert(cs@ =~= shifts(pos_before@, m));
    cs
}

/// The features of a board as a player sees it.
pub open spec fn lit(b: Seq<Option<Piece>>, perspective: Color) -> Set<int> {
    Set::new(
        |f: int|
            exists|s: int|
                0 <= s < 64 && (#[trigger] b[s]) is Some && feature(
                    perspective,
                    b[s]->0.color,
                    b[s]->0.piece_type,
                    s,
                ) == f,
    )
}

/// A change of the board switches the feature of its piece and no other: on if
/// the piece comes, off if it leaves.
pub proof fn law_changes_switch_one_feature(
    b: Seq<Option<Piece>>,
    perspective: Color,
    c: Change,
)
    requires
        fits(b, c),
    ensures
        ({
            let f = feature(perspective, c.piece.color, c.piece.piece_type, c.square.i());
            &&& c.on ==> lit(changed(b, c), perspective) == lit(b, perspective).insert(f)
            &&& !c.on ==> lit(changed(b, c), perspective) == lit(b, perspective).remove(f)
            &&& c.on == !lit(b, perspective).contains(f)
        }),
{
    let n = changed(b, c);
    let k = c.square.i();
    let f = feature(perspective, c.piece.color, c.piece.piece_type, k);
    assert forall|s: int|
        0 <= s < 64 && s != k && (#[trigger] b[s]) is Some implies feature(
        perspective,
        b[s]->0.color,
        b[s]->0.piece_type,
        s,
    ) != f by {
        if feature(perspective, b[s]->0.color, b[s]->0.piece_type, s) == f {
            law_features_distinct(
                perspective,
                b[s]->0.color,
                b[s]->0.piece_type,
                s,
                c.piece.color,
                c.piece.piece_type,
                k,
            );
        }
    }
    assert(forall|s: int| 0 <= s < 64 && s != k ==> #[trigger] n[s] == b[s]);
    let old_set = lit(b, perspective);
    let new_set = lit(n, perspective);
    assert forall|g: int| #[trigger] new_set.contains(g) == (if c.on {
        old_set.insert(f).contains(g)
    } else {
        old_set.remove(f).contains(g)
    }) by {
        if new_set.contains(g) {
            let s = choose|s: int|
                0 <= s < 64 && (#[trigger] n[s]) is Some && feature(
                    perspective,
                    n[s]->0.color,
                    n[s]->0.piece_type,
                    s,
                ) == g;
            if s != k {
                assert(n[s] == b[s]);
                assert(b[s] is Some);
            }
        }
        if old_set.contains(g) {
            let s = choose|s: int|
                0 <= s < 64 && (#[trigger] b[s]) is Some && feature(
                    perspective,
                    b[s]->0.color,
                    b[s]->0.piece_type,
                    s,
                ) == g;
            if s != k {
                assert(n[s] == b[s]);
            }
        }
        if c.on {
            assert(n[k] == Some(c.piece));
        }
    }
    if c.on {
        assert(new_set =~= old_set.insert(f));
    } else {
        assert(b[k] == Some(c.piece));
        assert(old_set.contains(f));
        assert(new_set =~= old_set.remove(f));
    }
}

// ---------------------------------------------------------------------------
// The accumulator.
// ---------------------------------------------------------------------------

/// A feature of White's hidden vector and one of Black's that are switched on or
/// off together.
#[derive(Clone, Copy, PartialEq, Eq, Structural, Debug)]
pub struct Switch {
    pub on: bool,
    pub white: usize,
    pub black: usize,
}

/// The features that a change of the board switches.
pub open spec fn switch_of(c: Change) -> Switch {
    Switch {
        on: c.on,
        white: feature(Color::White, c.piece.color, c.piece.piece_type, c.square.i()) as usize,
        black: feature(Color::Black, c.piece.color, c.piece.piece_type, c.square.i()) as usize,
    }
}

/// The features that changes of the board switch.
pub open spec fn switches_of(cs: Seq<Change>) -> Seq<Switch> {
    cs.map_values(|c: Change| switch_of(c))
}

/// The arithmetic of a network: two hidden vectors, one for each player, to which
/// the columns of features are added and from which they are taken away.
pub trait Network: Sized {
    /// The two hidden vectors.
    type Hidden;

    /// The hidden vectors of an empty board.
    fn blank(&self) -> Self::Hidden;

    /// The hidden vectors after features are switched one after the other.
    fn update(&self, h: &Self::Hidden, switches: &Vec<Switch>) -> Self::Hidden;

    /// The score for the player to move, in centipawns.
    fn output(&self, h: &Self::Hidden, stm: Color) -> i32;
}

/// The absence of a network.
#[derive(Clone, Copy)]
pub struct NoNetwork;

impl Network for NoNetwork {
    type Hidden = ();

    fn blank(&self) -> () {
        ()
    }

    fn update(&self, h: &(), switches: &Vec<Switch>) -> () {
        ()
    }

    fn output(&self, h: &(), stm: Color) -> i32 {
        0
    }
}

/// How often switches add the column of a feature to a player's vector, those
/// that take it away counted off.
pub open spec fn tally(s: Seq<Switch>, perspective: Color, f: int) -> int
    decreases s.len(),
{
    if s.len() == 0 {
        0
    } else {
        let last = s.last();
        let column = match perspective {
            Color::White => last.white,
            Color::Black => last.black,
        };
        tally(s.drop_last(), perspective, f) + (if column != f {
            0int
        } else if last.on {
            1
        } else {
            -1
        })
    }
}

/// How often rounds of switches add the column of a feature.
pub open spec fn tally_all(rounds: Seq<Vec<Switch>>, perspective: Color, f: int) -> int
    decreases rounds.len(),
{
    if rounds.len() == 0 {
        0
    } else {
        tally_all(rounds.drop_last(), perspective, f) + tally(
            rounds.last()@,
            perspective,
            f,
        )
    }
}

/// How often the column of a feature belongs into the vector of a player: once if
/// the board has the feature.
pub open spec fn due(b: Seq<Option<Piece>>, perspective: Color, f: int) -> int {
    if lit(b, perspective).contains(f) {
        1
    } else {
        0
    }
}

/// The hidden vectors `h` are what the network makes of an empty board by rounds
/// of switches.
pub open spec fn built<N: Network>(net: &N, h: N::Hidden, rounds: Seq<Vec<Switch>>) -> bool
    decreases rounds.len(),
{
    if rounds.len() == 0 {
        call_ensures(N::blank, (net,), h)
    } else {
        exists|p: N::Hidden| #[trigger]
            call_ensures(N::update, (net, &p, &rounds.last()), h) && built(
                net,
                p,
                rounds.drop_last(),
            )
    }
}

/// One more round of switches.
proof fn lemma_built<N: Network>(
    net: &N,
    p: N::Hidden,
    rounds: Seq<Vec<Switch>>,
    list: Vec<Switch>,
    h: N::Hidden,
)
    requires
        built(net, p, rounds),
        call_ensures(N::update, (net, &p, &list), h),
    ensures
        built(net, h, rounds.push(list)),
{
    let more = rounds.push(list);
    assert(more.drop_last() =~= rounds);
    assert(call_ensures(N::update, (net, &p, &more.last()), h));
}

/// Changes of the board switch just the features that come or go.
proof fn lemma_tally(b: Seq<Option<Piece>>, cs: Seq<Change>, perspective: Color, f: int)
    requires
        sound(b, cs),
    ensures
        tally(switches_of(cs), perspective, f) == due(edited(b, cs), perspective, f) - due(
            b,
            perspective,
            f,
        ),
    decreases cs.len(),
{
    if cs.len() > 0 {
        let before = cs.drop_last();
        let c = cs.last();
        lemma_tally(b, before, perspective, f);
        law_changes_switch_one_feature(edited(b, before), perspective, c);
        assert(switches_of(cs).drop_last() =~= switches_of(before));
        assert(switches_of(cs).last() == switch_of(c));
        assert(0 <= feature(Color::White, c.piece.color, c.piece.piece_type, c.square.i()) < 768);
        assert(0 <= feature(Color::Black, c.piece.color, c.piece.piece_type, c.square.i()) < 768);
    }
}

/// The features that changes of the board switch.
fn switches(cs: &Vec<Change>) -> (r: Vec<Switch>)
    requires
        forall|i: int| 0 <= i < cs@.len() ==> (#[trigger] cs@[i]).square.wf(),
    ensures
        r@ == switches_of(cs@),
{
    let mut out: Vec<Switch> = Vec::new();
    let mut i: usize = 0;
    while i < cs.len()
        invariant
            i <= cs@.len(),
            forall|j: int| 0 <= j < cs@.len() ==> (#[trigger] cs@[j]).square.wf(),
            out@ == switches_of(cs@.take(i as int)),
        decreases cs@.len() - i,
    {
        let c = cs[i];
        assert(cs@[i as int].square.wf());
        out.push(
            Switch {
                on: c.on,
                white: feature_index(
                    Color::White,
                    c.piece.color,
                    c.piece.piece_type,
                    c.square,
                ),
                black: feature_index(
                    Color::Black,
                    c.piece.color,
                    c.piece.piece_type,
                    c.square,
                ),
            },
        );
        i = i + 1;
        assert(out@ =~= switches_of(cs@.take(i as int)));
    }
    assert(cs@.take(i as int) =~= cs@);
    out
}

/// Changes that can be made speak of squares on the board.
proof fn lemma_sound_squares(b: Seq<Option<Piece>>, cs: Seq<Change>)
    requires
        sound(b, cs),
    ensures
        forall|i: int| 0 <= i < cs.len() ==> (#[trigger] cs[i]).square.wf(),
    decreases cs.len(),
{
    if cs.len() > 0 {
        lemma_sound_squares(b, cs.drop_last());
        assert forall|i: int| 0 <= i < cs.len() implies (#[trigger] cs[i]).square.wf() by {
            if i < cs.len() - 1 {
                assert(cs.drop_last()[i].square.wf());
            }
        }
    }
}

/// A board without pieces.
pub open spec fn bare() -> Seq<Option<Piece>> {
    Seq::new(64, |i: int| None)
}

/// The pieces on the first `n` squares come to an empty board.
pub open spec fn arrivals(b: Seq<Option<Piece>>, n: int) -> Seq<Change>
    decreases n,
{
    if n <= 0 {
        seq![]
    } else {
        match b[n - 1] {
            Some(p) => arrivals(b, n - 1).push(comes(p, n - 1)),
            None => arrivals(b, n - 1),
        }
    }
}

/// The changes that set a board up from nothing.
fn set_up(pos: &Position) -> (r: Vec<Change>)
    ensures
        r@ == arrivals(pos@.board, 64),
        sound(bare(), r@),
        edited(bare(), r@) == pos@.board,
{
    let mut cs: Vec<Change> = Vec::new();
    let mut i: u8 = 0;
    while i < 64
        invariant
            i <= 64,
            cs@ == arrivals(pos@.board, i as int),
            sound(bare(), cs@),
            edited(bare(), cs@).len() == 64,
            forall|j: int| 0 <= j < i ==> edited(bare(), cs@)[j] == pos@.board[j],
            forall|j: int| i <= j < 64 ==> edited(bare(), cs@)[j] is None,
        decreases 64 - i,
    {
        let sq = Square(i);
        match pos.piece_at(sq) {
            Some(p) => {
                note(Ghost(bare()), &mut cs, true, p, sq);
            },
            None => {},
        }
        i = i + 1;
    }
    assert(edited(bare(), cs@) =~= pos@.board);
    cs
}

/// The hidden vectors of a board, kept up to date move by move.
pub struct Accumulator<N: Network> {
    pub hidden: N::Hidden,
    /// The rounds of switches that led here from an empty board.
    pub rounds: Ghost<Seq<Vec<Switch>>>,
}

impl<N: Network> Accumulator<N> {
    /// The network has built the hidden vectors by switches that add the column of
    /// each feature of the board `b` just once, and no other column.
    #[verifier::opaque]
    pub open spec fn describes(&self, net: &N, b: Seq<Option<Piece>>) -> bool {
        &&& built(net, self.hidden, self.rounds@)
        &&& forall|perspective: Color, f: int| #[trigger]
            tally_all(self.rounds@, perspective, f) == due(b, perspective, f)
    }

    /// The accumulator after changes of the board, from that before them.
    fn shifted(net: &N, parent: &Accumulator<N>, cs: &Vec<Change>, b: Ghost<Seq<Option<Piece>>>) -> (r:
        Accumulator<N>)
        requires
            sound(b@, cs@),
        ensures
            parent.describes(net, b@) ==> r.describes(net, edited(b@, cs@)),
            exists|list: Vec<Switch>|
                list@ == switches_of(cs@) && #[trigger] call_ensures(
                    N::update,
                    (net, &parent.hidden, &list),
                    r.hidden,
                ),
    {
        proof {
            lemma_sound_squares(b@, cs@);
        }
        let list = switches(cs);
        let hidden = net.update(&parent.hidden, &list);
        let r: Accumulator<N> = Accumulator { hidden, rounds: Ghost(parent.rounds@.push(list)) };
        proof {
            assert(call_ensures(N::update, (net, &parent.hidden, &list), r.hidden));
            if parent.describes(net, b@) {
                reveal(Accumulator::describes);
                lemma_built(net, parent.hidden, parent.rounds@, list, hidden);
                assert forall|perspective: Color, f: int| #[trigger]
                    tally_all(r.rounds@, perspective, f) == due(
                        edited(b@, cs@),
                        perspective,
                        f,
                    ) by {
                    lemma_tally(b@, cs@, perspective, f);
                    assert(r.rounds@.drop_last() =~= parent.rounds@);
                    assert(tally_all(parent.rounds@, perspective, f) == due(b@, perspective, f));
                }
            }
        }
        r
    }

    /// Build the accumulator of a position from an empty board.
    pub fn refresh(net: &N, pos: &Position) -> (r: Accumulator<N>)
        ensures
            r.describes(net, pos@.board),
            exists|h: N::Hidden, list: Vec<Switch>|
                call_ensures(N::blank, (net,), h) && list@ == switches_of(arrivals(pos@.board, 64))
                    && #[trigger] call_ensures(N::update, (net, &h, &list), r.hidden),
    {
        let empty: Accumulator<N> = Accumulator {
            hidden: net.blank(),
            rounds: Ghost(Seq::empty()),
        };
        proof {
            reveal(Accumulator::describes);
            assert forall|perspective: Color, f: int| #[trigger]
                tally_all(empty.rounds@, perspective, f) == due(bare(), perspective, f) by {
                assert(!lit(bare(), perspective).contains(f));
            }
        }
        let cs = set_up(pos);
        Self::shifted(net, &empty, &cs, Ghost(bare()))
    }

    /// The accumulator of the position after a move, from that of the position
    /// before it: only what the move changes is switched.
    pub fn apply_move(net: &N, parent: &Accumulator<N>, pos_before: &Position, m: Move) -> (r:
        Accumulator<N>)
        requires
            pos_before.wf(),
            pseudo(pos_before@, m),
        ensures
            parent.describes(net, pos_before@.board) ==> r.describes(
                net,
                moved(pos_before@.board, pos_before@.side, m),
            ),
            exists|list: Vec<Switch>|
                list@ == switches_of(shifts(pos_before@, m)) && #[trigger] call_ensures(
                    N::update,
                    (net, &parent.hidden, &list),
                    r.hidden,
                ),
    {
        let cs = changes(pos_before, m);
        Self::shifted(net, parent, &cs, Ghost(pos_before@.board))
    }

    /// A second accumulator for the same board, for a player who passes.
    pub fn pass(net: &N, parent: &Accumulator<N>) -> (r: Accumulator<N>)
        ensures
            forall|b: Seq<Option<Piece>>| #[trigger]
                parent.describes(net, b) ==> r.describes(net, b),
            exists|list: Vec<Switch>|
                list@.len() == 0 && #[trigger] call_ensures(
                    N::update,
                    (net, &parent.hidden, &list),
                    r.hidden,
                ),
    {
        let list: Vec<Switch> = Vec::new();
        let hidden = net.update(&parent.hidden, &list);
        let r: Accumulator<N> = Accumulator { hidden, rounds: Ghost(parent.rounds@.push(list)) };
        proof {
            assert(call_ensures(N::update, (net, &parent.hidden, &list), r.hidden));
            assert forall|b: Seq<Option<Piece>>| #[trigger]
                parent.describes(net, b) implies r.describes(net, b) by {
                reveal(Accumulator::describes);
                lemma_built(net, parent.hidden, parent.rounds@, list, hidden);
                assert forall|perspective: Color, f: int| #[trigger]
                    tally_all(r.rounds@, perspective, f) == due(b, perspective, f) by {
                    assert(r.rounds@.drop_last() =~= parent.rounds@);
                    assert(tally_all(parent.rounds@, perspective, f) == due(b, perspective, f));
                }
            }
        }
        r
    }
}

/// Two accumulators of one board have added the same columns, each equally often,
/// whether they were built from an empty board or kept up to date move by move.
pub proof fn law_accumulators_agree<N: Network>(
    net: &N,
    one: &Accumulator<N>,
    two: &Accumulator<N>,
    b: Seq<Option<Piece>>,
    perspective: Color,
    f: int,
)
    requires
        one.describes(net, b),
        two.describes(net, b),
    ensures
        tally_all(one.rounds@, perspective, f) == tally_all(two.rounds@, perspective, f),
        tally_all(one.rounds@, perspective, f) == due(b, perspective, f),
{
    reveal(Accumulator::describes);
}

// ---------------------------------------------------------------------------
// The weights file.
// ---------------------------------------------------------------------------

/// The number that starts a weights file.
pub const MAGIC: u32 = 0x4E4E_5545;

/// Number of first-layer weights.
pub const W1_LEN: usize = 196608;

/// Number of second-layer weights.
pub const W2_LEN: usize = 512;

/// Length of a weights file in bytes.
pub const FILE_LEN: usize = 789520;

/// The weights of a network, each as the bit pattern of a 32-bit float.
///
/// `w1` holds one row of [`NUM_FEATURES`] weights for each hidden neuron; `w1t`
/// is the same table with rows and columns exchanged, so that the weights of one
/// feature lie side by side.
pub struct Net {
    pub w1: Vec<u32>,
    pub w1t: Vec<u32>,
    pub b1: Vec<u32>,
    pub w2: Vec<u32>,
    pub b2: u32,
}

/// `t` is the table `w` with rows and columns exchanged.
pub open spec fn transposed(w: Seq<u32>, t: Seq<u32>) -> bool {
    &&& t.len() == W1_LEN
    &&& forall|j: int, f: int|
        0 <= j < HIDDEN && 0 <= f < NUM_FEATURES ==> #[trigger] t[f * HIDDEN + j] == #[trigger] w[j
            * NUM_FEATURES + f]
}

/// The four bytes at `off` as a little-endian number.
pub open spec fn word_at(s: Seq<u8>, off: int) -> u32 {
    (s[off] + 256 * s[off + 1] + 65536 * s[off + 2] + 16777216 * s[off + 3]) as u32
}

/// The little-endian bytes of a number.
pub open spec fn le_bytes(w: u32) -> Seq<u8> {
    seq![
        (w % 256) as u8,
        (w / 256 % 256) as u8,
        (w / 65536 % 256) as u8,
        (w / 16777216) as u8,
    ]
}

/// The little-endian bytes of numbers, one after the other.
pub open spec fn all_bytes(w: Seq<u32>) -> Seq<u8>
    decreases w.len(),
{
    if w.len() == 0 {
        seq![]
    } else {
        all_bytes(w.drop_last()) + le_bytes(w.last())
    }
}

/// The numbers that little-endian bytes stand for.
pub open spec fn words_at(s: Seq<u8>, off: int, n: nat) -> Seq<u32> {
    Seq::new(n, |k: int| word_at(s, off + 4 * k))
}

impl Net {
    /// The layers have the right sizes.
    pub open spec fn has_sizes(&self) -> bool {
        &&& self.w1@.len() == W1_LEN
        &&& self.b1@.len() == HIDDEN
        &&& self.w2@.len() == W2_LEN
    }

    /// The layers have the right sizes, and the exchanged table fits the first layer.
    pub open spec fn wf(&self) -> bool {
        &&& self.has_sizes()
        &&& transposed(self.w1@, self.w1t@)
    }

    /// All the numbers of a weights file in their order.
    pub open spec fn numbers(&self) -> Seq<u32> {
        seq![MAGIC, HIDDEN as u32, NUM_FEATURES as u32] + self.w1@ + self.b1@ + self.w2@ + seq![
            self.b2,
        ]
    }
}

/// The bytes are a weights file: they start with the magic number and the sizes
/// of the layers and have the right length.
pub open spec fn is_net_file(s: Seq<u8>) -> bool {
    &&& s.len() == FILE_LEN
    &&& word_at(s, 0) == MAGIC
    &&& word_at(s, 4) == HIDDEN
    &&& word_at(s, 8) == NUM_FEATURES
}

/// Exchange the rows and columns of the first layer.
fn build_w1t(w1: &Vec<u32>) -> (r: Vec<u32>)
    requires
        w1@.len() == W1_LEN,
    ensures
        transposed(w1@, r@),
{
    let mut t: Vec<u32> = Vec::with_capacity(W1_LEN);
    let mut f: usize = 0;
    while f < NUM_FEATURES
        invariant
            f <= NUM_FEATURES,
            w1@.len() == W1_LEN,
            t@.len() == f * HIDDEN,
            forall|j: int, g: int|
                0 <= j < HIDDEN && 0 <= g < f ==> #[trigger] t@[g * HIDDEN + j] == #[trigger] w1@[j
                    * NUM_FEATURES + g],
        decreases NUM_FEATURES - f,
    {
        let mut j: usize = 0;
        while j < HIDDEN
            invariant
                f < NUM_FEATURES,
                j <= HIDDEN,
                w1@.len() == W1_LEN,
                t@.len() == f * HIDDEN + j,
                forall|i: int, g: int|
                    0 <= i < HIDDEN && 0 <= g < f ==> #[trigger] t@[g * HIDDEN + i]
                        == #[trigger] w1@[i * NUM_FEATURES + g],
                forall|i: int|
                    0 <= i < j ==> #[trigger] t@[f * HIDDEN + i] == w1@[i * NUM_FEATURES + f],
            decreases HIDDEN - j,
        {
            t.push(w1[j * NUM_FEATURES + f]);
            j = j + 1;
        }
        f = f + 1;
    }
    t
}

impl Net {
    /// A network with all weights zero.
    pub fn zeros() -> (r: Net)
        ensures
            r.wf(),
            forall|i: int| 0 <= i < r.w1@.len() ==> r.w1@[i] == 0,
            forall|i: int| 0 <= i < r.b1@.len() ==> r.b1@[i] == 0,
            forall|i: int| 0 <= i < r.w2@.len() ==> r.w2@[i] == 0,
            r.b2 == 0,
    {
        let w1: Vec<u32> = vec![0u32; W1_LEN];
        let w1t = build_w1t(&w1);
        Net { w1, w1t, b1: vec![0u32; HIDDEN], w2: vec![0u32; W2_LEN], b2: 0 }
    }

    /// Make the exchanged table fit the first layer again after it was changed.
    pub fn rebuild_w1t(&mut self)
        requires
            old(self).w1@.len() == W1_LEN,
        ensures
            transposed(final(self).w1@, final(self).w1t@),
            final(self).w1 == old(self).w1,
            final(self).b1 == old(self).b1,
            final(self).w2 == old(self).w2,
            final(self).b2 == old(self).b2,
    {
        self.w1t = build_w1t(&self.w1);
    }

    /// A short description of the shape of the network.
    pub fn describe(&self) -> (r: String)
        ensures
            r@ == "NNUE 768->256->1"@,
    {
        let mut s = String::new();
        crate::text::push_str(&mut s, "NNUE 768->256->1");
        assert(s@ =~= "NNUE 768->256->1"@);
        s
    }

    /// Read a network from the bytes of a weights file.
    pub fn from_bytes(bytes: &Vec<u8>) -> (r: Option<Net>)
        ensures
            match r {
                Some(n) => {
                    &&& is_net_file(bytes@)
                    &&& n.wf()
                    &&& n.w1@ == words_at(bytes@, 12, W1_LEN as nat)
                    &&& n.b1@ == words_at(bytes@, 786444, HIDDEN as nat)
                    &&& n.w2@ == words_at(bytes@, 787468, W2_LEN as nat)
                    &&& n.b2 == word_at(bytes@, 789516)
                },
                None => !is_net_file(bytes@),
            },
    {
        if bytes.len() != FILE_LEN {
            return None;
        }
        if read_u32(bytes, 0) != MAGIC {
            return None;
        }
        if read_u32(bytes, 4) != HIDDEN as u32 || read_u32(bytes, 8) != NUM_FEATURES as u32 {
            return None;
        }
        let w1 = read_words(bytes, 12, W1_LEN);
        let b1 = read_words(bytes, 786444, HIDDEN);
        let w2 = read_words(bytes, 787468, W2_LEN);
        let b2: u32 = read_u32(bytes, 789516);
        let w1t = build_w1t(&w1);
        Some(Net { w1, w1t, b1, w2, b2 })
    }

    /// The bytes of the weights file of the network.  The file does not hold the
    /// exchanged table.
    pub fn to_bytes(&self) -> (r: Vec<u8>)
        requires
            self.has_sizes(),
        ensures
            r@ == all_bytes(self.numbers()),
    {
        let mut out: Vec<u8> = Vec::with_capacity(FILE_LEN);
        let ghost none = Seq::<u32>::empty();
        let ghost one = none.push(MAGIC);
        let ghost two = one.push(HIDDEN as u32);
        let ghost head = two.push(NUM_FEATURES as u32);
        push_word(&mut out, MAGIC, Ghost(none));
        push_word(&mut out, HIDDEN as u32, Ghost(one));
        push_word(&mut out, NUM_FEATURES as u32, Ghost(two));
        push_words(&mut out, &self.w1, Ghost(head));
        push_words(&mut out, &self.b1, Ghost(head + self.w1@));
        push_words(&mut out, &self.w2, Ghost(head + self.w1@ + self.b1@));
        push_word(&mut out, self.b2, Ghost(head + self.w1@ + self.b1@ + self.w2@));
        assert((head + self.w1@ + self.b1@ + self.w2@).push(self.b2) =~= self.numbers());
        out
    }
}

/// The four bytes at an offset as a little-endian number.
fn read_u32(bytes: &Vec<u8>, off: usize) -> (r: u32)
    requires
        off + 4 <= FILE_LEN,
        bytes@.len() == FILE_LEN,
    ensures
        r == word_at(bytes@, off as int),
{
    bytes[off] as u32 + 256 * (bytes[off + 1] as u32) + 65536 * (bytes[off + 2] as u32) + 16777216
        * (bytes[off + 3] as u32)
}

fn read_words(bytes: &Vec<u8>, off: usize, n: usize) -> (r: Vec<u32>)
    requires
        off + 4 * n <= FILE_LEN,
        bytes@.len() == FILE_LEN,
    ensures
        r@ == words_at(bytes@, off as int, n as nat),
{
    let mut out: Vec<u32> = Vec::with_capacity(n);
    let mut k: usize = 0;
    while k < n
        invariant
            k <= n,
            off + 4 * n <= FILE_LEN,
            bytes@.len() == FILE_LEN,
            out@ == words_at(bytes@, off as int, k as nat),
        decreases n - k,
    {
        out.push(read_u32(bytes, off + 4 * k));
        k = k + 1;
        assert(out@ =~= words_at(bytes@, off as int, k as nat));
    }
    out
}

/// Append a number to bytes that hold the numbers `done`.
fn push_word(out: &mut Vec<u8>, w: u32, Ghost(done): Ghost<Seq<u32>>)
    requires
        old(out)@ == all_bytes(done),
    ensures
        final(out)@ == all_bytes(done.push(w)),
{
    out.push((w % 256) as u8);
    out.push((w / 256 % 256) as u8);
    out.push((w / 65536 % 256) as u8);
    out.push((w / 16777216) as u8);
    assert(done.push(w).drop_last() =~= done);
    assert(out@ =~= all_bytes(done) + le_bytes(w));
}

fn push_words(out: &mut Vec<u8>, ws: &Vec<u32>, Ghost(done): Ghost<Seq<u32>>)
    requires
        old(out)@ == all_bytes(done),
    ensures
        final(out)@ == all_bytes(done + ws@),
{
    let mut k: usize = 0;
    assert(done + ws@.take(0) =~= done);
    while k < ws.len()
        invariant
            k <= ws@.len(),
            out@ == all_bytes(done + ws@.take(k as int)),
        decreases ws@.len() - k,
    {
        push_word(out, ws[k], Ghost(done + ws@.take(k as int)));
        assert((done + ws@.take(k as int)).push(ws@[k as int]) =~= done + ws@.take(k as int + 1));
        k = k + 1;
    }
    assert(ws@.take(k as int) =~= ws@);
}

/// The four bytes of a number hold the number, wherever they stand.
proof fn lemma_le_bytes(s: Seq<u8>, off: int, w: u32)
    requires
        0 <= off,
        off + 4 <= s.len(),
        s[off] == le_bytes(w)[0],
        s[off + 1] == le_bytes(w)[1],
        s[off + 2] == le_bytes(w)[2],
        s[off + 3] == le_bytes(w)[3],
    ensures
        word_at(s, off) == w,
{
    let x = w as int;
    assert(x == x % 256 + 256 * (x / 256 % 256) + 65536 * (x / 65536 % 256) + 16777216 * (x
        / 16777216));
}

/// The bytes of numbers hold the numbers.
#[verifier::rlimit(30)]
proof fn lemma_all_bytes(w: Seq<u32>)
    ensures
        all_bytes(w).len() == 4 * w.len(),
        forall|k: int| 0 <= k < w.len() ==> #[trigger] word_at(all_bytes(w), 4 * k) == w[k],
    decreases w.len(),
{
    if w.len() > 0 {
        let a = all_bytes(w.drop_last());
        let b = le_bytes(w.last());
        lemma_all_bytes(w.drop_last());
        let s = all_bytes(w);
        assert(s =~= a + b);
        assert forall|k: int| 0 <= k < w.len() implies #[trigger] word_at(s, 4 * k) == w[k] by {
            if k < w.len() - 1 {
                assert(word_at(a, 4 * k) == w.drop_last()[k]);
                assert(s[4 * k] == a[4 * k]);
                assert(s[4 * k + 1] == a[4 * k + 1]);
                assert(s[4 * k + 2] == a[4 * k + 2]);
                assert(s[4 * k + 3] == a[4 * k + 3]);
            } else {
                lemma_le_bytes(s, 4 * k, w.last());
            }
        }
    }
}

/// Writing a network and reading the bytes back gives the same weights.
pub proof fn law_net_file_round_trip(n: Net)
    requires
        n.has_sizes(),
    ensures
        is_net_file(all_bytes(n.numbers())),
        words_at(all_bytes(n.numbers()), 12, W1_LEN as nat) == n.w1@,
        words_at(all_bytes(n.numbers()), 786444, HIDDEN as nat) == n.b1@,
        words_at(all_bytes(n.numbers()), 787468, W2_LEN as nat) == n.w2@,
        word_at(all_bytes(n.numbers()), 789516) == n.b2,
{
    let w = n.numbers();
    let s = all_bytes(w);
    lemma_all_bytes(w);
    assert(word_at(s, 4 * 0int) == w[0]);
    assert(word_at(s, 4 * 1int) == w[1]);
    assert(word_at(s, 4 * 2int) == w[2]);
    assert(word_at(s, 4 * 197379int) == w[197379]);
    assert forall|k: int| 0 <= k < W1_LEN implies #[trigger] word_at(s, 12 + 4 * k) == n.w1@[k] by {
        assert(word_at(s, 4 * (k + 3)) == w[k + 3]);
    }
    assert forall|k: int| 0 <= k < HIDDEN implies #[trigger] word_at(s, 786444 + 4 * k)
        == n.b1@[k] by {
        assert(word_at(s, 4 * (k + 196611)) == w[k + 196611]);
    }
    assert forall|k: int| 0 <= k < W2_LEN implies #[trigger] word_at(s, 787468 + 4 * k)
        == n.w2@[k] by {
        assert(word_at(s, 4 * (k + 196867)) == w[k + 196867]);
    }
    assert(words_at(s, 12, W1_LEN as nat) =~= n.w1@);
    assert(words_at(s, 786444, HIDDEN as nat) =~= n.b1@);
    assert(words_at(s, 787468, W2_LEN as nat) =~= n.w2@);
}

/// A weights file begins with its mark and the sizes of the layers, each number with its
/// least byte first, and holds the weights in their order.
pub proof fn law_net_file_layout(n: Net, k: int)
    requires
        n.has_sizes(),
        0 <= k < W1_LEN,
    ensures
        all_bytes(n.numbers()).len() == 789_520,
        all_bytes(n.numbers())[0] == 0x45 && all_bytes(n.numbers())[1] == 0x55,
        all_bytes(n.numbers())[2] == 0x4E && all_bytes(n.numbers())[3] == 0x4E,
        all_bytes(n.numbers())[4] == 0 && all_bytes(n.numbers())[5] == 1,
        all_bytes(n.numbers())[8] == 0 && all_bytes(n.numbers())[9] == 3,
        all_bytes(n.numbers())[12 + 4 * k] == n.w1@[k] % 256,
        all_bytes(n.numbers())[15 + 4 * k] == n.w1@[k] / 16_777_216,
{
    let w = n.numbers();
    lemma_all_bytes(w);
    lemma_byte_at(w, 0);
    lemma_byte_at(w, 1);
    lemma_byte_at(w, 2);
    lemma_byte_at(w, k + 3);
    assert(w[0] == MAGIC && w[1] == 256 && w[2] == 768);
    assert(w[k + 3] == n.w1@[k]);
}

/// The bytes of number `k`.
proof fn lemma_byte_at(w: Seq<u32>, k: int)
    requires
        0 <= k < w.len(),
    ensures
        all_bytes(w).len() == 4 * w.len(),
        all_bytes(w)[4 * k] == w[k] % 256,
        all_bytes(w)[4 * k + 1] == w[k] / 256 % 256,
        all_bytes(w)[4 * k + 2] == w[k] / 65536 % 256,
        all_bytes(w)[4 * k + 3] == w[k] / 16777216,
    decreases w.len(),
{
    let t = w.drop_last();
    let a = all_bytes(t);
    let b = le_bytes(w.last());
    lemma_all_bytes(t);
    lemma_all_bytes(w);
    assert(all_bytes(w) == a + b);
    if k < t.len() {
        lemma_byte_at(t, k);
        assert((a + b)[4 * k] == a[4 * k] && (a + b)[4 * k + 1] == a[4 * k + 1]);
        assert((a + b)[4 * k + 2] == a[4 * k + 2] && (a + b)[4 * k + 3] == a[4 * k + 3]);
    } else {
        assert((a + b)[4 * k] == b[0] && (a + b)[4 * k + 1] == b[1]);
        assert((a + b)[4 * k + 2] == b[2] && (a + b)[4 * k + 3] == b[3]);
    }
}

} // verus!
