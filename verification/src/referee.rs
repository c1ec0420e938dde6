//! The referee: the course of a game, when it is over, and who has won.

use vstd::prelude::*;

use crate::bits;
use crate::bits::on;
use crate::fen::start_view;
use crate::movegen;
use crate::movegen::{generate_legal, legal_moves};
use crate::position::Position;
use crate::rules;
use crate::rules::{PosView, apply, hash, holds};
use crate::text;
use crate::text::{strings, texts, words};
use crate::types::{Color, Move, Piece, PieceType};
use crate::uci;
use crate::uci::named;

verus! {

/// Who won a game.
#[derive(Clone, Copy, PartialEq, Eq, Structural, Debug)]
pub enum Winner {
    White,
    Black,
    Draw,
}

/// Why a game is over.
#[derive(Clone, Copy, PartialEq, Eq, Structural, Debug)]
pub enum Reason {
    Checkmate,
    Stalemate,
    FiftyMoves,
    Repetition,
    Material,
    MaxPlies,
    NoMove,
    IllegalMove,
    WhiteNotReady,
    BlackNotReady,
}

impl Reason {
    /// The reason in words.
    pub open spec fn said(self) -> Seq<char> {
        match self {
            Reason::Checkmate => "checkmate"@,
            Reason::Stalemate => "stalemate"@,
            Reason::FiftyMoves => "50-move rule"@,
            Reason::Repetition => "threefold repetition"@,
            Reason::Material => "insufficient material"@,
            Reason::MaxPlies => "max plies"@,
            Reason::NoMove => "no move (timeout/crash)"@,
            Reason::IllegalMove => "illegal move"@,
            Reason::WhiteNotReady => "white failed ucinewgame"@,
            Reason::BlackNotReady => "black failed ucinewgame"@,
        }
    }

    /// The reason in words.
    pub fn text(self) -> (r: &'static str)
        ensures
            r@ == self.said(),
    {
        match self {
            Reason::Checkmate => "checkmate",
            Reason::Stalemate => "stalemate",
            Reason::FiftyMoves => "50-move rule",
            Reason::Repetition => "threefold repetition",
            Reason::Material => "insufficient material",
            Reason::MaxPlies => "max plies",
            Reason::NoMove => "no move (timeout/crash)",
            Reason::IllegalMove => "illegal move",
            Reason::WhiteNotReady => "white failed ucinewgame",
            Reason::BlackNotReady => "black failed ucinewgame",
        }
    }
}

/// How a game ended.
#[derive(Clone, Copy, PartialEq, Eq, Structural, Debug)]
pub struct GameResult {
    pub winner: Winner,
    pub reason: Reason,
}

/// Who wins when `c` loses.
pub open spec fn winner_over(c: Color) -> Winner {
    match c {
        Color::White => Winner::Black,
        Color::Black => Winner::White,
    }
}

/// Who wins when `c` loses.
pub fn beats(c: Color) -> (r: Winner)
    ensures
        r == winner_over(c),
{
    match c {
        Color::White => Winner::Black,
        Color::Black => Winner::White,
    }
}

// ---------------------------------------------------------------------------
// Repetition.
// ---------------------------------------------------------------------------

/// How often a hash occurs among others.
pub open spec fn times(keys: Seq<u64>, k: u64) -> int
    decreases keys.len(),
{
    if keys.len() == 0 {
        0
    } else {
        times(keys.drop_last(), k) + bits::one_if(keys.last() == k)
    }
}

/// Count how often a hash occurs.
pub fn occurrences(keys: &Vec<u64>, k: u64) -> (r: usize)
    ensures
        r == times(keys@, k),
{
    let mut n: usize = 0;
    let mut i: usize = 0;
    assert(keys@.take(0) =~= seq![]);
    while i < keys.len()
        invariant
            i <= keys@.len(),
            n <= i,
            n == times(keys@.take(i as int), k),
        decreases keys@.len() - i,
    {
        assert(keys@.take(i as int + 1).drop_last() =~= keys@.take(i as int));
        if keys[i] == k {
            n = n + 1;
        }
        i = i + 1;
    }
    assert(keys@.take(i as int) =~= keys@);
    n
}

// ---------------------------------------------------------------------------
// Material.
// ---------------------------------------------------------------------------

/// A knight or a bishop.
pub open spec fn is_minor(p: Option<Piece>) -> bool {
    match p {
        Some(q) => q.piece_type == PieceType::Knight || q.piece_type == PieceType::Bishop,
        None => false,
    }
}

/// A pawn, a rook or a queen.
pub open spec fn is_mighty(p: Option<Piece>) -> bool {
    match p {
        Some(q) => q.piece_type == PieceType::Pawn || q.piece_type == PieceType::Rook
            || q.piece_type == PieceType::Queen,
        None => false,
    }
}

/// Nobody can mate: besides the kings there is at most one knight or bishop.
pub open spec fn bare(b: Seq<Option<Piece>>) -> bool {
    &&& forall|s: int| 0 <= s < 64 ==> !is_mighty(#[trigger] b[s])
    &&& bits::count(|s: int| is_minor(b[s])) <= 1
}

/// The squares of both players' pieces of one kind.
fn both(pos: &Position, pt: PieceType) -> (r: u64)
    requires
        pos.wf(),
    ensures
        forall|i: int|
            #[trigger] on(r, i) == (holds(pos@.board, i, Color::White, pt) || holds(
                pos@.board,
                i,
                Color::Black,
                pt,
            )),
{
    let w = pos.pieces_cp(Color::White, pt);
    let b = pos.pieces_cp(Color::Black, pt);
    proof {
        bits::lemma_ops(w.0, b.0);
    }
    w.0 | b.0
}

/// Is there too little material to mate?
pub fn insufficient_material(pos: &Position) -> (r: bool)
    requires
        pos.wf(),
    ensures
        r == bare(pos@.board),
{
    let ghost b = pos@.board;
    let pawns: u64 = both(pos, PieceType::Pawn);
    let rooks: u64 = both(pos, PieceType::Rook);
    let queens: u64 = both(pos, PieceType::Queen);
    proof {
        bits::lemma_empty();
    }
    if pawns != 0 || rooks != 0 || queens != 0 {
        proof {
            let w = if pawns != 0 {
                pawns
            } else if rooks != 0 {
                rooks
            } else {
                queens
            };
            let k = bits::lemma_some_bit(w);
            assert(on(w, k));
            assert(is_mighty(b[k]));
        }
        return false;
    }
    proof {
        assert forall|s: int| 0 <= s < 64 implies !is_mighty(#[trigger] b[s]) by {
            assert(!on(pawns, s) && !on(rooks, s) && !on(queens, s));
        }
    }
    let knights: u64 = both(pos, PieceType::Knight);
    let bishops: u64 = both(pos, PieceType::Bishop);
    let minors: u64 = knights | bishops;
    proof {
        bits::lemma_ops(knights, bishops);
        assert forall|s: int| 0 <= s < 64 implies #[trigger] on(minors, s) == is_minor(b[s]) by {
            assert(on(minors, s) == (on(knights, s) || on(bishops, s)));
        }
        bits::lemma_count_ext(|s: int| on(minors, s), |s: int| is_minor(b[s]));
    }
    bits::popcount(minors) <= 1
}

// ---------------------------------------------------------------------------
// The end of a game.
// ---------------------------------------------------------------------------

/// Whether a game is over before the next move, and how.  `keys` are the hashes
/// of the positions so far and `ply` is the number of moves.
pub open spec fn verdict(v: PosView, keys: Seq<u64>, ply: int, maxplies: int) -> Option<GameResult> {
    if legal_moves(v).len() == 0 {
        Some(
            if v.in_check() {
                GameResult { winner: winner_over(v.side), reason: Reason::Checkmate }
            } else {
                GameResult { winner: Winner::Draw, reason: Reason::Stalemate }
            },
        )
    } else if v.half >= 100 {
        Some(GameResult { winner: Winner::Draw, reason: Reason::FiftyMoves })
    } else if times(keys, hash(v)) >= 3 {
        Some(GameResult { winner: Winner::Draw, reason: Reason::Repetition })
    } else if bare(v.board) {
        Some(GameResult { winner: Winner::Draw, reason: Reason::Material })
    } else if ply >= maxplies {
        Some(GameResult { winner: Winner::Draw, reason: Reason::MaxPlies })
    } else {
        None
    }
}

/// Decide whether a game is over before the next move.
pub fn check_game_over(pos: &Position, keys: &Vec<u64>, ply: usize, maxplies: usize) -> (r: Option<
    GameResult,
>)
    requires
        pos.wf(),
    ensures
        r == verdict(pos@, keys@, ply as int, maxplies as int),
{
    let legal = generate_legal(pos);
    if legal.is_empty() {
        return Some(
            if pos.in_check() {
                GameResult { winner: beats(pos.side_to_move()), reason: Reason::Checkmate }
            } else {
                GameResult { winner: Winner::Draw, reason: Reason::Stalemate }
            },
        );
    }
    if pos.halfmove_clock() >= 100 {
        return Some(GameResult { winner: Winner::Draw, reason: Reason::FiftyMoves });
    }
    if occurrences(keys, pos.key()) >= 3 {
        return Some(GameResult { winner: Winner::Draw, reason: Reason::Repetition });
    }
    if insufficient_material(pos) {
        return Some(GameResult { winner: Winner::Draw, reason: Reason::Material });
    }
    if ply >= maxplies {
        return Some(GameResult { winner: Winner::Draw, reason: Reason::MaxPlies });
    }
    None
}

/// No game runs forever: it is over once it has reached the ply limit.
pub proof fn law_games_end(v: PosView, keys: Seq<u64>, ply: int, maxplies: int)
    requires
        ply >= maxplies,
    ensures
        verdict(v, keys, ply, maxplies) is Some,
{
}

/// The referee gives a win for checkmate alone, and to the player who mates.
pub proof fn law_only_checkmate_wins(v: PosView, keys: Seq<u64>, ply: int, maxplies: int)
    ensures
        match verdict(v, keys, ply, maxplies) {
            Some(g) => {
                &&& g.winner != Winner::Draw <==> g.reason == Reason::Checkmate
                &&& g.reason == Reason::Checkmate <==> rules::stuck(v) && v.in_check()
                &&& g.winner != Winner::Draw ==> g.winner == winner_over(v.side)
            },
            None => !rules::stuck(v),
        },
{
    movegen::lemma_stuck(v);
}

/// A player without a legal move loses if in check, and the other player wins; without
/// a check nobody does.
pub proof fn law_mated_players_lose(v: PosView, keys: Seq<u64>, ply: int, maxplies: int)
    requires
        rules::stuck(v),
    ensures
        verdict(v, keys, ply, maxplies) is Some,
        v.in_check() && v.side == Color::White ==> verdict(v, keys, ply, maxplies)->0.winner
            == Winner::Black,
        v.in_check() && v.side == Color::Black ==> verdict(v, keys, ply, maxplies)->0.winner
            == Winner::White,
        !v.in_check() ==> verdict(v, keys, ply, maxplies)->0.winner == Winner::Draw,
        verdict(v, keys, ply, maxplies)->0.reason == (if v.in_check() {
            Reason::Checkmate
        } else {
            Reason::Stalemate
        }),
{
    movegen::lemma_stuck(v);
}

/// The hash occurs at three places at least.
pub open spec fn thrice(keys: Seq<u64>, k: u64) -> bool {
    exists|a: int, b: int, c: int|
        0 <= a < b < c < keys.len() && #[trigger] keys[a] == k && #[trigger] keys[b] == k
            && #[trigger] keys[c] == k
}

/// The hash occurs at two places at least.
pub open spec fn twice(keys: Seq<u64>, k: u64) -> bool {
    exists|a: int, b: int|
        0 <= a < b < keys.len() && #[trigger] keys[a] == k && #[trigger] keys[b] == k
}

/// Counting finds the places where a hash occurs.
pub proof fn law_counts_find_the_places(keys: Seq<u64>, k: u64)
    ensures
        0 <= times(keys, k) <= keys.len(),
        times(keys, k) >= 1 <==> exists|a: int| 0 <= a < keys.len() && keys[a] == k,
        times(keys, k) >= 2 <==> twice(keys, k),
        times(keys, k) >= 3 <==> thrice(keys, k),
    decreases keys.len(),
{
    if keys.len() > 0 {
        let t = keys.drop_last();
        let last = keys.len() - 1;
        law_counts_find_the_places(t, k);
        if times(t, k) >= 1 {
            let a = choose|a: int| 0 <= a < t.len() && t[a] == k;
            assert(keys[a] == k);
            if keys[last] == k {
                assert(twice(keys, k));
            }
        }
        if twice(t, k) {
            let (a, b) = choose|a: int, b: int|
                0 <= a < b < t.len() && #[trigger] t[a] == k && #[trigger] t[b] == k;
            assert(keys[a] == k && keys[b] == k);
            if keys[last] == k {
                assert(thrice(keys, k));
            }
        }
        if thrice(t, k) {
            let (a, b, c) = choose|a: int, b: int, c: int|
                0 <= a < b < c < t.len() && #[trigger] t[a] == k && #[trigger] t[b] == k
                    && #[trigger] t[c] == k;
            assert(keys[a] == k && keys[b] == k && keys[c] == k);
        }
        if keys[last] == k {
            assert(exists|a: int| 0 <= a < keys.len() && keys[a] == k);
        }
        if exists|a: int| 0 <= a < keys.len() && keys[a] == k {
            let a = choose|a: int| 0 <= a < keys.len() && keys[a] == k;
            assert(a < last ==> t[a] == k);
        }
        if twice(keys, k) {
            let (a, b) = choose|a: int, b: int|
                0 <= a < b < keys.len() && #[trigger] keys[a] == k && #[trigger] keys[b] == k;
            assert(t[a] == k);
            assert(b < last ==> t[b] == k);
        }
        if thrice(keys, k) {
            let (a, b, c) = choose|a: int, b: int, c: int|
                0 <= a < b < c < keys.len() && #[trigger] keys[a] == k && #[trigger] keys[b] == k
                    && #[trigger] keys[c] == k;
            assert(t[a] == k && t[b] == k);
            assert(c < last ==> t[c] == k);
        }
    }
}

/// While the player to move has a legal move, a game is drawn after a hundred plies
/// without a capture or a pawn move, when its position has occurred three times, when
/// nobody can mate any more, and when it is too long; otherwise it goes on.
pub proof fn law_draws_are_called(v: PosView, keys: Seq<u64>, ply: int, maxplies: int)
    requires
        !rules::stuck(v),
    ensures
        verdict(v, keys, ply, maxplies) is Some <==> v.half >= 100 || thrice(keys, hash(v)) || bare(
            v.board,
        ) || ply >= maxplies,
        verdict(v, keys, ply, maxplies) is Some ==> verdict(v, keys, ply, maxplies)->0.winner
            == Winner::Draw,
        v.half >= 100 ==> verdict(v, keys, ply, maxplies)->0.reason == Reason::FiftyMoves,
        v.half < 100 && thrice(keys, hash(v)) ==> verdict(v, keys, ply, maxplies)->0.reason
            == Reason::Repetition,
        verdict(v, keys, ply, maxplies) is Some && verdict(v, keys, ply, maxplies)->0.reason
            == Reason::Repetition ==> thrice(keys, hash(v)),
        v.half < 100 && !thrice(keys, hash(v)) && bare(v.board) ==> verdict(
            v,
            keys,
            ply,
            maxplies,
        )->0.reason == Reason::Material,
{
    movegen::lemma_stuck(v);
    law_counts_find_the_places(keys, hash(v));
}

/// Two bare kings cannot mate each other, nor can they with one knight or bishop more; a
/// pawn, a rook, a queen or a second knight or bishop may be enough.
pub proof fn law_little_material_is_a_draw(b: Seq<Option<Piece>>, s: int, t: int)
    requires
        b.len() == 64,
        0 <= s < 64,
        0 <= t < 64,
    ensures
        (forall|i: int|
            0 <= i < 64 && i != s && (#[trigger] b[i]) is Some ==> b[i]->0.piece_type
                == PieceType::King) && (b[s] is Some ==> b[s]->0.piece_type == PieceType::King
            || b[s]->0.piece_type == PieceType::Knight || b[s]->0.piece_type == PieceType::Bishop)
            ==> bare(b),
        b[s] is Some && (b[s]->0.piece_type == PieceType::Pawn || b[s]->0.piece_type
            == PieceType::Rook || b[s]->0.piece_type == PieceType::Queen) ==> !bare(b),
        s != t && b[s] is Some && b[t] is Some && (b[s]->0.piece_type == PieceType::Knight
            || b[s]->0.piece_type == PieceType::Bishop) && (b[t]->0.piece_type == PieceType::Knight
            || b[t]->0.piece_type == PieceType::Bishop) ==> !bare(b),
{
    let f = |i: int| is_minor(b[i]);
    if is_minor(b[s]) && is_minor(b[t]) && s != t {
        bits::lemma_count_two(f, s, t);
    }
    if forall|i: int|
        0 <= i < 64 && i != s && (#[trigger] b[i]) is Some ==> b[i]->0.piece_type
            == PieceType::King {
        assert forall|i: int| 0 <= i < 64 && i != s implies !#[trigger] f(i) && !is_mighty(
            b[i],
        ) by {
            assert(b[i] is Some ==> b[i]->0.piece_type == PieceType::King);
        }
        bits::lemma_count_single(f, s);
    }
}

// ---------------------------------------------------------------------------
// The course of a game.
// ---------------------------------------------------------------------------

/// The position after named moves, if each of them is legal when it is played.
pub open spec fn line(v: PosView, names: Seq<Seq<char>>) -> Option<PosView>
    decreases names.len(),
{
    if names.len() == 0 {
        Some(v)
    } else {
        match line(v, names.drop_last()) {
            Some(w) => match named(w, names.last()) {
                Some(m) => Some(apply(w, m)),
                None => None,
            },
            None => None,
        }
    }
}

/// The hashes of the positions that named moves lead through.
pub open spec fn trail(v: PosView, names: Seq<Seq<char>>) -> Seq<u64>
    decreases names.len(),
{
    if names.len() == 0 {
        seq![hash(v)]
    } else {
        trail(v, names.drop_last()).push(hash(line(v, names)->0))
    }
}

/// After a move that is not legal there is no position.
pub proof fn lemma_line_prefix(v: PosView, w: Seq<Seq<char>>, k: int)
    requires
        0 <= k <= w.len(),
        line(v, w.take(k)) is None,
    ensures
        line(v, w) is None,
    decreases w.len() - k,
{
    if k == w.len() {
        assert(w.take(k) =~= w);
    } else {
        assert(w.take(k + 1).drop_last() =~= w.take(k));
        lemma_line_prefix(v, w, k + 1);
    }
}

/// A game from the start position.
pub struct Game {
    pub pos: Position,
    /// The moves so far.
    pub moves: Vec<String>,
    /// The hashes of the positions so far, the first and the last included.
    pub keys: Vec<u64>,
}

impl Game {
    /// The position and the hashes are those that the moves lead to.
    pub open spec fn wf(&self) -> bool {
        &&& self.pos.wf()
        &&& line(start_view(), strings(self.moves@)) == Some(self.pos@)
        &&& self.keys@ == trail(start_view(), strings(self.moves@))
    }

    /// A game without moves.
    pub fn new() -> (r: Game)
        ensures
            r.wf(),
            strings(r.moves@) == Seq::<Seq<char>>::empty(),
            r.pos@ == start_view(),
    {
        let pos = Position::startpos();
        let mut keys: Vec<u64> = Vec::new();
        keys.push(pos.key());
        let moves: Vec<String> = Vec::new();
        assert(strings(moves@) =~= seq![]);
        assert(keys@ =~= seq![hash(start_view())]);
        Game { pos, moves, keys }
    }

    /// Play the legal move that is written `token`.  Returns whether there is
    /// such a move; if not, the game stays as it is.
    pub fn play(&mut self, token: &str) -> (r: bool)
        requires
            old(self).wf(),
        ensures
            final(self).wf(),
            r == (named(old(self).pos@, token@) is Some),
            r ==> strings(final(self).moves@) == strings(old(self).moves@).push(token@),
            r ==> final(self).pos@ == apply(old(self).pos@, named(old(self).pos@, token@)->0),
            !r ==> *final(self) == *old(self),
    {
        let ghost before = strings(self.moves@);
        if !uci::apply_uci_move(&mut self.pos, token) {
            return false;
        }
        let mut name = String::new();
        text::push_str(&mut name, token);
        assert(name@ =~= token@);
        self.moves.push(name);
        self.keys.push(self.pos.key());
        proof {
            let after = strings(self.moves@);
            assert(after =~= before.push(token@));
            assert(after.drop_last() =~= before);
            assert(self.keys@ =~= trail(start_view(), after));
        }
        true
    }

    /// A game that begins with the given moves, separated by spaces, if each of
    /// them is legal.
    pub fn open(opening: &str) -> (r: Option<Game>)
        ensures
            match r {
                Some(g) => g.wf() && strings(g.moves@) == words(opening@),
                None => line(start_view(), words(opening@)) is None,
            },
    {
        let cs = text::chars_of(opening);
        let w = text::split_words(&cs);
        let ghost ws = words(opening@);
        let mut game = Game::new();
        let mut i: usize = 0;
        assert(ws.take(0) =~= seq![]);
        while i < w.len()
            invariant
                i <= w@.len(),
                ws == texts(w@),
                ws == words(opening@),
                game.wf(),
                strings(game.moves@) == ws.take(i as int),
            decreases w@.len() - i,
        {
            let token = text::to_text(&w[i]);
            assert(ws[i as int] == w@[i as int]@);
            if !game.play(token.as_str()) {
                proof {
                    let t = ws.take(i as int + 1);
                    assert(t.drop_last() =~= ws.take(i as int));
                    assert(t.last() == token@);
                    lemma_line_prefix(start_view(), ws, i as int + 1);
                }
                return None;
            }
            assert(ws.take(i as int + 1) =~= ws.take(i as int).push(token@));
            i = i + 1;
        }
        assert(ws.take(i as int) =~= ws);
        Some(game)
    }

    /// Decide whether the game is over before the next move.
    pub fn status(&self, maxplies: usize) -> (r: Option<GameResult>)
        requires
            self.wf(),
        ensures
            r == verdict(self.pos@, self.keys@, self.moves@.len() as int, maxplies as int),
    {
        check_game_over(&self.pos, &self.keys, self.moves.len(), maxplies)
    }

    /// Take the reply of the player to move: a legal move is played and the game
    /// goes on; any other reply, or none, loses the game.
    pub fn answer(&mut self, reply: &Option<String>) -> (r: Option<GameResult>)
        requires
            old(self).wf(),
        ensures
            final(self).wf(),
            r is Some && old(self).pos@.side == Color::White ==> r->0.winner == Winner::Black,
            r is Some && old(self).pos@.side == Color::Black ==> r->0.winner == Winner::White,
            match *reply {
                None => {
                    &&& r == Some(
                        GameResult {
                            winner: winner_over(old(self).pos@.side),
                            reason: Reason::NoMove,
                        },
                    )
                    &&& *final(self) == *old(self)
                },
                Some(t) => match named(old(self).pos@, t@) {
                    Some(m) => {
                        &&& r is None
                        &&& final(self).pos@ == apply(old(self).pos@, m)
                        &&& strings(final(self).moves@) == strings(old(self).moves@).push(t@)
                    },
                    None => {
                        &&& r == Some(
                            GameResult {
                                winner: winner_over(old(self).pos@.side),
                                reason: Reason::IllegalMove,
                            },
                        )
                        &&& *final(self) == *old(self)
                    },
                },
            },
    {
        let loses = beats(self.pos.side_to_move());
        match reply {
            None => Some(GameResult { winner: loses, reason: Reason::NoMove }),
            Some(t) => {
                if self.play(t.as_str()) {
                    None
                } else {
                    Some(GameResult { winner: loses, reason: Reason::IllegalMove })
                }
            },
        }
    }
}

/// The hashes of a game are those of the positions before, with that of the
/// present one at the end.
pub proof fn law_trail_ends_here(v: PosView, names: Seq<Seq<char>>)
    requires
        line(v, names) is Some,
    ensures
        trail(v, names).len() == names.len() + 1,
        trail(v, names).last() == hash(line(v, names)->0),
        times(trail(v, names), hash(line(v, names)->0)) >= 1,
    decreases names.len(),
{
    if names.len() > 0 {
        law_trail_ends_here(v, names.drop_last());
    }
    let t = trail(v, names);
    lemma_times_positive(t.drop_last(), t.last());
}

/// Nothing occurs less than never.
proof fn lemma_times_positive(keys: Seq<u64>, k: u64)
    ensures
        times(keys, k) >= 0,
    decreases keys.len(),
{
    if keys.len() > 0 {
        lemma_times_positive(keys.drop_last(), k);
    }
}

/// A legal move that is named at the end of a line is played, and any other name ends it.
pub proof fn law_lines_are_played(v: PosView, names: Seq<Seq<char>>, m: Move, bad: Seq<char>)
    requires
        line(v, names) is Some,
        line(v, names)->0.wf(),
    ensures
        rules::legal(line(v, names)->0, m) ==> line(v, names.push(m.uci())) == Some(
            apply(line(v, names)->0, m),
        ),
        (forall|n: Move| rules::legal(line(v, names)->0, n) ==> #[trigger] n.uci() != bad) ==> line(
            v,
            names.push(bad),
        ) is None,
        line(v, Seq::<Seq<char>>::empty()) == Some(v),
{
    let w = line(v, names)->0;
    assert(names.push(m.uci()).drop_last() =~= names);
    assert(names.push(bad).drop_last() =~= names);
    if rules::legal(w, m) {
        uci::law_legal_moves_are_found(w, m);
    }
    uci::lemma_named_from(w, bad, 0);
}

/// Each hash of a game is that of the position after as many moves.
pub proof fn law_trails_follow_the_game(v: PosView, names: Seq<Seq<char>>, k: int)
    requires
        line(v, names) is Some,
        0 <= k <= names.len(),
    ensures
        line(v, names.take(k)) is Some,
        trail(v, names)[k] == hash(line(v, names.take(k))->0),
        trail(v, names).len() == names.len() + 1,
    decreases names.len(),
{
    law_trail_ends_here(v, names);
    if k == names.len() {
        assert(names.take(k) =~= names);
    } else {
        let before = names.drop_last();
        assert(names.take(k) =~= before.take(k));
        law_trails_follow_the_game(v, before, k);
    }
}

} // verus!
