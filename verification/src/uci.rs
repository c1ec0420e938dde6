//! The UCI protocol: what the commands of a chess interface mean.

use vstd::prelude::*;

use crate::clock::SearchLimits;
use crate::fen::{fen_fields, start_view};
use crate::movegen;
use crate::movegen::{generate_legal, legal_moves};
use crate::position::Position;
use crate::referee::line;
use crate::rules;
use crate::rules::{PosView, apply, legal};
use crate::text;
use crate::text::{
    find_from, parse_dec, same_ignoring_case, starts_with, texts, trimmed, trimmed_start, words,
};
use crate::types::{Move, MoveType, lemma_square_name, square_name};

verus! {

/// The size in megabytes of the transposition table of a fresh engine.
pub const DEFAULT_HASH_MB: usize = 16;

// ---------------------------------------------------------------------------
// Moves.
// ---------------------------------------------------------------------------

/// The first of the moves from place `i` on that is written `token`.
pub open spec fn named_from(ms: Seq<Move>, token: Seq<char>, i: int) -> Option<Move>
    decreases ms.len() - i,
{
    if i < 0 || i >= ms.len() {
        None
    } else if ms[i].uci() == token {
        Some(ms[i])
    } else {
        named_from(ms, token, i + 1)
    }
}

/// The legal move that is written `token`.
pub open spec fn named(v: PosView, token: Seq<char>) -> Option<Move> {
    named_from(legal_moves(v), token, 0)
}

/// A move found by its name is legal and has that name.
pub proof fn lemma_named_from(v: PosView, token: Seq<char>, i: int)
    requires
        0 <= i,
    ensures
        match named_from(legal_moves(v), token, i) {
            Some(m) => legal(v, m) && m.uci() == token,
            None => forall|j: int|
                i <= j < legal_moves(v).len() ==> (#[trigger] legal_moves(v)[j]).uci() != token,
        },
    decreases legal_moves(v).len() - i,
{
    if i < legal_moves(v).len() {
        if legal_moves(v)[i].uci() == token {
            movegen::lemma_listed_legal(v, i);
        } else {
            lemma_named_from(v, token, i + 1);
        }
    }
}

/// Two legal moves that are written alike are the same move.
pub proof fn law_names_are_unique(v: PosView, a: Move, b: Move)
    requires
        v.wf(),
        legal(v, a),
        legal(v, b),
        a.uci() == b.uci(),
    ensures
        a == b,
{
    let x = square_name(a.from.i());
    let y = square_name(b.from.i());
    assert(a.uci()[0] == x[0] && a.uci()[1] == x[1]);
    assert(b.uci()[0] == y[0] && b.uci()[1] == y[1]);
    lemma_square_name(a.from.i(), b.from.i());
    let p = square_name(a.lands());
    let q = square_name(b.lands());
    assert(a.uci()[2] == p[0] && a.uci()[3] == p[1]);
    assert(b.uci()[2] == q[0] && b.uci()[3] == q[1]);
    assert(0 <= a.lands() < 64 && 0 <= b.lands() < 64);
    lemma_square_name(a.lands(), b.lands());
    assert(a.kind == MoveType::Promotion <==> a.uci().len() == 5);
    assert(b.kind == MoveType::Promotion <==> b.uci().len() == 5);
    if a.kind == MoveType::Promotion {
        assert(a.uci()[4] == a.promo.letter_spec() && b.uci()[4] == b.promo.letter_spec());
    }
    if a.kind == MoveType::Castling || b.kind == MoveType::Castling {
        // The king goes two files, which it can do in no other way.
        lemma_castling_alone(v, a, b);
        lemma_castling_alone(v, b, a);
    }
}

/// A move from and to the squares of a castling king is castling.
proof fn lemma_castling_alone(v: PosView, a: Move, b: Move)
    requires
        v.wf(),
        legal(v, a),
        legal(v, b),
        a.from == b.from,
        a.lands() == b.lands(),
        a.kind == MoveType::Castling,
    ensures
        a == b,
{
    assert(rules::holds(v.board, a.from.i(), v.side, crate::types::PieceType::King));
}

/// A legal move is found by its name.
pub proof fn law_legal_moves_are_found(v: PosView, m: Move)
    requires
        v.wf(),
        legal(v, m),
    ensures
        named(v, m.uci()) == Some(m),
{
    movegen::law_legal_moves_complete(v, m);
    lemma_named_from(v, m.uci(), 0);
    let i = choose|i: int| 0 <= i < legal_moves(v).len() && legal_moves(v)[i] == m;
    assert(legal_moves(v)[i].uci() == m.uci());
    match named(v, m.uci()) {
        Some(n) => {
            law_names_are_unique(v, n, m);
        },
        None => {},
    }
}

/// Find the legal move that is written `token` and play it.  Returns whether
/// there is such a move; if not, the position stays as it is.
fn apply_token(pos: &mut Position, token: &Vec<char>) -> (r: bool)
    requires
        old(pos).wf(),
    ensures
        final(pos).wf(),
        r == (named(old(pos)@, token@) is Some),
        r ==> final(pos)@ == apply(old(pos)@, named(old(pos)@, token@)->0),
        !r ==> *final(pos) == *old(pos),
{
    let moves = generate_legal(pos);
    let ghost v = pos@;
    let mut i: usize = 0;
    while i < moves.len()
        invariant
            pos.wf(),
            *pos == *old(pos),
            v == pos@,
            moves@ == legal_moves(v),
            i <= moves@.len(),
            named(v, token@) == named_from(moves@, token@, i as int),
        decreases moves@.len() - i,
    {
        proof {
            movegen::lemma_listed_legal(v, i as int);
        }
        let m = moves.get(i);
        let name = text::chars_of(m.to_string().as_str());
        if text::same_chars(&name, token) {
            let _ = pos.make_move(m);
            return true;
        }
        i = i + 1;
    }
    false
}

/// Find the legal move that is written `mv_str` and play it.  Returns whether
/// there is such a move; if not, the position stays as it is.
pub fn apply_uci_move(pos: &mut Position, mv_str: &str) -> (r: bool)
    requires
        old(pos).wf(),
    ensures
        final(pos).wf(),
        r == (named(old(pos)@, mv_str@) is Some),
        r ==> final(pos)@ == apply(old(pos)@, named(old(pos)@, mv_str@)->0),
        !r ==> *final(pos) == *old(pos),
{
    let token = text::chars_of(mv_str);
    apply_token(pos, &token)
}

// ---------------------------------------------------------------------------
// `position`.
// ---------------------------------------------------------------------------

/// The position after the moves named by the words from place `i` on, up to the
/// first that names no legal move.
pub open spec fn played(v: PosView, w: Seq<Seq<char>>, i: int) -> PosView
    decreases w.len() - i,
{
    if i < 0 || i >= w.len() {
        v
    } else {
        match named(v, w[i]) {
            Some(m) => played(apply(v, m), w, i + 1),
            None => v,
        }
    }
}

/// The place of the word `moves`, from place `i` on, or the number of words.
pub open spec fn moves_word(w: Seq<Seq<char>>, i: int) -> int
    decreases w.len() - i,
{
    if i < 0 || i >= w.len() || w[i] == "moves"@ {
        i
    } else {
        moves_word(w, i + 1)
    }
}

/// The word `moves` at place `i` is passed over.
pub open spec fn after_moves_word(w: Seq<Seq<char>>, i: int) -> int {
    if 0 <= i < w.len() && w[i] == "moves"@ {
        i + 1
    } else {
        i
    }
}

/// The position that the arguments of a `position` command describe.  A record
/// that is no position counts as the start of a game.
pub open spec fn position_of(w: Seq<Seq<char>>) -> PosView {
    if w.len() > 0 && w[0] == "fen"@ {
        let e = moves_word(w, 1);
        let base = match fen_fields(w.subrange(1, e)) {
            Ok(v) => v,
            Err(_) => start_view(),
        };
        played(base, w, after_moves_word(w, e))
    } else {
        played(start_view(), w, after_moves_word(w, 1))
    }
}

proof fn lemma_moves_word(w: Seq<Seq<char>>, i: int)
    requires
        0 <= i <= w.len(),
    ensures
        i <= moves_word(w, i) <= w.len(),
    decreases w.len() - i,
{
    if i < w.len() && w[i] != "moves"@ {
        lemma_moves_word(w, i + 1);
    }
}

/// Words from one place to another.
fn some_words(w: &Vec<Vec<char>>, a: usize, b: usize) -> (r: Vec<Vec<char>>)
    requires
        a <= b <= w@.len(),
    ensures
        texts(r@) == texts(w@).subrange(a as int, b as int),
{
    let mut out: Vec<Vec<char>> = Vec::new();
    let mut i: usize = a;
    assert(texts(out@) =~= texts(w@).subrange(a as int, a as int));
    while i < b
        invariant
            a <= i <= b <= w@.len(),
            texts(out@) == texts(w@).subrange(a as int, i as int),
        decreases b - i,
    {
        let ghost before = out@;
        let word = text::slice(&w[i], 0, w[i].len());
        out.push(word);
        proof {
            assert(word@ =~= w@[i as int]@);
            assert(texts(out@) =~= texts(before).push(word@));
            assert(texts(w@).subrange(a as int, i as int + 1) =~= texts(w@).subrange(
                a as int,
                i as int,
            ).push(w@[i as int]@));
        }
        i = i + 1;
    }
    out
}

/// Read the arguments of a `position` command: `startpos` or `fen` and a record,
/// and perhaps `moves` and the moves to play.
pub fn parse_position(args: &str) -> (r: Position)
    ensures
        r.wf(),
        r@ == position_of(words(args@)),
{
    let cs = text::chars_of(args);
    let w = text::split_words(&cs);
    let ghost ws = words(args@);
    assert(ws.len() == w@.len());
    let mut i: usize = if w.len() > 0 {
        1
    } else {
        0
    };
    let mut pos = Position::startpos();
    if w.len() > 0 && text::same(&w[0], "fen") {
        while i < w.len() && !text::same(&w[i], "moves")
            invariant
                1 <= i <= w@.len(),
                ws == texts(w@),
                moves_word(ws, i as int) == moves_word(ws, 1),
            decreases w@.len() - i,
        {
            assert(ws[i as int] == w@[i as int]@);
            i = i + 1;
        }
        proof {
            if i < w@.len() {
                assert(ws[i as int] == w@[i as int]@);
            }
            assert(i == moves_word(ws, 1));
        }
        match Position::from_fields(&some_words(&w, 1, i)) {
            Ok(p) => {
                pos = p;
            },
            Err(_) => {},
        }
    }
    proof {
        if w@.len() > 0 {
            assert(ws[0] == w@[0]@);
        }
        if i < w@.len() {
            assert(ws[i as int] == w@[i as int]@);
        }
    }
    if i < w.len() && text::same(&w[i], "moves") {
        i = i + 1;
    }
    proof {
        assert(position_of(ws) == played(pos@, ws, i as int));
    }
    while i < w.len()
        invariant
            pos.wf(),
            i <= w@.len(),
            ws == texts(w@),
            ws == words(args@),
            position_of(ws) == played(pos@, ws, i as int),
        decreases w@.len() - i,
    {
        assert(ws[i as int] == w@[i as int]@);
        if !apply_token(&mut pos, &w[i]) {
            return pos;
        }
        i = i + 1;
    }
    pos
}

// ---------------------------------------------------------------------------
// `go`.
// ---------------------------------------------------------------------------

/// The number that the word at place `i` stands for, if there is such a word and
/// it is a number of at most `max`.
pub open spec fn number_at(w: Seq<Seq<char>>, i: int, max: int) -> Option<int> {
    if i < w.len() {
        parse_dec(w[i], max)
    } else {
        None
    }
}

pub open spec fn small(n: Option<int>) -> Option<u32> {
    match n {
        Some(x) => Some(x as u32),
        None => None,
    }
}

pub open spec fn large(n: Option<int>) -> Option<u64> {
    match n {
        Some(x) => Some(x as u64),
        None => None,
    }
}

/// The limits after reading the words from place `i` on.
pub open spec fn limits_from(w: Seq<Seq<char>>, i: int, l: SearchLimits) -> SearchLimits
    decreases w.len() - i + 2,
{
    if i < 0 || i >= w.len() {
        l
    } else if w[i] == "depth"@ {
        limits_from(
            w,
            i + 2,
            SearchLimits { depth: small(number_at(w, i + 1, u32::MAX as int)), ..l },
        )
    } else if w[i] == "movetime"@ {
        limits_from(
            w,
            i + 2,
            SearchLimits { movetime_ms: large(number_at(w, i + 1, u64::MAX as int)), ..l },
        )
    } else if w[i] == "wtime"@ {
        limits_from(
            w,
            i + 2,
            SearchLimits { wtime: large(number_at(w, i + 1, u64::MAX as int)), ..l },
        )
    } else if w[i] == "btime"@ {
        limits_from(
            w,
            i + 2,
            SearchLimits { btime: large(number_at(w, i + 1, u64::MAX as int)), ..l },
        )
    } else if w[i] == "winc"@ {
        limits_from(
            w,
            i + 2,
            SearchLimits { winc: large(number_at(w, i + 1, u64::MAX as int)), ..l },
        )
    } else if w[i] == "binc"@ {
        limits_from(
            w,
            i + 2,
            SearchLimits { binc: large(number_at(w, i + 1, u64::MAX as int)), ..l },
        )
    } else if w[i] == "movestogo"@ {
        limits_from(
            w,
            i + 2,
            SearchLimits { movestogo: small(number_at(w, i + 1, u32::MAX as int)), ..l },
        )
    } else if w[i] == "nodes"@ {
        limits_from(
            w,
            i + 2,
            SearchLimits { nodes: large(number_at(w, i + 1, u64::MAX as int)), ..l },
        )
    } else if w[i] == "infinite"@ {
        limits_from(w, i + 1, SearchLimits { infinite: true, ..l })
    } else {
        limits_from(w, i + 1, l)
    }
}

/// The words are one group of the arguments of a `go` command: a limit with its
/// value, or the word for an endless search.
pub open spec fn is_group(g: Seq<Seq<char>>) -> bool {
    if g.len() == 2 {
        ||| g[0] == "depth"@
        ||| g[0] == "movetime"@
        ||| g[0] == "wtime"@
        ||| g[0] == "btime"@
        ||| g[0] == "winc"@
        ||| g[0] == "binc"@
        ||| g[0] == "movestogo"@
        ||| g[0] == "nodes"@
    } else {
        g.len() == 1 && g[0] == "infinite"@
    }
}

/// Reading from a word on depends only on the words that follow.
#[verifier::rlimit(30)]
proof fn lemma_limits_shift(w: Seq<Seq<char>>, i: int, k: int, l: SearchLimits)
    requires
        0 <= k <= i,
        k <= w.len(),
    ensures
        limits_from(w, i, l) == limits_from(w.skip(k), i - k, l),
    decreases w.len() - i + 2,
{
    let t = w.skip(k);
    if i < w.len() {
        assert(t[i - k] == w[i]);
        if i + 1 < w.len() {
            assert(t[i - k + 1] == w[i + 1]);
        }
        assert(number_at(w, i + 1, u32::MAX as int) == number_at(t, i - k + 1, u32::MAX as int));
        assert(number_at(w, i + 1, u64::MAX as int) == number_at(t, i - k + 1, u64::MAX as int));
        let big = large(number_at(w, i + 1, u64::MAX as int));
        let few = small(number_at(w, i + 1, u32::MAX as int));
        lemma_limits_shift(w, i + 2, k, SearchLimits { depth: few, ..l });
        lemma_limits_shift(w, i + 2, k, SearchLimits { movetime_ms: big, ..l });
        lemma_limits_shift(w, i + 2, k, SearchLimits { wtime: big, ..l });
        lemma_limits_shift(w, i + 2, k, SearchLimits { btime: big, ..l });
        lemma_limits_shift(w, i + 2, k, SearchLimits { winc: big, ..l });
        lemma_limits_shift(w, i + 2, k, SearchLimits { binc: big, ..l });
        lemma_limits_shift(w, i + 2, k, SearchLimits { movestogo: few, ..l });
        lemma_limits_shift(w, i + 2, k, SearchLimits { nodes: big, ..l });
        lemma_limits_shift(w, i + 1, k, SearchLimits { infinite: true, ..l });
        lemma_limits_shift(w, i + 1, k, l);
    }
}

/// A group sets its limit, and the words behind it are read after it.
#[verifier::rlimit(30)]
proof fn lemma_group(g: Seq<Seq<char>>, t: Seq<Seq<char>>, l: SearchLimits)
    requires
        is_group(g),
    ensures
        limits_from(g + t, 0, l) == limits_from(t, 0, limits_from(g, 0, l)),
{
    reveal_strlit("infinite");
    reveal_strlit("depth");
    reveal_strlit("movetime");
    reveal_strlit("wtime");
    reveal_strlit("btime");
    reveal_strlit("winc");
    reveal_strlit("binc");
    reveal_strlit("movestogo");
    reveal_strlit("nodes");
    let w = g + t;
    let n = g.len() as int;
    assert(w[0] == g[0]);
    assert(w.skip(n) =~= t);
    if n == 2 {
        assert(w[1] == g[1]);
    } else {
        assert("infinite"@[0] == 'i' && "movetime"@[0] == 'm');
    }
    let after = limits_from(g, 0, l);
    reveal_with_fuel(limits_from, 2);
    lemma_limits_shift(w, n, n, after);
}

/// Two groups of the arguments of a `go` command that set different limits can
/// change places.
#[verifier::rlimit(30)]
pub proof fn law_go_groups_change_places(
    g: Seq<Seq<char>>,
    h: Seq<Seq<char>>,
    rest: Seq<Seq<char>>,
    l: SearchLimits,
)
    requires
        is_group(g),
        is_group(h),
        g[0] != h[0],
    ensures
        limits_from(g + h + rest, 0, l) == limits_from(h + g + rest, 0, l),
{
    assert(g + h + rest =~= g + (h + rest));
    assert(h + g + rest =~= h + (g + rest));
    lemma_group(g, h + rest, l);
    lemma_group(h, rest, limits_from(g, 0, l));
    lemma_group(h, g + rest, l);
    lemma_group(g, rest, limits_from(h, 0, l));
    reveal_with_fuel(limits_from, 2);
}

/// The words of groups, one group after another.
pub open spec fn in_line(gs: Seq<Seq<Seq<char>>>) -> Seq<Seq<char>>
    decreases gs.len(),
{
    if gs.len() == 0 {
        seq![]
    } else {
        gs[0] + in_line(gs.skip(1))
    }
}

pub open spec fn all_groups(gs: Seq<Seq<Seq<char>>>) -> bool {
    forall|i: int| 0 <= i < gs.len() ==> is_group(#[trigger] gs[i])
}

/// One of the groups begins with the word.
pub open spec fn among(gs: Seq<Seq<Seq<char>>>, k: Seq<char>) -> bool {
    exists|i: int| 0 <= i < gs.len() && (#[trigger] gs[i])[0] == k
}

/// The words that groups begin with.
#[verifier::opaque]
pub open spec fn is_keyword(k: Seq<char>) -> bool {
    ||| k == "depth"@
    ||| k == "movetime"@
    ||| k == "wtime"@
    ||| k == "btime"@
    ||| k == "winc"@
    ||| k == "binc"@
    ||| k == "movestogo"@
    ||| k == "nodes"@
    ||| k == "infinite"@
}

/// The limit that a keyword stands for.  An endless search counts as a limit of one.
#[verifier::opaque]
pub open spec fn limit_of(l: SearchLimits, k: Seq<char>) -> Option<int> {
    if k == "depth"@ {
        from_small(l.depth)
    } else if k == "movetime"@ {
        from_large(l.movetime_ms)
    } else if k == "wtime"@ {
        from_large(l.wtime)
    } else if k == "btime"@ {
        from_large(l.btime)
    } else if k == "winc"@ {
        from_large(l.winc)
    } else if k == "binc"@ {
        from_large(l.binc)
    } else if k == "movestogo"@ {
        from_small(l.movestogo)
    } else if k == "nodes"@ {
        from_large(l.nodes)
    } else if l.infinite {
        Some(1)
    } else {
        None
    }
}

pub open spec fn from_small(n: Option<u32>) -> Option<int> {
    match n {
        Some(x) => Some(x as int),
        None => None,
    }
}

pub open spec fn from_large(n: Option<u64>) -> Option<int> {
    match n {
        Some(x) => Some(x as int),
        None => None,
    }
}

/// The limit that a group sets.
#[verifier::opaque]
pub open spec fn group_value(g: Seq<Seq<char>>) -> Option<int> {
    if g.len() != 2 {
        Some(1)
    } else if g[0] == "depth"@ || g[0] == "movestogo"@ {
        parse_dec(g[1], u32::MAX as int)
    } else {
        parse_dec(g[1], u64::MAX as int)
    }
}

/// The limit that the last group with the keyword sets, if there is such a group.
pub open spec fn last_value(gs: Seq<Seq<Seq<char>>>, k: Seq<char>) -> Option<Option<int>>
    decreases gs.len(),
{
    if gs.len() == 0 {
        None
    } else {
        match last_value(gs.skip(1), k) {
            Some(x) => Some(x),
            None => if gs[0][0] == k {
                Some(group_value(gs[0]))
            } else {
                None
            },
        }
    }
}

/// The limits that the arguments of a `go` command set.
pub open spec fn go_limits(args: Seq<char>) -> SearchLimits {
    limits_from(words(args), 0, SearchLimits::unlimited())
}

/// The keywords are different words.
proof fn lemma_keywords()
    ensures
        "infinite"@.len() == 8 && "infinite"@[0] == 'i',
        "movetime"@.len() == 8 && "movetime"@[0] == 'm',
        "depth"@.len() == 5 && "depth"@[0] == 'd',
        "wtime"@.len() == 5 && "wtime"@[0] == 'w',
        "btime"@.len() == 5 && "btime"@[0] == 'b',
        "nodes"@.len() == 5 && "nodes"@[0] == 'n',
        "winc"@.len() == 4 && "winc"@[0] == 'w',
        "binc"@.len() == 4 && "binc"@[0] == 'b',
        "movestogo"@.len() == 9,
{
    reveal_strlit("infinite");
    reveal_strlit("depth");
    reveal_strlit("movetime");
    reveal_strlit("wtime");
    reveal_strlit("btime");
    reveal_strlit("winc");
    reveal_strlit("binc");
    reveal_strlit("movestogo");
    reveal_strlit("nodes");
}

/// A number that is read is not negative and not above the largest allowed.
proof fn lemma_number_range(s: Seq<char>, max: int)
    ensures
        parse_dec(s, max) is Some ==> 0 <= parse_dec(s, max)->0 <= max,
{
    let d = if s.len() > 0 && s[0] == '+' {
        s.skip(1)
    } else {
        s
    };
    if text::all_digits(d) {
        text::lemma_dec_value_bound(d);
    }
}

/// A group sets the limit of its keyword and no other.
#[verifier::rlimit(30)]
proof fn lemma_group_sets(g: Seq<Seq<char>>, l: SearchLimits, k: Seq<char>)
    requires
        is_group(g),
        is_keyword(k),
    ensures
        limit_of(limits_from(g, 0, l), k) == (if k == g[0] {
            group_value(g)
        } else {
            limit_of(l, k)
        }),
{
    reveal(is_keyword);
    reveal(limit_of);
    reveal(group_value);
    lemma_keywords();
    reveal_with_fuel(limits_from, 2);
    if g.len() == 2 {
        lemma_number_range(g[1], u32::MAX as int);
        lemma_number_range(g[1], u64::MAX as int);
    }
}

/// Groups set the limits of their keywords and no others.
proof fn lemma_groups_set(gs: Seq<Seq<Seq<char>>>, l: SearchLimits, k: Seq<char>)
    requires
        all_groups(gs),
        is_keyword(k),
    ensures
        limit_of(limits_from(in_line(gs), 0, l), k) == (match last_value(gs, k) {
            Some(x) => x,
            None => limit_of(l, k),
        }),
    decreases gs.len(),
{
    if gs.len() > 0 {
        let rest = gs.skip(1);
        assert forall|i: int| 0 <= i < rest.len() implies is_group(#[trigger] rest[i]) by {
            assert(is_group(gs[i + 1]));
        }
        assert(is_group(gs[0]));
        lemma_group(gs[0], in_line(rest), l);
        lemma_groups_set(rest, limits_from(gs[0], 0, l), k);
        lemma_group_sets(gs[0], l, k);
    }
}

/// A keyword has a last value exactly if one of the groups begins with it.
proof fn lemma_last_value(gs: Seq<Seq<Seq<char>>>, k: Seq<char>)
    ensures
        last_value(gs, k) is Some <==> among(gs, k),
    decreases gs.len(),
{
    if gs.len() > 0 {
        let rest = gs.skip(1);
        lemma_last_value(rest, k);
        if among(rest, k) {
            let i = choose|i: int| 0 <= i < rest.len() && (#[trigger] rest[i])[0] == k;
            assert(gs[i + 1][0] == k);
        }
        if among(gs, k) && gs[0][0] != k {
            let i = choose|i: int| 0 <= i < gs.len() && (#[trigger] gs[i])[0] == k;
            assert(rest[i - 1][0] == k);
        }
        if gs[0][0] == k {
            assert(among(gs, k));
        }
    }
}

/// With no keyword twice, the last value of a keyword is that of its only group.
proof fn lemma_only_value(gs: Seq<Seq<Seq<char>>>, i: int)
    requires
        0 <= i < gs.len(),
        forall|a: int, b: int|
            0 <= a < b < gs.len() ==> (#[trigger] gs[a])[0] != (#[trigger] gs[b])[0],
    ensures
        last_value(gs, gs[i][0]) == Some(group_value(gs[i])),
    decreases gs.len(),
{
    let rest = gs.skip(1);
    assert forall|a: int, b: int| 0 <= a < b < rest.len() implies (#[trigger] rest[a])[0] != (
    #[trigger] rest[b])[0] by {
        assert(gs[a + 1][0] != gs[b + 1][0]);
    }
    if i > 0 {
        assert(rest[i - 1] == gs[i]);
        lemma_only_value(rest, i - 1);
    } else {
        lemma_last_value(rest, gs[0][0]);
        if among(rest, gs[0][0]) {
            let j = choose|j: int| 0 <= j < rest.len() && (#[trigger] rest[j])[0] == gs[0][0];
            assert(gs[0][0] != gs[j + 1][0]);
        }
    }
}

/// Groups behind groups.
proof fn lemma_more_groups(gs: Seq<Seq<Seq<char>>>, hs: Seq<Seq<Seq<char>>>, k: Seq<char>)
    ensures
        in_line(gs + hs) == in_line(gs) + in_line(hs),
        last_value(gs + hs, k) == (match last_value(hs, k) {
            Some(x) => Some(x),
            None => last_value(gs, k),
        }),
    decreases gs.len(),
{
    if gs.len() == 0 {
        assert(gs + hs =~= hs);
        assert(in_line(gs) + in_line(hs) =~= in_line(hs));
    } else {
        assert((gs + hs).skip(1) =~= gs.skip(1) + hs);
        assert((gs + hs)[0] == gs[0]);
        lemma_more_groups(gs.skip(1), hs, k);
        assert(gs[0] + (in_line(gs.skip(1)) + in_line(hs)) =~= gs[0] + in_line(gs.skip(1))
            + in_line(hs));
    }
}

/// Limits that agree for every keyword are the same.
proof fn lemma_same_limits(l: SearchLimits, m: SearchLimits)
    requires
        forall|k: Seq<char>| #[trigger] is_keyword(k) ==> limit_of(l, k) == limit_of(m, k),
    ensures
        l == m,
{
    reveal(is_keyword);
    reveal(limit_of);
    lemma_keywords();
    assert(is_keyword("depth"@) && is_keyword("movetime"@) && is_keyword("wtime"@));
    assert(is_keyword("btime"@) && is_keyword("winc"@) && is_keyword("binc"@));
    assert(is_keyword("movestogo"@) && is_keyword("nodes"@) && is_keyword("infinite"@));
}

/// The arguments of a `go` command in any order set the same limits: with no keyword
/// twice, each limit is the one that the group with its keyword sets, wherever that
/// group stands, and the other limits are left unset.
pub proof fn law_go_arguments_in_any_order(
    a: Seq<char>,
    b: Seq<char>,
    gs: Seq<Seq<Seq<char>>>,
    hs: Seq<Seq<Seq<char>>>,
)
    requires
        all_groups(gs),
        words(a) == in_line(gs),
        words(b) == in_line(hs),
        gs.to_multiset() == hs.to_multiset(),
        forall|i: int, j: int|
            0 <= i < j < gs.len() ==> (#[trigger] gs[i])[0] != (#[trigger] gs[j])[0],
    ensures
        go_limits(a) == go_limits(b),
        forall|i: int|
            0 <= i < gs.len() ==> limit_of(go_limits(a), (#[trigger] gs[i])[0]) == group_value(
                gs[i],
            ),
        forall|k: Seq<char>| #[trigger]
            is_keyword(k) && !among(gs, k) ==> limit_of(go_limits(a), k) is None,
{
    let l = SearchLimits::unlimited();
    gs.to_multiset_ensures();
    hs.to_multiset_ensures();
    assert forall|x: Seq<Seq<char>>| gs.contains(x) <==> hs.contains(x) by {
        assert(gs.contains(x) <==> gs.to_multiset().count(x) > 0);
        assert(hs.contains(x) <==> hs.to_multiset().count(x) > 0);
    }
    assert(gs.no_duplicates());
    gs.lemma_multiset_has_no_duplicates();
    hs.lemma_multiset_has_no_duplicates_conv();
    assert forall|i: int| 0 <= i < hs.len() implies is_group(#[trigger] hs[i]) && gs.contains(
        hs[i],
    ) by {
        assert(hs.contains(hs[i]));
    }
    assert forall|i: int, j: int| 0 <= i < j < hs.len() implies (#[trigger] hs[i])[0] != (
    #[trigger] hs[j])[0] by {
        let p = choose|p: int| 0 <= p < gs.len() && gs[p] == hs[i];
        let q = choose|q: int| 0 <= q < gs.len() && gs[q] == hs[j];
        assert(gs.contains(hs[i]) && gs.contains(hs[j]));
        assert(hs[i] != hs[j]);
        assert(p < q ==> gs[p][0] != gs[q][0]);
        assert(q < p ==> gs[q][0] != gs[p][0]);
    }
    assert forall|i: int| 0 <= i < gs.len() implies limit_of(go_limits(a), (#[trigger] gs[i])[0])
        == group_value(gs[i]) by {
        lemma_group_keyword(gs[i]);
        lemma_groups_set(gs, l, gs[i][0]);
        lemma_only_value(gs, i);
    }
    assert forall|k: Seq<char>| #[trigger] is_keyword(k) implies limit_of(go_limits(a), k)
        == limit_of(go_limits(b), k) && (!among(gs, k) ==> limit_of(go_limits(a), k) is None) by {
        lemma_groups_set(gs, l, k);
        lemma_groups_set(hs, l, k);
        lemma_last_value(gs, k);
        lemma_last_value(hs, k);
        if among(gs, k) {
            let i = choose|i: int| 0 <= i < gs.len() && (#[trigger] gs[i])[0] == k;
            assert(gs.contains(gs[i]));
            assert(hs.contains(gs[i]));
            let j = choose|j: int| 0 <= j < hs.len() && hs[j] == gs[i];
            lemma_only_value(gs, i);
            lemma_only_value(hs, j);
        } else {
            if among(hs, k) {
                let j = choose|j: int| 0 <= j < hs.len() && (#[trigger] hs[j])[0] == k;
                assert(gs.contains(hs[j]));
                let i = choose|i: int| 0 <= i < gs.len() && gs[i] == hs[j];
                assert(gs[i][0] == k);
            }
            lemma_unlimited(k);
        }
    }
    lemma_same_limits(go_limits(a), go_limits(b));
}

/// Two lists of arguments of a `go` command that have no keyword in common can change
/// places, and each sets its limits as it does alone.
pub proof fn law_go_arguments_change_places(
    a: Seq<char>,
    b: Seq<char>,
    gs: Seq<Seq<Seq<char>>>,
    hs: Seq<Seq<Seq<char>>>,
)
    requires
        all_groups(gs),
        all_groups(hs),
        words(a) == in_line(gs),
        words(b) == in_line(hs),
        forall|k: Seq<char>| !(#[trigger] among(gs, k) && among(hs, k)),
    ensures
        go_limits(a + seq![' '] + b) == go_limits(b + seq![' '] + a),
        forall|k: Seq<char>| #[trigger]
            is_keyword(k) && among(gs, k) ==> limit_of(go_limits(a + seq![' '] + b), k) == limit_of(
                go_limits(a),
                k,
            ),
        forall|k: Seq<char>| #[trigger]
            is_keyword(k) && among(hs, k) ==> limit_of(go_limits(a + seq![' '] + b), k) == limit_of(
                go_limits(b),
                k,
            ),
{
    let l = SearchLimits::unlimited();
    let ab = go_limits(a + seq![' '] + b);
    let ba = go_limits(b + seq![' '] + a);
    text::law_words_of_two_texts(a, b);
    text::law_words_of_two_texts(b, a);
    assert forall|i: int| 0 <= i < (gs + hs).len() implies is_group(#[trigger] (gs + hs)[i]) by {
        if i < gs.len() {
            assert(is_group(gs[i]));
        } else {
            assert(is_group(hs[i - gs.len()]));
        }
    }
    assert forall|i: int| 0 <= i < (hs + gs).len() implies is_group(#[trigger] (hs + gs)[i]) by {
        if i < hs.len() {
            assert(is_group(hs[i]));
        } else {
            assert(is_group(gs[i - hs.len()]));
        }
    }
    assert forall|k: Seq<char>| #[trigger] is_keyword(k) implies limit_of(ab, k) == limit_of(ba, k)
        && (among(gs, k) ==> limit_of(ab, k) == limit_of(go_limits(a), k)) && (among(hs, k)
        ==> limit_of(ab, k) == limit_of(go_limits(b), k)) by {
        lemma_more_groups(gs, hs, k);
        lemma_more_groups(hs, gs, k);
        lemma_groups_set(gs + hs, l, k);
        lemma_groups_set(hs + gs, l, k);
        lemma_groups_set(gs, l, k);
        lemma_groups_set(hs, l, k);
        lemma_last_value(gs, k);
        lemma_last_value(hs, k);
        assert(!(among(gs, k) && among(hs, k)));
    }
    lemma_same_limits(ab, ba);
}

/// A group begins with a keyword.
proof fn lemma_group_keyword(g: Seq<Seq<char>>)
    requires
        is_group(g),
    ensures
        is_keyword(g[0]),
{
    reveal(is_keyword);
}

/// Without arguments no limit is set.
proof fn lemma_unlimited(k: Seq<char>)
    ensures
        limit_of(SearchLimits::unlimited(), k) is None,
{
    reveal(limit_of);
}

fn read_small(w: &Vec<Vec<char>>, i: usize) -> (r: Option<u32>)
    ensures
        r == small(number_at(texts(w@), i as int, u32::MAX as int)),
{
    if i < w.len() {
        assert(texts(w@)[i as int] == w@[i as int]@);
        match text::parse_number(&w[i], u32::MAX as u64) {
            Some(n) => Some(n as u32),
            None => None,
        }
    } else {
        None
    }
}

fn read_large(w: &Vec<Vec<char>>, i: usize) -> (r: Option<u64>)
    ensures
        r == large(number_at(texts(w@), i as int, u64::MAX as int)),
{
    if i < w.len() {
        assert(texts(w@)[i as int] == w@[i as int]@);
        text::parse_number(&w[i], u64::MAX)
    } else {
        None
    }
}

/// Read the arguments of a `go` command.  Unknown words are passed over, and a
/// value that is no number leaves its limit unset.
pub fn parse_go(args: &str) -> (r: SearchLimits)
    ensures
        r == go_limits(args@),
{
    let cs = text::chars_of(args);
    let w = text::split_words(&cs);
    let ghost ws = words(args@);
    let mut limits = SearchLimits::default();
    let mut i: usize = 0;
    while i < w.len()
        invariant
            ws == texts(w@),
            ws == words(args@),
            limits_from(ws, i as int, limits) == limits_from(ws, 0, SearchLimits::unlimited()),
        decreases w@.len() - i,
    {
        assert(ws[i as int] == w@[i as int]@);
        let word = &w[i];
        let next: usize = i + 1;
        let mut step: usize = 2;
        if text::same(word, "depth") {
            limits.depth = read_small(&w, next);
        } else if text::same(word, "movetime") {
            limits.movetime_ms = read_large(&w, next);
        } else if text::same(word, "wtime") {
            limits.wtime = read_large(&w, next);
        } else if text::same(word, "btime") {
            limits.btime = read_large(&w, next);
        } else if text::same(word, "winc") {
            limits.winc = read_large(&w, next);
        } else if text::same(word, "binc") {
            limits.binc = read_large(&w, next);
        } else if text::same(word, "movestogo") {
            limits.movestogo = read_small(&w, next);
        } else if text::same(word, "nodes") {
            limits.nodes = read_large(&w, next);
        } else {
            step = 1;
            if text::same(word, "infinite") {
                limits.infinite = true;
            }
        }
        if step == 2 && next == w.len() {
            // The last word asked for a value that is not there.
            assert(limits_from(ws, i as int + 2, limits) == limits);
            return limits;
        }
        i = i + step;
    }
    limits
}

// ---------------------------------------------------------------------------
// `setoption`.
// ---------------------------------------------------------------------------

/// What a `setoption` command asks for.
pub enum OptionRequest {
    /// Nothing that the engine knows.
    Nothing,
    /// A transposition table of this many megabytes.
    Hash(usize),
    /// Forget everything learned.
    ClearHash,
    /// Load a network from a file.
    EvalFile(String),
    /// Use the default network, or none.
    UseNnue(bool),
}

/// What a `setoption` command asks for, over plain text.
pub enum Wish {
    Nothing,
    Hash(int),
    ClearHash,
    EvalFile(Seq<char>),
    UseNnue(bool),
}

impl View for OptionRequest {
    type V = Wish;

    open spec fn view(&self) -> Wish {
        match *self {
            OptionRequest::Nothing => Wish::Nothing,
            OptionRequest::Hash(mb) => Wish::Hash(mb as int),
            OptionRequest::ClearHash => Wish::ClearHash,
            OptionRequest::EvalFile(path) => Wish::EvalFile(path@),
            OptionRequest::UseNnue(on) => Wish::UseNnue(on),
        }
    }
}

/// What follows the word `name`.
pub open spec fn after_name(args: Seq<char>) -> Option<Seq<char>> {
    if starts_with(args, "name "@) {
        Some(args.skip(5))
    } else if starts_with(trimmed(args), "name"@) {
        Some(trimmed_start(trimmed(args).skip(4)))
    } else {
        None
    }
}

/// The name and the value of an option.
pub open spec fn name_and_value(rest: Seq<char>) -> (Seq<char>, Option<Seq<char>>) {
    match find_from(rest, " value "@, 0) {
        Some(i) => (trimmed(rest.take(i)), Some(trimmed(rest.skip(i + 7)))),
        None => (trimmed(rest), None),
    }
}

/// What an option of a name with a value asks for.
pub open spec fn wish_for(name: Seq<char>, value: Option<Seq<char>>) -> Wish {
    if same_ignoring_case(name, "Hash"@) {
        match value {
            Some(v) => match parse_dec(v, usize::MAX as int) {
                Some(mb) => Wish::Hash(
                    if mb < 1 {
                        1
                    } else if mb > 4096 {
                        4096
                    } else {
                        mb
                    },
                ),
                None => Wish::Nothing,
            },
            None => Wish::Nothing,
        }
    } else if same_ignoring_case(name, "Clear Hash"@) {
        Wish::ClearHash
    } else if same_ignoring_case(name, "EvalFile"@) {
        match value {
            Some(v) => Wish::EvalFile(v),
            None => Wish::Nothing,
        }
    } else if same_ignoring_case(name, "UseNNUE"@) {
        match value {
            Some(v) => Wish::UseNnue(same_ignoring_case(v, "true"@)),
            None => Wish::UseNnue(false),
        }
    } else {
        Wish::Nothing
    }
}

/// What the arguments of a `setoption` command ask for.
pub open spec fn wish_of(args: Seq<char>) -> Wish {
    match after_name(args) {
        Some(rest) => wish_for(name_and_value(rest).0, name_and_value(rest).1),
        None => Wish::Nothing,
    }
}

/// Read the arguments of a `setoption` command.
pub fn parse_setoption(args: &str) -> (r: OptionRequest)
    ensures
        r@ == wish_of(args@),
{
    proof {
        reveal_strlit("name ");
        reveal_strlit("name");
        reveal_strlit(" value ");
    }
    let cs = text::chars_of(args);
    let rest: Vec<char> = if text::has_prefix(&cs, "name ") {
        let r = text::slice(&cs, 5, cs.len());
        assert(r@ =~= args@.skip(5));
        r
    } else {
        let t = text::trim(&cs);
        if !text::has_prefix(&t, "name") {
            return OptionRequest::Nothing;
        }
        let u = text::slice(&t, 4, t.len());
        assert(u@ =~= t@.skip(4));
        text::trim_start(&u)
    };
    assert(after_name(args@) == Some(rest@));
    let (name, value): (Vec<char>, Option<Vec<char>>) = match text::find(&rest, " value ") {
        Some(i) => {
            let end: usize = rest.len();
            assert(i + 7 <= end);
            let a = text::slice(&rest, 0, i);
            let b = text::slice(&rest, i + 7, end);
            assert(a@ =~= rest@.take(i as int));
            assert(b@ =~= rest@.skip(i as int + 7));
            (text::trim(&a), Some(text::trim(&b)))
        },
        None => (text::trim(&rest), None),
    };
    read_option(&name, &value)
}

/// What an option of a name with a value asks for.
fn read_option(name: &Vec<char>, value: &Option<Vec<char>>) -> (r: OptionRequest)
    ensures
        r@ == wish_for(
            name@,
            match *value {
                Some(v) => Some(v@),
                None => None,
            },
        ),
{
    if text::same_word(name, "Hash") {
        if let Some(v) = value {
            if let Some(mb) = text::parse_number(v, usize::MAX as u64) {
                let size: usize = mb as usize;
                return OptionRequest::Hash(
                    if size < 1 {
                        1
                    } else if size > 4096 {
                        4096
                    } else {
                        size
                    },
                );
            }
        }
        OptionRequest::Nothing
    } else if text::same_word(name, "Clear Hash") {
        OptionRequest::ClearHash
    } else if text::same_word(name, "EvalFile") {
        match value {
            Some(v) => OptionRequest::EvalFile(text::to_text(v)),
            None => OptionRequest::Nothing,
        }
    } else if text::same_word(name, "UseNNUE") {
        match value {
            Some(v) => OptionRequest::UseNnue(text::same_word(v, "true")),
            None => OptionRequest::UseNnue(false),
        }
    } else {
        OptionRequest::Nothing
    }
}

// ---------------------------------------------------------------------------
// Commands.
// ---------------------------------------------------------------------------

/// What a line of input asks the engine to do.
pub enum Command {
    /// Ignore the line.
    Ignore,
    /// Say who the engine is and which options it has.
    Identify,
    Ready,
    NewGame,
    SetOption(OptionRequest),
    SetPosition(Position),
    Go(SearchLimits),
    Stop,
    Quit,
    /// Show the position.
    Show,
    /// Evaluate the position.
    Evaluate,
    /// Count positions to a depth, if one is given.
    Perft(Option<u32>),
}

/// What a line of input asks for, over plain values.
pub enum Order {
    Ignore,
    Identify,
    Ready,
    NewGame,
    SetOption(Wish),
    SetPosition(PosView),
    Go(SearchLimits),
    Stop,
    Quit,
    Show,
    Evaluate,
    Perft(Option<u32>),
}

impl View for Command {
    type V = Order;

    open spec fn view(&self) -> Order {
        match *self {
            Command::Ignore => Order::Ignore,
            Command::Identify => Order::Identify,
            Command::Ready => Order::Ready,
            Command::NewGame => Order::NewGame,
            Command::SetOption(o) => Order::SetOption(o@),
            Command::SetPosition(p) => Order::SetPosition(p@),
            Command::Go(l) => Order::Go(l),
            Command::Stop => Order::Stop,
            Command::Quit => Order::Quit,
            Command::Show => Order::Show,
            Command::Evaluate => Order::Evaluate,
            Command::Perft(d) => Order::Perft(d),
        }
    }
}

/// The first word of a line.
pub open spec fn head(line: Seq<char>) -> Seq<char> {
    words(line)[0]
}

/// What follows the first word of a line and the separators after it.
pub open spec fn tail(line: Seq<char>) -> Seq<char> {
    trimmed_start(trimmed_start(line).skip(head(line).len() as int))
}

/// What a line of input asks for.
pub open spec fn order_of(line: Seq<char>) -> Order {
    if words(line).len() == 0 {
        Order::Ignore
    } else if head(line) == "uci"@ {
        Order::Identify
    } else if head(line) == "isready"@ {
        Order::Ready
    } else if head(line) == "ucinewgame"@ {
        Order::NewGame
    } else if head(line) == "setoption"@ {
        Order::SetOption(wish_of(tail(line)))
    } else if head(line) == "position"@ {
        Order::SetPosition(position_of(words(tail(line))))
    } else if head(line) == "go"@ {
        Order::Go(limits_from(words(tail(line)), 0, SearchLimits::unlimited()))
    } else if head(line) == "stop"@ {
        Order::Stop
    } else if head(line) == "quit"@ {
        Order::Quit
    } else if head(line) == "d"@ {
        Order::Show
    } else if head(line) == "eval"@ {
        Order::Evaluate
    } else if head(line) == "perft"@ {
        Order::Perft(small(number_at(words(tail(line)), 0, u32::MAX as int)))
    } else {
        Order::Ignore
    }
}

/// The first word starts right after the separators at the start of the line.
proof fn lemma_head(s: Seq<char>, i: int)
    requires
        0 <= i <= s.len(),
        text::words_from(s, i).len() > 0,
    ensures
        i <= text::skip_spaces(s, i) < s.len(),
        text::words_from(s, i)[0] == s.subrange(
            text::skip_spaces(s, i),
            text::word_end(s, text::skip_spaces(s, i)),
        ),
        text::skip_spaces(s, i) + text::words_from(s, i)[0].len() <= s.len(),
    decreases s.len() - i,
{
    if i < s.len() {
        if text::is_space(s[i]) {
            lemma_head(s, i + 1);
        } else {
            text::lemma_word_end(s, i);
        }
    }
}

/// The arguments of a line are its words but for the first.
pub proof fn lemma_tail_words(line: Seq<char>)
    requires
        words(line).len() > 0,
    ensures
        words(tail(line)) == words(line).skip(1),
{
    let t = trimmed_start(line);
    text::lemma_words_trimmed_start(line, 0);
    lemma_head(line, 0);
    let e = text::word_end(t, 0);
    let k = text::skip_spaces(line, 0);
    text::lemma_words_shift(line, k, k);
    text::lemma_word_end(t, 0);
    assert(t[0] == line[k]);
    let u = t.skip(e);
    text::lemma_words_shift(t, e, e);
    assert(words(t) == seq![t.subrange(0, e)] + text::words_from(t, e));
    assert(head(line) == t.subrange(0, e));
    text::lemma_words_trimmed_start(u, 0);
    assert(words(line).skip(1) =~= words(u));
}

/// Understand a line of input.
pub fn parse_command(line: &str) -> (r: Command)
    ensures
        r@ == order_of(line@),
        r is SetPosition ==> r->SetPosition_0.wf(),
{
    let cs = text::chars_of(line);
    let w = text::split_words(&cs);
    let ghost ws = words(line@);
    assert(ws.len() == w@.len());
    if w.len() == 0 {
        return Command::Ignore;
    }
    assert(ws[0] == w@[0]@);
    let word = &w[0];
    let rest = text::trim_start(&cs);
    proof {
        lemma_head(line@, 0);
    }
    let after = text::slice(&rest, word.len(), rest.len());
    assert(after@ =~= rest@.skip(word@.len() as int));
    let args_chars = text::trim_start(&after);
    let args = text::to_text(&args_chars);
    assert(args@ == tail(line@));
    if text::same(word, "uci") {
        Command::Identify
    } else if text::same(word, "isready") {
        Command::Ready
    } else if text::same(word, "ucinewgame") {
        Command::NewGame
    } else if text::same(word, "setoption") {
        Command::SetOption(parse_setoption(args.as_str()))
    } else if text::same(word, "position") {
        Command::SetPosition(parse_position(args.as_str()))
    } else if text::same(word, "go") {
        Command::Go(parse_go(args.as_str()))
    } else if text::same(word, "stop") {
        Command::Stop
    } else if text::same(word, "quit") {
        Command::Quit
    } else if text::same(word, "d") {
        Command::Show
    } else if text::same(word, "eval") {
        Command::Evaluate
    } else if text::same(word, "perft") {
        let parts = text::split_words(&args_chars);
        Command::Perft(read_small(&parts, 0))
    } else {
        Command::Ignore
    }
}

/// The line that reports the chosen move: the null move if there is none.
pub open spec fn bestmove_text(m: Move) -> Seq<char> {
    if m == Move::null() {
        "bestmove 0000"@
    } else {
        "bestmove "@ + m.uci()
    }
}

/// The line that reports the chosen move.
pub fn format_bestmove(m: Move) -> (r: String)
    requires
        m.wf(),
    ensures
        r@ == bestmove_text(m),
{
    let mut out = String::new();
    if m.is_none() {
        text::push_str(&mut out, "bestmove 0000");
        assert(out@ =~= "bestmove 0000"@);
    } else {
        text::push_str(&mut out, "bestmove ");
        text::push_str(&mut out, m.to_string().as_str());
        assert(out@ =~= "bestmove "@ + m.uci());
    }
    out
}

impl Command {
    /// The command has to wait until no search is running.
    pub open spec fn interrupts(self) -> bool {
        match self {
            Command::NewGame => true,
            Command::SetOption(_) => true,
            Command::SetPosition(_) => true,
            Command::Go(_) => true,
            Command::Quit => true,
            Command::Evaluate => true,
            Command::Perft(_) => true,
            _ => false,
        }
    }

    /// Must a running search end before the command is carried out?
    pub fn needs_idle(&self) -> (r: bool)
        ensures
            r == self.interrupts(),
    {
        match self {
            Command::NewGame => true,
            Command::SetOption(_) => true,
            Command::SetPosition(_) => true,
            Command::Go(_) => true,
            Command::Quit => true,
            Command::Evaluate => true,
            Command::Perft(_) => true,
            _ => false,
        }
    }
}

/// An engine that is thinking still says that it is ready, and can be stopped.
pub proof fn law_thinking_engines_answer(c: Command)
    requires
        c is Ready || c is Stop || c is Identify,
    ensures
        !c.interrupts(),
{
}

/// Who the engine is and which options it has.
pub open spec fn id_text() -> Seq<char> {
    "id name Mythos 0.1.0\nid author Mythos contributors\noption name Hash type spin default "@
        + text::dec(DEFAULT_HASH_MB as nat)
        + " min 1 max 4096\noption name Clear Hash type button\noption name UseNNUE type check default true\noption name EvalFile type string default <empty>\nuciok\n"@
}

/// Who the engine is and which options it has.
pub fn format_id() -> (r: String)
    ensures
        r@ == id_text(),
{
    let mut out = text::copy(
        "id name Mythos 0.1.0\nid author Mythos contributors\noption name Hash type spin default ",
    );
    text::push_u64(&mut out, DEFAULT_HASH_MB as u64);
    text::push_str(
        &mut out,
        " min 1 max 4096\noption name Clear Hash type button\noption name UseNNUE type check default true\noption name EvalFile type string default <empty>\nuciok\n",
    );
    out
}

// ---------------------------------------------------------------------------
// What holds of every command.
// ---------------------------------------------------------------------------

/// Moves that are legal one after the other are all played.
proof fn lemma_played_line(v: PosView, w: Seq<Seq<char>>, k: int, names: Seq<Seq<char>>, j: int)
    requires
        0 <= k <= w.len(),
        w.skip(k) == names,
        line(v, names) is Some,
        0 <= j <= names.len(),
    ensures
        line(v, names.take(j)) is Some,
        played(v, w, k) == played(line(v, names.take(j))->0, w, k + j),
    decreases j,
{
    if line(v, names.take(j)) is None {
        crate::referee::lemma_line_prefix(v, names, j);
    }
    if j > 0 {
        lemma_played_line(v, w, k, names, j - 1);
        assert(names.take(j).drop_last() =~= names.take(j - 1));
        assert(names.take(j).last() == names[j - 1]);
        assert(w[k + j - 1] == w.skip(k)[j - 1]);
    } else {
        assert(names.take(0) =~= Seq::<Seq<char>>::empty());
    }
}

/// The first word `moves` is found.
proof fn lemma_moves_found(w: Seq<Seq<char>>, i: int, e: int)
    requires
        0 <= i <= e <= w.len(),
        forall|j: int| i <= j < e ==> w[j] != "moves"@,
        e < w.len() ==> w[e] == "moves"@,
    ensures
        moves_word(w, i) == e,
    decreases e - i,
{
    if i < e {
        lemma_moves_found(w, i + 1, e);
    }
}

/// A record and moves that are legal one after the other set up the position after these
/// moves; so do moves from the start of a game.
pub proof fn law_positions_are_set_up(
    fields: Seq<Seq<char>>,
    v: PosView,
    names: Seq<Seq<char>>,
    any: Seq<char>,
)
    requires
        fen_fields(fields) == Ok::<PosView, crate::fen::FenError>(v),
        forall|i: int| 0 <= i < fields.len() ==> fields[i] != "moves"@,
        any != "fen"@,
    ensures
        line(v, names) is Some ==> position_of(
            seq!["fen"@] + fields + seq!["moves"@] + names,
        ) == line(v, names)->0,
        position_of(seq!["fen"@] + fields) == v,
        line(start_view(), names) is Some ==> position_of(seq![any] + seq!["moves"@] + names)
            == line(start_view(), names)->0,
        position_of(seq![any]) == start_view(),
{
    let n = fields.len() as int;
    let a = seq!["fen"@] + fields + seq!["moves"@] + names;
    assert forall|j: int| 1 <= j < n + 1 implies a[j] != "moves"@ by {
        assert(a[j] == fields[j - 1]);
    }
    assert(a[n + 1] == "moves"@);
    lemma_moves_found(a, 1, n + 1);
    assert(a.subrange(1, n + 1) =~= fields);
    assert(a.skip(n + 2) =~= names);
    assert(names.take(names.len() as int) =~= names);
    if line(v, names) is Some {
        lemma_played_line(v, a, n + 2, names, names.len() as int);
    }
    let b = seq!["fen"@] + fields;
    assert forall|j: int| 1 <= j < n + 1 implies b[j] != "moves"@ by {
        assert(b[j] == fields[j - 1]);
    }
    lemma_moves_found(b, 1, n + 1);
    assert(b.subrange(1, n + 1) =~= fields);
    let c = seq![any] + seq!["moves"@] + names;
    assert(c[0] == any && c[1] == "moves"@);
    assert(c.skip(2) =~= names);
    if line(start_view(), names) is Some {
        lemma_played_line(start_view(), c, 2, names, names.len() as int);
    }
}

/// A record that is no position counts as the start of a game.
pub proof fn law_bad_records_start_a_game(fields: Seq<Seq<char>>)
    requires
        fen_fields(fields) is Err,
        forall|i: int| 0 <= i < fields.len() ==> fields[i] != "moves"@,
    ensures
        position_of(seq!["fen"@] + fields) == start_view(),
        position_of(Seq::<Seq<char>>::empty()) == start_view(),
{
    let n = fields.len() as int;
    let b = seq!["fen"@] + fields;
    assert forall|j: int| 1 <= j < n + 1 implies b[j] != "moves"@ by {
        assert(b[j] == fields[j - 1]);
    }
    lemma_moves_found(b, 1, n + 1);
    assert(b.subrange(1, n + 1) =~= fields);
}

/// The first word that names no legal move ends the moves: it and what follows it change
/// nothing.
pub proof fn law_illegal_moves_are_not_played(
    names: Seq<Seq<char>>,
    bad: Seq<char>,
    rest: Seq<Seq<char>>,
)
    requires
        line(start_view(), names) is Some,
        forall|m: Move| legal(line(start_view(), names)->0, m) ==> #[trigger] m.uci() != bad,
    ensures
        position_of(seq!["startpos"@, "moves"@] + names + seq![bad] + rest) == line(
            start_view(),
            names,
        )->0,
{
    reveal_strlit("startpos");
    reveal_strlit("fen");
    let w = seq!["startpos"@, "moves"@] + names + seq![bad] + rest;
    let n = names.len() as int;
    assert(w[0] == "startpos"@ && w[1] == "moves"@ && w[2 + n] == bad);
    assert("startpos"@.len() == 8 && "fen"@.len() == 3);
    lemma_played_names(start_view(), w, names, n);
    let v = line(start_view(), names)->0;
    lemma_named_from(v, bad, 0);
}

/// Moves at the start of words are played.
proof fn lemma_played_names(v: PosView, w: Seq<Seq<char>>, names: Seq<Seq<char>>, j: int)
    requires
        0 <= j <= names.len(),
        2 + names.len() <= w.len(),
        forall|i: int| 0 <= i < names.len() ==> w[i + 2] == #[trigger] names[i],
        line(v, names) is Some,
    ensures
        line(v, names.take(j)) is Some,
        played(v, w, 2) == played(line(v, names.take(j))->0, w, 2 + j),
        j == names.len() ==> names.take(j) == names,
    decreases j,
{
    assert(names.take(names.len() as int) =~= names);
    if line(v, names.take(j)) is None {
        crate::referee::lemma_line_prefix(v, names, j);
    }
    if j > 0 {
        lemma_played_names(v, w, names, j - 1);
        assert(names.take(j).drop_last() =~= names.take(j - 1));
        assert(names.take(j).last() == names[j - 1]);
        assert(w[j - 1 + 2] == names[j - 1]);
    } else {
        assert(names.take(0) =~= Seq::<Seq<char>>::empty());
    }
}

/// The first word of a line is the command, and the words after it are its arguments.
#[verifier::rlimit(30)]
pub proof fn law_commands_are_understood(s: Seq<char>)
    requires
        words(s).len() > 0,
    ensures
        words(s)[0] == "uci"@ ==> order_of(s) == Order::Identify,
        words(s)[0] == "isready"@ ==> order_of(s) == Order::Ready,
        words(s)[0] == "ucinewgame"@ ==> order_of(s) == Order::NewGame,
        words(s)[0] == "position"@ ==> order_of(s) == Order::SetPosition(
            position_of(words(s).skip(1)),
        ),
        words(s)[0] == "go"@ ==> order_of(s) == Order::Go(
            limits_from(words(s).skip(1), 0, SearchLimits::unlimited()),
        ),
        words(s)[0] == "setoption"@ ==> order_of(s) is SetOption,
        words(s)[0] == "stop"@ ==> order_of(s) == Order::Stop,
        words(s)[0] == "quit"@ ==> order_of(s) == Order::Quit,
        words(s)[0] == "d"@ ==> order_of(s) == Order::Show,
        words(s)[0] == "eval"@ ==> order_of(s) == Order::Evaluate,
        words(s)[0] == "perft"@ && words(s).len() == 1 ==> order_of(s) == Order::Perft(None),
        words(s)[0] == "perft"@ && words(s).len() > 1 && parse_dec(
            words(s)[1],
            u32::MAX as int,
        ) is Some ==> order_of(s) == Order::Perft(
            Some(parse_dec(words(s)[1], u32::MAX as int)->0 as u32),
        ),
{
    reveal_strlit("uci");
    reveal_strlit("isready");
    reveal_strlit("ucinewgame");
    reveal_strlit("setoption");
    reveal_strlit("position");
    reveal_strlit("go");
    reveal_strlit("stop");
    reveal_strlit("quit");
    reveal_strlit("d");
    reveal_strlit("eval");
    reveal_strlit("perft");
    assert("uci"@.len() == 3 && "isready"@.len() == 7 && "ucinewgame"@.len() == 10);
    assert("setoption"@.len() == 9 && "position"@.len() == 8 && "go"@.len() == 2);
    assert("stop"@.len() == 4 && "quit"@.len() == 4 && "d"@.len() == 1 && "eval"@.len() == 4);
    assert("perft"@.len() == 5);
    assert("stop"@[0] == 's' && "quit"@[0] == 'q' && "eval"@[0] == 'e');
    lemma_tail_words(s);
    if words(s).len() > 1 {
        assert(words(s).skip(1)[0] == words(s)[1]);
    }
}

/// An option is known by its name, however it is written, and its value: the size of the
/// table within its bounds, the file as it stands, and a network for `true` alone.
pub proof fn law_options_are_understood(name: Seq<char>, value: Seq<char>, mb: u32)
    ensures
        same_ignoring_case(name, "hash"@) && 1 <= mb <= 4096 ==> wish_for(
            name,
            Some(text::dec(mb as nat)),
        ) == Wish::Hash(mb as int),
        same_ignoring_case(name, "hash"@) && mb > 4096 ==> wish_for(
            name,
            Some(text::dec(mb as nat)),
        ) == Wish::Hash(4096),
        same_ignoring_case(name, "hash"@) && mb == 0 ==> wish_for(
            name,
            Some(text::dec(mb as nat)),
        ) == Wish::Hash(1),
        same_ignoring_case(name, "clear hash"@) ==> wish_for(name, None) == Wish::ClearHash,
        same_ignoring_case(name, "evalfile"@) ==> wish_for(name, Some(value)) == Wish::EvalFile(
            value,
        ),
        same_ignoring_case(name, "usennue"@) ==> wish_for(name, Some(value)) == Wish::UseNnue(
            same_ignoring_case(value, "true"@),
        ),
{
    reveal_strlit("hash");
    reveal_strlit("clear hash");
    reveal_strlit("evalfile");
    reveal_strlit("usennue");
    reveal_strlit("Hash");
    reveal_strlit("Clear Hash");
    reveal_strlit("EvalFile");
    reveal_strlit("UseNNUE");
    text::law_decimal_round_trip(mb as nat, usize::MAX as int);
    assert(same_ignoring_case("Hash"@, "hash"@));
    assert(same_ignoring_case("Clear Hash"@, "clear hash"@));
    assert(same_ignoring_case("EvalFile"@, "evalfile"@));
    assert(same_ignoring_case("UseNNUE"@, "usennue"@));
}

/// A name without spaces and a value are told apart.
pub proof fn law_names_and_values_are_told_apart(name: Seq<char>, value: Seq<char>)
    requires
        forall|i: int| 0 <= i < name.len() ==> name[i] != ' ',
    ensures
        name_and_value(name + " value "@ + value) == (trimmed(name), Some(trimmed(value))),
        after_name("name "@ + name + " value "@ + value) == Some(name + " value "@ + value),
{
    reveal_strlit(" value ");
    reveal_strlit("name ");
    let s = name + " value "@ + value;
    lemma_first_space(name, value, 0);
    assert(s.take(name.len() as int) =~= name);
    assert(s.skip(name.len() as int + 7) =~= value);
    let t = "name "@ + name + " value "@ + value;
    assert(t.take(5) =~= "name "@);
    assert(t.skip(5) =~= s);
}

proof fn lemma_first_space(name: Seq<char>, value: Seq<char>, i: int)
    requires
        forall|j: int| 0 <= j < name.len() ==> name[j] != ' ',
        0 <= i <= name.len(),
    ensures
        find_from(name + " value "@ + value, " value "@, i) == Some(name.len() as int),
    decreases name.len() - i,
{
    reveal_strlit(" value ");
    let s = name + " value "@ + value;
    let p = " value "@;
    if i < name.len() {
        assert(s.subrange(i, i + 7)[0] == name[i]);
        assert(p[0] == ' ');
        lemma_first_space(name, value, i + 1);
    } else {
        assert(s.subrange(i, i + 7) =~= p);
    }
}

} // verus!
