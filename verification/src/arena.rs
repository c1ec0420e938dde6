//! Matches between two engines: how they are set up, what the engines are told,
//! and how the games are counted.

use vstd::prelude::*;

use crate::cli;
use crate::clock::SearchLimits;
use crate::fen::start_view;
use crate::referee;
use crate::referee::{GameResult, Winner, line};
use crate::rules::PosView;
use crate::text;
use crate::text::{
    dec, is_space, is_word, joined, starts_with, strings, trimmed, trimmed_start, words,
};
use crate::types::{Move, square_name};
use crate::uci;

verus! {

// ---------------------------------------------------------------------------
// Settings.
// ---------------------------------------------------------------------------

/// The settings of a match.
pub struct Config {
    pub engine_a: String,
    pub engine_b: String,
    pub games: usize,
    /// Milliseconds for each move, unless there is a depth.
    pub movetime: u64,
    pub depth: Option<u32>,
    /// The number of plies after which a game is a draw.
    pub maxplies: usize,
}

/// What has been read of the arguments.
pub struct Settings {
    pub positional: Seq<Seq<char>>,
    pub games: int,
    pub movetime: int,
    pub depth: Option<int>,
    pub maxplies: int,
}

/// The settings before anything has been read.
pub open spec fn default_settings() -> Settings {
    Settings { positional: seq![], games: 40, movetime: 100, depth: None, maxplies: 300 }
}

/// The settings after reading the arguments from place `i` on, or the complaint.
pub open spec fn settings_from(args: Seq<Seq<char>>, i: int, st: Settings) -> Result<
    Settings,
    Seq<char>,
>
    decreases args.len() - i + 2,
{
    if i < 0 || i >= args.len() {
        Ok(st)
    } else if args[i] == "--games"@ {
        match cli::number_at(args, i + 1, "--games"@, usize::MAX as int) {
            Ok(n) => settings_from(args, i + 2, Settings { games: n, ..st }),
            Err(e) => Err(e),
        }
    } else if args[i] == "--movetime"@ {
        match cli::number_at(args, i + 1, "--movetime"@, u64::MAX as int) {
            Ok(n) => settings_from(args, i + 2, Settings { movetime: n, ..st }),
            Err(e) => Err(e),
        }
    } else if args[i] == "--depth"@ {
        match cli::number_at(args, i + 1, "--depth"@, u32::MAX as int) {
            Ok(n) => settings_from(args, i + 2, Settings { depth: Some(n), ..st }),
            Err(e) => Err(e),
        }
    } else if args[i] == "--maxplies"@ {
        match cli::number_at(args, i + 1, "--maxplies"@, usize::MAX as int) {
            Ok(n) => settings_from(args, i + 2, Settings { maxplies: n, ..st }),
            Err(e) => Err(e),
        }
    } else {
        settings_from(args, i + 1, Settings { positional: st.positional.push(args[i]), ..st })
    }
}

/// How the program is to be called.
pub open spec fn usage() -> Seq<char> {
    "usage: selfplay <engine_a.exe> <engine_b.exe> [--games N] [--movetime MS] [--depth D] [--maxplies P]"@
}

/// More arguments behind arguments that were understood.
#[verifier::rlimit(30)]
proof fn lemma_settings_append(
    args: Seq<Seq<char>>,
    more: Seq<Seq<char>>,
    i: int,
    st: Settings,
)
    requires
        0 <= i <= args.len(),
        settings_from(args, i, st) is Ok,
    ensures
        settings_from(args + more, i, st) == settings_from(
            args + more,
            args.len() as int,
            settings_from(args, i, st)->Ok_0,
        ),
    decreases args.len() - i,
{
    let all = args + more;
    if i < args.len() {
        assert(all[i] == args[i]);
        let flag = args[i] == "--games"@ || args[i] == "--movetime"@ || args[i] == "--depth"@
            || args[i] == "--maxplies"@;
        if flag {
            assert(i + 1 < args.len());
            assert(all[i + 1] == args[i + 1]);
            if args[i] == "--games"@ {
                let n = cli::number_at(args, i + 1, "--games"@, usize::MAX as int)->Ok_0;
                lemma_settings_append(args, more, i + 2, Settings { games: n, ..st });
            } else if args[i] == "--movetime"@ {
                let n = cli::number_at(args, i + 1, "--movetime"@, u64::MAX as int)->Ok_0;
                lemma_settings_append(args, more, i + 2, Settings { movetime: n, ..st });
            } else if args[i] == "--depth"@ {
                let n = cli::number_at(args, i + 1, "--depth"@, u32::MAX as int)->Ok_0;
                lemma_settings_append(args, more, i + 2, Settings { depth: Some(n), ..st });
            } else {
                let n = cli::number_at(args, i + 1, "--maxplies"@, usize::MAX as int)->Ok_0;
                lemma_settings_append(args, more, i + 2, Settings { maxplies: n, ..st });
            }
        } else {
            lemma_settings_append(
                args,
                more,
                i + 1,
                Settings { positional: st.positional.push(args[i]), ..st },
            );
        }
    }
}

/// A flag with a number behind other arguments sets its setting to that number and leaves
/// the others; a flag without a number is refused.
pub proof fn law_flags_set_their_settings(args: Seq<Seq<char>>, st: Settings, n: u32)
    requires
        settings_from(args, 0, default_settings()) == Ok::<Settings, Seq<char>>(st),
    ensures
        settings_from(args + seq!["--games"@, dec(n as nat)], 0, default_settings()) == Ok::<
            Settings,
            Seq<char>,
        >(Settings { games: n as int, ..st }),
        settings_from(args + seq!["--movetime"@, dec(n as nat)], 0, default_settings()) == Ok::<
            Settings,
            Seq<char>,
        >(Settings { movetime: n as int, ..st }),
        settings_from(args + seq!["--depth"@, dec(n as nat)], 0, default_settings()) == Ok::<
            Settings,
            Seq<char>,
        >(Settings { depth: Some(n as int), ..st }),
        settings_from(args + seq!["--maxplies"@, dec(n as nat)], 0, default_settings()) == Ok::<
            Settings,
            Seq<char>,
        >(Settings { maxplies: n as int, ..st }),
        settings_from(args + seq!["--games"@], 0, default_settings()) is Err,
        default_settings() == (Settings {
            positional: seq![],
            games: 40,
            movetime: 100,
            depth: None,
            maxplies: 300,
        }),
{
    reveal_strlit("--games");
    reveal_strlit("--movetime");
    reveal_strlit("--depth");
    reveal_strlit("--maxplies");
    assert("--games"@[2] == 'g' && "--movetime"@[3] == 'o' && "--movetime"@[2] == 'm');
    assert("--depth"@[2] == 'd' && "--maxplies"@[2] == 'm' && "--maxplies"@[3] == 'a');
    text::law_decimal_round_trip(n as nat, u32::MAX as int);
    text::law_decimal_round_trip(n as nat, usize::MAX as int);
    text::law_decimal_round_trip(n as nat, u64::MAX as int);
    let k = args.len() as int;
    lemma_settings_append(args, seq!["--games"@, dec(n as nat)], 0, default_settings());
    lemma_settings_append(args, seq!["--movetime"@, dec(n as nat)], 0, default_settings());
    lemma_settings_append(args, seq!["--depth"@, dec(n as nat)], 0, default_settings());
    lemma_settings_append(args, seq!["--maxplies"@, dec(n as nat)], 0, default_settings());
    lemma_settings_append(args, seq!["--games"@], 0, default_settings());
    let a = args + seq!["--games"@, dec(n as nat)];
    assert(a[k] == "--games"@ && a[k + 1] == dec(n as nat));
    let b = args + seq!["--movetime"@, dec(n as nat)];
    assert(b[k] == "--movetime"@ && b[k + 1] == dec(n as nat));
    let c = args + seq!["--depth"@, dec(n as nat)];
    assert(c[k] == "--depth"@ && c[k + 1] == dec(n as nat));
    let d = args + seq!["--maxplies"@, dec(n as nat)];
    assert(d[k] == "--maxplies"@ && d[k + 1] == dec(n as nat));
    let e = args + seq!["--games"@];
    assert(e[k] == "--games"@);
    reveal_with_fuel(settings_from, 2);
}

/// The settings that arguments ask for, or the complaint.
pub open spec fn settings_of(args: Seq<Seq<char>>) -> Result<Settings, Seq<char>> {
    match settings_from(args, 0, default_settings()) {
        Ok(st) => if st.positional.len() < 2 {
            Err(usage())
        } else {
            Ok(st)
        },
        Err(e) => Err(e),
    }
}

impl Config {
    /// The configuration holds the given settings.
    pub open spec fn follows(&self, st: Settings) -> bool {
        &&& self.engine_a@ == st.positional[0]
        &&& self.engine_b@ == st.positional[1]
        &&& self.games == st.games
        &&& self.movetime == st.movetime
        &&& self.maxplies == st.maxplies
        &&& match self.depth {
            Some(d) => st.depth == Some(d as int),
            None => st.depth is None,
        }
    }
}

/// Read the arguments of a match: two engines and perhaps flags.
pub fn parse_args(args: &Vec<String>) -> (r: Result<Config, String>)
    ensures
        match r {
            Ok(c) => match settings_of(strings(args@)) {
                Ok(st) => c.follows(st),
                Err(_) => false,
            },
            Err(e) => settings_of(strings(args@)) == Err::<Settings, Seq<char>>(e@),
        },
{
    let ghost a = strings(args@);
    let mut positional: Vec<String> = Vec::new();
    let mut games: usize = 40;
    let mut movetime: u64 = 100;
    let mut depth: Option<u32> = None;
    let mut maxplies: usize = 300;
    let ghost mut st = default_settings();
    let mut i: usize = 0;
    assert(strings(positional@) =~= st.positional);
    while i < args.len()
        invariant
            a == strings(args@),
            i <= args@.len(),
            settings_from(a, i as int, st) == settings_from(a, 0, default_settings()),
            strings(positional@) == st.positional,
            games == st.games,
            movetime == st.movetime,
            maxplies == st.maxplies,
            match depth {
                Some(d) => st.depth == Some(d as int),
                None => st.depth is None,
            },
        decreases args@.len() - i,
    {
        if cli::is_flag(args, i, "--games") {
            match cli::read_number(args, i + 1, "--games", usize::MAX as u64) {
                Ok(n) => {
                    games = n as usize;
                    proof {
                        st = Settings { games: n as int, ..st };
                    }
                },
                Err(e) => {
                    return Err(e);
                },
            }
            i = i + 2;
        } else if cli::is_flag(args, i, "--movetime") {
            match cli::read_number(args, i + 1, "--movetime", u64::MAX) {
                Ok(n) => {
                    movetime = n;
                    proof {
                        st = Settings { movetime: n as int, ..st };
                    }
                },
                Err(e) => {
                    return Err(e);
                },
            }
            i = i + 2;
        } else if cli::is_flag(args, i, "--depth") {
            match cli::read_number(args, i + 1, "--depth", u32::MAX as u64) {
                Ok(n) => {
                    depth = Some(n as u32);
                    proof {
                        st = Settings { depth: Some(n as int), ..st };
                    }
                },
                Err(e) => {
                    return Err(e);
                },
            }
            i = i + 2;
        } else if cli::is_flag(args, i, "--maxplies") {
            match cli::read_number(args, i + 1, "--maxplies", usize::MAX as u64) {
                Ok(n) => {
                    maxplies = n as usize;
                    proof {
                        st = Settings { maxplies: n as int, ..st };
                    }
                },
                Err(e) => {
                    return Err(e);
                },
            }
            i = i + 2;
        } else {
            let word = text::copy(args[i].as_str());
            let ghost before = positional@;
            positional.push(word);
            proof {
                assert(a[i as int] == word@);
                assert(strings(positional@) =~= strings(before).push(word@));
                st = Settings { positional: st.positional.push(word@), ..st };
            }
            i = i + 1;
        }
    }
    if positional.len() < 2 {
        return Err(
            text::copy(
                "usage: selfplay <engine_a.exe> <engine_b.exe> [--games N] [--movetime MS] [--depth D] [--maxplies P]",
            ),
        );
    }
    proof {
        assert(strings(positional@)[0] == positional@[0]@);
        assert(strings(positional@)[1] == positional@[1]@);
    }
    let engine_a = text::copy(positional[0].as_str());
    let engine_b = text::copy(positional[1].as_str());
    Ok(Config { engine_a, engine_b, games, movetime, depth, maxplies })
}

// ---------------------------------------------------------------------------
// Talking to an engine.
// ---------------------------------------------------------------------------

/// The command that sets up the position after named moves.
pub open spec fn position_text(names: Seq<Seq<char>>) -> Seq<char> {
    if names.len() == 0 {
        "position startpos"@
    } else {
        "position startpos moves "@ + joined(names, ' ', names.len() as int)
    }
}

/// The command that sets up the position after the moves of a game.
pub fn position_command(moves: &Vec<String>) -> (r: String)
    ensures
        r@ == position_text(strings(moves@)),
{
    if moves.len() == 0 {
        return text::copy("position startpos");
    }
    let mut out = text::copy("position startpos moves ");
    text::push_joined(&mut out, moves, ' ');
    out
}

/// The command that asks for a move.
pub open spec fn go_text(movetime: int, depth: Option<u32>) -> Seq<char> {
    match depth {
        Some(d) => "go depth "@ + dec(d as nat),
        None => "go movetime "@ + dec(movetime as nat),
    }
}

/// The command that asks for a move: to a depth if there is one, else within a
/// time.
pub fn go_command(movetime: u64, depth: Option<u32>) -> (r: String)
    ensures
        r@ == go_text(movetime as int, depth),
{
    match depth {
        Some(d) => {
            let mut out = text::copy("go depth ");
            text::push_u64(&mut out, d as u64);
            out
        },
        None => {
            let mut out = text::copy("go movetime ");
            text::push_u64(&mut out, movetime);
            out
        },
    }
}

/// Does the engine say just this?
pub fn says(line: &str, what: &str) -> (r: bool)
    ensures
        r == (trimmed(line@) == what@),
{
    text::same(&text::trim(&text::chars_of(line)), what)
}

/// The engine announces its move.
pub open spec fn announces_move(line: Seq<char>) -> bool {
    starts_with(trimmed_start(line), "bestmove"@)
}

/// Does the engine announce its move?
pub fn is_bestmove(line: &str) -> (r: bool)
    ensures
        r == announces_move(line@),
{
    text::has_prefix(&text::trim_start(&text::chars_of(line)), "bestmove")
}

/// The move that an announcement names, if it names one.
pub open spec fn announced(line: Seq<char>) -> Option<Seq<char>> {
    if words(line).len() < 2 || words(line)[1] == "0000"@ || words(line)[1] == "(none)"@ {
        None
    } else {
        Some(words(line)[1])
    }
}

/// Read the move that an announcement names.
pub fn parse_bestmove(line: &str) -> (r: Option<String>)
    ensures
        match r {
            Some(m) => announced(line@) == Some(m@),
            None => announced(line@) is None,
        },
{
    let w = text::split_words(&text::chars_of(line));
    let ghost ws = words(line@);
    assert(ws.len() == w@.len());
    if w.len() < 2 {
        return None;
    }
    assert(ws[1] == w@[1]@);
    if text::same(&w[1], "0000") || text::same(&w[1], "(none)") {
        return None;
    }
    Some(text::to_text(&w[1]))
}

/// A move is written without separators.
proof fn lemma_uci_is_word(m: Move)
    requires
        m.wf(),
    ensures
        is_word(m.uci()),
{
    let u = m.uci();
    let a = square_name(m.from.i());
    let b = square_name(m.lands());
    assert forall|i: int| 0 <= i < u.len() implies !is_space(#[trigger] u[i]) by {
        if i < 2 {
            assert(u[i] == a[i]);
        } else if i < 4 {
            assert(u[i] == b[i - 2]);
        }
    }
}

/// A number is written without separators.
proof fn lemma_dec_is_word(n: nat)
    ensures
        is_word(dec(n)),
{
    text::lemma_dec_digits(n);
    assert forall|i: int| 0 <= i < dec(n).len() implies !is_space(#[trigger] dec(n)[i]) by {
        assert(text::is_digit(dec(n)[i]));
    }
}

/// Playing named moves one after the other leads to where the line leads.
proof fn lemma_played(v: PosView, names: Seq<Seq<char>>, w: Seq<Seq<char>>, k: int)
    requires
        0 <= k <= names.len(),
        line(v, names) is Some,
        line(v, names.take(k)) is Some,
        w.len() == names.len() + 2,
        forall|i: int| 0 <= i < names.len() ==> w[i + 2] == #[trigger] names[i],
    ensures
        uci::played(line(v, names.take(k))->0, w, k + 2) == line(v, names)->0,
    decreases names.len() - k,
{
    if k == names.len() {
        assert(names.take(k) =~= names);
    } else {
        let t = names.take(k + 1);
        assert(t.drop_last() =~= names.take(k));
        assert(t.last() == names[k]);
        if line(v, t) is None {
            referee::lemma_line_prefix(v, names, k + 1);
        }
        assert(w[k + 2] == names[k]);
        lemma_played(v, names, w, k + 1);
    }
}

/// The moves of a line are written without separators.
proof fn lemma_names_are_words(v: PosView, names: Seq<Seq<char>>, i: int)
    requires
        line(v, names) is Some,
        0 <= i < names.len(),
    ensures
        is_word(names[i]),
    decreases names.len(),
{
    let w = line(v, names.drop_last())->0;
    if i < names.len() - 1 {
        assert(names.drop_last()[i] == names[i]);
        lemma_names_are_words(v, names.drop_last(), i);
    } else {
        uci::lemma_named_from(w, names.last(), 0);
        lemma_uci_is_word(uci::named(w, names.last())->0);
    }
}

/// An engine that is told the moves of a game understands its position.
#[verifier::rlimit(30)]
pub proof fn law_engines_are_told_the_position(names: Seq<Seq<char>>)
    requires
        line(start_view(), names) is Some,
    ensures
        uci::order_of(position_text(names)) == uci::Order::SetPosition(
            line(start_view(), names)->0,
        ),
{
    let s = position_text(names);
    let n = names.len() as int;
    reveal_strlit("position startpos");
    reveal_strlit("position startpos moves ");
    reveal_strlit("position");
    reveal_strlit("startpos");
    reveal_strlit("moves");
    reveal_strlit("fen");
    reveal_strlit("uci");
    reveal_strlit("isready");
    reveal_strlit("ucinewgame");
    reveal_strlit("setoption");
    let p = "position"@;
    let q = "startpos"@;
    let r = "moves"@;
    assert("position startpos"@ =~= p + seq![' '] + q);
    text::lemma_words_one(q);
    text::lemma_words_cons(p, q);
    if n == 0 {
        assert(words(s) =~= seq![p, q]);
        uci::lemma_tail_words(s);
        assert(words(uci::tail(s)) =~= seq![q]);
        assert(line(start_view(), names) == Some(start_view()));
    } else {
        assert forall|i: int| 0 <= i < n implies is_word(#[trigger] names[i]) by {
            lemma_names_are_words(start_view(), names, i);
        }
        let js = joined(names, ' ', n);
        text::lemma_words_joined(names, n);
        assert(names.take(n) =~= names);
        let s3 = r + seq![' '] + js;
        let s2 = q + seq![' '] + s3;
        assert(s =~= p + seq![' '] + s2);
        text::lemma_words_cons(r, js);
        text::lemma_words_cons(q, s3);
        text::lemma_words_cons(p, s2);
        assert(words(s) =~= seq![p] + (seq![q] + (seq![r] + names)));
        uci::lemma_tail_words(s);
        let w = words(uci::tail(s));
        assert(w =~= seq![q] + (seq![r] + names));
        assert(w[0] == q && w[1] == r);
        assert(q[0] != "fen"@[0]);
        assert(names.take(0) =~= Seq::<Seq<char>>::empty());
        lemma_played(start_view(), names, w, 0);
    }
    assert(uci::head(s) == p);
    assert(p[0] != "uci"@[0] && p[0] != "isready"@[0] && p[0] != "ucinewgame"@[0] && p[0]
        != "setoption"@[0]);
}

/// An engine understands how deep or for how long it is to think.
#[verifier::rlimit(30)]
pub proof fn law_engines_are_told_the_limits(movetime: u64, depth: Option<u32>)
    ensures
        uci::order_of(go_text(movetime as int, depth)) == uci::Order::Go(
            match depth {
                Some(d) => SearchLimits { depth: Some(d), ..SearchLimits::unlimited() },
                None => SearchLimits {
                    movetime_ms: Some(movetime),
                    ..SearchLimits::unlimited()
                },
            },
        ),
{
    let s = go_text(movetime as int, depth);
    reveal_strlit("go depth ");
    reveal_strlit("go movetime ");
    reveal_strlit("go");
    reveal_strlit("depth");
    reveal_strlit("movetime");
    reveal_strlit("uci");
    reveal_strlit("isready");
    reveal_strlit("ucinewgame");
    reveal_strlit("setoption");
    reveal_strlit("position");
    let g = "go"@;
    let (flag, number) = match depth {
        Some(d) => ("depth"@, dec(d as nat)),
        None => ("movetime"@, dec(movetime as nat)),
    };
    let rest = flag + seq![' '] + number;
    assert(s =~= g + seq![' '] + rest);
    match depth {
        Some(d) => {
            lemma_dec_is_word(d as nat);
            text::law_decimal_round_trip(d as nat, u32::MAX as int);
        },
        None => {
            lemma_dec_is_word(movetime as nat);
            text::law_decimal_round_trip(movetime as nat, u64::MAX as int);
        },
    }
    text::lemma_words_one(number);
    text::lemma_words_cons(flag, number);
    text::lemma_words_cons(g, rest);
    assert(words(s) =~= seq![g, flag, number]);
    uci::lemma_tail_words(s);
    let w = words(uci::tail(s));
    assert(w =~= seq![flag, number]);
    assert(g[0] != "uci"@[0] && g[0] != "isready"@[0] && g[0] != "ucinewgame"@[0] && g[0]
        != "setoption"@[0] && g[0] != "position"@[0]);
    assert("movetime"@[0] != "depth"@[0]);
    reveal_with_fuel(uci::limits_from, 2);
}

/// The announcement of a move names that move; that of no move names none.
pub proof fn law_announced_moves_are_read(m: Move)
    requires
        m.wf(),
    ensures
        announces_move(uci::bestmove_text(m)),
        announced(uci::bestmove_text(m)) == (if m == Move::null() {
            None
        } else {
            Some(m.uci())
        }),
{
    let s = uci::bestmove_text(m);
    reveal_strlit("bestmove 0000");
    reveal_strlit("bestmove ");
    reveal_strlit("bestmove");
    reveal_strlit("0000");
    reveal_strlit("(none)");
    let b = "bestmove"@;
    let name = if m == Move::null() {
        "0000"@
    } else {
        m.uci()
    };
    lemma_uci_is_word(m);
    assert(s =~= b + seq![' '] + name);
    text::lemma_words_one(name);
    text::lemma_words_cons(b, name);
    assert(words(s) =~= seq![b, name]);
    assert(s[0] == 'b');
    assert(text::skip_spaces(s, 0) == 0);
    assert(trimmed_start(s) =~= s);
    assert(s.take(8) =~= b);
    if m != Move::null() {
        assert(m.uci()[0] == square_name(m.from.i())[0]);
        assert(m.uci()[0] != '0' && m.uci()[0] != '(');
        assert("0000"@[0] == '0' && "(none)"@[0] == '(');
    }
}

// ---------------------------------------------------------------------------
// Openings and colors.
// ---------------------------------------------------------------------------

/// How many openings there are.
pub const OPENINGS: usize = 10;

/// The openings, each as moves separated by spaces.
pub open spec fn opening_line(i: int) -> Seq<char> {
    if i == 0 {
        "e2e4 e7e5"@
    } else if i == 1 {
        "d2d4 d7d5"@
    } else if i == 2 {
        "c2c4"@
    } else if i == 3 {
        "g1f3 d7d5"@
    } else if i == 4 {
        "e2e4 c7c5"@
    } else if i == 5 {
        "d2d4 g8f6"@
    } else if i == 6 {
        "e2e4 e7e6"@
    } else if i == 7 {
        "c2c4 e7e5"@
    } else if i == 8 {
        "g1f3 g8f6"@
    } else {
        "b1c3"@
    }
}

/// The opening of game number `k`, counted from zero.
pub open spec fn opening(k: int) -> Seq<char> {
    opening_line((k / 2) % (OPENINGS as int))
}

/// Engine A plays White in game number `k`.
pub open spec fn plays_white(k: int) -> bool {
    k % 2 == 0
}

/// The opening of game number `k`, counted from zero.
pub fn opening_of(k: usize) -> (r: &'static str)
    ensures
        r@ == opening(k as int),
{
    let i: usize = (k / 2) % OPENINGS;
    if i == 0 {
        "e2e4 e7e5"
    } else if i == 1 {
        "d2d4 d7d5"
    } else if i == 2 {
        "c2c4"
    } else if i == 3 {
        "g1f3 d7d5"
    } else if i == 4 {
        "e2e4 c7c5"
    } else if i == 5 {
        "d2d4 g8f6"
    } else if i == 6 {
        "e2e4 e7e6"
    } else if i == 7 {
        "c2c4 e7e5"
    } else if i == 8 {
        "g1f3 g8f6"
    } else {
        "b1c3"
    }
}

/// Does engine A play White in game number `k`?
pub fn a_is_white(k: usize) -> (r: bool)
    ensures
        r == plays_white(k as int),
{
    k % 2 == 0
}

/// Each opening is played twice in a row with the colors reversed.
pub proof fn law_openings_are_played_with_both_colors(pair: int)
    requires
        0 <= pair,
    ensures
        opening(2 * pair) == opening(2 * pair + 1),
        plays_white(2 * pair) == !plays_white(2 * pair + 1),
{
}

/// Every opening comes up in each run of twenty games.
pub proof fn law_openings_come_round(run: int, i: int)
    requires
        0 <= run,
        0 <= i < OPENINGS,
    ensures
        opening(20 * run + 2 * i) == opening_line(i),
{
}

// ---------------------------------------------------------------------------
// The score.
// ---------------------------------------------------------------------------

/// The score of a match as engine A sees it.
#[derive(Clone, Copy, PartialEq, Eq, Structural, Debug)]
pub struct Score {
    pub wins: u32,
    pub losses: u32,
    pub draws: u32,
}

/// Where a match stands.
#[derive(Clone, Copy, PartialEq, Eq, Structural, Debug)]
pub enum Standing {
    NoGames,
    /// Engine A has lost every game.
    LostAll,
    /// Engine A has won every game.
    WonAll,
    Open,
}

/// Engine A has won.
pub open spec fn a_won(w: Winner, a_white: bool) -> bool {
    w == (if a_white {
        Winner::White
    } else {
        Winner::Black
    })
}

/// The score after one more game.
pub open spec fn tallied(s: Score, w: Winner, a_white: bool) -> Score {
    if w == Winner::Draw {
        Score { draws: (s.draws + 1) as u32, ..s }
    } else if a_won(w, a_white) {
        Score { wins: (s.wins + 1) as u32, ..s }
    } else {
        Score { losses: (s.losses + 1) as u32, ..s }
    }
}

impl Score {
    /// The number of games.
    pub open spec fn total(self) -> int {
        self.wins + self.losses + self.draws
    }

    /// The score in half points.
    pub open spec fn halves(self) -> int {
        2 * self.wins + self.draws
    }

    pub fn new() -> (r: Score)
        ensures
            r == (Score { wins: 0, losses: 0, draws: 0 }),
    {
        Score { wins: 0, losses: 0, draws: 0 }
    }

    /// The number of games.
    pub fn games(&self) -> (r: u32)
        requires
            self.total() <= u32::MAX,
        ensures
            r == self.total(),
    {
        self.wins + self.losses + self.draws
    }

    /// The score in half points.
    pub fn half_points(&self) -> (r: u64)
        ensures
            r == self.halves(),
    {
        2 * (self.wins as u64) + self.draws as u64
    }

    /// Count one more game.
    pub fn record(&mut self, w: Winner, a_white: bool)
        requires
            old(self).total() < u32::MAX,
        ensures
            *final(self) == tallied(*old(self), w, a_white),
    {
        match w {
            Winner::Draw => {
                self.draws = self.draws + 1;
            },
            Winner::White => {
                if a_white {
                    self.wins = self.wins + 1;
                } else {
                    self.losses = self.losses + 1;
                }
            },
            Winner::Black => {
                if a_white {
                    self.losses = self.losses + 1;
                } else {
                    self.wins = self.wins + 1;
                }
            },
        }
    }

    /// Where the match stands.
    pub fn standing(&self) -> (r: Standing)
        ensures
            r == (if self.total() == 0 {
                Standing::NoGames
            } else if self.halves() == 0 {
                Standing::LostAll
            } else if self.halves() == 2 * self.total() {
                Standing::WonAll
            } else {
                Standing::Open
            }),
    {
        if self.wins == 0 && self.draws == 0 {
            if self.losses == 0 {
                Standing::NoGames
            } else {
                Standing::LostAll
            }
        } else if self.losses == 0 && self.draws == 0 {
            Standing::WonAll
        } else {
            Standing::Open
        }
    }
}

/// Every game counts once, and is worth two half points to share.
pub proof fn law_every_game_counts(s: Score, w: Winner, a_white: bool)
    requires
        s.total() < u32::MAX,
    ensures
        tallied(s, w, a_white).total() == s.total() + 1,
        0 <= tallied(s, w, a_white).halves() - s.halves() <= 2,
        0 <= s.halves() <= 2 * s.total(),
{
}

/// What one engine wins with White the other loses with Black.
pub proof fn law_colors_mirror_the_score(s: Score, w: Winner)
    requires
        s.total() < u32::MAX,
        w != Winner::Draw,
    ensures
        tallied(s, w, true).halves() - s.halves() == 2 - (tallied(s, w, false).halves() - s.halves()),
{
}

/// A game that White wins is a win for the engine that plays White, and a loss for the
/// one that plays Black; the other way round if Black wins; and a draw for both.
pub proof fn law_winners_score(s: Score)
    requires
        s.total() < u32::MAX,
    ensures
        tallied(s, Winner::White, true) == (Score { wins: (s.wins + 1) as u32, ..s }),
        tallied(s, Winner::Black, false) == (Score { wins: (s.wins + 1) as u32, ..s }),
        tallied(s, Winner::White, false) == (Score { losses: (s.losses + 1) as u32, ..s }),
        tallied(s, Winner::Black, true) == (Score { losses: (s.losses + 1) as u32, ..s }),
        tallied(s, Winner::Draw, true) == (Score { draws: (s.draws + 1) as u32, ..s }),
        tallied(s, Winner::Draw, false) == (Score { draws: (s.draws + 1) as u32, ..s }),
        result_text(Winner::White, true) == "1-0"@,
        result_text(Winner::Black, false) == "1-0"@,
        result_text(Winner::White, false) == "0-1"@,
        result_text(Winner::Black, true) == "0-1"@,
        result_text(Winner::Draw, true) == "1/2-1/2"@,
        result_text(Winner::Draw, false) == "1/2-1/2"@,
        s.halves() == 2 * s.wins + s.draws,
        plays_white(0) && !plays_white(1),
{
}

/// The result of a game as engine A scored it.
pub open spec fn result_text(w: Winner, a_white: bool) -> Seq<char> {
    if w == Winner::Draw {
        "1/2-1/2"@
    } else if a_won(w, a_white) {
        "1-0"@
    } else {
        "0-1"@
    }
}

/// The report of game number `k` of `games`.
pub open spec fn game_text(k: int, games: int, g: GameResult) -> Seq<char> {
    "game "@ + dec((k + 1) as nat) + "/"@ + dec(games as nat) + ": "@ + (if plays_white(k) {
        "A-as-white"@
    } else {
        "A-as-black"@
    }) + " ["@ + opening(k) + "] -> "@ + result_text(g.winner, plays_white(k)) + " ("@
        + g.reason.said() + ")"@
}

/// The report of game number `k` of `games`.
pub fn format_game(k: usize, games: usize, g: &GameResult) -> (r: String)
    requires
        k < games,
    ensures
        r@ == game_text(k as int, games as int, *g),
{
    let white = a_is_white(k);
    let mut out = text::copy("game ");
    text::push_u64(&mut out, k as u64 + 1);
    text::push_str(&mut out, "/");
    text::push_u64(&mut out, games as u64);
    text::push_str(&mut out, ": ");
    text::push_str(
        &mut out,
        if white {
            "A-as-white"
        } else {
            "A-as-black"
        },
    );
    text::push_str(&mut out, " [");
    text::push_str(&mut out, opening_of(k));
    text::push_str(&mut out, "] -> ");
    let score: &'static str = match g.winner {
        Winner::Draw => "1/2-1/2",
        Winner::White => if white {
            "1-0"
        } else {
            "0-1"
        },
        Winner::Black => if white {
            "0-1"
        } else {
            "1-0"
        },
    };
    text::push_str(&mut out, score);
    text::push_str(&mut out, " (");
    text::push_str(&mut out, g.reason.text());
    text::push_str(&mut out, ")");
    out
}

/// No two openings are the same.
pub proof fn law_openings_differ(i: int, j: int)
    requires
        0 <= i < j < 10,
    ensures
        opening_line(i) != opening_line(j),
{
    reveal_strlit("e2e4 e7e5");
    reveal_strlit("d2d4 d7d5");
    reveal_strlit("c2c4");
    reveal_strlit("g1f3 d7d5");
    reveal_strlit("e2e4 c7c5");
    reveal_strlit("d2d4 g8f6");
    reveal_strlit("e2e4 e7e6");
    reveal_strlit("c2c4 e7e5");
    reveal_strlit("g1f3 g8f6");
    reveal_strlit("b1c3");
    assert("e2e4 e7e5"@[0] == 'e' && "e2e4 e7e5"@[5] == 'e' && "e2e4 e7e5"@[8] == '5');
    assert("d2d4 d7d5"@[0] == 'd' && "d2d4 d7d5"@[5] == 'd');
    assert("c2c4"@.len() == 4 && "c2c4"@[0] == 'c');
    assert("g1f3 d7d5"@[0] == 'g' && "g1f3 d7d5"@[5] == 'd');
    assert("e2e4 c7c5"@[0] == 'e' && "e2e4 c7c5"@[5] == 'c');
    assert("d2d4 g8f6"@[0] == 'd' && "d2d4 g8f6"@[5] == 'g');
    assert("e2e4 e7e6"@[0] == 'e' && "e2e4 e7e6"@[5] == 'e' && "e2e4 e7e6"@[8] == '6');
    assert("c2c4 e7e5"@[0] == 'c' && "c2c4 e7e5"@.len() == 9);
    assert("g1f3 g8f6"@[0] == 'g' && "g1f3 g8f6"@[5] == 'g');
    assert("b1c3"@.len() == 4 && "b1c3"@[0] == 'b');
}

} // verus!
