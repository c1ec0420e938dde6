//! Training data: games that the engine plays against itself, and the quiet
//! positions in them with a score and the result.

use std::sync::Arc;
use std::sync::atomic::AtomicBool;
use vstd::prelude::*;

use crate::cli;
use crate::clock::SearchLimits;
use crate::fen::{fen_text, start_view};
use crate::movegen;
use crate::movegen::{generate_legal, legal_moves};
use crate::nnue::Network;
use crate::position::Position;
use crate::referee;
use crate::referee::{Reason, Winner, occurrences, times};
use crate::rng;
use crate::rng::SplitMix64;
use crate::rules;
use crate::rules::{PosView, apply, hash, legal};
use crate::search;
use crate::search::{Found, Searcher, depth_cap, finds, law_equal_searches_agree};
use crate::text;
use crate::text::{dec, dec_int, strings};
use crate::tree::{Mind, forcing};
use crate::types::{Color, Move, MoveType};

verus! {

/// The size in megabytes of the transposition table of a generating engine.
pub const TT_SIZE_MB: usize = 16;

/// The fewest random moves at the start of a game.
pub const OPENING_MIN_PLIES: usize = 4;

/// The most random moves at the start of a game.
pub const OPENING_MAX_PLIES: usize = 10;

/// The number of plies after which a game is adjudicated.
pub const MAX_GAME_PLIES: usize = 200;

/// The largest score that is written.
pub const SCORE_CLAMP: i32 = 3000;

/// A score this large stands for a forced mate.
pub const MATE_THRESHOLD: i32 = 29872;

/// An advantage beyond this wins a game that is adjudicated.
pub const ADJUDICATE_CP: i32 = 800;

/// Samples are written to disk when there are this many.
pub const FLUSH_EVERY: usize = 4096;

// ---------------------------------------------------------------------------
// Seeds.
// ---------------------------------------------------------------------------

/// The seed of game number `g` of a run.
pub open spec fn game_seed(base: u64, g: u64) -> u64 {
    rng::mix(
        base.wrapping_mul(0x9E37_79B9_7F4A_7C15u64).wrapping_add(
            g.wrapping_add(1u64).wrapping_mul(0xD1B5_4A32_D192_ED03u64),
        ),
    )
}

/// The seed of game number `game_index` of a run.
pub fn mix_seed(base: u64, game_index: u64) -> (r: u64)
    ensures
        r == game_seed(base, game_index),
{
    let g: u64 = game_index.wrapping_add(1).wrapping_mul(0xD1B5_4A32_D192_ED03);
    rng::scramble(base.wrapping_mul(0x9E37_79B9_7F4A_7C15).wrapping_add(g))
}

/// Each game of a run has a seed of its own.
pub proof fn law_games_have_their_own_seeds(base: u64, g: u64, h: u64)
    requires
        game_seed(base, g) == game_seed(base, h),
    ensures
        g == h,
{
    let b = base.wrapping_mul(0x9E37_79B9_7F4A_7C15u64);
    let x = g.wrapping_add(1u64);
    let y = h.wrapping_add(1u64);
    let xm = x.wrapping_mul(0xD1B5_4A32_D192_ED03u64);
    let ym = y.wrapping_mul(0xD1B5_4A32_D192_ED03u64);
    rng::lemma_mix_injective(b.wrapping_add(xm), b.wrapping_add(ym));
    assert(xm == ym);
    rng::lemma_times_injective(x, y, 0xD1B5_4A32_D192_ED03, 0x0610_6CCF_A448_E5AB, 0x04F7_B434_678E_D4E7);
}

/// Runs with different seeds give a game different seeds.
pub proof fn law_runs_have_their_own_seeds(a: u64, b: u64, g: u64)
    requires
        game_seed(a, g) == game_seed(b, g),
    ensures
        a == b,
{
    let x = a.wrapping_mul(0x9E37_79B9_7F4A_7C15u64);
    let y = b.wrapping_mul(0x9E37_79B9_7F4A_7C15u64);
    let t = g.wrapping_add(1u64).wrapping_mul(0xD1B5_4A32_D192_ED03u64);
    rng::lemma_mix_injective(x.wrapping_add(t), y.wrapping_add(t));
    assert(x == y);
    rng::lemma_times_injective(
        a,
        b,
        0x9E37_79B9_7F4A_7C15,
        0xF1DE_83E1_9937_733D,
        0x957B_BF35_006E_D677,
    );
}

/// A game is first attempted with its own seed.
pub proof fn law_first_attempts_use_the_seed(seed: u64)
    ensures
        attempt_seed(seed, 0) == seed,
        opened(seed) is Some ==> lucky_attempt(seed, 0) == Some(0u64),
{
    assert(0u64.wrapping_mul(0xA076_1D64_78BD_642Fu64) == 0);
    crate::zobrist::lemma_xor(seed, 0, 0);
}

// ---------------------------------------------------------------------------
// Settings.
// ---------------------------------------------------------------------------

/// The settings of a run.
pub struct Config {
    pub output: String,
    pub games: usize,
    /// The depth of each search, unless there is a limit on nodes.
    pub depth: u32,
    pub nodes: Option<u64>,
    pub threads: usize,
    pub seed: u64,
}

/// What has been read of the arguments.
pub struct Settings {
    pub positional: Seq<Seq<char>>,
    pub games: int,
    pub depth: int,
    pub nodes: Option<int>,
    pub threads: int,
    pub seed: int,
}

/// The settings before anything has been read, on a machine that runs
/// `parallelism` threads at once.
pub open spec fn default_settings(parallelism: int) -> Settings {
    Settings {
        positional: seq![],
        games: 1000,
        depth: 8,
        nodes: None,
        threads: if parallelism < 8 {
            parallelism
        } else {
            8
        },
        seed: 1,
    }
}

/// The settings after reading the arguments from place `i` on, or the complaint.
pub open spec fn settings_from(args: Seq<Seq<char>>, i: int, st: Settings) -> Result<
    Settings,
    Seq<char>,
>
    decreases args.len() - i + 2,
{
    if i < 0 || i >= args.len() {
        Ok(st)
    } else if args[i] == "--games"@ {
        match cli::number_at(args, i + 1, "--games"@, usize::MAX as int) {
            Ok(n) => settings_from(args, i + 2, Settings { games: n, ..st }),
            Err(e) => Err(e),
        }
    } else if args[i] == "--depth"@ {
        match cli::number_at(args, i + 1, "--depth"@, u32::MAX as int) {
            Ok(n) => settings_from(args, i + 2, Settings { depth: n, ..st }),
            Err(e) => Err(e),
        }
    } else if args[i] == "--nodes"@ {
        match cli::number_at(args, i + 1, "--nodes"@, u64::MAX as int) {
            Ok(n) => settings_from(args, i + 2, Settings { nodes: Some(n), ..st }),
            Err(e) => Err(e),
        }
    } else if args[i] == "--threads"@ {
        match cli::number_at(args, i + 1, "--threads"@, usize::MAX as int) {
            Ok(n) => settings_from(args, i + 2, Settings { threads: n, ..st }),
            Err(e) => Err(e),
        }
    } else if args[i] == "--seed"@ {
        match cli::number_at(args, i + 1, "--seed"@, u64::MAX as int) {
            Ok(n) => settings_from(args, i + 2, Settings { seed: n, ..st }),
            Err(e) => Err(e),
        }
    } else {
        settings_from(args, i + 1, Settings { positional: st.positional.push(args[i]), ..st })
    }
}

/// More arguments behind arguments that were understood.
#[verifier::rlimit(30)]
proof fn lemma_settings_append(
    args: Seq<Seq<char>>,
    more: Seq<Seq<char>>,
    i: int,
    st: Settings,
)
    requires
        0 <= i <= args.len(),
        settings_from(args, i, st) is Ok,
    ensures
        settings_from(args + more, i, st) == settings_from(
            args + more,
            args.len() as int,
            settings_from(args, i, st)->Ok_0,
        ),
    decreases args.len() - i,
{
    let all = args + more;
    if i < args.len() {
        assert(all[i] == args[i]);
        let flag = args[i] == "--games"@ || args[i] == "--depth"@ || args[i] == "--nodes"@
            || args[i] == "--threads"@ || args[i] == "--seed"@;
        if flag {
            assert(i + 1 < args.len());
            assert(all[i + 1] == args[i + 1]);
            if args[i] == "--games"@ {
                let n = cli::number_at(args, i + 1, "--games"@, usize::MAX as int)->Ok_0;
                lemma_settings_append(args, more, i + 2, Settings { games: n, ..st });
            } else if args[i] == "--depth"@ {
                let n = cli::number_at(args, i + 1, "--depth"@, u32::MAX as int)->Ok_0;
                lemma_settings_append(args, more, i + 2, Settings { depth: n, ..st });
            } else if args[i] == "--nodes"@ {
                let n = cli::number_at(args, i + 1, "--nodes"@, u64::MAX as int)->Ok_0;
                lemma_settings_append(args, more, i + 2, Settings { nodes: Some(n), ..st });
            } else if args[i] == "--threads"@ {
                let n = cli::number_at(args, i + 1, "--threads"@, usize::MAX as int)->Ok_0;
                lemma_settings_append(args, more, i + 2, Settings { threads: n, ..st });
            } else {
                let n = cli::number_at(args, i + 1, "--seed"@, u64::MAX as int)->Ok_0;
                lemma_settings_append(args, more, i + 2, Settings { seed: n, ..st });
            }
        } else {
            lemma_settings_append(
                args,
                more,
                i + 1,
                Settings { positional: st.positional.push(args[i]), ..st },
            );
        }
    }
}

/// A flag with a number behind other arguments sets its setting to that number and leaves
/// the others; a flag without a number is refused.
pub proof fn law_flags_set_their_settings(
    args: Seq<Seq<char>>,
    parallelism: int,
    st: Settings,
    n: u32,
)
    requires
        settings_from(args, 0, default_settings(parallelism)) == Ok::<Settings, Seq<char>>(st),
    ensures
        settings_from(args + seq!["--games"@, dec(n as nat)], 0, default_settings(parallelism))
            == Ok::<Settings, Seq<char>>(Settings { games: n as int, ..st }),
        settings_from(args + seq!["--depth"@, dec(n as nat)], 0, default_settings(parallelism))
            == Ok::<Settings, Seq<char>>(Settings { depth: n as int, ..st }),
        settings_from(args + seq!["--nodes"@, dec(n as nat)], 0, default_settings(parallelism))
            == Ok::<Settings, Seq<char>>(Settings { nodes: Some(n as int), ..st }),
        settings_from(args + seq!["--threads"@, dec(n as nat)], 0, default_settings(parallelism))
            == Ok::<Settings, Seq<char>>(Settings { threads: n as int, ..st }),
        settings_from(args + seq!["--seed"@, dec(n as nat)], 0, default_settings(parallelism))
            == Ok::<Settings, Seq<char>>(Settings { seed: n as int, ..st }),
        settings_from(args + seq!["--seed"@], 0, default_settings(parallelism)) is Err,
        default_settings(parallelism) == (Settings {
            positional: seq![],
            games: 1000,
            depth: 8,
            nodes: None,
            threads: if parallelism < 8 {
                parallelism
            } else {
                8
            },
            seed: 1,
        }),
{
    reveal_strlit("--games");
    reveal_strlit("--depth");
    reveal_strlit("--nodes");
    reveal_strlit("--threads");
    reveal_strlit("--seed");
    assert("--games"@[2] == 'g' && "--depth"@[2] == 'd' && "--nodes"@[2] == 'n');
    assert("--threads"@[2] == 't' && "--seed"@[2] == 's');
    text::law_decimal_round_trip(n as nat, u32::MAX as int);
    text::law_decimal_round_trip(n as nat, usize::MAX as int);
    text::law_decimal_round_trip(n as nat, u64::MAX as int);
    let k = args.len() as int;
    let d = default_settings(parallelism);
    lemma_settings_append(args, seq!["--games"@, dec(n as nat)], 0, d);
    lemma_settings_append(args, seq!["--depth"@, dec(n as nat)], 0, d);
    lemma_settings_append(args, seq!["--nodes"@, dec(n as nat)], 0, d);
    lemma_settings_append(args, seq!["--threads"@, dec(n as nat)], 0, d);
    lemma_settings_append(args, seq!["--seed"@, dec(n as nat)], 0, d);
    lemma_settings_append(args, seq!["--seed"@], 0, d);
    let a = args + seq!["--games"@, dec(n as nat)];
    assert(a[k] == "--games"@ && a[k + 1] == dec(n as nat));
    let b = args + seq!["--depth"@, dec(n as nat)];
    assert(b[k] == "--depth"@ && b[k + 1] == dec(n as nat));
    let c = args + seq!["--nodes"@, dec(n as nat)];
    assert(c[k] == "--nodes"@ && c[k + 1] == dec(n as nat));
    let e = args + seq!["--threads"@, dec(n as nat)];
    assert(e[k] == "--threads"@ && e[k + 1] == dec(n as nat));
    let f = args + seq!["--seed"@, dec(n as nat)];
    assert(f[k] == "--seed"@ && f[k + 1] == dec(n as nat));
    let g = args + seq!["--seed"@];
    assert(g[k] == "--seed"@);
    reveal_with_fuel(settings_from, 2);
}

/// How the program is to be called.
pub open spec fn usage_text() -> Seq<char> {
    "usage: datagen <output_file> [--games N] [--depth D] [--nodes X] [--threads T] [--seed S]"@
}

/// How the program is to be called.
pub fn usage() -> (r: String)
    ensures
        r@ == usage_text(),
{
    text::copy(
        "usage: datagen <output_file> [--games N] [--depth D] [--nodes X] [--threads T] [--seed S]",
    )
}

/// The settings that arguments ask for, or the complaint.
pub open spec fn settings_of(args: Seq<Seq<char>>, parallelism: int) -> Result<Settings, Seq<char>> {
    match settings_from(args, 0, default_settings(parallelism)) {
        Ok(st) => if st.positional.len() == 0 {
            Err(usage_text())
        } else {
            Ok(st)
        },
        Err(e) => Err(e),
    }
}

impl Config {
    /// The configuration holds the given settings, with at least one thread.
    pub open spec fn follows(&self, st: Settings) -> bool {
        &&& self.output@ == st.positional[0]
        &&& self.games == st.games
        &&& self.depth == st.depth
        &&& match self.nodes {
            Some(n) => st.nodes == Some(n as int),
            None => st.nodes is None,
        }
        &&& self.threads == (if st.threads == 0 {
            1
        } else {
            st.threads
        })
        &&& self.seed == st.seed
    }
}

/// Read the arguments of a run: an output file and perhaps flags.
pub fn parse_args(args: &Vec<String>, parallelism: usize) -> (r: Result<Config, String>)
    ensures
        match r {
            Ok(c) => match settings_of(strings(args@), parallelism as int) {
                Ok(st) => c.follows(st),
                Err(_) => false,
            },
            Err(e) => settings_of(strings(args@), parallelism as int) == Err::<
                Settings,
                Seq<char>,
            >(e@),
        },
{
    let ghost a = strings(args@);
    let ghost first = default_settings(parallelism as int);
    let mut positional: Vec<String> = Vec::new();
    let mut games: usize = 1000;
    let mut depth: u32 = 8;
    let mut nodes: Option<u64> = None;
    let mut threads: usize = if parallelism < 8 {
        parallelism
    } else {
        8
    };
    let mut seed: u64 = 1;
    let ghost mut st = first;
    let mut i: usize = 0;
    assert(strings(positional@) =~= st.positional);
    while i < args.len()
        invariant
            a == strings(args@),
            i <= args@.len(),
            settings_from(a, i as int, st) == settings_from(a, 0, first),
            strings(positional@) == st.positional,
            games == st.games,
            depth == st.depth,
            match nodes {
                Some(n) => st.nodes == Some(n as int),
                None => st.nodes is None,
            },
            threads == st.threads,
            seed == st.seed,
            first == default_settings(parallelism as int),
        decreases args@.len() - i,
    {
        if cli::is_flag(args, i, "--games") {
            match cli::read_number(args, i + 1, "--games", usize::MAX as u64) {
                Ok(n) => {
                    games = n as usize;
                    proof {
                        st = Settings { games: n as int, ..st };
                    }
                },
                Err(e) => {
                    return Err(e);
                },
            }
            i = i + 2;
        } else if cli::is_flag(args, i, "--depth") {
            match cli::read_number(args, i + 1, "--depth", u32::MAX as u64) {
                Ok(n) => {
                    depth = n as u32;
                    proof {
                        st = Settings { depth: n as int, ..st };
                    }
                },
                Err(e) => {
                    return Err(e);
                },
            }
            i = i + 2;
        } else if cli::is_flag(args, i, "--nodes") {
            match cli::read_number(args, i + 1, "--nodes", u64::MAX) {
                Ok(n) => {
                    nodes = Some(n);
                    proof {
                        st = Settings { nodes: Some(n as int), ..st };
                    }
                },
                Err(e) => {
                    return Err(e);
                },
            }
            i = i + 2;
        } else if cli::is_flag(args, i, "--threads") {
            match cli::read_number(args, i + 1, "--threads", usize::MAX as u64) {
                Ok(n) => {
                    threads = n as usize;
                    proof {
                        st = Settings { threads: n as int, ..st };
                    }
                },
                Err(e) => {
                    return Err(e);
                },
            }
            i = i + 2;
        } else if cli::is_flag(args, i, "--seed") {
            match cli::read_number(args, i + 1, "--seed", u64::MAX) {
                Ok(n) => {
                    seed = n;
                    proof {
                        st = Settings { seed: n as int, ..st };
                    }
                },
                Err(e) => {
                    return Err(e);
                },
            }
            i = i + 2;
        } else {
            let word = text::copy(args[i].as_str());
            let ghost before = positional@;
            positional.push(word);
            proof {
                assert(a[i as int] == word@);
                assert(strings(positional@) =~= strings(before).push(word@));
                st = Settings { positional: st.positional.push(word@), ..st };
            }
            i = i + 1;
        }
    }
    if positional.len() == 0 {
        return Err(usage());
    }
    if threads == 0 {
        threads = 1;
    }
    assert(strings(positional@)[0] == positional@[0]@);
    let output = text::copy(positional[0].as_str());
    Ok(Config { output, games, depth, nodes, threads, seed })
}

/// The limits of each search of a run: a number of nodes if there is one, else
/// a depth.
pub open spec fn limits_for(depth: u32, nodes: Option<u64>) -> SearchLimits {
    SearchLimits {
        depth: if nodes is Some {
            None
        } else {
            Some(depth)
        },
        nodes,
        ..SearchLimits::unlimited()
    }
}

/// The limits of each search of a run.
pub fn search_limits(depth: u32, nodes: Option<u64>) -> (r: SearchLimits)
    ensures
        r == limits_for(depth, nodes),
{
    let mut limits = SearchLimits::default();
    limits.nodes = nodes;
    if nodes.is_none() {
        limits.depth = Some(depth);
    }
    limits
}

/// The part of the games that thread number `t` plays: from the first number to
/// before the second.
pub open spec fn share(games: int, threads: int, t: int) -> (int, int) {
    let base = games / threads;
    let extra = games % threads;
    let lo = t * base + (if t < extra {
        t
    } else {
        extra
    });
    (lo, lo + base + (if t < extra {
        1int
    } else {
        0
    }))
}

/// Divide the games among the threads.
pub fn split_games(games: usize, threads: usize) -> (r: Vec<(u64, u64)>)
    requires
        threads > 0,
    ensures
        r@.len() == threads,
        forall|t: int|
            0 <= t < threads ==> {
                &&& (#[trigger] r@[t]).0 == share(games as int, threads as int, t).0
                &&& r@[t].1 == share(games as int, threads as int, t).1
            },
{
    let base: usize = games / threads;
    let extra: usize = games % threads;
    let mut out: Vec<(u64, u64)> = Vec::new();
    let mut lo: u64 = 0;
    let mut t: usize = 0;
    let ghost g = games as int;
    let ghost n = threads as int;
    assert(0 * base == 0);
    while t < threads
        invariant
            0 < threads,
            t <= threads,
            g == games,
            n == threads,
            base == g / n,
            extra == g % n,
            out@.len() == t,
            lo == share(g, n, t as int).0,
            forall|k: int|
                0 <= k < t ==> {
                    &&& (#[trigger] out@[k]).0 == share(g, n, k).0
                    &&& out@[k].1 == share(g, n, k).1
                },
        decreases threads - t,
    {
        proof {
            law_shares_cover_the_games(g, n, t as int);
        }
        let count: u64 = base as u64 + (if t < extra {
            1
        } else {
            0
        });
        let hi: u64 = lo + count;
        out.push((lo, hi));
        lo = hi;
        t = t + 1;
    }
    out
}

/// The shares of the threads follow each other without a gap, from the first
/// game to the last, and differ by at most one game.
pub proof fn law_shares_cover_the_games(games: int, threads: int, t: int)
    requires
        0 <= games,
        0 <= t < threads,
    ensures
        share(games, threads, 0).0 == 0,
        share(games, threads, threads - 1).1 == games,
        share(games, threads, t).1 == share(games, threads, t + 1).0,
        0 <= share(games, threads, t).0 <= share(games, threads, t).1 <= games,
        games / threads <= share(games, threads, t).1 - share(games, threads, t).0 <= games
            / threads + 1,
{
    let base = games / threads;
    let extra = games % threads;
    assert(games == threads * base + extra && 0 <= extra < threads && 0 <= base) by (nonlinear_arith)
        requires
            0 <= games,
            0 < threads,
            base == games / threads,
            extra == games % threads,
    ;
    assert((t + 1) * base == t * base + base) by (nonlinear_arith);
    assert((threads - 1) * base + base == threads * base) by (nonlinear_arith);
    assert(0 * base == 0);
    assert(0 <= t * base <= (threads - 1) * base) by (nonlinear_arith)
        requires
            0 <= t <= threads - 1,
            0 <= base,
    ;
}

// ---------------------------------------------------------------------------
// Outcomes and scores.
// ---------------------------------------------------------------------------

/// How a game ended.
#[derive(Clone, Copy, PartialEq, Eq, Structural, Debug)]
pub enum Outcome {
    WhiteWin,
    BlackWin,
    Draw,
}

impl Outcome {
    /// The half points of a player.
    pub open spec fn halves(self, stm: Color) -> int {
        match self {
            Outcome::Draw => 1,
            Outcome::WhiteWin => if stm == Color::White {
                2
            } else {
                0
            },
            Outcome::BlackWin => if stm == Color::Black {
                2
            } else {
                0
            },
        }
    }

    /// The half points of a player: two for a win, one for a draw.
    pub fn result_for(self, stm: Color) -> (r: u8)
        ensures
            r == self.halves(stm),
            r <= 2,
    {
        match self {
            Outcome::Draw => 1,
            Outcome::WhiteWin => match stm {
                Color::White => 2,
                Color::Black => 0,
            },
            Outcome::BlackWin => match stm {
                Color::White => 0,
                Color::Black => 2,
            },
        }
    }
}

/// The two players share two half points.
pub proof fn law_results_add_up(o: Outcome, c: Color)
    ensures
        o.halves(c) + o.halves(c.other()) == 2,
{
}

/// A win is worth everything to the player who wins and nothing to the other, a draw the
/// same to both.
pub proof fn law_winners_take_all()
    ensures
        Outcome::WhiteWin.halves(Color::White) == 2,
        Outcome::WhiteWin.halves(Color::Black) == 0,
        Outcome::BlackWin.halves(Color::White) == 0,
        Outcome::BlackWin.halves(Color::Black) == 2,
        Outcome::Draw.halves(Color::White) == 1,
        Outcome::Draw.halves(Color::Black) == 1,
{
}

/// The outcome when a player is mated.
pub open spec fn mated(c: Color) -> Outcome {
    match c {
        Color::White => Outcome::BlackWin,
        Color::Black => Outcome::WhiteWin,
    }
}

/// The outcome when the player `stm` is mated.
pub fn mated_outcome(stm: Color) -> (r: Outcome)
    ensures
        r == mated(stm),
{
    match stm {
        Color::White => Outcome::BlackWin,
        Color::Black => Outcome::WhiteWin,
    }
}

/// A score as it is written: within bounds, and a forced mate as a bound.
pub open spec fn clamped(score: int) -> int {
    if score > SCORE_CLAMP {
        SCORE_CLAMP as int
    } else if score < -SCORE_CLAMP {
        -SCORE_CLAMP as int
    } else {
        score
    }
}

/// A score as it is written.
pub fn clamp_score(score: i32) -> (r: i32)
    ensures
        r == clamped(score as int),
{
    if score >= MATE_THRESHOLD {
        SCORE_CLAMP
    } else if score <= -MATE_THRESHOLD {
        -SCORE_CLAMP
    } else if score > SCORE_CLAMP {
        SCORE_CLAMP
    } else if score < -SCORE_CLAMP {
        -SCORE_CLAMP
    } else {
        score
    }
}

/// A written score lies within bounds, a forced mate is written as a bound, and
/// both players' scores are written alike.
pub proof fn law_written_scores(score: int)
    ensures
        -SCORE_CLAMP <= clamped(score) <= SCORE_CLAMP,
        score >= MATE_THRESHOLD ==> clamped(score) == SCORE_CLAMP,
        score <= -MATE_THRESHOLD ==> clamped(score) == -SCORE_CLAMP,
        clamped(-score) == -clamped(score),
        -SCORE_CLAMP <= score <= SCORE_CLAMP ==> clamped(score) == score,
{
}

/// The outcome of a game that is too long, from White's last score.
pub open spec fn adjudged(white_score: int) -> Outcome {
    if white_score > ADJUDICATE_CP {
        Outcome::WhiteWin
    } else if white_score < -ADJUDICATE_CP {
        Outcome::BlackWin
    } else {
        Outcome::Draw
    }
}

/// The outcome of a game that is too long, from White's last score.
pub fn adjudicate(white_score: i32) -> (r: Outcome)
    ensures
        r == adjudged(white_score as int),
{
    if white_score > ADJUDICATE_CP {
        Outcome::WhiteWin
    } else if white_score < -ADJUDICATE_CP {
        Outcome::BlackWin
    } else {
        Outcome::Draw
    }
}

// ---------------------------------------------------------------------------
// The random opening.
// ---------------------------------------------------------------------------

/// A game after its opening: the position, the hashes so far, the number of
/// moves, and the state of the random numbers.
pub struct Start {
    pub v: PosView,
    pub keys: Seq<u64>,
    pub plies: nat,
    pub state: u64,
}

/// The random legal move that a state of the random numbers picks.
pub open spec fn picked(v: PosView, state: u64) -> Move {
    legal_moves(v)[rng::output(state, 0) as int % legal_moves(v).len() as int]
}

/// `n` random moves; nothing if there is no legal move on the way.
pub open spec fn strolled(st: Start, n: nat) -> Option<Start>
    decreases n,
{
    if n == 0 {
        Some(st)
    } else if legal_moves(st.v).len() == 0 {
        None
    } else {
        let w = apply(st.v, picked(st.v, st.state));
        strolled(
            Start {
                v: w,
                keys: st.keys.push(hash(w)),
                plies: st.plies + 1,
                state: rng::counter(st.state, 1),
            },
            (n - 1) as nat,
        )
    }
}

/// How many random moves a seed asks for.
pub open spec fn opening_length(seed: u64) -> nat {
    (OPENING_MIN_PLIES + rng::output(seed, 0) as int % (OPENING_MAX_PLIES - OPENING_MIN_PLIES + 1))
        as nat
}

/// The opening of a seed; nothing if the game ends within it.
pub open spec fn opened(seed: u64) -> Option<Start> {
    match strolled(
        Start {
            v: start_view(),
            keys: seq![hash(start_view())],
            plies: 0,
            state: rng::counter(seed, 1),
        },
        opening_length(seed),
    ) {
        Some(st) => if legal_moves(st.v).len() == 0 {
            None
        } else {
            Some(st)
        },
        None => None,
    }
}

// ---------------------------------------------------------------------------
// The game.
// ---------------------------------------------------------------------------

/// A position that was recorded in a game.
pub struct Sample {
    pub fen: String,
    pub stm_score: i32,
    pub stm: Color,
}

/// A recorded position over plain values.
pub struct Note {
    pub fen: Seq<char>,
    pub score: int,
    pub stm: Color,
}

impl View for Sample {
    type V = Note;

    open spec fn view(&self) -> Note {
        Note { fen: self.fen@, score: self.stm_score as int, stm: self.stm }
    }
}

/// Recorded positions over plain values.
pub open spec fn notes(s: Seq<Sample>) -> Seq<Note> {
    s.map_values(|x: Sample| x@)
}

/// A game under way.
pub struct Recorder {
    pub pos: Position,
    /// The hashes of the positions so far.
    pub keys: Vec<u64>,
    pub ply: usize,
    /// The last score as White sees it.
    pub white_score: i32,
    pub samples: Vec<Sample>,
}

/// A game under way over plain values.
pub struct Record {
    pub v: PosView,
    pub keys: Seq<u64>,
    pub ply: nat,
    pub white_score: int,
    pub notes: Seq<Note>,
}

/// The outcome of a game that is over before the next move.
pub open spec fn concluded(r: Record) -> Option<Outcome> {
    if legal_moves(r.v).len() == 0 {
        Some(
            if r.v.in_check() {
                mated(r.v.side)
            } else {
                Outcome::Draw
            },
        )
    } else if r.v.half >= 100 {
        Some(Outcome::Draw)
    } else if times(r.keys, hash(r.v)) >= 3 {
        Some(Outcome::Draw)
    } else if r.ply >= MAX_GAME_PLIES {
        Some(adjudged(r.white_score))
    } else {
        None
    }
}

/// A position is worth recording: nobody is in check, and the best move is
/// neither a capture nor a promotion.
pub open spec fn worth_recording(v: PosView, best: Move) -> bool {
    !v.in_check() && !forcing(v, best)
}

/// The game after a move with its score.
pub open spec fn after_reply(r: Record, best: Move, score: int) -> Record {
    let w = apply(r.v, best);
    Record {
        v: w,
        keys: r.keys.push(hash(w)),
        ply: r.ply + 1,
        white_score: match r.v.side {
            Color::White => score,
            Color::Black => -score,
        },
        notes: if worth_recording(r.v, best) {
            r.notes.push(Note { fen: fen_text(r.v), score: clamped(score), stm: r.v.side })
        } else {
            r.notes
        },
    }
}

impl View for Recorder {
    type V = Record;

    open spec fn view(&self) -> Record {
        Record {
            v: self.pos@,
            keys: self.keys@,
            ply: self.ply as nat,
            white_score: self.white_score as int,
            notes: notes(self.samples@),
        }
    }
}

impl Recorder {
    /// Begin a game with random moves; nothing if it ends within them.
    pub fn begin(rng: &mut SplitMix64) -> (r: Option<Recorder>)
        ensures
            match r {
                Some(g) => {
                    &&& g.pos.wf()
                    &&& opened(old(rng).state) == Some(
                        Start {
                            v: g@.v,
                            keys: g@.keys,
                            plies: g@.ply,
                            state: final(rng).state,
                        },
                    )
                    &&& g@.white_score == 0
                    &&& g@.notes == Seq::<Note>::empty()
                    &&& OPENING_MIN_PLIES <= g@.ply <= OPENING_MAX_PLIES
                    &&& legal_moves(g@.v).len() > 0
                },
                None => opened(old(rng).state) is None,
            },
    {
        let ghost seed = rng.state;
        let mut pos = Position::startpos();
        let mut keys: Vec<u64> = Vec::new();
        keys.push(pos.key());
        let plies: usize = OPENING_MIN_PLIES + rng.below(
            OPENING_MAX_PLIES - OPENING_MIN_PLIES + 1,
        );
        let ghost first = Start {
            v: start_view(),
            keys: seq![hash(start_view())],
            plies: 0,
            state: rng::counter(seed, 1),
        };
        let mut i: usize = 0;
        assert(keys@ =~= first.keys);
        while i < plies
            invariant
                i <= plies <= OPENING_MAX_PLIES,
                pos.wf(),
                strolled(
                    Start { v: pos@, keys: keys@, plies: i as nat, state: rng.state },
                    (plies - i) as nat,
                ) == strolled(first, plies as nat),
                opening_length(seed) == plies,
                first == (Start {
                    v: start_view(),
                    keys: seq![hash(start_view())],
                    plies: 0,
                    state: rng::counter(seed, 1),
                }),
                seed == old(rng).state,
            decreases plies - i,
        {
            let moves = generate_legal(&pos);
            if moves.is_empty() {
                return None;
            }
            let ghost v = pos@;
            let k: usize = rng.below(moves.len());
            proof {
                movegen::lemma_listed_legal(v, k as int);
            }
            let _ = pos.make_move(moves.get(k));
            keys.push(pos.key());
            i = i + 1;
        }
        if generate_legal(&pos).is_empty() {
            return None;
        }
        let samples: Vec<Sample> = Vec::new();
        assert(notes(samples@) =~= Seq::<Note>::empty());
        Some(Recorder { pos, keys, ply: plies, white_score: 0, samples })
    }

    /// The outcome if the game is over before the next move.
    pub fn outcome(&self) -> (r: Option<Outcome>)
        requires
            self.pos.wf(),
        ensures
            r == concluded(self@),
    {
        let moves = generate_legal(&self.pos);
        if moves.is_empty() {
            return Some(
                if self.pos.in_check() {
                    mated_outcome(self.pos.side_to_move())
                } else {
                    Outcome::Draw
                },
            );
        }
        if self.pos.halfmove_clock() >= 100 {
            return Some(Outcome::Draw);
        }
        if occurrences(&self.keys, self.pos.key()) >= 3 {
            return Some(Outcome::Draw);
        }
        if self.ply >= MAX_GAME_PLIES {
            return Some(adjudicate(self.white_score));
        }
        None
    }

    /// Record the position if it is worth it, and play the best move.
    pub fn reply(&mut self, best: Move, score: i32)
        requires
            old(self).pos.wf(),
            legal(old(self)@.v, best),
            old(self).ply < usize::MAX,
            score > i32::MIN,
        ensures
            final(self).pos.wf(),
            final(self)@ == after_reply(old(self)@, best, score as int),
    {
        let stm = self.pos.side_to_move();
        self.white_score = match stm {
            Color::White => score,
            Color::Black => -score,
        };
        if !self.pos.in_check() && !search::is_capture_or_promo(&self.pos, best) {
            let ghost before = self.samples@;
            let sample = Sample { fen: self.pos.to_fen(), stm_score: clamp_score(score), stm };
            self.samples.push(sample);
            assert(notes(self.samples@) =~= notes(before).push(sample@));
        }
        let _ = self.pos.make_move(best);
        self.keys.push(self.pos.key());
        self.ply = self.ply + 1;
    }
}

// ---------------------------------------------------------------------------
// Self-play.
// ---------------------------------------------------------------------------

/// A search in a game: what was in mind before it, and what it found.
pub struct Turn {
    pub mind: Mind,
    pub found: Found,
}

/// What the searches of a game have in common: the network, the limits and the stop
/// flag.
pub struct Setup<N: Network> {
    pub net: Option<N>,
    pub limits: SearchLimits,
    pub stop: Arc<AtomicBool>,
}

/// The game after searches and the moves they found.
pub open spec fn game_after(r: Record, turns: Seq<Turn>) -> Record
    decreases turns.len(),
{
    if turns.len() == 0 {
        r
    } else {
        after_reply(
            game_after(r, turns.drop_last()),
            turns.last().found.best_move,
            turns.last().found.score,
        )
    }
}

/// What is in mind after these turns.
pub open spec fn mind_after(mind: Mind, turns: Seq<Turn>) -> Mind {
    if turns.len() == 0 {
        mind
    } else {
        turns.last().found.mind
    }
}

/// The turns are a game from `r`: before each the game is not over, and each is
/// a search of the position that the turns before it lead to, with what they left in
/// mind.
pub open spec fn faithful<N: Network>(
    r: Record,
    mind: Mind,
    turns: Seq<Turn>,
    setup: Setup<N>,
) -> bool
    decreases turns.len(),
{
    turns.len() == 0 || {
        let before = turns.drop_last();
        let t = turns.last();
        &&& faithful(r, mind, before, setup)
        &&& concluded(game_after(r, before)) is None
        &&& t.mind == mind_after(mind, before)
        &&& finds(
            setup.net,
            t.mind,
            game_after(r, before).v,
            setup.limits,
            &setup.stop,
            t.found,
        )
    }
}

/// The game right after its opening.
pub open spec fn first_record(st: Start) -> Record {
    Record { v: st.v, keys: st.keys, ply: st.plies, white_score: 0, notes: seq![] }
}

/// The turns are a whole game after an opening, with this outcome and these
/// recorded positions.
pub open spec fn whole_game<N: Network>(
    st: Start,
    mind: Mind,
    turns: Seq<Turn>,
    setup: Setup<N>,
    o: Outcome,
    ns: Seq<Note>,
) -> bool {
    &&& faithful(first_record(st), mind, turns, setup)
    &&& concluded(game_after(first_record(st), turns)) == Some(o)
    &&& game_after(first_record(st), turns).notes == ns
}

/// What the searches of a game by this searcher have in common.
pub open spec fn setup_of<N: Network>(
    s: Searcher<N>,
    limits: SearchLimits,
    stop: Arc<AtomicBool>,
) -> Setup<N> {
    Setup { net: s.net, limits, stop }
}

/// Play a game: random moves at the start, then the engine against itself.
/// Nothing if the game ends within the random moves.
#[verifier::rlimit(30)]
pub fn run_game<N: Network>(
    searcher: &mut Searcher<N>,
    limits: &SearchLimits,
    stop: &Arc<AtomicBool>,
    rng: &mut SplitMix64,
    out: &mut Vec<Sample>,
) -> (r: Option<Outcome>)
    requires
        old(searcher).wf(),
    ensures
        final(searcher).wf(),
        final(searcher).net == old(searcher).net,
        match r {
            Some(o) => opened(old(rng).state) is Some && exists|turns: Seq<Turn>, ns: Seq<Note>|
                #[trigger] whole_game(
                    opened(old(rng).state)->0,
                    old(searcher).mind(),
                    turns,
                    setup_of(*old(searcher), *limits, *stop),
                    o,
                    ns,
                ) && notes(final(out)@) == notes(old(out)@) + ns,
            None => {
                &&& opened(old(rng).state) is None
                &&& *final(searcher) == *old(searcher)
                &&& final(out)@ == old(out)@
            },
        },
{
    let ghost seed = rng.state;
    let ghost mind = searcher.mind();
    let ghost setup = setup_of(*searcher, *limits, *stop);
    let mut game = match Recorder::begin(rng) {
        Some(g) => g,
        None => {
            return None;
        },
    };
    let ghost st = opened(seed)->0;
    let ghost first = first_record(st);
    let ghost mut turns: Seq<Turn> = seq![];
    assert(game@ =~= first);
    loop
        invariant
            searcher.wf(),
            searcher.net == old(searcher).net,
            game.pos.wf(),
            game.ply <= MAX_GAME_PLIES,
            game@ == game_after(first, turns),
            faithful(first, mind, turns, setup),
            searcher.mind() == mind_after(mind, turns),
            mind == old(searcher).mind(),
            setup == setup_of(*old(searcher), *limits, *stop),
            out@ == old(out)@,
            first == first_record(st),
            opened(old(rng).state) == Some(st),
        decreases MAX_GAME_PLIES - game.ply,
    {
        match game.outcome() {
            Some(o) => {
                let ghost ns = game@.notes;
                let ghost before = out@;
                let ghost all = game.samples@;
                out.append(&mut game.samples);
                proof {
                    assert(notes(out@) =~= notes(before) + ns);
                    assert(whole_game(st, mind, turns, setup, o, ns));
                }
                return Some(o);
            },
            None => {},
        }
        let ghost was = searcher.mind();
        let ghost v = game@.v;
        let result = searcher.search(&game.pos, limits, stop);
        proof {
            let t = Turn { mind: was, found: searcher.found(result) };
            let longer = turns.push(t);
            assert(longer.drop_last() =~= turns);
            turns = longer;
        }
        game.reply(result.best_move, result.score);
    }
}

/// A recorded position with the result of its game.
pub struct Labeled {
    pub fen: String,
    pub stm_score: i32,
    /// The half points of the player to move.
    pub result: u8,
}

/// A recorded position with its result over plain values.
pub struct Label {
    pub fen: Seq<char>,
    pub score: int,
    pub halves: int,
}

impl View for Labeled {
    type V = Label;

    open spec fn view(&self) -> Label {
        Label { fen: self.fen@, score: self.stm_score as int, halves: self.result as int }
    }
}

/// Labeled positions over plain values.
pub open spec fn labels(s: Seq<Labeled>) -> Seq<Label> {
    s.map_values(|x: Labeled| x@)
}

/// A recorded position with the outcome as its player to move sees it.
pub open spec fn label_of(n: Note, o: Outcome) -> Label {
    Label { fen: n.fen, score: n.score, halves: o.halves(n.stm) }
}

/// Recorded positions with the outcome as their players to move see it.
pub open spec fn labeled(ns: Seq<Note>, o: Outcome) -> Seq<Label> {
    ns.map_values(|n: Note| label_of(n, o))
}

/// The seed of attempt number `k` at a game.
pub open spec fn attempt_seed(seed: u64, k: u64) -> u64 {
    seed ^ k.wrapping_mul(0xA076_1D64_78BD_642Fu64)
}

/// How often a game is attempted.
pub const ATTEMPTS: u64 = 8;

/// The first attempt from number `k` on that gets past its opening.
pub open spec fn lucky_attempt(seed: u64, k: u64) -> Option<u64>
    decreases ATTEMPTS - k,
{
    if k >= ATTEMPTS {
        None
    } else if opened(attempt_seed(seed, k)) is Some {
        Some(k)
    } else {
        lucky_attempt(seed, (k + 1) as u64)
    }
}

/// Play a game and add its recorded positions, with the result as the player to
/// move sees it.  Returns how many there are.
#[verifier::rlimit(30)]
pub fn play_game_labeled<N: Network>(
    searcher: &mut Searcher<N>,
    limits: &SearchLimits,
    stop: &Arc<AtomicBool>,
    game_seed: u64,
    out: &mut Vec<Labeled>,
) -> (r: usize)
    requires
        old(searcher).wf(),
    ensures
        final(searcher).wf(),
        final(searcher).net == old(searcher).net,
        match lucky_attempt(game_seed, 0) {
            Some(k) => exists|turns: Seq<Turn>, o: Outcome, ns: Seq<Note>|
                #[trigger] whole_game(
                    opened(attempt_seed(game_seed, k))->0,
                    old(searcher).mind(),
                    turns,
                    setup_of(*old(searcher), *limits, *stop),
                    o,
                    ns,
                ) && labels(final(out)@) == labels(old(out)@) + labeled(ns, o) && r == ns.len(),
            None => {
                &&& r == 0
                &&& final(out)@ == old(out)@
                &&& *final(searcher) == *old(searcher)
            },
        },
{
    let mut attempt: u64 = 0;
    while attempt < ATTEMPTS
        invariant
            attempt <= ATTEMPTS,
            *searcher == *old(searcher),
            searcher.wf(),
            out@ == old(out)@,
            lucky_attempt(game_seed, attempt) == lucky_attempt(game_seed, 0),
        decreases ATTEMPTS - attempt,
    {
        let seed: u64 = game_seed ^ attempt.wrapping_mul(0xA076_1D64_78BD_642F);
        let mut rng = SplitMix64::new(seed);
        let mut raw: Vec<Sample> = Vec::new();
        assert(notes(raw@) =~= Seq::<Note>::empty());
        match run_game(searcher, limits, stop, &mut rng, &mut raw) {
            Some(o) => {
                let ghost ns = notes(raw@);
                proof {
                    assert(Seq::<Note>::empty() + ns =~= ns);
                    let (turns, found) = choose|turns: Seq<Turn>, found: Seq<Note>|
                        #[trigger] whole_game(
                            opened(seed)->0,
                            old(searcher).mind(),
                            turns,
                            setup_of(*old(searcher), *limits, *stop),
                            o,
                            found,
                        ) && ns == Seq::<Note>::empty() + found;
                    assert(found =~= ns);
                    assert(whole_game(
                        opened(attempt_seed(game_seed, attempt))->0,
                        old(searcher).mind(),
                        turns,
                        setup_of(*old(searcher), *limits, *stop),
                        o,
                        ns,
                    ));
                }
                return label_all(&raw, o, out);
            },
            None => {},
        }
        attempt = attempt + 1;
    }
    0
}

/// Add recorded positions with the outcome as their players to move see it.
fn label_all(raw: &Vec<Sample>, o: Outcome, out: &mut Vec<Labeled>) -> (r: usize)
    ensures
        labels(final(out)@) == labels(old(out)@) + labeled(notes(raw@), o),
        r == raw@.len(),
{
    let mut i: usize = 0;
    let ghost ns = notes(raw@);
    assert(labels(out@) =~= labels(old(out)@) + labeled(ns, o).take(0));
    while i < raw.len()
        invariant
            i <= raw@.len(),
            ns == notes(raw@),
            labels(out@) == labels(old(out)@) + labeled(ns, o).take(i as int),
        decreases raw@.len() - i,
    {
        let s = &raw[i];
        let ghost before = out@;
        let l = Labeled {
            fen: text::copy(s.fen.as_str()),
            stm_score: s.stm_score,
            result: o.result_for(s.stm),
        };
        out.push(l);
        proof {
            assert(ns[i as int] == raw@[i as int]@);
            assert(l@ == label_of(ns[i as int], o));
            assert(labels(out@) =~= labels(before).push(l@));
            assert(labeled(ns, o).take(i as int + 1) =~= labeled(ns, o).take(i as int).push(l@));
        }
        i = i + 1;
        assert(labels(out@) =~= labels(old(out)@) + labeled(ns, o).take(i as int));
    }
    assert(labeled(ns, o).take(i as int) =~= labeled(ns, o));
    raw.len()
}

// ---------------------------------------------------------------------------
// What holds of every game.
// ---------------------------------------------------------------------------

/// The beginning of a game is a game.
proof fn lemma_faithful_prefix<N: Network>(
    r: Record,
    mind: Mind,
    turns: Seq<Turn>,
    setup: Setup<N>,
    k: int,
)
    requires
        faithful(r, mind, turns, setup),
        0 <= k <= turns.len(),
    ensures
        faithful(r, mind, turns.take(k), setup),
        k < turns.len() ==> concluded(game_after(r, turns.take(k))) is None,
    decreases turns.len(),
{
    if k == turns.len() {
        assert(turns.take(k) =~= turns);
    } else {
        let before = turns.drop_last();
        assert(turns.take(k) =~= before.take(k));
        lemma_faithful_prefix(r, mind, before, setup, k);
        if k == before.len() {
            assert(before.take(k) =~= before);
        }
    }
}

/// Every turn of a game adds one ply.
proof fn lemma_plies(r: Record, turns: Seq<Turn>)
    ensures
        game_after(r, turns).ply == r.ply + turns.len(),
    decreases turns.len(),
{
    if turns.len() > 0 {
        lemma_plies(r, turns.drop_last());
    }
}

/// A player who is checkmated loses the game, and the other player wins it; without a
/// check and without a legal move nobody does.
pub proof fn law_mated_players_lose(r: Record)
    requires
        rules::stuck(r.v),
    ensures
        concluded(r) is Some,
        r.v.in_check() && r.v.side == Color::White ==> concluded(r)->0 == Outcome::BlackWin,
        r.v.in_check() && r.v.side == Color::Black ==> concluded(r)->0 == Outcome::WhiteWin,
        r.v.in_check() ==> concluded(r)->0.halves(r.v.side) == 0 && concluded(r)->0.halves(
            r.v.side.other(),
        ) == 2,
        !r.v.in_check() ==> concluded(r)->0 == Outcome::Draw,
{
    movegen::lemma_stuck(r.v);
}

/// The outcome names the winner.
pub open spec fn won_by(o: Outcome, w: Winner) -> bool {
    match o {
        Outcome::WhiteWin => w == Winner::White,
        Outcome::BlackWin => w == Winner::Black,
        Outcome::Draw => w == Winner::Draw,
    }
}

/// Where the referee of a match ends a game, other than for want of material or for its
/// length, a generated game ends too, with the same winner.
pub proof fn law_outcomes_follow_the_referee(r: Record, maxplies: int)
    requires
        referee::verdict(r.v, r.keys, r.ply as int, maxplies) is Some,
        referee::verdict(r.v, r.keys, r.ply as int, maxplies)->0.reason != Reason::Material,
        referee::verdict(r.v, r.keys, r.ply as int, maxplies)->0.reason != Reason::MaxPlies,
    ensures
        concluded(r) is Some,
        won_by(
            concluded(r)->0,
            referee::verdict(r.v, r.keys, r.ply as int, maxplies)->0.winner,
        ),
{
}

/// While the player to move has a legal move, a game is drawn after a hundred plies
/// without a capture or a pawn move and at the third occurrence of its position; it goes
/// on otherwise until it is too long.
pub proof fn law_draws_and_long_games(r: Record)
    requires
        !rules::stuck(r.v),
    ensures
        r.v.half >= 100 || referee::thrice(r.keys, hash(r.v)) ==> concluded(r) == Some(
            Outcome::Draw,
        ),
        r.v.half < 100 && !referee::thrice(r.keys, hash(r.v)) ==> (concluded(r) is Some <==> r.ply
            >= 200),
{
    movegen::lemma_stuck(r.v);
    referee::law_counts_find_the_places(r.keys, hash(r.v));
}

/// A game that is too long is won by the player whose last search saw an advantage of more
/// than eight pawns, lost by one who saw such a disadvantage, and drawn otherwise, whatever
/// the color of the player who moved last.
pub proof fn law_long_games_are_adjudicated(r: Record, best: Move, score: int)
    requires
        !rules::stuck(apply(r.v, best)),
        apply(r.v, best).half < 100,
        !referee::thrice(r.keys.push(hash(apply(r.v, best))), hash(apply(r.v, best))),
        r.ply >= 199,
    ensures
        concluded(after_reply(r, best, score)) is Some,
        score > 800 ==> concluded(after_reply(r, best, score))->0.halves(r.v.side) == 2,
        score < -800 ==> concluded(after_reply(r, best, score))->0.halves(r.v.side) == 0,
        -800 <= score <= 800 ==> concluded(after_reply(r, best, score)) == Some(Outcome::Draw),
{
    movegen::lemma_stuck(apply(r.v, best));
    referee::law_counts_find_the_places(
        r.keys.push(hash(apply(r.v, best))),
        hash(apply(r.v, best)),
    );
}

/// Each move leads to the position that it makes, which is remembered, and is one more ply.
pub proof fn law_replies_are_played(r: Record, best: Move, score: int)
    ensures
        after_reply(r, best, score).v == apply(r.v, best),
        after_reply(r, best, score).ply == r.ply + 1,
        after_reply(r, best, score).keys.len() == r.keys.len() + 1,
        after_reply(r, best, score).keys.last() == hash(apply(r.v, best)),
        forall|i: int|
            0 <= i < r.keys.len() ==> #[trigger] after_reply(r, best, score).keys[i] == r.keys[i],
{
}

/// A position is recorded exactly if nobody is in check and the best move neither takes a
/// piece nor promotes a pawn: as it is before the move, with the player to move and the
/// score as that player sees it, within thirty pawns.
pub proof fn law_quiet_positions_are_recorded(r: Record, best: Move, score: int)
    requires
        legal(r.v, best),
    ensures
        r.v.in_check() ==> after_reply(r, best, score).notes == r.notes,
        best.kind == MoveType::Promotion || best.kind == MoveType::EnPassant
            ==> after_reply(r, best, score).notes == r.notes,
        best.kind != MoveType::Castling && r.v.board[best.to.i()] is Some
            ==> after_reply(r, best, score).notes == r.notes,
        !r.v.in_check() && (best.kind == MoveType::Castling || best.kind == MoveType::Normal
            && r.v.board[best.to.i()] is None) ==> {
            let n = after_reply(r, best, score).notes;
            &&& n.len() == r.notes.len() + 1
            &&& n.drop_last() =~= r.notes
            &&& n.last().fen == fen_text(r.v)
            &&& n.last().stm == r.v.side
            &&& -3000 <= score <= 3000 ==> n.last().score == score
            &&& score > 3000 ==> n.last().score == 3000
            &&& score < -3000 ==> n.last().score == -3000
        },
{
}

/// In a game that ends in mate, the positions in which the mated player was to move are
/// labeled as lost and the others as won; the labels keep the positions and scores.
pub proof fn law_labels_tell_who_won(r: Record, ns: Seq<Note>, i: int)
    requires
        rules::stuck(r.v),
        r.v.in_check(),
        0 <= i < ns.len(),
    ensures
        labeled(ns, concluded(r)->0).len() == ns.len(),
        labeled(ns, concluded(r)->0)[i].fen == ns[i].fen,
        labeled(ns, concluded(r)->0)[i].score == ns[i].score,
        ns[i].stm == r.v.side ==> points_text(labeled(ns, concluded(r)->0)[i].halves) == "0.0"@,
        ns[i].stm != r.v.side ==> points_text(labeled(ns, concluded(r)->0)[i].halves) == "1.0"@,
{
    law_mated_players_lose(r);
    assert(ns[i].stm != r.v.side ==> ns[i].stm == r.v.side.other());
}

/// In a drawn game every position is labeled with half a point.
pub proof fn law_draws_are_labeled_as_halves(ns: Seq<Note>, i: int)
    requires
        0 <= i < ns.len(),
    ensures
        points_text(labeled(ns, Outcome::Draw)[i].halves) == "0.5"@,
{
}

/// The position after moves.
pub open spec fn played(v: PosView, ms: Seq<Move>) -> PosView
    decreases ms.len(),
{
    if ms.len() == 0 {
        v
    } else {
        apply(played(v, ms.drop_last()), ms.last())
    }
}

/// All the moves are legal when they are played.
pub open spec fn all_played_legally(v: PosView, ms: Seq<Move>) -> bool {
    forall|i: int| 0 <= i < ms.len() ==> legal(played(v, ms.take(i)), #[trigger] ms[i])
}

/// A game after one random move.
pub open spec fn strode(st: Start) -> Start {
    let w = apply(st.v, picked(st.v, st.state));
    Start {
        v: w,
        keys: st.keys.push(hash(w)),
        plies: st.plies + 1,
        state: rng::counter(st.state, 1),
    }
}

/// The random moves.
pub open spec fn strides(st: Start, n: nat) -> Seq<Move>
    decreases n,
{
    if n == 0 {
        seq![]
    } else {
        seq![picked(st.v, st.state)] + strides(strode(st), (n - 1) as nat)
    }
}

/// Random moves are legal moves, one for each ply.
proof fn lemma_strolled(st: Start, n: nat)
    requires
        strolled(st, n) is Some,
    ensures
        strides(st, n).len() == n,
        all_played_legally(st.v, strides(st, n)),
        strolled(st, n)->0.v == played(st.v, strides(st, n)),
        strolled(st, n)->0.plies == st.plies + n,
    decreases n,
{
    if n > 0 {
        let m = picked(st.v, st.state);
        let count = legal_moves(st.v).len() as int;
        let k = rng::output(st.state, 0) as int % count;
        assert(0 <= k < count);
        movegen::lemma_listed_legal(st.v, k);
        let next = strode(st);
        lemma_strolled(next, (n - 1) as nat);
        let rest = strides(next, (n - 1) as nat);
        let ms = strides(st, n);
        lemma_played_cons(st.v, m, rest);
        assert forall|i: int| 0 <= i < ms.len() implies legal(
            played(st.v, ms.take(i)),
            #[trigger] ms[i],
        ) by {
            if i == 0 {
                assert(ms.take(0) =~= seq![]);
            } else {
                assert(ms[i] == rest[i - 1]);
                assert(ms.take(i) =~= seq![m] + rest.take(i - 1));
                lemma_played_cons(st.v, m, rest.take(i - 1));
                assert(legal(played(next.v, rest.take(i - 1)), rest[i - 1]));
            }
        }
    }
}

proof fn lemma_strides_len(st: Start, n: nat)
    ensures
        strides(st, n).len() == n,
    decreases n,
{
    if n > 0 {
        lemma_strides_len(strode(st), (n - 1) as nat);
    }
}

/// What was remembered stays, and one position more is remembered for each move.
proof fn lemma_strolled_keys(st: Start, n: nat, i: int)
    requires
        strolled(st, n) is Some,
        0 <= i < st.keys.len(),
    ensures
        strolled(st, n)->0.keys.len() == st.keys.len() + n,
        strolled(st, n)->0.keys[i] == st.keys[i],
    decreases n,
{
    if n > 0 {
        let next = strode(st);
        assert(strolled(st, n) == strolled(next, (n - 1) as nat));
        lemma_strolled_keys(next, (n - 1) as nat, i);
    }
}

/// Every position on the way is remembered.
proof fn lemma_strolled_key(st: Start, n: nat, i: int)
    requires
        strolled(st, n) is Some,
        1 <= i <= n,
        st.keys.len() > 0,
    ensures
        strolled(st, n)->0.keys[st.keys.len() + i - 1] == hash(
            played(st.v, strides(st, n).take(i)),
        ),
    decreases n,
{
    let m = picked(st.v, st.state);
    let next = strode(st);
    let k = (n - 1) as nat;
    assert(strolled(st, n) == strolled(next, k));
    lemma_strides_len(next, k);
    let rest = strides(next, k);
    assert(strides(st, n) == seq![m] + rest);
    assert(strides(st, n).take(i) =~= seq![m] + rest.take(i - 1));
    lemma_played_cons(st.v, m, rest.take(i - 1));
    if i == 1 {
        assert(rest.take(0) =~= seq![]);
        lemma_strolled_keys(next, k, st.keys.len() as int);
        assert(next.keys[st.keys.len() as int] == hash(next.v));
    } else {
        lemma_strolled_key(next, k, i - 1);
    }
}

/// A move and the moves after it.
proof fn lemma_played_cons(v: PosView, m: Move, rest: Seq<Move>)
    ensures
        played(v, seq![m] + rest) == played(apply(v, m), rest),
    decreases rest.len(),
{
    if rest.len() == 0 {
        assert((seq![m] + rest).drop_last() =~= seq![]);
        assert(played(v, Seq::<Move>::empty()) == v);
    } else {
        assert((seq![m] + rest).drop_last() =~= seq![m] + rest.drop_last());
        lemma_played_cons(v, m, rest.drop_last());
    }
}

/// A generated game begins with four to ten legal moves from the start position, after
/// which it is not over, and whose hashes are remembered.
pub proof fn law_openings_are_played(seed: u64) -> (ms: Seq<Move>)
    requires
        opened(seed) is Some,
    ensures
        4 <= ms.len() <= 10,
        all_played_legally(start_view(), ms),
        opened(seed)->0.v == played(start_view(), ms),
        opened(seed)->0.plies == ms.len(),
        opened(seed)->0.keys.len() == ms.len() + 1,
        opened(seed)->0.keys.last() == hash(opened(seed)->0.v),
        forall|i: int|
            0 <= i <= ms.len() ==> #[trigger] opened(seed)->0.keys[i] == hash(
                played(start_view(), ms.take(i)),
            ),
        !rules::stuck(opened(seed)->0.v),
{
    let st = Start {
        v: start_view(),
        keys: seq![hash(start_view())],
        plies: 0,
        state: rng::counter(seed, 1),
    };
    movegen::lemma_stuck(opened(seed)->0.v);
    let n = opening_length(seed);
    let ms = strides(st, n);
    lemma_strolled(st, n);
    lemma_strolled_keys(st, n, 0);
    let keys = opened(seed)->0.keys;
    assert forall|i: int| 0 <= i <= ms.len() implies #[trigger] keys[i] == hash(
        played(start_view(), ms.take(i)),
    ) by {
        if i == 0 {
            assert(ms.take(0) =~= seq![]);
        } else {
            lemma_strolled_key(st, n, i);
        }
    }
    assert(ms.take(ms.len() as int) =~= ms);
    ms
}

/// In a generated game every move is legal in the position it is played in, the game is not
/// over before the last move, and its outcome is that of its last position.
pub proof fn law_generated_games_are_games<N: Network>(
    st: Start,
    mind: Mind,
    turns: Seq<Turn>,
    setup: Setup<N>,
    o: Outcome,
    ns: Seq<Note>,
    k: int,
)
    requires
        whole_game(st, mind, turns, setup, o, ns),
        0 <= k < turns.len(),
    ensures
        legal(game_after(first_record(st), turns.take(k)).v, turns[k].found.best_move),
        game_after(first_record(st), turns.take(k + 1)).v == apply(
            game_after(first_record(st), turns.take(k)).v,
            turns[k].found.best_move,
        ),
        concluded(game_after(first_record(st), turns.take(k))) is None,
        concluded(game_after(first_record(st), turns)) == Some(o),
        game_after(first_record(st), Seq::<Turn>::empty()).v == st.v,
        finds(
            setup.net,
            turns[k].mind,
            game_after(first_record(st), turns.take(k)).v,
            setup.limits,
            &setup.stop,
            turns[k].found,
        ),
        turns[k].mind == (if k == 0 {
            mind
        } else {
            turns[k - 1].found.mind
        }),
{
    let r = first_record(st);
    lemma_faithful_prefix(r, mind, turns, setup, k);
    lemma_faithful_prefix(r, mind, turns, setup, k + 1);
    let t = turns.take(k + 1);
    assert(t.drop_last() =~= turns.take(k));
    assert(t.last() == turns[k]);
}

/// A limit on nodes takes the place of the limit on the depth; there is no other.
pub proof fn law_one_limit_for_each_search(depth: u32, nodes: u64)
    ensures
        limits_for(depth, None).depth == Some(depth) && limits_for(depth, None).nodes is None,
        limits_for(depth, Some(nodes)).depth is None && limits_for(depth, Some(nodes)).nodes
            == Some(nodes),
        limits_for(depth, None).budget(Color::White) is None,
        limits_for(depth, Some(nodes)).budget(Color::Black) is None,
{
}

/// No game is longer than the limit on plies.
pub proof fn law_generated_games_end<N: Network>(
    r: Record,
    mind: Mind,
    turns: Seq<Turn>,
    setup: Setup<N>,
)
    requires
        r.ply <= MAX_GAME_PLIES,
        faithful(r, mind, turns, setup),
    ensures
        r.ply + turns.len() <= MAX_GAME_PLIES,
    decreases turns.len(),
{
    if turns.len() > 0 {
        lemma_plies(r, turns.drop_last());
    }
}

/// Every recorded position is one of the game in which nobody is in check and
/// the best move is quiet, with its score within the bounds.
pub proof fn law_recorded_positions_are_quiet(st: Start, turns: Seq<Turn>, i: int) -> (k: int)
    requires
        0 <= i < game_after(first_record(st), turns).notes.len(),
    ensures
        0 <= k < turns.len(),
        ({
            let v = game_after(first_record(st), turns.take(k)).v;
            let note = game_after(first_record(st), turns).notes[i];
            &&& worth_recording(v, turns[k].found.best_move)
            &&& note.fen == fen_text(v)
            &&& note.stm == v.side
            &&& note.score == clamped(turns[k].found.score)
            &&& -SCORE_CLAMP <= note.score <= SCORE_CLAMP
        }),
    decreases turns.len(),
{
    let r = first_record(st);
    assert(turns.len() > 0);
    let before = turns.drop_last();
    let g = game_after(r, before);
    let last = turns.len() - 1;
    if i < g.notes.len() {
        let k = law_recorded_positions_are_quiet(st, before, i);
        assert(before.take(k) =~= turns.take(k));
        assert(before[k] == turns[k]);
        k
    } else {
        assert(turns.take(last) =~= before);
        last
    }
}

/// Two turns found the same.
pub open spec fn alike(a: Turn, b: Turn) -> bool {
    &&& a.found.best_move == b.found.best_move
    &&& a.found.score == b.found.score
    &&& a.found.depth == b.found.depth
    &&& a.found.pv == b.found.pv
    &&& a.found.mind == b.found.mind
}

/// No search of the turns was called off.
pub open spec fn undisturbed(turns: Seq<Turn>) -> bool {
    forall|i: int| 0 <= i < turns.len() ==> !(#[trigger] turns[i]).found.stopped
}

/// Games of one length from one beginning are the same.
proof fn lemma_same_game<N: Network>(
    r: Record,
    mind: Mind,
    a: Seq<Turn>,
    b: Seq<Turn>,
    sa: Setup<N>,
    sb: Setup<N>,
)
    requires
        a.len() == b.len(),
        faithful(r, mind, a, sa),
        faithful(r, mind, b, sb),
        sa.net is None && sb.net is None,
        depth_cap(&sa.limits) == depth_cap(&sb.limits),
        undisturbed(a) && undisturbed(b),
    ensures
        game_after(r, a) == game_after(r, b),
        mind_after(mind, a) == mind_after(mind, b),
        forall|i: int| 0 <= i < a.len() ==> alike(#[trigger] a[i], b[i]),
    decreases a.len(),
{
    if a.len() > 0 {
        let x = a.drop_last();
        let y = b.drop_last();
        assert forall|i: int| 0 <= i < x.len() implies !(#[trigger] x[i]).found.stopped by {
            assert(x[i] == a[i]);
        }
        assert forall|i: int| 0 <= i < y.len() implies !(#[trigger] y[i]).found.stopped by {
            assert(y[i] == b[i]);
        }
        lemma_same_game(r, mind, x, y, sa, sb);
        assert(!a[a.len() - 1].found.stopped && !b[b.len() - 1].found.stopped);
        law_equal_searches_agree::<N>(
            a.last().mind,
            game_after(r, x).v,
            sa.limits,
            sb.limits,
            &sa.stop,
            &sb.stop,
            a.last().found,
            b.last().found,
        );
        assert forall|i: int| 0 <= i < a.len() implies alike(#[trigger] a[i], b[i]) by {
            if i < a.len() - 1 {
                assert(alike(x[i], y[i]));
            }
        }
    }
}

/// A game in which no search is called off is decided by its opening, by what the
/// engine has in mind and by the depth of the searches: it can be played again.
#[verifier::rlimit(30)]
pub proof fn law_games_are_reproducible<N: Network>(
    st: Start,
    mind: Mind,
    sa: Setup<N>,
    a: Seq<Turn>,
    oa: Outcome,
    na: Seq<Note>,
    sb: Setup<N>,
    b: Seq<Turn>,
    ob: Outcome,
    nb: Seq<Note>,
)
    requires
        whole_game(st, mind, a, sa, oa, na),
        whole_game(st, mind, b, sb, ob, nb),
        sa.net is None && sb.net is None,
        depth_cap(&sa.limits) == depth_cap(&sb.limits),
        undisturbed(a) && undisturbed(b),
    ensures
        a.len() == b.len(),
        forall|i: int| 0 <= i < a.len() ==> alike(#[trigger] a[i], b[i]),
        oa == ob,
        na == nb,
{
    let r = first_record(st);
    let n = if a.len() < b.len() {
        a.len() as int
    } else {
        b.len() as int
    };
    lemma_faithful_prefix(r, mind, a, sa, n);
    lemma_faithful_prefix(r, mind, b, sb, n);
    let x = a.take(n);
    let y = b.take(n);
    assert forall|i: int| 0 <= i < x.len() implies !(#[trigger] x[i]).found.stopped by {
        assert(x[i] == a[i]);
    }
    assert forall|i: int| 0 <= i < y.len() implies !(#[trigger] y[i]).found.stopped by {
        assert(y[i] == b[i]);
    }
    lemma_same_game(r, mind, x, y, sa, sb);
    assert(n == a.len() ==> x =~= a);
    assert(n == b.len() ==> y =~= b);
}

// ---------------------------------------------------------------------------
// The file.
// ---------------------------------------------------------------------------

/// Half points as a number between zero and one.
pub open spec fn points_text(halves: int) -> Seq<char> {
    if halves == 0 {
        "0.0"@
    } else if halves == 1 {
        "0.5"@
    } else {
        "1.0"@
    }
}

/// A line of the file: a position, a score and a result.
pub open spec fn line_text(l: Label) -> Seq<char> {
    l.fen + " | "@ + dec_int(l.score) + " | "@ + points_text(l.halves) + "\n"@
}

/// A line of the file: a position, a score and a result.
pub fn format_line(l: &Labeled) -> (r: String)
    ensures
        r@ == line_text(l@),
{
    let mut out = text::copy(l.fen.as_str());
    text::push_str(&mut out, " | ");
    text::push_i32(&mut out, l.stm_score);
    text::push_str(&mut out, " | ");
    text::push_str(
        &mut out,
        if l.result == 0 {
            "0.0"
        } else if l.result == 1 {
            "0.5"
        } else {
            "1.0"
        },
    );
    text::push_str(&mut out, "\n");
    out
}

/// How the searches of a run are limited.
pub open spec fn mode_text(depth: u32, nodes: Option<u64>) -> Seq<char> {
    match nodes {
        Some(n) => "nodes="@ + dec(n as nat),
        None => "depth="@ + dec(depth as nat),
    }
}

/// How the searches of a run are limited.
pub fn format_mode(cfg: &Config) -> (r: String)
    ensures
        r@ == mode_text(cfg.depth, cfg.nodes),
{
    match cfg.nodes {
        Some(n) => {
            let mut out = text::copy("nodes=");
            text::push_u64(&mut out, n);
            out
        },
        None => {
            let mut out = text::copy("depth=");
            text::push_u64(&mut out, cfg.depth as u64);
            out
        },
    }
}

/// The first line of the file, which says what the others hold.
pub open spec fn header_text(depth: u32, nodes: Option<u64>, seed: u64) -> Seq<char> {
    "# Mythos datagen: <FEN> | <stm_score_cp> | <stm_result>  (result 1.0/0.5/0.0 from side-to-move; score clamped to +/-"@
        + dec(SCORE_CLAMP as nat) + "cp; "@ + mode_text(depth, nodes) + ", seed="@ + dec(
        seed as nat,
    ) + ")"@
}

/// The first line of the file, which says what the others hold.
pub fn format_header(cfg: &Config) -> (r: String)
    ensures
        r@ == header_text(cfg.depth, cfg.nodes, cfg.seed),
{
    let mut out = text::copy(
        "# Mythos datagen: <FEN> | <stm_score_cp> | <stm_result>  (result 1.0/0.5/0.0 from side-to-move; score clamped to +/-",
    );
    text::push_u64(&mut out, SCORE_CLAMP as u64);
    text::push_str(&mut out, "cp; ");
    text::push_str(&mut out, format_mode(cfg).as_str());
    text::push_str(&mut out, ", seed=");
    text::push_u64(&mut out, cfg.seed);
    text::push_str(&mut out, ")");
    out
}

} // verus!
