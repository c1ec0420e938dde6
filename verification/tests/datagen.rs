use std::sync::atomic::AtomicBool;
use std::sync::Arc;

use mythos::datagen::{
    adjudicate, clamp_score, format_header, format_line, format_mode, mated_outcome, mix_seed,
    parse_args, play_game_labeled, run_game, search_limits, split_games, Config, Labeled, Outcome,
    Recorder, Sample,
};
use mythos::position::Position;
use mythos::rng::SplitMix64;
use mythos::search::Searcher;
use mythos::types::Color;

fn args(s: &str) -> Vec<String> {
    s.split_whitespace().map(|x| x.to_string()).collect()
}

#[test]
fn generation_arguments() {
    let c = parse_args(&args("out.txt"), 4).ok().unwrap();
    assert_eq!(c.output, "out.txt");
    assert_eq!((c.games, c.depth, c.nodes, c.threads, c.seed), (1000, 8, None, 4, 1));
    assert_eq!(parse_args(&args("out.txt"), 32).ok().unwrap().threads, 8);
    let c = parse_args(
        &args("--games 3 o --depth 2 --nodes 500 --threads 0 --seed 9"),
        4,
    )
    .ok()
    .unwrap();
    assert_eq!((c.games, c.depth, c.nodes, c.threads, c.seed), (3, 2, Some(500), 1, 9));
    let err = |s: &str| parse_args(&args(s), 4).err().unwrap();
    assert_eq!(
        err(""),
        "usage: datagen <output_file> [--games N] [--depth D] [--nodes X] [--threads T] [--seed S]"
    );
    assert_eq!(err("o --seed"), "--seed needs a value");
    assert_eq!(err("o --nodes -1"), "bad --nodes value: -1");
}

#[test]
fn games_are_shared_among_threads() {
    assert_eq!(split_games(10, 3), [(0, 4), (4, 7), (7, 10)]);
    assert_eq!(split_games(2, 4), [(0, 1), (1, 2), (2, 2), (2, 2)]);
    assert_eq!(split_games(0, 1), [(0, 0)]);
}

#[test]
fn seeds_differ_from_game_to_game() {
    let seeds: std::collections::HashSet<u64> = (0..1000).map(|g| mix_seed(1, g)).collect();
    assert_eq!(seeds.len(), 1000);
    let x = 1u64
        .wrapping_mul(0x9E37_79B9_7F4A_7C15)
        .wrapping_add(0xD1B5_4A32_D192_ED03);
    assert_eq!(mix_seed(1, 0), mythos::rng::scramble(x));
}

#[test]
fn scores_are_clamped() {
    assert_eq!(clamp_score(12), 12);
    assert_eq!(clamp_score(-2999), -2999);
    assert_eq!(clamp_score(3001), 3000);
    assert_eq!(clamp_score(-3001), -3000);
    assert_eq!(clamp_score(29_998), 3000);
    assert_eq!(clamp_score(-29_998), -3000);
}

#[test]
fn long_games_are_adjudicated() {
    assert_eq!(adjudicate(801), Outcome::WhiteWin);
    assert_eq!(adjudicate(800), Outcome::Draw);
    assert_eq!(adjudicate(-800), Outcome::Draw);
    assert_eq!(adjudicate(-801), Outcome::BlackWin);
    assert_eq!(mated_outcome(Color::White), Outcome::BlackWin);
    assert_eq!(mated_outcome(Color::Black), Outcome::WhiteWin);
}

#[test]
fn results_are_seen_by_the_player_to_move() {
    assert_eq!(Outcome::WhiteWin.result_for(Color::White), 2);
    assert_eq!(Outcome::WhiteWin.result_for(Color::Black), 0);
    assert_eq!(Outcome::BlackWin.result_for(Color::Black), 2);
    assert_eq!(Outcome::BlackWin.result_for(Color::White), 0);
    assert_eq!(Outcome::Draw.result_for(Color::White), 1);
}

#[test]
fn lines_and_header_are_written() {
    let l = Labeled {
        fen: "4k3/8/8/8/8/8/8/4K3 w - - 0 1".to_string(),
        stm_score: -25,
        result: 1,
    };
    assert_eq!(format_line(&l), "4k3/8/8/8/8/8/8/4K3 w - - 0 1 | -25 | 0.5\n");
    let c = Config {
        output: "o".to_string(),
        games: 1,
        depth: 6,
        nodes: None,
        threads: 1,
        seed: 5,
    };
    assert_eq!(
        format_header(&c),
        "# Mythos datagen: <FEN> | <stm_score_cp> | <stm_result>  (result 1.0/0.5/0.0 from side-to-move; score clamped to +/-3000cp; depth=6, seed=5)"
    );
    let c = Config { nodes: Some(800), ..c };
    assert_eq!(format_mode(&c), "nodes=800");
}

#[test]
fn searches_are_limited_by_nodes_or_depth() {
    let l = search_limits(6, None);
    assert_eq!((l.depth, l.nodes), (Some(6), None));
    let l = search_limits(6, Some(800));
    assert_eq!((l.depth, l.nodes), (None, Some(800)));
}

#[test]
fn openings_have_four_to_ten_random_moves() {
    for seed in 0..50u64 {
        let mut rng = SplitMix64::new(seed);
        let game = Recorder::begin(&mut rng).unwrap();
        assert!((4..=10).contains(&game.ply));
        assert_eq!(game.keys.len(), game.ply + 1);
        assert_eq!(*game.keys.last().unwrap(), game.pos.key());
        let plies = 4 + (SplitMix64::new(seed).next() % 7) as usize;
        assert_eq!(game.ply, plies);
    }
}

#[test]
fn only_quiet_positions_are_recorded() {
    let mut rng = SplitMix64::new(3);
    let mut game = Recorder::begin(&mut rng).unwrap();
    // A capture is available and best: nothing is recorded.
    game.pos = Position::from_fen("4k3/8/8/3q4/4P3/8/8/4K3 w - - 0 1").unwrap();
    let e4 = mythos::Square::make(4, 3);
    let d5 = mythos::Square::make(3, 4);
    game.reply(mythos::Move::normal(e4, d5), 900);
    assert!(game.samples.is_empty());
    assert_eq!(game.white_score, 900);
    // A quiet reply of Black is recorded with its score.
    let fen = game.pos.to_fen();
    let e8 = mythos::Square::make(4, 7);
    let e7 = mythos::Square::make(4, 6);
    game.reply(mythos::Move::normal(e8, e7), -4000);
    assert_eq!(game.samples.len(), 1);
    assert_eq!(game.samples[0].fen, fen);
    assert_eq!(game.samples[0].stm_score, -3000);
    assert_eq!(game.samples[0].stm, Color::Black);
    assert_eq!(game.white_score, 4000);
}

#[test]
fn games_are_played_and_can_be_played_again() {
    let limits = search_limits(1, None);
    let stop = Arc::new(AtomicBool::new(false));
    let run = || {
        let mut searcher = Searcher::new(1);
        let mut out: Vec<Labeled> = Vec::new();
        let n = play_game_labeled(&mut searcher, &limits, &stop, mix_seed(1, 0), &mut out);
        assert_eq!(n, out.len());
        out
    };
    let a = run();
    let b = run();
    assert!(!a.is_empty());
    assert_eq!(a.len(), b.len());
    for (x, y) in a.iter().zip(b.iter()) {
        assert_eq!((&x.fen, x.stm_score, x.result), (&y.fen, y.stm_score, y.result));
        let pos = Position::from_fen(&x.fen).unwrap();
        assert!(!pos.in_check());
        assert!(x.stm_score.abs() <= 3000 && x.result <= 2);
    }
    // Players to move of different colors see opposite results.
    for x in &a {
        for y in &a {
            let same = Position::from_fen(&x.fen).unwrap().side_to_move()
                == Position::from_fen(&y.fen).unwrap().side_to_move();
            assert_eq!(if same { x.result } else { 2 - x.result }, y.result);
        }
    }
}

#[test]
fn a_game_has_an_outcome() {
    let limits = search_limits(1, None);
    let stop = Arc::new(AtomicBool::new(false));
    let mut searcher = Searcher::new(1);
    let mut rng = SplitMix64::new(7);
    let mut out: Vec<Sample> = Vec::new();
    let o = run_game(&mut searcher, &limits, &stop, &mut rng, &mut out);
    assert!(o.is_some());
    assert!(out.len() <= 200);
}
