use mythos::arena::{
    a_is_white, format_game, go_command, is_bestmove, opening_of, parse_args, parse_bestmove,
    position_command, says, Score, Standing,
};
use mythos::position::Position;
use mythos::referee::{
    beats, check_game_over, insufficient_material, occurrences, Game, GameResult, Reason, Winner,
};
use mythos::types::Color;
use mythos::uci::{format_bestmove, parse_command, Command};

fn over(fen: &str, keys: &[u64], ply: usize, maxplies: usize) -> Option<GameResult> {
    let pos = Position::from_fen(fen).unwrap();
    check_game_over(&pos, &keys.to_vec(), ply, maxplies)
}

fn result(winner: Winner, reason: Reason) -> Option<GameResult> {
    Some(GameResult { winner, reason })
}

#[test]
fn games_end_for_each_reason() {
    assert_eq!(
        over("rnb1kbnr/pppp1ppp/8/4p3/6Pq/5P2/PPPPP2P/RNBQKBNR w KQkq - 1 3", &[], 4, 300),
        result(Winner::Black, Reason::Checkmate)
    );
    assert_eq!(
        over("k7/8/1Q6/2K5/8/8/8/8 b - - 0 1", &[], 4, 300),
        result(Winner::Draw, Reason::Stalemate)
    );
    assert_eq!(
        over("4k3/8/8/8/8/8/8/R3K3 w - - 100 80", &[], 4, 300),
        result(Winner::Draw, Reason::FiftyMoves)
    );
    let fen = "4k3/8/8/8/8/8/8/R3K3 w - - 0 1";
    let key = Position::from_fen(fen).unwrap().key();
    assert_eq!(over(fen, &[key, 1, key], 4, 300), None);
    assert_eq!(over(fen, &[key, 1, key, 2, key], 4, 300), result(Winner::Draw, Reason::Repetition));
    assert_eq!(
        over("4k3/8/8/8/8/8/8/4KB2 w - - 0 1", &[], 4, 300),
        result(Winner::Draw, Reason::Material)
    );
    assert_eq!(over(fen, &[], 300, 300), result(Winner::Draw, Reason::MaxPlies));
    assert_eq!(over(fen, &[], 299, 300), None);
}

#[test]
fn reasons_are_put_into_words() {
    assert_eq!(Reason::Checkmate.text(), "checkmate");
    assert_eq!(Reason::Stalemate.text(), "stalemate");
    assert_eq!(Reason::FiftyMoves.text(), "50-move rule");
    assert_eq!(Reason::Repetition.text(), "threefold repetition");
    assert_eq!(Reason::Material.text(), "insufficient material");
    assert_eq!(Reason::MaxPlies.text(), "max plies");
    assert_eq!(Reason::NoMove.text(), "no move (timeout/crash)");
    assert_eq!(Reason::IllegalMove.text(), "illegal move");
    assert_eq!(Reason::WhiteNotReady.text(), "white failed ucinewgame");
    assert_eq!(Reason::BlackNotReady.text(), "black failed ucinewgame");
}

#[test]
fn material_is_insufficient_with_at_most_one_minor_piece() {
    let bare = |fen: &str| insufficient_material(&Position::from_fen(fen).unwrap());
    assert!(bare("4k3/8/8/8/8/8/8/4K3 w - - 0 1"));
    assert!(bare("4k3/8/8/8/8/8/8/4KN2 w - - 0 1"));
    assert!(bare("4kb2/8/8/8/8/8/8/4K3 w - - 0 1"));
    assert!(!bare("4kb2/8/8/8/8/8/8/4KN2 w - - 0 1"));
    assert!(!bare("4k3/8/8/8/8/8/8/3NKN2 w - - 0 1"));
    assert!(!bare("4k3/p7/8/8/8/8/8/4K3 w - - 0 1"));
    assert!(!bare("4k3/8/8/8/8/8/8/3RK3 w - - 0 1"));
    assert!(!bare("3qk3/8/8/8/8/8/8/4K3 w - - 0 1"));
}

#[test]
fn a_game_keeps_its_moves_and_hashes() {
    let mut game = Game::open("g1f3 g8f6 f3g1 f6g8").unwrap();
    assert_eq!(game.moves, ["g1f3", "g8f6", "f3g1", "f6g8"]);
    assert_eq!(game.keys.len(), 5);
    assert_eq!(game.keys[0], game.keys[4]);
    assert_eq!(occurrences(&game.keys, game.keys[0]), 2);
    assert_eq!(game.status(300), None);
    for m in ["g1f3", "g8f6", "f3g1", "f6g8"] {
        assert_eq!(game.answer(&Some(m.to_string())), None);
    }
    assert_eq!(game.status(300), result(Winner::Draw, Reason::Repetition));
    assert!(Game::open("e2e4 e2e4").is_none());
    assert!(Game::new().moves.is_empty());
}

#[test]
fn a_wrong_reply_loses() {
    let mut game = Game::open("e2e4").unwrap();
    let before = game.pos.to_fen();
    assert_eq!(game.answer(&None), result(Winner::White, Reason::NoMove));
    assert_eq!(
        game.answer(&Some("e2e4".to_string())),
        result(Winner::White, Reason::IllegalMove)
    );
    assert_eq!(game.pos.to_fen(), before);
    assert_eq!(beats(Color::White), Winner::Black);
}

// -- Matches ---------------------------------------------------------------------

fn args(s: &str) -> Vec<String> {
    s.split_whitespace().map(|x| x.to_string()).collect()
}

#[test]
fn match_arguments() {
    let c = parse_args(&args("a b")).ok().unwrap();
    assert_eq!((c.engine_a.as_str(), c.engine_b.as_str()), ("a", "b"));
    assert_eq!((c.games, c.movetime, c.depth, c.maxplies), (40, 100, None, 300));
    let c = parse_args(&args("--games 7 x --depth 5 y --movetime 9 --maxplies 11 z")).ok().unwrap();
    assert_eq!((c.engine_a.as_str(), c.engine_b.as_str()), ("x", "y"));
    assert_eq!((c.games, c.movetime, c.depth, c.maxplies), (7, 9, Some(5), 11));
    let err = |s: &str| parse_args(&args(s)).err().unwrap();
    assert_eq!(err("a b --games"), "--games needs a value");
    assert_eq!(err("a b --depth x"), "bad --depth value: x");
    assert_eq!(
        err("a"),
        "usage: selfplay <engine_a.exe> <engine_b.exe> [--games N] [--movetime MS] [--depth D] [--maxplies P]"
    );
}

#[test]
fn engines_are_told_what_to_do() {
    assert_eq!(position_command(&Vec::new()), "position startpos");
    let game = Game::open("e2e4 e7e5").unwrap();
    let line = position_command(&game.moves);
    assert_eq!(line, "position startpos moves e2e4 e7e5");
    match parse_command(&line) {
        Command::SetPosition(p) => assert_eq!(p.to_fen(), game.pos.to_fen()),
        _ => panic!("the position was not understood"),
    }
    assert_eq!(go_command(100, None), "go movetime 100");
    assert_eq!(go_command(100, Some(6)), "go depth 6");
    match parse_command(&go_command(100, Some(6))) {
        Command::Go(l) => assert_eq!((l.depth, l.movetime_ms), (Some(6), None)),
        _ => panic!("go was not understood"),
    }
}

#[test]
fn engines_are_understood() {
    assert!(says(" uciok\r\n", "uciok"));
    assert!(!says("uciok now", "uciok"));
    assert!(is_bestmove("  bestmove e2e4"));
    assert!(!is_bestmove("info bestmove"));
    assert_eq!(parse_bestmove("bestmove e2e4 ponder e7e5"), Some("e2e4".to_string()));
    assert_eq!(parse_bestmove("bestmove 0000"), None);
    assert_eq!(parse_bestmove("bestmove (none)"), None);
    assert_eq!(parse_bestmove("bestmove"), None);
    let m = mythos::Move::normal(mythos::Square::make(6, 0), mythos::Square::make(5, 2));
    assert_eq!(parse_bestmove(&format_bestmove(m)), Some("g1f3".to_string()));
    assert_eq!(parse_bestmove(&format_bestmove(mythos::Move::none())), None);
}

#[test]
fn openings_are_legal_and_played_with_both_colors() {
    for k in 0..20 {
        assert!(Game::open(opening_of(k)).is_some());
    }
    assert_eq!(opening_of(0), "e2e4 e7e5");
    assert_eq!(opening_of(1), opening_of(0));
    assert_eq!(opening_of(2), "d2d4 d7d5");
    assert_eq!(opening_of(19), "b1c3");
    assert_eq!(opening_of(20), opening_of(0));
    assert!(a_is_white(0) && !a_is_white(1));
}

#[test]
fn games_are_counted() {
    let mut s = Score::new();
    assert_eq!(s.standing(), Standing::NoGames);
    s.record(Winner::White, true);
    assert_eq!(s.standing(), Standing::WonAll);
    s.record(Winner::White, false);
    assert_eq!(s.standing(), Standing::Open);
    s.record(Winner::Black, false);
    s.record(Winner::Draw, true);
    assert_eq!((s.wins, s.losses, s.draws), (2, 1, 1));
    assert_eq!(s.games(), 4);
    assert_eq!(s.half_points(), 5);
    let mut t = Score::new();
    t.record(Winner::Black, true);
    assert_eq!(t.standing(), Standing::LostAll);
}

#[test]
fn games_are_reported() {
    let g = GameResult { winner: Winner::Black, reason: Reason::Checkmate };
    assert_eq!(
        format_game(1, 40, &g),
        "game 2/40: A-as-black [e2e4 e7e5] -> 1-0 (checkmate)"
    );
    let g = GameResult { winner: Winner::Draw, reason: Reason::MaxPlies };
    assert_eq!(
        format_game(4, 40, &g),
        "game 5/40: A-as-white [c2c4] -> 1/2-1/2 (max plies)"
    );
    let g = GameResult { winner: Winner::Black, reason: Reason::NoMove };
    assert_eq!(
        format_game(0, 2, &g),
        "game 1/2: A-as-white [e2e4 e7e5] -> 0-1 (no move (timeout/crash))"
    );
}
