use mythos::position::Position;
use mythos::types::{Color, Move, Square};
use mythos::uci::{
    apply_uci_move, format_bestmove, format_id, parse_command, parse_go, parse_position, parse_setoption,
    Command, OptionRequest,
};

const STARTPOS_FEN: &str = "rnbqkbnr/pppppppp/8/8/8/8/PPPPPPPP/RNBQKBNR w KQkq - 0 1";

// -- parse_position ---------------------------------------------------

#[test]
fn parse_position_startpos() {
    let pos = parse_position("startpos");
    assert_eq!(pos.to_fen(), STARTPOS_FEN);
}

#[test]
fn parse_position_startpos_with_moves() {
    // 1. e4 e5 2. Nf3 — after three plies it is Black to move.
    let pos = parse_position("startpos moves e2e4 e7e5 g1f3");
    let fen = pos.to_fen();
    // Black to move after an odd number of plies.
    assert!(fen.contains(" b "), "expected Black to move, got FEN: {fen}");
    // Piece-placement spot checks via the FEN's first field.
    let placement = fen.split(' ').next().unwrap();
    // White pawn advanced to e4 (rank 4), knight developed to f3 (rank 3),
    // black pawn on e5 (rank 5). Rank 4 (from rank 8 down: index 4) is "4P3".
    let ranks: Vec<&str> = placement.split('/').collect();
    assert_eq!(ranks[3], "4p3", "black pawn should sit on e5"); // rank 5
    assert_eq!(ranks[4], "4P3", "white pawn should sit on e4"); // rank 4
    assert_eq!(ranks[5], "5N2", "white knight should sit on f3"); // rank 3
    // And the full FEN is exactly the well-known position after these moves.
    assert_eq!(
        fen,
        "rnbqkbnr/pppp1ppp/8/4p3/4P3/5N2/PPPP1PPP/RNBQKB1R b KQkq - 1 2"
    );
}

#[test]
fn parse_position_fen_with_moves() {
    let pos = parse_position(
        "fen rnbqkbnr/pppppppp/8/8/8/8/PPPPPPPP/RNBQKBNR w KQkq - 0 1 moves d2d4",
    );
    // After 1. d4 it is Black to move, with the double push's ep target on d3.
    assert_eq!(
        pos.to_fen(),
        "rnbqkbnr/pppppppp/8/8/3P4/8/PPP1PPPP/RNBQKBNR b KQkq d3 0 1"
    );
}

#[test]
fn parse_position_bad_fen_falls_back() {
    // A garbage FEN should not panic; it falls back to the start position.
    let pos = parse_position("fen not a real fen at all xx yy");
    assert_eq!(pos.to_fen(), STARTPOS_FEN);
}

// -- parse_go ---------------------------------------------------------

#[test]
fn parse_go_depth() {
    let limits = parse_go("depth 8");
    assert_eq!(limits.depth, Some(8));
}

#[test]
fn parse_go_time_controls() {
    let limits = parse_go("wtime 300000 btime 300000 winc 1000 binc 1000");
    assert_eq!(limits.wtime, Some(300_000));
    assert_eq!(limits.btime, Some(300_000));
    assert_eq!(limits.winc, Some(1000));
    assert_eq!(limits.binc, Some(1000));
}

#[test]
fn parse_go_movetime() {
    let limits = parse_go("movetime 1000");
    assert_eq!(limits.movetime_ms, Some(1000));
}

#[test]
fn parse_go_infinite() {
    let limits = parse_go("infinite");
    assert!(limits.infinite);
}

#[test]
fn parse_go_nodes() {
    let limits = parse_go("nodes 100000");
    assert_eq!(limits.nodes, Some(100_000));
}

#[test]
fn parse_go_movestogo_and_mixed() {
    // A realistic mixed command; every recognised field should land.
    let limits = parse_go("wtime 60000 btime 60000 movestogo 20 depth 12");
    assert_eq!(limits.wtime, Some(60_000));
    assert_eq!(limits.btime, Some(60_000));
    assert_eq!(limits.movestogo, Some(20));
    assert_eq!(limits.depth, Some(12));
    assert!(!limits.infinite);
}

// -- apply_uci_move ---------------------------------------------------

#[test]
fn apply_uci_move_legal_and_illegal() {
    let mut pos = Position::startpos();
    // A legal opening move plays and returns true.
    assert!(apply_uci_move(&mut pos, "e2e4"));
    assert_eq!(pos.side_to_move(), Color::Black);

    // An illegal move from the start position returns false and is a no-op.
    let mut pos = Position::startpos();
    let before = pos.to_fen();
    assert!(!apply_uci_move(&mut pos, "e2e5")); // pawn can't jump 3 squares
    assert_eq!(pos.to_fen(), before, "an illegal move must not change the board");
}

#[test]
fn apply_uci_move_promotion() {
    // A crafted position with a white pawn on e7 that can promote on e8. The
    // black king is on a8 so e8 is empty and the straight push is legal.
    let mut pos = Position::from_fen("k7/4P3/8/8/8/8/8/4K3 w - - 0 1").unwrap();
    assert!(apply_uci_move(&mut pos, "e7e8q"), "e7e8q should be legal");
    // e8 now holds a white queen (rank 8 = "k3Q3": king a8, queen e8) and
    // e7 is empty, so it is now Black to move.
    assert_eq!(
        pos.to_fen(),
        "k3Q3/8/8/8/8/8/8/4K3 b - - 0 1",
        "e8 should now hold a promoted queen"
    );
}

#[test]
fn apply_uci_move_unknown_token() {
    // Total garbage is rejected without a panic.
    let mut pos = Position::startpos();
    assert!(!apply_uci_move(&mut pos, "zzzz"));
}

// -- Commands -----------------------------------------------------------------

#[test]
fn each_command_is_understood() {
    assert!(matches!(parse_command("uci"), Command::Identify));
    assert!(matches!(parse_command("  isready "), Command::Ready));
    assert!(matches!(parse_command("ucinewgame"), Command::NewGame));
    assert!(matches!(parse_command("stop"), Command::Stop));
    assert!(matches!(parse_command("quit"), Command::Quit));
    assert!(matches!(parse_command("d"), Command::Show));
    assert!(matches!(parse_command("eval"), Command::Evaluate));
    assert!(matches!(parse_command("perft 4"), Command::Perft(Some(4))));
    assert!(matches!(parse_command("perft"), Command::Perft(None)));
    assert!(matches!(parse_command("perft x"), Command::Perft(None)));
    assert!(matches!(parse_command(""), Command::Ignore));
    assert!(matches!(parse_command("hello"), Command::Ignore));
    match parse_command("  go  depth 3") {
        Command::Go(l) => assert_eq!(l.depth, Some(3)),
        _ => panic!("go was not understood"),
    }
    match parse_command("position startpos moves e2e4") {
        Command::SetPosition(p) => assert_eq!(p.side_to_move(), Color::Black),
        _ => panic!("position was not understood"),
    }
}

#[test]
fn options_are_understood() {
    assert!(matches!(parse_setoption("name Hash value 64"), OptionRequest::Hash(64)));
    assert!(matches!(parse_setoption("name hash value 0"), OptionRequest::Hash(1)));
    assert!(matches!(parse_setoption("name Hash value 99999"), OptionRequest::Hash(4096)));
    assert!(matches!(parse_setoption("name Hash value lots"), OptionRequest::Nothing));
    assert!(matches!(parse_setoption("name Hash"), OptionRequest::Nothing));
    assert!(matches!(parse_setoption("name Clear Hash"), OptionRequest::ClearHash));
    assert!(matches!(parse_setoption("name UseNNUE value TRUE"), OptionRequest::UseNnue(true)));
    assert!(matches!(parse_setoption("name UseNNUE value false"), OptionRequest::UseNnue(false)));
    assert!(matches!(parse_setoption("name Ponder value true"), OptionRequest::Nothing));
    assert!(matches!(parse_setoption("Hash value 64"), OptionRequest::Nothing));
    match parse_setoption("name EvalFile value nets/my net.nnue") {
        OptionRequest::EvalFile(p) => assert_eq!(p, "nets/my net.nnue"),
        _ => panic!("EvalFile was not understood"),
    }
}

#[test]
fn the_best_move_is_announced() {
    let m = Move::normal(Square::make(4, 1), Square::make(4, 3));
    assert_eq!(format_bestmove(m), "bestmove e2e4");
    assert_eq!(format_bestmove(Move::none()), "bestmove 0000");
}

#[test]
fn a_bad_move_ends_the_moves_of_a_position() {
    let pos = parse_position("startpos moves e2e4 e2e4 e7e5");
    assert_eq!(pos.to_fen(), "rnbqkbnr/pppppppp/8/8/4P3/8/PPPP1PPP/RNBQKBNR b KQkq e3 0 1");
}

#[test]
fn the_engine_introduces_itself() {
    let id = format_id();
    assert!(id.starts_with("id name Mythos 0.1.0\n"));
    assert!(id.contains("\noption name Hash type spin default 16 min 1 max 4096\n"));
    assert!(id.ends_with("\nuciok\n"));
}

#[test]
fn only_some_commands_wait_for_the_search() {
    for line in ["ucinewgame", "setoption name x", "position startpos", "go", "quit", "eval", "perft 1"] {
        assert!(parse_command(line).needs_idle(), "{line}");
    }
    for line in ["uci", "isready", "stop", "d", "", "other"] {
        assert!(!parse_command(line).needs_idle(), "{line}");
    }
}

#[test]
fn groups_of_go_arguments_can_change_places() {
    let text = |s: &str| format!("{:?}", parse_go(s));
    assert_eq!(text("wtime 1000 depth 5"), text("depth 5 wtime 1000"));
    assert_eq!(text("infinite nodes 7 binc 3"), text("nodes 7 infinite binc 3"));
    assert_ne!(text("depth 5 depth 6"), text("depth 6 depth 5"));
    let whole = parse_go("winc 5 movestogo 9 infinite wtime 60000");
    for order in [
        "infinite wtime 60000 movestogo 9 winc 5",
        "movestogo 9 winc 5 wtime 60000  infinite",
        "wtime 60000 winc 5 infinite movestogo 9",
    ] {
        assert_eq!(text(order), format!("{whole:?}"));
    }
    assert_eq!((whole.winc, whole.wtime), (Some(5), Some(60000)));
    assert_eq!((whole.movestogo, whole.infinite), (Some(9), true));
    assert_eq!((whole.depth, whole.nodes, whole.btime), (None, None, None));
    // Lists without a common keyword keep what they say alone, repetitions and all.
    let (a, b) = ("depth 5 depth x nodes 8", "binc 1 binc 2");
    assert_eq!(text(&format!("{a} {b}")), text(&format!("{b} {a}")));
    let both = parse_go(&format!("{a} {b}"));
    assert_eq!((both.depth, both.nodes, both.binc), (None, Some(8), Some(2)));
}
