use std::sync::atomic::AtomicBool;
use std::sync::Arc;

use mythos::movegen::generate_legal;
use mythos::position::Position;
use mythos::search::{
    captured_value, format_info, has_non_pawn_material, is_capture, is_mate_score, is_quiet,
    log_reduction, mvv_lva, score_from_tt, score_to_tt, SearchLimits, SearchResult, Searcher, MATE,
};
use mythos::tt::Bound;
use mythos::types::{Move, Square};

/// Run a fixed-depth search with no time cap and an already-clear stop flag,
/// so results are fully deterministic and fast. Used by every test below.
fn search_depth(fen: &str, depth: u32) -> SearchResult {
    let pos = Position::from_fen(fen).unwrap_or_else(|e| panic!("bad fen {fen}: {e:?}"));
    let mut searcher = Searcher::new(16);
    let limits = SearchLimits {
        depth: Some(depth),
        ..SearchLimits::default()
    };
    let stop = Arc::new(AtomicBool::new(false));
    searcher.search(&pos, &limits, &stop)
}

/// Is `m` a legal move in `pos`?
fn is_legal(pos: &mut Position, m: Move) -> bool {
    generate_legal(pos).contains(m)
}

/// Play `m` and report whether the resulting position is checkmate (the side
/// to move is in check and has no legal reply).
fn move_is_checkmate(fen: &str, m: Move) -> bool {
    let mut pos = Position::from_fen(fen).unwrap();
    assert!(is_legal(&mut pos, m), "move {} is not legal in {fen}", m.to_string());
    let undo = pos.make_move(m);
    let mated = pos.in_check() && generate_legal(&mut pos).is_empty();
    pos.undo_move(m, undo);
    mated
}

#[test]
fn startpos_returns_legal_reasonable_move() {
    let res = search_depth("rnbqkbnr/pppppppp/8/8/8/8/PPPPPPPP/RNBQKBNR w KQkq - 0 1", 4);
    // A real move must come back.
    assert!(!res.best_move.is_none(), "startpos must return a move");
    // It must be legal.
    let mut pos = Position::startpos();
    assert!(is_legal(&mut pos, res.best_move), "best move must be legal");
    // The start position is balanced, so the score must be small.
    assert!(res.score.abs() < 100, "startpos score should be near 0, got {}", res.score);
}

#[test]
fn finds_mate_in_one() {
    // White: Kg6, Qh1, Black: Kg8. Qh1-a8 is mate (Qa8#): the queen checks
    // along the 8th rank while the king covers f7/g7/h7, so the black king
    // has no escape. (Verified: it is the unique mate here.)
    let fen = "6k1/8/6K1/8/8/8/8/7Q w - - 0 1";
    let res = search_depth(fen, 2);
    // The score must read as a mate.
    assert!(
        res.score >= MATE - 10,
        "mate-in-1 must return a mate score, got {}",
        res.score
    );
    // And the move it returns must actually deliver checkmate.
    assert!(
        move_is_checkmate(fen, res.best_move),
        "returned move {} is not checkmate in {fen}",
        res.best_move.to_string()
    );
}

#[test]
fn finds_mate_in_two() {
    // A clean, legal mate-in-2: 1.Rf7! (threatening Qe8#) and Black cannot
    // parry both the back-rank and the queen. The score at depth 4 (= 2 full
    // moves) must read as a mate. Rf6-f7 is the key move.
    let fen = "r5rk/5p1p/5R2/4Q3/8/8/7P/7K w - - 0 1";
    let res = search_depth(fen, 4);
    assert!(
        res.score >= MATE - 10,
        "mate-in-2 must return a mate score at depth 4, got {}",
        res.score
    );
    // The first move must be legal.
    let mut pos = Position::from_fen(fen).unwrap();
    assert!(is_legal(&mut pos, res.best_move));
}

#[test]
fn wins_a_free_queen() {
    // White to move; the black queen on d5 is completely undefended and can be
    // taken for free by the pawn on e4. A depth-3 search must grab it.
    let fen = "4k3/8/8/3q4/4P3/8/8/4K3 w - - 0 1";
    let res = search_depth(fen, 3);
    assert_eq!(
        res.best_move,
        Move::normal(Square::make(4, 3), Square::make(3, 4)),
        "should capture the free queen, played {} instead",
        res.best_move.to_string()
    );
    // The position starts near -900 for White (down a queen); grabbing the
    // queen must swing the score to clearly positive.
    assert!(res.score > 50, "winning a queen should score positive, got {}", res.score);
}

#[test]
fn finds_a_deeper_mate() {
    // A basic two-rook "ladder" mate: with two rooks and the enemy king cut
    // off, White forces mate in a few moves. This checks that the new pruning
    // (reverse-futility / null-move / LMR) never hides a forced mate — the
    // score must read as a mate and the first move must be legal.
    let fen = "4k3/8/8/8/8/8/R7/1R2K3 w - - 0 1";
    let res = search_depth(fen, 8);
    assert!(
        res.score >= MATE - 20,
        "a forced-mate position must return a mate score, got {}",
        res.score
    );
    let mut pos = Position::from_fen(fen).unwrap();
    assert!(is_legal(&mut pos, res.best_move), "mate move must be legal");
}

#[test]
fn wins_a_piece_through_pruning() {
    // A simple tactic: the black rook on h4 is completely undefended, so the
    // white bishop on f2 grabs it for free with Bxh4. Reverse-futility /
    // null-move / LMR must not blind the search to this clean win of material.
    let fen = "4k3/8/8/8/7r/8/5B2/4K3 w - - 0 1";
    let res = search_depth(fen, 6);
    assert_eq!(
        res.best_move,
        Move::normal(Square::make(5, 1), Square::make(7, 3)),
        "should capture the free rook, played {} instead",
        res.best_move.to_string()
    );
    // Winning a whole rook for nothing must swing the score clearly positive
    // (well above a pawn — the exact number tapers in a bare endgame).
    assert!(res.score > 250, "winning a rook should score positive, got {}", res.score);
}

#[test]
fn midgame_search_returns_legal_move_without_exploding() {
    // A rich middlegame position searched to a fixed depth. The only thing we
    // assert is that the search terminates cleanly and returns a legal move —
    // i.e. the new pruning does not panic, loop, or return garbage.
    let fen = "r1bq1rk1/pp2bppp/2n1pn2/2pp4/3P4/2NBPN2/PPP2PPP/R1BQ1RK1 w - - 0 1";
    let res = search_depth(fen, 6);
    assert!(!res.best_move.is_none(), "must return a move");
    let mut pos = Position::from_fen(fen).unwrap();
    assert!(is_legal(&mut pos, res.best_move), "best move must be legal");
    assert!(res.nodes > 0, "search must have visited nodes");
}

#[test]
fn search_is_deterministic() {
    let fen = "r1bqkbnr/pppp1ppp/2n5/4p3/4P3/5N2/PPPP1PPP/RNBQKB1R w KQkq - 0 1";
    let a = search_depth(fen, 4);
    let b = search_depth(fen, 4);
    assert_eq!(a.best_move, b.best_move, "same position must give same move");
    assert_eq!(a.score, b.score, "same position must give same score");
}

#[test]
fn checkmated_position_scores_mated() {
    // Fool's-mate final position: white is checkmated, White to move.
    let fen = "rnb1kbnr/pppp1ppp/8/4p3/6Pq/5P2/PPPPP2P/RNBQKBNR w KQkq - 1 3";
    let res = search_depth(fen, 3);
    // No legal move: the searcher returns NONE and a mated score.
    assert!(res.best_move.is_none(), "checkmated side has no move");
    assert!(
        res.score <= -(MATE - 10),
        "a mated position should score very negative, got {}",
        res.score
    );
}

#[test]
fn stalemate_position_scores_zero() {
    // Classic stalemate: Black to move, king on a8 has no legal move and is
    // NOT in check. Score must be 0 and no move returned.
    let fen = "k7/8/1Q6/2K5/8/8/8/8 b - - 0 1";
    let res = search_depth(fen, 3);
    assert!(res.best_move.is_none(), "stalemated side has no move");
    assert_eq!(res.score, 0, "stalemate must score 0, got {}", res.score);
}

#[test]
fn aspiration_windows_still_find_mate_in_two() {
    // The same mate-in-2 as above, but searched deep enough (>= depth 5) to
    // exercise the aspiration-window path. A narrow window must never hide the
    // mate: the score must still read as a mate and the key move stay legal.
    let fen = "r5rk/5p1p/5R2/4Q3/8/8/7P/7K w - - 0 1";
    let res = search_depth(fen, 7);
    assert!(
        res.score >= MATE - 10,
        "aspiration search must still return the mate score, got {}",
        res.score
    );
    let mut pos = Position::from_fen(fen).unwrap();
    assert!(is_legal(&mut pos, res.best_move), "mate move must be legal");
}

#[test]
fn aspiration_deep_search_matches_full_window_on_a_tactic() {
    // Winning the free rook (Bxh4) must still be found once the aspiration
    // window is in play (depth 8 >= 5), confirming the narrow window does not
    // clip a clearly-winning capture.
    let fen = "4k3/8/8/8/7r/8/5B2/4K3 w - - 0 1";
    let res = search_depth(fen, 8);
    assert_eq!(
        res.best_move,
        Move::normal(Square::make(5, 1), Square::make(7, 3)),
        "aspiration search should still grab the free rook, played {} instead",
        res.best_move.to_string()
    );
}

#[test]
fn deep_midgame_search_returns_legal_move_without_panic() {
    // A couple of rich middlegame positions searched to depth 8 — deep enough
    // that aspiration windows, LMP, futility and delta pruning all fire. The
    // search must terminate cleanly and return a legal, non-null move each time
    // (i.e. none of the new pruning panics, loops, or returns garbage).
    let fens = [
        "r1bq1rk1/pp2bppp/2n1pn2/2pp4/3P4/2NBPN2/PPP2PPP/R1BQ1RK1 w - - 0 1",
        "r3k2r/p1ppqpb1/bn2pnp1/3PN3/1p2P3/2N2Q1p/PPPBBPPP/R3K2R w KQkq - 0 1", // Kiwipete
    ];
    for fen in fens {
        let res = search_depth(fen, 8);
        assert!(!res.best_move.is_none(), "must return a move for {fen}");
        let mut pos = Position::from_fen(fen).unwrap();
        assert!(
            is_legal(&mut pos, res.best_move),
            "best move must be legal for {fen}"
        );
        assert!(res.nodes > 0, "search must have visited nodes for {fen}");
    }
}

// -- Parts of the search ------------------------------------------------------

#[test]
fn late_moves_are_reduced_by_the_logarithms() {
    for depth in 1..=255i32 {
        for i in 3..=255usize {
            let exact = 0.75 + (depth as f64).ln() * (i as f64).ln() / 2.25;
            assert_eq!(log_reduction(depth, i), exact as i32, "depth {depth}, move {i}");
        }
    }
}

#[test]
fn mate_scores_are_kept_relative_in_the_table() {
    assert_eq!(score_to_tt(MATE - 5, 3), MATE - 2);
    assert_eq!(score_from_tt(MATE - 2, 3), MATE - 5);
    assert_eq!(score_to_tt(-(MATE - 5), 3), -(MATE - 2));
    assert_eq!(score_from_tt(score_to_tt(123, 9), 9), 123);
    assert!(is_mate_score(MATE - 128) && is_mate_score(-(MATE - 128)));
    assert!(!is_mate_score(MATE - 129));
}

#[test]
fn iterations_are_reported_as_uci_lines() {
    let pv = vec![
        Move::normal(Square::make(4, 1), Square::make(4, 3)),
        Move::normal(Square::make(4, 6), Square::make(4, 4)),
    ];
    assert_eq!(
        format_info(7, -31, 5000, 20, &pv),
        "info depth 7 score cp -31 nodes 5000 nps 250000 time 20 pv e2e4 e7e5"
    );
    assert_eq!(
        format_info(3, MATE - 3, 10, 0, &Vec::new()),
        "info depth 3 score mate 2 nodes 10 nps 10 time 0 pv "
    );
    assert_eq!(
        format_info(3, -(MATE - 4), 10, 0, &Vec::new()),
        "info depth 3 score mate -2 nodes 10 nps 10 time 0 pv "
    );
}

#[test]
fn a_search_is_stopped_by_flag_nodes_and_time() {
    let pos = Position::startpos();
    // A flag that is already set ends the search at once.
    let mut searcher = Searcher::new(1);
    let res = searcher.search(&pos, &SearchLimits::default(), &Arc::new(AtomicBool::new(true)));
    assert!(generate_legal(&pos).contains(res.best_move));
    assert!(res.depth <= 1);
    // A limit on nodes ends the search soon after it.
    let limits = SearchLimits { nodes: Some(3000), ..SearchLimits::default() };
    let res = searcher.search(&pos, &limits, &Arc::new(AtomicBool::new(false)));
    assert!(res.depth >= 1 && res.nodes < 20_000);
    // So does the clock.
    let limits = SearchLimits { movetime_ms: Some(60), ..SearchLimits::default() };
    let start = std::time::Instant::now();
    let res = searcher.search(&pos, &limits, &Arc::new(AtomicBool::new(false)));
    assert!(generate_legal(&pos).contains(res.best_move));
    let spent = start.elapsed().as_millis();
    assert!((50..5000).contains(&spent), "spent {spent}");
}

#[test]
fn the_principal_variation_can_be_played() {
    let res = search_depth("r1bqkbnr/pppp1ppp/2n5/4p3/4P3/5N2/PPPP1PPP/RNBQKB1R w KQkq - 0 1", 5);
    let mut pos =
        Position::from_fen("r1bqkbnr/pppp1ppp/2n5/4p3/4P3/5N2/PPPP1PPP/RNBQKB1R w KQkq - 0 1")
            .unwrap();
    assert!(!res.pv.is_empty());
    assert_eq!(res.pv[0], res.best_move);
    for &m in &res.pv {
        assert!(is_legal(&mut pos, m));
        pos.make_move(m);
    }
}

#[test]
fn clearing_forgets_what_was_learned() {
    let pos = Position::startpos();
    let limits = SearchLimits { depth: Some(5), ..SearchLimits::default() };
    let stop = Arc::new(AtomicBool::new(false));
    let mut searcher = Searcher::new(4);
    let first = searcher.search(&pos, &limits, &stop);
    let again = searcher.search(&pos, &limits, &stop);
    assert_ne!(first.nodes, again.nodes);
    searcher.clear();
    let fresh = searcher.search(&pos, &limits, &stop);
    assert_eq!((first.best_move, first.score, first.nodes), (fresh.best_move, fresh.score, fresh.nodes));
    assert!(!searcher.has_net());
}

#[test]
fn moves_are_told_apart() {
    let pos = Position::from_fen("r3k2r/8/8/3pP3/8/8/6P1/R3K2R w KQkq d6 0 1").unwrap();
    let s = |f: u8, r: u8| Square::make(f, r);
    let ep = Move::en_passant(s(4, 4), s(3, 5));
    assert!(is_capture(&pos, ep) && !is_quiet(&pos, ep));
    assert_eq!(captured_value(&pos, ep), 82);
    // Castling takes nothing, though it is written as king takes rook.
    let castle = Move::castling(s(4, 0), s(7, 0));
    assert!(!is_capture(&pos, castle) && is_quiet(&pos, castle));
    let take = Move::normal(s(7, 0), s(7, 7));
    assert!(is_capture(&pos, take));
    assert_eq!(captured_value(&pos, take), 477);
    assert!(has_non_pawn_material(&pos));
    let bare = Position::from_fen("4k3/8/8/8/8/8/4P3/4K3 w - - 0 1").unwrap();
    assert!(!has_non_pawn_material(&bare));
}

#[test]
fn the_node_limit_is_kept() {
    let fen = "r3k2r/p1ppqpb1/bn2pnp1/3PN3/1p2P3/2N2Q1p/PPPBBPPP/R3K2R w KQkq - 0 1";
    let pos = Position::from_fen(fen).unwrap();
    let stop = Arc::new(AtomicBool::new(false));
    for limit in [0u64, 1, 2048, 5000] {
        let mut searcher = Searcher::new(1);
        let limits = SearchLimits { nodes: Some(limit), ..SearchLimits::default() };
        let r = searcher.search(&pos, &limits, &stop);
        assert!(r.nodes < limit.max(1) + 2048 + 256, "{} nodes for {limit}", r.nodes);
        assert!(r.nodes >= limit);
        assert!(generate_legal(&pos).contains(r.best_move));
    }
}

#[test]
fn shorter_mates_count_more() {
    let one = search_depth("6k1/8/6K1/8/8/8/8/7Q w - - 0 1", 3).score;
    let two = search_depth("kbK5/pp6/1P6/8/8/8/8/R7 w - - 0 1", 6).score;
    assert_eq!(one, MATE - 1);
    assert_eq!(two, MATE - 3);
}

/// Search one node of a fresh searcher with the full window.
fn node(fen: &str, depth: i32, ply: usize) -> (i32, Vec<Move>) {
    let mut searcher = Searcher::new(16);
    let mut pos = Position::from_fen(fen).unwrap();
    let mut pv = vec![Move::none()];
    let stop = Arc::new(AtomicBool::new(false));
    let score =
        searcher.negamax(&mut pos, depth, -31000, 31000, ply, &mut pv, true, true, &stop);
    (score, pv)
}

#[test]
fn ends_of_games_inside_the_tree_are_scored() {
    let mated = "rnb1kbnr/pppp1ppp/8/4p3/6Pq/5P2/PPPPP2P/RNBQKBNR w KQkq - 1 3";
    assert_eq!(node(mated, 0, 3), (-29997, vec![]));
    let stalemate = "k7/8/1Q6/2K5/8/8/8/8 b - - 0 1";
    assert_eq!(node(stalemate, 1, 2), (-10, vec![]));
    let fifty = "4k3/8/8/8/8/8/8/R3K3 w - - 100 80";
    assert_eq!(node(fifty, 4, 1), (-10, vec![]));
    // At the root no draw is claimed.
    assert!(!node(fifty, 4, 0).1.is_empty());
}

#[test]
fn quiet_search_is_never_below_standing_pat() {
    let stop = Arc::new(AtomicBool::new(false));
    for fen in [
        "4k3/8/8/3q4/4P3/8/8/4K3 w - - 0 1",
        "r3k2r/p1ppqpb1/bn2pnp1/3PN3/1p2P3/2N2Q1p/PPPBBPPP/R3K2R w KQkq - 0 1",
    ] {
        let mut searcher = Searcher::new(1);
        let mut pos = Position::from_fen(fen).unwrap();
        let score = searcher.quiescence(&mut pos, -31000, 31000, 0, &stop);
        assert!(score >= mythos::evaluate(&pos));
    }
    // Taking the queen is worth more than leaving it.
    let mut searcher = Searcher::new(1);
    let mut pos = Position::from_fen("4k3/8/8/3q4/4P3/8/8/4K3 w - - 0 1").unwrap();
    let pat = mythos::evaluate(&pos);
    assert!(searcher.quiescence(&mut pos, -31000, 31000, 0, &stop) > pat + 800);
}

#[test]
fn victims_come_before_attackers() {
    // A pawn can take a knight, and the queen a bishop or the knight.
    let pos = Position::from_fen("4k3/8/8/3n4/4P3/3Q2b1/8/4K3 w - - 0 1").unwrap();
    let mv = |from: (u8, u8), to: (u8, u8)| {
        Move::normal(Square::make(from.0, from.1), Square::make(to.0, to.1))
    };
    let pawn_takes_knight = mvv_lva(&pos, mv((4, 3), (3, 4)));
    let queen_takes_bishop = mvv_lva(&pos, mv((3, 2), (6, 2)));
    let queen_takes_knight = mvv_lva(&pos, mv((3, 2), (3, 4)));
    assert!(queen_takes_bishop > pawn_takes_knight);
    assert!(pawn_takes_knight > queen_takes_knight);
    assert_eq!(queen_takes_bishop, 16 * 365 - 256);
}

#[test]
fn history_takes_any_bonus() {
    let m = Move::normal(Square::make(4, 1), Square::make(4, 3));
    let mut searcher = Searcher::new(1);
    searcher.update_history(m, i32::MAX);
    assert_eq!(searcher.history[64 * 12 + 28], 16384);
    searcher.update_history(m, i32::MIN);
    assert_eq!(searcher.history[64 * 12 + 28], -16384);
    searcher.update_history(m, 100);
    assert_eq!(searcher.history[64 * 12 + 28], -16184);
}

#[test]
fn repetitions_are_sought_within_the_clock() {
    let pos = Position::from_fen("4k3/8/8/8/8/8/8/R3K3 w - - 1 80").unwrap();
    let mut searcher = Searcher::new(1);
    searcher.repetitions = vec![pos.key(), 7];
    assert!(!searcher.is_repetition(&pos));
    let pos = Position::from_fen("4k3/8/8/8/8/8/8/R3K3 w - - 2 80").unwrap();
    assert!(searcher.is_repetition(&pos));
    searcher.repetitions = vec![7, pos.key()];
    assert!(!searcher.is_repetition(&pos));
}

#[test]
fn a_search_that_is_called_off_is_a_shorter_search() {
    let fen = "r3k2r/p1ppqpb1/bn2pnp1/3PN3/1p2P3/2N2Q1p/PPPBBPPP/R3K2R w KQkq - 0 1";
    let pos = Position::from_fen(fen).unwrap();
    let stop = Arc::new(AtomicBool::new(false));
    let mut searcher = Searcher::new(16);
    let limits = SearchLimits { nodes: Some(20_000), ..SearchLimits::default() };
    let cut = searcher.search(&pos, &limits, &stop);
    assert!(cut.depth >= 1 && !cut.pv.is_empty());
    let full = search_depth(fen, cut.depth);
    assert_eq!(
        (cut.best_move, cut.score, cut.depth, cut.pv),
        (full.best_move, full.score, full.depth, full.pv)
    );
}

#[test]
fn small_searches_are_completed_whatever_the_limits() {
    // The flag is set from the start, but it is looked at only now and then.
    let pos = Position::from_fen("6k1/8/6K1/8/8/8/8/7Q w - - 0 1").unwrap();
    let stop = Arc::new(AtomicBool::new(true));
    let mut searcher = Searcher::new(16);
    let r = searcher.search(&pos, &SearchLimits::default(), &stop);
    assert_eq!((r.depth, r.score), (1, MATE - 1));
    assert_eq!(r.best_move.to_string(), "h1a8");
    assert_eq!(r.pv, [r.best_move]);
}

#[test]
fn the_move_of_the_table_outlasts_the_null_search() {
    // The queen is attacked, so passing is bad, but most other moves are good enough.
    let fen = "6k1/5p1p/6p1/2p5/3Q4/8/5PPP/6K1 w - - 0 1";
    let stop = Arc::new(AtomicBool::new(false));
    let best = |hint: Option<Move>| {
        // With a single slot, the null search overwrites what the table holds.
        let mut searcher = Searcher::new(0);
        let mut pos = Position::from_fen(fen).unwrap();
        if let Some(m) = hint {
            searcher.tt.store(pos.key(), m, 0, 0, Bound::Exact);
        }
        let beta = mythos::evaluate(&pos) - 300;
        let mut pv = Vec::new();
        let score =
            searcher.negamax(&mut pos, 8, beta - 1, beta, 1, &mut pv, false, true, &stop);
        assert!(score >= beta);
        searcher.tt.probe(pos.key()).unwrap().best_move.to_string()
    };
    assert_eq!(best(None), "d4c5");
    let retreat = Move::normal(Square::make(3, 3), Square::make(3, 0));
    assert_eq!(best(Some(retreat)), "d4d1");
}

#[test]
fn searches_in_a_row_give_lines() {
    let stop = Arc::new(AtomicBool::new(false));
    let mut searcher = Searcher::new(1);
    for (fen, nodes) in [
        ("r3k2r/p1ppqpb1/bn2pnp1/3PN3/1p2P3/2N2Q1p/PPPBBPPP/R3K2R w KQkq - 0 1", 9000),
        ("kbK5/pp6/1P6/8/8/8/8/R7 w - - 0 1", 5000),
        ("r3k2r/p1ppqpb1/bn2pnp1/3PN3/1p2P3/2N2Q1p/PPPBBPPP/R3K2R w KQkq - 0 1", 2048),
        ("8/2p5/3p4/KP5r/1R3p1k/8/4P1P1/8 w - - 0 1", 20_000),
    ] {
        let pos = Position::from_fen(fen).unwrap();
        let limits = SearchLimits { nodes: Some(nodes), ..SearchLimits::default() };
        let r = searcher.search(&pos, &limits, &stop);
        assert!(r.depth >= 1);
        assert_eq!(r.pv[0], r.best_move);
        assert!((-MATE..=MATE).contains(&r.score));
    }
}

#[test]
fn completed_iterations_are_reported_once() {
    let stop = Arc::new(AtomicBool::new(false));
    let mut searcher = Searcher::new(1);
    let limits = SearchLimits { depth: Some(3), ..SearchLimits::default() };
    let r = searcher.search(&Position::startpos(), &limits, &stop);
    let lines = searcher.take_reports();
    assert_eq!(lines.len(), 3);
    for (d, line) in lines.iter().enumerate() {
        assert!(line.starts_with(&format!("info depth {} score cp ", d + 1)), "{line}");
    }
    let last = format!("info depth 3 score cp {} nodes {} nps ", r.score, r.nodes);
    assert!(lines[2].starts_with(&last), "{}", lines[2]);
    let line: Vec<String> = r.pv.iter().map(|m| m.to_string()).collect();
    assert!(lines[2].ends_with(&format!(" pv {}", line.join(" "))), "{}", lines[2]);
    assert!(searcher.take_reports().is_empty());
}

#[test]
fn nodes_are_searched_in_any_window_and_at_any_ply() {
    let fen = "r3k2r/p1ppqpb1/bn2pnp1/3PN3/1p2P3/2N2Q1p/PPPBBPPP/R3K2R w KQkq - 0 1";
    let stop = Arc::new(AtomicBool::new(false));
    let root = Position::from_fen(fen).unwrap();
    let mut searcher = Searcher::new(1);
    let mut pos = root;
    let mut pv = Vec::new();
    let wide = i32::MAX - 128;
    let score = searcher.negamax(&mut pos, 3, -wide, wide, 0, &mut pv, true, true, &stop);
    assert_eq!(score, node(fen, 3, 0).0);
    assert_eq!((pos.to_fen(), pos.key()), (root.to_fen(), root.key()));
    assert!(searcher.repetitions.is_empty() && searcher.acc_stack.is_empty());
    // Beyond the longest line a position is only judged.
    let score = searcher.negamax(&mut pos, 200, wide, -wide, 500, &mut pv, false, true, &stop);
    assert_eq!(score, mythos::evaluate(&pos));
    assert!(pv.is_empty());
    assert_eq!(
        searcher.quiescence(&mut pos, i32::MAX, -i32::MAX, i32::MAX as usize, &stop),
        mythos::evaluate(&pos)
    );
    assert_eq!((pos.to_fen(), pos.key()), (root.to_fen(), root.key()));
}
