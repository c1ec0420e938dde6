use mythos::eval::{evaluate, pawn_structure_for, piece_value, PawnInfo};
use mythos::position::Position;
use mythos::types::{Color, PieceType};

/// Vertically mirror a FEN's piece placement and swap piece colors, so the
/// resulting position is the exact color-reflection of the input. A White
/// knight on c3 becomes a Black knight on c6, etc. Castling rights and the
/// side to move are swapped too. En-passant is dropped for simplicity (none
/// of the symmetry test FENs use it).
///
/// This lets us assert `evaluate(pos) == evaluate(mirror(pos))`, which only
/// holds if the PST orientation is correct for both colors.
fn mirror_fen(fen: &str) -> String {
    let mut parts = fen.split_whitespace();
    let placement = parts.next().unwrap();
    let side = parts.next().unwrap_or("w");
    let castling = parts.next().unwrap_or("-");

    // Reverse the rank order (rank 8 <-> rank 1) and swap the case of every
    // piece char (White <-> Black).
    let ranks: Vec<&str> = placement.split('/').collect();
    let mirrored_placement = ranks
        .iter()
        .rev()
        .map(|rank| {
            rank.chars()
                .map(|c| {
                    if c.is_ascii_uppercase() {
                        c.to_ascii_lowercase()
                    } else if c.is_ascii_lowercase() {
                        c.to_ascii_uppercase()
                    } else {
                        c
                    }
                })
                .collect::<String>()
        })
        .collect::<Vec<_>>()
        .join("/");

    // Swap the side to move.
    let mirrored_side = match side {
        "w" => "b",
        _ => "w",
    };

    // Swap castling-right case (K<->k, Q<->q) so the mirror is exact.
    let mirrored_castling = if castling == "-" {
        "-".to_string()
    } else {
        castling
            .chars()
            .map(|c| {
                if c.is_ascii_uppercase() {
                    c.to_ascii_lowercase()
                } else {
                    c.to_ascii_uppercase()
                }
            })
            .collect::<String>()
    };

    format!("{mirrored_placement} {mirrored_side} {mirrored_castling} - 0 1")
}

#[test]
fn startpos_is_balanced() {
    // The start position is materially and structurally symmetric, so every
    // White-positive term cancels against its Black twin and the *positional*
    // part is exactly 0. What remains is the tempo bonus for the side to move
    // (White here), so the score reads as roughly +tempo rather than dead 0.
    // The tolerance is widened from 5 to 30cp purely to admit that tempo term;
    // it is not loosening a correctness invariant (color symmetry still holds
    // exactly — see `color_symmetry`).
    let score = evaluate(&Position::startpos());
    assert!(
        (0..=30).contains(&score),
        "start position should be ~+tempo (0..30), got {score}"
    );
}

#[test]
fn up_a_queen_is_winning_for_the_mover() {
    // White has an extra queen (Black is missing its queen). Being up a queen
    // should read roughly +900 from the perspective of whoever owns it.

    // White to move, White has the extra queen -> clearly positive.
    let white_up =
        Position::from_fen("rnb1kbnr/pppppppp/8/8/8/8/PPPPPPPP/RNBQKBNR w KQkq - 0 1").unwrap();
    let sw = evaluate(&white_up);
    assert!(sw > 400, "White up a queen (White to move) should be clearly +, got {sw}");
    assert!(
        (750..=1150).contains(&sw),
        "White up a queen should be ~+900 (±150ish), got {sw}"
    );

    // Same material imbalance but Black to move: now the mover (Black) is the
    // one DOWN a queen, so the score must be clearly negative.
    let black_to_move =
        Position::from_fen("rnb1kbnr/pppppppp/8/8/8/8/PPPPPPPP/RNBQKBNR b KQkq - 0 1").unwrap();
    let sb = evaluate(&black_to_move);
    assert!(sb < -400, "Black to move while down a queen should be clearly -, got {sb}");

    // And when the side that HAS the extra queen is to move, the magnitude is
    // symmetric: a Black-up-a-queen position with Black to move ~ +900 too.
    let black_up =
        Position::from_fen("rnbqkbnr/pppppppp/8/8/8/8/PPPPPPPP/RNB1KBNR b KQkq - 0 1").unwrap();
    let sbu = evaluate(&black_up);
    assert!(
        (750..=1150).contains(&sbu),
        "Black up a queen (Black to move) should be ~+900, got {sbu}"
    );
}

#[test]
fn color_symmetry() {
    // A handful of asymmetric middlegame positions. Each must evaluate to the
    // exact same number as its color-mirrored twin — this is the strongest
    // check that the PST orientation is right for both colors.
    let fens = [
        "r3k2r/p1ppqpb1/bn2pnp1/3PN3/1p2P3/2N2Q1p/PPPBBPPP/R3K2R w KQkq - 0 1", // Kiwipete
        "r1bqkbnr/pppp1ppp/2n5/4p3/4P3/5N2/PPPP1PPP/RNBQKB1R w KQkq - 0 1",     // Italian-ish
        "r2q1rk1/1b1nbppp/p2ppn2/1p6/3NP3/1BN1B3/PPP1QPPP/R4RK1 w - - 0 1",     // Sicilian mg
        "8/2p5/3p4/KP5r/1R3p1k/8/4P1P1/8 w - - 0 1",                            // rook endgame
    ];
    for fen in fens {
        let pos = Position::from_fen(fen).unwrap();
        let mirror = Position::from_fen(&mirror_fen(fen)).unwrap();
        let a = evaluate(&pos);
        let b = evaluate(&mirror);
        assert_eq!(a, b, "color symmetry broken for {fen}: {a} vs {b}");
    }
}

#[test]
fn piece_values_are_ordered() {
    assert!(piece_value(PieceType::Queen) > piece_value(PieceType::Rook));
    assert!(piece_value(PieceType::Rook) > piece_value(PieceType::Bishop));
    assert!(piece_value(PieceType::Bishop) >= piece_value(PieceType::Knight));
    assert!(piece_value(PieceType::Knight) > piece_value(PieceType::Pawn));
}

/// Evaluate a FEN from White's point of view (undo the side-to-move flip), so
/// two crafted positions can be compared on a single, consistent scale.
fn white_eval(fen: &str) -> i32 {
    let pos = Position::from_fen(fen).unwrap();
    match pos.side_to_move() {
        Color::White => evaluate(&pos),
        Color::Black => -evaluate(&pos),
    }
}

#[test]
fn passed_pawn_helps_its_owner() {
    // Compare the passed-pawn term directly, in isolation from the rest of the
    // eval, so black's own pawns can't confound the sign. Both positions have a
    // White pawn on e5 and three black pawns; in the first the black pawns are
    // on a7/b7/c7 (nowhere near the e-file) so White's e-pawn is a clean passer,
    // in the second they sit on d7/e7/f7 and blockade it.
    let passer = {
        let pos = Position::from_fen("4k3/ppp5/8/4P3/8/8/8/4K3 w - - 0 1").unwrap();
        let wp = PawnInfo::new(pos.pieces_cp(Color::White, PieceType::Pawn), Color::White);
        let bp = PawnInfo::new(pos.pieces_cp(Color::Black, PieceType::Pawn), Color::Black);
        pawn_structure_for(Color::White, &wp, &bp)
    };
    let blocked = {
        let pos = Position::from_fen("4k3/3ppp2/8/4P3/8/8/8/4K3 w - - 0 1").unwrap();
        let wp = PawnInfo::new(pos.pieces_cp(Color::White, PieceType::Pawn), Color::White);
        let bp = PawnInfo::new(pos.pieces_cp(Color::Black, PieceType::Pawn), Color::Black);
        pawn_structure_for(Color::White, &wp, &bp)
    };
    // The endgame pawn-structure score (index 1) must be strictly higher when
    // the pawn is a passer.
    assert!(
        passer.1 > blocked.1,
        "a passed e-pawn (eg {}) should beat a blockaded one (eg {})",
        passer.1,
        blocked.1
    );
    assert!(
        passer.0 > blocked.0,
        "a passed e-pawn (mg {}) should beat a blockaded one (mg {})",
        passer.0,
        blocked.0
    );
}

#[test]
fn bishop_pair_is_a_bonus() {
    // Same material count (two minor pieces each) but one side has two bishops
    // and the other a bishop + knight. The bishop pair must score higher.
    let with_pair = white_eval("4k3/8/8/8/8/8/8/2B1KB2 w - - 0 1");
    let without_pair = white_eval("4k3/8/8/8/8/8/8/2B1KN2 w - - 0 1");
    assert!(
        with_pair > without_pair,
        "two bishops ({with_pair}) should beat bishop+knight ({without_pair})"
    );
}

#[test]
fn exposed_king_scores_worse() {
    // The same White army, but in the first the king is tucked behind a healthy
    // f2/g2/h2 pawn shield while enemy pieces bear down on it; in the second the
    // shield pawns are gone, exposing the king. The exposed king must be worse.
    //
    // Black keeps a queen + rook aimed at the White king in both; only the
    // White shield pawns differ, isolating the king-safety term.
    let sheltered = white_eval("3rr1k1/8/8/8/8/6q1/5PPP/6K1 w - - 0 1");
    let exposed = white_eval("3rr1k1/8/8/8/8/6q1/8/6K1 w - - 0 1");
    assert!(
        sheltered > exposed,
        "a sheltered king ({sheltered}) should score better than an exposed one \
         ({exposed})"
    );
}

#[test]
fn rook_on_open_file_is_better() {
    // Identical material and pawn structure (seven pawns, the d-file empty) in
    // both. Only the rook's file differs: on d1 it sits on the open d-file; on
    // c1 it is boxed behind its own c2 pawn. The open file must score better.
    let open = white_eval("4k3/8/8/8/8/8/PPP1PPPP/3RK3 w - - 0 1");
    let closed = white_eval("4k3/8/8/8/8/8/PPP1PPPP/2R1K3 w - - 0 1");
    assert!(
        open > closed,
        "a rook on the open d-file ({open}) should beat one behind its pawn \
         ({closed})"
    );
}

#[test]
fn mobility_rewards_active_pieces() {
    // A knight in the centre (d4) commands far more squares than one stuck in
    // the corner (a1), so the central knight must score better for White. Both
    // positions are otherwise identical bare-king setups.
    let central = white_eval("4k3/8/8/8/3N4/8/8/4K3 w - - 0 1");
    let cornered = white_eval("4k3/8/8/8/8/8/8/N3K3 w - - 0 1");
    assert!(
        central > cornered,
        "a central knight ({central}) should beat a cornered one ({cornered})"
    );
}

#[test]
fn positional_terms_stay_color_symmetric() {
    // Extra positions chosen to exercise every new term (passed pawns, king
    // safety, rook files, mobility, pawn structure) — each must still equal its
    // color-mirrored twin exactly.
    let fens = [
        "4k3/pp4pp/8/3P4/8/8/PP4PP/4K3 w - - 0 1",        // passed d-pawn
        "3rr1k1/5ppp/8/8/8/6q1/5PPP/3RR1K1 w - - 0 1",    // king-safety heavy
        "r3k2r/pppppppp/8/8/8/8/PPPPPPPP/R3K2R w KQkq - 0 1", // rooks + shields
        "2r2rk1/1bqnbppp/pp1ppn2/8/2P1P3/1PN1BN2/PB1QBPPP/3R1RK1 w - - 0 1", // rich mg
    ];
    for fen in fens {
        let pos = Position::from_fen(fen).unwrap();
        let mirror = Position::from_fen(&mirror_fen(fen)).unwrap();
        assert_eq!(
            evaluate(&pos),
            evaluate(&mirror),
            "color symmetry broken for {fen}"
        );
    }
}
