use mythos::fen::FenError;
use mythos::movegen::generate_legal;
use mythos::perft::{format_divide, perft, perft_divide};
use mythos::position::Position;
use mythos::see::{see, see_ge, see_value};
use mythos::tt::{Bound, TranspositionTable};
use mythos::types::{Color, Direction, Move, MoveType, Piece, PieceType, Square};
use mythos::uci::apply_uci_move;

const KIWIPETE: &str = "r3k2r/p1ppqpb1/bn2pnp1/3PN3/1p2P3/2N2Q1p/PPPBBPPP/R3K2R w KQkq - 0 1";

fn sq(name: &str) -> Square {
    let b = name.as_bytes();
    Square::make(b[0] - b'a', b[1] - b'1')
}

fn names(fen: &str) -> Vec<String> {
    let pos = Position::from_fen(fen).unwrap();
    let list = generate_legal(&pos);
    (0..list.len()).map(|i| list.get(i).to_string()).collect()
}

// -- Counting positions -------------------------------------------------------

#[test]
fn perft_of_the_start_position() {
    let pos = Position::startpos();
    assert_eq!(perft(&pos, 0), 1);
    assert_eq!(perft(&pos, 1), 20);
    assert_eq!(perft(&pos, 2), 400);
    assert_eq!(perft(&pos, 3), 8_902);
    assert_eq!(perft(&pos, 4), 197_281);
}

#[test]
fn perft_of_kiwipete() {
    let pos = Position::from_fen(KIWIPETE).unwrap();
    assert_eq!(perft(&pos, 1), 48);
    assert_eq!(perft(&pos, 2), 2_039);
    assert_eq!(perft(&pos, 3), 97_862);
}

#[test]
fn perft_of_an_endgame_with_en_passant_and_pins() {
    let pos = Position::from_fen("8/2p5/3p4/KP5r/1R3p1k/8/4P1P1/8 w - - 0 1").unwrap();
    assert_eq!(perft(&pos, 1), 14);
    assert_eq!(perft(&pos, 2), 191);
    assert_eq!(perft(&pos, 3), 2_812);
    assert_eq!(perft(&pos, 4), 43_238);
}

#[test]
fn perft_with_promotions() {
    let pos =
        Position::from_fen("r3k2r/Pppp1ppp/1b3nbN/nP6/BBP1P3/q4N2/Pp1P2PP/R2Q1RK1 w kq - 0 1")
            .unwrap();
    assert_eq!(perft(&pos, 1), 6);
    assert_eq!(perft(&pos, 2), 264);
    assert_eq!(perft(&pos, 3), 9_467);
}

#[test]
fn divided_counts_add_up() {
    let pos = Position::startpos();
    let d = perft_divide(&pos, 3);
    assert_eq!(d.len(), 20);
    assert_eq!(d.iter().map(|x| x.1).sum::<u64>(), 8_902);
    let text = format_divide(&d);
    assert!(text.contains("e2e4: 600\n"));
    assert!(text.ends_with("Total: 8902\n"));
}

// -- Checks and pins ----------------------------------------------------------

#[test]
fn double_check_moves_only_the_king() {
    // The rook on e8 and the knight on d3 both give check.
    let moves = names("4r1k1/8/8/8/8/3n4/8/R3K2R w - - 0 1");
    assert!(!moves.is_empty());
    assert!(moves.iter().all(|m| m.starts_with("e1")));
}

#[test]
fn a_single_check_is_taken_or_blocked() {
    // The rook on e8 gives check: take it with a8, block it with d3 or go away.
    let moves = names("R3r1k1/8/8/8/8/3N4/8/4K3 w - - 0 1");
    assert!(moves.contains(&"a8e8".to_string()));
    assert!(moves.contains(&"d3e5".to_string()));
    assert!(!moves.contains(&"d3b4".to_string()));
    assert!(!moves.contains(&"e1e2".to_string()));
}

#[test]
fn a_pinned_rook_stays_on_its_file() {
    let moves = names("4r1k1/8/8/8/8/8/4R3/4K3 w - - 0 1");
    let rook: Vec<&String> = moves.iter().filter(|m| m.starts_with("e2")).collect();
    assert_eq!(rook.len(), 6);
    assert!(rook.iter().all(|m| m.as_bytes()[2] == b'e'));
}

#[test]
fn en_passant_that_uncovers_the_king_is_not_legal() {
    let moves = names("8/8/8/KPp4r/8/8/8/7k w - c6 0 1");
    assert!(!moves.contains(&"b5c6".to_string()));
    assert!(moves.contains(&"b5b6".to_string()));
}

#[test]
fn castling_needs_a_free_and_safe_way() {
    let free = names("r3k2r/8/8/8/8/8/8/R3K2R w KQkq - 0 1");
    assert!(free.contains(&"e1g1".to_string()) && free.contains(&"e1c1".to_string()));
    // f1 is attacked, b1 may be.
    let hit = names("1r2kr2/8/8/8/8/8/8/R3K2R w KQ - 0 1");
    assert!(!hit.contains(&"e1g1".to_string()));
    assert!(hit.contains(&"e1c1".to_string()));
    // Out of check there is no castling.
    let check = names("4r1k1/8/8/8/8/8/8/R3K2R w KQ - 0 1");
    assert!(!check.contains(&"e1g1".to_string()) && !check.contains(&"e1c1".to_string()));
}

// -- Making and taking back -----------------------------------------------------

#[test]
fn undoing_a_move_gives_the_position_back() {
    let mut pos = Position::from_fen(KIWIPETE).unwrap();
    let before = pos.to_fen();
    let key = pos.key();
    let list = generate_legal(&pos);
    for i in 0..list.len() {
        let m = list.get(i);
        let undo = pos.make_move(m);
        assert_ne!(pos.key(), key);
        pos.undo_move(m, undo);
        assert_eq!(pos.to_fen(), before);
        assert_eq!(pos.key(), key);
    }
    let undo = pos.make_null_move();
    assert_eq!(pos.side_to_move(), Color::Black);
    assert_ne!(pos.key(), key);
    pos.undo_null_move(undo);
    assert_eq!(pos.to_fen(), before);
    assert_eq!(pos.key(), key);
}

#[test]
fn transpositions_have_one_key() {
    let mut a = Position::startpos();
    for m in ["g1f3", "g8f6", "b1c3", "b8c6"] {
        assert!(apply_uci_move(&mut a, m));
    }
    let mut b = Position::startpos();
    for m in ["b1c3", "b8c6", "g1f3", "g8f6"] {
        assert!(apply_uci_move(&mut b, m));
    }
    assert_eq!(a.key(), b.key());
    assert_eq!(a.to_fen(), b.to_fen());
    assert_ne!(a.key(), Position::startpos().key());
}

#[test]
fn castling_moves_king_and_rook() {
    let mut pos = Position::from_fen("r3k2r/8/8/8/8/8/8/R3K2R w KQkq - 0 1").unwrap();
    pos.make_move(Move::castling(sq("e1"), sq("c1").offset(Direction::West).unwrap().offset(Direction::West).unwrap()));
    assert_eq!(pos.to_fen(), "r3k2r/8/8/8/8/8/8/2KR3R b kq - 1 1");
    assert_eq!(Move::castling(sq("e1"), sq("a1")).to_string(), "e1c1");
    assert_eq!(Move::castling(sq("e8"), sq("h8")).to_string(), "e8g8");
}

// -- FEN ---------------------------------------------------------------------------

#[test]
fn fens_are_written_as_they_are_read() {
    for fen in [
        "rnbqkbnr/pppppppp/8/8/8/8/PPPPPPPP/RNBQKBNR w KQkq - 0 1",
        KIWIPETE,
        "8/2p5/3p4/KP5r/1R3p1k/8/4P1P1/8 b - - 17 42",
        "rnbqkbnr/pp1ppppp/8/2pP4/8/8/PPP1PPPP/RNBQKBNR w Kq c6 0 3",
    ] {
        assert_eq!(Position::from_fen(fen).unwrap().to_fen(), fen);
    }
}

#[test]
fn missing_fields_have_defaults() {
    let pos = Position::from_fen("8/8/8/4k3/8/8/8/4K3 b").unwrap();
    assert_eq!(pos.to_fen(), "8/8/8/4k3/8/8/8/4K3 b - - 0 1");
}

#[test]
fn each_bad_field_is_reported() {
    let err = |fen: &str| Position::from_fen(fen).err();
    assert_eq!(err(""), Some(FenError::Fields));
    assert_eq!(err("8/8/8/8/8/8/8/8"), Some(FenError::Fields));
    assert_eq!(err("4k3/8/8/8/8/8/8/4K3 w - - 0 1 extra"), Some(FenError::Fields));
    assert_eq!(err("4k3/8/8/8/8/8/8/4K4 w - - 0 1"), Some(FenError::Placement));
    assert_eq!(err("4k3/8/8/8/8/8/4K3 w - - 0 1"), Some(FenError::Placement));
    assert_eq!(err("4x3/8/8/8/8/8/8/4K3 w - - 0 1"), Some(FenError::Placement));
    assert_eq!(err("4k3/8/8/8/8/8/8/4K3 x - - 0 1"), Some(FenError::Side));
    assert_eq!(err("4k3/8/8/8/8/8/8/4K3 w X - 0 1"), Some(FenError::Castling));
    assert_eq!(err("4k3/8/8/8/8/8/8/4K3 w - z9 0 1"), Some(FenError::EnPassant));
    assert_eq!(err("4k3/8/8/8/8/8/8/4K3 w - - x 1"), Some(FenError::Clock));
    assert_eq!(err("4k3/8/8/8/8/8/8/4K3 w - - 0 x"), Some(FenError::Clock));
    assert_eq!(err("8/8/8/8/8/8/8/4K3 w - - 0 1"), Some(FenError::Kings));
    assert_eq!(err("4k3/8/8/8/8/8/8/3KK3 w - - 0 1"), Some(FenError::Kings));
}

// -- Small types ---------------------------------------------------------------------

#[test]
fn squares_and_pieces() {
    assert_eq!(sq("e4").index(), 28);
    assert_eq!((sq("e4").file(), sq("e4").rank()), (4, 3));
    assert_eq!(sq("e4").flip_rank(), sq("e5"));
    assert_eq!(sq("h4").offset(Direction::East), None);
    assert_eq!(sq("h4").offset(Direction::North), Some(sq("h5")));
    assert_eq!(Square::from_index(64), None);
    assert_eq!(Square::from_index(63), Some(sq("h8")));
    assert_eq!(Piece::from_char('n'), Some(Piece::new(Color::Black, PieceType::Knight)));
    assert_eq!(Piece::from_char('x'), None);
    assert_eq!(Piece::new(Color::White, PieceType::Queen).to_char(), 'Q');
    assert_eq!(Move::promotion(sq("a7"), sq("b8"), PieceType::Rook).to_string(), "a7b8r");
    assert_eq!(Move::en_passant(sq("d5"), sq("c6")).move_type(), MoveType::EnPassant);
    assert!(Move::none().is_none());
    assert!(!Move::normal(sq("e2"), sq("e4")).is_none());
}

// -- Static exchange -------------------------------------------------------------------

#[test]
fn exchanges_are_counted() {
    // A pawn takes a queen that nobody defends.
    let pos = Position::from_fen("4k3/8/8/3q4/4P3/8/8/4K3 w - - 0 1").unwrap();
    let m = Move::normal(sq("e4"), sq("d5"));
    assert_eq!(see(&pos, m), see_value(PieceType::Queen));
    assert!(see_ge(&pos, m, see_value(PieceType::Queen)));
    assert!(!see_ge(&pos, m, see_value(PieceType::Queen) + 1));
    // A queen takes a pawn that a pawn defends.
    let pos = Position::from_fen("4k3/2p5/3p4/8/8/8/8/3QK3 w - - 0 1").unwrap();
    let m = Move::normal(sq("d1"), sq("d6"));
    assert_eq!(see(&pos, m), see_value(PieceType::Pawn) - see_value(PieceType::Queen));
    assert!(!see_ge(&pos, m, 0));
    assert_eq!(see_value(PieceType::King), 20_000);
}

// -- The table ---------------------------------------------------------------------------

#[test]
fn stored_results_are_found_until_replaced() {
    let mut tt = TranspositionTable::new(1);
    let m = Move::normal(sq("e2"), sq("e4"));
    assert_eq!(tt.probe(77), None);
    tt.store(77, m, -12, 5, Bound::Lower);
    let e = tt.probe(77).unwrap();
    assert_eq!((e.key, e.best_move, e.score, e.depth, e.bound), (77, m, -12, 5, Bound::Lower));
    // Another hash with the same slot takes its place; others do not.
    tt.store(78, m, 1, 1, Bound::Exact);
    assert!(tt.probe(77).is_some());
    tt.store(77 + 32_768, m, 1, 1, Bound::Upper);
    assert_eq!(tt.probe(77), None);
    tt.clear();
    assert_eq!(tt.probe(78), None);
}
