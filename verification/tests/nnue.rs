use mythos::nnue::{
    active_features, feature_index, Accumulator, Net, Network, Switch, HIDDEN, NUM_FEATURES,
};
use mythos::position::Position;
use mythos::types::{Color, Move, PieceType, Square};

/// Centipawns per unit of network output.
const SCALE: f32 = 400.0;

/// A network with its weights as floats.
struct Floats {
    w1: Vec<f32>,
    w1t: Vec<f32>,
    b1: Vec<f32>,
    w2: Vec<f32>,
    b2: f32,
}

/// The two hidden vectors.
struct Hidden {
    white: Vec<f32>,
    black: Vec<f32>,
}

fn crelu(x: f32) -> f32 {
    x.clamp(0.0, 1.0)
}

fn floats(bits: &[u32]) -> Vec<f32> {
    bits.iter().map(|&b| f32::from_bits(b)).collect()
}

impl Floats {
    fn new(net: &Net) -> Floats {
        Floats {
            w1: floats(&net.w1),
            w1t: floats(&net.w1t),
            b1: floats(&net.b1),
            w2: floats(&net.w2),
            b2: f32::from_bits(net.b2),
        }
    }

    fn layer_two(&self, stm: &[f32], nstm: &[f32]) -> i32 {
        let mut o = self.b2;
        for j in 0..HIDDEN {
            o += self.w2[j] * crelu(stm[j]);
        }
        for j in 0..HIDDEN {
            o += self.w2[HIDDEN + j] * crelu(nstm[j]);
        }
        (o * SCALE).round().clamp(-10_000.0, 10_000.0) as i32
    }

    fn accumulate(&self, pos: &Position, perspective: Color) -> Vec<f32> {
        let mut feats = Vec::new();
        active_features(pos, perspective, &mut feats);
        let mut acc = self.b1.clone();
        for &f in feats.iter() {
            for (j, a) in acc.iter_mut().enumerate() {
                *a += self.w1[j * NUM_FEATURES + f];
            }
        }
        acc
    }

    /// The score of a position, with both accumulators summed up from nothing.
    fn evaluate(&self, pos: &Position) -> i32 {
        let stm = pos.side_to_move();
        let a = self.accumulate(pos, stm);
        let b = self.accumulate(pos, stm.opponent());
        self.layer_two(&a, &b)
    }

    fn evaluate_acc(&self, acc: &Accumulator<Floats>, stm: Color) -> i32 {
        self.output(&acc.hidden, stm)
    }
}

impl Network for Floats {
    type Hidden = Hidden;

    fn blank(&self) -> Hidden {
        Hidden { white: self.b1.clone(), black: self.b1.clone() }
    }

    fn update(&self, h: &Hidden, switches: &Vec<Switch>) -> Hidden {
        let mut out = Hidden { white: h.white.clone(), black: h.black.clone() };
        for s in switches {
            let sign = if s.on { 1.0 } else { -1.0 };
            for j in 0..HIDDEN {
                out.white[j] += sign * self.w1t[s.white * HIDDEN + j];
                out.black[j] += sign * self.w1t[s.black * HIDDEN + j];
            }
        }
        out
    }

    fn output(&self, h: &Hidden, stm: Color) -> i32 {
        match stm {
            Color::White => self.layer_two(&h.white, &h.black),
            Color::Black => self.layer_two(&h.black, &h.white),
        }
    }
}

#[test]
fn zeros_net_evaluates_to_zero() {
    let net = Floats::new(&Net::zeros());
    let fens = [
        "rnbqkbnr/pppppppp/8/8/8/8/PPPPPPPP/RNBQKBNR w KQkq - 0 1",
        "r3k2r/p1ppqpb1/bn2pnp1/3PN3/1p2P3/2N2Q1p/PPPBBPPP/R3K2R w KQkq - 0 1",
        "8/2p5/3p4/KP5r/1R3p1k/8/4P1P1/8 b - - 0 1",
    ];
    for fen in fens {
        let pos = Position::from_fen(fen).unwrap();
        assert_eq!(net.evaluate(&pos), 0, "zeros net must score 0 for {fen}");
    }
}

#[test]
fn save_load_round_trips() {
    // Build a net with a few distinct, recognizable values.
    let mut net = Net::zeros();
    net.w1[0] = 0.5f32.to_bits();
    net.w1[NUM_FEATURES + 3] = (-0.25f32).to_bits();
    net.w1[HIDDEN * NUM_FEATURES - 1] = 1.5f32.to_bits();
    net.b1[0] = (-0.75f32).to_bits();
    net.b1[HIDDEN - 1] = 0.125f32.to_bits();
    net.w2[0] = 2.0f32.to_bits();
    net.w2[2 * HIDDEN - 1] = (-2.0f32).to_bits();
    net.b2 = 0.333f32.to_bits();

    let bytes = net.to_bytes();
    let loaded = Net::from_bytes(&bytes).unwrap();

    assert_eq!(loaded.w1, net.w1);
    assert_eq!(loaded.b1, net.b1);
    assert_eq!(loaded.w2, net.w2);
    assert_eq!(loaded.b2, net.b2);
}

#[test]
fn start_position_has_32_valid_features_per_perspective() {
    let pos = Position::startpos();
    let mut feats = Vec::new();
    for perspective in [Color::White, Color::Black] {
        active_features(&pos, perspective, &mut feats);
        assert_eq!(feats.len(), 32, "start position has 32 pieces");
        for &f in &feats {
            assert!(f < NUM_FEATURES, "feature {f} out of range");
        }
    }
}

#[test]
fn bad_magic_is_rejected() {
    let mut net = Net::zeros();
    net.b2 = 1.0f32.to_bits();
    let mut bytes = net.to_bytes();
    bytes[0] ^= 0xFF; // corrupt the magic
    assert!(Net::from_bytes(&bytes).is_none());
}

// -- Incremental accumulator ------------------------------------------------

/// A deterministic "random-ish" net: every weight is a small, reproducible
/// value derived from its index by a cheap hash.
fn pseudo_random_net() -> Floats {
    fn weight(i: usize) -> u32 {
        let mut x = (i as u64).wrapping_mul(0x9E37_79B9_7F4A_7C15);
        x ^= x >> 29;
        x = x.wrapping_mul(0xBF58_476D_1CE4_E5B9);
        x ^= x >> 32;
        // Take 16 bits -> [0, 65535] -> [-0.5, ~0.5).
        (((x & 0xFFFF) as f32) / 65536.0 - 0.5).to_bits()
    }

    let mut net = Net::zeros();
    for (i, w) in net.w1.iter_mut().enumerate() {
        *w = weight(i);
    }
    for (i, b) in net.b1.iter_mut().enumerate() {
        *b = weight(i + 0x1000_0000);
    }
    for (i, w) in net.w2.iter_mut().enumerate() {
        *w = weight(i + 0x2000_0000);
    }
    net.b2 = weight(0x3000_0000);
    // `w1` was mutated directly, so refresh the derived transposed copy that the
    // accumulator update reads.
    net.rebuild_w1t();
    Floats::new(&net)
}

/// The two accumulators agree element-wise within a tiny float epsilon.
fn accs_close(a: &Accumulator<Floats>, b: &Accumulator<Floats>) -> bool {
    const EPS: f32 = 1e-3;
    a.hidden
        .white
        .iter()
        .zip(b.hidden.white.iter())
        .chain(a.hidden.black.iter().zip(b.hidden.black.iter()))
        .all(|(x, y)| (x - y).abs() <= EPS)
}

#[test]
fn evaluate_acc_matches_from_scratch_evaluate() {
    // The core invariant: evaluating from a freshly refreshed accumulator must
    // give the *identical* centipawn score as the from-scratch `evaluate`.
    let net = pseudo_random_net();
    let fens = [
        "rnbqkbnr/pppppppp/8/8/8/8/PPPPPPPP/RNBQKBNR w KQkq - 0 1",
        "r3k2r/p1ppqpb1/bn2pnp1/3PN3/1p2P3/2N2Q1p/PPPBBPPP/R3K2R w KQkq - 0 1",
        "8/2p5/3p4/KP5r/1R3p1k/8/4P1P1/8 b - - 0 1",
        "rnbqkbnr/pp1ppppp/8/2pP4/8/8/PPP1PPPP/RNBQKBNR w KQkq c6 0 3",
        "8/P7/8/8/8/8/8/k1K5 w - - 0 1",
        "r3k2r/8/8/8/8/8/8/R3K2R b Kq - 5 12",
    ];
    for fen in fens {
        let pos = Position::from_fen(fen).unwrap();
        let acc = Accumulator::refresh(&net, &pos);
        assert_eq!(
            net.evaluate_acc(&acc, pos.side_to_move()),
            net.evaluate(&pos),
            "acc eval must equal from-scratch eval for {fen}"
        );
    }
}

/// Apply a sequence of moves, threading the accumulator incrementally, and
/// after each move assert the incremental accumulator equals a from-scratch
/// refresh of the resulting position (and that the eval matches too).
fn assert_incremental_matches(net: &Floats, fen: &str, moves: &[Move]) {
    let mut pos = Position::from_fen(fen).unwrap_or_else(|e| panic!("bad fen {fen}: {e:?}"));
    let mut acc = Accumulator::refresh(net, &pos);
    // Sanity: the starting accumulator itself agrees with the eval.
    assert_eq!(net.evaluate_acc(&acc, pos.side_to_move()), net.evaluate(&pos));

    for &m in moves {
        // Compute the child accumulator from the pre-move position, then make
        // the move on the scratch board to advance `pos`.
        let child = Accumulator::apply_move(net, &acc, &pos, m);
        pos.make_move(m);

        let fresh = Accumulator::refresh(net, &pos);
        assert!(
            accs_close(&child, &fresh),
            "incremental accumulator drifted after {} in {fen}",
            m.to_string()
        );
        assert_eq!(
            net.evaluate_acc(&child, pos.side_to_move()),
            net.evaluate(&pos),
            "incremental eval drifted after {} in {fen}",
            m.to_string()
        );
        acc = child;
    }
}

/// The square at a file letter and a rank digit.
fn sq(name: &str) -> Square {
    let b = name.as_bytes();
    Square::make(b[0] - b'a', b[1] - b'1')
}

fn normal(from: &str, to: &str) -> Move {
    Move::normal(sq(from), sq(to))
}

#[test]
fn incremental_normal_and_capture_and_double_push() {
    let net = pseudo_random_net();
    // A full opening line: double pushes (ep targets), a knight develop, a
    // bishop develop, castling, and captures along the way.
    assert_incremental_matches(
        &net,
        "rnbqkbnr/pppppppp/8/8/8/8/PPPPPPPP/RNBQKBNR w KQkq - 0 1",
        &[
            normal("e2", "e4"), // white double push
            normal("d7", "d5"), // black double push
            normal("e4", "d5"), // capture (pawn takes pawn)
            normal("g8", "f6"), // knight develop
            normal("g1", "f3"), // knight develop
            normal("f6", "d5"), // knight recaptures pawn
        ],
    );
}

#[test]
fn incremental_en_passant() {
    let net = pseudo_random_net();
    // White pawn on d5, black just played ...c5 (ep target on c6): d5xc6 e.p.
    assert_incremental_matches(
        &net,
        "rnbqkbnr/pp1ppppp/8/2pP4/8/8/PPP1PPPP/RNBQKBNR w KQkq c6 0 3",
        &[Move::en_passant(sq("d5"), sq("c6"))],
    );
}

#[test]
fn incremental_castling_both_sides() {
    let net = pseudo_random_net();
    // White king-side, then continue and let Black castle king-side too.
    assert_incremental_matches(
        &net,
        "r3k2r/8/8/8/8/8/8/R3K2R w KQkq - 0 1",
        &[
            Move::castling(sq("e1"), sq("h1")), // white O-O
            Move::castling(sq("e8"), sq("h8")), // black O-O
        ],
    );
    // White queen-side, then Black queen-side.
    assert_incremental_matches(
        &net,
        "r3k2r/8/8/8/8/8/8/R3K2R w KQkq - 0 1",
        &[
            Move::castling(sq("e1"), sq("a1")), // white O-O-O
            Move::castling(sq("e8"), sq("a8")), // black O-O-O
        ],
    );
}

#[test]
fn incremental_promotion_quiet_and_capture() {
    let net = pseudo_random_net();
    // A quiet promotion to a queen.
    assert_incremental_matches(
        &net,
        "k7/P7/8/8/8/8/8/K7 w - - 0 1",
        &[Move::promotion(sq("a7"), sq("a8"), PieceType::Queen)],
    );
    // A capturing promotion: b7 takes the rook on a8, promoting to a knight.
    assert_incremental_matches(
        &net,
        "r6k/1P6/8/8/8/8/8/K7 w - - 0 1",
        &[Move::promotion(sq("b7"), sq("a8"), PieceType::Knight)],
    );
}

#[test]
fn incremental_mixed_sequence_on_kiwipete() {
    let net = pseudo_random_net();
    // A rich middlegame with knight moves, a pawn capture, and castling mixed
    // together — the accumulator must stay exact across all of them.
    assert_incremental_matches(
        &net,
        "r3k2r/p1ppqpb1/bn2pnp1/3PN3/1p2P3/2N2Q1p/PPPBBPPP/R3K2R w KQkq - 0 1",
        &[
            normal("d5", "e6"),                 // pawn captures pawn
            normal("e7", "e6"),                 // queen recaptures
            Move::castling(sq("e1"), sq("h1")), // white O-O
            normal("a6", "e2"),                 // bishop captures bishop
            normal("f3", "e2"),                 // queen recaptures bishop
        ],
    );
}

#[test]
fn feature_indices_are_laid_out_by_owner_kind_and_square() {
    // White's own pawn on a1 is the first feature; the enemy's come after its own.
    assert_eq!(feature_index(Color::White, Color::White, PieceType::Pawn, sq("a1")), 0);
    assert_eq!(feature_index(Color::White, Color::Black, PieceType::Pawn, sq("a1")), 384);
    // Black sees the board upside down.
    assert_eq!(feature_index(Color::Black, Color::Black, PieceType::King, sq("e8")), 324);
    assert_eq!(feature_index(Color::White, Color::White, PieceType::King, sq("e1")), 324);
}
