use mythos::datagen::{format_line, Labeled};
use mythos::nnue::{active_features, HIDDEN, NUM_FEATURES};
use mythos::position::Position;
use mythos::rng::SplitMix64;
use mythos::training::{
    add_samples, arg_val, batches, chunks, export, first_order, gather, number_or, read_dataset, read_files,
    read_line, read_padded, read_samples, read_settings, shuffle, thread_parts, to_u16, Entry,
    Epochs, Setting, MAX_FEATS, PAD,
};

const FEN: &str = "r3k2r/p1ppqpb1/bn2pnp1/3PN3/1p2P3/2N2Q1p/PPPBBPPP/R3K2R b KQkq - 0 1";

fn args(s: &str) -> Vec<String> {
    s.split_whitespace().map(|x| x.to_string()).collect()
}

#[test]
fn generated_lines_are_read_back() {
    let l = Labeled { fen: FEN.to_string(), stm_score: -31, result: 2 };
    let line = format_line(&l);
    match read_line(&line) {
        Entry::Data(row) => {
            let pos = Position::from_fen(FEN).unwrap();
            let mut f = Vec::new();
            active_features(&pos, pos.side_to_move(), &mut f);
            assert_eq!(row.stm, to_u16(&f));
            active_features(&pos, pos.side_to_move().opponent(), &mut f);
            assert_eq!(row.nstm, to_u16(&f));
            assert_eq!((row.score.as_str(), row.result.as_str()), ("-31", "1.0"));
        }
        _ => panic!("the line was not read"),
    }
    let p = read_padded(&line).unwrap();
    assert_eq!((p.score.as_str(), p.result.as_str()), ("-31", "1.0"));
    assert_eq!(p.stm[31], p.stm[31].min(PAD));
}

#[test]
fn other_lines_are_passed_over() {
    assert!(matches!(read_line(""), Entry::Blank));
    assert!(matches!(read_line("  # a comment | 1 | 2"), Entry::Blank));
    assert!(matches!(read_line("no bars here"), Entry::Malformed));
    assert!(matches!(read_line("not a fen | 1 | 0.5"), Entry::Malformed));
    let four = format!("{FEN} | 1 | 0.5 | more");
    assert!(matches!(read_line(&four), Entry::Malformed));
    assert!(read_padded(&four).is_some());
    assert!(read_padded("no bars here").is_none());
    assert!(read_padded("not a fen | 1 | 0.5").is_none());
}

#[test]
fn samples_are_filled_up() {
    let p = read_padded("4k3/8/8/8/8/8/8/4K3 w - - 0 1 | 0 | 0.5").unwrap();
    assert_eq!(p.stm.iter().filter(|&&f| f != PAD).count(), 2);
    assert_eq!(p.stm[2..], [PAD; 30]);
    let q = read_padded("rnbqkbnr/pppppppp/8/8/8/8/PPPPPPPP/RNBQKBNR w KQkq - 0 1 | 0 | 0.5").unwrap();
    assert!(q.stm.iter().all(|&f| f != PAD));
    let samples = vec![p, q];
    let b = gather(&samples, &vec![1, 0]);
    assert_eq!(b.stm.len(), 2 * MAX_FEATS);
    assert_eq!(b.stm[..MAX_FEATS], samples[1].stm);
    assert_eq!(b.nstm[MAX_FEATS..], samples[0].nstm);
    assert!(b.stm_mask[..MAX_FEATS].iter().all(|&x| x));
    assert_eq!(b.nstm_mask[MAX_FEATS..].iter().filter(|&&x| x).count(), 2);
}

#[test]
fn orders_are_shuffled_and_keep_their_elements() {
    let mut a = first_order(100);
    assert_eq!(a, (0..100).collect::<Vec<usize>>());
    let mut rng = SplitMix64::new(0xD1CE_D1CE_D1CE_D1CE);
    shuffle(&mut a, &mut rng);
    // The same exchanges made by hand.
    let mut b: Vec<usize> = (0..100).collect();
    let mut r = SplitMix64::new(0xD1CE_D1CE_D1CE_D1CE);
    for i in (1..100).rev() {
        let j = (r.next() % (i as u64 + 1)) as usize;
        b.swap(i, j);
    }
    assert_eq!(a, b);
    assert_ne!(a, first_order(100));
    a.sort();
    assert_eq!(a, first_order(100));
    let mut one = vec![5];
    shuffle(&mut one, &mut rng);
    assert_eq!(one, [5]);
}

#[test]
fn random_orders_keep_their_elements() {
    let (e, parts) = Epochs::new(1000).next(64);
    assert_eq!(parts.len(), 16);
    let mut all: Vec<usize> = parts.concat();
    assert_eq!(all, e.order);
    assert_ne!(all, first_order(1000));
    let second = e.next(64).1.concat();
    assert_ne!(all, second);
    all.sort();
    assert_eq!(all, first_order(1000));
}

#[test]
fn samples_are_divided_into_batches() {
    assert_eq!(batches(10, 4), [(0, 4), (4, 8), (8, 10)]);
    assert_eq!(batches(8, 4), [(0, 4), (4, 8)]);
    assert_eq!(batches(0, 4), []);
    assert_eq!(batches(3, usize::MAX), [(0, 3)]);
    assert_eq!(chunks(&vec![9, 8, 7], 2), [vec![9, 8], vec![7]]);
    assert_eq!(thread_parts(10, 4), [(0, 3), (3, 6), (6, 9), (9, 10)]);
    assert_eq!(thread_parts(10, 1), [(0, 10)]);
    assert_eq!(thread_parts(1, 8), [(0, 1)]);
    assert_eq!(thread_parts(5, 4), [(0, 2), (2, 4), (4, 5)]);
}

#[test]
fn training_arguments() {
    let (a, b) = read_files(&args("data net --epochs 3")).ok().unwrap();
    assert_eq!((a.as_str(), b.as_str()), ("data", "net"));
    assert_eq!(
        read_files(&args("")).err().unwrap(),
        "usage: train <data_file> <out_net_file> [--epochs E] [--lr LR] [--threads T] [--lambda L] [--batch B]"
    );
    assert_eq!(read_files(&args("data")).err().unwrap(), "error: missing <out_net_file>");
    let (set, err) = read_settings(
        &args("d n --epochs 3 --lr 0.01 --threads 0 --lambda 0.5 --batch 0"),
        2,
    );
    assert!(err.is_none());
    assert!(matches!(set[0], Setting::Epochs(3)));
    assert!(matches!(&set[1], Setting::Rate(s) if s == "0.01"));
    assert!(matches!(set[2], Setting::Threads(1)));
    assert!(matches!(&set[3], Setting::Lambda(s) if s == "0.5"));
    assert!(matches!(set[4], Setting::Batch(1)));
    let err = |s: &str| read_settings(&args(s), 0).1.unwrap();
    assert_eq!(err("--epochs"), "error: flag --epochs needs a value");
    assert_eq!(err("--speed 3"), "error: unknown flag '--speed'");
    assert_eq!(err("--batch x"), "error: could not parse value 'x' for --batch");
    let (set, e) = read_settings(&args("--epochs 1 --nope"), 0);
    assert_eq!((set.len(), e.is_some()), (1, true));
}

#[test]
fn named_arguments() {
    let a = args("prog out --data x --epochs 7 --batch y --data z --lr");
    assert_eq!(arg_val(&a, "--data"), Some("x".to_string()));
    assert_eq!(arg_val(&a, "--lr"), None);
    assert_eq!(arg_val(&a, "--none"), None);
    assert_eq!(number_or(&a, "--epochs", 30), 7);
    assert_eq!(number_or(&a, "--batch", 8192), 8192);
    assert_eq!(number_or(&a, "--shards", 24), 24);
}

#[test]
fn weights_are_laid_out_for_the_engine() {
    let ft: Vec<u32> = (0..((NUM_FEATURES + 1) * HIDDEN) as u32).collect();
    let b1: Vec<u32> = (0..HIDDEN as u32).map(|x| x + 7).collect();
    let w2: Vec<u32> = (0..2 * HIDDEN as u32).map(|x| x + 9).collect();
    let net = export(&ft, &b1, &w2, 42);
    assert_eq!(net.w1[3 * NUM_FEATURES + 5], ft[5 * HIDDEN + 3]);
    assert_eq!(net.w1t[5 * HIDDEN + 3], ft[5 * HIDDEN + 3]);
    assert_eq!((net.b1[1], net.w2[2], net.b2), (8, 11, 42));
}

#[test]
fn whole_files_are_read() {
    let file = format!("# data\n{FEN} | 5 | 0.5\r\n\nbroken\n{FEN} | -7 | 0.0\nx | 1 | 1.0\n");
    let (rows, skipped) = read_dataset(&file);
    let scores: Vec<&str> = rows.iter().map(|r| r.score.as_str()).collect();
    assert_eq!(scores, ["5", "-7"]);
    assert_eq!(rows[0].result, "0.5");
    assert_eq!(skipped, 2);
    let samples = read_samples(&file);
    let scores: Vec<&str> = samples.iter().map(|r| r.score.as_str()).collect();
    assert_eq!(scores, ["5", "-7"]);
    assert_eq!(read_dataset("").1, 0);
    assert!(read_samples("").is_empty());
}

#[test]
fn samples_are_added_up_to_a_limit() {
    let file = |n: i32| -> String {
        (0..n).map(|i| format!("{FEN} | {i} | 0.5\n")).collect()
    };
    let mut rows = Vec::new();
    add_samples(&mut rows, read_samples(&file(3)), 5);
    assert_eq!(rows.len(), 3);
    add_samples(&mut rows, read_samples(&file(4)), 5);
    let scores: Vec<&str> = rows.iter().map(|r| r.score.as_str()).collect();
    assert_eq!(scores, ["0", "1", "2", "0", "1"]);
    add_samples(&mut rows, read_samples(&file(4)), 5);
    add_samples(&mut rows, read_samples(&file(4)), 2);
    assert_eq!(rows.len(), 5);
    let mut none = Vec::new();
    add_samples(&mut none, read_samples(&file(4)), 0);
    assert!(none.is_empty());
}
