//! Training a network: reading data, ordering it, and laying weights out.

use rand::SeedableRng;
use rand::rngs::StdRng;
use rand::seq::SliceRandom;
use vstd::prelude::*;

use crate::cli;
use crate::datagen;
use crate::fen;
use crate::fen::{fen_text, fen_view};
use crate::nnue::{HIDDEN, NUM_FEATURES, Net, W1_LEN, W2_LEN, active_features, features};
use crate::position::Position;
use crate::rng;
use crate::rng::SplitMix64;
use crate::rules::PosView;
use crate::text;
use crate::text::{dec_int, is_plain, maybe, parse_dec, pieces, strings, trimmed};
use crate::tree::at_most;

verus! {

// ---------------------------------------------------------------------------
// Reading data.
// ---------------------------------------------------------------------------

/// A line of training data: the features of both players, and the score and the
/// result as they are written.
pub struct Row {
    pub stm: Vec<u16>,
    pub nstm: Vec<u16>,
    pub score: String,
    pub result: String,
}

/// A line of training data over plain values.
pub struct Datum {
    pub stm: Seq<u16>,
    pub nstm: Seq<u16>,
    pub score: Seq<char>,
    pub result: Seq<char>,
}

impl View for Row {
    type V = Datum;

    open spec fn view(&self) -> Datum {
        Datum { stm: self.stm@, nstm: self.nstm@, score: self.score@, result: self.result@ }
    }
}

/// What a line of a file holds.
pub enum Entry {
    /// Nothing: the line is blank or a comment.
    Blank,
    Malformed,
    Data(Row),
}

/// What a line of a file holds, over plain values.
pub enum Content {
    Blank,
    Malformed,
    Data(Datum),
}

impl View for Entry {
    type V = Content;

    open spec fn view(&self) -> Content {
        match *self {
            Entry::Blank => Content::Blank,
            Entry::Malformed => Content::Malformed,
            Entry::Data(r) => Content::Data(r@),
        }
    }
}

/// Features as small numbers.
pub open spec fn compact(f: Seq<usize>) -> Seq<u16> {
    f.map_values(|x: usize| x as u16)
}

/// The data of a position, with a score and a result.
pub open spec fn datum_of(v: PosView, score: Seq<char>, result: Seq<char>) -> Datum {
    Datum {
        stm: compact(features(v.board, v.side, 64)),
        nstm: compact(features(v.board, v.side.other(), 64)),
        score,
        result,
    }
}

/// What a line of a file holds: a position, a score and a result between bars.
pub open spec fn content_of(line: Seq<char>) -> Content {
    let t = trimmed(line);
    let p = pieces(t, '|');
    if t.len() == 0 || t[0] == '#' {
        Content::Blank
    } else if p.len() != 3 {
        Content::Malformed
    } else {
        match fen_view(trimmed(p[0])) {
            Ok(v) => Content::Data(datum_of(v, trimmed(p[1]), trimmed(p[2]))),
            Err(_) => Content::Malformed,
        }
    }
}

/// Features as small numbers.
pub fn to_u16(src: &Vec<usize>) -> (r: Vec<u16>)
    requires
        forall|i: int| 0 <= i < src@.len() ==> #[trigger] src@[i] < NUM_FEATURES,
    ensures
        r@ == compact(src@),
        r@.len() == src@.len(),
        forall|i: int| 0 <= i < r@.len() ==> #[trigger] r@[i] == src@[i],
{
    let mut out: Vec<u16> = Vec::new();
    let mut i: usize = 0;
    while i < src.len()
        invariant
            i <= src@.len(),
            forall|k: int| 0 <= k < src@.len() ==> #[trigger] src@[k] < NUM_FEATURES,
            out@.len() == i,
            forall|k: int| 0 <= k < i ==> #[trigger] out@[k] == src@[k] as u16,
        decreases src@.len() - i,
    {
        out.push(src[i] as u16);
        i = i + 1;
    }
    assert(out@ =~= compact(src@));
    assert forall|k: int| 0 <= k < out@.len() implies #[trigger] out@[k] == src@[k] by {
        assert(src@[k] < NUM_FEATURES);
    }
    out
}

/// Read a line of a file.
pub fn read_line(line: &str) -> (r: Entry)
    ensures
        r@ == content_of(line@),
{
    let t = text::trim(&text::chars_of(line));
    if t.len() == 0 || t[0] == '#' {
        return Entry::Blank;
    }
    let p = text::split_at(&t, '|');
    let ghost ps = pieces(t@, '|');
    assert(ps.len() == p@.len());
    if p.len() != 3 {
        return Entry::Malformed;
    }
    proof {
        assert(ps[0] == p@[0]@ && ps[1] == p@[1]@ && ps[2] == p@[2]@);
    }
    let fen = text::to_text(&text::trim(&p[0]));
    match Position::from_fen(fen.as_str()) {
        Ok(pos) => {
            let mut scratch: Vec<usize> = Vec::new();
            active_features(&pos, pos.side_to_move(), &mut scratch);
            let stm = to_u16(&scratch);
            active_features(&pos, pos.side_to_move().opponent(), &mut scratch);
            let nstm = to_u16(&scratch);
            let score = text::to_text(&text::trim(&p[1]));
            let result = text::to_text(&text::trim(&p[2]));
            Entry::Data(Row { stm, nstm, score, result })
        },
        Err(_) => Entry::Malformed,
    }
}

/// The data in the first `n` lines of a file.
pub open spec fn data_of(lines: Seq<Seq<char>>, n: int) -> Seq<Datum>
    decreases n,
{
    if n <= 0 {
        seq![]
    } else {
        match content_of(lines[n - 1]) {
            Content::Data(d) => data_of(lines, n - 1).push(d),
            _ => data_of(lines, n - 1),
        }
    }
}

/// How many of the first `n` lines of a file are malformed.
pub open spec fn malformed(lines: Seq<Seq<char>>, n: int) -> int
    decreases n,
{
    if n <= 0 {
        0
    } else {
        malformed(lines, n - 1) + if content_of(lines[n - 1]) is Malformed {
            1int
        } else {
            0
        }
    }
}

/// The views of rows.
pub open spec fn data(rows: Seq<Row>) -> Seq<Datum> {
    rows.map_values(|r: Row| r@)
}

/// Read a whole file: the rows of its data, and how many lines are malformed.
pub fn read_dataset(file: &str) -> (r: (Vec<Row>, usize))
    ensures
        data(r.0@) == data_of(pieces(file@, '\n'), pieces(file@, '\n').len() as int),
        r.1 == malformed(pieces(file@, '\n'), pieces(file@, '\n').len() as int),
{
    let lines = text::split_at(&text::chars_of(file), '\n');
    let ghost all = pieces(file@, '\n');
    assert(all.len() == lines@.len());
    let end: usize = lines.len();
    let mut rows: Vec<Row> = Vec::new();
    let mut skipped: usize = 0;
    let mut i: usize = 0;
    assert(data(rows@) =~= data_of(all, 0));
    while i < end
        invariant
            i <= end,
            end == lines@.len(),
            all == text::texts(lines@),
            data(rows@) == data_of(all, i as int),
            skipped == malformed(all, i as int),
            skipped <= i,
        decreases end - i,
    {
        assert(all[i as int] == lines@[i as int]@);
        let line = text::to_text(&lines[i]);
        let ghost before = rows@;
        match read_line(line.as_str()) {
            Entry::Blank => {},
            Entry::Malformed => {
                skipped = skipped + 1;
            },
            Entry::Data(row) => {
                rows.push(row);
                assert(data(rows@) =~= data(before).push(row@));
            },
        }
        i = i + 1;
    }
    (rows, skipped)
}

/// A number is written with plain characters.
proof fn lemma_dec_int_plain(n: int)
    ensures
        dec_int(n).len() > 0,
        forall|i: int| 0 <= i < dec_int(n).len() ==> is_plain(#[trigger] dec_int(n)[i]),
{
    if n < 0 {
        let d = text::dec((-n) as nat);
        text::lemma_dec_digits((-n) as nat);
        assert forall|i: int| 0 <= i < dec_int(n).len() implies is_plain(
            #[trigger] dec_int(n)[i],
        ) by {
            if i > 0 {
                assert(dec_int(n)[i] == d[i - 1]);
            }
        }
    } else {
        text::lemma_dec_digits(n as nat);
    }
}

/// A generated line is read as the features of its position, with the score and
/// the result that were written.
#[verifier::rlimit(30)]
pub proof fn law_generated_lines_are_read(v: PosView, score: int, halves: int)
    requires
        v.wf(),
    ensures
        content_of(
            datagen::line_text(datagen::Label { fen: fen_text(v), score, halves }),
        ) == Content::Data(datum_of(v, dec_int(score), datagen::points_text(halves))),
{
    let f = fen_text(v);
    let n = dec_int(score);
    let q = datagen::points_text(halves);
    reveal_strlit(" | ");
    reveal_strlit("\n");
    reveal_strlit("0.0");
    reveal_strlit("0.5");
    reveal_strlit("1.0");
    fen::lemma_fen_chars(v);
    fen::law_fen_round_trip(v);
    lemma_dec_int_plain(score);
    let sp = seq![' '];
    let p0 = f + sp;
    let p1 = sp + n + sp;
    let p2 = sp + q;
    let tail = p1 + seq!['|'] + p2;
    let t = p0 + seq!['|'] + tail;
    let line = datagen::line_text(datagen::Label { fen: f, score, halves });
    let none = Seq::<char>::empty();
    assert(line =~= none + t + "\n"@);
    assert(t[0] == f[0]);
    assert(t.last() == q.last());
    text::lemma_trimmed(none, t, "\n"@);
    assert forall|i: int| 0 <= i < p0.len() implies p0[i] != '|' by {
        if i < f.len() {
            assert(p0[i] == f[i]);
        }
    }
    assert forall|i: int| 0 <= i < p1.len() implies p1[i] != '|' by {
        if 0 < i <= n.len() {
            assert(p1[i] == n[i - 1]);
        }
    }
    assert forall|i: int| 0 <= i < p2.len() implies p2[i] != '|' by {
        if 0 < i {
            assert(p2[i] == q[i - 1]);
        }
    }
    text::lemma_pieces_cons(p0, '|', tail, 0);
    text::lemma_pieces_cons(p1, '|', p2, 0);
    text::lemma_pieces_one(p2, '|', 0, 0);
    assert(p2.subrange(0, p2.len() as int) =~= p2);
    let ps = pieces(t, '|');
    assert(ps =~= seq![p0, p1, p2]);
    text::lemma_trimmed(none, f, sp);
    assert(none + f + sp =~= p0);
    assert(is_plain(n[0]) && is_plain(n.last()));
    text::lemma_trimmed(sp, n, sp);
    text::lemma_trimmed(sp, q, none);
    assert(sp + q + none =~= p2);
}

// ---------------------------------------------------------------------------
// The order of the samples.
// ---------------------------------------------------------------------------

/// Two elements exchanged.
pub open spec fn swapped(s: Seq<usize>, i: int, j: int) -> Seq<usize> {
    s.update(i, s[j]).update(j, s[i])
}

/// The order after each element from number `i` down has been exchanged with a
/// random one of those up to it.
pub open spec fn shuffled(s: Seq<usize>, i: int, state: u64) -> Seq<usize>
    decreases i,
{
    if i < 1 {
        s
    } else {
        shuffled(
            swapped(s, i, rng::output(state, 0) as int % (i + 1)),
            i - 1,
            rng::counter(state, 1),
        )
    }
}

/// Exchanging two elements leaves the elements the same.
proof fn lemma_swapped(s: Seq<usize>, i: int, j: int)
    requires
        0 <= i < s.len(),
        0 <= j < s.len(),
    ensures
        swapped(s, i, j).to_multiset() == s.to_multiset(),
{
    let a = s[i];
    let b = s[j];
    let t = s.update(i, b);
    lemma_updated(s, i, b);
    lemma_updated(t, j, a);
    if i == j {
        assert(swapped(s, i, j) =~= s);
    } else {
        broadcast use vstd::multiset::group_multiset_axioms;

        assert(t[j] == b);
        assert(s.contains(a));
        vstd::seq_lib::to_multiset_contains(s, a);
        assert(swapped(s, i, j).to_multiset() =~= s.to_multiset());
    }
}

/// Putting an element in the place of another.
proof fn lemma_updated(s: Seq<usize>, i: int, x: usize)
    requires
        0 <= i < s.len(),
    ensures
        s.update(i, x).to_multiset() == s.to_multiset().remove(s[i]).insert(x),
{
    let r = s.remove(i);
    assert(s.update(i, x) =~= r.insert(i, x));
    vstd::seq_lib::to_multiset_remove(s, i);
    vstd::seq_lib::to_multiset_insert(r, i, x);
}

/// Shuffle indices: from the last to the second, each is exchanged with a random
/// one of those up to it.
pub fn shuffle(indices: &mut Vec<usize>, rng: &mut SplitMix64)
    ensures
        final(indices)@ == shuffled(
            old(indices)@,
            old(indices)@.len() - 1,
            old(rng).state,
        ),
        final(indices)@.to_multiset() == old(indices)@.to_multiset(),
        final(rng).state == rng::counter(
            old(rng).state,
            if old(indices)@.len() < 2 {
                0
            } else {
                old(indices)@.len() - 1
            },
        ),
{
    let n: usize = indices.len();
    proof {
        rng::lemma_counter_step(rng.state, 0);
    }
    if n < 2 {
        return;
    }
    let mut i: usize = n - 1;
    while i >= 1
        invariant
            0 <= i < n,
            n == indices@.len(),
            n == old(indices)@.len(),
            rng.state == rng::counter(old(rng).state, n - 1 - i),
            shuffled(indices@, i as int, rng.state) == shuffled(
                old(indices)@,
                n - 1,
                old(rng).state,
            ),
            indices@.to_multiset() == old(indices)@.to_multiset(),
        decreases i,
    {
        proof {
            rng::lemma_counter_step(old(rng).state, n - 1 - i);
        }
        let j: usize = rng.below(i + 1);
        let a: usize = indices[i];
        let b: usize = indices[j];
        let ghost before = indices@;
        indices.set(i, b);
        indices.set(j, a);
        proof {
            lemma_swapped(before, i as int, j as int);
            assert(indices@ =~= swapped(before, i as int, j as int));
        }
        i = i - 1;
    }
}

/// The samples are in their order from the first to the last.
pub open spec fn in_order(n: int) -> Seq<usize> {
    Seq::new(n as nat, |i: int| i as usize)
}

/// All indices below `n` in their order.
pub fn first_order(n: usize) -> (r: Vec<usize>)
    ensures
        r@ == in_order(n as int),
        r@.len() == n,
        forall|i: int| 0 <= i < n ==> #[trigger] r@[i] == i,
{
    let mut out: Vec<usize> = Vec::new();
    let mut i: usize = 0;
    while i < n
        invariant
            i <= n,
            out@.len() == i,
            forall|k: int| 0 <= k < i ==> #[trigger] out@[k] == k,
        decreases n - i,
    {
        out.push(i);
        i = i + 1;
    }
    assert(out@ =~= in_order(n as int));
    out
}

/// Where batch number `k` of `n` samples starts.
pub open spec fn batch_start(n: int, batch: int, k: int) -> int {
    if k * batch < n {
        k * batch
    } else {
        n
    }
}

/// How many batches there are.
pub open spec fn batch_count(n: int, batch: int) -> int {
    (n + batch - 1) / batch
}

/// Divide `n` samples into batches of equal size, the last perhaps smaller.
pub fn batches(n: usize, batch: usize) -> (r: Vec<(usize, usize)>)
    requires
        batch > 0,
    ensures
        r@.len() == batch_count(n as int, batch as int),
        forall|k: int|
            0 <= k < r@.len() ==> {
                &&& (#[trigger] r@[k]).0 == batch_start(n as int, batch as int, k)
                &&& r@[k].1 == batch_start(n as int, batch as int, k + 1)
                &&& r@[k].0 < r@[k].1
            },
{
    let mut out: Vec<(usize, usize)> = Vec::new();
    let mut start: usize = 0;
    let ghost m = n as int;
    let ghost b = batch as int;
    let ghost mut k: int = 0;
    assert(0 * b == 0);
    while start < n
        invariant
            batch > 0,
            m == n,
            b == batch,
            0 <= k,
            out@.len() == k,
            start == batch_start(m, b, k),
            k > 0 ==> (k - 1) * b < m,
            forall|i: int|
                0 <= i < k ==> {
                    &&& (#[trigger] out@[i]).0 == batch_start(m, b, i)
                    &&& out@[i].1 == batch_start(m, b, i + 1)
                    &&& out@[i].0 < out@[i].1
                },
        decreases n - start,
    {
        proof {
            assert((k + 1) * b == k * b + b) by (nonlinear_arith);
        }
        let end: usize = if n - start <= batch {
            n
        } else {
            start + batch
        };
        out.push((start, end));
        start = end;
        proof {
            k = k + 1;
        }
    }
    proof {
        lemma_batch_count(m, b, k);
    }
    out
}

/// The number of batches is the least that holds all samples.
proof fn lemma_batch_count(n: int, b: int, k: int)
    requires
        0 <= n,
        0 < b,
        0 <= k,
        k * b >= n,
        k > 0 ==> (k - 1) * b < n,
    ensures
        k == batch_count(n, b),
{
    let c = (n + b - 1) / b;
    assert(k == c) by (nonlinear_arith)
        requires
            0 <= n,
            0 < b,
            0 <= k,
            k * b >= n,
            k > 0 ==> (k - 1) * b < n,
            c == (n + b - 1) / b,
    ;
}

/// The batches follow each other without a gap, from the first sample to the
/// last, and none is larger than asked for.
pub proof fn law_batches_cover_the_samples(n: int, batch: int, k: int)
    requires
        0 <= n,
        0 < batch,
        0 <= k < batch_count(n, batch),
    ensures
        batch_start(n, batch, 0) == 0,
        batch_start(n, batch, batch_count(n, batch)) == n,
        0 <= batch_start(n, batch, k) < batch_start(n, batch, k + 1) <= n,
        batch_start(n, batch, k + 1) - batch_start(n, batch, k) <= batch,
{
    let c = batch_count(n, batch);
    assert(c * batch >= n && (c - 1) * batch < n) by (nonlinear_arith)
        requires
            0 <= n,
            0 < batch,
            c == (n + batch - 1) / batch,
    ;
    assert((k + 1) * batch == k * batch + batch) by (nonlinear_arith);
    assert(0 <= k * batch <= (c - 1) * batch) by (nonlinear_arith)
        requires
            0 <= k <= c - 1,
            0 < batch,
    ;
    assert(0 * batch == 0);
}

/// Divide the samples of a batch among threads: one part for a single thread or
/// a single sample, else parts of equal size, the last perhaps smaller.
pub fn thread_parts(n: usize, threads: usize) -> (r: Vec<(usize, usize)>)
    ensures
        threads <= 1 || n <= 1 ==> r@ == seq![(0usize, n)],
        threads > 1 && n > 1 ==> {
            let size = batch_count(n as int, threads as int);
            &&& r@.len() == batch_count(n as int, size)
            &&& r@.len() <= threads
            &&& forall|k: int|
                0 <= k < r@.len() ==> {
                    &&& (#[trigger] r@[k]).0 == batch_start(n as int, size, k)
                    &&& r@[k].1 == batch_start(n as int, size, k + 1)
                }
        },
{
    if threads <= 1 || n <= 1 {
        let mut out: Vec<(usize, usize)> = Vec::new();
        out.push((0, n));
        assert(out@ =~= seq![(0usize, n)]);
        return out;
    }
    assert(n / threads < n) by (nonlinear_arith)
        requires
            n > 1,
            threads > 1,
    ;
    let size: usize = n / threads + (if n % threads == 0 {
        0
    } else {
        1
    });
    proof {
        lemma_ceiling(n as int, threads as int);
        lemma_few_parts(n as int, threads as int);
    }
    batches(n, size)
}

/// Dividing and rounding up.
proof fn lemma_ceiling(n: int, d: int)
    requires
        0 < n,
        0 < d,
    ensures
        batch_count(n, d) == n / d + (if n % d == 0 {
            0int
        } else {
            1
        }),
        batch_count(n, d) > 0,
{
    let q = n / d;
    let r = n % d;
    assert(n == q * d + r && 0 <= r < d && 0 <= q) by (nonlinear_arith)
        requires
            0 < n,
            0 < d,
            q == n / d,
            r == n % d,
    ;
    let k = q + (if r == 0 {
        0int
    } else {
        1
    });
    assert(k * d >= n && (k > 0 ==> (k - 1) * d < n) && k > 0) by (nonlinear_arith)
        requires
            n == q * d + r,
            0 <= r < d,
            0 < n,
            0 <= q,
            k == q + (if r == 0 {
                0int
            } else {
                1
            }),
    ;
    lemma_batch_count(n, d, k);
}

/// There are no more parts than threads.
proof fn lemma_few_parts(n: int, threads: int)
    requires
        0 < n,
        0 < threads,
    ensures
        batch_count(n, batch_count(n, threads)) <= threads,
{
    let size = batch_count(n, threads);
    lemma_ceiling(n, threads);
    let parts = batch_count(n, size);
    assert(size * threads >= n) by (nonlinear_arith)
        requires
            0 < n,
            0 < threads,
            size == (n + threads - 1) / threads,
    ;
    assert(parts <= threads) by (nonlinear_arith)
        requires
            0 < size,
            0 < threads,
            size * threads >= n,
            parts == (n + size - 1) / size,
    ;
}

// ---------------------------------------------------------------------------
// The settings of a training run.
// ---------------------------------------------------------------------------

/// A setting that arguments ask for.  A number with a fraction is kept as it is
/// written.
pub enum Setting {
    Epochs(usize),
    Rate(String),
    Threads(usize),
    Lambda(String),
    Batch(usize),
}

/// A setting over plain values.
pub enum Wish {
    Epochs(int),
    Rate(Seq<char>),
    Threads(int),
    Lambda(Seq<char>),
    Batch(int),
}

impl View for Setting {
    type V = Wish;

    open spec fn view(&self) -> Wish {
        match *self {
            Setting::Epochs(n) => Wish::Epochs(n as int),
            Setting::Rate(s) => Wish::Rate(s@),
            Setting::Threads(n) => Wish::Threads(n as int),
            Setting::Lambda(s) => Wish::Lambda(s@),
            Setting::Batch(n) => Wish::Batch(n as int),
        }
    }
}

/// The settings over plain values.
pub open spec fn wishes(v: Seq<Setting>) -> Seq<Wish> {
    v.map_values(|s: Setting| s@)
}

/// The complaint about a flag without a value.
pub open spec fn value_missing(flag: Seq<char>) -> Seq<char> {
    "error: flag "@ + flag + " needs a value"@
}

/// The complaint about a flag that is not known.
pub open spec fn flag_unknown(flag: Seq<char>) -> Seq<char> {
    "error: unknown flag '"@ + flag + "'"@
}

/// The complaint about a value that cannot be read.
pub open spec fn value_unreadable(value: Seq<char>, flag: Seq<char>) -> Seq<char> {
    "error: could not parse value '"@ + value + "' for "@ + flag
}

/// The value is at least one.
pub open spec fn positive(n: int) -> int {
    if n < 1 {
        1
    } else {
        n
    }
}

/// The setting that a flag with a value asks for, or the complaint.
pub open spec fn wish_for(flag: Seq<char>, value: Option<Seq<char>>) -> Result<Wish, Seq<char>> {
    if flag != "--epochs"@ && flag != "--lr"@ && flag != "--threads"@ && flag != "--lambda"@ && flag
        != "--batch"@ {
        Err(flag_unknown(flag))
    } else {
        match value {
            None => Err(value_missing(flag)),
            Some(v) => if flag == "--lr"@ {
                Ok(Wish::Rate(v))
            } else if flag == "--lambda"@ {
                Ok(Wish::Lambda(v))
            } else {
                match parse_dec(v, usize::MAX as int) {
                    None => Err(value_unreadable(v, flag)),
                    Some(n) => if flag == "--epochs"@ {
                        Ok(Wish::Epochs(n))
                    } else if flag == "--threads"@ {
                        Ok(Wish::Threads(positive(n)))
                    } else {
                        Ok(Wish::Batch(positive(n)))
                    },
                }
            },
        }
    }
}

/// The argument at a place.
pub open spec fn arg_at(args: Seq<Seq<char>>, i: int) -> Option<Seq<char>> {
    if i < args.len() {
        Some(args[i])
    } else {
        None
    }
}

/// The settings that arguments from place `i` on ask for, up to the first that
/// is wrong, and the complaint about it.
pub open spec fn wishes_from(args: Seq<Seq<char>>, i: int, so_far: Seq<Wish>) -> (
    Seq<Wish>,
    Option<Seq<char>>,
)
    decreases args.len() - i + 2,
{
    if i < 0 || i >= args.len() {
        (so_far, None)
    } else {
        match wish_for(args[i], arg_at(args, i + 1)) {
            Ok(w) => wishes_from(args, i + 2, so_far.push(w)),
            Err(e) => (so_far, Some(e)),
        }
    }
}

fn complain(before: &str, what: &str, after: &str) -> (r: String)
    ensures
        r@ == before@ + what@ + after@,
{
    let mut out = text::copy(before);
    text::push_str(&mut out, what);
    text::push_str(&mut out, after);
    out
}

/// The setting that a flag with a value asks for.
pub fn read_setting(flag: &str, value: &Option<String>) -> (r: Result<Setting, String>)
    ensures
        match r {
            Ok(s) => wish_for(flag@, maybe(*value)) == Ok::<Wish, Seq<char>>(s@),
            Err(e) => wish_for(flag@, maybe(*value)) == Err::<Wish, Seq<char>>(e@),
        },
{
    let f = text::chars_of(flag);
    let epochs = text::same(&f, "--epochs");
    let rate = text::same(&f, "--lr");
    let threads = text::same(&f, "--threads");
    let lambda = text::same(&f, "--lambda");
    let batch = text::same(&f, "--batch");
    if !epochs && !rate && !threads && !lambda && !batch {
        return Err(complain("error: unknown flag '", flag, "'"));
    }
    match value {
        None => Err(complain("error: flag ", flag, " needs a value")),
        Some(v) => {
            if rate {
                return Ok(Setting::Rate(text::copy(v.as_str())));
            }
            if lambda {
                return Ok(Setting::Lambda(text::copy(v.as_str())));
            }
            match text::parse_number(&text::chars_of(v.as_str()), usize::MAX as u64) {
                None => {
                    let mut e = complain("error: could not parse value '", v.as_str(), "' for ");
                    text::push_str(&mut e, flag);
                    Err(e)
                },
                Some(n) => {
                    let at_least_one: usize = if n < 1 {
                        1
                    } else {
                        n as usize
                    };
                    if epochs {
                        Ok(Setting::Epochs(n as usize))
                    } else if threads {
                        Ok(Setting::Threads(at_least_one))
                    } else {
                        Ok(Setting::Batch(at_least_one))
                    }
                },
            }
        },
    }
}

/// Read flags with values: the settings up to the first that is wrong, and the
/// complaint about it.
pub fn read_settings(args: &Vec<String>, from: usize) -> (r: (Vec<Setting>, Option<String>))
    requires
        from <= args@.len(),
    ensures
        (wishes(r.0@), maybe(r.1)) == wishes_from(
            strings(args@),
            from as int,
            seq![],
        ),
{
    let ghost a = strings(args@);
    let mut out: Vec<Setting> = Vec::new();
    let mut i: usize = from;
    assert(wishes(out@) =~= seq![]);
    while i < args.len()
        invariant
            a == strings(args@),
            i <= args@.len(),
            wishes_from(a, i as int, wishes(out@)) == wishes_from(a, from as int, seq![]),
        decreases args@.len() - i,
    {
        assert(a[i as int] == args@[i as int]@);
        let last = i + 1 >= args.len();
        let value: Option<String> = if last {
            None
        } else {
            assert(a[i + 1] == args@[i + 1]@);
            Some(text::copy(args[i + 1].as_str()))
        };
        match read_setting(args[i].as_str(), &value) {
            Ok(s) => {
                let ghost before = out@;
                out.push(s);
                assert(wishes(out@) =~= wishes(before).push(s@));
            },
            Err(e) => {
                return (out, Some(e));
            },
        }
        assert(!last) by {
            if last {
                assert(maybe(value) is None);
            }
        }
        i = i + 2;
    }
    (out, None)
}

/// The two files that a training run reads and writes, or the complaint.
pub open spec fn files_of(args: Seq<Seq<char>>) -> Result<(Seq<char>, Seq<char>), Seq<char>> {
    if args.len() == 0 {
        Err(
            "usage: train <data_file> <out_net_file> [--epochs E] [--lr LR] [--threads T] [--lambda L] [--batch B]"@,
        )
    } else if args.len() == 1 {
        Err("error: missing <out_net_file>"@)
    } else {
        Ok((args[0], args[1]))
    }
}

/// Read the two files of a training run.
pub fn read_files(args: &Vec<String>) -> (r: Result<(String, String), String>)
    ensures
        match r {
            Ok(f) => files_of(strings(args@)) == Ok::<(Seq<char>, Seq<char>), Seq<char>>(
                (f.0@, f.1@),
            ),
            Err(e) => files_of(strings(args@)) == Err::<(Seq<char>, Seq<char>), Seq<char>>(e@),
        },
{
    if args.len() == 0 {
        return Err(
            text::copy(
                "usage: train <data_file> <out_net_file> [--epochs E] [--lr LR] [--threads T] [--lambda L] [--batch B]",
            ),
        );
    }
    if args.len() == 1 {
        return Err(text::copy("error: missing <out_net_file>"));
    }
    proof {
        assert(strings(args@)[0] == args@[0]@ && strings(args@)[1] == args@[1]@);
    }
    Ok((text::copy(args[0].as_str()), text::copy(args[1].as_str())))
}

// ---------------------------------------------------------------------------
// Samples of one length.
// ---------------------------------------------------------------------------

/// The most features that a sample has.
pub const MAX_FEATS: usize = 32;

/// The index that fills a sample up.
pub const PAD: i32 = 768;

/// A sample with its features filled up to one length.
pub struct Padded {
    pub stm: [i32; 32],
    pub nstm: [i32; 32],
    pub score: String,
    pub result: String,
}

/// Features filled up with the index that stands for none.
pub open spec fn padded(f: Seq<usize>) -> Seq<i32> {
    Seq::new(
        MAX_FEATS as nat,
        |i: int|
            if i < f.len() {
                f[i] as i32
            } else {
                PAD
            },
    )
}

/// A sample over plain values.
pub struct Example {
    pub stm: Seq<i32>,
    pub nstm: Seq<i32>,
    pub score: Seq<char>,
    pub result: Seq<char>,
}

impl View for Padded {
    type V = Example;

    open spec fn view(&self) -> Example {
        Example { stm: self.stm@, nstm: self.nstm@, score: self.score@, result: self.result@ }
    }
}

/// The sample of a line: a position, a score and a result between bars, whatever
/// comes after.
pub open spec fn example_of(line: Seq<char>) -> Option<Example> {
    let p = pieces(line, '|');
    if p.len() < 3 {
        None
    } else {
        match fen_view(trimmed(p[0])) {
            Ok(v) => {
                let stm = features(v.board, v.side, 64);
                let nstm = features(v.board, v.side.other(), 64);
                if stm.len() > MAX_FEATS || nstm.len() > MAX_FEATS {
                    None
                } else {
                    Some(
                        Example {
                            stm: padded(stm),
                            nstm: padded(nstm),
                            score: trimmed(p[1]),
                            result: trimmed(p[2]),
                        },
                    )
                }
            },
            Err(_) => None,
        }
    }
}

/// Fill features up with the index that stands for none.
fn pad(f: &Vec<usize>) -> (r: [i32; 32])
    requires
        f@.len() <= MAX_FEATS,
        forall|i: int| 0 <= i < f@.len() ==> #[trigger] f@[i] < NUM_FEATURES,
    ensures
        r@ == padded(f@),
{
    let mut out: [i32; 32] = [PAD; 32];
    let mut i: usize = 0;
    while i < f.len()
        invariant
            i <= f@.len() <= MAX_FEATS,
            forall|k: int| 0 <= k < f@.len() ==> #[trigger] f@[k] < NUM_FEATURES,
            forall|k: int| 0 <= k < i ==> #[trigger] out@[k] == f@[k] as i32,
            forall|k: int| i <= k < 32 ==> #[trigger] out@[k] == PAD,
        decreases f@.len() - i,
    {
        out[i] = f[i] as i32;
        i = i + 1;
    }
    assert(out@ =~= padded(f@));
    out
}

/// Read the sample of a line, if it holds one.
pub fn read_padded(line: &str) -> (r: Option<Padded>)
    ensures
        match r {
            Some(x) => example_of(line@) == Some(x@),
            None => example_of(line@) is None,
        },
{
    let p = text::split_at(&text::chars_of(line), '|');
    let ghost ps = pieces(line@, '|');
    assert(ps.len() == p@.len());
    if p.len() < 3 {
        return None;
    }
    proof {
        assert(ps[0] == p@[0]@ && ps[1] == p@[1]@ && ps[2] == p@[2]@);
    }
    let fen = text::to_text(&text::trim(&p[0]));
    match Position::from_fen(fen.as_str()) {
        Ok(pos) => {
            let mut own: Vec<usize> = Vec::new();
            let mut other: Vec<usize> = Vec::new();
            active_features(&pos, pos.side_to_move(), &mut own);
            active_features(&pos, pos.side_to_move().opponent(), &mut other);
            if own.len() > MAX_FEATS || other.len() > MAX_FEATS {
                return None;
            }
            Some(
                Padded {
                    stm: pad(&own),
                    nstm: pad(&other),
                    score: text::to_text(&text::trim(&p[1])),
                    result: text::to_text(&text::trim(&p[2])),
                },
            )
        },
        Err(_) => None,
    }
}

/// The samples in the first `n` lines of a file.
pub open spec fn examples_of(lines: Seq<Seq<char>>, n: int) -> Seq<Example>
    decreases n,
{
    if n <= 0 {
        seq![]
    } else {
        match example_of(lines[n - 1]) {
            Some(x) => examples_of(lines, n - 1).push(x),
            None => examples_of(lines, n - 1),
        }
    }
}

/// The views of samples.
pub open spec fn examples(rows: Seq<Padded>) -> Seq<Example> {
    rows.map_values(|r: Padded| r@)
}

/// Read the samples of a whole file.
pub fn read_samples(file: &str) -> (r: Vec<Padded>)
    ensures
        examples(r@) == examples_of(pieces(file@, '\n'), pieces(file@, '\n').len() as int),
{
    let lines = text::split_at(&text::chars_of(file), '\n');
    let ghost all = pieces(file@, '\n');
    assert(all.len() == lines@.len());
    let end: usize = lines.len();
    let mut rows: Vec<Padded> = Vec::new();
    let mut i: usize = 0;
    assert(examples(rows@) =~= examples_of(all, 0));
    while i < end
        invariant
            i <= end,
            end == lines@.len(),
            all == text::texts(lines@),
            examples(rows@) == examples_of(all, i as int),
        decreases end - i,
    {
        assert(all[i as int] == lines@[i as int]@);
        let line = text::to_text(&lines[i]);
        let ghost before = rows@;
        if let Some(row) = read_padded(line.as_str()) {
            rows.push(row);
            assert(examples(rows@) =~= examples(before).push(row@));
        }
        i = i + 1;
    }
    rows
}

/// Add samples to those that are there, until there are `limit` of them.
pub fn add_samples(rows: &mut Vec<Padded>, more: Vec<Padded>, limit: usize)
    ensures
        old(rows)@.len() <= limit ==> final(rows)@ == (old(rows)@ + more@).take(
            at_most((old(rows)@.len() + more@.len()) as int, limit as int),
        ),
        old(rows)@.len() >= limit ==> final(rows)@ == old(rows)@,
{
    let ghost all = rows@ + more@;
    if rows.len() < limit {
        let room: usize = limit - rows.len();
        let mut rest = more;
        rest.truncate(room);
        rows.append(&mut rest);
        assert(rows@ =~= all.take(rows@.len() as int));
    } else {
        assert(rows.len() == limit ==> rows@ =~= all.take(limit as int));
    }
}

/// A generated line is also read as a sample of one length, unless its board
/// holds more pieces than a sample has features.
#[verifier::rlimit(30)]
pub proof fn law_generated_lines_make_samples(v: PosView, score: int, halves: int)
    requires
        v.wf(),
        features(v.board, v.side, 64).len() <= MAX_FEATS,
        features(v.board, v.side.other(), 64).len() <= MAX_FEATS,
    ensures
        example_of(
            datagen::line_text(datagen::Label { fen: fen_text(v), score, halves }),
        ) == Some(
            Example {
                stm: padded(features(v.board, v.side, 64)),
                nstm: padded(features(v.board, v.side.other(), 64)),
                score: dec_int(score),
                result: datagen::points_text(halves),
            },
        ),
{
    let f = fen_text(v);
    let n = dec_int(score);
    let q = datagen::points_text(halves);
    reveal_strlit(" | ");
    reveal_strlit("\n");
    reveal_strlit("0.0");
    reveal_strlit("0.5");
    reveal_strlit("1.0");
    fen::lemma_fen_chars(v);
    fen::law_fen_round_trip(v);
    lemma_dec_int_plain(score);
    let sp = seq![' '];
    let nl = "\n"@;
    let p0 = f + sp;
    let p1 = sp + n + sp;
    let p2 = sp + q + nl;
    let tail = p1 + seq!['|'] + p2;
    let line = datagen::line_text(datagen::Label { fen: f, score, halves });
    let none = Seq::<char>::empty();
    assert(line =~= p0 + seq!['|'] + tail);
    assert forall|i: int| 0 <= i < p0.len() implies p0[i] != '|' by {
        if i < f.len() {
            assert(p0[i] == f[i]);
        }
    }
    assert forall|i: int| 0 <= i < p1.len() implies p1[i] != '|' by {
        if 0 < i <= n.len() {
            assert(p1[i] == n[i - 1]);
        }
    }
    assert forall|i: int| 0 <= i < p2.len() implies p2[i] != '|' by {
        if 0 < i <= q.len() {
            assert(p2[i] == q[i - 1]);
        }
    }
    text::lemma_pieces_cons(p0, '|', tail, 0);
    text::lemma_pieces_cons(p1, '|', p2, 0);
    text::lemma_pieces_one(p2, '|', 0, 0);
    assert(p2.subrange(0, p2.len() as int) =~= p2);
    assert(pieces(line, '|') =~= seq![p0, p1, p2]);
    text::lemma_trimmed(none, f, sp);
    assert(none + f + sp =~= p0);
    assert(is_plain(n[0]) && is_plain(n.last()));
    text::lemma_trimmed(sp, n, sp);
    text::lemma_trimmed(sp, q, nl);
}

/// The samples of a batch laid out one after the other, and which of their
/// indices are features.
pub struct Batch {
    pub stm: Vec<i32>,
    pub nstm: Vec<i32>,
    pub stm_mask: Vec<bool>,
    pub nstm_mask: Vec<bool>,
}

/// Index number `c` of row number `row`.
pub open spec fn cell(row: int, c: int) -> int {
    row * MAX_FEATS + c
}

/// Lay the samples with the given indices out one after the other.
pub fn gather(samples: &Vec<Padded>, idx: &Vec<usize>) -> (r: Batch)
    requires
        forall|k: int| 0 <= k < idx@.len() ==> #[trigger] idx@[k] < samples@.len(),
    ensures
        r.stm@.len() == idx@.len() * MAX_FEATS,
        r.nstm@.len() == idx@.len() * MAX_FEATS,
        r.stm_mask@.len() == idx@.len() * MAX_FEATS,
        r.nstm_mask@.len() == idx@.len() * MAX_FEATS,
        forall|row: int, c: int|
            0 <= row < idx@.len() && 0 <= c < MAX_FEATS ==> {
                let s = samples@[idx@[row] as int];
                &&& r.stm@[#[trigger] cell(row, c)] == s.stm@[c]
                &&& r.nstm@[cell(row, c)] == s.nstm@[c]
                &&& r.stm_mask@[cell(row, c)] == (s.stm@[c] != PAD)
                &&& r.nstm_mask@[cell(row, c)] == (s.nstm@[c] != PAD)
            },
{
    let mut out = Batch {
        stm: Vec::new(),
        nstm: Vec::new(),
        stm_mask: Vec::new(),
        nstm_mask: Vec::new(),
    };
    let mut row: usize = 0;
    while row < idx.len()
        invariant
            row <= idx@.len(),
            forall|k: int| 0 <= k < idx@.len() ==> #[trigger] idx@[k] < samples@.len(),
            out.stm@.len() == row * MAX_FEATS,
            out.nstm@.len() == row * MAX_FEATS,
            out.stm_mask@.len() == row * MAX_FEATS,
            out.nstm_mask@.len() == row * MAX_FEATS,
            forall|k: int, c: int|
                0 <= k < row && 0 <= c < MAX_FEATS ==> {
                    let s = samples@[idx@[k] as int];
                    &&& out.stm@[#[trigger] cell(k, c)] == s.stm@[c]
                    &&& out.nstm@[cell(k, c)] == s.nstm@[c]
                    &&& out.stm_mask@[cell(k, c)] == (s.stm@[c] != PAD)
                    &&& out.nstm_mask@[cell(k, c)] == (s.nstm@[c] != PAD)
                },
        decreases idx@.len() - row,
    {
        let s = &samples[idx[row]];
        let mut c: usize = 0;
        while c < MAX_FEATS
            invariant
                c <= MAX_FEATS,
                row < idx@.len(),
                *s == samples@[idx@[row as int] as int],
                out.stm@.len() == row * MAX_FEATS + c,
                out.nstm@.len() == row * MAX_FEATS + c,
                out.stm_mask@.len() == row * MAX_FEATS + c,
                out.nstm_mask@.len() == row * MAX_FEATS + c,
                forall|k: int, d: int|
                    0 <= d < MAX_FEATS && (0 <= k < row || (k == row && d < c)) ==> {
                        let t = samples@[idx@[k] as int];
                        &&& out.stm@[#[trigger] cell(k, d)] == t.stm@[d]
                        &&& out.nstm@[cell(k, d)] == t.nstm@[d]
                        &&& out.stm_mask@[cell(k, d)] == (t.stm@[d] != PAD)
                        &&& out.nstm_mask@[cell(k, d)] == (t.nstm@[d] != PAD)
                    },
            decreases MAX_FEATS - c,
        {
            let a: i32 = s.stm[c];
            let b: i32 = s.nstm[c];
            out.stm.push(a);
            out.nstm.push(b);
            out.stm_mask.push(a != PAD);
            out.nstm_mask.push(b != PAD);
            c = c + 1;
        }
        row = row + 1;
    }
    out
}

// ---------------------------------------------------------------------------
// Random orders.
// ---------------------------------------------------------------------------

/// `rand::rngs::StdRng`, the generator of the trainer on the graphics card.
#[verifier::external_type_specification]
#[verifier::external_body]
pub struct ExStdRng(rand::rngs::StdRng);

/// `StdRng::seed_from_u64` makes a generator from a seed.  What numbers it will
/// give is left unsaid: the crate does not promise the same ones everywhere.
#[verifier::external_body]
pub(crate) fn seeded(seed: u64) -> (r: StdRng) {
    StdRng::seed_from_u64(seed)
}

/// `SliceRandom::shuffle` puts the elements into a random order and moves the
/// generator on.  Which order comes out is left unsaid: it is the generator's
/// choice.
#[verifier::external_body]
pub(crate) fn random_order(order: Vec<usize>, rng: StdRng) -> (r: (Vec<usize>, StdRng))
    ensures
        r.0@.to_multiset() == order@.to_multiset(),
{
    let (mut order, mut rng) = (order, rng);
    order.as_mut_slice().shuffle(&mut rng);
    (order, rng)
}

/// The seed of the trainer on the graphics card.
pub const ORDER_SEED: u64 = 0xC0FFEE;

/// The order of the samples, drawn anew for each pass over them.
pub struct Epochs {
    pub order: Vec<usize>,
    pub rng: StdRng,
}

impl Epochs {
    /// The generator is one that was made from the seed.
    pub closed spec fn is_fresh(&self) -> bool {
        call_ensures(seeded, (ORDER_SEED,), self.rng)
    }

    /// The order is one that the generator of `before` made of the order of
    /// `before`.
    pub closed spec fn is_drawn_from(&self, before: Epochs) -> bool {
        call_ensures(random_order, (before.order, before.rng), (self.order, self.rng))
    }

    /// The samples in their order, and a fresh generator.
    pub fn new(n: usize) -> (r: Epochs)
        ensures
            r.order@ == in_order(n as int),
            r.is_fresh(),
    {
        Epochs { order: first_order(n), rng: seeded(ORDER_SEED) }
    }

    /// Draw a new order and divide it into batches.  Each sample stands in one
    /// batch, as often as before.
    pub fn next(self, batch: usize) -> (r: (Epochs, Vec<Vec<usize>>))
        requires
            batch > 0,
        ensures
            r.0.is_drawn_from(self),
            r.0.order@.to_multiset() == self.order@.to_multiset(),
            divided(r.0.order@, batch as int, r.1@),
    {
        let (order, rng) = random_order(self.order, self.rng);
        let parts = chunks(&order, batch);
        (Epochs { order, rng }, parts)
    }
}

/// The parts are the batches of the order, one after the other.
pub open spec fn divided(order: Seq<usize>, batch: int, parts: Seq<Vec<usize>>) -> bool {
    &&& parts.len() == batch_count(order.len() as int, batch)
    &&& forall|k: int|
        0 <= k < parts.len() ==> (#[trigger] parts[k])@ == order.subrange(
            batch_start(order.len() as int, batch, k),
            batch_start(order.len() as int, batch, k + 1),
        )
}

/// Divide an order into batches.
pub fn chunks(order: &Vec<usize>, batch: usize) -> (r: Vec<Vec<usize>>)
    requires
        batch > 0,
    ensures
        divided(order@, batch as int, r@),
{
    let bounds = batches(order.len(), batch);
    let ghost n = order@.len() as int;
    let mut out: Vec<Vec<usize>> = Vec::new();
    let mut k: usize = 0;
    while k < bounds.len()
        invariant
            batch > 0,
            n == order@.len(),
            k <= bounds@.len(),
            bounds@.len() == batch_count(n, batch as int),
            forall|i: int|
                0 <= i < bounds@.len() ==> {
                    &&& (#[trigger] bounds@[i]).0 == batch_start(n, batch as int, i)
                    &&& bounds@[i].1 == batch_start(n, batch as int, i + 1)
                    &&& bounds@[i].0 < bounds@[i].1
                },
            out@.len() == k,
            forall|i: int|
                0 <= i < k ==> (#[trigger] out@[i])@ == order@.subrange(
                    batch_start(n, batch as int, i),
                    batch_start(n, batch as int, i + 1),
                ),
        decreases bounds@.len() - k,
    {
        let (start, end) = bounds[k];
        let mut part: Vec<usize> = Vec::new();
        let mut i: usize = start;
        while i < end
            invariant
                start <= i <= end <= order@.len(),
                part@ == order@.subrange(start as int, i as int),
            decreases end - i,
        {
            part.push(order[i]);
            i = i + 1;
            assert(part@ =~= order@.subrange(start as int, i as int));
        }
        out.push(part);
        k = k + 1;
    }
    out
}

// ---------------------------------------------------------------------------
// Weights.
// ---------------------------------------------------------------------------

/// Lay trained weights out as the engine keeps them.  `ft` holds a row of hidden
/// weights for each feature, and perhaps more rows behind them.
pub fn export(ft: &Vec<u32>, b1: &Vec<u32>, w2: &Vec<u32>, b2: u32) -> (r: Net)
    requires
        ft@.len() >= W1_LEN,
        b1@.len() >= HIDDEN,
        w2@.len() >= W2_LEN,
    ensures
        r.wf(),
        forall|j: int, f: int|
            0 <= j < HIDDEN && 0 <= f < NUM_FEATURES ==> #[trigger] r.w1@[j * NUM_FEATURES + f]
                == #[trigger] ft@[f * HIDDEN + j],
        r.b1@ == b1@.take(HIDDEN as int),
        r.w2@ == w2@.take(W2_LEN as int),
        r.b2 == b2,
{
    let mut net = Net::zeros();
    let mut j: usize = 0;
    let mut w1: Vec<u32> = Vec::new();
    while j < HIDDEN
        invariant
            j <= HIDDEN,
            ft@.len() >= W1_LEN,
            w1@.len() == j * NUM_FEATURES,
            forall|i: int, f: int|
                0 <= i < j && 0 <= f < NUM_FEATURES ==> #[trigger] w1@[i * NUM_FEATURES + f]
                    == #[trigger] ft@[f * HIDDEN + i],
        decreases HIDDEN - j,
    {
        let mut f: usize = 0;
        while f < NUM_FEATURES
            invariant
                j < HIDDEN,
                f <= NUM_FEATURES,
                ft@.len() >= W1_LEN,
                w1@.len() == j * NUM_FEATURES + f,
                forall|i: int, g: int|
                    0 <= i < j && 0 <= g < NUM_FEATURES ==> #[trigger] w1@[i * NUM_FEATURES + g]
                        == #[trigger] ft@[g * HIDDEN + i],
                forall|g: int|
                    0 <= g < f ==> #[trigger] w1@[j * NUM_FEATURES + g] == ft@[g * HIDDEN + j],
            decreases NUM_FEATURES - f,
        {
            w1.push(ft[f * HIDDEN + j]);
            f = f + 1;
        }
        j = j + 1;
    }
    net.w1 = w1;
    net.b1 = take(b1, HIDDEN);
    net.w2 = take(w2, W2_LEN);
    net.b2 = b2;
    net.rebuild_w1t();
    net
}

/// The first `n` numbers.
fn take(v: &Vec<u32>, n: usize) -> (r: Vec<u32>)
    requires
        n <= v@.len(),
    ensures
        r@ == v@.take(n as int),
{
    let mut out: Vec<u32> = Vec::new();
    let mut i: usize = 0;
    while i < n
        invariant
            i <= n <= v@.len(),
            out@ == v@.take(i as int),
        decreases n - i,
    {
        out.push(v[i]);
        i = i + 1;
        assert(out@ =~= v@.take(i as int));
    }
    out
}

/// The exported network holds the weights of each feature side by side, as the
/// trainer does.
pub proof fn law_exported_features_keep_their_weights(ft: Seq<u32>, net: Net, f: int, j: int)
    requires
        net.wf(),
        forall|i: int, g: int|
            0 <= i < HIDDEN && 0 <= g < NUM_FEATURES ==> #[trigger] net.w1@[i * NUM_FEATURES + g]
                == #[trigger] ft[g * HIDDEN + i],
        0 <= f < NUM_FEATURES,
        0 <= j < HIDDEN,
    ensures
        net.w1t@[f * HIDDEN + j] == ft[f * HIDDEN + j],
{
    assert(net.w1t@[f * HIDDEN + j] == net.w1@[j * NUM_FEATURES + f]);
    assert(net.w1@[j * NUM_FEATURES + f] == ft[f * HIDDEN + j]);
}

// ---------------------------------------------------------------------------
// Named arguments.
// ---------------------------------------------------------------------------

/// The argument behind the first occurrence of a key, from place `i` on.
pub open spec fn value_behind(args: Seq<Seq<char>>, key: Seq<char>, i: int) -> Option<Seq<char>>
    decreases args.len() - i,
{
    if i < 0 || i >= args.len() {
        None
    } else if args[i] == key {
        arg_at(args, i + 1)
    } else {
        value_behind(args, key, i + 1)
    }
}

/// The argument behind the first occurrence of a key.
pub fn arg_val(args: &Vec<String>, key: &str) -> (r: Option<String>)
    ensures
        maybe(r) == value_behind(strings(args@), key@, 0),
{
    let ghost a = strings(args@);
    let mut i: usize = 0;
    while i < args.len()
        invariant
            i <= args@.len(),
            a == strings(args@),
            value_behind(a, key@, i as int) == value_behind(a, key@, 0),
        decreases args@.len() - i,
    {
        if cli::is_flag(args, i, key) {
            if i + 1 < args.len() {
                assert(a[i + 1] == args@[i + 1]@);
                return Some(text::copy(args[i + 1].as_str()));
            }
            return None;
        }
        i = i + 1;
    }
    None
}

/// The number behind a key, or the given one.
pub fn number_or(args: &Vec<String>, key: &str, default: usize) -> (r: usize)
    ensures
        r == (match value_behind(strings(args@), key@, 0) {
            Some(v) => match parse_dec(v, usize::MAX as int) {
                Some(n) => n,
                None => default as int,
            },
            None => default as int,
        }),
{
    match arg_val(args, key) {
        Some(v) => match text::parse_number(&text::chars_of(v.as_str()), usize::MAX as u64) {
            Some(n) => n as usize,
            None => default,
        },
        None => default,
    }
}

/// A line with data holds the features as the player to move sees them, then as the other
/// player does, and the score and the result as they stand between the bars.
pub proof fn law_lines_hold_both_views(
    v: PosView,
    fen: Seq<char>,
    score: Seq<char>,
    result: Seq<char>,
)
    requires
        fen_view(trimmed(fen)) == Ok::<PosView, fen::FenError>(v),
        trimmed(fen + seq!['|'] + score + seq!['|'] + result) == fen + seq!['|'] + score + seq!['|']
            + result,
        fen.len() > 0 && fen[0] != '#',
        forall|i: int| 0 <= i < fen.len() ==> fen[i] != '|',
        forall|i: int| 0 <= i < score.len() ==> score[i] != '|',
        forall|i: int| 0 <= i < result.len() ==> result[i] != '|',
    ensures
        ({
            let c = content_of(fen + seq!['|'] + score + seq!['|'] + result);
            &&& c is Data
            &&& c->Data_0.score == trimmed(score)
            &&& c->Data_0.result == trimmed(result)
            &&& c->Data_0.stm == features(v.board, v.side, 64).map_values(|x: usize| x as u16)
            &&& c->Data_0.nstm == features(v.board, v.side.other(), 64).map_values(
                |x: usize| x as u16,
            )
        }),
        ({
            let e = example_of(fen + seq!['|'] + score + seq!['|'] + result);
            features(v.board, v.side, 64).len() <= 32 && features(v.board, v.side.other(), 64).len()
                <= 32 ==> {
                &&& e is Some
                &&& e->0.score == trimmed(score) && e->0.result == trimmed(result)
                &&& forall|i: int|
                    0 <= i < features(v.board, v.side, 64).len() ==> #[trigger] e->0.stm[i]
                        == features(v.board, v.side, 64)[i] as i32
                &&& forall|i: int|
                    features(v.board, v.side, 64).len() <= i < 32 ==> #[trigger] e->0.stm[i] == 768
                &&& forall|i: int|
                    0 <= i < features(v.board, v.side.other(), 64).len()
                        ==> #[trigger] e->0.nstm[i] == features(v.board, v.side.other(), 64)[i] as i32
            }
        }),
{
    let line = fen + seq!['|'] + score + seq!['|'] + result;
    let tail = score + seq!['|'] + result;
    assert(line =~= fen + seq!['|'] + tail);
    text::law_pieces_of_two_texts(fen, '|', tail);
    text::law_pieces_of_two_texts(score, '|', result);
    text::law_pieces_of_two_texts(result, '|', result);
    let p = pieces(line, '|');
    assert(p =~= seq![fen, score, result]);
    assert(line[0] == fen[0]);
}

/// Blank lines and comments hold nothing, and a line without two bars is malformed.
pub proof fn law_other_lines_are_passed_over(line: Seq<char>)
    ensures
        trimmed(line).len() == 0 ==> content_of(line) == Content::Blank,
        trimmed(line).len() > 0 && trimmed(line)[0] == '#' ==> content_of(line) == Content::Blank,
        trimmed(line).len() > 0 && trimmed(line)[0] != '#' && (forall|i: int|
            0 <= i < trimmed(line).len() ==> trimmed(line)[i] != '|') ==> content_of(line)
            == Content::Malformed,
{
    let t = trimmed(line);
    text::law_pieces_of_two_texts(t, '|', t);
}

/// A flag with a value asks for its setting; there is at least one thread and one sample in
/// a batch, and other flags are refused.
pub proof fn law_flags_ask_for_settings(n: u32, value: Seq<char>, flag: Seq<char>)
    ensures
        wish_for("--epochs"@, Some(dec_text(n))) == Ok::<Wish, Seq<char>>(Wish::Epochs(n as int)),
        wish_for("--lr"@, Some(value)) == Ok::<Wish, Seq<char>>(Wish::Rate(value)),
        wish_for("--lambda"@, Some(value)) == Ok::<Wish, Seq<char>>(Wish::Lambda(value)),
        n > 0 ==> wish_for("--threads"@, Some(dec_text(n))) == Ok::<Wish, Seq<char>>(
            Wish::Threads(n as int),
        ),
        n > 0 ==> wish_for("--batch"@, Some(dec_text(n))) == Ok::<Wish, Seq<char>>(
            Wish::Batch(n as int),
        ),
        n == 0 ==> wish_for("--threads"@, Some(dec_text(n))) == Ok::<Wish, Seq<char>>(
            Wish::Threads(1),
        ),
        n == 0 ==> wish_for("--batch"@, Some(dec_text(n))) == Ok::<Wish, Seq<char>>(Wish::Batch(1)),
        wish_for("--epochs"@, None) is Err,
{
    reveal_strlit("--epochs");
    reveal_strlit("--lr");
    reveal_strlit("--threads");
    reveal_strlit("--lambda");
    reveal_strlit("--batch");
    assert("--epochs"@[2] == 'e' && "--lr"@.len() == 4 && "--threads"@[2] == 't');
    assert("--lambda"@[2] == 'l' && "--lambda"@.len() == 8 && "--batch"@[2] == 'b');
    text::law_decimal_round_trip(n as nat, usize::MAX as int);
}

pub open spec fn dec_text(n: u32) -> Seq<char> {
    text::dec(n as nat)
}

/// A training run reads the first file that it is given and writes the second.
pub proof fn law_files_are_read_and_written(args: Seq<Seq<char>>)
    ensures
        args.len() >= 2 ==> files_of(args) == Ok::<(Seq<char>, Seq<char>), Seq<char>>(
            (args[0], args[1]),
        ),
        args.len() < 2 ==> files_of(args) is Err,
{
}

/// The value of a key is the argument behind its first occurrence.
pub proof fn law_values_stand_behind_their_keys(
    before: Seq<Seq<char>>,
    key: Seq<char>,
    value: Seq<char>,
    after: Seq<Seq<char>>,
)
    requires
        forall|i: int| 0 <= i < before.len() ==> before[i] != key,
    ensures
        value_behind(before + seq![key, value] + after, key, 0) == Some(value),
        value_behind(before, key, 0) is None,
{
    let a = before + seq![key, value] + after;
    lemma_behind(a, key, before.len() as int, 0);
    assert(a[before.len() as int] == key && a[before.len() as int + 1] == value);
    lemma_behind(before, key, before.len() as int, 0);
}

proof fn lemma_behind(args: Seq<Seq<char>>, key: Seq<char>, k: int, i: int)
    requires
        0 <= i <= k <= args.len(),
        forall|j: int| 0 <= j < k ==> args[j] != key,
    ensures
        value_behind(args, key, i) == value_behind(args, key, k),
    decreases k - i,
{
    if i < k {
        lemma_behind(args, key, k, i + 1);
    }
}

/// A file is read line by line: one more line adds its data, or counts as malformed, or
/// adds nothing.
pub proof fn law_files_are_read_line_by_line(lines: Seq<Seq<char>>, line: Seq<char>)
    ensures
        ({
            let n = lines.len() as int;
            let more = lines.push(line);
            &&& content_of(line) is Data ==> data_of(more, n + 1) == data_of(lines, n).push(
                content_of(line)->Data_0,
            ) && malformed(more, n + 1) == malformed(lines, n)
            &&& content_of(line) is Malformed ==> data_of(more, n + 1) == data_of(lines, n)
                && malformed(more, n + 1) == malformed(lines, n) + 1
            &&& content_of(line) is Blank ==> data_of(more, n + 1) == data_of(lines, n)
                && malformed(more, n + 1) == malformed(lines, n)
            &&& example_of(line) is Some ==> examples_of(more, n + 1) == examples_of(lines, n).push(
                example_of(line)->0,
            )
            &&& example_of(line) is None ==> examples_of(more, n + 1) == examples_of(lines, n)
        }),
{
    lemma_lines_prefix(lines, line, lines.len() as int);
    assert(lines.push(line)[lines.len() as int] == line);
}

proof fn lemma_lines_prefix(lines: Seq<Seq<char>>, line: Seq<char>, n: int)
    requires
        0 <= n <= lines.len(),
    ensures
        data_of(lines.push(line), n) == data_of(lines, n),
        malformed(lines.push(line), n) == malformed(lines, n),
        examples_of(lines.push(line), n) == examples_of(lines, n),
    decreases n,
{
    if n > 0 {
        lemma_lines_prefix(lines, line, n - 1);
        assert(lines.push(line)[n - 1] == lines[n - 1]);
    }
}

} // verus!
