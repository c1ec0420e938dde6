//! Search: walk the game tree and return the best move.
//!
//! The core is negamax alpha-beta inside iterative deepening, with a
//! transposition table, principal variation search, quiescence search, move
//! ordering, pruning and reductions, and draw detection.  What is computed is
//! stated by the functions of [`crate::tree`].

use std::sync::Arc;
use std::sync::atomic::{AtomicBool, Ordering};

use vstd::prelude::*;

use crate::clock;
pub use crate::clock::SearchLimits;
use crate::eval::{
    EVAL_MAX, evaluate, lemma_ordinary, ordinary, piece_value, quotient, score, value_of,
};
use crate::movegen;
use crate::movegen::{MoveList, generate_legal, legal_moves};
use crate::nnue::{Accumulator, Network, NoNetwork};
use crate::position::Position;
use crate::rules::{PosView, apply, hash, legal, moved, pseudo};
use crate::see::{exchange_value, see_ge};
use crate::tree;
pub use crate::tree::{INFINITY, MATE};
use crate::tree::{
    Count, DELTA_MARGIN, DRAW_SCORE, Eval, HISTORY_MAX, Judged, LMP, LN, MATE_IN_MAX, MAX_PLY, MAX_QPLY, Mind, NONE_EVAL,
    Node, Progress, RFP_MARGIN, Reply, SEE_PRUNE_MARGIN, agrees, at_least, at_most, best_from, bounded,
    butterfly, calm, calm_moves, entry_of, forcing, from_tt, has_piece, is_killer, is_mate, learned,
    log_product, loud, magnitude, move_limit, mvv, nm, nm_child, nm_expand, nm_moves, nm_open,
    nudged, penalized, playable, prize, rank_of, ranked, reduction, repeats, rewarded, select,
    settled, table_move, takes, tick, to_tt, victim, with_killer,
};
use crate::tt::{Bound, TranspositionTable, TtEntry, stored};
use crate::types::{Move, MoveType, PieceType};

verus! {

/// No score is further from zero than this.
pub const SCORE_LIMIT: i32 = 140_000;

// ---------------------------------------------------------------------------
// Scores.
// ---------------------------------------------------------------------------

/// Does the score tell of a forced mate?
pub fn is_mate_score(score: i32) -> (r: bool)
    requires
        score > i32::MIN,
    ensures
        r == is_mate(score as int),
{
    score >= MATE_IN_MAX || score <= -MATE_IN_MAX
}

/// A score on its way into the table: mate scores count from this position.
pub fn score_to_tt(score: i32, ply: usize) -> (r: i32)
    requires
        ply <= i32::MAX,
        i32::MIN <= to_tt(score as int, ply as int) <= i32::MAX,
    ensures
        r == to_tt(score as int, ply as int),
{
    if score >= MATE_IN_MAX {
        score + ply as i32
    } else if score <= -MATE_IN_MAX {
        score - ply as i32
    } else {
        score
    }
}

/// A score on its way out of the table: mate scores count from the root.
pub fn score_from_tt(score: i32, ply: usize) -> (r: i32)
    requires
        ply <= i32::MAX,
        i32::MIN <= from_tt(score as int, ply as int) <= i32::MAX,
    ensures
        r == from_tt(score as int, ply as int),
{
    if score >= MATE_IN_MAX {
        score - ply as i32
    } else if score <= -MATE_IN_MAX {
        score + ply as i32
    } else {
        score
    }
}

/// Reading a stored score at the ply where it was stored gives the score back.
pub proof fn law_table_scores_round_trip(s: int, ply: int)
    requires
        0 <= ply <= MAX_PLY,
    ensures
        from_tt(to_tt(s, ply), ply) == s,
{
}

// ---------------------------------------------------------------------------
// Moves.
// ---------------------------------------------------------------------------

/// Does the move capture an enemy piece?
pub fn is_capture(pos: &Position, m: Move) -> (r: bool)
    requires
        m.wf(),
    ensures
        r == takes(pos@, m),
{
    if m.move_type() == MoveType::EnPassant {
        return true;
    }
    m.move_type() != MoveType::Castling && pos.piece_at(m.to_sq()).is_some()
}

/// Does the move capture or promote?
pub fn is_capture_or_promo(pos: &Position, m: Move) -> (r: bool)
    requires
        m.wf(),
    ensures
        r == forcing(pos@, m),
{
    is_capture(pos, m) || m.move_type() == MoveType::Promotion
}

/// Does the move neither capture nor promote?
pub fn is_quiet(pos: &Position, m: Move) -> (r: bool)
    requires
        m.wf(),
    ensures
        r == !forcing(pos@, m),
{
    !is_capture_or_promo(pos, m)
}

/// The kind of piece that a capture removes; a pawn for a bare promotion.
fn victim_of(pos: &Position, m: Move) -> (r: PieceType)
    requires
        m.wf(),
    ensures
        r == victim(pos@, m),
{
    if m.move_type() == MoveType::EnPassant {
        return PieceType::Pawn;
    }
    match pos.piece_at(m.to_sq()) {
        Some(p) => p.piece_type,
        None => PieceType::Pawn,
    }
}

/// The value of what a move captures.
pub fn captured_value(pos: &Position, m: Move) -> (r: i32)
    requires
        m.wf(),
    ensures
        r == prize(pos@, m),
        0 <= r <= 1025,
{
    if is_capture(pos, m) {
        piece_value(victim_of(pos, m))
    } else {
        0
    }
}

/// The most valuable victim first and, for one victim, the least valuable
/// attacker.
pub fn mvv_lva(pos: &Position, m: Move) -> (r: i32)
    requires
        m.wf(),
    ensures
        r == mvv(pos@, m),
        -257 <= r <= 16400,
{
    let attacker: PieceType = match pos.piece_at(m.from_sq()) {
        Some(p) => p.piece_type,
        None => PieceType::Pawn,
    };
    piece_value(victim_of(pos, m)) * 16 - piece_value(attacker) / 4
}

/// All the moves of a list are legal.
pub open spec fn all_legal(v: PosView, s: Seq<(Move, i32)>) -> bool {
    forall|j: int| 0 <= j < s.len() ==> legal(v, (#[trigger] s[j]).0)
}

/// Swap the best of the moves from `i` on to place `i`.
fn select_best(list: &mut Vec<(Move, i32)>, i: usize)
    requires
        i < old(list)@.len(),
    ensures
        final(list)@ == select(old(list)@, i as int),
        final(list)@.len() == old(list)@.len(),
        forall|v: PosView| #[trigger] all_legal(v, old(list)@) ==> all_legal(v, final(list)@),
{
    let n: usize = list.len();
    let mut b: usize = i;
    let mut j: usize = i + 1;
    while j < n
        invariant
            n == list@.len(),
            i <= b < j <= n,
            b == best_from(list@, i as int, j as int),
        decreases n - j,
    {
        if list[j].1 > list[b].1 {
            b = j;
        }
        j = j + 1;
    }
    let first = list[i];
    let best = list[b];
    list[i] = best;
    list[b] = first;
    proof {
        reveal(select);
        assert forall|v: PosView| #[trigger] all_legal(v, old(list)@) implies all_legal(
            v,
            list@,
        ) by {
            assert forall|k: int| 0 <= k < list@.len() implies legal(v, (#[trigger] list@[k]).0) by {
                assert(legal(v, old(list)@[k].0));
                assert(legal(v, old(list)@[i as int].0));
                assert(legal(v, old(list)@[b as int].0));
            }
        }
    }
}

/// Does the player to move have a piece other than pawns and the king?
pub fn has_non_pawn_material(pos: &Position) -> (r: bool)
    requires
        pos.wf(),
    ensures
        r == has_piece(pos@),
{
    let us = pos.side_to_move();
    let n = pos.pieces_cp(us, PieceType::Knight);
    let b = pos.pieces_cp(us, PieceType::Bishop);
    let k = pos.pieces_cp(us, PieceType::Rook);
    let q = pos.pieces_cp(us, PieceType::Queen);
    let r: bool = n.any() || b.any() || k.any() || q.any();
    proof {
        reveal(has_piece);
        let v = pos@;
        if r {
            let i = if exists|i: int| n.has_sq(i) {
                choose|i: int| n.has_sq(i)
            } else if exists|i: int| b.has_sq(i) {
                choose|i: int| b.has_sq(i)
            } else if exists|i: int| k.has_sq(i) {
                choose|i: int| k.has_sq(i)
            } else {
                choose|i: int| q.has_sq(i)
            };
            assert(n.has_sq(i) || b.has_sq(i) || k.has_sq(i) || q.has_sq(i));
            assert(tree::officer(v, i));
        }
        if has_piece(v) {
            let i = choose|i: int| #[trigger] tree::officer(v, i);
            assert(n.has_sq(i) || b.has_sq(i) || k.has_sq(i) || q.has_sq(i));
        }
    }
    r
}

/// A history score stays within its bounds.
pub proof fn law_history_bounded(h: int, b: int)
    requires
        -HISTORY_MAX <= h <= HISTORY_MAX,
        -HISTORY_MAX <= b <= HISTORY_MAX,
    ensures
        -HISTORY_MAX <= nudged(h, b) <= HISTORY_MAX,
        0 <= magnitude(h) * magnitude(b) <= 0x1000_0000,
        h * magnitude(b) == magnitude(h) * magnitude(b) || h * magnitude(b) == -(magnitude(h)
            * magnitude(b)),
{
    reveal(nudged);
    let m = 16384int;
    let a = magnitude(h);
    let c = magnitude(b);
    let x = a * c;
    assert(0 <= x <= m * m) by (nonlinear_arith)
        requires
            x == a * c,
            0 <= a <= m,
            0 <= c <= m,
    ;
    let q = x / m;
    assert(m * q <= x < m * q + m);
    assert(m * q <= m * a && m * q <= m * c) by (nonlinear_arith)
        requires
            m * q <= x,
            x == a * c,
            0 <= a <= m,
            0 <= c <= m,
    ;
    assert((m - a) * (m - c) >= 0) by (nonlinear_arith)
        requires
            a <= m,
            c <= m,
    ;
    assert((m - a) * (m - c) == m * m - m * a - m * c + x) by (nonlinear_arith)
        requires
            x == a * c,
    ;
    assert(m * (a + c - q) <= m * m + m - 1);
    assert(a + c - q <= m);
    assert(h * c == x || h * c == -x) by (nonlinear_arith)
        requires
            x == a * c,
            h == a || h == -a,
    ;
    if h >= 0 {
        assert(h * c == x);
    } else {
        assert(h * c == -x) by (nonlinear_arith)
            requires
                h == -a,
                x == a * c,
        ;
    }
}

// ---------------------------------------------------------------------------
// The searcher.
// ---------------------------------------------------------------------------

/// What a completed search hands back.
#[derive(Clone, Debug)]
pub struct SearchResult {
    /// The best move found, or no move if the position has no legal move.
    pub best_move: Move,
    /// Its score in centipawns for the player to move.
    pub score: i32,
    /// The depth of the last completed iteration.
    pub depth: u32,
    /// Nodes visited.
    pub nodes: u64,
    /// The expected line of play.
    pub pv: Vec<Move>,
}

/// Everything that persists between and within searches.
pub struct Searcher<N: Network = NoNetwork> {
    /// Results of earlier searches.
    pub tt: TranspositionTable,
    /// Two quiet moves for each ply that refuted something, the latest first.
    pub killers: Vec<(Move, Move)>,
    /// A score for each origin and destination of quiet moves.
    pub history: Vec<i32>,
    /// The evaluation at each ply of the current line.
    pub eval_stack: Vec<i32>,
    /// The hashes of the positions on the current line.
    pub repetitions: Vec<u64>,
    /// Nodes visited in the current search.
    pub nodes: u64,
    /// When the current search began.
    pub start: std::time::Instant,
    /// Milliseconds that the current search may take.
    pub budget_ms: Option<u64>,
    /// Nodes that the current search may visit.
    pub node_limit: Option<u64>,
    /// Set once the search must be abandoned.
    pub stopped: bool,
    /// The node count at which the search was called off.
    pub halted: Ghost<u64>,
    /// The positions that were judged in the current search.
    pub heard: Ghost<Seq<Judged>>,
    /// The network that evaluates positions, if one is loaded.
    pub net: Option<N>,
    /// The accumulators of the positions on the current line, if a network is
    /// loaded.
    pub acc_stack: Vec<Accumulator<N>>,
    /// The reports of completed iterations that nobody has taken yet.
    pub reports: Vec<String>,
}

/// The last look at the node limit came before the limit was reached.
#[verifier::opaque]
pub open spec fn paced(nodes: u64, limit: Option<u64>) -> bool {
    limit is Some ==> nodes - nodes % 2048 < at_least(limit->0 as int, 1)
}

/// The search had to stop at a look at the node limit, and at most `extra` nodes
/// have been visited since.
#[verifier::opaque]
pub open spec fn overrun(nodes: u64, limit: Option<u64>, extra: int) -> bool {
    limit is Some ==> nodes < at_least(limit->0 as int, 1) + 2048 + extra
}

/// One node more, or none, after the search must stop.
proof fn lemma_overrun(nodes: u64, limit: Option<u64>, extra: int, more: int)
    requires
        overrun(nodes, limit, extra),
        extra <= more,
    ensures
        overrun(nodes, limit, more),
        overrun(tick(nodes), limit, more + 1),
{
    reveal(overrun);
}

/// A search that keeps its pace may also stop.
proof fn lemma_paced(nodes: u64, limit: Option<u64>, extra: int)
    requires
        paced(nodes, limit),
        0 <= extra,
    ensures
        overrun(nodes, limit, extra),
{
    reveal(paced);
    reveal(overrun);
}

impl<N: Network> Searcher<N> {
    /// What the searcher has in mind.
    pub open spec fn mind(&self) -> Mind {
        Mind {
            tt: self.tt@,
            killers: self.killers@,
            history: self.history@,
            evals: self.eval_stack@,
            reps: self.repetitions@,
            nodes: self.nodes,
            asked: self.heard@.len() as int,
        }
    }

    /// The tables have their sizes and their entries are within bounds.
    pub open spec fn wf(&self) -> bool {
        &&& self.tt.wf()
        &&& forall|i: int|
            0 <= i < self.tt@.len() && (#[trigger] self.tt@[i]) is Some ==> -SCORE_LIMIT
                <= self.tt@[i]->0.score <= SCORE_LIMIT
        &&& self.killers@.len() == MAX_PLY
        &&& self.history@.len() == 4096
        &&& forall|i: int|
            0 <= i < 4096 ==> -HISTORY_MAX <= #[trigger] self.history@[i] <= HISTORY_MAX
        &&& self.eval_stack@.len() == MAX_PLY
    }

    /// The topmost accumulator, if a network is loaded, describes the board `b`, and
    /// the positions so far were judged as they should be.
    pub open spec fn follows(&self, b: Seq<Option<crate::types::Piece>>) -> bool {
        &&& self.net is Some ==> self.acc_stack@.len() > 0 && self.acc_stack@.last().describes(
            &self.net->0,
            b,
        )
        &&& all_judged(self.net, self.heard@)
    }

    /// The node count keeps to its limit, and at most `extra` nodes have been
    /// visited since the search had to stop.
    pub open spec fn thrifty(&self, extra: int) -> bool {
        if self.stopped {
            overrun(self.nodes, self.node_limit, extra)
        } else {
            paced(self.nodes, self.node_limit)
        }
    }

    /// The clock of the search runs from an instant that was the present one.
    pub open spec fn timed(&self) -> bool {
        was_now(self.start)
    }

    /// A look at the stop flag, the clock and the node limit gives `over`.
    pub open spec fn looked(&self, stop: &Arc<AtomicBool>, over: bool) -> bool {
        a_look(self.start, self.budget_ms, self.nodes, self.node_limit, stop, over)
    }

    /// Apart from what is in mind and from having been stopped, nothing differs.
    pub open spec fn same_setup(&self, other: &Searcher<N>) -> bool {
        &&& self.start == other.start
        &&& self.budget_ms == other.budget_ms
        &&& self.node_limit == other.node_limit
        &&& self.net == other.net
        &&& self.acc_stack@ == other.acc_stack@
        &&& self.reports@ == other.reports@
        &&& other.stopped ==> self.stopped
    }

    /// What a search has found, as its result and the searcher after it tell.
    pub open spec fn found(&self, r: SearchResult) -> Found {
        Found {
            best_move: r.best_move,
            score: r.score as int,
            depth: r.depth as nat,
            pv: r.pv@,
            nodes: r.nodes,
            mind: self.mind(),
            heard: self.heard@,
            stopped: self.stopped,
            halted: self.halted@,
            start: self.start,
            budget_ms: self.budget_ms,
        }
    }

    /// The search was called off by a look at the limits, after the node count had
    /// passed `lo`.
    pub open spec fn called_off(&self, stop: &Arc<AtomicBool>, lo: u64) -> bool {
        &&& lo < self.halted@ <= self.nodes
        &&& self.halted@ % 2048 == 0
        &&& a_look(self.start, self.budget_ms, self.halted@, self.node_limit, stop, true)
    }

    /// The search has given the reply that is wanted, or was called off at a node
    /// that it visits on the way to that reply.
    pub open spec fn meets(&self, got: Reply, want: Reply) -> bool {
        if self.stopped {
            self.halted@ <= want.mind.nodes
        } else {
            got == want
        }
    }

    /// The same of a score and the counts.
    pub open spec fn meets_calm(&self, got: int, want: (Count, int)) -> bool {
        if self.stopped {
            self.halted@ <= want.0.nodes
        } else {
            (self.mind().count(), got) == want
        }
    }

    /// A searcher with a transposition table of about the given size.
    pub fn sized(tt_size_mb: usize) -> (r: Searcher<N>)
        requires
            tt_size_mb * crate::tt::SLOTS_PER_MB <= usize::MAX,
        ensures
            r.wf(),
            r.net is None,
            !r.stopped,
            r.reports@.len() == 0,
            modest(r.tt@),
            forall|b: Seq<Option<crate::types::Piece>>| #[trigger] r.follows(b),
            r.mind() == blank_mind(crate::tt::cleared(if tt_size_mb == 0 {
                1
            } else {
                (tt_size_mb * crate::tt::SLOTS_PER_MB) as nat
            })),
    {
        let s: Searcher<N> = Searcher {
            tt: TranspositionTable::new(tt_size_mb),
            killers: no_killers(),
            history: vec![0i32; 4096],
            eval_stack: vec![0i32; MAX_PLY],
            repetitions: Vec::with_capacity(MAX_PLY),
            nodes: 0,
            start: clock::now(),
            budget_ms: None,
            node_limit: None,
            stopped: false,
            halted: Ghost(0),
            heard: Ghost(Seq::empty()),
            net: None,
            acc_stack: Vec::with_capacity(MAX_PLY + 2),
            reports: Vec::new(),
        };
        proof {
            reveal(modest);
            lemma_none_judged::<N>(None);
        }
        assert(s.mind() =~= blank_mind(s.tt@));
        s
    }

    /// Install or remove the network.
    pub fn set_net(&mut self, net: Option<N>)
        ensures
            *final(self) == (Searcher { net, ..*old(self) }),
    {
        self.net = net;
    }

    /// Take the reports of completed iterations, as UCI `info` lines.
    pub fn take_reports(&mut self) -> (r: Vec<String>)
        ensures
            r@ == old(self).reports@,
            final(self).reports@.len() == 0,
            *final(self) == (Searcher { reports: final(self).reports, ..*old(self) }),
    {
        let mut out: Vec<String> = Vec::new();
        out.append(&mut self.reports);
        assert(out@ =~= old(self).reports@);
        out
    }

    /// Is a network loaded?
    pub fn has_net(&self) -> (r: bool)
        ensures
            r == (self.net is Some),
    {
        self.net.is_some()
    }

    /// Forget everything learned so far.
    pub fn clear(&mut self)
        requires
            old(self).wf(),
        ensures
            final(self).wf(),
            final(self).mind() == (Mind {
                nodes: old(self).nodes,
                asked: old(self).heard@.len() as int,
                ..blank_mind(crate::tt::cleared(old(self).tt@.len()))
            }),
            modest(final(self).tt@),
            final(self).same_setup(old(self)),
            final(self).stopped == old(self).stopped,
    {
        reveal(modest);
        self.tt.clear();
        self.killers = no_killers();
        self.history = vec![0i32; 4096];
        self.eval_stack = vec![0i32; MAX_PLY];
        self.repetitions.clear();
        assert(self.mind() =~= (Mind {
            nodes: self.nodes,
            asked: self.heard@.len() as int,
            ..blank_mind(self.tt@)
        }));
    }
}

/// A look at the stop flag, the clock and the node limit gives `over`.
pub closed spec fn a_look(
    start: std::time::Instant,
    budget_ms: Option<u64>,
    nodes: u64,
    node_limit: Option<u64>,
    stop: &Arc<AtomicBool>,
    over: bool,
) -> bool {
    exists|flag: bool, ms: u64| #[trigger]
        call_ensures(is_set, (stop,), flag) && #[trigger] call_ensures(
            clock::millis_since,
            (&start,),
            ms,
        ) && over == clock::spent_out(flag, nodes, node_limit, ms, budget_ms)
}

/// Has the search been told to stop?
fn is_set(stop: &Arc<AtomicBool>) -> (r: bool) {
    stop.load(Ordering::Relaxed)
}

/// Two absent moves for each ply.
fn no_killers() -> (r: Vec<(Move, Move)>)
    ensures
        r@ == Seq::new(MAX_PLY as nat, |i: int| (Move::null(), Move::null())),
{
    let mut out: Vec<(Move, Move)> = Vec::with_capacity(MAX_PLY);
    let mut i: usize = 0;
    while i < MAX_PLY
        invariant
            i <= MAX_PLY,
            out@ == Seq::new(i as nat, |j: int| (Move::null(), Move::null())),
        decreases MAX_PLY - i,
    {
        out.push((Move::none(), Move::none()));
        i = i + 1;
        assert(out@ =~= Seq::new(i as nat, |j: int| (Move::null(), Move::null())));
    }
    out
}

/// A mind that has learned nothing.
pub open spec fn blank_mind(tt: Seq<Option<TtEntry>>) -> Mind {
    Mind {
        tt,
        killers: Seq::new(MAX_PLY as nat, |i: int| (Move::null(), Move::null())),
        history: Seq::new(4096, |i: int| 0i32),
        evals: Seq::new(MAX_PLY as nat, |i: int| 0i32),
        reps: seq![],
        nodes: 0,
        asked: 0,
    }
}

/// What is in mind when a search begins.
pub open spec fn fresh(mind: Mind) -> Mind {
    Mind { reps: seq![], nodes: 0, asked: 0, ..mind }
}

/// The value of a position is what the network makes of it, from hidden vectors of
/// its board, or that of the hand-crafted evaluation if there is no network.
#[verifier::opaque]
pub open spec fn judged_by<N: Network>(net: Option<N>, j: Judged) -> bool {
    match net {
        None => j.value == score(j.v),
        Some(n) => exists|a: Accumulator<N>, out: i32| #[trigger]
            call_ensures(N::output, (&n, &a.hidden, j.v.side), out) && a.describes(&n, j.v.board)
                && j.value == bounded(out as int, -10_000, 10_000),
    }
}

/// All the positions were judged by the network, or by hand if there is none.
#[verifier::opaque]
pub open spec fn all_judged<N: Network>(net: Option<N>, heard: Seq<Judged>) -> bool {
    forall|i: int| 0 <= i < heard.len() ==> judged_by(net, #[trigger] heard[i])
}

proof fn lemma_none_judged<N: Network>(net: Option<N>)
    ensures
        all_judged(net, Seq::empty()),
{
    reveal(all_judged);
}

/// One more position is judged.
proof fn lemma_judged_push<N: Network>(net: Option<N>, heard: Seq<Judged>, j: Judged)
    requires
        all_judged(net, heard),
        judged_by(net, j),
    ensures
        all_judged(net, heard.push(j)),
{
    reveal(all_judged);
}

/// Without a network the positions are judged by the hand-crafted evaluation.
pub proof fn lemma_judged_by_hand<N: Network>(heard: Seq<Judged>)
    requires
        all_judged(None::<N>, heard),
    ensures
        agrees(tree::by_hand(), heard),
{
    reveal(all_judged);
    reveal(judged_by);
    reveal(agrees);
    assert forall|i: int| 0 <= i < heard.len() implies tree::by_hand()(
        i,
        (#[trigger] heard[i]).v,
    ) == heard[i].value by {
        assert(judged_by(None::<N>, heard[i]));
    }
}

/// No score in the table is beyond a mate.
#[verifier::opaque]
pub open spec fn modest(tt: Seq<Option<TtEntry>>) -> bool {
    forall|i: int|
        0 <= i < tt.len() && (#[trigger] tt[i]) is Some ==> -MATE <= tt[i]->0.score <= MATE
}

/// No value reads as a mate: the values of a network never do, nor those of the
/// hand-crafted evaluation as long as no player has more than sixteen pieces.
pub open spec fn tame<N: Network>(net: Option<N>, b: Seq<Option<crate::types::Piece>>) -> bool {
    net is Some || ordinary(b)
}

/// A score that no mate exceeds at its ply.
pub open spec fn tight(n: int, ply: int) -> bool {
    -MATE + ply <= n <= MATE - ply
}

impl Searcher<NoNetwork> {
    /// A searcher with a transposition table of `tt_size_mb` megabytes.
    pub fn new(tt_size_mb: usize) -> (r: Searcher<NoNetwork>)
        requires
            tt_size_mb * crate::tt::SLOTS_PER_MB <= usize::MAX,
        ensures
            r.wf(),
            r.net is None,
            !r.stopped,
            r.reports@.len() == 0,
            modest(r.tt@),
            forall|b: Seq<Option<crate::types::Piece>>| #[trigger] r.follows(b),
            r.mind() == blank_mind(crate::tt::cleared(if tt_size_mb == 0 {
                1
            } else {
                (tt_size_mb * crate::tt::SLOTS_PER_MB) as nat
            })),
    {
        Searcher::sized(tt_size_mb)
    }
}

// ---------------------------------------------------------------------------
// Evaluation and bookkeeping.
// ---------------------------------------------------------------------------

impl<N: Network> Searcher<N> {
    /// The evaluation used in the search: that of the network if one is loaded,
    /// otherwise the hand-crafted one.
    #[verifier::rlimit(30)]
    pub fn static_eval(&mut self, pos: &Position) -> (r: i32)
        requires
            pos.wf(),
            old(self).follows(pos@.board),
        ensures
            *final(self) == (Searcher { heard: final(self).heard, ..*old(self) }),
            final(self).heard@ == old(self).heard@.push(Judged { v: pos@, value: r as int }),
            judged_by(old(self).net, (Judged { v: pos@, value: r as int })),
            all_judged(final(self).net, final(self).heard@),
            forall|ev: Eval| #[trigger]
                agrees(ev, final(self).heard@) ==> agrees(ev, old(self).heard@) && ev(
                    old(self).heard@.len() as int,
                    pos@,
                ) == r,
            -EVAL_MAX - 10 <= r <= EVAL_MAX + 10,
            tame(old(self).net, pos@.board) ==> -29_700 <= r <= 29_700,
    {
        let r: i32 = match &self.net {
            Some(net) => {
                let top: usize = self.acc_stack.len() - 1;
                let out: i32 = net.output(&self.acc_stack[top].hidden, pos.side_to_move());
                assert(call_ensures(
                    N::output,
                    (net, &self.acc_stack@[top as int].hidden, pos@.side),
                    out,
                ));
                if out > 10_000 {
                    10_000
                } else if out < -10_000 {
                    -10_000
                } else {
                    out
                }
            },
            None => evaluate(pos),
        };
        let ghost j = Judged { v: pos@, value: r as int };
        proof {
            reveal(judged_by);
            assert(judged_by(self.net, j));
            lemma_judged_push(self.net, self.heard@, j);
            tree::lemma_agrees_push(self.heard@, j);
        }
        self.heard = Ghost(self.heard@.push(j));
        r
    }

    /// Push the accumulator of the position after a move.
    fn push_accumulator(&mut self, pos: &Position, m: Move)
        requires
            pos.wf(),
            pseudo(pos@, m),
            old(self).follows(pos@.board),
        ensures
            *final(self) == (Searcher { acc_stack: final(self).acc_stack, ..*old(self) }),
            final(self).follows(moved(pos@.board, pos@.side, m)),
            final(self).net is None ==> final(self).acc_stack@ == old(self).acc_stack@,
            final(self).net is Some ==> final(self).acc_stack@.len() > 0
                && final(self).acc_stack@.drop_last() == old(self).acc_stack@,
    {
        if let Some(net) = &self.net {
            let top: usize = self.acc_stack.len() - 1;
            let child = Accumulator::apply_move(net, &self.acc_stack[top], pos, m);
            self.acc_stack.push(child);
            assert(self.acc_stack@.drop_last() =~= old(self).acc_stack@);
        }
    }

    /// Push the same accumulator again, for passing.
    fn push_null_accumulator(&mut self, pos: &Position)
        requires
            old(self).follows(pos@.board),
        ensures
            *final(self) == (Searcher { acc_stack: final(self).acc_stack, ..*old(self) }),
            final(self).follows(pos@.board),
            final(self).net is None ==> final(self).acc_stack@ == old(self).acc_stack@,
            final(self).net is Some ==> final(self).acc_stack@.len() > 0
                && final(self).acc_stack@.drop_last() == old(self).acc_stack@,
    {
        if let Some(net) = &self.net {
            let top: usize = self.acc_stack.len() - 1;
            let again = Accumulator::pass(net, &self.acc_stack[top]);
            self.acc_stack.push(again);
            assert(self.acc_stack@.drop_last() =~= old(self).acc_stack@);
        }
    }

    /// Pop the accumulator of the move that is taken back.
    fn pop_accumulator(&mut self)
        requires
            old(self).net is Some ==> old(self).acc_stack@.len() > 0,
        ensures
            *final(self) == (Searcher { acc_stack: final(self).acc_stack, ..*old(self) }),
            final(self).net is None ==> final(self).acc_stack@ == old(self).acc_stack@,
            final(self).net is Some ==> final(self).acc_stack@ == old(self).acc_stack@.drop_last(),
    {
        if self.net.is_some() {
            let _ = self.acc_stack.pop();
        }
    }

    /// Must the search stop now?
    fn check_stop(&self, stop: &Arc<AtomicBool>) -> (r: bool)
        ensures
            self.looked(stop, r),
            self.node_limit is Some && self.nodes >= self.node_limit->0 ==> r,
    {
        let flag: bool = is_set(stop);
        clock::must_stop(
            flag,
            self.nodes,
            self.node_limit,
            clock::millis_since(&self.start),
            self.budget_ms,
        )
    }

    /// Count a node, and look at the clock and the stop flag now and then.
    fn visit(&mut self, stop: &Arc<AtomicBool>)
        ensures
            *final(self) == (Searcher {
                nodes: tick(old(self).nodes),
                stopped: final(self).stopped,
                halted: final(self).halted,
                ..*old(self)
            }),
            final(self).nodes % 2048 != 0 ==> final(self).stopped == old(self).stopped,
            final(self).nodes % 2048 == 0 ==> exists|r: bool| #[trigger]
                final(self).looked(stop, r) && final(self).stopped == (old(self).stopped || r),
            final(self).stopped && !old(self).stopped ==> final(self).called_off(
                stop,
                old(self).nodes,
            ) && final(self).halted@ == final(self).nodes,
            old(self).stopped || !final(self).stopped ==> final(self).halted == old(self).halted,
            !old(self).stopped && old(self).thrifty(0) ==> final(self).thrifty(0),
    {
        reveal(paced);
        reveal(overrun);
        self.nodes = self.nodes.saturating_add(1);
        if self.nodes % 2048 == 0 {
            let over: bool = self.check_stop(stop);
            if over && !self.stopped {
                self.stopped = true;
                self.halted = Ghost(self.nodes);
            }
            assert(self.looked(stop, over));
        }
    }

    /// Has this position occurred on the current line since the last move that
    /// cannot be taken back?
    pub fn is_repetition(&self, pos: &Position) -> (r: bool)
        requires
            pos.wf(),
        ensures
            r == repeats(self.repetitions@, hash(pos@), pos@.half as int),
    {
        reveal(repeats);
        let key: u64 = pos.key();
        let reversible: u64 = pos.halfmove_clock() as u64;
        let ghost reps = self.repetitions@;
        let mut i: usize = self.repetitions.len();
        let mut back: u64 = 0;
        let ghost mut k: int = 0;
        while i >= 2 && back + 2 <= reversible
            invariant
                reps == self.repetitions@,
                key == hash(pos@),
                reversible == pos@.half,
                0 <= k,
                back == 2 * k,
                i == reps.len() - 2 * k,
                0 <= i <= reps.len(),
                back <= 0x1_0000_0000,
                back <= reversible,
                forall|j: int| 0 <= j < k ==> #[trigger] tree::back(reps, j) != key,
            decreases i,
        {
            i = i - 2;
            back = back + 2;
            if self.repetitions[i] == key {
                proof {
                    reveal(repeats);
                    assert(tree::back(reps, k) == key);
                }
                return true;
            }
            proof {
                k = k + 1;
            }
        }
        false
    }
}

// ---------------------------------------------------------------------------
// Quiescence search.
// ---------------------------------------------------------------------------

/// The captures and promotions worth trying, with their order.
fn loud_moves(pos: &Position, moves: &MoveList, in_check: bool) -> (r: Vec<(Move, i32)>)
    requires
        pos.wf(),
        moves@ == legal_moves(pos@),
        in_check == pos@.in_check(),
    ensures
        r@ == loud(pos@, legal_moves(pos@).len() as int),
        all_legal(pos@, r@),
{
    let mut out: Vec<(Move, i32)> = Vec::new();
    let mut i: usize = 0;
    proof {
        reveal_with_fuel(loud, 1);
    }
    while i < moves.len()
        invariant
            pos.wf(),
            moves@ == legal_moves(pos@),
            in_check == pos@.in_check(),
            i <= moves@.len(),
            out@ == loud(pos@, i as int),
            all_legal(pos@, out@),
        decreases moves@.len() - i,
    {
        proof {
            reveal_with_fuel(loud, 1);
            movegen::lemma_listed_legal(pos@, i as int);
        }
        let m = moves.get(i);
        if is_capture_or_promo(pos, m) {
            if in_check || m.move_type() == MoveType::Promotion || see_ge(pos, m, 0) {
                let ghost before = out@;
                out.push((m, mvv_lva(pos, m)));
                assert(all_legal(pos@, out@)) by {
                    assert forall|j: int| 0 <= j < out@.len() implies legal(
                        pos@,
                        (#[trigger] out@[j]).0,
                    ) by {
                        if j < before.len() {
                            assert(legal(pos@, before[j].0));
                        }
                    }
                }
            }
        }
        i = i + 1;
    }
    out
}

/// The captures from place `i` on take at least the nodes of the first of them.
proof fn lemma_calm_stop(
    ev: Eval,
    c: Count,
    v: PosView,
    pat: int,
    beta: int,
    ply: int,
    list: Seq<(Move, i32)>,
    i: int,
    alpha: int,
    best: int,
)
    requires
        0 <= i < list.len(),
        ply < MAX_QPLY,
        ({
            let m = select(list, i)[i].0;
            v.in_check() || m.kind == MoveType::Promotion || pat + prize(v, m) + DELTA_MARGIN
                >= alpha
        }),
    ensures
        calm_moves(ev, c, v, pat, beta, ply, list, i, alpha, best).0.nodes >= calm(
            ev,
            c,
            apply(v, select(list, i)[i].0),
            -beta,
            -alpha,
            ply + 1,
        ).0.nodes,
{
    reveal_with_fuel(calm_moves, 1);
    reveal_with_fuel(calm, 1);
    let next = select(list, i);
    let r = calm(ev, c, apply(v, next[i].0), -beta, -alpha, ply + 1);
    let s = -r.1;
    let best2 = if s > best {
        s
    } else {
        best
    };
    let alpha2 = if s > best && s > alpha {
        s
    } else {
        alpha
    };
    tree::lemma_calm_moves(ev, r.0, v, pat, beta, ply, next, i + 1, alpha2, best2);
}

impl<N: Network> Searcher<N> {
    /// Resolve captures until the position is quiet, so that no position is
    /// evaluated in the middle of an exchange.
    #[verifier::rlimit(30)]
    pub fn quiescence(
        &mut self,
        pos: &mut Position,
        alpha: i32,
        beta: i32,
        ply: usize,
        stop: &Arc<AtomicBool>,
    ) -> (r: i32)
        requires
            old(self).wf(),
            old(pos).wf(),
            old(self).follows(old(pos)@.board),
            i32::MIN < alpha,
            i32::MIN < beta,
            ply <= i32::MAX,
        ensures
            final(self).wf(),
            final(self).same_setup(old(self)),
            final(self).mind() == old(self).mind().with_count(final(self).mind().count()),
            old(self).nodes <= final(self).nodes,
            *final(pos) == *old(pos),
            final(self).stopped ==> r == 0,
            !old(self).stopped && old(self).thrifty(0) ==> final(self).thrifty(0),
            -EVAL_MAX - 10 <= r <= EVAL_MAX + 10,
            tame(old(self).net, old(pos)@.board) ==> -29_700 <= r <= 29_700,
            all_judged(final(self).net, final(self).heard@),
            final(self).stopped && !old(self).stopped ==> final(self).called_off(
                stop,
                old(self).nodes,
            ),
            !old(self).stopped ==> forall|ev: Eval| #[trigger]
                agrees(ev, final(self).heard@) ==> agrees(ev, old(self).heard@)
                    && final(self).meets_calm(
                    r as int,
                    calm(
                        ev,
                        old(self).mind().count(),
                        old(pos)@,
                        alpha as int,
                        beta as int,
                        ply as int,
                    ),
                ),
        decreases 200 - ply,
    {
        let ghost v = pos@;
        let ghost c0 = self.mind().count();
        self.visit(stop);
        if self.stopped {
            proof {
                assert forall|ev: Eval| #[trigger] agrees(ev, self.heard@) implies self.meets_calm(
                    0,
                    calm(ev, c0, v, alpha as int, beta as int, ply as int),
                ) || old(self).stopped by {
                    tree::law_standing_pat_is_kept(
                        ev,
                        c0,
                        v,
                        alpha as int,
                        beta as int,
                        ply as int,
                    );
                }
            }
            return 0;
        }
        proof {
            reveal_with_fuel(calm, 1);
            reveal_with_fuel(calm_moves, 1);
        }
        let stand_pat: i32 = self.static_eval(pos);
        if ply >= MAX_QPLY {
            return stand_pat;
        }
        if stand_pat >= beta {
            return stand_pat;
        }
        let mut low: i32 = if stand_pat > alpha {
            stand_pat
        } else {
            alpha
        };
        let in_check = pos.in_check();
        let moves = generate_legal(pos);
        let mut list = loud_moves(pos, &moves, in_check);
        let mut best: i32 = stand_pat;
        let mut i: usize = 0;
        while i < list.len()
            invariant
                i <= list@.len(),
                self.wf(),
                pos.wf(),
                *pos == *old(pos),
                v == pos@,
                in_check == v.in_check(),
                self.same_setup(old(self)),
                self.follows(v.board),
                self.mind() == old(self).mind().with_count(self.mind().count()),
                c0 == old(self).mind().count(),
                old(self).nodes <= self.nodes,
                tame(self.net, v.board) ==> -29_700 <= best <= 29_700,
                !self.stopped,
                !old(self).stopped && old(self).thrifty(0) ==> self.thrifty(0),
                all_legal(v, list@),
                ply < MAX_QPLY,
                i32::MIN < low,
                i32::MIN < beta,
                -EVAL_MAX - 10 <= stand_pat <= EVAL_MAX + 10,
                -EVAL_MAX - 10 <= best <= EVAL_MAX + 10,
                forall|ev: Eval| #[trigger]
                    agrees(ev, self.heard@) ==> agrees(ev, old(self).heard@) && calm(
                        ev,
                        c0,
                        v,
                        alpha as int,
                        beta as int,
                        ply as int,
                    ) == calm_moves(
                        ev,
                        self.mind().count(),
                        v,
                        stand_pat as int,
                        beta as int,
                        ply as int,
                        list@,
                        i as int,
                        low as int,
                        best as int,
                    ),
            decreases list@.len() - i,
        {
            proof {
                reveal_with_fuel(calm, 1);
                reveal_with_fuel(calm_moves, 1);
            }
            let ghost list0 = list@;
            select_best(&mut list, i);
            let m = list[i].0;
            assert(legal(v, list@[i as int].0));
            let hopeless: bool = if !in_check && m.move_type() != MoveType::Promotion {
                stand_pat + captured_value(pos, m) + DELTA_MARGIN < low
            } else {
                false
            };
            if !hopeless {
                let ghost c1 = self.mind().count();
                self.push_accumulator(pos, m);
                let undo = pos.make_move(m);
                let ghost w = pos@;
                proof {
                    if ordinary(v.board) {
                        lemma_ordinary(v, m);
                    }
                }
                let s: i32 = -self.quiescence(pos, -beta, -low, ply + 1, stop);
                pos.undo_move(m, undo);
                self.pop_accumulator();
                assert(self.acc_stack@ =~= old(self).acc_stack@);
                if self.stopped {
                    proof {
                        assert forall|ev: Eval| #[trigger] agrees(ev, self.heard@) implies agrees(
                            ev,
                            old(self).heard@,
                        ) && self.meets_calm(
                            0,
                            calm(ev, c0, v, alpha as int, beta as int, ply as int),
                        ) by {
                            lemma_calm_stop(
                                ev,
                                c1,
                                v,
                                stand_pat as int,
                                beta as int,
                                ply as int,
                                list0,
                                i as int,
                                low as int,
                                best as int,
                            );
                        }
                    }
                    return 0;
                }
                if s > best {
                    best = s;
                    if s > low {
                        low = s;
                    }
                }
                if low >= beta {
                    return best;
                }
            }
            i = i + 1;
        }
        proof {
            reveal_with_fuel(calm, 1);
            reveal_with_fuel(calm_moves, 1);
        }
        best
    }
}

// ---------------------------------------------------------------------------
// Move ordering and what is learned.
// ---------------------------------------------------------------------------

/// A late move's reduction by the logarithms of depth and move number.
pub fn log_reduction(depth: i32, i: usize) -> (r: i32)
    requires
        1 <= depth <= 255,
    ensures
        r == log_product(depth as int, i as int),
        0 <= r <= 10_000_000,
{
    reveal(log_product);
    let k: usize = if i > 255 {
        255
    } else {
        i
    };
    let a: u128 = LN[depth as usize] as u128;
    let b: u128 = LN[k] as u128;
    proof {
        assert(0 <= a * b <= 0xFFFF_FFFF * 0xFFFF_FFFF) by (nonlinear_arith)
            requires
                0 <= a <= 0xFFFF_FFFF,
                0 <= b <= 0xFFFF_FFFF,
        ;
    }
    let top: u128 = 27 * 0x100_0000_0000 + 16 * (a * b);
    let ratio: u128 = top / 0x2400_0000_0000;
    assert(top <= 10_000_000 * 0x2400_0000_0000);
    assert(ratio <= 10_000_000);
    assert(36 * 0x100_0000_0000int == 0x2400_0000_0000int);
    ratio as i32
}

/// Where a move stands in the orders of the search.
pub proof fn law_order_bands(mind: Mind, v: PosView, m: Move, hint: Move, ply: int)
    requires
        m.wf(),
        mind.history.len() == 4096,
        forall|i: int|
            0 <= i < 4096 ==> -HISTORY_MAX <= #[trigger] mind.history[i] <= HISTORY_MAX,
    ensures
        m == hint ==> rank_of(mind, v, m, hint, ply) == 1_000_000,
        m != hint && forcing(v, m) && (m.kind == MoveType::Promotion || exchange_value(v, m) >= 0)
            ==> 98_000 < rank_of(mind, v, m, hint, ply) < 120_000,
        m != hint && !forcing(v, m) && is_killer(mind, m, ply) ==> rank_of(mind, v, m, hint, ply)
            == 80_000,
        m != hint && !forcing(v, m) && !is_killer(mind, m, ply) ==> -HISTORY_MAX <= rank_of(
            mind,
            v,
            m,
            hint,
            ply,
        ) <= HISTORY_MAX,
        m != hint && forcing(v, m) && m.kind != MoveType::Promotion && exchange_value(v, m) < 0
            ==> -102_000 < rank_of(mind, v, m, hint, ply) < -80_000,
{
    reveal(rank_of);
    lemma_mvv_bound(v, m);
    assert(0 <= butterfly(m) < 4096);
}

proof fn lemma_mvv_bound(v: PosView, m: Move)
    ensures
        -1025 <= mvv(v, m) <= 16400,
{
    let a = victim(v, m);
    let b = if v.board[m.from.i()] is Some {
        v.board[m.from.i()]->0.piece_type
    } else {
        PieceType::Pawn
    };
    assert(0 <= value_of(a) <= 1025 && 0 <= value_of(b) <= 1025);
}

impl<N: Network> Searcher<N> {
    /// Attach to every move its place in the order.
    pub fn order_moves(&self, pos: &Position, moves: &MoveList, tt_move: Move, ply: usize) -> (r: Vec<
        (Move, i32),
    >)
        requires
            self.wf(),
            pos.wf(),
            moves@ == legal_moves(pos@),
            ply < MAX_PLY,
        ensures
            r@ == ranked(self.mind(), pos@, tt_move, ply as int),
            all_legal(pos@, r@),
            r@.len() == legal_moves(pos@).len(),
    {
        reveal(ranked);
        let (killer0, killer1): (Move, Move) = self.killers[ply];
        let ghost mind = self.mind();
        let ghost v = pos@;
        let mut out: Vec<(Move, i32)> = Vec::with_capacity(moves.len());
        let mut i: usize = 0;
        while i < moves.len()
            invariant
                self.wf(),
                pos.wf(),
                v == pos@,
                mind == self.mind(),
                moves@ == legal_moves(v),
                ply < MAX_PLY,
                (killer0, killer1) == mind.killers[ply as int],
                i <= moves@.len(),
                out@.len() == i,
                forall|j: int|
                    0 <= j < i ==> #[trigger] out@[j] == (
                        moves@[j],
                        rank_of(mind, v, moves@[j], tt_move, ply as int) as i32,
                    ),
                all_legal(v, out@),
            decreases moves@.len() - i,
        {
            proof {
                reveal(rank_of);
                movegen::lemma_listed_legal(v, i as int);
            }
            let m = moves.get(i);
            let place: i32 = if m == tt_move {
                1_000_000
            } else if is_capture_or_promo(pos, m) {
                if m.move_type() == MoveType::Promotion || see_ge(pos, m, 0) {
                    100_000 + mvv_lva(pos, m)
                } else {
                    -100_000 + mvv_lva(pos, m)
                }
            } else if m == killer0 || m == killer1 {
                80_000
            } else {
                self.history[64 * m.from_sq().index() + m.to_sq().index()]
            };
            let ghost before = out@;
            out.push((m, place));
            assert(all_legal(v, out@)) by {
                assert forall|j: int| 0 <= j < out@.len() implies legal(
                    v,
                    (#[trigger] out@[j]).0,
                ) by {
                    if j < before.len() {
                        assert(legal(v, before[j].0));
                    }
                }
            }
            i = i + 1;
        }
        proof {
            reveal(ranked);
            assert(out@ =~= ranked(mind, v, tt_move, ply as int));
        }
        out
    }

    /// Remember a quiet move that refuted something.
    pub fn record_killer(&mut self, m: Move, ply: usize)
        requires
            old(self).wf(),
            ply < MAX_PLY,
        ensures
            final(self).wf(),
            final(self).killers@ == with_killer(old(self).killers@, ply as int, m),
            *final(self) == (Searcher { killers: final(self).killers, ..*old(self) }),
    {
        let (first, _): (Move, Move) = self.killers[ply];
        if first != m {
            self.killers[ply] = (m, first);
        }
    }

    /// Move a quiet move's history score towards a bonus or away from it.  A bonus
    /// beyond the bounds of the scores counts as the bound.
    #[verifier::rlimit(30)]
    pub fn update_history(&mut self, m: Move, bonus: i32)
        requires
            old(self).wf(),
            m.wf(),
        ensures
            final(self).wf(),
            final(self).history@ == rewarded(
                old(self).history@,
                m,
                bounded(bonus as int, -HISTORY_MAX as int, HISTORY_MAX as int),
            ),
            *final(self) == (Searcher { history: final(self).history, ..*old(self) }),
    {
        reveal(rewarded);
        let bonus: i32 = if bonus < -HISTORY_MAX {
            -HISTORY_MAX
        } else if bonus > HISTORY_MAX {
            HISTORY_MAX
        } else {
            bonus
        };
        let k: usize = 64 * m.from_sq().index() + m.to_sq().index();
        let h: i32 = self.history[k];
        let size: i32 = if bonus < 0 {
            -bonus
        } else {
            bonus
        };
        proof {
            reveal(nudged);
            law_history_bounded(h as int, bonus as int);
            assert(h * size == h * magnitude(bonus as int));
        }
        let product: i32 = h * size;
        let pull: i32 = divide_trunc(product, HISTORY_MAX);
        assert(nudged(h as int, bonus as int) == h + bonus - pull);
        proof {
            lemma_pull_bound(product as int);
        }
        let next: i32 = h + bonus - pull;
        self.history[k] = next;
    }

    /// Learn from a quiet move that refuted the position.
    fn learn(&mut self, m: Move, ply: usize, depth: i32, quiets: &Vec<Move>)
        requires
            old(self).wf(),
            m.wf(),
            ply < MAX_PLY,
            1 <= depth <= 255,
            forall|j: int| 0 <= j < quiets@.len() ==> (#[trigger] quiets@[j]).wf(),
        ensures
            final(self).wf(),
            final(self).mind() == learned(
                old(self).mind(),
                m,
                ply as int,
                depth as int,
                quiets@,
            ),
            *final(self) == (Searcher {
                killers: final(self).killers,
                history: final(self).history,
                ..*old(self)
            }),
    {
        self.record_killer(m, ply);
        proof {
            assert(1 <= depth * depth <= 255 * 255) by (nonlinear_arith)
                requires
                    1 <= depth <= 255,
            ;
        }
        let square: i32 = depth * depth;
        let bonus: i32 = if square > HISTORY_MAX {
            HISTORY_MAX
        } else {
            square
        };
        self.update_history(m, bonus);
        let ghost first = self.history@;
        let ghost stage = *self;
        let mut i: usize = 0;
        proof {
            reveal_with_fuel(penalized, 1);
        }
        while i < quiets.len()
            invariant
                self.wf(),
                i <= quiets@.len(),
                -HISTORY_MAX <= -bonus <= HISTORY_MAX,
                0 <= bonus,
                forall|j: int| 0 <= j < quiets@.len() ==> (#[trigger] quiets@[j]).wf(),
                *self == (Searcher { history: self.history, ..stage }),
                self.history@ == penalized(first, quiets@, i as int, bonus as int),
            decreases quiets@.len() - i,
        {
            assert(quiets@[i as int].wf());
            self.update_history(quiets[i], -bonus);
            i = i + 1;
            proof {
                reveal_with_fuel(penalized, 1);
            }
        }
        proof {
            reveal(learned);
            assert(self.mind() =~= learned(
                old(self).mind(),
                m,
                ply as int,
                depth as int,
                quiets@,
            ));
        }
    }
}

/// Division that drops the fraction.
fn divide_trunc(a: i32, b: i32) -> (r: i32)
    requires
        b > 0,
        a > i32::MIN,
    ensures
        r == quotient(a as int, b as int),
{
    let n: u32 = if a >= 0 {
        a as u32
    } else {
        (-a) as u32
    };
    let q: u32 = n / (b as u32);
    proof {
        let ni = n as int;
        let bi = b as int;
        assert(ni / bi <= ni) by (nonlinear_arith)
            requires
                ni >= 0,
                bi > 0,
        ;
    }
    if a >= 0 {
        q as i32
    } else {
        -(q as i32)
    }
}

proof fn lemma_pull_bound(x: int)
    requires
        -0x1000_0000 <= x <= 0x1000_0000,
    ensures
        -16384 <= quotient(x, 16384) <= 16384,
{
}

/// What is known after a move was searched.
spec fn tried(v: PosView, node: Node, q: Progress, m: Move) -> Progress {
    if q.alpha >= node.beta {
        if forcing(v, m) {
            q
        } else {
            Progress { mind: learned(q.mind, m, node.ply, node.depth, q.quiets), ..q }
        }
    } else if !forcing(v, m) && q.quiets.len() < 64 {
        Progress { quiets: q.quiets.push(m), ..q }
    } else {
        q
    }
}

/// A move that is skipped leaves everything but the order as it was, however
/// positions are judged.
proof fn lemma_skips(v: PosView, node: Node, p: Progress, i: int)
    requires
        0 <= i < p.list.len(),
        tree::hopeless_capture(v, node, select(p.list, i)[i].0, i) || tree::hopeless_quiet(
            p.mind,
            v,
            node,
            select(p.list, i)[i].0,
            i,
            p.alpha,
        ),
    ensures
        forall|ev: Eval| #[trigger]
            nm_moves(ev, v, node, p, i) == nm_moves(
                ev,
                v,
                node,
                Progress { list: select(p.list, i), ..p },
                i + 1,
            ),
{
    assert forall|ev: Eval| #[trigger] nm_moves(ev, v, node, p, i) == nm_moves(
        ev,
        v,
        node,
        Progress { list: select(p.list, i), ..p },
        i + 1,
    ) by {
        tree::lemma_skip(ev, v, node, p, i);
    }
}

/// A line that starts with a move.
fn set_line(pv: &mut Vec<Move>, m: Move, rest: &Vec<Move>)
    ensures
        final(pv)@ == seq![m] + rest@,
{
    pv.clear();
    pv.push(m);
    let mut i: usize = 0;
    assert(pv@ =~= seq![m] + rest@.take(0));
    while i < rest.len()
        invariant
            i <= rest@.len(),
            pv@ == seq![m] + rest@.take(i as int),
        decreases rest@.len() - i,
    {
        pv.push(rest[i]);
        i = i + 1;
        assert(pv@ =~= seq![m] + rest@.take(i as int));
    }
    assert(rest@.take(i as int) =~= rest@);
}

/// A legal move followed by a line that can be played after it.
proof fn lemma_playable(v: PosView, m: Move, rest: Seq<Move>)
    requires
        legal(v, m),
        playable(apply(v, m), rest),
    ensures
        playable(v, seq![m] + rest),
{
    assert((seq![m] + rest).skip(1) =~= rest);
    assert((seq![m] + rest)[0] == m);
}

// ---------------------------------------------------------------------------
// Negamax with alpha-beta.
// ---------------------------------------------------------------------------

/// What is known of a position before its moves are tried.
pub struct NodeInfo {
    pub depth: i32,
    pub beta: i32,
    pub ply: usize,
    pub is_pv: bool,
    pub in_check: bool,
    pub prunable: bool,
    pub eval: i32,
    pub improving: bool,
    /// The move that the table held when the position was reached.
    pub hint: Move,
}

impl View for NodeInfo {
    type V = Node;

    open spec fn view(&self) -> Node {
        Node {
            depth: self.depth as int,
            beta: self.beta as int,
            ply: self.ply as int,
            is_pv: self.is_pv,
            in_check: self.in_check,
            prunable: self.prunable,
            eval: self.eval as int,
            improving: self.improving,
            hint: self.hint,
        }
    }
}

impl NodeInfo {
    /// The numbers are in the ranges that occur in a search.
    pub open spec fn wf(&self) -> bool {
        &&& 1 <= self.depth <= 255
        &&& self.ply < MAX_PLY - 1
        &&& in_window(self.beta as int, self.ply as int)
        &&& self.in_check || -EVAL_MAX - 10 <= self.eval <= EVAL_MAX + 10
        &&& self.prunable ==> !self.in_check && magnitude(self.beta as int) < MATE_IN_MAX
    }
}

/// Storing an entry within the bounds keeps the table within them.
proof fn lemma_store_bounds(tt: Seq<Option<TtEntry>>, e: TtEntry)
    requires
        tt.len() > 0,
        -SCORE_LIMIT <= e.score <= SCORE_LIMIT,
        forall|i: int|
            0 <= i < tt.len() && (#[trigger] tt[i]) is Some ==> -SCORE_LIMIT <= tt[i]->0.score
                <= SCORE_LIMIT,
    ensures
        forall|i: int|
            0 <= i < tt.len() && (#[trigger] stored(tt, e)[i]) is Some ==> -SCORE_LIMIT <= stored(
                tt,
                e,
            )[i]->0.score <= SCORE_LIMIT,
        modest(tt) && -MATE <= e.score <= MATE ==> modest(stored(tt, e)),
{
    reveal(modest);
    let k = crate::tt::slot_of(e.key, tt.len() as int);
    assert forall|i: int| 0 <= i < tt.len() && (#[trigger] stored(tt, e)[i]) is Some implies (i == k
        && stored(tt, e)[i] == Some(e)) || stored(tt, e)[i] == tt[i] by {
    }
    assert forall|i: int|
        0 <= i < tt.len() && (#[trigger] stored(tt, e)[i]) is Some implies -SCORE_LIMIT <= stored(
        tt,
        e,
    )[i]->0.score <= SCORE_LIMIT by {
        if i != k {
            assert(tt[i] is Some);
        }
    }
}

/// A window bound at a ply that leaves room for the null windows of the plies after
/// it.
pub open spec fn in_window(n: int, ply: int) -> bool {
    -i32::MAX + MAX_PLY - ply <= n <= i32::MAX - MAX_PLY + ply
}

/// A score that can occur at a ply.
pub open spec fn in_range(n: int, ply: int) -> bool {
    -SCORE_LIMIT + ply <= n <= SCORE_LIMIT - ply
}

impl<N: Network> Searcher<N> {
    /// What every part of the search keeps.
    pub open spec fn keeps(&self, before: &Searcher<N>) -> bool {
        &&& self.wf()
        &&& self.same_setup(before)
        &&& self.repetitions@ == before.repetitions@
        &&& all_judged(self.net, self.heard@)
        &&& before.nodes <= self.nodes
    }

    /// Judge a position and note its evaluation.
    #[verifier::rlimit(30)]
    fn judge(
        &mut self,
        pos: &Position,
        depth: i32,
        alpha: i32,
        beta: i32,
        ply: usize,
        is_pv: bool,
        in_check: bool,
        hint: Move,
    ) -> (node: NodeInfo)
        requires
            old(self).wf(),
            pos.wf(),
            old(self).follows(pos@.board),
            1 <= depth <= 255,
            ply < MAX_PLY - 1,
            in_window(alpha as int, ply as int),
            in_window(beta as int, ply as int),
            in_check == pos@.in_check(),
            hint == table_move(old(self).tt@, hash(pos@)),
        ensures
            node.wf(),
            node.depth == depth,
            node.beta == beta,
            node.ply == ply,
            node.is_pv == is_pv,
            node.in_check == in_check,
            final(self).wf(),
            *final(self) == (Searcher {
                eval_stack: final(self).eval_stack,
                heard: final(self).heard,
                ..*old(self)
            }),
            final(self).mind() == tree::noted(old(self).mind(), node@),
            all_judged(final(self).net, final(self).heard@),
            tame(old(self).net, pos@.board) ==> in_check || -29_700 <= node.eval <= 29_700,
            is_pv ==> !node.prunable,
            forall|ev: Eval| #[trigger]
                agrees(ev, final(self).heard@) ==> agrees(ev, old(self).heard@) && node@
                    == tree::assess(
                    ev,
                    old(self).mind(),
                    pos@,
                    depth as int,
                    alpha as int,
                    beta as int,
                    ply as int,
                    is_pv,
                ),
    {
        let calm_window: bool = beta < MATE_IN_MAX && beta > -MATE_IN_MAX && alpha < MATE_IN_MAX
            && alpha > -MATE_IN_MAX;
        let prunable: bool = !is_pv && !in_check && calm_window;
        let eval: i32 = if in_check {
            NONE_EVAL
        } else {
            self.static_eval(pos)
        };
        let improving: bool = !in_check && ply >= 2 && self.eval_stack[ply - 2] != NONE_EVAL && eval
            > self.eval_stack[ply - 2];
        self.eval_stack[ply] = eval;
        let node = NodeInfo {
            depth,
            beta,
            ply,
            is_pv,
            in_check,
            prunable,
            eval,
            improving,
            hint,
        };
        assert(self.mind() =~= tree::noted(old(self).mind(), node@));
        node
    }

    /// Is the evaluation so far above beta that the position is taken to be won?
    fn is_overwhelming(node: &NodeInfo) -> (r: bool)
        requires
            node.wf(),
        ensures
            r == tree::overwhelming(node@),
    {
        reveal(tree::overwhelming);
        let rfp_depth: i32 = if node.improving {
            node.depth - 1
        } else {
            node.depth
        };
        node.prunable && node.depth <= 6 && node.eval - RFP_MARGIN * rfp_depth >= node.beta
    }

    /// Is passing tried before any move?
    fn may_pass(pos: &Position, node: &NodeInfo, can_null: bool) -> (r: bool)
        requires
            pos.wf(),
            node.wf(),
        ensures
            r == tree::tries_pass(pos@, node@, can_null),
    {
        reveal(tree::tries_pass);
        node.prunable && can_null && node.depth >= 3 && node.eval >= node.beta
            && has_non_pawn_material(pos)
    }

    /// The score that what the table holds for a position settles it with.
    fn settle(
        &self,
        entry: Option<TtEntry>,
        key: u64,
        depth: i32,
        alpha: i32,
        beta: i32,
        ply: usize,
    ) -> (r: Option<i32>)
        requires
            self.wf(),
            ply < MAX_PLY,
            entry == crate::tt::found(self.tt@, key),
        ensures
            match r {
                Some(s) => settled(
                    self.tt@,
                    key,
                    depth as int,
                    alpha as int,
                    beta as int,
                    ply as int,
                ) == Some(s as int) && in_range(s as int, ply as int) && ply > 0 && (modest(
                    self.tt@,
                ) ==> tight(s as int, ply as int)),
                None => settled(
                    self.tt@,
                    key,
                    depth as int,
                    alpha as int,
                    beta as int,
                    ply as int,
                ) is None,
            },
    {
        reveal(settled);
        reveal(modest);
        match entry {
            Some(e) => {
                proof {
                    let k = crate::tt::slot_of(key, self.tt@.len() as int);
                    assert(0 <= k < self.tt@.len());
                    assert(self.tt@[k] is Some);
                }
                if ply > 0 && e.depth as i32 >= depth {
                    let s: i32 = score_from_tt(e.score, ply);
                    match e.bound {
                        Bound::Exact => Some(s),
                        Bound::Lower => if s >= beta {
                            Some(s)
                        } else {
                            None
                        },
                        Bound::Upper => if s <= alpha {
                            Some(s)
                        } else {
                            None
                        },
                    }
                } else {
                    None
                }
            },
            None => None,
        }
    }

    /// Search a position `depth` plies deep within a window; the score is that of
    /// the player to move, and `pv` receives the expected line.
    #[verifier::rlimit(30)]
    pub fn negamax(
        &mut self,
        pos: &mut Position,
        depth: i32,
        alpha: i32,
        beta: i32,
        ply: usize,
        pv: &mut Vec<Move>,
        is_pv: bool,
        can_null: bool,
        stop: &Arc<AtomicBool>,
    ) -> (r: i32)
        requires
            old(self).wf(),
            old(pos).wf(),
            old(self).follows(old(pos)@.board),
            depth <= 254,
            in_window(alpha as int, ply as int),
            in_window(beta as int, ply as int),
        ensures
            final(self).keeps(old(self)),
            *final(pos) == *old(pos),
            final(self).stopped ==> r == 0,
            old(self).stopped ==> final(self).nodes == tick(old(self).nodes),
            !old(self).stopped && old(self).thrifty(0) ==> final(self).thrifty(
                at_least(2 * (MAX_PLY - ply), 0),
            ),
            in_range(r as int, at_most(ply as int, MAX_PLY as int)),
            tame(old(self).net, old(pos)@.board) && modest(old(self).tt@) ==> modest(final(self).tt@)
                && tight(r as int, at_most(ply as int, MAX_PLY as int)),
            playable(old(pos)@, final(pv)@),
            !final(self).stopped && ply == 0 && is_pv && depth >= 1 && alpha >= -INFINITY
                && legal_moves(old(pos)@).len() > 0 ==> (final(pv)@.len() > 0 <==> r > alpha),
            old(self).stopped ==> final(self).halted == old(self).halted && final(self).heard
                == old(self).heard,
            final(self).stopped && !old(self).stopped ==> final(self).called_off(
                stop,
                old(self).nodes,
            ),
            !old(self).stopped ==> forall|ev: Eval| #[trigger]
                agrees(ev, final(self).heard@) ==> agrees(ev, old(self).heard@)
                    && final(self).meets(
                    Reply { mind: final(self).mind(), score: r as int, pv: final(pv)@ },
                    nm(
                        ev,
                        old(self).mind(),
                        old(pos)@,
                        depth as int,
                        alpha as int,
                        beta as int,
                        ply as int,
                        is_pv,
                        can_null,
                    ),
                ),
        decreases MAX_PLY - ply, 4int,
    {
        proof {
            reveal_with_fuel(nm, 1);
            reveal_with_fuel(nm_open, 1);
        }
        let ghost m0 = self.mind();
        let ghost v = pos@;
        pv.clear();
        assert(pv@ =~= seq![]);
        self.visit(stop);
        if self.stopped {
            proof {
                if overrun(self.nodes, self.node_limit, 0) {
                    lemma_overrun(
                        self.nodes,
                        self.node_limit,
                        0,
                        at_least(2 * (MAX_PLY - ply), 0),
                    );
                }
                assert forall|ev: Eval| #[trigger] agrees(ev, self.heard@) implies tick(m0.nodes)
                    <= nm(
                    ev,
                    m0,
                    v,
                    depth as int,
                    alpha as int,
                    beta as int,
                    ply as int,
                    is_pv,
                    can_null,
                ).mind.nodes by {
                    tree::lemma_nm_grows(
                        ev,
                        m0,
                        v,
                        depth as int,
                        alpha as int,
                        beta as int,
                        ply as int,
                        is_pv,
                        can_null,
                    );
                }
            }
            return 0;
        }
        let ghost m1 = self.mind();
        assert(m1 =~= (Mind { nodes: tick(m0.nodes), ..m0 }));
        if ply > 0 {
            if pos.halfmove_clock() >= 100 {
                return DRAW_SCORE;
            }
            if self.is_repetition(pos) {
                return DRAW_SCORE;
            }
        }
        if ply >= MAX_PLY - 1 {
            return self.static_eval(pos);
        }
        let key: u64 = pos.key();
        let entry = self.tt.probe(key);
        if let Some(s) = self.settle(entry, key, depth, alpha, beta, ply) {
            return s;
        }
        let hint: Move = match entry {
            Some(e) => e.best_move,
            None => Move::none(),
        };
        let in_check = pos.in_check();
        let deeper: i32 = if in_check {
            depth + 1
        } else {
            depth
        };
        if deeper <= 0 {
            let s: i32 = self.quiescence(pos, alpha, beta, ply, stop);
            proof {
                if overrun(self.nodes, self.node_limit, 0) {
                    lemma_overrun(
                        self.nodes,
                        self.node_limit,
                        0,
                        at_least(2 * (MAX_PLY - ply), 0),
                    );
                }
            }
            return s;
        }
        self.open_node(pos, deeper, alpha, beta, ply, pv, is_pv, can_null, in_check, hint, stop)
    }

    /// Judge a position and perhaps try passing before its moves are searched.
    #[verifier::rlimit(30)]
    fn open_node(
        &mut self,
        pos: &mut Position,
        depth: i32,
        alpha: i32,
        beta: i32,
        ply: usize,
        pv: &mut Vec<Move>,
        is_pv: bool,
        can_null: bool,
        in_check: bool,
        hint: Move,
        stop: &Arc<AtomicBool>,
    ) -> (r: i32)
        requires
            old(self).wf(),
            old(pos).wf(),
            old(self).follows(old(pos)@.board),
            !old(self).stopped,
            1 <= depth <= 255,
            ply < MAX_PLY - 1,
            in_window(alpha as int, ply as int),
            in_window(beta as int, ply as int),
            in_check == old(pos)@.in_check(),
            hint == table_move(old(self).tt@, hash(old(pos)@)),
            old(pv)@.len() == 0,
        ensures
            final(self).keeps(old(self)),
            *final(pos) == *old(pos),
            final(self).stopped ==> r == 0,
            old(self).thrifty(0) ==> final(self).thrifty(
                2 * (MAX_PLY - ply),
            ),
            in_range(r as int, ply as int),
            tame(old(self).net, old(pos)@.board) && modest(old(self).tt@) ==> modest(final(self).tt@)
                && tight(r as int, ply as int),
            playable(old(pos)@, final(pv)@),
            !final(self).stopped && is_pv && alpha >= -INFINITY && legal_moves(old(pos)@).len() > 0
                ==> (final(pv)@.len() > 0 <==> r > alpha),
            final(self).stopped && !old(self).stopped ==> final(self).called_off(
                stop,
                old(self).nodes,
            ),
            !old(self).stopped ==> forall|ev: Eval| #[trigger]
                agrees(ev, final(self).heard@) ==> agrees(ev, old(self).heard@)
                    && final(self).meets(
                    Reply { mind: final(self).mind(), score: r as int, pv: final(pv)@ },
                    nm_open(
                        ev,
                        old(self).mind(),
                        old(pos)@,
                        depth as int,
                        alpha as int,
                        beta as int,
                        ply as int,
                        is_pv,
                        can_null,
                    ),
                ),
        decreases MAX_PLY - ply, 3int,
    {
        proof {
            reveal_with_fuel(nm_open, 1);
            reveal_with_fuel(nm, 1);
            reveal_with_fuel(nm_expand, 1);
            reveal(tree::overwhelming);
            reveal(tree::tries_pass);
        }
        let ghost m0 = self.mind();
        let ghost v = pos@;
        let node = self.judge(pos, depth, alpha, beta, ply, is_pv, in_check, hint);
        assert(pv@ =~= seq![]);
        if Self::is_overwhelming(&node) {
            return node.eval;
        }
        if Self::may_pass(pos, &node, can_null) {
            let r: i32 = 3 + depth / 3;
            let mut child_pv: Vec<Move> = Vec::new();
            self.push_null_accumulator(pos);
            let undo = pos.make_null_move();
            let s: i32 = -self.negamax(
                pos,
                depth - r - 1,
                -beta,
                -beta + 1,
                ply + 1,
                &mut child_pv,
                false,
                false,
                stop,
            );
            pos.undo_null_move(undo);
            self.pop_accumulator();
            assert(self.acc_stack@ =~= old(self).acc_stack@);
            if self.stopped {
                proof {
                    let slack: int = 2 * (MAX_PLY - ply);
                    if overrun(self.nodes, self.node_limit, slack - 2) {
                        lemma_overrun(self.nodes, self.node_limit, slack - 2, slack);
                    }
                    assert forall|ev: Eval| #[trigger] agrees(ev, self.heard@) implies agrees(
                        ev,
                        old(self).heard@,
                    ) && self.halted@ <= nm_open(
                        ev,
                        m0,
                        v,
                        depth as int,
                        alpha as int,
                        beta as int,
                        ply as int,
                        is_pv,
                        can_null,
                    ).mind.nodes by {
                        tree::lemma_open_grows(
                            ev,
                            m0,
                            v,
                            depth as int,
                            alpha as int,
                            beta as int,
                            ply as int,
                            is_pv,
                            can_null,
                        );
                    }
                }
                return 0;
            }
            if s >= beta {
                return beta;
            }
        }
        self.expand(pos, &node, alpha, pv, stop)
    }

    /// Search the moves of a position and remember the result.
    #[verifier::rlimit(30)]
    fn expand(
        &mut self,
        pos: &mut Position,
        node: &NodeInfo,
        alpha: i32,
        pv: &mut Vec<Move>,
        stop: &Arc<AtomicBool>,
    ) -> (r: i32)
        requires
            old(self).wf(),
            old(pos).wf(),
            old(self).follows(old(pos)@.board),
            !old(self).stopped,
            node.wf(),
            in_window(alpha as int, node.ply as int),
            node.in_check == old(pos)@.in_check(),
            old(pv)@.len() == 0,
        ensures
            final(self).keeps(old(self)),
            *final(pos) == *old(pos),
            final(self).stopped ==> r == 0,
            old(self).thrifty(0) ==> final(self).thrifty(
                2 * (MAX_PLY - node.ply),
            ),
            in_range(r as int, node.ply as int),
            tame(old(self).net, old(pos)@.board) && modest(old(self).tt@) ==> modest(final(self).tt@)
                && tight(r as int, node.ply as int),
            playable(old(pos)@, final(pv)@),
            !final(self).stopped && alpha >= -INFINITY && legal_moves(old(pos)@).len() > 0 ==> (
            final(pv)@.len() > 0 <==> r > alpha),
            final(self).stopped && !old(self).stopped ==> final(self).called_off(
                stop,
                old(self).nodes,
            ),
            !old(self).stopped ==> forall|ev: Eval| #[trigger]
                agrees(ev, final(self).heard@) ==> agrees(ev, old(self).heard@)
                    && final(self).meets(
                    Reply { mind: final(self).mind(), score: r as int, pv: final(pv)@ },
                    nm_expand(ev, old(self).mind(), old(pos)@, node@, alpha as int),
                ),
        decreases MAX_PLY - node.ply, 2int,
    {
        proof {
            reveal_with_fuel(nm_expand, 1);
            reveal_with_fuel(nm_moves, 1);
        }
        let ghost v = pos@;
        let ghost m3 = self.mind();
        let moves = generate_legal(pos);
        if moves.is_empty() {
            assert(pv@ =~= seq![]);
            return if node.in_check {
                -(MATE - node.ply as i32)
            } else {
                DRAW_SCORE
            };
        }
        let key: u64 = pos.key();
        let list = self.order_moves(pos, &moves, node.hint, node.ply);
        self.repetitions.push(key);
        let ghost m4 = self.mind();
        let ghost start = tree::untried(m3, v, node@, alpha as int);
        assert(m4 =~= start.mind);
        let (best, best_move): (i32, Move) = self.search_moves(pos, node, list, alpha, pv, stop);
        let _ = self.repetitions.pop();
        assert(self.repetitions@ =~= old(self).repetitions@);
        if self.stopped {
            proof {
                assert forall|ev: Eval| #[trigger] agrees(ev, self.heard@) implies agrees(
                    ev,
                    old(self).heard@,
                ) && self.halted@ <= nm_expand(ev, m3, v, node@, alpha as int).mind.nodes by {
                    tree::lemma_expand_grows(ev, m3, v, node@, alpha as int);
                }
            }
            return 0;
        }
        let bound = if best >= node.beta {
            Bound::Lower
        } else if best > alpha {
            Bound::Exact
        } else {
            Bound::Upper
        };
        let stored_score: i32 = score_to_tt(best, node.ply);
        let ghost tt5 = self.tt@;
        self.tt.store(key, best_move, stored_score, node.depth as i16, bound);
        let ghost entry = TtEntry {
            key,
            best_move,
            score: stored_score,
            depth: node.depth as i16,
            bound,
        };
        proof {
            lemma_store_bounds(tt5, entry);
            assert forall|ev: Eval| #[trigger] agrees(ev, self.heard@) implies agrees(
                ev,
                old(self).heard@,
            ) && (Reply { mind: self.mind(), score: best as int, pv: pv@ }) == nm_expand(
                ev,
                m3,
                v,
                node@,
                alpha as int,
            ) by {
                reveal(entry_of);
                let p = nm_moves(ev, v, node@, start, 0);
                assert(entry_of(key, p, node@, alpha as int) == entry);
                assert(p.mind.reps.drop_last() =~= self.repetitions@);
                assert(self.mind() =~= (Mind {
                    reps: p.mind.reps.drop_last(),
                    tt: stored(p.mind.tt, entry),
                    ..p.mind
                }));
            }
        }
        best
    }

    /// Search the ordered moves of a position until one refutes it or all are
    /// done.
    #[verifier::rlimit(30)]
    fn search_moves(
        &mut self,
        pos: &mut Position,
        node: &NodeInfo,
        ordered: Vec<(Move, i32)>,
        alpha: i32,
        pv: &mut Vec<Move>,
        stop: &Arc<AtomicBool>,
    ) -> (r: (i32, Move))
        requires
            old(self).wf(),
            old(pos).wf(),
            old(self).follows(old(pos)@.board),
            !old(self).stopped,
            node.wf(),
            in_window(alpha as int, node.ply as int),
            node.in_check == old(pos)@.in_check(),
            old(pv)@.len() == 0,
            all_legal(old(pos)@, ordered@),
            ordered@.len() > 0,
        ensures
            final(self).keeps(old(self)),
            *final(pos) == *old(pos),
            old(self).thrifty(0) ==> final(self).thrifty(
                2 * (MAX_PLY - node.ply),
            ),
            in_range(r.0 as int, node.ply as int),
            tame(old(self).net, old(pos)@.board) && modest(old(self).tt@) ==> modest(final(self).tt@)
                && tight(r.0 as int, node.ply as int),
            playable(old(pos)@, final(pv)@),
            !final(self).stopped && alpha >= -INFINITY ==> (final(pv)@.len() > 0 <==> r.0 > alpha),
            final(self).stopped && !old(self).stopped ==> final(self).called_off(
                stop,
                old(self).nodes,
            ),
            forall|ev: Eval| #[trigger]
                agrees(ev, final(self).heard@) ==> agrees(ev, old(self).heard@) && {
                    let p = nm_moves(
                        ev,
                        old(pos)@,
                        node@,
                        Progress {
                            mind: old(self).mind(),
                            list: ordered@,
                            alpha: alpha as int,
                            best: -INFINITY as int,
                            best_move: Move::null(),
                            pv: seq![],
                            quiets: seq![],
                        },
                        0,
                    );
                    if final(self).stopped {
                        final(self).halted@ <= p.mind.nodes
                    } else {
                        &&& p.mind == final(self).mind()
                        &&& p.best == r.0
                        &&& p.best_move == r.1
                        &&& p.pv == final(pv)@
                    }
                },
        decreases MAX_PLY - node.ply, 1int,
    {
        let ghost v = pos@;
        let ghost first = Progress {
            mind: self.mind(),
            list: ordered@,
            alpha: alpha as int,
            best: -INFINITY as int,
            best_move: Move::null(),
            pv: seq![],
            quiets: seq![],
        };
        let mut list = ordered;
        let mut low: i32 = alpha;
        let mut best: i32 = -INFINITY;
        let mut best_move = Move::none();
        let mut child_pv: Vec<Move> = Vec::new();
        let mut quiets: Vec<Move> = Vec::new();
        let mut i: usize = 0;
        assert(pv@ =~= seq![]);
        assert(quiets@ =~= seq![]);
        while i < list.len()
            invariant
                i <= list@.len(),
                self.keeps(old(self)),
                !self.stopped,
                old(self).thrifty(0) ==> self.thrifty(0),
                *pos == *old(pos),
                pos.wf(),
                v == pos@,
                self.follows(v.board),
                node.wf(),
                node.in_check == v.in_check(),
                all_legal(v, list@),
                in_window(low as int, node.ply as int),
                in_range(best as int, node.ply as int),
                list@.len() == ordered@.len(),
                ordered@.len() > 0,
                low >= alpha,
                i == 0 ==> best == -INFINITY,
                pv@.len() > 0 <==> low > alpha,
                alpha >= -INFINITY ==> best <= low && (low > alpha ==> best == low),
                tame(self.net, v.board) && modest(old(self).tt@) ==> modest(self.tt@) && (i > 0
                    ==> tight(best as int, node.ply as int)),
                playable(v, pv@),
                quiets@.len() <= 64,
                first == (Progress {
                    mind: old(self).mind(),
                    list: ordered@,
                    alpha: alpha as int,
                    best: -INFINITY as int,
                    best_move: Move::null(),
                    pv: seq![],
                    quiets: seq![],
                }),
                forall|j: int| 0 <= j < quiets@.len() ==> (#[trigger] quiets@[j]).wf(),
                forall|ev: Eval| #[trigger]
                    agrees(ev, self.heard@) ==> agrees(ev, old(self).heard@) && nm_moves(
                        ev,
                        v,
                        node@,
                        first,
                        0,
                    ) == nm_moves(
                        ev,
                        v,
                        node@,
                        Progress {
                            mind: self.mind(),
                            list: list@,
                            alpha: low as int,
                            best: best as int,
                            best_move,
                            pv: pv@,
                            quiets: quiets@,
                        },
                        i as int,
                    ),
            decreases list@.len() - i,
        {
            let ghost p0 = Progress {
                mind: self.mind(),
                list: list@,
                alpha: low as int,
                best: best as int,
                best_move,
                pv: pv@,
                quiets: quiets@,
            };
            select_best(&mut list, i);
            let m = list[i].0;
            assert(legal(v, list@[i as int].0));
            let quiet: bool = is_quiet(pos, m);
            let (k0, k1): (Move, Move) = self.killers[node.ply];
            let killer: bool = m == k0 || m == k1;
            if Self::is_hopeless_capture(pos, node, m, i, quiet) {
                proof {
                    lemma_skips(v, node@, p0, i as int);
                }
                i = i + 1;
                continue ;
            }
            self.push_accumulator(pos, m);
            let undo = pos.make_move(m);
            proof {
                if ordinary(v.board) {
                    lemma_ordinary(v, m);
                }
            }
            let gives_check = pos.in_check();
            let record: i32 = self.history[64 * m.from_sq().index() + m.to_sq().index()];
            if node.prunable && i > 0 && quiet && !killer && !gives_check && Self::is_late(
                node,
                i,
                record,
                low,
            ) {
                proof {
                    reveal(tree::hopeless_quiet);
                    lemma_skips(v, node@, p0, i as int);
                }
                pos.undo_move(m, undo);
                self.pop_accumulator();
                assert(self.acc_stack@ =~= old(self).acc_stack@);
                i = i + 1;
                continue ;
            }
            let red: i32 = if node.depth >= 3 && i >= 3 && quiet && !killer && !node.in_check
                && !gives_check {
                Self::reduce(node, i, record)
            } else {
                0
            };
            proof {
                reveal(tree::hopeless_quiet);
                reveal(reduction);
            }
            assert(red == reduction(p0.mind, v, node@, m, i as int));
            assert(!tree::hopeless_quiet(p0.mind, v, node@, m, i as int, low as int));
            let s: i32 = self.search_child(pos, node, i, low, red, &mut child_pv, stop);
            pos.undo_move(m, undo);
            self.pop_accumulator();
            assert(self.acc_stack@ =~= old(self).acc_stack@);
            if self.stopped {
                proof {
                    assert forall|ev: Eval| #[trigger] agrees(ev, self.heard@) implies agrees(
                        ev,
                        old(self).heard@,
                    ) && self.halted@ <= nm_moves(ev, v, node@, first, 0).mind.nodes by {
                        tree::lemma_moves_grow(ev, v, node@, p0, i as int);
                    }
                }
                return (0, best_move);
            }
            let ghost reply = Reply { mind: self.mind(), score: s as int, pv: child_pv@ };
            let ghost q = tree::after_move(v, node@, p0, list@, m, reply);
            let ghost next = tried(v, node@, q, m);
            proof {
                assert forall|ev: Eval| #[trigger] agrees(ev, self.heard@) implies agrees(
                    ev,
                    old(self).heard@,
                ) && nm_moves(ev, v, node@, first, 0) == (if q.alpha >= node.beta {
                    next
                } else {
                    nm_moves(ev, v, node@, next, i + 1)
                }) by {
                    tree::lemma_try(ev, v, node@, p0, i as int, reply);
                }
            }
            if s > best {
                best = s;
                best_move = m;
                if s > low {
                    low = s;
                    set_line(pv, m, &child_pv);
                    proof {
                        lemma_playable(v, m, child_pv@);
                    }
                }
            }
            assert(pv@ == q.pv && low == q.alpha && best == q.best && best_move == q.best_move);
            if low >= node.beta {
                if quiet {
                    self.learn(m, node.ply, node.depth, &quiets);
                }
                return (best, best_move);
            }
            if quiet && quiets.len() < 64 {
                quiets.push(m);
            }
            i = i + 1;
        }
        proof {
            reveal_with_fuel(nm_moves, 1);
        }
        (best, best_move)
    }

    /// Does a capture lose too much to be tried?
    fn is_hopeless_capture(pos: &Position, node: &NodeInfo, m: Move, i: usize, quiet: bool) -> (r:
        bool)
        requires
            pos.wf(),
            node.wf(),
            pseudo(pos@, m),
            quiet == !forcing(pos@, m),
        ensures
            r == tree::hopeless_capture(pos@, node@, m, i as int),
            r ==> i > 0,
    {
        reveal(tree::hopeless_capture);
        node.prunable && i > 0 && node.depth <= 6 && !quiet && m.move_type() != MoveType::Promotion
            && !see_ge(pos, m, -SEE_PRUNE_MARGIN * node.depth)
    }

    /// Does a quiet move come too late, have too poor a record, or fall too short
    /// of alpha to be tried?
    fn is_late(node: &NodeInfo, i: usize, record: i32, alpha: i32) -> (r: bool)
        requires
            node.wf(),
            node.prunable,
        ensures
            r == ((node.depth <= 6 && i >= move_limit(node.depth as int, node.improving)) || (
            node.depth <= 3 && record < -2000 * node.depth) || (node.depth <= 4 && node.eval + 100
                + 100 * node.depth <= alpha)),
    {
        if node.depth <= 6 {
            let base: usize = LMP[node.depth as usize];
            let limit: usize = if node.improving {
                base
            } else {
                (base + 1) / 2
            };
            if i >= limit {
                return true;
            }
        }
        if node.depth <= 3 && record < -2000 * node.depth {
            return true;
        }
        node.depth <= 4 && node.eval + 100 + 100 * node.depth <= alpha
    }

    /// By how many plies the search of a late quiet move is reduced.
    fn reduce(node: &NodeInfo, i: usize, record: i32) -> (r: i32)
        requires
            node.wf(),
            node.depth >= 3,
            -HISTORY_MAX <= record <= HISTORY_MAX,
        ensures
            r == bounded(
                log_product(node.depth as int, i as int) - quotient(record as int, 8192) + (
                if node.improving {
                    0int
                } else {
                    1
                }),
                1,
                node.depth - 2,
            ),
            1 <= r <= node.depth - 2,
    {
        let mut r: i32 = log_reduction(node.depth, i) - divide_trunc(record, 8192);
        if !node.improving {
            r = r + 1;
        }
        if r < 1 {
            1
        } else if r > node.depth - 2 {
            node.depth - 2
        } else {
            r
        }
    }

    /// Search the position after a move; the score is that of the mover.
    #[verifier::rlimit(30)]
    fn search_child(
        &mut self,
        pos: &mut Position,
        node: &NodeInfo,
        i: usize,
        alpha: i32,
        red: i32,
        child_pv: &mut Vec<Move>,
        stop: &Arc<AtomicBool>,
    ) -> (r: i32)
        requires
            old(self).wf(),
            old(pos).wf(),
            old(self).follows(old(pos)@.board),
            !old(self).stopped,
            node.wf(),
            in_window(alpha as int, node.ply as int),
            0 <= red,
            red == 0 || red <= node.depth - 2,
        ensures
            final(self).keeps(old(self)),
            *final(pos) == *old(pos),
            old(self).thrifty(0) ==> final(self).thrifty(
                2 * (MAX_PLY - node.ply),
            ),
            in_range(r as int, node.ply as int),
            tame(old(self).net, old(pos)@.board) && modest(old(self).tt@) ==> modest(final(self).tt@)
                && tight(r as int, node.ply as int),
            playable(old(pos)@, final(child_pv)@),
            final(self).stopped && !old(self).stopped ==> final(self).called_off(
                stop,
                old(self).nodes,
            ),
            !old(self).stopped ==> forall|ev: Eval| #[trigger]
                agrees(ev, final(self).heard@) ==> agrees(ev, old(self).heard@)
                    && final(self).meets(
                    Reply { mind: final(self).mind(), score: r as int, pv: final(child_pv)@ },
                    nm_child(
                        ev,
                        old(self).mind(),
                        old(pos)@,
                        node@,
                        i as int,
                        alpha as int,
                        red as int,
                    ),
                ),
        decreases MAX_PLY - node.ply, 0int,
    {
        proof {
            reveal_with_fuel(nm_child, 1);
            reveal_with_fuel(nm, 1);
        }
        let ghost m0 = self.mind();
        let ghost w = pos@;
        let ply: usize = node.ply + 1;
        let d: i32 = node.depth - 1;
        let ghost slack: int = 2 * (MAX_PLY - ply);
        if i == 0 {
            let s: i32 = -self.negamax(
                pos,
                d,
                -node.beta,
                -alpha,
                ply,
                child_pv,
                node.is_pv,
                true,
                stop,
            );
            proof {
                if overrun(self.nodes, self.node_limit, slack) {
                    lemma_overrun(self.nodes, self.node_limit, slack, slack + 2);
                }
            }
            return s;
        }
        let mut s: i32 = -self.negamax(
            pos,
            d - red,
            -alpha - 1,
            -alpha,
            ply,
            child_pv,
            false,
            true,
            stop,
        );
        proof {
            if overrun(self.nodes, self.node_limit, slack) {
                lemma_overrun(self.nodes, self.node_limit, slack, slack);
            }
            assert forall|ev: Eval| #[trigger] agrees(ev, self.heard@) implies agrees(
                ev,
                old(self).heard@,
            ) && (self.stopped ==> self.halted@ <= nm_child(
                ev,
                m0,
                w,
                node@,
                i as int,
                alpha as int,
                red as int,
            ).mind.nodes) by {
                tree::lemma_child_grows(
                    ev,
                    m0,
                    w,
                    node@,
                    i as int,
                    alpha as int,
                    red as int,
                );
            }
        }
        let ghost first = *self;
        if red > 0 && s > alpha {
            s = -self.negamax(pos, d, -alpha - 1, -alpha, ply, child_pv, false, true, stop);
        }
        proof {
            if overrun(self.nodes, self.node_limit, slack) {
                lemma_overrun(self.nodes, self.node_limit, slack, slack + 1);
            }
            if overrun(self.nodes, self.node_limit, slack + 1) {
                lemma_overrun(self.nodes, self.node_limit, slack + 1, slack + 1);
            }
            assert forall|ev: Eval| #[trigger] agrees(ev, self.heard@) implies agrees(
                ev,
                first.heard@,
            ) && (self.stopped ==> self.halted@ <= nm_child(
                ev,
                m0,
                w,
                node@,
                i as int,
                alpha as int,
                red as int,
            ).mind.nodes) by {
                tree::lemma_child_grows(
                    ev,
                    m0,
                    w,
                    node@,
                    i as int,
                    alpha as int,
                    red as int,
                );
            }
        }
        let ghost second = *self;
        if s > alpha && s < node.beta {
            s = -self.negamax(
                pos,
                d,
                -node.beta,
                -alpha,
                ply,
                child_pv,
                node.is_pv,
                true,
                stop,
            );
        }
        proof {
            if overrun(self.nodes, self.node_limit, slack) {
                lemma_overrun(self.nodes, self.node_limit, slack, slack + 2);
            }
            if overrun(self.nodes, self.node_limit, slack + 1) {
                lemma_overrun(self.nodes, self.node_limit, slack + 1, slack + 2);
            }
            assert forall|ev: Eval| #[trigger] agrees(ev, self.heard@) implies agrees(
                ev,
                second.heard@,
            ) && self.meets(
                Reply { mind: self.mind(), score: s as int, pv: child_pv@ },
                nm_child(ev, m0, w, node@, i as int, alpha as int, red as int),
            ) by {
                assert(agrees(ev, second.heard@));
                assert(agrees(ev, first.heard@));
            }
        }
        s
    }
}

// ---------------------------------------------------------------------------
// Iterative deepening.
// ---------------------------------------------------------------------------

/// A search under way: the root, how far it has come, and the best so far.
pub struct Quest {
    pub pos: Position,
    /// The deepest iteration to run.
    pub max_depth: u32,
    /// No further iteration is to be run.
    pub done: bool,
    pub best: SearchResult,
    /// What was in mind when the search began.
    pub origin: Ghost<Mind>,
}

/// The milliseconds are the budget that the limits give a player.
pub open spec fn budget_is(ms: Option<u64>, limits: SearchLimits, side: crate::types::Color) -> bool {
    match ms {
        Some(n) => limits.budget(side) == Some(n as int),
        None => limits.budget(side) is None,
    }
}

/// What a search has found, and how it went.
pub struct Found {
    pub best_move: Move,
    pub score: int,
    /// The completed iterations.
    pub depth: nat,
    pub pv: Seq<Move>,
    pub nodes: u64,
    /// What is in mind after the search.
    pub mind: Mind,
    /// The positions that were judged.
    pub heard: Seq<Judged>,
    /// The search was called off.
    pub stopped: bool,
    /// The node count of the look at which it was called off.
    pub halted: u64,
    pub start: std::time::Instant,
    pub budget_ms: Option<u64>,
}

/// The outcome of a search by an evaluation: that of its completed iterations.  A
/// search that was called off had come to the iteration after them at most.
pub open spec fn outcome_is(ev: Eval, mind: Mind, v: PosView, f: Found) -> bool {
    let o = tree::deepened(ev, fresh(mind), v, f.depth);
    &&& f.best_move == o.best_move
    &&& f.score == o.score
    &&& f.pv == o.pv
    &&& tree::undecided(ev, fresh(mind), v, f.depth)
    &&& !f.stopped ==> f.mind == o.mind
    &&& f.stopped ==> f.halted <= tree::deepened(ev, fresh(mind), v, f.depth + 1).mind.nodes
}

/// A search of the position `v`, which has a legal move, may find `f`: with what was
/// in mind before, under the limits, and with positions judged by the network or,
/// without one, by hand.
pub open spec fn finds<N: Network>(
    net: Option<N>,
    mind: Mind,
    v: PosView,
    limits: SearchLimits,
    stop: &Arc<AtomicBool>,
    f: Found,
) -> bool {
    &&& legal(v, f.best_move)
    &&& playable(v, f.pv)
    &&& f.pv.len() > 0 ==> f.pv[0] == f.best_move
    &&& f.depth <= depth_cap(&limits)
    &&& f.depth == depth_cap(&limits) || is_mate(f.score) || f.stopped
    &&& all_judged(net, f.heard)
    &&& forall|ev: Eval| #[trigger] agrees(ev, f.heard) ==> outcome_is(ev, mind, v, f)
    &&& tame(net, v.board) && modest(mind.tt) ==> modest(f.mind.tt) && -MATE <= f.score <= MATE
        && (f.depth > 0 ==> f.pv.len() > 0)
    &&& f.nodes == f.mind.nodes
    &&& was_now(f.start)
    &&& budget_is(f.budget_ms, limits, v.side)
    &&& f.stopped ==> {
        &&& f.halted <= f.nodes
        &&& f.depth == 0 ==> f.halted > 0 && f.halted % 2048 == 0
        &&& a_look(f.start, f.budget_ms, f.halted, limits.nodes, stop, true)
    }
}

/// The line reports the outcome of the iterations so far, with the time on the clock
/// of the search.  A node count that cannot be scaled to seconds is reported as the
/// largest that can.
pub closed spec fn told(
    line: Seq<char>,
    start: std::time::Instant,
    depth: int,
    o: tree::Outcome,
) -> bool {
    exists|ms: u64| #[trigger]
        call_ensures(clock::millis_since, (&start,), ms) && line == info_text(
            depth,
            o.score,
            at_most(o.mind.nodes as int, u64::MAX as int / 1000),
            ms as int,
            o.pv,
        )
}

/// Behind the reports in `before` there is one for each completed iteration.
pub open spec fn all_told(
    ev: Eval,
    mind: Mind,
    v: PosView,
    start: std::time::Instant,
    before: Seq<String>,
    after: Seq<String>,
    depth: nat,
) -> bool {
    &&& after.len() == before.len() + depth
    &&& forall|i: int| 0 <= i < before.len() ==> #[trigger] after[i] == before[i]
    &&& forall|d: int|
        1 <= d <= depth ==> told(
            #[trigger] after[before.len() + d - 1]@,
            start,
            d,
            tree::deepened(ev, fresh(mind), v, d as nat),
        )
}

/// One more iteration is reported.
proof fn lemma_told_more(
    ev: Eval,
    mind: Mind,
    v: PosView,
    start: std::time::Instant,
    before: Seq<String>,
    lines: Seq<String>,
    depth: nat,
    after: Seq<String>,
)
    requires
        all_told(ev, mind, v, start, before, lines, depth),
        after.len() == lines.len() + 1,
        after.drop_last() == lines,
        told(
            after.last()@,
            start,
            depth as int + 1,
            tree::deepened(ev, fresh(mind), v, depth + 1),
        ),
    ensures
        all_told(ev, mind, v, start, before, after, depth + 1),
{
    assert forall|i: int| 0 <= i < before.len() implies #[trigger] after[i] == before[i] by {
        assert(lines[i] == before[i]);
    }
    assert forall|d: int| 1 <= d <= depth + 1 implies told(
        #[trigger] after[before.len() + d - 1]@,
        start,
        d,
        tree::deepened(ev, fresh(mind), v, d as nat),
    ) by {
        if d <= depth {
            assert(after[before.len() + d - 1] == lines[before.len() + d - 1]);
        }
    }
}

/// The moves of a line that can be played are moves between squares of the board.
proof fn lemma_playable_wf(v: PosView, pv: Seq<Move>)
    requires
        playable(v, pv),
    ensures
        forall|i: int| 0 <= i < pv.len() ==> (#[trigger] pv[i]).wf(),
    decreases pv.len(),
{
    if pv.len() > 0 {
        lemma_playable_wf(apply(v, pv[0]), pv.skip(1));
        assert forall|i: int| 0 <= i < pv.len() implies (#[trigger] pv[i]).wf() by {
            if i > 0 {
                assert(pv[i] == pv.skip(1)[i - 1]);
            }
        }
    }
}

/// The instant was the present one when the clock was read.
pub closed spec fn was_now(start: std::time::Instant) -> bool {
    call_ensures(clock::now, (), start)
}

/// The stop flag may be read as set.
pub closed spec fn may_be_set(stop: &Arc<AtomicBool>) -> bool {
    call_ensures(is_set, (stop,), true)
}

/// Two searches of one position with the same things in mind, under the same limit
/// on the depth and without a network, find the same unless they are called off.
pub proof fn law_equal_searches_agree<N: Network>(
    mind: Mind,
    v: PosView,
    one: SearchLimits,
    two: SearchLimits,
    stop: &Arc<AtomicBool>,
    other_stop: &Arc<AtomicBool>,
    f: Found,
    g: Found,
)
    requires
        depth_cap(&one) == depth_cap(&two),
        finds(None::<N>, mind, v, one, stop, f),
        finds(None::<N>, mind, v, two, other_stop, g),
        !f.stopped,
        !g.stopped,
    ensures
        f.best_move == g.best_move,
        f.score == g.score,
        f.depth == g.depth,
        f.nodes == g.nodes,
        f.pv == g.pv,
        f.mind == g.mind,
{
    let ev = tree::by_hand();
    lemma_judged_by_hand::<N>(f.heard);
    lemma_judged_by_hand::<N>(g.heard);
    assert(outcome_is(ev, mind, v, f));
    assert(outcome_is(ev, mind, v, g));
    assert(tree::deepened(ev, fresh(mind), v, 0).score == 0);
    if f.depth < g.depth {
        assert(is_mate(tree::deepened(ev, fresh(mind), v, f.depth).score));
    }
    if g.depth < f.depth {
        assert(is_mate(tree::deepened(ev, fresh(mind), v, g.depth).score));
    }
}

/// A search that was called off has found what a search finds whose limit is the
/// depth that it reached.
pub proof fn law_called_off_searches_are_shorter_searches<N: Network>(
    mind: Mind,
    v: PosView,
    limits: SearchLimits,
    shorter: SearchLimits,
    stop: &Arc<AtomicBool>,
    other_stop: &Arc<AtomicBool>,
    f: Found,
    g: Found,
)
    requires
        finds(None::<N>, mind, v, limits, stop, f),
        finds(None::<N>, mind, v, shorter, other_stop, g),
        depth_cap(&shorter) == f.depth,
        !g.stopped,
    ensures
        f.best_move == g.best_move,
        f.score == g.score,
        f.depth == g.depth,
        f.pv == g.pv,
{
    let ev = tree::by_hand();
    lemma_judged_by_hand::<N>(f.heard);
    lemma_judged_by_hand::<N>(g.heard);
    assert(outcome_is(ev, mind, v, f));
    assert(outcome_is(ev, mind, v, g));
    assert(tree::deepened(ev, fresh(mind), v, 0).score == 0);
    if g.depth < f.depth {
        assert(is_mate(tree::deepened(ev, fresh(mind), v, g.depth).score));
    }
}

/// A search that is limited by its depth alone, and is not told to stop, reaches
/// that depth unless it finds a mate.
pub proof fn law_depth_limits_are_reached<N: Network>(
    net: Option<N>,
    mind: Mind,
    v: PosView,
    limits: SearchLimits,
    stop: &Arc<AtomicBool>,
    f: Found,
)
    requires
        finds(net, mind, v, limits, stop, f),
        limits.nodes is None,
        limits.budget(v.side) is None,
        !may_be_set(stop),
    ensures
        !f.stopped,
        f.depth == depth_cap(&limits) || is_mate(f.score),
{
}

/// Two searches of one position with the same things in mind, both limited by the same
/// depth alone and neither told to stop, find the same without a network.
pub proof fn law_depth_limited_searches_agree<N: Network>(
    mind: Mind,
    v: PosView,
    limits: SearchLimits,
    stop: &Arc<AtomicBool>,
    other_stop: &Arc<AtomicBool>,
    f: Found,
    g: Found,
)
    requires
        finds(None::<N>, mind, v, limits, stop, f),
        finds(None::<N>, mind, v, limits, other_stop, g),
        limits.nodes is None,
        limits.budget(v.side) is None,
        !may_be_set(stop),
        !may_be_set(other_stop),
    ensures
        f.best_move == g.best_move,
        f.score == g.score,
        f.depth == g.depth,
        f.nodes == g.nodes,
        f.pv == g.pv,
{
    law_depth_limits_are_reached(None::<N>, mind, v, limits, stop, f);
    law_depth_limits_are_reached(None::<N>, mind, v, limits, other_stop, g);
    law_equal_searches_agree::<N>(mind, v, limits, limits, stop, other_stop, f, g);
}

/// A search whose first iteration takes fewer nodes than there are between two looks
/// at the limits completes that iteration, whatever the limits say.
pub proof fn law_short_iterations_are_completed<N: Network>(
    net: Option<N>,
    mind: Mind,
    v: PosView,
    limits: SearchLimits,
    stop: &Arc<AtomicBool>,
    f: Found,
    ev: Eval,
)
    requires
        finds(net, mind, v, limits, stop, f),
        depth_cap(&limits) > 0,
        agrees(ev, f.heard),
        tree::deepened(ev, fresh(mind), v, 1).mind.nodes < 2048,
    ensures
        f.depth > 0,
{
    assert(outcome_is(ev, mind, v, f));
    assert(tree::deepened(ev, fresh(mind), v, 0).score == 0);
}

/// Search number `i` of several, each with what the one before left in mind.
#[verifier::opaque]
pub open spec fn in_a_row<N: Network>(
    net: Option<N>,
    mind: Mind,
    roots: Seq<PosView>,
    limits: Seq<SearchLimits>,
    stop: &Arc<AtomicBool>,
    found: Seq<Found>,
    i: int,
) -> bool {
    finds(net, mind_before(mind, found, i), roots[i], limits[i], stop, found[i])
}

/// A completed iteration gives a line, and a table without a score beyond a mate
/// stays so.
proof fn lemma_found_line<N: Network>(
    net: Option<N>,
    mind: Mind,
    roots: Seq<PosView>,
    limits: Seq<SearchLimits>,
    stop: &Arc<AtomicBool>,
    found: Seq<Found>,
    i: int,
)
    requires
        in_a_row(net, mind, roots, limits, stop, found, i),
        tame(net, roots[i].board),
        modest(mind_before(mind, found, i).tt),
    ensures
        found[i].depth > 0 ==> found[i].pv.len() > 0,
        -MATE <= found[i].score <= MATE,
        modest(found[i].mind.tt),
{
    reveal(in_a_row);
}

/// Searches one after another, each with what the one before left in mind, all give a
/// line once they have completed an iteration, and no score beyond a mate: this holds
/// from a table without such a score on, called off or not.
pub proof fn law_searches_in_a_row_give_lines<N: Network>(
    net: Option<N>,
    mind: Mind,
    roots: Seq<PosView>,
    limits: Seq<SearchLimits>,
    stop: &Arc<AtomicBool>,
    found: Seq<Found>,
    n: int,
)
    requires
        modest(mind.tt),
        forall|i: int| 0 <= i <= n ==> tame(net, (#[trigger] roots[i]).board),
        forall|i: int|
            0 <= i <= n ==> #[trigger] in_a_row(net, mind, roots, limits, stop, found, i),
        0 <= n,
    ensures
        found[n].depth > 0 ==> found[n].pv.len() > 0,
        -MATE <= found[n].score <= MATE,
        modest(found[n].mind.tt),
    decreases n,
{
    if n > 0 {
        law_searches_in_a_row_give_lines(net, mind, roots, limits, stop, found, n - 1);
    }
    assert(tame(net, roots[n].board));
    assert(in_a_row(net, mind, roots, limits, stop, found, n));
    lemma_found_line(net, mind, roots, limits, stop, found, n);
}

/// What is in mind before search number `i` of several.
pub open spec fn mind_before(mind: Mind, found: Seq<Found>, i: int) -> Mind {
    if i <= 0 {
        mind
    } else {
        found[i - 1].mind
    }
}

/// A search runs as many iterations as the limit on the depth says, but no more than there
/// are plies in the longest line.
pub proof fn law_depth_limits(l: SearchLimits)
    ensures
        l.depth is None ==> depth_cap(&l) == 128,
        l.depth is Some && l.depth->0 <= 128 ==> depth_cap(&l) == l.depth->0,
        l.depth is Some && l.depth->0 > 128 ==> depth_cap(&l) == 128,
{
}

/// What a search finds is the outcome of its last completed iteration: of as many as it
/// reports, with what was in mind before, by every evaluation that agrees with what was
/// heard.
pub proof fn law_searches_find_their_last_iteration<N: Network>(
    net: Option<N>,
    mind: Mind,
    v: PosView,
    limits: SearchLimits,
    stop: &Arc<AtomicBool>,
    f: Found,
    ev: Eval,
)
    requires
        finds(net, mind, v, limits, stop, f),
        agrees(ev, f.heard),
    ensures
        f.score == tree::deepened(ev, fresh(mind), v, f.depth).score,
        f.pv == tree::deepened(ev, fresh(mind), v, f.depth).pv,
        f.best_move == tree::deepened(ev, fresh(mind), v, f.depth).best_move,
        !f.stopped ==> f.mind == tree::deepened(ev, fresh(mind), v, f.depth).mind,
        legal(v, f.best_move),
        f.pv.len() > 0 ==> f.pv[0] == f.best_move,
        !f.stopped ==> f.depth == depth_cap(&limits) || is_mate(f.score),
{
    assert(outcome_is(ev, mind, v, f));
}

/// A search spends the time that its limits give the player to move, and no other time.
pub proof fn law_searches_spend_the_own_time<N: Network>(
    net: Option<N>,
    mind: Mind,
    v: PosView,
    limits: SearchLimits,
    stop: &Arc<AtomicBool>,
    f: Found,
)
    requires
        finds(net, mind, v, limits, stop, f),
    ensures
        f.budget_ms is Some <==> limits.budget(v.side) is Some,
        f.budget_ms is Some ==> limits.budget(v.side)->0 == f.budget_ms->0,
        v.side == crate::types::Color::White && limits.movetime_ms is None && limits.wtime is None
            ==> f.budget_ms is None,
        v.side == crate::types::Color::Black && limits.movetime_ms is None && limits.btime is None
            ==> f.budget_ms is None,
{
}

/// A search that has only a limit on nodes, and that nobody stops, is called off only once
/// it has visited as many.
pub proof fn law_node_limits_are_used<N: Network>(
    net: Option<N>,
    mind: Mind,
    v: PosView,
    limits: SearchLimits,
    stop: &Arc<AtomicBool>,
    f: Found,
)
    requires
        finds(net, mind, v, limits, stop, f),
        limits.nodes is Some,
        limits.budget(v.side) is None,
        !may_be_set(stop),
        f.stopped,
    ensures
        limits.nodes->0 <= f.halted <= f.nodes,
{
}

/// A cleared mind has no killers, no records and no line.
pub proof fn law_cleared_minds_are_blank(tt: Seq<Option<TtEntry>>, i: int)
    ensures
        0 <= i < 4096 ==> blank_mind(tt).history[i] == 0,
        0 <= i < 128 ==> blank_mind(tt).killers[i] == (Move::null(), Move::null()),
        0 <= i < 128 ==> blank_mind(tt).evals[i] == 0,
        blank_mind(tt).history.len() == 4096,
        blank_mind(tt).reps.len() == 0,
        blank_mind(tt).tt == tt,
{
}

/// A search builds on what earlier ones have learned, and starts its own line and counts.
pub proof fn law_searches_build_on_earlier_ones(mind: Mind)
    ensures
        fresh(mind).tt == mind.tt,
        fresh(mind).killers == mind.killers,
        fresh(mind).history == mind.history,
        fresh(mind).reps.len() == 0,
        fresh(mind).nodes == 0,
{
}

/// With a network, a position is worth what the network makes of it for the player to move,
/// from hidden vectors of its board, within a hundred pawns.
pub proof fn law_networks_judge<N: Network>(n: N, j: Judged)
    requires
        judged_by(Some(n), j),
    ensures
        exists|a: Accumulator<N>, out: i32| #[trigger]
            call_ensures(N::output, (&n, &a.hidden, j.v.side), out) && a.describes(&n, j.v.board)
                && (-10_000 <= out <= 10_000 ==> j.value == out) && (out > 10_000 ==> j.value
                == 10_000) && (out < -10_000 ==> j.value == -10_000),
{
    reveal(judged_by);
}

/// Without a network a position is worth its hand-crafted evaluation.
pub proof fn law_hands_judge<N: Network>(j: Judged)
    requires
        judged_by(None::<N>, j),
    ensures
        j.value == score(j.v),
{
    reveal(judged_by);
}

/// More iterations visit more nodes.
proof fn lemma_deepened_grows(ev: Eval, mind: Mind, v: PosView, d: nat)
    ensures
        tree::deepened(ev, mind, v, d + 1).mind.nodes >= tree::deepened(ev, mind, v, d).mind.nodes,
{
    let o = tree::deepened(ev, mind, v, d);
    assert((d + 1 - 1) as nat == d);
    assert(tree::deepened(ev, mind, v, d + 1) == tree::deepened_once(ev, o, v, d + 1));
    tree::lemma_nm_grows(
        ev,
        o.mind,
        v,
        d as int + 1,
        -INFINITY as int,
        INFINITY as int,
        0,
        true,
        true,
    );
    tree::lemma_widening_grows(
        ev,
        o.mind,
        v,
        d as int + 1,
        at_least(o.score - 25, -INFINITY as int),
        at_most(o.score + 25, INFINITY as int),
        25,
    );
}

/// The deepest iteration that limits allow.
pub open spec fn depth_cap(limits: &SearchLimits) -> u32 {
    match limits.depth {
        Some(d) => if d < MAX_PLY {
            d
        } else {
            MAX_PLY as u32
        },
        None => MAX_PLY as u32,
    }
}

impl Quest {
    /// The quest agrees with what the searcher has in mind.
    pub open spec fn wf<N: Network>(&self, s: &Searcher<N>) -> bool {
        &&& self.pos.wf()
        &&& s.wf()
        &&& s.repetitions@.len() == 0
        &&& all_judged(s.net, s.heard@)
        &&& self.max_depth <= MAX_PLY
        &&& self.best.depth <= self.max_depth
        &&& -SCORE_LIMIT <= self.best.score <= SCORE_LIMIT
        &&& !self.done ==> self.best.depth < self.max_depth && !s.stopped && s.follows(
            self.pos@.board,
        ) && !is_mate(self.best.score as int)
        &&& legal_moves(self.pos@).len() > 0 ==> {
            &&& legal(self.pos@, self.best.best_move)
            &&& playable(self.pos@, self.best.pv@)
            &&& self.best.pv@.len() > 0 ==> self.best.pv@[0] == self.best.best_move
            &&& forall|ev: Eval| #[trigger] agrees(ev, s.heard@) ==> self.attained(s, ev)
            &&& tame(s.net, self.pos@.board) && modest(self.origin@.tt) ==> modest(s.tt@) && -MATE
                <= self.best.score <= MATE && (self.best.depth > 0 ==> self.best.pv@.len() > 0)
            &&& self.done ==> self.best.depth == self.max_depth || is_mate(
                self.best.score as int,
            ) || s.stopped
        }
        &&& legal_moves(self.pos@).len() == 0 ==> {
            &&& self.done
            &&& self.best.best_move == Move::null()
            &&& self.best.score == (if self.pos@.in_check() {
                -MATE as int
            } else {
                0
            })
            &&& self.best.depth == 0
            &&& self.best.pv@.len() == 0
        }
    }

    /// The best so far is the outcome of the completed iterations, by this evaluation;
    /// a search that is stopped was called off in the next iteration, at the latest.
    pub open spec fn attained<N: Network>(&self, s: &Searcher<N>, ev: Eval) -> bool {
        let d = self.best.depth as nat;
        &&& self.reached(tree::deepened(ev, self.origin@, self.pos@, d))
        &&& tree::undecided(ev, self.origin@, self.pos@, d)
        &&& !s.stopped ==> tree::deepened(ev, self.origin@, self.pos@, d).mind == s.mind()
        &&& s.stopped ==> s.halted@ <= tree::deepened(ev, self.origin@, self.pos@, d + 1).mind.nodes
    }

    /// The best so far is the given outcome.
    pub open spec fn reached(&self, o: tree::Outcome) -> bool {
        &&& self.best.best_move == o.best_move
        &&& self.best.score == o.score
        &&& self.best.pv@ == o.pv
    }
}

impl<N: Network> Searcher<N> {
    /// Run one iteration within a narrow window around the previous score, and
    /// widen the window until the score lies inside.
    #[verifier::rlimit(30)]
    pub fn aspiration_search(
        &mut self,
        pos: &mut Position,
        depth: i32,
        prev_score: i32,
        pv: &mut Vec<Move>,
        stop: &Arc<AtomicBool>,
    ) -> (r: i32)
        requires
            old(self).wf(),
            old(pos).wf(),
            old(self).follows(old(pos)@.board),
            !old(self).stopped,
            1 <= depth <= 254,
            i32::MIN < prev_score,
        ensures
            final(self).keeps(old(self)),
            *final(pos) == *old(pos),
            old(self).thrifty(0) ==> final(self).thrifty(2 * MAX_PLY),
            in_range(r as int, 0),
            tame(old(self).net, old(pos)@.board) && modest(old(self).tt@) ==> modest(final(self).tt@)
                && tight(r as int, 0),
            playable(old(pos)@, final(pv)@),
            tame(old(self).net, old(pos)@.board) && modest(old(self).tt@) && legal_moves(old(pos)@).len() > 0
                && !final(self).stopped ==> final(pv)@.len() > 0 && -INFINITY < r < INFINITY,
            final(self).stopped && !old(self).stopped ==> final(self).called_off(
                stop,
                old(self).nodes,
            ),
            !old(self).stopped ==> forall|ev: Eval| #[trigger]
                agrees(ev, final(self).heard@) ==> agrees(ev, old(self).heard@)
                    && final(self).meets(
                    Reply { mind: final(self).mind(), score: r as int, pv: final(pv)@ },
                    tree::aspiration(
                        ev,
                        old(self).mind(),
                        old(pos)@,
                        depth as int,
                        prev_score as int,
                    ),
                ),
    {
        let ghost v = pos@;
        let ghost m0 = self.mind();
        if depth < 5 || is_mate_score(prev_score) {
            return self.negamax(pos, depth, -INFINITY, INFINITY, 0, pv, true, true, stop);
        }
        let mut delta: i32 = 25;
        let mut alpha: i32 = if prev_score - delta < -INFINITY {
            -INFINITY
        } else {
            prev_score - delta
        };
        let mut beta: i32 = if prev_score + delta > INFINITY {
            INFINITY
        } else {
            prev_score + delta
        };
        let ghost first_alpha = alpha as int;
        let ghost first_beta = beta as int;
        loop
            invariant
                self.keeps(old(self)),
                !self.stopped,
                old(self).thrifty(0) ==> self.thrifty(0),
                m0 == old(self).mind(),
                tame(self.net, v.board) && modest(old(self).tt@) ==> modest(self.tt@),
                *pos == *old(pos),
                pos.wf(),
                v == pos@,
                self.follows(v.board),
                5 <= depth <= 254,
                !is_mate(prev_score as int),
                first_alpha == at_least(prev_score - 25, -INFINITY as int),
                first_beta == at_most(prev_score + 25, INFINITY as int),
                -INFINITY <= alpha <= INFINITY,
                -INFINITY <= beta <= INFINITY,
                25 <= delta <= 1000,
                delta > 600 ==> alpha == -INFINITY && beta == INFINITY,
                forall|ev: Eval| #[trigger]
                    agrees(ev, self.heard@) ==> agrees(ev, old(self).heard@) && tree::widening(
                        ev,
                        m0,
                        v,
                        depth as int,
                        first_alpha,
                        first_beta,
                        25,
                    ) == tree::widening(
                        ev,
                        self.mind(),
                        v,
                        depth as int,
                        alpha as int,
                        beta as int,
                        delta as int,
                    ),
            decreases 2000 - delta,
        {
            proof {
                reveal_with_fuel(tree::widening, 1);
            }
            let ghost m1 = self.mind();
            let s: i32 = self.negamax(pos, depth, alpha, beta, 0, pv, true, true, stop);
            if self.stopped {
                proof {
                    assert forall|ev: Eval| #[trigger] agrees(ev, self.heard@) implies agrees(
                        ev,
                        old(self).heard@,
                    ) && self.halted@ <= tree::aspiration(
                        ev,
                        m0,
                        v,
                        depth as int,
                        prev_score as int,
                    ).mind.nodes by {
                        tree::lemma_widening_grows(
                            ev,
                            m1,
                            v,
                            depth as int,
                            alpha as int,
                            beta as int,
                            delta as int,
                        );
                    }
                }
                return s;
            }
            if is_mate_score(s) {
                return self.negamax(pos, depth, -INFINITY, INFINITY, 0, pv, true, true, stop);
            }
            if s <= alpha {
                beta = divide_trunc(alpha + beta, 2);
                alpha = if s - delta < -INFINITY {
                    -INFINITY
                } else {
                    s - delta
                };
            } else if s >= beta {
                beta = if s + delta > INFINITY {
                    INFINITY
                } else {
                    s + delta
                };
            } else {
                return s;
            }
            delta = delta + delta / 2;
            if delta > 600 {
                alpha = -INFINITY;
                beta = INFINITY;
            }
        }
    }

    /// Prepare a search of `root` under `limits`.
    #[verifier::rlimit(30)]
    pub fn begin(&mut self, root: &Position, limits: &SearchLimits) -> (q: Quest)
        requires
            old(self).wf(),
            root.wf(),
        ensures
            q.wf(final(self)),
            q.pos == *root,
            q.max_depth == depth_cap(limits),
            q.best.depth == 0,
            q.origin@ == fresh(old(self).mind()),
            final(self).mind() == q.origin@,
            final(self).heard@.len() == 0,
            final(self).net == old(self).net,
            final(self).reports@ == old(self).reports@,
            final(self).node_limit == limits.nodes,
            match final(self).budget_ms {
                Some(ms) => limits.budget(root@.side) == Some(ms as int),
                None => limits.budget(root@.side) is None,
            },
            !final(self).stopped,
            final(self).timed(),
            final(self).thrifty(0),
    {
        reveal(paced);
        let pos: Position = *root;
        self.nodes = 0;
        self.stopped = false;
        self.node_limit = limits.nodes;
        self.repetitions.clear();
        self.budget_ms = clock::time_budget(root.side_to_move(), limits);
        self.start = clock::now();
        self.heard = Ghost(Seq::empty());
        self.acc_stack.clear();
        proof {
            lemma_none_judged(self.net);
        }
        if let Some(net) = &self.net {
            self.acc_stack.push(Accumulator::refresh(net, &pos));
        }
        let max_depth: u32 = match limits.depth {
            Some(d) => if d < MAX_PLY as u32 {
                d
            } else {
                MAX_PLY as u32
            },
            None => MAX_PLY as u32,
        };
        let moves = generate_legal(&pos);
        let mut best = SearchResult {
            best_move: Move::none(),
            score: 0,
            depth: 0,
            nodes: 0,
            pv: Vec::new(),
        };
        let ghost origin = self.mind();
        assert(origin =~= fresh(old(self).mind()));
        let mut done: bool = max_depth == 0;
        if moves.is_empty() {
            best.score = if pos.in_check() {
                -MATE
            } else {
                0
            };
            done = true;
        } else {
            proof {
                movegen::lemma_listed_legal(pos@, 0);
            }
            best.best_move = moves.get(0);
        }
        assert(best.pv@ =~= seq![]);
        Quest { pos, max_depth, done, best, origin: Ghost(origin) }
    }

    /// The report of a completed iteration.
    fn report(&self, best: &SearchResult) -> (r: String)
        requires
            best.score > i32::MIN,
            forall|i: int| 0 <= i < best.pv@.len() ==> (#[trigger] best.pv@[i]).wf(),
        ensures
            forall|o: tree::Outcome|
                o.score == best.score && o.pv == best.pv@ && o.mind.nodes == self.nodes
                    ==> #[trigger] told(r@, self.start, best.depth as int, o),
    {
        let nodes: u64 = if self.nodes > u64::MAX / 1000 {
            u64::MAX / 1000
        } else {
            self.nodes
        };
        let ms: u64 = clock::millis_since(&self.start);
        format_info(best.depth, best.score, nodes, ms, &best.pv)
    }

    /// Run the next iteration.  Returns whether it was completed, in which case it is
    /// reported; the result of an iteration that was stopped is discarded.
    #[verifier::rlimit(30)]
    pub fn advance(&mut self, q: &mut Quest, stop: &Arc<AtomicBool>) -> (completed: bool)
        requires
            old(q).wf(old(self)),
            !old(q).done,
        ensures
            final(q).wf(final(self)),
            final(self).same_setup(&(Searcher { reports: final(self).reports, ..*old(self) })),
            forall|ev: Eval| #[trigger]
                agrees(ev, final(self).heard@) ==> agrees(ev, old(self).heard@),
            !completed ==> final(self).reports@ == old(self).reports@,
            completed ==> {
                &&& final(self).reports@.len() == old(self).reports@.len() + 1
                &&& final(self).reports@.drop_last() == old(self).reports@
                &&& forall|ev: Eval| #[trigger]
                    agrees(ev, final(self).heard@) ==> told(
                        final(self).reports@.last()@,
                        final(self).start,
                        final(q).best.depth as int,
                        tree::deepened(
                            ev,
                            old(q).origin@,
                            old(q).pos@,
                            final(q).best.depth as nat,
                        ),
                    )
            },
            final(q).pos == old(q).pos,
            final(q).max_depth == old(q).max_depth,
            final(q).origin == old(q).origin,
            old(self).thrifty(0) ==> final(self).thrifty(2 * MAX_PLY),
            completed ==> final(q).best.depth == old(q).best.depth + 1,
            completed && final(self).stopped ==> final(self).looked(stop, true)
                && final(self).halted@ == final(self).nodes,
            old(self).nodes <= final(self).nodes,
            !final(q).done ==> final(self).looked(stop, false),
            !completed ==> final(self).called_off(stop, old(self).nodes),
            !completed ==> final(q).done && final(self).stopped && final(q).best.depth
                == old(q).best.depth && final(q).best.best_move == old(q).best.best_move
                && final(q).best.score == old(q).best.score && final(q).best.pv@
                == old(q).best.pv@,
    {
        let ghost v = q.pos@;
        let ghost d0 = q.best.depth as nat;
        let ghost heard0 = self.heard@;
        let depth: u32 = q.best.depth + 1;
        let mut pv: Vec<Move> = Vec::new();
        let mut pos: Position = q.pos;
        let s: i32 = self.aspiration_search(&mut pos, depth as i32, q.best.score, &mut pv, stop);
        proof {
            assert forall|ev: Eval| #[trigger] agrees(ev, self.heard@) implies tree::deepened(
                ev,
                q.origin@,
                v,
                d0 + 1,
            ) == tree::deepened_once(ev, tree::deepened(ev, q.origin@, v, d0), v, d0 + 1) by {
                assert((d0 + 1 - 1) as nat == d0);
            }
        }
        if self.stopped {
            q.done = true;
            assert forall|ev: Eval| #[trigger] agrees(ev, self.heard@) implies q.attained(
                self,
                ev,
            ) by {
                assert(agrees(ev, heard0));
            }
            return false;
        }
        q.best.score = s;
        q.best.depth = depth;
        q.best.nodes = self.nodes;
        if pv.len() > 0 {
            q.best.best_move = pv[0];
            assert(legal(v, pv@[0]));
        }
        q.best.pv = pv;
        proof {
            assert forall|ev: Eval| #[trigger] agrees(ev, self.heard@) implies q.attained(
                self,
                ev,
            ) by {
                assert(agrees(ev, heard0));
            }
        }
        proof {
            lemma_playable_wf(v, q.best.pv@);
        }
        let report = self.report(&q.best);
        let ghost reports0 = self.reports@;
        self.reports.push(report);
        assert(self.reports@.drop_last() =~= reports0);
        assert forall|ev: Eval| #[trigger] agrees(ev, self.heard@) implies told(
            report@,
            self.start,
            depth as int,
            tree::deepened(ev, q.origin@, v, depth as nat),
        ) by {
            assert(q.attained(self, ev));
        }
        if depth >= q.max_depth || is_mate_score(s) {
            q.done = true;
        } else if self.check_stop(stop) {
            proof {
                if paced(self.nodes, self.node_limit) {
                    lemma_paced(self.nodes, self.node_limit, 2 * MAX_PLY);
                }
            }
            self.stopped = true;
            self.halted = Ghost(self.nodes);
            q.done = true;
            assert forall|ev: Eval| #[trigger] agrees(ev, self.heard@) implies q.attained(
                self,
                ev,
            ) by {
                lemma_deepened_grows(ev, q.origin@, v, depth as nat);
            }
        }
        true
    }

    /// Search `root` under `limits` and return the best move.  The result is that
    /// of the last completed iteration.
    ///
    /// The limits are looked at after every 2048 nodes; after that each ply of the
    /// line may still count two nodes on the way back to the root.  Every completed
    /// iteration is reported.
    #[verifier::rlimit(30)]
    pub fn search(&mut self, root: &Position, limits: &SearchLimits, stop: &Arc<AtomicBool>) -> (r:
        SearchResult)
        requires
            old(self).wf(),
            root.wf(),
        ensures
            final(self).wf(),
            final(self).net == old(self).net,
            r.nodes == final(self).nodes,
            limits.nodes is Some ==> r.nodes < at_least(limits.nodes->0 as int, 1) + 2048 + 2
                * MAX_PLY,
            -SCORE_LIMIT <= r.score <= SCORE_LIMIT,
            tame(old(self).net, root@.board) && modest(old(self).tt@) ==> {
                &&& modest(final(self).tt@)
                &&& -MATE <= r.score <= MATE
                &&& r.depth > 0 ==> r.pv@.len() > 0 && r.pv@[0] == r.best_move
            },
            r.depth == 0 && legal_moves(root@).len() > 0 ==> r.pv@.len() == 0 && r.score == 0,
            playable(root@, r.pv@),
            legal_moves(root@).len() == 0 ==> {
                &&& final(self).tt@ == old(self).tt@
                &&& r.best_move == Move::null()
                &&& r.score == (if root@.in_check() {
                    -MATE as int
                } else {
                    0
                })
                &&& r.depth == 0
                &&& r.nodes == 0
                &&& r.pv@.len() == 0
            },
            legal_moves(root@).len() > 0 ==> finds(
                old(self).net,
                old(self).mind(),
                root@,
                *limits,
                stop,
                final(self).found(r),
            ),
            forall|ev: Eval| #[trigger]
                agrees(ev, final(self).heard@) ==> all_told(
                    ev,
                    old(self).mind(),
                    root@,
                    final(self).start,
                    old(self).reports@,
                    final(self).reports@,
                    r.depth as nat,
                ),
    {
        let mut q = self.begin(root, limits);
        while !q.done
            invariant
                q.wf(self),
                q.pos == *root,
                q.max_depth == depth_cap(limits),
                q.origin@ == fresh(old(self).mind()),
                self.net == old(self).net,
                self.timed(),
                budget_is(self.budget_ms, *limits, root@.side),
                self.stopped ==> q.best.depth == 0 ==> self.halted@ > 0 && self.halted@ % 2048 == 0,
                self.stopped ==> self.halted@ <= self.nodes && a_look(
                    self.start,
                    self.budget_ms,
                    self.halted@,
                    self.node_limit,
                    stop,
                    true,
                ),
                self.node_limit == limits.nodes,
                forall|ev: Eval| #[trigger]
                    agrees(ev, self.heard@) ==> all_told(
                        ev,
                        old(self).mind(),
                        root@,
                        self.start,
                        old(self).reports@,
                        self.reports@,
                        q.best.depth as nat,
                    ),
                self.thrifty(2 * MAX_PLY),
                legal_moves(root@).len() == 0 ==> self.nodes == 0 && self.tt@ == old(self).tt@,
            decreases
                q.max_depth - q.best.depth + (if q.done {
                    0int
                } else {
                    1
                }),
        {
            let ghost heard1 = self.heard@;
            let ghost reports1 = self.reports@;
            let ghost depth1 = q.best.depth;
            let completed = self.advance(&mut q, stop);
            assert forall|ev: Eval| #[trigger] agrees(ev, self.heard@) implies all_told(
                ev,
                old(self).mind(),
                root@,
                self.start,
                old(self).reports@,
                self.reports@,
                q.best.depth as nat,
            ) by {
                assert(agrees(ev, heard1));
                if completed {
                    lemma_told_more(
                        ev,
                        old(self).mind(),
                        root@,
                        self.start,
                        old(self).reports@,
                        reports1,
                        depth1 as nat,
                        self.reports@,
                    );
                }
            }
        }
        proof {
            reveal(overrun);
            if !self.stopped {
                lemma_paced(self.nodes, self.node_limit, 2 * MAX_PLY);
            }
        }
        proof {
            if legal_moves(root@).len() > 0 {
                let ev = tree::as_heard(self.heard@);
                tree::law_some_evaluation_agrees(self.heard@);
                assert(q.attained(self, ev));
            }
        }
        let mut best = q.best;
        best.nodes = self.nodes;
        best
    }
}

// ---------------------------------------------------------------------------
// Reporting.
// ---------------------------------------------------------------------------

/// The first `n` moves of a line, separated by spaces.
pub open spec fn line_text(pv: Seq<Move>, n: int) -> Seq<char>
    decreases n,
{
    if n <= 0 {
        seq![]
    } else if n == 1 {
        pv[0].uci()
    } else {
        line_text(pv, n - 1) + seq![' '] + pv[n - 1].uci()
    }
}

/// The moves until a mate, negative for the player who is mated.
pub open spec fn mate_distance(score: int) -> int {
    let moves = quotient(MATE - magnitude(score) + 1, 2);
    if score > 0 {
        moves
    } else {
        -moves
    }
}

/// A mate that is `n` plies away is reported in moves of the player who mates, with a sign
/// that tells who is mated.
pub proof fn law_mates_are_reported_in_moves(n: int)
    requires
        1 <= n <= 128,
    ensures
        mate_distance(30_000 - n) == (n + 1) / 2,
        mate_distance(n - 30_000) == -((n + 1) / 2),
        score_text(30_000 - n) == "mate "@ + crate::text::dec_int((n + 1) / 2),
        score_text(n - 30_000) == "mate "@ + crate::text::dec_int(-((n + 1) / 2)),
{
}

/// A score as UCI reports it.
pub open spec fn score_text(score: int) -> Seq<char> {
    if is_mate(score) {
        "mate "@ + crate::text::dec_int(mate_distance(score))
    } else {
        "cp "@ + crate::text::dec_int(score)
    }
}

/// Nodes for each second.
pub open spec fn speed(nodes: int, ms: int) -> int {
    if ms > 0 {
        nodes * 1000 / ms
    } else {
        nodes
    }
}

/// The report of a completed iteration.
pub open spec fn info_text(depth: int, score: int, nodes: int, ms: int, pv: Seq<Move>) -> Seq<char> {
    "info depth "@ + crate::text::dec(depth as nat) + " score "@ + score_text(score) + " nodes "@
        + crate::text::dec(nodes as nat) + " nps "@ + crate::text::dec(speed(nodes, ms) as nat)
        + " time "@ + crate::text::dec(ms as nat) + " pv "@ + line_text(pv, pv.len() as int)
}

/// Append a line of moves.
fn push_line(out: &mut String, pv: &Vec<Move>)
    requires
        forall|i: int| 0 <= i < pv@.len() ==> (#[trigger] pv@[i]).wf(),
    ensures
        final(out)@ == old(out)@ + line_text(pv@, pv@.len() as int),
{
    let mut i: usize = 0;
    assert(out@ =~= old(out)@ + line_text(pv@, 0));
    while i < pv.len()
        invariant
            i <= pv@.len(),
            forall|j: int| 0 <= j < pv@.len() ==> (#[trigger] pv@[j]).wf(),
            out@ == old(out)@ + line_text(pv@, i as int),
        decreases pv@.len() - i,
    {
        if i > 0 {
            out.push(' ');
        }
        assert(pv@[i as int].wf());
        crate::text::push_str(out, pv[i].to_string().as_str());
        i = i + 1;
        assert(out@ =~= old(out)@ + line_text(pv@, i as int));
    }
}

/// Append a score as UCI reports it.
fn push_score(out: &mut String, score: i32)
    requires
        score > i32::MIN,
    ensures
        final(out)@ == old(out)@ + score_text(score as int),
{
    if is_mate_score(score) {
        let size: i32 = if score < 0 {
            -score
        } else {
            score
        };
        let moves: i32 = divide_trunc(MATE - size + 1, 2);
        crate::text::push_str(out, "mate ");
        if score > 0 {
            crate::text::push_i32(out, moves);
        } else {
            crate::text::push_i32(out, -moves);
        }
    } else {
        crate::text::push_str(out, "cp ");
        crate::text::push_i32(out, score);
    }
    assert(out@ =~= old(out)@ + score_text(score as int));
}

/// The report of a completed iteration, as a UCI `info` line.
pub fn format_info(depth: u32, score: i32, nodes: u64, ms: u64, pv: &Vec<Move>) -> (r: String)
    requires
        score > i32::MIN,
        nodes * 1000 <= u64::MAX,
        forall|i: int| 0 <= i < pv@.len() ==> (#[trigger] pv@[i]).wf(),
    ensures
        r@ == info_text(depth as int, score as int, nodes as int, ms as int, pv@),
{
    let nps: u64 = if ms > 0 {
        nodes * 1000 / ms
    } else {
        nodes
    };
    let mut out = String::new();
    crate::text::push_str(&mut out, "info depth ");
    crate::text::push_u64(&mut out, depth as u64);
    crate::text::push_str(&mut out, " score ");
    push_score(&mut out, score);
    crate::text::push_str(&mut out, " nodes ");
    crate::text::push_u64(&mut out, nodes);
    crate::text::push_str(&mut out, " nps ");
    crate::text::push_u64(&mut out, nps);
    crate::text::push_str(&mut out, " time ");
    crate::text::push_u64(&mut out, ms);
    crate::text::push_str(&mut out, " pv ");
    push_line(&mut out, pv);
    assert(out@ =~= info_text(depth as int, score as int, nodes as int, ms as int, pv@));
    out
}

} // verus!
