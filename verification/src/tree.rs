//! What the search computes, stated as mathematical functions.
//!
//! The search is a function of the position, of the window and depth it is asked
//! for, of what the engine has in mind (its table of earlier results, its ordering
//! heuristics, the line that led here and its node count), and of how positions are
//! judged.

use vstd::prelude::*;

use crate::eval::{quotient, score, value_of};
use crate::movegen::legal_moves;
use crate::rules::{PosView, apply, hash, holds, legal, pass};
use crate::see::exchange_value;
use crate::tt::{Bound, TtEntry, found, stored};
use crate::types::{Move, MoveType, PieceType};

verus! {

/// The score of a checkmate delivered at the root.
pub const MATE: i32 = 30000;

/// A score beyond every mate: the initial window.
pub const INFINITY: i32 = 31000;

/// Scores from here on are mate scores.
pub const MATE_IN_MAX: i32 = 29872;

/// The longest line that is searched.
pub const MAX_PLY: usize = 128;

/// How far from the root captures are still resolved.
pub const MAX_QPLY: usize = 32;

/// The score of a draw for the player to move.
pub const DRAW_SCORE: i32 = -10;

/// Centipawns for each ply that a capture may lose before it is pruned.
pub const SEE_PRUNE_MARGIN: i32 = 100;

/// Bound on the history scores.
pub const HISTORY_MAX: i32 = 16384;

/// Stands for the evaluation of a position in check.
pub const NONE_EVAL: i32 = i32::MIN;

/// Centipawns for each ply by which an evaluation must exceed beta to be trusted.
pub const RFP_MARGIN: i32 = 90;

/// Centipawns by which a capture may miss alpha before it is skipped.
pub const DELTA_MARGIN: i32 = 200;

/// How many moves are tried at a depth before quiet moves are skipped.
pub const LMP: [usize; 7] = [0, 4, 8, 12, 20, 30, 45];

/// Natural logarithms in units of one part in 1048576.
pub const LN: [u32; 256] = [
    0, 0, 726817, 1151978, 1453635, 1687618, 1878796, 2040435,
    2180452, 2303957, 2414435, 2514375, 2605613, 2689544, 2767252, 2839596,
    2907270, 2970840, 3030774, 3087468, 3141253, 3192413, 3241193, 3287804,
    3332431, 3375236, 3416362, 3455935, 3494070, 3530866, 3566414, 3600797,
    3634087, 3666354, 3697657, 3728053, 3757592, 3786322, 3814286, 3841523,
    3868070, 3893963, 3919231, 3943904, 3968010, 3991575, 4014621, 4037172,
    4059248, 4080869, 4102053, 4122818, 4143179, 4163153, 4182753, 4201993,
    4220887, 4239447, 4257683, 4275608, 4293231, 4310564, 4327614, 4344392,
    4360905, 4377162, 4393171, 4408940, 4424475, 4439782, 4454870, 4469744,
    4484409, 4498873, 4513139, 4527214, 4541103, 4554810, 4568340, 4581698,
    4594888, 4607914, 4620780, 4633490, 4646048, 4658457, 4670722, 4682844,
    4694828, 4706676, 4718392, 4729979, 4741439, 4752775, 4763990, 4775086,
    4786066, 4796932, 4807687, 4818332, 4828871, 4839305, 4849635, 4859866,
    4869997, 4880031, 4889970, 4899816, 4909570, 4919235, 4928811, 4938300,
    4947705, 4957025, 4966264, 4975422, 4984501, 4993501, 5002425, 5011274,
    5020049, 5028751, 5037381, 5045941, 5054432, 5062854, 5071209, 5079498,
    5087722, 5095883, 5103980, 5112015, 5119989, 5127903, 5135757, 5143553,
    5151292, 5158974, 5166600, 5174171, 5181688, 5189151, 5196561, 5203920,
    5211227, 5218484, 5225690, 5232848, 5239957, 5247018, 5254032, 5260999,
    5267921, 5274796, 5281628, 5288415, 5295158, 5301858, 5308516, 5315131,
    5321705, 5328239, 5334731, 5341184, 5347598, 5353972, 5360308, 5366605,
    5372866, 5379089, 5385275, 5391425, 5397539, 5403618, 5409662, 5415671,
    5421645, 5427586, 5433494, 5439368, 5445210, 5451019, 5456797, 5462542,
    5468256, 5473940, 5479593, 5485215, 5490807, 5496370, 5501904, 5507408,
    5512883, 5518331, 5523750, 5529141, 5534504, 5539841, 5545150, 5550432,
    5555688, 5560918, 5566122, 5571300, 5576453, 5581581, 5586683, 5591761,
    5596814, 5601843, 5606849, 5611830, 5616788, 5621722, 5626634, 5631522,
    5636388, 5641231, 5646052, 5650851, 5655628, 5660384, 5665118, 5669831,
    5674522, 5679193, 5683843, 5688472, 5693082, 5697670, 5702239, 5706789,
    5711318, 5715828, 5720319, 5724790, 5729243, 5733677, 5738092, 5742488,
    5746866, 5751226, 5755568, 5759892, 5764199, 5768487, 5772759, 5777012,
    5781249, 5785469, 5789671, 5793857, 5798027, 5802179, 5806316, 5810436,
];

/// How the positions are judged that a search asks about: the value for the number
/// of the question and the position.
pub type Eval = spec_fn(int, PosView) -> int;

/// The hand-crafted evaluation, whenever it is asked.
pub open spec fn by_hand() -> Eval {
    |i: int, v: PosView| score(v)
}

/// A position that was judged, and its value.
pub struct Judged {
    pub v: PosView,
    pub value: int,
}

/// The evaluation gives the values that were heard, in the order of the questions.
#[verifier::opaque]
pub open spec fn agrees(ev: Eval, heard: Seq<Judged>) -> bool {
    forall|i: int| 0 <= i < heard.len() ==> ev(i, (#[trigger] heard[i]).v) == heard[i].value
}

/// The evaluation that gives the values as they were heard.
pub open spec fn as_heard(heard: Seq<Judged>) -> Eval {
    |i: int, v: PosView| heard[i].value
}

/// Whatever was heard, some evaluation agrees with it.
pub proof fn law_some_evaluation_agrees(heard: Seq<Judged>)
    ensures
        agrees(as_heard(heard), heard),
{
    reveal(agrees);
}

/// One more question.
pub proof fn lemma_agrees_push(heard: Seq<Judged>, j: Judged)
    ensures
        forall|ev: Eval| #[trigger]
            agrees(ev, heard.push(j)) ==> agrees(ev, heard) && ev(heard.len() as int, j.v)
                == j.value,
{
    reveal(agrees);
    let longer = heard.push(j);
    assert forall|ev: Eval| #[trigger] agrees(ev, longer) implies agrees(ev, heard) && ev(
        heard.len() as int,
        j.v,
    ) == j.value by {
        assert(longer[heard.len() as int] == j);
        assert forall|i: int| 0 <= i < heard.len() implies ev(i, (#[trigger] heard[i]).v)
            == heard[i].value by {
            assert(longer[i] == heard[i]);
        }
    }
}

/// Nodes visited and positions judged.
#[verifier::ext_equal]
pub struct Count {
    pub nodes: u64,
    pub asked: int,
}

/// What the engine has in mind while it searches.
#[verifier::ext_equal]
pub struct Mind {
    /// The transposition table.
    pub tt: Seq<Option<TtEntry>>,
    /// Two quiet moves for each ply that refuted something, the latest first.
    pub killers: Seq<(Move, Move)>,
    /// A score for each origin and destination of quiet moves.
    pub history: Seq<i32>,
    /// The evaluation at each ply of the current line.
    pub evals: Seq<i32>,
    /// The hashes of the positions on the current line.
    pub reps: Seq<u64>,
    /// Positions visited.
    pub nodes: u64,
    /// Positions judged.
    pub asked: int,
}

impl Mind {
    pub open spec fn count(self) -> Count {
        Count { nodes: self.nodes, asked: self.asked }
    }

    pub open spec fn with_count(self, c: Count) -> Mind {
        Mind { nodes: c.nodes, asked: c.asked, ..self }
    }
}

/// What a search answers.
#[verifier::ext_equal]
pub struct Reply {
    pub mind: Mind,
    pub score: int,
    /// The expected line of play.
    pub pv: Seq<Move>,
}

pub open spec fn magnitude(n: int) -> int {
    if n < 0 {
        -n
    } else {
        n
    }
}

/// The score tells of a forced mate.
pub open spec fn is_mate(s: int) -> bool {
    magnitude(s) >= MATE_IN_MAX
}

/// A score as it is stored: mate scores count from the storing position.
pub open spec fn to_tt(s: int, ply: int) -> int {
    if s >= MATE_IN_MAX {
        s + ply
    } else if s <= -MATE_IN_MAX {
        s - ply
    } else {
        s
    }
}

/// A stored score as it counts from the root.
pub open spec fn from_tt(s: int, ply: int) -> int {
    if s >= MATE_IN_MAX {
        s - ply
    } else if s <= -MATE_IN_MAX {
        s + ply
    } else {
        s
    }
}

/// One node more.
pub open spec fn tick(n: u64) -> u64 {
    if n == u64::MAX {
        n
    } else {
        (n + 1) as u64
    }
}

// ---------------------------------------------------------------------------
// Moves.
// ---------------------------------------------------------------------------

/// The move captures an enemy piece.
pub open spec fn takes(v: PosView, m: Move) -> bool {
    m.kind == MoveType::EnPassant || (m.kind != MoveType::Castling && v.board[m.to.i()] is Some)
}

/// The move captures or promotes.
pub open spec fn forcing(v: PosView, m: Move) -> bool {
    takes(v, m) || m.kind == MoveType::Promotion
}

/// The kind of piece that a capture removes; a pawn for a bare promotion.
pub open spec fn victim(v: PosView, m: Move) -> PieceType {
    if m.kind != MoveType::EnPassant && v.board[m.to.i()] is Some {
        v.board[m.to.i()]->0.piece_type
    } else {
        PieceType::Pawn
    }
}

/// The value of what a move captures.
pub open spec fn prize(v: PosView, m: Move) -> int {
    if takes(v, m) {
        value_of(victim(v, m))
    } else {
        0
    }
}

/// The most valuable victim first and, for one victim, the least valuable
/// attacker.
pub open spec fn mvv(v: PosView, m: Move) -> int {
    16 * value_of(victim(v, m)) - value_of(attacker(v, m)) / 4
}

/// The kind of piece that moves.
pub open spec fn attacker(v: PosView, m: Move) -> PieceType {
    if v.board[m.from.i()] is Some {
        v.board[m.from.i()]->0.piece_type
    } else {
        PieceType::Pawn
    }
}

/// A more valuable victim comes first, whatever takes it; of two attackers of one
/// victim the less valuable comes first.
pub proof fn law_victims_come_first(v: PosView, a: Move, b: Move)
    ensures
        value_of(victim(v, a)) > value_of(victim(v, b)) ==> mvv(v, a) > mvv(v, b),
        victim(v, a) == victim(v, b) && value_of(attacker(v, a)) < value_of(attacker(v, b)) ==> mvv(
            v,
            a,
        ) > mvv(v, b),
{
}

/// The slot of a move in the history table.
pub open spec fn butterfly(m: Move) -> int {
    64 * m.from.i() + m.to.i()
}

/// The best of the moves from `i` on, among the first `n`.
pub open spec fn best_from(s: Seq<(Move, i32)>, i: int, n: int) -> int
    decreases n - i,
{
    if n <= i + 1 {
        i
    } else {
        let b = best_from(s, i, n - 1);
        if s[n - 1].1 > s[b].1 {
            n - 1
        } else {
            b
        }
    }
}

/// The moves with the best of those from `i` on swapped to place `i`.
#[verifier::opaque]
pub open spec fn select(s: Seq<(Move, i32)>, i: int) -> Seq<(Move, i32)> {
    let b = best_from(s, i, s.len() as int);
    s.update(i, s[b]).update(b, s[i])
}

/// The best move is among those it is chosen from, and none of them is better.
pub proof fn lemma_best_from(s: Seq<(Move, i32)>, i: int, n: int)
    requires
        0 <= i < n <= s.len(),
    ensures
        i <= best_from(s, i, n) < n,
        forall|j: int| i <= j < n ==> (#[trigger] s[j]).1 <= s[best_from(s, i, n)].1,
    decreases n,
{
    if n > i + 1 {
        lemma_best_from(s, i, n - 1);
    }
}

/// Swapping keeps the number of moves.
pub proof fn lemma_select_len(s: Seq<(Move, i32)>, i: int)
    requires
        0 <= i < s.len(),
    ensures
        select(s, i).len() == s.len(),
{
    reveal(select);
    lemma_best_from(s, i, s.len() as int);
}

/// A piece of the player to move, neither a pawn nor the king, stands on `i`.
pub open spec fn officer(v: PosView, i: int) -> bool {
    ||| holds(v.board, i, v.side, PieceType::Knight)
    ||| holds(v.board, i, v.side, PieceType::Bishop)
    ||| holds(v.board, i, v.side, PieceType::Rook)
    ||| holds(v.board, i, v.side, PieceType::Queen)
}

/// The player to move has a piece other than pawns and the king.
#[verifier::opaque]
pub open spec fn has_piece(v: PosView) -> bool {
    exists|i: int| #[trigger] officer(v, i)
}

/// The hash on the line `2 * (k + 1)` plies back.
pub open spec fn back(reps: Seq<u64>, k: int) -> u64 {
    reps[reps.len() - 2 * (k + 1)]
}

/// The hash occurs on the line, an even number of plies back and no further back
/// than `window` plies.
#[verifier::opaque]
pub open spec fn repeats(reps: Seq<u64>, key: u64, window: int) -> bool {
    exists|k: int|
        0 <= k && 2 * (k + 1) <= window && 2 * (k + 1) <= reps.len() && #[trigger] back(reps, k)
            == key
}

// ---------------------------------------------------------------------------
// Quiescence: only captures and promotions, until nothing is left to take.
// ---------------------------------------------------------------------------

/// The captures and promotions worth trying, among the first `n` moves.
#[verifier::opaque]
pub open spec fn loud(v: PosView, n: int) -> Seq<(Move, i32)>
    decreases n,
{
    if n <= 0 {
        seq![]
    } else {
        let before = loud(v, n - 1);
        let m = legal_moves(v)[n - 1];
        if forcing(v, m) && (v.in_check() || m.kind == MoveType::Promotion || exchange_value(v, m)
            >= 0) {
            before.push((m, mvv(v, m) as i32))
        } else {
            before
        }
    }
}

/// Counts and score of resolving all captures.
#[verifier::opaque]
pub open spec fn calm(ev: Eval, c: Count, v: PosView, alpha: int, beta: int, ply: int) -> (
    Count,
    int,
)
    decreases MAX_QPLY - ply, 1int, 0int,
{
    let n = Count { nodes: tick(c.nodes), asked: c.asked + 1 };
    let pat = ev(c.asked, v);
    if ply >= MAX_QPLY || pat >= beta {
        (n, pat)
    } else {
        calm_moves(
            ev,
            n,
            v,
            pat,
            beta,
            ply,
            loud(v, legal_moves(v).len() as int),
            0,
            if pat > alpha {
                pat
            } else {
                alpha
            },
            pat,
        )
    }
}

/// The captures from place `i` on.
#[verifier::opaque]
pub open spec fn calm_moves(
    ev: Eval,
    c: Count,
    v: PosView,
    pat: int,
    beta: int,
    ply: int,
    list: Seq<(Move, i32)>,
    i: int,
    alpha: int,
    best: int,
) -> (Count, int)
    decreases MAX_QPLY - ply, 0int, list.len() - i,
{
    if i >= list.len() || i < 0 || ply >= MAX_QPLY {
        (c, best)
    } else {
        let next = select(list, i);
        proof {
            lemma_select_len(list, i);
        }
        let m = next[i].0;
        if !v.in_check() && m.kind != MoveType::Promotion && pat + prize(v, m) + DELTA_MARGIN
            < alpha {
            calm_moves(ev, c, v, pat, beta, ply, next, i + 1, alpha, best)
        } else {
            let r = calm(ev, c, apply(v, m), -beta, -alpha, ply + 1);
            let s = -r.1;
            let best2 = if s > best {
                s
            } else {
                best
            };
            let alpha2 = if s > best && s > alpha {
                s
            } else {
                alpha
            };
            if alpha2 >= beta {
                (r.0, best2)
            } else {
                calm_moves(ev, r.0, v, pat, beta, ply, next, i + 1, alpha2, best2)
            }
        }
    }
}

/// Resolving captures visits at least one node, and is never worth less than
/// leaving the position as it is.
pub proof fn law_standing_pat_is_kept(
    ev: Eval,
    c: Count,
    v: PosView,
    alpha: int,
    beta: int,
    ply: int,
)
    ensures
        calm(ev, c, v, alpha, beta, ply).1 >= ev(c.asked, v),
        calm(ev, c, v, alpha, beta, ply).0.nodes >= tick(c.nodes),
    decreases MAX_QPLY - ply, 1int, 0int,
{
    reveal_with_fuel(calm, 1);
    reveal_with_fuel(calm_moves, 1);
    let pat = ev(c.asked, v);
    if !(ply >= MAX_QPLY || pat >= beta) {
        lemma_calm_moves(
            ev,
            Count { nodes: tick(c.nodes), asked: c.asked + 1 },
            v,
            pat,
            beta,
            ply,
            loud(v, legal_moves(v).len() as int),
            0,
            if pat > alpha {
                pat
            } else {
                alpha
            },
            pat,
        );
    }
}

/// Trying more captures makes neither the count nor the score smaller.
#[verifier::rlimit(30)]
pub proof fn lemma_calm_moves(
    ev: Eval,
    c: Count,
    v: PosView,
    pat: int,
    beta: int,
    ply: int,
    list: Seq<(Move, i32)>,
    i: int,
    alpha: int,
    best: int,
)
    ensures
        calm_moves(ev, c, v, pat, beta, ply, list, i, alpha, best).0.nodes >= c.nodes,
        calm_moves(ev, c, v, pat, beta, ply, list, i, alpha, best).1 >= best,
    decreases MAX_QPLY - ply, 0int, list.len() - i,
{
    reveal_with_fuel(calm_moves, 1);
    reveal_with_fuel(calm, 1);
    if !(i >= list.len() || i < 0 || ply >= MAX_QPLY) {
        let next = select(list, i);
        lemma_select_len(list, i);
        let m = next[i].0;
        if !v.in_check() && m.kind != MoveType::Promotion && pat + prize(v, m) + DELTA_MARGIN
            < alpha {
            lemma_calm_moves(ev, c, v, pat, beta, ply, next, i + 1, alpha, best);
        } else {
            let r = calm(ev, c, apply(v, m), -beta, -alpha, ply + 1);
            law_standing_pat_is_kept(ev, c, apply(v, m), -beta, -alpha, ply + 1);
            let s = -r.1;
            let best2 = if s > best {
                s
            } else {
                best
            };
            let alpha2 = if s > best && s > alpha {
                s
            } else {
                alpha
            };
            lemma_calm_moves(ev, r.0, v, pat, beta, ply, next, i + 1, alpha2, best2);
        }
    }
}

// ---------------------------------------------------------------------------
// The main search.
// ---------------------------------------------------------------------------

/// The move that the table holds for a position.
pub open spec fn table_move(tt: Seq<Option<TtEntry>>, key: u64) -> Move {
    match found(tt, key) {
        Some(e) => e.best_move,
        None => Move::null(),
    }
}

/// The score that the table settles a position with.
#[verifier::opaque]
pub open spec fn settled(
    tt: Seq<Option<TtEntry>>,
    key: u64,
    depth: int,
    alpha: int,
    beta: int,
    ply: int,
) -> Option<int> {
    match found(tt, key) {
        Some(e) => {
            let s = from_tt(e.score as int, ply);
            if ply > 0 && e.depth >= depth && (e.bound == Bound::Exact || (e.bound == Bound::Lower
                && s >= beta) || (e.bound == Bound::Upper && s <= alpha)) {
                Some(s)
            } else {
                None
            }
        },
        None => None,
    }
}

/// One more ply when in check.
pub open spec fn extended(v: PosView, depth: int) -> int {
    if v.in_check() {
        depth + 1
    } else {
        depth
    }
}

/// How a position is settled without trying moves: as a draw, at the longest
/// line, from the table, or by resolving captures at the horizon.
pub open spec fn front(
    ev: Eval,
    mind: Mind,
    v: PosView,
    depth: int,
    alpha: int,
    beta: int,
    ply: int,
) -> Option<(Count, int)> {
    if ply > 0 && (v.half >= 100 || repeats(mind.reps, hash(v), v.half as int)) {
        Some((mind.count(), DRAW_SCORE as int))
    } else if ply >= MAX_PLY - 1 {
        Some((Count { nodes: mind.nodes, asked: mind.asked + 1 }, ev(mind.asked, v)))
    } else {
        match settled(mind.tt, hash(v), depth, alpha, beta, ply) {
            Some(s) => Some((mind.count(), s)),
            None => if extended(v, depth) <= 0 {
                Some(calm(ev, mind.count(), v, alpha, beta, ply))
            } else {
                None
            },
        }
    }
}

/// What is known of a position before its moves are tried.
pub struct Node {
    pub depth: int,
    pub beta: int,
    pub ply: int,
    pub is_pv: bool,
    pub in_check: bool,
    /// Guessing is allowed here.
    pub prunable: bool,
    pub eval: int,
    /// The player to move stands better than two plies ago.
    pub improving: bool,
    /// The move that the table held when the position was reached.
    pub hint: Move,
}

pub open spec fn assess(
    ev: Eval,
    mind: Mind,
    v: PosView,
    depth: int,
    alpha: int,
    beta: int,
    ply: int,
    is_pv: bool,
) -> Node {
    let in_check = v.in_check();
    let eval = if in_check {
        NONE_EVAL as int
    } else {
        ev(mind.asked, v)
    };
    Node {
        depth,
        beta,
        ply,
        is_pv,
        in_check,
        prunable: !is_pv && !in_check && magnitude(beta) < MATE_IN_MAX && magnitude(alpha)
            < MATE_IN_MAX,
        eval,
        improving: !in_check && ply >= 2 && mind.evals[ply - 2] != NONE_EVAL && eval
            > mind.evals[ply - 2],
        hint: table_move(mind.tt, hash(v)),
    }
}

pub open spec fn noted(mind: Mind, node: Node) -> Mind {
    Mind {
        evals: mind.evals.update(node.ply, node.eval as i32),
        asked: if node.in_check {
            mind.asked
        } else {
            mind.asked + 1
        },
        ..mind
    }
}

/// The evaluation is so far above beta that the position is taken to be won.
#[verifier::opaque]
pub open spec fn overwhelming(node: Node) -> bool {
    node.prunable && node.depth <= 6 && node.eval - RFP_MARGIN * (if node.improving {
        node.depth - 1
    } else {
        node.depth
    }) >= node.beta
}

/// Passing is tried before any move.
#[verifier::opaque]
pub open spec fn tries_pass(v: PosView, node: Node, can_null: bool) -> bool {
    node.prunable && can_null && node.depth >= 3 && node.eval >= node.beta && has_piece(v)
}

/// The depth to which passing is searched.
pub open spec fn pass_depth(depth: int) -> int {
    depth - (3 + depth / 3) - 1
}

/// The place of a move in the order: the table's move, captures that do not lose
/// material, killers, quiet moves by their history, captures that lose material.
#[verifier::opaque]
pub open spec fn rank_of(mind: Mind, v: PosView, m: Move, hint: Move, ply: int) -> int {
    if m == hint {
        1_000_000
    } else if forcing(v, m) {
        if m.kind == MoveType::Promotion || exchange_value(v, m) >= 0 {
            100_000 + mvv(v, m)
        } else {
            -100_000 + mvv(v, m)
        }
    } else if m == mind.killers[ply].0 || m == mind.killers[ply].1 {
        80_000
    } else {
        mind.history[butterfly(m)] as int
    }
}

/// The legal moves with their places in the order.
#[verifier::opaque]
pub open spec fn ranked(mind: Mind, v: PosView, hint: Move, ply: int) -> Seq<(Move, i32)> {
    Seq::new(
        legal_moves(v).len(),
        |i: int| (legal_moves(v)[i], rank_of(mind, v, legal_moves(v)[i], hint, ply) as i32),
    )
}

/// How far the search of the moves of a position has come.
#[verifier::ext_equal]
pub struct Progress {
    pub mind: Mind,
    pub list: Seq<(Move, i32)>,
    pub alpha: int,
    pub best: int,
    pub best_move: Move,
    pub pv: Seq<Move>,
    /// Quiet moves that were searched, at most sixty-four.
    pub quiets: Seq<Move>,
}

pub open spec fn is_killer(mind: Mind, m: Move, ply: int) -> bool {
    m == mind.killers[ply].0 || m == mind.killers[ply].1
}

/// A capture that loses too much to be tried.
#[verifier::opaque]
pub open spec fn hopeless_capture(v: PosView, node: Node, m: Move, i: int) -> bool {
    node.prunable && i > 0 && node.depth <= 6 && forcing(v, m) && m.kind != MoveType::Promotion
        && exchange_value(v, m) < -SEE_PRUNE_MARGIN * node.depth
}

/// How many moves come before quiet moves are skipped.
pub open spec fn move_limit(depth: int, improving: bool) -> int {
    if improving {
        LMP@[depth] as int
    } else {
        (LMP@[depth] + 1) / 2
    }
}

/// A quiet move that is skipped: it comes too late, has a poor record, or cannot
/// reach alpha.
#[verifier::opaque]
pub open spec fn hopeless_quiet(mind: Mind, v: PosView, node: Node, m: Move, i: int, alpha: int) -> bool {
    &&& node.prunable && i > 0 && !forcing(v, m) && !is_killer(mind, m, node.ply)
    &&& !apply(v, m).in_check()
    &&& (node.depth <= 6 && i >= move_limit(node.depth, node.improving)) || (node.depth <= 3
        && mind.history[butterfly(m)] < -2000 * node.depth) || (node.depth <= 4 && node.eval + 100
        + 100 * node.depth <= alpha)
}

/// The whole part of `0.75 + ln(depth) * ln(i) / 2.25`; moves beyond number 255
/// count as number 255.
#[verifier::opaque]
pub open spec fn log_product(depth: int, i: int) -> int {
    (27 * 0x100_0000_0000 + 16 * (LN@[if depth > 255 {
        255
    } else {
        depth
    }] as int * LN@[if i > 255 {
        255
    } else {
        i
    }] as int)) / (36 * 0x100_0000_0000int)
}

pub open spec fn bounded(n: int, lo: int, hi: int) -> int {
    if n < lo {
        lo
    } else if n > hi {
        hi
    } else {
        n
    }
}

/// By how many plies the search of a late quiet move is reduced.
#[verifier::opaque]
pub open spec fn reduction(mind: Mind, v: PosView, node: Node, m: Move, i: int) -> int {
    if node.depth >= 3 && i >= 3 && !forcing(v, m) && !is_killer(mind, m, node.ply)
        && !node.in_check && !apply(v, m).in_check() {
        bounded(
            log_product(node.depth, i) - quotient(mind.history[butterfly(m)] as int, 8192) + (
            if node.improving {
                0int
            } else {
                1
            }),
            1,
            node.depth - 2,
        )
    } else {
        0
    }
}

/// A history score after a bonus or a penalty.
#[verifier::opaque]
pub open spec fn nudged(h: int, b: int) -> int {
    h + b - quotient(h * magnitude(b), HISTORY_MAX as int)
}

/// The history table after a bonus or a penalty for a move.
#[verifier::opaque]
pub open spec fn rewarded(h: Seq<i32>, m: Move, b: int) -> Seq<i32> {
    h.update(butterfly(m), nudged(h[butterfly(m)] as int, b) as i32)
}

/// The history table after a penalty for each of the first `n` moves.
#[verifier::opaque]
pub open spec fn penalized(h: Seq<i32>, quiets: Seq<Move>, n: int, b: int) -> Seq<i32>
    decreases n,
{
    if n <= 0 {
        h
    } else {
        rewarded(penalized(h, quiets, n - 1, b), quiets[n - 1], -b)
    }
}

/// The killers after a quiet move refuted something.
pub open spec fn with_killer(k: Seq<(Move, Move)>, ply: int, m: Move) -> Seq<(Move, Move)> {
    if k[ply].0 != m {
        k.update(ply, (m, k[ply].0))
    } else {
        k
    }
}

pub open spec fn bonus_of(depth: int) -> int {
    if depth * depth > HISTORY_MAX {
        HISTORY_MAX as int
    } else {
        depth * depth
    }
}

/// What is learned when a quiet move refutes the position.
#[verifier::opaque]
pub open spec fn learned(mind: Mind, m: Move, ply: int, depth: int, quiets: Seq<Move>) -> Mind {
    Mind {
        killers: with_killer(mind.killers, ply, m),
        history: penalized(
            rewarded(mind.history, m, bonus_of(depth)),
            quiets,
            quiets.len() as int,
            bonus_of(depth),
        ),
        ..mind
    }
}

/// The result as it is stored.
#[verifier::opaque]
pub open spec fn entry_of(key: u64, p: Progress, node: Node, alpha: int) -> TtEntry {
    TtEntry {
        key,
        best_move: p.best_move,
        score: to_tt(p.best, node.ply) as i32,
        depth: node.depth as i16,
        bound: if p.best >= node.beta {
            Bound::Lower
        } else if p.best > alpha {
            Bound::Exact
        } else {
            Bound::Upper
        },
    }
}

/// Search a position to a depth within a window.
#[verifier::opaque]
pub open spec fn nm(
    ev: Eval,
    mind: Mind,
    v: PosView,
    depth: int,
    alpha: int,
    beta: int,
    ply: int,
    is_pv: bool,
    can_null: bool,
) -> Reply
    decreases MAX_PLY - ply, 4int, 0int,
{
    let m1 = Mind { nodes: tick(mind.nodes), ..mind };
    match front(ev, m1, v, depth, alpha, beta, ply) {
        Some(r) => Reply { mind: m1.with_count(r.0), score: r.1, pv: seq![] },
        None => nm_open(ev, m1, v, extended(v, depth), alpha, beta, ply, is_pv, can_null),
    }
}

/// Judge a position and perhaps try passing before its moves are searched.
#[verifier::opaque]
pub open spec fn nm_open(
    ev: Eval,
    mind: Mind,
    v: PosView,
    depth: int,
    alpha: int,
    beta: int,
    ply: int,
    is_pv: bool,
    can_null: bool,
) -> Reply
    decreases MAX_PLY - ply, 3int, 0int,
{
    let node = assess(ev, mind, v, depth, alpha, beta, ply, is_pv);
    let m2 = noted(mind, node);
    if overwhelming(node) {
        Reply { mind: m2, score: node.eval, pv: seq![] }
    } else if tries_pass(v, node, can_null) && ply < MAX_PLY {
        let r = nm(ev, m2, pass(v), pass_depth(depth), -beta, -beta + 1, ply + 1, false, false);
        if -r.score >= beta {
            Reply { mind: r.mind, score: beta, pv: seq![] }
        } else {
            nm_expand(ev, r.mind, v, node, alpha)
        }
    } else {
        nm_expand(ev, m2, v, node, alpha)
    }
}

/// The moves of a position before any of them is searched.
pub open spec fn untried(mind: Mind, v: PosView, node: Node, alpha: int) -> Progress {
    Progress {
        mind: Mind { reps: mind.reps.push(hash(v)), ..mind },
        list: ranked(mind, v, node.hint, node.ply),
        alpha,
        best: -INFINITY as int,
        best_move: Move::null(),
        pv: seq![],
        quiets: seq![],
    }
}

/// Search the moves of a position and remember the result.
#[verifier::opaque]
pub open spec fn nm_expand(ev: Eval, mind: Mind, v: PosView, node: Node, alpha: int) -> Reply
    decreases MAX_PLY - node.ply, 2int, 0int,
{
    if legal_moves(v).len() == 0 {
        Reply {
            mind,
            score: if node.in_check {
                -(MATE - node.ply)
            } else {
                DRAW_SCORE as int
            },
            pv: seq![],
        }
    } else {
        let key = hash(v);
        let p = nm_moves(ev, v, node, untried(mind, v, node, alpha), 0);
        Reply {
            mind: Mind {
                reps: p.mind.reps.drop_last(),
                tt: stored(p.mind.tt, entry_of(key, p, node, alpha)),
                ..p.mind
            },
            score: p.best,
            pv: p.pv,
        }
    }
}

/// What searching the move `m` at place `i` leads to.
pub open spec fn after_move(v: PosView, node: Node, p: Progress, list: Seq<(Move, i32)>, m: Move, r: Reply) -> Progress {
    let better = r.score > p.best;
    let raises = better && r.score > p.alpha;
    Progress {
        mind: r.mind,
        list,
        alpha: if raises {
            r.score
        } else {
            p.alpha
        },
        best: if better {
            r.score
        } else {
            p.best
        },
        best_move: if better {
            m
        } else {
            p.best_move
        },
        pv: if raises {
            seq![m] + r.pv
        } else {
            p.pv
        },
        quiets: p.quiets,
    }
}

/// The moves from place `i` on.
#[verifier::opaque]
pub open spec fn nm_moves(ev: Eval, v: PosView, node: Node, p: Progress, i: int) -> Progress
    decreases MAX_PLY - node.ply, 1int, p.list.len() - i,
{
    if i >= p.list.len() || i < 0 {
        p
    } else {
        let list = select(p.list, i);
        proof {
            lemma_select_len(p.list, i);
        }
        let m = list[i].0;
        let skipped = Progress { list, ..p };
        if hopeless_capture(v, node, m, i) || hopeless_quiet(p.mind, v, node, m, i, p.alpha) {
            nm_moves(ev, v, node, skipped, i + 1)
        } else {
            let r = nm_child(
                ev,
                p.mind,
                apply(v, m),
                node,
                i,
                p.alpha,
                reduction(p.mind, v, node, m, i),
            );
            let q = after_move(v, node, p, list, m, r);
            if q.alpha >= node.beta {
                if forcing(v, m) {
                    q
                } else {
                    Progress {
                        mind: learned(q.mind, m, node.ply, node.depth, q.quiets),
                        ..q
                    }
                }
            } else if !forcing(v, m) && q.quiets.len() < 64 {
                nm_moves(ev, v, node, Progress { quiets: q.quiets.push(m), ..q }, i + 1)
            } else {
                nm_moves(ev, v, node, q, i + 1)
            }
        }
    }
}

/// A move that is skipped leaves everything but the order as it was.
pub proof fn lemma_skip(ev: Eval, v: PosView, node: Node, p: Progress, i: int)
    requires
        0 <= i < p.list.len(),
        hopeless_capture(v, node, select(p.list, i)[i].0, i) || hopeless_quiet(
            p.mind,
            v,
            node,
            select(p.list, i)[i].0,
            i,
            p.alpha,
        ),
    ensures
        nm_moves(ev, v, node, p, i) == nm_moves(
            ev,
            v,
            node,
            Progress { list: select(p.list, i), ..p },
            i + 1,
        ),
{
    reveal_with_fuel(nm_moves, 1);
}

/// A move that is searched.
pub proof fn lemma_try(ev: Eval, v: PosView, node: Node, p: Progress, i: int, r: Reply)
    requires
        0 <= i < p.list.len(),
        !hopeless_capture(v, node, select(p.list, i)[i].0, i),
        !hopeless_quiet(p.mind, v, node, select(p.list, i)[i].0, i, p.alpha),
        r == nm_child(
            ev, p.mind,
            apply(v, select(p.list, i)[i].0),
            node,
            i,
            p.alpha,
            reduction(p.mind, v, node, select(p.list, i)[i].0, i),
        ),
    ensures
        ({
            let list = select(p.list, i);
            let m = list[i].0;
            let q = after_move(v, node, p, list, m, r);
            if q.alpha >= node.beta {
                nm_moves(ev, v, node, p, i) == (if forcing(v, m) {
                    q
                } else {
                    Progress { mind: learned(q.mind, m, node.ply, node.depth, q.quiets), ..q }
                })
            } else {
                nm_moves(ev, v, node, p, i) == nm_moves(
                    ev,
            v,
                    node,
                    (if !forcing(v, m) && q.quiets.len() < 64 {
                        Progress { quiets: q.quiets.push(m), ..q }
                    } else {
                        q
                    }),
                    i + 1,
                )
            }
        }),
{
    reveal_with_fuel(nm_moves, 1);
    reveal_with_fuel(nm_child, 1);
}

/// Search one move, after which the position is `w`: the first with the full
/// window, later ones with a null window first, perhaps at a reduced depth, and
/// again only if they surprise.  The score is that of the mover.
#[verifier::opaque]
pub open spec fn nm_child(ev: Eval, mind: Mind, w: PosView, node: Node, i: int, alpha: int, red: int) -> Reply
    decreases MAX_PLY - node.ply, 0int, 0int,
{
    let ply = node.ply + 1;
    let d = node.depth - 1;
    if node.ply >= MAX_PLY {
        Reply { mind, score: 0, pv: seq![] }
    } else if i == 0 {
        flipped(nm(ev, mind, w, d, -node.beta, -alpha, ply, node.is_pv, true))
    } else {
        let a = flipped(nm(ev, mind, w, d - red, -alpha - 1, -alpha, ply, false, true));
        let b = if red > 0 && a.score > alpha {
            flipped(nm(ev, a.mind, w, d, -alpha - 1, -alpha, ply, false, true))
        } else {
            a
        };
        if b.score > alpha && b.score < node.beta {
            flipped(nm(ev, b.mind, w, d, -node.beta, -alpha, ply, node.is_pv, true))
        } else {
            b
        }
    }
}

/// A reply seen by the other player.
pub open spec fn flipped(r: Reply) -> Reply {
    Reply { score: -r.score, ..r }
}

// ---------------------------------------------------------------------------
// Iterative deepening.
// ---------------------------------------------------------------------------

/// Search the root with the full window.
pub open spec fn full_window(ev: Eval, mind: Mind, v: PosView, depth: int) -> Reply {
    nm(ev, mind, v, depth, -INFINITY as int, INFINITY as int, 0, true, true)
}

pub open spec fn at_least(n: int, lo: int) -> int {
    if n < lo {
        lo
    } else {
        n
    }
}

pub open spec fn at_most(n: int, hi: int) -> int {
    if n > hi {
        hi
    } else {
        n
    }
}

/// Search the root within a window that is widened until the score lies in it.
#[verifier::opaque]
pub open spec fn widening(
    ev: Eval,
    mind: Mind,
    v: PosView,
    depth: int,
    alpha: int,
    beta: int,
    delta: int,
) -> Reply
    decreases 2000 - delta,
{
    let r = nm(ev, mind, v, depth, alpha, beta, 0, true, true);
    if is_mate(r.score) {
        full_window(ev, r.mind, v, depth)
    } else if alpha < r.score < beta || delta < 2 || delta > 1000 {
        r
    } else {
        let wider = delta + delta / 2;
        let a = if r.score <= alpha {
            at_least(r.score - delta, -INFINITY as int)
        } else {
            alpha
        };
        let b = if r.score <= alpha {
            quotient(alpha + beta, 2)
        } else {
            at_most(r.score + delta, INFINITY as int)
        };
        if wider > 600 {
            widening(ev, r.mind, v, depth, -INFINITY as int, INFINITY as int, wider)
        } else {
            widening(ev, r.mind, v, depth, a, b, wider)
        }
    }
}

/// One iteration: a narrow window around the previous score once there is one to
/// rely on.
pub open spec fn aspiration(ev: Eval, mind: Mind, v: PosView, depth: int, previous: int) -> Reply {
    if depth < 5 || is_mate(previous) {
        full_window(ev, mind, v, depth)
    } else {
        widening(
            ev, mind,
            v,
            depth,
            at_least(previous - 25, -INFINITY as int),
            at_most(previous + 25, INFINITY as int),
            25,
        )
    }
}

// ---------------------------------------------------------------------------
// Every part of a search adds to the node count.
// ---------------------------------------------------------------------------

/// Searching a position.
#[verifier::rlimit(30)]
pub proof fn lemma_nm_grows(
    ev: Eval,
    mind: Mind,
    v: PosView,
    depth: int,
    alpha: int,
    beta: int,
    ply: int,
    is_pv: bool,
    can_null: bool,
)
    ensures
        nm(ev, mind, v, depth, alpha, beta, ply, is_pv, can_null).mind.nodes >= tick(mind.nodes),
    decreases MAX_PLY - ply, 4int, 0int,
{
    reveal_with_fuel(nm, 1);
    reveal_with_fuel(nm_open, 1);
    let m1 = Mind { nodes: tick(mind.nodes), ..mind };
    law_standing_pat_is_kept(ev, m1.count(), v, alpha, beta, ply);
    if front(ev, m1, v, depth, alpha, beta, ply) is None {
        lemma_open_grows(ev, m1, v, extended(v, depth), alpha, beta, ply, is_pv, can_null);
    }
}

/// Judging a position, passing, and searching its moves.
#[verifier::rlimit(30)]
pub proof fn lemma_open_grows(
    ev: Eval,
    mind: Mind,
    v: PosView,
    depth: int,
    alpha: int,
    beta: int,
    ply: int,
    is_pv: bool,
    can_null: bool,
)
    ensures
        nm_open(ev, mind, v, depth, alpha, beta, ply, is_pv, can_null).mind.nodes >= mind.nodes,
        ({
            let node = assess(ev, mind, v, depth, alpha, beta, ply, is_pv);
            !overwhelming(node) && tries_pass(v, node, can_null) && ply < MAX_PLY ==> nm_open(
                ev,
                mind,
                v,
                depth,
                alpha,
                beta,
                ply,
                is_pv,
                can_null,
            ).mind.nodes >= nm(
                ev,
                noted(mind, node),
                pass(v),
                pass_depth(depth),
                -beta,
                -beta + 1,
                ply + 1,
                false,
                false,
            ).mind.nodes
        }),
    decreases MAX_PLY - ply, 3int, 0int,
{
    reveal_with_fuel(nm_open, 1);
    reveal_with_fuel(nm_expand, 1);
    reveal_with_fuel(nm, 1);
    let node = assess(ev, mind, v, depth, alpha, beta, ply, is_pv);
    let m2 = noted(mind, node);
    if overwhelming(node) {
    } else if tries_pass(v, node, can_null) && ply < MAX_PLY {
        let r = nm(ev, m2, pass(v), pass_depth(depth), -beta, -beta + 1, ply + 1, false, false);
        lemma_nm_grows(
            ev,
            m2,
            pass(v),
            pass_depth(depth),
            -beta,
            -beta + 1,
            ply + 1,
            false,
            false,
        );
        lemma_expand_grows(ev, r.mind, v, node, alpha);
    } else {
        lemma_expand_grows(ev, m2, v, node, alpha);
    }
}

/// Searching the moves of a position.
pub proof fn lemma_expand_grows(ev: Eval, mind: Mind, v: PosView, node: Node, alpha: int)
    ensures
        nm_expand(ev, mind, v, node, alpha).mind.nodes >= mind.nodes,
        legal_moves(v).len() > 0 ==> nm_expand(ev, mind, v, node, alpha).mind.nodes == nm_moves(
            ev,
            v,
            node,
            untried(mind, v, node, alpha),
            0,
        ).mind.nodes,
    decreases MAX_PLY - node.ply, 2int, 0int,
{
    reveal_with_fuel(nm_expand, 1);
    reveal_with_fuel(nm_moves, 1);
    lemma_moves_grow(ev, v, node, untried(mind, v, node, alpha), 0);
}

/// Searching the moves from place `i` on.
#[verifier::rlimit(30)]
pub proof fn lemma_moves_grow(ev: Eval, v: PosView, node: Node, p: Progress, i: int)
    ensures
        nm_moves(ev, v, node, p, i).mind.nodes >= p.mind.nodes,
        ({
            let m = select(p.list, i)[i].0;
            0 <= i < p.list.len() && !hopeless_capture(v, node, m, i) && !hopeless_quiet(
                p.mind,
                v,
                node,
                m,
                i,
                p.alpha,
            ) ==> nm_moves(ev, v, node, p, i).mind.nodes >= nm_child(
                ev,
                p.mind,
                apply(v, m),
                node,
                i,
                p.alpha,
                reduction(p.mind, v, node, m, i),
            ).mind.nodes
        }),
    decreases MAX_PLY - node.ply, 1int, p.list.len() - i,
{
    reveal_with_fuel(nm_moves, 1);
    reveal_with_fuel(nm_child, 1);
    if 0 <= i < p.list.len() {
        let list = select(p.list, i);
        lemma_select_len(p.list, i);
        let m = list[i].0;
        if hopeless_capture(v, node, m, i) || hopeless_quiet(p.mind, v, node, m, i, p.alpha) {
            lemma_moves_grow(ev, v, node, Progress { list, ..p }, i + 1);
        } else {
            let red = reduction(p.mind, v, node, m, i);
            let r = nm_child(ev, p.mind, apply(v, m), node, i, p.alpha, red);
            lemma_child_grows(ev, p.mind, apply(v, m), node, i, p.alpha, red);
            let q = after_move(v, node, p, list, m, r);
            reveal(learned);
            lemma_moves_grow(ev, v, node, Progress { quiets: q.quiets.push(m), ..q }, i + 1);
            lemma_moves_grow(ev, v, node, q, i + 1);
        }
    }
}

/// Searching one move, first with a null window and again if it surprises.
#[verifier::rlimit(30)]
pub proof fn lemma_child_grows(
    ev: Eval,
    mind: Mind,
    w: PosView,
    node: Node,
    i: int,
    alpha: int,
    red: int,
)
    ensures
        nm_child(ev, mind, w, node, i, alpha, red).mind.nodes >= mind.nodes,
        ({
            let all = nm_child(ev, mind, w, node, i, alpha, red).mind.nodes;
            let ply = node.ply + 1;
            let d = node.depth - 1;
            let a = nm(ev, mind, w, d - red, -alpha - 1, -alpha, ply, false, true);
            node.ply < MAX_PLY && i != 0 ==> {
                &&& all >= a.mind.nodes
                &&& red > 0 && -a.score > alpha ==> all >= nm(
                    ev,
                    a.mind,
                    w,
                    d,
                    -alpha - 1,
                    -alpha,
                    ply,
                    false,
                    true,
                ).mind.nodes
            }
        }),
    decreases MAX_PLY - node.ply, 0int, 0int,
{
    reveal_with_fuel(nm_child, 1);
    reveal_with_fuel(nm, 1);
    let ply = node.ply + 1;
    let d = node.depth - 1;
    if node.ply < MAX_PLY {
        if i == 0 {
            lemma_nm_grows(ev, mind, w, d, -node.beta, -alpha, ply, node.is_pv, true);
        } else {
            let a = nm(ev, mind, w, d - red, -alpha - 1, -alpha, ply, false, true);
            lemma_nm_grows(ev, mind, w, d - red, -alpha - 1, -alpha, ply, false, true);
            let b = nm(ev, a.mind, w, d, -alpha - 1, -alpha, ply, false, true);
            lemma_nm_grows(ev, a.mind, w, d, -alpha - 1, -alpha, ply, false, true);
            lemma_nm_grows(ev, a.mind, w, d, -node.beta, -alpha, ply, node.is_pv, true);
            lemma_nm_grows(ev, b.mind, w, d, -node.beta, -alpha, ply, node.is_pv, true);
        }
    }
}

/// Widening the window.
#[verifier::rlimit(30)]
pub proof fn lemma_widening_grows(
    ev: Eval,
    mind: Mind,
    v: PosView,
    depth: int,
    alpha: int,
    beta: int,
    delta: int,
)
    ensures
        widening(ev, mind, v, depth, alpha, beta, delta).mind.nodes >= nm(
            ev,
            mind,
            v,
            depth,
            alpha,
            beta,
            0,
            true,
            true,
        ).mind.nodes,
        nm(ev, mind, v, depth, alpha, beta, 0, true, true).mind.nodes >= tick(mind.nodes),
    decreases 2000 - delta,
{
    reveal_with_fuel(widening, 1);
    let r = nm(ev, mind, v, depth, alpha, beta, 0, true, true);
    lemma_nm_grows(ev, mind, v, depth, alpha, beta, 0, true, true);
    if is_mate(r.score) {
        lemma_nm_grows(ev, r.mind, v, depth, -INFINITY as int, INFINITY as int, 0, true, true);
    } else if alpha < r.score < beta || delta < 2 || delta > 1000 {
    } else {
        let wider = delta + delta / 2;
        let a = if r.score <= alpha {
            at_least(r.score - delta, -INFINITY as int)
        } else {
            alpha
        };
        let b = if r.score <= alpha {
            quotient(alpha + beta, 2)
        } else {
            at_most(r.score + delta, INFINITY as int)
        };
        lemma_widening_grows(
            ev,
            r.mind,
            v,
            depth,
            -INFINITY as int,
            INFINITY as int,
            wider,
        );
        lemma_widening_grows(ev, r.mind, v, depth, a, b, wider);
    }
}

/// The outcome after a number of completed iterations.
#[verifier::ext_equal]
pub struct Outcome {
    pub mind: Mind,
    pub best_move: Move,
    pub score: int,
    pub pv: Seq<Move>,
}

/// The outcome after `depth` iterations from the position `v`.
pub open spec fn deepened(ev: Eval, mind: Mind, v: PosView, depth: nat) -> Outcome
    decreases depth,
{
    if depth == 0 {
        Outcome { mind, best_move: legal_moves(v)[0], score: 0, pv: seq![] }
    } else {
        deepened_once(ev, deepened(ev, mind, v, (depth - 1) as nat), v, depth)
    }
}

/// One more iteration.
pub open spec fn deepened_once(ev: Eval, o: Outcome, v: PosView, depth: nat) -> Outcome {
    let r = aspiration(ev, o.mind, v, depth as int, o.score);
    Outcome {
        mind: r.mind,
        best_move: if r.pv.len() > 0 {
            r.pv[0]
        } else {
            o.best_move
        },
        score: r.score,
        pv: r.pv,
    }
}

/// No iteration before `depth` finds a mate.
pub open spec fn undecided(ev: Eval, mind: Mind, v: PosView, depth: nat) -> bool {
    forall|d: nat| 0 < d < depth ==> !is_mate((#[trigger] deepened(ev, mind, v, d)).score)
}

/// A player who is checkmated closer to the root loses more: of two mates the
/// shorter one is preferred.
pub proof fn law_shorter_mates_count_more(ev: Eval, mind: Mind, v: PosView, near: Node, far: Node, alpha: int)
    requires
        legal_moves(v).len() == 0,
        near.in_check && far.in_check,
        0 <= near.ply < far.ply < MAX_PLY,
    ensures
        nm_expand(ev, mind, v, near, alpha).score < nm_expand(ev, mind, v, far, alpha).score < 0,
        is_mate(nm_expand(ev, mind, v, near, alpha).score),
        is_mate(nm_expand(ev, mind, v, far, alpha).score),
{
    reveal_with_fuel(nm_expand, 1);
}

/// After a pass the other player does not pass as well.
pub proof fn law_players_do_not_pass_in_turn(v: PosView, node: Node)
    ensures
        !tries_pass(v, node, false),
{
    reveal(tries_pass);
}

/// The moves can be played one after the other.
pub open spec fn playable(v: PosView, pv: Seq<Move>) -> bool
    decreases pv.len(),
{
    pv.len() == 0 || (legal(v, pv[0]) && playable(apply(v, pv[0]), pv.skip(1)))
}

} // verus!
