//! How the search conducts itself: what it scores as a draw or a mate, what it may leave
//! out, and what it learns.

use vstd::prelude::*;

use crate::movegen;
use crate::movegen::legal_moves;
use crate::rules;
use crate::rules::{PosView, apply, hash, legal, pass};
use crate::see::exchange_value;
use crate::tree::{
    Count, Eval, HISTORY_MAX, MAX_PLY, MAX_QPLY, Mind, Node, Progress, Reply, after_move,
    aspiration, assess, best_from, butterfly, calm, calm_moves, entry_of, extended, flipped, front,
    full_window, has_piece, hopeless_capture, hopeless_quiet, is_mate, learned, lemma_best_from,
    lemma_select_len, loud, nm, nm_child, nm_expand, nm_moves, nm_open, noted, nudged,
    overwhelming, pass_depth, penalized, rank_of, ranked, reduction, repeats, rewarded, select,
    settled, tick, tries_pass, untried, widening, with_killer,
};
use crate::tt::{Bound, TtEntry, found, stored};
use crate::types::{Move, MoveType, PieceType};

verus! {

// ---------------------------------------------------------------------------
// Draws and mates.
// ---------------------------------------------------------------------------

/// The hash occurs on the line an even number of plies back, and no further back than the
/// last move that cannot be taken back.
pub open spec fn occurred(reps: Seq<u64>, key: u64, half: int) -> bool {
    exists|i: int|
        0 <= i < reps.len() && (reps.len() - i) % 2 == 0 && reps.len() - i <= half
            && #[trigger] reps[i] == key
}

proof fn lemma_occurred(reps: Seq<u64>, key: u64, half: int)
    ensures
        repeats(reps, key, half) == occurred(reps, key, half),
{
    reveal(repeats);
    if occurred(reps, key, half) {
        let i = choose|i: int|
            0 <= i < reps.len() && (reps.len() - i) % 2 == 0 && reps.len() - i <= half
                && #[trigger] reps[i] == key;
        let k = (reps.len() - i) / 2 - 1;
        assert(crate::tree::back(reps, k) == key);
    }
    if repeats(reps, key, half) {
        let k = choose|k: int|
            0 <= k && 2 * (k + 1) <= half && 2 * (k + 1) <= reps.len()
                && #[trigger] crate::tree::back(reps, k) == key;
        assert(reps[reps.len() - 2 * (k + 1)] == key);
    }
}

/// Below the root a position that has occurred before on the line, and one that a hundred
/// plies without a capture or a pawn move have led to, is a draw: whatever the depth, the
/// window, the table and the evaluation.
pub proof fn law_draws_are_scored(
    ev: Eval,
    mind: Mind,
    v: PosView,
    depth: int,
    alpha: int,
    beta: int,
    ply: int,
    is_pv: bool,
    can_null: bool,
)
    requires
        ply > 0,
        occurred(mind.reps, hash(v), v.half as int) || v.half >= 100,
    ensures
        nm(ev, mind, v, depth, alpha, beta, ply, is_pv, can_null).score == -10,
        nm(ev, mind, v, depth, alpha, beta, ply, is_pv, can_null).pv.len() == 0,
        nm(ev, mind, v, depth, alpha, beta, ply, is_pv, can_null).mind.tt == mind.tt,
{
    reveal_with_fuel(nm, 1);
    lemma_occurred(mind.reps, hash(v), v.half as int);
}

/// Neither of these draws is there.
pub open spec fn undrawn(mind: Mind, v: PosView, ply: int) -> bool {
    ply == 0 || (v.half < 100 && !occurred(mind.reps, hash(v), v.half as int))
}

/// A player without a legal move who is in check has lost, by the more the closer to the
/// root; one who is not in check has drawn.
pub proof fn law_ends_of_games_are_scored(
    ev: Eval,
    mind: Mind,
    v: PosView,
    depth: int,
    alpha: int,
    beta: int,
    ply: int,
    is_pv: bool,
    can_null: bool,
)
    requires
        rules::stuck(v),
        undrawn(mind, v, ply),
        0 <= ply < 127,
        found(mind.tt, hash(v)) is None,
    ensures
        v.in_check() && depth >= 0 ==> nm(
            ev,
            mind,
            v,
            depth,
            alpha,
            beta,
            ply,
            is_pv,
            can_null,
        ).score == ply - 30_000,
        !v.in_check() && depth >= 1 && is_pv ==> nm(
            ev,
            mind,
            v,
            depth,
            alpha,
            beta,
            ply,
            is_pv,
            can_null,
        ).score == -10,
        depth >= 1 && (v.in_check() || is_pv) ==> nm(
            ev,
            mind,
            v,
            depth,
            alpha,
            beta,
            ply,
            is_pv,
            can_null,
        ).pv.len() == 0,
{
    reveal_with_fuel(nm_expand, 1);
    reveal_with_fuel(nm_moves, 1);
    reveal(settled);
    let m1 = Mind { nodes: tick(mind.nodes), ..mind };
    lemma_occurred(mind.reps, hash(v), v.half as int);
    movegen::lemma_stuck(v);
    if extended(v, depth) >= 1 && (v.in_check() || is_pv) {
        lemma_opened(ev, mind, v, depth, alpha, beta, ply, is_pv, can_null);
        lemma_expanded(ev, m1, v, extended(v, depth), alpha, beta, ply, is_pv, can_null);
    }
}

/// A position that nothing settles is opened.
proof fn lemma_opened(
    ev: Eval,
    mind: Mind,
    v: PosView,
    depth: int,
    alpha: int,
    beta: int,
    ply: int,
    is_pv: bool,
    can_null: bool,
)
    requires
        front(ev, Mind { nodes: tick(mind.nodes), ..mind }, v, depth, alpha, beta, ply) is None,
    ensures
        nm(ev, mind, v, depth, alpha, beta, ply, is_pv, can_null) == nm_open(
            ev,
            Mind { nodes: tick(mind.nodes), ..mind },
            v,
            extended(v, depth),
            alpha,
            beta,
            ply,
            is_pv,
            can_null,
        ),
{
    reveal_with_fuel(nm, 1);
    reveal_with_fuel(nm_open, 1);
}

/// On the expected line, and in check, the moves of a position that is opened are tried.
proof fn lemma_expanded(
    ev: Eval,
    mind: Mind,
    v: PosView,
    depth: int,
    alpha: int,
    beta: int,
    ply: int,
    is_pv: bool,
    can_null: bool,
)
    requires
        is_pv || v.in_check(),
    ensures
        ({
            let node = assess(ev, mind, v, depth, alpha, beta, ply, is_pv);
            nm_open(ev, mind, v, depth, alpha, beta, ply, is_pv, can_null) == nm_expand(
                ev,
                noted(mind, node),
                v,
                node,
                alpha,
            )
        }),
{
    reveal_with_fuel(nm_open, 1);
    reveal_with_fuel(nm_expand, 1);
    reveal_with_fuel(nm, 1);
    reveal(overwhelming);
    reveal(tries_pass);
}

/// The moves of a position are tried and the result is stored.
proof fn lemma_stored(ev: Eval, mind: Mind, v: PosView, node: Node, alpha: int)
    requires
        legal_moves(v).len() > 0,
    ensures
        ({
            let p = nm_moves(ev, v, node, untried(mind, v, node, alpha), 0);
            let r = nm_expand(ev, mind, v, node, alpha);
            &&& r.score == p.best
            &&& r.pv == p.pv
            &&& r.mind.tt == stored(p.mind.tt, entry_of(hash(v), p, node, alpha))
        }),
{
    reveal_with_fuel(nm_expand, 1);
    reveal_with_fuel(nm_moves, 1);
}

/// A line is never longer than the limit: there the position is only judged.
pub proof fn law_lines_are_cut(
    ev: Eval,
    mind: Mind,
    v: PosView,
    depth: int,
    alpha: int,
    beta: int,
    ply: int,
    is_pv: bool,
    can_null: bool,
)
    requires
        ply >= 127,
        undrawn(mind, v, ply),
    ensures
        nm(ev, mind, v, depth, alpha, beta, ply, is_pv, can_null).score == ev(mind.asked, v),
{
    reveal_with_fuel(nm, 1);
    lemma_occurred(mind.reps, hash(v), v.half as int);
}

/// At the horizon captures are resolved: a position that is not in check and is not in the
/// table is worth what that gives.
pub proof fn law_captures_are_resolved_at_the_horizon(
    ev: Eval,
    mind: Mind,
    v: PosView,
    depth: int,
    alpha: int,
    beta: int,
    ply: int,
    is_pv: bool,
    can_null: bool,
)
    requires
        depth <= 0,
        !v.in_check(),
        0 <= ply < 127,
        undrawn(mind, v, ply),
        found(mind.tt, hash(v)) is None,
    ensures
        nm(ev, mind, v, depth, alpha, beta, ply, is_pv, can_null).score == calm(
            ev,
            Count { nodes: tick(mind.nodes), asked: mind.asked },
            v,
            alpha,
            beta,
            ply,
        ).1,
{
    reveal_with_fuel(nm, 1);
    reveal(settled);
    lemma_occurred(mind.reps, hash(v), v.half as int);
}

// ---------------------------------------------------------------------------
// The table.
// ---------------------------------------------------------------------------

/// What the table says of a position that was searched at least as deep answers the search
/// at once: an exact score, a lower bound that is beyond the window, or an upper bound that
/// is below it.  A mate counts from the position, so its score is shifted by the ply.
pub proof fn law_the_table_answers(
    ev: Eval,
    mind: Mind,
    v: PosView,
    depth: int,
    alpha: int,
    beta: int,
    ply: int,
    is_pv: bool,
    can_null: bool,
    e: TtEntry,
)
    requires
        0 < ply < 127,
        undrawn(mind, v, ply),
        found(mind.tt, hash(v)) == Some(e),
        e.depth >= depth,
    ensures
        ({
            let s = if e.score >= 29_872 {
                e.score - ply
            } else if e.score <= -29_872 {
                e.score + ply
            } else {
                e.score as int
            };
            let r = nm(ev, mind, v, depth, alpha, beta, ply, is_pv, can_null);
            (e.bound == Bound::Exact || (e.bound == Bound::Lower && s >= beta) || (e.bound
                == Bound::Upper && s <= alpha)) ==> r.score == s && r.mind.nodes == tick(
                mind.nodes,
            ) && r.mind.tt == mind.tt
        }),
{
    reveal_with_fuel(nm, 1);
    reveal(settled);
    lemma_occurred(mind.reps, hash(v), v.half as int);
}

/// A search leaves the line as it was, and the size of the table.
#[verifier::rlimit(30)]
proof fn lemma_nm_keeps(
    ev: Eval,
    mind: Mind,
    v: PosView,
    depth: int,
    alpha: int,
    beta: int,
    ply: int,
    is_pv: bool,
    can_null: bool,
)
    requires
        mind.tt.len() > 0,
    ensures
        nm(ev, mind, v, depth, alpha, beta, ply, is_pv, can_null).mind.reps == mind.reps,
        nm(ev, mind, v, depth, alpha, beta, ply, is_pv, can_null).mind.tt.len() == mind.tt.len(),
    decreases MAX_PLY - ply, 4int, 0int,
{
    reveal_with_fuel(nm, 1);
    reveal_with_fuel(nm_open, 1);
    let m1 = Mind { nodes: tick(mind.nodes), ..mind };
    if front(ev, m1, v, depth, alpha, beta, ply) is None {
        lemma_open_keeps(ev, m1, v, extended(v, depth), alpha, beta, ply, is_pv, can_null);
    }
}

#[verifier::rlimit(30)]
proof fn lemma_open_keeps(
    ev: Eval,
    mind: Mind,
    v: PosView,
    depth: int,
    alpha: int,
    beta: int,
    ply: int,
    is_pv: bool,
    can_null: bool,
)
    requires
        mind.tt.len() > 0,
    ensures
        nm_open(ev, mind, v, depth, alpha, beta, ply, is_pv, can_null).mind.reps == mind.reps,
        nm_open(ev, mind, v, depth, alpha, beta, ply, is_pv, can_null).mind.tt.len()
            == mind.tt.len(),
    decreases MAX_PLY - ply, 3int, 0int,
{
    reveal_with_fuel(nm_open, 1);
    reveal_with_fuel(nm_expand, 1);
    reveal_with_fuel(nm, 1);
    let node = assess(ev, mind, v, depth, alpha, beta, ply, is_pv);
    let m2 = noted(mind, node);
    if overwhelming(node) {
    } else if tries_pass(v, node, can_null) && ply < MAX_PLY {
        let r = nm(ev, m2, pass(v), pass_depth(depth), -beta, -beta + 1, ply + 1, false, false);
        lemma_nm_keeps(
            ev,
            m2,
            pass(v),
            pass_depth(depth),
            -beta,
            -beta + 1,
            ply + 1,
            false,
            false,
        );
        lemma_expand_keeps(ev, r.mind, v, node, alpha);
    } else {
        lemma_expand_keeps(ev, m2, v, node, alpha);
    }
}

proof fn lemma_expand_keeps(ev: Eval, mind: Mind, v: PosView, node: Node, alpha: int)
    requires
        mind.tt.len() > 0,
    ensures
        nm_expand(ev, mind, v, node, alpha).mind.reps == mind.reps,
        nm_expand(ev, mind, v, node, alpha).mind.tt.len() == mind.tt.len(),
    decreases MAX_PLY - node.ply, 2int, 0int,
{
    reveal_with_fuel(nm_expand, 1);
    reveal_with_fuel(nm_moves, 1);
    let p = untried(mind, v, node, alpha);
    lemma_moves_keep(ev, v, node, p, 0);
    assert(mind.reps.push(hash(v)).drop_last() =~= mind.reps);
}

#[verifier::rlimit(30)]
proof fn lemma_moves_keep(ev: Eval, v: PosView, node: Node, p: Progress, i: int)
    requires
        p.mind.tt.len() > 0,
    ensures
        nm_moves(ev, v, node, p, i).mind.reps == p.mind.reps,
        nm_moves(ev, v, node, p, i).mind.tt.len() == p.mind.tt.len(),
    decreases MAX_PLY - node.ply, 1int, p.list.len() - i,
{
    reveal_with_fuel(nm_moves, 1);
    reveal_with_fuel(nm_child, 1);
    if 0 <= i < p.list.len() {
        let list = select(p.list, i);
        lemma_select_len(p.list, i);
        let m = list[i].0;
        if hopeless_capture(v, node, m, i) || hopeless_quiet(p.mind, v, node, m, i, p.alpha) {
            lemma_moves_keep(ev, v, node, Progress { list, ..p }, i + 1);
        } else {
            let red = reduction(p.mind, v, node, m, i);
            let r = nm_child(ev, p.mind, apply(v, m), node, i, p.alpha, red);
            lemma_child_keeps(ev, p.mind, apply(v, m), node, i, p.alpha, red);
            let q = after_move(v, node, p, list, m, r);
            reveal(learned);
            lemma_moves_keep(ev, v, node, Progress { quiets: q.quiets.push(m), ..q }, i + 1);
            lemma_moves_keep(ev, v, node, q, i + 1);
        }
    }
}

#[verifier::rlimit(30)]
proof fn lemma_child_keeps(
    ev: Eval,
    mind: Mind,
    w: PosView,
    node: Node,
    i: int,
    alpha: int,
    red: int,
)
    requires
        mind.tt.len() > 0,
    ensures
        nm_child(ev, mind, w, node, i, alpha, red).mind.reps == mind.reps,
        nm_child(ev, mind, w, node, i, alpha, red).mind.tt.len() == mind.tt.len(),
    decreases MAX_PLY - node.ply, 0int, 0int,
{
    reveal_with_fuel(nm_child, 1);
    reveal_with_fuel(nm, 1);
    let ply = node.ply + 1;
    let d = node.depth - 1;
    if node.ply < MAX_PLY {
        if i == 0 {
            lemma_nm_keeps(ev, mind, w, d, -node.beta, -alpha, ply, node.is_pv, true);
        } else {
            let a = nm(ev, mind, w, d - red, -alpha - 1, -alpha, ply, false, true);
            lemma_nm_keeps(ev, mind, w, d - red, -alpha - 1, -alpha, ply, false, true);
            let b = nm(ev, a.mind, w, d, -alpha - 1, -alpha, ply, false, true);
            lemma_nm_keeps(ev, a.mind, w, d, -alpha - 1, -alpha, ply, false, true);
            lemma_nm_keeps(ev, a.mind, w, d, -node.beta, -alpha, ply, node.is_pv, true);
            lemma_nm_keeps(ev, b.mind, w, d, -node.beta, -alpha, ply, node.is_pv, true);
        }
    }
}

/// What was searched is not searched again: a second search of a position below the root,
/// to the same depth and within the same window, is answered by the table with the score of
/// the first and visits one node.
#[verifier::rlimit(30)]
pub proof fn law_searched_positions_are_remembered(
    ev: Eval,
    other: Eval,
    mind: Mind,
    v: PosView,
    depth: int,
    alpha: int,
    beta: int,
    ply: int,
    can_null: bool,
)
    requires
        0 < ply < 127,
        1 <= depth <= 254,
        undrawn(mind, v, ply),
        mind.tt.len() > 0,
        !rules::stuck(v),
        -140_000 <= nm(ev, mind, v, depth, alpha, beta, ply, true, can_null).score <= 140_000,
    ensures
        ({
            let one = nm(ev, mind, v, depth, alpha, beta, ply, true, can_null);
            let two = nm(other, one.mind, v, depth, alpha, beta, ply, true, can_null);
            &&& two.score == one.score
            &&& two.mind.nodes == tick(one.mind.nodes)
            &&& two.mind.tt == one.mind.tt
        }),
{
    reveal_with_fuel(nm, 1);
    reveal_with_fuel(nm_open, 1);
    reveal(settled);
    lemma_occurred(mind.reps, hash(v), v.half as int);
    movegen::lemma_stuck(v);
    lemma_nm_keeps(ev, mind, v, depth, alpha, beta, ply, true, can_null);
    let m1 = Mind { nodes: tick(mind.nodes), ..mind };
    let d = extended(v, depth);
    let node = assess(ev, m1, v, d, alpha, beta, ply, true);
    let m2 = noted(m1, node);
    let p = nm_moves(ev, v, node, untried(m2, v, node, alpha), 0);
    if front(ev, m1, v, depth, alpha, beta, ply) is None {
        lemma_opened(ev, mind, v, depth, alpha, beta, ply, true, can_null);
        lemma_expanded(ev, m1, v, d, alpha, beta, ply, true, can_null);
        lemma_moves_keep(ev, v, node, untried(m2, v, node, alpha), 0);
        lemma_stored(ev, m2, v, node, alpha);
        crate::tt::law_stored_is_found(p.mind.tt, entry_of(hash(v), p, node, alpha));
        reveal(entry_of);
    }
}

// ---------------------------------------------------------------------------
// Alpha and beta.
// ---------------------------------------------------------------------------

/// The score is that of a position after the move `m`, as the other player's search of it
/// gives it, to a smaller depth.
pub open spec fn answered(ev: Eval, v: PosView, node: Node, m: Move, s: int) -> bool {
    exists|mind: Mind, d: int, a: int, b: int, is_pv: bool|
        d < node.depth && s == -(#[trigger] nm(
            ev,
            mind,
            apply(v, m),
            d,
            a,
            b,
            node.ply + 1,
            is_pv,
            true,
        )).score
}

/// A tried move is worth what the other player's search of the position after it gives.
proof fn lemma_child_answered(
    ev: Eval,
    mind: Mind,
    v: PosView,
    m: Move,
    node: Node,
    i: int,
    alpha: int,
    red: int,
)
    requires
        node.ply < MAX_PLY,
        red >= 0,
    ensures
        answered(
            ev,
            v,
            node,
            m,
            nm_child(ev, mind, apply(v, m), node, i, alpha, red).score,
        ),
{
    reveal_with_fuel(nm_child, 1);
    reveal_with_fuel(nm, 1);
    let w = apply(v, m);
    let ply = node.ply + 1;
    let d = node.depth - 1;
    if i == 0 {
        let r = nm(ev, mind, w, d, -node.beta, -alpha, ply, node.is_pv, true);
        assert(d < node.depth && flipped(r).score == -r.score);
    } else {
        let a = nm(ev, mind, w, d - red, -alpha - 1, -alpha, ply, false, true);
        let b = nm(ev, a.mind, w, d, -alpha - 1, -alpha, ply, false, true);
        let c = nm(ev, a.mind, w, d, -node.beta, -alpha, ply, node.is_pv, true);
        let e = nm(ev, b.mind, w, d, -node.beta, -alpha, ply, node.is_pv, true);
        assert(d - red < node.depth && d < node.depth);
        assert(flipped(a).score == -a.score && flipped(b).score == -b.score);
        assert(flipped(c).score == -c.score && flipped(e).score == -e.score);
    }
}

/// The first move is searched with the whole window.  A later move whose score lies within
/// the window was searched with the whole window too, and a score above alpha is never that
/// of a reduced search.
pub proof fn law_windows_are_honest(
    ev: Eval,
    mind: Mind,
    w: PosView,
    node: Node,
    i: int,
    alpha: int,
    red: int,
)
    requires
        node.ply < MAX_PLY,
    ensures
        ({
            let s = nm_child(ev, mind, w, node, i, alpha, red).score;
            &&& i == 0 ==> s == -nm(
                ev,
                mind,
                w,
                node.depth - 1,
                -node.beta,
                -alpha,
                node.ply + 1,
                node.is_pv,
                true,
            ).score
            &&& alpha < s < node.beta ==> exists|other: Mind|
                s == -(#[trigger] nm(
                    ev,
                    other,
                    w,
                    node.depth - 1,
                    -node.beta,
                    -alpha,
                    node.ply + 1,
                    node.is_pv,
                    true,
                )).score
            &&& s > alpha && red >= 0 ==> exists|other: Mind, a: int, b: int, is_pv: bool|
                s == -(#[trigger] nm(
                    ev,
                    other,
                    w,
                    node.depth - 1,
                    a,
                    b,
                    node.ply + 1,
                    is_pv,
                    true,
                )).score
        }),
{
    reveal_with_fuel(nm_child, 1);
    reveal_with_fuel(nm, 1);
    let ply = node.ply + 1;
    let d = node.depth - 1;
    if i != 0 {
        let a = nm(ev, mind, w, d - red, -alpha - 1, -alpha, ply, false, true);
        let b = nm(ev, a.mind, w, d, -alpha - 1, -alpha, ply, false, true);
        let c = nm(ev, a.mind, w, d, -node.beta, -alpha, ply, node.is_pv, true);
        let e = nm(ev, b.mind, w, d, -node.beta, -alpha, ply, node.is_pv, true);
        assert(flipped(a).score == -a.score && flipped(b).score == -b.score);
        assert(flipped(c).score == -c.score && flipped(e).score == -e.score);
        assert(flipped(a).mind == a.mind && flipped(b).mind == b.mind);
        if red == 0 {
            assert(d - red == d);
        }
    }
}

/// The score is exact: it is that of a search with the whole window, but for an alpha that
/// had been raised no further than below it.
pub open spec fn proven(ev: Eval, v: PosView, node: Node, m: Move, s: int, alpha: int) -> bool {
    exists|mind: Mind, low: int|
        alpha <= low < s && s == -(#[trigger] nm(
            ev,
            mind,
            apply(v, m),
            node.depth - 1,
            -node.beta,
            -low,
            node.ply + 1,
            node.is_pv,
            true,
        )).score
}

/// Once alpha is raised, and beta not reached, the best score is alpha, and exact.
pub open spec fn sure(ev: Eval, v: PosView, node: Node, p: Progress, alpha: int) -> bool {
    &&& p.alpha >= alpha
    &&& p.alpha > alpha ==> p.best == p.alpha
    &&& p.alpha > alpha && p.best < node.beta ==> proven(ev, v, node, p.best_move, p.best, alpha)
}

#[verifier::rlimit(30)]
proof fn lemma_moves_sure(ev: Eval, v: PosView, node: Node, p: Progress, i: int, alpha: int)
    requires
        node.ply < MAX_PLY,
        sure(ev, v, node, p, alpha),
        0 <= i,
    ensures
        sure(ev, v, node, nm_moves(ev, v, node, p, i), alpha),
    decreases p.list.len() - i,
{
    reveal_with_fuel(nm_moves, 1);
    reveal_with_fuel(nm_child, 1);
    if i < p.list.len() {
        let list = select(p.list, i);
        lemma_select_len(p.list, i);
        let m = list[i].0;
        if hopeless_capture(v, node, m, i) || hopeless_quiet(p.mind, v, node, m, i, p.alpha) {
            lemma_moves_sure(ev, v, node, Progress { list, ..p }, i + 1, alpha);
        } else {
            let red = reduction(p.mind, v, node, m, i);
            let r = nm_child(ev, p.mind, apply(v, m), node, i, p.alpha, red);
            law_windows_are_honest(ev, p.mind, apply(v, m), node, i, p.alpha, red);
            let q = after_move(v, node, p, list, m, r);
            assert(sure(ev, v, node, q, alpha));
            let q2 = Progress { quiets: q.quiets.push(m), ..q };
            assert(sure(ev, v, node, q2, alpha));
            let q3 = Progress {
                mind: learned(q.mind, m, node.ply, node.depth, q.quiets),
                ..q
            };
            assert(sure(ev, v, node, q3, alpha));
            lemma_moves_sure(ev, v, node, q2, i + 1, alpha);
            lemma_moves_sure(ev, v, node, q, i + 1, alpha);
        }
    }
}

/// All the moves of a list are legal.
pub open spec fn legal_list(v: PosView, list: Seq<(Move, i32)>) -> bool {
    forall|j: int| 0 <= j < list.len() ==> legal(v, (#[trigger] list[j]).0)
}

/// Reordering keeps the moves.
proof fn lemma_select_legal(v: PosView, list: Seq<(Move, i32)>, i: int)
    requires
        legal_list(v, list),
        0 <= i < list.len(),
    ensures
        legal_list(v, select(list, i)),
        select(list, i).len() == list.len(),
{
    reveal(select);
    lemma_best_from(list, i, list.len() as int);
    let b = best_from(list, i, list.len() as int);
    assert(legal(v, list[b].0) && legal(v, list[i].0));
    assert forall|j: int| 0 <= j < list.len() implies legal(v, (#[trigger] select(list, i)[j]).0) by {
        assert(legal(v, list[j].0));
    }
}

/// What is known while the moves are tried: a line is there exactly if alpha was raised,
/// and it begins with the best move, whose score alpha then is.
pub open spec fn lined(p: Progress) -> bool {
    p.pv.len() > 0 ==> p.best == p.alpha && p.pv[0] == p.best_move
}

/// The best of the moves is the score of one of them, and no tried move is better.
#[verifier::rlimit(30)]
proof fn lemma_moves_answered(ev: Eval, v: PosView, node: Node, p: Progress, i: int)
    requires
        node.ply < MAX_PLY,
        node.depth >= 1,
        legal_list(v, p.list),
        lined(p),
        0 <= i,
    ensures
        ({
            let q = nm_moves(ev, v, node, p, i);
            &&& q.best >= p.best
            &&& q.alpha >= p.alpha
            &&& lined(q)
            &&& q.best == p.best && q.best_move == p.best_move || (legal(v, q.best_move)
                && answered(ev, v, node, q.best_move, q.best))
            &&& i < p.list.len() && i == 0 ==> q.best >= nm_child(
                ev,
                p.mind,
                apply(v, select(p.list, 0)[0].0),
                node,
                0,
                p.alpha,
                reduction(p.mind, v, node, select(p.list, 0)[0].0, 0),
            ).score
        }),
    decreases p.list.len() - i,
{
    reveal_with_fuel(nm_moves, 1);
    reveal_with_fuel(nm_child, 1);
    if i < p.list.len() {
        let list = select(p.list, i);
        lemma_select_legal(v, p.list, i);
        let m = list[i].0;
        assert(legal(v, list[i].0));
        reveal(hopeless_capture);
        reveal(hopeless_quiet);
        if hopeless_capture(v, node, m, i) || hopeless_quiet(p.mind, v, node, m, i, p.alpha) {
            lemma_moves_answered(ev, v, node, Progress { list, ..p }, i + 1);
        } else {
            let red = reduction(p.mind, v, node, m, i);
            law_reductions_are_bounded(p.mind, v, node, m, i);
            let r = nm_child(ev, p.mind, apply(v, m), node, i, p.alpha, red);
            lemma_child_answered(ev, p.mind, v, m, node, i, p.alpha, red);
            let q = after_move(v, node, p, list, m, r);
            assert(r.score > p.best && r.score > p.alpha ==> q.pv[0] == m);
            lemma_moves_answered(ev, v, node, Progress { quiets: q.quiets.push(m), ..q }, i + 1);
            lemma_moves_answered(ev, v, node, q, i + 1);
        }
    }
}

/// The moves that are ordered are the legal ones.
proof fn lemma_ranked_legal(mind: Mind, v: PosView, hint: Move, ply: int)
    ensures
        ranked(mind, v, hint, ply).len() == legal_moves(v).len(),
        legal_list(v, ranked(mind, v, hint, ply)),
{
    reveal(ranked);
    assert forall|j: int| 0 <= j < ranked(mind, v, hint, ply).len() implies legal(
        v,
        (#[trigger] ranked(mind, v, hint, ply)[j]).0,
    ) by {
        movegen::lemma_listed_legal(v, j);
    }
}

/// The depth that is left after a move: one ply less, unless the move answers a check.
pub open spec fn rest_depth(v: PosView, depth: int) -> int {
    if v.in_check() {
        depth
    } else {
        depth - 1
    }
}

/// On the line that is expected nothing is guessed: the score is that of a legal move, as
/// the other player's search of the position after it gives it; the line, if there is one,
/// begins with that move; and a score within the window is exact, that of a search one ply
/// less deep with the rest of the window.  The move that is tried first scores no better.
pub proof fn law_scores_are_those_of_moves(
    ev: Eval,
    mind: Mind,
    v: PosView,
    depth: int,
    alpha: int,
    beta: int,
    ply: int,
    can_null: bool,
) -> (m: Move)
    requires
        !rules::stuck(v),
        undrawn(mind, v, ply),
        0 <= ply < 127,
        depth >= 1,
        found(mind.tt, hash(v)) is None,
        nm(ev, mind, v, depth, alpha, beta, ply, true, can_null).score > -31_000,
    ensures
        legal(v, m),
        ({
            let r = nm(ev, mind, v, depth, alpha, beta, ply, true, can_null);
            &&& exists|other: Mind, d: int, a: int, b: int, is_pv: bool|
                d <= depth && r.score == -(#[trigger] nm(
                    ev,
                    other,
                    apply(v, m),
                    d,
                    a,
                    b,
                    ply + 1,
                    is_pv,
                    true,
                )).score
            &&& r.pv.len() > 0 ==> r.pv[0] == m
            &&& r.pv.len() > 0 ==> r.score > alpha
            &&& alpha < r.score < beta ==> exists|other: Mind, low: int|
                alpha <= low < r.score && r.score == -(#[trigger] nm(
                    ev,
                    other,
                    apply(v, m),
                    rest_depth(v, depth),
                    -beta,
                    -low,
                    ply + 1,
                    true,
                    true,
                )).score
            &&& exists|first: Move, other: Mind|
                legal(v, first) && r.score >= -(#[trigger] nm(
                    ev,
                    other,
                    apply(v, first),
                    rest_depth(v, depth),
                    -beta,
                    -alpha,
                    ply + 1,
                    true,
                    true,
                )).score
        }),
{
    reveal(settled);
    lemma_occurred(mind.reps, hash(v), v.half as int);
    movegen::lemma_stuck(v);
    let m1 = Mind { nodes: tick(mind.nodes), ..mind };
    let d = extended(v, depth);
    let node = assess(ev, m1, v, d, alpha, beta, ply, true);
    let m2 = noted(m1, node);
    let p = untried(m2, v, node, alpha);
    lemma_ranked_legal(m2, v, node.hint, ply);
    lemma_moves_answered(ev, v, node, p, 0);
    lemma_opened(ev, mind, v, depth, alpha, beta, ply, true, can_null);
    lemma_expanded(ev, m1, v, d, alpha, beta, ply, true, can_null);
    lemma_stored(ev, m2, v, node, alpha);
    let q = nm_moves(ev, v, node, p, 0);
    lemma_line_raised(ev, v, node, p, 0);
    assert(answered(ev, v, node, q.best_move, q.best));
    lemma_moves_sure(ev, v, node, p, 0, alpha);
    lemma_raised(ev, v, node, p, 0);
    if alpha < q.best && q.best < beta {
        assert(proven(ev, v, node, q.best_move, q.best, alpha));
    }
    assert(node.depth - 1 == rest_depth(v, depth));
    assert(p.list.len() > 0);
    lemma_select_legal(v, p.list, 0);
    let first = select(p.list, 0)[0].0;
    assert(legal(v, select(p.list, 0)[0].0));
    assert(first_score(ev, p.mind, v, first, node, alpha) <= q.best);
    law_windows_are_honest(
        ev,
        p.mind,
        apply(v, first),
        node,
        0,
        alpha,
        reduction(p.mind, v, node, first, 0),
    );
    q.best_move
}

/// What the first move scores.
spec fn first_score(ev: Eval, mind: Mind, v: PosView, m: Move, node: Node, alpha: int) -> int {
    nm_child(ev, mind, apply(v, m), node, 0, alpha, reduction(mind, v, node, m, 0)).score
}

/// Alpha is no lower than the best score of a move.
#[verifier::rlimit(30)]
proof fn lemma_raised(ev: Eval, v: PosView, node: Node, p: Progress, i: int)
    requires
        0 <= i,
        p.best <= p.alpha || p.best == -31_000,
    ensures
        nm_moves(ev, v, node, p, i).best <= nm_moves(ev, v, node, p, i).alpha || nm_moves(
            ev,
            v,
            node,
            p,
            i,
        ).best == -31_000,
    decreases p.list.len() - i,
{
    reveal_with_fuel(nm_moves, 1);
    reveal_with_fuel(nm_child, 1);
    if i < p.list.len() {
        let list = select(p.list, i);
        lemma_select_len(p.list, i);
        let m = list[i].0;
        if hopeless_capture(v, node, m, i) || hopeless_quiet(p.mind, v, node, m, i, p.alpha) {
            lemma_raised(ev, v, node, Progress { list, ..p }, i + 1);
        } else {
            let red = reduction(p.mind, v, node, m, i);
            let r = nm_child(ev, p.mind, apply(v, m), node, i, p.alpha, red);
            let q = after_move(v, node, p, list, m, r);
            lemma_raised(ev, v, node, Progress { quiets: q.quiets.push(m), ..q }, i + 1);
            lemma_raised(ev, v, node, q, i + 1);
        }
    }
}

/// A line is there only if alpha was raised.
#[verifier::rlimit(30)]
proof fn lemma_line_raised(ev: Eval, v: PosView, node: Node, p: Progress, i: int)
    requires
        0 <= i,
    ensures
        nm_moves(ev, v, node, p, i).alpha >= p.alpha,
        nm_moves(ev, v, node, p, i).pv == p.pv || nm_moves(ev, v, node, p, i).alpha > p.alpha,
    decreases p.list.len() - i,
{
    reveal_with_fuel(nm_moves, 1);
    reveal_with_fuel(nm_child, 1);
    if i < p.list.len() {
        let list = select(p.list, i);
        lemma_select_len(p.list, i);
        let m = list[i].0;
        if hopeless_capture(v, node, m, i) || hopeless_quiet(p.mind, v, node, m, i, p.alpha) {
            lemma_line_raised(ev, v, node, Progress { list, ..p }, i + 1);
        } else {
            let red = reduction(p.mind, v, node, m, i);
            let r = nm_child(ev, p.mind, apply(v, m), node, i, p.alpha, red);
            let q = after_move(v, node, p, list, m, r);
            lemma_line_raised(ev, v, node, Progress { quiets: q.quiets.push(m), ..q }, i + 1);
            lemma_line_raised(ev, v, node, q, i + 1);
        }
    }
}

// ---------------------------------------------------------------------------
// Order, reductions and what is left out.
// ---------------------------------------------------------------------------

/// Of the moves that are left the one with the highest rank is tried next, and the others
/// stay.
pub proof fn law_the_best_ranked_move_is_next(list: Seq<(Move, i32)>, i: int, j: int)
    requires
        0 <= i <= j < list.len(),
    ensures
        select(list, i)[i].1 >= list[j].1,
        select(list, i).to_multiset() == list.to_multiset(),
        forall|k: int| 0 <= k < i ==> #[trigger] select(list, i)[k] == list[k],
{
    reveal(select);
    lemma_best_from(list, i, list.len() as int);
    let b = best_from(list, i, list.len() as int);
    lemma_swap(list, i, b);
}

/// Swapping two places keeps what a list holds.
proof fn lemma_swap(list: Seq<(Move, i32)>, i: int, b: int)
    requires
        0 <= i < list.len(),
        0 <= b < list.len(),
    ensures
        list.update(i, list[b]).update(b, list[i]).to_multiset() == list.to_multiset(),
{
    broadcast use vstd::seq_lib::group_to_multiset_ensures;

    let one = list.update(i, list[b]);
    vstd::seq_lib::to_multiset_update(list, i, list[b]);
    vstd::seq_lib::to_multiset_update(one, b, list[i]);
    assert(one.update(b, list[i]).to_multiset() =~= list.to_multiset());
}

/// The move of the table is tried before any other; then captures that lose nothing and
/// promotions, then quiet moves that have refuted something at this ply, then other quiet
/// moves by their record, and captures that lose material last.
pub proof fn law_moves_are_ranked(mind: Mind, v: PosView, hint: Move, ply: int, a: Move, b: Move)
    requires
        a != hint,
        b != hint,
        a.wf() && b.wf(),
        mind.history.len() == 4096,
        forall|i: int|
            0 <= i < 4096 ==> -HISTORY_MAX <= #[trigger] mind.history[i] <= HISTORY_MAX,
    ensures
        rank_of(mind, v, hint, hint, ply) > rank_of(mind, v, a, hint, ply),
        rank_class(mind, v, a, ply) > rank_class(mind, v, b, ply) ==> rank_of(
            mind,
            v,
            a,
            hint,
            ply,
        ) > rank_of(mind, v, b, hint, ply),
        rank_class(mind, v, a, ply) == 1 && rank_class(mind, v, b, ply) == 1 && mind.history[64
            * a.from.i() + a.to.i()] > mind.history[64 * b.from.i() + b.to.i()] ==> rank_of(
            mind,
            v,
            a,
            hint,
            ply,
        ) > rank_of(mind, v, b, hint, ply),
{
    crate::search::law_order_bands(mind, v, a, hint, ply);
    crate::search::law_order_bands(mind, v, b, hint, ply);
    reveal(rank_of);
}

/// Every legal move is ordered once, by its rank.
pub proof fn law_legal_moves_are_ordered(mind: Mind, v: PosView, hint: Move, ply: int, i: int)
    requires
        0 <= i < legal_moves(v).len(),
        i32::MIN <= rank_of(mind, v, legal_moves(v)[i], hint, ply) <= i32::MAX,
    ensures
        ranked(mind, v, hint, ply).len() == legal_moves(v).len(),
        ranked(mind, v, hint, ply)[i].0 == legal_moves(v)[i],
        ranked(mind, v, hint, ply)[i].1 == rank_of(mind, v, legal_moves(v)[i], hint, ply),
{
    reveal(ranked);
}

/// The move that the table held when the position was reached is tried first, if it is
/// legal.
#[verifier::rlimit(30)]
pub proof fn law_the_tables_move_is_tried_first(
    mind: Mind,
    v: PosView,
    node: Node,
    alpha: int,
)
    requires
        legal(v, node.hint),
        mind.history.len() == 4096,
        forall|i: int|
            0 <= i < 4096 ==> -HISTORY_MAX <= #[trigger] mind.history[i] <= HISTORY_MAX,
    ensures
        untried(mind, v, node, alpha).list.len() > 0,
        select(untried(mind, v, node, alpha).list, 0)[0].0 == node.hint,
        untried(mind, v, node, alpha).best == -31_000,
        untried(mind, v, node, alpha).alpha == alpha,
        untried(mind, v, node, alpha).mind.reps == mind.reps.push(hash(v)),
{
    reveal(ranked);
    let hint = node.hint;
    let list = ranked(mind, v, hint, node.ply);
    movegen::law_legal_moves_complete(v, hint);
    let k = choose|k: int| 0 <= k < legal_moves(v).len() && legal_moves(v)[k] == hint;
    crate::search::law_order_bands(mind, v, hint, hint, node.ply);
    assert(list[k].1 == 1_000_000);
    lemma_best_from(list, 0, list.len() as int);
    let b = best_from(list, 0, list.len() as int);
    reveal(select);
    let m = legal_moves(v)[b];
    assert(list[k].1 <= list[b].1);
    if m != hint {
        movegen::lemma_listed_legal(v, b);
        law_moves_are_ranked(mind, v, hint, node.ply, m, m);
        crate::search::law_order_bands(mind, v, m, hint, node.ply);
        lemma_rank_range(mind, v, m, hint, node.ply);
    }
}

/// Ranks are small numbers.
proof fn lemma_rank_range(mind: Mind, v: PosView, m: Move, hint: Move, ply: int)
    requires
        m.wf(),
        m != hint,
        mind.history.len() == 4096,
        forall|i: int|
            0 <= i < 4096 ==> -HISTORY_MAX <= #[trigger] mind.history[i] <= HISTORY_MAX,
    ensures
        -200_000 <= rank_of(mind, v, m, hint, ply) < 1_000_000,
{
    reveal(rank_of);
    assert(0 <= butterfly(m) < 4096);
    assert(-HISTORY_MAX <= mind.history[butterfly(m)] <= HISTORY_MAX);
}

/// The class of a move other than the table's: the higher the sooner.
pub open spec fn rank_class(mind: Mind, v: PosView, m: Move, ply: int) -> int {
    let takes = m.kind == MoveType::EnPassant || (m.kind != MoveType::Castling
        && v.board[m.to.i()] is Some);
    if m.kind == MoveType::Promotion || (takes && exchange_value(v, m) >= 0) {
        3
    } else if takes {
        0
    } else if m == mind.killers[ply].0 || m == mind.killers[ply].1 {
        2
    } else {
        1
    }
}

/// A move is searched less deep only if it comes late, is quiet, has refuted nothing at this
/// ply, and neither answers nor gives a check; even then some depth is left.
pub proof fn law_reductions_are_bounded(mind: Mind, v: PosView, node: Node, m: Move, i: int)
    ensures
        reduction(mind, v, node, m, i) >= 0,
        reduction(mind, v, node, m, i) > 0 ==> {
            &&& i >= 3
            &&& node.depth >= 3
            &&& m.kind != MoveType::Promotion && m.kind != MoveType::EnPassant
            &&& m.kind == MoveType::Castling || v.board[m.to.i()] is None
            &&& m != mind.killers[node.ply].0 && m != mind.killers[node.ply].1
            &&& !node.in_check
            &&& !apply(v, m).in_check()
            &&& reduction(mind, v, node, m, i) <= node.depth - 2
        },
{
    reveal(reduction);
}

/// No move is left out on the expected line, in check, in a window around a mate, or before
/// another move was tried; nor is a promotion, or a quiet move that gives check or has refuted
/// something at this ply.
pub proof fn law_what_is_never_left_out(
    ev: Eval,
    mind: Mind,
    v: PosView,
    depth: int,
    low: int,
    alpha: int,
    beta: int,
    ply: int,
    is_pv: bool,
    m: Move,
    i: int,
)
    requires
        is_pv || v.in_check() || i == 0 || m.kind == MoveType::Promotion || beta >= 29_872 || beta
            <= -29_872 || alpha >= 29_872 || alpha <= -29_872,
    ensures
        ({
            let node = assess(ev, mind, v, depth, alpha, beta, ply, is_pv);
            !hopeless_capture(v, node, m, i) && !hopeless_quiet(mind, v, node, m, i, low)
        }),
{
    reveal(hopeless_capture);
    reveal(hopeless_quiet);
}

/// What may be left out is a capture that loses material, or a quiet move that gives no
/// check and has refuted nothing at this ply.
pub proof fn law_what_may_be_left_out(mind: Mind, v: PosView, node: Node, m: Move, i: int, low: int)
    requires
        1 <= node.depth,
    ensures
        hopeless_capture(v, node, m, i) ==> node.depth <= 6 && exchange_value(v, m) < 0,
        hopeless_quiet(mind, v, node, m, i, low) ==> {
            &&& m.kind != MoveType::EnPassant
            &&& m.kind == MoveType::Castling || v.board[m.to.i()] is None
            &&& !apply(v, m).in_check()
            &&& m != mind.killers[node.ply].0 && m != mind.killers[node.ply].1
            &&& node.depth <= 6
        },
{
    reveal(hopeless_capture);
    reveal(hopeless_quiet);
}

/// A player passes only with a knight, a bishop, a rook or a queen left, when the position
/// is judged to be good enough, and neither in check nor on the expected line; then the
/// search is shallower.
pub proof fn law_passing_is_careful(
    ev: Eval,
    mind: Mind,
    v: PosView,
    depth: int,
    alpha: int,
    beta: int,
    ply: int,
    is_pv: bool,
    can_null: bool,
)
    ensures
        ({
            let node = assess(ev, mind, v, depth, alpha, beta, ply, is_pv);
            tries_pass(v, node, can_null) ==> {
                &&& can_null
                &&& !is_pv
                &&& !v.in_check()
                &&& depth >= 3
                &&& ev(mind.asked, v) >= beta
                &&& exists|i: int|
                    0 <= i < 64 && (#[trigger] v.board[i]) is Some && v.board[i]->0.color == v.side
                        && v.board[i]->0.piece_type != PieceType::Pawn && v.board[i]->0.piece_type
                        != PieceType::King
                &&& pass_depth(depth) < depth - 3
            }
        }),
{
    reveal(tries_pass);
    reveal(has_piece);
    let node = assess(ev, mind, v, depth, alpha, beta, ply, is_pv);
    if tries_pass(v, node, can_null) {
        let i = choose|i: int| #[trigger] crate::tree::officer(v, i);
        assert(v.board[i] is Some);
    }
}

/// A position is taken to be won without trying a move only if it is judged to be above the
/// window, by more the deeper it is to be searched.
pub proof fn law_early_wins_are_clear(
    ev: Eval,
    mind: Mind,
    v: PosView,
    depth: int,
    alpha: int,
    beta: int,
    ply: int,
    is_pv: bool,
)
    requires
        depth >= 1,
    ensures
        ({
            let node = assess(ev, mind, v, depth, alpha, beta, ply, is_pv);
            overwhelming(node) ==> !is_pv && !v.in_check() && depth <= 6 && ev(mind.asked, v) >= beta
                + 90 * (depth - 1)
        }),
{
    reveal(overwhelming);
}

// ---------------------------------------------------------------------------
// What is learned.
// ---------------------------------------------------------------------------

/// A move that refutes a position gains, the quiet moves tried before it lose, and all stay
/// within the bounds.
pub proof fn law_records_follow_success(h: int, b: int)
    requires
        -16_384 <= h <= 16_384,
        0 < b <= 16_384,
    ensures
        h < nudged(h, b) <= 16_384 || h == 16_384,
        -16_384 <= nudged(h, -b) < h || h == -16_384,
        nudged(h, -b) == -nudged(-h, b),
{
    reveal(nudged);
    crate::search::law_history_bounded(h, b);
    crate::search::law_history_bounded(h, -b);
    let x = h * b;
    assert((-h) * b == -x) by (nonlinear_arith)
        requires
            x == h * b,
    ;
    assert(0 <= h < 16_384 ==> x < 16_384 * b && x >= 0) by (nonlinear_arith)
        requires
            x == h * b,
            b > 0,
    ;
    assert(h < 0 ==> x < 0) by (nonlinear_arith)
        requires
            x == h * b,
            b > 0,
    ;
    assert(-16_384 < h <= 0 ==> -x < 16_384 * b && -x >= 0) by (nonlinear_arith)
        requires
            x == h * b,
            b > 0,
    ;
    assert(h > 0 ==> x > 0) by (nonlinear_arith)
        requires
            x == h * b,
            b > 0,
    ;
    assert(h == 16_384 ==> x == 16_384 * b);
    assert(h == -16_384 ==> x == -16_384 * b);
}

/// What a refutation teaches: the slot of the move that refuted is rewarded, those of the
/// quiet moves tried before it are penalized, and the others stay.
pub proof fn law_refutations_teach(
    mind: Mind,
    m: Move,
    ply: int,
    depth: int,
    quiets: Seq<Move>,
    k: int,
)
    requires
        mind.history.len() == 4096,
        m.wf(),
        0 <= k < 4096,
        1 <= depth <= 128,
        -16_384 <= nudged(mind.history[k] as int, depth * depth) <= 16_384,
        forall|j: int| 0 <= j < quiets.len() ==> (#[trigger] quiets[j]).wf(),
        forall|j: int|
            0 <= j < quiets.len() ==> 64 * (#[trigger] quiets[j]).from.i() + quiets[j].to.i() != k,
    ensures
        64 * m.from.i() + m.to.i() != k ==> learned(mind, m, ply, depth, quiets).history[k]
            == mind.history[k],
        64 * m.from.i() + m.to.i() == k ==> learned(mind, m, ply, depth, quiets).history[k]
            == nudged(mind.history[k] as int, depth * depth),
        learned(mind, m, ply, depth, quiets).tt == mind.tt,
        learned(mind, m, ply, depth, quiets).reps == mind.reps,
{
    reveal(learned);
    reveal(rewarded);
    let b = crate::tree::bonus_of(depth);
    assert(depth * depth <= 128 * 128) by (nonlinear_arith)
        requires
            1 <= depth <= 128,
    ;
    let h = rewarded(mind.history, m, b);
    lemma_penalized_elsewhere(h, quiets, quiets.len() as int, b, k);
}

proof fn lemma_penalized_elsewhere(h: Seq<i32>, quiets: Seq<Move>, n: int, b: int, k: int)
    requires
        h.len() == 4096,
        0 <= n <= quiets.len(),
        0 <= k < 4096,
        forall|j: int| 0 <= j < quiets.len() ==> (#[trigger] quiets[j]).wf(),
        forall|j: int|
            0 <= j < quiets.len() ==> 64 * (#[trigger] quiets[j]).from.i() + quiets[j].to.i() != k,
    ensures
        penalized(h, quiets, n, b)[k] == h[k],
        penalized(h, quiets, n, b).len() == 4096,
    decreases n,
{
    reveal_with_fuel(penalized, 2);
    reveal(rewarded);
    if n > 0 {
        lemma_penalized_elsewhere(h, quiets, n - 1, b, k);
        assert(quiets[n - 1].wf());
    }
}

/// The first of several quiet moves that did not refute the position is penalized.
pub proof fn law_failures_are_penalized(h: Seq<i32>, quiets: Seq<Move>, b: int)
    requires
        h.len() == 4096,
        quiets.len() >= 1,
        0 < b <= 16_384,
        forall|j: int| 0 <= j < quiets.len() ==> (#[trigger] quiets[j]).wf(),
        forall|j: int|
            1 <= j < quiets.len() ==> 64 * (#[trigger] quiets[j]).from.i() + quiets[j].to.i() != 64
                * quiets[0].from.i() + quiets[0].to.i(),
        -16_384 < h[64 * quiets[0].from.i() + quiets[0].to.i()] <= 16_384,
    ensures
        penalized(h, quiets, quiets.len() as int, b)[64 * quiets[0].from.i() + quiets[0].to.i()]
            < h[64 * quiets[0].from.i() + quiets[0].to.i()],
{
    let k = 64 * quiets[0].from.i() + quiets[0].to.i();
    assert(quiets[0].wf());
    law_records_follow_success(h[k] as int, b);
    lemma_penalized_first(h, quiets, quiets.len() as int, b);
}

proof fn lemma_penalized_first(h: Seq<i32>, quiets: Seq<Move>, n: int, b: int)
    requires
        h.len() == 4096,
        1 <= n <= quiets.len(),
        forall|j: int| 0 <= j < quiets.len() ==> (#[trigger] quiets[j]).wf(),
        forall|j: int|
            1 <= j < quiets.len() ==> 64 * (#[trigger] quiets[j]).from.i() + quiets[j].to.i() != 64
                * quiets[0].from.i() + quiets[0].to.i(),
    ensures
        penalized(h, quiets, n, b)[64 * quiets[0].from.i() + quiets[0].to.i()] == nudged(
            h[64 * quiets[0].from.i() + quiets[0].to.i()] as int,
            -b,
        ) as i32,
        penalized(h, quiets, n, b).len() == 4096,
    decreases n,
{
    reveal_with_fuel(penalized, 2);
    reveal(rewarded);
    assert(quiets[0].wf());
    if n > 1 {
        lemma_penalized_first(h, quiets, n - 1, b);
        assert(quiets[n - 1].wf());
    }
}

/// A quiet move that refutes a position comes first among the two that are remembered at its
/// ply, and the one that was first comes second; other plies are not concerned.
pub proof fn law_refutations_are_remembered(k: Seq<(Move, Move)>, ply: int, m: Move, other: int)
    requires
        0 <= ply < k.len(),
        0 <= other < k.len(),
    ensures
        with_killer(k, ply, m)[ply].0 == m,
        k[ply].0 != m ==> with_killer(k, ply, m)[ply].1 == k[ply].0,
        k[ply].0 == m ==> with_killer(k, ply, m)[ply].1 == k[ply].1,
        other != ply ==> with_killer(k, ply, m)[other] == k[other],
{
}

// ---------------------------------------------------------------------------
// Quiescence.
// ---------------------------------------------------------------------------

/// The moves that are tried when captures are resolved are legal captures and promotions.
pub open spec fn loud_list(v: PosView, list: Seq<(Move, i32)>) -> bool {
    forall|j: int| 0 <= j < list.len() ==> is_loud(v, (#[trigger] list[j]).0)
}

/// A legal capture or promotion; one that loses material only to answer a check.
pub open spec fn is_loud(v: PosView, m: Move) -> bool {
    &&& legal(v, m)
    &&& m.kind == MoveType::Promotion || m.kind == MoveType::EnPassant || (m.kind
        != MoveType::Castling && v.board[m.to.i()] is Some)
    &&& v.in_check() || m.kind == MoveType::Promotion || exchange_value(v, m) >= 0
}

proof fn lemma_loud(v: PosView, n: int)
    requires
        0 <= n <= legal_moves(v).len(),
    ensures
        loud_list(v, loud(v, n)),
    decreases n,
{
    reveal_with_fuel(loud, 1);
    if n > 0 {
        lemma_loud(v, n - 1);
        movegen::lemma_listed_legal(v, n - 1);
        let before = loud(v, n - 1);
        assert forall|j: int| 0 <= j < loud(v, n).len() implies is_loud(
            v,
            (#[trigger] loud(v, n)[j]).0,
        ) by {
            if j < before.len() {
                assert(is_loud(v, before[j].0));
            }
        }
    }
}

/// Every legal capture and promotion is tried that loses no material, and in check every
/// one.
pub proof fn law_captures_are_tried(v: PosView, m: Move)
    requires
        is_loud(v, m),
    ensures
        exists|j: int|
            0 <= j < loud(v, legal_moves(v).len() as int).len() && (#[trigger] loud(
                v,
                legal_moves(v).len() as int,
            )[j]).0 == m,
{
    movegen::law_legal_moves_complete(v, m);
    let k = choose|k: int| 0 <= k < legal_moves(v).len() && legal_moves(v)[k] == m;
    lemma_loud_has(v, k, legal_moves(v).len() as int);
}

proof fn lemma_loud_has(v: PosView, k: int, n: int)
    requires
        0 <= k < n <= legal_moves(v).len(),
        is_loud(v, legal_moves(v)[k]),
    ensures
        exists|j: int| 0 <= j < loud(v, n).len() && (#[trigger] loud(v, n)[j]).0 == legal_moves(v)[k],
    decreases n,
{
    reveal_with_fuel(loud, 1);
    let before = loud(v, n - 1);
    if k < n - 1 {
        lemma_loud_has(v, k, n - 1);
        let j = choose|j: int| 0 <= j < before.len() && (#[trigger] before[j]).0 == legal_moves(v)[k];
        assert(loud(v, n)[j] == before[j]);
    } else {
        assert(loud(v, n)[before.len() as int].0 == legal_moves(v)[k]);
    }
}

proof fn lemma_select_loud(v: PosView, list: Seq<(Move, i32)>, i: int)
    requires
        loud_list(v, list),
        0 <= i < list.len(),
    ensures
        loud_list(v, select(list, i)),
        select(list, i).len() == list.len(),
{
    reveal(select);
    lemma_best_from(list, i, list.len() as int);
    let b = best_from(list, i, list.len() as int);
    assert(is_loud(v, list[b].0) && is_loud(v, list[i].0));
    assert forall|j: int| 0 <= j < list.len() implies is_loud(v, (#[trigger] select(list, i)[j]).0) by {
        assert(is_loud(v, list[j].0));
    }
}

/// The score is that of the position after a capture or promotion, as the other player sees
/// it.
pub open spec fn captured(ev: Eval, v: PosView, ply: int, s: int) -> bool {
    exists|m: Move, c: Count, a: int, b: int|
        is_loud(v, m) && s == -(#[trigger] calm(ev, c, apply(v, m), a, b, ply + 1)).1
}

#[verifier::rlimit(30)]
proof fn lemma_calm_captured(
    ev: Eval,
    c: Count,
    v: PosView,
    pat: int,
    beta: int,
    ply: int,
    list: Seq<(Move, i32)>,
    i: int,
    alpha: int,
    best: int,
)
    requires
        loud_list(v, list),
        0 <= i,
    ensures
        ({
            let s = calm_moves(ev, c, v, pat, beta, ply, list, i, alpha, best).1;
            s == best || captured(ev, v, ply, s)
        }),
    decreases list.len() - i,
{
    reveal_with_fuel(calm_moves, 1);
    reveal_with_fuel(calm, 1);
    if i < list.len() && ply < MAX_QPLY {
        let next = select(list, i);
        lemma_select_loud(v, list, i);
        let m = next[i].0;
        assert(is_loud(v, next[i].0));
        let r = calm(ev, c, apply(v, m), -beta, -alpha, ply + 1);
        let s = -r.1;
        assert(captured(ev, v, ply, s));
        let best2 = if s > best {
            s
        } else {
            best
        };
        let alpha2 = if s > best && s > alpha {
            s
        } else {
            alpha
        };
        lemma_calm_captured(ev, c, v, pat, beta, ply, next, i + 1, alpha, best);
        lemma_calm_captured(ev, r.0, v, pat, beta, ply, next, i + 1, alpha2, best2);
    }
}

/// When captures are resolved, the score is that of leaving the position as it is or that of
/// a legal capture or promotion, as the other player sees the position after it; a position
/// that is good enough as it is, and one without captures and promotions, is left.
pub proof fn law_quiet_scores(ev: Eval, c: Count, v: PosView, alpha: int, beta: int, ply: int)
    ensures
        ({
            let s = calm(ev, c, v, alpha, beta, ply).1;
            &&& s == ev(c.asked, v) || captured(ev, v, ply, s)
            &&& ev(c.asked, v) >= beta ==> s == ev(c.asked, v)
            &&& ply >= 32 ==> s == ev(c.asked, v)
            &&& (forall|m: Move| !#[trigger] is_loud(v, m)) ==> s == ev(c.asked, v)
        }),
{
    reveal_with_fuel(calm, 1);
    reveal_with_fuel(calm_moves, 1);
    let pat = ev(c.asked, v);
    let n = Count { nodes: tick(c.nodes), asked: c.asked + 1 };
    let list = loud(v, legal_moves(v).len() as int);
    let low = if pat > alpha {
        pat
    } else {
        alpha
    };
    lemma_loud(v, legal_moves(v).len() as int);
    lemma_calm_captured(ev, n, v, pat, beta, ply, list, 0, low, pat);
}

// ---------------------------------------------------------------------------
// Iterations.
// ---------------------------------------------------------------------------

/// The reply is that of a search of the root whose score lies within its window, or whose
/// window was open.
pub open spec fn settled_root(ev: Eval, v: PosView, depth: int, r: Reply) -> bool {
    exists|mind: Mind, a: int, b: int|
        (a < r.score < b || a == -31_000 && b == 31_000) && r == #[trigger] nm(
            ev,
            mind,
            v,
            depth,
            a,
            b,
            0,
            true,
            true,
        )
}

#[verifier::rlimit(30)]
proof fn lemma_widening_settles(
    ev: Eval,
    mind: Mind,
    v: PosView,
    depth: int,
    alpha: int,
    beta: int,
    delta: int,
)
    requires
        25 <= delta <= 1000,
        delta > 600 ==> alpha == -31_000 && beta == 31_000,
    ensures
        settled_root(ev, v, depth, widening(ev, mind, v, depth, alpha, beta, delta)),
    decreases 2000 - delta,
{
    reveal_with_fuel(widening, 1);
    let r = nm(ev, mind, v, depth, alpha, beta, 0, true, true);
    if is_mate(r.score) {
        let f = nm(ev, r.mind, v, depth, -31_000, 31_000, 0, true, true);
        assert(full_window(ev, r.mind, v, depth) == f);
        assert(settled_root(ev, v, depth, f));
    } else if alpha < r.score < beta {
        assert(settled_root(ev, v, depth, r));
    } else {
        let wider = delta + delta / 2;
        let a = if r.score <= alpha {
            crate::tree::at_least(r.score - delta, -31_000)
        } else {
            alpha
        };
        let b = if r.score <= alpha {
            crate::eval::quotient(alpha + beta, 2)
        } else {
            crate::tree::at_most(r.score + delta, 31_000)
        };
        if wider > 600 {
            if wider <= 1000 {
                lemma_widening_settles(ev, r.mind, v, depth, -31_000, 31_000, wider);
            } else {
                reveal_with_fuel(widening, 2);
                let w = nm(ev, r.mind, v, depth, -31_000, 31_000, 0, true, true);
                let f = nm(ev, w.mind, v, depth, -31_000, 31_000, 0, true, true);
                assert(settled_root(ev, v, depth, w));
                assert(settled_root(ev, v, depth, f));
            }
        } else {
            lemma_widening_settles(ev, r.mind, v, depth, a, b, wider);
        }
    }
}

/// However narrow the first window, an iteration ends with a search of the root whose score
/// is exact: within its window, or with an open one.
pub proof fn law_iterations_give_exact_scores(
    ev: Eval,
    mind: Mind,
    v: PosView,
    depth: int,
    previous: int,
)
    ensures
        settled_root(ev, v, depth, aspiration(ev, mind, v, depth, previous)),
{
    if depth < 5 || is_mate(previous) {
        let f = nm(ev, mind, v, depth, -31_000, 31_000, 0, true, true);
        assert(full_window(ev, mind, v, depth) == f);
        assert(settled_root(ev, v, depth, f));
    } else {
        lemma_widening_settles(
            ev,
            mind,
            v,
            depth,
            crate::tree::at_least(previous - 25, -31_000),
            crate::tree::at_most(previous + 25, 31_000),
            25,
        );
    }
}

// ---------------------------------------------------------------------------
// Margins.
// ---------------------------------------------------------------------------

/// How many moves are tried before late quiet moves are left out, when the position is not
/// improving; twice as many, roughly, when it is.
pub open spec fn patience(depth: int, improving: bool) -> int {
    if depth == 1 {
        if improving { 4 } else { 2 }
    } else if depth == 2 {
        if improving { 8 } else { 4 }
    } else if depth == 3 {
        if improving { 12 } else { 6 }
    } else if depth == 4 {
        if improving { 20 } else { 10 }
    } else if depth == 5 {
        if improving { 30 } else { 15 }
    } else {
        if improving { 45 } else { 23 }
    }
}

/// When a quiet move may be left out at all, it is left out exactly if it comes too late, or
/// has a poor record, or cannot be expected to reach alpha; a capture exactly if it loses more
/// than a pawn or so for each ply.
pub proof fn law_margins(mind: Mind, v: PosView, node: Node, m: Move, i: int, low: int)
    requires
        1 <= node.depth,
        node.prunable,
        i > 0,
    ensures
        rank_class(mind, v, m, node.ply) == 1 && !apply(v, m).in_check() ==> (hopeless_quiet(
            mind,
            v,
            node,
            m,
            i,
            low,
        ) <==> (node.depth <= 6 && i >= patience(node.depth, node.improving)) || (node.depth <= 3
            && mind.history[64 * m.from.i() + m.to.i()] < -2000 * node.depth) || (node.depth <= 4
            && node.eval + 100 * (node.depth + 1) <= low)),
        rank_class(mind, v, m, node.ply) == 0 ==> (hopeless_capture(v, node, m, i) <==> node.depth
            <= 6 && exchange_value(v, m) < -100 * node.depth),
{
    reveal(hopeless_capture);
    reveal(hopeless_quiet);
}

/// A capture that is not left out counts when captures are resolved: the score is no worse
/// than what it gives.  It is left out only if the player is not in check and even its prize
/// and two pawns more would not reach alpha.
pub proof fn law_promising_captures_count(
    ev: Eval,
    c: Count,
    v: PosView,
    pat: int,
    beta: int,
    ply: int,
    list: Seq<(Move, i32)>,
    i: int,
    alpha: int,
    best: int,
)
    requires
        0 <= i < list.len(),
        ply < 32,
        ({
            let m = select(list, i)[i].0;
            v.in_check() || m.kind == MoveType::Promotion || pat + prize_of(v, m) + 200 >= alpha
        }),
    ensures
        calm_moves(ev, c, v, pat, beta, ply, list, i, alpha, best).1 >= -calm(
            ev,
            c,
            apply(v, select(list, i)[i].0),
            -beta,
            -alpha,
            ply + 1,
        ).1,
        calm_moves(ev, c, v, pat, beta, ply, list, i, alpha, best).1 >= best,
{
    reveal_with_fuel(calm_moves, 1);
    reveal_with_fuel(calm, 1);
    let next = select(list, i);
    let m = next[i].0;
    assert(crate::tree::prize(v, m) == prize_of(v, m));
    let r = calm(ev, c, apply(v, m), -beta, -alpha, ply + 1);
    let s = -r.1;
    let best2 = if s > best {
        s
    } else {
        best
    };
    let alpha2 = if s > best && s > alpha {
        s
    } else {
        alpha
    };
    crate::tree::lemma_calm_moves(ev, r.0, v, pat, beta, ply, next, i + 1, alpha2, best2);
}

/// What a move takes, in centipawns.
pub open spec fn prize_of(v: PosView, m: Move) -> int {
    if m.kind == MoveType::EnPassant {
        82
    } else if m.kind == MoveType::Castling || v.board[m.to.i()] is None {
        0
    } else {
        match v.board[m.to.i()]->0.piece_type {
            PieceType::Pawn => 82,
            PieceType::Knight => 337,
            PieceType::Bishop => 365,
            PieceType::Rook => 477,
            PieceType::Queen => 1025,
            PieceType::King => 0,
        }
    }
}

/// What is known of a position: the evaluation for the player to move, unless in check, and
/// whether that player stands better than two plies ago.
pub proof fn law_positions_are_assessed(
    ev: Eval,
    mind: Mind,
    v: PosView,
    depth: int,
    alpha: int,
    beta: int,
    ply: int,
    is_pv: bool,
)
    ensures
        ({
            let node = assess(ev, mind, v, depth, alpha, beta, ply, is_pv);
            &&& node.in_check == v.in_check()
            &&& !v.in_check() ==> node.eval == ev(mind.asked, v)
            &&& node.improving <==> !v.in_check() && ply >= 2 && mind.evals[ply - 2] != i32::MIN
                && ev(mind.asked, v) > mind.evals[ply - 2]
            &&& node.prunable <==> !is_pv && !v.in_check() && -29_872 < beta < 29_872 && -29_872
                < alpha < 29_872
            &&& found(mind.tt, hash(v)) is Some ==> node.hint == found(
                mind.tt,
                hash(v),
            )->0.best_move
            &&& 0 <= ply < mind.evals.len() && !v.in_check() && i32::MIN <= ev(mind.asked, v)
                <= i32::MAX ==> noted(mind, node).evals[ply] == ev(mind.asked, v)
            &&& 0 <= ply < mind.evals.len() && v.in_check() ==> noted(mind, node).evals[ply]
                == i32::MIN
        }),
{
}

/// A quiet move with a better record is reduced no more.
pub proof fn law_good_records_are_reduced_less(
    one: Mind,
    two: Mind,
    v: PosView,
    node: Node,
    m: Move,
    i: int,
)
    requires
        one.killers == two.killers,
        one.history[64 * m.from.i() + m.to.i()] >= two.history[64 * m.from.i() + m.to.i()],
        node.depth >= 3,
    ensures
        reduction(one, v, node, m, i) <= reduction(two, v, node, m, i),
{
    reveal(reduction);
}

/// Passing is searched four plies less deep, and one more for every three plies of depth.
pub proof fn law_passes_are_searched_shallower(depth: int)
    requires
        depth >= 3,
    ensures
        pass_depth(depth) == depth - 4 - depth / 3,
        pass_depth(depth + 3) == pass_depth(depth) + 2,
{
}

/// Each iteration searches the root one ply deeper, with what the ones before it have left
/// in mind; its score and its line are the outcome, and the first move of the line is the
/// best move.
pub proof fn law_outcomes_are_those_of_the_last_iteration(
    ev: Eval,
    mind: Mind,
    v: PosView,
    depth: nat,
)
    requires
        depth > 0,
    ensures
        ({
            let o = crate::tree::deepened(ev, mind, v, depth);
            let before = crate::tree::deepened(ev, mind, v, (depth - 1) as nat);
            &&& exists|r: Reply| #[trigger]
                settled_root(ev, v, depth as int, r) && r.score == o.score && r.pv == o.pv && r.mind
                    == o.mind
            &&& o.pv.len() > 0 ==> o.best_move == o.pv[0]
            &&& o.pv.len() == 0 ==> o.best_move == before.best_move
        }),
        crate::tree::deepened(ev, mind, v, 0).best_move == legal_moves(v)[0],
        crate::tree::deepened(ev, mind, v, 0).mind == mind,
{
    let before = crate::tree::deepened(ev, mind, v, (depth - 1) as nat);
    law_iterations_give_exact_scores(ev, before.mind, v, depth as int, before.score);
    let r = aspiration(ev, before.mind, v, depth as int, before.score);
    assert(settled_root(ev, v, depth as int, r));
}

/// Scores within a hundred and twenty-eight plies of a mate are mate scores, and no others.
pub proof fn law_mate_scores(s: int)
    ensures
        is_mate(s) <==> s >= 30_000 - 128 || s <= 128 - 30_000,
{
}

/// A move that reaches beta ends the search of a position: no other is tried after it, and
/// its score is the score.
pub proof fn law_refutations_end_the_search(
    ev: Eval,
    v: PosView,
    node: Node,
    p: Progress,
    i: int,
)
    requires
        0 <= i < p.list.len(),
        ({
            let m = select(p.list, i)[i].0;
            let r = nm_child(
                ev,
                p.mind,
                apply(v, m),
                node,
                i,
                p.alpha,
                reduction(p.mind, v, node, m, i),
            );
            &&& !hopeless_capture(v, node, m, i)
            &&& !hopeless_quiet(p.mind, v, node, m, i, p.alpha)
            &&& r.score > p.best
            &&& r.score > p.alpha
            &&& r.score >= node.beta
        }),
    ensures
        ({
            let m = select(p.list, i)[i].0;
            let r = nm_child(
                ev,
                p.mind,
                apply(v, m),
                node,
                i,
                p.alpha,
                reduction(p.mind, v, node, m, i),
            );
            let q = nm_moves(ev, v, node, p, i);
            &&& q.best == r.score
            &&& q.best_move == m
            &&& q.pv == seq![m] + r.pv
            &&& q.mind.nodes == r.mind.nodes
            &&& q.mind.tt == r.mind.tt
        }),
{
    reveal_with_fuel(nm_moves, 1);
    reveal_with_fuel(nm_child, 1);
    reveal(learned);
}

/// If the other player cannot make use of a pass, the position is taken to reach beta, and no
/// more; a position that is judged far above beta is worth its evaluation; in every other
/// position the moves are tried.
pub proof fn law_guesses(
    ev: Eval,
    mind: Mind,
    v: PosView,
    depth: int,
    alpha: int,
    beta: int,
    ply: int,
    is_pv: bool,
    can_null: bool,
)
    requires
        0 <= ply < 128,
    ensures
        ({
            let node = assess(ev, mind, v, depth, alpha, beta, ply, is_pv);
            let r = nm_open(ev, mind, v, depth, alpha, beta, ply, is_pv, can_null);
            let passed = nm(
                ev,
                noted(mind, node),
                pass(v),
                depth - 4 - depth / 3,
                -beta,
                -beta + 1,
                ply + 1,
                false,
                false,
            );
            &&& overwhelming(node) ==> r.score == ev(mind.asked, v) && r.pv.len() == 0
            &&& !overwhelming(node) && tries_pass(v, node, can_null) && -passed.score >= beta
                ==> r.score == beta && r.pv.len() == 0
            &&& !overwhelming(node) && tries_pass(v, node, can_null) && -passed.score < beta ==> r
                == nm_expand(ev, passed.mind, v, node, alpha)
            &&& !overwhelming(node) && !tries_pass(v, node, can_null) ==> r == nm_expand(
                ev,
                noted(mind, node),
                v,
                node,
                alpha,
            )
        }),
{
    reveal_with_fuel(nm_open, 1);
    reveal_with_fuel(nm_expand, 1);
    reveal_with_fuel(nm, 1);
    reveal(overwhelming);
    let node = assess(ev, mind, v, depth, alpha, beta, ply, is_pv);
    assert(pass_depth(depth) == depth - 4 - depth / 3);
    let passed = nm(
        ev,
        noted(mind, node),
        pass(v),
        pass_depth(depth),
        -beta,
        -beta + 1,
        ply + 1,
        false,
        false,
    );
}

/// A player with a knight, a bishop, a rook or a queen has a piece to lose by passing, and no
/// other player has.
pub proof fn law_pawns_do_not_pass(v: PosView, i: int)
    requires
        v.board.len() == 64,
    ensures
        0 <= i < 64 && v.board[i] is Some && v.board[i]->0.color == v.side
            && v.board[i]->0.piece_type != PieceType::Pawn && v.board[i]->0.piece_type
            != PieceType::King ==> has_piece(v),
        (forall|j: int|
            0 <= j < 64 && (#[trigger] v.board[j]) is Some && v.board[j]->0.color == v.side
                ==> v.board[j]->0.piece_type == PieceType::Pawn || v.board[j]->0.piece_type
                == PieceType::King) ==> !has_piece(v),
{
    reveal(has_piece);
    if 0 <= i < 64 && v.board[i] is Some && v.board[i]->0.color == v.side
        && v.board[i]->0.piece_type != PieceType::Pawn && v.board[i]->0.piece_type
        != PieceType::King {
        assert(crate::tree::officer(v, i));
    }
    if has_piece(v) {
        let j = choose|j: int| #[trigger] crate::tree::officer(v, j);
        assert(v.board[j] is Some);
    }
}

/// Wherever moves are tried, the score is that of a legal move, as the other player's search
/// of the position after it gives it; it is no worse than that of the first move, which is
/// searched with the whole window; within the window it is exact; and it is stored.
pub proof fn law_moves_decide(ev: Eval, mind: Mind, v: PosView, node: Node, alpha: int) -> (m: Move)
    requires
        !rules::stuck(v),
        0 <= node.ply < 127,
        node.depth >= 1,
        mind.tt.len() > 0,
        nm_expand(ev, mind, v, node, alpha).score > -31_000,
    ensures
        legal(v, m),
        ({
            let r = nm_expand(ev, mind, v, node, alpha);
            &&& answered(ev, v, node, m, r.score)
            &&& alpha < r.score < node.beta ==> proven(ev, v, node, m, r.score, alpha)
            &&& r.pv.len() > 0 ==> r.pv[0] == m && r.score > alpha
            &&& exists|first: Move, other: Mind|
                legal(v, first) && r.score >= -(#[trigger] nm(
                    ev,
                    other,
                    apply(v, first),
                    node.depth - 1,
                    -node.beta,
                    -alpha,
                    node.ply + 1,
                    node.is_pv,
                    true,
                )).score
            &&& found(r.mind.tt, hash(v)) is Some
            &&& found(r.mind.tt, hash(v))->0.best_move == m
            &&& -32_768 <= node.depth <= 32_767 ==> found(r.mind.tt, hash(v))->0.depth == node.depth
            &&& found(r.mind.tt, hash(v))->0.bound == (if r.score >= node.beta {
                Bound::Lower
            } else if r.score > alpha {
                Bound::Exact
            } else {
                Bound::Upper
            })
        }),
{
    movegen::lemma_stuck(v);
    let p = untried(mind, v, node, alpha);
    lemma_ranked_legal(mind, v, node.hint, node.ply);
    lemma_moves_answered(ev, v, node, p, 0);
    lemma_stored(ev, mind, v, node, alpha);
    let q = nm_moves(ev, v, node, p, 0);
    lemma_line_raised(ev, v, node, p, 0);
    lemma_moves_sure(ev, v, node, p, 0, alpha);
    lemma_raised(ev, v, node, p, 0);
    assert(p.list.len() > 0);
    lemma_select_legal(v, p.list, 0);
    let first = select(p.list, 0)[0].0;
    assert(legal(v, select(p.list, 0)[0].0));
    assert(first_score(ev, p.mind, v, first, node, alpha) <= q.best);
    law_windows_are_honest(
        ev,
        p.mind,
        apply(v, first),
        node,
        0,
        alpha,
        reduction(p.mind, v, node, first, 0),
    );
    lemma_moves_keep(ev, v, node, p, 0);
    crate::tt::law_stored_is_found(q.mind.tt, entry_of(hash(v), q, node, alpha));
    reveal(entry_of);
    q.best_move
}

/// Captures are made: where some capture or promotion is to be tried, and
/// the position is not good enough as it is, the score is no worse than what the one with
/// the most valuable victim gives.
pub proof fn law_captures_are_made(
    ev: Eval,
    c: Count,
    v: PosView,
    alpha: int,
    beta: int,
    ply: int,
    some: Move,
) -> (m: Move)
    requires
        is_loud(v, some),
        ev(c.asked, v) < beta,
        ply < 32,
        v.in_check() || alpha <= ev(c.asked, v) + 200,
    ensures
        is_loud(v, m),
        crate::tree::mvv(v, m) >= crate::tree::mvv(v, some),
        calm(ev, c, v, alpha, beta, ply).1 >= -calm(
            ev,
            Count { nodes: tick(c.nodes), asked: c.asked + 1 },
            apply(v, m),
            -beta,
            if ev(c.asked, v) > alpha {
                -ev(c.asked, v)
            } else {
                -alpha
            },
            ply + 1,
        ).1,
{
    reveal_with_fuel(calm, 1);
    reveal_with_fuel(calm_moves, 1);
    let pat = ev(c.asked, v);
    let n = Count { nodes: tick(c.nodes), asked: c.asked + 1 };
    let len = legal_moves(v).len() as int;
    let list = loud(v, len);
    let low = if pat > alpha {
        pat
    } else {
        alpha
    };
    law_captures_are_tried(v, some);
    let j = choose|j: int| 0 <= j < list.len() && (#[trigger] list[j]).0 == some;
    lemma_loud(v, len);
    lemma_select_loud(v, list, 0);
    let m = select(list, 0)[0].0;
    assert(is_loud(v, select(list, 0)[0].0));
    law_the_best_ranked_move_is_next(list, 0, j);
    lemma_loud_rank(v, len, j);
    reveal(select);
    lemma_best_from(list, 0, list.len() as int);
    lemma_loud_rank(v, len, best_from(list, 0, list.len() as int));
    assert(is_loud(v, some));
    assert(prize_of(v, m) >= 0);
    law_promising_captures_count(ev, n, v, pat, beta, ply, list, 0, low, pat);
    m
}

/// The captures are ordered by victim and attacker.
proof fn lemma_loud_rank(v: PosView, n: int, j: int)
    requires
        0 <= n <= legal_moves(v).len(),
        0 <= j < loud(v, n).len(),
    ensures
        loud(v, n)[j].1 == crate::tree::mvv(v, loud(v, n)[j].0) as i32,
    decreases n,
{
    reveal_with_fuel(loud, 1);
    if n > 0 {
        let before = loud(v, n - 1);
        if j < before.len() {
            lemma_loud_rank(v, n - 1, j);
            assert(loud(v, n)[j] == before[j]);
        }
    }
}

} // verus!
