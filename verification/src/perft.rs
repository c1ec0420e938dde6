//! Counting the positions that can be reached: a check on move generation.

use vstd::prelude::*;

use crate::movegen;
use crate::movegen::{generate_legal, legal_moves};
use crate::position::Position;
use crate::rules::{PosView, apply};
use crate::text;
use crate::text::dec;
use crate::types::Move;

verus! {

/// How many positions are `depth` moves away, counted with repetition.
pub open spec fn count_nodes(v: PosView, depth: nat) -> nat
    decreases depth, 0nat,
{
    if depth == 0 {
        1
    } else {
        count_after(v, legal_moves(v), legal_moves(v).len(), (depth - 1) as nat)
    }
}

/// The positions that are `depth` moves away after one of the first `n` moves.
pub open spec fn count_after(v: PosView, ms: Seq<Move>, n: nat, depth: nat) -> nat
    decreases depth, n + 1,
{
    if n == 0 {
        0
    } else {
        count_after(v, ms, (n - 1) as nat, depth) + count_nodes(apply(v, ms[n - 1]), depth)
    }
}

/// The largest count that is told apart.
pub open spec fn capped(n: nat) -> u64 {
    if n > u64::MAX {
        u64::MAX
    } else {
        n as u64
    }
}

/// Count the positions that are `depth` moves away; a count that does not fit is
/// reported as the largest number.
pub fn perft(pos: &Position, depth: u32) -> (r: u64)
    requires
        pos.wf(),
    ensures
        r == capped(count_nodes(pos@, depth as nat)),
    decreases depth,
{
    if depth == 0 {
        return 1;
    }
    let moves = generate_legal(pos);
    let mut total: u64 = 0;
    let mut i: usize = 0;
    while i < moves.len()
        invariant
            i <= moves@.len(),
            pos.wf(),
            depth > 0,
            moves@ == legal_moves(pos@),
            total == capped(count_after(pos@, moves@, i as nat, (depth - 1) as nat)),
        decreases moves@.len() - i,
    {
        proof {
            movegen::lemma_listed_legal(pos@, i as int);
        }
        let mut after: Position = *pos;
        let _ = after.make_move(moves.get(i));
        let n: u64 = perft(&after, depth - 1);
        total = total.saturating_add(n);
        i = i + 1;
    }
    total
}

/// The count after each legal move.
pub fn perft_divide(pos: &Position, depth: u32) -> (r: Vec<(Move, u64)>)
    requires
        pos.wf(),
    ensures
        depth == 0 ==> r@.len() == 0,
        depth > 0 ==> {
            &&& r@.len() == legal_moves(pos@).len()
            &&& forall|i: int|
                0 <= i < r@.len() ==> (#[trigger] r@[i]).0 == legal_moves(pos@)[i] && r@[i].1 == capped(
                    count_nodes(apply(pos@, legal_moves(pos@)[i]), (depth - 1) as nat),
                )
        },
        forall|i: int| 0 <= i < r@.len() ==> (#[trigger] r@[i]).0.wf(),
{
    let mut out: Vec<(Move, u64)> = Vec::new();
    if depth == 0 {
        return out;
    }
    let moves = generate_legal(pos);
    let mut i: usize = 0;
    while i < moves.len()
        invariant
            i <= moves@.len(),
            pos.wf(),
            depth > 0,
            moves@ == legal_moves(pos@),
            out@.len() == i,
            forall|j: int|
                0 <= j < i ==> (#[trigger] out@[j]).0 == moves@[j] && out@[j].0.wf() && out@[j].1
                    == capped(count_nodes(apply(pos@, moves@[j]), (depth - 1) as nat)),
        decreases moves@.len() - i,
    {
        proof {
            movegen::lemma_listed_legal(pos@, i as int);
        }
        let m = moves.get(i);
        let mut after: Position = *pos;
        let _ = after.make_move(m);
        out.push((m, perft(&after, depth - 1)));
        i = i + 1;
    }
    out
}

/// One line for each move: the move, a colon and its count.
pub open spec fn divide_lines(d: Seq<(Move, u64)>) -> Seq<char>
    decreases d.len(),
{
    if d.len() == 0 {
        seq![]
    } else {
        divide_lines(d.drop_last()) + d.last().0.uci() + seq![':', ' '] + dec(d.last().1 as nat)
            + seq!['\n']
    }
}

/// The sum of the counts.
pub open spec fn divide_total(d: Seq<(Move, u64)>) -> nat
    decreases d.len(),
{
    if d.len() == 0 {
        0
    } else {
        divide_total(d.drop_last()) + d.last().1 as nat
    }
}

/// The counts as text, one move to a line, followed by their sum.
pub fn format_divide(d: &Vec<(Move, u64)>) -> (r: String)
    requires
        forall|i: int| 0 <= i < d@.len() ==> (#[trigger] d@[i]).0.wf(),
    ensures
        r@ == divide_lines(d@) + "Total: "@ + dec(capped(divide_total(d@)) as nat) + seq!['\n'],
{
    let mut out = String::new();
    let mut total: u64 = 0;
    let mut i: usize = 0;
    assert(out@ =~= divide_lines(d@.take(0)));
    while i < d.len()
        invariant
            i <= d@.len(),
            forall|j: int| 0 <= j < d@.len() ==> (#[trigger] d@[j]).0.wf(),
            out@ == divide_lines(d@.take(i as int)),
            total == capped(divide_total(d@.take(i as int))),
        decreases d@.len() - i,
    {
        let ghost so_far = out@;
        let (m, n): (Move, u64) = d[i];
        assert(d@[i as int].0.wf());
        text::push_str(&mut out, m.to_string().as_str());
        out.push(':');
        out.push(' ');
        text::push_u64(&mut out, n);
        out.push('\n');
        total = total.saturating_add(n);
        proof {
            assert(d@.take(i as int + 1).drop_last() =~= d@.take(i as int));
            assert(out@ =~= so_far + m.uci() + seq![':', ' '] + dec(n as nat) + seq!['\n']);
        }
        i = i + 1;
    }
    assert(d@.take(i as int) =~= d@);
    let ghost lines = out@;
    text::push_str(&mut out, "Total: ");
    text::push_u64(&mut out, total);
    out.push('\n');
    assert(out@ =~= lines + "Total: "@ + dec(total as nat) + seq!['\n']);
    out
}

/// The counts after each legal move add up to the count of the position.
pub proof fn law_divide_adds_up(v: PosView, depth: nat, d: Seq<(Move, u64)>)
    requires
        depth > 0,
        d.len() == legal_moves(v).len(),
        forall|i: int|
            0 <= i < d.len() ==> (#[trigger] d[i]).1 == count_nodes(
                apply(v, legal_moves(v)[i]),
                (depth - 1) as nat,
            ),
    ensures
        divide_total(d) == count_nodes(v, depth),
{
    lemma_divide_prefix(v, depth, d, d.len());
    assert(d.take(d.len() as int) =~= d);
}

proof fn lemma_divide_prefix(v: PosView, depth: nat, d: Seq<(Move, u64)>, n: nat)
    requires
        depth > 0,
        n <= d.len(),
        d.len() == legal_moves(v).len(),
        forall|i: int|
            0 <= i < d.len() ==> (#[trigger] d[i]).1 == count_nodes(
                apply(v, legal_moves(v)[i]),
                (depth - 1) as nat,
            ),
    ensures
        divide_total(d.take(n as int)) == count_after(v, legal_moves(v), n, (depth - 1) as nat),
    decreases n,
{
    if n > 0 {
        let t = d.take(n as int);
        assert(t.drop_last() =~= d.take(n as int - 1));
        assert(t.last() == d[n - 1]);
        lemma_divide_prefix(v, depth, d, (n - 1) as nat);
    }
}

/// No move away there is one position, and one move away there is one for each legal move.
pub proof fn law_first_counts(v: PosView)
    ensures
        count_nodes(v, 0) == 1,
        count_nodes(v, 1) == legal_moves(v).len(),
{
    lemma_count_leaves(v, legal_moves(v), legal_moves(v).len());
}

proof fn lemma_count_leaves(v: PosView, ms: Seq<Move>, n: nat)
    ensures
        count_after(v, ms, n, 0) == n,
    decreases n,
{
    reveal_with_fuel(count_nodes, 2);
    reveal_with_fuel(count_after, 2);
    if n > 0 {
        assert(count_nodes(apply(v, ms[n - 1]), 0) == 1);
        lemma_count_leaves(v, ms, (n - 1) as nat);
    }
}

} // verus!
