//! The mathematical model of the per-key search: register semantics,
//! interleavings of client queues, and what it means for a sub-timeline to be
//! linearizable.

use vstd::prelude::*;
use crate::check::{CkData, CkSpan};
use crate::types::{Consistency, Timestamp, ValType};

verus! {

/// Whether the register, holding `state`, can have produced what `d` records.
/// A read must have seen the current value, a compare-and-swap must have
/// found its expected value, a write is always possible.
pub open spec fn accepts(state: Option<ValType>, d: CkData) -> bool {
    match d {
        CkData::Read { val } => state == val,
        CkData::Write { .. } => true,
        CkData::Rmw { rval, .. } => state == rval,
    }
}

/// The register's value after `d` took effect on `state`.
pub open spec fn next_state(state: Option<ValType>, d: CkData) -> Option<ValType> {
    match d {
        CkData::Read { .. } => state,
        CkData::Write { val } => Some(val),
        CkData::Rmw { wval, .. } => wval,
    }
}

/// A search node: the register's value after some linearized prefix, and for
/// each client the number of its spans that the prefix holds.
pub struct Node {
    pub state: Option<ValType>,
    pub prog: Seq<nat>,
}

/// The node before anything is placed: the register was never written and no
/// client has progressed.
pub open spec fn initial(clients: nat) -> Node {
    Node { state: None, prog: Seq::new(clients, |c: int| 0nat) }
}

/// Machine-sized progress counts as mathematical ones.
pub open spec fn progress_of(prog: Seq<usize>) -> Seq<nat> {
    Seq::new(prog.len(), |c: int| prog[c] as nat)
}

/// The node that a register value and machine-sized progress counts stand for.
pub open spec fn node_of(state: Option<ValType>, prog: Seq<usize>) -> Node {
    Node { state, prog: progress_of(prog) }
}

/// Different progress counts stand for different nodes.
pub proof fn lemma_progress_injective(a: Seq<usize>, b: Seq<usize>)
    requires
        progress_of(a) == progress_of(b),
    ensures
        a == b,
{
    assert(a.len() == progress_of(a).len());
    assert(b.len() == progress_of(b).len());
    assert forall|c: int| 0 <= c < a.len() implies a[c] == b[c] by {
        assert(progress_of(a)[c] == a[c] as nat);
        assert(progress_of(b)[c] == b[c] as nat);
    }
    assert(a =~= b);
}

/// Span `i` of client `d` belongs to the prefix that `prog` describes.
pub open spec fn placed(q: Seq<Seq<CkSpan>>, prog: Seq<nat>, d: int, i: int) -> bool {
    0 <= d < q.len() && d < prog.len() && 0 <= i < prog[d] && i < q[d].len()
}

/// The real-time rule for placing `s` after the prefix `prog`: no span of the
/// prefix was invoked after `s` had finished. Equal boundaries are admitted.
pub open spec fn realtime_ok(q: Seq<Seq<CkSpan>>, prog: Seq<nat>, s: CkSpan) -> bool {
    forall|d: int, i: int| #[trigger] placed(q, prog, d, i) ==> q[d][i].invoke <= s.finish
}

/// Whether the next span of client `c` can be appended to the prefix `n`.
pub open spec fn can_feed(q: Seq<Seq<CkSpan>>, n: Node, c: int) -> bool {
    &&& n.prog.len() == q.len()
    &&& 0 <= c < q.len()
    &&& n.prog[c] < q[c].len()
    &&& realtime_ok(q, n.prog, q[c][n.prog[c] as int])
    &&& accepts(n.state, q[c][n.prog[c] as int].data)
}

/// The node reached by appending the next span of client `c` to `n`.
pub open spec fn feed(q: Seq<Seq<CkSpan>>, n: Node, c: int) -> Node {
    Node {
        state: next_state(n.state, q[c][n.prog[c] as int].data),
        prog: n.prog.update(c, (n.prog[c] + 1) as nat),
    }
}

/// The node that a schedule leads to. A schedule names, step by step, the
/// client whose next span is placed; it is `None` as soon as one step breaks
/// the real-time rule or the register's semantics, or names a client with
/// nothing left.
pub open spec fn run(q: Seq<Seq<CkSpan>>, s: Seq<int>) -> Option<Node>
    decreases s.len(),
{
    if s.len() == 0 {
        Some(initial(q.len()))
    } else {
        match run(q, s.drop_last()) {
            Some(n) => if can_feed(q, n, s.last()) {
                Some(feed(q, n, s.last()))
            } else {
                None
            },
            None => None,
        }
    }
}

/// Every span of every client is placed.
pub open spec fn complete(q: Seq<Seq<CkSpan>>, n: Node) -> bool {
    &&& n.prog.len() == q.len()
    &&& forall|c: int| 0 <= c < q.len() ==> n.prog[c] == #[trigger] q[c].len()
}

/// `s` is a schedule that places every span: a total order of the spans that
/// keeps each client's own order, obeys the real-time rule, and that the
/// register accepts step by step starting from "never written".
pub open spec fn is_linearization(q: Seq<Seq<CkSpan>>, s: Seq<int>) -> bool {
    match run(q, s) {
        Some(n) => complete(q, n),
        None => false,
    }
}

/// The sub-timeline `q` (one queue of spans per client) is linearizable.
pub open spec fn linearizable(q: Seq<Seq<CkSpan>>) -> bool {
    exists|s: Seq<int>| is_linearization(q, s)
}

/// Some schedule leads to `n`.
pub open spec fn reachable(q: Seq<Seq<CkSpan>>, n: Node) -> bool {
    exists|s: Seq<int>| run(q, s) == Some(n)
}

/// `prog` stays within the queues: one count per client, none beyond the
/// client's queue.
pub open spec fn within(q: Seq<Seq<CkSpan>>, prog: Seq<nat>) -> bool {
    &&& prog.len() == q.len()
    &&& forall|c: int| 0 <= c < q.len() ==> #[trigger] prog[c] <= q[c].len()
}

/// `m` is the latest invocation time among the spans of the prefix `prog`,
/// or zero where the prefix is empty.
pub open spec fn is_max_invoke(q: Seq<Seq<CkSpan>>, prog: Seq<nat>, m: Timestamp) -> bool {
    &&& forall|d: int, i: int| #[trigger] placed(q, prog, d, i) ==> q[d][i].invoke <= m
    &&& (m == 0 || exists|d: int, i: int| #[trigger] placed(q, prog, d, i) && q[d][i].invoke == m)
}

/// The number of spans in the prefix `prog`.
pub open spec fn depth(prog: Seq<nat>) -> nat
    decreases prog.len(),
{
    if prog.len() == 0 {
        0
    } else {
        depth(prog.drop_last()) + prog.last()
    }
}

/// The queue length of each client.
pub open spec fn lens(q: Seq<Seq<CkSpan>>) -> Seq<nat> {
    Seq::new(q.len(), |c: int| q[c].len())
}

/// The number of spans in the sub-timeline.
pub open spec fn total(q: Seq<Seq<CkSpan>>) -> nat {
    depth(lens(q))
}

/// The guard on the latest invocation time decides the real-time rule.
pub proof fn lemma_guard(q: Seq<Seq<CkSpan>>, prog: Seq<nat>, m: Timestamp, s: CkSpan)
    requires
        is_max_invoke(q, prog, m),
    ensures
        realtime_ok(q, prog, s) <==> !(s.finish < m),
{
    if m != 0 {
        let (d, i) = choose|d: int, i: int| #[trigger] placed(q, prog, d, i) && q[d][i].invoke == m;
        assert(placed(q, prog, d, i));
    }
}

/// Placing the next span of client `c` raises the latest invocation time to
/// that span's, where it is later.
pub proof fn lemma_max_invoke_feed(q: Seq<Seq<CkSpan>>, prog: Seq<nat>, m: Timestamp, c: int)
    requires
        within(q, prog),
        is_max_invoke(q, prog, m),
        0 <= c < q.len(),
        prog[c] < q[c].len(),
    ensures
        within(q, prog.update(c, (prog[c] + 1) as nat)),
        is_max_invoke(
            q,
            prog.update(c, (prog[c] + 1) as nat),
            if q[c][prog[c] as int].invoke > m {
                q[c][prog[c] as int].invoke
            } else {
                m
            },
        ),
{
    let next = prog.update(c, (prog[c] + 1) as nat);
    let s = q[c][prog[c] as int];
    let m2 = if s.invoke > m { s.invoke } else { m };
    assert forall|d: int, i: int| #[trigger] placed(q, next, d, i) implies q[d][i].invoke <= m2 by {
        if d == c && i == prog[c] {
        } else {
            assert(placed(q, prog, d, i));
        }
    }
    if m2 != 0 {
        if s.invoke > m {
            assert(placed(q, next, c, prog[c] as int));
        } else {
            let (d, i) = choose|d: int, i: int| #[trigger]
                placed(q, prog, d, i) && q[d][i].invoke == m;
            assert(placed(q, next, d, i));
        }
    }
}

/// Changing one count changes the depth by as much.
pub proof fn lemma_depth_update(prog: Seq<nat>, c: int, v: nat)
    requires
        0 <= c < prog.len(),
    ensures
        depth(prog.update(c, v)) == depth(prog) - prog[c] + v,
    decreases prog.len(),
{
    let next = prog.update(c, v);
    if c == prog.len() - 1 {
        assert(next.drop_last() =~= prog.drop_last());
    } else {
        assert(next.drop_last() =~= prog.drop_last().update(c, v));
        lemma_depth_update(prog.drop_last(), c, v);
    }
}

/// Counts that are pointwise smaller add up to less, and to the same only
/// where they are the same.
pub proof fn lemma_depth_le(a: Seq<nat>, b: Seq<nat>)
    requires
        a.len() == b.len(),
        forall|c: int| 0 <= c < a.len() ==> a[c] <= b[c],
    ensures
        depth(a) <= depth(b),
        depth(a) == depth(b) ==> a =~= b,
    decreases a.len(),
{
    if a.len() > 0 {
        lemma_depth_le(a.drop_last(), b.drop_last());
        if depth(a) == depth(b) {
            assert(a.drop_last() =~= b.drop_last());
            assert forall|c: int| 0 <= c < a.len() implies a[c] == b[c] by {
                if c < a.len() - 1 {
                    assert(a[c] == a.drop_last()[c]);
                    assert(b[c] == b.drop_last()[c]);
                }
            }
        }
    }
}

/// A node within the queues is complete exactly when its depth is the number
/// of spans.
pub proof fn lemma_complete_depth(q: Seq<Seq<CkSpan>>, n: Node)
    requires
        within(q, n.prog),
    ensures
        depth(n.prog) <= total(q),
        complete(q, n) <==> depth(n.prog) == total(q),
{
    lemma_depth_le(n.prog, lens(q));
    if complete(q, n) {
        assert(n.prog =~= lens(q));
    }
    if depth(n.prog) == total(q) {
        assert forall|c: int| 0 <= c < q.len() implies n.prog[c] == #[trigger] q[c].len() by {
            assert(n.prog[c] == lens(q)[c]);
        }
    }
}

/// The empty schedule leads to the initial node.
pub proof fn lemma_reachable_initial(q: Seq<Seq<CkSpan>>)
    ensures
        reachable(q, initial(q.len())),
        within(q, initial(q.len()).prog),
        depth(initial(q.len()).prog) == 0,
        is_max_invoke(q, initial(q.len()).prog, 0),
{
    assert(run(q, Seq::<int>::empty()) == Some(initial(q.len())));
    lemma_depth_zero(q.len());
}

/// Nothing placed is depth zero.
pub proof fn lemma_depth_zero(clients: nat)
    ensures
        depth(Seq::new(clients, |c: int| 0nat)) == 0,
    decreases clients,
{
    if clients > 0 {
        lemma_depth_zero((clients - 1) as nat);
        assert(Seq::new(clients, |c: int| 0nat).drop_last() =~= Seq::new(
            (clients - 1) as nat,
            |c: int| 0nat,
        ));
    }
}

/// One more step from a reachable node leads to a reachable node, one deeper.
pub proof fn lemma_reachable_feed(q: Seq<Seq<CkSpan>>, n: Node, c: int)
    requires
        reachable(q, n),
        can_feed(q, n, c),
    ensures
        reachable(q, feed(q, n, c)),
        depth(feed(q, n, c).prog) == depth(n.prog) + 1,
{
    let s = choose|s: Seq<int>| run(q, s) == Some(n);
    assert(s.push(c).drop_last() =~= s);
    assert(run(q, s.push(c)) == Some(feed(q, n, c)));
    lemma_depth_update(n.prog, c, (n.prog[c] + 1) as nat);
}

/// Every reachable node stays within the queues.
pub proof fn lemma_reachable_within(q: Seq<Seq<CkSpan>>, s: Seq<int>)
    requires
        run(q, s) is Some,
    ensures
        within(q, run(q, s)->0.prog),
        depth(run(q, s)->0.prog) == s.len(),
    decreases s.len(),
{
    if s.len() == 0 {
        lemma_depth_zero(q.len());
    } else {
        lemma_reachable_within(q, s.drop_last());
        let n = run(q, s.drop_last())->0;
        lemma_depth_update(n.prog, s.last(), (n.prog[s.last()] + 1) as nat);
    }
}

/// The nodes that the search has to expand before it can decide: those that
/// some schedule leads to and that leave a span unplaced.
pub open spec fn incomplete_reachable(q: Seq<Seq<CkSpan>>) -> Set<Node> {
    Set::new(|n: Node| reachable(q, n) && !complete(q, n))
}

/// More than `limit` distinct nodes have to be expanded before the search on
/// `q` can decide.
pub open spec fn search_space_exceeds(q: Seq<Seq<CkSpan>>, limit: nat) -> bool {
    exists|f: Set<Node>|
        f.finite() && f.len() > limit && #[trigger] f.subset_of(incomplete_reachable(q))
}

/// The verdict on one key.
pub open spec fn verdict(q: Seq<Seq<CkSpan>>) -> Consistency {
    if linearizable(q) {
        Consistency::Linearizable
    } else {
        Consistency::Weak
    }
}

} // verus!
