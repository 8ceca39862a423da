//! The invariant of the breadth-first search, and why the search decides
//! linearizability.
//!
//! The search keeps a queue of pending possibilities and the set of nodes it
//! has generated. A node leaves the queue when it is expanded: each client's
//! next span is offered to it, and every node that results is generated. The
//! proofs here show that the queue holds reachable nodes in order of depth,
//! that every generated node is pending or expanded, and that every successor
//! of an expanded node was generated. From these the two verdicts follow.

use vstd::prelude::*;
use vstd::set_lib::lemma_len_subset;
use crate::check::{CkSpan, Possibility, PossibilityView};
use crate::model::{
    accepts,
    can_feed,
    complete,
    depth,
    feed,
    incomplete_reachable,
    initial,
    is_linearization,
    is_max_invoke,
    lemma_complete_depth,
    lemma_guard,
    lemma_max_invoke_feed,
    lemma_reachable_feed,
    lemma_reachable_initial,
    lemma_reachable_within,
    linearizable,
    reachable,
    run,
    search_space_exceeds,
    total,
    within,
    Node,
};

verus! {

/// The state of a search.
pub struct Search {
    /// The pending possibilities, oldest first.
    pub pending: Seq<Possibility>,
    /// The nodes generated so far.
    pub seen: Set<Node>,
    /// The nodes expanded so far.
    pub done: Set<Node>,
    /// The depth of the oldest pending possibilities.
    pub level: nat,
    /// How many pending possibilities have that depth; the others are one
    /// deeper.
    pub front: nat,
}

/// The node `n` is expanded: it leaves a span unplaced, and every node that
/// one more step leads to from it was generated.
pub open spec fn expanded(q: Seq<Seq<CkSpan>>, seen: Set<Node>, n: Node) -> bool {
    &&& !complete(q, n)
    &&& forall|c: int| #[trigger] can_feed(q, n, c) ==> seen.contains(feed(q, n, c))
}

/// Some pending possibility stands for `n`.
pub open spec fn is_pending(pending: Seq<Possibility>, n: Node) -> bool {
    exists|i: int| 0 <= i < pending.len() && (#[trigger] pending[i]).key() == n
}

/// What holds of a search between two steps. While a node is being expanded,
/// `cur` is that node and `upto` the number of clients already offered.
pub open spec fn inv(q: Seq<Seq<CkSpan>>, st: Search, cur: Option<Node>, upto: int) -> bool {
    &&& st.front <= st.pending.len()
    &&& forall|i: int|
        0 <= i < st.pending.len() ==> {
            &&& (#[trigger] st.pending[i]).fits(q)
            &&& reachable(q, st.pending[i].key())
            &&& st.seen.contains(st.pending[i].key())
            &&& !st.done.contains(st.pending[i].key())
            &&& depth(st.pending[i].key().prog) == if i < st.front {
                st.level
            } else {
                st.level + 1
            }
        }
    &&& forall|i: int, j: int|
        0 <= i < j < st.pending.len() ==> (#[trigger] st.pending[i]).key() != (
        #[trigger] st.pending[j]).key()
    &&& st.seen.contains(initial(q.len()))
    &&& st.done.finite()
    &&& forall|n: Node| #[trigger]
        st.done.contains(n) ==> st.seen.contains(n) && reachable(q, n) && expanded(q, st.seen, n)
    &&& forall|n: Node| #[trigger]
        st.seen.contains(n) ==> st.done.contains(n) || cur == Some(n) || is_pending(st.pending, n)
    &&& cur matches Some(k) ==> {
        &&& st.seen.contains(k)
        &&& !st.done.contains(k)
        &&& reachable(q, k)
        &&& within(q, k.prog)
        &&& !complete(q, k)
        &&& depth(k.prog) == st.level
        &&& forall|i: int| 0 <= i < st.pending.len() ==> (#[trigger] st.pending[i]).key() != k
        &&& forall|c: int| 0 <= c < upto && #[trigger] can_feed(q, k, c) ==> st.seen.contains(feed(q, k, c))
    }
}

/// The search starts from the one possibility in which nothing is placed.
pub proof fn lemma_start(q: Seq<Seq<CkSpan>>, p: Possibility)
    requires
        p@ == PossibilityView::initial(q.len()),
    ensures
        p.key() == initial(q.len()),
        inv(
            q,
            Search {
                pending: seq![p],
                seen: Set::empty().insert(initial(q.len())),
                done: Set::empty(),
                level: 0,
                front: 1,
            },
            None,
            0,
        ),
{
    lemma_reachable_initial(q);
    assert(p.key().prog =~= initial(q.len()).prog);
    let st = Search {
        pending: seq![p],
        seen: Set::empty().insert(initial(q.len())),
        done: Set::empty(),
        level: 0,
        front: 1,
    };
    assert(st.pending[0] == p);
    assert forall|n: Node| #[trigger] st.seen.contains(n) implies st.done.contains(n) || is_pending(
        st.pending,
        n,
    ) by {
        assert(st.pending[0].key() == n);
    }
}

/// Once the oldest depth is used up, the pending possibilities are all one
/// deeper, and that depth becomes the oldest.
pub proof fn lemma_next_level(q: Seq<Seq<CkSpan>>, st: Search)
    requires
        inv(q, st, None, 0),
        st.front == 0,
    ensures
        inv(q, Search { level: st.level + 1, front: st.pending.len(), ..st }, None, 0),
{
}

/// Taking the oldest possibility out of the queue to expand it.
pub proof fn lemma_pop(q: Seq<Seq<CkSpan>>, st: Search)
    requires
        inv(q, st, None, 0),
        st.front >= 1,
        !complete(q, st.pending[0].key()),
    ensures
        inv(
            q,
            Search {
                pending: st.pending.subrange(1, st.pending.len() as int),
                front: (st.front - 1) as nat,
                ..st
            },
            Some(st.pending[0].key()),
            0,
        ),
{
    let rest = st.pending.subrange(1, st.pending.len() as int);
    let st2 = Search { pending: rest, front: (st.front - 1) as nat, ..st };
    let k = st.pending[0].key();
    assert forall|i: int| 0 <= i < rest.len() implies {
        &&& (#[trigger] rest[i]).fits(q)
        &&& reachable(q, rest[i].key())
        &&& st2.seen.contains(rest[i].key())
        &&& !st2.done.contains(rest[i].key())
        &&& depth(rest[i].key().prog) == if i < st2.front {
            st2.level
        } else {
            st2.level + 1
        }
        &&& rest[i].key() != k
    } by {
        assert(rest[i] == st.pending[i + 1]);
    }
    assert forall|i: int, j: int| 0 <= i < j < rest.len() implies (#[trigger] rest[i]).key() != (
    #[trigger] rest[j]).key() by {
        assert(rest[i] == st.pending[i + 1]);
        assert(rest[j] == st.pending[j + 1]);
    }
    assert forall|n: Node| #[trigger] st2.seen.contains(n) implies st2.done.contains(n) || Some(k)
        == Some(n) || is_pending(rest, n) by {
        if !st.done.contains(n) && k != n {
            let i = choose|i: int| 0 <= i < st.pending.len() && (#[trigger] st.pending[i]).key() == n;
            assert(rest[i - 1] == st.pending[i]);
        }
    }
}

/// What the guard and the register decide of one offer is what the model
/// asks, and the possibility that results stands for the model's next node.
pub proof fn lemma_offer(q: Seq<Seq<CkSpan>>, p: Possibility, c: usize)
    requires
        p.fits(q),
        c < q.len(),
        p.feed_prog@[c as int] < q[c as int].len(),
        p.feed_prog@[c as int] < usize::MAX,
    ensures
        ({
            let s = q[c as int][p.feed_prog@[c as int] as int];
            let next = p@.appended(s, (c, p.feed_prog@[c as int]));
            &&& can_feed(q, p.key(), c as int) <==> s.finish >= p.max_invoke && accepts(
                p.state,
                s.data,
            )
            &&& next.key() == feed(q, p.key(), c as int)
            &&& within(q, next.key().prog)
            &&& is_max_invoke(q, next.key().prog, next.max_invoke)
        }),
{
    let k = p.key();
    let s = q[c as int][p.feed_prog@[c as int] as int];
    let next = p@.appended(s, (c, p.feed_prog@[c as int]));
    assert(k.prog[c as int] == p.feed_prog@[c as int]);
    lemma_guard(q, k.prog, p.max_invoke, s);
    lemma_max_invoke_feed(q, k.prog, p.max_invoke, c as int);
    assert(next.key().prog =~= feed(q, k, c as int).prog);
}

/// An offer that generates nothing new.
pub proof fn lemma_keep(q: Seq<Seq<CkSpan>>, st: Search, k: Node, c: int)
    requires
        inv(q, st, Some(k), c),
        can_feed(q, k, c) ==> st.seen.contains(feed(q, k, c)),
    ensures
        inv(q, st, Some(k), c + 1),
{
}

/// An offer that generates a node: the possibility joins the queue at its
/// end, the node joins the generated ones.
pub proof fn lemma_push(q: Seq<Seq<CkSpan>>, st: Search, k: Node, c: int, np: Possibility)
    requires
        inv(q, st, Some(k), c),
        can_feed(q, k, c),
        np.key() == feed(q, k, c),
        np.fits(q),
        !st.seen.contains(np.key()),
    ensures
        inv(
            q,
            Search { pending: st.pending.push(np), seen: st.seen.insert(np.key()), ..st },
            Some(k),
            c + 1,
        ),
{
    let st2 = Search { pending: st.pending.push(np), seen: st.seen.insert(np.key()), ..st };
    let n2 = np.key();
    lemma_reachable_feed(q, k, c);
    assert forall|i: int| 0 <= i < st2.pending.len() implies {
        &&& (#[trigger] st2.pending[i]).fits(q)
        &&& reachable(q, st2.pending[i].key())
        &&& st2.seen.contains(st2.pending[i].key())
        &&& !st2.done.contains(st2.pending[i].key())
        &&& depth(st2.pending[i].key().prog) == if i < st2.front {
            st2.level
        } else {
            st2.level + 1
        }
        &&& st2.pending[i].key() != k
    } by {
        if i < st.pending.len() {
            assert(st2.pending[i] == st.pending[i]);
        }
    }
    assert forall|i: int, j: int| 0 <= i < j < st2.pending.len() implies (
    #[trigger] st2.pending[i]).key() != (#[trigger] st2.pending[j]).key() by {
        assert(st2.pending[i] == st.pending[i]);
        if j < st.pending.len() {
            assert(st2.pending[j] == st.pending[j]);
        }
    }
    assert forall|n: Node| #[trigger] st2.done.contains(n) implies st2.seen.contains(n)
        && reachable(q, n) && expanded(q, st2.seen, n) by {
        assert(expanded(q, st.seen, n));
    }
    assert forall|n: Node| #[trigger] st2.seen.contains(n) implies st2.done.contains(n) || Some(k)
        == Some(n) || is_pending(st2.pending, n) by {
        if n == n2 {
            assert(st2.pending[st.pending.len() as int].key() == n);
        } else if !st.done.contains(n) && k != n {
            let i = choose|i: int| 0 <= i < st.pending.len() && (#[trigger] st.pending[i]).key() == n;
            assert(st2.pending[i] == st.pending[i]);
        }
    }
}

/// When every client was offered, the node is expanded.
pub proof fn lemma_finish(q: Seq<Seq<CkSpan>>, st: Search, k: Node)
    requires
        inv(q, st, Some(k), q.len() as int),
    ensures
        inv(q, Search { done: st.done.insert(k), ..st }, None, 0),
        st.done.insert(k).len() == st.done.len() + 1,
{
    let st2 = Search { done: st.done.insert(k), ..st };
    assert forall|n: Node| #[trigger] st2.done.contains(n) implies st2.seen.contains(n)
        && reachable(q, n) && expanded(q, st2.seen, n) by {
        if n != k {
            assert(st.done.contains(n));
        }
    }
}

/// Where every generated node of depth below `d` is expanded, every node
/// that a schedule of at most `d` steps leads to was generated.
pub proof fn lemma_generated(q: Seq<Seq<CkSpan>>, seen: Set<Node>, d: nat, s: Seq<int>)
    requires
        seen.contains(initial(q.len())),
        forall|n: Node| #[trigger] seen.contains(n) && depth(n.prog) < d ==> expanded(q, seen, n),
        run(q, s) is Some,
        s.len() <= d,
    ensures
        seen.contains(run(q, s)->0),
    decreases s.len(),
{
    if s.len() > 0 {
        lemma_generated(q, seen, d, s.drop_last());
        lemma_reachable_within(q, s.drop_last());
        let m = run(q, s.drop_last())->0;
        assert(expanded(q, seen, m));
        assert(can_feed(q, m, s.last()));
    }
}

/// With nothing pending, every reachable node was expanded and none is
/// complete: the sub-timeline is not linearizable.
pub proof fn lemma_decide_weak(q: Seq<Seq<CkSpan>>, st: Search)
    requires
        inv(q, st, None, 0),
        st.pending.len() == 0,
    ensures
        !linearizable(q),
        incomplete_reachable(q) == st.done,
{
    assert forall|n: Node| reachable(q, n) implies st.done.contains(n) by {
        let s = choose|s: Seq<int>| run(q, s) == Some(n);
        lemma_generated(q, st.seen, s.len(), s);
    }
    assert forall|s: Seq<int>| !is_linearization(q, s) by {
        if is_linearization(q, s) {
            let n = run(q, s)->0;
            assert(reachable(q, n));
            assert(expanded(q, st.seen, n));
        }
    }
    assert(incomplete_reachable(q) =~= st.done);
}

/// With a complete possibility at the head of the queue, the sub-timeline is
/// linearizable, and every incomplete reachable node was expanded before.
pub proof fn lemma_decide_linearizable(q: Seq<Seq<CkSpan>>, st: Search)
    requires
        inv(q, st, None, 0),
        st.front >= 1,
        complete(q, st.pending[0].key()),
    ensures
        linearizable(q),
        incomplete_reachable(q) == st.done,
{
    let head = st.pending[0].key();
    let w = choose|s: Seq<int>| run(q, s) == Some(head);
    assert(is_linearization(q, w));
    lemma_complete_depth(q, head);
    assert(st.level == total(q));
    assert forall|n: Node| #[trigger] st.seen.contains(n) && depth(n.prog) < st.level implies expanded(
        q,
        st.seen,
        n,
    ) by {
    }
    assert forall|n: Node| reachable(q, n) && !complete(q, n) implies st.done.contains(n) by {
        let s = choose|s: Seq<int>| run(q, s) == Some(n);
        lemma_reachable_within(q, s);
        lemma_complete_depth(q, n);
        lemma_generated(q, st.seen, st.level, s);
    }
    assert(incomplete_reachable(q) =~= st.done);
}

/// Where the nodes to expand are exactly `done`, the search space exceeds a
/// limit exactly when `done` has more members.
pub proof fn lemma_within_limit(q: Seq<Seq<CkSpan>>, done: Set<Node>, limit: nat)
    requires
        done.finite(),
        incomplete_reachable(q) == done,
    ensures
        search_space_exceeds(q, limit) <==> done.len() > limit,
{
    if search_space_exceeds(q, limit) {
        let f = choose|f: Set<Node>|
            f.finite() && f.len() > limit && #[trigger] f.subset_of(incomplete_reachable(q));
        lemma_len_subset(f, done);
    }
    if done.len() > limit {
        assert(done.subset_of(incomplete_reachable(q)));
    }
}

/// With an incomplete possibility at the head of the queue, the nodes to
/// expand are more than those expanded so far.
pub proof fn lemma_beyond_limit(q: Seq<Seq<CkSpan>>, st: Search)
    requires
        inv(q, st, None, 0),
        st.pending.len() > 0,
        !complete(q, st.pending[0].key()),
    ensures
        search_space_exceeds(q, st.done.len()),
{
    let head = st.pending[0].key();
    let f = st.done.insert(head);
    assert(f.subset_of(incomplete_reachable(q))) by {
        assert forall|n: Node| f.contains(n) implies incomplete_reachable(q).contains(n) by {
            if n != head {
                assert(expanded(q, st.seen, n));
            }
        }
    }
}

} // verus!
