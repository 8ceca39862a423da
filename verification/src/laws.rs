//! What holds of the checker as a whole.

use vstd::prelude::*;
use crate::check::{any_inconclusive, any_weak, outcome, overall, CheckError, CkSpan};
use crate::model::{
    accepts,
    can_feed,
    complete,
    feed,
    initial,
    is_linearization,
    lemma_complete_depth,
    lemma_reachable_within,
    linearizable,
    next_state,
    placed,
    run,
    total,
    verdict,
    Node,
};
use crate::types::{Consistency, ValType};

verus! {

broadcast use vstd::seq_lib::group_to_multiset_ensures;

/// The weakest of the levels; the strongest level where there are none.
pub open spec fn min_level(levels: Seq<Consistency>) -> Consistency
    decreases levels.len(),
{
    if levels.len() == 0 {
        Consistency::Linearizable
    } else {
        min_level(levels.drop_last()).meet(levels.last())
    }
}

/// The verdict on each sub-timeline.
pub open spec fn verdicts(subs: Seq<Seq<Seq<CkSpan>>>) -> Seq<Consistency> {
    Seq::new(subs.len(), |j: int| verdict(subs[j]))
}

/// The weakest of the levels is no stronger than any of them, and is one of
/// them where there are any.
pub proof fn lemma_min_level(levels: Seq<Consistency>)
    ensures
        forall|j: int| 0 <= j < levels.len() ==> min_level(levels).rank() <= (#[trigger] levels[j]).rank(),
        levels.len() > 0 ==> levels.contains(min_level(levels)),
        levels.len() == 0 ==> min_level(levels) == Consistency::Linearizable,
    decreases levels.len(),
{
    if levels.len() > 0 {
        let front = levels.drop_last();
        lemma_min_level(front);
        assert forall|j: int| 0 <= j < levels.len() implies min_level(levels).rank() <= (
        #[trigger] levels[j]).rank() by {
            if j < front.len() {
                assert(front[j] == levels[j]);
            }
        }
        if min_level(levels) == levels.last() {
            assert(levels[levels.len() - 1] == min_level(levels));
        } else {
            let m = choose|m: int| 0 <= m < front.len() && front[m] == min_level(front);
            assert(levels[m] == min_level(levels));
        }
    }
}

/// The weakest of the levels does not depend on their order.
pub proof fn lemma_min_level_order_free(a: Seq<Consistency>, b: Seq<Consistency>)
    requires
        a.to_multiset() == b.to_multiset(),
    ensures
        min_level(a) == min_level(b),
{
    lemma_min_level(a);
    lemma_min_level(b);
    assert(a.to_multiset().len() == a.len());
    assert(b.to_multiset().len() == b.len());
    if a.len() > 0 {
        let x = min_level(a);
        let y = min_level(b);
        assert(a.to_multiset().count(x) > 0);
        assert(b.contains(x));
        assert(b.to_multiset().count(y) > 0);
        assert(a.contains(y));
        let i = choose|i: int| 0 <= i < b.len() && b[i] == x;
        let j = choose|j: int| 0 <= j < a.len() && a[j] == y;
        assert(y.rank() <= b[i].rank());
        assert(x.rank() <= a[j].rank());
    }
}

/// Per-key independence: where every search decides, as every search
/// without a bound does, the verdict on all keys together is the weakest of
/// the verdicts on the keys.
pub proof fn lemma_overall_is_min(subs: Seq<Seq<Seq<CkSpan>>>, bound: Option<usize>)
    requires
        bound is None || !any_inconclusive(subs, bound),
    ensures
        overall(subs, bound) == Ok::<Consistency, CheckError>(min_level(verdicts(subs))),
{
    let levels = verdicts(subs);
    lemma_min_level(levels);
    assert forall|j: int| 0 <= j < subs.len() implies outcome(#[trigger] subs[j], bound) == Ok::<
        Consistency,
        CheckError,
    >(levels[j]) by {}
    if any_weak(subs, bound) {
        let j = choose|j: int|
            0 <= j < subs.len() && outcome(#[trigger] subs[j], bound) == Ok::<
                Consistency,
                CheckError,
            >(Consistency::Weak);
        assert(levels[j] == Consistency::Weak);
    } else {
        if levels.len() > 0 {
            let m = choose|m: int| 0 <= m < levels.len() && levels[m] == min_level(levels);
            assert(outcome(subs[m], bound) == Ok::<Consistency, CheckError>(levels[m]));
        }
    }
}

/// Per-key independence: the verdict on all keys together does not depend
/// on the order in which the keys are checked.
pub proof fn lemma_overall_order_free(
    a: Seq<Seq<Seq<CkSpan>>>,
    b: Seq<Seq<Seq<CkSpan>>>,
    bound: Option<usize>,
)
    requires
        a.to_multiset() == b.to_multiset(),
    ensures
        overall(a, bound) == overall(b, bound),
{
    lemma_same_members(a, b, bound);
    lemma_same_members(b, a, bound);
}

proof fn lemma_same_members(
    a: Seq<Seq<Seq<CkSpan>>>,
    b: Seq<Seq<Seq<CkSpan>>>,
    bound: Option<usize>,
)
    requires
        a.to_multiset() == b.to_multiset(),
    ensures
        any_weak(a, bound) ==> any_weak(b, bound),
        any_inconclusive(a, bound) ==> any_inconclusive(b, bound),
{
    if any_weak(a, bound) {
        let j = choose|j: int|
            0 <= j < a.len() && outcome(#[trigger] a[j], bound) == Ok::<Consistency, CheckError>(
                Consistency::Weak,
            );
        assert(a.contains(a[j]));
        assert(a.to_multiset().count(a[j]) > 0);
        assert(b.contains(a[j]));
        let m = choose|m: int| 0 <= m < b.len() && b[m] == a[j];
        assert(outcome(b[m], bound) == Ok::<Consistency, CheckError>(Consistency::Weak));
    }
    if any_inconclusive(a, bound) {
        let j = choose|j: int| 0 <= j < a.len() && outcome(#[trigger] a[j], bound) is Err;
        assert(a.contains(a[j]));
        assert(a.to_multiset().count(a[j]) > 0);
        assert(b.contains(a[j]));
        let m = choose|m: int| 0 <= m < b.len() && b[m] == a[j];
        assert(outcome(b[m], bound) is Err);
    }
}

/// A schedule that can be run can be run up to any of its steps.
pub proof fn lemma_run_prefix(q: Seq<Seq<CkSpan>>, s: Seq<int>, upto: int)
    requires
        run(q, s) is Some,
        0 <= upto <= s.len(),
    ensures
        run(q, s.take(upto)) is Some,
        upto < s.len() ==> can_feed(q, run(q, s.take(upto))->0, s[upto]) && run(
            q,
            s.take(upto + 1),
        ) == Some(feed(q, run(q, s.take(upto))->0, s[upto])),
    decreases s.len() - upto,
{
    if upto == s.len() {
        assert(s.take(upto) =~= s);
    } else {
        lemma_run_prefix(q, s, upto + 1);
        assert(s.take(upto + 1).drop_last() =~= s.take(upto));
    }
}

/// The span that step `i` of the schedule `s` places.
pub open spec fn span_at(q: Seq<Seq<CkSpan>>, s: Seq<int>, i: int) -> CkSpan {
    q[s[i]][run(q, s.take(i))->0.prog[s[i]] as int]
}

/// The counts of a schedule's prefixes only grow, and the span that a step
/// places belongs to every longer prefix.
pub proof fn lemma_stays_placed(q: Seq<Seq<CkSpan>>, s: Seq<int>, i: int, j: int)
    requires
        run(q, s) is Some,
        0 <= i < j <= s.len(),
    ensures
        placed(
            q,
            run(q, s.take(j))->0.prog,
            s[i],
            run(q, s.take(i))->0.prog[s[i]] as int,
        ),
    decreases j - i,
{
    lemma_run_prefix(q, s, i);
    lemma_run_prefix(q, s, j);
    lemma_run_prefix(q, s, j - 1);
    lemma_reachable_within(q, s.take(j));
    if j - 1 > i {
        lemma_stays_placed(q, s, i, j - 1);
    }
}

/// Real-time soundness: in every schedule that can be run, a span that is
/// placed after another had not finished before the other was invoked. So a
/// span that had finished before another was invoked precedes it in every
/// linearization.
pub proof fn lemma_realtime_order(q: Seq<Seq<CkSpan>>, s: Seq<int>, i: int, j: int)
    requires
        run(q, s) is Some,
        0 <= i < j < s.len(),
    ensures
        span_at(q, s, i).invoke <= span_at(q, s, j).finish,
{
    lemma_run_prefix(q, s, j);
    lemma_stays_placed(q, s, i, j);
}

/// Real-time soundness on two spans: where `a` had finished before `b` was
/// invoked, and the register does not accept `a` followed by `b`, the
/// sub-timeline of the two, each on a client of its own, is not
/// linearizable.
pub proof fn lemma_realtime_soundness(a: CkSpan, b: CkSpan)
    requires
        a.finish < b.invoke,
        !(accepts(None, a.data) && accepts(next_state(None, a.data), b.data)),
    ensures
        verdict(seq![seq![a], seq![b]]) == Consistency::Weak,
{
    let q = seq![seq![a], seq![b]];
    assert forall|s: Seq<int>| !is_linearization(q, s) by {
        if is_linearization(q, s) {
            let n = run(q, s)->0;
            lemma_reachable_within(q, s);
            lemma_complete_depth(q, n);
            assert(total(q) == 2) by {
                reveal_with_fuel(crate::model::depth, 3);
                assert(crate::model::lens(q) =~= seq![1nat, 1nat]);
                assert(crate::model::lens(q).drop_last() =~= seq![1nat]);
                assert(crate::model::lens(q).drop_last().drop_last() =~= Seq::<nat>::empty());
            }
            assert(s.len() == 2);
            lemma_run_prefix(q, s, 0);
            lemma_run_prefix(q, s, 1);
            assert(s.take(0) =~= Seq::<int>::empty());
            let n0 = initial(q.len());
            assert(run(q, s.take(0)) == Some(n0));
            let n1 = feed(q, n0, s[0]);
            assert(can_feed(q, n0, s[0]));
            assert(can_feed(q, n1, s[1]));
            if s[0] == 0 {
                if s[1] == 1 {
                    assert(q[0][0] == a);
                    assert(q[1][0] == b);
                }
            } else {
                assert(s[0] == 1);
                if s[1] == 0 {
                    assert(placed(q, n1.prog, 1, 0));
                    assert(q[1][0] == b);
                    assert(q[0][0] == a);
                }
            }
        }
    }
}

/// The register's value after it accepted the spans in order, starting from
/// "never written"; `None` where it does not accept them.
pub open spec fn state_after(spans: Seq<CkSpan>) -> Option<Option<ValType>>
    decreases spans.len(),
{
    if spans.len() == 0 {
        Some(None)
    } else {
        match state_after(spans.drop_last()) {
            Some(state) => if accepts(state, spans.last().data) {
                Some(next_state(state, spans.last().data))
            } else {
                None
            },
            None => None,
        }
    }
}

/// No span of the queue was invoked after a later one had finished.
pub open spec fn in_time_order(spans: Seq<CkSpan>) -> bool {
    forall|i: int, j: int|
        0 <= i < j < spans.len() ==> (#[trigger] spans[i]).invoke <= (#[trigger] spans[j]).finish
}

/// The schedule that names client 0 `n` times.
pub open spec fn alone(n: nat) -> Seq<int> {
    Seq::new(n, |i: int| 0int)
}

proof fn lemma_alone(spans: Seq<CkSpan>, n: nat)
    requires
        in_time_order(spans),
        n <= spans.len(),
    ensures
        match state_after(spans.take(n as int)) {
            Some(state) => run(seq![spans], alone(n)) == Some(Node { state, prog: seq![n] }),
            None => run(seq![spans], alone(n)) is None,
        },
    decreases n,
{
    let q = seq![spans];
    if n == 0 {
        assert(spans.take(0) =~= Seq::<CkSpan>::empty());
        assert(initial(q.len()).prog =~= seq![0nat]);
    } else {
        lemma_alone(spans, (n - 1) as nat);
        assert(alone(n).drop_last() =~= alone((n - 1) as nat));
        assert(spans.take(n as int).drop_last() =~= spans.take(n - 1));
        assert(spans.take(n as int).last() == spans[n - 1]);
        match state_after(spans.take(n - 1)) {
            Some(state) => {
                let m = Node { state, prog: seq![(n - 1) as nat] };
                assert(q[0] == spans);
                assert(forall|d: int, i: int| #[trigger]
                    placed(q, m.prog, d, i) ==> q[d][i].invoke <= spans[n - 1].finish);
                assert(feed(q, m, 0).prog =~= seq![n]);
            },
            None => {},
        }
    }
}

/// Single-client sequentiality: a sub-timeline of one client, whose spans
/// are in the order of time, is linearizable exactly when the register
/// accepts the spans one after the other, starting from "never written".
pub proof fn lemma_single_client(spans: Seq<CkSpan>)
    requires
        in_time_order(spans),
    ensures
        linearizable(seq![spans]) <==> state_after(spans) is Some,
{
    let q = seq![spans];
    assert(spans.take(spans.len() as int) =~= spans);
    lemma_alone(spans, spans.len());
    if state_after(spans) is Some {
        let n = run(q, alone(spans.len()))->0;
        assert(complete(q, n));
        assert(is_linearization(q, alone(spans.len())));
    }
    if linearizable(q) {
        let s = choose|s: Seq<int>| is_linearization(q, s);
        let n = run(q, s)->0;
        lemma_reachable_within(q, s);
        lemma_complete_depth(q, n);
        assert(total(q) == spans.len()) by {
            reveal_with_fuel(crate::model::depth, 2);
            assert(crate::model::lens(q) =~= seq![spans.len()]);
            assert(crate::model::lens(q).drop_last() =~= Seq::<nat>::empty());
        }
        assert forall|i: int| 0 <= i < s.len() implies s[i] == 0 by {
            lemma_run_prefix(q, s, i);
        }
        assert(s =~= alone(spans.len()));
    }
}

} // verus!
