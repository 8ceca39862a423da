//! Linearizations as total orders of spans.
//!
//! The search works on schedules, which name at each step the client whose
//! next span is placed. Here the same is said over the spans themselves: a
//! sub-timeline is linearizable exactly when its spans can be put in one
//! sequence that holds each span once, keeps each client's own order, keeps
//! the order of real time, and is accepted by the register.

use vstd::prelude::*;
use crate::check::CkSpan;
use crate::laws::{
    in_time_order,
    lemma_realtime_order,
    lemma_run_prefix,
    lemma_stays_placed,
    state_after,
};
use crate::partition::{lemma_origin, origin, sub_timeline};
use crate::timeline::{orderly, times_apart};
use crate::types::{KeyType, OpSpan, Timestamp};
use crate::model::{
    accepts,
    can_feed,
    complete,
    feed,
    initial,
    is_linearization,
    lemma_reachable_within,
    linearizable,
    next_state,
    placed,
    run,
    Node,
};

verus! {

/// `p` names a span of `q`: a client and a position in its queue.
pub open spec fn is_place(q: Seq<Seq<CkSpan>>, p: (int, int)) -> bool {
    0 <= p.0 < q.len() && 0 <= p.1 < q[p.0].len()
}

/// `pi` holds `p` among its first `k` entries.
pub open spec fn occurs_before(pi: Seq<(int, int)>, k: int, p: (int, int)) -> bool {
    exists|j: int| 0 <= j < k && #[trigger] pi[j] == p
}

/// `pi` is a total order of the spans of `q`: it names spans only, each
/// span once.
pub open spec fn orders_all(q: Seq<Seq<CkSpan>>, pi: Seq<(int, int)>) -> bool {
    &&& forall|k: int| 0 <= k < pi.len() ==> is_place(q, #[trigger] pi[k])
    &&& forall|j: int, k: int| 0 <= j < k < pi.len() ==> #[trigger] pi[j] != #[trigger] pi[k]
    &&& forall|c: int, i: int| #[trigger]
        is_place(q, (c, i)) ==> occurs_before(pi, pi.len() as int, (c, i))
}

/// Two spans of one client stand in `pi` as they stand in the client's
/// queue.
pub open spec fn keeps_client_order(pi: Seq<(int, int)>) -> bool {
    forall|j: int, k: int|
        0 <= j < k < pi.len() && (#[trigger] pi[j]).0 == (#[trigger] pi[k]).0 ==> pi[j].1
            < pi[k].1
}

/// No span stands in `pi` after one that was invoked when it had already
/// finished.
pub open spec fn keeps_real_time(q: Seq<Seq<CkSpan>>, pi: Seq<(int, int)>) -> bool {
    forall|j: int, k: int|
        0 <= j < k < pi.len() ==> q[(#[trigger] pi[j]).0][pi[j].1].invoke <= q[(
        #[trigger] pi[k]).0][pi[k].1].finish
}

/// The spans in the order of `pi`.
pub open spec fn spans_in_order(q: Seq<Seq<CkSpan>>, pi: Seq<(int, int)>) -> Seq<CkSpan> {
    Seq::new(pi.len(), |k: int| q[pi[k].0][pi[k].1])
}

/// `pi` is a linearization of `q`: a total order of its spans that keeps
/// each client's own order and the order of real time, and that the register
/// accepts span by span, starting from "never written".
pub open spec fn explains(q: Seq<Seq<CkSpan>>, pi: Seq<(int, int)>) -> bool {
    &&& orders_all(q, pi)
    &&& keeps_client_order(pi)
    &&& keeps_real_time(q, pi)
    &&& state_after(spans_in_order(q, pi)) is Some
}

/// The spans that a schedule places, in the order in which it places them.
pub open spec fn order_of(q: Seq<Seq<CkSpan>>, s: Seq<int>) -> Seq<(int, int)> {
    Seq::new(s.len(), |k: int| (s[k], run(q, s.take(k))->0.prog[s[k]] as int))
}

/// The schedule that places the spans in the order of `pi`.
pub open spec fn schedule_of(pi: Seq<(int, int)>) -> Seq<int> {
    Seq::new(pi.len(), |k: int| pi[k].0)
}

/// For each of `n` clients, the number of its spans in `pi`.
pub open spec fn counts(n: nat, pi: Seq<(int, int)>) -> Seq<nat>
    decreases pi.len(),
{
    if pi.len() == 0 {
        Seq::new(n, |c: int| 0nat)
    } else {
        let before = counts(n, pi.drop_last());
        let c = pi.last().0;
        if 0 <= c < n {
            before.update(c, (before[c] + 1) as nat)
        } else {
            before
        }
    }
}

proof fn lemma_order_prefix(q: Seq<Seq<CkSpan>>, s: Seq<int>)
    requires
        s.len() > 0,
    ensures
        order_of(q, s).drop_last() == order_of(q, s.drop_last()),
        order_of(q, s).last() == (s.last(), run(q, s.drop_last())->0.prog[s.last()] as int),
{
    let a = order_of(q, s).drop_last();
    let b = order_of(q, s.drop_last());
    assert forall|k: int| 0 <= k < a.len() implies a[k] == b[k] by {
        assert(s.drop_last().take(k) =~= s.take(k));
    }
    assert(a =~= b);
    assert(s.take(s.len() - 1) =~= s.drop_last());
}

/// The register accepts the spans in the order in which a schedule that can
/// be run places them, and ends with the value that the schedule leads to.
proof fn lemma_order_accepted(q: Seq<Seq<CkSpan>>, s: Seq<int>)
    requires
        run(q, s) is Some,
    ensures
        state_after(spans_in_order(q, order_of(q, s))) == Some(run(q, s)->0.state),
    decreases s.len(),
{
    let spans = spans_in_order(q, order_of(q, s));
    if s.len() == 0 {
        assert(spans =~= Seq::<CkSpan>::empty());
    } else {
        lemma_order_prefix(q, s);
        lemma_order_accepted(q, s.drop_last());
        assert(spans.drop_last() =~= spans_in_order(q, order_of(q, s.drop_last())));
    }
}

/// A span that belongs to what a schedule has placed was placed by one of
/// its steps.
proof fn lemma_placed_by_a_step(q: Seq<Seq<CkSpan>>, s: Seq<int>, c: int, i: int)
    requires
        run(q, s) is Some,
        0 <= c < q.len(),
        0 <= i < run(q, s)->0.prog[c],
    ensures
        occurs_before(order_of(q, s), s.len() as int, (c, i)),
    decreases s.len(),
{
    if s.len() == 0 {
    } else {
        let m = run(q, s.drop_last())->0;
        lemma_order_prefix(q, s);
        lemma_reachable_within(q, s.drop_last());
        if s.last() == c && m.prog[c] == i {
            assert(order_of(q, s)[s.len() - 1] == (c, i));
        } else {
            lemma_placed_by_a_step(q, s.drop_last(), c, i);
            let j = choose|j: int|
                0 <= j < s.len() - 1 && #[trigger] order_of(q, s.drop_last())[j] == (c, i);
            assert(order_of(q, s)[j] == order_of(q, s).drop_last()[j]);
        }
    }
}

/// The spans in the order in which a linearizing schedule places them are a
/// linearization.
pub proof fn lemma_schedule_explains(q: Seq<Seq<CkSpan>>, s: Seq<int>)
    requires
        is_linearization(q, s),
    ensures
        explains(q, order_of(q, s)),
{
    let pi = order_of(q, s);
    let end = run(q, s)->0;
    lemma_order_accepted(q, s);
    assert forall|k: int| 0 <= k < pi.len() implies is_place(q, #[trigger] pi[k]) by {
        lemma_run_prefix(q, s, k);
    }
    assert forall|j: int, k: int| 0 <= j < k < pi.len() implies (#[trigger] pi[j] != #[trigger] pi[k])
        && (pi[j].0 == pi[k].0 ==> pi[j].1 < pi[k].1) && q[pi[j].0][pi[j].1].invoke
        <= q[pi[k].0][pi[k].1].finish by {
        lemma_stays_placed(q, s, j, k);
        lemma_realtime_order(q, s, j, k);
    }
    assert forall|c: int, i: int| #[trigger] is_place(q, (c, i)) implies occurs_before(
        pi,
        pi.len() as int,
        (c, i),
    ) by {
        assert(end.prog[c] == q[c].len());
        lemma_placed_by_a_step(q, s, c, i);
    }
}

/// Where the register accepts spans it accepts the first of them.
proof fn lemma_accepted_prefix(spans: Seq<CkSpan>, k: int)
    requires
        0 <= k <= spans.len(),
        state_after(spans) is Some,
    ensures
        state_after(spans.take(k)) is Some,
        k < spans.len() ==> accepts(state_after(spans.take(k))->0, spans[k].data) && state_after(
            spans.take(k + 1),
        ) == Some(next_state(state_after(spans.take(k))->0, spans[k].data)),
    decreases spans.len() - k,
{
    if k == spans.len() {
        assert(spans.take(k) =~= spans);
    } else {
        lemma_accepted_prefix(spans, k + 1);
        assert(spans.take(k + 1).drop_last() =~= spans.take(k));
    }
}

/// The schedule of a linearization can be run up to each step, and what its
/// first `k` steps place are the first `k` spans of the linearization.
proof fn lemma_schedule_runs(q: Seq<Seq<CkSpan>>, pi: Seq<(int, int)>, k: int)
    requires
        explains(q, pi),
        0 <= k <= pi.len(),
    ensures
        ({
            let pr = counts(q.len(), pi.take(k));
            let spans = spans_in_order(q, pi);
            &&& pr.len() == q.len()
            &&& forall|c: int, i: int| #[trigger]
                occurs_before(pi, k, (c, i)) <==> 0 <= c < q.len() && 0 <= i < pr[c]
            &&& state_after(spans.take(k)) is Some
            &&& run(q, schedule_of(pi).take(k)) == Some(
                Node { state: state_after(spans.take(k))->0, prog: pr },
            )
        }),
    decreases k,
{
    let n = q.len();
    let spans = spans_in_order(q, pi);
    let s = schedule_of(pi);
    lemma_accepted_prefix(spans, k);
    if k == 0 {
        assert(pi.take(0) =~= Seq::<(int, int)>::empty());
        assert(s.take(0) =~= Seq::<int>::empty());
        assert(spans.take(0) =~= Seq::<CkSpan>::empty());
        assert(counts(n, pi.take(0)) =~= initial(n).prog);
    } else {
        lemma_schedule_runs(q, pi, k - 1);
        lemma_accepted_prefix(spans, k - 1);
        let before = counts(n, pi.take(k - 1));
        let pr = counts(n, pi.take(k));
        let c = pi[k - 1].0;
        let i = pi[k - 1].1;
        assert(pi.take(k).drop_last() =~= pi.take(k - 1));
        assert(pi.take(k).last() == pi[k - 1]);
        assert(s.take(k).drop_last() =~= s.take(k - 1));
        assert(s.take(k).last() == c);
        assert(is_place(q, pi[k - 1]));
        assert(pr == before.update(c, (before[c] + 1) as nat));
        // The span is the next of its client.
        if i < before[c] {
            assert(occurs_before(pi, k - 1, (c, i)));
            let j = choose|j: int| 0 <= j < k - 1 && #[trigger] pi[j] == (c, i);
            assert(pi[j] != pi[k - 1]);
        }
        if i > before[c] {
            let gap = (c, before[c] as int);
            assert(is_place(q, gap));
            assert(occurs_before(pi, pi.len() as int, gap));
            let j = choose|j: int| 0 <= j < pi.len() && #[trigger] pi[j] == gap;
            if j < k - 1 {
                assert(occurs_before(pi, k - 1, gap));
            } else if j > k - 1 {
                assert(pi[k - 1].0 == pi[j].0);
            }
        }
        assert(i == before[c]);
        let m = Node { state: state_after(spans.take(k - 1))->0, prog: before };
        assert(spans[k - 1] == q[c][i]);
        assert forall|d: int, e: int| #[trigger] placed(q, before, d, e) implies q[d][e].invoke
            <= q[c][i].finish by {
            assert(occurs_before(pi, k - 1, (d, e)));
            let j = choose|j: int| 0 <= j < k - 1 && #[trigger] pi[j] == (d, e);
            assert(q[pi[j].0][pi[j].1].invoke <= q[pi[k - 1].0][pi[k - 1].1].finish);
        }
        assert(can_feed(q, m, c));
        assert(feed(q, m, c).prog =~= pr);
        assert forall|d: int, e: int| #[trigger]
            occurs_before(pi, k, (d, e)) <==> 0 <= d < q.len() && 0 <= e < pr[d] by {
            if occurs_before(pi, k, (d, e)) {
                let j = choose|j: int| 0 <= j < k && #[trigger] pi[j] == (d, e);
                if j < k - 1 {
                    assert(occurs_before(pi, k - 1, (d, e)));
                }
            }
            if 0 <= d < q.len() && 0 <= e < pr[d] {
                if d == c && e == i {
                    assert(pi[k - 1] == (d, e));
                } else {
                    assert(occurs_before(pi, k - 1, (d, e)));
                    let j = choose|j: int| 0 <= j < k - 1 && #[trigger] pi[j] == (d, e);
                    assert(pi[j] == (d, e));
                }
            }
        }
    }
}

/// The schedule of a linearization places every span.
pub proof fn lemma_order_schedules(q: Seq<Seq<CkSpan>>, pi: Seq<(int, int)>)
    requires
        explains(q, pi),
    ensures
        is_linearization(q, schedule_of(pi)),
{
    let k = pi.len() as int;
    lemma_schedule_runs(q, pi, k);
    let s = schedule_of(pi);
    assert(s.take(k) =~= s);
    let end = run(q, s)->0;
    assert forall|c: int| 0 <= c < q.len() implies end.prog[c] == #[trigger] q[c].len() by {
        if end.prog[c] < q[c].len() {
            let p = (c, end.prog[c] as int);
            assert(is_place(q, p));
            assert(occurs_before(pi, k, p));
        }
        if end.prog[c] > q[c].len() {
            let p = (c, q[c].len() as int);
            assert(occurs_before(pi, k, p));
            let j = choose|j: int| 0 <= j < k && #[trigger] pi[j] == p;
            assert(is_place(q, pi[j]));
        }
    }
    assert(complete(q, end));
}

/// A sub-timeline is linearizable exactly when some total order of its
/// spans keeps each client's own order and the order of real time, and is
/// accepted by the register.
pub proof fn lemma_linearizable_iff_explained(q: Seq<Seq<CkSpan>>)
    ensures
        linearizable(q) <==> exists|pi: Seq<(int, int)>| explains(q, pi),
{
    if linearizable(q) {
        let s = choose|s: Seq<int>| is_linearization(q, s);
        lemma_schedule_explains(q, s);
    }
    if exists|pi: Seq<(int, int)>| explains(q, pi) {
        let pi = choose|pi: Seq<(int, int)>| explains(q, pi);
        lemma_order_schedules(q, pi);
    }
}

/// A span that had finished when another was invoked, be it at that very
/// time, stands before it in `pi`.
pub open spec fn keeps_real_time_closed(q: Seq<Seq<CkSpan>>, pi: Seq<(int, int)>) -> bool {
    forall|j: int, k: int|
        0 <= j < k < pi.len() ==> q[(#[trigger] pi[j]).0][pi[j].1].invoke < q[(
        #[trigger] pi[k]).0][pi[k].1].finish
}

/// No span of the sub-timeline finished at the very time at which another
/// was invoked.
pub open spec fn span_times_apart(q: Seq<Seq<CkSpan>>) -> bool {
    forall|c: int, i: int, d: int, j: int|
        0 <= c < q.len() && 0 <= i < q[c].len() && 0 <= d < q.len() && 0 <= j < q[d].len() && (c
            != d || i != j) ==> (#[trigger] q[c][i]).finish != (#[trigger] q[d][j]).invoke
}

/// Where no span finished at the very time at which another was invoked, it
/// makes no difference to a total order whether the order of real time
/// counts spans that meet at one time.
pub proof fn lemma_real_time_closed(q: Seq<Seq<CkSpan>>, pi: Seq<(int, int)>)
    requires
        span_times_apart(q),
        orders_all(q, pi),
    ensures
        keeps_real_time(q, pi) <==> keeps_real_time_closed(q, pi),
{
    if keeps_real_time(q, pi) {
        assert forall|j: int, k: int| 0 <= j < k < pi.len() implies q[(#[trigger] pi[j]).0][pi[j].1].invoke
            < q[(#[trigger] pi[k]).0][pi[k].1].finish by {
            assert(is_place(q, pi[j]));
            assert(is_place(q, pi[k]));
            assert(pi[j] != pi[k]);
        }
    }
}

/// The times of the spans of a timeline that are apart stay apart in the
/// sub-timeline of each key.
pub proof fn lemma_sub_timeline_apart(q: Seq<Seq<OpSpan>>, key: KeyType)
    requires
        times_apart(q),
    ensures
        span_times_apart(sub_timeline(q, key)),
{
    let sub = sub_timeline(q, key);
    assert forall|c: int, i: int, d: int, j: int|
        0 <= c < sub.len() && 0 <= i < sub[c].len() && 0 <= d < sub.len() && 0 <= j < sub[d].len()
            && (c != d || i != j) implies (#[trigger] sub[c][i]).finish != (
    #[trigger] sub[d][j]).invoke by {
        lemma_origin(q[c], key, i);
        lemma_origin(q[d], key, j);
        let m = origin(q[c], key, i);
        let n = origin(q[d], key, j);
        if c == d {
            if i < j {
            } else {
                assert(j < i);
            }
        }
        assert(c != d || m != n);
    }
}

/// In an orderly queue a span had finished before any later span was
/// invoked.
pub proof fn lemma_orderly_chain(
    queues: Seq<Seq<OpSpan>>,
    now: Timestamp,
    c: int,
    m: int,
    n: int,
)
    requires
        orderly(queues, now),
        0 <= c < queues.len(),
        0 <= m < n < queues[c].len(),
    ensures
        0 < queues[c][m].finish < queues[c][n].invoke,
    decreases n - m,
{
    assert(queues[c][m].finish < queues[c][m + 1].invoke);
    if m + 1 < n {
        lemma_orderly_chain(queues, now, c, m + 1, n);
        assert(queues[c][m + 1].invoke < queues[c][m + 1].finish);
    }
}

/// The sub-timeline of each key of an orderly timeline has every client's
/// spans in the order of time.
pub proof fn lemma_sub_timeline_in_time_order(
    queues: Seq<Seq<OpSpan>>,
    now: Timestamp,
    key: KeyType,
    c: int,
)
    requires
        orderly(queues, now),
        0 <= c < queues.len(),
    ensures
        in_time_order(sub_timeline(queues, key)[c]),
{
    let sub = sub_timeline(queues, key)[c];
    assert forall|i: int, j: int| 0 <= i < j < sub.len() implies (#[trigger] sub[i]).invoke <= (
    #[trigger] sub[j]).finish by {
        lemma_origin(queues[c], key, i);
        lemma_origin(queues[c], key, j);
        let m = origin(queues[c], key, i);
        let n = origin(queues[c], key, j);
        lemma_orderly_chain(queues, now, c, m, n);
        assert(queues[c][m].invoke < queues[c][m].finish);
        assert(queues[c][n].invoke < queues[c][n].finish);
    }
}

} // verus!
