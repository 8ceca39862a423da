//! Splitting a timeline into one sub-timeline per key.
//!
//! Only completed spans are checked. The keys are taken in the order in which
//! they first occur when the queues are read client by client; each key's
//! sub-timeline keeps the clients and, per client, the order of the spans.

use std::collections::HashMap;
use vstd::prelude::*;
use crate::check::CkSpan;
use crate::timeline::spans_of;
use crate::types::{KeyType, OpSpan};

verus! {

broadcast use vstd::std_specs::hash::group_hash_axioms;

/// The keys `acc`, followed by the keys of the completed spans of `s` that
/// are not among them, each once, in the order of `s`.
pub open spec fn scan_queue(acc: Seq<KeyType>, s: Seq<OpSpan>) -> Seq<KeyType>
    decreases s.len(),
{
    if s.len() == 0 {
        acc
    } else {
        let r = scan_queue(acc, s.drop_last());
        let k = s.last().data.spec_key();
        if s.last().finish != 0 && !r.contains(k) {
            r.push(k)
        } else {
            r
        }
    }
}

/// The keys of the completed spans of `q`, each once, in the order of their
/// first occurrence when the queues are read one after the other.
pub open spec fn scan(q: Seq<Seq<OpSpan>>) -> Seq<KeyType>
    decreases q.len(),
{
    if q.len() == 0 {
        Seq::empty()
    } else {
        scan_queue(scan(q.drop_last()), q.last())
    }
}

/// The completed spans of `s` on key `k`, in the order of `s`.
pub open spec fn sub_queue(s: Seq<OpSpan>, k: KeyType) -> Seq<CkSpan>
    decreases s.len(),
{
    if s.len() == 0 {
        Seq::empty()
    } else {
        let r = sub_queue(s.drop_last(), k);
        if s.last().finish != 0 && s.last().data.spec_key() == k {
            r.push(CkSpan::of(s.last()))
        } else {
            r
        }
    }
}

/// The sub-timeline of key `k`: for each client its completed spans on `k`.
pub open spec fn sub_timeline(q: Seq<Seq<OpSpan>>, k: KeyType) -> Seq<Seq<CkSpan>> {
    Seq::new(q.len(), |c: int| sub_queue(q[c], k))
}

/// The sub-timelines of all keys, in the order of `scan`.
pub open spec fn partition(q: Seq<Seq<OpSpan>>) -> Seq<Seq<Seq<CkSpan>>> {
    Seq::new(scan(q).len(), |j: int| sub_timeline(q, scan(q)[j]))
}

/// Scanning a queue keeps the keys it started from, adds none twice, and
/// adds exactly the keys of completed spans.
pub proof fn lemma_scan_queue(acc: Seq<KeyType>, s: Seq<OpSpan>)
    requires
        acc.no_duplicates(),
    ensures
        scan_queue(acc, s).no_duplicates(),
        acc.len() <= scan_queue(acc, s).len(),
        scan_queue(acc, s).take(acc.len() as int) == acc,
        forall|k: KeyType|
            scan_queue(acc, s).contains(k) <==> acc.contains(k) || exists|i: int|
                0 <= i < s.len() && (#[trigger] s[i]).finish != 0 && s[i].data.spec_key() == k,
    decreases s.len(),
{
    if s.len() == 0 {
        assert(acc.take(acc.len() as int) =~= acc);
    } else {
        let r = scan_queue(acc, s.drop_last());
        lemma_scan_queue(acc, s.drop_last());
        let k0 = s.last().data.spec_key();
        let out = scan_queue(acc, s);
        assert(out.take(acc.len() as int) =~= r.take(acc.len() as int));
        assert forall|k: KeyType|
            out.contains(k) <==> acc.contains(k) || exists|i: int|
                0 <= i < s.len() && (#[trigger] s[i]).finish != 0 && s[i].data.spec_key()
                    == k by {
            if out.contains(k) {
                let m = choose|m: int| 0 <= m < out.len() && out[m] == k;
                if m < r.len() {
                    assert(r[m] == k);
                    assert(r.contains(k));
                    if !acc.contains(k) {
                        let i = choose|i: int|
                            0 <= i < s.drop_last().len() && (#[trigger] s.drop_last()[i]).finish
                                != 0 && s.drop_last()[i].data.spec_key() == k;
                        assert(s[i] == s.drop_last()[i]);
                    }
                } else {
                    assert(s[s.len() - 1].finish != 0);
                }
            }
            if acc.contains(k) {
                assert(r.contains(k));
                let m = choose|m: int| 0 <= m < r.len() && r[m] == k;
                assert(out[m] == k);
            }
            if exists|i: int|
                0 <= i < s.len() && (#[trigger] s[i]).finish != 0 && s[i].data.spec_key() == k {
                let i = choose|i: int|
                    0 <= i < s.len() && (#[trigger] s[i]).finish != 0 && s[i].data.spec_key() == k;
                if i < s.len() - 1 {
                    assert(s.drop_last()[i] == s[i]);
                    assert(r.contains(k));
                    let m = choose|m: int| 0 <= m < r.len() && r[m] == k;
                    assert(out[m] == k);
                } else {
                    if r.contains(k) {
                        let m = choose|m: int| 0 <= m < r.len() && r[m] == k;
                        assert(out[m] == k);
                    } else {
                        assert(out[r.len() as int] == k);
                    }
                }
            }
        }
    }
}

/// The keys of a timeline are distinct, and they are the keys of its
/// completed spans.
pub proof fn lemma_scan(q: Seq<Seq<OpSpan>>)
    ensures
        scan(q).no_duplicates(),
        forall|k: KeyType|
            scan(q).contains(k) <==> exists|c: int, i: int|
                0 <= c < q.len() && 0 <= i < q[c].len() && (#[trigger] q[c][i]).finish != 0
                    && q[c][i].data.spec_key() == k,
    decreases q.len(),
{
    if q.len() > 0 {
        let acc = scan(q.drop_last());
        lemma_scan(q.drop_last());
        lemma_scan_queue(acc, q.last());
        assert forall|k: KeyType|
            scan(q).contains(k) <==> exists|c: int, i: int|
                0 <= c < q.len() && 0 <= i < q[c].len() && (#[trigger] q[c][i]).finish != 0
                    && q[c][i].data.spec_key() == k by {
            if scan(q).contains(k) {
                if acc.contains(k) {
                    let (c, i) = choose|c: int, i: int|
                        0 <= c < q.drop_last().len() && 0 <= i < q.drop_last()[c].len() && (
                        #[trigger] q.drop_last()[c][i]).finish != 0
                            && q.drop_last()[c][i].data.spec_key() == k;
                    assert(q[c][i] == q.drop_last()[c][i]);
                } else {
                    let i = choose|i: int|
                        0 <= i < q.last().len() && (#[trigger] q.last()[i]).finish != 0
                            && q.last()[i].data.spec_key() == k;
                    assert(q[q.len() - 1][i] == q.last()[i]);
                }
            }
            if exists|c: int, i: int|
                0 <= c < q.len() && 0 <= i < q[c].len() && (#[trigger] q[c][i]).finish != 0
                    && q[c][i].data.spec_key() == k {
                let (c, i) = choose|c: int, i: int|
                    0 <= c < q.len() && 0 <= i < q[c].len() && (#[trigger] q[c][i]).finish != 0
                        && q[c][i].data.spec_key() == k;
                if c < q.len() - 1 {
                    assert(q.drop_last()[c][i] == q[c][i]);
                    assert(acc.contains(k));
                } else {
                    assert(q.last()[i] == q[c][i]);
                }
            }
        }
    } else {
        assert forall|k: KeyType| !scan(q).contains(k) by {
            if scan(q).contains(k) {
                let m = choose|m: int| 0 <= m < scan(q).len() && scan(q)[m] == k;
            }
        }
    }
}

/// A queue without a completed span on `k` has an empty sub-queue for `k`.
pub proof fn lemma_sub_queue_empty(s: Seq<OpSpan>, k: KeyType)
    requires
        forall|i: int| 0 <= i < s.len() ==> !((#[trigger] s[i]).finish != 0 && s[i].data.spec_key() == k),
    ensures
        sub_queue(s, k) == Seq::<CkSpan>::empty(),
    decreases s.len(),
{
    if s.len() > 0 {
        assert forall|i: int| 0 <= i < s.drop_last().len() implies !((
        #[trigger] s.drop_last()[i]).finish != 0 && s.drop_last()[i].data.spec_key() == k) by {
            assert(s.drop_last()[i] == s[i]);
        }
        lemma_sub_queue_empty(s.drop_last(), k);
        assert(!(s[s.len() - 1].finish != 0 && s[s.len() - 1].data.spec_key() == k));
    }
}

/// The position in `s` of the span that stands at position `i` of the
/// sub-queue for `k`.
pub open spec fn origin(s: Seq<OpSpan>, k: KeyType, i: int) -> int
    decreases s.len(),
{
    if s.len() == 0 {
        0
    } else if i < sub_queue(s.drop_last(), k).len() {
        origin(s.drop_last(), k, i)
    } else {
        s.len() - 1
    }
}

/// Every span of a sub-queue is a completed span on the key, and the spans
/// stand in the sub-queue as they stand in the queue.
pub proof fn lemma_origin(s: Seq<OpSpan>, k: KeyType, i: int)
    requires
        0 <= i < sub_queue(s, k).len(),
    ensures
        0 <= origin(s, k, i) < s.len(),
        s[origin(s, k, i)].finish != 0,
        s[origin(s, k, i)].data.spec_key() == k,
        sub_queue(s, k)[i] == CkSpan::of(s[origin(s, k, i)]),
        forall|j: int| 0 <= j < i ==> origin(s, k, j) < origin(s, k, i),
    decreases s.len(),
{
    if s.len() > 0 {
        let front = s.drop_last();
        if i < sub_queue(front, k).len() {
            lemma_origin(front, k, i);
            assert(s[origin(front, k, i)] == front[origin(front, k, i)]);
            assert forall|j: int| 0 <= j < i implies origin(s, k, j) < origin(s, k, i) by {
                assert(origin(s, k, j) == origin(front, k, j));
            }
        } else {
            assert forall|j: int| 0 <= j < i implies origin(s, k, j) < origin(s, k, i) by {
                lemma_origin(front, k, j);
            }
        }
    }
}

/// The spans of each queue of each group.
pub open spec fn groups_of(groups: Seq<Vec<Vec<CkSpan>>>) -> Seq<Seq<Seq<CkSpan>>> {
    Seq::new(groups.len(), |j: int| Seq::new(groups[j]@.len(), |d: int| groups[j]@[d]@))
}

/// The groups after the first `c` queues and the first `i` spans of the next
/// were read.
pub open spec fn groups_upto(q: Seq<Seq<OpSpan>>, keys: Seq<KeyType>, c: int, i: int) -> Seq<
    Seq<Seq<CkSpan>>,
> {
    Seq::new(
        keys.len(),
        |j: int|
            Seq::new(
                q.len(),
                |d: int|
                    if d < c {
                        sub_queue(q[d], keys[j])
                    } else if d == c {
                        sub_queue(q[c].take(i), keys[j])
                    } else {
                        Seq::empty()
                    },
            ),
    )
}

/// As many empty queues as there are clients.
fn empty_queues(clients: usize) -> (r: Vec<Vec<CkSpan>>)
    ensures
        r@.len() == clients,
        forall|d: int| 0 <= d < clients ==> (#[trigger] r@[d])@ == Seq::<CkSpan>::empty(),
{
    let mut r: Vec<Vec<CkSpan>> = Vec::new();
    let mut d: usize = 0;
    while d < clients
        invariant
            d <= clients,
            r@.len() == d,
            forall|m: int| 0 <= m < d ==> (#[trigger] r@[m])@ == Seq::<CkSpan>::empty(),
        decreases clients - d,
    {
        r.push(Vec::new());
        d = d + 1;
    }
    r
}

/// Appends a span to one queue of one group.
fn append_to(groups: &mut Vec<Vec<Vec<CkSpan>>>, slot: usize, client: usize, span: CkSpan)
    requires
        slot < old(groups)@.len(),
        client < old(groups)@[slot as int]@.len(),
    ensures
        final(groups)@.len() == old(groups)@.len(),
        forall|j: int|
            0 <= j < old(groups)@.len() ==> (#[trigger] final(groups)@[j])@.len() == old(
                groups,
            )@[j]@.len(),
        groups_of(final(groups)@) == groups_of(old(groups)@).update(
            slot as int,
            groups_of(old(groups)@)[slot as int].update(
                client as int,
                groups_of(old(groups)@)[slot as int][client as int].push(span),
            ),
        ),
{
    let mut group: Vec<Vec<CkSpan>> = Vec::new();
    std::mem::swap(&mut group, &mut groups[slot]);
    let mut queue: Vec<CkSpan> = Vec::new();
    std::mem::swap(&mut queue, &mut group[client]);
    queue.push(span);
    std::mem::swap(&mut queue, &mut group[client]);
    std::mem::swap(&mut group, &mut groups[slot]);
    proof {
        let want = groups_of(old(groups)@).update(
            slot as int,
            groups_of(old(groups)@)[slot as int].update(
                client as int,
                groups_of(old(groups)@)[slot as int][client as int].push(span),
            ),
        );
        assert(groups_of(groups@).len() == want.len());
        assert forall|j: int| 0 <= j < want.len() implies groups_of(groups@)[j] =~= want[j] by {
            if j == slot {
                assert forall|d: int| 0 <= d < want[j].len() implies groups_of(groups@)[j][d]
                    =~= want[j][d] by {}
            }
        }
        assert(groups_of(groups@) =~= want);
    }
}

/// Splits the queues of a timeline per key: the keys of `scan`, and for each
/// of them its sub-timeline.
pub fn split(queues: &Vec<Vec<OpSpan>>) -> (r: (Vec<KeyType>, Vec<Vec<Vec<CkSpan>>>))
    ensures
        r.0@ == scan(spans_of(queues@)),
        groups_of(r.1@) == partition(spans_of(queues@)),
{
    let ghost q = spans_of(queues@);
    let clients = queues.len();
    let mut keys: Vec<KeyType> = Vec::new();
    let mut index: HashMap<KeyType, usize> = HashMap::new();
    let mut groups: Vec<Vec<Vec<CkSpan>>> = Vec::new();
    proof {
        assert(q.take(0) =~= Seq::<Seq<OpSpan>>::empty());
        assert(groups_of(groups@) =~= groups_upto(q, keys@, 0, 0));
    }
    let mut c: usize = 0;
    while c < clients
        invariant
            c <= clients,
            clients == queues@.len(),
            q == spans_of(queues@),
            keys@ == scan(q.take(c as int)),
            keys@.no_duplicates(),
            forall|j: int|
                0 <= j < keys@.len() ==> index@.contains_key(#[trigger] keys@[j])
                    && index@[keys@[j]] == j,
            forall|k: KeyType| #[trigger] index@.contains_key(k) ==> keys@.contains(k),
            groups_of(groups@) == groups_upto(q, keys@, c as int, 0),
            groups@.len() == keys@.len(),
            forall|j: int| 0 <= j < groups@.len() ==> (#[trigger] groups@[j])@.len() == clients,
        decreases clients - c,
    {
        let queue = &queues[c];
        proof {
            assert(q[c as int].take(0) =~= Seq::<OpSpan>::empty());
            lemma_scan(q.take(c as int));
        }
        let mut i: usize = 0;
        while i < queue.len()
            invariant
                c < clients,
                clients == queues@.len(),
                q == spans_of(queues@),
                queue@ == q[c as int],
                i <= queue@.len(),
                scan(q.take(c as int)).no_duplicates(),
                keys@ == scan_queue(scan(q.take(c as int)), q[c as int].take(i as int)),
                keys@.no_duplicates(),
                forall|j: int|
                    0 <= j < keys@.len() ==> index@.contains_key(#[trigger] keys@[j])
                        && index@[keys@[j]] == j,
                forall|k: KeyType| #[trigger] index@.contains_key(k) ==> keys@.contains(k),
                groups_of(groups@) == groups_upto(q, keys@, c as int, i as int),
                groups@.len() == keys@.len(),
                forall|j: int| 0 <= j < groups@.len() ==> (#[trigger] groups@[j])@.len() == clients,
            decreases queue.len() - i,
        {
            let span = queue[i];
            let ghost head = q[c as int].take(i as int);
            let ghost more = q[c as int].take(i + 1);
            let ghost old_keys = keys@;
            proof {
                assert(more.drop_last() =~= head);
                assert(more.last() == span);
                lemma_scan_queue(scan(q.take(c as int)), more);
            }
            if span.terminated() {
                let key = span.key();
                let slot = match index.get(&key) {
                    Some(slot) => *slot,
                    None => {
                        let slot = keys.len();
                        proof {
                            let acc = scan(q.take(c as int));
                            lemma_scan(q.take(c as int));
                            lemma_scan_queue(acc, head);
                            if old_keys.contains(key) {
                                let m = choose|m: int| 0 <= m < old_keys.len() && old_keys[m] == key;
                                assert(index@.contains_key(old_keys[m]));
                            }
                            assert(!old_keys.contains(key));
                            assert(!acc.contains(key));
                            assert forall|d: int| 0 <= d < c implies sub_queue(q[d], key)
                                == Seq::<CkSpan>::empty() by {
                                assert forall|m: int| 0 <= m < q[d].len() implies !((
                                #[trigger] q[d][m]).finish != 0 && q[d][m].data.spec_key()
                                    == key) by {
                                    let t = q.take(c as int);
                                    assert(t[d][m] == q[d][m]);
                                    if t[d][m].finish != 0 && t[d][m].data.spec_key() == key {
                                        assert(acc.contains(key));
                                    }
                                }
                                lemma_sub_queue_empty(q[d], key);
                            }
                            assert forall|m: int| 0 <= m < head.len() implies !((
                            #[trigger] head[m]).finish != 0 && head[m].data.spec_key() == key) by {
                                if head[m].finish != 0 && head[m].data.spec_key() == key {
                                    assert(old_keys.contains(key));
                                }
                            }
                            lemma_sub_queue_empty(head, key);
                        }
                        keys.push(key);
                        index.insert(key, slot);
                        groups.push(empty_queues(clients));
                        proof {
                            assert(groups_of(groups@) =~~= groups_upto(
                                q,
                                keys@,
                                c as int,
                                i as int,
                            )) by {
                                let a = groups_of(groups@);
                                let b = groups_upto(q, keys@, c as int, i as int);
                                let a0 = groups_upto(q, old_keys, c as int, i as int);
                                assert(a.len() == b.len());
                                assert forall|j: int| 0 <= j < a.len() implies a[j] =~~= b[j] by {
                                    if j < old_keys.len() {
                                        assert(a[j] == a0[j]);
                                        assert(keys@[j] == old_keys[j]);
                                    }
                                }
                            }
                            assert forall|j: int| 0 <= j < keys@.len() implies index@.contains_key(
                                #[trigger] keys@[j],
                            ) && index@[keys@[j]] == j by {
                                if j < old_keys.len() {
                                    assert(keys@[j] == old_keys[j]);
                                }
                            }
                            assert forall|k: KeyType| #[trigger]
                                index@.contains_key(k) implies keys@.contains(k) by {
                                if k == key {
                                    assert(keys@[slot as int] == k);
                                } else {
                                    let m = choose|m: int|
                                        0 <= m < old_keys.len() && old_keys[m] == k;
                                    assert(keys@[m] == k);
                                }
                            }
                        }
                        slot
                    },
                };
                proof {
                    assert(keys@[slot as int] == key);
                    assert(groups_of(groups@)[slot as int].len() == clients);
                }
                let ghost before = groups_of(groups@);
                append_to(&mut groups, slot, c, CkSpan::from_raw(span));
                proof {
                    let a = groups_of(groups@);
                    let b = groups_upto(q, keys@, c as int, i + 1);
                    assert(a.len() == b.len());
                    assert forall|j: int| 0 <= j < a.len() implies a[j] =~~= b[j] by {
                        assert(before[j] == groups_upto(q, keys@, c as int, i as int)[j]);
                        if j != slot {
                            assert(keys@[j] != key);
                        }
                    }
                    assert(a =~~= b);
                }
            } else {
                proof {
                    assert(groups_of(groups@) =~~= groups_upto(q, keys@, c as int, i + 1));
                }
            }
            i = i + 1;
        }
        proof {
            assert(q[c as int].take(i as int) =~= q[c as int]);
            assert(q.take(c + 1).drop_last() =~= q.take(c as int));
            assert(q.take(c + 1).last() == q[c as int]);
            let a = groups_upto(q, keys@, c as int, i as int);
            let b = groups_upto(q, keys@, c + 1, 0);
            assert(a.len() == b.len());
            assert forall|j: int| 0 <= j < a.len() implies a[j] =~~= b[j] by {
                assert forall|d: int| 0 <= d < q.len() implies a[j][d] =~= b[j][d] by {
                    if d == c + 1 {
                        assert(q[d].take(0) =~= Seq::<OpSpan>::empty());
                    }
                }
            }
            assert(a =~~= b);
        }
        c = c + 1;
    }
    proof {
        assert(q.take(c as int) =~= q);
        assert(groups_upto(q, keys@, c as int, 0) =~~= partition(q));
    }
    (keys, groups)
}

} // verus!
