//! Descriptive statistics of a list of counts.

use vstd::prelude::*;
use vstd::relations::{sorted_by, total_ordering};
use vstd::seq_lib::lemma_sorted_unique;

verus! {

/// The smallest of the counts; the largest machine number where there are
/// none.
pub open spec fn seq_min(s: Seq<usize>) -> usize
    decreases s.len(),
{
    if s.len() == 0 {
        usize::MAX
    } else if s.last() < seq_min(s.drop_last()) {
        s.last()
    } else {
        seq_min(s.drop_last())
    }
}

/// The largest of the counts; zero where there are none.
pub open spec fn seq_max(s: Seq<usize>) -> usize
    decreases s.len(),
{
    if s.len() == 0 {
        0
    } else if s.last() > seq_max(s.drop_last()) {
        s.last()
    } else {
        seq_max(s.drop_last())
    }
}

/// The order of counts.
pub open spec fn at_most() -> spec_fn(usize, usize) -> bool {
    |a: usize, b: usize| a <= b
}

/// The median of counts that are in ascending order: the middle one, or the
/// mean of the two middle ones rounded down; zero where there are none.
pub open spec fn median_of_sorted(t: Seq<usize>) -> usize {
    let mid = (t.len() / 2) as int;
    if t.len() == 0 {
        0
    } else if t.len() % 2 == 0 {
        ((t[mid - 1] + t[mid]) / 2) as usize
    } else {
        t[mid]
    }
}

/// The median of the counts.
pub open spec fn median(s: Seq<usize>) -> usize {
    median_of_sorted(s.sort_by(at_most()))
}

/// The mean of the counts rounded down, from their sum; zero where there are
/// none.
pub open spec fn mean(sum: usize, n: nat) -> usize {
    if n == 0 {
        0
    } else {
        (sum as nat / n) as usize
    }
}

/// The smallest of the counts.
pub fn smallest(v: &Vec<usize>) -> (r: usize)
    ensures
        r == seq_min(v@),
{
    let mut r: usize = usize::MAX;
    let mut i: usize = 0;
    while i < v.len()
        invariant
            i <= v.len(),
            r == seq_min(v@.take(i as int)),
        decreases v.len() - i,
    {
        proof {
            assert(v@.take(i + 1).drop_last() =~= v@.take(i as int));
        }
        if v[i] < r {
            r = v[i];
        }
        i = i + 1;
    }
    proof {
        assert(v@.take(i as int) =~= v@);
    }
    r
}

/// The largest of the counts.
pub fn largest(v: &Vec<usize>) -> (r: usize)
    ensures
        r == seq_max(v@),
{
    let mut r: usize = 0;
    let mut i: usize = 0;
    while i < v.len()
        invariant
            i <= v.len(),
            r == seq_max(v@.take(i as int)),
        decreases v.len() - i,
    {
        proof {
            assert(v@.take(i + 1).drop_last() =~= v@.take(i as int));
        }
        if v[i] > r {
            r = v[i];
        }
        i = i + 1;
    }
    proof {
        assert(v@.take(i as int) =~= v@);
    }
    r
}

/// `sort_unstable` of std's slices: afterwards the vector holds the numbers
/// it held before, each as often as before, in ascending order.
#[verifier::external_body]
fn sort_counts(v: &mut Vec<usize>)
    ensures
        final(v)@.to_multiset() == old(v)@.to_multiset(),
        forall|i: int, j: int| 0 <= i < j < final(v)@.len() ==> final(v)@[i] <= final(v)@[j],
{
    v.sort_unstable();
}

/// The median of the counts.
pub fn middle(v: &Vec<usize>) -> (r: usize)
    ensures
        r == median(v@),
{
    let mut sorted = v.clone();
    sort_counts(&mut sorted);
    proof {
        assert(total_ordering(at_most()));
        assert(sorted_by(sorted@, at_most()));
        v@.lemma_sort_by_ensures(at_most());
        lemma_sorted_unique(sorted@, v@.sort_by(at_most()), at_most());
    }
    let n = sorted.len();
    if n == 0 {
        return 0;
    }
    let mid = n / 2;
    if n % 2 == 0 {
        let low = sorted[mid - 1];
        let high = sorted[mid];
        proof {
            assert((low + (high - low) / 2) == (low + high) / 2);
        }
        low + (high - low) / 2
    } else {
        sorted[mid]
    }
}

/// The mean of the counts rounded down, from their sum.
pub fn average(sum: usize, n: usize) -> (r: usize)
    ensures
        r == mean(sum, n as nat),
{
    if n == 0 {
        0
    } else {
        sum / n
    }
}

} // verus!
