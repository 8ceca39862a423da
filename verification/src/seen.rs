//! The set of search nodes that were already generated.
//!
//! Nodes are identified by register value and progress counts alone. They are
//! kept in buckets under a hash of that identity, so that a lookup compares
//! the node only with those that share its hash.

use std::collections::HashMap;
use vstd::prelude::*;
use crate::check::same_value;
use crate::model::{lemma_progress_injective, node_of, Node};
use crate::types::ValType;

verus! {

broadcast use vstd::std_specs::hash::group_hash_axioms;

/// One step of the hash: folds the number `x` into `h`.
pub open spec fn mix(h: u64, x: nat) -> u64 {
    ((h * 1099511628211 + x + 1) % 18446744073709551557) as u64
}

/// The hash of progress counts.
pub open spec fn hash_progress(prog: Seq<usize>) -> u64
    decreases prog.len(),
{
    if prog.len() == 0 {
        14695981039346656037
    } else {
        mix(hash_progress(prog.drop_last()), prog.last() as nat)
    }
}

/// The hash of a node's identity.
pub open spec fn hash_identity(state: Option<ValType>, prog: Seq<usize>) -> u64 {
    mix(
        hash_progress(prog),
        match state {
            None => 0,
            Some(v) => v as nat + 1,
        },
    )
}

fn mix_exec(h: u64, x: u64, one_more: bool) -> (r: u64)
    ensures
        r == mix(
            h,
            if one_more {
                x as nat + 1
            } else {
                x as nat
            },
        ),
{
    let extra: u128 = if one_more {
        2
    } else {
        1
    };
    let wide: u128 = h as u128 * 1099511628211u128 + x as u128 + extra;
    (wide % 18446744073709551557u128) as u64
}

/// Computes the hash of a node's identity.
pub fn hash_key(state: Option<ValType>, prog: &Vec<usize>) -> (h: u64)
    ensures
        h == hash_identity(state, prog@),
{
    let mut h: u64 = 14695981039346656037;
    let mut i: usize = 0;
    while i < prog.len()
        invariant
            i <= prog.len(),
            h == hash_progress(prog@.take(i as int)),
        decreases prog.len() - i,
    {
        proof {
            assert(prog@.take(i + 1).drop_last() =~= prog@.take(i as int));
        }
        h = mix_exec(h, prog[i] as u64, false);
        i = i + 1;
    }
    proof {
        assert(prog@.take(i as int) =~= prog@);
    }
    match state {
        None => mix_exec(h, 0, false),
        Some(v) => mix_exec(h, v, true),
    }
}

/// Whether two vectors of progress counts are the same.
pub fn same_progress(a: &Vec<usize>, b: &Vec<usize>) -> (r: bool)
    ensures
        r == (a@ == b@),
{
    if a.len() != b.len() {
        return false;
    }
    let mut i: usize = 0;
    while i < a.len()
        invariant
            a.len() == b.len(),
            i <= a.len(),
            forall|j: int| 0 <= j < i ==> a@[j] == b@[j],
        decreases a.len() - i,
    {
        if a[i] != b[i] {
            return false;
        }
        i = i + 1;
    }
    proof {
        assert(a@ =~= b@);
    }
    true
}

/// The identity of a node as it is stored.
pub struct SeenKey {
    pub state: Option<ValType>,
    pub prog: Vec<usize>,
}

impl SeenKey {
    /// The node that the key stands for.
    pub open spec fn node(&self) -> Node {
        node_of(self.state, self.prog@)
    }
}

/// A growing set of nodes.
pub struct SeenSet {
    buckets: HashMap<u64, Vec<SeenKey>>,
    contents: Ghost<Set<Node>>,
}

impl View for SeenSet {
    type V = Set<Node>;

    closed spec fn view(&self) -> Set<Node> {
        self.contents@
    }
}

impl SeenSet {
    /// Every stored key lies in the bucket of its hash and stands for a
    /// member, and every member is stored.
    pub closed spec fn wf(&self) -> bool {
        &&& forall|h: u64, j: int|
            self.buckets@.contains_key(h) && 0 <= j < self.buckets@[h]@.len() ==> {
                let k = #[trigger] self.buckets@[h]@[j];
                self.contents@.contains(k.node()) && hash_identity(k.state, k.prog@) == h
            }
        &&& forall|n: Node| #[trigger]
            self.contents@.contains(n) ==> exists|h: u64, j: int|
                self.buckets@.contains_key(h) && 0 <= j < self.buckets@[h]@.len()
                    && (#[trigger] self.buckets@[h]@[j]).node() == n
    }

    /// The empty set.
    pub fn new() -> (r: Self)
        ensures
            r.wf(),
            r@ == Set::<Node>::empty(),
    {
        SeenSet { buckets: HashMap::new(), contents: Ghost(Set::empty()) }
    }

    /// Whether the node with this identity is a member.
    pub fn contains(&self, state: Option<ValType>, prog: &Vec<usize>) -> (r: bool)
        requires
            self.wf(),
        ensures
            r == self@.contains(node_of(state, prog@)),
    {
        let h = hash_key(state, prog);
        let ghost n = node_of(state, prog@);
        match self.buckets.get(&h) {
            None => {
                proof {
                    if self.contents@.contains(n) {
                        let (h2, j) = choose|h2: u64, j: int|
                            self.buckets@.contains_key(h2) && 0 <= j < self.buckets@[h2]@.len()
                                && (#[trigger] self.buckets@[h2]@[j]).node() == n;
                        lemma_progress_injective(self.buckets@[h2]@[j].prog@, prog@);
                    }
                }
                false
            },
            Some(bucket) => {
                let mut j: usize = 0;
                while j < bucket.len()
                    invariant
                        j <= bucket.len(),
                        forall|i: int| 0 <= i < j ==> (#[trigger] bucket@[i]).node() != n,
                        n == node_of(state, prog@),
                        self.wf(),
                        self.buckets@.contains_key(h),
                        *bucket == self.buckets@[h],
                    decreases bucket.len() - j,
                {
                    let k = &bucket[j];
                    if same_value(k.state, state) && same_progress(&k.prog, prog) {
                        proof {
                            assert(self.buckets@[h]@[j as int].node() == n);
                        }
                        return true;
                    }
                    proof {
                        if k.node() == n {
                            lemma_progress_injective(k.prog@, prog@);
                        }
                    }
                    j = j + 1;
                }
                proof {
                    if self.contents@.contains(n) {
                        let (h2, i) = choose|h2: u64, i: int|
                            self.buckets@.contains_key(h2) && 0 <= i < self.buckets@[h2]@.len()
                                && (#[trigger] self.buckets@[h2]@[i]).node() == n;
                        lemma_progress_injective(self.buckets@[h2]@[i].prog@, prog@);
                        assert(h2 == h);
                    }
                }
                false
            },
        }
    }

    /// Adds the node with this identity.
    pub fn insert(&mut self, state: Option<ValType>, prog: Vec<usize>)
        requires
            old(self).wf(),
        ensures
            final(self).wf(),
            final(self)@ == old(self)@.insert(node_of(state, prog@)),
    {
        let h = hash_key(state, &prog);
        let ghost n = node_of(state, prog@);
        let ghost before = self.buckets@;
        let mut bucket = match self.buckets.remove(&h) {
            Some(b) => b,
            None => Vec::new(),
        };
        let ghost old_bucket = bucket@;
        bucket.push(SeenKey { state, prog });
        self.buckets.insert(h, bucket);
        self.contents = Ghost(self.contents@.insert(n));
        proof {
            let after = self.buckets@;
            assert forall|h2: u64, j: int|
                after.contains_key(h2) && 0 <= j < after[h2]@.len() implies {
                let k = #[trigger] after[h2]@[j];
                self.contents@.contains(k.node()) && hash_identity(k.state, k.prog@) == h2
            } by {
                if h2 == h {
                    if j < old_bucket.len() {
                        assert(before.contains_key(h));
                        assert(after[h2]@[j] == before[h]@[j]);
                    }
                } else {
                    assert(before.contains_key(h2));
                    assert(after[h2]@[j] == before[h2]@[j]);
                }
            }
            assert forall|m: Node| #[trigger] self.contents@.contains(m) implies exists|
                h2: u64,
                j: int,
            |
                after.contains_key(h2) && 0 <= j < after[h2]@.len() && (#[trigger] after[h2]@[j]).node()
                    == m by {
                if m == n {
                    assert(after[h]@[old_bucket.len() as int].node() == m);
                } else {
                    let (h2, j) = choose|h2: u64, j: int|
                        before.contains_key(h2) && 0 <= j < before[h2]@.len()
                            && (#[trigger] before[h2]@[j]).node() == m;
                    assert(after[h2]@[j] == before[h2]@[j]);
                    assert(after[h2]@[j].node() == m);
                }
            }
        }
    }
}

} // verus!
