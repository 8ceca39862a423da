//! The per-key linearizability search and the checker built from it.

use std::collections::VecDeque;
use vstd::prelude::*;
use crate::model::{
    accepts,
    complete,
    initial,
    is_max_invoke,
    lemma_complete_depth,
    next_state,
    node_of,
    search_space_exceeds,
    total,
    verdict,
    within,
    Node,
};
use crate::search::{
    inv,
    lemma_beyond_limit,
    lemma_decide_linearizable,
    lemma_decide_weak,
    lemma_finish,
    lemma_keep,
    lemma_next_level,
    lemma_offer,
    lemma_pop,
    lemma_push,
    lemma_start,
    lemma_within_limit,
    Search,
};
use crate::partition::{groups_of, partition, scan, split};
use crate::seen::{same_progress, SeenSet};
use crate::timeline::Timeline;
use crate::types::{ClientId, Consistency, KeyType, OpData, OpSpan, Timestamp, ValType};

verus! {

/// Names one span: the client and the position in that client's queue.
pub type FeedIdx = (ClientId, usize);

/// What an operation span says happened to the register.
#[allow(inconsistent_fields)]
#[derive(Debug, Clone, Copy, PartialEq, Eq, Structural)]
pub enum CkData {
    Read { val: Option<ValType> },
    Write { val: ValType },
    Rmw { rval: Option<ValType>, wval: Option<ValType> },
}

impl CkData {
    /// What `raw` says of the register, without key and tags.
    pub open spec fn of(raw: OpData) -> CkData {
        match raw {
            OpData::Read { val, .. } => CkData::Read { val },
            OpData::Write { val, .. } => CkData::Write { val },
            OpData::Rmw { rval, wval, .. } => CkData::Rmw { rval, wval },
        }
    }

    pub fn from_raw(raw: OpData) -> (r: Self)
        ensures
            r == CkData::of(raw),
    {
        match raw {
            OpData::Read { val, .. } => CkData::Read { val },
            OpData::Write { val, .. } => CkData::Write { val },
            OpData::Rmw { rval, wval, .. } => CkData::Rmw { rval, wval },
        }
    }

    /// The register transition: whether the register, holding `state`, can
    /// have produced what `self` records, and the value it holds afterwards.
    /// Where the operation is not accepted the value is `state` unchanged.
    pub fn apply(&self, state: Option<ValType>) -> (r: (bool, Option<ValType>))
        ensures
            r.0 == accepts(state, *self),
            r.1 == if r.0 {
                next_state(state, *self)
            } else {
                state
            },
    {
        match *self {
            CkData::Read { val } => (same_value(state, val), state),
            CkData::Write { val } => (true, Some(val)),
            CkData::Rmw { rval, wval } => {
                if same_value(state, rval) {
                    (true, wval)
                } else {
                    (false, state)
                }
            },
        }
    }
}

/// Whether two optional values are the same.
pub fn same_value(a: Option<ValType>, b: Option<ValType>) -> (r: bool)
    ensures
        r == (a == b),
{
    match (a, b) {
        (Some(x), Some(y)) => x == y,
        (None, None) => true,
        _ => false,
    }
}

/// A completed operation interval on one key.
#[derive(Debug, Clone, Copy, PartialEq, Eq, Structural)]
pub struct CkSpan {
    pub invoke: Timestamp,
    pub finish: Timestamp,
    pub data: CkData,
}

impl CkSpan {
    /// `raw` with only what the search reads.
    pub open spec fn of(raw: OpSpan) -> CkSpan {
        CkSpan { invoke: raw.invoke, finish: raw.finish, data: CkData::of(raw.data) }
    }

    pub fn from_raw(raw: OpSpan) -> (r: Self)
        ensures
            r == CkSpan::of(raw),
    {
        CkSpan { invoke: raw.invoke, finish: raw.finish, data: CkData::from_raw(raw.data) }
    }

    /// Whether the operation has completed.
    pub fn terminated(&self) -> (r: bool)
        ensures
            r == (self.finish != 0),
    {
        self.finish != 0
    }
}

/// A search node as the search holds it: one way of ordering a prefix of each
/// client's queue.
#[derive(Debug)]
pub struct Possibility {
    /// The spans that changed the register, in the order of this prefix. It
    /// is a witness only: it is no part of the node's identity.
    pub graph: Vec<FeedIdx>,
    /// The register's value after the prefix.
    pub state: Option<ValType>,
    /// The latest invocation time among the spans of the prefix.
    pub max_invoke: Timestamp,
    /// For each client, the number of its spans in the prefix.
    pub feed_prog: Vec<usize>,
}

/// A possibility as plain mathematical data.
pub struct PossibilityView {
    pub graph: Seq<FeedIdx>,
    pub state: Option<ValType>,
    pub max_invoke: Timestamp,
    pub feed_prog: Seq<usize>,
}

impl View for Possibility {
    type V = PossibilityView;

    open spec fn view(&self) -> PossibilityView {
        PossibilityView {
            graph: self.graph@,
            state: self.state,
            max_invoke: self.max_invoke,
            feed_prog: self.feed_prog@,
        }
    }
}

impl PossibilityView {
    /// The possibility before anything is placed.
    pub open spec fn initial(num_clients: nat) -> PossibilityView {
        PossibilityView {
            graph: Seq::empty(),
            state: None,
            max_invoke: 0,
            feed_prog: Seq::new(num_clients, |c: int| 0usize),
        }
    }

    /// The possibility that follows `self` when the span `s`, named by `idx`,
    /// is appended: the client's count goes up by one, the register takes the
    /// value that `s` leaves, and a span that changes the register joins the
    /// witness.
    pub open spec fn appended(self, s: CkSpan, idx: FeedIdx) -> PossibilityView {
        PossibilityView {
            graph: if s.data is Read {
                self.graph
            } else {
                self.graph.push(idx)
            },
            state: next_state(self.state, s.data),
            max_invoke: if s.invoke > self.max_invoke {
                s.invoke
            } else {
                self.max_invoke
            },
            feed_prog: self.feed_prog.update(
                idx.0 as int,
                (self.feed_prog[idx.0 as int] + 1) as usize,
            ),
        }
    }

    /// The node that the possibility stands for: its identity.
    pub open spec fn key(self) -> Node {
        node_of(self.state, self.feed_prog)
    }
}

impl Possibility {
    /// The node that the possibility stands for: its identity.
    pub open spec fn key(&self) -> Node {
        self@.key()
    }

    /// The possibility describes a prefix of the queues `q`.
    pub open spec fn fits(&self, q: Seq<Seq<CkSpan>>) -> bool {
        &&& within(q, self.key().prog)
        &&& is_max_invoke(q, self.key().prog, self.max_invoke)
    }

    /// The possibility before anything is placed.
    pub fn initial(num_clients: usize) -> (r: Self)
        ensures
            r@ == PossibilityView::initial(num_clients as nat),
    {
        let mut feed_prog: Vec<usize> = Vec::new();
        let mut c: usize = 0;
        while c < num_clients
            invariant
                c <= num_clients,
                feed_prog@ == Seq::new(c as nat, |i: int| 0usize),
            decreases num_clients - c,
        {
            feed_prog.push(0);
            c = c + 1;
        }
        Possibility { graph: Vec::new(), state: None, max_invoke: 0, feed_prog }
    }

    /// A possibility from its parts.
    pub fn from(
        graph: Vec<FeedIdx>,
        state: Option<ValType>,
        max_invoke: Timestamp,
        feed_prog: Vec<usize>,
    ) -> (r: Self)
        ensures
            r@ == (PossibilityView { graph: graph@, state, max_invoke, feed_prog: feed_prog@ }),
    {
        Possibility { graph, state, max_invoke, feed_prog }
    }
}

impl Clone for Possibility {
    fn clone(&self) -> (r: Self)
        ensures
            r@ == self@,
    {
        Possibility {
            graph: copy_graph(&self.graph),
            state: self.state,
            max_invoke: self.max_invoke,
            feed_prog: self.feed_prog.clone(),
        }
    }
}

impl PartialEq for Possibility {
    /// Two possibilities are the same node when register value and progress
    /// agree, whatever their witnesses.
    fn eq(&self, other: &Self) -> (r: bool) {
        same_value(self.state, other.state) && same_progress(&self.feed_prog, &other.feed_prog)
    }
}

impl vstd::std_specs::cmp::PartialEqSpecImpl for Possibility {
    open spec fn obeys_eq_spec() -> bool {
        true
    }

    open spec fn eq_spec(&self, other: &Self) -> bool {
        self.state == other.state && self.feed_prog@ == other.feed_prog@
    }
}

impl Eq for Possibility {

}

/// A copy of a witness.
fn copy_graph(graph: &Vec<FeedIdx>) -> (r: Vec<FeedIdx>)
    ensures
        r@ == graph@,
{
    let mut r: Vec<FeedIdx> = Vec::new();
    let mut i: usize = 0;
    while i < graph.len()
        invariant
            i <= graph.len(),
            r@ == graph@.take(i as int),
        decreases graph.len() - i,
    {
        r.push(graph[i]);
        proof {
            assert(r@ =~= graph@.take(i + 1));
        }
        i = i + 1;
    }
    proof {
        assert(graph@.take(i as int) =~= graph@);
    }
    r
}

/// The spans of each client's queue.
pub open spec fn spans_of(queues: Seq<Vec<CkSpan>>) -> Seq<Seq<CkSpan>> {
    Seq::new(queues.len(), |c: int| queues[c]@)
}

/// Why a check gave no verdict.
#[derive(Debug, Clone, Copy, PartialEq, Eq, Structural)]
pub enum CheckError {
    /// The search was given a bound and reached it before it could decide.
    Inconclusive,
}

/// What a search on the sub-timeline `q` answers: the verdict, unless it was
/// given a bound and more nodes than that have to be expanded.
pub open spec fn outcome(q: Seq<Seq<CkSpan>>, bound: Option<usize>) -> Result<
    Consistency,
    CheckError,
> {
    if bound is Some && search_space_exceeds(q, bound->0 as nat) {
        Err(CheckError::Inconclusive)
    } else {
        Ok(verdict(q))
    }
}

/// The search on one key.
pub struct CheckerPerKey {
    /// The spans on this key, one queue per client.
    client_queues: Vec<Vec<CkSpan>>,
    /// The pending possibilities, oldest first.
    possibilities: VecDeque<Possibility>,
    /// The nodes of all possibilities generated so far.
    possibilities_set: SeenSet,
    /// The most nodes that the search may expand, if it is bounded.
    bound: Option<usize>,
    /// The number of nodes expanded so far, counted where there is a bound.
    expanded: usize,
    /// The nodes expanded so far.
    done: Ghost<Set<Node>>,
    /// The depth of the oldest pending possibilities.
    level: Ghost<nat>,
    /// How many pending possibilities have that depth.
    front: Ghost<nat>,
}

impl CheckerPerKey {
    /// The sub-timeline under check.
    pub closed spec fn queues(&self) -> Seq<Seq<CkSpan>> {
        spans_of(self.client_queues@)
    }

    /// The most nodes that the search may expand, if it is bounded.
    pub closed spec fn bound(&self) -> Option<usize> {
        self.bound
    }

    /// The pending possibilities, oldest first.
    pub closed spec fn pending(&self) -> Seq<PossibilityView> {
        self.possibilities@.map_values(|p: Possibility| p@)
    }

    /// The nodes of all possibilities generated so far.
    pub closed spec fn seen(&self) -> Set<Node> {
        self.possibilities_set@
    }

    spec fn search(&self) -> Search {
        Search {
            pending: self.possibilities@,
            seen: self.possibilities_set@,
            done: self.done@,
            level: self.level@,
            front: self.front@,
        }
    }

    /// The search is in a state from which it can go on.
    pub closed spec fn wf(&self) -> bool {
        &&& self.possibilities_set.wf()
        &&& inv(self.queues(), self.search(), None, 0)
        &&& self.bound matches Some(b) ==> self.expanded == self.done@.len() && self.expanded <= b
    }

    /// A search on the given queues, one per client, that runs until it has
    /// decided. It starts with the one possibility in which nothing is placed
    /// pending, and its node seen.
    pub fn new(client_queues: Vec<Vec<CkSpan>>) -> (r: Self)
        ensures
            r.wf(),
            r.queues() == spans_of(client_queues@),
            r.bound() is None,
            r.pending() == seq![PossibilityView::initial(client_queues@.len())],
            r.seen() == Set::empty().insert(initial(client_queues@.len())),
    {
        Self::start(client_queues, None)
    }

    /// A search on the given queues that gives up once it has expanded
    /// `bound` nodes without deciding. It starts as a search without a bound
    /// does.
    pub fn with_bound(client_queues: Vec<Vec<CkSpan>>, bound: usize) -> (r: Self)
        ensures
            r.wf(),
            r.queues() == spans_of(client_queues@),
            r.bound() == Some(bound),
            r.pending() == seq![PossibilityView::initial(client_queues@.len())],
            r.seen() == Set::empty().insert(initial(client_queues@.len())),
    {
        Self::start(client_queues, Some(bound))
    }

    fn start(client_queues: Vec<Vec<CkSpan>>, bound: Option<usize>) -> (r: Self)
        ensures
            r.wf(),
            r.queues() == spans_of(client_queues@),
            r.bound() == bound,
            r.pending() == seq![PossibilityView::initial(client_queues@.len())],
            r.seen() == Set::empty().insert(initial(client_queues@.len())),
    {
        let num_clients = client_queues.len();
        let first = Possibility::initial(num_clients);
        let mut possibilities_set = SeenSet::new();
        possibilities_set.insert(first.state, first.feed_prog.clone());
        let mut possibilities: VecDeque<Possibility> = VecDeque::new();
        proof {
            lemma_start(spans_of(client_queues@), first);
        }
        possibilities.push_back(first);
        proof {
            assert(possibilities@ =~= seq![first]);
            assert(possibilities@.map_values(|p: Possibility| p@) =~= seq![
                PossibilityView::initial(num_clients as nat),
            ]);
        }
        CheckerPerKey {
            client_queues,
            possibilities,
            possibilities_set,
            bound,
            expanded: 0,
            done: Ghost(Set::empty()),
            level: Ghost(0),
            front: Ghost(1),
        }
    }

    /// The spans under check, one queue per client.
    pub fn client_queues(&self) -> (r: &Vec<Vec<CkSpan>>)
        ensures
            spans_of(r@) == self.queues(),
    {
        &self.client_queues
    }

    /// Whether `possib` has placed every span.
    fn is_complete(&self, possib: &Possibility) -> (r: bool)
        requires
            possib.feed_prog@.len() == self.client_queues@.len(),
        ensures
            r == complete(self.queues(), possib.key()),
    {
        let mut c: usize = 0;
        while c < self.client_queues.len()
            invariant
                c <= self.client_queues@.len(),
                possib.feed_prog@.len() == self.client_queues@.len(),
                forall|d: int|
                    0 <= d < c ==> possib.key().prog[d] == (#[trigger] self.queues()[d]).len(),
            decreases self.client_queues@.len() - c,
        {
            if possib.feed_prog[c] != self.client_queues[c].len() {
                proof {
                    assert(possib.key().prog[c as int] != self.queues()[c as int].len());
                }
                return false;
            }
            c = c + 1;
        }
        true
    }

    /// Runs the search until it has decided, or until its bound is reached.
    /// The sub-timeline is linearizable where some total order of its spans
    /// keeps each client's own order, never places a span after one that was
    /// invoked when it had already finished, and is accepted by the register
    /// step by step. A search that has answered answers the same again.
    pub fn check(&mut self) -> (r: Result<Consistency, CheckError>)
        requires
            old(self).wf(),
        ensures
            final(self).wf(),
            final(self).queues() == old(self).queues(),
            final(self).bound() == old(self).bound(),
            r == outcome(old(self).queues(), old(self).bound()),
    {
        let num_clients = self.client_queues.len();
        loop
            invariant
                self.wf(),
                self.queues() == old(self).queues(),
                self.bound() == old(self).bound(),
                num_clients == self.client_queues@.len(),
            decreases total(self.queues()) - self.level@, self.front@,
        {
            let ghost q = self.queues();
            if self.possibilities.len() == 0 {
                proof {
                    lemma_decide_weak(q, self.search());
                    if self.bound is Some {
                        lemma_within_limit(q, self.done@, self.bound->0 as nat);
                    }
                }
                return Ok(Consistency::Weak);
            }
            proof {
                if self.front@ == 0 {
                    lemma_next_level(q, self.search());
                }
            }
            let ghost turn = self.front@ == 0;
            self.level = Ghost(
                if turn {
                    self.level@ + 1
                } else {
                    self.level@
                },
            );
            self.front = Ghost(
                if turn {
                    self.possibilities@.len()
                } else {
                    self.front@
                },
            );
            let at_end = self.is_complete(&self.possibilities[0]);
            if at_end {
                proof {
                    lemma_decide_linearizable(q, self.search());
                    if self.bound is Some {
                        lemma_within_limit(q, self.done@, self.bound->0 as nat);
                    }
                }
                return Ok(Consistency::Linearizable);
            }
            if let Some(b) = self.bound {
                if self.expanded >= b {
                    proof {
                        lemma_beyond_limit(q, self.search());
                    }
                    return Err(CheckError::Inconclusive);
                }
            }
            proof {
                lemma_pop(q, self.search());
                lemma_complete_depth(q, self.possibilities@[0].key());
            }
            let possib = self.possibilities.pop_front().unwrap();
            self.front = Ghost((self.front@ - 1) as nat);
            let ghost k = possib.key();
            let ghost level = self.level@;
            let ghost front = self.front@;
            let mut c: usize = 0;
            while c < num_clients
                invariant
                    c <= num_clients,
                    num_clients == self.client_queues@.len(),
                    q == self.queues(),
                    self.queues() == old(self).queues(),
                    self.bound() == old(self).bound(),
                    self.possibilities_set.wf(),
                    possib.fits(q),
                    k == possib.key(),
                    inv(q, self.search(), Some(k), c as int),
                    self.bound matches Some(b) ==> self.expanded == self.done@.len()
                        && self.expanded < b,
                    self.level@ == level,
                    self.front@ == front,
                    level < total(q),
                decreases num_clients - c,
            {
                let idx = possib.feed_prog[c];
                let ghost before = self.search();
                if idx < self.client_queues[c].len() {
                    let feeding = &self.client_queues[c][idx];
                    proof {
                        lemma_offer(q, possib, c);
                    }
                    Self::handle_feed_attempt(
                        &possib,
                        feeding,
                        (c, idx),
                        &self.client_queues,
                        &mut self.possibilities,
                        &mut self.possibilities_set,
                    );
                    proof {
                        let after = self.search();
                        if after.pending.len() == before.pending.len() {
                            assert(after == before);
                            lemma_keep(q, before, k, c as int);
                        } else {
                            let np = after.pending.last();
                            assert(after.pending =~= before.pending.push(np));
                            lemma_push(q, before, k, c as int, np);
                        }
                    }
                } else {
                    proof {
                        lemma_keep(q, before, k, c as int);
                    }
                }
                c = c + 1;
            }
            proof {
                lemma_finish(q, self.search(), k);
            }
            self.done = Ghost(self.done@.insert(k));
            if self.bound.is_some() {
                self.expanded = self.expanded + 1;
            }
        }
    }

    /// Appends `feeding`, the span that `feeding_idx` names, to `possib` where
    /// the register accepts it there.
    pub fn try_append_new_span(
        possib: &Possibility,
        feeding: &CkSpan,
        feeding_idx: FeedIdx,
    ) -> (r: Option<Possibility>)
        requires
            feeding_idx.0 < possib.feed_prog@.len(),
            possib.feed_prog@[feeding_idx.0 as int] < usize::MAX,
        ensures
            r is Some <==> accepts(possib.state, feeding.data),
            r matches Some(p) ==> p@ == possib@.appended(*feeding, feeding_idx),
    {
        let (accepted, new_state) = feeding.data.apply(possib.state);
        if !accepted {
            return None;
        }
        let mut new_graph = copy_graph(&possib.graph);
        match feeding.data {
            CkData::Read { .. } => {},
            _ => {
                new_graph.push(feeding_idx);
            },
        }
        let client = feeding_idx.0;
        let mut new_feed_prog = possib.feed_prog.clone();
        let count = new_feed_prog[client];
        new_feed_prog.set(client, count + 1);
        let max_invoke = if feeding.invoke > possib.max_invoke {
            feeding.invoke
        } else {
            possib.max_invoke
        };
        Some(Possibility::from(new_graph, new_state, max_invoke, new_feed_prog))
    }

    /// Offers one span to one possibility. The span is appended where it had not
    /// finished before a span already placed was invoked and the register accepts
    /// it; the possibility that results joins the pending queue and the seen set,
    /// unless the seen set holds its node already.
    pub fn handle_feed_attempt(
        possib: &Possibility,
        feeding: &CkSpan,
        feeding_idx: FeedIdx,
        _client_queues: &Vec<Vec<CkSpan>>,
        possibilities: &mut VecDeque<Possibility>,
        possibilities_set: &mut SeenSet,
    )
        requires
            feeding_idx.0 < possib.feed_prog@.len(),
            possib.feed_prog@[feeding_idx.0 as int] < usize::MAX,
            old(possibilities_set).wf(),
        ensures
            final(possibilities_set).wf(),
            ({
                let next = possib@.appended(*feeding, feeding_idx);
                if feeding.finish >= possib.max_invoke && accepts(possib.state, feeding.data)
                    && !old(possibilities_set)@.contains(next.key()) {
                    &&& final(possibilities_set)@ == old(possibilities_set)@.insert(next.key())
                    &&& final(possibilities)@.len() == old(possibilities)@.len() + 1
                    &&& final(possibilities)@.drop_last() == old(possibilities)@
                    &&& final(possibilities)@.last()@ == next
                } else {
                    &&& final(possibilities_set)@ == old(possibilities_set)@
                    &&& final(possibilities)@ == old(possibilities)@
                }
            }),
    {
        if feeding.finish < possib.max_invoke {
            return ;
        }
        if let Some(new_possib) = Self::try_append_new_span(possib, feeding, feeding_idx) {
            if !possibilities_set.contains(new_possib.state, &new_possib.feed_prog) {
                possibilities_set.insert(new_possib.state, new_possib.feed_prog.clone());
                possibilities.push_back(new_possib);
                proof {
                    assert(possibilities@.drop_last() =~= old(possibilities)@);
                }
            }
        }
    }
}

/// The search on sub-timeline `j` finds it not linearizable, and none before
/// it is found so.
pub open spec fn first_weak(subs: Seq<Seq<Seq<CkSpan>>>, bound: Option<usize>, j: int) -> bool {
    &&& 0 <= j < subs.len()
    &&& outcome(subs[j], bound) == Ok::<Consistency, CheckError>(Consistency::Weak)
    &&& forall|m: int|
        0 <= m < j ==> outcome(#[trigger] subs[m], bound) != Ok::<Consistency, CheckError>(
            Consistency::Weak,
        )
}

/// Some sub-timeline is found not linearizable.
pub open spec fn any_weak(subs: Seq<Seq<Seq<CkSpan>>>, bound: Option<usize>) -> bool {
    exists|j: int|
        0 <= j < subs.len() && outcome(#[trigger] subs[j], bound) == Ok::<Consistency, CheckError>(
            Consistency::Weak,
        )
}

/// The search on some sub-timeline gives up.
pub open spec fn any_inconclusive(subs: Seq<Seq<Seq<CkSpan>>>, bound: Option<usize>) -> bool {
    exists|j: int| 0 <= j < subs.len() && outcome(#[trigger] subs[j], bound) is Err
}

/// The first key, in the order of the keys, that is found not linearizable.
pub open spec fn weak_key_of(
    subs: Seq<Seq<Seq<CkSpan>>>,
    keys: Seq<KeyType>,
    bound: Option<usize>,
) -> Option<KeyType> {
    if any_weak(subs, bound) {
        Some(keys[choose|j: int| first_weak(subs, bound, j)])
    } else {
        None
    }
}

/// Only one sub-timeline is the first that is found not linearizable.
pub proof fn lemma_first_weak_unique(
    subs: Seq<Seq<Seq<CkSpan>>>,
    bound: Option<usize>,
    i: int,
    j: int,
)
    requires
        first_weak(subs, bound, i),
        first_weak(subs, bound, j),
    ensures
        i == j,
{
    if i < j {
        assert(outcome(subs[i], bound) != Ok::<Consistency, CheckError>(Consistency::Weak));
    }
    if j < i {
        assert(outcome(subs[j], bound) != Ok::<Consistency, CheckError>(Consistency::Weak));
    }
}

/// The verdict on all keys together: the weakest of the verdicts on the
/// keys. One key that is not linearizable settles it, whatever the others
/// are; otherwise a key on which the search gave up leaves it open.
pub open spec fn overall(subs: Seq<Seq<Seq<CkSpan>>>, bound: Option<usize>) -> Result<
    Consistency,
    CheckError,
> {
    if any_weak(subs, bound) {
        Ok(Consistency::Weak)
    } else if any_inconclusive(subs, bound) {
        Err(CheckError::Inconclusive)
    } else {
        Ok(Consistency::Linearizable)
    }
}

/// The checker of a timeline: one search per key.
pub struct Checker {
    /// The keys, in the order in which they are checked.
    keys: Vec<KeyType>,
    /// The search on each key.
    per_key: Vec<CheckerPerKey>,
    /// The bound of each search, if they are bounded.
    bound: Option<usize>,
}

impl Checker {
    /// The keys, in the order in which they are checked.
    pub closed spec fn keys(&self) -> Seq<KeyType> {
        self.keys@
    }

    /// The sub-timeline of each key.
    pub closed spec fn sub_timelines(&self) -> Seq<Seq<Seq<CkSpan>>> {
        Seq::new(self.per_key@.len(), |j: int| self.per_key@[j].queues())
    }

    /// The bound of each search, if they are bounded.
    pub closed spec fn bound(&self) -> Option<usize> {
        self.bound
    }

    /// Every search is in a state from which it can go on.
    pub closed spec fn wf(&self) -> bool {
        &&& self.keys@.len() == self.per_key@.len()
        &&& forall|j: int|
            0 <= j < self.per_key@.len() ==> (#[trigger] self.per_key@[j]).wf()
                && self.per_key@[j].bound() == self.bound
    }

    /// A checker of the completed spans of `timeline`, split per key, that
    /// searches each key until it has decided.
    pub fn new(timeline: Timeline) -> (r: Self)
        ensures
            r.wf(),
            r.keys() == scan(timeline.spans()),
            r.sub_timelines() == partition(timeline.spans()),
            r.bound() is None,
    {
        Self::start(timeline, None)
    }

    /// A checker of the completed spans of `timeline`, split per key, whose
    /// search on each key gives up once it has expanded `bound` nodes.
    pub fn with_bound(timeline: Timeline, bound: usize) -> (r: Self)
        ensures
            r.wf(),
            r.keys() == scan(timeline.spans()),
            r.sub_timelines() == partition(timeline.spans()),
            r.bound() == Some(bound),
    {
        Self::start(timeline, Some(bound))
    }

    fn start(timeline: Timeline, bound: Option<usize>) -> (r: Self)
        ensures
            r.wf(),
            r.keys() == scan(timeline.spans()),
            r.sub_timelines() == partition(timeline.spans()),
            r.bound() == bound,
    {
        let (keys, mut groups) = split(&timeline.queues);
        let ghost parts = groups_of(groups@);
        let mut per_key: Vec<CheckerPerKey> = Vec::new();
        let mut j: usize = 0;
        while j < groups.len()
            invariant
                j <= groups@.len(),
                groups@.len() == parts.len(),
                per_key@.len() == j,
                forall|m: int|
                    0 <= m < j ==> (#[trigger] per_key@[m]).wf() && per_key@[m].bound() == bound
                        && per_key@[m].queues() == parts[m],
                forall|m: int|
                    j <= m < groups@.len() ==> spans_of((#[trigger] groups@[m])@) == parts[m],
            decreases groups.len() - j,
        {
            let mut group: Vec<Vec<CkSpan>> = Vec::new();
            std::mem::swap(&mut group, &mut groups[j]);
            per_key.push(CheckerPerKey::start(group, bound));
            j = j + 1;
        }
        let r = Checker { keys, per_key, bound };
        proof {
            assert(r.sub_timelines() =~= partition(timeline.spans()));
        }
        r
    }

    /// The keys, in the order in which they are checked.
    pub fn key_list(&self) -> (r: &Vec<KeyType>)
        ensures
            r@ == self.keys(),
    {
        &self.keys
    }

    /// The spans that are checked for `key`, one queue per client; `None`
    /// where no operation completed on `key`.
    pub fn queues_of(&self, key: KeyType) -> (r: Option<&Vec<Vec<CkSpan>>>)
        requires
            self.wf(),
        ensures
            match r {
                Some(queues) => exists|j: int|
                    0 <= j < self.keys().len() && #[trigger] self.keys()[j] == key && spans_of(
                        queues@,
                    ) == self.sub_timelines()[j],
                None => !self.keys().contains(key),
            },
    {
        let mut j: usize = 0;
        while j < self.keys.len()
            invariant
                self.wf(),
                j <= self.keys@.len(),
                forall|m: int| 0 <= m < j ==> self.keys@[m] != key,
            decreases self.keys@.len() - j,
        {
            if self.keys[j] == key {
                let queues = self.per_key[j].client_queues();
                proof {
                    assert(self.keys()[j as int] == key);
                    assert(self.sub_timelines()[j as int] == self.per_key@[j as int].queues());
                }
                return Some(queues);
            }
            j = j + 1;
        }
        None
    }

    /// Runs the searches key by key until one finds its key not
    /// linearizable: the position of that key, if there is one, and
    /// otherwise whether a search gave up.
    fn sweep(&mut self) -> (r: (Option<usize>, bool))
        requires
            old(self).wf(),
        ensures
            final(self).wf(),
            final(self).keys() == old(self).keys(),
            final(self).sub_timelines() == old(self).sub_timelines(),
            final(self).bound() == old(self).bound(),
            match r.0 {
                Some(j) => first_weak(old(self).sub_timelines(), old(self).bound(), j as int),
                None => !any_weak(old(self).sub_timelines(), old(self).bound()) && r.1
                    == any_inconclusive(old(self).sub_timelines(), old(self).bound()),
            },
    {
        let ghost subs = self.sub_timelines();
        let ghost bound = self.bound;
        let mut gave_up = false;
        let mut j: usize = 0;
        while j < self.per_key.len()
            invariant
                self.wf(),
                self.keys() == old(self).keys(),
                self.sub_timelines() == subs,
                subs == old(self).sub_timelines(),
                self.bound == bound,
                bound == old(self).bound(),
                j <= self.per_key@.len(),
                forall|m: int|
                    0 <= m < j ==> outcome(#[trigger] subs[m], bound) != Ok::<
                        Consistency,
                        CheckError,
                    >(Consistency::Weak),
                gave_up == exists|m: int| 0 <= m < j && outcome(#[trigger] subs[m], bound) is Err,
            decreases self.per_key@.len() - j,
        {
            let ghost before = self.per_key@;
            assert(before[j as int].queues() == subs[j as int]);
            let answer = self.per_key[j].check();
            proof {
                assert(self.per_key@[j as int].queues() == subs[j as int]);
                assert forall|m: int| 0 <= m < self.per_key@.len() implies (
                #[trigger] self.per_key@[m]).wf() && self.per_key@[m].bound() == self.bound
                    && self.per_key@[m].queues() == subs[m] by {
                    if m != j {
                        assert(self.per_key@[m] == before[m]);
                        assert(before[m].queues() == subs[m]);
                    }
                }
                assert(self.sub_timelines() =~= subs);
            }
            match answer {
                Ok(level) => {
                    if level == Consistency::Weak {
                        return (Some(j), gave_up);
                    }
                },
                Err(_) => {
                    gave_up = true;
                },
            }
            j = j + 1;
        }
        (None, gave_up)
    }

    /// Checks every key and gives the verdict on all of them together.
    pub fn check(&mut self) -> (r: Result<Consistency, CheckError>)
        requires
            old(self).wf(),
        ensures
            final(self).wf(),
            final(self).keys() == old(self).keys(),
            final(self).sub_timelines() == old(self).sub_timelines(),
            final(self).bound() == old(self).bound(),
            r == overall(old(self).sub_timelines(), old(self).bound()),
    {
        let (weak, gave_up) = self.sweep();
        if weak.is_some() {
            Ok(Consistency::Weak)
        } else if gave_up {
            Err(CheckError::Inconclusive)
        } else {
            Ok(Consistency::Linearizable)
        }
    }

    /// The first key, in the order of the keys, that is found not
    /// linearizable.
    pub fn weak_key(&mut self) -> (r: Option<KeyType>)
        requires
            old(self).wf(),
        ensures
            final(self).wf(),
            final(self).keys() == old(self).keys(),
            final(self).sub_timelines() == old(self).sub_timelines(),
            final(self).bound() == old(self).bound(),
            r == weak_key_of(old(self).sub_timelines(), old(self).keys(), old(self).bound()),
    {
        let ghost subs = self.sub_timelines();
        let ghost bound = self.bound();
        let (weak, _) = self.sweep();
        match weak {
            Some(j) => {
                proof {
                    let first = choose|m: int| first_weak(subs, bound, m);
                    lemma_first_weak_unique(subs, bound, j as int, first);
                }
                Some(self.keys[j])
            },
            None => None,
        }
    }
}

} // verus!
