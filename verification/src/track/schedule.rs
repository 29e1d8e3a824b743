//! Scheduling: what a driver polls next, given what is stale.
//!
//! Polling a node polls what it reads, so a stale node that another stale node
//! reads does not need polling by the driver: its reader will pull it. What is
//! worth polling is the stale nodes that no stale node reads.

use vstd::prelude::*;

use crate::node_set::{lemma_take_one_more, NodeSet};
use crate::track::invalidate::{lemma_short, lemma_some};
use crate::track::{ids_of, lists, Ledger, LedgerView, NodeId};

verus! {

/// What to poll, and in what order, to revalidate everything that was stale when
/// the schedule was taken.
#[derive(Clone, PartialEq, Eq, Debug)]
pub struct Schedule {
    to_poll: Vec<NodeId>,
    order: Vec<NodeId>,
}

/// The stale set could not be ordered: some of it reads itself, directly or through
/// others.
#[derive(Clone, PartialEq, Eq, Debug)]
pub struct Cycle {
    nodes: Vec<NodeId>,
}

impl Schedule {
    /// The nodes to poll.
    pub closed spec fn polled(&self) -> Seq<NodeId> {
        self.to_poll@
    }

    /// Every stale node, in order.
    pub closed spec fn ordered(&self) -> Seq<NodeId> {
        self.order@
    }

    /// The nodes a driver should poll, in dependency order: the stale nodes that no
    /// stale node reads.
    pub fn to_poll(&self) -> (r: &Vec<NodeId>)
        ensures
            r@ == self.polled(),
    {
        &self.to_poll
    }

    /// Every stale node, dependencies before dependents, each once.
    pub fn order(&self) -> (r: &Vec<NodeId>)
        ensures
            r@ == self.ordered(),
    {
        &self.order
    }

    /// Nothing is stale.
    pub fn is_empty(&self) -> (r: bool)
        ensures
            r == (self.ordered().len() == 0),
    {
        self.order.len() == 0
    }
}

impl Cycle {
    /// The nodes that could not be ordered.
    pub closed spec fn stuck(&self) -> Seq<NodeId> {
        self.nodes@
    }

    /// The stale nodes that could not be ordered: the cycle and anything downstream
    /// of it, in mint order.
    pub fn nodes(&self) -> (r: &Vec<NodeId>)
        ensures
            r@ == self.stuck(),
    {
        &self.nodes
    }
}

impl LedgerView {
    /// The stale nodes that node `m` reads: what must be fresh before it is worth
    /// polling.
    pub open spec fn waits_on(self, m: u32) -> Set<u32> {
        self.reads[m as int].intersect(self.stale_set())
    }

    /// Whether `m` is stale, not yet in `done`, and waits only on what is.
    pub open spec fn ready(self, done: Seq<u32>, m: u32) -> bool {
        &&& self.stale_set().contains(m)
        &&& !done.contains(m)
        &&& forall|k: u32| #[trigger] self.waits_on(m).contains(k) ==> done.contains(k)
    }

    /// Whether `order` takes, at every step, the earliest minted node that is ready.
    pub open spec fn greedy(self, order: Seq<u32>) -> bool {
        forall|i: int|
            #![trigger order[i]]
            0 <= i < order.len() ==> {
                &&& self.ready(order.take(i), order[i])
                &&& forall|m: u32| #[trigger] self.ready(order.take(i), m) ==> order[i] <= m
            }
    }

    /// Whether `order` is the order in which the stale set is revalidated, as far as
    /// it can be: it takes the earliest ready node while any node is ready.
    pub open spec fn is_plan(self, order: Seq<u32>) -> bool {
        &&& self.greedy(order)
        &&& forall|m: u32| !(#[trigger] self.ready(order, m))
    }

    /// Whether no stale node reads `m`.
    pub open spec fn is_top(self, m: u32) -> bool {
        forall|d: u32| #[trigger] self.edge(m, d) ==> !self.stale_set().contains(d)
    }

    /// A plan holds stale nodes only, each once.
    pub proof fn lemma_greedy(self, order: Seq<u32>)
        requires
            self.greedy(order),
        ensures
            order.no_duplicates(),
            forall|i: int| 0 <= i < order.len() ==> self.stale_set().contains(#[trigger] order[i]),
    {
        assert forall|i: int, j: int| 0 <= i < j < order.len() implies order[i] != order[j] by {
            assert(self.ready(order.take(j), order[j]));
            assert(order.take(j)[i] == order[i]);
        }
    }

    /// A node is ready once nothing is left of what it waits on.
    pub proof fn lemma_ready(self, done: Seq<u32>, m: u32)
        ensures
            self.ready(done, m) == (self.stale_set().contains(m) && !done.contains(m)
                && self.waits_on(m).difference(done.to_set()) == Set::<u32>::empty()),
    {
        let left = self.waits_on(m).difference(done.to_set());
        if forall|k: u32| #[trigger] self.waits_on(m).contains(k) ==> done.contains(k) {
            assert(left =~= Set::<u32>::empty());
        } else {
            let k = choose|k: u32| #[trigger] self.waits_on(m).contains(k) && !done.contains(k);
            assert(left.contains(k));
        }
    }

    /// What an ordered node waits on is ordered before it.
    pub proof fn lemma_done_waits_on_done(self, order: Seq<u32>, m: u32, k: u32)
        requires
            self.greedy(order),
            order.contains(m),
            self.waits_on(m).contains(k),
        ensures
            order.contains(k),
            order.index_of(k) < order.index_of(m),
    {
        self.lemma_greedy(order);
        let i = order.index_of(m);
        assert(order[i] == m);
        assert(self.ready(order.take(i), m));
        let j = order.take(i).index_of(k);
        assert(order.take(i).contains(k));
        assert(order.take(i)[j] == k);
        assert(order[j] == k);
    }
}

impl Ledger {
    /// Whether node `m` is stale.
    fn stale_at(&self, m: u32) -> (r: bool)
        requires
            self.wf(),
            m < self@.n(),
        ensures
            r == self@.stale_set().contains(m),
    {
        assert(self@.reasons[m as int] == self.stale@[m as int].view());
        !self.stale[m as usize].is_none()
    }

    /// Whether no stale node reads `m`.
    fn top_at(&self, m: u32) -> (r: bool)
        requires
            self.wf(),
            m < self@.n(),
        ensures
            r == self@.is_top(m),
    {
        let readers: &NodeSet = &self.readers[m as usize];
        let list: Vec<u32> = readers.items();
        let total: usize = list.len();
        let mut i: usize = 0;
        proof {
            readers.lemma_seq();
            assert(readers@ == self@.readers(m));
        }
        while i < total
            invariant
                self.wf(),
                i <= total,
                total == list@.len(),
                list@ == readers.seq(),
                readers@ == self@.readers(m),
                forall|j: int|
                    0 <= j < i ==> !self@.stale_set().contains(#[trigger] readers.seq()[j]),
            decreases total - i,
        {
            let d: u32 = list[i];
            proof {
                readers.lemma_seq();
            }
            assert(self@.readers(m).contains(d));
            if self.stale_at(d) {
                assert(self@.edge(m, d));
                return false;
            }
            i = i + 1;
        }
        proof {
            readers.lemma_seq();
            assert forall|d: u32| #[trigger] self@.edge(m, d) implies !self@.stale_set().contains(
                d,
            ) by {
                assert(self@.readers(m).contains(d));
                let j = choose|j: int| 0 <= j < readers.seq().len() && readers.seq()[j] == d;
                assert(!self@.stale_set().contains(readers.seq()[j]));
            }
        }
        true
    }

    /// What each node waits on, with nothing yet done: the stale nodes it reads if it
    /// is stale itself.
    fn waiting(&self) -> (r: Vec<NodeSet>)
        requires
            self.wf(),
        ensures
            r@.len() == self@.n(),
            forall|m: u32| m < self@.n() ==> (#[trigger] r@[m as int])@ == self@.waits_on(m),
    {
        let mut r: Vec<NodeSet> = Vec::new();
        let mut m: usize = 0;
        while m < self.labels.len()
            invariant
                self.wf(),
                m <= self.labels@.len(),
                r@.len() == m,
                forall|x: u32| x < m ==> (#[trigger] r@[x as int])@ == self@.waits_on(x),
            decreases self.labels@.len() - m,
        {
            let reads: &NodeSet = &self.reads[m];
            let list: Vec<u32> = reads.items();
            let total: usize = list.len();
            let mut set: NodeSet = NodeSet::new();
            let mut i: usize = 0;
            proof {
                reads.lemma_seq();
                assert(reads@ == self@.reads[m as int]);
                assert(set@ =~= reads.seq().take(0).to_set().intersect(self@.stale_set()));
            }
            while i < total
                invariant
                    self.wf(),
                    m < self.labels@.len(),
                    i <= total,
                    total == list@.len(),
                    list@ == reads.seq(),
                    reads@ == self@.reads[m as int],
                    set@ == reads.seq().take(i as int).to_set().intersect(self@.stale_set()),
                decreases total - i,
            {
                let k: u32 = list[i];
                proof {
                    reads.lemma_seq();
                }
                assert(self@.reads[m as int].contains(k));
                if self.stale_at(k) {
                    set.insert(k);
                }
                proof {
                    lemma_take_one_more(reads.seq(), i as int);
                    assert(set@ =~= reads.seq().take(i + 1).to_set().intersect(self@.stale_set()));
                }
                i = i + 1;
            }
            proof {
                reads.lemma_seq();
                assert(reads.seq().take(i as int) =~= reads.seq());
                assert(set@ =~= self@.waits_on(m as u32));
            }
            r.push(set);
            m = m + 1;
        }
        r
    }

    /// Everything that waits on nothing.
    fn first_ready(&self, stale: &NodeSet, waiting: &Vec<NodeSet>) -> (r: NodeSet)
        requires
            self.wf(),
            stale@ == self@.stale_set(),
            waiting@.len() == self@.n(),
            forall|m: u32| m < self@.n() ==> (#[trigger] waiting@[m as int])@ == self@.waits_on(m),
        ensures
            forall|m: u32| r@.contains(m) <==> self@.ready(Seq::<u32>::empty(), m),
    {
        let mut r: NodeSet = NodeSet::new();
        let list: Vec<u32> = stale.items();
        let total: usize = list.len();
        let mut i: usize = 0;
        while i < total
            invariant
                self.wf(),
                stale@ == self@.stale_set(),
                i <= total,
                total == list@.len(),
                list@ == stale.seq(),
                waiting@.len() == self@.n(),
                forall|m: u32|
                    m < self@.n() ==> (#[trigger] waiting@[m as int])@ == self@.waits_on(m),
                forall|m: u32|
                    r@.contains(m) <==> stale.seq().take(i as int).contains(m) && self@.ready(
                        Seq::<u32>::empty(),
                        m,
                    ),
            decreases total - i,
        {
            let m: u32 = list[i];
            let ghost before = r@;
            proof {
                stale.lemma_seq();
            }
            assert(self@.stale_set().contains(m));
            let free = waiting[m as usize].is_empty();
            if free {
                r.insert(m);
            }
            proof {
                lemma_take_one_more(stale.seq(), i as int);
                assert(free == self@.ready(Seq::<u32>::empty(), m)) by {
                    if !free {
                        let k = lemma_some(self@.waits_on(m));
                        assert(!Seq::<u32>::empty().contains(k));
                    }
                }
            }
            i = i + 1;
        }
        proof {
            stale.lemma_seq();
            assert(stale.seq().take(i as int) =~= stale.seq());
        }
        r
    }

    /// The order in which the stale set is revalidated, as far as it can be.
    fn plan(&self, stale: &NodeSet) -> (r: Vec<u32>)
        requires
            self.wf(),
            stale@ == self@.stale_set(),
        ensures
            self@.is_plan(r@),
    {
        let mut order: Vec<u32> = Vec::new();
        let mut waiting: Vec<NodeSet> = self.waiting();
        let mut ready: NodeSet = self.first_ready(stale, &waiting);
        let ghost v = self@;
        proof {
            assert forall|m: u32| m < v.n() implies (#[trigger] waiting@[m as int])@
                =~= v.waits_on(m).difference(order@.to_set()) by {}
        }
        while !ready.is_empty()
            invariant
                self.wf(),
                v == self@,
                v.sane(),
                waiting@.len() == v.n(),
                forall|m: u32|
                    m < v.n() ==> (#[trigger] waiting@[m as int])@ == v.waits_on(m).difference(
                        order@.to_set(),
                    ),
                forall|m: u32| ready@.contains(m) <==> v.ready(order@, m),
                v.greedy(order@),
                order@.len() <= v.n(),
            decreases v.n() - order@.len(),
        {
            let ghost before = order@;
            let node: u32 = ready.first();
            proof {
                ready.lemma_seq();
                assert(v.ready(before, node));
                assert forall|m: u32| #[trigger] v.ready(before, m) implies node <= m by {
                    assert(ready.seq().contains(m));
                }
            }
            ready.remove(node);
            order.push(node);
            proof {
                assert(order@ =~= before.push(node));
                assert forall|i: int| #![trigger order@[i]] 0 <= i < order@.len() implies {
                    &&& v.ready(order@.take(i), order@[i])
                    &&& forall|m: u32| #[trigger] v.ready(order@.take(i), m) ==> order@[i] <= m
                } by {
                    if i < before.len() {
                        assert(order@.take(i) =~= before.take(i));
                        assert(order@[i] == before[i]);
                    } else {
                        assert(order@.take(i) =~= before);
                    }
                }
                v.lemma_greedy(order@);
                assert forall|i: int| 0 <= i < order@.len() implies (#[trigger] order@[i]) < v.n() by {
                    assert(v.stale_set().contains(order@[i]));
                }
                lemma_short(order@, v.n());
                assert forall|m: u32| order@.contains(m) <==> (before.contains(m) || m == node) by {
                    if before.contains(m) {
                        let i = choose|i: int| 0 <= i < before.len() && before[i] == m;
                        assert(order@[i] == m);
                    }
                    assert(order@[before.len() as int] == node);
                }
            }
            self.release(node, &mut ready, &mut waiting, Ghost(before), Ghost(order@));
        }
        proof {
            assert forall|m: u32| !(#[trigger] v.ready(order@, m)) by {
                assert(!ready@.contains(m));
            }
        }
        order
    }

    /// `node` is done: nothing waits on it any longer, and what waited on nothing
    /// else is ready.
    fn release(
        &self,
        node: u32,
        ready: &mut NodeSet,
        waiting: &mut Vec<NodeSet>,
        Ghost(before): Ghost<Seq<u32>>,
        Ghost(after): Ghost<Seq<u32>>,
    )
        requires
            self.wf(),
            node < self@.n(),
            self@.greedy(before),
            self@.ready(before, node),
            forall|m: u32| after.contains(m) <==> (before.contains(m) || m == node),
            forall|m: u32|
                old(ready)@.contains(m) <==> (m != node && self@.ready(before, m)),
            old(waiting)@.len() == self@.n(),
            forall|m: u32|
                m < self@.n() ==> (#[trigger] old(waiting)@[m as int])@ == self@.waits_on(
                    m,
                ).difference(before.to_set()),
        ensures
            forall|m: u32| final(ready)@.contains(m) <==> self@.ready(after, m),
            final(waiting)@.len() == self@.n(),
            forall|m: u32|
                m < self@.n() ==> (#[trigger] final(waiting)@[m as int])@ == self@.waits_on(
                    m,
                ).difference(after.to_set()),
    {
        let ghost v = self@;
        let readers: &NodeSet = &self.readers[node as usize];
        let list: Vec<u32> = readers.items();
        let total: usize = list.len();
        let mut i: usize = 0;
        proof {
            readers.lemma_seq();
            assert(readers@ == v.readers(node));
            assert forall|m: u32|
                #[trigger] ready@.contains(m) <==> (m != node && v.stale_set().contains(m) && !before.contains(
                    m,
                ) && waiting@[m as int]@ == Set::<u32>::empty()) by {
                v.lemma_ready(before, m);
            }
            assert forall|m: u32| m < v.n() implies (#[trigger] waiting@[m as int])@ == v.waits_on(
                m,
            ).difference(
                if readers.seq().take(0).contains(m) {
                    after.to_set()
                } else {
                    before.to_set()
                },
            ) by {
                assert(!readers.seq().take(0).contains(m));
            }
        }
        while i < total
            invariant
                self.wf(),
                v == self@,
                node < v.n(),
                v.greedy(before),
                v.ready(before, node),
                i <= total,
                total == list@.len(),
                list@ == readers.seq(),
                readers@ == v.readers(node),
                crate::node_set::increasing(readers.seq()),
                forall|m: u32| after.contains(m) <==> (before.contains(m) || m == node),
                waiting@.len() == v.n(),
                forall|m: u32|
                    m < v.n() ==> (#[trigger] waiting@[m as int])@ == v.waits_on(m).difference(
                        if readers.seq().take(i as int).contains(m) {
                            after.to_set()
                        } else {
                            before.to_set()
                        },
                    ),
                forall|m: u32|
                    #[trigger] ready@.contains(m) <==> (m != node && v.stale_set().contains(m)
                        && !before.contains(m) && waiting@[m as int]@ == Set::<u32>::empty()),
            decreases total - i,
        {
            let d: u32 = list[i];
            let ghost held = waiting@;
            let ghost was = ready@;
            let ghost shorter = readers.seq().take(i as int);
            let ghost longer = readers.seq().take(i + 1);
            proof {
                readers.lemma_seq();
                assert(v.readers(node).contains(d));
                assert(!shorter.contains(d)) by {
                    if shorter.contains(d) {
                        let j = choose|j: int| 0 <= j < shorter.len() && shorter[j] == d;
                        assert(readers.seq()[j] < readers.seq()[i as int]);
                    }
                }
                lemma_take_one_more(readers.seq(), i as int);
            }
            let mut set: NodeSet = waiting[d as usize].duplicate();
            set.remove(node);
            let free = set.is_empty();
            waiting.set(d as usize, set);
            proof {
                assert(waiting@[d as int]@ =~= v.waits_on(d).difference(after.to_set()));
                assert forall|m: u32| m < v.n() implies (#[trigger] waiting@[m as int])@
                    == v.waits_on(m).difference(
                    if longer.contains(m) {
                        after.to_set()
                    } else {
                        before.to_set()
                    },
                ) by {
                    if m != d {
                        assert(waiting@[m as int] == held[m as int]);
                    }
                }
                // The reader waited on this node until now, so it is not done.
                assert(v.waits_on(d).contains(node));
                if before.contains(d) {
                    v.lemma_done_waits_on_done(before, d, node);
                }
                assert(d != node);
                assert(held[d as int]@.contains(node));
                assert(!was.contains(d));
            }
            if free && self.stale_at(d) {
                ready.insert(d);
            }
            proof {
                assert forall|m: u32|
                    #[trigger] ready@.contains(m) <==> (m != node && v.stale_set().contains(m)
                        && !before.contains(m) && waiting@[m as int]@ == Set::<u32>::empty()) by {
                    assert(was.contains(m) <==> (m != node && v.stale_set().contains(m)
                        && !before.contains(m) && held[m as int]@ == Set::<u32>::empty()));
                    if m != d && m < v.n() {
                        assert(waiting@[m as int] == held[m as int]);
                    }
                }
            }
            i = i + 1;
        }
        proof {
            readers.lemma_seq();
            assert(readers.seq().take(i as int) =~= readers.seq());
            assert forall|m: u32| m < v.n() implies (#[trigger] waiting@[m as int])@ == v.waits_on(
                m,
            ).difference(after.to_set()) by {
                if !readers.seq().contains(m) {
                    assert(!v.readers(node).contains(m));
                    assert(v.waits_on(m).difference(after.to_set()) =~= v.waits_on(m).difference(
                        before.to_set(),
                    ));
                }
            }
            assert forall|m: u32| ready@.contains(m) <==> v.ready(after, m) by {
                v.lemma_ready(after, m);
            }
        }
    }

    /// What to poll next, given what is currently stale.
    ///
    /// Ready nodes are taken in mint order, so the answer is the same every time. A
    /// stale set that cannot be ordered is reported rather than dropped or walked.
    pub fn schedule(&self) -> (r: Result<Schedule, Cycle>)
        requires
            self.wf(),
        ensures
            exists|order: Seq<u32>|
                {
                    &&& #[trigger] self@.is_plan(order)
                    &&& match r {
                        Ok(s) => {
                            &&& order.to_set() == self@.stale_set()
                            &&& s.ordered() == ids_of(self@.id, order)
                            &&& s.polled() == ids_of(
                                self@.id,
                                order.filter(|m: u32| self@.is_top(m)),
                            )
                        },
                        Err(c) => {
                            &&& order.to_set() != self@.stale_set()
                            &&& lists(
                                self@.id,
                                self@.stale_set().difference(order.to_set()),
                                c.stuck(),
                            )
                        },
                    }
                },
    {
        let stale: NodeSet = self.stale_indices();
        let order: Vec<u32> = self.plan(&stale);
        let ghost v = self@;
        proof {
            v.lemma_greedy(order@);
            stale.lemma_seq();
            order@.unique_seq_to_set();
            assert forall|m: u32| order@.to_set().contains(m) implies v.stale_set().contains(m) by {
                let i = choose|i: int| 0 <= i < order@.len() && order@[i] == m;
            }
            if order@.len() == stale.seq().len() {
                vstd::set_lib::lemma_subset_equality(order@.to_set(), v.stale_set());
            }
        }
        if order.len() != stale.count() {
            let mut stuck: NodeSet = stale;
            let mut i: usize = 0;
            assert(stuck@ =~= v.stale_set().difference(order@.take(0).to_set()));
            while i < order.len()
                invariant
                    i <= order@.len(),
                    stuck@ == v.stale_set().difference(order@.take(i as int).to_set()),
                decreases order@.len() - i,
            {
                stuck.remove(order[i]);
                proof {
                    lemma_take_one_more(order@, i as int);
                    assert(stuck@ =~= v.stale_set().difference(order@.take(i + 1).to_set()));
                }
                i = i + 1;
            }
            proof {
                assert(order@.take(i as int) =~= order@);
                stuck.lemma_seq();
            }
            let r = Cycle { nodes: self.ids(&stuck) };
            assert(lists(v.id, v.stale_set().difference(order@.to_set()), r.stuck()));
            return Err(r);
        }
        let mut to_poll: Vec<NodeId> = Vec::new();
        let mut all: Vec<NodeId> = Vec::new();
        let mut i: usize = 0;
        let ghost top = |m: u32| v.is_top(m);
        proof {
            assert(order@.take(0) =~= Seq::<u32>::empty());
            reveal(Seq::filter);
            assert(to_poll@ =~= ids_of(v.id, order@.take(0).filter(top)));
            assert(all@ =~= ids_of(v.id, order@.take(0)));
        }
        while i < order.len()
            invariant
                self.wf(),
                v == self@,
                i <= order@.len(),
                forall|j: int| 0 <= j < order@.len() ==> v.stale_set().contains(#[trigger] order@[j]),
                top == (|m: u32| v.is_top(m)),
                all@ == ids_of(v.id, order@.take(i as int)),
                to_poll@ == ids_of(v.id, order@.take(i as int).filter(top)),
            decreases order@.len() - i,
        {
            let m: u32 = order[i];
            let id = NodeId { ledger: self.id, index: m };
            assert(v.stale_set().contains(order@[i as int]));
            all.push(id);
            let ghost shorter = order@.take(i as int);
            let ghost longer = order@.take(i + 1);
            proof {
                assert(longer =~= shorter.push(m));
                assert(longer.drop_last() =~= shorter);
                reveal(Seq::filter);
                assert(longer.filter(top) == if top(m) {
                    shorter.filter(top).push(m)
                } else {
                    shorter.filter(top)
                });
            }
            if self.top_at(m) {
                to_poll.push(id);
            }
            i = i + 1;
            proof {
                assert(all@ =~= ids_of(v.id, longer));
                assert(to_poll@ =~= ids_of(v.id, longer.filter(top)));
            }
        }
        assert(order@.take(i as int) =~= order@);
        Ok(Schedule { to_poll, order: all })
    }
}

} // verus!
