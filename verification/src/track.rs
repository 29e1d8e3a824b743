//! The read-observation ledger: who ran, what they read, and who must run again.
//!
//! Edges are recorded by observing reads, not declared: while a node runs, every
//! keyed read is logged as an edge, and the set is logged anew on every run, so it
//! follows conditionals. A branch not taken contributes no edge.

use vstd::prelude::*;

use crate::node_set::{lemma_take_one_more, NodeSet};
use crate::number::draw;
use crate::wake::{kept, Target, Waker, WakerId, Wakes};

pub mod invalidate;
pub mod laws;
pub mod nodes;
pub mod plain;
pub mod schedule;

verus! {

/// A node in the dependency graph: an input whose reads are observed, or a stage
/// that reads them. One id space serves both, because a derived node is read
/// exactly as an input is.
///
/// An id names the ledger that minted it, so that one ledger's ids are never taken
/// for another's nodes.
#[derive(Clone, Copy, PartialEq, Eq, Structural, PartialOrd, Ord, Hash, Debug)]
pub struct NodeId {
    ledger: u64,
    index: u32,
}

impl NodeId {
    /// The ledger that minted this id.
    pub closed spec fn owner(self) -> u64 {
        self.ledger
    }

    /// How many nodes that ledger had minted before this one.
    pub closed spec fn at(self) -> u32 {
        self.index
    }

    /// The id that ledger `owner` mints for its node number `at`.
    pub closed spec fn of(owner: u64, at: u32) -> NodeId {
        NodeId { ledger: owner, index: at }
    }

    /// An id is its ledger and its number, and nothing else.
    pub broadcast proof fn lemma_of(owner: u64, at: u32)
        ensures
            (#[trigger] NodeId::of(owner, at)).owner() == owner,
            NodeId::of(owner, at).at() == at,
            forall|n: NodeId| n.owner() == owner && n.at() == at ==> n == #[trigger] NodeId::of(
                n.owner(),
                n.at(),
            ),
    {
    }
}

/// Why a node must run again.
pub enum Reason {
    /// A change reached it through this dependency. Taken back if the dependency
    /// turns out to have produced what it had before.
    Read(u32),
    /// It owes a value of its own. Nothing a dependency does takes this back.
    Owed,
}

/// An open run of a node.
#[verifier::ext_equal]
pub struct OpenRun {
    /// The node that is running.
    pub node: u32,
    /// What it has been seen to read so far.
    pub seen: Set<u32>,
    /// Whether the node was stale when the run began.
    pub revalidating: bool,
}

/// What a ledger knows, mathematically.
#[verifier::ext_equal]
pub struct LedgerView {
    /// Which ledger this is.
    pub id: u64,
    /// Per node, in mint order: its label.
    pub labels: Seq<&'static str>,
    /// The open runs, innermost last.
    pub running: Seq<OpenRun>,
    /// Per node: what it read on its last run that read anything.
    pub reads: Seq<Set<u32>>,
    /// Per node: how many times it has been declared changed.
    pub revisions: Seq<u64>,
    /// Per node: why it is stale. No reasons, not stale.
    pub reasons: Seq<Set<Reason>>,
    /// Who is told that something went stale.
    pub subscribers: Seq<WakerId>,
}

/// The targets once `waker` subscribes to `ledger`: a waker that was not held is.
pub open spec fn kept_for(
    targets: Seq<Target>,
    ledger: LedgerView,
    waker: WakerId,
) -> Seq<Target> {
    if ledger.subscribers.contains(waker) {
        targets
    } else {
        kept(targets, waker)
    }
}

impl LedgerView {
    /// How many nodes have been minted.
    pub open spec fn n(self) -> nat {
        self.labels.len()
    }

    /// Whether `node` is one of this ledger's.
    pub open spec fn holds(self, node: NodeId) -> bool {
        node.owner() == self.id && node.at() < self.n()
    }

    /// Whether node `i` has been marked stale and not yet revalidated.
    pub open spec fn is_stale(self, i: u32) -> bool {
        self.reasons[i as int] != Set::<Reason>::empty()
    }

    /// The nodes that are stale.
    pub open spec fn stale_set(self) -> Set<u32> {
        Set::new(|i: u32| i < self.n() && self.is_stale(i))
    }

    /// Who read node `i` on their last run that read anything.
    pub open spec fn readers(self, i: u32) -> Set<u32> {
        Set::new(|m: u32| m < self.n() && self.reads[m as int].contains(i))
    }

    /// Whether the innermost open run is of a node that was stale when it began.
    pub open spec fn revalidating(self) -> bool {
        self.running.len() > 0 && self.running.last().revalidating
    }

    /// Every edge, every open run and every reason is about a minted node, and no waker is
    /// told twice.
    pub open spec fn sane(self) -> bool {
        &&& self.subscribers.no_duplicates()
        &&& self.n() <= u32::MAX + 1
        &&& self.reads.len() == self.n()
        &&& self.revisions.len() == self.n()
        &&& self.reasons.len() == self.n()
        &&& forall|m: int, k: u32|
            0 <= m < self.n() && (#[trigger] self.reads[m].contains(k)) ==> k < self.n()
        &&& forall|d: int| 0 <= d < self.running.len() ==> (#[trigger] self.running[d]).node < self.n()
        &&& forall|d: int, k: u32|
            0 <= d < self.running.len() && (#[trigger] self.running[d].seen.contains(k)) ==> k
                < self.n()
        &&& forall|m: int, k: u32|
            0 <= m < self.n() && (#[trigger] self.reasons[m].contains(Reason::Read(k))) ==> k
                < self.n()
    }

    /// A ledger with no nodes.
    pub open spec fn fresh(id: u64) -> LedgerView {
        LedgerView {
            id,
            labels: Seq::empty(),
            running: Seq::empty(),
            reads: Seq::empty(),
            revisions: Seq::empty(),
            reasons: Seq::empty(),
            subscribers: Seq::empty(),
        }
    }

    /// One more node, unread, unstale and never changed.
    pub open spec fn minted(self, label: &'static str) -> LedgerView {
        LedgerView {
            labels: self.labels.push(label),
            reads: self.reads.push(Set::empty()),
            revisions: self.revisions.push(0),
            reasons: self.reasons.push(Set::empty()),
            ..self
        }
    }

    /// A read of node `i` goes to the innermost open run, and to nobody where none
    /// is open.
    pub open spec fn observed(self, i: u32) -> LedgerView {
        if self.running.len() == 0 {
            self
        } else {
            let top = self.running.last();
            LedgerView {
                running: self.running.update(
                    self.running.len() - 1,
                    OpenRun { seen: top.seen.insert(i), ..top },
                ),
                ..self
            }
        }
    }

    /// A run of node `i` begins: its staleness is taken into the run.
    pub open spec fn opened(self, i: u32) -> LedgerView {
        LedgerView {
            running: self.running.push(
                OpenRun { node: i, seen: Set::empty(), revalidating: self.is_stale(i) },
            ),
            reasons: self.reasons.update(i as int, Set::empty()),
            ..self
        }
    }

    /// The innermost run ends. What it was seen to read replaces what the node read
    /// before; a run that read nothing, or that was cut short, leaves that standing.
    pub open spec fn closed(self, cut_short: bool) -> LedgerView {
        if self.running.len() == 0 {
            self
        } else {
            let top = self.running.last();
            LedgerView {
                running: self.running.drop_last(),
                reads: if top.seen == Set::<u32>::empty() || cut_short {
                    self.reads
                } else {
                    self.reads.update(top.node as int, top.seen)
                },
                ..self
            }
        }
    }

    /// Every run but the outermost `depth` has been cut short.
    pub open spec fn cut_back(self, depth: nat) -> LedgerView {
        if self.running.len() <= depth {
            self
        } else {
            LedgerView { running: self.running.take(depth as int), ..self }
        }
    }

    /// Node `i` owes a value.
    pub open spec fn owing(self, i: u32) -> LedgerView {
        LedgerView {
            reasons: self.reasons.update(i as int, self.reasons[i as int].insert(Reason::Owed)),
            ..self
        }
    }

    /// Node `i` is not stale.
    pub open spec fn cleared(self, i: u32) -> LedgerView {
        LedgerView { reasons: self.reasons.update(i as int, Set::empty()), ..self }
    }

    /// `waker` is told of staleness from now on, once.
    pub open spec fn subscribed(self, waker: WakerId) -> LedgerView {
        if self.subscribers.contains(waker) {
            self
        } else {
            LedgerView { subscribers: self.subscribers.push(waker), ..self }
        }
    }

    /// What any later state of a ledger has in common with this one, whatever runs are
    /// open in either: it is the same ledger, and no node is forgotten.
    pub open spec fn extends(self, b: LedgerView) -> bool {
        &&& b.sane()
        &&& b.id == self.id
        &&& self.labels.is_prefix_of(b.labels)
    }

    /// What any later state of a ledger has in common with this one, as long as the
    /// runs opened in between have been closed again: no node is forgotten, the open
    /// runs are the same ones, and only the innermost may have been seen to read more.
    pub open spec fn later(self, b: LedgerView) -> bool {
        &&& self.extends(b)
        &&& b.running.len() == self.running.len()
        &&& forall|d: int|
            0 <= d < self.running.len() ==> {
                &&& (#[trigger] b.running[d]).node == self.running[d].node
                &&& b.running[d].revalidating == self.running[d].revalidating
                &&& self.running[d].seen.subset_of(b.running[d].seen)
                &&& d + 1 < self.running.len() ==> b.running[d].seen == self.running[d].seen
            }
    }

    /// Later than later is later.
    pub proof fn lemma_later_transitive(self, b: LedgerView, c: LedgerView)
        requires
            self.later(b),
            b.later(c),
        ensures
            self.later(c),
    {
        assert forall|d: int| 0 <= d < self.running.len() implies {
            &&& (#[trigger] c.running[d]).node == self.running[d].node
            &&& c.running[d].revalidating == self.running[d].revalidating
            &&& self.running[d].seen.subset_of(c.running[d].seen)
            &&& d + 1 < self.running.len() ==> c.running[d].seen == self.running[d].seen
        } by {
            let between = b.running[d];
        }
    }

    /// Between opening a run and closing it, whatever ran inside leaves the rest of
    /// the ledger where [`LedgerView::later`] says.
    pub proof fn lemma_run_is_later(self, i: u32, b: LedgerView, cut_short: bool)
        requires
            self.sane(),
            i < self.n(),
            self.opened(i).later(b),
        ensures
            self.later(b.closed(cut_short)),
            b.running.len() == self.running.len() + 1,
            b.running.last().node == i,
    {
        let inside = self.opened(i);
        let after = b.closed(cut_short);
        let top = b.running.last();
        assert(b.running[self.running.len() as int].node == inside.running[self.running.len() as int].node);
        assert forall|m: int, k: u32|
            0 <= m < after.n() && (#[trigger] after.reads[m].contains(k)) implies k < after.n() by {
            assert(b.running[b.running.len() - 1].seen.contains(k) || b.reads[m].contains(k));
        }
        assert forall|d: int| 0 <= d < after.running.len() implies (#[trigger] after.running[d]).node
            < after.n() by {
            assert(after.running[d] == b.running[d]);
        }
        assert forall|d: int, k: u32|
            0 <= d < after.running.len() && (#[trigger] after.running[d].seen.contains(k)) implies k
            < after.n() by {
            assert(after.running[d] == b.running[d]);
            assert(b.running[d].seen.contains(k));
        }
        assert forall|d: int| 0 <= d < self.running.len() implies {
            &&& (#[trigger] after.running[d]).node == self.running[d].node
            &&& after.running[d].revalidating == self.running[d].revalidating
            &&& self.running[d].seen.subset_of(after.running[d].seen)
            &&& d + 1 < self.running.len() ==> after.running[d].seen == self.running[d].seen
        } by {
            assert(after.running[d] == b.running[d]);
            assert(inside.running[d] == self.running[d]);
        }
    }
}

/// An open run, as the ledger holds it.
struct Scope {
    node: u32,
    scratch: NodeSet,
    revalidating: bool,
}

impl Scope {
    spec fn view(&self) -> OpenRun {
        OpenRun { node: self.node, seen: self.scratch@, revalidating: self.revalidating }
    }
}

/// Why one node is stale, as the ledger holds it.
struct Reasons {
    through: NodeSet,
    owed: bool,
}

impl Reasons {
    spec fn view(&self) -> Set<Reason> {
        Set::new(
            |r: Reason|
                match r {
                    Reason::Read(k) => self.through@.contains(k),
                    Reason::Owed => self.owed,
                },
        )
    }

    fn none() -> (r: Reasons)
        ensures
            r.view() == Set::<Reason>::empty(),
    {
        let r = Reasons { through: NodeSet::new(), owed: false };
        assert(r.view() =~= Set::<Reason>::empty());
        r
    }

    fn is_none(&self) -> (r: bool)
        ensures
            r == (self.view() == Set::<Reason>::empty()),
    {
        let r = !self.owed && self.through.is_empty();
        proof {
            if r {
                assert(self.view() =~= Set::<Reason>::empty());
            } else if self.owed {
                assert(self.view().contains(Reason::Owed));
            } else {
                self.through.lemma_seq();
                assert(self.view().contains(Reason::Read(self.through.seq()[0])));
            }
        }
        r
    }
}

/// What a stage read while it ran, and who reads whom.
///
/// One ledger serves one drive. Entering a node's run clears its staleness before
/// the run rather than after it, so a change that lands during the run leaves the
/// node stale.
pub struct Ledger {
    id: u64,
    labels: Vec<&'static str>,
    running: Vec<Scope>,
    reads: Vec<NodeSet>,
    readers: Vec<NodeSet>,
    revisions: Vec<u64>,
    stale: Vec<Reasons>,
    subscribers: Vec<WakerId>,
    /// The subscribers' wakers, which are not to be dropped.
    wakers: Vec<Waker>,
}

impl View for Ledger {
    type V = LedgerView;

    closed spec fn view(&self) -> LedgerView {
        LedgerView {
            id: self.id,
            labels: self.labels@,
            running: Seq::new(self.running@.len(), |d: int| self.running@[d].view()),
            reads: Seq::new(self.reads@.len(), |m: int| self.reads@[m]@),
            revisions: self.revisions@,
            reasons: Seq::new(self.stale@.len(), |m: int| self.stale@[m].view()),
            subscribers: self.subscribers@,
        }
    }
}

impl Ledger {
    /// The ledger is about its own nodes, its sets are in order, the index of readers is
    /// exactly the reads turned round, and a waker is held of every subscriber.
    pub closed spec fn wf(&self) -> bool {
        &&& self@.sane()
        &&& self.readers@.len() == self.labels@.len()
        &&& forall|k: u32|
            k < self.readers@.len() ==> (#[trigger] self.readers@[k as int])@ == self@.readers(k)
        &&& self.wakers@.len() == self.subscribers@.len()
        &&& forall|i: int|
            0 <= i < self.wakers@.len() ==> (#[trigger] self.wakers@[i])@ == self.subscribers@[i]
    }

    /// The ledger holds a waker of every subscriber, as long as it is subscribed.
    proof fn law_a_waker_is_held_of_every_subscriber(&self, waker: WakerId)
        requires
            self.wf(),
            self@.subscribers.contains(waker),
        ensures
            exists|i: int| 0 <= i < self.wakers@.len() && (#[trigger] self.wakers@[i])@ == waker,
    {
        let i = self@.subscribers.index_of(waker);
        assert(self.subscribers@[i] == waker);
        assert(self.wakers@[i]@ == waker);
    }

    /// A well-formed ledger speaks only of its own nodes.
    pub proof fn lemma_sane(&self)
        requires
            self.wf(),
        ensures
            self@.sane(),
    {
    }

    /// A fresh ledger with no nodes. Its number is drawn, and tells it from other ledgers:
    /// its nodes carry it.
    pub fn new() -> (r: Ledger)
        ensures
            r.wf(),
            r@ == LedgerView::fresh(r@.id),
    {
        Ledger::numbered(draw())
    }

    /// A fresh ledger with no nodes, numbered by whoever counts ledgers.
    pub fn numbered(id: u64) -> (r: Ledger)
        ensures
            r.wf(),
            r@ == LedgerView::fresh(id),
    {
        let r = Ledger {
            id,
            labels: Vec::new(),
            running: Vec::new(),
            reads: Vec::new(),
            readers: Vec::new(),
            revisions: Vec::new(),
            stale: Vec::new(),
            subscribers: Vec::new(),
            wakers: Vec::new(),
        };
        assert(r@ =~= LedgerView::fresh(id));
        r
    }

    /// Mint a node id. `label` is for diagnostics only: two nodes may share one, and
    /// nothing is keyed by it.
    pub fn node(&mut self, label: &'static str) -> (r: NodeId)
        requires
            old(self).wf(),
            old(self)@.n() <= u32::MAX,
        ensures
            final(self).wf(),
            final(self)@ == old(self)@.minted(label),
            r == NodeId::of(old(self)@.id, old(self)@.n() as u32),
            final(self)@.holds(r),
    {
        let index: u32 = self.labels.len() as u32;
        self.labels.push(label);
        self.reads.push(NodeSet::new());
        self.readers.push(NodeSet::new());
        self.revisions.push(0);
        self.stale.push(Reasons::none());
        proof {
            let was = old(self)@;
            let now = self@;
            assert(now =~~= was.minted(label));
            assert forall|k: u32| k < self.readers@.len() implies (#[trigger] self.readers@[k as int])@
                == now.readers(k) by {
                if k < was.n() {
                    assert(old(self).readers@[k as int]@ == was.readers(k));
                    assert forall|m: u32| now.readers(k).contains(m) <==> was.readers(k).contains(m) by {
                        if m < was.n() {
                            assert(now.reads[m as int] == was.reads[m as int]);
                        }
                    }
                    assert(now.readers(k) =~= was.readers(k));
                } else {
                    assert forall|m: u32| !now.readers(k).contains(m) by {
                        if m < was.n() {
                            assert(now.reads[m as int] == was.reads[m as int]);
                        }
                    }
                    assert(now.readers(k) =~= Set::<u32>::empty());
                }
            }
        }
        NodeId { ledger: self.id, index }
    }

    /// The label `node` was minted with.
    pub fn label(&self, node: NodeId) -> (r: &'static str)
        requires
            self.wf(),
            self@.holds(node),
        ensures
            r == self@.labels[node.at() as int],
    {
        self.labels[self.check(node)]
    }

    /// Which ledger this is.
    pub fn id(&self) -> (r: u64)
        ensures
            r == self@.id,
    {
        self.id
    }

    /// How many nodes have been minted.
    pub fn len(&self) -> (r: usize)
        ensures
            r == self@.n(),
    {
        self.labels.len()
    }

    /// Whether `node` was minted by this ledger. Every method that takes a node wants one
    /// of its own: two ledgers both count from zero.
    pub fn owns(&self, node: NodeId) -> (r: bool)
        ensures
            r == self@.holds(node),
    {
        node.ledger == self.id && (node.index as usize) < self.labels.len()
    }

    /// The index `node` addresses.
    fn check(&self, node: NodeId) -> (r: usize)
        requires
            self@.holds(node),
        ensures
            r == node.at(),
            r < self.labels@.len(),
    {
        node.index as usize
    }

    /// The ids of `indices`, in the order of the walk.
    fn ids(&self, indices: &NodeSet) -> (r: Vec<NodeId>)
        ensures
            r@ == ids_of(self@.id, indices.seq()),
    {
        let mut r: Vec<NodeId> = Vec::new();
        let mut i: usize = 0;
        let list: Vec<u32> = indices.items();
        let total: usize = list.len();
        while i < total
            invariant
                i <= total,
                total == list@.len(),
                list@ == indices.seq(),
                r@ == ids_of(self@.id, indices.seq().take(i as int)),
            decreases total - i,
        {
            r.push(NodeId { ledger: self.id, index: list[i] });
            i = i + 1;
            assert(r@ =~= ids_of(self@.id, indices.seq().take(i as int)));
        }
        assert(indices.seq().take(i as int) =~= indices.seq());
        r
    }

    /// The innermost node currently running, if any.
    pub fn running(&self) -> (r: Option<NodeId>)
        ensures
            r == (if self@.running.len() == 0 {
                None
            } else {
                Some(NodeId::of(self@.id, self@.running.last().node))
            }),
    {
        if self.running.len() == 0 {
            None
        } else {
            let top: &Scope = &self.running[self.running.len() - 1];
            Some(NodeId { ledger: self.id, index: top.node })
        }
    }

    /// How many runs are open.
    pub fn open_runs(&self) -> (r: usize)
        ensures
            r == self@.running.len(),
    {
        self.running.len()
    }

    /// Whether the innermost open run is of a node that was stale when the run
    /// began, so that this run exists to replace a value already ruled out. False
    /// with no run open.
    pub fn revalidating(&self) -> (r: bool)
        ensures
            r == self@.revalidating(),
    {
        if self.running.len() == 0 {
            false
        } else {
            self.running[self.running.len() - 1].revalidating
        }
    }

    /// Log a read of `node` by whatever is running. The reader is never named: it
    /// is whichever run is innermost. A read with nothing running belongs to nobody.
    pub fn observe_read(&mut self, node: NodeId)
        requires
            old(self).wf(),
            old(self)@.holds(node),
        ensures
            final(self).wf(),
            final(self)@ == old(self)@.observed(node.at()),
            old(self)@.later(final(self)@),
    {
        let index: u32 = node.index;
        match self.running.pop() {
            None => {},
            Some(top) => {
                let Scope { node: runs, mut scratch, revalidating } = top;
                scratch.insert(index);
                self.running.push(Scope { node: runs, scratch, revalidating });
            },
        }
        proof {
            let was = old(self)@;
            let now = self@;
            assert(now.running =~~= was.observed(index).running);
            assert(now =~~= was.observed(index));
            lemma_readers_by_reads(was, now);
            assert forall|d: int, k: u32|
                0 <= d < now.running.len() && (#[trigger] now.running[d].seen.contains(k)) implies k
                < now.n() by {
                assert(was.running[d].seen.contains(k) || k == index);
            }
            assert forall|d: int| 0 <= d < now.running.len() implies (#[trigger] now.running[d]).node
                < now.n() by {
                assert(was.running[d].node < now.n());
            }
        }
    }

    /// Begin a run of `node`. Its staleness is cleared now and carried for the
    /// duration of the run, where [`Ledger::revalidating`] answers it.
    pub fn open(&mut self, node: NodeId)
        requires
            old(self).wf(),
            old(self)@.holds(node),
        ensures
            final(self).wf(),
            final(self)@ == old(self)@.opened(node.at()),
    {
        let index: usize = self.check(node);
        let was_stale = !self.stale[index].is_none();
        self.stale.set(index, Reasons::none());
        self.running.push(
            Scope { node: node.index, scratch: NodeSet::new(), revalidating: was_stale },
        );
        proof {
            let was = old(self)@;
            let now = self@;
            assert(now.running =~~= was.opened(node.at()).running);
            assert(now.reasons =~~= was.opened(node.at()).reasons);
            assert(now =~~= was.opened(node.at()));
            lemma_readers_by_reads(was, now);
            assert forall|d: int| 0 <= d < now.running.len() implies (#[trigger] now.running[d]).node
                < now.n() by {
                if d < was.running.len() {
                    assert(now.running[d] == was.running[d]);
                }
            }
            assert forall|d: int, k: u32|
                0 <= d < now.running.len() && (#[trigger] now.running[d].seen.contains(k)) implies k
                < now.n() by {
                assert(d < was.running.len());
                assert(was.running[d].seen.contains(k));
            }
            assert forall|m: int, k: u32|
                0 <= m < now.n() && (#[trigger] now.reasons[m].contains(Reason::Read(k))) implies k
                < now.n() by {
                assert(was.reasons[m].contains(Reason::Read(k)));
            }
        }
    }

    /// End the innermost run. What it read replaces what its node read before,
    /// with two exceptions. A run that was seen to read nothing leaves the previous
    /// reads standing: it may have answered without running. A run that was cut
    /// short commits nothing: a partial set is a set with edges missing.
    pub fn close(&mut self, cut_short: bool)
        requires
            old(self).wf(),
        ensures
            final(self).wf(),
            final(self)@ == old(self)@.closed(cut_short),
    {
        let top: Scope = match self.running.pop() {
            None => {
                return ;
            },
            Some(top) => top,
        };
        let Scope { node: index, scratch, revalidating } = top;
        let ghost was = old(self)@;
        let ghost popped = self@;
        proof {
            assert(was.running.last() == top.view());
            assert(was.running[was.running.len() - 1].node < was.n());
            assert(popped.running =~= was.running.drop_last());
            assert forall|d: int| 0 <= d < popped.running.len() implies (
            #[trigger] popped.running[d]).node < popped.n() by {
                assert(was.running[d].node < was.n());
            }
            assert forall|d: int, k: u32|
                0 <= d < popped.running.len() && (#[trigger] popped.running[d].seen.contains(
                    k,
                )) implies k < popped.n() by {
                assert(was.running[d].seen.contains(k));
            }
            assert forall|k: u32| scratch@.contains(k) implies k < was.n() by {
                assert(was.running[was.running.len() - 1].seen.contains(k));
            }
            lemma_readers_by_reads(was, popped);
            assert(self.wf());
        }
        if scratch.is_empty() || cut_short {
            assert(self@ =~~= was.closed(cut_short));
            return ;
        }
        self.commit(index, scratch);
        assert(self@ =~~= was.closed(cut_short));
    }

    /// Replace what node `index` reads by `scratch`, keeping the index of readers in
    /// step.
    fn commit(&mut self, index: u32, scratch: NodeSet)
        requires
            old(self).wf(),
            index < old(self)@.n(),
            forall|k: u32| scratch@.contains(k) ==> k < old(self)@.n(),
        ensures
            final(self).wf(),
            final(self)@ == (LedgerView {
                reads: old(self)@.reads.update(index as int, scratch@),
                ..old(self)@
            }),
    {
        let node: usize = index as usize;
        let ghost start = self@;
        let was: NodeSet = self.reads[node].duplicate();
        proof {
            was.lemma_seq();
            scratch.lemma_seq();
        }
        let mut i: usize = 0;
        let old_reads: Vec<u32> = was.items();
        let gone: usize = old_reads.len();
        while i < gone
            invariant
                i <= gone,
                gone == old_reads@.len(),
                old_reads@ == was.seq(),
                was@ == start.reads[index as int],
                was@ == was.seq().to_set(),
                index < start.n(),
                start == old(self)@,
                start.sane(),
                self.id == old(self).id,
                self.labels == old(self).labels,
                self.running == old(self).running,
                self.reads == old(self).reads,
                self.revisions == old(self).revisions,
                self.stale == old(self).stale,
                self.subscribers == old(self).subscribers,
                self.wakers == old(self).wakers,
                self.readers@.len() == start.n(),
                forall|k: u32|
                    k < start.n() ==> (#[trigger] self.readers@[k as int])@ == (
                    if was.seq().take(i as int).contains(k) {
                        start.readers(k).remove(index)
                    } else {
                        start.readers(k)
                    }),
            decreases gone - i,
        {
            let k: u32 = old_reads[i];
            proof {
                was.lemma_seq();
                assert(start.reads[index as int].contains(k));
            }
            let ghost before = self.readers@;
            let mut set: NodeSet = self.readers[k as usize].duplicate();
            set.remove(index);
            self.readers.set(k as usize, set);
            proof {
                let shorter = was.seq().take(i as int);
                let longer = was.seq().take(i + 1);
                lemma_take_one_more(was.seq(), i as int);
                assert forall|x: u32| x < start.n() implies (#[trigger] self.readers@[x as int])@ == (
                if longer.contains(x) {
                    start.readers(x).remove(index)
                } else {
                    start.readers(x)
                }) by {
                    assert(before[x as int]@ == (if shorter.contains(x) {
                        start.readers(x).remove(index)
                    } else {
                        start.readers(x)
                    }));
                    if x == k {
                        assert(start.readers(x).remove(index).remove(index) =~= start.readers(
                            x,
                        ).remove(index));
                    }
                }
            }
            i = i + 1;
        }
        proof {
            assert(was.seq().take(i as int) =~= was.seq());
            assert forall|k: u32| k < start.n() implies (#[trigger] self.readers@[k as int])@
                == start.readers(k).remove(index) by {
                if !was.seq().contains(k) {
                    assert(!start.readers(k).contains(index));
                    assert(start.readers(k).remove(index) =~= start.readers(k));
                }
            }
        }
        let mut j: usize = 0;
        let new_reads: Vec<u32> = scratch.items();
        let new: usize = new_reads.len();
        while j < new
            invariant
                j <= new,
                new == new_reads@.len(),
                new_reads@ == scratch.seq(),
                scratch@ == scratch.seq().to_set(),
                forall|k: u32| scratch@.contains(k) ==> k < start.n(),
                index < start.n(),
                start == old(self)@,
                self.id == old(self).id,
                self.labels == old(self).labels,
                self.running == old(self).running,
                self.reads == old(self).reads,
                self.revisions == old(self).revisions,
                self.stale == old(self).stale,
                self.subscribers == old(self).subscribers,
                self.wakers == old(self).wakers,
                self.readers@.len() == start.n(),
                forall|k: u32|
                    k < start.n() ==> (#[trigger] self.readers@[k as int])@ == (
                    if scratch.seq().take(j as int).contains(k) {
                        start.readers(k).insert(index)
                    } else {
                        start.readers(k).remove(index)
                    }),
            decreases new - j,
        {
            let k: u32 = new_reads[j];
            proof {
                scratch.lemma_seq();
            }
            let ghost before = self.readers@;
            let mut set: NodeSet = self.readers[k as usize].duplicate();
            set.insert(index);
            self.readers.set(k as usize, set);
            proof {
                let shorter = scratch.seq().take(j as int);
                let longer = scratch.seq().take(j + 1);
                lemma_take_one_more(scratch.seq(), j as int);
                assert forall|x: u32| x < start.n() implies (#[trigger] self.readers@[x as int])@ == (
                if longer.contains(x) {
                    start.readers(x).insert(index)
                } else {
                    start.readers(x).remove(index)
                }) by {
                    assert(before[x as int]@ == (if shorter.contains(x) {
                        start.readers(x).insert(index)
                    } else {
                        start.readers(x).remove(index)
                    }));
                    if x == k {
                        assert(self.readers@[x as int]@ =~= start.readers(x).insert(index));
                    }
                }
            }
            j = j + 1;
        }
        assert(scratch.seq().take(j as int) =~= scratch.seq());
        let ghost seen = scratch@;
        proof {
            scratch.lemma_seq();
        }
        self.reads.set(node, scratch);
        proof {
            let now = self@;
            assert(now =~~= (LedgerView {
                reads: start.reads.update(index as int, seen),
                ..start
            }));
            assert forall|m: int, k: u32|
                0 <= m < now.n() && (#[trigger] now.reads[m].contains(k)) implies k < now.n() by {
                if m != index {
                    assert(start.reads[m].contains(k));
                }
            }
            assert forall|k: u32| k < self.readers@.len() implies (#[trigger] self.readers@[k as int])@
                == now.readers(k) by {
                assert forall|m: u32|
                    self.readers@[k as int]@.contains(m) <==> now.readers(k).contains(m) by {
                    assert(seen.contains(k) <==> scratch.seq().contains(k));
                    if m != index && m < now.n() {
                        assert(now.reads[m as int] == start.reads[m as int]);
                    }
                }
                assert(self.readers@[k as int]@ =~= now.readers(k));
            }
        }
    }

    /// What `node` read on its last run that read anything, in mint order.
    pub fn reads_of(&self, node: NodeId) -> (r: Vec<NodeId>)
        requires
            self.wf(),
            self@.holds(node),
        ensures
            lists(self@.id, self@.reads[node.at() as int], r@),
    {
        let set: &NodeSet = &self.reads[self.check(node)];
        proof {
            set.lemma_seq();
        }
        self.ids(set)
    }

    /// Who read `node` on their last run that read anything, in mint order.
    pub fn readers_of(&self, node: NodeId) -> (r: Vec<NodeId>)
        requires
            self.wf(),
            self@.holds(node),
        ensures
            lists(self@.id, self@.readers(node.at()), r@),
    {
        let set: &NodeSet = &self.readers[self.check(node)];
        proof {
            set.lemma_seq();
        }
        self.ids(set)
    }

    /// How many times `node` has been declared changed, starting at zero.
    pub fn revision(&self, node: NodeId) -> (r: u64)
        requires
            self.wf(),
            self@.holds(node),
        ensures
            r == self@.revisions[node.at() as int],
    {
        self.revisions[self.check(node)]
    }

    /// Whether `node` has been marked stale and not yet revalidated.
    pub fn is_stale(&self, node: NodeId) -> (r: bool)
        requires
            self.wf(),
            self@.holds(node),
        ensures
            r == self@.is_stale(node.at()),
    {
        !self.stale[self.check(node)].is_none()
    }

    /// The indices of everything currently stale.
    fn stale_indices(&self) -> (r: NodeSet)
        requires
            self.wf(),
        ensures
            r@ == self@.stale_set(),
    {
        let mut r: NodeSet = NodeSet::new();
        let mut i: usize = 0;
        assert(r@ =~= self@.stale_set().filter(|m: u32| m < 0));
        while i < self.stale.len()
            invariant
                self.wf(),
                i <= self.stale@.len(),
                r@ == self@.stale_set().filter(|m: u32| m < i),
            decreases self.stale@.len() - i,
        {
            let ghost before = r@;
            if !self.stale[i].is_none() {
                r.insert(i as u32);
            }
            assert forall|m: u32|
                r@.contains(m) <==> self@.stale_set().filter(|m: u32| m < i + 1).contains(m) by {
                if m == i {
                    assert(self@.reasons[m as int] == self.stale@[i as int].view());
                }
            }
            i = i + 1;
            assert(r@ =~= self@.stale_set().filter(|m: u32| m < i));
        }
        assert(r@ =~= self@.stale_set());
        r
    }

    /// Everything currently stale, in mint order.
    pub fn stale_nodes(&self) -> (r: Vec<NodeId>)
        requires
            self.wf(),
        ensures
            lists(self@.id, self@.stale_set(), r@),
    {
        let set: NodeSet = self.stale_indices();
        proof {
            set.lemma_seq();
        }
        self.ids(&set)
    }

    /// Mark `node` alone stale, on its own account, without walking to its readers.
    pub fn mark_stale(&mut self, node: NodeId)
        requires
            old(self).wf(),
            old(self)@.holds(node),
        ensures
            final(self).wf(),
            final(self)@ == old(self)@.owing(node.at()),
            old(self)@.later(final(self)@),
    {
        let index: usize = self.check(node);
        let through: NodeSet = self.stale[index].through.duplicate();
        self.stale.set(index, Reasons { through, owed: true });
        proof {
            let was = old(self)@;
            let now = self@;
            assert(now.reasons[index as int] =~= was.reasons[index as int].insert(Reason::Owed));
            assert(now.reasons =~= was.owing(node.at()).reasons);
            assert(now =~~= was.owing(node.at()));
            lemma_readers_by_reads(was, now);
            lemma_sane_by_reasons(was, now);
        }
    }

    /// Clear `node`'s staleness. A run does this on entry; this is for a caller that
    /// revalidates a node some other way.
    pub fn clear_stale(&mut self, node: NodeId)
        requires
            old(self).wf(),
            old(self)@.holds(node),
        ensures
            final(self).wf(),
            final(self)@ == old(self)@.cleared(node.at()),
            old(self)@.later(final(self)@),
    {
        let index: usize = self.check(node);
        self.stale.set(index, Reasons::none());
        proof {
            let was = old(self)@;
            let now = self@;
            assert(now.reasons =~= was.cleared(node.at()).reasons);
            assert(now =~~= was.cleared(node.at()));
            lemma_readers_by_reads(was, now);
            lemma_sane_by_reasons(was, now);
        }
    }

    /// Cut short every run but the outermost `depth`: what is left to do where a poll was
    /// abandoned rather than finished.
    pub fn cut_back(&mut self, depth: usize)
        requires
            old(self).wf(),
        ensures
            final(self).wf(),
            final(self)@ == old(self)@.cut_back(depth as nat),
    {
        while self.running.len() > depth
            invariant
                self.wf(),
                self@.running.len() <= old(self)@.running.len(),
                self@.cut_back(depth as nat) == old(self)@.cut_back(depth as nat),
            decreases self.running@.len(),
        {
            let ghost was = self@;
            self.close(true);
            assert(self@.cut_back(depth as nat) =~~= was.cut_back(depth as nat));
        }
    }

    /// Be told when something goes stale. Waking does not use a subscription up, and
    /// a waker that would wake the same target as one already held is not added. The
    /// ledger keeps the waker from here on.
    pub fn subscribe(&mut self, waker: WakerId, wakes: &mut Wakes)
        requires
            old(self).wf(),
            old(wakes).wf(),
        ensures
            final(self).wf(),
            final(wakes).wf(),
            final(self)@ == old(self)@.subscribed(waker),
            old(self)@.later(final(self)@),
            final(wakes)@ == kept_for(old(wakes)@, old(self)@, waker),
    {
        let mut i: usize = 0;
        while i < self.subscribers.len()
            invariant
                i <= self.subscribers@.len(),
                *self == *old(self),
                *wakes == *old(wakes),
                old(self).wf(),
                old(wakes).wf(),
                forall|j: int| 0 <= j < i ==> self.subscribers@[j] != waker,
            decreases self.subscribers@.len() - i,
        {
            if self.subscribers[i] == waker {
                assert(self@.subscribers[i as int] == waker);
                return ;
            }
            i = i + 1;
        }
        self.subscribers.push(waker);
        self.wakers.push(wakes.keep(waker));
        proof {
            let was = old(self)@;
            let now = self@;
            assert(!was.subscribers.contains(waker));
            assert(now =~~= was.subscribed(waker));
            lemma_readers_by_reads(was, now);
            lemma_sane_by_reasons(was, now);
        }
    }

    /// Run `f` as `node`, observing every read it makes.
    ///
    /// `f` is handed the ledger with the run open, and must close whatever runs it
    /// opens itself.
    pub fn run<R, F: FnOnce(&mut Ledger) -> R>(&mut self, node: NodeId, f: F) -> (r: R)
        requires
            old(self).wf(),
            old(self)@.holds(node),
            forall|inside: &mut Ledger|
                inside.wf() && inside@ == old(self)@.opened(node.at()) ==> #[trigger] call_requires(
                    f,
                    (inside,),
                ),
            forall|inside: &mut Ledger, out: R|
                inside.wf() && inside@ == old(self)@.opened(node.at()) && (#[trigger] call_ensures(
                    f,
                    (inside,),
                    out,
                )) ==> final(inside).wf() && inside@.later(final(inside)@),
        ensures
            final(self).wf(),
            old(self)@.later(final(self)@),
            exists|inside: &mut Ledger|
                {
                    &&& inside.wf()
                    &&& inside@ == old(self)@.opened(node.at())
                    &&& #[trigger] call_ensures(f, (inside,), r)
                    &&& final(self)@ == final(inside)@.closed(false)
                },
    {
        self.open(node);
        let out = f(self);
        proof {
            old(self)@.lemma_run_is_later(node.at(), self@, false);
        }
        self.close(false);
        out
    }
}

/// The ids that ledger `id` mints for `indices`, item by item.
pub open spec fn ids_of(id: u64, indices: Seq<u32>) -> Seq<NodeId> {
    indices.map_values(|i: u32| NodeId::of(id, i))
}

/// Whether `listed` is ledger `id`'s nodes `set`, each once and in mint order.
pub open spec fn lists(id: u64, set: Set<u32>, listed: Seq<NodeId>) -> bool {
    exists|indices: Seq<u32>|
        {
            &&& crate::node_set::increasing(indices)
            &&& indices.to_set() == set
            &&& listed == #[trigger] ids_of(id, indices)
        }
}

/// Ledgers whose nodes read alike have the same readers.
pub(crate) proof fn lemma_readers_by_reads(a: LedgerView, b: LedgerView)
    requires
        a.n() == b.n(),
        a.reads == b.reads,
    ensures
        forall|k: u32| a.readers(k) == b.readers(k),
{
    assert forall|k: u32| a.readers(k) == b.readers(k) by {
        assert(a.readers(k) =~= b.readers(k));
    }
}

/// Where nothing but reasons and subscribers moved, and no reason names a node that
/// was not there, a ledger stays sane.
pub(crate) proof fn lemma_sane_by_reasons(a: LedgerView, b: LedgerView)
    requires
        a.sane(),
        b.labels == a.labels,
        b.running == a.running,
        b.reads == a.reads,
        b.revisions.len() == a.revisions.len(),
        b.reasons.len() == a.reasons.len(),
        b.id == a.id,
        b.subscribers.no_duplicates(),
        forall|m: int, k: u32|
            0 <= m < a.n() && (#[trigger] b.reasons[m].contains(Reason::Read(k)))
                ==> a.reasons[m].contains(Reason::Read(k)) || k < a.n(),
    ensures
        b.sane(),
        a.later(b),
{
    assert forall|d: int| 0 <= d < b.running.len() implies (#[trigger] b.running[d]).node < b.n() by {
        assert(a.running[d].node < a.n());
    }
}

} // verus!
