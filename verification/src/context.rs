//! What a poll is handed: the waker to leave behind, and the state one drive shares.

use vstd::prelude::*;

use crate::track::{Ledger, LedgerView, NodeId};
use crate::wake::{
    forwards_back, kept, known, released, targets_later, woken, Target, Waker, WakerId,
    Wakes,
};

verus! {

/// What a context holds, mathematically.
#[verifier::ext_equal]
pub struct ContextView {
    /// The ledger of this drive.
    pub ledger: LedgerView,
    /// The wake targets of this drive.
    pub targets: Seq<Target>,
    /// The substitution tallies of this drive.
    pub tallies: Seq<usize>,
    /// The waker this poll is handed.
    pub waker: WakerId,
    /// Whether this drive is driven from inside a poll that is revalidating.
    pub nested: bool,
}

impl ContextView {
    /// A drive in which nothing has happened.
    pub open spec fn fresh(id: u64) -> ContextView {
        ContextView {
            ledger: LedgerView::fresh(id),
            targets: Seq::empty(),
            tallies: Seq::empty(),
            waker: WakerId::Noop,
            nested: false,
        }
    }

    /// Whether the innermost open run is of a node that was stale when it began. Runs of a
    /// drive that this one is driven from are open around its own.
    pub open spec fn revalidating(self) -> bool {
        if self.ledger.running.len() == 0 {
            self.nested
        } else {
            self.ledger.revalidating()
        }
    }

    /// The ledger speaks of its own nodes, wakes end, and the waker is one of this
    /// drive's.
    pub open spec fn sane(self) -> bool {
        &&& self.ledger.sane()
        &&& forwards_back(self.targets)
        &&& known(self.targets, self.waker)
    }

    /// What any later state of a drive has in common with this one, whatever runs are
    /// open and whatever waker is handed out: no node and no wake target is forgotten,
    /// and no tally goes down.
    pub open spec fn extends(self, b: ContextView) -> bool {
        &&& b.sane()
        &&& self.ledger.extends(b.ledger)
        &&& targets_later(self.targets, b.targets)
        &&& self.tallies.len() <= b.tallies.len()
        &&& forall|t: int| 0 <= t < self.tallies.len() ==> self.tallies[t] <= #[trigger] b.tallies[t]
    }

    /// What any later state of a drive has in common with this one as long as the runs
    /// opened in between have been closed again, and it is driven from where it was.
    pub open spec fn grows(self, b: ContextView) -> bool {
        &&& self.extends(b)
        &&& self.ledger.later(b.ledger)
        &&& b.nested == self.nested
    }

    /// What any later state of a drive has in common with this one as long as, also,
    /// polls are handed the same waker.
    pub open spec fn later(self, b: ContextView) -> bool {
        &&& self.grows(b)
        &&& b.waker == self.waker
    }

    /// The same drive handing out `waker`.
    pub open spec fn handing(self, waker: WakerId) -> ContextView {
        ContextView { waker, ..self }
    }

    /// The same drive with its ledger in state `ledger`.
    pub open spec fn with_ledger(self, ledger: LedgerView) -> ContextView {
        ContextView { ledger, ..self }
    }

    /// Later than later is later.
    pub proof fn lemma_later_transitive(self, b: ContextView, c: ContextView)
        requires
            self.grows(b),
            b.grows(c),
        ensures
            self.grows(c),
            b.waker == self.waker && c.waker == b.waker ==> self.later(c),
    {
        self.ledger.lemma_later_transitive(b.ledger, c.ledger);
        assert forall|t: int| 0 <= t < self.tallies.len() implies self.tallies[t]
            <= #[trigger] c.tallies[t] by {
            assert(self.tallies[t] <= b.tallies[t]);
        }
        assert forall|t: int| 0 <= t < self.targets.len() implies (#[trigger] c.targets[t]).forward
            == self.targets[t].forward by {
            assert(b.targets[t].forward == self.targets[t].forward);
        }
    }
}

/// Something of a drive that a stage, a handler or a piece of work holds on to.
pub enum Need {
    /// A node of the drive's ledger.
    Node(NodeId),
    /// One of the drive's tallies, by its number.
    Tally(usize),
}

impl ContextView {
    /// Whether a drive in this state has what `need` names.
    pub open spec fn meets(self, need: Need) -> bool {
        match need {
            Need::Node(node) => self.ledger.holds(node),
            Need::Tally(at) => at < self.tallies.len(),
        }
    }
}

/// Whether a drive in state `cx` has everything `needs` names.
pub open spec fn met(needs: Set<Need>, cx: ContextView) -> bool {
    forall|need: Need| #[trigger] needs.contains(need) ==> cx.meets(need)
}

/// Two sets of needs are met together exactly when each is.
pub broadcast proof fn lemma_met_union(a: Set<Need>, b: Set<Need>, cx: ContextView)
    ensures
        #[trigger] met(a.union(b), cx) == (met(a, cx) && met(b, cx)),
{
    if met(a.union(b), cx) {
        assert forall|need: Need| #[trigger] a.contains(need) implies cx.meets(need) by {
            assert(a.union(b).contains(need));
        }
        assert forall|need: Need| #[trigger] b.contains(need) implies cx.meets(need) by {
            assert(a.union(b).contains(need));
        }
    }
}

/// One need more is met exactly when it and the others are.
pub broadcast proof fn lemma_met_insert(needs: Set<Need>, need: Need, cx: ContextView)
    ensures
        #[trigger] met(needs.insert(need), cx) == (met(needs, cx) && cx.meets(need)),
{
    if met(needs.insert(need), cx) {
        assert(needs.insert(need).contains(need));
        assert forall|n: Need| #[trigger] needs.contains(n) implies cx.meets(n) by {
            assert(needs.insert(need).contains(n));
        }
    }
}

/// What a drive has, it has later on, whatever runs are open and whatever waker is
/// handed out.
pub proof fn lemma_met_later(needs: Set<Need>, cx: ContextView, cx_later: ContextView)
    requires
        met(needs, cx),
        cx.extends(cx_later),
    ensures
        met(needs, cx_later),
{
    assert forall|need: Need| #[trigger] needs.contains(need) implies cx_later.meets(need) by {
        assert(cx.meets(need));
    }
}

/// What a poll is handed. A stage reads inputs through the ledger, and keeps the
/// waker when it has no answer yet.
pub struct Context {
    /// The ledger of this drive.
    pub ledger: Ledger,
    /// The wake targets of this drive.
    pub wakes: Wakes,
    /// The substitution tallies of this drive.
    pub tallies: Vec<usize>,
    /// The waker this poll is handed.
    pub handed: WakerId,
    /// Whether this drive is driven from inside a poll that is revalidating.
    pub nested: bool,
}

impl View for Context {
    type V = ContextView;

    open spec fn view(&self) -> ContextView {
        ContextView {
            ledger: self.ledger@,
            targets: self.wakes@,
            tallies: self.tallies@,
            waker: self.handed,
            nested: self.nested,
        }
    }
}

impl Context {
    /// The parts are well formed and the waker is one of this drive's.
    pub open spec fn wf(&self) -> bool {
        &&& self.ledger.wf()
        &&& self.wakes.wf()
        &&& known(self.wakes@, self.handed)
    }

    /// A well-formed context is sane.
    pub proof fn lemma_sane(&self)
        requires
            self.wf(),
        ensures
            self@.sane(),
    {
        self.ledger.lemma_sane();
    }

    /// A drive in which nothing has happened, with a ledger whose number is drawn.
    pub fn new() -> (r: Context)
        ensures
            r.wf(),
            r@ == ContextView::fresh(r@.ledger.id),
    {
        Context::over(Ledger::new())
    }

    /// A drive in which nothing has happened, with a ledger numbered by whoever counts
    /// ledgers.
    pub fn numbered(id: u64) -> (r: Context)
        ensures
            r.wf(),
            r@ == ContextView::fresh(id),
    {
        Context::over(Ledger::numbered(id))
    }

    /// A drive over a ledger with no nodes.
    fn over(ledger: Ledger) -> (r: Context)
        requires
            ledger.wf(),
            ledger@ == LedgerView::fresh(ledger@.id),
        ensures
            r.wf(),
            r@ == ContextView::fresh(ledger@.id),
    {
        Context {
            ledger,
            wakes: Wakes::new(),
            tallies: Vec::new(),
            handed: WakerId::Noop,
            nested: false,
        }
    }

    /// Say whether this drive is driven from inside a poll that is revalidating. If it is, so
    /// are the polls of this drive that have no run of their own open.
    pub fn nest(&mut self, revalidating: bool)
        requires
            old(self).wf(),
        ensures
            final(self).wf(),
            final(self)@ == (ContextView { nested: revalidating, ..old(self)@ }),
            old(self)@.extends(final(self)@),
    {
        proof {
            self.lemma_sane();
        }
        self.nested = revalidating;
    }

    /// Which target this poll's waker wakes. To leave a waker behind, keep one with
    /// [`Context::keep_waker`].
    pub fn waker(&self) -> (r: WakerId)
        ensures
            r == self@.waker,
    {
        self.handed
    }

    /// A waker to keep past the end of this poll, for whoever lands the value. To drop it is
    /// to give it up.
    pub fn keep_waker(&mut self) -> (r: Waker)
        requires
            old(self).wf(),
        ensures
            final(self).wf(),
            r@ == old(self)@.waker,
            final(self)@ == (ContextView {
                targets: kept(old(self)@.targets, old(self)@.waker),
                ..old(self)@
            }),
            old(self)@.later(final(self)@),
    {
        proof {
            self.lemma_sane();
        }
        self.wakes.keep(self.handed)
    }

    /// Give up a waker that was being kept.
    pub fn release_waker(&mut self, waker: Waker)
        requires
            old(self).wf(),
        ensures
            final(self).wf(),
            final(self)@ == (ContextView {
                targets: released(old(self)@.targets, waker@),
                ..old(self)@
            }),
            old(self)@.later(final(self)@),
    {
        proof {
            self.lemma_sane();
        }
        self.wakes.release(waker);
    }

    /// Wake `waker`.
    pub fn wake(&mut self, waker: &Waker)
        requires
            old(self).wf(),
        ensures
            final(self).wf(),
            final(self)@ == (ContextView {
                targets: woken(old(self)@.targets, waker@),
                ..old(self)@
            }),
            old(self)@.later(final(self)@),
    {
        proof {
            self.lemma_sane();
        }
        self.wakes.wake(waker);
    }

    /// Wake the waker this poll is handed: a yield rather than a park.
    pub fn wake_own(&mut self)
        requires
            old(self).wf(),
        ensures
            final(self).wf(),
            final(self)@ == (ContextView {
                targets: woken(old(self)@.targets, old(self)@.waker),
                ..old(self)@
            }),
            old(self)@.later(final(self)@),
    {
        proof {
            self.lemma_sane();
        }
        self.wakes.ring(self.handed);
    }
}

/// Whether the innermost open run is of a node that was stale when the run began, so
/// that the poll exists to replace a value already ruled out. A cache inside such a
/// poll must not answer from its store. With no run of this drive open, the innermost is
/// the one that the drive is nested in; with none at all, false.
pub fn revalidating(cx: &Context) -> (r: bool)
    ensures
        r == cx@.revalidating(),
{
    if cx.ledger.open_runs() == 0 {
        cx.nested
    } else {
        cx.ledger.revalidating()
    }
}

} // verus!
