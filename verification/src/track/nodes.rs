//! Stages and inputs as nodes of a ledger.

use vstd::prelude::*;
use vstd::std_specs::cmp::PartialEqSpec;

use crate::context::{lemma_met_later, Context, ContextView, Need};
use crate::effect::{EffectPoll, StageAnswer};
use crate::key::{ContentHash, ContentKey, KeyView, MemoKey, StageId};
use crate::stage::{Stage, StagePoll};
use crate::track::{Ledger, LedgerView, NodeId};
use crate::wake::{woken_all, Target, Wakes};

verus! {

broadcast use crate::context::lemma_met_union, crate::context::lemma_met_insert;

/// A stage whose reads are observed.
///
/// It is transparent: id and memo key are the inner stage's. A poll logs first that
/// this node was read, so that whoever polls it gets the edge whether or not this poll
/// does any work, and then opens the node's run, so that everything the inner stage
/// reads is attributed here. A poll that produced no value leaves the node owing one.
pub struct TrackedStage<S> {
    stage: S,
    node: NodeId,
}

impl<S> TrackedStage<S> {
    /// The stage behind the node.
    pub closed spec fn inner(&self) -> S {
        self.stage
    }

    /// The node.
    pub closed spec fn at(&self) -> NodeId {
        self.node
    }

    /// Wrap `stage` as a node of `ledger`, minting its id.
    pub fn new(ledger: &mut Ledger, label: &'static str, stage: S) -> (r: TrackedStage<S>)
        requires
            old(ledger).wf(),
            old(ledger)@.n() <= u32::MAX,
        ensures
            final(ledger).wf(),
            final(ledger)@ == old(ledger)@.minted(label),
            r.inner() == stage,
            r.at() == NodeId::of(old(ledger)@.id, old(ledger)@.n() as u32),
            final(ledger)@.holds(r.at()),
    {
        let node: NodeId = ledger.node(label);
        TrackedStage { stage, node }
    }

    /// This stage's node.
    pub fn node(&self) -> (r: NodeId)
        ensures
            r == self.at(),
    {
        self.node
    }

    /// The stage behind the node.
    pub fn stage(&self) -> (r: &S)
        ensures
            *r == self.inner(),
    {
        &self.stage
    }

    /// The ledger this node belongs to.
    pub fn ledger(&self) -> (r: u64)
        ensures
            r == self.at().owner(),
    {
        self.node.ledger
    }
}

/// The state in which a node's stage is polled: the node has been read and its run is
/// open.
pub open spec fn entered(cx: ContextView, node: NodeId) -> ContextView {
    cx.with_ledger(cx.ledger.observed(node.at()).opened(node.at()))
}

/// The state a poll of a node leaves, once its stage has left `ran`: the run is closed,
/// and the node owes a value if none was produced.
pub open spec fn exited(ran: ContextView, node: NodeId, produced: bool) -> ContextView {
    let closed = ran.ledger.closed(false);
    ran.with_ledger(
        if produced {
            closed
        } else {
            closed.owing(node.at())
        },
    )
}

impl<S: Stage> Stage for TrackedStage<S> {
    type Input = S::Input;

    type Output = S::Output;

    type Error = S::Error;

    open spec fn inv(&self) -> bool {
        self.inner().inv()
    }

    open spec fn needs(&self) -> Set<Need> {
        self.inner().needs().insert(Need::Node(self.at()))
    }

    open spec fn may_repeat(&self) -> bool {
        self.inner().may_repeat()
    }

    open spec fn identity(&self) -> StageId {
        self.inner().identity()
    }

    open spec fn key_of(&self, input: S::Input) -> Option<KeyView> {
        self.inner().key_of(input)
    }

    open spec fn polls(
        pre: Self,
        input: S::Input,
        cx: ContextView,
        post: Self,
        cx_post: ContextView,
        answer: StagePoll<S::Output, S::Error>,
    ) -> bool {
        &&& post.at() == pre.at()
        &&& exists|ran: ContextView|
            {
                &&& #[trigger] S::polls(
                    pre.inner(),
                    input,
                    entered(cx, pre.at()),
                    post.inner(),
                    ran,
                    answer,
                )
                &&& entered(cx, pre.at()).later(ran)
                &&& cx_post == exited(ran, pre.at(), answer is Ready)
            }
    }

    fn id(&self) -> (r: StageId) {
        self.stage.id()
    }

    fn memo_key(&self, input: &S::Input) -> (r: Option<MemoKey>) {
        self.stage.memo_key(input)
    }

    fn poll_stage(&mut self, input: &S::Input, cx: &mut Context) -> (r: StagePoll<
        S::Output,
        S::Error,
    >) {
        proof {
            cx.lemma_sane();
        }
        let ghost start = cx@;
        cx.ledger.observe_read(self.node);
        let ghost read = cx.ledger@;
        cx.ledger.open(self.node);
        let ghost inside = cx@;
        proof {
            cx.lemma_sane();
            lemma_met_later(self.stage.needs(), start, inside);
            assert(inside =~= entered(start, self.node));
        }
        let polled = self.stage.poll_stage(input, cx);
        let ghost ran = cx@;
        proof {
            read.lemma_run_is_later(self.node.at(), ran.ledger, false);
            start.ledger.lemma_later_transitive(read, ran.ledger.closed(false));
        }
        cx.ledger.close(false);
        let ghost closed = cx.ledger@;
        if !polled.is_ready() {
            cx.ledger.mark_stale(self.node);
            proof {
                start.ledger.lemma_later_transitive(closed, cx.ledger@);
            }
        }
        proof {
            assert(cx@ =~= exited(ran, self.node, polled is Ready));
            cx.lemma_sane();
            lemma_met_later(self.stage.needs(), ran, cx@);
        }
        polled
    }
}

/// A node whose readers are spared when its output does not move.
///
/// It is a [`TrackedStage`] and one comparison more: if an answer addresses to what the
/// last one addressed to, or stands by it, the node tells the ledger that it has not
/// changed, and its readers stop being stale on its account. The first answer is never
/// a cutoff, and a poll that produced no value records nothing and retracts nothing.
pub struct Backdated<S> {
    inner: TrackedStage<S>,
    last: Option<ContentKey>,
}

impl<S> Backdated<S> {
    /// The node below.
    pub closed spec fn below(&self) -> TrackedStage<S> {
        self.inner
    }

    /// The address of the last output.
    pub closed spec fn last_key(&self) -> Option<ContentKey> {
        self.last
    }

    /// Wrap `stage` as a node of `ledger` that cuts off when its output repeats.
    pub fn new(ledger: &mut Ledger, label: &'static str, stage: S) -> (r: Backdated<S>)
        requires
            old(ledger).wf(),
            old(ledger)@.n() <= u32::MAX,
        ensures
            final(ledger).wf(),
            final(ledger)@ == old(ledger)@.minted(label),
            r.below().inner() == stage,
            r.below().at() == NodeId::of(old(ledger)@.id, old(ledger)@.n() as u32),
            final(ledger)@.holds(r.below().at()),
            r.last_key() is None,
    {
        Backdated { inner: TrackedStage::new(ledger, label, stage), last: None }
    }

    /// This stage's node.
    pub fn node(&self) -> (r: NodeId)
        ensures
            r == self.below().at(),
    {
        self.inner.node()
    }

    /// The stage behind the node.
    pub fn stage(&self) -> (r: &S)
        ensures
            *r == self.below().inner(),
    {
        self.inner.stage()
    }

    /// The address of the last output, if there has been one.
    pub fn last_address(&self) -> (r: Option<ContentKey>)
        ensures
            r == self.last_key(),
    {
        self.last
    }
}

/// The address on record after an answer: that of a value, or the one there was.
pub open spec fn address_after<T: ContentHash, E>(
    last: Option<ContentKey>,
    answer: StagePoll<T, E>,
) -> Option<ContentKey> {
    match answer {
        EffectPoll::Ready(StageAnswer::Computed(value)) => Some(value.address()),
        _ => last,
    }
}

/// Whether an answer repeats the last one.
pub open spec fn repeats<T: ContentHash, E>(
    last: Option<ContentKey>,
    answer: StagePoll<T, E>,
) -> bool {
    answer is Ready && last is Some && address_after(last, answer) == last
}

impl<S: Stage> Stage for Backdated<S> where S::Output: ContentHash {
    type Input = S::Input;

    type Output = S::Output;

    type Error = S::Error;

    open spec fn inv(&self) -> bool {
        self.below().inv()
    }

    open spec fn needs(&self) -> Set<Need> {
        self.below().needs()
    }

    open spec fn may_repeat(&self) -> bool {
        self.below().may_repeat()
    }

    open spec fn identity(&self) -> StageId {
        self.below().identity()
    }

    open spec fn key_of(&self, input: S::Input) -> Option<KeyView> {
        self.below().key_of(input)
    }

    open spec fn polls(
        pre: Self,
        input: S::Input,
        cx: ContextView,
        post: Self,
        cx_post: ContextView,
        answer: StagePoll<S::Output, S::Error>,
    ) -> bool {
        &&& post.last_key() == address_after(pre.last_key(), answer)
        &&& exists|ran: ContextView|
            {
                &&& #[trigger] TrackedStage::<S>::polls(
                    pre.below(),
                    input,
                    cx,
                    post.below(),
                    ran,
                    answer,
                )
                &&& cx_post == (if repeats(pre.last_key(), answer) {
                    ran.with_ledger(ran.ledger.unchanged(pre.below().at().at()))
                } else {
                    ran
                })
            }
    }

    fn id(&self) -> (r: StageId) {
        self.inner.id()
    }

    fn memo_key(&self, input: &S::Input) -> (r: Option<MemoKey>) {
        self.inner.memo_key(input)
    }

    fn poll_stage(&mut self, input: &S::Input, cx: &mut Context) -> (r: StagePoll<
        S::Output,
        S::Error,
    >) {
        let ghost start = cx@;
        let polled = self.inner.poll_stage(input, cx);
        let ghost ran = cx@;
        // The run has closed: what is retracted now is no reader part-way through.
        let repeated = match &polled {
            EffectPoll::Ready(StageAnswer::Computed(value)) => {
                let address: ContentKey = ContentKey::of(&**value);
                let repeated = match self.last {
                    Some(last) => last == address,
                    None => false,
                };
                self.last = Some(address);
                repeated
            },
            EffectPoll::Ready(StageAnswer::Unchanged) => self.last.is_some(),
            _ => false,
        };
        if repeated {
            let node: NodeId = self.inner.node();
            cx.ledger.unchanged(node);
            proof {
                cx.lemma_sane();
                start.ledger.lemma_later_transitive(ran.ledger, cx.ledger@);
                lemma_met_later(self.inner.needs(), ran, cx@);
            }
        }
        proof {
            assert(TrackedStage::<S>::polls(
                old(self).below(),
                *input,
                start,
                self.below(),
                ran,
                polled,
            ));
            assert(repeated == repeats(old(self).last_key(), polled));
        }
        polled
    }
}

/// A value whose reads are observable: the leaf of the dependency graph.
pub struct TrackedInput<T> {
    node: NodeId,
    value: T,
}

impl<T> TrackedInput<T> {
    /// The node.
    pub closed spec fn at(&self) -> NodeId {
        self.node
    }

    /// The value.
    pub closed spec fn held(&self) -> T {
        self.value
    }

    /// A value whose reads are observed, holding `value`, as a node of `ledger`.
    pub fn new(ledger: &mut Ledger, label: &'static str, value: T) -> (r: TrackedInput<T>)
        requires
            old(ledger).wf(),
            old(ledger)@.n() <= u32::MAX,
        ensures
            final(ledger).wf(),
            final(ledger)@ == old(ledger)@.minted(label),
            r.held() == value,
            r.at() == NodeId::of(old(ledger)@.id, old(ledger)@.n() as u32),
            final(ledger)@.holds(r.at()),
    {
        let node: NodeId = ledger.node(label);
        TrackedInput { node, value }
    }

    /// This value's node.
    pub fn node(&self) -> (r: NodeId)
        ensures
            r == self.at(),
    {
        self.node
    }
}

impl<T: Clone> TrackedInput<T> {
    /// Read the value, logging the edge from whatever is running.
    pub fn get(&self, ledger: &mut Ledger) -> (r: T)
        requires
            old(ledger).wf(),
            old(ledger)@.holds(self.at()),
        ensures
            final(ledger).wf(),
            final(ledger)@ == old(ledger)@.observed(self.at().at()),
            old(ledger)@.later(final(ledger)@),
            cloned(self.held(), r),
    {
        ledger.observe_read(self.node);
        self.value.clone()
    }

    /// Read the value without logging anything. For a caller that is not a stage: a
    /// stage that peeks is a stage whose dependency is invisible.
    pub fn peek(&self) -> (r: T)
        ensures
            cloned(self.held(), r),
    {
        self.value.clone()
    }
}

/// The ledger after its node `node` has changed.
pub open spec fn changed_at(ledger: LedgerView, node: NodeId) -> LedgerView {
    ledger.changed(node.at())
}

/// The wake targets after `node` of `ledger` has changed: every subscriber is woken if
/// anything read the node.
pub open spec fn woken_for(targets: Seq<Target>, ledger: LedgerView, node: NodeId) -> Seq<Target> {
    if ledger.followers(node.at()) == Set::<u32>::empty() {
        targets
    } else {
        woken_all(targets, ledger.subscribers)
    }
}

/// Whether the revision of `node` can still move.
pub open spec fn can_change(ledger: LedgerView, node: NodeId) -> bool {
    ledger.revisions[node.at() as int] < u64::MAX
}

impl<T: PartialEq> TrackedInput<T> {
    /// Store `value`, marking every node that read this one stale, transitively, and
    /// waking the ledger's subscribers.
    ///
    /// Returns whether the value moved. A write of an equal value is not a change: it
    /// marks nothing and wakes nobody.
    pub fn set(&mut self, value: T, ledger: &mut Ledger, wakes: &mut Wakes) -> (r: bool)
        requires
            old(ledger).wf(),
            old(ledger)@.holds(old(self).at()),
            can_change(old(ledger)@, old(self).at()),
            old(wakes).wf(),
        ensures
            call_ensures(<T as PartialEq>::eq, (&old(self).held(), &value), !r),
            T::obeys_eq_spec() ==> r == !old(self).held().eq_spec(&value),
            final(self).at() == old(self).at(),
            final(ledger).wf(),
            final(wakes).wf(),
            old(ledger)@.later(final(ledger)@),
            r ==> {
                &&& final(self).held() == value
                &&& final(ledger)@ == changed_at(old(ledger)@, old(self).at())
                &&& final(wakes)@ == woken_for(old(wakes)@, old(ledger)@, old(self).at())
            },
            !r ==> {
                &&& final(self).held() == old(self).held()
                &&& final(ledger)@ == old(ledger)@
                &&& final(wakes)@ == old(wakes)@
            },
    {
        proof {
            ledger.lemma_sane();
        }
        if self.value == value {
            return false;
        }
        self.value = value;
        ledger.changed(self.node, wakes);
        true
    }
}

} // verus!
