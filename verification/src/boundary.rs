//! An error boundary around a stage, and the memo key it refuses.

use std::convert::Infallible;
use std::sync::Arc;

use vstd::prelude::*;

use crate::context::{lemma_met_later, met, Context, ContextView, Need};
use crate::driver::{completes, run_to_completion, DriveError, PendingWork};
use crate::effect::{EffectPoll, StageAnswer};
use crate::key::{KeyView, MemoKey, StageId};
use crate::stage::{fits, Stage, StagePoll};

verus! {

broadcast use crate::context::lemma_met_union, crate::context::lemma_met_insert;

/// What a scope does about a failure: substitute a value, wait for one, or decline and
/// raise the failure in the scope's own error channel.
pub trait Recover<E>: Sized {
    /// What a substitute is a share of.
    type Value;

    /// What a declined failure becomes.
    type Escalated;

    /// What the handler holds of the drive it works in.
    open spec fn needs(&self) -> Set<Need> {
        Set::empty()
    }

    /// Whether handling `failure` may leave `post` and `cx_post`, answering `answer`.
    open spec fn recovers(
        pre: Self,
        failure: E,
        cx: ContextView,
        post: Self,
        cx_post: ContextView,
        answer: EffectPoll<Arc<Self::Value>, Self::Escalated>,
    ) -> bool {
        true
    }

    /// Handle `failure`. The context is the one the failed poll was handed, so a
    /// handler that waits registers on the same waker.
    fn recover(&mut self, failure: E, cx: &mut Context) -> (r: EffectPoll<
        Arc<Self::Value>,
        Self::Escalated,
    >)
        requires
            old(cx).wf(),
            met(old(self).needs(), old(cx)@),
        ensures
            final(cx).wf(),
            old(cx)@.later(final(cx)@),
            met(final(self).needs(), final(cx)@),
            Self::recovers(*old(self), failure, old(cx)@, *final(self), final(cx)@, r),
    ;
}

/// The handler that substitutes one value for every failure and lets none escape.
pub struct Fallback<V> {
    value: Arc<V>,
}

impl<V> Fallback<V> {
    /// The substitute.
    pub closed spec fn substitute(&self) -> Arc<V> {
        self.value
    }

    /// Substitute `value` for every failure.
    pub fn new(value: Arc<V>) -> (r: Fallback<V>)
        ensures
            r.substitute() == value,
    {
        Fallback { value }
    }
}

impl<E, V> Recover<E> for Fallback<V> {
    type Value = V;

    type Escalated = Infallible;

    open spec fn recovers(
        pre: Self,
        failure: E,
        cx: ContextView,
        post: Self,
        cx_post: ContextView,
        answer: EffectPoll<Arc<V>, Infallible>,
    ) -> bool {
        &&& answer == EffectPoll::<Arc<V>, Infallible>::Ready(pre.substitute())
        &&& post == pre
        &&& cx_post == cx
    }

    fn recover(&mut self, failure: E, cx: &mut Context) -> (r: EffectPoll<Arc<V>, Infallible>) {
        proof {
            cx.lemma_sane();
        }
        EffectPoll::Ready(self.value.clone())
    }
}

/// A tally of substituted answers, counted across every boundary that shares it. It is
/// one of a drive's tallies; it never goes down, so a caller asks about a pass by
/// taking a difference.
#[derive(Clone, Copy, PartialEq, Eq, Structural, Hash, Debug)]
pub struct Substitutions {
    at: usize,
}

/// The tally at `at` of a drive in state `cx` with `polls` more counted, up to what a
/// `usize` can count.
pub open spec fn counted(cx: ContextView, at: int, polls: nat) -> ContextView {
    ContextView {
        tallies: cx.tallies.update(at, crate::watch::capped(cx.tallies[at] as nat + polls)),
        ..cx
    }
}

impl Substitutions {
    /// Which of the drive's tallies this is.
    pub closed spec fn place(self) -> usize {
        self.at
    }

    /// Whether this is a tally of a drive in state `cx`.
    pub open spec fn in_drive(self, cx: ContextView) -> bool {
        self.place() < cx.tallies.len()
    }

    /// What the tally counts in state `cx`.
    pub open spec fn counts(self, cx: ContextView) -> usize {
        cx.tallies[self.place() as int]
    }

    /// A fresh tally at zero.
    pub fn new(cx: &mut Context) -> (r: Substitutions)
        requires
            old(cx).wf(),
        ensures
            final(cx).wf(),
            old(cx)@.later(final(cx)@),
            final(cx)@ == (ContextView { tallies: old(cx)@.tallies.push(0), ..old(cx)@ }),
            r.place() == old(cx)@.tallies.len(),
            r.in_drive(final(cx)@),
    {
        proof {
            cx.lemma_sane();
        }
        let at: usize = cx.tallies.len();
        cx.tallies.push(0);
        Substitutions { at }
    }

    /// How many substitutions have been counted here.
    pub fn count(&self, cx: &Context) -> (r: usize)
        requires
            self.in_drive(cx@),
        ensures
            r == self.counts(cx@),
    {
        cx.tallies[self.at]
    }

    /// Count `polls` more.
    pub fn add(&self, cx: &mut Context, polls: usize)
        requires
            old(cx).wf(),
            self.in_drive(old(cx)@),
        ensures
            final(cx).wf(),
            old(cx)@.later(final(cx)@),
            final(cx)@ == counted(old(cx)@, self.place() as int, polls as nat),
    {
        proof {
            cx.lemma_sane();
        }
        let was: usize = cx.tallies[self.at];
        let now: usize = if polls <= usize::MAX - was { was + polls } else { usize::MAX };
        cx.tallies.set(self.at, now);
    }
}

/// A stage with an error boundary around it.
///
/// A value, and the lack of one, pass through untouched. A failure is handed to the
/// handler, and its answer takes the place of the stage's.
///
/// A boundary refuses to key. A substituted value under a key that never moves would be
/// a permanent fallback that looks like a correct answer, and whether a poll will
/// substitute is not known before it runs. Its id is its own: same stage, same input,
/// different answer.
pub struct Guarded<S, H> {
    id: StageId,
    stage: S,
    handler: H,
    tally: Substitutions,
}

impl<S, H> Guarded<S, H> {
    /// The boundary's own identity.
    pub closed spec fn own_id(&self) -> StageId {
        self.id
    }

    /// The stage inside the boundary.
    pub closed spec fn inner(&self) -> S {
        self.stage
    }

    /// The handler.
    pub closed spec fn recovery(&self) -> H {
        self.handler
    }

    /// The tally.
    pub closed spec fn counter(&self) -> Substitutions {
        self.tally
    }

    /// Guard `stage` with `handler`, counting its substitutions alone.
    pub fn new(id: StageId, stage: S, handler: H, cx: &mut Context) -> (r: Guarded<S, H>)
        requires
            old(cx).wf(),
        ensures
            final(cx).wf(),
            old(cx)@.later(final(cx)@),
            final(cx)@ == (ContextView { tallies: old(cx)@.tallies.push(0), ..old(cx)@ }),
            r.own_id() == id,
            r.inner() == stage,
            r.recovery() == handler,
            r.counter().place() == old(cx)@.tallies.len(),
            r.counter().in_drive(final(cx)@),
    {
        let tally: Substitutions = Substitutions::new(cx);
        Guarded::tallied(id, stage, handler, &tally)
    }

    /// Guard `stage` with `handler`, counting its substitutions into a tally that this
    /// boundary shares.
    pub fn tallied(id: StageId, stage: S, handler: H, tally: &Substitutions) -> (r: Guarded<S, H>)
        ensures
            r.own_id() == id,
            r.inner() == stage,
            r.recovery() == handler,
            r.counter() == *tally,
    {
        Guarded { id, stage, handler, tally: *tally }
    }

    /// The stage inside the boundary.
    pub fn stage(&self) -> (r: &S)
        ensures
            *r == self.inner(),
    {
        &self.stage
    }

    /// How many polls have answered with a substituted value: this boundary's, or the
    /// shared total where the tally is shared.
    pub fn substitutions(&self, cx: &Context) -> (r: usize)
        requires
            self.counter().in_drive(cx@),
        ensures
            r == self.counter().counts(cx@),
    {
        self.tally.count(cx)
    }
}

impl<S: Stage, H: Recover<S::Error, Value = S::Output>> Guarded<S, H> {
    /// What the boundary makes of a failure: the handler's answer, counted if it is a
    /// value.
    pub open spec fn recovers_from(
        pre: Self,
        failure: S::Error,
        mid: ContextView,
        post: Self,
        cx_post: ContextView,
        answer: StagePoll<S::Output, H::Escalated>,
    ) -> bool {
        exists|end: ContextView, handled: EffectPoll<Arc<S::Output>, H::Escalated>|
            {
                &&& #[trigger] H::recovers(
                    pre.recovery(),
                    failure,
                    mid,
                    post.recovery(),
                    end,
                    handled,
                )
                &&& mid.later(end)
                &&& match handled {
                    EffectPoll::Ready(value) => {
                        &&& answer == StagePoll::<S::Output, H::Escalated>::Ready(
                            StageAnswer::Computed(value),
                        )
                        &&& cx_post == counted(end, pre.counter().place() as int, 1)
                    },
                    EffectPoll::Pending => {
                        &&& answer == StagePoll::<S::Output, H::Escalated>::Pending
                        &&& cx_post == end
                    },
                    EffectPoll::Failed(escalated) => {
                        &&& answer == StagePoll::<S::Output, H::Escalated>::Failed(escalated)
                        &&& cx_post == end
                    },
                }
            }
    }

    /// What the boundary does once its stage has answered `polled`.
    pub open spec fn follows(
        pre: Self,
        mid: ContextView,
        polled: StagePoll<S::Output, S::Error>,
        post: Self,
        cx_post: ContextView,
        answer: StagePoll<S::Output, H::Escalated>,
    ) -> bool {
        match polled {
            EffectPoll::Ready(value) => {
                &&& answer == StagePoll::<S::Output, H::Escalated>::Ready(value)
                &&& post.recovery() == pre.recovery()
                &&& cx_post == mid
            },
            EffectPoll::Pending => {
                &&& answer == StagePoll::<S::Output, H::Escalated>::Pending
                &&& post.recovery() == pre.recovery()
                &&& cx_post == mid
            },
            EffectPoll::Failed(failure) => Self::recovers_from(
                pre,
                failure,
                mid,
                post,
                cx_post,
                answer,
            ),
        }
    }
}

impl<S: Stage, H: Recover<S::Error, Value = S::Output>> Stage for Guarded<S, H> {
    type Input = S::Input;

    type Output = S::Output;

    type Error = H::Escalated;

    open spec fn inv(&self) -> bool {
        self.inner().inv()
    }

    open spec fn needs(&self) -> Set<Need> {
        self.inner().needs().union(self.recovery().needs()).insert(
            Need::Tally(self.counter().place()),
        )
    }

    open spec fn may_repeat(&self) -> bool {
        self.inner().may_repeat()
    }

    open spec fn identity(&self) -> StageId {
        self.own_id()
    }

    open spec fn key_of(&self, input: S::Input) -> Option<KeyView> {
        None
    }

    open spec fn polls(
        pre: Self,
        input: S::Input,
        cx: ContextView,
        post: Self,
        cx_post: ContextView,
        answer: StagePoll<S::Output, H::Escalated>,
    ) -> bool {
        &&& post.own_id() == pre.own_id()
        &&& post.counter() == pre.counter()
        &&& exists|mid: ContextView, polled: StagePoll<S::Output, S::Error>|
            {
                &&& #[trigger] S::polls(pre.inner(), input, cx, post.inner(), mid, polled)
                &&& cx.later(mid)
                &&& Self::follows(pre, mid, polled, post, cx_post, answer)
            }
    }

    fn id(&self) -> (r: StageId) {
        self.id
    }

    /// Always `None`: a substituted answer must not be cached, and a stage that cannot
    /// say which of its answers will be substituted must not be cached at all.
    fn memo_key(&self, input: &S::Input) -> (r: Option<MemoKey>) {
        None
    }

    fn poll_stage(&mut self, input: &S::Input, cx: &mut Context) -> (r: StagePoll<
        S::Output,
        H::Escalated,
    >) {
        let ghost start = cx@;
        let ghost pre = *self;
        let polled = self.stage.poll_stage(input, cx);
        let ghost mid = cx@;
        let ghost answered = polled;
        proof {
            lemma_met_later(self.handler.needs(), start, mid);
            assert(S::polls(pre.inner(), *input, start, self.inner(), mid, answered));
        }
        match polled {
            EffectPoll::Ready(value) => EffectPoll::Ready(value),
            EffectPoll::Pending => EffectPoll::Pending,
            EffectPoll::Failed(failure) => {
                let handled = self.handler.recover(failure, cx);
                let ghost end = cx@;
                let ghost out = handled;
                proof {
                    start.lemma_later_transitive(mid, end);
                    lemma_met_later(self.stage.needs(), mid, end);
                    assert(H::recovers(pre.recovery(), failure, mid, self.recovery(), end, out));
                }
                match handled {
                    EffectPoll::Ready(value) => {
                        self.tally.add(cx, 1);
                        proof {
                            start.lemma_later_transitive(end, cx@);
                            lemma_met_later(self.stage.needs(), end, cx@);
                            lemma_met_later(self.handler.needs(), end, cx@);
                        }
                        EffectPoll::Ready(StageAnswer::Computed(value))
                    },
                    EffectPoll::Pending => EffectPoll::Pending,
                    EffectPoll::Failed(escalated) => EffectPoll::Failed(escalated),
                }
            },
        }
    }
}

/// [`run_to_completion`], reporting how many of the answers it drove through were
/// substituted: what `tally` counted during this drive.
pub fn run_to_completion_counted<S: Stage, W: PendingWork>(
    stage: &mut S,
    input: &S::Input,
    work: &mut W,
    tally: &Substitutions,
    cx: &mut Context,
) -> (r: (Result<StageAnswer<Arc<S::Output>>, DriveError<S::Error>>, usize))
    requires
        old(cx).wf(),
        fits(*old(stage), old(cx)@),
        met(old(work).needs(), old(cx)@),
        tally.in_drive(old(cx)@),
    ensures
        final(cx).wf(),
        old(cx)@.later(final(cx)@),
        fits(*final(stage), final(cx)@),
        met(final(work).needs(), final(cx)@),
        completes(
            *old(stage),
            *input,
            *old(work),
            old(cx)@,
            *final(stage),
            *final(work),
            final(cx)@,
            r.0,
        ),
        r.1 == tally.counts(final(cx)@) - tally.counts(old(cx)@),
{
    let before: usize = tally.count(cx);
    let driven = run_to_completion(stage, input, work, cx);
    assert(tally.counts(old(cx)@) <= tally.counts(cx@));
    let after: usize = tally.count(cx);
    (driven, after - before)
}

} // verus!
