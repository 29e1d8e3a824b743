//! The stage contract, and the shape every layer here composes.

use std::sync::Arc;

use vstd::prelude::*;

use crate::context::{met, Context, ContextView, Need};
use crate::effect::{EffectPoll, StageAnswer};
use crate::key::{KeyView, MemoKey, StageId};

verus! {

/// What a poll of a stage answers: a share of its output, or that the last one stands.
pub type StagePoll<T, E> = EffectPoll<StageAnswer<Arc<T>>, E>;

/// What a memo key says, where there is one.
pub open spec fn key_view(key: Option<MemoKey>) -> Option<KeyView> {
    match key {
        Some(key) => Some(key@),
        None => None,
    }
}

/// One step of a pipeline.
///
/// A stage is a function-shaped effect: bound to an input, it is polled, and answers
/// a value, that there is none yet, or a typed failure. Most stages answer with a
/// value on the first poll; the others owe the poll's waker a wake.
///
/// What a stage does is its own, and is said by [`Stage::polls`]. What it holds of a
/// drive is [`Stage::needs`], and what it keeps to between polls is [`Stage::inv`]. What
/// every stage keeps to stands in the contract of [`Stage::poll_stage`].
pub trait Stage: Sized {
    /// What the stage consumes.
    type Input;

    /// What the stage produces: the value, not the share a poll answers with.
    type Output;

    /// The typed error channel.
    type Error;

    /// What holds of the stage between polls.
    open spec fn inv(&self) -> bool {
        true
    }

    /// What the stage holds of the drive it is polled in.
    open spec fn needs(&self) -> Set<Need> {
        Set::empty()
    }

    /// Whether this stage may answer that its last answer stands. False of a stage
    /// that has not been polled yet.
    open spec fn may_repeat(&self) -> bool {
        false
    }

    /// The stage's identity.
    open spec fn identity(&self) -> StageId {
        StageId::of(0)
    }

    /// The memo key of an input.
    open spec fn key_of(&self, input: Self::Input) -> Option<KeyView> {
        None
    }

    /// Whether a poll of `pre` over `input` in state `cx` may leave the stage as `post`
    /// and the drive as `cx_post`, answering `answer`.
    open spec fn polls(
        pre: Self,
        input: Self::Input,
        cx: ContextView,
        post: Self,
        cx_post: ContextView,
        answer: StagePoll<Self::Output, Self::Error>,
    ) -> bool {
        true
    }

    /// This stage's identity.
    fn id(&self) -> (r: StageId)
        ensures
            r == self.identity(),
    ;

    /// The memo key for this input, computed without running the stage. `None` is a
    /// refusal to key: the answer is then neither looked up nor recorded.
    fn memo_key(&self, input: &Self::Input) -> (r: Option<MemoKey>)
        ensures
            key_view(r) == self.key_of(*input),
    ;

    /// Poll for the current output given `input`.
    ///
    /// A stage closes every run it opens. It answers `Unchanged` only where it may
    /// repeat itself, and only an answer that it computed lets it do so: a position
    /// that has given no answer has none to stand by.
    fn poll_stage(&mut self, input: &Self::Input, cx: &mut Context) -> (r: StagePoll<
        Self::Output,
        Self::Error,
    >)
        requires
            old(cx).wf(),
            old(self).inv(),
            met(old(self).needs(), old(cx)@),
        ensures
            final(cx).wf(),
            old(cx)@.later(final(cx)@),
            final(self).inv(),
            met(final(self).needs(), final(cx)@),
            Self::polls(*old(self), *input, old(cx)@, *final(self), final(cx)@, r),
            r == StagePoll::<Self::Output, Self::Error>::Ready(StageAnswer::Unchanged) ==> old(
                self,
            ).may_repeat(),
            final(self).may_repeat() ==> old(self).may_repeat() || (r matches EffectPoll::Ready(
                StageAnswer::Computed(_),
            )),
    ;
}

/// Whether `stage` can be polled in a drive in state `cx`.
pub open spec fn fits<S: Stage>(stage: S, cx: ContextView) -> bool {
    stage.inv() && met(stage.needs(), cx)
}

/// A boxed stage is the same stage.
impl<T: Stage> Stage for Box<T> {
    type Input = T::Input;

    type Output = T::Output;

    type Error = T::Error;

    open spec fn inv(&self) -> bool {
        (**self).inv()
    }

    open spec fn needs(&self) -> Set<Need> {
        (**self).needs()
    }

    open spec fn may_repeat(&self) -> bool {
        (**self).may_repeat()
    }

    open spec fn identity(&self) -> StageId {
        (**self).identity()
    }

    open spec fn key_of(&self, input: T::Input) -> Option<KeyView> {
        (**self).key_of(input)
    }

    open spec fn polls(
        pre: Self,
        input: T::Input,
        cx: ContextView,
        post: Self,
        cx_post: ContextView,
        answer: StagePoll<T::Output, T::Error>,
    ) -> bool {
        T::polls(*pre, input, cx, *post, cx_post, answer)
    }

    fn id(&self) -> (r: StageId) {
        (**self).id()
    }

    fn memo_key(&self, input: &T::Input) -> (r: Option<MemoKey>) {
        (**self).memo_key(input)
    }

    fn poll_stage(&mut self, input: &T::Input, cx: &mut Context) -> (r: StagePoll<
        T::Output,
        T::Error,
    >) {
        (**self).poll_stage(input, cx)
    }
}

/// A stage with its input bound: what is left to do is to poll it.
pub struct BoundStage<'a, S: Stage> {
    /// The stage.
    pub stage: &'a mut S,
    /// The input it is bound to.
    pub input: &'a S::Input,
}

impl<'a, S: Stage> BoundStage<'a, S> {
    /// Bind `input` to `stage`. Runs nothing.
    pub fn new(stage: &'a mut S, input: &'a S::Input) -> (r: BoundStage<'a, S>)
        ensures
            *r.stage == *old(stage),
            *final(r.stage) == *final(stage),
            *r.input == *input,
    {
        BoundStage { stage, input }
    }

    /// The memo key of the bound pair, if it has one.
    pub fn memo_key(&self) -> (r: Option<MemoKey>)
        ensures
            key_view(r) == old(self.stage).key_of(*self.input),
    {
        self.stage.memo_key(self.input)
    }

    /// Poll the pair: a poll of the stage over the input, and nothing else.
    pub fn poll_effect(self, cx: &mut Context) -> (r: StagePoll<S::Output, S::Error>)
        requires
            old(cx).wf(),
            fits(*self.stage, old(cx)@),
        ensures
            final(cx).wf(),
            old(cx)@.later(final(cx)@),
            fits(*final(self.stage), final(cx)@),
            S::polls(*old(self.stage), *self.input, old(cx)@, *final(self.stage), final(cx)@, r),
            r == StagePoll::<S::Output, S::Error>::Ready(StageAnswer::Unchanged)
                ==> old(self.stage).may_repeat(),
            final(self.stage).may_repeat() ==> old(self.stage).may_repeat() || (r matches EffectPoll::Ready(
                StageAnswer::Computed(_),
            )),
    {
        self.stage.poll_stage(self.input, cx)
    }
}

} // verus!
