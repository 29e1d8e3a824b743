//! Composing stages into a graph.

use std::marker::PhantomData;
use std::sync::Arc;

use vstd::prelude::*;

use crate::context::{lemma_met_later, Context, ContextView, Need};
use crate::effect::{EffectPoll, StageAnswer};
use crate::key::{KeyView, MemoKey, StageId};
use crate::stage::{Stage, StagePoll};

verus! {

broadcast use crate::context::lemma_met_union, crate::context::lemma_met_insert;

/// What a join holds between its two stages.
pub enum Joint<T> {
    /// The second stage has never been handed anything.
    Cold,
    /// The second stage was handed this and has not answered over it.
    Owing(Arc<T>),
    /// The second stage has answered over what it was last handed.
    Settled,
}

/// Two stages, one after the other, which is itself a stage.
///
/// If the first has no value yet, or fails, so does the chain, and the second is not
/// polled. If the first stands by its last answer, the second's input is what it was
/// last handed, so the chain stands by its last answer too and the second is not
/// entered. The one exception is a second stage that still owes an answer over that
/// input: it is polled over it again, until it answers.
///
/// A chain does not key: its parts are memoized, not the composite.
pub struct Chain<A: Stage, B> {
    first: A,
    second: B,
    id: StageId,
    joint: Joint<A::Output>,
}

/// What the join holds after the second stage, handed `handed`, answered `polled`. Any
/// answer settles it; neither a failure nor a delay does.
pub open spec fn settled<T, U, E>(handed: Arc<T>, polled: StagePoll<U, E>) -> Joint<T> {
    match polled {
        EffectPoll::Ready(_) => Joint::Settled,
        _ => Joint::Owing(handed),
    }
}

impl<A: Stage, B> Chain<A, B> {
    /// The first stage.
    pub closed spec fn head(&self) -> A {
        self.first
    }

    /// The second stage.
    pub closed spec fn tail(&self) -> B {
        self.second
    }

    /// What the join holds.
    pub closed spec fn join(&self) -> Joint<A::Output> {
        self.joint
    }

    /// The composite's own identity.
    pub closed spec fn own_id(&self) -> StageId {
        self.id
    }

    /// Feed `first`'s output to `second`. The composite takes an id of its own.
    pub fn new(id: StageId, first: A, second: B) -> (r: Chain<A, B>)
        ensures
            r.head() == first,
            r.tail() == second,
            r.own_id() == id,
            r.join() is Cold,
    {
        Chain { first, second, id, joint: Joint::Cold }
    }

    /// The first stage.
    pub fn first(&self) -> (r: &A)
        ensures
            *r == self.head(),
    {
        &self.first
    }

    /// The second stage.
    pub fn second(&self) -> (r: &B)
        ensures
            *r == self.tail(),
    {
        &self.second
    }

    /// What the second stage still owes an answer over, if it owes one.
    fn owed(&self) -> (r: Option<Arc<A::Output>>)
        ensures
            r == (match self.join() {
                Joint::Owing(handed) => Some(handed),
                _ => None,
            }),
    {
        match &self.joint {
            Joint::Owing(handed) => Some(handed.clone()),
            _ => None,
        }
    }

    /// Note what the second stage was handed and whether it answered over it.
    fn settle<U, E>(&mut self, handed: Arc<A::Output>, polled: &StagePoll<U, E>)
        ensures
            final(self).join() == settled(handed, *polled),
            final(self).head() == old(self).head(),
            final(self).tail() == old(self).tail(),
            final(self).own_id() == old(self).own_id(),
    {
        self.joint = match polled {
            EffectPoll::Ready(_) => Joint::Settled,
            _ => Joint::Owing(handed),
        };
    }
}

impl<A: Stage, B: Stage<Input = A::Output, Error = A::Error>> Chain<A, B> {
    /// What the chain does once its first stage has answered `polled`, leaving the
    /// drive as `mid`.
    pub open spec fn follows(
        pre: Self,
        mid: ContextView,
        polled: StagePoll<A::Output, A::Error>,
        post: Self,
        cx_post: ContextView,
        answer: StagePoll<B::Output, A::Error>,
    ) -> bool {
        match polled {
            EffectPoll::Ready(StageAnswer::Computed(handed)) => {
                &&& B::polls(pre.tail(), *handed, mid, post.tail(), cx_post, answer)
                &&& post.join() == settled(handed, answer)
            },
            EffectPoll::Ready(StageAnswer::Unchanged) => match pre.join() {
                Joint::Owing(handed) => {
                    &&& B::polls(pre.tail(), *handed, mid, post.tail(), cx_post, answer)
                    &&& post.join() == settled(handed, answer)
                },
                _ => {
                    &&& answer == StagePoll::<B::Output, A::Error>::Ready(StageAnswer::Unchanged)
                    &&& post.tail() == pre.tail()
                    &&& post.join() == pre.join()
                    &&& cx_post == mid
                },
            },
            EffectPoll::Pending => {
                &&& answer == StagePoll::<B::Output, A::Error>::Pending
                &&& post.tail() == pre.tail()
                &&& post.join() == pre.join()
                &&& cx_post == mid
            },
            EffectPoll::Failed(error) => {
                &&& answer == StagePoll::<B::Output, A::Error>::Failed(error)
                &&& post.tail() == pre.tail()
                &&& post.join() == pre.join()
                &&& cx_post == mid
            },
        }
    }
}

impl<A: Stage, B: Stage<Input = A::Output, Error = A::Error>> Stage for Chain<A, B> {
    type Input = A::Input;

    type Output = B::Output;

    type Error = A::Error;

    /// A first stage that may repeat itself has handed something on, and a join that
    /// is settled has an answer behind it.
    open spec fn inv(&self) -> bool {
        &&& self.head().inv()
        &&& self.tail().inv()
        &&& self.head().may_repeat() ==> !(self.join() is Cold)
    }

    open spec fn needs(&self) -> Set<Need> {
        self.head().needs().union(self.tail().needs())
    }

    open spec fn may_repeat(&self) -> bool {
        self.tail().may_repeat() || self.join() is Settled
    }

    open spec fn identity(&self) -> StageId {
        self.own_id()
    }

    open spec fn key_of(&self, input: A::Input) -> Option<KeyView> {
        None
    }

    open spec fn polls(
        pre: Self,
        input: A::Input,
        cx: ContextView,
        post: Self,
        cx_post: ContextView,
        answer: StagePoll<B::Output, A::Error>,
    ) -> bool {
        &&& post.own_id() == pre.own_id()
        &&& exists|mid: ContextView, polled: StagePoll<A::Output, A::Error>|
            {
                &&& #[trigger] A::polls(pre.head(), input, cx, post.head(), mid, polled)
                &&& cx.later(mid)
                &&& Self::follows(pre, mid, polled, post, cx_post, answer)
            }
    }

    fn id(&self) -> (r: StageId) {
        self.id
    }

    /// Always `None`: a chain is not memoized, its parts are.
    fn memo_key(&self, input: &A::Input) -> (r: Option<MemoKey>) {
        None
    }

    fn poll_stage(&mut self, input: &A::Input, cx: &mut Context) -> (r: StagePoll<
        B::Output,
        A::Error,
    >) {
        let ghost start = cx@;
        let ghost pre = *self;
        let polled = self.first.poll_stage(input, cx);
        let ghost mid = cx@;
        let ghost answered = polled;
        proof {
            lemma_met_later(self.second.needs(), start, mid);
            assert(A::polls(pre.head(), *input, start, self.head(), mid, answered));
        }
        match polled {
            EffectPoll::Ready(StageAnswer::Computed(handed)) => {
                let r = self.second.poll_stage(&*handed, cx);
                self.settle(handed, &r);
                proof {
                    lemma_met_later(self.first.needs(), mid, cx@);
                    start.lemma_later_transitive(mid, cx@);
                    assert(Self::follows(pre, mid, answered, *self, cx@, r));
                }
                r
            },
            EffectPoll::Ready(StageAnswer::Unchanged) => match self.owed() {
                None => EffectPoll::Ready(StageAnswer::Unchanged),
                Some(handed) => {
                    let r = self.second.poll_stage(&*handed, cx);
                    self.settle(handed, &r);
                    proof {
                        lemma_met_later(self.first.needs(), mid, cx@);
                        start.lemma_later_transitive(mid, cx@);
                        assert(Self::follows(pre, mid, answered, *self, cx@, r));
                    }
                    r
                },
            },
            EffectPoll::Pending => EffectPoll::Pending,
            EffectPoll::Failed(error) => EffectPoll::Failed(error),
        }
    }
}

/// A failure from one of a chain's two halves, tagged with which. Nesting chains nests
/// the tag, so the path a failure took out is recoverable from its type.
#[derive(Clone, Copy, PartialEq, Eq, Hash, Debug)]
pub enum ChainError<A, B> {
    /// The first stage failed; the second never ran.
    First(A),
    /// The first stage produced a value and the second failed on it.
    Second(B),
}

/// A stage that raises its failures as those of a chain's first half.
pub struct FirstHalf<S, E> {
    stage: S,
    other: PhantomData<E>,
}

impl<S, E> FirstHalf<S, E> {
    /// The stage.
    pub closed spec fn inner(&self) -> S {
        self.stage
    }

    /// Tag whatever `stage` raises.
    pub fn new(stage: S) -> (r: FirstHalf<S, E>)
        ensures
            r.inner() == stage,
    {
        FirstHalf { stage, other: PhantomData }
    }
}

/// `polled`, with a failure tagged as the first half's.
pub open spec fn tagged_first<T, A, B>(polled: StagePoll<T, A>) -> StagePoll<T, ChainError<A, B>> {
    match polled {
        EffectPoll::Ready(answer) => EffectPoll::Ready(answer),
        EffectPoll::Pending => EffectPoll::Pending,
        EffectPoll::Failed(error) => EffectPoll::Failed(ChainError::First(error)),
    }
}

impl<S: Stage, E> Stage for FirstHalf<S, E> {
    type Input = S::Input;

    type Output = S::Output;

    type Error = ChainError<S::Error, E>;

    open spec fn inv(&self) -> bool {
        self.inner().inv()
    }

    open spec fn needs(&self) -> Set<Need> {
        self.inner().needs()
    }

    open spec fn may_repeat(&self) -> bool {
        self.inner().may_repeat()
    }

    open spec fn identity(&self) -> StageId {
        self.inner().identity()
    }

    open spec fn key_of(&self, input: S::Input) -> Option<KeyView> {
        self.inner().key_of(input)
    }

    open spec fn polls(
        pre: Self,
        input: S::Input,
        cx: ContextView,
        post: Self,
        cx_post: ContextView,
        answer: StagePoll<S::Output, ChainError<S::Error, E>>,
    ) -> bool {
        exists|polled: StagePoll<S::Output, S::Error>|
            {
                &&& #[trigger] S::polls(pre.inner(), input, cx, post.inner(), cx_post, polled)
                &&& answer == tagged_first::<S::Output, S::Error, E>(polled)
            }
    }

    fn id(&self) -> (r: StageId) {
        self.stage.id()
    }

    fn memo_key(&self, input: &S::Input) -> (r: Option<MemoKey>) {
        self.stage.memo_key(input)
    }

    fn poll_stage(&mut self, input: &S::Input, cx: &mut Context) -> (r: StagePoll<
        S::Output,
        ChainError<S::Error, E>,
    >) {
        let ghost start = cx@;
        let polled = self.stage.poll_stage(input, cx);
        assert(S::polls(old(self).inner(), *input, start, self.inner(), cx@, polled));
        match polled {
            EffectPoll::Ready(answer) => EffectPoll::Ready(answer),
            EffectPoll::Pending => EffectPoll::Pending,
            EffectPoll::Failed(error) => EffectPoll::Failed(ChainError::First(error)),
        }
    }
}

/// A stage that raises its failures as those of a chain's second half.
pub struct SecondHalf<S, E> {
    stage: S,
    other: PhantomData<E>,
}

impl<S, E> SecondHalf<S, E> {
    /// The stage.
    pub closed spec fn inner(&self) -> S {
        self.stage
    }

    /// Tag whatever `stage` raises.
    pub fn new(stage: S) -> (r: SecondHalf<S, E>)
        ensures
            r.inner() == stage,
    {
        SecondHalf { stage, other: PhantomData }
    }
}

/// `polled`, with a failure tagged as the second half's.
pub open spec fn tagged_second<T, A, B>(polled: StagePoll<T, B>) -> StagePoll<T, ChainError<A, B>> {
    match polled {
        EffectPoll::Ready(answer) => EffectPoll::Ready(answer),
        EffectPoll::Pending => EffectPoll::Pending,
        EffectPoll::Failed(error) => EffectPoll::Failed(ChainError::Second(error)),
    }
}

impl<S: Stage, E> Stage for SecondHalf<S, E> {
    type Input = S::Input;

    type Output = S::Output;

    type Error = ChainError<E, S::Error>;

    open spec fn inv(&self) -> bool {
        self.inner().inv()
    }

    open spec fn needs(&self) -> Set<Need> {
        self.inner().needs()
    }

    open spec fn may_repeat(&self) -> bool {
        self.inner().may_repeat()
    }

    open spec fn identity(&self) -> StageId {
        self.inner().identity()
    }

    open spec fn key_of(&self, input: S::Input) -> Option<KeyView> {
        self.inner().key_of(input)
    }

    open spec fn polls(
        pre: Self,
        input: S::Input,
        cx: ContextView,
        post: Self,
        cx_post: ContextView,
        answer: StagePoll<S::Output, ChainError<E, S::Error>>,
    ) -> bool {
        exists|polled: StagePoll<S::Output, S::Error>|
            {
                &&& #[trigger] S::polls(pre.inner(), input, cx, post.inner(), cx_post, polled)
                &&& answer == tagged_second::<S::Output, E, S::Error>(polled)
            }
    }

    fn id(&self) -> (r: StageId) {
        self.stage.id()
    }

    fn memo_key(&self, input: &S::Input) -> (r: Option<MemoKey>) {
        self.stage.memo_key(input)
    }

    fn poll_stage(&mut self, input: &S::Input, cx: &mut Context) -> (r: StagePoll<
        S::Output,
        ChainError<E, S::Error>,
    >) {
        let ghost start = cx@;
        let polled = self.stage.poll_stage(input, cx);
        assert(S::polls(old(self).inner(), *input, start, self.inner(), cx@, polled));
        match polled {
            EffectPoll::Ready(answer) => EffectPoll::Ready(answer),
            EffectPoll::Pending => EffectPoll::Pending,
            EffectPoll::Failed(error) => EffectPoll::Failed(ChainError::Second(error)),
        }
    }
}

impl<A: Stage, B: Stage<Input = A::Output>> Chain<
    FirstHalf<A, B::Error>,
    SecondHalf<B, A::Error>,
> {
    /// Feed `first`'s output to `second` where the two fail in different types: a failure
    /// comes out tagged with the half it came from.
    pub fn tagged(id: StageId, first: A, second: B) -> (r: Chain<
        FirstHalf<A, B::Error>,
        SecondHalf<B, A::Error>,
    >)
        ensures
            r.head().inner() == first,
            r.tail().inner() == second,
            r.own_id() == id,
            r.join() is Cold,
    {
        Chain::new(id, FirstHalf::new(first), SecondHalf::new(second))
    }
}

} // verus!
