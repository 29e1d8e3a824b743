//! Memoization: the lookup precedes the work.

use std::sync::Arc;

use vstd::prelude::*;

use crate::context::{revalidating, Context, ContextView, Need};
use crate::effect::{EffectPoll, StageAnswer};
use crate::key::{KeyView, MemoKey, StageId};
use crate::stage::{Stage, StagePoll};
use crate::store::{recorded, MemoStore};

verus! {

/// A stage with a memo in front of it.
///
/// The key is computed from the input alone, so the store is consulted before the
/// stage is polled. It is not consulted while the poll is revalidating: a key
/// describes the stage's arguments, and a stage that reads other state may have been
/// ruled stale on account of something no key can see.
///
/// Only a computed value is recorded. A stage that has no value yet leaves nothing to
/// remember, and a failure served back from a store would outlive its cause.
///
/// Beside the store stands the slot: the share this position last answered with,
/// whether it came from the stage or from the store. It is what `Unchanged` refers to.
pub struct Memo<S: Stage, St> {
    stage: S,
    store: St,
    slot: Option<Arc<S::Output>>,
}

impl<S: Stage, St> Memo<S, St> {
    /// The stage behind the memo.
    pub closed spec fn inner(&self) -> S {
        self.stage
    }

    /// The store behind the memo.
    pub closed spec fn rows(&self) -> St {
        self.store
    }

    /// The share this position last answered with.
    pub closed spec fn last(&self) -> Option<Arc<S::Output>> {
        self.slot
    }

    /// Put `store` in front of `stage`, with an empty slot.
    pub fn new(stage: S, store: St) -> (r: Memo<S, St>)
        ensures
            r.inner() == stage,
            r.rows() == store,
            r.last() is None,
    {
        Memo { stage, store, slot: None }
    }

    /// The share this position last answered with, if it has answered.
    pub fn slot(&self) -> (r: Option<Arc<S::Output>>)
        ensures
            r == self.last(),
    {
        match &self.slot {
            Some(held) => Some(held.clone()),
            None => None,
        }
    }

    /// The stage behind the memo.
    pub fn stage(&self) -> (r: &S)
        ensures
            *r == self.inner(),
    {
        &self.stage
    }

    /// The store behind the memo.
    pub fn store(&self) -> (r: &St)
        ensures
            *r == self.rows(),
    {
        &self.store
    }
}

impl<S: Stage, St: MemoStore<S::Output>> Memo<S, St> {
    /// Whether the store may serve `input` in a drive in state `cx` with `found`: with what
    /// it may answer under the input's key, and with nothing where there is no key or the
    /// poll is revalidating.
    pub open spec fn serves(
        &self,
        input: S::Input,
        cx: ContextView,
        found: Option<Arc<S::Output>>,
    ) -> bool {
        match self.inner().key_of(input) {
            Some(key) if !cx.revalidating() => self.rows().may_find(key, found),
            _ => found is None,
        }
    }

    /// What a poll does where the store served `found`.
    pub open spec fn polls_on(
        pre: Self,
        input: S::Input,
        cx: ContextView,
        found: Option<Arc<S::Output>>,
        post: Self,
        cx_post: ContextView,
        answer: StagePoll<S::Output, S::Error>,
    ) -> bool {
        match found {
            Some(hit) => {
                &&& answer == StagePoll::<S::Output, S::Error>::Ready(StageAnswer::Computed(hit))
                &&& cx_post == cx
                &&& post.inner() == pre.inner()
                &&& post.rows() == pre.rows()
                &&& post.last() == Some(hit)
            },
            None => {
                &&& S::polls(pre.inner(), input, cx, post.inner(), cx_post, answer)
                &&& match answer {
                    EffectPoll::Ready(StageAnswer::Computed(held)) => {
                        &&& post.last() == Some(held)
                        &&& match pre.inner().key_of(input) {
                            Some(key) => recorded(pre.rows(), key, held, post.rows()),
                            None => post.rows() == pre.rows(),
                        }
                    },
                    _ => {
                        &&& post.last() == pre.last()
                        &&& post.rows() == pre.rows()
                    },
                }
            },
        }
    }
}

impl<S: Stage, St: MemoStore<S::Output>> Stage for Memo<S, St> {
    type Input = S::Input;

    type Output = S::Output;

    type Error = S::Error;

    /// A position whose stage may repeat itself has an answer in its slot to stand by.
    open spec fn inv(&self) -> bool {
        &&& self.inner().inv()
        &&& self.inner().may_repeat() ==> self.last() is Some
    }

    open spec fn needs(&self) -> Set<Need> {
        self.inner().needs()
    }

    open spec fn may_repeat(&self) -> bool {
        self.inner().may_repeat()
    }

    open spec fn identity(&self) -> StageId {
        self.inner().identity()
    }

    open spec fn key_of(&self, input: S::Input) -> Option<KeyView> {
        self.inner().key_of(input)
    }

    open spec fn polls(
        pre: Self,
        input: S::Input,
        cx: ContextView,
        post: Self,
        cx_post: ContextView,
        answer: StagePoll<S::Output, S::Error>,
    ) -> bool {
        exists|found: Option<Arc<S::Output>>|
            {
                &&& #[trigger] pre.serves(input, cx, found)
                &&& Self::polls_on(pre, input, cx, found, post, cx_post, answer)
            }
    }

    /// The inner stage's id: memoization changes nothing about what anything is keyed by.
    fn id(&self) -> (r: StageId) {
        self.stage.id()
    }

    fn memo_key(&self, input: &S::Input) -> (r: Option<MemoKey>) {
        self.stage.memo_key(input)
    }

    fn poll_stage(&mut self, input: &S::Input, cx: &mut Context) -> (r: StagePoll<
        S::Output,
        S::Error,
    >) {
        let key = self.stage.memo_key(input);
        proof {
            cx.lemma_sane();
        }
        let found: Option<Arc<S::Output>> = match &key {
            Some(key) => if revalidating(cx) {
                None
            } else {
                self.store.lookup(key)
            },
            None => None,
        };
        assert(self.serves(*input, cx@, found));
        if let Some(hit) = found {
            // A hit is an answer this position gave, so the slot holds it.
            self.slot = Some(hit.clone());
            return EffectPoll::Ready(StageAnswer::Computed(hit));
        }
        match self.stage.poll_stage(input, cx) {
            EffectPoll::Ready(StageAnswer::Computed(held)) => {
                // Recorded even when the lookup was skipped, so that the next poll of
                // a node that is not stale finds what was just produced.
                if let Some(key) = &key {
                    self.store.record(key, held.clone());
                }
                self.slot = Some(held.clone());
                EffectPoll::Ready(StageAnswer::Computed(held))
            },
            EffectPoll::Ready(StageAnswer::Unchanged) => {
                assert(self.slot is Some);
                EffectPoll::Ready(StageAnswer::Unchanged)
            },
            EffectPoll::Pending => EffectPoll::Pending,
            EffectPoll::Failed(error) => EffectPoll::Failed(error),
        }
    }
}

} // verus!
