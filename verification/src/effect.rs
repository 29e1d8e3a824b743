//! What a poll answers.

use vstd::prelude::*;

verus! {

/// The answer of one poll.
#[derive(Clone, Copy, PartialEq, Eq, Hash, Debug)]
pub enum EffectPoll<T, E> {
    /// The current value. Not "finished": a later poll may answer differently.
    Ready(T),
    /// No value yet. Whoever answers this owes the poll's waker a wake.
    Pending,
    /// The typed error channel.
    Failed(E),
}

impl<T, E> EffectPoll<T, E> {
    /// Whether there is no value yet.
    pub fn is_pending(&self) -> (r: bool)
        ensures
            r == (self is Pending),
    {
        match self {
            EffectPoll::Pending => true,
            _ => false,
        }
    }

    /// Whether there is a value.
    pub fn is_ready(&self) -> (r: bool)
        ensures
            r == (self is Ready),
    {
        match self {
            EffectPoll::Ready(_) => true,
            _ => false,
        }
    }
}

/// Which answer a stage gave.
#[derive(Clone, Copy, PartialEq, Eq, Hash, Debug)]
pub enum StageAnswer<T> {
    /// A value, produced now.
    Computed(T),
    /// The value this position last gave still stands. It carries nothing, so it
    /// hands the next stage no input to be polled over.
    Unchanged,
}

impl<T> StageAnswer<T> {
    /// A poll that answered with a value.
    pub fn computed<E>(value: T) -> (r: EffectPoll<StageAnswer<T>, E>)
        ensures
            r == EffectPoll::<StageAnswer<T>, E>::Ready(StageAnswer::Computed(value)),
    {
        EffectPoll::Ready(StageAnswer::Computed(value))
    }

    /// A poll that stands by the last answer.
    pub fn unchanged<E>() -> (r: EffectPoll<StageAnswer<T>, E>)
        ensures
            r == EffectPoll::<StageAnswer<T>, E>::Ready(StageAnswer::Unchanged),
    {
        EffectPoll::Ready(StageAnswer::Unchanged)
    }
}

} // verus!
