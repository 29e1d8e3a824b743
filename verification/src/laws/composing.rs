//! What a layer around a stage adds to it, and what it leaves alone.

use std::convert::Infallible;
use std::sync::Arc;

use vstd::prelude::*;

use crate::boundary::{counted, Fallback, Guarded, Recover, Substitutions};
use crate::builder::{stamped, Failure, Positioned};
use crate::chain::{tagged_first, tagged_second, Chain, ChainError, FirstHalf, Joint, SecondHalf};
use crate::context::{Context, ContextView, Need};
use crate::effect::{EffectPoll, StageAnswer};
use crate::stage::{Stage, StagePoll};
use crate::track::nodes::{Backdated, TrackedStage};

verus! {

/// What a poll of a chain is: a poll of its first stage, and then of its second exactly where
/// there is something to poll it over.
///
/// A value of the first is handed to the second. Where the first stands by its last answer,
/// the second is polled over what it was last handed if it has not answered over that yet,
/// and is otherwise left alone, and the chain stands by its last answer. Where the first has
/// no value or fails, the chain does. Whoever is polled, its answer is the chain's; the join
/// remembers what was handed exactly until it is answered with a value.
pub proof fn law_a_chain_polls_its_second_over_what_it_owes<
    A: Stage,
    B: Stage<Input = A::Output, Error = A::Error>,
>(
    pre: Chain<A, B>,
    input: A::Input,
    cx: ContextView,
    post: Chain<A, B>,
    cx_post: ContextView,
    answer: StagePoll<B::Output, A::Error>,
) -> (between: (ContextView, StagePoll<A::Output, A::Error>))
    requires
        Chain::<A, B>::polls(pre, input, cx, post, cx_post, answer),
    ensures
        post.own_id() == pre.own_id(),
        ({
            let (mid, polled) = between;
            let handed = match polled {
                EffectPoll::Ready(StageAnswer::Computed(value)) => Some(value),
                EffectPoll::Ready(StageAnswer::Unchanged) => match pre.join() {
                    Joint::Owing(value) => Some(value),
                    _ => None,
                },
                _ => None,
            };
            &&& A::polls(pre.head(), input, cx, post.head(), mid, polled)
            &&& handed matches Some(value) ==> {
                &&& B::polls(pre.tail(), *value, mid, post.tail(), cx_post, answer)
                &&& answer is Ready ==> post.join() is Settled
                &&& answer is Pending ==> post.join() == Joint::Owing(value)
                &&& answer is Failed ==> post.join() == Joint::Owing(value)
            }
            &&& handed is None ==> {
                &&& post.tail() == pre.tail()
                &&& post.join() == pre.join()
                &&& cx_post == mid
                &&& polled is Ready ==> answer == StagePoll::<B::Output, A::Error>::Ready(
                    StageAnswer::Unchanged,
                )
                &&& polled is Pending ==> answer is Pending
                &&& polled matches EffectPoll::Failed(error) ==> answer == StagePoll::<
                    B::Output,
                    A::Error,
                >::Failed(error)
            }
        }),
{
    choose|mid: ContextView, polled: StagePoll<A::Output, A::Error>|
        {
            &&& #[trigger] A::polls(pre.head(), input, cx, post.head(), mid, polled)
            &&& cx.later(mid)
            &&& Chain::<A, B>::follows(pre, mid, polled, post, cx_post, answer)
        }
}

/// What a poll of a guarded stage is: a poll of the stage, and a poll of the handler exactly
/// if that failed.
///
/// Every answer but a failure passes untouched, and nothing is counted. A failure goes to the
/// handler, whose answer takes its place: a value is counted once, in the boundary's own
/// tally and no other, as far as the tally can count; a wait or a refusal is not counted.
pub proof fn law_a_boundary_handles_failures_and_counts_substitutes<
    S: Stage,
    H: Recover<S::Error, Value = S::Output>,
>(
    pre: Guarded<S, H>,
    input: S::Input,
    cx: ContextView,
    post: Guarded<S, H>,
    cx_post: ContextView,
    answer: StagePoll<S::Output, H::Escalated>,
) -> (between: (ContextView, StagePoll<S::Output, S::Error>))
    requires
        Guarded::<S, H>::polls(pre, input, cx, post, cx_post, answer),
        pre.counter().place() < cx.tallies.len(),
    ensures
        post.own_id() == pre.own_id(),
        post.counter() == pre.counter(),
        ({
            let (mid, polled) = between;
            &&& S::polls(pre.inner(), input, cx, post.inner(), mid, polled)
            &&& polled matches EffectPoll::Ready(given) ==> {
                &&& answer == StagePoll::<S::Output, H::Escalated>::Ready(given)
                &&& post.recovery() == pre.recovery()
                &&& cx_post == mid
            }
            &&& polled is Pending ==> {
                &&& answer is Pending
                &&& post.recovery() == pre.recovery()
                &&& cx_post == mid
            }
            &&& polled matches EffectPoll::Failed(failure) ==> exists|
                end: ContextView,
                handled: EffectPoll<Arc<S::Output>, H::Escalated>,
            |
                {
                    let at = pre.counter().place() as int;
                    &&& #[trigger] H::recovers(
                        pre.recovery(),
                        failure,
                        mid,
                        post.recovery(),
                        end,
                        handled,
                    )
                    &&& cx_post.ledger == end.ledger
                    &&& cx_post.targets == end.targets
                    &&& cx_post.waker == end.waker
                    &&& cx_post.nested == end.nested
                    &&& cx_post.tallies.len() == end.tallies.len()
                    &&& at < end.tallies.len()
                    &&& forall|t: int|
                        0 <= t < end.tallies.len() && t != at ==> (#[trigger] cx_post.tallies[t])
                            == end.tallies[t]
                    &&& handled matches EffectPoll::Ready(value) ==> {
                        &&& answer == StagePoll::<S::Output, H::Escalated>::Ready(
                            StageAnswer::Computed(value),
                        )
                        &&& end.tallies[at] < usize::MAX ==> cx_post.tallies[at]
                            == end.tallies[at] + 1
                        &&& end.tallies[at] == usize::MAX ==> cx_post.tallies[at] == usize::MAX
                    }
                    &&& handled is Pending ==> answer is Pending && cx_post.tallies[at]
                        == end.tallies[at]
                    &&& handled matches EffectPoll::Failed(escalated) ==> {
                        &&& answer == StagePoll::<S::Output, H::Escalated>::Failed(escalated)
                        &&& cx_post.tallies[at] == end.tallies[at]
                    }
                }
        }),
{
    let (mid, polled) = choose|mid: ContextView, polled: StagePoll<S::Output, S::Error>|
        {
            &&& #[trigger] S::polls(pre.inner(), input, cx, post.inner(), mid, polled)
            &&& cx.later(mid)
            &&& Guarded::<S, H>::follows(pre, mid, polled, post, cx_post, answer)
        };
    if let EffectPoll::Failed(failure) = polled {
        let (end, handled) = choose|
            end: ContextView,
            handled: EffectPoll<Arc<S::Output>, H::Escalated>,
        |
            {
                &&& #[trigger] H::recovers(
                    pre.recovery(),
                    failure,
                    mid,
                    post.recovery(),
                    end,
                    handled,
                )
                &&& mid.later(end)
                &&& match handled {
                    EffectPoll::Ready(value) => {
                        &&& answer == StagePoll::<S::Output, H::Escalated>::Ready(
                            StageAnswer::Computed(value),
                        )
                        &&& cx_post == counted(end, pre.counter().place() as int, 1)
                    },
                    EffectPoll::Pending => {
                        &&& answer == StagePoll::<S::Output, H::Escalated>::Pending
                        &&& cx_post == end
                    },
                    EffectPoll::Failed(escalated) => {
                        &&& answer == StagePoll::<S::Output, H::Escalated>::Failed(escalated)
                        &&& cx_post == end
                    },
                }
            };
        assert(H::recovers(pre.recovery(), failure, mid, post.recovery(), end, handled));
    }
    (mid, polled)
}

/// The fallback substitutes its one value for every failure, and stays as it is.
pub proof fn law_a_fallback_substitutes_its_value<E, V>(
    pre: Fallback<V>,
    failure: E,
    cx: ContextView,
    post: Fallback<V>,
    cx_post: ContextView,
    answer: EffectPoll<Arc<V>, Infallible>,
)
    requires
        <Fallback<V> as Recover<E>>::recovers(pre, failure, cx, post, cx_post, answer),
    ensures
        answer == EffectPoll::<Arc<V>, Infallible>::Ready(pre.substitute()),
        post == pre,
        cx_post == cx,
{
}

/// A registered stage answers as its stage does, with its own position on every failure.
pub proof fn law_a_failure_carries_its_position<S: Stage>(
    pre: Positioned<S>,
    input: S::Input,
    cx: ContextView,
    post: Positioned<S>,
    cx_post: ContextView,
    answer: StagePoll<S::Output, Failure<S::Error>>,
) -> (polled: StagePoll<S::Output, S::Error>)
    requires
        Positioned::<S>::polls(pre, input, cx, post, cx_post, answer),
    ensures
        post.position() == pre.position(),
        S::polls(pre.inner(), input, cx, post.inner(), cx_post, polled),
        polled matches EffectPoll::Ready(given) ==> answer == StagePoll::<
            S::Output,
            Failure<S::Error>,
        >::Ready(given),
        polled is Pending ==> answer is Pending,
        polled matches EffectPoll::Failed(error) ==> (answer matches EffectPoll::Failed(failure)
            && failure.position() == pre.position() && failure.raised() == error),
{
    broadcast use Failure::lemma_of;

    choose|polled: StagePoll<S::Output, S::Error>|
        {
            &&& #[trigger] S::polls(pre.inner(), input, cx, post.inner(), cx_post, polled)
            &&& answer == stamped(pre.position(), polled)
        }
}

/// A first half answers as its stage does, with every failure told as the first half's.
pub proof fn law_a_first_half_tells_whose_failure_it_is<S: Stage, E>(
    pre: FirstHalf<S, E>,
    input: S::Input,
    cx: ContextView,
    post: FirstHalf<S, E>,
    cx_post: ContextView,
    answer: StagePoll<S::Output, ChainError<S::Error, E>>,
) -> (polled: StagePoll<S::Output, S::Error>)
    requires
        FirstHalf::<S, E>::polls(pre, input, cx, post, cx_post, answer),
    ensures
        S::polls(pre.inner(), input, cx, post.inner(), cx_post, polled),
        polled matches EffectPoll::Ready(given) ==> answer == StagePoll::<
            S::Output,
            ChainError<S::Error, E>,
        >::Ready(given),
        polled is Pending ==> answer is Pending,
        polled matches EffectPoll::Failed(error) ==> answer == StagePoll::<
            S::Output,
            ChainError<S::Error, E>,
        >::Failed(ChainError::First(error)),
{
    choose|polled: StagePoll<S::Output, S::Error>|
        {
            &&& #[trigger] S::polls(pre.inner(), input, cx, post.inner(), cx_post, polled)
            &&& answer == tagged_first::<S::Output, S::Error, E>(polled)
        }
}

/// A second half answers as its stage does, with every failure told as the second half's.
pub proof fn law_a_second_half_tells_whose_failure_it_is<S: Stage, E>(
    pre: SecondHalf<S, E>,
    input: S::Input,
    cx: ContextView,
    post: SecondHalf<S, E>,
    cx_post: ContextView,
    answer: StagePoll<S::Output, ChainError<E, S::Error>>,
) -> (polled: StagePoll<S::Output, S::Error>)
    requires
        SecondHalf::<S, E>::polls(pre, input, cx, post, cx_post, answer),
    ensures
        S::polls(pre.inner(), input, cx, post.inner(), cx_post, polled),
        polled matches EffectPoll::Ready(given) ==> answer == StagePoll::<
            S::Output,
            ChainError<E, S::Error>,
        >::Ready(given),
        polled is Pending ==> answer is Pending,
        polled matches EffectPoll::Failed(error) ==> answer == StagePoll::<
            S::Output,
            ChainError<E, S::Error>,
        >::Failed(ChainError::Second(error)),
{
    choose|polled: StagePoll<S::Output, S::Error>|
        {
            &&& #[trigger] S::polls(pre.inner(), input, cx, post.inner(), cx_post, polled)
            &&& answer == tagged_second::<S::Output, E, S::Error>(polled)
        }
}

/// A boxed stage is polled as the stage in the box is.
pub proof fn law_a_box_is_its_stage<S: Stage>(
    pre: Box<S>,
    input: S::Input,
    cx: ContextView,
    post: Box<S>,
    cx_post: ContextView,
    answer: StagePoll<S::Output, S::Error>,
)
    ensures
        <Box<S> as Stage>::polls(pre, input, cx, post, cx_post, answer) <==> S::polls(
            *pre,
            input,
            cx,
            *post,
            cx_post,
            answer,
        ),
        <Box<S> as Stage>::key_of(&pre, input) == (*pre).key_of(input),
        <Box<S> as Stage>::identity(&pre) == (*pre).identity(),
        <Box<S> as Stage>::needs(&pre) == (*pre).needs(),
{
}

/// Neither a chain nor a boundary keys anything, whatever is inside, and each goes by its own
/// id. A chain needs what its two stages need; a boundary what its stage and its handler need,
/// and its tally.
pub proof fn law_a_composite_does_not_key<
    A: Stage,
    B: Stage<Input = A::Output, Error = A::Error>,
    H: Recover<A::Error, Value = A::Output>,
>(chain: Chain<A, B>, guarded: Guarded<A, H>, input: A::Input, need: Need)
    ensures
        chain.key_of(input) is None,
        chain.identity() == chain.own_id(),
        chain.needs().contains(need) <==> chain.head().needs().contains(need)
            || chain.tail().needs().contains(need),
        guarded.key_of(input) is None,
        guarded.identity() == guarded.own_id(),
        guarded.needs().contains(need) <==> guarded.inner().needs().contains(need)
            || guarded.recovery().needs().contains(need) || need == Need::Tally(
            guarded.counter().place(),
        ),
{
}

/// Neither observing a stage, nor sparing its readers, nor registering it, nor telling which
/// half it is, changes what anything is keyed by or whose it is.
pub proof fn law_a_layer_is_keyed_as_its_stage<S: Stage, E>(
    node: TrackedStage<S>,
    placed: Positioned<S>,
    first: FirstHalf<S, E>,
    second: SecondHalf<S, E>,
    input: S::Input,
    need: Need,
)
    ensures
        node.key_of(input) == node.inner().key_of(input),
        node.identity() == node.inner().identity(),
        node.needs().contains(need) <==> node.inner().needs().contains(need) || need == Need::Node(
            node.at(),
        ),
        placed.key_of(input) == placed.inner().key_of(input),
        placed.identity() == placed.inner().identity(),
        placed.needs() == placed.inner().needs(),
        first.key_of(input) == first.inner().key_of(input),
        first.identity() == first.inner().identity(),
        first.needs() == first.inner().needs(),
        second.key_of(input) == second.inner().key_of(input),
        second.identity() == second.inner().identity(),
        second.needs() == second.inner().needs(),
{
}

/// A node that spares its readers is keyed as the stage behind it is, and needs that node.
pub proof fn law_sparing_readers_is_keyed_as_its_stage<S: Stage>(
    node: Backdated<S>,
    input: S::Input,
    need: Need,
) where S::Output: crate::key::ContentHash
    ensures
        node.key_of(input) == node.below().inner().key_of(input),
        node.identity() == node.below().inner().identity(),
        node.needs().contains(need) <==> node.below().inner().needs().contains(need) || need
            == Need::Node(node.below().at()),
{
}

/// A tally starts at zero, in a place of its own, and the others stay.
pub proof fn law_a_tally_starts_at_zero(cx: &mut Context, tally: Substitutions)
    requires
        cx.wf(),
        call_ensures(Substitutions::new, (cx,), tally),
    ensures
        tally.place() == old(cx)@.tallies.len(),
        final(cx)@.tallies.len() == old(cx)@.tallies.len() + 1,
        final(cx)@.tallies[tally.place() as int] == 0,
        forall|t: int|
            0 <= t < old(cx)@.tallies.len() ==> (#[trigger] final(cx)@.tallies[t]) == old(cx)@.tallies[t],
        final(cx)@.ledger == old(cx)@.ledger,
        final(cx)@.targets == old(cx)@.targets,
        final(cx)@.waker == old(cx)@.waker,
{
}

/// Adding to a tally adds exactly that much, as far as the tally can count, to it and to no
/// other.
pub proof fn law_a_tally_counts_what_is_added(
    tally: Substitutions,
    cx: &mut Context,
    polls: usize,
)
    requires
        cx.wf(),
        tally.place() < cx@.tallies.len(),
        call_ensures(Substitutions::add, (&tally, cx, polls), ()),
    ensures
        ({
            let at = tally.place() as int;
            let was = old(cx)@.tallies;
            let is = final(cx)@.tallies;
            &&& is.len() == was.len()
            &&& was[at] + polls <= usize::MAX ==> is[at] == was[at] + polls
            &&& was[at] + polls > usize::MAX ==> is[at] == usize::MAX
            &&& forall|t: int| 0 <= t < was.len() && t != at ==> (#[trigger] is[t]) == was[t]
        }),
        final(cx)@.ledger == old(cx)@.ledger,
        final(cx)@.targets == old(cx)@.targets,
        final(cx)@.waker == old(cx)@.waker,
{
}

/// What a tally, or a boundary that counts into it, tells is what it has counted.
pub proof fn law_a_tally_tells_what_it_counted<S, H>(
    tally: Substitutions,
    guarded: Guarded<S, H>,
    cx: Context,
    count: usize,
    told: usize,
)
    requires
        call_ensures(Substitutions::count, (&tally, &cx), count),
        call_ensures(Guarded::<S, H>::substitutions, (&guarded, &cx), told),
    ensures
        count == cx@.tallies[tally.place() as int],
        told == cx@.tallies[guarded.counter().place() as int],
{
}

} // verus!
