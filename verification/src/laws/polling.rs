//! What every poll keeps to, whatever it is a poll of, and what everything tells of itself.

use std::sync::Arc;

use vstd::prelude::*;

use crate::boundary::{Fallback, Guarded, Recover};
use crate::builder::{Failure, PipelineStore};
use crate::chain::{Chain, FirstHalf, SecondHalf};
use crate::context::Context;
use crate::driver::PendingWork;
use crate::effect::{EffectPoll, StageAnswer};
use crate::key::{ContentHash, ContentKey, KeyView, MemoKey, StageId};
use crate::memo::Memo;
use crate::node_set::NodeSet;
use crate::stage::{BoundStage, Stage, StagePoll};
use crate::store::{MemoMap, MemoStore};
use crate::track::nodes::{Backdated, TrackedInput, TrackedStage};
use crate::track::schedule::{Cycle, Schedule};
use crate::track::NodeId;

verus! {

/// What a poll leaves of a drive: the same ledger, with every node still there; the same
/// open runs, of which only the innermost may have seen more; the same targets, forwarding
/// as they did, and perhaps more; no tally lower; and the same waker, nested where it was.
/// It stands by its last answer only where the stage may repeat itself, and the stage may
/// after a poll only if it might before or has just computed.
pub proof fn law_a_poll_closes_every_run_it_opens<S: Stage>(
    stage: &mut S,
    input: S::Input,
    cx: &mut Context,
    r: StagePoll<S::Output, S::Error>,
)
    requires
        cx.wf(),
        call_ensures(S::poll_stage, (stage, &input, cx), r),
    ensures
        S::polls(*old(stage), input, old(cx)@, *final(stage), final(cx)@, r),
        final(cx)@.ledger.id == old(cx)@.ledger.id,
        final(cx)@.ledger.labels.len() >= old(cx)@.ledger.labels.len(),
        forall|i: int|
            0 <= i < old(cx)@.ledger.labels.len() ==> (#[trigger] final(cx)@.ledger.labels[i])
                == old(cx)@.ledger.labels[i],
        final(cx)@.ledger.running.len() == old(cx)@.ledger.running.len(),
        forall|d: int|
            #![trigger final(cx)@.ledger.running[d]]
            0 <= d < old(cx)@.ledger.running.len() ==> {
                let was = old(cx)@.ledger.running[d];
                let is = final(cx)@.ledger.running[d];
                &&& is.node == was.node
                &&& is.revalidating == was.revalidating
                &&& forall|k: u32| #[trigger] was.seen.contains(k) ==> is.seen.contains(k)
                &&& d + 1 < old(cx)@.ledger.running.len() ==> is.seen == was.seen
            },
        final(cx)@.targets.len() >= old(cx)@.targets.len(),
        forall|t: int|
            0 <= t < old(cx)@.targets.len() ==> (#[trigger] final(cx)@.targets[t]).forward
                == old(cx)@.targets[t].forward,
        final(cx)@.tallies.len() >= old(cx)@.tallies.len(),
        forall|t: int|
            0 <= t < old(cx)@.tallies.len() ==> (#[trigger] final(cx)@.tallies[t])
                >= old(cx)@.tallies[t],
        final(cx)@.waker == old(cx)@.waker,
        final(cx)@.nested == old(cx)@.nested,
        r == StagePoll::<S::Output, S::Error>::Ready(StageAnswer::Unchanged)
            ==> old(stage).may_repeat(),
        final(stage).may_repeat() && !old(stage).may_repeat() ==> (
        r matches EffectPoll::Ready(StageAnswer::Computed(_))),
{
    let was = old(cx)@;
    assert(was.ledger.later(final(cx)@.ledger));
    assert forall|i: int| 0 <= i < was.ledger.labels.len() implies (
    #[trigger] final(cx)@.ledger.labels[i]) == was.ledger.labels[i] by {
        lemma_prefix(was.ledger.labels, i);
    }
}

/// An item of a sequence is an item of whatever the sequence begins.
proof fn lemma_prefix(labels: Seq<&'static str>, i: int)
    requires
        0 <= i < labels.len(),
    ensures
        forall|longer: Seq<&'static str>| #[trigger]
            labels.is_prefix_of(longer) ==> labels.len() <= longer.len() && longer[i] == labels[i],
{
    assert forall|longer: Seq<&'static str>| #[trigger] labels.is_prefix_of(longer) implies
        labels.len() <= longer.len() && longer[i] == labels[i] by {
        assert(longer.subrange(0, labels.len() as int)[i] == labels[i]);
    }
}

/// A stage tells its identity and its keys: the key, where there is one, whole.
pub proof fn law_a_stage_tells_its_identity_and_its_keys<S: Stage>(
    stage: S,
    input: S::Input,
    id: StageId,
    key: Option<MemoKey>,
)
    requires
        call_ensures(S::id, (&stage,), id),
        call_ensures(S::memo_key, (&stage, &input), key),
    ensures
        id == stage.identity(),
        key is None <==> stage.key_of(input) is None,
        key matches Some(made) ==> stage.key_of(input) == Some(made@),
{
}

/// A run of work does what is said of it, and one that progressed leaves less of it.
pub proof fn law_work_that_progressed_leaves_less<W: PendingWork>(
    work: &mut W,
    cx: &mut Context,
    r: bool,
)
    requires
        cx.wf(),
        call_ensures(W::run_once, (work, cx), r),
    ensures
        W::runs(*old(work), old(cx)@, *final(work), final(cx)@, r),
        r ==> final(work).outstanding() < old(work).outstanding(),
{
}

/// A store records by its own rule, with nothing invented: a share that may be found
/// afterwards might have been found before, or is the one recorded.
pub proof fn law_no_store_invents<V, St: MemoStore<V>>(
    store: &mut St,
    key: MemoKey,
    value: Arc<V>,
    k: KeyView,
    share: Arc<V>,
)
    requires
        call_ensures(<St as MemoStore<V>>::record, (store, &key, value), ()),
        final(store).may_find(k, Some(share)),
    ensures
        St::records(*old(store), key@, value, *final(store)),
        old(store).may_find(k, Some(share)) || (k == key@ && share == value),
{
}

/// What a store answers is what it may find.
pub proof fn law_a_store_answers_what_it_may_find<V, St: MemoStore<V>>(
    store: St,
    key: MemoKey,
    found: Option<Arc<V>>,
)
    requires
        call_ensures(<St as MemoStore<V>>::lookup, (&store, &key), found),
    ensures
        store.may_find(key@, found),
{
}

/// A map tells how many keys it finds something under, and that it is empty exactly if it
/// finds nothing.
pub proof fn law_a_map_tells_how_much_it_holds<V>(map: MemoMap<V>, len: usize, is_empty: bool)
    requires
        call_ensures(MemoMap::<V>::len, (&map,), len),
        call_ensures(MemoMap::<V>::is_empty, (&map,), is_empty),
    ensures
        len == map@.dom().len(),
        is_empty <==> forall|k: KeyView| #[trigger] map.may_find(k, None),
        forall|k: KeyView| #[trigger]
            map@.dom().contains(k) <==> map.may_find(k, Some(map@[k])),
{
    if forall|k: KeyView| #[trigger] map.may_find(k, None) {
        assert forall|k: KeyView| !map@.contains_key(k) by {
            assert(map.may_find(k, None));
        }
        assert(map@ =~= Map::<KeyView, Arc<V>>::empty());
    }
}

/// A set tells what it holds: how much, whether it holds a node, and all of it, each once and
/// in order.
pub proof fn law_a_set_tells_what_it_holds(
    set: NodeSet,
    x: u32,
    holds: bool,
    count: usize,
    items: Vec<u32>,
    copy: NodeSet,
)
    requires
        call_ensures(NodeSet::contains, (&set, x), holds),
        call_ensures(NodeSet::count, (&set,), count),
        call_ensures(NodeSet::items, (&set,), items),
        call_ensures(NodeSet::duplicate, (&set,), copy),
    ensures
        holds <==> set@.contains(x),
        count == items@.len(),
        holds <==> exists|i: int| 0 <= i < items@.len() && (#[trigger] items@[i]) == x,
        forall|i: int, j: int|
            0 <= i < j < items@.len() ==> (#[trigger] items@[i]) < (#[trigger] items@[j]),
        copy@.contains(x) <==> set@.contains(x),
{
    set.lemma_seq();
    if exists|i: int| 0 <= i < items@.len() && (#[trigger] items@[i]) == x {
        let i = choose|i: int| 0 <= i < items@.len() && (#[trigger] items@[i]) == x;
        assert(set.seq().to_set().contains(set.seq()[i]));
    }
    if set@.contains(x) {
        assert(set.seq().to_set().contains(x));
        let i = choose|i: int| 0 <= i < set.seq().len() && set.seq()[i] == x;
        assert(items@[i] == x);
    }
}

/// What goes into a set is in it, what goes out is not, and the rest stays; each tells
/// whether it made a difference.
pub proof fn law_a_set_takes_in_and_lets_go(
    into: &mut NodeSet,
    out_of: &mut NodeSet,
    x: u32,
    added: bool,
    gone: bool,
    y: u32,
)
    requires
        call_ensures(NodeSet::insert, (into, x), added),
        call_ensures(NodeSet::remove, (out_of, x), gone),
    ensures
        final(into)@.contains(y) <==> y == x || old(into)@.contains(y),
        added <==> !old(into)@.contains(x),
        final(out_of)@.contains(y) <==> y != x && old(out_of)@.contains(y),
        gone <==> old(out_of)@.contains(x),
{
}

/// Whether an answer is a value or none yet is told as it is.
pub proof fn law_an_answer_tells_what_it_is<T, E>(
    polled: EffectPoll<T, E>,
    is_pending: bool,
    is_ready: bool,
)
    requires
        call_ensures(EffectPoll::<T, E>::is_pending, (&polled,), is_pending),
        call_ensures(EffectPoll::<T, E>::is_ready, (&polled,), is_ready),
    ensures
        is_pending <==> polled is Pending,
        is_ready <==> polled is Ready,
{
}

/// An answer made of a value holds that value, and one made of none stands by the last.
pub proof fn law_an_answer_is_made_as_it_says<T, E>(
    value: T,
    computed: EffectPoll<StageAnswer<T>, E>,
    unchanged: EffectPoll<StageAnswer<T>, E>,
)
    requires
        call_ensures(StageAnswer::<T>::computed::<E>, (value,), computed),
        call_ensures(StageAnswer::<T>::unchanged::<E>, (), unchanged),
    ensures
        computed matches EffectPoll::Ready(StageAnswer::Computed(held)) && held == value,
        unchanged matches EffectPoll::Ready(StageAnswer::Unchanged),
{
}

/// An id and an address are the number that they were made of.
pub proof fn law_ids_and_addresses_are_their_numbers<T: ContentHash>(
    index: usize,
    id: StageId,
    index_read: usize,
    bits: u128,
    address: ContentKey,
    bits_read: u128,
    value: T,
    of_value: ContentKey,
)
    requires
        call_ensures(StageId::at, (index,), id),
        call_ensures(StageId::index, (&id,), index_read),
        call_ensures(ContentKey::from_u128, (bits,), address),
        call_ensures(ContentKey::to_u128, (&address,), bits_read),
        call_ensures(ContentKey::of::<T>, (&value,), of_value),
    ensures
        index_read == index,
        id.position() == index,
        bits_read == bits,
        address.number() == bits,
        of_value == value.address(),
{
}

/// A key copied says the same, stage and inputs.
pub proof fn law_a_key_copied_says_the_same(key: MemoKey, copy: MemoKey)
    requires
        call_ensures(MemoKey::duplicate, (&key,), copy),
    ensures
        copy@.stage == key@.stage,
        copy@.inputs == key@.inputs,
{
}

/// A memo is made with an empty slot, and tells what it holds.
pub proof fn law_a_memo_tells_what_it_holds<S: Stage, St>(
    stage: S,
    store: St,
    memo: Memo<S, St>,
    later: Memo<S, St>,
    slot: Option<Arc<S::Output>>,
    inner: &S,
    rows: &St,
)
    requires
        call_ensures(Memo::<S, St>::new, (stage, store), memo),
        call_ensures(Memo::<S, St>::slot, (&later,), slot),
        call_ensures(Memo::<S, St>::stage, (&later,), inner),
        call_ensures(Memo::<S, St>::store, (&later,), rows),
    ensures
        memo.inner() == stage,
        memo.rows() == store,
        memo.last() is None,
        slot == later.last(),
        *inner == later.inner(),
        *rows == later.rows(),
{
}

/// A chain is made of its two stages with nothing handed on yet, and tells what they are.
pub proof fn law_a_chain_is_made_of_its_stages<
    A: Stage,
    B: Stage<Input = A::Output, Error = A::Error>,
>(
    id: StageId,
    first: A,
    second: B,
    chain: Chain<A, B>,
    later: Chain<A, B>,
    head: &A,
    tail: &B,
)
    requires
        call_ensures(Chain::<A, B>::new, (id, first, second), chain),
        call_ensures(Chain::<A, B>::first, (&later,), head),
        call_ensures(Chain::<A, B>::second, (&later,), tail),
    ensures
        chain.head() == first,
        chain.tail() == second,
        chain.own_id() == id,
        chain.join() is Cold,
        *head == later.head(),
        *tail == later.tail(),
{
}

/// A chain of stages that fail differently is a chain of the two, each telling its half.
pub proof fn law_a_chain_of_halves_is_made_of_its_stages<A: Stage, B: Stage<Input = A::Output>>(
    id: StageId,
    first: A,
    second: B,
    chain: Chain<FirstHalf<A, B::Error>, SecondHalf<B, A::Error>>,
)
    requires
        call_ensures(
            Chain::<FirstHalf<A, B::Error>, SecondHalf<B, A::Error>>::tagged,
            (id, first, second),
            chain,
        ),
    ensures
        chain.head().inner() == first,
        chain.tail().inner() == second,
        chain.own_id() == id,
        chain.join() is Cold,
{
}

/// A boundary is made of what it is given, and counts where it is told to.
pub proof fn law_a_boundary_is_made_of_what_it_is_given<S, H, V>(
    id: StageId,
    stage: S,
    handler: H,
    tally: crate::boundary::Substitutions,
    guarded: Guarded<S, H>,
    inner: &S,
    value: Arc<V>,
    fallback: Fallback<V>,
)
    requires
        call_ensures(Guarded::<S, H>::tallied, (id, stage, handler, &tally), guarded),
        call_ensures(Guarded::<S, H>::stage, (&guarded,), inner),
        call_ensures(Fallback::<V>::new, (value,), fallback),
    ensures
        guarded.own_id() == id,
        guarded.inner() == stage,
        guarded.recovery() == handler,
        guarded.counter() == tally,
        *inner == stage,
        fallback.substitute() == value,
{
}

/// A boundary that counts alone counts from zero, in a tally of its own.
pub proof fn law_a_boundary_of_its_own_counts_from_zero<S, H>(
    id: StageId,
    stage: S,
    handler: H,
    cx: &mut Context,
    guarded: Guarded<S, H>,
)
    requires
        cx.wf(),
        call_ensures(Guarded::<S, H>::new, (id, stage, handler, cx), guarded),
    ensures
        guarded.own_id() == id,
        guarded.inner() == stage,
        guarded.recovery() == handler,
        guarded.counter().place() == old(cx)@.tallies.len(),
        final(cx)@.tallies.len() == old(cx)@.tallies.len() + 1,
        final(cx)@.tallies[old(cx)@.tallies.len() as int] == 0,
        forall|t: int|
            0 <= t < old(cx)@.tallies.len() ==> (#[trigger] final(cx)@.tallies[t])
                == old(cx)@.tallies[t],
        final(cx)@.ledger == old(cx)@.ledger,
        final(cx)@.targets == old(cx)@.targets,
{
}

/// A failure tells its position and the error raised.
pub proof fn law_a_failure_tells_where_and_what<E>(failure: Failure<E>, at: usize, error: &E)
    requires
        call_ensures(Failure::<E>::at, (&failure,), at),
        call_ensures(Failure::<E>::error, (&failure,), error),
    ensures
        at == failure.position(),
        *error == failure.raised(),
{
}

/// A node tells which node it is and what is behind it.
pub proof fn law_a_node_tells_what_it_is<S, T>(
    observed: TrackedStage<S>,
    node: NodeId,
    stage: &S,
    owner: u64,
    sparing: Backdated<S>,
    sparing_node: NodeId,
    sparing_stage: &S,
    address: Option<ContentKey>,
    input: TrackedInput<T>,
    input_node: NodeId,
)
    requires
        call_ensures(TrackedStage::<S>::node, (&observed,), node),
        call_ensures(TrackedStage::<S>::stage, (&observed,), stage),
        call_ensures(TrackedStage::<S>::ledger, (&observed,), owner),
        call_ensures(Backdated::<S>::node, (&sparing,), sparing_node),
        call_ensures(Backdated::<S>::stage, (&sparing,), sparing_stage),
        call_ensures(Backdated::<S>::last_address, (&sparing,), address),
        call_ensures(TrackedInput::<T>::node, (&input,), input_node),
    ensures
        node == observed.at(),
        *stage == observed.inner(),
        owner == observed.at().owner(),
        sparing_node == sparing.below().at(),
        *sparing_stage == sparing.below().inner(),
        address == sparing.last_key(),
        input_node == input.at(),
{
}

/// A schedule and a refusal tell all they hold, and a schedule is empty exactly if nothing
/// was stale.
pub proof fn law_a_schedule_tells_all_it_holds(
    schedule: Schedule,
    to_poll: &Vec<NodeId>,
    order: &Vec<NodeId>,
    is_empty: bool,
    cycle: Cycle,
    nodes: &Vec<NodeId>,
)
    requires
        call_ensures(Schedule::to_poll, (&schedule,), to_poll),
        call_ensures(Schedule::order, (&schedule,), order),
        call_ensures(Schedule::is_empty, (&schedule,), is_empty),
        call_ensures(Cycle::nodes, (&cycle,), nodes),
    ensures
        to_poll@ == schedule.polled(),
        order@ == schedule.ordered(),
        is_empty <==> order@.len() == 0,
        nodes@ == cycle.stuck(),
{
}

/// A stage with its input bound is polled over that input, and keyed by it.
pub proof fn law_a_bound_stage_is_polled_over_its_input<'a, S: Stage>(
    bound: BoundStage<'a, S>,
    key: Option<MemoKey>,
    cx: &mut Context,
    r: StagePoll<S::Output, S::Error>,
)
    requires
        cx.wf(),
        call_ensures(BoundStage::<'a, S>::memo_key, (&bound,), key),
        call_ensures(BoundStage::<'a, S>::poll_effect, (bound, cx), r),
    ensures
        key is None <==> old(bound.stage).key_of(*bound.input) is None,
        key matches Some(made) ==> old(bound.stage).key_of(*bound.input) == Some(made@),
        S::polls(*old(bound.stage), *bound.input, old(cx)@, *final(bound.stage), final(cx)@, r),
{
}

/// A handler does what is said of it, with the drive later as a poll leaves it.
pub proof fn law_a_handler_does_what_is_said_of_it<E, H: Recover<E>>(
    handler: &mut H,
    failure: E,
    cx: &mut Context,
    r: EffectPoll<Arc<H::Value>, H::Escalated>,
)
    requires
        cx.wf(),
        call_ensures(<H as Recover<E>>::recover, (handler, failure, cx), r),
    ensures
        H::recovers(*old(handler), failure, old(cx)@, *final(handler), final(cx)@, r),
        final(cx)@.ledger.id == old(cx)@.ledger.id,
        final(cx)@.ledger.running.len() == old(cx)@.ledger.running.len(),
        final(cx)@.waker == old(cx)@.waker,
        final(cx)@.nested == old(cx)@.nested,
{
}

/// A handle that a store hands out finds exactly what the store finds, at every position.
pub proof fn law_a_handle_finds_what_its_store_finds<V, G: PipelineStore<V>>(
    whole: G,
    at: StageId,
    part: G,
    k: KeyView,
    found: Option<Arc<V>>,
)
    requires
        call_ensures(<G as PipelineStore<V>>::seam, (&whole, at), part),
    ensures
        part.may_find(k, found) <==> whole.may_find(k, found),
{
}

/// A new set holds nothing, a set is empty exactly if it holds nothing, and the first of a
/// set is the least that it holds.
pub proof fn law_a_set_begins_with_its_least(
    new: NodeSet,
    set: NodeSet,
    is_empty: bool,
    first: u32,
    x: u32,
)
    requires
        call_ensures(NodeSet::new, (), new),
        call_ensures(NodeSet::is_empty, (&set,), is_empty),
        call_ensures(NodeSet::first, (&set,), first),
        set@.contains(x),
    ensures
        !new@.contains(x),
        !is_empty,
        first <= x,
        set@.contains(first),
{
}

} // verus!
