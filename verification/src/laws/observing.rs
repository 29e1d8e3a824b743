//! What observing a stage makes of its reads, and what repeating an answer spares.

use vstd::prelude::*;
use vstd::std_specs::cmp::PartialEqSpec;

use crate::context::ContextView;
use crate::effect::{EffectPoll, StageAnswer};
use crate::key::ContentHash;
use crate::laws::driving::lemma_follows_where_read;
use crate::stage::{Stage, StagePoll};
use crate::track::nodes::{entered, exited, Backdated, TrackedInput, TrackedStage};
use crate::track::plain::law_a_retraction_takes_back_what_no_longer_holds;
use crate::track::{Ledger, LedgerView, NodeId, Reason};
use crate::wake::{woken_all, Wakes};

verus! {

/// What a poll of a node does, between the poll of its stage and its own end.
///
/// The stage is polled with the node logged as read by the run around it, with a run of the
/// node open that has seen nothing, and with the node's reasons taken. Once the stage has
/// answered, whatever it answered, that run is gone; what it was seen to read is what the
/// node reads, and a run that read nothing leaves the reads alone; and the node owes a value
/// exactly if none came. Nothing else is touched.
pub proof fn law_a_poll_of_a_node_is_a_run_of_its_stage<S: Stage>(
    pre: TrackedStage<S>,
    input: S::Input,
    cx: ContextView,
    post: TrackedStage<S>,
    cx_post: ContextView,
    answer: StagePoll<S::Output, S::Error>,
) -> (states: (ContextView, ContextView))
    requires
        TrackedStage::<S>::polls(pre, input, cx, post, cx_post, answer),
        cx.sane(),
        pre.at().owner() == cx.ledger.id,
        pre.at().at() < cx.ledger.labels.len(),
    ensures
        post.at() == pre.at(),
        ({
            let (inside, ran) = states;
            let i = pre.at().at() as int;
            let depth = cx.ledger.running.len() as int;
            &&& S::polls(pre.inner(), input, inside, post.inner(), ran, answer)
            // What the stage is polled in.
            &&& inside.targets == cx.targets
            &&& inside.tallies == cx.tallies
            &&& inside.waker == cx.waker
            &&& inside.nested == cx.nested
            &&& inside.ledger.id == cx.ledger.id
            &&& inside.ledger.labels == cx.ledger.labels
            &&& inside.ledger.reads == cx.ledger.reads
            &&& inside.ledger.revisions == cx.ledger.revisions
            &&& inside.ledger.subscribers == cx.ledger.subscribers
            &&& inside.ledger.reasons.len() == cx.ledger.reasons.len()
            &&& forall|r: Reason| !(#[trigger] inside.ledger.reasons[i].contains(r))
            &&& forall|m: int|
                0 <= m < cx.ledger.reasons.len() && m != i ==> (#[trigger] inside.ledger.reasons[m])
                    == cx.ledger.reasons[m]
            &&& inside.ledger.running.len() == depth + 1
            &&& inside.ledger.running[depth].node == i
            &&& forall|k: u32| !(#[trigger] inside.ledger.running[depth].seen.contains(k))
            &&& inside.ledger.running[depth].revalidating <==> exists|r: Reason| #[trigger]
                cx.ledger.reasons[i].contains(r)
            &&& forall|d: int|
                0 <= d < depth ==> {
                    &&& (#[trigger] inside.ledger.running[d]).node == cx.ledger.running[d].node
                    &&& inside.ledger.running[d].revalidating == cx.ledger.running[d].revalidating
                    &&& d + 1 < depth ==> inside.ledger.running[d].seen
                        == cx.ledger.running[d].seen
                    &&& d + 1 == depth ==> inside.ledger.running[d].seen
                        == cx.ledger.running[d].seen.insert(i as u32)
                }
            // What the poll leaves, once the stage has left `ran`.
            &&& ran.ledger.running.len() == depth + 1
            &&& ran.ledger.running[depth].node == i
            &&& cx_post.targets == ran.targets
            &&& cx_post.tallies == ran.tallies
            &&& cx_post.waker == ran.waker
            &&& cx_post.nested == ran.nested
            &&& cx_post.ledger.id == ran.ledger.id
            &&& cx_post.ledger.labels == ran.ledger.labels
            &&& cx_post.ledger.revisions == ran.ledger.revisions
            &&& cx_post.ledger.subscribers == ran.ledger.subscribers
            &&& cx_post.ledger.running.len() == depth
            &&& forall|d: int|
                0 <= d < depth ==> (#[trigger] cx_post.ledger.running[d]) == ran.ledger.running[d]
            &&& cx_post.ledger.reads.len() == ran.ledger.reads.len()
            &&& (exists|k: u32| #[trigger] ran.ledger.running[depth].seen.contains(k))
                ==> cx_post.ledger.reads[i] == ran.ledger.running[depth].seen
            &&& (forall|k: u32| !(#[trigger] ran.ledger.running[depth].seen.contains(k)))
                ==> cx_post.ledger.reads[i] == ran.ledger.reads[i]
            &&& forall|m: int|
                0 <= m < ran.ledger.reads.len() && m != i ==> (#[trigger] cx_post.ledger.reads[m])
                    == ran.ledger.reads[m]
            &&& cx_post.ledger.reasons.len() == ran.ledger.reasons.len()
            &&& answer is Ready ==> cx_post.ledger.reasons[i] == ran.ledger.reasons[i]
            &&& !(answer is Ready) ==> cx_post.ledger.reasons[i] == ran.ledger.reasons[i].insert(
                Reason::Owed,
            )
            &&& forall|m: int|
                0 <= m < ran.ledger.reasons.len() && m != i ==> (
                #[trigger] cx_post.ledger.reasons[m]) == ran.ledger.reasons[m]
        }),
        cx_post.ledger.sane(),
{
    let inside = entered(cx, pre.at());
    let ran = choose|ran: ContextView|
        {
            &&& #[trigger] S::polls(pre.inner(), input, inside, post.inner(), ran, answer)
            &&& inside.later(ran)
            &&& cx_post == exited(ran, pre.at(), answer is Ready)
        };
    let read = cx.ledger.observed(pre.at().at());
    let i = pre.at().at() as int;
    let depth = cx.ledger.running.len() as int;
    lemma_observed_sane(cx.ledger, pre.at().at());
    read.lemma_run_is_later(pre.at().at(), ran.ledger, false);
    assert(inside.ledger == read.opened(pre.at().at()));
    crate::track::plain::law_a_node_is_stale_for_any_reason(cx.ledger, pre.at().at());
    if forall|k: u32| !(#[trigger] ran.ledger.running[depth].seen.contains(k)) {
        assert(ran.ledger.running[depth].seen =~= Set::<u32>::empty());
    }
    let closed = ran.ledger.closed(false);
    assert(closed.sane());
    lemma_owing_sane(closed, pre.at().at());
    (inside, ran)
}

/// A read seen is of a node that the ledger has.
proof fn lemma_observed_sane(v: LedgerView, i: u32)
    requires
        v.sane(),
        i < v.labels.len(),
    ensures
        v.observed(i).sane(),
        v.observed(i).running.len() == v.running.len(),
{
    let after = v.observed(i);
    assert forall|d: int| 0 <= d < after.running.len() implies (#[trigger] after.running[d]).node
        < after.n() by {
        assert(v.running[d].node < v.n());
    }
    assert forall|d: int, k: u32|
        0 <= d < after.running.len() && (#[trigger] after.running[d].seen.contains(k)) implies k
        < after.n() by {
        assert(k == i || v.running[d].seen.contains(k));
    }
}

/// A debt is about no other node.
proof fn lemma_owing_sane(v: LedgerView, i: u32)
    requires
        v.sane(),
        i < v.labels.len(),
    ensures
        v.owing(i).sane(),
{
    let after = v.owing(i);
    assert forall|m: int, k: u32|
        0 <= m < after.n() && (#[trigger] after.reasons[m].contains(Reason::Read(k))) implies k
        < after.n() by {
        assert(v.reasons[m].contains(Reason::Read(k)));
    }
}

/// After a poll of a node whose run was seen to read something, the node's reads are what
/// that run was seen to read, whatever the poll answered: a value, none yet, or a failure.
pub proof fn law_a_nodes_reads_are_what_its_run_read_whatever_the_answer<S: Stage>(
    pre: TrackedStage<S>,
    input: S::Input,
    cx: ContextView,
    post: TrackedStage<S>,
    cx_post: ContextView,
    answer: StagePoll<S::Output, S::Error>,
)
    requires
        TrackedStage::<S>::polls(pre, input, cx, post, cx_post, answer),
        cx.sane(),
        pre.at().owner() == cx.ledger.id,
        pre.at().at() < cx.ledger.labels.len(),
    ensures
        exists|inside: ContextView, ran: ContextView|
            {
                &&& #[trigger] S::polls(pre.inner(), input, inside, post.inner(), ran, answer)
                &&& ran.ledger.running.len() == cx.ledger.running.len() + 1
                &&& ran.ledger.running.last().node == pre.at().at()
                &&& ran.ledger.running.last().seen != Set::<u32>::empty()
                    ==> cx_post.ledger.reads[pre.at().at() as int]
                    == ran.ledger.running.last().seen
            },
{
    let (inside, ran) = law_a_poll_of_a_node_is_a_run_of_its_stage(
        pre,
        input,
        cx,
        post,
        cx_post,
        answer,
    );
    let seen = ran.ledger.running.last().seen;
    if seen != Set::<u32>::empty() {
        assert(exists|k: u32| seen.contains(k)) by {
            if forall|k: u32| !seen.contains(k) {
                assert(seen =~= Set::<u32>::empty());
            }
        }
        let k = choose|k: u32| seen.contains(k);
        assert(ran.ledger.running[cx.ledger.running.len() as int].seen.contains(k));
    }
    assert(S::polls(pre.inner(), input, inside, post.inner(), ran, answer));
}

/// What a poll of a node that spares its readers does, beyond a poll of the node.
///
/// A value's address goes on record. Every other answer, none yet and a failure as well as
/// one that stands by the last, leaves the address on record as it was. Where there was an
/// address and a value, computed or standing, has the same, the node is told unchanged;
/// everywhere else nothing more happens.
pub proof fn law_the_address_on_record_is_the_last_values<S: Stage>(
    pre: Backdated<S>,
    input: S::Input,
    cx: ContextView,
    post: Backdated<S>,
    cx_post: ContextView,
    answer: StagePoll<S::Output, S::Error>,
) -> (ran: ContextView) where S::Output: ContentHash
    requires
        Backdated::<S>::polls(pre, input, cx, post, cx_post, answer),
    ensures
        TrackedStage::<S>::polls(pre.below(), input, cx, post.below(), ran, answer),
        answer is Pending ==> post.last_key() == pre.last_key(),
        answer is Failed ==> post.last_key() == pre.last_key(),
        answer == StagePoll::<S::Output, S::Error>::Ready(StageAnswer::Unchanged)
            ==> post.last_key() == pre.last_key(),
        answer matches EffectPoll::Ready(StageAnswer::Computed(value)) ==> post.last_key() == Some(
            (*value).address(),
        ),
        cx_post.targets == ran.targets,
        cx_post.tallies == ran.tallies,
        cx_post.waker == ran.waker,
        cx_post.nested == ran.nested,
        answer is Pending ==> cx_post.ledger == ran.ledger,
        answer is Failed ==> cx_post.ledger == ran.ledger,
        pre.last_key() is None ==> cx_post.ledger == ran.ledger,
        answer == StagePoll::<S::Output, S::Error>::Ready(StageAnswer::Unchanged)
            && pre.last_key() is Some ==> cx_post.ledger == ran.ledger.unchanged(
            pre.below().at().at(),
        ),
        answer matches EffectPoll::Ready(StageAnswer::Computed(value)) ==> {
            &&& pre.last_key() == Some((*value).address()) ==> cx_post.ledger
                == ran.ledger.unchanged(pre.below().at().at())
            &&& pre.last_key() != Some((*value).address()) ==> cx_post.ledger == ran.ledger
        },
{
    let ran = choose|ran: ContextView|
        {
            &&& #[trigger] TrackedStage::<S>::polls(
                pre.below(),
                input,
                cx,
                post.below(),
                ran,
                answer,
            )
            &&& cx_post == (if crate::track::nodes::repeats(pre.last_key(), answer) {
                ran.with_ledger(ran.ledger.unchanged(pre.below().at().at()))
            } else {
                ran
            })
        };
    ran
}

/// If two values with the same address are answered with only valueless polls between them,
/// however many, the second takes the node back as a reason of its readers: nothing that
/// reads it, or is reading it, is stale on its account afterwards.
pub proof fn law_an_equal_answer_is_a_cutoff_across_valueless_polls<S: Stage>(
    stages: Seq<Backdated<S>>,
    inputs: Seq<S::Input>,
    before: Seq<ContextView>,
    after: Seq<ContextView>,
    answers: Seq<StagePoll<S::Output, S::Error>>,
    m: u32,
) where S::Output: ContentHash
    requires
        answers.len() >= 2,
        stages.len() == answers.len() + 1,
        inputs.len() == answers.len(),
        before.len() == answers.len(),
        after.len() == answers.len(),
        forall|i: int|
            #![trigger answers[i]]
            0 <= i < answers.len() ==> Backdated::<S>::polls(
                stages[i],
                inputs[i],
                before[i],
                stages[i + 1],
                after[i],
                answers[i],
            ),
        forall|i: int| 0 < i < answers.len() - 1 ==> !((#[trigger] answers[i]) is Ready),
        answers.first() matches EffectPoll::Ready(StageAnswer::Computed(one)) && (
        answers.last() matches EffectPoll::Ready(StageAnswer::Computed(two)) && (*one).address()
            == (*two).address()),
        before.last().sane(),
        stages[answers.len() - 1].below().at().owner() == before.last().ledger.id,
        stages[answers.len() - 1].below().at().at() < before.last().ledger.labels.len(),
        m < after.last().ledger.labels.len(),
        after.last().ledger.reads[m as int].contains(stages[answers.len() - 1].below().at().at())
            || exists|d: int|
            0 <= d < after.last().ledger.running.len() && (
            #[trigger] after.last().ledger.running[d]).node == m
                && after.last().ledger.running[d].seen.contains(
                stages[answers.len() - 1].below().at().at(),
            ),
    ensures
        !after.last().ledger.reasons[m as int].contains(
            Reason::Read(stages[answers.len() - 1].below().at().at()),
        ),
{
    let last = answers.len() - 1;
    let at = stages[last].below().at().at();
    lemma_address_is_kept(stages, inputs, before, after, answers, last);
    assert(answers[last] == answers.last());
    let ran = law_the_address_on_record_is_the_last_values(
        stages[last],
        inputs[last],
        before[last],
        stages[last + 1],
        after[last],
        answers[last],
    );
    let (inside, through) = law_a_poll_of_a_node_is_a_run_of_its_stage(
        stages[last].below(),
        inputs[last],
        before[last],
        stages[last + 1].below(),
        ran,
        answers[last],
    );
    law_a_retraction_takes_back_what_no_longer_holds(ran.ledger, at, m, Reason::Read(at));
    if !ran.ledger.reads[m as int].contains(at) {
        let d = choose|d: int|
            0 <= d < after.last().ledger.running.len() && (
            #[trigger] after.last().ledger.running[d]).node == m
                && after.last().ledger.running[d].seen.contains(at);
        assert(ran.ledger.running[d].node == m);
    }
}

/// The address of the first answer is on record before poll `i`.
proof fn lemma_address_is_kept<S: Stage>(
    stages: Seq<Backdated<S>>,
    inputs: Seq<S::Input>,
    before: Seq<ContextView>,
    after: Seq<ContextView>,
    answers: Seq<StagePoll<S::Output, S::Error>>,
    i: int,
) where S::Output: ContentHash
    requires
        0 < i < answers.len(),
        forall|i: int|
            #![trigger answers[i]]
            0 <= i < answers.len() ==> Backdated::<S>::polls(
                stages[i],
                inputs[i],
                before[i],
                stages[i + 1],
                after[i],
                answers[i],
            ),
        forall|i: int| 0 < i < answers.len() - 1 ==> !((#[trigger] answers[i]) is Ready),
        answers.first() matches EffectPoll::Ready(StageAnswer::Computed(_)),
    ensures
        answers.first() matches EffectPoll::Ready(StageAnswer::Computed(one)) && stages[i].last_key()
            == Some((*one).address()),
    decreases i,
{
    let h = i - 1;
    assert(answers[h] == answers[h]);
    let ran = law_the_address_on_record_is_the_last_values(
        stages[h],
        inputs[h],
        before[h],
        stages[h + 1],
        after[h],
        answers[h],
    );
    if h > 0 {
        lemma_address_is_kept(stages, inputs, before, after, answers, h);
    }
}

/// A stage is wrapped as the next node of the ledger.
pub proof fn law_a_stage_is_wrapped_as_the_next_node<S>(
    ledger: &mut Ledger,
    label: &'static str,
    stage: S,
    r: TrackedStage<S>,
)
    requires
        ledger.wf(),
        call_ensures(TrackedStage::<S>::new, (ledger, label, stage), r),
    ensures
        final(ledger)@ == old(ledger)@.minted(label),
        r.inner() == stage,
        r.at().owner() == old(ledger)@.id,
        old(ledger)@.labels.len() <= u32::MAX ==> r.at().at() == old(ledger)@.labels.len(),
{
    broadcast use NodeId::lemma_of;

}

/// A stage that spares its readers is wrapped as the next node, and has no address on record.
pub proof fn law_a_sparing_stage_is_wrapped_with_no_address<S>(
    ledger: &mut Ledger,
    label: &'static str,
    stage: S,
    r: Backdated<S>,
)
    requires
        ledger.wf(),
        call_ensures(Backdated::<S>::new, (ledger, label, stage), r),
    ensures
        final(ledger)@ == old(ledger)@.minted(label),
        r.below().inner() == stage,
        r.below().at().owner() == old(ledger)@.id,
        old(ledger)@.labels.len() <= u32::MAX ==> r.below().at().at() == old(ledger)@.labels.len(),
        r.last_key() is None,
{
    broadcast use NodeId::lemma_of;

}

/// An input is made as the next node, holding what it was given.
pub proof fn law_an_input_is_made_as_the_next_node<T>(
    ledger: &mut Ledger,
    label: &'static str,
    value: T,
    r: TrackedInput<T>,
)
    requires
        ledger.wf(),
        call_ensures(TrackedInput::<T>::new, (ledger, label, value), r),
    ensures
        final(ledger)@ == old(ledger)@.minted(label),
        r.held() == value,
        r.at().owner() == old(ledger)@.id,
        old(ledger)@.labels.len() <= u32::MAX ==> r.at().at() == old(ledger)@.labels.len(),
{
    broadcast use NodeId::lemma_of;

}

/// To read an input is to log the read of its node; to peek at it is not.
pub proof fn law_reading_an_input_is_logged<T: Clone>(
    input: TrackedInput<T>,
    ledger: &mut Ledger,
    got: T,
    peeked: T,
)
    requires
        ledger.wf(),
        call_ensures(TrackedInput::<T>::get, (&input, ledger), got),
        call_ensures(TrackedInput::<T>::peek, (&input,), peeked),
    ensures
        final(ledger)@ == old(ledger)@.observed(input.at().at()),
        cloned(input.held(), got),
        cloned(input.held(), peeked),
{
}

/// A write changes an input's node exactly if `==` says that the value moved, and otherwise
/// nothing. It wakes the ledger's subscribers if anything reads the input, and nobody if
/// nothing does.
pub proof fn law_writing_an_input_changes_exactly_what_moved<T: PartialEq>(
    input: &mut TrackedInput<T>,
    value: T,
    ledger: &mut Ledger,
    wakes: &mut Wakes,
    r: bool,
)
    requires
        ledger.wf(),
        wakes.wf(),
        input.at().at() < ledger@.labels.len(),
        call_ensures(TrackedInput::<T>::set, (input, value, ledger, wakes), r),
    ensures
        call_ensures(<T as PartialEq>::eq, (&old(input).held(), &value), !r),
        T::obeys_eq_spec() ==> (r <==> !old(input).held().eq_spec(&value)),
        final(input).at() == old(input).at(),
        !r ==> {
            &&& final(input).held() == old(input).held()
            &&& final(ledger)@ == old(ledger)@
            &&& final(wakes)@ == old(wakes)@
        },
        r ==> {
            let was = old(ledger)@;
            let i = old(input).at().at();
            &&& final(input).held() == value
            &&& final(ledger)@ == was.changed(i)
            &&& (forall|m: int|
                0 <= m < was.labels.len() ==> !(#[trigger] was.reads[m]).contains(i)) && (forall|
                d: int,
            | 0 <= d < was.running.len() ==> !(#[trigger] was.running[d]).seen.contains(i))
                ==> final(wakes)@ == old(wakes)@
            &&& (exists|m: int, k: u32|
                #![trigger was.reads[m].contains(k)]
                0 <= m < was.labels.len() && k == i && was.reads[m].contains(k)) ==> final(wakes)@
                == woken_all(old(wakes)@, was.subscribers)
        },
{
    ledger.lemma_sane();
    if r {
        lemma_follows_where_read(old(ledger)@, old(input).at().at());
    }
}

} // verus!
