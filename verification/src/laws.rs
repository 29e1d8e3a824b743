//! What holds of the layers across polls and across each other.

use std::sync::Arc;

use vstd::prelude::*;
use vstd::std_specs::cmp::PartialEqSpec;

use crate::boundary::{Guarded, Recover};
use crate::builder::{stamped, Failure, Positioned};
use crate::chain::{Chain, Joint};
use crate::context::ContextView;
use crate::effect::{EffectPoll, StageAnswer};
use crate::key::{ContentHash, KeyView, StageId};
use crate::memo::Memo;
use crate::pipeline::{gated, marked, version_after};
use crate::stage::{Stage, StagePoll};
use crate::store::{MemoMap, MemoStore};
use crate::track::nodes::{entered, repeats, TrackedStage};
use crate::track::Reason;
use crate::wake::{
    any_path, counted, kept, known, on_path, released, taken, times, woken, Target, WakerId,
};
use crate::watch::{leaves, missing, path_left, probed, WakePath, WakeReport};

pub mod composing;
pub mod driving;
pub mod graphs;
pub mod observing;
pub mod polling;
pub mod remembering;
pub mod verdicts;
pub mod waking;

verus! {

/// A poll that the store is bound to answer never enters the stage.
pub proof fn law_a_hit_never_enters_the_stage<S: Stage, St: MemoStore<S::Output>>(
    pre: Memo<S, St>,
    input: S::Input,
    cx: ContextView,
    post: Memo<S, St>,
    cx_post: ContextView,
    answer: StagePoll<S::Output, S::Error>,
)
    requires
        !pre.serves(input, cx, None),
        Memo::<S, St>::polls(pre, input, cx, post, cx_post, answer),
    ensures
        post.inner() == pre.inner(),
        cx_post == cx,
        exists|hit: Arc<S::Output>|
            {
                &&& #[trigger] pre.serves(input, cx, Some(hit))
                &&& answer == StagePoll::<S::Output, S::Error>::Ready(StageAnswer::Computed(hit))
            },
{
    let found = choose|found: Option<Arc<S::Output>>|
        {
            &&& #[trigger] pre.serves(input, cx, found)
            &&& Memo::<S, St>::polls_on(pre, input, cx, found, post, cx_post, answer)
        };
    assert(found is Some);
    assert(pre.serves(input, cx, Some(found->0)));
}

/// What a map recorded it serves: once an input has been computed, an input of the same
/// key is answered from the map, unless the poll is revalidating.
pub proof fn law_a_computed_answer_is_served_again<S: Stage>(
    pre: Memo<S, MemoMap<S::Output>>,
    input: S::Input,
    cx: ContextView,
    post: Memo<S, MemoMap<S::Output>>,
    cx_post: ContextView,
    value: Arc<S::Output>,
    next: S::Input,
    cx_next: ContextView,
)
    requires
        Memo::<S, MemoMap<S::Output>>::polls(
            pre,
            input,
            cx,
            post,
            cx_post,
            EffectPoll::Ready(StageAnswer::Computed(value)),
        ),
        pre.inner().key_of(input) is Some,
        post.inner().key_of(next) == pre.inner().key_of(input),
        !cx_next.revalidating(),
    ensures
        forall|found: Option<Arc<S::Output>>| #[trigger]
            post.serves(next, cx_next, found) <==> found == Some(value),
{
}

/// Only a computed answer is recorded: after a failure, a delay, or an answer that
/// stands by the last one, the store is what it was. So is it where the stage refuses
/// to key, whatever the answer.
pub proof fn law_only_computed_answers_are_recorded<S: Stage, St: MemoStore<S::Output>>(
    pre: Memo<S, St>,
    input: S::Input,
    cx: ContextView,
    post: Memo<S, St>,
    cx_post: ContextView,
    answer: StagePoll<S::Output, S::Error>,
)
    requires
        Memo::<S, St>::polls(pre, input, cx, post, cx_post, answer),
    ensures
        !(answer matches EffectPoll::Ready(StageAnswer::Computed(_))) ==> post.rows() == pre.rows(),
        pre.inner().key_of(input) is None ==> post.rows() == pre.rows() && S::polls(
            pre.inner(),
            input,
            cx,
            post.inner(),
            cx_post,
            answer,
        ),
{
}

/// A first stage with no answer, or with a failure, is the chain's answer, and the
/// second stage is not entered.
pub proof fn law_no_answer_upstream_means_no_poll_downstream<
    A: Stage,
    B: Stage<Input = A::Output, Error = A::Error>,
>(
    pre: Chain<A, B>,
    mid: ContextView,
    polled: StagePoll<A::Output, A::Error>,
    post: Chain<A, B>,
    cx_post: ContextView,
    answer: StagePoll<B::Output, A::Error>,
)
    requires
        Chain::<A, B>::follows(pre, mid, polled, post, cx_post, answer),
        !(polled is Ready),
    ensures
        post.tail() == pre.tail(),
        post.join() == pre.join(),
        cx_post == mid,
        polled is Pending ==> answer is Pending,
        polled matches EffectPoll::Failed(e) ==> answer == StagePoll::<B::Output, A::Error>::Failed(
            e,
        ),
{
}

/// An upstream that stands by its answer skips a settled downstream, and the chain
/// stands by its answer too. A downstream that still owes an answer is not skipped: it
/// is polled over what it was last handed.
pub proof fn law_an_unchanged_upstream_skips_only_what_has_settled<
    A: Stage,
    B: Stage<Input = A::Output, Error = A::Error>,
>(
    pre: Chain<A, B>,
    mid: ContextView,
    post: Chain<A, B>,
    cx_post: ContextView,
    answer: StagePoll<B::Output, A::Error>,
)
    requires
        Chain::<A, B>::follows(
            pre,
            mid,
            EffectPoll::Ready(StageAnswer::Unchanged),
            post,
            cx_post,
            answer,
        ),
    ensures
        pre.join() is Settled ==> {
            &&& answer == StagePoll::<B::Output, A::Error>::Ready(StageAnswer::Unchanged)
            &&& post.tail() == pre.tail()
            &&& cx_post == mid
        },
        pre.join() matches Joint::Owing(handed) ==> B::polls(
            pre.tail(),
            *handed,
            mid,
            post.tail(),
            cx_post,
            answer,
        ),
{
}

/// What the second stage was handed is not lost while it has no answer over it: the
/// join owes it until the second stage answers, and is settled once it has.
pub proof fn law_what_was_handed_on_is_owed_until_answered<
    A: Stage,
    B: Stage<Input = A::Output, Error = A::Error>,
>(
    pre: Chain<A, B>,
    mid: ContextView,
    handed: Arc<A::Output>,
    post: Chain<A, B>,
    cx_post: ContextView,
    answer: StagePoll<B::Output, A::Error>,
)
    requires
        Chain::<A, B>::follows(
            pre,
            mid,
            EffectPoll::Ready(StageAnswer::Computed(handed)),
            post,
            cx_post,
            answer,
        ),
    ensures
        answer is Ready <==> post.join() is Settled,
        !(answer is Ready) <==> post.join() == Joint::Owing(handed),
{
}

/// A memo over a boundary neither looks up nor records: the boundary refuses to key.
pub proof fn law_a_memo_over_a_boundary_is_inert<
    S: Stage,
    H: Recover<S::Error, Value = S::Output>,
    St: MemoStore<S::Output>,
>(
    pre: Memo<Guarded<S, H>, St>,
    input: S::Input,
    cx: ContextView,
    post: Memo<Guarded<S, H>, St>,
    cx_post: ContextView,
    answer: StagePoll<S::Output, H::Escalated>,
)
    requires
        Memo::<Guarded<S, H>, St>::polls(pre, input, cx, post, cx_post, answer),
    ensures
        forall|found: Option<Arc<S::Output>>| #[trigger]
            pre.serves(input, cx, found) <==> found is None,
        post.rows() == pre.rows(),
        Guarded::<S, H>::polls(pre.inner(), input, cx, post.inner(), cx_post, answer),
{
    assert(pre.inner().key_of(input) is None);
}

/// A value, and the lack of one, pass a boundary untouched: the handler is not asked and
/// nothing is counted.
pub proof fn law_a_boundary_is_not_in_the_path_of_a_value<
    S: Stage,
    H: Recover<S::Error, Value = S::Output>,
>(
    pre: Guarded<S, H>,
    mid: ContextView,
    polled: StagePoll<S::Output, S::Error>,
    post: Guarded<S, H>,
    cx_post: ContextView,
    answer: StagePoll<S::Output, H::Escalated>,
)
    requires
        Guarded::<S, H>::follows(pre, mid, polled, post, cx_post, answer),
        !(polled is Failed),
    ensures
        cx_post == mid,
        post.recovery() == pre.recovery(),
        polled is Pending ==> answer is Pending,
        polled matches EffectPoll::Ready(a) ==> answer == StagePoll::<
            S::Output,
            H::Escalated,
        >::Ready(a),
{
}

/// A failure is counted exactly when the handler substituted a value for it: then the
/// tally is one up on what the handler left, and otherwise it is what the handler left.
pub proof fn law_a_substitution_is_counted_once<
    S: Stage,
    H: Recover<S::Error, Value = S::Output>,
>(
    pre: Guarded<S, H>,
    failure: S::Error,
    mid: ContextView,
    post: Guarded<S, H>,
    cx_post: ContextView,
    answer: StagePoll<S::Output, H::Escalated>,
)
    requires
        Guarded::<S, H>::follows(pre, mid, EffectPoll::Failed(failure), post, cx_post, answer),
        pre.counter().in_drive(mid),
        pre.counter().counts(cx_post) < usize::MAX,
    ensures
        exists|end: ContextView, handled: EffectPoll<Arc<S::Output>, H::Escalated>|
            {
                &&& #[trigger] H::recovers(
                    pre.recovery(),
                    failure,
                    mid,
                    post.recovery(),
                    end,
                    handled,
                )
                &&& pre.counter().counts(cx_post) == pre.counter().counts(end) + if handled is Ready {
                    1int
                } else {
                    0int
                }
                &&& answer is Ready <==> handled is Ready
            },
{
    let (end, handled) = choose|
        end: ContextView,
        handled: EffectPoll<Arc<S::Output>, H::Escalated>,
    |
        {
            &&& #[trigger] H::recovers(pre.recovery(), failure, mid, post.recovery(), end, handled)
            &&& mid.later(end)
            &&& match handled {
                EffectPoll::Ready(value) => {
                    &&& answer == StagePoll::<S::Output, H::Escalated>::Ready(
                        StageAnswer::Computed(value),
                    )
                    &&& cx_post == crate::boundary::counted(end, pre.counter().place() as int, 1)
                },
                EffectPoll::Pending => {
                    &&& answer == StagePoll::<S::Output, H::Escalated>::Pending
                    &&& cx_post == end
                },
                EffectPoll::Failed(escalated) => {
                    &&& answer == StagePoll::<S::Output, H::Escalated>::Failed(escalated)
                    &&& cx_post == end
                },
            }
        };
    assert(H::recovers(pre.recovery(), failure, mid, post.recovery(), end, handled));
    let at = pre.counter().place() as int;
    if handled is Ready {
        assert(cx_post.tallies == end.tallies.update(
            at,
            crate::watch::capped(end.tallies[at] as nat + 1),
        ));
        assert(cx_post.tallies.len() == end.tallies.len());
        assert(cx_post.tallies[at] == crate::watch::capped(end.tallies[at] as nat + 1));
    }
}

/// Polling a node from inside another's run records the edge, whether or not the node's
/// own poll did any work.
pub proof fn law_a_polled_node_is_recorded_as_read<S: Stage>(
    pre: TrackedStage<S>,
    input: S::Input,
    cx: ContextView,
    post: TrackedStage<S>,
    cx_post: ContextView,
    answer: StagePoll<S::Output, S::Error>,
)
    requires
        TrackedStage::<S>::polls(pre, input, cx, post, cx_post, answer),
        cx.sane(),
        cx.ledger.holds(pre.at()),
        cx.ledger.running.len() > 0,
    ensures
        cx_post.ledger.running.len() == cx.ledger.running.len(),
        cx_post.ledger.running.last().seen.contains(pre.at().at()),
{
    let inside = entered(cx, pre.at());
    let ran = choose|ran: ContextView|
        {
            &&& #[trigger] S::polls(pre.inner(), input, inside, post.inner(), ran, answer)
            &&& inside.later(ran)
            &&& cx_post == crate::track::nodes::exited(ran, pre.at(), answer is Ready)
        };
    let top = cx.ledger.running.len() - 1;
    assert(inside.ledger.running[top].seen.contains(pre.at().at()));
    assert(ran.ledger.running[top].seen == inside.ledger.running[top].seen);
    assert(cx_post.ledger.running =~= ran.ledger.running.drop_last());
}

/// A poll that produced no value leaves its node owing one, whether it failed or has
/// none yet, so that nothing below it can take the debt back.
pub proof fn law_a_poll_without_a_value_leaves_a_debt<S: Stage>(
    pre: TrackedStage<S>,
    input: S::Input,
    cx: ContextView,
    post: TrackedStage<S>,
    cx_post: ContextView,
    answer: StagePoll<S::Output, S::Error>,
)
    requires
        TrackedStage::<S>::polls(pre, input, cx, post, cx_post, answer),
        cx.sane(),
        cx.ledger.holds(pre.at()),
        !(answer is Ready),
    ensures
        cx_post.ledger.reasons[pre.at().at() as int].contains(Reason::Owed),
        cx_post.ledger.is_stale(pre.at().at()),
{
    let ran = choose|ran: ContextView|
        {
            &&& #[trigger] S::polls(
                pre.inner(),
                input,
                entered(cx, pre.at()),
                post.inner(),
                ran,
                answer,
            )
            &&& entered(cx, pre.at()).later(ran)
            &&& cx_post == crate::track::nodes::exited(ran, pre.at(), answer is Ready)
        };
    let closed = ran.ledger.closed(false);
    assert(cx_post.ledger == closed.owing(pre.at().at()));
    assert(cx_post.ledger.reasons.len() == closed.reasons.len());
    assert(cx_post.ledger.reasons[pre.at().at() as int].contains(Reason::Owed));
}

/// A poll of a drive that is driven from inside a poll of a stale node, in whatever drive
/// that node is, is not answered from a store, but for the runs that it opens itself.
pub proof fn law_a_drive_nested_in_a_stale_node_is_not_served<S: Stage, St: MemoStore<S::Output>>(
    pre: Memo<S, St>,
    input: S::Input,
    cx: ContextView,
    post: Memo<S, St>,
    cx_post: ContextView,
    answer: StagePoll<S::Output, S::Error>,
)
    requires
        cx.nested,
        cx.ledger.running.len() == 0,
        Memo::<S, St>::polls(pre, input, cx, post, cx_post, answer),
    ensures
        S::polls(pre.inner(), input, cx, post.inner(), cx_post, answer),
{
}

/// A poll of a stale node is not answered from a store inside it: the stage runs.
pub proof fn law_a_stale_node_is_not_served_from_the_store_inside_it<
    S: Stage,
    St: MemoStore<S::Output>,
>(
    pre: TrackedStage<Memo<S, St>>,
    input: S::Input,
    cx: ContextView,
    post: TrackedStage<Memo<S, St>>,
    cx_post: ContextView,
    answer: StagePoll<S::Output, S::Error>,
)
    requires
        TrackedStage::<Memo<S, St>>::polls(pre, input, cx, post, cx_post, answer),
        cx.ledger.is_stale(pre.at().at()),
    ensures
        exists|ran: ContextView|
            #[trigger] S::polls(
                pre.inner().inner(),
                input,
                entered(cx, pre.at()),
                post.inner().inner(),
                ran,
                answer,
            ),
{
    let inside = entered(cx, pre.at());
    let ran = choose|ran: ContextView|
        {
            &&& #[trigger] Memo::<S, St>::polls(
                pre.inner(),
                input,
                inside,
                post.inner(),
                ran,
                answer,
            )
            &&& entered(cx, pre.at()).later(ran)
            &&& cx_post == crate::track::nodes::exited(ran, pre.at(), answer is Ready)
        };
    assert(inside.revalidating());
    assert(S::polls(
        pre.inner().inner(),
        input,
        inside,
        post.inner().inner(),
        ran,
        answer,
    ));
}

/// The first answer of a backdated node is never a cutoff, and neither is a poll that
/// produced no value.
pub proof fn law_only_a_repeated_answer_is_a_cutoff<T: ContentHash, E>(answer: StagePoll<T, E>)
    ensures
        !repeats(None, answer),
        forall|last: Option<crate::key::ContentKey>|
            !(answer is Ready) ==> !(#[trigger] repeats(last, answer)),
{
}

/// Every wake that reaches a watched poll is passed on: waking the poll's own target
/// reaches exactly that target and what the caller's waker reaches.
pub proof fn law_a_watched_poll_swallows_no_wake(cx: ContextView, wake: WakerId, t: int)
    requires
        cx.sane(),
        crate::wake::known(cx.targets, wake),
        cx.targets.len() <= usize::MAX,
    ensures
        on_path(probed(cx, wake).targets, probed(cx, wake).waker, t) <==> t == cx.targets.len()
            || on_path(cx.targets, wake, t),
{
    let after = probed(cx, wake).targets;
    crate::wake::lemma_path_by_forwards(cx.targets, after, wake, t);
    assert(after[cx.targets.len() as int].forward == wake);
}

/// A poll that wakes its waker is reported as woken and one that does nothing with it as
/// missing. One that keeps it is reported as registered as long as the waker is not dropped,
/// and one that keeps it and releases it again is reported as missing.
pub proof fn law_the_path_is_what_was_done_with_the_waker(cx: ContextView, wake: WakerId)
    requires
        cx.sane(),
        crate::wake::known(cx.targets, wake),
        cx.targets.len() <= usize::MAX,
    ensures
        ({
            let inside = probed(cx, wake);
            let at = cx.targets.len() as int;
            let keeping = kept(inside.targets, inside.waker);
            &&& forall|path: WakePath| #[trigger]
                leaves(inside.targets[at], path) <==> path == WakePath::Missing
            &&& forall|path: WakePath| #[trigger]
                leaves(woken(inside.targets, inside.waker)[at], path) <==> path
                    == WakePath::Woken
            &&& forall|left: bool|
                leaves(keeping[at], #[trigger] path_left(keeping[at].woken, left))
            &&& path_left(keeping[at].woken, true) == WakePath::Registered
            &&& path_left(keeping[at].woken, false) == WakePath::Missing
            &&& forall|path: WakePath| #[trigger]
                leaves(released(keeping, inside.waker)[at], path) <==> path == WakePath::Missing
        }),
{
    let inside = probed(cx, wake);
    assert(on_path(inside.targets, inside.waker, cx.targets.len() as int));
}

/// No more polls leave no path than have no answer.
pub proof fn law_unwakeable_polls_are_pending_ones(report: WakeReport, paths: Seq<WakePath>)
    requires
        report.reports(paths),
    ensures
        report.unwakeable_count() <= report.pending_count(),
{
    lemma_missing_are_paths(paths);
}

/// The paths that lead nowhere are among the paths.
proof fn lemma_missing_are_paths(paths: Seq<WakePath>)
    ensures
        missing(paths) <= paths.len(),
    decreases paths.len(),
{
    if paths.len() > 0 {
        lemma_missing_are_paths(paths.drop_last());
    }
}

/// A wake that arrives lets the next run in: it enters the graph though its version has
/// been answered for.
pub proof fn law_a_wake_lets_the_next_run_in<V: PartialEq>(
    targets: Seq<Target>,
    target: WakerId,
    waker: WakerId,
    answered: Option<V>,
    version: V,
)
    requires
        target matches WakerId::Target(k) && k < targets.len() && on_path(targets, waker, k as int),
    ensures
        marked(woken(targets, waker), target),
        !gated(answered, version, marked(woken(targets, waker), target)),
{
}

/// A pipeline's own waker reaches the pipeline, and taking the mark clears it.
pub proof fn law_taking_the_mark_clears_it(targets: Seq<Target>, target: WakerId)
    requires
        target matches WakerId::Target(k) && k < targets.len(),
    ensures
        marked(woken(targets, target), target),
        !marked(taken(targets, target), target),
        !marked(taken(woken(targets, target), target), target),
{
    let k = target->Target_0;
    assert(on_path(targets, target, k as int));
}

/// A delay or a failure records nothing, so a run of the same version is not gated by
/// it: it is gated only by an answer.
pub proof fn law_an_unanswered_version_is_tried_again<V: PartialEq, T, E>(
    answered: Option<V>,
    version: V,
    polled: StagePoll<T, E>,
    stale: bool,
)
    requires
        answered matches Some(last) ==> !last.eq_spec(&version),
        version.eq_spec(&version),
    ensures
        gated(version_after(answered, version, polled), version, stale) <==> polled is Ready
            && !stale,
{
}

/// A change of a node that was read reaches every subscriber: what its waker reaches is
/// marked.
pub proof fn law_a_read_change_reaches_its_subscribers(
    targets: Seq<Target>,
    ledger: crate::track::LedgerView,
    node: crate::track::NodeId,
    reader: u32,
    waker: WakerId,
    t: int,
)
    requires
        ledger.followers(node.at()).contains(reader),
        ledger.subscribers.contains(waker),
        0 <= t < targets.len(),
        on_path(targets, waker, t),
    ensures
        crate::track::nodes::woken_for(targets, ledger, node)[t].woken,
{
    let i = choose|i: int| 0 <= i < ledger.subscribers.len() && ledger.subscribers[i] == waker;
    assert(on_path(targets, ledger.subscribers[i], t));
}

/// Where just one of `wakers` reaches target `t`, waking all of them reaches it once.
proof fn lemma_reached_once(targets: Seq<Target>, wakers: Seq<WakerId>, i: int, t: int)
    requires
        0 <= i < wakers.len(),
        forall|j: int|
            0 <= j < wakers.len() ==> (#[trigger] on_path(targets, wakers[j], t) <==> j == i),
    ensures
        times(targets, wakers, t) == 1,
    decreases wakers.len(),
{
    let shorter = wakers.drop_last();
    assert(on_path(targets, wakers[wakers.len() - 1], t) <==> wakers.len() - 1 == i);
    assert forall|j: int| 0 <= j < shorter.len() implies (#[trigger] on_path(
        targets,
        shorter[j],
        t,
    ) <==> j == i) by {
        assert(on_path(targets, wakers[j], t) <==> j == i);
    }
    if i < shorter.len() {
        lemma_reached_once(targets, shorter, i, t);
    } else {
        lemma_reached_never(targets, shorter, t);
    }
}

/// Where none of `wakers` reaches target `t`, waking all of them does not.
proof fn lemma_reached_never(targets: Seq<Target>, wakers: Seq<WakerId>, t: int)
    requires
        forall|j: int| 0 <= j < wakers.len() ==> !#[trigger] on_path(targets, wakers[j], t),
    ensures
        times(targets, wakers, t) == 0,
    decreases wakers.len(),
{
    if wakers.len() > 0 {
        let shorter = wakers.drop_last();
        assert(!on_path(targets, wakers[wakers.len() - 1], t));
        assert forall|j: int| 0 <= j < shorter.len() implies !#[trigger] on_path(
            targets,
            shorter[j],
            t,
        ) by {
            assert(!on_path(targets, wakers[j], t));
        }
        lemma_reached_never(targets, shorter, t);
    }
}

/// Whether target `t` is subscribed to `ledger` and no other subscriber passes its wakes on
/// to it.
pub open spec fn told_alone(
    targets: Seq<Target>,
    ledger: crate::track::LedgerView,
    t: usize,
) -> bool {
    &&& t < targets.len()
    &&& ledger.subscribers.contains(WakerId::Target(t))
    &&& forall|w: WakerId| #[trigger]
        ledger.subscribers.contains(w) && w != WakerId::Target(t) ==> !on_path(
            targets,
            w,
            t as int,
        )
}

/// Of subscribers that are told once each, the one of a target that no other passes its
/// wakes on to reaches it once.
proof fn lemma_told_once(targets: Seq<Target>, ledger: crate::track::LedgerView, t: usize)
    requires
        ledger.sane(),
        told_alone(targets, ledger, t),
    ensures
        times(targets, ledger.subscribers, t as int) == 1,
        any_path(targets, ledger.subscribers, t as int),
{
    let own = WakerId::Target(t);
    let i = choose|i: int| 0 <= i < ledger.subscribers.len() && ledger.subscribers[i] == own;
    assert(on_path(targets, ledger.subscribers[i], t as int));
    assert forall|j: int| 0 <= j < ledger.subscribers.len() implies (#[trigger] on_path(
        targets,
        ledger.subscribers[j],
        t as int,
    ) <==> j == i) by {
        assert(ledger.subscribers.contains(ledger.subscribers[j]));
    }
    lemma_reached_once(targets, ledger.subscribers, i, t as int);
}

/// A change tells each subscriber once, however many nodes it leaves stale: a target that is
/// subscribed, and that no other subscriber passes its wakes on to, hears one wake more. A
/// change that nothing reads tells nobody.
pub proof fn law_a_change_tells_each_subscriber_once(
    targets: Seq<Target>,
    ledger: crate::track::LedgerView,
    node: crate::track::NodeId,
    t: usize,
)
    requires
        ledger.sane(),
        told_alone(targets, ledger, t),
    ensures
        ledger.followers(node.at()) == Set::<u32>::empty() ==> crate::track::nodes::woken_for(
            targets,
            ledger,
            node,
        ) == targets,
        ledger.followers(node.at()) != Set::<u32>::empty() ==> {
            let after = crate::track::nodes::woken_for(targets, ledger, node);
            after[t as int].woken && after[t as int].rung == counted(targets[t as int].rung, 1)
        },
{
    lemma_told_once(targets, ledger, t);
}

/// A subscription is not used up: of two changes that something reads, whatever happened
/// to the graph in between, each tells a subscriber.
pub proof fn law_each_further_change_tells_each_subscriber_again(
    targets: Seq<Target>,
    ledger: crate::track::LedgerView,
    node: crate::track::NodeId,
    later: crate::track::LedgerView,
    other: crate::track::NodeId,
    t: usize,
)
    requires
        ledger.sane(),
        later.sane(),
        later.subscribers == ledger.subscribers,
        told_alone(targets, ledger, t),
        forall|w: WakerId| #[trigger] ledger.subscribers.contains(w) ==> known(targets, w),
        ledger.followers(node.at()) != Set::<u32>::empty(),
        later.followers(other.at()) != Set::<u32>::empty(),
    ensures
        crate::track::nodes::woken_for(
            crate::track::nodes::woken_for(targets, ledger, node),
            later,
            other,
        )[t as int].rung == counted(targets[t as int].rung, 2),
{
    let after = crate::track::nodes::woken_for(targets, ledger, node);
    law_a_change_tells_each_subscriber_once(targets, ledger, node, t);
    assert forall|w: WakerId| #[trigger]
        later.subscribers.contains(w) && w != WakerId::Target(t) implies !on_path(
        after,
        w,
        t as int,
    ) by {
        assert(ledger.subscribers.contains(w));
        crate::wake::lemma_path_by_forwards(targets, after, w, t as int);
    }
    law_a_change_tells_each_subscriber_once(after, later, other, t);
}

/// A map for each position holds what one map for all of them would: as long as each
/// position records under keys that carry its own id, what is held under a key is held by
/// the position's map exactly if one map for all would hold it.
pub proof fn law_positions_share_no_row<T>(
    maps: spec_fn(StageId) -> Map<KeyView, T>,
    whole: Map<KeyView, T>,
    key: KeyView,
    value: T,
)
    requires
        forall|k: KeyView| (#[trigger] whole.contains_key(k)) == maps(k.stage).contains_key(k),
        forall|k: KeyView| #[trigger] whole.contains_key(k) ==> whole[k] == maps(k.stage)[k],
    ensures
        ({
            let after = |at: StageId|
                if at == key.stage {
                    maps(at).insert(key, value)
                } else {
                    maps(at)
                };
            &&& forall|k: KeyView|
                (#[trigger] whole.insert(key, value).contains_key(k)) == after(
                    k.stage,
                ).contains_key(k)
            &&& forall|k: KeyView| #[trigger]
                whole.insert(key, value).contains_key(k) ==> whole.insert(key, value)[k] == after(
                    k.stage,
                )[k]
        }),
{
}

/// A failure names the stage that raised it: of a graph and a stage registered after it,
/// whatever the graph, a failure is either the graph's own, passed on as it came and with
/// the stage not entered, or the stage's, stamped with its position.
pub proof fn law_a_failure_names_the_stage_that_raised_it<
    A: Stage<Error = Failure<E>>,
    B: Stage<Input = A::Output, Error = E>,
    SB: MemoStore<B::Output>,
    E,
>(
    pre: Chain<A, Memo<Positioned<B>, SB>>,
    input: A::Input,
    cx: ContextView,
    post: Chain<A, Memo<Positioned<B>, SB>>,
    cx_post: ContextView,
    failure: Failure<E>,
)
    requires
        Chain::<A, Memo<Positioned<B>, SB>>::polls(
            pre,
            input,
            cx,
            post,
            cx_post,
            EffectPoll::Failed(failure),
        ),
    ensures
        ({
            ||| A::polls(
                pre.head(),
                input,
                cx,
                post.head(),
                cx_post,
                EffectPoll::Failed(failure),
            ) && post.tail() == pre.tail()
            ||| exists|mid: ContextView, handed: A::Output|
                {
                    &&& #[trigger] B::polls(
                        pre.tail().inner().inner(),
                        handed,
                        mid,
                        post.tail().inner().inner(),
                        cx_post,
                        EffectPoll::Failed(failure.raised()),
                    )
                    &&& failure.position() == pre.tail().inner().position()
                }
        }),
{
    broadcast use crate::builder::Failure::lemma_of;

    let (mid, polled) = choose|mid: ContextView, polled: StagePoll<A::Output, Failure<E>>|
        {
            &&& #[trigger] A::polls(pre.head(), input, cx, post.head(), mid, polled)
            &&& cx.later(mid)
            &&& Chain::<A, Memo<Positioned<B>, SB>>::follows(
                pre,
                mid,
                polled,
                post,
                cx_post,
                EffectPoll::Failed(failure),
            )
        };
    if let EffectPoll::Ready(a) = polled {
        let handed = match a {
            StageAnswer::Computed(handed) => handed,
            StageAnswer::Unchanged => pre.join()->Owing_0,
        };
        let answer: StagePoll<B::Output, Failure<E>> = EffectPoll::Failed(failure);
        assert(Memo::<Positioned<B>, SB>::polls(
            pre.tail(),
            *handed,
            mid,
            post.tail(),
            cx_post,
            answer,
        ));
        assert forall|i: A::Output| #[trigger]
            Memo::<Positioned<B>, SB>::polls(
                pre.tail(),
                i,
                mid,
                post.tail(),
                cx_post,
                answer,
            ) implies B::polls(
            pre.tail().inner().inner(),
            i,
            mid,
            post.tail().inner().inner(),
            cx_post,
            EffectPoll::Failed(failure.raised()),
        ) && failure.position() == pre.tail().inner().position() by {
            law_a_registered_failure_is_stamped(pre.tail(), i, mid, post.tail(), cx_post, failure);
        }
    }
}

/// A failure of a registered stage is one that the stage raised, stamped with its position.
pub proof fn law_a_registered_failure_is_stamped<S: Stage, St: MemoStore<S::Output>>(
    pre: Memo<Positioned<S>, St>,
    input: S::Input,
    cx: ContextView,
    post: Memo<Positioned<S>, St>,
    cx_post: ContextView,
    failure: Failure<S::Error>,
)
    requires
        Memo::<Positioned<S>, St>::polls(
            pre,
            input,
            cx,
            post,
            cx_post,
            EffectPoll::Failed(failure),
        ),
    ensures
        S::polls(
            pre.inner().inner(),
            input,
            cx,
            post.inner().inner(),
            cx_post,
            EffectPoll::Failed(failure.raised()),
        ),
        failure.position() == pre.inner().position(),
{
    broadcast use crate::builder::Failure::lemma_of;

    let answer: StagePoll<S::Output, Failure<S::Error>> = EffectPoll::Failed(failure);
    let raw = choose|raw: StagePoll<S::Output, S::Error>|
        {
            &&& #[trigger] S::polls(
                pre.inner().inner(),
                input,
                cx,
                post.inner().inner(),
                cx_post,
                raw,
            )
            &&& answer == stamped(pre.inner().position(), raw)
        };
    assert(raw is Failed);
}

} // verus!
