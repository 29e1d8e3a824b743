//! What a drive is made of: the polls it takes, what runs between them, and what a pipeline
//! makes of the answer.

use std::sync::Arc;

use vstd::prelude::*;
use vstd::std_specs::cmp::PartialEqSpec;

use crate::boundary::{run_to_completion_counted, Substitutions};
use crate::builder::{PipelineBuilder, StagedPipelineBuilder};
use crate::context::{Context, ContextView};
use crate::driver::{
    completes, drives, ends, frame_polls, run_to_completion, turned, waited, DriveError,
    FrameDriver, NoPendingWork, PendingWork, Turn,
};
use crate::effect::{EffectPoll, StageAnswer};
use crate::pipeline::{Pipeline, Run};
use crate::stage::{Stage, StagePoll};
use crate::store::NoMemo;
use crate::track::nodes::TrackedInput;
use crate::track::{kept_for, LedgerView};
use crate::wake::{kept, woken, woken_all, Target, Waker, WakerId};
use crate::watch::{
    run_to_completion_watched, watched_drives, watched_ends, watched_polls, watched_turned,
    watched_waited, WakePath, WakeReport,
};

verus! {

/// A frame is one poll of the stage, handed the frame's waker in place of the one there was,
/// which is there again afterwards. The drive is otherwise as the stage left it.
pub proof fn law_a_frame_is_one_poll<S: Stage>(
    pre: S,
    input: S::Input,
    waker: WakerId,
    cx: ContextView,
    post: S,
    cx_post: ContextView,
    answer: StagePoll<S::Output, S::Error>,
) -> (states: (ContextView, ContextView))
    requires
        frame_polls(pre, input, waker, cx, post, cx_post, answer),
    ensures
        ({
            let (inside, end) = states;
            &&& S::polls(pre, input, inside, post, end, answer)
            &&& inside.waker == waker
            &&& inside.ledger == cx.ledger
            &&& inside.targets == cx.targets
            &&& inside.tallies == cx.tallies
            &&& inside.nested == cx.nested
            &&& cx_post.waker == cx.waker
            &&& cx_post.ledger == end.ledger
            &&& cx_post.targets == end.targets
            &&& cx_post.tallies == end.tallies
            &&& cx_post.nested == end.nested
        }),
{
    let end = choose|end: ContextView|
        {
            &&& #[trigger] S::polls(pre, input, cx.handing(waker), post, end, answer)
            &&& cx.handing(waker).later(end)
            &&& cx_post == end.handing(cx.waker)
        };
    (cx.handing(waker), end)
}

/// A state that a drive may have been in between a poll at `a` and the work that left `b`.
spec fn between<S: Stage, W: PendingWork>(
    input: S::Input,
    a: Turn<S, W>,
    b: Turn<S, W>,
    progressed: bool,
) -> ContextView {
    choose|mid: ContextView| waited(input, a, mid, b, progressed)
}

/// A state that a watched drive may have been in between a poll at `a` that left `path` and
/// the work that left `b`.
spec fn watched_between<S: Stage, W: PendingWork>(
    input: S::Input,
    a: Turn<S, W>,
    path: WakePath,
    b: Turn<S, W>,
    progressed: bool,
) -> ContextView {
    choose|mid: ContextView| watched_waited(input, a, path, mid, b, progressed)
}

/// A blocking drive polls, and runs the work once after every poll that has no answer, until
/// a poll has one or the work makes no progress.
///
/// The waker handed to every poll is nobody's, and the caller's is there again afterwards.
/// What the drive ends with is the answer or the failure of its last poll, after which no
/// work was run, or that it stalled, after which none progressed.
pub proof fn law_a_blocking_drive_polls_until_it_is_answered<S: Stage, W: PendingWork>(
    stage: S,
    input: S::Input,
    work: W,
    cx: ContextView,
    stage_post: S,
    work_post: W,
    cx_post: ContextView,
    driven: Result<StageAnswer<Arc<S::Output>>, DriveError<S::Error>>,
) -> (course: (Seq<Turn<S, W>>, Seq<ContextView>, ContextView))
    requires
        completes(stage, input, work, cx, stage_post, work_post, cx_post, driven),
    ensures
        ({
            let (turns, mids, end) = course;
            let last = turns.len() - 1;
            &&& turns.len() > 0
            &&& mids.len() == turns.len()
            &&& turns[0].stage == stage
            &&& turns[0].work == work
            &&& turns[0].cx.waker is Noop
            &&& turns[0].cx.ledger == cx.ledger
            &&& turns[0].cx.targets == cx.targets
            &&& turns[0].cx.tallies == cx.tallies
            &&& turns[0].cx.nested == cx.nested
            &&& forall|i: int|
                #![trigger mids[i]]
                0 <= i < last ==> {
                    &&& S::polls(
                        turns[i].stage,
                        input,
                        turns[i].cx,
                        turns[i + 1].stage,
                        mids[i],
                        StagePoll::<S::Output, S::Error>::Pending,
                    )
                    &&& W::runs(turns[i].work, mids[i], turns[i + 1].work, turns[i + 1].cx, true)
                }
            &&& driven matches Ok(answer) ==> {
                &&& S::polls(
                    turns[last].stage,
                    input,
                    turns[last].cx,
                    stage_post,
                    end,
                    EffectPoll::Ready(answer),
                )
                &&& work_post == turns[last].work
            }
            &&& driven matches Err(DriveError::Failed(error)) ==> {
                &&& S::polls(
                    turns[last].stage,
                    input,
                    turns[last].cx,
                    stage_post,
                    end,
                    EffectPoll::Failed(error),
                )
                &&& work_post == turns[last].work
            }
            &&& driven matches Err(DriveError::Stalled) ==> {
                &&& S::polls(
                    turns[last].stage,
                    input,
                    turns[last].cx,
                    stage_post,
                    mids[last],
                    StagePoll::<S::Output, S::Error>::Pending,
                )
                &&& W::runs(turns[last].work, mids[last], work_post, end, false)
            }
            &&& cx_post.waker == cx.waker
            &&& cx_post.ledger == end.ledger
            &&& cx_post.targets == end.targets
            &&& cx_post.tallies == end.tallies
            &&& cx_post.nested == end.nested
        }),
{
    let (turns, end) = choose|turns: Seq<Turn<S, W>>, end: ContextView|
        {
            &&& #[trigger] drives(
                input,
                Turn { stage, work, cx: cx.handing(WakerId::Noop) },
                turns,
                Turn { stage: stage_post, work: work_post, cx: end },
                driven,
            )
            &&& cx_post == end.handing(cx.waker)
        };
    let last = turns.len() - 1;
    let post = Turn { stage: stage_post, work: work_post, cx: end };
    let mids = Seq::new(
        turns.len(),
        |i: int|
            if i < last {
                between(input, turns[i], turns[i + 1], true)
            } else {
                between(input, turns[i], post, false)
            },
    );
    assert forall|i: int|
        #![trigger mids[i]]
        0 <= i < last implies {
        &&& S::polls(
            turns[i].stage,
            input,
            turns[i].cx,
            turns[i + 1].stage,
            mids[i],
            StagePoll::<S::Output, S::Error>::Pending,
        )
        &&& W::runs(turns[i].work, mids[i], turns[i + 1].work, turns[i + 1].cx, true)
    } by {
        assert(turned(input, turns[i], turns[i + 1]));
    }
    assert(ends(input, turns.last(), post, driven));
    (turns, mids, end)
}

/// The control case runs nothing and never makes progress.
pub proof fn law_no_work_makes_no_progress(
    pre: NoPendingWork,
    cx: ContextView,
    post: NoPendingWork,
    cx_post: ContextView,
    progressed: bool,
)
    requires
        NoPendingWork::runs(pre, cx, post, cx_post, progressed),
    ensures
        !progressed,
        cx_post == cx,
{
}

/// A watched drive polls as the blocking drive does, each poll watched, and tells of the
/// path that each of its polls without an answer left, in order, and of no other.
pub proof fn law_a_watched_drive_tells_every_path<S: Stage, W: PendingWork>(
    input: S::Input,
    pre: Turn<S, W>,
    turns: Seq<Turn<S, W>>,
    post: Turn<S, W>,
    driven: Result<StageAnswer<Arc<S::Output>>, DriveError<S::Error>>,
    paths: Seq<WakePath>,
) -> (mids: Seq<ContextView>)
    requires
        watched_drives(input, pre, turns, post, driven, paths),
    ensures
        ({
            let last = turns.len() - 1;
            &&& turns.len() > 0
            &&& mids.len() == turns.len()
            &&& turns[0] == pre
            &&& forall|i: int|
                #![trigger mids[i]]
                0 <= i < last ==> {
                    &&& watched_polls(
                        turns[i].stage,
                        input,
                        WakerId::Noop,
                        turns[i].cx,
                        turns[i + 1].stage,
                        mids[i],
                        StagePoll::<S::Output, S::Error>::Pending,
                        Some(paths[i]),
                    )
                    &&& W::runs(turns[i].work, mids[i], turns[i + 1].work, turns[i + 1].cx, true)
                }
            &&& driven matches Ok(answer) ==> {
                &&& watched_polls(
                    turns[last].stage,
                    input,
                    WakerId::Noop,
                    turns[last].cx,
                    post.stage,
                    post.cx,
                    EffectPoll::Ready(answer),
                    None,
                )
                &&& post.work == turns[last].work
                &&& paths.len() == last
            }
            &&& driven matches Err(DriveError::Failed(error)) ==> {
                &&& watched_polls(
                    turns[last].stage,
                    input,
                    WakerId::Noop,
                    turns[last].cx,
                    post.stage,
                    post.cx,
                    EffectPoll::Failed(error),
                    None,
                )
                &&& post.work == turns[last].work
                &&& paths.len() == last
            }
            &&& driven matches Err(DriveError::Stalled) ==> {
                &&& paths.len() == last + 1
                &&& watched_polls(
                    turns[last].stage,
                    input,
                    WakerId::Noop,
                    turns[last].cx,
                    post.stage,
                    mids[last],
                    StagePoll::<S::Output, S::Error>::Pending,
                    Some(paths[last]),
                )
                &&& W::runs(turns[last].work, mids[last], post.work, post.cx, false)
            }
        }),
{
    let last = turns.len() - 1;
    let mids = Seq::new(
        turns.len(),
        |i: int|
            if i < last {
                watched_between(input, turns[i], paths[i], turns[i + 1], true)
            } else {
                watched_between(input, turns[i], paths[i], post, false)
            },
    );
    assert forall|i: int|
        #![trigger mids[i]]
        0 <= i < last implies {
        &&& watched_polls(
            turns[i].stage,
            input,
            WakerId::Noop,
            turns[i].cx,
            turns[i + 1].stage,
            mids[i],
            StagePoll::<S::Output, S::Error>::Pending,
            Some(paths[i]),
        )
        &&& W::runs(turns[i].work, mids[i], turns[i + 1].work, turns[i + 1].cx, true)
    } by {
        assert(watched_turned(input, turns[i], paths[i], turns[i + 1]));
    }
    let so_far = paths.take(turns.len() - 1);
    assert(watched_ends(input, turns.last(), so_far, post, driven, paths));
    if let Err(DriveError::Stalled) = driven {
        let (mid, path) = choose|mid: ContextView, path: WakePath|
            {
                &&& #[trigger] watched_waited(input, turns.last(), path, mid, post, false)
                &&& paths == so_far.push(path)
            };
        assert(paths[last] == path);
        assert(watched_waited(input, turns[last], paths[last], mid, post, false));
        assert(watched_waited(input, turns[last], paths[last], mids[last], post, false));
    }
    mids
}

/// What a run of a pipeline is.
///
/// Where a wake has arrived at the pipeline, or no version is on record, the graph is
/// entered. Otherwise `==` of the version on record and this one decides, asked once: the
/// answer last given stands and nothing at all is touched, or the graph is entered.
///
/// To enter the graph is to poll it once, with the pipeline's own mark taken first and no
/// other, handing it the pipeline's waker. The answer is told as it came. The version is on
/// record afterwards if there was a value, computed or standing, and what was on record is if
/// there was none yet or a failure.
pub proof fn law_a_run_is_gated_by_version_and_wake<V: PartialEq, S: Stage>(
    pre: Pipeline<V, S>,
    version: V,
    input: S::Input,
    post: Pipeline<V, S>,
    r: Result<Run<S::Output>, S::Error>,
) -> (entered: Option<(ContextView, ContextView, StagePoll<S::Output, S::Error>)>)
    requires
        Pipeline::<V, S>::ran(pre, version, input, post, r),
    ensures
        pre.answered() is None ==> entered is Some,
        pre.target() matches WakerId::Target(k) && (k < pre.drive().targets.len()
            && pre.drive().targets[k as int].woken) ==> entered is Some,
        pre.answered() matches Some(last) ==> (!(pre.target() matches WakerId::Target(k) && (k
            < pre.drive().targets.len() && pre.drive().targets[k as int].woken)) ==> call_ensures(
            <V as PartialEq>::eq,
            (&last, &version),
            entered is None,
        )),
        V::obeys_eq_spec() ==> (entered is None <==> {
            &&& pre.answered() matches Some(last) && last.eq_spec(&version)
            &&& !(pre.target() matches WakerId::Target(k) && (k < pre.drive().targets.len()
                && pre.drive().targets[k as int].woken))
        }),
        entered is None ==> {
            &&& r == Ok::<Run<S::Output>, S::Error>(Run::Unchanged)
            &&& post.graph() == pre.graph()
            &&& post.drive() == pre.drive()
            &&& post.answered() == pre.answered()
        },
        entered matches Some((inside, end, polled)) ==> {
            &&& S::polls(pre.graph(), input, inside, post.graph(), end, polled)
            &&& inside.waker == pre.target()
            &&& inside.ledger == pre.drive().ledger
            &&& inside.tallies == pre.drive().tallies
            &&& inside.nested == pre.drive().nested
            &&& inside.targets.len() == pre.drive().targets.len()
            &&& forall|t: int|
                0 <= t < inside.targets.len() ==> {
                    &&& (#[trigger] inside.targets[t]).forward == pre.drive().targets[t].forward
                    &&& inside.targets[t].rung == pre.drive().targets[t].rung
                    &&& inside.targets[t].held == pre.drive().targets[t].held
                    &&& inside.targets[t].found == pre.drive().targets[t].found
                    &&& pre.target() == WakerId::Target(t as usize) && t <= usize::MAX
                        ==> !inside.targets[t].woken
                    &&& pre.target() != WakerId::Target(t as usize) ==> inside.targets[t].woken
                        == pre.drive().targets[t].woken
                }
            &&& post.drive().waker == pre.drive().waker
            &&& post.drive().ledger == end.ledger
            &&& post.drive().targets == end.targets
            &&& post.drive().tallies == end.tallies
            &&& post.drive().nested == end.nested
            &&& polled is Ready ==> post.answered() == Some(version)
            &&& !(polled is Ready) ==> post.answered() == pre.answered()
            &&& polled matches EffectPoll::Ready(StageAnswer::Computed(value)) ==> r == Ok::<
                Run<S::Output>,
                S::Error,
            >(Run::Computed(value))
            &&& polled == StagePoll::<S::Output, S::Error>::Ready(StageAnswer::Unchanged) ==> r
                == Ok::<Run<S::Output>, S::Error>(Run::Unchanged)
            &&& polled is Pending ==> r == Ok::<Run<S::Output>, S::Error>(Run::Delayed)
            &&& polled matches EffectPoll::Failed(error) ==> r == Err::<Run<S::Output>, S::Error>(
                error,
            )
        },
{
    let goes_in = if pre.answered() is None || pre.is_stale() {
        true
    } else if V::obeys_eq_spec() {
        !pre.answered()->0.eq_spec(&version)
    } else {
        !(choose|same: bool|
            {
                &&& #[trigger] call_ensures(
                    <V as PartialEq>::eq,
                    (&pre.answered()->0, &version),
                    same,
                )
                &&& same ==> Pipeline::<V, S>::stands(pre, post, r)
                &&& !same ==> Pipeline::<V, S>::enters(pre, version, input, post, r)
            })
    };
    if pre.answered() is Some && !pre.is_stale() {
        let same = choose|same: bool|
            {
                &&& #[trigger] call_ensures(
                    <V as PartialEq>::eq,
                    (&pre.answered()->0, &version),
                    same,
                )
                &&& same ==> Pipeline::<V, S>::stands(pre, post, r)
                &&& !same ==> Pipeline::<V, S>::enters(pre, version, input, post, r)
            };
        assert(call_ensures(<V as PartialEq>::eq, (&pre.answered()->0, &version), same));
        if V::obeys_eq_spec() {
            assert(same == pre.answered()->0.eq_spec(&version));
        }
    }
    if goes_in {
        assert(Pipeline::<V, S>::enters(pre, version, input, post, r));
        let polled = choose|polled: StagePoll<S::Output, S::Error>|
            {
                &&& #[trigger] frame_polls(
                    pre.graph(),
                    input,
                    pre.target(),
                    pre.drive_taken(),
                    post.graph(),
                    post.drive(),
                    polled,
                )
                &&& r == crate::pipeline::run_answer(polled)
                &&& post.answered() == crate::pipeline::version_after(
                    pre.answered(),
                    version,
                    polled,
                )
            };
        let (inside, end) = law_a_frame_is_one_poll(
            pre.graph(),
            input,
            pre.target(),
            pre.drive_taken(),
            post.graph(),
            post.drive(),
            polled,
        );
        Some((inside, end, polled))
    } else {
        assert(Pipeline::<V, S>::stands(pre, post, r));
        None
    }
}

/// A run does what is said of it, and does not change where wakes arrive.
pub proof fn law_a_run_is_what_is_said_of_it<V: PartialEq, S: Stage>(
    pipeline: &mut Pipeline<V, S>,
    version: V,
    input: S::Input,
    r: Result<Run<S::Output>, S::Error>,
)
    requires
        pipeline.wf(),
        call_ensures(Pipeline::<V, S>::run, (pipeline, version, &input), r),
    ensures
        Pipeline::<V, S>::ran(*old(pipeline), version, input, *final(pipeline), r),
        final(pipeline).target() == old(pipeline).target(),
{
}

/// A run from inside a poll is a run of the pipeline nested there: nested in something that
/// revalidates exactly if that poll does, and in nothing afterwards.
pub proof fn law_a_run_within_a_poll_is_nested_in_it<V: PartialEq, S: Stage>(
    pipeline: &mut Pipeline<V, S>,
    outer: Context,
    version: V,
    input: S::Input,
    r: Result<Run<S::Output>, S::Error>,
)
    requires
        pipeline.wf(),
        call_ensures(Pipeline::<V, S>::run_within, (pipeline, &outer, version, &input), r),
    ensures
        exists|inside: Pipeline<V, S>, left: Pipeline<V, S>|
            {
                &&& #[trigger] Pipeline::<V, S>::ran(inside, version, input, left, r)
                &&& inside.graph() == old(pipeline).graph()
                &&& inside.target() == old(pipeline).target()
                &&& inside.answered() == old(pipeline).answered()
                &&& outer@.ledger.running.len() == 0 ==> inside.drive().nested == outer@.nested
                &&& outer@.ledger.running.len() > 0 ==> inside.drive().nested
                    == outer@.ledger.running.last().revalidating
                &&& inside.drive().ledger == old(pipeline).drive().ledger
                &&& inside.drive().targets == old(pipeline).drive().targets
                &&& inside.drive().tallies == old(pipeline).drive().tallies
                &&& inside.drive().waker == old(pipeline).drive().waker
                &&& final(pipeline).graph() == left.graph()
                &&& final(pipeline).target() == old(pipeline).target()
                &&& final(pipeline).answered() == left.answered()
                &&& !final(pipeline).drive().nested
                &&& final(pipeline).drive().ledger == left.drive().ledger
                &&& final(pipeline).drive().targets == left.drive().targets
                &&& final(pipeline).drive().tallies == left.drive().tallies
                &&& final(pipeline).drive().waker == left.drive().waker
            },
{
}

/// A frame of a pipeline is a frame of its graph, whatever has been answered: neither the
/// version on record nor where wakes arrive moves.
pub proof fn law_a_frame_of_a_pipeline_is_a_frame_of_its_graph<V, S: Stage>(
    pipeline: &mut Pipeline<V, S>,
    input: S::Input,
    r: StagePoll<S::Output, S::Error>,
)
    requires
        pipeline.wf(),
        call_ensures(Pipeline::<V, S>::poll_frame, (pipeline, &input), r),
    ensures
        frame_polls(
            old(pipeline).graph(),
            input,
            old(pipeline).target(),
            old(pipeline).drive(),
            final(pipeline).graph(),
            final(pipeline).drive(),
            r,
        ),
        final(pipeline).target() == old(pipeline).target(),
        final(pipeline).answered() == old(pipeline).answered(),
{
}

/// A blocking run of a pipeline is a blocking drive of its graph.
pub proof fn law_a_blocking_run_is_a_blocking_drive<V, S: Stage, W: PendingWork>(
    pipeline: &mut Pipeline<V, S>,
    input: S::Input,
    work: &mut W,
    r: Result<StageAnswer<Arc<S::Output>>, DriveError<S::Error>>,
)
    requires
        pipeline.wf(),
        call_ensures(Pipeline::<V, S>::run_blocking::<W>, (pipeline, &input, work), r),
    ensures
        completes(
            old(pipeline).graph(),
            input,
            *old(work),
            old(pipeline).drive(),
            final(pipeline).graph(),
            *final(work),
            final(pipeline).drive(),
            r,
        ),
        final(pipeline).target() == old(pipeline).target(),
        final(pipeline).answered() == old(pipeline).answered(),
{
}

/// A pure run of a pipeline is a blocking drive of its graph with nothing to run.
pub proof fn law_a_pure_run_is_a_drive_with_nothing_to_run<V, S: Stage>(
    pipeline: &mut Pipeline<V, S>,
    input: S::Input,
    r: Result<StageAnswer<Arc<S::Output>>, DriveError<S::Error>>,
)
    requires
        pipeline.wf(),
        call_ensures(Pipeline::<V, S>::run_pure, (pipeline, &input), r),
    ensures
        completes(
            old(pipeline).graph(),
            input,
            NoPendingWork,
            old(pipeline).drive(),
            final(pipeline).graph(),
            NoPendingWork,
            final(pipeline).drive(),
            r,
        ),
        final(pipeline).target() == old(pipeline).target(),
        final(pipeline).answered() == old(pipeline).answered(),
{
}

/// A drive with nothing to run has its answer from one poll, or it stalls.
pub proof fn law_a_drive_with_nothing_to_run_takes_one_poll<S: Stage>(
    pre: S,
    input: S::Input,
    cx: ContextView,
    post: S,
    cx_post: ContextView,
    r: Result<StageAnswer<Arc<S::Output>>, DriveError<S::Error>>,
) -> (states: (ContextView, ContextView))
    requires
        completes(pre, input, NoPendingWork, cx, post, NoPendingWork, cx_post, r),
    ensures
        ({
            let (inside, end) = states;
            let polled: StagePoll<S::Output, S::Error> = match r {
                Ok(answer) => EffectPoll::Ready(answer),
                Err(DriveError::Failed(error)) => EffectPoll::Failed(error),
                Err(DriveError::Stalled) => EffectPoll::Pending,
            };
            &&& S::polls(pre, input, inside, post, end, polled)
            &&& inside.waker is Noop
            &&& inside.ledger == cx.ledger
            &&& inside.targets == cx.targets
            &&& inside.tallies == cx.tallies
            &&& inside.nested == cx.nested
            &&& cx_post.waker == cx.waker
            &&& cx_post.ledger == end.ledger
            &&& cx_post.targets == end.targets
            &&& cx_post.tallies == end.tallies
            &&& cx_post.nested == end.nested
        }),
{
    let (turns, mids, end) = law_a_blocking_drive_polls_until_it_is_answered(
        pre,
        input,
        NoPendingWork,
        cx,
        post,
        NoPendingWork,
        cx_post,
        r,
    );
    if turns.len() > 1 {
        assert(mids[0] == mids[0]);
        assert(NoPendingWork::runs(
            turns[0].work,
            mids[0],
            turns[0int + 1].work,
            turns[0int + 1].cx,
            true,
        ));
    }
    (turns[0].cx, end)
}

/// A watched run of a pipeline is a watched drive of its graph, and its report is of the
/// paths that were left.
pub proof fn law_a_watched_run_is_a_watched_drive<V, S: Stage, W: PendingWork>(
    pipeline: &mut Pipeline<V, S>,
    input: S::Input,
    work: &mut W,
    r: (Result<StageAnswer<Arc<S::Output>>, DriveError<S::Error>>, WakeReport),
)
    requires
        pipeline.wf(),
        call_ensures(Pipeline::<V, S>::run_watched::<W>, (pipeline, &input, work), r),
    ensures
        exists|turns: Seq<Turn<S, W>>, paths: Seq<WakePath>|
            {
                &&& #[trigger] watched_drives(
                    input,
                    Turn {
                        stage: old(pipeline).graph(),
                        work: *old(work),
                        cx: old(pipeline).drive(),
                    },
                    turns,
                    Turn {
                        stage: final(pipeline).graph(),
                        work: *final(work),
                        cx: final(pipeline).drive(),
                    },
                    r.0,
                    paths,
                )
                &&& r.1.reports(paths)
            },
        final(pipeline).target() == old(pipeline).target(),
        final(pipeline).answered() == old(pipeline).answered(),
{
}

/// Asking whether a wake has arrived tells exactly that, and takes the pipeline's own mark
/// and no other.
pub proof fn law_asking_for_a_wake_takes_the_mark<V, S: Stage>(
    pipeline: &mut Pipeline<V, S>,
    k: usize,
    r: bool,
)
    requires
        pipeline.wf(),
        pipeline.target() == WakerId::Target(k),
        call_ensures(Pipeline::<V, S>::take_stale, (pipeline,), r),
    ensures
        r == old(pipeline).drive().targets[k as int].woken,
        final(pipeline).drive().targets == old(pipeline).drive().targets.update(
            k as int,
            Target { woken: false, ..old(pipeline).drive().targets[k as int] },
        ),
        final(pipeline).drive().ledger == old(pipeline).drive().ledger,
        final(pipeline).drive().tallies == old(pipeline).drive().tallies,
        final(pipeline).drive().waker == old(pipeline).drive().waker,
        final(pipeline).drive().nested == old(pipeline).drive().nested,
        final(pipeline).target() == old(pipeline).target(),
        final(pipeline).graph() == old(pipeline).graph(),
        final(pipeline).answered() == old(pipeline).answered(),
{
}

/// A pipeline's waker wakes the pipeline, and is counted as kept.
pub proof fn law_a_pipelines_waker_wakes_the_pipeline<V, S: Stage>(
    pipeline: &mut Pipeline<V, S>,
    r: Waker,
)
    requires
        pipeline.wf(),
        call_ensures(Pipeline::<V, S>::waker, (pipeline,), r),
    ensures
        r@ == old(pipeline).target(),
        final(pipeline).drive().targets == kept(
            old(pipeline).drive().targets,
            old(pipeline).target(),
        ),
        final(pipeline).drive().ledger == old(pipeline).drive().ledger,
        final(pipeline).drive().tallies == old(pipeline).drive().tallies,
        final(pipeline).drive().waker == old(pipeline).drive().waker,
        final(pipeline).drive().nested == old(pipeline).drive().nested,
        final(pipeline).target() == old(pipeline).target(),
        final(pipeline).graph() == old(pipeline).graph(),
        final(pipeline).answered() == old(pipeline).answered(),
{
}

/// A waker woken through a pipeline is woken, and nothing else happens.
pub proof fn law_a_pipeline_wakes_the_waker_it_is_given<V, S: Stage>(
    pipeline: &mut Pipeline<V, S>,
    waker: Waker,
)
    requires
        pipeline.wf(),
        call_ensures(Pipeline::<V, S>::wake, (pipeline, &waker), ()),
    ensures
        final(pipeline).drive().targets == woken(old(pipeline).drive().targets, waker@),
        final(pipeline).drive().ledger == old(pipeline).drive().ledger,
        final(pipeline).drive().tallies == old(pipeline).drive().tallies,
        final(pipeline).drive().waker == old(pipeline).drive().waker,
        final(pipeline).drive().nested == old(pipeline).drive().nested,
        final(pipeline).target() == old(pipeline).target(),
        final(pipeline).graph() == old(pipeline).graph(),
        final(pipeline).answered() == old(pipeline).answered(),
{
}

/// A pipeline is nested where it is said to be, and nothing else happens.
pub proof fn law_a_pipeline_is_nested_where_it_is_told<V, S: Stage>(
    pipeline: &mut Pipeline<V, S>,
    inside: bool,
)
    requires
        pipeline.wf(),
        call_ensures(Pipeline::<V, S>::nest, (pipeline, inside), ()),
    ensures
        final(pipeline).drive().nested == inside,
        final(pipeline).drive().ledger == old(pipeline).drive().ledger,
        final(pipeline).drive().targets == old(pipeline).drive().targets,
        final(pipeline).drive().tallies == old(pipeline).drive().tallies,
        final(pipeline).drive().waker == old(pipeline).drive().waker,
        final(pipeline).target() == old(pipeline).target(),
        final(pipeline).graph() == old(pipeline).graph(),
        final(pipeline).answered() == old(pipeline).answered(),
{
}

/// A pipeline that subscribes is told from then on, once, and its waker is kept for that.
pub proof fn law_a_pipeline_that_subscribes_is_told<V, S: Stage>(pipeline: &mut Pipeline<V, S>)
    requires
        pipeline.wf(),
        call_ensures(Pipeline::<V, S>::subscribe, (pipeline,), ()),
    ensures
        final(pipeline).drive().ledger == old(pipeline).drive().ledger.subscribed(
            old(pipeline).target(),
        ),
        final(pipeline).drive().targets == kept_for(
            old(pipeline).drive().targets,
            old(pipeline).drive().ledger,
            old(pipeline).target(),
        ),
        final(pipeline).drive().tallies == old(pipeline).drive().tallies,
        final(pipeline).drive().waker == old(pipeline).drive().waker,
        final(pipeline).drive().nested == old(pipeline).drive().nested,
        final(pipeline).target() == old(pipeline).target(),
        final(pipeline).graph() == old(pipeline).graph(),
        final(pipeline).answered() == old(pipeline).answered(),
{
}

/// A write through a pipeline changes the input's node in the pipeline's own ledger exactly
/// if `==` says that the value moved, and otherwise nothing. It wakes the ledger's
/// subscribers if anything reads the input, and nobody if nothing does.
pub proof fn law_a_write_changes_exactly_what_moved<V, S: Stage, T: PartialEq>(
    pipeline: &mut Pipeline<V, S>,
    input: &mut TrackedInput<T>,
    value: T,
    r: bool,
)
    requires
        pipeline.wf(),
        pipeline.drive().ledger.sane(),
        input.at().at() < pipeline.drive().ledger.labels.len(),
        call_ensures(Pipeline::<V, S>::write::<T>, (pipeline, input, value), r),
    ensures
        call_ensures(<T as PartialEq>::eq, (&old(input).held(), &value), !r),
        final(input).at() == old(input).at(),
        final(pipeline).target() == old(pipeline).target(),
        final(pipeline).graph() == old(pipeline).graph(),
        final(pipeline).answered() == old(pipeline).answered(),
        final(pipeline).drive().tallies == old(pipeline).drive().tallies,
        final(pipeline).drive().waker == old(pipeline).drive().waker,
        final(pipeline).drive().nested == old(pipeline).drive().nested,
        !r ==> final(input).held() == old(input).held() && final(pipeline).drive() == old(pipeline).drive(),
        r ==> {
            let was = old(pipeline).drive().ledger;
            let i = old(input).at().at();
            &&& final(input).held() == value
            &&& final(pipeline).drive().ledger == was.changed(i)
            &&& (forall|m: int|
                0 <= m < was.labels.len() ==> !(#[trigger] was.reads[m]).contains(i)) && (forall|
                d: int,
            | 0 <= d < was.running.len() ==> !(#[trigger] was.running[d]).seen.contains(i))
                ==> final(pipeline).drive().targets == old(pipeline).drive().targets
            &&& (exists|m: int, k: u32|
                #![trigger was.reads[m].contains(k)]
                0 <= m < was.labels.len() && k == i && was.reads[m].contains(k)) ==> final(pipeline).drive().targets == woken_all(old(pipeline).drive().targets, was.subscribers)
        },
{
    if r {
        lemma_follows_where_read(old(pipeline).drive().ledger, old(input).at().at());
    }
}

/// Something follows a node exactly if something has read it or is reading it.
pub(crate) proof fn lemma_follows_where_read(v: LedgerView, i: u32)
    requires
        v.labels.len() <= u32::MAX + 1,
    ensures
        (forall|m: int| 0 <= m < v.labels.len() ==> !(#[trigger] v.reads[m]).contains(i)) && (
        forall|d: int| 0 <= d < v.running.len() ==> !(#[trigger] v.running[d]).seen.contains(i))
            ==> v.followers(i) == Set::<u32>::empty(),
        (exists|m: int, k: u32|
            #![trigger v.reads[m].contains(k)]
            0 <= m < v.labels.len() && k == i && v.reads[m].contains(k)) ==> v.followers(i)
            != Set::<u32>::empty(),
{
    if (forall|m: int| 0 <= m < v.labels.len() ==> !(#[trigger] v.reads[m]).contains(i)) && (forall|
        d: int,
    | 0 <= d < v.running.len() ==> !(#[trigger] v.running[d]).seen.contains(i)) {
        assert(v.followers(i) =~= Set::<u32>::empty());
    }
    if exists|m: int, k: u32|
        #![trigger v.reads[m].contains(k)]
        0 <= m < v.labels.len() && k == i && v.reads[m].contains(k) {
        let (m, k) = choose|m: int, k: u32|
            #![trigger v.reads[m].contains(k)]
            0 <= m < v.labels.len() && k == i && v.reads[m].contains(k);
        assert(v.feeds(i, m as u32));
        assert(v.followers(i).contains(m as u32));
    }
}

/// The offline driver drives as is said of it.
pub proof fn law_the_offline_driver_is_a_blocking_drive<S: Stage, W: PendingWork>(
    stage: &mut S,
    input: S::Input,
    work: &mut W,
    cx: &mut Context,
    r: Result<StageAnswer<Arc<S::Output>>, DriveError<S::Error>>,
)
    requires
        cx.wf(),
        call_ensures(run_to_completion::<S, W>, (stage, &input, work, cx), r),
    ensures
        completes(
            *old(stage),
            input,
            *old(work),
            old(cx)@,
            *final(stage),
            *final(work),
            final(cx)@,
            r,
        ),
{
}

/// The counting driver drives as the offline driver does, and tells how much its tally went
/// up by meanwhile.
pub proof fn law_the_counting_driver_tells_what_its_tally_counted<S: Stage, W: PendingWork>(
    stage: &mut S,
    input: S::Input,
    work: &mut W,
    tally: Substitutions,
    cx: &mut Context,
    r: (Result<StageAnswer<Arc<S::Output>>, DriveError<S::Error>>, usize),
)
    requires
        cx.wf(),
        call_ensures(run_to_completion_counted::<S, W>, (stage, &input, work, &tally, cx), r),
    ensures
        completes(
            *old(stage),
            input,
            *old(work),
            old(cx)@,
            *final(stage),
            *final(work),
            final(cx)@,
            r.0,
        ),
        old(cx)@.tallies[tally.place() as int] + r.1 == final(cx)@.tallies[tally.place() as int],
{
}

/// The watching driver drives and reports as is said of it.
pub proof fn law_the_watching_driver_reports_every_path<S: Stage, W: PendingWork>(
    stage: &mut S,
    input: S::Input,
    work: &mut W,
    cx: &mut Context,
    r: (Result<StageAnswer<Arc<S::Output>>, DriveError<S::Error>>, WakeReport),
)
    requires
        cx.wf(),
        call_ensures(run_to_completion_watched::<S, W>, (stage, &input, work, cx), r),
    ensures
        exists|turns: Seq<Turn<S, W>>, paths: Seq<WakePath>|
            {
                &&& #[trigger] watched_drives(
                    input,
                    Turn { stage: *old(stage), work: *old(work), cx: old(cx)@ },
                    turns,
                    Turn { stage: *final(stage), work: *final(work), cx: final(cx)@ },
                    r.0,
                    paths,
                )
                &&& r.1.reports(paths)
            },
{
}

/// A frame driver polls once, handing out its own waker.
pub proof fn law_a_frame_driver_hands_out_its_own_waker<S: Stage>(
    driver: FrameDriver,
    waker: WakerId,
    stage: &mut S,
    input: S::Input,
    cx: &mut Context,
    r: StagePoll<S::Output, S::Error>,
)
    requires
        cx.wf(),
        call_ensures(FrameDriver::waker, (&driver,), waker),
        call_ensures(FrameDriver::poll_frame::<S>, (&driver, stage, &input, cx), r),
    ensures
        waker == driver.target(),
        frame_polls(*old(stage), input, driver.target(), old(cx)@, *final(stage), final(cx)@, r),
{
}

/// A new frame driver has a target of its own, which has not been heard of and forwards to
/// nobody.
pub proof fn law_a_new_frame_driver_has_a_target_of_its_own(cx: &mut Context, driver: FrameDriver)
    requires
        cx.wf(),
        call_ensures(FrameDriver::new, (cx,), driver),
    ensures
        driver.target() == WakerId::Target(old(cx)@.targets.len() as usize),
        final(cx)@.targets.len() == old(cx)@.targets.len() + 1,
        forall|t: int|
            0 <= t < old(cx)@.targets.len() ==> (#[trigger] final(cx)@.targets[t]) == old(cx)@.targets[t],
        ({
            let new = final(cx)@.targets[old(cx)@.targets.len() as int];
            new.forward is Noop && !new.woken && new.rung == 0 && new.held == 0
        }),
        final(cx)@.ledger == old(cx)@.ledger,
        final(cx)@.tallies == old(cx)@.tallies,
        final(cx)@.waker == old(cx)@.waker,
        final(cx)@.nested == old(cx)@.nested,
{
}

/// Asking a frame driver whether a wake has arrived tells exactly that, and takes its own
/// mark and no other.
pub proof fn law_asking_a_frame_driver_takes_its_mark(
    driver: FrameDriver,
    k: usize,
    cx: &mut Context,
    r: bool,
)
    requires
        cx.wf(),
        driver.target() == WakerId::Target(k),
        k < cx@.targets.len(),
        call_ensures(FrameDriver::take_stale, (&driver, cx), r),
    ensures
        r == old(cx)@.targets[k as int].woken,
        final(cx)@.targets == old(cx)@.targets.update(
            k as int,
            Target { woken: false, ..old(cx)@.targets[k as int] },
        ),
        final(cx)@.ledger == old(cx)@.ledger,
        final(cx)@.tallies == old(cx)@.tallies,
        final(cx)@.waker == old(cx)@.waker,
        final(cx)@.nested == old(cx)@.nested,
{
}

/// A new builder remembers into maps of the pipeline's own, in a drive in which nothing has
/// happened.
pub proof fn law_a_new_builder_owns_its_maps(builder: PipelineBuilder<NoMemo>)
    requires
        call_ensures(PipelineBuilder::<NoMemo>::new, (), builder),
    ensures
        !builder.is_uncached(),
        builder.given() is None,
        builder.drive().targets.len() == 0,
        builder.drive().tallies.len() == 0,
        builder.drive().waker is Noop,
        !builder.drive().nested,
        builder.drive().ledger.labels.len() == 0,
        builder.drive().ledger.running.len() == 0,
{
}

/// What a builder is told changes what it was told of and nothing else: that it is to
/// remember nothing, the store, or the drive.
pub proof fn law_a_builder_is_told_one_thing_at_a_time<G, G2>(
    builder: PipelineBuilder<G>,
    off: PipelineBuilder<G>,
    store: G2,
    stored: PipelineBuilder<G2>,
    cx: Context,
    moved: PipelineBuilder<G>,
)
    requires
        call_ensures(PipelineBuilder::<G>::uncached, (builder,), off),
        call_ensures(PipelineBuilder::<G>::store::<G2>, (builder, store), stored),
        call_ensures(PipelineBuilder::<G>::within, (builder, cx), moved),
    ensures
        off.is_uncached(),
        off.given() == builder.given(),
        off.drive() == builder.drive(),
        stored.is_uncached() == builder.is_uncached(),
        stored.given() == Some(store),
        stored.drive() == builder.drive(),
        moved.is_uncached() == builder.is_uncached(),
        moved.given() == builder.given(),
        moved.drive() == cx@,
{
}

/// A pipeline is built over what was assembled, with no version on record and with a wake
/// target of its own, which has not been heard of; its drive is otherwise the builder's.
pub proof fn law_a_built_pipeline_is_what_was_assembled<V, S: Stage, G>(
    builder: StagedPipelineBuilder<S, G>,
    pipeline: Pipeline<V, S>,
)
    requires
        builder.wf(),
        call_ensures(StagedPipelineBuilder::<S, G>::build::<V>, (builder,), pipeline),
    ensures
        pipeline.graph() == builder.assembled(),
        pipeline.answered() is None,
        pipeline.target() == WakerId::Target(builder.drive().targets.len() as usize),
        pipeline.drive().targets.len() == builder.drive().targets.len() + 1,
        forall|t: int|
            0 <= t < builder.drive().targets.len() ==> (#[trigger] pipeline.drive().targets[t])
                == builder.drive().targets[t],
        ({
            let new = pipeline.drive().targets[builder.drive().targets.len() as int];
            new.forward is Noop && !new.woken && new.rung == 0 && new.held == 0
        }),
        pipeline.drive().ledger == builder.drive().ledger,
        pipeline.drive().tallies == builder.drive().tallies,
        pipeline.drive().waker == builder.drive().waker,
        pipeline.drive().nested == builder.drive().nested,
{
}

/// What a pipeline shows of its drive is its drive.
pub proof fn law_a_pipeline_shows_its_drive<V, S: Stage>(pipeline: Pipeline<V, S>, cx: &Context)
    requires
        call_ensures(Pipeline::<V, S>::context, (&pipeline,), cx),
    ensures
        cx@ == pipeline.drive(),
{
}

} // verus!
