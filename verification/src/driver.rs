//! The two drivers: poll until there is an answer, or poll once per frame. A stage
//! cannot tell which of them is polling it.

use std::sync::Arc;

use vstd::prelude::*;

use crate::context::{lemma_met_later, met, Context, ContextView, Need};
use crate::effect::{EffectPoll, StageAnswer};
use crate::stage::{fits, Stage, StagePoll};
use crate::wake::{fresh_target, taken, WakerId};

verus! {

/// How a blocking drive ended other than with a value.
#[derive(Clone, Copy, PartialEq, Eq, Debug)]
pub enum DriveError<E> {
    /// The stage's own typed error channel.
    Failed(E),
    /// There was no answer yet and no outstanding work left to run, so polling again
    /// could only find the same.
    Stalled,
}

/// What the blocking driver runs while a poll has no answer.
///
/// Work comes to an end: each run that made progress leaves less of it outstanding.
pub trait PendingWork: Sized {
    /// How much work is left, by any measure that a run with progress brings down.
    open spec fn outstanding(&self) -> usize {
        0
    }

    /// What the work holds of the drive it runs in.
    open spec fn needs(&self) -> Set<Need> {
        Set::empty()
    }

    /// Whether a run of `pre` in state `cx` may leave `post` and `cx_post`, answering
    /// whether it made progress.
    open spec fn runs(
        pre: Self,
        cx: ContextView,
        post: Self,
        cx_post: ContextView,
        progressed: bool,
    ) -> bool {
        true
    }

    /// Make progress on something a poll is waiting for. `false` when there is nothing
    /// left to run.
    fn run_once(&mut self, cx: &mut Context) -> (r: bool)
        requires
            old(cx).wf(),
            met(old(self).needs(), old(cx)@),
        ensures
            final(cx).wf(),
            old(cx)@.later(final(cx)@),
            met(final(self).needs(), final(cx)@),
            Self::runs(*old(self), old(cx)@, *final(self), final(cx)@, r),
            r ==> final(self).outstanding() < old(self).outstanding(),
    ;
}

/// Nothing to run.
#[derive(Clone, Copy, Debug, Default)]
pub struct NoPendingWork;

impl PendingWork for NoPendingWork {
    open spec fn runs(
        pre: Self,
        cx: ContextView,
        post: Self,
        cx_post: ContextView,
        progressed: bool,
    ) -> bool {
        !progressed && cx_post == cx && post == pre
    }

    fn run_once(&mut self, cx: &mut Context) -> (r: bool) {
        proof {
            cx.lemma_sane();
        }
        false
    }
}

/// Where a drive stands between two polls.
pub struct Turn<S, W> {
    /// The stage.
    pub stage: S,
    /// The work that is left.
    pub work: W,
    /// The state of the drive.
    pub cx: ContextView,
}

/// Whether a poll at `a` had no answer, leaving the drive as `mid`, and the work then
/// run left `b`, making progress or not.
pub open spec fn waited<S: Stage, W: PendingWork>(
    input: S::Input,
    a: Turn<S, W>,
    mid: ContextView,
    b: Turn<S, W>,
    progressed: bool,
) -> bool {
    &&& S::polls(
        a.stage,
        input,
        a.cx,
        b.stage,
        mid,
        StagePoll::<S::Output, S::Error>::Pending,
    )
    &&& a.cx.later(mid)
    &&& W::runs(a.work, mid, b.work, b.cx, progressed)
    &&& mid.later(b.cx)
}

/// Whether a poll at `a` had no answer and the work then run made progress, leaving `b`.
pub open spec fn turned<S: Stage, W: PendingWork>(
    input: S::Input,
    a: Turn<S, W>,
    b: Turn<S, W>,
) -> bool {
    exists|mid: ContextView| waited(input, a, mid, b, true)
}

/// Whether a drive that stands at `last` ends with `driven`, leaving `post`.
pub open spec fn ends<S: Stage, W: PendingWork>(
    input: S::Input,
    last: Turn<S, W>,
    post: Turn<S, W>,
    driven: Result<StageAnswer<Arc<S::Output>>, DriveError<S::Error>>,
) -> bool {
    match driven {
        Ok(answer) => {
            &&& S::polls(last.stage, input, last.cx, post.stage, post.cx, EffectPoll::Ready(answer))
            &&& post.work == last.work
        },
        Err(DriveError::Failed(error)) => {
            &&& S::polls(last.stage, input, last.cx, post.stage, post.cx, EffectPoll::Failed(error))
            &&& post.work == last.work
        },
        Err(DriveError::Stalled) => exists|mid: ContextView| waited(input, last, mid, post, false),
    }
}

/// Whether a blocking drive from `pre` takes `turns` and ends with `driven`, leaving
/// `post`.
pub open spec fn drives<S: Stage, W: PendingWork>(
    input: S::Input,
    pre: Turn<S, W>,
    turns: Seq<Turn<S, W>>,
    post: Turn<S, W>,
    driven: Result<StageAnswer<Arc<S::Output>>, DriveError<S::Error>>,
) -> bool {
    &&& turns.len() > 0
    &&& turns[0] == pre
    &&& forall|i: int| 0 <= i < turns.len() - 1 ==> #[trigger] turned(input, turns[i], turns[i + 1])
    &&& ends(input, turns.last(), post, driven)
}

/// Whether a blocking drive of `stage` from state `cx` may end with `driven`, leaving
/// `stage_post`, `work_post` and `cx_post`. The caller's own waker is what it was.
pub open spec fn completes<S: Stage, W: PendingWork>(
    stage: S,
    input: S::Input,
    work: W,
    cx: ContextView,
    stage_post: S,
    work_post: W,
    cx_post: ContextView,
    driven: Result<StageAnswer<Arc<S::Output>>, DriveError<S::Error>>,
) -> bool {
    exists|turns: Seq<Turn<S, W>>, end: ContextView|
        {
            &&& #[trigger] drives(
                input,
                Turn { stage, work, cx: cx.handing(WakerId::Noop) },
                turns,
                Turn { stage: stage_post, work: work_post, cx: end },
                driven,
            )
            &&& cx_post == end.handing(cx.waker)
        }
}

/// The offline driver: poll until the stage answers, running `work` whenever it has no
/// answer yet.
///
/// The waker handed to every poll is of no consequence: the loop polls again without
/// being asked.
pub fn run_to_completion<S: Stage, W: PendingWork>(
    stage: &mut S,
    input: &S::Input,
    work: &mut W,
    cx: &mut Context,
) -> (r: Result<StageAnswer<Arc<S::Output>>, DriveError<S::Error>>)
    requires
        old(cx).wf(),
        fits(*old(stage), old(cx)@),
        met(old(work).needs(), old(cx)@),
    ensures
        final(cx).wf(),
        old(cx)@.later(final(cx)@),
        fits(*final(stage), final(cx)@),
        met(final(work).needs(), final(cx)@),
        completes(
            *old(stage),
            *input,
            *old(work),
            old(cx)@,
            *final(stage),
            *final(work),
            final(cx)@,
            r,
        ),
{
    let handed: WakerId = cx.handed;
    proof {
        cx.lemma_sane();
    }
    let ghost start = cx@;
    cx.handed = WakerId::Noop;
    let ghost pre = Turn { stage: *stage, work: *work, cx: cx@ };
    let ghost mut turns: Seq<Turn<S, W>> = seq![pre];
    proof {
        assert(cx.wf());
        lemma_met_later(stage.needs(), start, cx@);
        lemma_met_later(work.needs(), start, cx@);
    }
    loop
        invariant
            cx.wf(),
            start.grows(cx@),
            start.sane(),
            cx@.waker == WakerId::Noop,
            handed == start.waker,
            start == old(cx)@,
            fits(*stage, cx@),
            met(work.needs(), cx@),
            pre == (Turn {
                stage: *old(stage),
                work: *old(work),
                cx: old(cx)@.handing(WakerId::Noop),
            }),
            turns.len() > 0,
            turns[0] == pre,
            turns.last() == (Turn { stage: *stage, work: *work, cx: cx@ }),
            forall|i: int|
                0 <= i < turns.len() - 1 ==> #[trigger] turned(*input, turns[i], turns[i + 1]),
        decreases work.outstanding(),
    {
        let ghost last = turns.last();
        let polled = stage.poll_stage(input, cx);
        let ghost mid = cx@;
        proof {
            start.lemma_later_transitive(last.cx, mid);
            lemma_met_later(work.needs(), last.cx, mid);
        }
        match polled {
            EffectPoll::Ready(answer) => {
                cx.handed = handed;
                proof {
                    lemma_handed_back(start, mid, cx@);
                    lemma_met_later(stage.needs(), mid, cx@);
                    lemma_met_later(work.needs(), mid, cx@);
                    let post = Turn { stage: *stage, work: *work, cx: mid };
                    assert(drives(*input, pre, turns, post, Ok(answer)));
                }
                return Ok(answer);
            },
            EffectPoll::Failed(error) => {
                cx.handed = handed;
                proof {
                    lemma_handed_back(start, mid, cx@);
                    lemma_met_later(stage.needs(), mid, cx@);
                    lemma_met_later(work.needs(), mid, cx@);
                    let post = Turn { stage: *stage, work: *work, cx: mid };
                    assert(drives(*input, pre, turns, post, Err(DriveError::Failed(error))));
                }
                return Err(DriveError::Failed(error));
            },
            EffectPoll::Pending => {
                let progressed = work.run_once(cx);
                let ghost next = cx@;
                proof {
                    let now = Turn { stage: *stage, work: *work, cx: next };
                    assert(waited(*input, last, mid, now, progressed));
                    start.lemma_later_transitive(mid, next);
                    lemma_met_later(stage.needs(), mid, next);
                }
                if !progressed {
                    cx.handed = handed;
                    proof {
                        lemma_handed_back(start, next, cx@);
                        lemma_met_later(stage.needs(), next, cx@);
                        lemma_met_later(work.needs(), next, cx@);
                        let post = Turn { stage: *stage, work: *work, cx: next };
                        assert(ends::<S, W>(*input, last, post, Err(DriveError::Stalled)));
                        assert(drives(*input, pre, turns, post, Err(DriveError::Stalled)));
                    }
                    return Err(DriveError::Stalled);
                }
                proof {
                    let now = Turn { stage: *stage, work: *work, cx: next };
                    assert(turned(*input, last, now));
                    let longer = turns.push(now);
                    assert forall|i: int| 0 <= i < longer.len() - 1 implies #[trigger] turned(
                        *input,
                        longer[i],
                        longer[i + 1],
                    ) by {
                        if i < turns.len() - 1 {
                            assert(turned(*input, turns[i], turns[i + 1]));
                        }
                    }
                    turns = longer;
                }
            },
        }
    }
}

/// Handing the caller's waker out again, after a drive that handed out another.
pub proof fn lemma_handed_back(start: ContextView, now: ContextView, back: ContextView)
    requires
        start.sane(),
        start.grows(now),
        back == now.handing(start.waker),
    ensures
        back.sane(),
        now.grows(back),
        start.later(back),
{
}

/// The real-time driver: poll once per frame and return whatever the stage says.
/// Nothing waits inside a frame.
pub struct FrameDriver {
    flag: WakerId,
}

impl FrameDriver {
    /// The wake target of this driver.
    pub closed spec fn target(&self) -> WakerId {
        self.flag
    }

    /// A driver with a fresh, unstale flag.
    pub fn new(cx: &mut Context) -> (r: FrameDriver)
        requires
            old(cx).wf(),
        ensures
            final(cx).wf(),
            old(cx)@.later(final(cx)@),
            r.target() == WakerId::Target(old(cx)@.targets.len() as usize),
            old(cx)@.targets.len() <= usize::MAX,
            final(cx)@ == (ContextView {
                targets: old(cx)@.targets.push(fresh_target(WakerId::Noop)),
                ..old(cx)@
            }),
    {
        proof {
            cx.lemma_sane();
        }
        let flag: WakerId = cx.wakes.mint(WakerId::Noop);
        FrameDriver { flag }
    }

    /// Which target the waker that this driver hands to every poll wakes.
    pub fn waker(&self) -> (r: WakerId)
        ensures
            r == self.target(),
    {
        self.flag
    }

    /// Whether a wake has arrived since this was last asked. Asking clears it.
    pub fn take_stale(&self, cx: &mut Context) -> (r: bool)
        requires
            old(cx).wf(),
        ensures
            final(cx).wf(),
            old(cx)@.later(final(cx)@),
            r == (self.target() matches WakerId::Target(k) && k < old(cx)@.targets.len()
                && old(cx)@.targets[k as int].woken),
            final(cx)@ == (ContextView {
                targets: taken(old(cx)@.targets, self.target()),
                ..old(cx)@
            }),
    {
        proof {
            cx.lemma_sane();
        }
        cx.wakes.take(self.flag)
    }

    /// Poll the stage once. Returns immediately, whatever the answer.
    pub fn poll_frame<S: Stage>(&self, stage: &mut S, input: &S::Input, cx: &mut Context) -> (r:
        StagePoll<S::Output, S::Error>)
        requires
            old(cx).wf(),
            fits(*old(stage), old(cx)@),
            crate::wake::known(old(cx)@.targets, self.target()),
        ensures
            final(cx).wf(),
            old(cx)@.later(final(cx)@),
            fits(*final(stage), final(cx)@),
            frame_polls(
                *old(stage),
                *input,
                self.target(),
                old(cx)@,
                *final(stage),
                final(cx)@,
                r,
            ),
            r == StagePoll::<S::Output, S::Error>::Ready(StageAnswer::Unchanged) ==> old(
                stage,
            ).may_repeat(),
            final(stage).may_repeat() ==> old(stage).may_repeat() || (r matches EffectPoll::Ready(
                StageAnswer::Computed(_),
            )),
    {
        let handed: WakerId = cx.handed;
        proof {
            cx.lemma_sane();
        }
        let ghost start = cx@;
        cx.handed = self.flag;
        proof {
            lemma_met_later(stage.needs(), start, cx@);
        }
        let ghost inside = cx@;
        let polled = stage.poll_stage(input, cx);
        let ghost end = cx@;
        cx.handed = handed;
        proof {
            start.lemma_later_transitive(inside, end);
            lemma_handed_back(start, end, cx@);
            lemma_met_later(stage.needs(), end, cx@);
        }
        polled
    }
}

/// Whether polling `pre` once, handing it `waker`, may leave `post` and `cx_post` and
/// answer `answer`. The caller's own waker is what it was.
pub open spec fn frame_polls<S: Stage>(
    pre: S,
    input: S::Input,
    waker: WakerId,
    cx: ContextView,
    post: S,
    cx_post: ContextView,
    answer: StagePoll<S::Output, S::Error>,
) -> bool {
    exists|end: ContextView|
        {
            &&& #[trigger] S::polls(pre, input, cx.handing(waker), post, end, answer)
            &&& cx.handing(waker).later(end)
            &&& cx_post == end.handing(cx.waker)
        }
}

} // verus!
