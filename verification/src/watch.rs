//! Watching a poll for the wake it owes.
//!
//! A poll with no answer must have arranged a wake, or whoever waits for it is never
//! told. A driver that polls again without being asked cannot notice; one that waits
//! to be woken never finds out. Watching makes the omission visible to the first.

use std::sync::Arc;

use vstd::prelude::*;

use crate::context::{lemma_met_later, met, Context, ContextView};
use crate::driver::{lemma_handed_back, DriveError, PendingWork, Turn};
use crate::effect::{EffectPoll, StageAnswer};
use crate::stage::{fits, Stage, StagePoll};
use crate::wake::{fresh_target, known, left, Target, WakerId};

verus! {

/// What a poll with no answer left behind for whoever lands the value.
#[derive(Clone, Copy, PartialEq, Eq, Structural, Hash, Debug)]
pub enum WakePath {
    /// A waker is being kept past the poll. Something can wake this.
    Registered,
    /// The poll woke its waker before it returned: a yield rather than a park.
    Woken,
    /// Neither. Nothing can wake this poll: the value is lost rather than late.
    Missing,
}

/// The path a poll left, from whether it woke its waker and whether one is left.
pub open spec fn path_left(woken: bool, left: bool) -> WakePath {
    if woken {
        WakePath::Woken
    } else if left {
        WakePath::Registered
    } else {
        WakePath::Missing
    }
}

/// Whether a poll may have left `path`, from what became of its wake target. Where it kept a
/// waker and did not release it, whether that waker has been dropped decides.
pub open spec fn leaves(probe: Target, path: WakePath) -> bool {
    ||| path == path_left(probe.woken, false)
    ||| probe.held > 0 && path == path_left(probe.woken, true)
}

impl WakePath {
    /// The path of a poll that woke its waker or not, and of which one is left or not.
    pub fn of(woken: bool, left: bool) -> (r: WakePath)
        ensures
            r == path_left(woken, left),
    {
        if woken {
            WakePath::Woken
        } else if left {
            WakePath::Registered
        } else {
            WakePath::Missing
        }
    }
}

/// The path left at `probe`, once it has been asked how many shares its token has: a waker is
/// left where one was kept and not released, and the token has a share beyond the target's.
pub open spec fn path_of(probe: Target) -> WakePath {
    path_left(probe.woken, probe.held > 0 && probe.found > 1)
}

/// `end`, with what target `at` was found to have, when it was asked, as `after` has it.
pub open spec fn asked(end: ContextView, at: int, after: ContextView) -> ContextView {
    ContextView {
        targets: end.targets.update(
            at,
            Target { found: after.targets[at].found, ..end.targets[at] },
        ),
        ..end
    }
}

/// The state in which a watched poll runs: a fresh target that passes its wakes on to
/// `wake`, and its handle as the waker.
pub open spec fn probed(cx: ContextView, wake: WakerId) -> ContextView {
    ContextView {
        targets: cx.targets.push(fresh_target(wake)),
        waker: WakerId::Target(cx.targets.len() as usize),
        ..cx
    }
}

/// Whether a watched poll of `pre`, passing wakes on to `wake`, may leave `post` and
/// `cx_post`, answering `answer` and reporting `path`.
pub open spec fn watched_polls<S: Stage>(
    pre: S,
    input: S::Input,
    wake: WakerId,
    cx: ContextView,
    post: S,
    cx_post: ContextView,
    answer: StagePoll<S::Output, S::Error>,
    path: Option<WakePath>,
) -> bool {
    exists|end: ContextView|
        {
            &&& #[trigger] S::polls(pre, input, probed(cx, wake), post, end, answer)
            &&& probed(cx, wake).later(end)
            &&& cx_post == asked(end, cx.targets.len() as int, cx_post).handing(cx.waker)
            &&& match path {
                Some(path) => answer is Pending && path == path_of(
                    cx_post.targets[cx.targets.len() as int],
                ),
                None => !(answer is Pending),
            }
        }
}

/// Poll `stage`, and report what an answer of `Pending` left behind.
///
/// `wake` is the waker the caller would have handed over anyway. Every wake that
/// reaches the poll's own target is passed straight on to it, so watching a poll
/// cannot turn a working graph into a stalled one. A poll that did not answer
/// `Pending` owes no wake and reports no path.
pub fn poll_watched<S: Stage>(
    stage: &mut S,
    input: &S::Input,
    wake: WakerId,
    cx: &mut Context,
) -> (r: (StagePoll<S::Output, S::Error>, Option<WakePath>))
    requires
        old(cx).wf(),
        fits(*old(stage), old(cx)@),
        known(old(cx)@.targets, wake),
    ensures
        final(cx).wf(),
        old(cx)@.later(final(cx)@),
        fits(*final(stage), final(cx)@),
        watched_polls(*old(stage), *input, wake, old(cx)@, *final(stage), final(cx)@, r.0, r.1),
        final(cx).wakes.has_shares(
            old(cx)@.targets.len() as int,
            final(cx)@.targets[old(cx)@.targets.len() as int].found,
        ),
        r.1 matches Some(path) ==> {
            let probe = final(cx)@.targets[old(cx)@.targets.len() as int];
            path == (if probe.woken {
                WakePath::Woken
            } else if probe.held > 0 && probe.found > 1 {
                WakePath::Registered
            } else {
                WakePath::Missing
            })
        },
{
    let handed: WakerId = cx.handed;
    proof {
        cx.lemma_sane();
    }
    let ghost start = cx@;
    let probe: WakerId = cx.wakes.mint(wake);
    cx.handed = probe;
    let ghost inside = cx@;
    proof {
        assert(inside =~= probed(start, wake));
        lemma_met_later(stage.needs(), start, inside);
    }
    let polled = stage.poll_stage(input, cx);
    let ghost end = cx@;
    proof {
        cx.lemma_sane();
        assert(end.targets.len() > start.targets.len());
    }
    cx.wakes.ask(probe);
    let ghost known_now = cx@;
    let woken = cx.wakes.is_woken(probe);
    let held: usize = cx.wakes.held(probe);
    let found: usize = cx.wakes.found(probe);
    cx.handed = handed;
    proof {
        start.lemma_later_transitive(inside, end);
        start.lemma_later_transitive(end, known_now);
        lemma_handed_back(start, known_now, cx@);
        lemma_met_later(stage.needs(), end, known_now);
        lemma_met_later(stage.needs(), known_now, cx@);
        assert(cx@ =~= asked(end, start.targets.len() as int, cx@).handing(start.waker));
    }
    if !polled.is_pending() {
        return (polled, None);
    }
    (polled, Some(WakePath::of(woken, left(held, found))))
}

/// What the polls of one watched drive owed and left. Counts go up to what a `usize`
/// can count.
#[derive(Clone, Copy, PartialEq, Eq, Structural, Hash, Debug)]
pub struct WakeReport {
    pending: usize,
    unwakeable: usize,
}

/// A count, up to what a `usize` can count.
pub open spec fn capped(n: nat) -> usize {
    if n <= usize::MAX {
        n as usize
    } else {
        usize::MAX
    }
}

/// How many of `paths` lead nowhere.
pub open spec fn missing(paths: Seq<WakePath>) -> nat
    decreases paths.len(),
{
    if paths.len() == 0 {
        0
    } else {
        missing(paths.drop_last()) + if paths.last() == WakePath::Missing {
            1nat
        } else {
            0nat
        }
    }
}

impl WakeReport {
    /// No more polls left no path than had no answer.
    #[verifier::type_invariant]
    spec fn bounded(self) -> bool {
        self.unwakeable <= self.pending
    }

    /// How many polls had no answer.
    pub closed spec fn pending_count(&self) -> usize {
        self.pending
    }

    /// How many of those left no wake path.
    pub closed spec fn unwakeable_count(&self) -> usize {
        self.unwakeable
    }

    /// Whether this is the report of a drive whose polls without an answer left `paths`.
    pub open spec fn reports(&self, paths: Seq<WakePath>) -> bool {
        &&& self.pending_count() == capped(paths.len())
        &&& self.unwakeable_count() == capped(missing(paths))
    }

    /// A report of nothing.
    pub fn new() -> (r: WakeReport)
        ensures
            r.reports(Seq::<WakePath>::empty()),
    {
        WakeReport { pending: 0, unwakeable: 0 }
    }

    /// Count one more poll that had no answer and left `path`.
    fn count(&mut self, path: WakePath, Ghost(paths): Ghost<Seq<WakePath>>)
        requires
            old(self).reports(paths),
        ensures
            final(self).reports(paths.push(path)),
    {
        proof {
            use_type_invariant(&*self);
            assert(paths.push(path).drop_last() =~= paths);
        }
        if self.pending < usize::MAX {
            self.pending = self.pending + 1;
        }
        if path == WakePath::Missing && self.unwakeable < usize::MAX {
            self.unwakeable = self.unwakeable + 1;
        }
    }

    /// How many polls had no answer.
    pub fn pending_polls(&self) -> (r: usize)
        ensures
            r == self.pending_count(),
            self.unwakeable_count() <= r,
    {
        proof {
            use_type_invariant(self);
        }
        self.pending
    }

    /// How many of those left no wake path at all.
    pub fn unwakeable_polls(&self) -> (r: usize)
        ensures
            r == self.unwakeable_count(),
            r <= self.pending_count(),
    {
        proof {
            use_type_invariant(self);
        }
        self.unwakeable
    }

    /// Nothing owed a wake and failed to leave one.
    pub fn is_clean(&self) -> (r: bool)
        ensures
            r == (self.unwakeable_count() == 0),
    {
        self.unwakeable == 0
    }
}

impl Default for WakeReport {
    fn default() -> (r: WakeReport)
        ensures
            r.reports(Seq::<WakePath>::empty()),
    {
        WakeReport::new()
    }
}

/// Whether a watched poll at `a` had no answer, leaving `path` and the drive as `mid`,
/// and the work then run left `b`, making progress or not.
pub open spec fn watched_waited<S: Stage, W: PendingWork>(
    input: S::Input,
    a: Turn<S, W>,
    path: WakePath,
    mid: ContextView,
    b: Turn<S, W>,
    progressed: bool,
) -> bool {
    &&& watched_polls(
        a.stage,
        input,
        WakerId::Noop,
        a.cx,
        b.stage,
        mid,
        StagePoll::<S::Output, S::Error>::Pending,
        Some(path),
    )
    &&& W::runs(a.work, mid, b.work, b.cx, progressed)
    &&& mid.later(b.cx)
}

/// Whether a watched poll at `a` had no answer, leaving `path`, and the work then run
/// made progress, leaving `b`.
pub open spec fn watched_turned<S: Stage, W: PendingWork>(
    input: S::Input,
    a: Turn<S, W>,
    path: WakePath,
    b: Turn<S, W>,
) -> bool {
    exists|mid: ContextView| watched_waited(input, a, path, mid, b, true)
}

/// Whether a watched drive that stands at `last`, having left `so_far`, ends with
/// `driven`, leaving `post` and in all `paths`.
pub open spec fn watched_ends<S: Stage, W: PendingWork>(
    input: S::Input,
    last: Turn<S, W>,
    so_far: Seq<WakePath>,
    post: Turn<S, W>,
    driven: Result<StageAnswer<Arc<S::Output>>, DriveError<S::Error>>,
    paths: Seq<WakePath>,
) -> bool {
    match driven {
        Ok(answer) => {
            &&& watched_polls(
                last.stage,
                input,
                WakerId::Noop,
                last.cx,
                post.stage,
                post.cx,
                EffectPoll::Ready(answer),
                None,
            )
            &&& post.work == last.work
            &&& paths == so_far
        },
        Err(DriveError::Failed(error)) => {
            &&& watched_polls(
                last.stage,
                input,
                WakerId::Noop,
                last.cx,
                post.stage,
                post.cx,
                EffectPoll::Failed(error),
                None,
            )
            &&& post.work == last.work
            &&& paths == so_far
        },
        Err(DriveError::Stalled) => exists|mid: ContextView, path: WakePath|
            {
                &&& #[trigger] watched_waited(input, last, path, mid, post, false)
                &&& paths == so_far.push(path)
            },
    }
}

/// Whether a watched blocking drive from `pre` takes `turns` and ends with `driven`,
/// leaving `post`, its polls without an answer having left `paths`.
pub open spec fn watched_drives<S: Stage, W: PendingWork>(
    input: S::Input,
    pre: Turn<S, W>,
    turns: Seq<Turn<S, W>>,
    post: Turn<S, W>,
    driven: Result<StageAnswer<Arc<S::Output>>, DriveError<S::Error>>,
    paths: Seq<WakePath>,
) -> bool {
    &&& turns.len() > 0
    &&& turns[0] == pre
    &&& paths.len() >= turns.len() - 1
    &&& forall|i: int|
        0 <= i < turns.len() - 1 ==> #[trigger] watched_turned(
            input,
            turns[i],
            paths[i],
            turns[i + 1],
        )
    &&& watched_ends(
        input,
        turns.last(),
        paths.take(turns.len() - 1),
        post,
        driven,
        paths,
    )
}

/// [`run_to_completion`](crate::driver::run_to_completion), reporting what its polls
/// without an answer left behind. It drives as the offline driver does; the report
/// rides beside the result.
pub fn run_to_completion_watched<S: Stage, W: PendingWork>(
    stage: &mut S,
    input: &S::Input,
    work: &mut W,
    cx: &mut Context,
) -> (r: (Result<StageAnswer<Arc<S::Output>>, DriveError<S::Error>>, WakeReport))
    requires
        old(cx).wf(),
        fits(*old(stage), old(cx)@),
        met(old(work).needs(), old(cx)@),
    ensures
        final(cx).wf(),
        old(cx)@.later(final(cx)@),
        fits(*final(stage), final(cx)@),
        met(final(work).needs(), final(cx)@),
        exists|turns: Seq<Turn<S, W>>, paths: Seq<WakePath>|
            {
                &&& #[trigger] watched_drives(
                    *input,
                    Turn { stage: *old(stage), work: *old(work), cx: old(cx)@ },
                    turns,
                    Turn { stage: *final(stage), work: *final(work), cx: final(cx)@ },
                    r.0,
                    paths,
                )
                &&& r.1.reports(paths)
            },
{
    let mut report: WakeReport = WakeReport::new();
    proof {
        cx.lemma_sane();
    }
    let ghost start = cx@;
    let ghost pre = Turn { stage: *stage, work: *work, cx: cx@ };
    let ghost mut turns: Seq<Turn<S, W>> = seq![pre];
    let ghost mut paths: Seq<WakePath> = Seq::empty();
    loop
        invariant
            cx.wf(),
            start.later(cx@),
            start == old(cx)@,
            fits(*stage, cx@),
            met(work.needs(), cx@),
            pre == (Turn { stage: *old(stage), work: *old(work), cx: old(cx)@ }),
            turns.len() > 0,
            turns[0] == pre,
            turns.last() == (Turn { stage: *stage, work: *work, cx: cx@ }),
            paths.len() == turns.len() - 1,
            forall|i: int|
                0 <= i < turns.len() - 1 ==> #[trigger] watched_turned(
                    *input,
                    turns[i],
                    paths[i],
                    turns[i + 1],
                ),
            report.reports(paths),
        decreases work.outstanding(),
    {
        let ghost last = turns.last();
        let (polled, path) = poll_watched(stage, input, WakerId::Noop, cx);
        let ghost mid = cx@;
        proof {
            start.lemma_later_transitive(last.cx, mid);
            lemma_met_later(work.needs(), last.cx, mid);
            assert(paths.take(turns.len() - 1) =~= paths);
        }
        match polled {
            EffectPoll::Ready(answer) => {
                let out = (Ok(answer), report);
                proof {
                    let post = Turn { stage: *stage, work: *work, cx: mid };
                    assert(watched_drives(*input, pre, turns, post, out.0, paths));
                }
                return out;
            },
            EffectPoll::Failed(error) => {
                let out = (Err(DriveError::Failed(error)), report);
                proof {
                    let post = Turn { stage: *stage, work: *work, cx: mid };
                    assert(watched_drives(*input, pre, turns, post, out.0, paths));
                }
                return out;
            },
            EffectPoll::Pending => {
                let left: WakePath = match path {
                    Some(left) => left,
                    None => WakePath::Missing,
                };
                report.count(left, Ghost(paths));
                let progressed = work.run_once(cx);
                let ghost next = cx@;
                proof {
                    let now = Turn { stage: *stage, work: *work, cx: next };
                    assert(watched_waited(*input, last, left, mid, now, progressed));
                    start.lemma_later_transitive(mid, next);
                    lemma_met_later(stage.needs(), mid, next);
                    assert(paths.push(left).take(turns.len() - 1) =~= paths);
                }
                if !progressed {
                    let out = (Err(DriveError::Stalled), report);
                    proof {
                        let post = Turn { stage: *stage, work: *work, cx: next };
                        let all = paths.push(left);
                        assert(watched_ends::<S, W>(
                            *input,
                            last,
                            paths,
                            post,
                            Err(DriveError::Stalled),
                            all,
                        ));
                        assert forall|i: int|
                            0 <= i < turns.len() - 1 implies #[trigger] watched_turned(
                            *input,
                            turns[i],
                            all[i],
                            turns[i + 1],
                        ) by {
                            assert(watched_turned(*input, turns[i], paths[i], turns[i + 1]));
                        }
                        assert(watched_drives(*input, pre, turns, post, out.0, all));
                    }
                    return out;
                }
                proof {
                    let now = Turn { stage: *stage, work: *work, cx: next };
                    assert(watched_turned(*input, last, left, now));
                    let longer = turns.push(now);
                    let all = paths.push(left);
                    assert forall|i: int|
                        0 <= i < longer.len() - 1 implies #[trigger] watched_turned(
                        *input,
                        longer[i],
                        all[i],
                        longer[i + 1],
                    ) by {
                        if i < turns.len() - 1 {
                            assert(watched_turned(*input, turns[i], paths[i], turns[i + 1]));
                        }
                    }
                    turns = longer;
                    paths = all;
                }
            },
        }
    }
}

} // verus!
