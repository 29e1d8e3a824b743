//! A built pipeline: the runner, and the only thing that drives.

use std::sync::Arc;

use vstd::prelude::*;
use vstd::std_specs::cmp::PartialEqSpec;

use crate::context::{lemma_met_later, met, revalidating, Context, ContextView};
use crate::driver::{
    completes, frame_polls, run_to_completion, DriveError, FrameDriver, NoPendingWork, PendingWork,
    Turn,
};
use crate::effect::{EffectPoll, StageAnswer};
use crate::stage::{fits, Stage, StagePoll};
use crate::track::kept_for;
use crate::track::nodes::{can_change, changed_at, woken_for, TrackedInput};
use crate::wake::{kept, known, taken, woken, Target, Waker, WakerId};
use crate::watch::{run_to_completion_watched, watched_drives, WakePath, WakeReport};

verus! {

/// What a run answered, where it did not fail.
#[derive(Clone, PartialEq, Eq, Debug)]
pub enum Run<T> {
    /// Work happened: take the new value.
    Computed(Arc<T>),
    /// The value already held derives from exactly this state: keep it.
    Unchanged,
    /// Not ready. A wake is coming.
    Delayed,
}

/// A built pipeline, over versions `V` that it compares and never makes.
pub struct Pipeline<V, S> {
    graph: S,
    frame: FrameDriver,
    cx: Context,
    answered: Option<V>,
}

/// Whether target `waker` is marked in `targets`.
pub open spec fn marked(targets: Seq<Target>, waker: WakerId) -> bool {
    waker matches WakerId::Target(k) && k < targets.len() && targets[k as int].woken
}

/// Whether the version gate answers for the graph: the version equals the one last
/// answered for and no wake has arrived since.
pub open spec fn gated<V: PartialEq>(answered: Option<V>, version: V, stale: bool) -> bool {
    &&& answered matches Some(last) && last.eq_spec(&version)
    &&& !stale
}

/// What a run makes of the graph's answer.
pub open spec fn run_answer<T, E>(polled: StagePoll<T, E>) -> Result<Run<T>, E> {
    match polled {
        EffectPoll::Ready(StageAnswer::Computed(value)) => Ok(Run::Computed(value)),
        EffectPoll::Ready(StageAnswer::Unchanged) => Ok(Run::Unchanged),
        EffectPoll::Pending => Ok(Run::Delayed),
        EffectPoll::Failed(error) => Err(error),
    }
}

/// The version on record after the graph answered `polled` for `version`: that version
/// if there was an answer, and otherwise what it was, so that the version is tried again.
pub open spec fn version_after<V, T, E>(
    answered: Option<V>,
    version: V,
    polled: StagePoll<T, E>,
) -> Option<V> {
    if polled is Ready {
        Some(version)
    } else {
        answered
    }
}

impl<V, S> Pipeline<V, S> {
    /// The graph.
    pub closed spec fn graph(&self) -> S {
        self.graph
    }

    /// The state of the drive.
    pub closed spec fn drive(&self) -> ContextView {
        self.cx@
    }

    /// The wake target of the pipeline.
    pub closed spec fn target(&self) -> WakerId {
        self.frame.target()
    }

    /// The version last answered for.
    pub closed spec fn answered(&self) -> Option<V> {
        self.answered
    }

    /// Whether a wake has arrived and not been taken.
    pub open spec fn is_stale(&self) -> bool {
        marked(self.drive().targets, self.target())
    }

    /// The state of the drive once the wake mark has been taken.
    pub open spec fn drive_taken(&self) -> ContextView {
        ContextView { targets: taken(self.drive().targets, self.target()), ..self.drive() }
    }

    /// The drive's own parts are well formed.
    pub closed spec fn cx_wf(&self) -> bool {
        self.cx.wf()
    }
}

impl<V, S: Stage> Pipeline<V, S> {
    /// The graph can be polled in the pipeline's drive, and wakes reach the pipeline.
    pub open spec fn wf(&self) -> bool {
        &&& self.cx_wf()
        &&& fits(self.graph(), self.drive())
        &&& known(self.drive().targets, self.target())
    }

    /// A pipeline over `graph`, driven by `frame` in `cx`.
    pub(crate) fn over(graph: S, frame: FrameDriver, cx: Context) -> (r: Pipeline<V, S>)
        requires
            cx.wf(),
            fits(graph, cx@),
            known(cx@.targets, frame.target()),
        ensures
            r.wf(),
            r.graph() == graph,
            r.drive() == cx@,
            r.target() == frame.target(),
            r.answered() is None,
    {
        Pipeline { graph, frame, cx, answered: None }
    }

    /// The blocking drive: poll until there is an answer or a failure, running `work`
    /// while there is neither.
    pub fn run_blocking<W: PendingWork>(&mut self, input: &S::Input, work: &mut W) -> (r: Result<
        StageAnswer<Arc<S::Output>>,
        DriveError<S::Error>,
    >)
        requires
            old(self).wf(),
            met(old(work).needs(), old(self).drive()),
        ensures
            final(self).wf(),
            final(self).target() == old(self).target(),
            final(self).answered() == old(self).answered(),
            met(final(work).needs(), final(self).drive()),
            completes(
                old(self).graph(),
                *input,
                *old(work),
                old(self).drive(),
                final(self).graph(),
                *final(work),
                final(self).drive(),
                r,
            ),
    {
        run_to_completion(&mut self.graph, input, work, &mut self.cx)
    }

    /// The blocking drive with nothing to run, for graphs of pure stages.
    pub fn run_pure(&mut self, input: &S::Input) -> (r: Result<
        StageAnswer<Arc<S::Output>>,
        DriveError<S::Error>,
    >)
        requires
            old(self).wf(),
        ensures
            final(self).wf(),
            final(self).target() == old(self).target(),
            final(self).answered() == old(self).answered(),
            completes(
                old(self).graph(),
                *input,
                NoPendingWork,
                old(self).drive(),
                final(self).graph(),
                NoPendingWork,
                final(self).drive(),
                r,
            ),
    {
        let mut work = NoPendingWork;
        self.run_blocking(input, &mut work)
    }

    /// The blocking drive, reporting what its polls without an answer left behind.
    pub fn run_watched<W: PendingWork>(&mut self, input: &S::Input, work: &mut W) -> (r: (
        Result<StageAnswer<Arc<S::Output>>, DriveError<S::Error>>,
        WakeReport,
    ))
        requires
            old(self).wf(),
            met(old(work).needs(), old(self).drive()),
        ensures
            final(self).wf(),
            final(self).target() == old(self).target(),
            final(self).answered() == old(self).answered(),
            met(final(work).needs(), final(self).drive()),
            exists|turns: Seq<Turn<S, W>>, paths: Seq<WakePath>|
                {
                    &&& #[trigger] watched_drives(
                        *input,
                        Turn { stage: old(self).graph(), work: *old(work), cx: old(self).drive() },
                        turns,
                        Turn {
                            stage: final(self).graph(),
                            work: *final(work),
                            cx: final(self).drive(),
                        },
                        r.0,
                        paths,
                    )
                    &&& r.1.reports(paths)
                },
    {
        run_to_completion_watched(&mut self.graph, input, work, &mut self.cx)
    }

    /// The real-time drive: poll once and return whatever the graph answers.
    pub fn poll_frame(&mut self, input: &S::Input) -> (r: StagePoll<S::Output, S::Error>)
        requires
            old(self).wf(),
        ensures
            final(self).wf(),
            final(self).target() == old(self).target(),
            final(self).answered() == old(self).answered(),
            frame_polls(
                old(self).graph(),
                *input,
                old(self).target(),
                old(self).drive(),
                final(self).graph(),
                final(self).drive(),
                r,
            ),
    {
        self.frame.poll_frame(&mut self.graph, input, &mut self.cx)
    }

    /// Whether a wake has arrived since this was last asked. Asking clears it.
    pub fn take_stale(&mut self) -> (r: bool)
        requires
            old(self).wf(),
        ensures
            final(self).wf(),
            r == old(self).is_stale(),
            final(self).target() == old(self).target(),
            final(self).graph() == old(self).graph(),
            final(self).answered() == old(self).answered(),
            final(self).drive() == old(self).drive_taken(),
    {
        let ghost start = self.cx@;
        let r = self.frame.take_stale(&mut self.cx);
        proof {
            lemma_met_later(self.graph.needs(), start, self.cx@);
        }
        r
    }

    /// A waker of the pipeline's own target, for landing values out of band.
    pub fn waker(&mut self) -> (r: Waker)
        requires
            old(self).wf(),
        ensures
            final(self).wf(),
            r@ == old(self).target(),
            final(self).target() == old(self).target(),
            final(self).graph() == old(self).graph(),
            final(self).answered() == old(self).answered(),
            final(self).drive() == (ContextView {
                targets: kept(old(self).drive().targets, old(self).target()),
                ..old(self).drive()
            }),
    {
        proof {
            self.cx.lemma_sane();
        }
        let ghost start = self.cx@;
        let r = self.cx.wakes.keep(self.frame.waker());
        proof {
            lemma_met_later(self.graph.needs(), start, self.cx@);
        }
        r
    }

    /// The drive, to look at.
    pub fn context(&self) -> (r: &Context)
        ensures
            r@ == self.drive(),
            r.wf() == self.cx_wf(),
    {
        &self.cx
    }

    /// Say whether the pipeline is driven from inside a poll that is revalidating. While it
    /// is, no store of the pipeline answers outside of the pipeline's own runs.
    pub fn nest(&mut self, revalidating: bool)
        requires
            old(self).wf(),
        ensures
            final(self).wf(),
            final(self).target() == old(self).target(),
            final(self).graph() == old(self).graph(),
            final(self).answered() == old(self).answered(),
            final(self).drive() == (ContextView { nested: revalidating, ..old(self).drive() }),
    {
        let ghost start = self.cx@;
        self.cx.nest(revalidating);
        proof {
            lemma_met_later(self.graph.needs(), start, self.cx@);
        }
    }

    /// Be told when something of the pipeline's own drive goes stale: from here on the
    /// wake arrives at this pipeline.
    pub fn subscribe(&mut self)
        requires
            old(self).wf(),
        ensures
            final(self).wf(),
            final(self).target() == old(self).target(),
            final(self).graph() == old(self).graph(),
            final(self).answered() == old(self).answered(),
            final(self).drive() == (ContextView {
                ledger: old(self).drive().ledger.subscribed(old(self).target()),
                targets: kept_for(
                    old(self).drive().targets,
                    old(self).drive().ledger,
                    old(self).target(),
                ),
                ..old(self).drive()
            }),
    {
        proof {
            self.cx.lemma_sane();
        }
        let ghost start = self.cx@;
        self.cx.ledger.subscribe(self.frame.waker(), &mut self.cx.wakes);
        proof {
            lemma_met_later(self.graph.needs(), start, self.cx@);
        }
    }

    /// Store `value` in an input of the pipeline's own drive, as [`TrackedInput::set`]
    /// does. Returns whether the value moved.
    pub fn write<T: PartialEq>(&mut self, input: &mut TrackedInput<T>, value: T) -> (r: bool)
        requires
            old(self).wf(),
            old(self).drive().ledger.holds(old(input).at()),
            can_change(old(self).drive().ledger, old(input).at()),
        ensures
            final(self).wf(),
            final(self).target() == old(self).target(),
            final(self).graph() == old(self).graph(),
            final(self).answered() == old(self).answered(),
            call_ensures(<T as PartialEq>::eq, (&old(input).held(), &value), !r),
            final(input).at() == old(input).at(),
            r ==> {
                &&& final(input).held() == value
                &&& final(self).drive() == (ContextView {
                    ledger: changed_at(old(self).drive().ledger, old(input).at()),
                    targets: woken_for(
                        old(self).drive().targets,
                        old(self).drive().ledger,
                        old(input).at(),
                    ),
                    ..old(self).drive()
                })
            },
            !r ==> {
                &&& final(input).held() == old(input).held()
                &&& final(self).drive() == old(self).drive()
            },
    {
        let ghost start = self.cx@;
        let r = input.set(value, &mut self.cx.ledger, &mut self.cx.wakes);
        proof {
            lemma_met_later(self.graph.needs(), start, self.cx@);
        }
        r
    }

    /// Wake `waker`: tell whoever kept it that its value has landed.
    pub fn wake(&mut self, waker: &Waker)
        requires
            old(self).wf(),
        ensures
            final(self).wf(),
            final(self).target() == old(self).target(),
            final(self).graph() == old(self).graph(),
            final(self).answered() == old(self).answered(),
            final(self).drive() == (ContextView {
                targets: woken(old(self).drive().targets, waker@),
                ..old(self).drive()
            }),
    {
        let ghost start = self.cx@;
        self.cx.wake(waker);
        proof {
            lemma_met_later(self.graph.needs(), start, self.cx@);
        }
    }
}

impl<V, S: Stage> Pipeline<V, S> {
    /// Whether the answer last given stands: the run reports so and changes nothing.
    pub open spec fn stands(pre: Self, post: Self, r: Result<Run<S::Output>, S::Error>) -> bool {
        &&& r == Ok::<Run<S::Output>, S::Error>(Run::Unchanged)
        &&& post.graph() == pre.graph()
        &&& post.drive() == pre.drive()
        &&& post.answered() == pre.answered()
    }

    /// Whether the graph was entered: polled once over `input`, with the wake mark taken
    /// first, and its answer reported and recorded.
    pub open spec fn enters(
        pre: Self,
        version: V,
        input: S::Input,
        post: Self,
        r: Result<Run<S::Output>, S::Error>,
    ) -> bool {
        exists|polled: StagePoll<S::Output, S::Error>|
            {
                &&& #[trigger] frame_polls(
                    pre.graph(),
                    input,
                    pre.target(),
                    pre.drive_taken(),
                    post.graph(),
                    post.drive(),
                    polled,
                )
                &&& r == run_answer(polled)
                &&& post.answered() == version_after(pre.answered(), version, polled)
            }
    }
}

impl<V: PartialEq, S: Stage> Pipeline<V, S> {
    /// What a run of `version` over `input` makes of a pipeline: it enters the graph where no
    /// version is on record or a wake has arrived, and otherwise `==`, asked once, decides.
    pub open spec fn ran(
        pre: Self,
        version: V,
        input: S::Input,
        post: Self,
        r: Result<Run<S::Output>, S::Error>,
    ) -> bool {
        &&& pre.answered() is None || pre.is_stale() ==> Self::enters(
            pre,
            version,
            input,
            post,
            r,
        )
        &&& pre.answered() is Some && !pre.is_stale() ==> exists|same: bool|
            {
                &&& #[trigger] call_ensures(
                    <V as PartialEq>::eq,
                    (&pre.answered()->0, &version),
                    same,
                )
                &&& same ==> Self::stands(pre, post, r)
                &&& !same ==> Self::enters(pre, version, input, post, r)
            }
        &&& V::obeys_eq_spec() && gated(pre.answered(), version, pre.is_stale()) ==> Self::stands(
            pre,
            post,
            r,
        )
        &&& V::obeys_eq_spec() && !gated(pre.answered(), version, pre.is_stale())
            ==> Self::enters(pre, version, input, post, r)
    }

    /// Whether `b` is this pipeline, driven from inside a poll that is revalidating or not.
    pub open spec fn nested_as(self, revalidating: bool, b: Self) -> bool {
        &&& b.graph() == self.graph()
        &&& b.target() == self.target()
        &&& b.answered() == self.answered()
        &&& b.drive() == (ContextView { nested: revalidating, ..self.drive() })
    }

    /// [`run`](Self::run) from inside a poll of `outer`'s, such as that of a stage that has
    /// this pipeline to itself: while that poll is revalidating, no store of this pipeline
    /// answers.
    pub fn run_within(&mut self, outer: &Context, version: V, input: &S::Input) -> (r: Result<
        Run<S::Output>,
        S::Error,
    >)
        requires
            old(self).wf(),
        ensures
            final(self).wf(),
            final(self).target() == old(self).target(),
            !final(self).drive().nested,
            exists|inside: Self, left: Self|
                {
                    &&& old(self).nested_as(outer@.revalidating(), inside)
                    &&& final(self).nested_as(outer@.revalidating(), left)
                    &&& #[trigger] Self::ran(inside, version, *input, left, r)
                },
    {
        let ghost start = *self;
        self.nest(revalidating(outer));
        let ghost inside = *self;
        let r = self.run(version, input);
        let ghost left = *self;
        self.nest(false);
        proof {
            assert(start.nested_as(outer@.revalidating(), inside));
            assert(Self::ran(inside, version, *input, left, r));
        }
        r
    }

    /// The one door: poll once and return immediately, whatever the answer.
    ///
    /// `version` says which state `input` is. Where it is the version last answered for
    /// and no wake has arrived since, the answer stands and the graph is not entered. A
    /// wake counts as much as a version: a value that landed moves no version. The wake
    /// mark is taken on every run. An answer records the version; a delay and a failure
    /// record nothing, so the same version is tried again.
    ///
    /// Whether the versions are the same is what `==` on them says, once asked: it is
    /// asked only where there is an answer on record and no wake has arrived.
    pub fn run(&mut self, version: V, input: &S::Input) -> (r: Result<Run<S::Output>, S::Error>)
        requires
            old(self).wf(),
        ensures
            final(self).wf(),
            final(self).target() == old(self).target(),
            Self::ran(*old(self), version, *input, *final(self), r),
    {
        proof {
            self.cx.lemma_sane();
        }
        let ghost start = self.cx@;
        let stale = self.frame.take_stale(&mut self.cx);
        if !stale {
            assert(self.cx@.targets =~= start.targets);
            if let Some(last) = &self.answered {
                if *last == version {
                    return Ok(Run::Unchanged);
                }
            }
        }
        proof {
            lemma_met_later(self.graph.needs(), start, self.cx@);
        }
        let polled = self.frame.poll_frame(&mut self.graph, input, &mut self.cx);
        if polled.is_ready() {
            self.answered = Some(version);
        }
        assert(frame_polls(
            old(self).graph(),
            *input,
            old(self).target(),
            old(self).drive_taken(),
            self.graph(),
            self.drive(),
            polled,
        ));
        match polled {
            EffectPoll::Ready(StageAnswer::Computed(value)) => Ok(Run::Computed(value)),
            EffectPoll::Ready(StageAnswer::Unchanged) => Ok(Run::Unchanged),
            EffectPoll::Pending => Ok(Run::Delayed),
            EffectPoll::Failed(error) => Err(error),
        }
    }
}

} // verus!
