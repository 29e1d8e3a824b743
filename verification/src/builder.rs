//! The builder: the one door onto composition, memoization and driving.
//!
//! * Registering a stage memoizes it. There is no other registration.
//! * Identity is a position, minted in the order of registration.
//! * Where a pipeline remembers is one decision about the whole of it, taken once.
//! * Every stage of a pipeline shares one error type, and a failure carries the position
//!   of the stage that raised it.

use std::sync::Arc;

use vstd::prelude::*;

use crate::chain::Chain;
use crate::context::{lemma_met_later, Context, ContextView, Need};
use crate::driver::FrameDriver;
use crate::effect::EffectPoll;
use crate::key::{KeyView, MemoKey, StageId};
use crate::memo::Memo;
use crate::pipeline::Pipeline;
use crate::stage::{fits, Stage, StagePoll};
use crate::store::{MemoMap, MemoStore, NoMemo};
use crate::wake::{fresh_target, WakerId};

verus! {

/// A failure, with the position of the stage that raised it.
#[derive(Clone, Copy, PartialEq, Eq, Hash, Debug)]
pub struct Failure<E> {
    at: usize,
    error: E,
}

impl<E> Failure<E> {
    /// The position.
    pub closed spec fn position(&self) -> usize {
        self.at
    }

    /// The stage's own error.
    pub closed spec fn raised(&self) -> E {
        self.error
    }

    /// The failure of position `at` with `error`, mathematically.
    pub closed spec fn of(at: usize, error: E) -> Failure<E> {
        Failure { at, error }
    }

    /// A failure is its position and its error.
    pub broadcast proof fn lemma_of(at: usize, error: E)
        ensures
            (#[trigger] Failure::of(at, error)).position() == at,
            Failure::of(at, error).raised() == error,
    {
    }

    /// Stamped at registration, the only place the position is known.
    fn new(at: usize, error: E) -> (r: Failure<E>)
        ensures
            r == Failure::of(at, error),
    {
        Failure { at, error }
    }

    /// The position of the stage that raised this, counting registrations from zero.
    pub fn at(&self) -> (r: usize)
        ensures
            r == self.position(),
    {
        self.at
    }

    /// The stage's own error.
    pub fn error(&self) -> (r: &E)
        ensures
            *r == self.raised(),
    {
        &self.error
    }
}

/// A registered stage, with its position stamped onto whatever it raises. Everything
/// else is the stage's.
pub struct Positioned<S> {
    at: usize,
    stage: S,
}

impl<S> Positioned<S> {
    /// The position.
    pub closed spec fn position(&self) -> usize {
        self.at
    }

    /// The stage.
    pub closed spec fn inner(&self) -> S {
        self.stage
    }

    /// Register `stage` at position `at`.
    fn new(at: usize, stage: S) -> (r: Positioned<S>)
        ensures
            r.position() == at,
            r.inner() == stage,
    {
        Positioned { at, stage }
    }
}

/// `polled`, with position `at` stamped onto a failure.
pub open spec fn stamped<T, E>(at: usize, polled: StagePoll<T, E>) -> StagePoll<T, Failure<E>> {
    match polled {
        EffectPoll::Ready(answer) => EffectPoll::Ready(answer),
        EffectPoll::Pending => EffectPoll::Pending,
        EffectPoll::Failed(error) => EffectPoll::Failed(Failure::of(at, error)),
    }
}

impl<S: Stage> Stage for Positioned<S> {
    type Input = S::Input;

    type Output = S::Output;

    type Error = Failure<S::Error>;

    open spec fn inv(&self) -> bool {
        self.inner().inv()
    }

    open spec fn needs(&self) -> Set<Need> {
        self.inner().needs()
    }

    open spec fn may_repeat(&self) -> bool {
        self.inner().may_repeat()
    }

    open spec fn identity(&self) -> StageId {
        self.inner().identity()
    }

    open spec fn key_of(&self, input: S::Input) -> Option<KeyView> {
        self.inner().key_of(input)
    }

    open spec fn polls(
        pre: Self,
        input: S::Input,
        cx: ContextView,
        post: Self,
        cx_post: ContextView,
        answer: StagePoll<S::Output, Failure<S::Error>>,
    ) -> bool {
        &&& post.position() == pre.position()
        &&& exists|polled: StagePoll<S::Output, S::Error>|
            {
                &&& #[trigger] S::polls(pre.inner(), input, cx, post.inner(), cx_post, polled)
                &&& answer == stamped(pre.position(), polled)
            }
    }

    fn id(&self) -> (r: StageId) {
        self.stage.id()
    }

    fn memo_key(&self, input: &S::Input) -> (r: Option<MemoKey>) {
        self.stage.memo_key(input)
    }

    fn poll_stage(&mut self, input: &S::Input, cx: &mut Context) -> (r: StagePoll<
        S::Output,
        Failure<S::Error>,
    >) {
        let ghost start = cx@;
        let polled = self.stage.poll_stage(input, cx);
        assert(S::polls(old(self).inner(), *input, start, self.inner(), cx@, polled));
        match polled {
            EffectPoll::Ready(answer) => EffectPoll::Ready(answer),
            EffectPoll::Pending => EffectPoll::Pending,
            EffectPoll::Failed(error) => EffectPoll::Failed(Failure::new(self.at, error)),
        }
    }
}

/// A store that a whole pipeline remembers into. It hands each position a handle on
/// itself: what one position records is in the one store, and there is no other.
pub trait PipelineStore<V>: MemoStore<V> {
    /// A handle on this store for the stage at position `at`.
    fn seam(&self, at: StageId) -> (r: Self)
        ensures
            same_finds(*self, r),
    ;
}

/// Whether two handles on a store may find the same.
pub open spec fn same_finds<V, G: MemoStore<V>>(whole: G, part: G) -> bool {
    forall|k: KeyView, found: Option<Arc<V>>| #[trigger]
        part.may_find(k, found) <==> whole.may_find(k, found)
}

impl<V> PipelineStore<V> for NoMemo {
    fn seam(&self, at: StageId) -> (r: NoMemo) {
        NoMemo
    }
}

/// Where a pipeline remembers, in the three shapes that choice has.
pub enum StoreChoice<G> {
    /// Into maps that the pipeline owns.
    Own,
    /// Into a store handed over.
    Given(G),
    /// Nowhere.
    Off,
}

/// One stage's store, as the builder chose.
pub enum BuilderStore<V, G> {
    /// A map that the pipeline owns.
    Own(MemoMap<V>),
    /// A part of the store that was handed over.
    Given(G),
    /// The control case: remember nothing.
    Off,
}

impl<V, G: MemoStore<V>> MemoStore<V> for BuilderStore<V, G> {
    open spec fn may_find(&self, key: KeyView, found: Option<Arc<V>>) -> bool {
        match self {
            BuilderStore::Own(map) => map.may_find(key, found),
            BuilderStore::Given(store) => store.may_find(key, found),
            BuilderStore::Off => found is None,
        }
    }

    open spec fn records(pre: Self, key: KeyView, value: Arc<V>, post: Self) -> bool {
        match (pre, post) {
            (BuilderStore::Own(was), BuilderStore::Own(is)) => MemoMap::<V>::records(
                was,
                key,
                value,
                is,
            ),
            (BuilderStore::Given(was), BuilderStore::Given(is)) => G::records(was, key, value, is),
            (BuilderStore::Off, BuilderStore::Off) => true,
            _ => false,
        }
    }

    fn lookup(&self, key: &MemoKey) -> (r: Option<Arc<V>>) {
        match self {
            BuilderStore::Own(map) => map.lookup(key),
            BuilderStore::Given(store) => store.lookup(key),
            BuilderStore::Off => None,
        }
    }

    fn record(&mut self, key: &MemoKey, value: Arc<V>) {
        match self {
            BuilderStore::Own(map) => map.record(key, value),
            BuilderStore::Given(store) => store.record(key, value),
            BuilderStore::Off => {},
        }
    }
}

impl<G> StoreChoice<G> {
    /// The store of the stage at position `at`.
    fn seam<V>(&self, at: StageId) -> (r: BuilderStore<V, G>) where G: PipelineStore<V>
        ensures
            serves(*self, at, r),
    {
        match self {
            StoreChoice::Own => BuilderStore::Own(MemoMap::new()),
            StoreChoice::Given(store) => BuilderStore::Given(store.seam(at)),
            StoreChoice::Off => BuilderStore::Off,
        }
    }
}

/// Whether `store` is what the stage at position `at` remembers into under `choice`.
pub open spec fn serves<V, G: PipelineStore<V>>(
    choice: StoreChoice<G>,
    at: StageId,
    store: BuilderStore<V, G>,
) -> bool {
    match (choice, store) {
        (StoreChoice::Own, BuilderStore::Own(map)) => map@ == Map::<KeyView, Arc<V>>::empty(),
        (StoreChoice::Given(whole), BuilderStore::Given(part)) => same_finds(whole, part),
        (StoreChoice::Off, BuilderStore::Off) => true,
        _ => false,
    }
}

/// The empty builder.
pub struct PipelineBuilder<G> {
    uncached: bool,
    store: Option<G>,
    cx: Context,
}

impl PipelineBuilder<NoMemo> {
    /// Start a new, empty builder, remembering into maps of its own, for a drive in which
    /// nothing has happened. Its ledger is told from others by a number that is drawn;
    /// [`within`](PipelineBuilder::within) takes a drive that was numbered otherwise.
    pub fn new() -> (r: PipelineBuilder<NoMemo>)
        ensures
            r.wf(),
            !r.is_uncached(),
            r.given() is None,
            r.drive() == ContextView::fresh(r.drive().ledger.id),
    {
        PipelineBuilder { uncached: false, store: None, cx: Context::new() }
    }
}

impl<G> PipelineBuilder<G> {
    /// Whether the pipeline is to remember nothing.
    pub closed spec fn is_uncached(&self) -> bool {
        self.uncached
    }

    /// The store that was handed over.
    pub closed spec fn given(&self) -> Option<G> {
        self.store
    }

    /// The state of the drive that the pipeline is to run in.
    pub closed spec fn drive(&self) -> ContextView {
        self.cx@
    }

    /// The drive's own parts are well formed.
    pub closed spec fn wf(&self) -> bool {
        self.cx.wf()
    }

    /// Where the pipeline remembers: nowhere if it is uncached, and otherwise into the
    /// store handed over, or into maps of its own where there is none.
    pub open spec fn choice(&self) -> StoreChoice<G> {
        if self.is_uncached() {
            StoreChoice::Off
        } else {
            match self.given() {
                Some(store) => StoreChoice::Given(store),
                None => StoreChoice::Own,
            }
        }
    }

    /// Remember nothing: the control run. Answers must not change, only speed. This
    /// wins over [`store`](Self::store) whichever is called first.
    pub fn uncached(self) -> (r: PipelineBuilder<G>)
        ensures
            r.is_uncached(),
            r.given() == self.given(),
            r.drive() == self.drive(),
            r.wf() == self.wf(),
    {
        PipelineBuilder { uncached: true, store: self.store, cx: self.cx }
    }

    /// Remember into `store` rather than into maps of the pipeline's own: one store, for the
    /// whole pipeline. Each position reaches it through a handle that it hands out itself.
    pub fn store<G2>(self, store: G2) -> (r: PipelineBuilder<G2>)
        ensures
            r.is_uncached() == self.is_uncached(),
            r.given() == Some(store),
            r.drive() == self.drive(),
            r.wf() == self.wf(),
    {
        PipelineBuilder { uncached: self.uncached, store: Some(store), cx: self.cx }
    }

    /// Run in the drive of `cx`, where stages that hold nodes or tallies of it are at
    /// home.
    pub fn within(self, cx: Context) -> (r: PipelineBuilder<G>)
        requires
            cx.wf(),
        ensures
            r.wf(),
            r.is_uncached() == self.is_uncached(),
            r.given() == self.given(),
            r.drive() == cx@,
    {
        PipelineBuilder { uncached: self.uncached, store: self.store, cx }
    }

    /// The one decision, taken once, and the drive.
    fn resolve(self) -> (r: (StoreChoice<G>, Context))
        ensures
            r.0 == self.choice(),
            r.1@ == self.drive(),
            r.1.wf() == self.wf(),
    {
        let choice = if self.uncached {
            StoreChoice::Off
        } else {
            match self.store {
                Some(store) => StoreChoice::Given(store),
                None => StoreChoice::Own,
            }
        };
        (choice, self.cx)
    }

    /// Register the first stage, at position zero. `make` is handed the id of that
    /// position. `name` is a diagnostic label: nothing is keyed by it or compared by it.
    pub fn stage<S: Stage, F: FnOnce(StageId) -> S>(self, name: &'static str, make: F) -> (r:
        StagedPipelineBuilder<Memo<Positioned<S>, BuilderStore<S::Output, G>>, G>) where
        G: PipelineStore<S::Output>,

        requires
            self.wf(),
            forall|id: StageId| id.position() == 0 ==> makes::<S, F>(make, id, self.drive()),
        ensures
            r.wf(),
            r.count() == 1,
            r.remembers() == self.choice(),
            r.drive() == self.drive(),
            exists|id: StageId, s: S|
                {
                    &&& #[trigger] call_ensures(make, (id,), s)
                    &&& id.position() == 0
                    &&& registered(s, 0, id, self.choice(), r.assembled())
                },
    {
        let id: StageId = StageId::at(0);
        let (choice, cx) = self.resolve();
        assert(makes::<S, F>(make, id, self.drive()));
        let stage = make(id);
        let graph = Memo::new(Positioned::new(0, stage), choice.seam(id));
        StagedPipelineBuilder { graph, choice, next: 1, cx }
    }

    /// Register the first stage as [`stage`](Self::stage) does, where making it takes the
    /// drive: to mint a node, or a tally.
    pub fn stage_within<S: Stage, F: FnOnce(StageId, &mut Context) -> S>(
        self,
        name: &'static str,
        make: F,
    ) -> (r: StagedPipelineBuilder<Memo<Positioned<S>, BuilderStore<S::Output, G>>, G>) where
        G: PipelineStore<S::Output>,

        requires
            self.wf(),
            forall|id: StageId, cx: &mut Context|
                id.position() == 0 && cx.wf() && cx@ == self.drive() ==> #[trigger] call_requires(
                    make,
                    (id, cx),
                ),
            forall|id: StageId, cx: &mut Context, s: S|
                id.position() == 0 && cx.wf() && cx@ == self.drive() && (#[trigger] call_ensures(
                    make,
                    (id, cx),
                    s,
                )) ==> final(cx).wf() && cx@.later(final(cx)@) && fits(s, final(cx)@)
                    && !s.may_repeat(),
        ensures
            r.wf(),
            r.count() == 1,
            r.remembers() == self.choice(),
            exists|id: StageId, cx: &mut Context, s: S|
                {
                    &&& #[trigger] call_ensures(make, (id, cx), s)
                    &&& cx.wf()
                    &&& id.position() == 0
                    &&& cx@ == self.drive()
                    &&& r.drive() == final(cx)@
                    &&& registered(s, 0, id, self.choice(), r.assembled())
                },
    {
        let id: StageId = StageId::at(0);
        let (choice, mut cx) = self.resolve();
        let stage = make(id, &mut cx);
        let graph = Memo::new(Positioned::new(0, stage), choice.seam(id));
        StagedPipelineBuilder { graph, choice, next: 1, cx }
    }
}

/// Whether `make` can be called with `id`, and what it makes has not been polled yet and
/// can be polled in a drive in state `cx`.
pub open spec fn makes<S: Stage, F: FnOnce(StageId) -> S>(
    make: F,
    id: StageId,
    cx: ContextView,
) -> bool {
    &&& call_requires(make, (id,))
    &&& forall|s: S| #[trigger] call_ensures(make, (id,), s) ==> fits(s, cx) && !s.may_repeat()
}

/// Whether `memo` is `stage` as registered at position `at`: positioned, memoized into
/// what `choice` says, and with an empty slot.
pub open spec fn registered<S: Stage, G: PipelineStore<S::Output>>(
    stage: S,
    at: usize,
    id: StageId,
    choice: StoreChoice<G>,
    memo: Memo<Positioned<S>, BuilderStore<S::Output, G>>,
) -> bool {
    &&& memo.inner().position() == at
    &&& memo.inner().inner() == stage
    &&& memo.last() is None
    &&& serves(choice, id, memo.rows())
}

/// A builder holding at least one stage.
pub struct StagedPipelineBuilder<S, G> {
    graph: S,
    choice: StoreChoice<G>,
    next: usize,
    cx: Context,
}

impl<S, G> StagedPipelineBuilder<S, G> {
    /// The graph assembled so far.
    pub closed spec fn assembled(&self) -> S {
        self.graph
    }

    /// Where the pipeline remembers.
    pub closed spec fn remembers(&self) -> StoreChoice<G> {
        self.choice
    }

    /// How many stages have been registered. It is the next position.
    pub closed spec fn count(&self) -> usize {
        self.next
    }

    /// The state of the drive that the pipeline is to run in.
    pub closed spec fn drive(&self) -> ContextView {
        self.cx@
    }

    /// The drive's own parts are well formed.
    pub closed spec fn cx_wf(&self) -> bool {
        self.cx.wf()
    }
}

/// The state of the drive of a pipeline built in a drive in state `cx`: as it was, with one
/// wake target more.
pub open spec fn with_target(cx: ContextView) -> ContextView {
    ContextView {
        targets: cx.targets.push(fresh_target(WakerId::Noop)),
        ..cx
    }
}

impl<S: Stage, G> StagedPipelineBuilder<S, G> {
    /// The graph has not been polled yet and can be, in the pipeline's drive.
    pub open spec fn wf(&self) -> bool {
        &&& self.cx_wf()
        &&& fits(self.assembled(), self.drive())
        &&& !self.assembled().may_repeat()
    }

    /// Finish: a [`Pipeline`] over the assembled graph, with a wake target of its own.
    pub fn build<V>(self) -> (r: Pipeline<V, S>)
        requires
            self.wf(),
        ensures
            r.wf(),
            r.graph() == self.assembled(),
            r.answered() is None,
            !r.is_stale(),
            r.target() == WakerId::Target(self.drive().targets.len() as usize),
            r.drive() == with_target(self.drive()),
    {
        let mut cx: Context = self.cx;
        proof {
            cx.lemma_sane();
        }
        let frame = FrameDriver::new(&mut cx);
        proof {
            lemma_met_later(self.graph.needs(), self.cx@, cx@);
        }
        Pipeline::over(self.graph, frame, cx)
    }
}

impl<S: Stage<Error = Failure<E>>, G, E> StagedPipelineBuilder<S, G> {
    /// Register the next stage; its input is the previous stage's output and its error
    /// is the pipeline's one error type. `make` is handed the id of the next position.
    pub fn stage<S2: Stage<Input = S::Output, Error = E>, F: FnOnce(StageId) -> S2>(
        self,
        name: &'static str,
        make: F,
    ) -> (r: StagedPipelineBuilder<
        Chain<S, Memo<Positioned<S2>, BuilderStore<S2::Output, G>>>,
        G,
    >) where G: PipelineStore<S2::Output>
        requires
            self.wf(),
            self.count() < usize::MAX,
            forall|id: StageId|
                id.position() == self.count() ==> makes::<S2, F>(make, id, self.drive()),
        ensures
            r.wf(),
            r.count() == self.count() + 1,
            r.remembers() == self.remembers(),
            r.drive() == self.drive(),
            r.assembled().head() == self.assembled(),
            r.assembled().join() is Cold,
            r.assembled().own_id().position() == usize::MAX,
            exists|id: StageId, s: S2|
                {
                    &&& #[trigger] call_ensures(make, (id,), s)
                    &&& id.position() == self.count()
                    &&& registered(
                        s,
                        self.count(),
                        id,
                        self.remembers(),
                        r.assembled().tail(),
                    )
                },
    {
        let at: usize = self.next;
        let id: StageId = StageId::at(at);
        assert(makes::<S2, F>(make, id, self.drive()));
        let stage = make(id);
        let memo = Memo::new(Positioned::new(at, stage), self.choice.seam(id));
        let graph = Chain::new(StageId::at(usize::MAX), self.graph, memo);
        StagedPipelineBuilder { graph, choice: self.choice, next: at + 1, cx: self.cx }
    }

    /// Register the next stage as [`stage`](Self::stage) does, where making it takes the
    /// drive: to mint a node, or a tally.
    pub fn stage_within<
        S2: Stage<Input = S::Output, Error = E>,
        F: FnOnce(StageId, &mut Context) -> S2,
    >(self, name: &'static str, make: F) -> (r: StagedPipelineBuilder<
        Chain<S, Memo<Positioned<S2>, BuilderStore<S2::Output, G>>>,
        G,
    >) where G: PipelineStore<S2::Output>
        requires
            self.wf(),
            self.count() < usize::MAX,
            forall|id: StageId, cx: &mut Context|
                id.position() == self.count() && cx.wf() && cx@ == self.drive()
                    ==> #[trigger] call_requires(make, (id, cx)),
            forall|id: StageId, cx: &mut Context, s: S2|
                id.position() == self.count() && cx.wf() && cx@ == self.drive() && (
                #[trigger] call_ensures(make, (id, cx), s)) ==> final(cx).wf() && cx@.later(
                    final(cx)@,
                ) && fits(s, final(cx)@) && !s.may_repeat(),
        ensures
            r.wf(),
            r.count() == self.count() + 1,
            r.remembers() == self.remembers(),
            r.assembled().head() == self.assembled(),
            r.assembled().join() is Cold,
            r.assembled().own_id().position() == usize::MAX,
            exists|id: StageId, cx: &mut Context, s: S2|
                {
                    &&& #[trigger] call_ensures(make, (id, cx), s)
                    &&& cx.wf()
                    &&& id.position() == self.count()
                    &&& cx@ == self.drive()
                    &&& r.drive() == final(cx)@
                    &&& registered(
                        s,
                        self.count(),
                        id,
                        self.remembers(),
                        r.assembled().tail(),
                    )
                },
    {
        let at: usize = self.next;
        let id: StageId = StageId::at(at);
        let mut cx: Context = self.cx;
        let stage = make(id, &mut cx);
        proof {
            lemma_met_later(self.graph.needs(), self.cx@, cx@);
        }
        let memo = Memo::new(Positioned::new(at, stage), self.choice.seam(id));
        let graph = Chain::new(StageId::at(usize::MAX), self.graph, memo);
        StagedPipelineBuilder { graph, choice: self.choice, next: at + 1, cx }
    }
}

} // verus!
