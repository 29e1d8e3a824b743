//! A pipeline in a drive of its own: nodes, tallies and wakes that its stages share, and
//! answers that do not depend on what is remembered.

use std::cell::{Cell, RefCell};
use std::rc::Rc;
use std::sync::Arc;

use libpipeline::boundary::{Fallback, Guarded, Substitutions};
use libpipeline::builder::{Failure, PipelineBuilder, PipelineStore};
use libpipeline::context::Context;
use libpipeline::driver::{run_to_completion, NoPendingWork};
use libpipeline::effect::{EffectPoll, StageAnswer};
use libpipeline::key::{ContentHash, ContentKey, MemoKey, StageId};
use libpipeline::pipeline::{Pipeline, Run};
use libpipeline::stage::{Stage, StagePoll};
use libpipeline::store::{MemoMap, MemoStore};
use libpipeline::track::nodes::{TrackedInput, TrackedStage};
use libpipeline::track::Ledger;
use libpipeline::wake::{Waker, WakerId, Wakes};
use libpipeline::watch::{poll_watched, run_to_completion_watched, WakePath};

#[derive(Clone, Copy, PartialEq, Eq, Debug)]
struct Number(u128);

impl ContentHash for Number {
    fn address(&self) -> ContentKey {
        self.content_key()
    }

    fn content_key(&self) -> ContentKey {
        ContentKey::from_u128(self.0)
    }
}

/// Halves an even number, and fails on an odd one.
struct Halves {
    id: StageId,
    polls: Rc<Cell<usize>>,
}

impl Stage for Halves {
    type Input = Number;
    type Output = Number;
    type Error = u128;

    fn id(&self) -> StageId {
        self.id
    }

    fn memo_key(&self, input: &Number) -> Option<MemoKey> {
        Some(MemoKey::new(self.id, vec![input.content_key()]))
    }

    fn poll_stage(&mut self, input: &Number, _cx: &mut Context) -> StagePoll<Number, u128> {
        self.polls.set(self.polls.get() + 1);
        if input.0 % 2 == 0 {
            StageAnswer::computed(Arc::new(Number(input.0 / 2)))
        } else {
            EffectPoll::Failed(input.0)
        }
    }
}

/// Adds a number of the drive to its input, reading it.
struct Adds {
    id: StageId,
    to: Rc<RefCell<TrackedInput<u128>>>,
}

impl Stage for Adds {
    type Input = Number;
    type Output = Number;
    type Error = u128;

    fn id(&self) -> StageId {
        self.id
    }

    /// What it reads besides its input is in no key.
    fn memo_key(&self, _input: &Number) -> Option<MemoKey> {
        None
    }

    fn poll_stage(&mut self, input: &Number, cx: &mut Context) -> StagePoll<Number, u128> {
        let to = self.to.borrow().get(&mut cx.ledger);
        StageAnswer::computed(Arc::new(Number(input.0 + to)))
    }
}

fn quarters(uncached: bool, polls: &Rc<Cell<usize>>) -> impl FnMut(
    u64,
    u128,
) -> Result<Run<Number>, Failure<u128>> {
    let builder = PipelineBuilder::new();
    let builder = if uncached { builder.uncached() } else { builder };
    let (first, second) = (Rc::clone(polls), Rc::clone(polls));
    let mut pipeline: Pipeline<u64, _> = builder
        .stage("first", |id| Halves { id, polls: first })
        .stage("second", |id| Halves { id, polls: second })
        .build();
    move |version, n| pipeline.run(version, &Number(n))
}

#[test]
fn the_same_runs_are_answered_alike_with_and_without_a_store() {
    let (cached, uncached) = (Rc::new(Cell::new(0)), Rc::new(Cell::new(0)));
    let mut with = quarters(false, &cached);
    let mut without = quarters(true, &uncached);
    let runs = [(1, 8), (2, 12), (3, 8), (4, 6), (5, 3), (5, 3), (6, 8), (6, 8), (7, 6)];
    let mut answers = Vec::new();
    for (version, n) in runs {
        let answer = with(version, n);
        assert_eq!(answer, without(version, n));
        answers.push(answer);
    }
    assert_eq!(answers[0], Ok(Run::Computed(Arc::new(Number(2)))));
    assert_eq!(answers[7], Ok(Run::Unchanged), "version 6 has been answered for");
    let late = answers[3].as_ref().expect_err("three is odd");
    assert_eq!((late.at(), *late.error()), (1, 3));
    let early = answers[4].as_ref().expect_err("three is odd");
    assert_eq!((early.at(), *early.error()), (0, 3));

    // Eight runs entered. Uncached, every stage whose input was computed was polled.
    assert_eq!(uncached.get(), 8 + 6);
    // Cached, each value was computed once, and each failure every time.
    assert_eq!(cached.get(), (3 + 2) + (2 + 2));
}

#[test]
fn a_change_that_lands_during_a_first_run_is_not_lost() {
    let mut ledger = Ledger::new();
    let mut wakes = Wakes::new();
    let source = ledger.node("source");
    let reader = ledger.node("reader");

    ledger.open(reader);
    ledger.observe_read(source);
    assert_eq!(ledger.changed(source, &mut wakes), 1, "the open run has seen it");
    ledger.close(false);
    assert!(ledger.is_stale(reader));

    ledger.open(reader);
    ledger.observe_read(source);
    ledger.close(false);
    assert!(!ledger.is_stale(reader), "the next run reads what changed");
}

#[test]
fn a_change_during_a_run_is_told_to_subscribers() {
    let mut ledger = Ledger::new();
    let mut wakes = Wakes::new();
    let flag = wakes.mint(WakerId::Noop);
    ledger.subscribe(flag, &mut wakes);
    let source = ledger.node("source");
    let reader = ledger.node("reader");

    ledger.open(reader);
    ledger.observe_read(source);
    ledger.changed(source, &mut wakes);
    ledger.changed(source, &mut wakes);
    ledger.close(true);
    assert_eq!(wakes.rung(flag), 2, "once for each change");
    assert!(ledger.is_stale(reader), "also where the run was cut short");
}

#[test]
fn one_change_is_one_wake_however_many_it_reaches() {
    let mut ledger = Ledger::new();
    let mut wakes = Wakes::new();
    let flag = wakes.mint(WakerId::Noop);
    ledger.subscribe(flag, &mut wakes);
    let source = ledger.node("source");
    for label in ["a", "b", "c"] {
        let reader = ledger.node(label);
        ledger.open(reader);
        ledger.observe_read(source);
        ledger.close(false);
    }
    assert_eq!(ledger.changed(source, &mut wakes), 3);
    assert_eq!(wakes.rung(flag), 1);
    assert_eq!(ledger.changed(source, &mut wakes), 0, "all three are stale already");
    assert_eq!(wakes.rung(flag), 2, "and told again");
}

#[test]
fn abandoned_runs_are_cut_back() {
    let mut ledger = Ledger::new();
    let source = ledger.node("source");
    let outer = ledger.node("outer");
    let inner = ledger.node("inner");

    ledger.open(outer);
    ledger.observe_read(source);
    let depth = ledger.open_runs();
    ledger.open(inner);
    ledger.observe_read(source);
    ledger.open(inner);
    assert_eq!((depth, ledger.open_runs()), (1, 3));
    ledger.cut_back(depth);
    assert_eq!(ledger.open_runs(), 1);
    assert_eq!(ledger.running(), Some(outer));
    assert!(ledger.reads_of(inner).is_empty(), "a run cut short commits nothing");
    ledger.cut_back(5);
    ledger.close(false);
    assert_eq!(ledger.reads_of(outer), vec![source]);
}

#[test]
fn a_node_is_registered_in_the_pipelines_drive() {
    let mut cx = Context::numbered(7);
    let to = Rc::new(RefCell::new(TrackedInput::new(&mut cx.ledger, "to", 10)));
    let read = Rc::clone(&to);
    let mut pipeline: Pipeline<u64, _> = PipelineBuilder::new()
        .within(cx)
        .stage_within("adds", |id, cx| {
            TrackedStage::new(&mut cx.ledger, "adds", Adds { id, to: read })
        })
        .build();
    pipeline.subscribe();
    pipeline.subscribe();
    assert_eq!((pipeline.context().ledger.id(), pipeline.context().ledger.len()), (7, 2));

    assert_eq!(pipeline.run(1, &Number(1)), Ok(Run::Computed(Arc::new(Number(11)))));
    assert_eq!(pipeline.run(1, &Number(1)), Ok(Run::Unchanged));
    assert!(!pipeline.write(&mut to.borrow_mut(), 10), "an equal value is no change");
    assert_eq!(pipeline.run(1, &Number(1)), Ok(Run::Unchanged));

    // The same version over the same input: it is the wake that lets the run in.
    assert!(pipeline.write(&mut to.borrow_mut(), 20));
    assert_eq!(pipeline.context().ledger.stale_nodes().len(), 1);
    assert_eq!(pipeline.run(1, &Number(1)), Ok(Run::Computed(Arc::new(Number(21)))));
    assert!(pipeline.context().ledger.stale_nodes().is_empty());
    assert!(!pipeline.take_stale());
}

#[test]
fn a_boundary_is_registered_in_the_pipelines_drive() {
    let polls = Rc::new(Cell::new(0));
    let count = Rc::clone(&polls);
    let mut cx = Context::new();
    let tally = Substitutions::new(&mut cx);
    let mut pipeline: Pipeline<u64, _> = PipelineBuilder::new()
        .within(cx)
        .stage_within("guarded", |id, _cx| {
            let fallback = Fallback::new(Arc::new(Number(0)));
            Guarded::tallied(id, Halves { id, polls: count }, fallback, &tally)
        })
        .build();
    assert_eq!(pipeline.run(1, &Number(6)), Ok(Run::Computed(Arc::new(Number(3)))));
    assert_eq!(tally.count(pipeline.context()), 0);
    assert_eq!(pipeline.run(2, &Number(7)), Ok(Run::Computed(Arc::new(Number(0)))));
    assert_eq!(tally.count(pipeline.context()), 1);
    assert_eq!(polls.get(), 2);
}

#[test]
fn a_later_stage_can_be_made_in_the_drive_too() {
    let polls = Rc::new(Cell::new(0));
    let (first, second) = (Rc::clone(&polls), Rc::clone(&polls));
    let mut pipeline: Pipeline<u64, _> = PipelineBuilder::new()
        .stage("first", |id| Halves { id, polls: first })
        .stage_within("second", |id, cx| {
            TrackedStage::new(&mut cx.ledger, "second", Halves { id, polls: second })
        })
        .build();
    assert_eq!(pipeline.run(1, &Number(12)), Ok(Run::Computed(Arc::new(Number(3)))));
    assert_eq!(pipeline.run(2, &Number(6)).expect_err("three is odd").at(), 1);
    assert_eq!(pipeline.context().ledger.len(), 1);
}

/// A map with more than one handle.
#[derive(Clone)]
struct Shared(Rc<RefCell<MemoMap<Number>>>);

impl MemoStore<Number> for Shared {
    fn lookup(&self, key: &MemoKey) -> Option<Arc<Number>> {
        self.0.borrow().lookup(key)
    }

    fn record(&mut self, key: &MemoKey, value: Arc<Number>) {
        self.0.borrow_mut().record(key, value);
    }
}

impl PipelineStore<Number> for Shared {
    fn seam(&self, _at: StageId) -> Self {
        self.clone()
    }
}

#[test]
fn one_store_is_shared_by_every_position() {
    let at = |position: usize, n: u128| {
        MemoKey::new(StageId::at(position), vec![ContentKey::from_u128(n)])
    };
    let mut map = MemoMap::new();
    map.record(&at(0, 8), Arc::new(Number(4)));
    map.record(&at(1, 4), Arc::new(Number(100)));
    map.record(&at(1, 8), Arc::new(Number(200)));
    let shared = Shared(Rc::new(RefCell::new(map)));

    let polls = Rc::new(Cell::new(0));
    let (first, second) = (Rc::clone(&polls), Rc::clone(&polls));
    let mut pipeline: Pipeline<u64, _> = PipelineBuilder::new()
        .store(shared.clone())
        .stage("first", |id| Halves { id, polls: first })
        .stage("second", |id| Halves { id, polls: second })
        .build();
    assert_eq!(pipeline.run(1, &Number(8)), Ok(Run::Computed(Arc::new(Number(100)))));
    assert_eq!(polls.get(), 0, "both stages were answered from the store");
    assert_eq!(pipeline.run(2, &Number(12)), Ok(Run::Computed(Arc::new(Number(3)))));
    assert_eq!(polls.get(), 2);

    // What the pipeline recorded is in the store that was handed over.
    assert_eq!(shared.lookup(&at(0, 12)), Some(Arc::new(Number(6))));
    assert_eq!(shared.lookup(&at(1, 6)), Some(Arc::new(Number(3))));
    assert_eq!(shared.0.borrow().len(), 5);
}

#[test]
fn pipelines_do_not_take_each_others_nodes_for_their_own() {
    let polls = Rc::new(Cell::new(0));
    let build = || -> (u64, bool) {
        let polls = Rc::clone(&polls);
        let minted = Rc::new(Cell::new(None));
        let keep = Rc::clone(&minted);
        let pipeline: Pipeline<u64, _> = PipelineBuilder::new()
            .stage_within("noded", move |id, cx| {
                let node = TrackedStage::new(&mut cx.ledger, "noded", Halves { id, polls });
                keep.set(Some(node.node()));
                node
            })
            .build();
        let node = minted.get().expect("the stage was made");
        (pipeline.context().ledger.id(), pipeline.context().ledger.owns(node))
    };
    let (one, other) = (build(), build());
    assert!(one.1 && other.1);
    assert_ne!(one.0, other.0);
}

#[test]
fn a_pipeline_run_inside_a_stale_run_is_not_served_from_its_store() {
    let polls = Rc::new(Cell::new(0));
    let count = Rc::clone(&polls);
    let mut inner: Pipeline<u64, _> =
        PipelineBuilder::new().stage("halves", |id| Halves { id, polls: count }).build();
    let mut outer = Context::numbered(1);
    let node = outer.ledger.node("outer");

    assert!(inner.run_within(&outer, 1, &Number(6)).is_ok());
    assert_eq!(polls.get(), 1);
    assert!(inner.run_within(&outer, 2, &Number(6)).is_ok());
    assert_eq!(polls.get(), 1, "served: no run is open");

    outer.ledger.mark_stale(node);
    outer.ledger.open(node);
    assert!(inner.run_within(&outer, 3, &Number(6)).is_ok());
    assert_eq!(polls.get(), 2, "the run around it is of a stale node");
    assert!(inner.run(4, &Number(6)).is_ok());
    assert_eq!(polls.get(), 2, "run from nowhere, it is served");
    outer.ledger.close(false);

    outer.ledger.open(node);
    assert!(inner.run_within(&outer, 5, &Number(6)).is_ok());
    assert_eq!(polls.get(), 2, "the node is stale no more");
}

/// Has no answer on its first polls, and does with its waker what it is told to.
struct Parks {
    waits: usize,
    keeps: bool,
    subscribes: bool,
    kept: Vec<Waker>,
}

impl Stage for Parks {
    type Input = Number;
    type Output = Number;
    type Error = u128;

    fn id(&self) -> StageId {
        StageId::at(0)
    }

    fn memo_key(&self, _input: &Number) -> Option<MemoKey> {
        None
    }

    fn poll_stage(&mut self, input: &Number, cx: &mut Context) -> StagePoll<Number, u128> {
        if self.waits == 0 {
            return StageAnswer::computed(Arc::new(*input));
        }
        self.waits -= 1;
        if self.keeps {
            self.kept.push(cx.keep_waker());
        }
        if self.subscribes {
            cx.ledger.subscribe(cx.waker(), &mut cx.wakes);
        }
        EffectPoll::Pending
    }
}

/// Work that makes progress so many times.
struct Steps(usize);

impl libpipeline::driver::PendingWork for Steps {
    fn run_once(&mut self, _cx: &mut Context) -> bool {
        if self.0 == 0 {
            return false;
        }
        self.0 -= 1;
        true
    }
}

#[test]
fn a_subscription_is_a_wake_path() {
    let mut cx = Context::new();
    let mut stage = Parks { waits: 1, keeps: false, subscribes: true, kept: Vec::new() };
    let (polled, path) = poll_watched(&mut stage, &Number(1), WakerId::Noop, &mut cx);
    assert_eq!((polled, path), (EffectPoll::Pending, Some(WakePath::Registered)));
}

#[test]
fn a_waker_that_is_dropped_is_given_up() {
    let mut wakes = Wakes::new();
    let target = wakes.mint(WakerId::Noop);
    assert!(!wakes.is_kept(target) && !wakes.is_kept(WakerId::Noop));
    let one = wakes.keep(target);
    let other = wakes.keep(target);
    assert!(wakes.is_kept(target));
    drop(one);
    assert!(wakes.is_kept(target), "one is left");
    wakes.release(other);
    assert!(!wakes.is_kept(target));
    drop(wakes.keep(target));
    assert!(!wakes.is_kept(target));
}

#[test]
fn a_path_is_what_is_left_of_the_waker() {
    assert_eq!(WakePath::of(false, false), WakePath::Missing);
    assert_eq!(WakePath::of(false, true), WakePath::Registered);
    assert_eq!(WakePath::of(true, false), WakePath::Woken);
    assert_eq!(WakePath::of(true, true), WakePath::Woken);
}

#[test]
fn a_look_at_the_waker_is_no_wake_path() {
    let mut cx = Context::new();
    let mut stage = Parks { waits: 1, keeps: false, subscribes: false, kept: Vec::new() };
    let (polled, path) = poll_watched(&mut stage, &Number(1), WakerId::Noop, &mut cx);
    assert_eq!((polled, path), (EffectPoll::Pending, Some(WakePath::Missing)));
}

#[test]
fn watching_a_drive_changes_neither_its_end_nor_its_length() {
    for (waits, steps) in [(0, 0), (2, 5), (3, 3), (4, 3)] {
        for keeps in [false, true] {
            let park = || Parks { waits, keeps, subscribes: false, kept: Vec::new() };
            let (mut plain, mut watched) = (park(), park());
            let (mut one, mut other) = (Steps(steps), Steps(steps));
            let driven = run_to_completion(&mut plain, &Number(9), &mut one, &mut Context::new());
            let (seen, report) = run_to_completion_watched(
                &mut watched,
                &Number(9),
                &mut other,
                &mut Context::new(),
            );
            assert_eq!(driven, seen);
            assert_eq!((plain.waits, one.0), (watched.waits, other.0));
            assert_eq!(report.pending_polls(), waits);
            assert_eq!(report.unwakeable_polls(), if keeps { 0 } else { waits });
        }
    }
    let stalled = run_to_completion(
        &mut Parks { waits: 1, keeps: true, subscribes: false, kept: Vec::new() },
        &Number(9),
        &mut NoPendingWork,
        &mut Context::new(),
    );
    assert!(stalled.is_err());
}
