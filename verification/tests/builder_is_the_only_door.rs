//! The builder registers stages, chooses where they remember, and stamps positions.

use std::any::Any;
use std::cell::{Cell, RefCell};
use std::collections::HashMap;
use std::rc::Rc;
use std::sync::Arc;

use libpipeline::builder::{Failure, PipelineBuilder, PipelineStore};
use libpipeline::context::Context;
use libpipeline::effect::{EffectPoll, StageAnswer};
use libpipeline::key::{ContentKey, MemoKey, StageId};
use libpipeline::pipeline::{Pipeline, Run};
use libpipeline::stage::{Stage, StagePoll};
use libpipeline::store::MemoStore;
use libpipeline::wake::Waker;

/// A key over some bytes.
fn key_of_bytes(bytes: &[u8]) -> ContentKey {
    let mut h: u128 = 0x6c62_272e_07bb_0142_62b8_2175_6295_c58du128;
    for byte in bytes {
        h ^= u128::from(*byte);
        h = h.wrapping_mul(0x0000_0000_0100_0000_0000_0000_0000_013bu128);
    }
    ContentKey::from_u128(h)
}

/// The value a run computed, or a panic naming what it answered instead.
fn computed<T: std::fmt::Debug>(outcome: Result<Run<T>, Failure<&'static str>>) -> Arc<T> {
    match outcome {
        Ok(Run::Computed(value)) => value,
        Ok(other) => panic!("expected a computed run, got {other:?}"),
        Err(failure) => panic!("expected a computed run, got {:?}", failure.error()),
    }
}

type Count = Rc<Cell<usize>>;

fn counter() -> Count {
    Rc::new(Cell::new(0))
}

fn bump(count: &Count) {
    count.set(count.get() + 1);
}

/// First stage: length of a string, counting its runs.
struct Len {
    id: StageId,
    runs: Count,
}

impl Stage for Len {
    type Input = String;
    type Output = usize;
    type Error = &'static str;

    fn id(&self) -> StageId {
        self.id
    }

    fn memo_key(&self, input: &String) -> Option<MemoKey> {
        Some(MemoKey::new(self.id, vec![key_of_bytes(input.as_bytes())]))
    }

    fn poll_stage(&mut self, input: &String, _cx: &mut Context) -> StagePoll<usize, &'static str> {
        bump(&self.runs);
        StageAnswer::computed(Arc::new(input.len()))
    }
}

/// Second stage: doubles, counting its runs.
struct Double {
    id: StageId,
    runs: Count,
}

impl Stage for Double {
    type Input = usize;
    type Output = usize;
    type Error = &'static str;

    fn id(&self) -> StageId {
        self.id
    }

    fn memo_key(&self, input: &usize) -> Option<MemoKey> {
        Some(MemoKey::new(self.id, vec![ContentKey::from_u128(*input as u128)]))
    }

    fn poll_stage(&mut self, input: &usize, _cx: &mut Context) -> StagePoll<usize, &'static str> {
        bump(&self.runs);
        StageAnswer::computed(Arc::new(input * 2))
    }
}

/// Renders the count, so that a pipeline can hold stages of different output types.
struct Render {
    id: StageId,
    runs: Count,
}

impl Stage for Render {
    type Input = usize;
    type Output = String;
    type Error = &'static str;

    fn id(&self) -> StageId {
        self.id
    }

    fn memo_key(&self, input: &usize) -> Option<MemoKey> {
        Some(MemoKey::new(self.id, vec![ContentKey::from_u128(*input as u128)]))
    }

    fn poll_stage(&mut self, input: &usize, _cx: &mut Context) -> StagePoll<String, &'static str> {
        bump(&self.runs);
        StageAnswer::computed(Arc::new(input.to_string()))
    }
}

/// One store for stages of any output type: rows are erased.
#[derive(Clone)]
struct ErasedStore {
    rows: Rc<RefCell<HashMap<MemoKey, Box<dyn Any>>>>,
}

impl ErasedStore {
    fn new() -> Self {
        ErasedStore { rows: Rc::new(RefCell::new(HashMap::new())) }
    }

    fn len(&self) -> usize {
        self.rows.borrow().len()
    }
}

impl<V: 'static> MemoStore<V> for ErasedStore {
    fn lookup(&self, key: &MemoKey) -> Option<Arc<V>> {
        self.rows.borrow().get(key).map(|row| {
            Arc::clone(row.downcast_ref::<Arc<V>>().expect("a row holds its own stage's output"))
        })
    }

    fn record(&mut self, key: &MemoKey, value: Arc<V>) {
        self.rows.borrow_mut().insert(key.clone(), Box::new(value));
    }
}

impl<V: 'static> PipelineStore<V> for ErasedStore {
    fn seam(&self, _at: StageId) -> Self {
        ErasedStore { rows: Rc::clone(&self.rows) }
    }
}

fn text(value: &str) -> String {
    value.to_string()
}

#[test]
fn two_stages_compose_and_answer() {
    let mut pipeline = PipelineBuilder::new()
        .stage("len", |id| Len { id, runs: counter() })
        .stage("double", |id| Double { id, runs: counter() })
        .build();
    assert_eq!(*computed(pipeline.run(1, &text("abcd"))), 8);
}

#[test]
fn an_unchanged_input_hits_at_the_first_stage() {
    let (len_runs, double_runs) = (counter(), counter());
    let mut pipeline = PipelineBuilder::new()
        .stage("len", |id| Len { id, runs: Rc::clone(&len_runs) })
        .stage("double", |id| Double { id, runs: Rc::clone(&double_runs) })
        .build();

    assert_eq!(*computed(pipeline.run(1, &text("abcd"))), 8);
    // A new version over the same content: the graph is entered, and every stage hits.
    assert_eq!(*computed(pipeline.run(2, &text("abcd"))), 8);
    assert_eq!((len_runs.get(), double_runs.get()), (1, 1));

    // A different input reaches both stages...
    assert_eq!(*computed(pipeline.run(3, &text("xy"))), 4);
    assert_eq!((len_runs.get(), double_runs.get()), (2, 2));
    // ...but one that lowers to an already-seen intermediate stops there.
    assert_eq!(*computed(pipeline.run(4, &text("dcba"))), 8);
    assert_eq!((len_runs.get(), double_runs.get()), (3, 2));
}

#[test]
fn the_same_version_answers_unchanged_without_touching_the_graph() {
    let runs = counter();
    let mut pipeline = PipelineBuilder::new()
        .stage("len", |id| Len { id, runs: Rc::clone(&runs) })
        .build();

    assert_eq!(*computed(pipeline.run(7, &text("abcd"))), 4);
    assert!(matches!(pipeline.run(7, &text("xy")), Ok(Run::Unchanged)));
    assert_eq!(runs.get(), 1, "nothing was polled");

    assert_eq!(*computed(pipeline.run(8, &text("xy"))), 2);
    assert_eq!(runs.get(), 2);
}

#[test]
fn two_stages_may_share_a_name_with_no_consequence() {
    let (len_runs, double_runs) = (counter(), counter());
    let mut shared = PipelineBuilder::new()
        .stage("same", |id| Len { id, runs: Rc::clone(&len_runs) })
        .stage("same", |id| Double { id, runs: Rc::clone(&double_runs) })
        .build();

    assert_eq!(*computed(shared.run(1, &text("abcd"))), 8);
    assert_eq!(*computed(shared.run(2, &text("abcd"))), 8);
    assert_eq!((len_runs.get(), double_runs.get()), (1, 1));

    assert_eq!(*computed(shared.run(3, &text("xy"))), 4);
    assert_eq!((len_runs.get(), double_runs.get()), (2, 2));
}

#[test]
fn one_store_serves_stages_of_different_output_types() {
    let store = ErasedStore::new();
    let (len_runs, render_runs) = (counter(), counter());
    let mut pipeline = PipelineBuilder::new()
        .store(store.clone())
        .stage("len", |id| Len { id, runs: Rc::clone(&len_runs) })
        .stage("render", |id| Render { id, runs: Rc::clone(&render_runs) })
        .build();

    assert_eq!(*computed(pipeline.run(1, &text("abcd"))), "4");
    assert_eq!(store.len(), 2, "one store, one row per stage");

    // Each stage got its own answer back: the repeat is two hits.
    assert_eq!(*computed(pipeline.run(2, &text("abcd"))), "4");
    assert_eq!((len_runs.get(), render_runs.get()), (1, 1));
    assert_eq!(store.len(), 2);
}

#[test]
fn uncached_is_the_control_run_answers_hold_speed_does_not() {
    let input = text("abcd");
    let cached_runs = counter();
    let mut cached = PipelineBuilder::new()
        .stage("len", |id| Len { id, runs: Rc::clone(&cached_runs) })
        .build();
    let uncached_runs = counter();
    let mut uncached = PipelineBuilder::new()
        .uncached()
        .stage("len", |id| Len { id, runs: Rc::clone(&uncached_runs) })
        .build();

    // The versions move, so that what differs below is the store.
    for version in 1..=2 {
        assert_eq!(*computed(cached.run(version, &input)), 4);
        assert_eq!(*computed(uncached.run(version, &input)), 4);
    }
    assert_eq!(cached_runs.get(), 1);
    assert_eq!(uncached_runs.get(), 2);
}

/// A second-stage failure, for the position stamped on it.
struct Reject {
    id: StageId,
}

impl Stage for Reject {
    type Input = usize;
    type Output = usize;
    type Error = &'static str;

    fn id(&self) -> StageId {
        self.id
    }

    fn memo_key(&self, _input: &usize) -> Option<MemoKey> {
        None
    }

    fn poll_stage(&mut self, _input: &usize, _cx: &mut Context) -> StagePoll<usize, &'static str> {
        EffectPoll::Failed("rejected")
    }
}

#[test]
fn a_failure_names_the_stage_that_raised_it() {
    let mut pipeline = PipelineBuilder::new()
        .stage("len", |id| Len { id, runs: counter() })
        .stage("reject", |id| Reject { id })
        .build();
    let Err(failure) = pipeline.run(1, &text("abcd")) else {
        panic!("the second stage rejects, so the run must fail");
    };
    assert_eq!(failure.at(), 1);
    assert_eq!(*failure.error(), "rejected");

    // Nothing was recorded, so the same version runs again.
    let Err(again) = pipeline.run(1, &text("abcd")) else {
        panic!("a failure records nothing, so the same version runs again");
    };
    assert_eq!(again.at(), 1);
}

/// Where an out-of-band value lands, and where a poll leaves its waker.
struct Slot {
    value: Cell<Option<u64>>,
    waker: Cell<Option<Waker>>,
}

/// A stage over something that keeps changing, which keeps its subscription on every
/// poll, ready or not.
struct Watches {
    id: StageId,
    slot: Rc<Slot>,
}

impl Stage for Watches {
    type Input = ();
    type Output = u64;
    type Error = &'static str;

    fn id(&self) -> StageId {
        self.id
    }

    /// The slot is an ambient input that no key over the argument can address.
    fn memo_key(&self, _input: &()) -> Option<MemoKey> {
        None
    }

    fn poll_stage(&mut self, _input: &(), cx: &mut Context) -> StagePoll<u64, &'static str> {
        self.slot.waker.set(Some(cx.keep_waker()));
        match self.slot.value.get() {
            Some(value) => StageAnswer::computed(Arc::new(value)),
            None => EffectPoll::Pending,
        }
    }
}

#[test]
fn a_wake_at_an_unchanged_version_computes_rather_than_answering_unchanged() {
    let slot = Rc::new(Slot { value: Cell::new(None), waker: Cell::new(None) });
    let watching = Rc::clone(&slot);
    let mut pipeline = PipelineBuilder::new()
        .stage("watches", move |id| Watches { id, slot: watching })
        .build();

    // Nothing has landed: a delayed run records no version.
    assert!(matches!(pipeline.run(1, &()), Ok(Run::Delayed)));

    // A value lands and wakes. The run it prompts computes, and records version 1.
    slot.value.set(Some(7));
    pipeline.wake(&slot.waker.take().expect("the stage kept its waker"));
    assert_eq!(*computed(pipeline.run(1, &())), 7);

    // Version 1 again with nothing having happened.
    assert!(matches!(pipeline.run(1, &()), Ok(Run::Unchanged)));

    // A second value lands out of band. The version has not moved, and the wake is the
    // other thing that means something happened.
    slot.value.set(Some(9));
    pipeline.wake(&slot.waker.take().expect("the stage kept its waker"));
    assert_eq!(*computed(pipeline.run(1, &())), 9);
}

#[test]
fn a_failure_type_is_spellable_in_one_line_at_any_length_of_chain() {
    fn three_stages(
    ) -> Pipeline<u64, impl Stage<Input = String, Output = String, Error = Failure<&'static str>>> {
        PipelineBuilder::new()
            .stage("len", |id| Len { id, runs: counter() })
            .stage("double", |id| Double { id, runs: counter() })
            .stage("render", |id| Render { id, runs: counter() })
            .build()
    }
    assert_eq!(*computed(three_stages().run(1, &text("abcd"))), "8");
}
