//! A first pipeline, from one stage to a store of one's own.

use std::any::Any;
use std::cell::{Cell, RefCell};
use std::collections::HashMap;
use std::rc::Rc;
use std::sync::Arc;

use libpipeline::builder::{PipelineBuilder, PipelineStore};
use libpipeline::context::Context;
use libpipeline::effect::{EffectPoll, StageAnswer};
use libpipeline::key::{ContentKey, MemoKey, StageId};
use libpipeline::pipeline::Run;
use libpipeline::stage::{Stage, StagePoll};
use libpipeline::store::MemoStore;
use libpipeline::wake::Waker;

fn key_of(text: &str) -> ContentKey {
    let mut h: u128 = 0x6c62_272e_07bb_0142_62b8_2175_6295_c58du128;
    for byte in text.as_bytes() {
        h ^= u128::from(*byte);
        h = h.wrapping_mul(0x0000_0000_0100_0000_0000_0000_0000_013bu128);
    }
    ContentKey::from_u128(h)
}

/// Splits a dotted path like "doc.title" into its segments.
struct Split {
    id: StageId,
}

impl Stage for Split {
    type Input = String;
    type Output = Vec<String>;
    type Error = &'static str;

    fn id(&self) -> StageId {
        self.id
    }

    fn memo_key(&self, input: &String) -> Option<MemoKey> {
        Some(MemoKey::new(self.id, vec![key_of(input)]))
    }

    fn poll_stage(&mut self, input: &String, _cx: &mut Context) -> StagePoll<Vec<String>, &'static str> {
        if input.is_empty() {
            return EffectPoll::Failed("nothing to split");
        }
        StageAnswer::computed(Arc::new(input.split('.').map(str::to_string).collect()))
    }
}

/// Counts the segments the first stage produced.
struct Count {
    id: StageId,
}

impl Stage for Count {
    type Input = Vec<String>;
    type Output = usize;
    type Error = &'static str;

    fn id(&self) -> StageId {
        self.id
    }

    fn memo_key(&self, input: &Vec<String>) -> Option<MemoKey> {
        Some(MemoKey::new(self.id, input.iter().map(|segment| key_of(segment)).collect()))
    }

    fn poll_stage(&mut self, input: &Vec<String>, _cx: &mut Context) -> StagePoll<usize, &'static str> {
        StageAnswer::computed(Arc::new(input.len()))
    }
}

/// Measures a string, counting how many times it actually ran.
struct Len {
    id: StageId,
    runs: Rc<Cell<usize>>,
}

impl Stage for Len {
    type Input = String;
    type Output = usize;
    type Error = &'static str;

    fn id(&self) -> StageId {
        self.id
    }

    fn memo_key(&self, input: &String) -> Option<MemoKey> {
        Some(MemoKey::new(self.id, vec![key_of(input)]))
    }

    fn poll_stage(&mut self, input: &String, _cx: &mut Context) -> StagePoll<usize, &'static str> {
        self.runs.set(self.runs.get() + 1);
        StageAnswer::computed(Arc::new(input.len()))
    }
}

/// Renders a number.
struct Render {
    id: StageId,
}

impl Stage for Render {
    type Input = usize;
    type Output = String;
    type Error = &'static str;

    fn id(&self) -> StageId {
        self.id
    }

    fn memo_key(&self, input: &usize) -> Option<MemoKey> {
        Some(MemoKey::new(self.id, vec![ContentKey::from_u128(*input as u128)]))
    }

    fn poll_stage(&mut self, input: &usize, _cx: &mut Context) -> StagePoll<String, &'static str> {
        StageAnswer::computed(Arc::new(input.to_string()))
    }
}

/// Where a value lands out of band, and where a delayed poll leaves its waker.
struct Slot {
    value: Cell<Option<u32>>,
    waker: Cell<Option<Waker>>,
}

/// Pending until the slot is filled. An effect's answer is not a cacheable fact, so it
/// refuses to key.
struct Fetch {
    id: StageId,
    slot: Rc<Slot>,
}

impl Stage for Fetch {
    type Input = ();
    type Output = u32;
    type Error = &'static str;

    fn id(&self) -> StageId {
        self.id
    }

    fn memo_key(&self, _input: &()) -> Option<MemoKey> {
        None
    }

    fn poll_stage(&mut self, _input: &(), cx: &mut Context) -> StagePoll<u32, &'static str> {
        match self.slot.value.get() {
            Some(value) => StageAnswer::computed(Arc::new(value)),
            None => {
                self.slot.waker.set(Some(cx.keep_waker()));
                EffectPoll::Pending
            }
        }
    }
}

/// A store for outputs of any type, each position with its own rows.
#[derive(Clone)]
struct MapStore {
    rows: Rc<RefCell<HashMap<MemoKey, Box<dyn Any>>>>,
}

impl<V: 'static> MemoStore<V> for MapStore {
    fn lookup(&self, key: &MemoKey) -> Option<Arc<V>> {
        self.rows.borrow().get(key).map(|row| {
            Arc::clone(row.downcast_ref::<Arc<V>>().expect("a row holds its own stage's output"))
        })
    }

    fn record(&mut self, key: &MemoKey, value: Arc<V>) {
        self.rows.borrow_mut().insert(key.clone(), Box::new(value));
    }
}

impl<V: 'static> PipelineStore<V> for MapStore {
    fn seam(&self, _at: StageId) -> Self {
        MapStore { rows: Rc::clone(&self.rows) }
    }
}

fn text(value: &str) -> String {
    value.to_string()
}

#[test]
fn one_stage_answers_on_the_first_run() {
    let mut pipeline = PipelineBuilder::new().stage("split", |id| Split { id }).build();
    let Ok(Run::Computed(segments)) = pipeline.run(1, &text("doc.title")) else {
        panic!("a pure stage answers on the first run");
    };
    assert_eq!(*segments, vec![text("doc"), text("title")]);
}

#[test]
fn two_stages_answer_and_a_failure_names_its_stage() {
    let mut pipeline = PipelineBuilder::new()
        .stage("split", |id| Split { id })
        .stage("count", |id| Count { id })
        .build();

    let Ok(Run::Computed(count)) = pipeline.run(1, &text("doc.section.title")) else {
        panic!("both stages are pure");
    };
    assert_eq!(*count, 3);

    let Err(failure) = pipeline.run(2, &String::new()) else {
        panic!("an empty source cannot be split");
    };
    assert_eq!(failure.at(), 0);
    assert_eq!(*failure.error(), "nothing to split");
}

#[test]
fn a_repeat_is_served_and_the_control_run_is_not() {
    let runs = Rc::new(Cell::new(0));
    let counted = Rc::clone(&runs);
    let mut pipeline =
        PipelineBuilder::new().stage("len", move |id| Len { id, runs: counted }).build();
    for version in 1..=2 {
        assert!(matches!(
            pipeline.run(version, &text("abcd")),
            Ok(Run::Computed(value)) if *value == 4,
        ));
    }
    assert_eq!(runs.get(), 1, "the repeat was served by the lookup");

    let runs = Rc::new(Cell::new(0));
    let counted = Rc::clone(&runs);
    let mut control = PipelineBuilder::new()
        .uncached()
        .stage("len", move |id| Len { id, runs: counted })
        .build();
    for version in 1..=2 {
        assert!(matches!(
            control.run(version, &text("abcd")),
            Ok(Run::Computed(value)) if *value == 4,
        ));
    }
    assert_eq!(runs.get(), 2, "the control ran every time");
}

#[test]
fn a_matching_version_never_looks_at_the_input() {
    let runs = Rc::new(Cell::new(0));
    let counted = Rc::clone(&runs);
    let mut pipeline =
        PipelineBuilder::new().stage("len", move |id| Len { id, runs: counted }).build();

    assert!(matches!(
        pipeline.run(1, &text("doc.title")),
        Ok(Run::Computed(value)) if *value == 9,
    ));
    assert!(matches!(pipeline.run(1, &text("anything at all")), Ok(Run::Unchanged)));
    assert_eq!(runs.get(), 1);
    assert!(matches!(pipeline.run(2, &text("hi")), Ok(Run::Computed(value)) if *value == 2));
    assert_eq!(runs.get(), 2);
}

#[test]
fn a_frame_is_delayed_woken_and_answered() {
    let slot = Rc::new(Slot { value: Cell::new(None), waker: Cell::new(None) });
    let registered = Rc::clone(&slot);
    let mut pipeline =
        PipelineBuilder::new().stage("fetch", move |id| Fetch { id, slot: registered }).build();

    assert!(matches!(pipeline.run(1, &()), Ok(Run::Delayed)));
    slot.value.set(Some(7));
    pipeline.wake(&slot.waker.take().expect("a pending stage leaves its waker"));
    assert!(matches!(pipeline.run(1, &()), Ok(Run::Computed(value)) if *value == 7));
}

#[test]
fn a_blocking_caller_pumps_its_own_queue() {
    let slot = Rc::new(Slot { value: Cell::new(None), waker: Cell::new(None) });
    let registered = Rc::clone(&slot);
    let mut pipeline =
        PipelineBuilder::new().stage("fetch", move |id| Fetch { id, slot: registered }).build();

    let mut pumped = 0;
    let outcome = loop {
        match pipeline.run(1, &()) {
            Ok(Run::Delayed) if pumped == 0 => {
                pumped += 1;
                slot.value.set(Some(7));
                pipeline.wake(&slot.waker.take().expect("a pending stage leaves its waker"));
            }
            done => break done,
        }
    };
    assert!(matches!(outcome, Ok(Run::Computed(value)) if *value == 7));
    assert_eq!(pumped, 1);
}

#[test]
fn one_store_two_stages_two_types() {
    let store = MapStore { rows: Rc::new(RefCell::new(HashMap::new())) };
    let runs = Rc::new(Cell::new(0));
    let counted = Rc::clone(&runs);
    let mut pipeline = PipelineBuilder::new()
        .store(store.clone())
        .stage("len", move |id| Len { id, runs: counted })
        .stage("render", |id| Render { id })
        .build();

    assert!(matches!(
        pipeline.run(1, &text("abcd")),
        Ok(Run::Computed(value)) if *value == "4",
    ));
    assert_eq!(store.rows.borrow().len(), 2);
    assert!(matches!(
        pipeline.run(2, &text("abcd")),
        Ok(Run::Computed(value)) if *value == "4",
    ));
    assert_eq!(runs.get(), 1);
}
