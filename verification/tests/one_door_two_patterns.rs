//! One door, two ways to use it: a blocking caller loops on `Delayed`, and a frame
//! caller runs again when it is woken.

use std::any::Any;
use std::cell::{Cell, RefCell};
use std::collections::HashMap;
use std::rc::Rc;
use std::sync::Arc;

use libpipeline::builder::{Failure, PipelineBuilder, PipelineStore};
use libpipeline::context::Context;
use libpipeline::effect::{EffectPoll, StageAnswer};
use libpipeline::key::{ContentKey, MemoKey, StageId};
use libpipeline::pipeline::{Pipeline, Run};
use libpipeline::stage::{Stage, StagePoll};
use libpipeline::store::MemoStore;
use libpipeline::wake::Waker;

/// Stand-in for whatever an author wrote.
#[derive(Clone, PartialEq, Eq, Debug)]
struct Source(&'static str);

/// Stand-in for the first lowering's output.
#[derive(Clone, PartialEq, Eq, Debug)]
struct Lowered(Vec<String>);

/// Stand-in for the second lowering's output.
#[derive(Clone, PartialEq, Eq, Debug)]
struct Emitted(String);

/// How many times a stage was polled, readable after the builder has taken the stage.
type Runs = Rc<Cell<usize>>;

fn counter() -> Runs {
    Rc::new(Cell::new(0))
}

/// A store of another's making: erased rows, of which each position reads and writes
/// its own.
#[derive(Clone)]
struct MapStore {
    rows: Rc<RefCell<HashMap<MemoKey, Box<dyn Any>>>>,
}

impl MapStore {
    fn new() -> Self {
        MapStore { rows: Rc::new(RefCell::new(HashMap::new())) }
    }
}

impl<V: 'static> MemoStore<V> for MapStore {
    fn lookup(&self, key: &MemoKey) -> Option<Arc<V>> {
        self.rows.borrow().get(key).map(|row| {
            Arc::clone(row.downcast_ref::<Arc<V>>().expect("a row holds its own stage's output"))
        })
    }

    fn record(&mut self, key: &MemoKey, value: Arc<V>) {
        self.rows.borrow_mut().insert(key.clone(), Box::new(value));
    }
}

impl<V: 'static> PipelineStore<V> for MapStore {
    fn seam(&self, _at: StageId) -> Self {
        MapStore { rows: Rc::clone(&self.rows) }
    }
}

/// A pure stage: an answer on the first poll, keyed, never pending.
struct Lower {
    id: StageId,
    runs: Runs,
}

impl Stage for Lower {
    type Input = Source;
    type Output = Lowered;
    type Error = &'static str;

    fn id(&self) -> StageId {
        self.id
    }

    fn memo_key(&self, input: &Source) -> Option<MemoKey> {
        Some(MemoKey::new(self.id, vec![content_key_of(input.0)]))
    }

    fn poll_stage(&mut self, input: &Source, _cx: &mut Context) -> StagePoll<Lowered, &'static str> {
        self.runs.set(self.runs.get() + 1);
        if input.0.is_empty() {
            return EffectPoll::Failed("nothing to lower");
        }
        StageAnswer::computed(Arc::new(Lowered(input.0.split('.').map(str::to_string).collect())))
    }
}

/// The thing the second stage waits for: an input that has not landed yet, with the
/// wakers of everyone who asked for it early.
struct Upstream {
    value: Cell<Option<&'static str>>,
    waiting: RefCell<Vec<Waker>>,
}

impl Upstream {
    fn new() -> Rc<Self> {
        Rc::new(Upstream { value: Cell::new(None), waiting: RefCell::new(Vec::new()) })
    }

    /// The value arrives. Who parked on it is handed back, to be told to run again.
    fn land(&self, value: &'static str) -> Vec<Waker> {
        self.value.set(Some(value));
        self.waiting.borrow_mut().drain(..).collect()
    }
}

/// An effectful stage: pending until its upstream lands.
struct Emit {
    id: StageId,
    upstream: Rc<Upstream>,
    runs: Runs,
}

impl Stage for Emit {
    type Input = Lowered;
    type Output = Emitted;
    type Error = &'static str;

    fn id(&self) -> StageId {
        self.id
    }

    fn memo_key(&self, input: &Lowered) -> Option<MemoKey> {
        Some(MemoKey::new(self.id, vec![content_key_of(&input.0.join("."))]))
    }

    fn poll_stage(&mut self, input: &Lowered, cx: &mut Context) -> StagePoll<Emitted, &'static str> {
        match self.upstream.value.get() {
            Some(landed) => {
                self.runs.set(self.runs.get() + 1);
                StageAnswer::computed(Arc::new(Emitted(format!("{landed}::{}", input.0.join("/")))))
            }
            None => {
                let waker = cx.keep_waker();
                self.upstream.waiting.borrow_mut().push(waker);
                EffectPoll::Pending
            }
        }
    }
}

/// The same stage as [`Emit`], minus the line that registers the waker.
struct ForgetfulEmit {
    id: StageId,
    upstream: Rc<Upstream>,
}

impl Stage for ForgetfulEmit {
    type Input = Lowered;
    type Output = Emitted;
    type Error = &'static str;

    fn id(&self) -> StageId {
        self.id
    }

    fn memo_key(&self, _input: &Lowered) -> Option<MemoKey> {
        None
    }

    fn poll_stage(&mut self, input: &Lowered, _cx: &mut Context) -> StagePoll<Emitted, &'static str> {
        match self.upstream.value.get() {
            Some(landed) => {
                StageAnswer::computed(Arc::new(Emitted(format!("{landed}::{}", input.0.join("/")))))
            }
            None => EffectPoll::Pending,
        }
    }
}

/// Equal inputs key equally; nothing more is claimed.
fn content_key_of(text: &str) -> ContentKey {
    let mut h: u128 = 0x6c62_272e_07bb_0142_62b8_2175_6295_c58du128;
    for byte in text.as_bytes() {
        h ^= u128::from(*byte);
        h = h.wrapping_mul(0x0000_0000_0100_0000_0000_0000_0000_013bu128);
    }
    ContentKey::from_u128(h)
}

type PipelineError = Failure<&'static str>;

/// The two-stage graph: `lower` then `emit`, both remembered in one store.
fn pipeline(
    upstream: &Rc<Upstream>,
    lower_runs: &Runs,
    emit_runs: &Runs,
) -> Pipeline<u64, impl Stage<Input = Source, Output = Emitted, Error = PipelineError>> {
    let (upstream, lower_runs, emit_runs) =
        (Rc::clone(upstream), Rc::clone(lower_runs), Rc::clone(emit_runs));
    PipelineBuilder::new()
        .store(MapStore::new())
        .stage("test.lower", move |id| Lower { id, runs: lower_runs })
        .stage("test.emit", move |id| Emit { id, upstream, runs: emit_runs })
        .build()
}

/// [`pipeline`] with the counts thrown away.
fn graph(
    upstream: &Rc<Upstream>,
) -> Pipeline<u64, impl Stage<Input = Source, Output = Emitted, Error = PipelineError>> {
    pipeline(upstream, &counter(), &counter())
}

/// Just the first stage, registered on its own.
fn lowering(
    runs: &Runs,
    cached: bool,
) -> Pipeline<u64, impl Stage<Input = Source, Output = Lowered, Error = PipelineError>> {
    let runs = Rc::clone(runs);
    let builder = if cached {
        PipelineBuilder::new()
    } else {
        // `uncached` wins over `store` whichever order they are called in.
        PipelineBuilder::new().uncached()
    };
    builder.store(MapStore::new()).stage("test.lower", move |id| Lower { id, runs }).build()
}

/// The graph whose second stage forgets its waker.
fn forgetful(
    upstream: &Rc<Upstream>,
) -> Pipeline<u64, impl Stage<Input = Source, Output = Emitted, Error = PipelineError>> {
    let upstream = Rc::clone(upstream);
    PipelineBuilder::new()
        .store(MapStore::new())
        .stage("test.lower", |id| Lower { id, runs: counter() })
        .stage("test.emit_without_registering", move |id| ForgetfulEmit { id, upstream })
        .build()
}

/// The upstream lands, and whoever parked on it is woken.
fn land<S: Stage>(upstream: &Rc<Upstream>, pipeline: &mut Pipeline<u64, S>) {
    for waker in upstream.land("built") {
        pipeline.wake(&waker);
    }
}

type RunResult<T> = Result<Run<T>, PipelineError>;

/// The position and error a run ended on.
fn failed<T: std::fmt::Debug>(outcome: RunResult<T>) -> (usize, &'static str) {
    match outcome {
        Err(failure) => (failure.at(), *failure.error()),
        Ok(other) => panic!("expected a failed run, got {other:?}"),
    }
}

/// The value a run computed, or a panic naming what it answered instead.
fn computed<T: std::fmt::Debug>(outcome: RunResult<T>) -> Arc<T> {
    match outcome {
        Ok(Run::Computed(value)) => value,
        Ok(other) => panic!("expected a computed run, got {other:?}"),
        Err(failure) => panic!("expected a computed run, got {:?}", failure.error()),
    }
}

fn is_delayed<T>(outcome: RunResult<T>) -> bool {
    matches!(outcome, Ok(Run::Delayed))
}

/// The caller's own executor. Between runs it makes progress and hands back who is to be
/// woken; `None` means that there is nothing left to run.
trait Executor {
    fn run_once(&mut self) -> Option<Vec<Waker>>;
}

/// The blocking caller: loop on `Delayed`, making progress between runs.
fn blocking<S: Stage<Error = PipelineError>, W: Executor>(
    pipeline: &mut Pipeline<u64, S>,
    version: u64,
    input: &S::Input,
    work: &mut W,
) -> RunResult<S::Output> {
    loop {
        match pipeline.run(version, input) {
            Ok(Run::Delayed) => match work.run_once() {
                Some(woken) => {
                    for waker in woken {
                        pipeline.wake(&waker);
                    }
                }
                None => return Ok(Run::Delayed),
            },
            done => return done,
        }
    }
}

/// Nothing to pump.
struct NoWork;

impl Executor for NoWork {
    fn run_once(&mut self) -> Option<Vec<Waker>> {
        None
    }
}

/// It lands the upstream the first time it is pumped, then has nothing left to do.
struct LandsOnFirstPump {
    upstream: Rc<Upstream>,
    landed: bool,
}

impl LandsOnFirstPump {
    fn new(upstream: &Rc<Upstream>) -> Self {
        LandsOnFirstPump { upstream: Rc::clone(upstream), landed: false }
    }
}

impl Executor for LandsOnFirstPump {
    fn run_once(&mut self) -> Option<Vec<Waker>> {
        if self.landed {
            return None;
        }
        self.landed = true;
        Some(self.upstream.land("built"))
    }
}

/// The frame caller after a `Delayed`: it runs only because a wake said stale.
fn frames_when_woken<S: Stage<Error = PipelineError>>(
    pipeline: &mut Pipeline<u64, S>,
    version: u64,
    input: &S::Input,
    max_frames: usize,
) -> Option<Arc<S::Output>> {
    for _ in 0..max_frames {
        if !pipeline.take_stale() {
            return None;
        }
        if let Ok(Run::Computed(value)) = pipeline.run(version, input) {
            return Some(value);
        }
    }
    None
}

fn emitted() -> Emitted {
    Emitted("built::doc/title".to_string())
}

#[test]
fn a_blocking_caller_loops_on_delayed_until_the_graph_answers() {
    let upstream = Upstream::new();
    let mut graph = graph(&upstream);
    let mut work = LandsOnFirstPump::new(&upstream);
    let out = blocking(&mut graph, 1, &Source("doc.title"), &mut work);
    assert_eq!(*computed(out), emitted());
}

#[test]
fn a_frame_caller_is_delayed_wakes_and_runs_again_to_computed() {
    let upstream = Upstream::new();
    let mut graph = graph(&upstream);
    let input = Source("doc.title");

    assert!(is_delayed(graph.run(1, &input)));
    assert!(!graph.take_stale(), "a Delayed run is not itself a wake - something has to land");

    land(&upstream, &mut graph);
    assert!(graph.take_stale(), "the wake reached the frame loop");

    assert_eq!(*computed(graph.run(1, &input)), emitted());
}

#[test]
fn both_patterns_give_the_same_answer_for_the_same_graph() {
    let input = Source("doc.section.title");

    let offline_upstream = Upstream::new();
    let mut offline_graph = graph(&offline_upstream);
    let offline = computed(blocking(
        &mut offline_graph,
        1,
        &input,
        &mut LandsOnFirstPump::new(&offline_upstream),
    ));

    let live_upstream = Upstream::new();
    let mut live_graph = graph(&live_upstream);
    assert!(is_delayed(live_graph.run(1, &input)));
    land(&live_upstream, &mut live_graph);
    let live = frames_when_woken(&mut live_graph, 1, &input, 4)
        .expect("the woken frame reaches a value");

    assert_eq!(offline, live);
}

#[test]
fn one_door_two_patterns_a_pending_stage_that_registers_no_waker_is_a_value_lost_rather_than_late() {
    let upstream = Upstream::new();
    let mut graph = forgetful(&upstream);
    let input = Source("doc.title");

    assert!(is_delayed(graph.run(1, &input)));
    land(&upstream, &mut graph);
    assert!(
        !graph.take_stale(),
        "the value landed and nothing can tell the frame loop; it is unreachable, not late",
    );
    assert_eq!(
        frames_when_woken(&mut graph, 1, &input, 100),
        None,
        "so no number of frames reaches it",
    );

    // A blocking caller is unaffected, because it runs again without being asked.
    let out = blocking(&mut graph, 1, &input, &mut LandsOnFirstPump::new(&upstream));
    assert_eq!(*computed(out), emitted());
}

#[test]
fn one_door_two_patterns_the_frame_loop_cannot_advance_without_a_wake() {
    let mut graph = graph(&Upstream::new());
    let input = Source("doc.title");
    assert!(is_delayed(graph.run(1, &input)));
    assert_eq!(frames_when_woken(&mut graph, 1, &input, 100), None);
}

#[test]
fn one_door_two_patterns_a_stalled_graph_ends_rather_than_spinning() {
    let mut graph = graph(&Upstream::new());
    let out = blocking(&mut graph, 1, &Source("doc.title"), &mut NoWork);
    assert!(is_delayed(out));
}

#[test]
fn a_failure_bubbles_out_positioned_at_the_stage_that_raised_it() {
    let upstream = Upstream::new();
    upstream.land("built");
    let mut graph = graph(&upstream);
    assert_eq!(
        failed(blocking(&mut graph, 1, &Source(""), &mut NoWork)),
        (0, "nothing to lower"),
    );
}

#[test]
fn the_memo_serves_the_second_run_without_re_running_the_stage() {
    let runs = counter();
    let mut stage = lowering(&runs, true);
    let input = Source("doc.title");

    // The version moves, so that the memo is what answers.
    let first = computed(blocking(&mut stage, 1, &input, &mut NoWork));
    let second = computed(blocking(&mut stage, 2, &input, &mut NoWork));
    assert_eq!(first, second);
    assert_eq!(runs.get(), 1, "the second run was served by the lookup that precedes the work");
}

#[test]
fn one_memo_serves_both_patterns_and_the_stage_runs_once() {
    let input = Source("doc.title");
    let runs = counter();
    let mut stage = lowering(&runs, true);

    let first = computed(blocking(&mut stage, 1, &input, &mut NoWork));
    let second = computed(stage.run(2, &input));
    assert!(!stage.take_stale(), "the stage answered without waiting");

    assert_eq!(runs.get(), 1, "the frame run was served by what the blocking run recorded");
    assert_eq!(first, second, "and the caller must not change what a stage answers");

    // The control run: same answer with every store off.
    let control_runs = counter();
    let mut control = lowering(&control_runs, false);
    assert_eq!(computed(blocking(&mut control, 1, &input, &mut NoWork)), first);
    assert_eq!(control_runs.get(), 1, "the control ran, rather than hitting");
}

#[test]
fn one_door_two_patterns_the_memo_changes_speed_and_not_answers() {
    let input = Source("doc.title");
    let (cached_runs, uncached_runs) = (counter(), counter());
    let mut cached = lowering(&cached_runs, true);
    let mut uncached = lowering(&uncached_runs, false);

    for version in 1..=3 {
        assert_eq!(
            computed(blocking(&mut cached, version, &input, &mut NoWork)),
            computed(blocking(&mut uncached, version, &input, &mut NoWork)),
        );
    }
    assert_eq!(cached_runs.get(), 1);
    assert_eq!(uncached_runs.get(), 3, "the control ran every time");
}

#[test]
fn one_door_two_patterns_a_failure_is_never_cached() {
    let runs = counter();
    let mut stage = lowering(&runs, true);

    for version in 1..=2 {
        assert_eq!(
            failed(blocking(&mut stage, version, &Source(""), &mut NoWork)),
            (0, "nothing to lower"),
        );
    }
    assert_eq!(runs.get(), 2, "a cached failure would have made the second run free");
}

#[test]
fn one_door_two_patterns_the_effectful_stage_runs_once_across_a_park_and_a_wake() {
    let upstream = Upstream::new();
    let (lower_runs, emit_runs) = (counter(), counter());
    let mut graph = pipeline(&upstream, &lower_runs, &emit_runs);
    let input = Source("doc.title");

    assert!(is_delayed(graph.run(1, &input)));
    land(&upstream, &mut graph);
    assert!(matches!(graph.run(1, &input), Ok(Run::Computed(_))));
    assert!(matches!(graph.run(2, &input), Ok(Run::Computed(_))));

    assert_eq!(emit_runs.get(), 1);
    assert_eq!(
        lower_runs.get(),
        1,
        "the pure first stage ran on the Delayed run and was memoized for the rest",
    );
}
