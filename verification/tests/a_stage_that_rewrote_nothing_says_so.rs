//! A stage answers `Unchanged` or `Computed`, and `Unchanged` costs the stages after it
//! nothing.

use std::cell::{Cell, RefCell};
use std::rc::Rc;
use std::sync::Arc;

use libpipeline::builder::PipelineBuilder;
use libpipeline::context::Context;
use libpipeline::effect::{EffectPoll, StageAnswer};
use libpipeline::key::{MemoKey, StageId};
use libpipeline::pipeline::Run;
use libpipeline::stage::{Stage, StagePoll};
use libpipeline::wake::Waker;

/// How many times a stage was entered.
type Count = Rc<Cell<usize>>;

fn counter() -> Count {
    Rc::new(Cell::new(0))
}

fn bump(count: &Count) {
    count.set(count.get() + 1);
}

/// Computes on its first poll and answers `Unchanged` on every one after. It refuses to
/// key, so that nothing answers ahead of it.
struct Settles {
    id: StageId,
    runs: Count,
}

impl Stage for Settles {
    type Input = String;
    type Output = usize;
    type Error = &'static str;

    fn id(&self) -> StageId {
        self.id
    }

    fn memo_key(&self, _input: &String) -> Option<MemoKey> {
        None
    }

    fn poll_stage(&mut self, input: &String, _cx: &mut Context) -> StagePoll<usize, &'static str> {
        bump(&self.runs);
        if self.runs.get() == 1 {
            StageAnswer::computed(Arc::new(input.len()))
        } else {
            StageAnswer::unchanged()
        }
    }
}

/// The stage after it, which exists to be counted.
struct Downstream {
    id: StageId,
    runs: Count,
}

impl Stage for Downstream {
    type Input = usize;
    type Output = String;
    type Error = &'static str;

    fn id(&self) -> StageId {
        self.id
    }

    fn memo_key(&self, _input: &usize) -> Option<MemoKey> {
        None
    }

    fn poll_stage(&mut self, input: &usize, _cx: &mut Context) -> StagePoll<String, &'static str> {
        bump(&self.runs);
        StageAnswer::computed(Arc::new(input.to_string()))
    }
}

#[test]
fn an_unchanged_upstream_means_the_downstream_is_never_polled() {
    let (settles, downstream) = (counter(), counter());
    let (first, second) = (Rc::clone(&settles), Rc::clone(&downstream));
    let mut pipeline = PipelineBuilder::new()
        .stage("settles", |id| Settles { id, runs: first })
        .stage("downstream", |id| Downstream { id, runs: second })
        .build();
    let input = "abcd".to_string();

    assert_eq!(pipeline.run(1, &input), Ok(Run::Computed(Arc::new("4".to_string()))));
    assert_eq!((settles.get(), downstream.get()), (1, 1));

    // At versions that moved, so that the graph really is entered each time.
    assert_eq!(pipeline.run(2, &input), Ok(Run::Unchanged));
    assert_eq!(pipeline.run(3, &input), Ok(Run::Unchanged));
    assert_eq!(settles.get(), 3, "the first stage was entered on every poll");
    assert_eq!(
        downstream.get(),
        1,
        "the second stage was entered once, on the poll where its input was computed",
    );
}

#[test]
fn the_control_run_changes_speed_and_not_answers() {
    let (settles, downstream) = (counter(), counter());
    let (first, second) = (Rc::clone(&settles), Rc::clone(&downstream));
    let mut pipeline = PipelineBuilder::new()
        .uncached()
        .stage("settles", |id| Settles { id, runs: first })
        .stage("downstream", |id| Downstream { id, runs: second })
        .build();
    let input = "abcd".to_string();

    assert_eq!(pipeline.run(1, &input), Ok(Run::Computed(Arc::new("4".to_string()))));
    assert_eq!(pipeline.run(2, &input), Ok(Run::Unchanged));
    assert_eq!((settles.get(), downstream.get()), (2, 1));
}

/// Where an out-of-band value lands, and where a parked poll leaves its waker.
struct Landing {
    value: Cell<Option<u64>>,
    waker: RefCell<Option<Waker>>,
}

/// A downstream that parks until a value lands, keeping its subscription.
struct Awaits {
    id: StageId,
    runs: Count,
    landing: Rc<Landing>,
}

impl Stage for Awaits {
    type Input = usize;
    type Output = u64;
    type Error = &'static str;

    fn id(&self) -> StageId {
        self.id
    }

    fn memo_key(&self, _input: &usize) -> Option<MemoKey> {
        None
    }

    fn poll_stage(&mut self, _input: &usize, cx: &mut Context) -> StagePoll<u64, &'static str> {
        bump(&self.runs);
        *self.landing.waker.borrow_mut() = Some(cx.keep_waker());
        match self.landing.value.get() {
            Some(value) => StageAnswer::computed(Arc::new(value)),
            None => EffectPoll::Pending,
        }
    }
}

#[test]
fn an_unchanged_upstream_does_not_skip_a_downstream_that_owes_a_wake() {
    let (settles, downstream) = (counter(), counter());
    let landing = Rc::new(Landing { value: Cell::new(None), waker: RefCell::new(None) });
    let (first, second) = (Rc::clone(&settles), Rc::clone(&downstream));
    let awaited = Rc::clone(&landing);
    let mut pipeline = PipelineBuilder::new()
        .stage("settles", |id| Settles { id, runs: first })
        .stage("awaits", |id| Awaits { id, runs: second, landing: awaited })
        .build();
    let input = "abcd".to_string();

    // The first stage computes; the second parks.
    assert_eq!(pipeline.run(1, &input), Ok(Run::Delayed));
    assert_eq!((settles.get(), downstream.get()), (1, 1));

    // The awaited value lands. The first stage now answers `Unchanged`.
    landing.value.set(Some(7));
    let waker = landing.waker.borrow_mut().take().expect("the second stage parked");
    pipeline.wake(&waker);
    assert_eq!(
        pipeline.run(1, &input),
        Ok(Run::Computed(Arc::new(7))),
        "the join owed an answer over what it last handed on",
    );
    assert_eq!((settles.get(), downstream.get()), (2, 2));

    // Once it has settled, the next moved version skips the downstream.
    assert_eq!(pipeline.run(2, &input), Ok(Run::Unchanged));
    assert_eq!((settles.get(), downstream.get()), (3, 2));
}
