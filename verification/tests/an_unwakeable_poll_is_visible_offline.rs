//! A blocking drive re-polls without being asked, so a stage that forgot its waker still
//! answers there. The watched drive says so.

use std::cell::{Cell, RefCell};
use std::rc::Rc;
use std::sync::Arc;

use libpipeline::builder::{Failure, PipelineBuilder};
use libpipeline::context::Context;
use libpipeline::driver::{run_to_completion, DriveError, NoPendingWork, PendingWork};
use libpipeline::effect::{EffectPoll, StageAnswer};
use libpipeline::key::{MemoKey, StageId};
use libpipeline::pipeline::Pipeline;
use libpipeline::stage::{Stage, StagePoll};
use libpipeline::wake::Waker;
use libpipeline::watch::run_to_completion_watched;

/// Stand-in for whatever an author wrote.
#[derive(Clone, PartialEq, Eq, Debug)]
struct Text(String);

/// What a stage does with the waker it is handed, on the poll where it parks.
#[derive(Clone, Copy, PartialEq, Eq, Debug)]
enum OnPark {
    /// Keep it.
    Register,
    /// Nothing at all.
    Forget,
}

/// What a parking stage and its executor share.
struct Slot {
    filled: Cell<Option<&'static str>>,
    waiting: RefCell<Vec<Waker>>,
}

impl Slot {
    fn new() -> Rc<Self> {
        Rc::new(Slot { filled: Cell::new(None), waiting: RefCell::new(Vec::new()) })
    }
}

/// A stage that is pending until its slot is filled.
struct Parks {
    id: StageId,
    on_park: OnPark,
    slot: Rc<Slot>,
}

impl Stage for Parks {
    type Input = Text;
    type Output = String;
    type Error = &'static str;

    fn id(&self) -> StageId {
        self.id
    }

    fn memo_key(&self, _input: &Text) -> Option<MemoKey> {
        None
    }

    fn poll_stage(&mut self, input: &Text, cx: &mut Context) -> StagePoll<String, &'static str> {
        match self.slot.filled.get() {
            Some(landed) => StageAnswer::computed(Arc::new(format!("{}::{landed}", input.0))),
            None => {
                match self.on_park {
                    OnPark::Register => {
                        let waker = cx.keep_waker();
                        self.slot.waiting.borrow_mut().push(waker);
                    }
                    OnPark::Forget => {}
                }
                EffectPoll::Pending
            }
        }
    }
}

/// The blocking caller's executor: it lands the slot the first time it is pumped, then
/// has nothing left to do.
struct LandsOnFirstPump {
    slot: Rc<Slot>,
    landed: bool,
}

impl LandsOnFirstPump {
    fn for_slot(slot: &Rc<Slot>) -> Self {
        LandsOnFirstPump { slot: Rc::clone(slot), landed: false }
    }
}

impl PendingWork for LandsOnFirstPump {
    fn outstanding(&self) -> usize {
        usize::from(!self.landed)
    }

    fn run_once(&mut self, cx: &mut Context) -> bool {
        if self.landed {
            return false;
        }
        self.landed = true;
        self.slot.filled.set(Some("built"));
        for waker in self.slot.waiting.borrow_mut().drain(..) {
            cx.wake(&waker);
        }
        true
    }
}

fn parks(on_park: OnPark, slot: &Rc<Slot>) -> Parks {
    Parks { id: StageId::at(0), on_park, slot: Rc::clone(slot) }
}

/// The slot, and the pipeline whose one stage waits for it.
fn parking(
    on_park: OnPark,
) -> (
    Rc<Slot>,
    Pipeline<u64, impl Stage<Input = Text, Output = String, Error = Failure<&'static str>>>,
) {
    let slot = Slot::new();
    let registered = Rc::clone(&slot);
    let pipeline = PipelineBuilder::new()
        .stage("test.parks", move |id| Parks { id, on_park, slot: registered })
        .build();
    (slot, pipeline)
}

fn hi() -> Text {
    Text("hi".to_string())
}

fn built<E>() -> Result<StageAnswer<Arc<String>>, E> {
    Ok(StageAnswer::Computed(Arc::new("hi::built".to_string())))
}

#[test]
fn the_blocking_drive_reports_the_defect_without_changing_its_answer() {
    let mut cx = Context::new();
    let slot = Slot::new();
    let (out, report) = run_to_completion_watched(
        &mut parks(OnPark::Forget, &slot),
        &hi(),
        &mut LandsOnFirstPump::for_slot(&slot),
        &mut cx,
    );

    assert_eq!(out, built(), "the drive still completes, because it re-polls without being asked");
    assert_eq!(report.pending_polls(), 1);
    assert_eq!(report.unwakeable_polls(), 1);
    assert!(!report.is_clean());

    // And the plain drive agrees on the answer.
    let mut cx = Context::new();
    let plain = Slot::new();
    assert_eq!(
        run_to_completion(
            &mut parks(OnPark::Forget, &plain),
            &hi(),
            &mut LandsOnFirstPump::for_slot(&plain),
            &mut cx,
        ),
        out,
    );
}

#[test]
fn the_offline_driver_reports_the_defect_without_changing_its_answer() {
    let (slot, mut pipeline) = parking(OnPark::Forget);
    let (out, report) = pipeline.run_watched(&hi(), &mut LandsOnFirstPump::for_slot(&slot));

    assert_eq!(out, built(), "the drive still completes, because it re-polls without being asked");
    assert_eq!(report.pending_polls(), 1);
    assert_eq!(report.unwakeable_polls(), 1);
    assert!(!report.is_clean());

    // And the plain drive agrees on the answer.
    let (plain_slot, mut plain) = parking(OnPark::Forget);
    assert_eq!(plain.run_blocking(&hi(), &mut LandsOnFirstPump::for_slot(&plain_slot)), out);
}

#[test]
fn an_unwakeable_poll_is_visible_offline_a_graph_that_registers_reports_clean() {
    let mut cx = Context::new();
    let slot = Slot::new();
    let (out, report) = run_to_completion_watched(
        &mut parks(OnPark::Register, &slot),
        &hi(),
        &mut LandsOnFirstPump::for_slot(&slot),
        &mut cx,
    );
    assert_eq!(out, built());
    assert_eq!(report.pending_polls(), 1, "it did park once");
    assert!(report.is_clean(), "and left a wake path when it did");

    let (slot, mut pipeline) = parking(OnPark::Register);
    let (out, report) = pipeline.run_watched(&hi(), &mut LandsOnFirstPump::for_slot(&slot));
    assert_eq!(out, built());
    assert_eq!(report.pending_polls(), 1, "it did park once");
    assert!(report.is_clean(), "and left a wake path when it did");
}

#[test]
fn an_unwakeable_poll_is_visible_offline_a_stalled_graph_still_stalls_and_says_why() {
    let mut cx = Context::new();
    let (out, report) = run_to_completion_watched(
        &mut parks(OnPark::Forget, &Slot::new()),
        &hi(),
        &mut NoPendingWork,
        &mut cx,
    );
    assert_eq!(out, Err(DriveError::Stalled));
    assert_eq!(report.unwakeable_polls(), 1);

    let (out, report) = run_to_completion_watched(
        &mut parks(OnPark::Register, &Slot::new()),
        &hi(),
        &mut NoPendingWork,
        &mut cx,
    );
    assert_eq!(
        out,
        Err(DriveError::Stalled),
        "the same end state, reached for a different reason",
    );
    assert!(report.is_clean());

    let (_forgetful, mut pipeline) = parking(OnPark::Forget);
    let (out, report) = pipeline.run_watched(&hi(), &mut NoPendingWork);
    assert_eq!(out, Err(DriveError::Stalled));
    assert_eq!(report.unwakeable_polls(), 1);

    let (_registering, mut pipeline) = parking(OnPark::Register);
    let (out, report) = pipeline.run_watched(&hi(), &mut NoPendingWork);
    assert_eq!(out, Err(DriveError::Stalled));
    assert!(report.is_clean());
}
