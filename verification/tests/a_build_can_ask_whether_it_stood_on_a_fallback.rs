//! A drive can say whether it built on fallbacks, without the drivers answering
//! differently.

use std::cell::{Cell, RefCell};
use std::rc::Rc;
use std::sync::Arc;

use libpipeline::boundary::{run_to_completion_counted, Fallback, Guarded, Substitutions};
use libpipeline::chain::Chain;
use libpipeline::context::Context;
use libpipeline::driver::{run_to_completion, FrameDriver, NoPendingWork};
use libpipeline::effect::{EffectPoll, StageAnswer};
use libpipeline::key::{MemoKey, StageId};
use libpipeline::stage::{Stage, StagePoll};
use libpipeline::wake::Waker;

/// Stand-in for whatever an author wrote.
#[derive(Clone, PartialEq, Eq, Debug)]
struct Text(String);

#[derive(Clone, Copy, PartialEq, Eq, Debug)]
struct Boom;

/// What a stage and its test share.
type Slot = Rc<Cell<Option<&'static str>>>;

fn empty() -> Slot {
    Rc::new(Cell::new(None))
}

fn holding(value: &'static str) -> Slot {
    Rc::new(Cell::new(Some(value)))
}

/// A stage that fails until its slot is filled.
struct Flaky {
    slot: Slot,
    waiting: RefCell<Vec<Waker>>,
}

impl Flaky {
    fn over(slot: &Slot) -> Self {
        Flaky { slot: Rc::clone(slot), waiting: RefCell::new(Vec::new()) }
    }

    fn failing() -> Self {
        Flaky::over(&empty())
    }
}

impl Stage for Flaky {
    type Input = Text;
    type Output = String;
    type Error = Boom;

    fn id(&self) -> StageId {
        StageId::at(0)
    }

    fn memo_key(&self, _input: &Text) -> Option<MemoKey> {
        None
    }

    fn poll_stage(&mut self, input: &Text, cx: &mut Context) -> StagePoll<String, Boom> {
        match self.slot.get() {
            Some(filled) => StageAnswer::computed(Arc::new(format!("{}:{filled}", input.0))),
            None => {
                let waker = cx.keep_waker();
                self.waiting.borrow_mut().push(waker);
                EffectPoll::Failed(Boom)
            }
        }
    }
}

/// The second half of a chain: a second scope, so that a graph can have two boundaries.
struct Appends {
    slot: Slot,
}

impl Stage for Appends {
    type Input = String;
    type Output = String;
    type Error = Boom;

    fn id(&self) -> StageId {
        StageId::at(1)
    }

    fn memo_key(&self, _input: &String) -> Option<MemoKey> {
        None
    }

    fn poll_stage(&mut self, input: &String, _cx: &mut Context) -> StagePoll<String, Boom> {
        match self.slot.get() {
            Some(filled) => StageAnswer::computed(Arc::new(format!("{input}/{filled}"))),
            None => EffectPoll::Failed(Boom),
        }
    }
}

fn guard() -> StageId {
    StageId::at(2)
}

fn chain() -> StageId {
    StageId::at(3)
}

fn fallback(value: &str) -> Fallback<String> {
    Fallback::new(Arc::new(value.to_string()))
}

fn src() -> Text {
    Text("src".to_string())
}

fn computed<E>(value: &str) -> Result<StageAnswer<Arc<String>>, E> {
    Ok(StageAnswer::Computed(Arc::new(value.to_string())))
}

fn cannot_tell() {
    let mut cx = Context::new();
    let input = src();
    let mut real = Guarded::new(guard(), Flaky::over(&holding("v1")), fallback("fallback"), &mut cx);
    let mut substituted = Guarded::new(guard(), Flaky::failing(), fallback("fallback"), &mut cx);

    let built = run_to_completion(&mut real, &input, &mut NoPendingWork, &mut cx);
    let built_on_fallbacks =
        run_to_completion(&mut substituted, &input, &mut NoPendingWork, &mut cx);

    assert!(built.is_ok());
    assert!(
        built_on_fallbacks.is_ok(),
        "the drive succeeded on a graph that produced none of its own answers",
    );
}

#[test]
fn boundary_the_plain_offline_driver_cannot_tell_a_fallback_from_an_answer() {
    cannot_tell();
}

#[test]
fn a_build_can_ask_whether_it_stood_on_a_fallback_the_plain_offline_driver_cannot_tell_a_fallback_from_an_answer()
{
    cannot_tell();
}

fn the_counted_drive_tells() {
    let mut cx = Context::new();
    let input = src();

    let tally = Substitutions::new(&mut cx);
    let mut real =
        Guarded::tallied(guard(), Flaky::over(&holding("v1")), fallback("fallback"), &tally);
    let (driven, substitutions) =
        run_to_completion_counted(&mut real, &input, &mut NoPendingWork, &tally, &mut cx);
    assert_eq!(driven.map_err(|_| "failed"), computed("src:v1"));
    assert_eq!(substitutions, 0, "nothing stood in for anything");

    let tally = Substitutions::new(&mut cx);
    let mut substituted = Guarded::tallied(guard(), Flaky::failing(), fallback("fallback"), &tally);
    let (driven, substitutions) =
        run_to_completion_counted(&mut substituted, &input, &mut NoPendingWork, &tally, &mut cx);
    assert_eq!(driven.map_err(|_| "failed"), computed("fallback"), "the result is unchanged");
    assert_eq!(substitutions, 1, "and the finding rides alongside it");
}

#[test]
fn boundary_the_counted_drive_says_which_it_was_and_returns_the_same_result() {
    the_counted_drive_tells();
}

#[test]
fn a_build_can_ask_whether_it_stood_on_a_fallback_the_counted_drive_says_which_it_was_and_returns_the_same_result()
{
    the_counted_drive_tells();
}

fn one_tally_counts_all() {
    let mut cx = Context::new();
    let tally = Substitutions::new(&mut cx);
    let inner = Guarded::tallied(guard(), Flaky::failing(), fallback("first fallback"), &tally);
    let outer =
        Guarded::tallied(guard(), Appends { slot: empty() }, fallback("second fallback"), &tally);
    let mut graph = Chain::new(chain(), inner, outer);

    let (driven, substitutions) =
        run_to_completion_counted(&mut graph, &src(), &mut NoPendingWork, &tally, &mut cx);
    assert_eq!(driven.map_err(|_| "failed"), computed("second fallback"));
    assert_eq!(
        substitutions, 2,
        "both scopes substituted, and the build's question is about the graph",
    );
    assert_eq!(
        graph.second().substitutions(&cx),
        2,
        "a shared tally reads the same from either boundary",
    );
}

#[test]
fn boundary_one_tally_counts_every_boundary_in_the_graph() {
    one_tally_counts_all();
}

#[test]
fn a_build_can_ask_whether_it_stood_on_a_fallback_one_tally_counts_every_boundary_in_the_graph() {
    one_tally_counts_all();
}

fn a_private_tally() {
    let mut cx = Context::new();
    let first = Guarded::new(guard(), Flaky::failing(), fallback("first fallback"), &mut cx);
    let second =
        Guarded::new(guard(), Appends { slot: empty() }, fallback("second fallback"), &mut cx);
    let mut graph = Chain::new(chain(), first, second);

    assert!(run_to_completion(&mut graph, &src(), &mut NoPendingWork, &mut cx).is_ok());
    assert_eq!(graph.first().substitutions(&cx), 1);
    assert_eq!(graph.second().substitutions(&cx), 1);
}

#[test]
fn boundary_a_private_tally_stays_the_boundarys_own() {
    a_private_tally();
}

#[test]
fn a_build_can_ask_whether_it_stood_on_a_fallback_a_private_tally_stays_the_boundarys_own() {
    a_private_tally();
}

fn a_reused_tally() {
    let mut cx = Context::new();
    let tally = Substitutions::new(&mut cx);
    let mut guarded = Guarded::tallied(guard(), Flaky::failing(), fallback("fallback"), &tally);
    let input = src();

    let (_, first) =
        run_to_completion_counted(&mut guarded, &input, &mut NoPendingWork, &tally, &mut cx);
    let (_, second) =
        run_to_completion_counted(&mut guarded, &input, &mut NoPendingWork, &tally, &mut cx);
    assert_eq!((first, second), (1, 1));
    assert_eq!(tally.count(&cx), 2, "while the tally itself keeps the running total");
}

#[test]
fn boundary_a_reused_tally_reports_per_drive_rather_than_forever() {
    a_reused_tally();
}

#[test]
fn a_build_can_ask_whether_it_stood_on_a_fallback_a_reused_tally_reports_per_drive_rather_than_forever()
{
    a_reused_tally();
}

fn a_drive_that_recovers() {
    let mut cx = Context::new();
    let tally = Substitutions::new(&mut cx);
    let slot = empty();
    let mut guarded = Guarded::tallied(guard(), Flaky::over(&slot), fallback("fallback"), &tally);
    let input = src();

    let (driven, substitutions) =
        run_to_completion_counted(&mut guarded, &input, &mut NoPendingWork, &tally, &mut cx);
    assert_eq!(driven.map_err(|_| "failed"), computed("fallback"));
    assert_eq!(substitutions, 1);

    slot.set(Some("v1"));
    let (driven, substitutions) =
        run_to_completion_counted(&mut guarded, &input, &mut NoPendingWork, &tally, &mut cx);
    assert_eq!(driven.map_err(|_| "failed"), computed("src:v1"));
    assert_eq!(substitutions, 0, "this build is not standing on anything");
}

#[test]
fn boundary_a_drive_that_recovers_between_passes_reports_the_change() {
    a_drive_that_recovers();
}

#[test]
fn a_build_can_ask_whether_it_stood_on_a_fallback_a_drive_that_recovers_between_passes_reports_the_change()
{
    a_drive_that_recovers();
}

fn a_frame_takes_a_difference() {
    let mut cx = Context::new();
    let tally = Substitutions::new(&mut cx);
    let mut guarded = Guarded::tallied(guard(), Flaky::failing(), fallback("fallback"), &tally);
    let driver = FrameDriver::new(&mut cx);
    let input = src();

    let before = tally.count(&cx);
    assert_eq!(
        driver.poll_frame(&mut guarded, &input, &mut cx),
        StageAnswer::computed(Arc::new("fallback".to_string())),
    );
    assert_eq!(tally.count(&cx) - before, 1, "this frame drew a fallback");
}

#[test]
fn boundary_a_frame_loop_takes_the_same_measurement_by_differencing_the_tally() {
    a_frame_takes_a_difference();
}

#[test]
fn a_build_can_ask_whether_it_stood_on_a_fallback_a_frame_loop_takes_the_same_measurement_by_differencing_the_tally()
{
    a_frame_takes_a_difference();
}
