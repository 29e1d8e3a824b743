//! A boundary hands its stage's failure to a handler and hands the handler's answer back.

use std::cell::{Cell, RefCell};
use std::convert::Infallible;
use std::rc::Rc;
use std::sync::Arc;

use libpipeline::boundary::{Fallback, Guarded, Recover};
use libpipeline::context::Context;
use libpipeline::driver::{run_to_completion, DriveError, FrameDriver, NoPendingWork};
use libpipeline::effect::{EffectPoll, StageAnswer};
use libpipeline::key::{ContentKey, MemoKey, StageId};
use libpipeline::memo::Memo;
use libpipeline::stage::{Stage, StagePoll};
use libpipeline::store::{MemoMap, MemoStore, NoMemo};
use libpipeline::wake::{Waker, WakerId};
use libpipeline::watch::{poll_watched, WakePath};

/// Stand-in for whatever an author wrote.
#[derive(Clone, PartialEq, Eq, Debug)]
struct Text(String);

/// Two failures, so that an arm that names one can decline the other.
#[derive(Clone, Copy, PartialEq, Eq, Debug)]
enum Boom {
    /// Transient: it can clear.
    Network,
    /// A different failure, used to make declining observable.
    Malformed,
}

/// How a failure looks once it has left a scope that named its own error channel.
#[derive(Clone, Copy, PartialEq, Eq, Debug)]
struct Escaped(Boom);

/// What a stage does until its slot is filled.
#[derive(Clone, Copy, PartialEq, Eq, Debug)]
enum WhileEmpty {
    /// Fail, and register the waker on the way out.
    Failing(Boom),
    /// Park.
    Parked,
}

/// What a flaky stage and its test share.
struct Slot {
    while_empty: WhileEmpty,
    filled: Cell<Option<&'static str>>,
    waiting: RefCell<Vec<Waker>>,
    polls: Cell<usize>,
}

impl Slot {
    fn new(while_empty: WhileEmpty) -> Rc<Self> {
        Rc::new(Slot {
            while_empty,
            filled: Cell::new(None),
            waiting: RefCell::new(Vec::new()),
            polls: Cell::new(0),
        })
    }

    fn failing(boom: Boom) -> Rc<Self> {
        Slot::new(WhileEmpty::Failing(boom))
    }

    /// The value arrives, and whoever was waiting is told to poll again.
    fn land(&self, value: &'static str, cx: &mut Context) {
        self.filled.set(Some(value));
        for waker in self.waiting.borrow_mut().drain(..) {
            cx.wake(&waker);
        }
    }
}

/// A stage whose answer is whatever its slot currently holds.
struct Flaky(Rc<Slot>);

impl Stage for Flaky {
    type Input = Text;
    type Output = String;
    type Error = Boom;

    fn id(&self) -> StageId {
        StageId::at(0)
    }

    fn memo_key(&self, input: &Text) -> Option<MemoKey> {
        let mut h: u128 = 0x6c62_272e_07bb_0142_62b8_2175_6295_c58du128;
        for byte in input.0.as_bytes() {
            h ^= u128::from(*byte);
            h = h.wrapping_mul(0x0000_0000_0100_0000_0000_0000_0000_013bu128);
        }
        Some(MemoKey::new(self.id(), vec![ContentKey::from_u128(h)]))
    }

    fn poll_stage(&mut self, input: &Text, cx: &mut Context) -> StagePoll<String, Boom> {
        self.0.polls.set(self.0.polls.get() + 1);
        match self.0.filled.get() {
            Some(filled) => StageAnswer::computed(Arc::new(format!("{}:{filled}", input.0))),
            None => {
                let waker = cx.keep_waker();
                self.0.waiting.borrow_mut().push(waker);
                match self.0.while_empty {
                    WhileEmpty::Failing(boom) => EffectPoll::Failed(boom),
                    WhileEmpty::Parked => EffectPoll::Pending,
                }
            }
        }
    }
}

/// A handler with an arm for `Network` alone. What it has no arm for leaves the scope
/// as [`Escaped`].
struct CatchesNetwork(Arc<String>);

impl Recover<Boom> for CatchesNetwork {
    type Value = String;
    type Escalated = Escaped;

    fn recover(&mut self, failure: Boom, _cx: &mut Context) -> EffectPoll<Arc<String>, Escaped> {
        match failure {
            Boom::Network => EffectPoll::Ready(Arc::clone(&self.0)),
            other => EffectPoll::Failed(Escaped(other)),
        }
    }
}

fn arms() -> CatchesNetwork {
    CatchesNetwork(Arc::new("fallback".to_string()))
}

/// A handler whose fallback is itself still loading.
struct StillLoading(Rc<RefCell<Vec<Waker>>>);

impl Recover<Boom> for StillLoading {
    type Value = String;
    type Escalated = Boom;

    fn recover(&mut self, _failure: Boom, cx: &mut Context) -> EffectPoll<Arc<String>, Boom> {
        let waker = cx.keep_waker();
        self.0.borrow_mut().push(waker);
        EffectPoll::Pending
    }
}

fn guard() -> StageId {
    StageId::at(1)
}

fn fallback(value: &str) -> Fallback<String> {
    Fallback::new(Arc::new(value.to_string()))
}

fn src() -> Text {
    Text("src".to_string())
}

fn ready<E>(value: &str) -> StagePoll<String, E> {
    StageAnswer::computed(Arc::new(value.to_string()))
}

/// Poll once with a waker of no consequence.
fn driven<S: Stage>(stage: &mut S, input: &S::Input, cx: &mut Context) -> StagePoll<S::Output, S::Error> {
    stage.poll_stage(input, cx)
}

/// `driven`, insisting on a value.
fn value_of<S: Stage<Output = String>>(stage: &mut S, input: &S::Input, cx: &mut Context) -> String
where
    S::Error: std::fmt::Debug,
{
    match driven(stage, input, cx) {
        EffectPoll::Ready(StageAnswer::Computed(value)) => value.to_string(),
        other => panic!("expected a value, got {other:?}"),
    }
}

fn a_caught_failure_is_substituted() {
    let mut cx = Context::new();
    let slot = Slot::failing(Boom::Network);
    let mut guarded = Guarded::new(guard(), Flaky(Rc::clone(&slot)), fallback("fallback"), &mut cx);

    assert_eq!(value_of(&mut guarded, &src(), &mut cx), "fallback");
    assert_eq!(guarded.substitutions(&cx), 1);

    // The failure clears, and the real answer replaces the fallback.
    slot.land("v1", &mut cx);
    assert_eq!(value_of(&mut guarded, &src(), &mut cx), "src:v1");
    assert_eq!(guarded.substitutions(&cx), 1, "no second substitution");
}

#[test]
fn boundary_a_failure_the_handler_catches_is_substituted_for_the_stages_answer() {
    a_caught_failure_is_substituted();
}

#[test]
fn a_stage_boundary_catches_what_its_stage_raises_a_failure_the_handler_catches_is_substituted_for_the_stages_answer()
{
    a_caught_failure_is_substituted();
}

fn a_declined_failure_bubbles() {
    let mut cx = Context::new();
    let mut caught = Guarded::new(guard(), Flaky(Slot::failing(Boom::Network)), arms(), &mut cx);
    assert_eq!(value_of(&mut caught, &src(), &mut cx), "fallback");

    let mut declined = Guarded::new(guard(), Flaky(Slot::failing(Boom::Malformed)), arms(), &mut cx);
    assert_eq!(
        driven(&mut declined, &src(), &mut cx),
        EffectPoll::Failed(Escaped(Boom::Malformed)),
        "an unhandled failure bubbles, retyped into the containing scope's channel",
    );
    assert_eq!(declined.substitutions(&cx), 0, "declining is not substituting");
}

#[test]
fn boundary_a_handler_that_declines_bubbles_into_this_scopes_own_channel() {
    a_declined_failure_bubbles();
}

#[test]
fn a_stage_boundary_catches_what_its_stage_raises_a_handler_that_declines_bubbles_into_this_scopes_own_channel()
{
    a_declined_failure_bubbles();
}

fn impossible_by_type() {
    let mut cx = Context::new();
    let mut guarded: Guarded<_, Fallback<String>> = Guarded::new(
        guard(),
        Flaky(Slot::failing(Boom::Malformed)),
        fallback("the last resort"),
        &mut cx,
    );
    let value = match driven(&mut guarded, &src(), &mut cx) {
        EffectPoll::Ready(StageAnswer::Computed(value)) => value,
        EffectPoll::Ready(StageAnswer::Unchanged) => panic!("nothing here stands by an answer"),
        EffectPoll::Pending => panic!("nothing here is pending"),
        EffectPoll::Failed(never) => match never {},
    };
    assert_eq!(*value, "the last resort");

    let _: Result<StageAnswer<Arc<String>>, DriveError<Infallible>> =
        run_to_completion(&mut guarded, &src(), &mut NoPendingWork, &mut cx);
}

#[test]
fn boundary_an_outermost_stage_boundary_makes_an_unhandled_failure_impossible_by_type() {
    impossible_by_type();
}

#[test]
fn a_stage_boundary_catches_what_its_stage_raises_an_outermost_stage_boundary_makes_an_unhandled_failure_impossible_by_type()
{
    impossible_by_type();
}

fn pass_through_untouched() {
    let mut cx = Context::new();
    let slot = Slot::new(WhileEmpty::Parked);
    let mut guarded = Guarded::new(guard(), Flaky(Rc::clone(&slot)), fallback("fallback"), &mut cx);

    let (polled, path) = poll_watched(&mut guarded, &src(), WakerId::Noop, &mut cx);
    assert_eq!(polled, EffectPoll::Pending, "a park is not a failure");
    assert_eq!(
        path,
        Some(WakePath::Registered),
        "the guarded stage registered on the context the boundary was handed",
    );
    assert_eq!(guarded.substitutions(&cx), 0);

    slot.land("v1", &mut cx);
    assert_eq!(value_of(&mut guarded, &src(), &mut cx), "src:v1");
    assert_eq!(guarded.substitutions(&cx), 0, "a value is nobody's fallback");
}

#[test]
fn boundary_a_value_and_a_park_pass_through_untouched() {
    pass_through_untouched();
}

#[test]
fn a_stage_boundary_catches_what_its_stage_raises_a_value_and_a_park_pass_through_untouched() {
    pass_through_untouched();
}

fn a_loading_fallback_is_pending() {
    let mut cx = Context::new();
    let parked = Rc::new(RefCell::new(Vec::new()));
    let mut guarded = Guarded::new(
        guard(),
        Flaky(Slot::failing(Boom::Network)),
        StillLoading(Rc::clone(&parked)),
        &mut cx,
    );

    let (polled, path) = poll_watched(&mut guarded, &src(), WakerId::Noop, &mut cx);
    assert_eq!(polled, EffectPoll::Pending);
    assert_eq!(
        path,
        Some(WakePath::Registered),
        "a pending fallback owes the same wake a pending stage does",
    );
    assert_eq!(parked.borrow().len(), 1);
    assert_eq!(
        guarded.substitutions(&cx),
        0,
        "a fallback that has not produced a value has substituted nothing yet",
    );
}

#[test]
fn boundary_a_fallback_that_is_still_loading_is_pending_rather_than_a_value() {
    a_loading_fallback_is_pending();
}

#[test]
fn a_stage_boundary_catches_what_its_stage_raises_a_fallback_that_is_still_loading_is_pending_rather_than_a_value()
{
    a_loading_fallback_is_pending();
}

fn both_drivers_agree() {
    let mut cx = Context::new();
    let input = src();

    // Caught: both drivers reach a value for a stage that never produced one.
    let slot = Slot::failing(Boom::Network);
    let mut caught = Guarded::new(guard(), Flaky(Rc::clone(&slot)), fallback("fallback"), &mut cx);
    assert_eq!(
        run_to_completion(&mut caught, &input, &mut NoPendingWork, &mut cx).map_err(|_| "failed"),
        Ok(StageAnswer::Computed(Arc::new("fallback".to_string()))),
    );
    let frame = FrameDriver::new(&mut cx);
    assert_eq!(frame.poll_frame(&mut caught, &input, &mut cx), ready("fallback"));

    // Declined: the failure reaches both, carrying the same path.
    let mut declined = Guarded::new(guard(), Flaky(Slot::failing(Boom::Malformed)), arms(), &mut cx);
    assert_eq!(
        run_to_completion(&mut declined, &input, &mut NoPendingWork, &mut cx),
        Err(DriveError::Failed(Escaped(Boom::Malformed))),
    );
    let frame = FrameDriver::new(&mut cx);
    assert_eq!(
        frame.poll_frame(&mut declined, &input, &mut cx),
        EffectPoll::Failed(Escaped(Boom::Malformed)),
    );

    assert_eq!(caught.substitutions(&cx), 2);
    assert_eq!(declined.substitutions(&cx), 0);
}

#[test]
fn boundary_both_drivers_see_the_same_answer_through_a_boundary() {
    both_drivers_agree();
}

#[test]
fn a_stage_boundary_catches_what_its_stage_raises_both_drivers_see_the_same_answer_through_a_boundary()
{
    both_drivers_agree();
}

fn sequence<St: MemoStore<String>>(store: St) -> Vec<String> {
    let mut cx = Context::new();
    let slot = Slot::failing(Boom::Network);
    let input = src();
    let mut guarded = Guarded::new(
        guard(),
        Memo::new(Flaky(Rc::clone(&slot)), store),
        fallback("fallback"),
        &mut cx,
    );
    let mut seen = vec![
        value_of(&mut guarded, &input, &mut cx),
        value_of(&mut guarded, &input, &mut cx),
    ];
    slot.land("v1", &mut cx);
    seen.push(value_of(&mut guarded, &input, &mut cx));
    seen.push(value_of(&mut guarded, &input, &mut cx));
    seen
}

fn the_cache_changes_no_answer() {
    assert_eq!(sequence(MemoMap::new()), sequence(NoMemo));
    assert_eq!(
        sequence(NoMemo),
        vec!["fallback", "fallback", "src:v1", "src:v1"],
        "the fallback only while the stage is failing",
    );
}

#[test]
fn boundary_the_answers_through_a_boundary_do_not_change_when_the_cache_is_disabled() {
    the_cache_changes_no_answer();
}

#[test]
fn a_stage_boundary_catches_what_its_stage_raises_the_answers_through_a_boundary_do_not_change_when_the_cache_is_disabled()
{
    the_cache_changes_no_answer();
}

fn real_answers_are_served() {
    let mut cx = Context::new();
    let slot = Slot::failing(Boom::Network);
    let mut guarded = Guarded::new(
        guard(),
        Memo::new(Flaky(Rc::clone(&slot)), MemoMap::new()),
        fallback("fallback"),
        &mut cx,
    );
    let input = src();

    assert_eq!(value_of(&mut guarded, &input, &mut cx), "fallback");
    slot.land("v1", &mut cx);
    assert_eq!(value_of(&mut guarded, &input, &mut cx), "src:v1");

    let polls = slot.polls.get();
    assert_eq!(value_of(&mut guarded, &input, &mut cx), "src:v1");
    assert_eq!(slot.polls.get(), polls, "the real answer was served");
}

#[test]
fn boundary_a_memoized_stage_under_a_boundary_still_serves_its_real_answers() {
    real_answers_are_served();
}

#[test]
fn a_stage_boundary_catches_what_its_stage_raises_a_memoized_stage_under_a_boundary_still_serves_its_real_answers()
{
    real_answers_are_served();
}
