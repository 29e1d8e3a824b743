//! A poll can be watched: what was done with the waker is reported beside the answer.

use std::cell::{Cell, RefCell};
use std::rc::Rc;
use std::sync::Arc;

use libpipeline::context::Context;
use libpipeline::effect::{EffectPoll, StageAnswer};
use libpipeline::key::{MemoKey, StageId};
use libpipeline::stage::{Stage, StagePoll};
use libpipeline::wake::{Waker, WakerId};
use libpipeline::watch::{poll_watched, WakePath};

/// Stand-in for whatever an author wrote.
#[derive(Clone, PartialEq, Eq, Debug)]
struct Text(String);

/// What a stage does with the waker it is handed, on the poll where it parks.
#[derive(Clone, Copy, PartialEq, Eq, Debug)]
enum OnPark {
    /// Keep it.
    Register,
    /// Keep it and give it up before returning.
    RegisterAndDrop,
    /// Wake before returning: a yield, not a park.
    Yield,
    /// Nothing at all.
    Forget,
}

/// What a parking stage and its test share.
struct Slot {
    filled: Cell<Option<&'static str>>,
    waiting: RefCell<Vec<Waker>>,
}

impl Slot {
    fn new() -> Rc<Self> {
        Rc::new(Slot { filled: Cell::new(None), waiting: RefCell::new(Vec::new()) })
    }

    /// The value arrives, and everyone who parked on it is told to poll again.
    fn land(&self, value: &'static str, cx: &mut Context) {
        self.filled.set(Some(value));
        for waker in self.waiting.borrow_mut().drain(..) {
            cx.wake(&waker);
        }
    }
}

/// A stage that is pending until its slot is filled.
struct Parks {
    on_park: OnPark,
    slot: Rc<Slot>,
}

impl Stage for Parks {
    type Input = Text;
    type Output = String;
    type Error = &'static str;

    fn id(&self) -> StageId {
        StageId::at(0)
    }

    fn memo_key(&self, _input: &Text) -> Option<MemoKey> {
        None
    }

    fn poll_stage(&mut self, input: &Text, cx: &mut Context) -> StagePoll<String, &'static str> {
        match self.slot.filled.get() {
            Some(landed) => StageAnswer::computed(Arc::new(format!("{}::{landed}", input.0))),
            None => {
                match self.on_park {
                    OnPark::Register => {
                        let waker = cx.keep_waker();
                        self.slot.waiting.borrow_mut().push(waker);
                    }
                    OnPark::RegisterAndDrop => {
                        drop(cx.keep_waker());
                    }
                    OnPark::Yield => {
                        cx.wake_own();
                    }
                    OnPark::Forget => {}
                }
                EffectPoll::Pending
            }
        }
    }
}

fn hi() -> Text {
    Text("hi".to_string())
}

fn watch(on_park: OnPark) -> Option<WakePath> {
    let mut cx = Context::new();
    let mut stage = Parks { on_park, slot: Slot::new() };
    let (polled, path) = poll_watched(&mut stage, &hi(), WakerId::Noop, &mut cx);
    assert!(polled.is_pending(), "the slot is empty, so this parks");
    path
}

#[test]
fn watch_a_stage_that_forgets_the_waker_is_reported() {
    assert_eq!(watch(OnPark::Forget), Some(WakePath::Missing));
}

#[test]
fn tests_a_stage_that_forgets_the_waker_is_reported() {
    assert_eq!(watch(OnPark::Forget), Some(WakePath::Missing));
}

#[test]
fn watch_a_stage_that_registers_is_not_reported() {
    assert_eq!(watch(OnPark::Register), Some(WakePath::Registered));
}

#[test]
fn tests_a_stage_that_registers_is_not_reported() {
    assert_eq!(watch(OnPark::Register), Some(WakePath::Registered));
}

#[test]
fn watch_a_clone_that_does_not_outlive_the_poll_is_reported() {
    assert_eq!(watch(OnPark::RegisterAndDrop), Some(WakePath::Missing));
}

#[test]
fn tests_a_clone_that_does_not_outlive_the_poll_is_reported() {
    assert_eq!(watch(OnPark::RegisterAndDrop), Some(WakePath::Missing));
}

#[test]
fn watch_a_yield_is_told_apart_from_a_park() {
    assert_eq!(watch(OnPark::Yield), Some(WakePath::Woken));
}

#[test]
fn tests_a_yield_is_told_apart_from_a_park() {
    assert_eq!(watch(OnPark::Yield), Some(WakePath::Woken));
}

fn a_value_owes_no_wake() {
    let mut cx = Context::new();
    let slot = Slot::new();
    let mut stage = Parks { on_park: OnPark::Forget, slot: Rc::clone(&slot) };
    slot.land("built", &mut cx);
    let (polled, path) = poll_watched(&mut stage, &hi(), WakerId::Noop, &mut cx);
    assert_eq!(polled, StageAnswer::computed(Arc::new("hi::built".to_string())));
    assert_eq!(path, None);
}

#[test]
fn watch_a_poll_that_produced_a_value_owes_no_wake() {
    a_value_owes_no_wake();
}

#[test]
fn tests_a_poll_that_produced_a_value_owes_no_wake() {
    a_value_owes_no_wake();
}

fn the_wake_is_forwarded() {
    let mut cx = Context::new();
    let flag = cx.wakes.mint(WakerId::Noop);
    let slot = Slot::new();
    let mut stage = Parks { on_park: OnPark::Register, slot: Rc::clone(&slot) };

    let (polled, path) = poll_watched(&mut stage, &hi(), flag, &mut cx);
    assert!(polled.is_pending());
    assert_eq!(path, Some(WakePath::Registered));
    assert!(!cx.wakes.is_woken(flag), "a Pending poll is not itself a wake");

    slot.land("built", &mut cx);
    assert!(cx.wakes.take(flag), "the wake travelled through to the frame loop");
}

#[test]
fn watch_forwards_a_registered_wake_rather_than_swallowing_it() {
    the_wake_is_forwarded();
}

#[test]
fn tests_forwards_a_registered_wake_rather_than_swallowing_it() {
    the_wake_is_forwarded();
}

#[test]
fn what_was_kept_before_the_poll_does_not_count_for_it() {
    // A stage that keeps a handle on one poll and forgets on the next is reported on the
    // next: each watched poll has a probe of its own.
    let mut cx = Context::new();
    let slot = Slot::new();
    let mut stage = Parks { on_park: OnPark::Register, slot: Rc::clone(&slot) };
    assert_eq!(
        poll_watched(&mut stage, &hi(), WakerId::Noop, &mut cx).1,
        Some(WakePath::Registered),
    );
    stage.on_park = OnPark::Forget;
    assert_eq!(
        poll_watched(&mut stage, &hi(), WakerId::Noop, &mut cx).1,
        Some(WakePath::Missing),
    );
}
