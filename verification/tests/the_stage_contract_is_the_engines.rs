//! The stage contract's own properties.

use std::cell::{Cell, RefCell};
use std::rc::Rc;
use std::sync::Arc;

use libpipeline::context::Context;
use libpipeline::effect::{EffectPoll, StageAnswer};
use libpipeline::key::{ContentKey, MemoKey, StageId};
use libpipeline::stage::{BoundStage, Stage, StagePoll};

/// A stand-in for an authored expression.
#[derive(Clone, PartialEq, Eq, Debug)]
struct Source(&'static str);

/// A stand-in for what lowering it produces.
#[derive(Clone, PartialEq, Eq, Debug)]
struct Lowered(Vec<String>);

/// A pure stage: an answer on the first poll, keyed, never pending.
struct Lower {
    polls: Rc<Cell<usize>>,
}

impl Lower {
    fn new() -> Self {
        Lower { polls: Rc::new(Cell::new(0)) }
    }

    fn position() -> StageId {
        StageId::at(0)
    }
}

impl Stage for Lower {
    type Input = Source;
    type Output = Lowered;
    type Error = &'static str;

    fn id(&self) -> StageId {
        Lower::position()
    }

    fn memo_key(&self, input: &Source) -> Option<MemoKey> {
        Some(MemoKey::new(
            Lower::position(),
            vec![ContentKey::from_u128(input.0.len() as u128)],
        ))
    }

    fn poll_stage(&mut self, input: &Source, _cx: &mut Context) -> StagePoll<Lowered, &'static str> {
        self.polls.set(self.polls.get() + 1);
        if input.0.is_empty() {
            return EffectPoll::Failed("nothing to lower");
        }
        StageAnswer::computed(Arc::new(Lowered(
            input.0.split('.').map(str::to_string).collect::<Vec<_>>(),
        )))
    }
}

/// A stage with more than one holder.
struct Shared<S>(Rc<RefCell<S>>);

impl<S: Stage> Stage for Shared<S> {
    type Input = S::Input;
    type Output = S::Output;
    type Error = S::Error;

    fn id(&self) -> StageId {
        self.0.borrow().id()
    }

    fn memo_key(&self, input: &S::Input) -> Option<MemoKey> {
        self.0.borrow().memo_key(input)
    }

    fn poll_stage(&mut self, input: &S::Input, cx: &mut Context) -> StagePoll<S::Output, S::Error> {
        self.0.borrow_mut().poll_stage(input, cx)
    }
}

fn title() -> Lowered {
    Lowered(vec!["props".to_string(), "title".to_string()])
}

#[test]
fn a_stage_polls_to_a_share_of_its_output() {
    let mut stage = Lower::new();
    let mut cx = Context::new();

    assert_eq!(
        stage.poll_stage(&Source("props.title"), &mut cx),
        StageAnswer::computed(Arc::new(title())),
        "the poll answers a share while Output stays the plain value",
    );
    assert_eq!(stage.polls.get(), 1);

    // The typed error channel is reachable too, and is not wrapped.
    assert_eq!(stage.poll_stage(&Source(""), &mut cx), EffectPoll::Failed("nothing to lower"));
}

#[test]
fn the_key_is_computable_without_running_the_stage() {
    let stage = Lower::new();
    let key = stage.memo_key(&Source("props.title")).expect("keyable");
    assert_eq!(key.stage(), Lower::position());
    assert_eq!(key.inputs().len(), 1);
    assert_eq!(stage.polls.get(), 0, "computing a key must not run the stage");
}

#[test]
fn a_shared_stage_is_the_same_stage_and_not_a_copy_of_it() {
    let lower = Lower::new();
    let polls = Rc::clone(&lower.polls);
    let input = Source("a.b.c");
    let unshared = lower.memo_key(&input);
    let stage = Rc::new(RefCell::new(lower));
    let mut cx = Context::new();

    let mut one = Shared(Rc::clone(&stage));
    let mut two = Shared(Rc::clone(&stage));
    assert_eq!(one.id(), Lower::position(), "sharing must forward the id");
    assert_eq!(one.memo_key(&input), unshared, "and the key it would answer unshared");

    // Two consumers, one shared node.
    let a = one.poll_stage(&input, &mut cx);
    let b = two.poll_stage(&input, &mut cx);
    assert!(matches!(a, EffectPoll::Ready(_)));
    assert!(matches!(b, EffectPoll::Ready(_)));
    assert_eq!(polls.get(), 2, "both consumers must have polled one stage");

    // The boxed form forwards the same way.
    let mut boxed: Box<Lower> = Box::new(Lower::new());
    assert_eq!(Stage::id(&boxed), Lower::position());
    assert_eq!(Stage::memo_key(&boxed, &input), unshared);
    assert!(matches!(Stage::poll_stage(&mut boxed, &input, &mut cx), EffectPoll::Ready(_)));
}

#[test]
fn a_bound_stage_answers_as_the_stage_does_over_its_input() {
    let mut stage = Lower::new();
    let input = Source("props.title");
    let key = stage.memo_key(&input);
    let mut cx = Context::new();

    let bound = BoundStage::new(&mut stage, &input);
    assert_eq!(bound.memo_key(), key);
    assert_eq!(bound.poll_effect(&mut cx), StageAnswer::computed(Arc::new(title())));
    assert_eq!(stage.polls.get(), 1);
}
