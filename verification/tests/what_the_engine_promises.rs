//! What holds of the engine as a whole, on small concrete graphs.

use std::cell::{Cell, RefCell};
use std::rc::Rc;
use std::sync::Arc;

use libpipeline::boundary::Substitutions;
use libpipeline::builder::PipelineBuilder;
use libpipeline::chain::{Chain, ChainError};
use libpipeline::context::{revalidating, Context};
use libpipeline::driver::{run_to_completion, DriveError, NoPendingWork};
use libpipeline::effect::{EffectPoll, StageAnswer};
use libpipeline::key::{ContentHash, ContentKey, MemoKey, StageId};
use libpipeline::memo::Memo;
use libpipeline::pipeline::Run;
use libpipeline::stage::{Stage, StagePoll};
use libpipeline::store::{MemoMap, MemoStore, NoMemo};
use libpipeline::track::nodes::{Backdated, TrackedInput, TrackedStage};
use libpipeline::track::{Ledger, NodeId};
use libpipeline::wake::{WakerId, Wakes};
use libpipeline::watch::WakeReport;

/// Run `reader` once, reading `read`.
fn reads(ledger: &mut Ledger, reader: NodeId, read: &[NodeId]) {
    ledger.open(reader);
    for node in read {
        ledger.observe_read(*node);
    }
    ledger.close(false);
}

fn key(at: usize, content: u128) -> MemoKey {
    MemoKey::new(StageId::at(at), vec![ContentKey::from_u128(content)])
}

/// A number whose content is itself.
#[derive(Clone, Copy, PartialEq, Eq, Debug)]
struct Number(u128);

impl ContentHash for Number {
    fn address(&self) -> ContentKey {
        self.content_key()
    }

    fn content_key(&self) -> ContentKey {
        ContentKey::from_u128(self.0)
    }
}

/// A stage that answers whatever it is told to.
struct Says {
    id: StageId,
    answer: Rc<RefCell<StagePoll<Number, &'static str>>>,
    polls: Rc<Cell<usize>>,
}

impl Says {
    fn new(answer: StagePoll<Number, &'static str>) -> Self {
        Says {
            id: StageId::at(0),
            answer: Rc::new(RefCell::new(answer)),
            polls: Rc::new(Cell::new(0)),
        }
    }
}

impl Stage for Says {
    type Input = Number;
    type Output = Number;
    type Error = &'static str;

    fn id(&self) -> StageId {
        self.id
    }

    fn memo_key(&self, input: &Number) -> Option<MemoKey> {
        Some(MemoKey::new(self.id, vec![input.content_key()]))
    }

    fn poll_stage(&mut self, _input: &Number, _cx: &mut Context) -> StagePoll<Number, &'static str> {
        self.polls.set(self.polls.get() + 1);
        self.answer.borrow().clone()
    }
}

fn computed(n: u128) -> StagePoll<Number, &'static str> {
    StageAnswer::computed(Arc::new(Number(n)))
}

#[test]
fn a_change_spares_the_node_that_changed() {
    let mut ledger = Ledger::new();
    let mut wakes = Wakes::new();
    let source = ledger.node("source");
    let reader = ledger.node("reader");
    reads(&mut ledger, reader, &[source]);

    assert_eq!(ledger.changed(source, &mut wakes), 1);
    assert!(!ledger.is_stale(source));
    assert!(ledger.is_stale(reader));
}

#[test]
fn a_second_change_marks_nothing_new() {
    let mut ledger = Ledger::new();
    let mut wakes = Wakes::new();
    let source = ledger.node("source");
    let near = ledger.node("near");
    let far = ledger.node("far");
    reads(&mut ledger, near, &[source]);
    reads(&mut ledger, far, &[near]);

    assert_eq!(ledger.changed(source, &mut wakes), 2);
    assert_eq!(ledger.changed(source, &mut wakes), 0);
    assert_eq!(ledger.revision(source), 2, "it moved twice all the same");
    assert_eq!(ledger.stale_nodes(), vec![near, far]);
}

#[test]
fn an_equal_recompute_takes_back_exactly_what_the_change_marked() {
    let mut ledger = Ledger::new();
    let mut wakes = Wakes::new();
    let source = ledger.node("source");
    let left = ledger.node("left");
    let right = ledger.node("right");
    let foot = ledger.node("foot");
    reads(&mut ledger, left, &[source]);
    reads(&mut ledger, right, &[source]);
    reads(&mut ledger, foot, &[left, right]);

    assert_eq!(ledger.changed(source, &mut wakes), 3);
    assert_eq!(ledger.unchanged(source), 3);
    assert!(ledger.stale_nodes().is_empty());
}

#[test]
fn nodes_that_read_each_other_stay_stale() {
    let mut ledger = Ledger::new();
    let mut wakes = Wakes::new();
    let source = ledger.node("source");
    let one = ledger.node("one");
    let other = ledger.node("other");
    reads(&mut ledger, one, &[source, other]);
    reads(&mut ledger, other, &[one]);

    assert_eq!(ledger.changed(source, &mut wakes), 2);
    assert_eq!(ledger.unchanged(source), 0, "each still waits for the other");
    assert_eq!(ledger.stale_nodes(), vec![one, other]);
    let stuck = ledger.schedule().expect_err("they wait on each other");
    assert_eq!(*stuck.nodes(), vec![one, other]);
}

#[test]
fn what_a_knot_holds_up_is_stuck_with_it() {
    let mut ledger = Ledger::new();
    let mut wakes = Wakes::new();
    let source = ledger.node("source");
    let one = ledger.node("one");
    let other = ledger.node("other");
    let above = ledger.node("above");
    let beside = ledger.node("beside");
    reads(&mut ledger, one, &[source, other]);
    reads(&mut ledger, other, &[one]);
    reads(&mut ledger, above, &[other]);
    reads(&mut ledger, beside, &[source]);

    ledger.changed(source, &mut wakes);
    let stuck = ledger.schedule().expect_err("there is a knot");
    assert_eq!(*stuck.nodes(), vec![one, other, above], "and what is beside it is not in it");
}

#[test]
fn a_node_that_reads_itself_cannot_be_ordered() {
    let mut ledger = Ledger::new();
    let itself = ledger.node("itself");
    reads(&mut ledger, itself, &[itself]);
    assert!(ledger.schedule().expect("nothing is stale").is_empty());
    ledger.mark_stale(itself);
    assert_eq!(*ledger.schedule().expect_err("it waits on itself").nodes(), vec![itself]);
}

#[test]
fn the_plan_goes_by_readiness_and_then_by_index() {
    let mut ledger = Ledger::new();
    let mut wakes = Wakes::new();
    // The foot is minted first, so that index order alone would poll it first.
    let foot = ledger.node("foot");
    let right = ledger.node("right");
    let left = ledger.node("left");
    let source = ledger.node("source");
    reads(&mut ledger, left, &[source]);
    reads(&mut ledger, right, &[source]);
    reads(&mut ledger, foot, &[left, right]);

    ledger.changed(source, &mut wakes);
    let plan = ledger.schedule().expect("acyclic");
    assert_eq!(*plan.order(), vec![right, left, foot]);
    assert_eq!(*plan.to_poll(), vec![foot], "polling the foot pulls the rest");
}

#[test]
fn a_run_that_was_cut_short_keeps_the_edges_it_had() {
    let mut ledger = Ledger::new();
    let first = ledger.node("first");
    let second = ledger.node("second");
    let reader = ledger.node("reader");
    reads(&mut ledger, reader, &[first]);

    ledger.open(reader);
    ledger.observe_read(second);
    ledger.close(true);
    assert_eq!(ledger.running(), None, "the scope closed on the way out");
    assert_eq!(ledger.reads_of(reader), vec![first]);
    assert!(ledger.readers_of(second).is_empty());
}

#[test]
fn a_change_that_arrives_during_a_run_is_not_swallowed_by_it() {
    let mut ledger = Ledger::new();
    let mut wakes = Wakes::new();
    let source = ledger.node("source");
    let reader = ledger.node("reader");
    reads(&mut ledger, reader, &[source]);

    ledger.open(reader);
    ledger.observe_read(source);
    ledger.changed(source, &mut wakes);
    ledger.close(false);
    assert!(ledger.is_stale(reader), "it read the value from before the change");
}

#[test]
fn the_innermost_run_is_the_one_that_is_running() {
    let mut ledger = Ledger::new();
    let outer = ledger.node("outer");
    let inner = ledger.node("inner");
    assert_eq!(ledger.running(), None);
    ledger.open(outer);
    assert_eq!(ledger.running(), Some(outer));
    ledger.open(inner);
    assert_eq!(ledger.running(), Some(inner));
    ledger.close(false);
    assert_eq!(ledger.running(), Some(outer));
    ledger.close(false);
    assert_eq!(ledger.running(), None);
}

#[test]
fn a_run_hands_back_what_its_work_returned() {
    let mut ledger = Ledger::new();
    let source = ledger.node("source");
    let reader = ledger.node("reader");
    let count = ledger.run(reader, |inside: &mut Ledger| {
        inside.observe_read(source);
        inside.len()
    });
    assert_eq!(count, 2);
    assert_eq!(ledger.reads_of(reader), vec![source]);
    assert_eq!(ledger.readers_of(source), vec![reader]);
}

#[test]
fn a_run_is_revalidating_exactly_where_its_node_was_stale() {
    let mut cx = Context::new();
    let node = cx.ledger.node("node");
    assert!(!revalidating(&cx));

    cx.ledger.open(node);
    assert!(!revalidating(&cx), "fresh on entry");
    cx.ledger.close(false);

    cx.ledger.mark_stale(node);
    cx.ledger.open(node);
    assert!(revalidating(&cx), "stale on entry");
    assert!(!cx.ledger.is_stale(node), "and entering it cleared the mark");
    cx.ledger.close(false);
    assert!(!revalidating(&cx));
}

#[test]
fn clearing_a_mark_clears_every_reason() {
    let mut ledger = Ledger::new();
    let mut wakes = Wakes::new();
    let source = ledger.node("source");
    let reader = ledger.node("reader");
    reads(&mut ledger, reader, &[source]);
    ledger.changed(source, &mut wakes);
    ledger.mark_stale(reader);
    ledger.clear_stale(reader);
    assert!(!ledger.is_stale(reader));
}

#[test]
fn two_ledgers_do_not_share_nodes() {
    let mut one = Ledger::numbered(1);
    let mut two = Ledger::numbered(2);
    let node = one.node("mine");
    let other = two.node("theirs");
    assert!(one.owns(node) && !two.owns(node));
    assert!(two.owns(other) && !one.owns(other));
    assert_eq!((one.id(), one.len(), one.label(node)), (1, 1, "mine"));
}

#[test]
fn a_change_wakes_subscribers_only_where_something_read() {
    let mut ledger = Ledger::new();
    let mut wakes = Wakes::new();
    let flag = wakes.mint(WakerId::Noop);
    ledger.subscribe(flag, &mut wakes);
    ledger.subscribe(flag, &mut wakes);
    assert_eq!(wakes.held(flag), 1, "subscribing twice is subscribing once");
    let source = ledger.node("source");
    let reader = ledger.node("reader");

    ledger.changed(source, &mut wakes);
    assert!(!wakes.take(flag), "nothing read it");
    reads(&mut ledger, reader, &[source]);
    ledger.changed(source, &mut wakes);
    assert!(wakes.take(flag));
    ledger.changed(source, &mut wakes);
    assert!(wakes.take(flag), "and the subscription stays");
    assert_eq!(wakes.rung(flag), 2, "once for each change that something read");
}

#[test]
fn a_write_of_an_equal_value_is_no_change() {
    let mut cx = Context::new();
    let mut input = TrackedInput::new(&mut cx.ledger, "input", 4u32);
    let reader = cx.ledger.node("reader");
    cx.ledger.open(reader);
    assert_eq!(input.get(&mut cx.ledger), 4);
    cx.ledger.close(false);

    assert!(!input.set(4, &mut cx.ledger, &mut cx.wakes));
    assert!(!cx.ledger.is_stale(reader));
    assert!(input.set(5, &mut cx.ledger, &mut cx.wakes));
    assert!(cx.ledger.is_stale(reader));
    assert_eq!(input.peek(), 5);
}

#[test]
fn an_answer_that_stands_is_a_repeat_and_a_failure_is_not() {
    let mut cx = Context::new();
    let source = cx.ledger.node("source");
    let says = Says::new(computed(7));
    let answer = Rc::clone(&says.answer);
    let mut node = Backdated::new(&mut cx.ledger, "node", says);
    let consumer = cx.ledger.node("consumer");

    assert_eq!(node.poll_stage(&Number(1), &mut cx), computed(7));
    assert_eq!(node.last_address(), Some(ContentKey::from_u128(7)));
    reads(&mut cx.ledger, consumer, &[source, node.node()]);

    // A failure takes nothing back and is not remembered.
    cx.ledger.changed(node.node(), &mut cx.wakes);
    *answer.borrow_mut() = EffectPoll::Failed("no");
    assert_eq!(node.poll_stage(&Number(1), &mut cx), EffectPoll::Failed("no"));
    assert!(cx.ledger.is_stale(consumer));
    assert!(cx.ledger.is_stale(node.node()), "it owes a value");
    assert_eq!(node.last_address(), Some(ContentKey::from_u128(7)));

    // An answer that stands is the value from before.
    *answer.borrow_mut() = StageAnswer::unchanged();
    assert_eq!(node.poll_stage(&Number(1), &mut cx), StageAnswer::unchanged());
    assert!(!cx.ledger.is_stale(consumer));
    assert!(!cx.ledger.is_stale(node.node()));

    // A new value is not.
    cx.ledger.changed(node.node(), &mut cx.wakes);
    *answer.borrow_mut() = computed(8);
    assert_eq!(node.poll_stage(&Number(1), &mut cx), computed(8));
    assert!(cx.ledger.is_stale(consumer));
    assert_eq!(node.last_address(), Some(ContentKey::from_u128(8)));
}

#[test]
fn a_hit_hands_back_a_share_of_what_was_recorded() {
    let mut cx = Context::new();
    let mut memo = Memo::new(Says::new(computed(7)), MemoMap::new());
    assert!(memo.slot().is_none());

    let EffectPoll::Ready(StageAnswer::Computed(first)) = memo.poll_stage(&Number(1), &mut cx)
    else {
        panic!("it computes");
    };
    let EffectPoll::Ready(StageAnswer::Computed(second)) = memo.poll_stage(&Number(1), &mut cx)
    else {
        panic!("it is served");
    };
    assert!(Arc::ptr_eq(&first, &second));
    assert!(memo.slot().is_some_and(|slot| Arc::ptr_eq(&slot, &first)));
    assert_eq!(memo.stage().polls.get(), 1);
    assert_eq!(memo.store().len(), 1);
}

#[test]
fn only_a_computed_answer_is_recorded() {
    let mut cx = Context::new();
    let says = Says::new(EffectPoll::Failed("no"));
    let answer = Rc::clone(&says.answer);
    let mut memo = Memo::new(says, MemoMap::new());

    assert_eq!(memo.poll_stage(&Number(1), &mut cx), EffectPoll::Failed("no"));
    *answer.borrow_mut() = EffectPoll::Pending;
    assert_eq!(memo.poll_stage(&Number(1), &mut cx), EffectPoll::Pending);
    assert!(memo.store().is_empty());
    assert!(memo.slot().is_none());

    *answer.borrow_mut() = computed(3);
    assert_eq!(memo.poll_stage(&Number(1), &mut cx), computed(3));
    assert_eq!(memo.store().len(), 1);

    // Over another input the answer stands: nothing is recorded under it.
    *answer.borrow_mut() = StageAnswer::unchanged();
    assert_eq!(memo.poll_stage(&Number(2), &mut cx), StageAnswer::unchanged());
    assert_eq!(memo.store().len(), 1);
    assert_eq!(memo.slot(), Some(Arc::new(Number(3))));
}

#[test]
fn a_map_holds_what_was_recorded_last_and_nothing_else() {
    let mut map = MemoMap::new();
    assert_eq!(map.lookup(&key(0, 1)), None::<Arc<u8>>);
    map.record(&key(0, 1), Arc::new(10));
    map.record(&key(1, 1), Arc::new(20));
    map.record(&key(0, 2), Arc::new(30));
    map.record(&key(0, 1), Arc::new(40));
    assert_eq!(map.len(), 3);
    assert_eq!(map.lookup(&key(0, 1)), Some(Arc::new(40)));
    assert_eq!(map.lookup(&key(1, 1)), Some(Arc::new(20)), "another position's row");
    assert_eq!(map.lookup(&key(0, 2)), Some(Arc::new(30)));
    assert_eq!(map.lookup(&key(1, 2)), None);

    let mut none = NoMemo;
    none.record(&key(0, 1), Arc::new(10));
    assert_eq!(none.lookup(&key(0, 1)), None::<Arc<u8>>);
}

#[test]
fn keys_are_the_same_where_stage_and_inputs_are() {
    let whole = MemoKey::new(
        StageId::at(0),
        vec![ContentKey::from_u128(1), ContentKey::from_u128(2)],
    );
    assert!(whole.same(&whole.duplicate()));
    assert!(!whole.same(&key(0, 1)), "fewer inputs");
    assert!(!key(0, 1).same(&key(1, 1)), "another stage");
    assert!(!key(0, 1).same(&key(0, 2)), "another input");
    assert_eq!(whole.inputs()[1].to_u128(), 2);
    assert_eq!(StageId::at(5).index(), 5);
}

#[test]
fn each_half_of_a_chain_tags_what_it_raises() {
    let mut cx = Context::new();
    let first = Says::new(computed(7));
    let second = Says::new(EffectPoll::Failed("the second half"));
    let told = Rc::clone(&first.answer);
    let entered = Rc::clone(&second.polls);
    let mut chain = Chain::tagged(StageId::at(9), first, second);

    assert_eq!(
        run_to_completion(&mut chain, &Number(1), &mut NoPendingWork, &mut cx),
        Err(DriveError::Failed(ChainError::Second("the second half"))),
    );
    *told.borrow_mut() = EffectPoll::Failed("the first half");
    assert_eq!(
        run_to_completion(&mut chain, &Number(1), &mut NoPendingWork, &mut cx),
        Err(DriveError::Failed(ChainError::First("the first half"))),
    );
    assert_eq!(entered.get(), 1, "no answer upstream means no poll downstream");

    *told.borrow_mut() = EffectPoll::Pending;
    assert_eq!(
        run_to_completion(&mut chain, &Number(1), &mut NoPendingWork, &mut cx),
        Err(DriveError::Stalled),
    );
    assert_eq!(chain.id(), StageId::at(9));
}

#[test]
fn a_chain_refuses_to_key_and_its_parts_do_not() {
    let chain = Chain::new(StageId::at(9), Says::new(computed(7)), Says::new(computed(8)));
    assert_eq!(chain.memo_key(&Number(1)), None);
    assert!(chain.first().memo_key(&Number(1)).is_some());
    assert!(chain.second().memo_key(&Number(1)).is_some());
}

#[test]
fn a_wake_travels_forward_and_no_further() {
    let mut wakes = Wakes::new();
    let end = wakes.mint(WakerId::Noop);
    let middle = wakes.mint(end);
    let start = wakes.mint(middle);
    let aside = wakes.mint(WakerId::Noop);

    let waker = wakes.keep(middle);
    wakes.wake(&waker);
    assert!(!wakes.is_woken(start) && !wakes.is_woken(aside));
    assert!(wakes.take(middle));
    assert!(wakes.is_woken(end), "taking one mark leaves the others");
    assert!(!wakes.take(middle), "a mark is taken once");

    for target in [start, aside] {
        let waker = wakes.keep(target);
        wakes.wake(&waker);
    }
    assert!(wakes.take(start) && wakes.take(middle) && wakes.take(end) && wakes.take(aside));
    assert_eq!(
        (wakes.rung(start), wakes.rung(middle), wakes.rung(end), wakes.rung(aside)),
        (1, 2, 2, 1),
    );
    assert_eq!(wakes.rung(WakerId::Noop), 0);
    assert_eq!(waker.id(), middle);
    assert!(waker.will_wake(&wakes.keep(middle)) && !waker.will_wake(&wakes.keep(end)));
}

#[test]
fn handles_are_counted() {
    let mut wakes = Wakes::new();
    let target = wakes.mint(WakerId::Noop);
    assert_eq!(wakes.held(target), 0);
    let first = wakes.keep(target);
    let second = wakes.keep(target);
    wakes.release(first);
    assert!(second.id() == target);
    assert_eq!(wakes.held(target), 1);
    assert_eq!(wakes.held(WakerId::Noop), 0);
}

#[test]
fn a_tally_only_goes_up() {
    let mut cx = Context::new();
    let one = Substitutions::new(&mut cx);
    let other = Substitutions::new(&mut cx);
    one.add(&mut cx, 3);
    assert_eq!((one.count(&cx), other.count(&cx)), (3, 0));
    one.add(&mut cx, usize::MAX);
    one.add(&mut cx, 1);
    assert_eq!((one.count(&cx), other.count(&cx)), (usize::MAX, 0));
}

#[test]
fn a_report_of_no_polls_is_clean() {
    let report = WakeReport::default();
    assert!(report.is_clean());
    assert_eq!((report.pending_polls(), report.unwakeable_polls()), (0, 0));
}

#[test]
fn a_tracked_poll_reads_its_node_and_clears_it() {
    let mut cx = Context::numbered(3);
    let mut node = TrackedStage::new(&mut cx.ledger, "node", Says::new(computed(7)));
    assert_eq!(node.ledger(), 3);
    let reader = cx.ledger.node("reader");
    cx.ledger.mark_stale(node.node());

    cx.ledger.open(reader);
    assert_eq!(node.poll_stage(&Number(1), &mut cx), computed(7));
    cx.ledger.close(false);
    assert_eq!(cx.ledger.reads_of(reader), vec![node.node()]);
    assert!(!cx.ledger.is_stale(node.node()));
}

#[test]
fn a_version_can_be_whatever_compares() {
    let says = Says::new(computed(7));
    let (answer, polls) = (Rc::clone(&says.answer), Rc::clone(&says.polls));
    let mut pipeline = PipelineBuilder::new().stage("says", |_| says).build();

    assert!(matches!(
        pipeline.run("c0ffee".to_string(), &Number(1)),
        Ok(Run::Computed(value)) if *value == Number(7),
    ));
    assert!(matches!(pipeline.run("c0ffee".to_string(), &Number(2)), Ok(Run::Unchanged)));
    assert_eq!(polls.get(), 1);

    // A failure records no version: the one on record still answers.
    *answer.borrow_mut() = EffectPoll::Failed("no");
    assert!(pipeline.run("decaf".to_string(), &Number(2)).is_err());
    assert!(pipeline.run("decaf".to_string(), &Number(2)).is_err());
    assert!(matches!(pipeline.run("c0ffee".to_string(), &Number(2)), Ok(Run::Unchanged)));
    assert_eq!(polls.get(), 3);

    // A wake lets the same version in.
    let waker = pipeline.waker();
    pipeline.wake(&waker);
    assert!(pipeline.run("c0ffee".to_string(), &Number(2)).is_err());
    assert_eq!(polls.get(), 4);
    assert!(!pipeline.take_stale(), "the run took the mark");
}
