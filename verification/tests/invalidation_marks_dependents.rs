//! A changed input marks its dependents stale, transitively, and wakes whoever
//! subscribed.
//!
//! A stage here registers no waker and has no idea a driver exists. The frame loop
//! still learns of a change, because the read was observed.

use std::cell::{Cell, RefCell};
use std::collections::HashMap;
use std::rc::Rc;
use std::sync::Arc;

use libpipeline::context::{revalidating, Context};
use libpipeline::driver::FrameDriver;
use libpipeline::effect::{EffectPoll, StageAnswer};
use libpipeline::key::{ContentKey, MemoKey, StageId};
use libpipeline::memo::Memo;
use libpipeline::stage::{Stage, StagePoll};
use libpipeline::store::{MemoStore, NoMemo};
use libpipeline::track::nodes::{TrackedInput, TrackedStage};
use libpipeline::track::{Ledger, NodeId};

/// Stand-in for whatever an author wrote.
#[derive(Clone, PartialEq, Eq, Debug)]
struct Text(String);

/// An input that a stage and its test both hold.
type Input = Rc<RefCell<TrackedInput<String>>>;

fn input(cx: &mut Context, label: &'static str, value: &str) -> Input {
    Rc::new(RefCell::new(TrackedInput::new(&mut cx.ledger, label, value.to_string())))
}

fn set(input: &Input, value: &str, cx: &mut Context) -> bool {
    input.borrow_mut().set(value.to_string(), &mut cx.ledger, &mut cx.wakes)
}

/// A stage that reads one input, observably or not.
struct Reads {
    from: Input,
    /// When false the read goes through `peek`, which logs no edge. Everything else
    /// about the stage is identical.
    observed: bool,
    runs: usize,
}

impl Reads {
    fn new(from: &Input, observed: bool) -> Self {
        Reads { from: Rc::clone(from), observed, runs: 0 }
    }
}

impl Stage for Reads {
    type Input = Text;
    type Output = String;
    type Error = &'static str;

    fn id(&self) -> StageId {
        StageId::at(0)
    }

    fn memo_key(&self, _input: &Text) -> Option<MemoKey> {
        None
    }

    fn poll_stage(&mut self, input: &Text, cx: &mut Context) -> StagePoll<String, &'static str> {
        self.runs += 1;
        let read = if self.observed {
            self.from.borrow().get(&mut cx.ledger)
        } else {
            self.from.borrow().peek()
        };
        StageAnswer::computed(Arc::new(format!("{}{read}", input.0)))
    }
}

/// A stage that reads one of two inputs, chosen per run.
struct ReadsEither {
    left: Input,
    right: Input,
    take_left: Rc<Cell<bool>>,
}

impl Stage for ReadsEither {
    type Input = Text;
    type Output = String;
    type Error = &'static str;

    fn id(&self) -> StageId {
        StageId::at(1)
    }

    fn memo_key(&self, _input: &Text) -> Option<MemoKey> {
        None
    }

    fn poll_stage(&mut self, _input: &Text, cx: &mut Context) -> StagePoll<String, &'static str> {
        let read = if self.take_left.get() {
            self.left.borrow().get(&mut cx.ledger)
        } else {
            self.right.borrow().get(&mut cx.ledger)
        };
        StageAnswer::computed(Arc::new(read))
    }
}

/// A stage that polls another and reads nothing itself: the middle of a chain.
struct Relays<S> {
    inner: S,
}

impl<S: Stage<Input = Text, Output = String, Error = &'static str>> Stage for Relays<S> {
    type Input = Text;
    type Output = String;
    type Error = &'static str;

    fn id(&self) -> StageId {
        StageId::at(2)
    }

    fn memo_key(&self, _input: &Text) -> Option<MemoKey> {
        None
    }

    fn poll_stage(&mut self, input: &Text, cx: &mut Context) -> StagePoll<String, &'static str> {
        self.inner.poll_stage(input, cx)
    }
}

/// A stage that never lands.
struct Parks;

impl Stage for Parks {
    type Input = Text;
    type Output = String;
    type Error = &'static str;

    fn id(&self) -> StageId {
        StageId::at(3)
    }

    fn memo_key(&self, _input: &Text) -> Option<MemoKey> {
        None
    }

    fn poll_stage(&mut self, _input: &Text, cx: &mut Context) -> StagePoll<String, &'static str> {
        drop(cx.keep_waker());
        EffectPoll::Pending
    }
}

/// A memoized stage that reads observed state, with both ways of accounting for the
/// ambient input switchable: whether the read is observed, and whether the stage
/// declares it by folding the revision into its own key.
struct Composes {
    from: Input,
    /// The revision of `from`, as last seen by whoever writes it.
    revision: Rc<Cell<u64>>,
    observes: bool,
    folds_revision: bool,
    runs: usize,
    /// What `revalidating` said on each run, in order.
    saw_revalidating: Vec<bool>,
}

impl Composes {
    fn new(from: &Input, revision: &Rc<Cell<u64>>, observes: bool, folds_revision: bool) -> Self {
        Composes {
            from: Rc::clone(from),
            revision: Rc::clone(revision),
            observes,
            folds_revision,
            runs: 0,
            saw_revalidating: Vec::new(),
        }
    }
}

impl Stage for Composes {
    type Input = Text;
    type Output = String;
    type Error = &'static str;

    fn id(&self) -> StageId {
        StageId::at(4)
    }

    fn memo_key(&self, input: &Text) -> Option<MemoKey> {
        let mut inputs = vec![content_key_of(&input.0)];
        if self.folds_revision {
            inputs.push(ContentKey::from_u128(u128::from(self.revision.get())));
        }
        Some(MemoKey::new(self.id(), inputs))
    }

    fn poll_stage(&mut self, input: &Text, cx: &mut Context) -> StagePoll<String, &'static str> {
        self.runs += 1;
        self.saw_revalidating.push(revalidating(cx));
        let read = if self.observes {
            self.from.borrow().get(&mut cx.ledger)
        } else {
            self.from.borrow().peek()
        };
        StageAnswer::computed(Arc::new(format!("{}{read}", input.0)))
    }
}

/// Equal inputs key equally; nothing more is claimed.
fn content_key_of(text: &str) -> ContentKey {
    let mut h: u128 = 0x6c62_272e_07bb_0142_62b8_2175_6295_c58du128;
    for byte in text.as_bytes() {
        h ^= u128::from(*byte);
        h = h.wrapping_mul(0x0000_0000_0100_0000_0000_0000_0000_013bu128);
    }
    ContentKey::from_u128(h)
}

/// A store that remembers, so a memo hit is a real hit.
struct MapStore<V> {
    rows: HashMap<MemoKey, Arc<V>>,
}

impl<V> MapStore<V> {
    fn new() -> Self {
        MapStore { rows: HashMap::new() }
    }
}

impl<V> MemoStore<V> for MapStore<V> {
    fn lookup(&self, key: &MemoKey) -> Option<Arc<V>> {
        self.rows.get(key).cloned()
    }

    fn record(&mut self, key: &MemoKey, value: Arc<V>) {
        self.rows.insert(key.clone(), value);
    }
}

fn poll<S: Stage>(stage: &mut S, input: &S::Input, cx: &mut Context) -> StagePoll<S::Output, S::Error> {
    stage.poll_stage(input, cx)
}

fn ready(value: &str) -> StagePoll<String, &'static str> {
    StageAnswer::computed(Arc::new(value.to_string()))
}

fn hi() -> Text {
    Text("hi".to_string())
}

fn labels(ledger: &Ledger, nodes: &[NodeId]) -> Vec<&'static str> {
    nodes.iter().map(|n| ledger.label(*n)).collect()
}

fn stale(cx: &Context) -> Vec<&'static str> {
    labels(&cx.ledger, &cx.ledger.stale_nodes())
}

fn marks_its_dependents_and_nothing_else() {
    let mut cx = Context::new();
    let read = input(&mut cx, "read", "A");
    let ignored = input(&mut cx, "ignored", "Z");
    let mut reader = TrackedStage::new(&mut cx.ledger, "reader", Reads::new(&read, true));
    let mut bystander = TrackedStage::new(&mut cx.ledger, "bystander", Reads::new(&ignored, true));

    poll(&mut reader, &hi(), &mut cx);
    poll(&mut bystander, &hi(), &mut cx);
    assert!(cx.ledger.stale_nodes().is_empty(), "a poll is not a change");

    assert!(set(&read, "B", &mut cx));
    assert_eq!(
        stale(&cx),
        ["reader"],
        "the bystander reads a different input and must not be woken by this one",
    );
}

#[test]
fn track_changing_an_input_marks_its_dependents_and_nothing_else() {
    marks_its_dependents_and_nothing_else();
}

#[test]
fn invalidation_marks_dependents_changing_an_input_marks_its_dependents_and_nothing_else() {
    marks_its_dependents_and_nothing_else();
}

fn is_transitive() {
    let mut cx = Context::new();
    let read = input(&mut cx, "read", "A");
    let inner = TrackedStage::new(&mut cx.ledger, "inner", Reads::new(&read, true));
    let middle = TrackedStage::new(&mut cx.ledger, "middle", Relays { inner });
    let mut outer = TrackedStage::new(&mut cx.ledger, "outer", Relays { inner: middle });

    poll(&mut outer, &hi(), &mut cx);
    set(&read, "B", &mut cx);

    assert_eq!(
        stale(&cx),
        ["inner", "middle", "outer"],
        "invalidation reaches every node that transitively read the input",
    );
}

#[test]
fn track_staleness_is_transitive() {
    is_transitive();
}

#[test]
fn invalidation_marks_dependents_staleness_is_transitive() {
    is_transitive();
}

fn marks_nothing_and_moves_no_revision() {
    let mut cx = Context::new();
    let read = input(&mut cx, "read", "A");
    let mut reader = TrackedStage::new(&mut cx.ledger, "reader", Reads::new(&read, true));
    poll(&mut reader, &hi(), &mut cx);
    let node = read.borrow().node();

    assert!(!set(&read, "A", &mut cx), "the value did not move");
    assert!(cx.ledger.stale_nodes().is_empty());
    assert_eq!(cx.ledger.revision(node), 0, "and neither did the revision");

    assert!(set(&read, "B", &mut cx));
    assert_eq!(cx.ledger.revision(node), 1);
}

#[test]
fn track_an_unchanged_input_marks_nothing_and_moves_no_revision() {
    marks_nothing_and_moves_no_revision();
}

#[test]
fn invalidation_marks_dependents_an_unchanged_input_marks_nothing_and_moves_no_revision() {
    marks_nothing_and_moves_no_revision();
}

fn no_longer_reads_marks_nothing() {
    let mut cx = Context::new();
    let left = input(&mut cx, "left", "L");
    let right = input(&mut cx, "right", "R");
    let take_left = Rc::new(Cell::new(true));
    let mut stage = TrackedStage::new(
        &mut cx.ledger,
        "either",
        ReadsEither {
            left: Rc::clone(&left),
            right: Rc::clone(&right),
            take_left: Rc::clone(&take_left),
        },
    );

    poll(&mut stage, &Text(String::new()), &mut cx);
    assert!(set(&left, "L2", &mut cx));
    assert_eq!(stale(&cx), ["either"]);

    // The stage takes the other branch, and the run re-logs its reads.
    take_left.set(false);
    poll(&mut stage, &Text(String::new()), &mut cx);
    assert!(!cx.ledger.is_stale(stage.node()), "the run revalidated it");

    assert!(set(&left, "L3", &mut cx), "the value moved");
    assert!(
        cx.ledger.stale_nodes().is_empty(),
        "nothing reads `left` any more, so a change behind the branch not taken wakes nothing",
    );

    assert!(set(&right, "R2", &mut cx));
    assert_eq!(stale(&cx), ["either"], "and the branch it DID take still invalidates");
}

#[test]
fn track_an_input_a_stage_no_longer_reads_marks_nothing() {
    no_longer_reads_marks_nothing();
}

#[test]
fn invalidation_marks_dependents_an_input_a_stage_no_longer_reads_marks_nothing() {
    no_longer_reads_marks_nothing();
}

fn clears_staleness_and_a_pending_poll_does_not() {
    let mut cx = Context::new();
    let read = input(&mut cx, "read", "A");
    let mut reader = TrackedStage::new(&mut cx.ledger, "reader", Reads::new(&read, true));
    poll(&mut reader, &hi(), &mut cx);
    set(&read, "B", &mut cx);
    assert!(cx.ledger.is_stale(reader.node()));

    poll(&mut reader, &hi(), &mut cx);
    assert!(!cx.ledger.is_stale(reader.node()), "the run revalidated it");

    let mut parks = TrackedStage::new(&mut cx.ledger, "parks", Parks);
    assert!(poll(&mut parks, &hi(), &mut cx).is_pending());
    assert!(
        cx.ledger.is_stale(parks.node()),
        "a Pending poll produced no value, so it revalidated nothing",
    );
}

#[test]
fn track_polling_a_node_clears_its_staleness_and_a_pending_poll_does_not() {
    clears_staleness_and_a_pending_poll_does_not();
}

#[test]
fn invalidation_marks_dependents_polling_a_node_clears_its_staleness_and_a_pending_poll_does_not() {
    clears_staleness_and_a_pending_poll_does_not();
}

fn learns_because_the_read_was_observed() {
    let mut cx = Context::new();
    let title = input(&mut cx, "title", "A");
    let mut stage = TrackedStage::new(&mut cx.ledger, "reader", Reads::new(&title, true));
    let driver = FrameDriver::new(&mut cx);
    cx.ledger.subscribe(driver.waker(), &mut cx.wakes);

    assert_eq!(driver.poll_frame(&mut stage, &hi(), &mut cx), ready("hiA"));
    assert!(!driver.take_stale(&mut cx), "a poll is not a wake");

    set(&title, "B", &mut cx);
    assert!(driver.take_stale(&mut cx), "the change reached the frame loop");
    assert_eq!(driver.poll_frame(&mut stage, &hi(), &mut cx), ready("hiB"));
    assert_eq!(stage.stage().runs, 2);
}

#[test]
fn track_the_frame_driver_learns_of_a_change_because_the_read_was_observed() {
    learns_because_the_read_was_observed();
}

#[test]
fn invalidation_marks_dependents_the_frame_driver_learns_of_a_change_because_the_read_was_observed() {
    learns_because_the_read_was_observed();
}

fn unobserved_never_reaches_the_frame_loop() {
    let mut cx = Context::new();
    let title = input(&mut cx, "title", "A");
    let mut stage = TrackedStage::new(&mut cx.ledger, "reader", Reads::new(&title, false));
    let driver = FrameDriver::new(&mut cx);
    cx.ledger.subscribe(driver.waker(), &mut cx.wakes);

    assert_eq!(driver.poll_frame(&mut stage, &hi(), &mut cx), ready("hiA"));
    set(&title, "B", &mut cx);
    assert!(!driver.take_stale(&mut cx), "no edge was recorded, so the change woke nobody");
    assert!(cx.ledger.stale_nodes().is_empty());
    assert_eq!(
        driver.poll_frame(&mut stage, &hi(), &mut cx),
        ready("hiB"),
        "the new value was available all along - it is the TELLING that was lost",
    );
}

#[test]
fn track_the_same_stage_reading_unobserved_never_reaches_the_frame_loop() {
    unobserved_never_reaches_the_frame_loop();
}

#[test]
fn invalidation_marks_dependents_the_same_stage_reading_unobserved_never_reaches_the_frame_loop() {
    unobserved_never_reaches_the_frame_loop();
}

fn subscription_is_not_one_shot() {
    let mut cx = Context::new();
    let title = input(&mut cx, "title", "A");
    let mut stage = TrackedStage::new(&mut cx.ledger, "reader", Reads::new(&title, true));
    let driver = FrameDriver::new(&mut cx);
    for _ in 0..3 {
        // A frame loop subscribing every frame is the expected usage.
        cx.ledger.subscribe(driver.waker(), &mut cx.wakes);
    }

    poll(&mut stage, &hi(), &mut cx);
    set(&title, "B", &mut cx);
    assert!(driver.take_stale(&mut cx));

    poll(&mut stage, &hi(), &mut cx);
    set(&title, "C", &mut cx);
    assert!(driver.take_stale(&mut cx), "the subscription survives the wake");
}

#[test]
fn track_a_wake_subscription_is_not_one_shot_and_does_not_accumulate() {
    subscription_is_not_one_shot();
}

#[test]
fn invalidation_marks_dependents_a_wake_subscription_is_not_one_shot_and_does_not_accumulate() {
    subscription_is_not_one_shot();
}

/// Write `value` and keep the revision that stages may fold into their keys in step.
fn set_at(from: &Input, value: &str, revision: &Rc<Cell<u64>>, cx: &mut Context) {
    set(from, value, cx);
    revision.set(cx.ledger.revision(from.borrow().node()));
}

fn cannot_serve_what_was_ruled_stale() {
    for folds_revision in [true, false] {
        let mut cx = Context::new();
        let from = input(&mut cx, "from", "A");
        let revision = Rc::new(Cell::new(0));
        let mut stage = TrackedStage::new(
            &mut cx.ledger,
            "composes",
            Memo::new(Composes::new(&from, &revision, true, folds_revision), MapStore::new()),
        );
        let input = hi();

        assert_eq!(poll(&mut stage, &input, &mut cx), ready("hiA"));
        set_at(&from, "B", &revision, &mut cx);
        assert!(cx.ledger.is_stale(stage.node()), "the ledger saw the read");

        assert_eq!(
            poll(&mut stage, &input, &mut cx),
            ready("hiB"),
            "the store held `hiA` under a key that had not moved; the ledger's mark outranks it",
        );
        assert_eq!(stage.stage().stage().runs, 2);
        assert_eq!(
            stage.stage().stage().saw_revalidating,
            [false, true],
            "fresh on the first run, revalidating on the second",
        );

        // Nothing is stale now, so the store answers, with what the second run recorded.
        assert_eq!(poll(&mut stage, &input, &mut cx), ready("hiB"));
        assert_eq!(stage.stage().stage().runs, 2, "the third poll was a hit");
    }
}

#[test]
fn track_a_memo_over_a_tracked_read_cannot_serve_what_the_ledger_ruled_stale() {
    cannot_serve_what_was_ruled_stale();
}

#[test]
fn invalidation_marks_dependents_a_memo_over_a_tracked_read_cannot_serve_what_the_ledger_ruled_stale()
{
    cannot_serve_what_was_ruled_stale();
}

fn only_a_declared_key_saves_an_unobserved_read() {
    let mut cx = Context::new();
    let from = input(&mut cx, "from", "A");
    let revision = Rc::new(Cell::new(0));
    let mut stage = TrackedStage::new(
        &mut cx.ledger,
        "composes",
        Memo::new(Composes::new(&from, &revision, false, false), MapStore::new()),
    );

    assert_eq!(poll(&mut stage, &hi(), &mut cx), ready("hiA"));
    set_at(&from, "B", &revision, &mut cx);
    assert!(!cx.ledger.is_stale(stage.node()), "no edge, so nothing was marked");
    assert_eq!(
        poll(&mut stage, &hi(), &mut cx),
        ready("hiA"),
        "the memo served a value that had moved - and no layer here was ever told it had",
    );
    assert_eq!(stage.stage().stage().saw_revalidating, [false]);

    // The same stage that declares the ambient input in its key survives it.
    let mut cx = Context::new();
    let from = input(&mut cx, "from", "A");
    let revision = Rc::new(Cell::new(0));
    let mut declared = TrackedStage::new(
        &mut cx.ledger,
        "composes",
        Memo::new(Composes::new(&from, &revision, false, true), MapStore::new()),
    );
    assert_eq!(poll(&mut declared, &hi(), &mut cx), ready("hiA"));
    set_at(&from, "B", &revision, &mut cx);
    assert_eq!(
        poll(&mut declared, &hi(), &mut cx),
        ready("hiB"),
        "the revision moved the key, so the lookup missed on its own",
    );
}

#[test]
fn track_a_memo_over_an_unobserved_read_is_the_case_only_a_declared_key_saves() {
    only_a_declared_key_saves_an_unobserved_read();
}

#[test]
fn invalidation_marks_dependents_a_memo_over_an_unobserved_read_is_the_case_only_a_declared_key_saves()
{
    only_a_declared_key_saves_an_unobserved_read();
}

fn a_cache_outside_is_out_of_reach() {
    let mut cx = Context::new();
    let from = input(&mut cx, "from", "A");
    let revision = Rc::new(Cell::new(0));
    let mut stage = Memo::new(
        TrackedStage::new(
            &mut cx.ledger,
            "composes",
            Composes::new(&from, &revision, true, false),
        ),
        MapStore::new(),
    );

    assert_eq!(poll(&mut stage, &hi(), &mut cx), ready("hiA"));
    set_at(&from, "B", &revision, &mut cx);
    assert!(
        cx.ledger.is_stale(stage.stage().node()),
        "the read WAS observed and the node IS stale",
    );
    assert_eq!(
        poll(&mut stage, &hi(), &mut cx),
        ready("hiA"),
        "and the outer store answered anyway - the contradiction the correct order removes",
    );
    assert_eq!(stage.stage().stage().runs, 1);
}

#[test]
fn track_a_cache_outside_the_tracking_is_a_cache_the_ledger_cannot_reach() {
    a_cache_outside_is_out_of_reach();
}

#[test]
fn invalidation_marks_dependents_a_cache_outside_the_tracking_is_a_cache_the_ledger_cannot_reach() {
    a_cache_outside_is_out_of_reach();
}

/// Poll one memoized node through a sequence of writes, one of which changes nothing,
/// and report the answers and how many times it ran.
fn drive_over_tracked_state<St: MemoStore<String>>(store: St) -> (Vec<String>, usize) {
    let mut cx = Context::new();
    let from = input(&mut cx, "from", "A");
    let revision = Rc::new(Cell::new(0));
    let mut stage = TrackedStage::new(
        &mut cx.ledger,
        "composes",
        Memo::new(Composes::new(&from, &revision, true, false), store),
    );

    let mut answers = Vec::new();
    for value in ["A", "B", "B", "A"] {
        set_at(&from, value, &revision, &mut cx);
        match poll(&mut stage, &hi(), &mut cx) {
            EffectPoll::Ready(StageAnswer::Computed(value)) => answers.push(value.to_string()),
            other => panic!("a pure stage answered {other:?}"),
        }
    }
    (answers, stage.stage().stage().runs)
}

fn changes_speed_and_not_answers() {
    let (cached_answers, cached_runs) = drive_over_tracked_state(MapStore::new());
    let (uncached_answers, uncached_runs) = drive_over_tracked_state(NoMemo);

    assert_eq!(
        cached_answers,
        ["hiA", "hiB", "hiB", "hiA"],
        "the answers follow the value, cache or no cache",
    );
    assert_eq!(cached_answers, uncached_answers);
    assert!(
        cached_runs < uncached_runs,
        "and the cache still hits where nothing moved: {cached_runs} runs against {uncached_runs}",
    );
}

#[test]
fn track_the_memo_over_tracked_state_changes_speed_and_not_answers() {
    changes_speed_and_not_answers();
}

#[test]
fn invalidation_marks_dependents_the_memo_over_tracked_state_changes_speed_and_not_answers() {
    changes_speed_and_not_answers();
}

fn a_hit_keeps_the_edges() {
    let mut cx = Context::new();
    let from = input(&mut cx, "from", "A");
    let revision = Rc::new(Cell::new(0));
    let mut stage = TrackedStage::new(
        &mut cx.ledger,
        "composes",
        Memo::new(Composes::new(&from, &revision, true, false), MapStore::new()),
    );

    poll(&mut stage, &hi(), &mut cx);
    assert_eq!(labels(&cx.ledger, &cx.ledger.reads_of(stage.node())), ["from"]);

    poll(&mut stage, &hi(), &mut cx);
    assert_eq!(stage.stage().stage().runs, 1, "the second poll was a hit");
    assert_eq!(
        labels(&cx.ledger, &cx.ledger.reads_of(stage.node())),
        ["from"],
        "the hit observed no reads, and the edge survived it",
    );

    assert!(set(&from, "B", &mut cx));
    assert!(cx.ledger.is_stale(stage.node()));
}

#[test]
fn track_a_memo_hit_does_not_cost_the_node_its_edges() {
    a_hit_keeps_the_edges();
}

#[test]
fn invalidation_marks_dependents_a_memo_hit_does_not_cost_the_node_its_edges() {
    a_hit_keeps_the_edges();
}
