//! What keeping, waking and giving up a waker makes of the targets, and of the drive.

use vstd::prelude::*;

use crate::context::{revalidating, Context, ContextView};
use crate::stage::{Stage, StagePoll};
use crate::wake::{
    any_path, kept, on_path, released, same_forwards, taken, woken, woken_all, Target, Waker,
    WakerId, Wakes,
};
use crate::watch::{asked, path_of, poll_watched, probed, watched_polls, WakePath, WakeReport};

verus! {

/// A wake reaches its target and everything that the target forwards to, at any distance:
/// each is marked, and counts one wake more as far as it can count.
pub proof fn law_a_wake_travels_along_every_forward(targets: Seq<Target>, chain: Seq<usize>)
    requires
        chain.len() > 0,
        forall|i: int| 0 <= i < chain.len() ==> (#[trigger] chain[i]) < targets.len(),
        forall|i: int|
            0 < i < chain.len() ==> targets[chain[i - 1] as int].forward == WakerId::Target(
                #[trigger] chain[i],
            ) && chain[i] < chain[i - 1],
    ensures
        ({
            let t = chain.last() as int;
            let after = woken(targets, WakerId::Target(chain[0]));
            &&& after[t].woken
            &&& targets[t].rung < usize::MAX ==> after[t].rung == targets[t].rung + 1
            &&& targets[t].rung == usize::MAX ==> after[t].rung == usize::MAX
        }),
{
    lemma_forwards_are_on_the_path(targets, chain);
}

/// What a chain of forwards leads to is on the path of where it starts.
proof fn lemma_forwards_are_on_the_path(targets: Seq<Target>, chain: Seq<usize>)
    requires
        chain.len() > 0,
        forall|i: int| 0 <= i < chain.len() ==> (#[trigger] chain[i]) < targets.len(),
        forall|i: int|
            0 < i < chain.len() ==> targets[chain[i - 1] as int].forward == WakerId::Target(
                #[trigger] chain[i],
            ) && chain[i] < chain[i - 1],
    ensures
        on_path(targets, WakerId::Target(chain[0]), chain.last() as int),
    decreases chain.len(),
{
    if chain.len() > 1 {
        let rest = chain.skip(1);
        assert forall|i: int| 0 < i < rest.len() implies targets[rest[i - 1] as int].forward
            == WakerId::Target(#[trigger] rest[i]) && rest[i] < rest[i - 1] by {
            assert(rest[i] == chain[i + 1]);
            assert(rest[i - 1] == chain[i + 1 - 1]);
        }
        lemma_forwards_are_on_the_path(targets, rest);
        assert(targets[chain[1 - 1] as int].forward == WakerId::Target(chain[1]));
        assert(rest[0] == chain[1]);
        assert(rest.last() == chain.last());
    }
}

/// A wake reaches nothing else: whatever set holds the target and everything that a member
/// forwards to, what is not in it is as it was. Of what is in it, nothing but the mark and
/// the count of wakes moves.
pub proof fn law_a_wake_reaches_nothing_else(
    targets: Seq<Target>,
    waker: WakerId,
    set: Set<usize>,
    t: usize,
)
    requires
        waker matches WakerId::Target(k) ==> set.contains(k),
        forall|k: usize, j: usize|
            #![trigger set.contains(k), set.contains(j)]
            set.contains(k) && k < targets.len() && targets[k as int].forward == WakerId::Target(j)
                ==> set.contains(j),
        t < targets.len(),
    ensures
        ({
            let after = woken(targets, waker);
            &&& after.len() == targets.len()
            &&& !set.contains(t) ==> after[t as int] == targets[t as int]
            &&& after[t as int].forward == targets[t as int].forward
            &&& after[t as int].held == targets[t as int].held
            &&& after[t as int].found == targets[t as int].found
            &&& targets[t as int].woken ==> after[t as int].woken
        }),
{
    if on_path(targets, waker, t as int) {
        lemma_a_path_stays_in_the_set(targets, waker, set, t);
    }
}

/// A path leads out of no set that holds whatever a member forwards to.
proof fn lemma_a_path_stays_in_the_set(
    targets: Seq<Target>,
    waker: WakerId,
    set: Set<usize>,
    t: usize,
)
    requires
        waker matches WakerId::Target(k) ==> set.contains(k),
        forall|k: usize, j: usize|
            #![trigger set.contains(k), set.contains(j)]
            set.contains(k) && k < targets.len() && targets[k as int].forward == WakerId::Target(j)
                ==> set.contains(j),
        on_path(targets, waker, t as int),
    ensures
        set.contains(t),
    decreases
            (match waker {
                WakerId::Noop => 0nat,
                WakerId::Target(k) => (k + 1) as nat,
            }),
{
    if let WakerId::Target(k) = waker {
        if t != k {
            if let WakerId::Target(j) = targets[k as int].forward {
                if !set.contains(j) {
                    assert(set.contains(k));
                }
                lemma_a_path_stays_in_the_set(targets, WakerId::Target(j), set, t);
            }
        }
    }
}

/// Waking nobody, and waking what is no target, changes nothing.
pub proof fn law_waking_nobody_changes_nothing(targets: Seq<Target>, waker: WakerId)
    requires
        waker matches WakerId::Target(k) ==> k >= targets.len(),
    ensures
        woken(targets, waker) == targets,
{
    assert(woken(targets, waker) =~= targets);
}

/// To wake a list of wakers is to wake them one after the other: none, and then each.
pub proof fn law_waking_all_is_waking_each_in_turn(
    targets: Seq<Target>,
    wakers: Seq<WakerId>,
    waker: WakerId,
)
    ensures
        woken_all(targets, Seq::<WakerId>::empty()) == targets,
        woken_all(targets, wakers.push(waker)) == woken(woken_all(targets, wakers), waker),
{
    let before = woken_all(targets, wakers);
    let longer = wakers.push(waker);
    assert(longer.drop_last() =~= wakers);
    assert forall|t: int| 0 <= t < targets.len() implies (#[trigger] woken_all(targets, longer)[t])
        == woken(before, waker)[t] by {
        if waker matches WakerId::Target(k) ==> k < targets.len() {
            crate::wake::lemma_path_by_forwards(targets, before, waker, t);
        }
        assert(longer[wakers.len() as int] == waker);
        if any_path(targets, wakers, t) {
            let j = choose|j: int|
                0 <= j < wakers.len() && #[trigger] on_path(targets, wakers[j], t);
            assert(longer[j] == wakers[j]);
        }
        if any_path(targets, longer, t) && !any_path(targets, wakers, t) {
            let j = choose|j: int|
                0 <= j < longer.len() && #[trigger] on_path(targets, longer[j], t);
            if j < wakers.len() {
                assert(wakers[j] == longer[j]);
            }
        }
    }
    assert(woken_all(targets, longer) =~= woken(before, waker));
    assert(woken_all(targets, Seq::<WakerId>::empty()) =~= targets);
}

/// Waking a waker is waking its target.
pub proof fn law_to_wake_is_to_wake_the_target(wakes: &mut Wakes, waker: Waker)
    requires
        wakes.wf(),
        call_ensures(Wakes::wake, (wakes, &waker), ()),
    ensures
        final(wakes).wf(),
        final(wakes)@ == woken(old(wakes)@, waker@),
{
}

/// Keeping a waker counts one more of its target, as far as it can count, and of no other.
pub proof fn law_keeping_counts_one_more(targets: Seq<Target>, waker: WakerId, t: int)
    requires
        0 <= t < targets.len(),
    ensures
        ({
            let after = kept(targets, waker);
            &&& after.len() == targets.len()
            &&& waker != WakerId::Target(t as usize) ==> after[t] == targets[t]
            &&& waker == WakerId::Target(t as usize) && t <= usize::MAX ==> {
                &&& targets[t].held < usize::MAX ==> after[t].held == targets[t].held + 1
                &&& targets[t].held == usize::MAX ==> after[t].held == usize::MAX
                &&& after[t].forward == targets[t].forward
                &&& after[t].woken == targets[t].woken
                &&& after[t].rung == targets[t].rung
                &&& after[t].found == targets[t].found
            }
        }),
{
}

/// Giving a waker up counts one fewer of its target, down to none, and of no other. It takes
/// back what keeping it did, unless that could not be counted.
pub proof fn law_giving_up_counts_one_fewer(targets: Seq<Target>, waker: WakerId, t: int)
    requires
        0 <= t < targets.len(),
    ensures
        ({
            let after = released(targets, waker);
            &&& after.len() == targets.len()
            &&& waker != WakerId::Target(t as usize) ==> after[t] == targets[t]
            &&& waker == WakerId::Target(t as usize) && t <= usize::MAX ==> {
                &&& targets[t].held > 0 ==> after[t].held == targets[t].held - 1
                &&& targets[t].held == 0 ==> after[t].held == 0
                &&& after[t].forward == targets[t].forward
                &&& after[t].woken == targets[t].woken
                &&& after[t].rung == targets[t].rung
                &&& after[t].found == targets[t].found
            }
        }),
        targets[t].held < usize::MAX ==> released(kept(targets, waker), waker)[t] == targets[t],
{
}

/// Taking a mark clears it, of its target and of no other.
pub proof fn law_taking_clears_the_one_mark(targets: Seq<Target>, waker: WakerId, t: int)
    requires
        0 <= t < targets.len(),
    ensures
        ({
            let after = taken(targets, waker);
            &&& after.len() == targets.len()
            &&& waker != WakerId::Target(t as usize) ==> after[t] == targets[t]
            &&& waker == WakerId::Target(t as usize) && t <= usize::MAX ==> {
                &&& !after[t].woken
                &&& after[t].forward == targets[t].forward
                &&& after[t].rung == targets[t].rung
                &&& after[t].held == targets[t].held
                &&& after[t].found == targets[t].found
            }
        }),
{
}

/// Minting adds one target that has not been heard of and forwards as told; the others stay.
pub proof fn law_a_minted_target_is_new(wakes: &mut Wakes, forward: WakerId, r: WakerId)
    requires
        wakes.wf(),
        call_ensures(Wakes::mint, (wakes, forward), r),
    ensures
        final(wakes)@.len() == old(wakes)@.len() + 1,
        r == WakerId::Target(old(wakes)@.len() as usize),
        old(wakes)@.len() <= usize::MAX,
        forall|t: int| 0 <= t < old(wakes)@.len() ==> (#[trigger] final(wakes)@[t]) == old(wakes)@[t],
        ({
            let new = final(wakes)@[old(wakes)@.len() as int];
            new.forward == forward && !new.woken && new.rung == 0 && new.held == 0 && new.found == 0
        }),
{
}

/// A new set of targets is empty.
pub proof fn law_a_new_set_of_targets_is_empty(wakes: Wakes)
    requires
        call_ensures(Wakes::new, (), wakes),
    ensures
        wakes@.len() == 0,
{
}

/// A waker kept wakes the target that it was kept of, and is counted there.
pub proof fn law_a_kept_waker_wakes_its_target(wakes: &mut Wakes, waker: WakerId, r: Waker)
    requires
        wakes.wf(),
        call_ensures(Wakes::keep, (wakes, waker), r),
    ensures
        r@ == waker,
        final(wakes)@ == kept(old(wakes)@, waker),
{
}

/// A waker given up is one of the target that it wakes.
pub proof fn law_a_waker_is_given_up_of_its_target(wakes: &mut Wakes, waker: Waker)
    requires
        wakes.wf(),
        call_ensures(Wakes::release, (wakes, waker), ()),
    ensures
        final(wakes)@ == released(old(wakes)@, waker@),
{
}

/// A mark that is taken is told, and only one that was there.
pub proof fn law_a_mark_taken_is_told(wakes: &mut Wakes, k: usize, r: bool)
    requires
        wakes.wf(),
        k < wakes@.len(),
        call_ensures(Wakes::take, (wakes, WakerId::Target(k)), r),
    ensures
        r == old(wakes)@[k as int].woken,
        final(wakes)@ == taken(old(wakes)@, WakerId::Target(k)),
{
}

/// What is asked of a target is what the target holds, and of what is no target, nothing.
pub proof fn law_a_target_tells_what_it_holds(
    wakes: Wakes,
    waker: WakerId,
    rung: usize,
    is_woken: bool,
    held: usize,
    found: usize,
)
    requires
        call_ensures(Wakes::rung, (&wakes, waker), rung),
        call_ensures(Wakes::is_woken, (&wakes, waker), is_woken),
        call_ensures(Wakes::held, (&wakes, waker), held),
        call_ensures(Wakes::found, (&wakes, waker), found),
    ensures
        waker is Noop ==> rung == 0 && !is_woken && held == 0 && found == 0,
        waker matches WakerId::Target(k) ==> {
            &&& k >= wakes@.len() ==> rung == 0 && !is_woken && held == 0 && found == 0
            &&& k < wakes@.len() ==> {
                &&& rung == wakes@[k as int].rung
                &&& is_woken == wakes@[k as int].woken
                &&& held == wakes@[k as int].held
                &&& found == wakes@[k as int].found
            }
        },
{
}

/// Asking a target how many shares its token has keeps the answer with that target, and
/// touches nothing else.
pub proof fn law_what_is_asked_of_a_target_is_kept_with_it(wakes: &mut Wakes, k: usize)
    requires
        wakes.wf(),
        k < wakes@.len(),
        call_ensures(Wakes::ask, (wakes, WakerId::Target(k)), ()),
    ensures
        final(wakes).has_shares(k as int, final(wakes)@[k as int].found),
        final(wakes)@.len() == old(wakes)@.len(),
        forall|t: int|
            0 <= t < old(wakes)@.len() && t != k ==> (#[trigger] final(wakes)@[t]) == old(wakes)@[t],
        final(wakes)@[k as int].forward == old(wakes)@[k as int].forward,
        final(wakes)@[k as int].woken == old(wakes)@[k as int].woken,
        final(wakes)@[k as int].rung == old(wakes)@[k as int].rung,
        final(wakes)@[k as int].held == old(wakes)@[k as int].held,
{
}

/// Two handles wake alike exactly if they wake the same target.
pub proof fn law_handles_wake_alike_on_the_same_target(a: Waker, b: Waker, id: WakerId, same: bool)
    requires
        call_ensures(Waker::id, (&a,), id),
        call_ensures(Waker::will_wake, (&a, &b), same),
    ensures
        id == a@,
        same <==> a@ == b@,
{
}

/// A fresh drive has no targets, no tallies, nobody to wake, and is nested in nothing.
pub proof fn law_a_fresh_drive_is_empty(id: u64, cx: Context)
    requires
        call_ensures(Context::numbered, (id,), cx),
    ensures
        cx@.targets.len() == 0,
        cx@.tallies.len() == 0,
        cx@.waker is Noop,
        !cx@.nested,
        cx@.ledger.id == id,
        cx@.ledger.labels.len() == 0,
        cx@.ledger.running.len() == 0,
        cx@.ledger.subscribers.len() == 0,
{
}

/// A drive whose number is drawn is as empty as one that is numbered.
pub proof fn law_a_drawn_drive_is_empty(cx: Context)
    requires
        call_ensures(Context::new, (), cx),
    ensures
        cx@.targets.len() == 0,
        cx@.tallies.len() == 0,
        cx@.waker is Noop,
        !cx@.nested,
        cx@.ledger.labels.len() == 0,
        cx@.ledger.running.len() == 0,
        cx@.ledger.subscribers.len() == 0,
{
}

/// Whether a poll is revalidating is decided by the innermost open run of its own drive, and
/// where there is none by the drive that it is nested in.
pub proof fn law_the_innermost_run_of_the_drive_decides(cx: Context, r: bool)
    requires
        call_ensures(revalidating, (&cx,), r),
    ensures
        cx@.ledger.running.len() == 0 ==> r == cx@.nested,
        cx@.ledger.running.len() > 0 ==> r == cx@.ledger.running.last().revalidating,
        cx@.revalidating() == r,
{
}

/// Nesting a drive changes where it is nested, and nothing else.
pub proof fn law_nesting_changes_nothing_else(cx: &mut Context, inside: bool)
    requires
        cx.wf(),
        call_ensures(Context::nest, (cx, inside), ()),
    ensures
        final(cx)@.nested == inside,
        final(cx)@.ledger == old(cx)@.ledger,
        final(cx)@.targets == old(cx)@.targets,
        final(cx)@.tallies == old(cx)@.tallies,
        final(cx)@.waker == old(cx)@.waker,
{
}

/// A poll keeps the waker that it is handed, which is counted, and the drive is otherwise as it
/// was.
pub proof fn law_a_poll_keeps_the_waker_it_is_handed(cx: &mut Context, r: Waker, id: WakerId)
    requires
        cx.wf(),
        call_ensures(Context::waker, (&*cx,), id),
        call_ensures(Context::keep_waker, (cx,), r),
    ensures
        id == old(cx)@.waker,
        r@ == old(cx)@.waker,
        final(cx)@.targets == kept(old(cx)@.targets, old(cx)@.waker),
        final(cx)@.ledger == old(cx)@.ledger,
        final(cx)@.tallies == old(cx)@.tallies,
        final(cx)@.waker == old(cx)@.waker,
        final(cx)@.nested == old(cx)@.nested,
{
}

/// A waker that a poll gives up is one fewer of its target, and nothing else.
pub proof fn law_a_poll_gives_up_the_waker_it_names(cx: &mut Context, waker: Waker)
    requires
        cx.wf(),
        call_ensures(Context::release_waker, (cx, waker), ()),
    ensures
        final(cx)@.targets == released(old(cx)@.targets, waker@),
        final(cx)@.ledger == old(cx)@.ledger,
        final(cx)@.tallies == old(cx)@.tallies,
        final(cx)@.waker == old(cx)@.waker,
        final(cx)@.nested == old(cx)@.nested,
{
}

/// A waker that a poll wakes is woken, and nothing else.
pub proof fn law_a_poll_wakes_the_waker_it_names(cx: &mut Context, waker: Waker)
    requires
        cx.wf(),
        call_ensures(Context::wake, (cx, &waker), ()),
    ensures
        final(cx)@.targets == woken(old(cx)@.targets, waker@),
        final(cx)@.ledger == old(cx)@.ledger,
        final(cx)@.tallies == old(cx)@.tallies,
        final(cx)@.waker == old(cx)@.waker,
        final(cx)@.nested == old(cx)@.nested,
{
}

/// A poll that yields wakes the waker it is handed, and nothing else.
pub proof fn law_a_poll_that_yields_wakes_its_own_waker(cx: &mut Context)
    requires
        cx.wf(),
        call_ensures(Context::wake_own, (cx,), ()),
    ensures
        final(cx)@.targets == woken(old(cx)@.targets, old(cx)@.waker),
        final(cx)@.ledger == old(cx)@.ledger,
        final(cx)@.tallies == old(cx)@.tallies,
        final(cx)@.waker == old(cx)@.waker,
        final(cx)@.nested == old(cx)@.nested,
{
}

/// What a watched poll is: a poll of the stage that is handed a new target, which passes its
/// wakes on to `wake`. Once the stage has answered, the drive is as the stage left it, but
/// for what the new target was found to have, and the waker, which is the one there was. A
/// path is told exactly of an answer of none yet: that the poll woke its waker, if it did;
/// otherwise that it left one, if one is held and shared; and otherwise that it left none.
pub proof fn law_a_watched_poll_tells_the_path_it_left<S: Stage>(
    pre: S,
    input: S::Input,
    wake: WakerId,
    cx: ContextView,
    post: S,
    cx_post: ContextView,
    answer: StagePoll<S::Output, S::Error>,
    path: Option<WakePath>,
) -> (states: (ContextView, ContextView))
    requires
        watched_polls(pre, input, wake, cx, post, cx_post, answer, path),
    ensures
        ({
            let (inside, end) = states;
            let at = cx.targets.len() as int;
            let probe = cx_post.targets[at];
            &&& S::polls(pre, input, inside, post, end, answer)
            &&& inside.ledger == cx.ledger
            &&& inside.tallies == cx.tallies
            &&& inside.nested == cx.nested
            &&& inside.waker == WakerId::Target(at as usize)
            &&& inside.targets.len() == at + 1
            &&& forall|t: int| 0 <= t < at ==> (#[trigger] inside.targets[t]) == cx.targets[t]
            &&& inside.targets[at].forward == wake
            &&& !inside.targets[at].woken
            &&& inside.targets[at].rung == 0
            &&& inside.targets[at].held == 0
            &&& cx_post.ledger == end.ledger
            &&& cx_post.tallies == end.tallies
            &&& cx_post.nested == end.nested
            &&& cx_post.waker == cx.waker
            &&& cx_post.targets.len() == end.targets.len()
            &&& at < end.targets.len()
            &&& forall|t: int|
                0 <= t < end.targets.len() && t != at ==> (#[trigger] cx_post.targets[t])
                    == end.targets[t]
            &&& probe.forward == end.targets[at].forward
            &&& probe.woken == end.targets[at].woken
            &&& probe.rung == end.targets[at].rung
            &&& probe.held == end.targets[at].held
            &&& path is Some <==> answer is Pending
            &&& path == Some(WakePath::Woken) <==> answer is Pending && probe.woken
            &&& path == Some(WakePath::Registered) <==> answer is Pending && !probe.woken
                && probe.held > 0 && probe.found > 1
        }),
{
    let inside = probed(cx, wake);
    let end = choose|end: ContextView|
        {
            &&& #[trigger] S::polls(pre, input, inside, post, end, answer)
            &&& inside.later(end)
            &&& cx_post == asked(end, cx.targets.len() as int, cx_post).handing(cx.waker)
            &&& match path {
                Some(path) => answer is Pending && path == path_of(
                    cx_post.targets[cx.targets.len() as int],
                ),
                None => !(answer is Pending),
            }
        };
    assert(same_forwards(inside.targets, end.targets));
    (inside, end)
}

/// What a watched poll says of shares, it asked of its own target's token.
pub proof fn law_a_watched_poll_asks_its_own_target<S: Stage>(
    stage: &mut S,
    input: S::Input,
    wake: WakerId,
    cx: &mut Context,
    r: (StagePoll<S::Output, S::Error>, Option<WakePath>),
)
    requires
        cx.wf(),
        call_ensures(poll_watched::<S>, (stage, &input, wake, cx), r),
    ensures
        watched_polls(*old(stage), input, wake, old(cx)@, *final(stage), final(cx)@, r.0, r.1),
        final(cx).wakes.has_shares(
            old(cx)@.targets.len() as int,
            final(cx)@.targets[old(cx)@.targets.len() as int].found,
        ),
{
}

/// The path is that the poll woke its waker, if it did; otherwise that it left one, if it
/// did; and otherwise that it left none.
pub proof fn law_the_path_is_the_first_that_holds(woke: bool, left: bool, path: WakePath)
    requires
        call_ensures(WakePath::of, (woke, left), path),
    ensures
        path is Woken <==> woke,
        path is Registered <==> left && !woke,
        path is Missing <==> !woke && !left,
{
}

/// A report counts every path, and apart from that every missing one, as far as it can count.
/// One path more is one more of each that it is.
pub proof fn law_a_report_counts_every_path(
    report: WakeReport,
    more: WakeReport,
    paths: Seq<WakePath>,
    path: WakePath,
)
    requires
        report.reports(paths),
        more.reports(paths.push(path)),
    ensures
        report.pending_count() < usize::MAX ==> more.pending_count() == report.pending_count() + 1,
        report.pending_count() == usize::MAX ==> more.pending_count() == usize::MAX,
        path is Missing && report.unwakeable_count() < usize::MAX ==> more.unwakeable_count()
            == report.unwakeable_count() + 1,
        path is Missing && report.unwakeable_count() == usize::MAX ==> more.unwakeable_count()
            == usize::MAX,
        !(path is Missing) ==> more.unwakeable_count() == report.unwakeable_count(),
{
    assert(paths.push(path).drop_last() =~= paths);
}

/// A report of no paths counts none, and that is what a new report is.
pub proof fn law_a_report_of_nothing_counts_nothing(report: WakeReport)
    requires
        call_ensures(WakeReport::new, (), report) || report.reports(Seq::<WakePath>::empty()),
    ensures
        report.pending_count() == 0,
        report.unwakeable_count() == 0,
{
}

/// What a report tells is what it counted, and it is clean exactly if none was missing.
pub proof fn law_a_report_tells_what_it_counted(
    report: WakeReport,
    pending: usize,
    unwakeable: usize,
    clean: bool,
)
    requires
        call_ensures(WakeReport::pending_polls, (&report,), pending),
        call_ensures(WakeReport::unwakeable_polls, (&report,), unwakeable),
        call_ensures(WakeReport::is_clean, (&report,), clean),
    ensures
        pending == report.pending_count(),
        unwakeable == report.unwakeable_count(),
        clean <==> unwakeable == 0,
        unwakeable <= pending,
{
}

} // verus!
