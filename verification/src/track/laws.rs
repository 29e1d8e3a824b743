//! What holds of the ledger across calls.

use vstd::prelude::*;

use crate::track::invalidate::lemma_some;
use crate::track::{LedgerView, Reason};

verus! {

/// A change marks its dependents and nothing else: afterwards a node is stale
/// exactly when it was before or reads the changed node, directly or through others.
pub proof fn law_change_marks_dependents_and_nothing_else(v: LedgerView, from: u32)
    requires
        v.sane(),
        from < v.n(),
    ensures
        forall|m: u32|
            m < v.n() ==> (#[trigger] v.changed(from).is_stale(m) <==> v.is_stale(m) || v.reaches(
                from,
                m,
            )),
{
    let after = v.changed(from);
    assert forall|m: u32| m < v.n() implies (#[trigger] after.is_stale(m) <==> v.is_stale(m)
        || v.reaches(from, m)) by {
        assert(after.reasons[m as int] == v.reasons_after_change(from, m as int));
        if v.is_stale(m) {
            let q = lemma_some(v.reasons[m as int]);
            assert(after.reasons[m as int].contains(q));
        }
        if v.reaches(from, m) {
            let k = v.lemma_reach_last(from, m);
            assert(after.reasons[m as int].contains(Reason::Read(k)));
        }
        if after.is_stale(m) && !v.is_stale(m) {
            let q = lemma_some(after.reasons[m as int]);
            if let Reason::Read(k) = q {
                v.lemma_reach_step(from, k, m);
            }
        }
    }
}

/// A change that nobody read marks nothing.
pub proof fn law_unread_change_marks_nothing(v: LedgerView, from: u32)
    requires
        v.sane(),
        from < v.n(),
        v.followers(from) == Set::<u32>::empty(),
    ensures
        v.changed(from).reasons == v.reasons,
        v.newly_stale(from) == Set::<u32>::empty(),
{
    let after = v.changed(from);
    assert forall|m: u32| !v.reaches(from, m) by {
        if v.reaches(from, m) {
            let p = choose|p: Seq<u32>| v.leads(p, from, m);
            assert(v.feeds(p[0], p[0int + 1]));
            assert(v.followers(from).contains(p[1]));
        }
    }
    assert forall|m: int| 0 <= m < v.n() implies (#[trigger] after.reasons[m]) == v.reasons[m] by {
        assert forall|q: Reason| after.reasons[m].contains(q) <==> v.reasons[m].contains(q) by {
            if let Reason::Read(k) = q {
                if v.feeds(k, m as u32) && v.moved(from, k) {
                    v.lemma_reach_step(from, k, m as u32);
                }
            }
        }
        assert(after.reasons[m] =~= v.reasons[m]);
    }
    assert(after.reasons =~= v.reasons);
    assert(v.newly_stale(from) =~= Set::<u32>::empty());
}

/// The changed node is not itself marked, unless it reads itself.
pub proof fn law_change_spares_its_source(v: LedgerView, from: u32)
    requires
        v.sane(),
        from < v.n(),
        !v.reaches(from, from),
    ensures
        v.changed(from).reasons[from as int] == v.reasons[from as int],
{
    let after = v.changed(from);
    assert forall|q: Reason|
        after.reasons[from as int].contains(q) <==> v.reasons[from as int].contains(q) by {
        if let Reason::Read(k) = q {
            if v.feeds(k, from) && v.moved(from, k) {
                v.lemma_reach_step(from, k, from);
            }
        }
    }
    assert(after.reasons[from as int] =~= v.reasons[from as int]);
}

/// A second change of the same node finds nothing new to mark.
pub proof fn law_second_change_marks_nothing_new(v: LedgerView, from: u32)
    requires
        v.sane(),
        from < v.n(),
    ensures
        v.changed(from).newly_stale(from) == Set::<u32>::empty(),
        v.changed(from).changed(from).reasons == v.changed(from).reasons,
{
    let once = v.changed(from);
    let twice = once.changed(from);
    law_change_marks_dependents_and_nothing_else(v, from);
    crate::track::invalidate::lemma_reach_by_reads(v, once);
    assert forall|m: u32| !once.newly_stale(from).contains(m) by {
        if once.reaches(from, m) {
            let k = once.lemma_reach_last(from, m);
            assert(once.is_stale(m));
        }
    }
    assert(once.newly_stale(from) =~= Set::<u32>::empty());
    assert forall|m: int| 0 <= m < v.n() implies (#[trigger] twice.reasons[m]) == once.reasons[m] by {
        assert(twice.reasons[m] =~= once.reasons[m]);
    }
    assert(twice.reasons =~= once.reasons);
}

/// A node that owes a value of its own stays stale whatever its dependencies turn
/// out to be.
pub proof fn law_no_equality_below_retracts_a_debt(v: LedgerView, from: u32, m: u32)
    requires
        v.sane(),
        m < v.n(),
        v.reasons[m as int].contains(Reason::Owed),
    ensures
        v.unchanged(from).reasons[m as int].contains(Reason::Owed),
        v.unchanged(from).is_stale(m),
        !v.freed(from, m),
{
    assert(v.unchanged(from).reasons[m as int].contains(Reason::Owed));
    if v.freed(from, m) {
        let steps = choose|steps: nat| v.freed_within(from, steps, m);
        assert(v.freed_within(from, steps, m));
    }
}

/// An equal recompute frees exactly the nodes that have no other reason left: the
/// rest of the stale set stays stale, and nothing becomes stale.
pub proof fn law_unchanged_frees_exactly_the_excused(v: LedgerView, from: u32)
    requires
        v.sane(),
    ensures
        forall|m: u32|
            m < v.n() ==> (#[trigger] v.unchanged(from).is_stale(m) <==> v.is_stale(m) && !v.freed(
                from,
                m,
            )),
{
    let after = v.unchanged(from);
    assert forall|m: u32| m < v.n() implies (#[trigger] after.is_stale(m) <==> v.is_stale(m)
        && !v.freed(from, m)) by {
        if after.is_stale(m) {
            let q = lemma_some(after.reasons[m as int]);
            assert(v.reasons[m as int].contains(q));
            if v.freed(from, m) {
                let steps = choose|steps: nat| v.freed_within(from, steps, m);
                assert(v.freed_within(from, steps, m));
                if let Reason::Read(k) = q {
                    if k != from {
                        assert(v.freed_within(from, (steps - 1) as nat, k));
                    }
                }
            }
        } else if v.is_stale(m) {
            lemma_nothing_left_is_freed(v, from, m);
        }
    }
}

/// A stale node all of whose reasons are taken back is freed: the rounds that freed
/// its dependencies, and one more, free it.
proof fn lemma_nothing_left_is_freed(v: LedgerView, from: u32, m: u32)
    requires
        v.sane(),
        m < v.n(),
        v.is_stale(m),
        v.unchanged(from).reasons[m as int] == Set::<Reason>::empty(),
    ensures
        v.freed(from, m),
{
    let after = v.unchanged(from);
    let below = Set::new(|k: u32| v.reasons[m as int].contains(Reason::Read(k)) && k != from);
    assert forall|k: u32| below.contains(k) implies k < v.n() && v.freed(from, k) by {
        let q = Reason::Read(k);
        assert(v.reasons[m as int].contains(q));
        assert(!after.reasons[m as int].contains(q));
    }
    crate::node_set::lemma_few_below(below, v.n());
    let steps = lemma_rounds_for_all(v, from, below);
    assert forall|r: Reason|
        #![trigger v.reasons[m as int].contains(r)]
        v.reasons[m as int].contains(r) implies match r {
        Reason::Read(k) => v.feeds(k, m) && (k == from || v.freed_within(from, steps, k)),
        Reason::Owed => false,
    } by {
        assert(!after.reasons[m as int].contains(r));
        if let Reason::Read(k) = r {
            if k != from {
                assert(below.contains(k));
            }
        }
    }
    assert(v.freed_within(from, steps + 1, m));
}

/// Finitely many freed nodes are all freed within some number of rounds.
proof fn lemma_rounds_for_all(v: LedgerView, from: u32, set: Set<u32>) -> (steps: nat)
    requires
        set.finite(),
        forall|k: u32| set.contains(k) ==> v.freed(from, k),
    ensures
        forall|k: u32| set.contains(k) ==> #[trigger] v.freed_within(from, steps, k),
    decreases set.len(),
{
    if set =~= Set::<u32>::empty() {
        0
    } else {
        let k = lemma_some(set);
        let rest = lemma_rounds_for_all(v, from, set.remove(k));
        let own = choose|steps: nat| v.freed_within(from, steps, k);
        let steps = if rest > own { rest } else { own };
        assert forall|x: u32| set.contains(x) implies #[trigger] v.freed_within(from, steps, x) by {
            if x == k {
                v.lemma_freed_grows(from, own, steps, k);
            } else {
                assert(set.remove(k).contains(x));
                v.lemma_freed_grows(from, rest, steps, x);
            }
        }
        steps
    }
}

/// A node reached through a dependency that has neither recomputed equal nor been
/// freed stays stale: every path a change came by must cut off.
pub proof fn law_every_changed_path_must_cut_off(v: LedgerView, from: u32, m: u32, k: u32)
    requires
        v.sane(),
        m < v.n(),
        v.reasons[m as int].contains(Reason::Read(k)),
        k != from,
        !v.freed(from, k),
    ensures
        v.unchanged(from).is_stale(m),
{
    assert(v.unchanged(from).reasons[m as int].contains(Reason::Read(k)));
}

/// What node `m` reads, directly or through others.
pub open spec fn ancestors(v: LedgerView, m: u32) -> Set<u32> {
    Set::new(|k: u32| k < v.n() && v.reaches(k, m))
}

/// Whether no node that a change of `from` reaches, `from` among them, reads itself, directly
/// or through others.
pub open spec fn acyclic_from(v: LedgerView, from: u32) -> bool {
    forall|m: u32| #[trigger] v.moved(from, m) ==> !v.reaches(m, m)
}

/// Where nothing reads itself, what reads a node has more below it than the node has.
proof fn lemma_more_below(v: LedgerView, from: u32, k: u32, m: u32)
    requires
        v.sane(),
        acyclic_from(v, from),
        v.feeds(k, m),
        v.moved(from, k),
    ensures
        ancestors(v, k).len() < ancestors(v, m).len(),
{
    let below = ancestors(v, k);
    let above = ancestors(v, m);
    crate::node_set::lemma_few_below(below, v.n());
    crate::node_set::lemma_few_below(above, v.n());
    assert(k < v.n()) by {
        if !v.reads[m as int].contains(k) {
            let d = choose|d: int|
                0 <= d < v.running.len() && (#[trigger] v.running[d]).node == m
                    && v.running[d].seen.contains(k);
            assert(v.running[d].seen.contains(k));
        }
    }
    v.lemma_reach_step(k, k, m);
    assert forall|x: u32| below.insert(k).contains(x) implies above.contains(x) by {
        if x != k {
            v.lemma_reach_step(x, k, m);
        }
    }
    assert(!below.contains(k));
    vstd::set_lib::lemma_len_subset(below.insert(k), above);
}

/// Where none of its dependents was stale and none reads itself, a change followed by the
/// news that the node has the value it had before leaves everything as it was: the one
/// takes back exactly what the other marked.
pub proof fn law_equal_recompute_takes_back_the_change(v: LedgerView, from: u32)
    requires
        v.sane(),
        from < v.n(),
        acyclic_from(v, from),
        forall|m: u32| v.reaches(from, m) ==> !v.is_stale(m),
    ensures
        v.changed(from).unchanged(from).reasons == v.reasons,
        v.changed(from).freed_set(from) == v.newly_stale(from),
{
    let marked = v.changed(from);
    let back = marked.unchanged(from);
    law_change_marks_dependents_and_nothing_else(v, from);
    crate::track::invalidate::lemma_reach_by_reads(v, marked);
    crate::track::invalidate::lemma_feeds_by_reads(marked, v);
    assert forall|m: u32| v.reaches(from, m) <==> marked.freed(from, m) by {
        if v.reaches(from, m) {
            lemma_ranked_freed(v, from, m);
            assert(marked.freed_within(from, ancestors(v, m).len() + 1, m));
        }
        if marked.freed(from, m) {
            let steps = choose|steps: nat| marked.freed_within(from, steps, m);
            lemma_freed_is_reached(marked, from, steps, m);
        }
    }
    assert forall|m: int| 0 <= m < v.n() implies (#[trigger] back.reasons[m]) == v.reasons[m] by {
        let at = m as u32;
        assert forall|q: Reason| back.reasons[m].contains(q) <==> v.reasons[m].contains(q) by {
            if let Reason::Read(k) = q {
                if v.feeds(k, at) && v.moved(from, k) {
                    v.lemma_reach_step(from, k, at);
                    assert(!v.is_stale(at));
                    assert(!v.reasons[m].contains(q));
                }
            }
        }
        assert(back.reasons[m] =~= v.reasons[m]);
    }
    assert(back.reasons =~= v.reasons);
    assert(marked.freed_set(from) =~= v.newly_stale(from));
}

/// A second retraction of the same node frees nothing and takes nothing more back.
pub proof fn law_second_retraction_frees_nothing(v: LedgerView, from: u32)
    requires
        v.sane(),
    ensures
        v.unchanged(from).freed_set(from) == Set::<u32>::empty(),
        v.unchanged(from).unchanged(from) == v.unchanged(from),
{
    let once = v.unchanged(from);
    let twice = once.unchanged(from);
    crate::track::invalidate::lemma_feeds_by_reads(once, v);
    assert forall|m: u32| !once.freed(from, m) by {
        if once.freed(from, m) {
            let steps = choose|steps: nat| once.freed_within(from, steps, m);
            lemma_freed_once(v, from, steps, m);
        }
    }
    assert(once.freed_set(from) =~= Set::<u32>::empty());
    assert forall|m: int| 0 <= m < v.n() implies (#[trigger] twice.reasons[m]) == once.reasons[m] by {
        assert(twice.reasons[m] =~= once.reasons[m]);
    }
    assert(twice =~~= once);
}

/// What one retraction left, it left for a reason that a second does not take back either.
proof fn lemma_freed_once(v: LedgerView, from: u32, steps: nat, m: u32)
    requires
        v.sane(),
    ensures
        !v.unchanged(from).freed_within(from, steps, m),
    decreases steps,
{
    let once = v.unchanged(from);
    crate::track::invalidate::lemma_feeds_by_reads(once, v);
    if once.freed_within(from, steps, m) {
        let q = lemma_some(once.reasons[m as int]);
        if let Reason::Read(k) = q {
            if k != from {
                lemma_freed_once(v, from, (steps - 1) as nat, k);
            }
        }
    }
}

/// What an equal recompute frees reads the node, directly or through others.
proof fn lemma_freed_is_reached(v: LedgerView, from: u32, steps: nat, m: u32)
    requires
        v.freed_within(from, steps, m),
    ensures
        v.reaches(from, m),
    decreases steps,
{
    let q = lemma_some(v.reasons[m as int]);
    if let Reason::Read(k) = q {
        assert(v.feeds(k, m));
        if k != from {
            lemma_freed_is_reached(v, from, (steps - 1) as nat, k);
        }
        v.lemma_reach_step(from, k, m);
    }
}

/// Every dependent is freed, in as many rounds as it has nodes below it.
proof fn lemma_ranked_freed(v: LedgerView, from: u32, m: u32)
    requires
        v.sane(),
        from < v.n(),
        acyclic_from(v, from),
        forall|m: u32| v.reaches(from, m) ==> !v.is_stale(m),
        v.reaches(from, m),
    ensures
        v.changed(from).freed_within(from, ancestors(v, m).len() + 1, m),
    decreases ancestors(v, m).len(),
{
    let marked = v.changed(from);
    let last = v.lemma_reach_last(from, m);
    assert(m < v.n());
    law_change_marks_dependents_and_nothing_else(v, from);
    assert(marked.is_stale(m));
    assert(!v.is_stale(m));
    crate::track::invalidate::lemma_feeds_by_reads(marked, v);
    assert forall|r: Reason|
        #![trigger marked.reasons[m as int].contains(r)]
        marked.reasons[m as int].contains(r) implies match r {
        Reason::Read(k) => marked.feeds(k, m) && (k == from || marked.freed_within(
            from,
            ancestors(v, m).len(),
            k,
        )),
        Reason::Owed => false,
    } by {
        assert(!v.reasons[m as int].contains(r));
        if let Reason::Read(k) = r {
            assert(v.feeds(k, m));
            if k != from {
                lemma_more_below(v, from, k, m);
                lemma_ranked_freed(v, from, k);
                marked.lemma_freed_grows(from, ancestors(v, k).len() + 1, ancestors(v, m).len(), k);
            }
        }
    }
}

/// A read with nothing running belongs to nobody.
pub proof fn law_read_outside_any_run_belongs_to_nobody(v: LedgerView, k: u32)
    requires
        v.running.len() == 0,
    ensures
        v.observed(k) == v,
{
}

/// A read belongs to the innermost run and to no other.
pub proof fn law_read_belongs_to_the_innermost_run(v: LedgerView, outer: u32, inner: u32, k: u32)
    requires
        v.sane(),
        outer < v.n(),
        inner < v.n(),
        k < v.n(),
        outer != inner,
    ensures
        ({
            let after = v.opened(outer).opened(inner).observed(k).closed(false).closed(false);
            &&& after.reads[inner as int] == set![k]
            &&& after.reads[outer as int] == v.reads[outer as int]
            &&& after.running == v.running
        }),
{
    let a = v.opened(outer).opened(inner);
    let b = a.observed(k);
    assert(b.running.last().seen =~= set![k]);
    assert(set![k].contains(k));
    let c = b.closed(false);
    assert(c.reads[inner as int] == set![k]);
    assert(c.running =~= v.opened(outer).running);
    assert(c.closed(false).running =~= v.running);
}

/// The read set is logged anew on every run: what the node read before is gone.
pub proof fn law_reads_are_relogged_on_every_run(v: LedgerView, i: u32, k: u32)
    requires
        v.sane(),
        i < v.n(),
        k < v.n(),
    ensures
        v.opened(i).observed(k).closed(false).reads == v.reads.update(i as int, set![k]),
        !v.opened(i).observed(k).closed(false).is_stale(i),
{
    let b = v.opened(i).observed(k);
    assert(b.running.last().seen =~= set![k]);
    assert(set![k].contains(k));
    assert(b.closed(false).reads =~= v.reads.update(i as int, set![k]));
}

/// A run that reads nothing keeps the edges of the last run that did, and a run cut
/// short commits nothing whatever it read.
pub proof fn law_an_empty_or_cut_run_keeps_the_edges(v: LedgerView, i: u32, k: u32)
    requires
        v.sane(),
        i < v.n(),
    ensures
        v.opened(i).closed(false) == v.cleared(i),
        v.opened(i).observed(k).closed(true) == v.cleared(i),
{
    assert(v.opened(i).closed(false).running =~= v.running);
    assert(v.opened(i).observed(k).closed(true).running =~= v.running);
}

/// A change of what a node has read in the run it is in leaves the node stale, though the
/// run cleared it on entry. It does so on the node's first run too, and however the run
/// ends.
pub proof fn law_change_during_a_run_is_not_swallowed(
    v: LedgerView,
    i: u32,
    k: u32,
    cut_short: bool,
)
    requires
        v.sane(),
        i < v.n(),
        k < v.n(),
    ensures
        v.opened(i).observed(k).changed(k).closed(cut_short).is_stale(i),
{
    let inside = v.opened(i).observed(k);
    let top = inside.running.len() - 1;
    assert(inside.running[top].node == i && inside.running[top].seen.contains(k));
    assert(inside.sees(k, i));
    assert(inside.feeds(k, i));
    let after = inside.changed(k);
    assert(after.reasons[i as int].contains(Reason::Read(k)));
    assert(after.closed(cut_short).reasons[i as int].contains(Reason::Read(k)));
}

/// So does a change of what the node read on its last run, whether or not the run it is
/// in has read it again.
pub proof fn law_change_of_an_earlier_read_is_not_swallowed(
    v: LedgerView,
    i: u32,
    k: u32,
    cut_short: bool,
)
    requires
        v.sane(),
        i < v.n(),
        k < v.n(),
        v.edge(k, i),
    ensures
        v.opened(i).changed(k).closed(cut_short).is_stale(i),
{
    let inside = v.opened(i);
    assert(inside.feeds(k, i));
    let after = inside.changed(k);
    assert(after.reasons[i as int].contains(Reason::Read(k)));
    assert(after.closed(cut_short).reasons[i as int].contains(Reason::Read(k)));
}

/// A change reaches a run that is still open through what the run has read: where an
/// open run of `i` has read `k` and the change is a change below `k`, `i` is stale
/// afterwards.
pub proof fn law_change_reaches_every_open_run(v: LedgerView, from: u32, d: int, k: u32)
    requires
        v.sane(),
        from < v.n(),
        0 <= d < v.running.len(),
        v.running[d].seen.contains(k),
        v.moved(from, k),
    ensures
        v.changed(from).reasons[v.running[d].node as int].contains(Reason::Read(k)),
        v.changed(from).is_stale(v.running[d].node),
{
    let i = v.running[d].node;
    assert(v.sees(k, i));
    assert(v.feeds(k, i));
    assert(v.changed(from).reasons[i as int].contains(Reason::Read(k)));
}

/// Cutting runs back is closing them one by one as cut short, innermost first: nothing is
/// committed, and no node is marked or cleared.
pub proof fn law_cutting_back_is_closing_in_turn(v: LedgerView, depth: nat)
    ensures
        v.running.len() > depth ==> v.cut_back(depth) == v.closed(true).cut_back(depth),
        v.running.len() <= depth ==> v.cut_back(depth) == v,
        v.cut_back(depth).reads == v.reads,
        v.cut_back(depth).reasons == v.reasons,
        v.cut_back(depth).running == v.running.take(if depth < v.running.len() {
            depth as int
        } else {
            v.running.len() as int
        }),
{
    if v.running.len() > depth {
        assert(v.cut_back(depth) =~~= v.closed(true).cut_back(depth));
    } else {
        assert(v.running.take(v.running.len() as int) =~= v.running);
    }
}

/// Subscribing again changes nothing.
pub proof fn law_subscribing_twice_is_subscribing_once(v: LedgerView, waker: crate::wake::WakerId)
    ensures
        v.subscribed(waker).subscribed(waker) == v.subscribed(waker),
{
    if !v.subscribers.contains(waker) {
        let after = v.subscribed(waker);
        assert(after.subscribers[v.subscribers.len() as int] == waker);
    }
}

/// There is one plan: two runs over the same graph schedule the same way.
pub proof fn law_the_plan_is_determined(v: LedgerView, a: Seq<u32>, b: Seq<u32>)
    requires
        v.is_plan(a),
        v.is_plan(b),
    ensures
        a == b,
{
    let short = if a.len() <= b.len() { a.len() } else { b.len() };
    lemma_plans_agree(v, a, b, short as int);
    if a.len() < b.len() {
        assert(b.take(a.len() as int) =~= a);
        assert(v.ready(b.take(a.len() as int), b[a.len() as int]));
        assert(false);
    }
    if b.len() < a.len() {
        assert(a.take(b.len() as int) =~= b);
        assert(v.ready(a.take(b.len() as int), a[b.len() as int]));
        assert(false);
    }
    assert(a =~= b);
}

proof fn lemma_plans_agree(v: LedgerView, a: Seq<u32>, b: Seq<u32>, i: int)
    requires
        v.is_plan(a),
        v.is_plan(b),
        0 <= i <= a.len(),
        i <= b.len(),
    ensures
        forall|j: int| 0 <= j < i ==> a[j] == b[j],
    decreases i,
{
    if i > 0 {
        lemma_plans_agree(v, a, b, i - 1);
        assert(a.take(i - 1) =~= b.take(i - 1));
        assert(v.ready(a.take(i - 1), a[i - 1]));
        assert(v.ready(b.take(i - 1), b[i - 1]));
    }
}

/// A schedule lists every stale node once, dependencies before dependents.
pub proof fn law_dependencies_come_before_dependents(v: LedgerView, order: Seq<u32>)
    requires
        v.is_plan(order),
        order.to_set() == v.stale_set(),
    ensures
        order.no_duplicates(),
        forall|k: u32, m: u32|
            v.stale_set().contains(k) && v.stale_set().contains(m) && (#[trigger] v.edge(k, m))
                ==> order.index_of(k) < order.index_of(m),
{
    v.lemma_greedy(order);
    assert forall|k: u32, m: u32|
        v.stale_set().contains(k) && v.stale_set().contains(m) && (#[trigger] v.edge(
            k,
            m,
        )) implies order.index_of(k) < order.index_of(m) by {
        assert(order.to_set().contains(m));
        assert(v.waits_on(m).contains(k));
        v.lemma_done_waits_on_done(order, m, k);
    }
}

/// Whether node `to` reads node `from`, directly or through others, by committed reads of
/// nodes of `set` alone.
pub open spec fn reaches_within(v: LedgerView, set: Set<u32>, from: u32, to: u32) -> bool {
    exists|p: Seq<u32>| #[trigger]
        v.at_rest().leads(p, from, to) && forall|i: int|
            0 <= i < p.len() ==> set.contains(#[trigger] p[i])
}

/// One step first.
proof fn lemma_step_then_reach(v: LedgerView, set: Set<u32>, m: u32, d: u32, t: u32)
    requires
        v.edge(m, d),
        set.contains(m),
        set.contains(d),
        t == d || reaches_within(v, set, d, t),
    ensures
        reaches_within(v, set, m, t),
{
    let rest = v.at_rest();
    assert(rest.feeds(m, d));
    if t == d {
        let p = seq![m, d];
        assert(rest.leads(p, m, t));
    } else {
        let q = choose|p: Seq<u32>| #[trigger]
            rest.leads(p, d, t) && forall|i: int| 0 <= i < p.len() ==> set.contains(#[trigger] p[i]);
        let p = seq![m] + q;
        assert forall|i: int| 0 <= i < p.len() - 1 implies #[trigger] rest.feeds(p[i], p[i + 1]) by {
            if i > 0 {
                assert(rest.feeds(q[i - 1], q[i - 1 + 1]));
            }
        }
        assert forall|i: int| 0 <= i < p.len() implies set.contains(#[trigger] p[i]) by {
            if i > 0 {
                assert(set.contains(q[i - 1]));
            }
        }
        assert(rest.leads(p, m, t));
    }
}

/// The last step into `m`.
proof fn lemma_within_last(v: LedgerView, set: Set<u32>, c: u32, m: u32) -> (k: u32)
    requires
        reaches_within(v, set, c, m),
    ensures
        v.edge(k, m),
        set.contains(k),
        set.contains(m),
        k == c || reaches_within(v, set, c, k),
{
    let rest = v.at_rest();
    let p = choose|p: Seq<u32>| #[trigger]
        rest.leads(p, c, m) && forall|i: int| 0 <= i < p.len() ==> set.contains(#[trigger] p[i]);
    let k = p[p.len() - 2];
    assert(rest.feeds(p[p.len() - 2], p[p.len() - 2 + 1]));
    assert(set.contains(p[p.len() - 1]));
    if p.len() > 2 {
        let q = p.drop_last();
        assert forall|i: int| 0 <= i < q.len() - 1 implies #[trigger] rest.feeds(q[i], q[i + 1]) by {
            assert(rest.feeds(p[i], p[i + 1]));
        }
        assert forall|i: int| 0 <= i < q.len() implies set.contains(#[trigger] q[i]) by {
            assert(set.contains(p[i]));
        }
        assert(rest.leads(q, c, k));
    }
    k
}

/// Polling the nodes that no stale node reads pulls the whole stale set: every stale
/// node is one of them or is read by one of them, directly or through other stale nodes.
pub proof fn law_polling_the_tops_pulls_everything_stale(v: LedgerView, order: Seq<u32>, m: u32)
    requires
        v.is_plan(order),
        order.to_set() == v.stale_set(),
        v.stale_set().contains(m),
    ensures
        exists|t: u32|
            #![trigger v.is_top(t)]
            v.is_top(t) && v.stale_set().contains(t) && (t == m || reaches_within(
                v,
                v.stale_set(),
                m,
                t,
            )),
    decreases order.len() - order.index_of(m),
{
    assert(order.to_set().contains(m));
    if !v.is_top(m) {
        let d = choose|d: u32| #[trigger] v.edge(m, d) && v.stale_set().contains(d);
        law_dependencies_come_before_dependents(v, order);
        assert(order.to_set().contains(d));
        law_polling_the_tops_pulls_everything_stale(v, order, d);
        let t = choose|t: u32|
            #![trigger v.is_top(t)]
            v.is_top(t) && v.stale_set().contains(t) && (t == d || reaches_within(
                v,
                v.stale_set(),
                d,
                t,
            ));
        lemma_step_then_reach(v, v.stale_set(), m, d, t);
        assert(v.is_top(t));
    }
}

/// Whether every node of `knot` is stale and reads another node of `knot`.
pub open spec fn is_knot(v: LedgerView, knot: Set<u32>) -> bool {
    forall|m: u32|
        #[trigger] knot.contains(m) ==> v.stale_set().contains(m) && exists|k: u32|
            #[trigger] v.edge(k, m) && knot.contains(k)
}

/// What a plan leaves out is a knot.
pub proof fn law_what_cannot_be_ordered_waits_on_itself(v: LedgerView, order: Seq<u32>)
    requires
        v.is_plan(order),
    ensures
        is_knot(v, v.stale_set().difference(order.to_set())),
{
    let stuck = v.stale_set().difference(order.to_set());
    assert forall|m: u32| #[trigger] stuck.contains(m) implies v.stale_set().contains(m) && exists|
        k: u32,
    | #[trigger] v.edge(k, m) && stuck.contains(k) by {
        assert(!v.ready(order, m));
        let k = choose|k: u32| #[trigger] v.waits_on(m).contains(k) && !order.contains(k);
        assert(v.edge(k, m));
        assert(stuck.contains(k));
    }
}

/// The stale set is ordered whole exactly when it holds no knot.
pub proof fn law_a_schedule_exists_unless_something_reads_itself(v: LedgerView, order: Seq<u32>)
    requires
        v.is_plan(order),
    ensures
        order.to_set() == v.stale_set() <==> !(exists|knot: Set<u32>|
            knot != Set::<u32>::empty() && #[trigger] is_knot(v, knot)),
{
    v.lemma_greedy(order);
    let stuck = v.stale_set().difference(order.to_set());
    law_what_cannot_be_ordered_waits_on_itself(v, order);
    assert forall|m: u32| order.to_set().contains(m) implies v.stale_set().contains(m) by {
        let i = choose|i: int| 0 <= i < order.len() && order[i] == m;
    }
    if order.to_set() == v.stale_set() {
        assert forall|knot: Set<u32>| #[trigger] is_knot(v, knot) implies knot
            == Set::<u32>::empty() by {
            assert forall|m: u32| !knot.contains(m) by {
                if knot.contains(m) {
                    assert(order.to_set().contains(m));
                    lemma_no_knot_in_order(v, order, knot, order.index_of(m));
                }
            }
            assert(knot =~= Set::<u32>::empty());
        }
    } else {
        if stuck =~= Set::<u32>::empty() {
            assert forall|m: u32| v.stale_set().contains(m) implies order.to_set().contains(m) by {
                assert(!stuck.contains(m));
            }
            assert(order.to_set() =~= v.stale_set());
        }
        assert(is_knot(v, stuck));
    }
}

proof fn lemma_no_knot_in_order(v: LedgerView, order: Seq<u32>, knot: Set<u32>, i: int)
    requires
        v.is_plan(order),
        is_knot(v, knot),
        0 <= i < order.len(),
    ensures
        !knot.contains(order[i]),
    decreases i,
{
    if knot.contains(order[i]) {
        let m = order[i];
        let k = choose|k: u32| #[trigger] v.edge(k, m) && knot.contains(k);
        assert(v.waits_on(m).contains(k));
        assert(v.ready(order.take(i), m));
        assert(order.take(i).contains(k));
        let j = choose|j: int| 0 <= j < order.take(i).len() && order.take(i)[j] == k;
        assert(order[j] == k);
        lemma_no_knot_in_order(v, order, knot, j);
    }
}

/// The walk from `m` that goes back, `j` times, to a node of `knot` that the last
/// one reads.
spec fn back(v: LedgerView, knot: Set<u32>, m: u32, j: nat) -> u32
    decreases j,
{
    if j == 0 {
        m
    } else {
        let last = back(v, knot, m, (j - 1) as nat);
        choose|k: u32| #[trigger] v.edge(k, last) && knot.contains(k)
    }
}

proof fn lemma_back_stays(v: LedgerView, knot: Set<u32>, m: u32, j: nat)
    requires
        is_knot(v, knot),
        knot.contains(m),
    ensures
        knot.contains(back(v, knot, m, j)),
        v.edge(back(v, knot, m, j + 1), back(v, knot, m, j)),
    decreases j,
{
    if j > 0 {
        lemma_back_stays(v, knot, m, (j - 1) as nat);
    }
    let last = back(v, knot, m, j);
    assert(exists|k: u32| #[trigger] v.edge(k, last) && knot.contains(k));
}

/// Whether node `m` is on a cycle of nodes of `set`, or past one: some node of `set` reads
/// itself through others, and is `m` or is read by it, within `set` throughout.
#[verifier::opaque]
pub open spec fn past_a_cycle(v: LedgerView, set: Set<u32>, m: u32) -> bool {
    exists|c: u32| #[trigger]
        reaches_within(v, set, c, c) && (c == m || reaches_within(v, set, c, m))
}

/// Every node of a knot is on a cycle within the knot or past one.
pub proof fn law_a_knot_holds_a_cycle(v: LedgerView, knot: Set<u32>, m: u32)
    requires
        v.sane(),
        is_knot(v, knot),
        knot.contains(m),
    ensures
        past_a_cycle(v, knot, m),
{
    assert forall|x: u32| knot.contains(x) implies x < v.n() by {
        assert(v.stale_set().contains(x));
    }
    crate::node_set::lemma_few_below(knot, v.n());
    let walk = Seq::new(knot.len() + 1, |j: int| back(v, knot, m, j as nat));
    assert forall|j: int| 0 <= j < walk.len() implies knot.contains(#[trigger] walk[j]) by {
        lemma_back_stays(v, knot, m, j as nat);
    }
    if walk.no_duplicates() {
        walk.unique_seq_to_set();
        assert(walk.to_set().subset_of(knot)) by {
            assert forall|x: u32| walk.to_set().contains(x) implies knot.contains(x) by {
                let j = choose|j: int| 0 <= j < walk.len() && walk[j] == x;
                assert(knot.contains(walk[j]));
            }
        }
        vstd::set_lib::lemma_len_subset(walk.to_set(), knot);
        assert(false);
    }
    let (i, j) = choose|i: int, j: int|
        0 <= i < walk.len() && 0 <= j < walk.len() && i != j && #[trigger] walk[i]
            == #[trigger] walk[j];
    let (low, high) = if i < j { (i, j) } else { (j, i) };
    assert forall|x: int| 0 <= x < walk.len() - 1 implies v.edge(walk[x + 1], #[trigger] walk[x]) by {
        lemma_back_stays(v, knot, m, x as nat);
    }
    lemma_backwards(v, knot, walk, low, high);
    assert(walk[0] == m);
    if low > 0 {
        lemma_backwards(v, knot, walk, 0, low);
    }
    reveal(past_a_cycle);
    assert(reaches_within(v, knot, walk[low], walk[low]));
}

/// A walk from reader to read, turned round, is a path.
proof fn lemma_backwards(v: LedgerView, knot: Set<u32>, walk: Seq<u32>, low: int, high: int)
    requires
        0 <= low < high < walk.len(),
        forall|x: int| 0 <= x < walk.len() ==> knot.contains(#[trigger] walk[x]),
        forall|x: int| 0 <= x < walk.len() - 1 ==> v.edge(walk[x + 1], #[trigger] walk[x]),
    ensures
        reaches_within(v, knot, walk[high], walk[low]),
{
    let p = Seq::new((high - low + 1) as nat, |x: int| walk[high - x]);
    let rest = v.at_rest();
    assert forall|x: int| 0 <= x < p.len() - 1 implies #[trigger] rest.feeds(p[x], p[x + 1]) by {
        assert(v.edge(walk[high - x - 1 + 1], walk[high - x - 1]));
    }
    assert forall|i: int| 0 <= i < p.len() implies knot.contains(#[trigger] p[i]) by {
        assert(knot.contains(walk[high - i]));
    }
    assert(rest.leads(p, walk[high], walk[low]));
}

/// A path that stays within a set stays within a larger one.
proof fn lemma_within_more(v: LedgerView, few: Set<u32>, many: Set<u32>, a: u32, b: u32)
    requires
        few.subset_of(many),
        reaches_within(v, few, a, b),
    ensures
        reaches_within(v, many, a, b),
{
    let p = choose|p: Seq<u32>| #[trigger]
        v.at_rest().leads(p, a, b) && forall|i: int|
            0 <= i < p.len() ==> few.contains(#[trigger] p[i]);
    assert forall|i: int| 0 <= i < p.len() implies many.contains(#[trigger] p[i]) by {
        assert(few.contains(p[i]));
    }
    assert(v.at_rest().leads(p, a, b));
}

/// What is past a cycle within a set is past one within a larger set.
proof fn lemma_past_more(v: LedgerView, few: Set<u32>, many: Set<u32>, m: u32)
    requires
        few.subset_of(many),
        past_a_cycle(v, few, m),
    ensures
        past_a_cycle(v, many, m),
{
    reveal(past_a_cycle);
    let c = choose|c: u32| #[trigger]
        reaches_within(v, few, c, c) && (c == m || reaches_within(v, few, c, m));
    lemma_within_more(v, few, many, c, c);
    if c != m {
        lemma_within_more(v, few, many, c, m);
    }
    assert(reaches_within(v, many, c, c));
}

/// What is on or past a cycle reads something that is.
proof fn lemma_past_goes_back(v: LedgerView, set: Set<u32>, m: u32) -> (k: u32)
    requires
        past_a_cycle(v, set, m),
    ensures
        set.contains(m),
        v.edge(k, m),
        past_a_cycle(v, set, k),
{
    reveal(past_a_cycle);
    let c = choose|c: u32| #[trigger]
        reaches_within(v, set, c, c) && (c == m || reaches_within(v, set, c, m));
    assert(reaches_within(v, set, c, m));
    let k = lemma_within_last(v, set, c, m);
    assert(reaches_within(v, set, c, c));
    k
}

/// What is reported as a cycle is exactly the stale nodes on or past a cycle of stale
/// reads.
pub proof fn law_the_report_is_what_is_on_or_past_a_cycle(v: LedgerView, order: Seq<u32>, m: u32)
    requires
        v.sane(),
        v.is_plan(order),
    ensures
        v.stale_set().difference(order.to_set()).contains(m) <==> past_a_cycle(
            v,
            v.stale_set(),
            m,
        ),
{
    let stale = v.stale_set();
    if stale.difference(order.to_set()).contains(m) {
        lemma_left_out_is_past_a_cycle(v, order, m);
    }
    if past_a_cycle(v, stale, m) {
        lemma_past_a_cycle_is_left_out(v, order, m);
    }
}

proof fn lemma_left_out_is_past_a_cycle(v: LedgerView, order: Seq<u32>, m: u32)
    requires
        v.sane(),
        v.is_plan(order),
        v.stale_set().difference(order.to_set()).contains(m),
    ensures
        past_a_cycle(v, v.stale_set(), m),
{
    let stuck = v.stale_set().difference(order.to_set());
    law_what_cannot_be_ordered_waits_on_itself(v, order);
    law_a_knot_holds_a_cycle(v, stuck, m);
    lemma_past_more(v, stuck, v.stale_set(), m);
}

proof fn lemma_past_a_cycle_is_left_out(v: LedgerView, order: Seq<u32>, m: u32)
    requires
        v.is_plan(order),
        past_a_cycle(v, v.stale_set(), m),
    ensures
        v.stale_set().contains(m),
        !order.contains(m),
{
    let knot = Set::new(|x: u32| past_a_cycle(v, v.stale_set(), x));
    let last = lemma_past_goes_back(v, v.stale_set(), m);
    lemma_what_is_past_is_a_knot(v);
    assert(knot.contains(m));
    if order.contains(m) {
        let i = choose|i: int| 0 <= i < order.len() && order[i] == m;
        lemma_no_knot_in_order(v, order, knot, i);
    }
}

proof fn lemma_what_is_past_is_a_knot(v: LedgerView)
    ensures
        is_knot(v, Set::new(|x: u32| past_a_cycle(v, v.stale_set(), x))),
{
    let stale = v.stale_set();
    let knot = Set::new(|x: u32| past_a_cycle(v, stale, x));
    assert forall|x: u32| #[trigger] knot.contains(x) implies stale.contains(x) && exists|k: u32|
        #[trigger] v.edge(k, x) && knot.contains(k) by {
        let k = lemma_past_goes_back(v, stale, x);
        assert(v.edge(k, x) && knot.contains(k));
    }
}

} // verus!
