//! What each operation makes of a ledger, said of what the ledger holds and of nothing else.

use vstd::prelude::*;

use crate::track::invalidate::lemma_some;
use crate::track::schedule::{Cycle, Schedule};
use crate::track::{ids_of, kept_for, lists, Ledger, LedgerView, NodeId, Reason};
use crate::wake::{Target, WakerId};

verus! {

/// A fresh ledger holds nothing but its number.
pub proof fn law_a_fresh_ledger_is_empty(id: u64)
    ensures
        LedgerView::fresh(id).id == id,
        LedgerView::fresh(id).labels.len() == 0,
        LedgerView::fresh(id).running.len() == 0,
        LedgerView::fresh(id).reads.len() == 0,
        LedgerView::fresh(id).revisions.len() == 0,
        LedgerView::fresh(id).reasons.len() == 0,
        LedgerView::fresh(id).subscribers.len() == 0,
{
}

/// A node is a ledger's own exactly if it carries the ledger's number and the ledger has
/// minted that many.
pub proof fn law_a_ledger_owns_what_it_minted(v: LedgerView, node: NodeId)
    ensures
        v.n() == v.labels.len(),
        v.holds(node) <==> node.owner() == v.id && node.at() < v.labels.len(),
{
}

/// A minted node is the last one, is labelled, and has neither reads nor reasons nor a past.
/// Nothing else moves.
pub proof fn law_a_minted_node_is_new(v: LedgerView, label: &'static str)
    requires
        v.sane(),
    ensures
        ({
            let after = v.minted(label);
            let i = v.labels.len() as int;
            &&& after.labels == v.labels.push(label)
            &&& after.reads.len() == i + 1 && after.reads[i] == Set::<u32>::empty()
            &&& after.reasons.len() == i + 1 && after.reasons[i] == Set::<Reason>::empty()
            &&& after.revisions.len() == i + 1 && after.revisions[i] == 0
            &&& forall|m: int|
                0 <= m < i ==> (#[trigger] after.reads[m]) == v.reads[m] && after.reasons[m]
                    == v.reasons[m] && after.revisions[m] == v.revisions[m]
            &&& after.running == v.running
            &&& after.subscribers == v.subscribers
            &&& after.id == v.id
        }),
{
}

/// A read is seen by the innermost open run, by no other, and by nobody where none is open.
/// Nothing else moves.
pub proof fn law_a_read_is_the_innermost_runs(v: LedgerView, i: u32)
    ensures
        ({
            let after = v.observed(i);
            let d = v.running.len() - 1;
            &&& after.running.len() == v.running.len()
            &&& forall|e: int| 0 <= e < d ==> (#[trigger] after.running[e]) == v.running[e]
            &&& d >= 0 ==> {
                &&& after.running[d].node == v.running[d].node
                &&& after.running[d].revalidating == v.running[d].revalidating
                &&& forall|k: u32| #[trigger]
                    after.running[d].seen.contains(k) <==> v.running[d].seen.contains(k) || k == i
            }
            &&& after.reads == v.reads
            &&& after.reasons == v.reasons
            &&& after.revisions == v.revisions
            &&& after.labels == v.labels
            &&& after.subscribers == v.subscribers
            &&& after.id == v.id
        }),
{
}

/// A run that is opened is the innermost, has seen nothing, and knows whether its node had a
/// reason to run; the node has none from then on. No other node's reasons move, and nothing
/// else does.
pub proof fn law_opening_a_run_takes_the_reasons(v: LedgerView, i: u32)
    requires
        v.sane(),
        i < v.labels.len(),
    ensures
        ({
            let after = v.opened(i);
            let d = v.running.len() as int;
            &&& after.running.len() == d + 1
            &&& forall|e: int| 0 <= e < d ==> (#[trigger] after.running[e]) == v.running[e]
            &&& after.running[d].node == i
            &&& forall|k: u32| !(#[trigger] after.running[d].seen.contains(k))
            &&& after.running[d].revalidating <==> exists|r: Reason| #[trigger]
                v.reasons[i as int].contains(r)
            &&& after.reasons.len() == v.reasons.len()
            &&& forall|r: Reason| !(#[trigger] after.reasons[i as int].contains(r))
            &&& forall|m: int|
                0 <= m < v.reasons.len() && m != i ==> (#[trigger] after.reasons[m]) == v.reasons[m]
            &&& after.reads == v.reads
            &&& after.revisions == v.revisions
            &&& after.labels == v.labels
            &&& after.subscribers == v.subscribers
            &&& after.id == v.id
        }),
{
    if v.reasons[i as int] != Set::<Reason>::empty() {
        let r = lemma_some(v.reasons[i as int]);
        assert(v.reasons[i as int].contains(r));
    }
}

/// A run that is closed is gone. If it was not cut short and saw anything, what it saw is
/// what its node read, all of it and nothing more; otherwise what the node read stands.
/// Nothing else moves: no other node's reads, and no reasons.
pub proof fn law_a_closed_run_commits_what_it_saw(v: LedgerView, cut_short: bool)
    requires
        v.sane(),
    ensures
        ({
            let after = v.closed(cut_short);
            let d = v.running.len() - 1;
            &&& d < 0 ==> after == v
            &&& d >= 0 ==> {
                let top = v.running[d];
                &&& after.running.len() == d
                &&& forall|e: int| 0 <= e < d ==> (#[trigger] after.running[e]) == v.running[e]
                &&& after.reads.len() == v.reads.len()
                &&& forall|m: int|
                    0 <= m < v.reads.len() && m != top.node ==> (#[trigger] after.reads[m])
                        == v.reads[m]
                &&& !cut_short && (exists|k: u32| #[trigger] top.seen.contains(k))
                    ==> after.reads[top.node as int] == top.seen
                &&& cut_short || (forall|k: u32| !(#[trigger] top.seen.contains(k)))
                    ==> after.reads[top.node as int] == v.reads[top.node as int]
            }
            &&& after.reasons == v.reasons
            &&& after.revisions == v.revisions
            &&& after.labels == v.labels
            &&& after.subscribers == v.subscribers
            &&& after.id == v.id
        }),
{
    if v.running.len() > 0 {
        let top = v.running[v.running.len() - 1];
        if forall|k: u32| !(#[trigger] top.seen.contains(k)) {
            assert(top.seen =~= Set::<u32>::empty());
        }
        if v.reads[top.node as int] == top.seen {
            assert(v.reads.update(top.node as int, top.seen) =~= v.reads);
        }
    }
}

/// A node that is marked owes a value, whatever else it had as a reason; no other node's
/// reasons move, and nothing else does.
pub proof fn law_a_marked_node_owes_a_value(v: LedgerView, i: u32)
    requires
        v.sane(),
        i < v.labels.len(),
    ensures
        ({
            let after = v.owing(i);
            &&& after.reasons.len() == v.reasons.len()
            &&& forall|r: Reason| #[trigger]
                after.reasons[i as int].contains(r) <==> v.reasons[i as int].contains(r) || r
                    == Reason::Owed
            &&& forall|m: int|
                0 <= m < v.reasons.len() && m != i ==> (#[trigger] after.reasons[m]) == v.reasons[m]
            &&& after.reads == v.reads
            &&& after.running == v.running
            &&& after.revisions == v.revisions
            &&& after.labels == v.labels
            &&& after.subscribers == v.subscribers
            &&& after.id == v.id
        }),
{
}

/// A node that is cleared has no reason left; no other node's reasons move, and nothing else
/// does.
pub proof fn law_a_cleared_node_has_no_reason(v: LedgerView, i: u32)
    requires
        v.sane(),
        i < v.labels.len(),
    ensures
        ({
            let after = v.cleared(i);
            &&& after.reasons.len() == v.reasons.len()
            &&& forall|r: Reason| !(#[trigger] after.reasons[i as int].contains(r))
            &&& forall|m: int|
                0 <= m < v.reasons.len() && m != i ==> (#[trigger] after.reasons[m]) == v.reasons[m]
            &&& after.reads == v.reads
            &&& after.running == v.running
            &&& after.revisions == v.revisions
            &&& after.labels == v.labels
            &&& after.subscribers == v.subscribers
            &&& after.id == v.id
        }),
{
}

/// Whoever subscribes is told from then on, as all the others were and are; a second
/// subscription adds nothing. A waker is kept for a subscription that is new, and for no
/// other.
pub proof fn law_a_subscriber_is_told_from_then_on(
    v: LedgerView,
    targets: Seq<Target>,
    waker: WakerId,
)
    requires
        v.sane(),
    ensures
        ({
            let after = v.subscribed(waker);
            &&& forall|w: WakerId| #[trigger]
                after.subscribers.contains(w) <==> v.subscribers.contains(w) || w == waker
            &&& v.subscribers.is_prefix_of(after.subscribers)
            &&& after.subscribers.no_duplicates()
            &&& after.reads == v.reads
            &&& after.running == v.running
            &&& after.reasons == v.reasons
            &&& after.revisions == v.revisions
            &&& after.labels == v.labels
            &&& after.id == v.id
        }),
        ({
            let after = kept_for(targets, v, waker);
            &&& after.len() == targets.len()
            &&& forall|t: int|
                #![trigger after[t]]
                0 <= t < targets.len() ==> {
                    &&& after[t].forward == targets[t].forward
                    &&& after[t].woken == targets[t].woken
                    &&& after[t].rung == targets[t].rung
                    &&& after[t].found == targets[t].found
                    &&& waker == WakerId::Target(t as usize) && t <= usize::MAX && !(exists|i: int|
                        0 <= i < v.subscribers.len() && #[trigger] v.subscribers[i] == waker)
                        && targets[t].held < usize::MAX ==> after[t].held == targets[t].held + 1
                    &&& waker != WakerId::Target(t as usize) || (exists|i: int|
                        0 <= i < v.subscribers.len() && #[trigger] v.subscribers[i] == waker)
                        ==> after[t].held == targets[t].held
                }
        }),
{
    let after = v.subscribed(waker);
    if !v.subscribers.contains(waker) {
        assert(after.subscribers[v.subscribers.len() as int] == waker);
        assert forall|w: WakerId| #[trigger] after.subscribers.contains(w) <==> v.subscribers.contains(
            w,
        ) || w == waker by {
            if v.subscribers.contains(w) {
                let i = choose|i: int| 0 <= i < v.subscribers.len() && v.subscribers[i] == w;
                assert(after.subscribers[i] == w);
            }
        }
    }
    let held = kept_for(targets, v, waker);
    assert forall|t: int|
        #![trigger held[t]]
        0 <= t < targets.len() && waker != WakerId::Target(t as usize) implies held[t]
        == targets[t] by {
        if let WakerId::Target(k) = waker {
            assert(k < targets.len() && t == k ==> t as usize == k);
        }
    }
}

/// Cutting back leaves the outermost runs as they are and drops the rest; nothing they saw is
/// committed.
pub proof fn law_cutting_back_leaves_the_outermost_runs(v: LedgerView, depth: nat)
    ensures
        ({
            let after = v.cut_back(depth);
            &&& after.running.len() == if v.running.len() <= depth {
                v.running.len()
            } else {
                depth
            }
            &&& forall|e: int|
                0 <= e < after.running.len() ==> (#[trigger] after.running[e]) == v.running[e]
            &&& after.reads == v.reads
            &&& after.reasons == v.reasons
            &&& after.revisions == v.revisions
            &&& after.labels == v.labels
            &&& after.subscribers == v.subscribers
            &&& after.id == v.id
        }),
{
}

/// A node is stale exactly if it has a reason, whatever the reason and however many.
pub proof fn law_a_node_is_stale_for_any_reason(v: LedgerView, m: u32)
    requires
        v.sane(),
    ensures
        m < v.labels.len() ==> (v.is_stale(m) <==> exists|r: Reason| #[trigger]
            v.reasons[m as int].contains(r)),
        v.stale_set().contains(m) <==> m < v.labels.len() && exists|r: Reason| #[trigger]
            v.reasons[m as int].contains(r),
{
    if m < v.labels.len() && v.reasons[m as int] != Set::<Reason>::empty() {
        let r = lemma_some(v.reasons[m as int]);
        assert(v.reasons[m as int].contains(r));
    }
}

/// The readers of a node are the nodes that read it, however many there are.
pub proof fn law_readers_are_reads_turned_round(v: LedgerView, k: u32, m: u32)
    ensures
        v.readers(k).contains(m) <==> m < v.labels.len() && v.reads[m as int].contains(k),
        v.edge(k, m) <==> m < v.labels.len() && v.reads[m as int].contains(k),
{
}

/// A change concerns the nodes that read what changed, and those that have read it in a run
/// that is still open.
pub proof fn law_followers_have_read_it_or_are_reading_it(v: LedgerView, k: u32, m: u32)
    ensures
        v.followers(k).contains(m) <==> m < v.labels.len() && (v.reads[m as int].contains(k)
            || exists|d: int|
            0 <= d < v.running.len() && (#[trigger] v.running[d]).node == m
                && v.running[d].seen.contains(k)),
        v.feeds(k, m) <==> v.followers(k).contains(m),
{
}

/// A poll is revalidating exactly if the innermost open run is of a node that was stale.
pub proof fn law_the_innermost_run_decides_revalidation(v: LedgerView)
    ensures
        v.running.len() == 0 ==> !v.revalidating(),
        v.running.len() > 0 ==> v.revalidating() == v.running[v.running.len() - 1].revalidating,
{
}

/// The ids of a ledger's nodes carry its number and theirs, item by item.
pub proof fn law_ids_name_their_nodes(id: u64, indices: Seq<u32>)
    ensures
        ids_of(id, indices).len() == indices.len(),
        forall|i: int|
            #![trigger ids_of(id, indices)[i]]
            #![trigger indices[i]]
            0 <= i < indices.len() ==> ids_of(id, indices)[i].owner() == id && ids_of(
                id,
                indices,
            )[i].at() == indices[i],
{
    broadcast use NodeId::lemma_of;

}

/// A listing names every node of the set and no other, each once, in mint order.
pub proof fn law_a_listing_names_every_node_once(id: u64, set: Set<u32>, listed: Seq<NodeId>)
    requires
        lists(id, set, listed),
    ensures
        forall|i: int| 0 <= i < listed.len() ==> (#[trigger] listed[i]).owner() == id,
        forall|i: int| 0 <= i < listed.len() ==> set.contains((#[trigger] listed[i]).at()),
        forall|i: int, j: int|
            0 <= i < j < listed.len() ==> (#[trigger] listed[i]).at() < (#[trigger] listed[j]).at(),
        forall|x: u32| #[trigger]
            set.contains(x) ==> exists|i: int|
                0 <= i < listed.len() && (#[trigger] listed[i]).at() == x,
{
    broadcast use NodeId::lemma_of;

    let indices = choose|indices: Seq<u32>|
        {
            &&& crate::node_set::increasing(indices)
            &&& indices.to_set() == set
            &&& listed == #[trigger] ids_of(id, indices)
        };
    law_ids_name_their_nodes(id, indices);
    assert forall|i: int| 0 <= i < listed.len() implies set.contains(
        (#[trigger] listed[i]).at(),
    ) by {
        assert(indices.contains(indices[i]));
        assert(indices.to_set().contains(indices[i]));
    }
    assert forall|x: u32| #[trigger] set.contains(x) implies exists|i: int|
        0 <= i < listed.len() && (#[trigger] listed[i]).at() == x by {
        assert(indices.to_set().contains(x));
        let i = choose|i: int| 0 <= i < indices.len() && indices[i] == x;
        assert(listed[i].at() == x);
    }
}

/// A change travels along every chain of reads, of any length, committed or of runs still
/// open: each node on it gets the one before as a reason. Every reason that was there stays.
/// The revision of what changed moves by one, and no other does.
pub proof fn law_a_change_travels_along_every_chain_of_reads(
    v: LedgerView,
    from: u32,
    chain: Seq<u32>,
)
    requires
        v.sane(),
        from < v.labels.len(),
        v.revisions[from as int] < u64::MAX,
        chain.len() > 0,
        chain[0] == from,
        forall|i: int|
            0 < i < chain.len() ==> (#[trigger] chain[i]) < v.labels.len() && (
            v.reads[chain[i] as int].contains(chain[i - 1]) || exists|d: int|
                0 <= d < v.running.len() && (#[trigger] v.running[d]).node == chain[i]
                    && v.running[d].seen.contains(chain[i - 1])),
    ensures
        ({
            let after = v.changed(from);
            &&& forall|i: int|
                0 < i < chain.len() ==> after.reasons[(#[trigger] chain[i]) as int].contains(
                    Reason::Read(chain[i - 1]),
                )
            &&& forall|m: int, r: Reason|
                0 <= m < v.reasons.len() && v.reasons[m].contains(r) ==> #[trigger]
                    after.reasons[m].contains(r)
            &&& after.revisions.len() == v.revisions.len()
            &&& after.revisions[from as int] == v.revisions[from as int] + 1
            &&& forall|m: int|
                0 <= m < v.revisions.len() && m != from ==> (#[trigger] after.revisions[m])
                    == v.revisions[m]
        }),
{
    let after = v.changed(from);
    assert forall|i: int| 0 < i < chain.len() implies after.reasons[(
    #[trigger] chain[i]) as int].contains(Reason::Read(chain[i - 1])) by {
        lemma_chain_moves(v, from, chain, i - 1);
        assert(v.feeds(chain[i - 1], chain[i]));
    }
}

/// Every node on a chain of reads from `from` is moved by it.
proof fn lemma_chain_moves(v: LedgerView, from: u32, chain: Seq<u32>, i: int)
    requires
        0 <= i < chain.len(),
        chain[0] == from,
        forall|i: int|
            0 < i < chain.len() ==> (#[trigger] chain[i]) < v.labels.len() && (
            v.reads[chain[i] as int].contains(chain[i - 1]) || exists|d: int|
                0 <= d < v.running.len() && (#[trigger] v.running[d]).node == chain[i]
                    && v.running[d].seen.contains(chain[i - 1])),
    ensures
        v.moved(from, chain[i]),
    decreases i,
{
    if i > 0 {
        lemma_chain_moves(v, from, chain, i - 1);
        assert(v.feeds(chain[i - 1], chain[i]));
        v.lemma_reach_step(from, chain[i - 1], chain[i]);
    }
}

/// A change reaches nothing else: whatever set holds all that reads `from` or reads one of
/// its own members, every new reason is that of a member of the set, for something that it
/// reads and that is `from` or in the set. Nothing but reasons and the revision moves.
pub proof fn law_a_change_reaches_nothing_else(v: LedgerView, from: u32, set: Set<u32>)
    requires
        v.sane(),
        from < v.labels.len(),
        forall|m: u32, k: u32|
            #![trigger set.contains(m), set.contains(k)]
            m < v.labels.len() && (k == from || set.contains(k)) && (v.reads[m as int].contains(k)
                || exists|d: int|
                0 <= d < v.running.len() && (#[trigger] v.running[d]).node == m
                    && v.running[d].seen.contains(k)) ==> set.contains(m),
    ensures
        ({
            let after = v.changed(from);
            &&& after.reasons.len() == v.reasons.len()
            &&& forall|m: u32, r: Reason|
                #![trigger after.reasons[m as int].contains(r)]
                m < v.labels.len() && after.reasons[m as int].contains(r)
                    && !v.reasons[m as int].contains(r) ==> set.contains(m) && match r {
                    Reason::Read(k) => (k == from || set.contains(k)) && (
                    v.reads[m as int].contains(k) || exists|d: int|
                        0 <= d < v.running.len() && (#[trigger] v.running[d]).node == m
                            && v.running[d].seen.contains(k)),
                    Reason::Owed => false,
                }
            &&& after.reads == v.reads
            &&& after.running == v.running
            &&& after.labels == v.labels
            &&& after.subscribers == v.subscribers
            &&& after.id == v.id
        }),
{
    let after = v.changed(from);
    assert forall|k: u32, d: u32|
        (k == from || set.contains(k)) && (#[trigger] v.feeds(k, d)) implies set.contains(d) by {
        if !set.contains(d) && !set.contains(k) {
            assert(k == from);
        }
        if v.sees(k, d) {
            let x = choose|x: int|
                0 <= x < v.running.len() && (#[trigger] v.running[x]).node == d
                    && v.running[x].seen.contains(k);
            assert(v.running[x].node == d);
        }
    }
    assert forall|m: u32, r: Reason|
        #![trigger after.reasons[m as int].contains(r)]
        m < v.labels.len() && after.reasons[m as int].contains(r)
            && !v.reasons[m as int].contains(r) implies set.contains(m) && match r {
        Reason::Read(k) => (k == from || set.contains(k)) && (v.reads[m as int].contains(k)
            || exists|d: int|
            0 <= d < v.running.len() && (#[trigger] v.running[d]).node == m
                && v.running[d].seen.contains(k)),
        Reason::Owed => false,
    } by {
        if let Reason::Read(k) = r {
            assert(v.feeds(k, m));
            if k != from {
                v.lemma_closed_holds_dependents(from, set, k);
            }
            v.lemma_reach_step(from, k, m);
            v.lemma_closed_holds_dependents(from, set, m);
        }
    }
}

/// What a change is counted as marking is what had no reason before and has one after.
pub proof fn law_what_a_change_marks_was_not_stale(v: LedgerView, from: u32, m: u32)
    requires
        v.sane(),
        from < v.labels.len(),
    ensures
        v.newly_stale(from).contains(m) <==> m < v.labels.len() && (forall|r: Reason|
            !(#[trigger] v.reasons[m as int].contains(r))) && (exists|r: Reason| #[trigger]
            v.changed(from).reasons[m as int].contains(r)),
        v.newly_stale(from).finite(),
{
    let after = v.changed(from);
    crate::track::laws::law_change_marks_dependents_and_nothing_else(v, from);
    assert forall|x: u32| v.newly_stale(from).contains(x) implies x < v.labels.len() by {
        let k = v.lemma_reach_last(from, x);
    }
    crate::node_set::lemma_few_below(v.newly_stale(from), v.n());
    if m < v.labels.len() {
        law_a_node_is_stale_for_any_reason(v, m);
        if after.reasons[m as int] != Set::<Reason>::empty() {
            let r = lemma_some(after.reasons[m as int]);
            assert(after.reasons[m as int].contains(r));
        }
        assert(after.is_stale(m) <==> v.is_stale(m) || v.reaches(from, m));
    }
}

/// The news that `from` has the value it had takes a reason back exactly where it is a read,
/// still standing, of `from` or of a node that has been left with no reason: neither more
/// nor less, whatever the number of readers.
pub proof fn law_a_retraction_takes_back_what_no_longer_holds(
    v: LedgerView,
    from: u32,
    m: u32,
    r: Reason,
)
    requires
        v.sane(),
        m < v.labels.len(),
    ensures
        ({
            let after = v.unchanged(from);
            &&& after.reasons.len() == v.reasons.len()
            &&& after.reasons[m as int].contains(r) ==> v.reasons[m as int].contains(r)
            &&& v.reasons[m as int].contains(r) ==> (!after.reasons[m as int].contains(r) <==> match r {
                Reason::Read(k) => {
                    &&& v.reads[m as int].contains(k) || exists|d: int|
                        0 <= d < v.running.len() && (#[trigger] v.running[d]).node == m
                            && v.running[d].seen.contains(k)
                    &&& k == from || ((exists|q: Reason| #[trigger]
                        v.reasons[k as int].contains(q)) && (forall|q: Reason|
                        !(#[trigger] after.reasons[k as int].contains(q))))
                },
                Reason::Owed => false,
            })
            &&& after.reads == v.reads
            &&& after.running == v.running
            &&& after.revisions == v.revisions
            &&& after.labels == v.labels
            &&& after.subscribers == v.subscribers
            &&& after.id == v.id
        }),
{
    let after = v.unchanged(from);
    crate::track::laws::law_unchanged_frees_exactly_the_excused(v, from);
    if v.reasons[m as int].contains(r) {
        if let Reason::Read(k) = r {
            assert(v.reasons[m as int].contains(Reason::Read(k)));
            assert(k < v.labels.len());
            assert(v.feeds(k, m) <==> v.reads[m as int].contains(k) || v.sees(k, m));
            if k != from {
                lemma_freed_in_plain_terms(v, from, k);
            }
        }
    }
}

/// A node is freed exactly if it had a reason and has none left.
proof fn lemma_freed_in_plain_terms(v: LedgerView, from: u32, k: u32)
    requires
        v.sane(),
        k < v.labels.len(),
    ensures
        v.freed(from, k) <==> (exists|q: Reason| #[trigger] v.reasons[k as int].contains(q)) && (
        forall|q: Reason| !(#[trigger] v.unchanged(from).reasons[k as int].contains(q))),
{
    let after = v.unchanged(from);
    crate::track::laws::law_unchanged_frees_exactly_the_excused(v, from);
    assert(after.is_stale(k) <==> v.is_stale(k) && !v.freed(from, k));
    if v.freed(from, k) {
        let steps = choose|steps: nat| v.freed_within(from, steps, k);
        assert(v.freed_within(from, steps, k));
    }
    if v.reasons[k as int] != Set::<Reason>::empty() {
        let q = lemma_some(v.reasons[k as int]);
        assert(v.reasons[k as int].contains(q));
    }
    if after.reasons[k as int] != Set::<Reason>::empty() {
        let q = lemma_some(after.reasons[k as int]);
        assert(after.reasons[k as int].contains(q));
    }
    if forall|q: Reason| !(#[trigger] after.reasons[k as int].contains(q)) {
        assert(after.reasons[k as int] =~= Set::<Reason>::empty());
    }
}

/// Nodes do not excuse each other: where every node of a set has a reason that is a debt, or
/// a read that stands no more, or a read of something other than `from` that was not stale or
/// is in the set itself, every node of the set stays stale.
pub proof fn law_nodes_do_not_excuse_each_other(v: LedgerView, from: u32, set: Set<u32>, m: u32)
    requires
        v.sane(),
        forall|x: u32| #[trigger] set.contains(x) ==> x < v.labels.len() && exists|r: Reason|
            #![trigger v.reasons[x as int].contains(r)]
            v.reasons[x as int].contains(r) && match r {
                Reason::Read(k) => {
                    ||| !(v.reads[x as int].contains(k) || exists|d: int|
                        0 <= d < v.running.len() && (#[trigger] v.running[d]).node == x
                            && v.running[d].seen.contains(k))
                    ||| k != from && (set.contains(k) || forall|q: Reason|
                        !(#[trigger] v.reasons[k as int].contains(q)))
                },
                Reason::Owed => true,
            },
        set.contains(m),
    ensures
        exists|r: Reason| #[trigger] v.unchanged(from).reasons[m as int].contains(r),
{
    let after = v.unchanged(from);
    crate::track::laws::law_unchanged_frees_exactly_the_excused(v, from);
    assert forall|steps: nat| !v.freed_within(from, steps, m) by {
        lemma_set_is_not_freed(v, from, set, steps, m);
    }
    assert(v.is_stale(m));
    assert(after.is_stale(m));
    let r = lemma_some(after.reasons[m as int]);
    assert(after.reasons[m as int].contains(r));
}

proof fn lemma_set_is_not_freed(v: LedgerView, from: u32, set: Set<u32>, steps: nat, m: u32)
    requires
        v.sane(),
        forall|x: u32| #[trigger] set.contains(x) ==> x < v.labels.len() && exists|r: Reason|
            #![trigger v.reasons[x as int].contains(r)]
            v.reasons[x as int].contains(r) && match r {
                Reason::Read(k) => {
                    ||| !(v.reads[x as int].contains(k) || exists|d: int|
                        0 <= d < v.running.len() && (#[trigger] v.running[d]).node == x
                            && v.running[d].seen.contains(k))
                    ||| k != from && (set.contains(k) || forall|q: Reason|
                        !(#[trigger] v.reasons[k as int].contains(q)))
                },
                Reason::Owed => true,
            },
        set.contains(m),
    ensures
        !v.freed_within(from, steps, m),
        v.is_stale(m),
    decreases steps,
{
    let r = choose|r: Reason|
        #![trigger v.reasons[m as int].contains(r)]
        v.reasons[m as int].contains(r) && match r {
            Reason::Read(k) => {
                ||| !(v.reads[m as int].contains(k) || exists|d: int|
                    0 <= d < v.running.len() && (#[trigger] v.running[d]).node == m
                        && v.running[d].seen.contains(k))
                ||| k != from && (set.contains(k) || forall|q: Reason|
                    !(#[trigger] v.reasons[k as int].contains(q)))
            },
            Reason::Owed => true,
        };
    if v.freed_within(from, steps, m) {
        if let Reason::Read(k) = r {
            assert(v.feeds(k, m));
            assert(k != from);
            assert(v.freed_within(from, (steps - 1) as nat, k));
            if set.contains(k) {
                lemma_set_is_not_freed(v, from, set, (steps - 1) as nat, k);
            } else {
                let q = lemma_some(v.reasons[k as int]);
                assert(v.reasons[k as int].contains(q));
            }
        }
    }
}

/// What a retraction is counted as freeing is what had a reason before and has none after.
pub proof fn law_what_a_retraction_frees_has_no_reason_left(v: LedgerView, from: u32, m: u32)
    requires
        v.sane(),
    ensures
        v.freed_set(from).contains(m) <==> m < v.labels.len() && (exists|q: Reason| #[trigger]
            v.reasons[m as int].contains(q)) && (forall|q: Reason|
            !(#[trigger] v.unchanged(from).reasons[m as int].contains(q))),
        v.freed_set(from).finite(),
{
    assert forall|x: u32| v.freed_set(from).contains(x) implies x < v.labels.len() by {
        let steps = choose|steps: nat| v.freed_within(from, steps, x);
        assert(v.freed_within(from, steps, x));
    }
    crate::node_set::lemma_few_below(v.freed_set(from), v.n());
    if m < v.labels.len() {
        lemma_freed_in_plain_terms(v, from, m);
    }
}

/// A plan lists stale nodes, each once, and each after every stale node that it reads.
pub proof fn law_a_plan_lists_reads_before_readers(v: LedgerView, order: Seq<u32>)
    requires
        v.sane(),
        v.is_plan(order),
    ensures
        forall|i: int|
            0 <= i < order.len() ==> (#[trigger] order[i]) < v.labels.len() && exists|r: Reason|
                #[trigger] v.reasons[order[i] as int].contains(r),
        forall|i: int, j: int|
            0 <= i < j < order.len() ==> (#[trigger] order[i]) != (#[trigger] order[j]),
        forall|j: int, k: u32|
            #![trigger v.reads[order[j] as int].contains(k)]
            0 <= j < order.len() && v.reads[order[j] as int].contains(k) && (exists|r: Reason|
                #[trigger] v.reasons[k as int].contains(r)) ==> exists|i: int|
                0 <= i < j && (#[trigger] order[i]) == k,
{
    v.lemma_greedy(order);
    assert forall|i: int| 0 <= i < order.len() implies (#[trigger] order[i]) < v.labels.len()
        && exists|r: Reason| #[trigger] v.reasons[order[i] as int].contains(r) by {
        assert(v.stale_set().contains(order[i]));
        law_a_node_is_stale_for_any_reason(v, order[i]);
    }
    assert forall|j: int, k: u32|
        #![trigger v.reads[order[j] as int].contains(k)]
        0 <= j < order.len() && v.reads[order[j] as int].contains(k) && (exists|r: Reason|
            #[trigger] v.reasons[k as int].contains(r)) implies exists|i: int|
        0 <= i < j && (#[trigger] order[i]) == k by {
        assert(v.ready(order.take(j), order[j]));
        assert(v.stale_set().contains(order[j]));
        law_a_node_is_stale_for_any_reason(v, k);
        assert(v.stale_set().contains(k));
        assert(v.waits_on(order[j]).contains(k));
        assert(order.take(j).contains(k));
        let i = choose|i: int| 0 <= i < order.take(j).len() && order.take(j)[i] == k;
        assert(order[i] == k);
    }
}

/// At every step a plan takes the earliest minted of the stale nodes whose stale reads have
/// all been listed.
pub proof fn law_a_plan_takes_the_earliest_minted_that_can_go(
    v: LedgerView,
    order: Seq<u32>,
    i: int,
    m: u32,
)
    requires
        v.sane(),
        v.is_plan(order),
        0 <= i < order.len(),
        m < v.labels.len(),
        exists|r: Reason| #[trigger] v.reasons[m as int].contains(r),
        forall|h: int| 0 <= h < i ==> (#[trigger] order[h]) != m,
        forall|k: u32|
            (#[trigger] v.reads[m as int].contains(k)) && (exists|r: Reason| #[trigger]
                v.reasons[k as int].contains(r)) ==> exists|h: int|
                0 <= h < i && (#[trigger] order[h]) == k,
    ensures
        order[i] <= m,
{
    law_a_node_is_stale_for_any_reason(v, m);
    assert(!order.take(i).contains(m)) by {
        if order.take(i).contains(m) {
            let h = choose|h: int| 0 <= h < order.take(i).len() && order.take(i)[h] == m;
            assert(order[h] == m);
        }
    }
    assert forall|k: u32| #[trigger] v.waits_on(m).contains(k) implies order.take(i).contains(
        k,
    ) by {
        assert(v.reads[m as int].contains(k));
        law_a_node_is_stale_for_any_reason(v, k);
        let h = choose|h: int| 0 <= h < i && (#[trigger] order[h]) == k;
        assert(order.take(i)[h] == k);
    }
    assert(v.ready(order.take(i), m));
}

/// A plan leaves out a stale node only where it reads another stale node that is left out.
pub proof fn law_a_plan_leaves_out_only_what_waits(v: LedgerView, order: Seq<u32>, m: u32)
    requires
        v.sane(),
        v.is_plan(order),
        m < v.labels.len(),
        exists|r: Reason| #[trigger] v.reasons[m as int].contains(r),
        forall|h: int| 0 <= h < order.len() ==> (#[trigger] order[h]) != m,
    ensures
        exists|k: u32|
            {
                &&& #[trigger] v.reads[m as int].contains(k)
                &&& exists|r: Reason| #[trigger] v.reasons[k as int].contains(r)
                &&& forall|h: int| 0 <= h < order.len() ==> (#[trigger] order[h]) != k
            },
{
    law_a_node_is_stale_for_any_reason(v, m);
    assert(!order.contains(m));
    assert(!v.ready(order, m));
    let k = choose|k: u32| #[trigger] v.waits_on(m).contains(k) && !order.contains(k);
    assert(v.reads[m as int].contains(k));
    law_a_node_is_stale_for_any_reason(v, k);
    assert forall|h: int| 0 <= h < order.len() implies (#[trigger] order[h]) != k by {
        assert(order.contains(order[h]));
    }
}

/// A node is to be polled exactly if no stale node reads it: however many nodes read it, each
/// of them is without a reason.
pub proof fn law_what_is_to_be_polled_is_read_by_nothing_stale(v: LedgerView, m: u32)
    requires
        v.sane(),
    ensures
        v.is_top(m) <==> forall|d: u32|
            #![trigger v.reads[d as int]]
            d < v.labels.len() && v.reads[d as int].contains(m) ==> forall|r: Reason|
                !(#[trigger] v.reasons[d as int].contains(r)),
{
    if v.is_top(m) {
        assert forall|d: u32|
            #![trigger v.reads[d as int]]
            d < v.labels.len() && v.reads[d as int].contains(m) implies forall|r: Reason|
            !(#[trigger] v.reasons[d as int].contains(r)) by {
            assert(v.edge(m, d));
            law_a_node_is_stale_for_any_reason(v, d);
        }
    } else {
        let d = choose|d: u32| #[trigger] v.edge(m, d) && v.stale_set().contains(d);
        law_a_node_is_stale_for_any_reason(v, d);
        assert(v.reads[d as int].contains(m));
    }
}

/// Keeping some items of a sequence keeps the order they came in.
proof fn lemma_filter_places(s: Seq<u32>, pred: spec_fn(u32) -> bool) -> (places: Seq<int>)
    ensures
        places.len() == s.filter(pred).len(),
        forall|i: int|
            0 <= i < places.len() ==> 0 <= (#[trigger] places[i]) < s.len() && s[places[i]]
                == s.filter(pred)[i],
        forall|i: int, j: int|
            0 <= i < j < places.len() ==> (#[trigger] places[i]) < (#[trigger] places[j]),
    decreases s.len(),
{
    reveal(Seq::filter);
    if s.len() == 0 {
        Seq::empty()
    } else {
        let shorter = lemma_filter_places(s.drop_last(), pred);
        if pred(s.last()) {
            shorter.push(s.len() - 1)
        } else {
            shorter
        }
    }
}

/// A schedule holds every stale node once, each after every stale node that it reads.
pub proof fn law_a_schedule_orders_what_is_stale(ledger: Ledger, s: Schedule)
    requires
        ledger.wf(),
        call_ensures(Ledger::schedule, (&ledger,), Ok(s)),
    ensures
        forall|i: int| 0 <= i < s.ordered().len() ==> (#[trigger] s.ordered()[i]).owner() == ledger@.id,
        forall|i: int, j: int|
            0 <= i < j < s.ordered().len() ==> (#[trigger] s.ordered()[i]).at() != (
            #[trigger] s.ordered()[j]).at(),
        forall|i: int|
            0 <= i < s.ordered().len() ==> (#[trigger] s.ordered()[i]).at() < ledger@.labels.len()
                && exists|r: Reason| #[trigger]
                ledger@.reasons[s.ordered()[i].at() as int].contains(r),
        forall|m: u32, r: Reason|
            m < ledger@.labels.len() && (#[trigger] ledger@.reasons[m as int].contains(r))
                ==> exists|i: int|
                0 <= i < s.ordered().len() && (#[trigger] s.ordered()[i]).at() == m,
        forall|j: int, k: u32|
            #![trigger ledger@.reads[s.ordered()[j].at() as int].contains(k)]
            0 <= j < s.ordered().len() && ledger@.reads[s.ordered()[j].at() as int].contains(k) && (
            exists|r: Reason| #[trigger] ledger@.reasons[k as int].contains(r)) ==> exists|i: int|
                0 <= i < j && (#[trigger] s.ordered()[i]).at() == k,
{
    let v = ledger@;
    let order = lemma_schedule_order(ledger, s);
    law_ids_name_their_nodes(v.id, order);
    law_a_plan_lists_reads_before_readers(v, order);
    assert forall|i: int| 0 <= i < s.ordered().len() implies (
    #[trigger] s.ordered()[i]).at() < v.labels.len() && exists|r: Reason| #[trigger]
        v.reasons[s.ordered()[i].at() as int].contains(r) by {
        assert(s.ordered()[i].at() == order[i]);
    }
    assert forall|m: u32, r: Reason|
        m < v.labels.len() && (#[trigger] v.reasons[m as int].contains(r)) implies exists|i: int|
        0 <= i < s.ordered().len() && (#[trigger] s.ordered()[i]).at() == m by {
        law_a_node_is_stale_for_any_reason(v, m);
        assert(order.to_set().contains(m));
        let i = choose|i: int| 0 <= i < order.len() && order[i] == m;
        assert(s.ordered()[i].at() == m);
    }
    assert forall|j: int, k: u32|
        #![trigger v.reads[s.ordered()[j].at() as int].contains(k)]
        0 <= j < s.ordered().len() && v.reads[s.ordered()[j].at() as int].contains(k) && (exists|
            r: Reason,
        | #[trigger] v.reasons[k as int].contains(r)) implies exists|i: int|
        0 <= i < j && (#[trigger] s.ordered()[i]).at() == k by {
        assert(v.reads[order[j] as int].contains(k));
        let i = choose|i: int| 0 <= i < j && (#[trigger] order[i]) == k;
        assert(s.ordered()[i].at() == k);
    }
}

/// The order that a schedule was made from.
proof fn lemma_schedule_order(ledger: Ledger, s: Schedule) -> (order: Seq<u32>)
    requires
        ledger.wf(),
        call_ensures(Ledger::schedule, (&ledger,), Ok(s)),
    ensures
        ledger@.sane(),
        ledger@.is_plan(order),
        order.to_set() == ledger@.stale_set(),
        s.ordered() == ids_of(ledger@.id, order),
        s.polled() == ids_of(ledger@.id, order.filter(|m: u32| ledger@.is_top(m))),
{
    ledger.lemma_sane();
    choose|order: Seq<u32>|
        {
            &&& #[trigger] ledger@.is_plan(order)
            &&& order.to_set() == ledger@.stale_set()
            &&& s.ordered() == ids_of(ledger@.id, order)
            &&& s.polled() == ids_of(ledger@.id, order.filter(|m: u32| ledger@.is_top(m)))
        }
}

/// A node that the schedule says to poll is stale and is read by no stale node, however many
/// nodes read it. Every stale node that no stale node reads is said to be polled. They come
/// in the order of the schedule.
pub proof fn law_a_schedule_polls_what_no_stale_node_reads(ledger: Ledger, s: Schedule)
    requires
        ledger.wf(),
        call_ensures(Ledger::schedule, (&ledger,), Ok(s)),
    ensures
        forall|i: int, d: int|
            #![trigger s.polled()[i], ledger@.reads[d]]
            0 <= i < s.polled().len() && 0 <= d < ledger@.reads.len()
                && ledger@.reads[d].contains(s.polled()[i].at()) ==> forall|r: Reason|
                !(#[trigger] ledger@.reasons[d].contains(r)),
        forall|m: u32, r: Reason|
            m < ledger@.labels.len() && (#[trigger] ledger@.reasons[m as int].contains(r)) && (
            forall|d: int, q: Reason|
                0 <= d < ledger@.reads.len() && ledger@.reads[d].contains(m) ==> !(
                #[trigger] ledger@.reasons[d].contains(q))) ==> exists|i: int|
                0 <= i < s.polled().len() && (#[trigger] s.polled()[i]).at() == m,
        forall|i: int|
            #![trigger s.polled()[i]]
            0 <= i < s.polled().len() ==> s.polled()[i].owner() == ledger@.id && exists|x: int|
                0 <= x < s.ordered().len() && (#[trigger] s.ordered()[x]) == s.polled()[i],
        forall|i: int, j: int, x: int, y: int|
            #![trigger s.polled()[i], s.polled()[j], s.ordered()[x], s.ordered()[y]]
            0 <= i < j < s.polled().len() && 0 <= x < s.ordered().len() && 0 <= y
                < s.ordered().len() && s.ordered()[x] == s.polled()[i] && s.ordered()[y]
                == s.polled()[j] ==> x < y,
{
    let v = ledger@;
    let order = lemma_schedule_order(ledger, s);
    let top = |m: u32| v.is_top(m);
    let kept = order.filter(top);
    let places = lemma_filter_places(order, top);
    law_ids_name_their_nodes(v.id, order);
    law_ids_name_their_nodes(v.id, kept);
    law_a_plan_lists_reads_before_readers(v, order);
    order.filter_lemma(top);
    assert forall|i: int, d: int|
        #![trigger s.polled()[i], v.reads[d]]
        0 <= i < s.polled().len() && 0 <= d < v.reads.len() && v.reads[d].contains(
            s.polled()[i].at(),
        ) implies forall|r: Reason| !(#[trigger] v.reasons[d].contains(r)) by {
        assert(s.polled()[i].at() == kept[i]);
        assert(top(kept[i]));
        law_what_is_to_be_polled_is_read_by_nothing_stale(v, kept[i]);
        assert(v.reads[(d as u32) as int].contains(kept[i]));
    }
    assert forall|m: u32, r: Reason|
        m < v.labels.len() && (#[trigger] v.reasons[m as int].contains(r)) && (forall|
            d: int,
            q: Reason,
        |
            0 <= d < v.reads.len() && v.reads[d].contains(m) ==> !(
            #[trigger] v.reasons[d].contains(q))) implies exists|i: int|
        0 <= i < s.polled().len() && (#[trigger] s.polled()[i]).at() == m by {
        law_what_is_to_be_polled_is_read_by_nothing_stale(v, m);
        assert(v.is_top(m));
        law_a_node_is_stale_for_any_reason(v, m);
        assert(order.to_set().contains(m));
        let x = choose|x: int| 0 <= x < order.len() && order[x] == m;
        assert(top(order[x]));
        assert(kept.contains(order[x]));
        let i = choose|i: int| 0 <= i < kept.len() && kept[i] == m;
        assert(s.polled()[i].at() == m);
    }
    assert forall|i: int|
        #![trigger s.polled()[i]]
        0 <= i < s.polled().len() implies s.polled()[i].owner() == v.id && exists|x: int|
        0 <= x < s.ordered().len() && (#[trigger] s.ordered()[x]) == s.polled()[i] by {
        let x = places[i];
        assert(s.ordered()[x] == NodeId::of(v.id, order[x]));
        assert(s.polled()[i] == NodeId::of(v.id, kept[i]));
    }
    assert forall|i: int, j: int, x: int, y: int|
        #![trigger s.polled()[i], s.polled()[j], s.ordered()[x], s.ordered()[y]]
        0 <= i < j < s.polled().len() && 0 <= x < s.ordered().len() && 0 <= y < s.ordered().len()
            && s.ordered()[x] == s.polled()[i] && s.ordered()[y] == s.polled()[j] implies x < y by {
        assert(order[x] == kept[i] && order[y] == kept[j]);
        assert(order[places[i]] == order[x]);
        assert(order[places[j]] == order[y]);
        assert(places[i] == x && places[j] == y);
    }
}

/// A schedule is refused exactly where stale nodes read each other in a ring or read what
/// does: what is reported are stale nodes, in mint order, and every set of stale nodes each
/// of which reads a member of the set is among them.
pub proof fn law_a_refusal_names_what_waits_on_itself(ledger: Ledger, c: Cycle, ring: Set<u32>)
    requires
        ledger.wf(),
        call_ensures(Ledger::schedule, (&ledger,), Err(c)),
        forall|m: u32| #[trigger]
            ring.contains(m) ==> m < ledger@.labels.len() && (exists|r: Reason| #[trigger]
                ledger@.reasons[m as int].contains(r)) && (exists|k: u32| #[trigger]
                ring.contains(k) && ledger@.reads[m as int].contains(k)),
    ensures
        c.stuck().len() > 0,
        forall|i: int|
            0 <= i < c.stuck().len() ==> (#[trigger] c.stuck()[i]).owner() == ledger@.id
                && c.stuck()[i].at() < ledger@.labels.len() && exists|r: Reason| #[trigger]
                ledger@.reasons[c.stuck()[i].at() as int].contains(r),
        forall|i: int, j: int|
            0 <= i < j < c.stuck().len() ==> (#[trigger] c.stuck()[i]).at() < (
            #[trigger] c.stuck()[j]).at(),
        forall|m: u32| #[trigger]
            ring.contains(m) ==> exists|i: int|
                0 <= i < c.stuck().len() && (#[trigger] c.stuck()[i]).at() == m,
{
    let v = ledger@;
    ledger.lemma_sane();
    let order = choose|order: Seq<u32>|
        {
            &&& #[trigger] v.is_plan(order)
            &&& order.to_set() != v.stale_set()
            &&& lists(v.id, v.stale_set().difference(order.to_set()), c.stuck())
        };
    let left = v.stale_set().difference(order.to_set());
    law_a_listing_names_every_node_once(v.id, left, c.stuck());
    law_a_plan_lists_reads_before_readers(v, order);
    assert forall|x: u32| order.to_set().contains(x) implies v.stale_set().contains(x) by {
        let i = choose|i: int| 0 <= i < order.len() && order[i] == x;
        law_a_node_is_stale_for_any_reason(v, order[i]);
    }
    if c.stuck().len() == 0 {
        assert(order.to_set() =~= v.stale_set()) by {
            assert forall|x: u32| v.stale_set().contains(x) implies order.to_set().contains(x) by {
                assert(!left.contains(x));
            }
        }
    }
    assert forall|i: int| 0 <= i < c.stuck().len() implies (
    #[trigger] c.stuck()[i]).owner() == v.id && c.stuck()[i].at() < v.labels.len() && exists|
        r: Reason,
    | #[trigger] v.reasons[c.stuck()[i].at() as int].contains(r) by {
        assert(left.contains(c.stuck()[i].at()));
        law_a_node_is_stale_for_any_reason(v, c.stuck()[i].at());
    }
    assert forall|m: u32| #[trigger] ring.contains(m) implies exists|i: int|
        0 <= i < c.stuck().len() && (#[trigger] c.stuck()[i]).at() == m by {
        law_a_node_is_stale_for_any_reason(v, m);
        if order.to_set().contains(m) {
            let i = choose|i: int| 0 <= i < order.len() && order[i] == m;
            lemma_a_ring_is_not_planned(v, order, ring, i);
        }
        assert(left.contains(m));
    }
}

/// Whatever a refusal names reads something that it names.
pub proof fn law_what_is_refused_waits_on_what_is_refused(ledger: Ledger, c: Cycle, i: int)
    requires
        ledger.wf(),
        call_ensures(Ledger::schedule, (&ledger,), Err(c)),
        0 <= i < c.stuck().len(),
    ensures
        exists|j: int|
            0 <= j < c.stuck().len() && ledger@.reads[c.stuck()[i].at() as int].contains(
                (#[trigger] c.stuck()[j]).at(),
            ),
{
    let v = ledger@;
    ledger.lemma_sane();
    let order = choose|order: Seq<u32>|
        {
            &&& #[trigger] v.is_plan(order)
            &&& order.to_set() != v.stale_set()
            &&& lists(v.id, v.stale_set().difference(order.to_set()), c.stuck())
        };
    let left = v.stale_set().difference(order.to_set());
    law_a_listing_names_every_node_once(v.id, left, c.stuck());
    let m = c.stuck()[i].at();
    assert(left.contains(m));
    law_a_node_is_stale_for_any_reason(v, m);
    assert forall|h: int| 0 <= h < order.len() implies (#[trigger] order[h]) != m by {
        assert(order.to_set().contains(order[h]));
    }
    law_a_plan_leaves_out_only_what_waits(v, order, m);
    let k = choose|k: u32|
        {
            &&& #[trigger] v.reads[m as int].contains(k)
            &&& exists|r: Reason| #[trigger] v.reasons[k as int].contains(r)
            &&& forall|h: int| 0 <= h < order.len() ==> (#[trigger] order[h]) != k
        };
    law_a_node_is_stale_for_any_reason(v, k);
    assert(!order.to_set().contains(k));
    assert(left.contains(k));
    let j = choose|j: int| 0 <= j < c.stuck().len() && (#[trigger] c.stuck()[j]).at() == k;
    assert(v.reads[c.stuck()[i].at() as int].contains(c.stuck()[j].at()));
}

/// What waits on itself is in no plan.
proof fn lemma_a_ring_is_not_planned(v: LedgerView, order: Seq<u32>, ring: Set<u32>, i: int)
    requires
        v.sane(),
        v.is_plan(order),
        forall|m: u32| #[trigger]
            ring.contains(m) ==> m < v.labels.len() && (exists|r: Reason| #[trigger]
                v.reasons[m as int].contains(r)) && (exists|k: u32| #[trigger] ring.contains(k)
                && v.reads[m as int].contains(k)),
        0 <= i < order.len(),
    ensures
        !ring.contains(order[i]),
    decreases i,
{
    if ring.contains(order[i]) {
        law_a_plan_lists_reads_before_readers(v, order);
        let k = choose|k: u32| #[trigger] ring.contains(k) && v.reads[order[i] as int].contains(k);
        assert(v.reads[order[i] as int].contains(k));
        let h = choose|h: int| 0 <= h < i && (#[trigger] order[h]) == k;
        lemma_a_ring_is_not_planned(v, order, ring, h);
    }
}

/// Where stale nodes read each other in a ring, no schedule is given.
pub proof fn law_a_ring_of_stale_nodes_is_refused(
    ledger: Ledger,
    r: Result<Schedule, Cycle>,
    ring: Set<u32>,
    m: u32,
)
    requires
        ledger.wf(),
        call_ensures(Ledger::schedule, (&ledger,), r),
        forall|m: u32| #[trigger]
            ring.contains(m) ==> m < ledger@.labels.len() && (exists|r: Reason| #[trigger]
                ledger@.reasons[m as int].contains(r)) && (exists|k: u32| #[trigger]
                ring.contains(k) && ledger@.reads[m as int].contains(k)),
        ring.contains(m),
    ensures
        r is Err,
{
    if let Ok(s) = r {
        let order = lemma_schedule_order(ledger, s);
        law_a_node_is_stale_for_any_reason(ledger@, m);
        assert(order.to_set().contains(m));
        let i = choose|i: int| 0 <= i < order.len() && order[i] == m;
        lemma_a_ring_is_not_planned(ledger@, order, ring, i);
    }
}

/// What a ledger tells of itself and of its nodes.
pub proof fn law_a_ledger_tells_what_it_holds(
    ledger: Ledger,
    node: NodeId,
    id: u64,
    len: usize,
    owns: bool,
    open_runs: usize,
    running: Option<NodeId>,
    revalidating: bool,
)
    requires
        call_ensures(Ledger::id, (&ledger,), id),
        call_ensures(Ledger::len, (&ledger,), len),
        call_ensures(Ledger::owns, (&ledger, node), owns),
        call_ensures(Ledger::open_runs, (&ledger,), open_runs),
        call_ensures(Ledger::running, (&ledger,), running),
        call_ensures(Ledger::revalidating, (&ledger,), revalidating),
    ensures
        id == ledger@.id,
        len == ledger@.labels.len(),
        owns <==> node.owner() == ledger@.id && node.at() < ledger@.labels.len(),
        open_runs == ledger@.running.len(),
        running is None <==> ledger@.running.len() == 0,
        running matches Some(innermost) ==> innermost.owner() == ledger@.id && innermost.at()
            == ledger@.running.last().node,
        revalidating <==> ledger@.running.len() > 0 && ledger@.running.last().revalidating,
{
    broadcast use NodeId::lemma_of;

}

/// What a ledger tells of one of its nodes.
pub proof fn law_a_ledger_tells_what_a_node_is(
    ledger: Ledger,
    node: NodeId,
    label: &'static str,
    revision: u64,
    is_stale: bool,
)
    requires
        ledger.wf(),
        node.owner() == ledger@.id,
        node.at() < ledger@.labels.len(),
        call_ensures(Ledger::label, (&ledger, node), label),
        call_ensures(Ledger::revision, (&ledger, node), revision),
        call_ensures(Ledger::is_stale, (&ledger, node), is_stale),
    ensures
        label == ledger@.labels[node.at() as int],
        revision == ledger@.revisions[node.at() as int],
        is_stale <==> exists|r: Reason| #[trigger]
            ledger@.reasons[node.at() as int].contains(r),
{
    ledger.lemma_sane();
    law_a_node_is_stale_for_any_reason(ledger@, node.at());
}

/// What a node reads is listed whole: every node in its reads, once, in mint order, and no
/// other.
pub proof fn law_a_nodes_reads_are_listed_whole(ledger: Ledger, node: NodeId, listed: Vec<NodeId>)
    requires
        ledger.wf(),
        node.at() < ledger@.labels.len(),
        call_ensures(Ledger::reads_of, (&ledger, node), listed),
    ensures
        forall|i: int| 0 <= i < listed@.len() ==> (#[trigger] listed@[i]).owner() == ledger@.id,
        forall|i: int, j: int|
            0 <= i < j < listed@.len() ==> (#[trigger] listed@[i]).at() < (
            #[trigger] listed@[j]).at(),
        forall|i: int|
            0 <= i < listed@.len() ==> ledger@.reads[node.at() as int].contains(
                (#[trigger] listed@[i]).at(),
            ),
        forall|k: u32| #[trigger]
            ledger@.reads[node.at() as int].contains(k) ==> exists|i: int|
                0 <= i < listed@.len() && (#[trigger] listed@[i]).at() == k,
{
    law_a_listing_names_every_node_once(ledger@.id, ledger@.reads[node.at() as int], listed@);
}

/// What reads a node is listed whole: every node whose reads hold it, once, in mint order,
/// and no other.
pub proof fn law_a_nodes_readers_are_listed_whole(
    ledger: Ledger,
    node: NodeId,
    listed: Vec<NodeId>,
)
    requires
        ledger.wf(),
        call_ensures(Ledger::readers_of, (&ledger, node), listed),
    ensures
        forall|i: int| 0 <= i < listed@.len() ==> (#[trigger] listed@[i]).owner() == ledger@.id,
        forall|i: int, j: int|
            0 <= i < j < listed@.len() ==> (#[trigger] listed@[i]).at() < (
            #[trigger] listed@[j]).at(),
        forall|i: int|
            0 <= i < listed@.len() ==> (#[trigger] listed@[i]).at() < ledger@.labels.len()
                && ledger@.reads[listed@[i].at() as int].contains(node.at()),
        forall|m: u32|
            m < ledger@.labels.len() && (#[trigger] ledger@.reads[m as int].contains(node.at()))
                ==> exists|i: int| 0 <= i < listed@.len() && (#[trigger] listed@[i]).at() == m,
{
    let v = ledger@;
    let readers = v.readers(node.at());
    law_a_listing_names_every_node_once(v.id, readers, listed@);
    assert forall|i: int| 0 <= i < listed@.len() implies (
    #[trigger] listed@[i]).at() < v.labels.len() && v.reads[listed@[i].at() as int].contains(
        node.at(),
    ) by {
        assert(readers.contains(listed@[i].at()));
    }
    assert forall|m: u32|
        m < v.labels.len() && (#[trigger] v.reads[m as int].contains(node.at())) implies exists|
        i: int,
    | 0 <= i < listed@.len() && (#[trigger] listed@[i]).at() == m by {
        assert(readers.contains(m));
    }
}

/// What is stale is listed whole: every node that has a reason, once, in mint order, and no
/// other.
pub proof fn law_what_is_stale_is_listed_whole(ledger: Ledger, listed: Vec<NodeId>)
    requires
        ledger.wf(),
        call_ensures(Ledger::stale_nodes, (&ledger,), listed),
    ensures
        forall|i: int| 0 <= i < listed@.len() ==> (#[trigger] listed@[i]).owner() == ledger@.id,
        forall|i: int, j: int|
            0 <= i < j < listed@.len() ==> (#[trigger] listed@[i]).at() < (
            #[trigger] listed@[j]).at(),
        forall|i: int|
            0 <= i < listed@.len() ==> (#[trigger] listed@[i]).at() < ledger@.labels.len()
                && exists|r: Reason| #[trigger]
                ledger@.reasons[listed@[i].at() as int].contains(r),
        forall|m: u32, r: Reason|
            m < ledger@.labels.len() && (#[trigger] ledger@.reasons[m as int].contains(r))
                ==> exists|i: int| 0 <= i < listed@.len() && (#[trigger] listed@[i]).at() == m,
{
    let v = ledger@;
    ledger.lemma_sane();
    law_a_listing_names_every_node_once(v.id, v.stale_set(), listed@);
    assert forall|i: int| 0 <= i < listed@.len() implies (
    #[trigger] listed@[i]).at() < v.labels.len() && exists|r: Reason| #[trigger]
        v.reasons[listed@[i].at() as int].contains(r) by {
        assert(v.stale_set().contains(listed@[i].at()));
        law_a_node_is_stale_for_any_reason(v, listed@[i].at());
    }
    assert forall|m: u32, r: Reason|
        m < v.labels.len() && (#[trigger] v.reasons[m as int].contains(r)) implies exists|i: int|
        0 <= i < listed@.len() && (#[trigger] listed@[i]).at() == m by {
        law_a_node_is_stale_for_any_reason(v, m);
        assert(v.stale_set().contains(m));
    }
}

/// A call mints a node with the label it is given, at the next place.
pub proof fn law_a_call_mints_the_next_node(ledger: &mut Ledger, label: &'static str, r: NodeId)
    requires
        ledger.wf(),
        ledger@.labels.len() <= u32::MAX,
        call_ensures(Ledger::node, (ledger, label), r),
    ensures
        final(ledger).wf(),
        final(ledger)@ == old(ledger)@.minted(label),
        r.owner() == old(ledger)@.id,
        r.at() == old(ledger)@.labels.len(),
{
    broadcast use NodeId::lemma_of;

}

/// A call that logs a read logs it of the node that it names.
pub proof fn law_a_call_logs_the_read_it_names(ledger: &mut Ledger, node: NodeId)
    requires
        ledger.wf(),
        call_ensures(Ledger::observe_read, (ledger, node), ()),
    ensures
        final(ledger).wf(),
        final(ledger)@ == old(ledger)@.observed(node.at()),
{
}

/// A call that opens a run opens it of the node that it names.
pub proof fn law_a_call_opens_the_run_it_names(ledger: &mut Ledger, node: NodeId)
    requires
        ledger.wf(),
        call_ensures(Ledger::open, (ledger, node), ()),
    ensures
        final(ledger).wf(),
        final(ledger)@ == old(ledger)@.opened(node.at()),
{
}

/// A call that closes a run closes the innermost, cut short exactly if it says so.
pub proof fn law_a_call_closes_the_innermost_run(ledger: &mut Ledger, cut_short: bool)
    requires
        ledger.wf(),
        call_ensures(Ledger::close, (ledger, cut_short), ()),
    ensures
        final(ledger).wf(),
        final(ledger)@ == old(ledger)@.closed(cut_short),
{
}

/// A call that marks a node marks the one that it names.
pub proof fn law_a_call_marks_the_node_it_names(ledger: &mut Ledger, node: NodeId)
    requires
        ledger.wf(),
        call_ensures(Ledger::mark_stale, (ledger, node), ()),
    ensures
        final(ledger).wf(),
        final(ledger)@ == old(ledger)@.owing(node.at()),
{
}

/// A call that clears a node clears the one that it names.
pub proof fn law_a_call_clears_the_node_it_names(ledger: &mut Ledger, node: NodeId)
    requires
        ledger.wf(),
        call_ensures(Ledger::clear_stale, (ledger, node), ()),
    ensures
        final(ledger).wf(),
        final(ledger)@ == old(ledger)@.cleared(node.at()),
{
}

/// A call that cuts runs back leaves as many as it names.
pub proof fn law_a_call_cuts_back_to_the_depth_it_names(ledger: &mut Ledger, depth: usize)
    requires
        ledger.wf(),
        call_ensures(Ledger::cut_back, (ledger, depth), ()),
    ensures
        final(ledger).wf(),
        final(ledger)@ == old(ledger)@.cut_back(depth as nat),
{
}

/// A call that subscribes a waker subscribes the one that it names, and keeps it if it was
/// not subscribed.
pub proof fn law_a_call_subscribes_the_waker_it_names(
    ledger: &mut Ledger,
    waker: WakerId,
    wakes: &mut crate::wake::Wakes,
)
    requires
        ledger.wf(),
        wakes.wf(),
        call_ensures(Ledger::subscribe, (ledger, waker, wakes), ()),
    ensures
        final(ledger).wf(),
        final(ledger)@ == old(ledger)@.subscribed(waker),
        final(wakes)@ == kept_for(old(wakes)@, old(ledger)@, waker),
{
}

/// A call that tells of a change tells of the node that it names. It counts every node that
/// had no reason and has one now. It wakes every subscriber if anything reads the node, has
/// read it or is reading it, and nobody if nothing does.
pub proof fn law_a_call_tells_of_the_change_it_names(
    ledger: &mut Ledger,
    node: NodeId,
    wakes: &mut crate::wake::Wakes,
    r: usize,
)
    requires
        ledger.wf(),
        wakes.wf(),
        node.at() < ledger@.labels.len(),
        call_ensures(Ledger::changed, (ledger, node, wakes), r),
    ensures
        final(ledger).wf(),
        final(ledger)@ == old(ledger)@.changed(node.at()),
        r == old(ledger)@.newly_stale(node.at()).len(),
        (exists|m: int, k: u32|
            #![trigger old(ledger)@.reads[m].contains(k)]
            0 <= m < old(ledger)@.labels.len() && k == node.at() && old(ledger)@.reads[m].contains(
                k,
            )) ==> final(wakes)@ == crate::wake::woken_all(
            old(wakes)@,
            old(ledger)@.subscribers,
        ),
        (exists|d: int, k: u32|
            #![trigger old(ledger)@.running[d].seen.contains(k)]
            0 <= d < old(ledger)@.running.len() && k == node.at() && old(ledger)@.running[d].seen.contains(k)) ==> final(wakes)@ == crate::wake::woken_all(
            old(wakes)@,
            old(ledger)@.subscribers,
        ),
        (forall|m: int|
            0 <= m < old(ledger)@.labels.len() ==> !(
            #[trigger] old(ledger)@.reads[m]).contains(node.at())) && (forall|d: int|
            0 <= d < old(ledger)@.running.len() ==> !(
            #[trigger] old(ledger)@.running[d]).seen.contains(node.at())) ==> final(wakes)@ == old(wakes)@,
{
    let v = old(ledger)@;
    let i = node.at();
    ledger.lemma_sane();
    if exists|m: int, k: u32|
        #![trigger v.reads[m].contains(k)]
        0 <= m < v.labels.len() && k == i && v.reads[m].contains(k) {
        let (m, k) = choose|m: int, k: u32|
            #![trigger v.reads[m].contains(k)]
            0 <= m < v.labels.len() && k == i && v.reads[m].contains(k);
        assert(v.feeds(i, m as u32));
        assert(v.followers(i).contains(m as u32));
    }
    if exists|d: int, k: u32|
        #![trigger v.running[d].seen.contains(k)]
        0 <= d < v.running.len() && k == i && v.running[d].seen.contains(k) {
        let (d, k) = choose|d: int, k: u32|
            #![trigger v.running[d].seen.contains(k)]
            0 <= d < v.running.len() && k == i && v.running[d].seen.contains(k);
        let m = v.running[d].node;
        assert(v.sees(i, m));
        assert(v.followers(i).contains(m));
    }
    if (forall|m: int| 0 <= m < v.labels.len() ==> !(#[trigger] v.reads[m]).contains(i)) && (forall|
        d: int,
    | 0 <= d < v.running.len() ==> !(#[trigger] v.running[d]).seen.contains(i)) {
        assert(v.followers(i) =~= Set::<u32>::empty());
    }
}

/// A call that tells that a node has not changed tells it of the node that it names, and
/// counts every node that had a reason and has none now.
pub proof fn law_a_call_tells_what_has_not_changed(ledger: &mut Ledger, node: NodeId, r: usize)
    requires
        ledger.wf(),
        call_ensures(Ledger::unchanged, (ledger, node), r),
    ensures
        final(ledger).wf(),
        final(ledger)@ == old(ledger)@.unchanged(node.at()),
        r == old(ledger)@.freed_set(node.at()).len(),
{
}

/// A new ledger, drawn or numbered, holds nothing.
pub proof fn law_a_new_ledger_holds_nothing(drawn: Ledger, id: u64, numbered: Ledger)
    requires
        call_ensures(Ledger::new, (), drawn),
        call_ensures(Ledger::numbered, (id,), numbered),
    ensures
        drawn@.labels.len() == 0,
        drawn@.running.len() == 0,
        drawn@.subscribers.len() == 0,
        numbered@.id == id,
        numbered@.labels.len() == 0,
        numbered@.running.len() == 0,
        numbered@.subscribers.len() == 0,
{
}

/// What is run in a node's run is run with that run open, and the run is closed behind it,
/// not cut short.
pub proof fn law_a_run_is_open_exactly_as_long_as_it_runs<R, F: FnOnce(&mut Ledger) -> R>(
    ledger: &mut Ledger,
    node: NodeId,
    f: F,
    r: R,
)
    requires
        ledger.wf(),
        call_ensures(Ledger::run::<R, F>, (ledger, node, f), r),
    ensures
        exists|inside: &mut Ledger|
            {
                &&& #[trigger] call_ensures(f, (inside,), r)
                &&& inside@ == old(ledger)@.opened(node.at())
                &&& final(ledger)@ == final(inside)@.closed(false)
            },
{
}

} // verus!
