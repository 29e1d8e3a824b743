//! What a change marks, and what an equal recompute takes back.

use std::collections::VecDeque;

use vstd::prelude::*;

use crate::node_set::{lemma_take_one_more, NodeSet};
use crate::track::{Ledger, LedgerView, NodeId, Reason};
use crate::wake::{woken_all, Wakes};

verus! {

impl LedgerView {
    /// Whether node `m` read node `k` on its last run that read anything.
    pub open spec fn edge(self, k: u32, m: u32) -> bool {
        m < self.n() && self.reads[m as int].contains(k)
    }

    /// Whether an open run of node `m` has been seen to read node `k`.
    pub open spec fn sees(self, k: u32, m: u32) -> bool {
        exists|d: int|
            0 <= d < self.running.len() && (#[trigger] self.running[d]).node == m
                && self.running[d].seen.contains(k)
    }

    /// Whether a change of node `k` concerns node `m`: it read `k` on its last run that
    /// read anything, or has read it in a run that is still open.
    pub open spec fn feeds(self, k: u32, m: u32) -> bool {
        m < self.n() && (self.reads[m as int].contains(k) || self.sees(k, m))
    }

    /// Everything that a change of node `k` concerns.
    pub open spec fn followers(self, k: u32) -> Set<u32> {
        Set::new(|m: u32| self.feeds(k, m))
    }

    /// The same ledger with no run open: what concerns what goes by the reads alone.
    pub open spec fn at_rest(self) -> LedgerView {
        LedgerView { running: Seq::empty(), ..self }
    }

    /// Whether every node of `p` reads the one before it, or is reading it.
    pub open spec fn is_path(self, p: Seq<u32>) -> bool {
        forall|i: int| 0 <= i < p.len() - 1 ==> #[trigger] self.feeds(p[i], p[i + 1])
    }

    /// Whether `p` leads from `from` to `to` in at least one step.
    pub open spec fn leads(self, p: Seq<u32>, from: u32, to: u32) -> bool {
        &&& p.len() >= 2
        &&& p[0] == from
        &&& p.last() == to
        &&& self.is_path(p)
    }

    /// Whether node `to` reads node `from`, directly or through others, runs that are still
    /// open included.
    pub open spec fn reaches(self, from: u32, to: u32) -> bool {
        exists|p: Seq<u32>| self.leads(p, from, to)
    }

    /// Whether a change of `from` is a change below the readers of `k`.
    pub open spec fn moved(self, from: u32, k: u32) -> bool {
        k == from || self.reaches(from, k)
    }

    /// Everything that reads `from`, directly or through others.
    pub open spec fn dependents(self, from: u32) -> Set<u32> {
        Set::new(|m: u32| self.reaches(from, m))
    }

    /// Those of them that were not stale already.
    pub open spec fn newly_stale(self, from: u32) -> Set<u32> {
        Set::new(|m: u32| self.reaches(from, m) && !self.is_stale(m))
    }

    /// The reasons node `m` has once `from` has changed: those it had, and every
    /// dependency of its own through which the change reaches it.
    pub open spec fn reasons_after_change(self, from: u32, m: int) -> Set<Reason> {
        Set::new(
            |r: Reason|
                self.reasons[m].contains(r) || match r {
                    Reason::Read(k) => self.feeds(k, m as u32) && self.moved(from, k),
                    Reason::Owed => false,
                },
        )
    }

    /// `from` has changed. Its revision moves, its dependents are stale, and the
    /// node itself is not marked unless it reads itself.
    pub open spec fn changed(self, from: u32) -> LedgerView {
        LedgerView {
            revisions: self.revisions.update(
                from as int,
                (self.revisions[from as int] + 1) as u64,
            ),
            reasons: Seq::new(self.n(), |m: int| self.reasons_after_change(from, m)),
            ..self
        }
    }

    /// One step more along an edge.
    pub proof fn lemma_reach_step(self, from: u32, k: u32, m: u32)
        requires
            self.moved(from, k),
            self.feeds(k, m),
        ensures
            self.reaches(from, m),
    {
        if k == from {
            let p = seq![from, m];
            assert(self.leads(p, from, m));
        } else {
            let p = choose|p: Seq<u32>| self.leads(p, from, k);
            let q = p.push(m);
            assert forall|i: int| 0 <= i < q.len() - 1 implies #[trigger] self.feeds(q[i], q[i + 1]) by {
                if i < p.len() - 1 {
                    assert(self.feeds(p[i], p[i + 1]));
                }
            }
            assert(self.leads(q, from, m));
        }
    }

    /// The last step of a path into `m`.
    pub proof fn lemma_reach_last(self, from: u32, m: u32) -> (k: u32)
        requires
            self.reaches(from, m),
        ensures
            self.feeds(k, m),
            self.moved(from, k),
    {
        let p = choose|p: Seq<u32>| self.leads(p, from, m);
        let k = p[p.len() - 2];
        assert(self.feeds(p[p.len() - 2], p[p.len() - 2 + 1]));
        if p.len() > 2 {
            let q = p.drop_last();
            assert forall|i: int| 0 <= i < q.len() - 1 implies #[trigger] self.feeds(q[i], q[i + 1]) by {
                assert(self.feeds(p[i], p[i + 1]));
            }
            assert(self.leads(q, from, k));
        }
        k
    }

    /// A set that holds the readers of `from` and of each of its own members holds
    /// every dependent of `from`.
    pub proof fn lemma_closed_holds_dependents(self, from: u32, set: Set<u32>, m: u32)
        requires
            forall|k: u32, d: u32|
                (k == from || set.contains(k)) && (#[trigger] self.feeds(k, d)) ==> set.contains(d),
            self.reaches(from, m),
        ensures
            set.contains(m),
    {
        let p = choose|p: Seq<u32>| self.leads(p, from, m);
        self.lemma_closed_along(from, set, p, p.len() - 1);
    }

    proof fn lemma_closed_along(self, from: u32, set: Set<u32>, p: Seq<u32>, i: int)
        requires
            forall|k: u32, d: u32|
                (k == from || set.contains(k)) && (#[trigger] self.feeds(k, d)) ==> set.contains(d),
            p.len() >= 1,
            p[0] == from,
            self.is_path(p),
            0 <= i < p.len(),
        ensures
            i > 0 ==> set.contains(p[i]),
        decreases i,
    {
        if i > 0 {
            self.lemma_closed_along(from, set, p, i - 1);
            assert(self.feeds(p[i - 1], p[i - 1 + 1]));
        }
    }

    /// Whether node `m`, stale, has lost every reason to be within `steps` rounds of
    /// taking back: each of its reasons is a dependency that is `from` itself or has
    /// been freed in an earlier round.
    pub open spec fn freed_within(self, from: u32, steps: nat, m: u32) -> bool
        decreases steps,
    {
        &&& steps > 0
        &&& m < self.n()
        &&& self.is_stale(m)
        &&& forall|r: Reason|
            #![trigger self.reasons[m as int].contains(r)]
            self.reasons[m as int].contains(r) ==> match r {
                Reason::Read(k) => self.feeds(k, m) && (k == from || self.freed_within(
                    from,
                    (steps - 1) as nat,
                    k,
                )),
                Reason::Owed => false,
            }
    }

    /// Whether node `m` stops being stale because `from` produced what it had before.
    pub open spec fn freed(self, from: u32, m: u32) -> bool {
        exists|steps: nat| self.freed_within(from, steps, m)
    }

    /// Everything that stops being stale because `from` produced what it had before.
    pub open spec fn freed_set(self, from: u32) -> Set<u32> {
        Set::new(|m: u32| self.freed(from, m))
    }

    /// Whether `r`, held by node `m`, is taken back: it is an edge to `from` or to a
    /// node that has been freed.
    pub open spec fn taken_back(self, from: u32, m: u32, r: Reason) -> bool {
        match r {
            Reason::Read(k) => self.feeds(k, m) && (k == from || self.freed(from, k)),
            Reason::Owed => false,
        }
    }

    /// `from` has recomputed to the value it already had: it is no longer a reason for
    /// its readers, and neither is any reader that has none left.
    pub open spec fn unchanged(self, from: u32) -> LedgerView {
        LedgerView {
            reasons: Seq::new(
                self.n(),
                |m: int|
                    Set::new(
                        |r: Reason|
                            self.reasons[m].contains(r) && !self.taken_back(from, m as u32, r),
                    ),
            ),
            ..self
        }
    }

    /// More rounds free no fewer nodes.
    pub proof fn lemma_freed_grows(self, from: u32, few: nat, many: nat, m: u32)
        requires
            few <= many,
            self.freed_within(from, few, m),
        ensures
            self.freed_within(from, many, m),
        decreases few,
    {
        assert forall|r: Reason|
            #![trigger self.reasons[m as int].contains(r)]
            self.reasons[m as int].contains(r) implies match r {
            Reason::Read(k) => self.feeds(k, m) && (k == from || self.freed_within(
                from,
                (many - 1) as nat,
                k,
            )),
            Reason::Owed => false,
        } by {
            if let Reason::Read(k) = r {
                if k != from {
                    self.lemma_freed_grows(from, (few - 1) as nat, (many - 1) as nat, k);
                }
            }
        }
    }
}

/// Put every item of `readers` at the back of `queue`, each with the dependency it
/// was reached through.
fn enqueue(queue: &mut VecDeque<(u32, u32)>, readers: &NodeSet, through: u32)
    ensures
        final(queue)@ == old(queue)@ + readers.seq().map_values(|d: u32| (d, through)),
{
    let mut i: usize = 0;
    let list: Vec<u32> = readers.items();
    let total: usize = list.len();
    while i < total
        invariant
            i <= total,
            total == list@.len(),
            list@ == readers.seq(),
            queue@ == old(queue)@ + readers.seq().take(i as int).map_values(|d: u32| (d, through)),
        decreases total - i,
    {
        queue.push_back((list[i], through));
        i = i + 1;
        assert(queue@ =~= old(queue)@ + readers.seq().take(i as int).map_values(
            |d: u32| (d, through),
        ));
    }
    assert(readers.seq().take(i as int) =~= readers.seq());
}

impl Ledger {
    /// The open runs are of minted nodes, the sets of the graph are in order, and the
    /// index of readers is the reads turned round.
    spec fn indexed(&self) -> bool {
        &&& self.readers@.len() == self.labels@.len()
        &&& forall|d: int|
            0 <= d < self.running@.len() ==> (#[trigger] self.running@[d]).node < self.labels@.len()
        &&& forall|k: u32|
            k < self.readers@.len() ==> (#[trigger] self.readers@[k as int])@ == self@.readers(k)
    }

    /// A well-formed ledger is indexed, and stays so while only reasons move.
    proof fn lemma_still_indexed(&self, was: &Ledger)
        requires
            was.wf(),
            self.same_but_reasons(was),
        ensures
            self.indexed(),
            forall|k: u32| self@.followers(k) == was@.followers(k),
    {
        assert forall|d: int| 0 <= d < self.running@.len() implies (#[trigger] self.running@[d]).node
            < self.labels@.len() by {
            assert(was@.running[d].node < was@.n());
        }
        assert(self@.reads =~= was@.reads);
        assert(self@.running =~= was@.running);
        assert forall|k: u32| self@.readers(k) == was@.readers(k) by {
            assert(self@.readers(k) =~= was@.readers(k));
        }
        lemma_feeds_by_reads(self@, was@);
    }

    /// Everything that a change of node `k` concerns: who read it, and who is reading it.
    fn follow(&self, k: u32) -> (r: NodeSet)
        requires
            self.indexed(),
            k < self.readers@.len(),
        ensures
            r@ == self@.followers(k),
    {
        let mut r: NodeSet = self.readers[k as usize].duplicate();
        let mut d: usize = 0;
        while d < self.running.len()
            invariant
                self.indexed(),
                k < self.readers@.len(),
                d <= self.running@.len(),
                forall|m: u32|
                    r@.contains(m) <==> self@.readers(k).contains(m) || exists|e: int|
                        0 <= e < d && (#[trigger] self@.running[e]).node == m
                            && self@.running[e].seen.contains(k),
            decreases self.running@.len() - d,
        {
            let ghost before = r@;
            let scope: &crate::track::Scope = &self.running[d];
            if scope.scratch.contains(k) {
                r.insert(scope.node);
            }
            proof {
                let run = self@.running[d as int];
                assert forall|m: u32|
                    r@.contains(m) <==> self@.readers(k).contains(m) || exists|e: int|
                        0 <= e < d + 1 && (#[trigger] self@.running[e]).node == m
                            && self@.running[e].seen.contains(k) by {
                    if before.contains(m) && !self@.readers(k).contains(m) {
                        let e = choose|e: int|
                            0 <= e < d && (#[trigger] self@.running[e]).node == m
                                && self@.running[e].seen.contains(k);
                        assert(0 <= e < d + 1 && self@.running[e].node == m);
                    }
                    if run.node == m && run.seen.contains(k) {
                        assert(self@.running[d as int].node == m);
                    }
                }
            }
            d = d + 1;
        }
        assert forall|m: u32| r@.contains(m) <==> self@.followers(k).contains(m) by {
            if self@.sees(k, m) {
                let e = choose|e: int|
                    0 <= e < self@.running.len() && (#[trigger] self@.running[e]).node == m
                        && self@.running[e].seen.contains(k);
                assert(self.running@[e].node < self.labels@.len());
            }
        }
        assert(r@ =~= self@.followers(k));
        r
    }

    /// What the walk from `from` leaves alone.
    spec fn same_but_reasons(&self, was: &Ledger) -> bool {
        &&& self.id == was.id
        &&& self.labels == was.labels
        &&& self.running == was.running
        &&& self.reads == was.reads
        &&& self.readers == was.readers
        &&& self.revisions == was.revisions
        &&& self.subscribers == was.subscribers
        &&& self.wakers == was.wakers
        &&& self.stale@.len() == was.stale@.len()
    }

    /// Declare that `node`'s value has changed: bump its revision, mark every node
    /// that read it stale, transitively, and tell the subscribers. A run that is still
    /// open counts with what it has read so far: its node may hold the value from before.
    ///
    /// Returns how many nodes became stale. Each node is marked with every
    /// dependency the change reached it through. Subscribers are woken only if
    /// something read `node`.
    pub fn changed(&mut self, node: NodeId, wakes: &mut Wakes) -> (r: usize)
        requires
            old(self).wf(),
            old(self)@.holds(node),
            old(self)@.revisions[node.at() as int] < u64::MAX,
            old(wakes).wf(),
        ensures
            final(self).wf(),
            final(self)@ == old(self)@.changed(node.at()),
            old(self)@.later(final(self)@),
            r == old(self)@.newly_stale(node.at()).len(),
            final(wakes).wf(),
            final(wakes)@ == (if old(self)@.followers(node.at()) == Set::<u32>::empty() {
                old(wakes)@
            } else {
                woken_all(old(wakes)@, old(self)@.subscribers)
            }),
    {
        let index: usize = self.check(node);
        let ghost was = self@;
        let revision: u64 = self.revisions[index];
        self.revisions.set(index, revision + 1);
        proof {
            assert(self@.reads =~= was.reads);
            assert(self@.reasons =~= was.reasons);
            crate::track::lemma_readers_by_reads(was, self@);
            crate::track::lemma_sane_by_reasons(was, self@);
        }
        let ghost bumped = self@;
        let (marked, any) = self.spread(node.index);
        proof {
            lemma_reach_by_reads(was, bumped);
            assert forall|m: int| 0 <= m < was.n() implies bumped.reasons_after_change(
                node.at(),
                m,
            ) == was.reasons_after_change(node.at(), m) by {
                assert(bumped.reasons_after_change(node.at(), m) =~= was.reasons_after_change(
                    node.at(),
                    m,
                ));
            }
            assert(self@ =~~= was.changed(node.at()));
            assert(bumped.newly_stale(node.at()) =~= was.newly_stale(node.at()));
            lemma_feeds_by_reads(was, bumped);
            was.lemma_later_transitive(bumped, self@);
        }
        if any {
            wakes.ring_all(&self.subscribers);
        }
        marked
    }

    /// Mark the dependents of `from`, each with the dependencies it was reached
    /// through. Answers how many were not stale before, and whether there were any.
    fn spread(&mut self, from: u32) -> (r: (usize, bool))
        requires
            old(self).wf(),
            from < old(self)@.n(),
        ensures
            final(self).wf(),
            final(self)@ == (LedgerView {
                reasons: Seq::new(
                    old(self)@.n(),
                    |m: int| old(self)@.reasons_after_change(from, m),
                ),
                ..old(self)@
            }),
            old(self)@.later(final(self)@),
            r.0 == old(self)@.newly_stale(from).len(),
            r.1 == (old(self)@.followers(from) != Set::<u32>::empty()),
    {
        let ghost start = self@;
        proof {
            self.lemma_still_indexed(self);
        }
        let mut visited: NodeSet = NodeSet::new();
        let mut queue: VecDeque<(u32, u32)> = VecDeque::new();
        let mut marked: usize = 0;
        let total: usize = self.labels.len();
        let first: NodeSet = self.follow(from);
        enqueue(&mut queue, &first, from);
        let ghost mut fresh: Set<u32> = Set::empty();
        proof {
            first.lemma_seq();
            assert forall|k: u32, m: u32| k == from && (#[trigger] start.feeds(k, m)) implies queue@.contains(
                (m, k),
            ) by {
                assert(start.followers(from).contains(m));
                let i = choose|i: int| 0 <= i < first.seq().len() && first.seq()[i] == m;
                assert(queue@[i] == (m, k));
            }
            assert forall|i: int| 0 <= i < queue@.len() implies {
                &&& start.feeds(#[trigger] queue@[i].1, queue@[i].0)
                &&& start.moved(from, queue@[i].1)
            } by {
                assert(start.followers(from).contains(first.seq()[i]));
            }
        }
        while queue.len() > 0
            invariant
                start == old(self)@,
                old(self).wf(),
                from < start.n(),
                self.same_but_reasons(old(self)),
                // What is queued is an edge from something that moved.
                forall|i: int|
                    0 <= i < queue@.len() ==> {
                        &&& start.feeds(#[trigger] queue@[i].1, queue@[i].0)
                        &&& start.moved(from, queue@[i].1)
                    },
                // What was visited is a dependent, and is stale.
                forall|v: u32|
                    #[trigger] visited@.contains(v) ==> v < start.n() && start.reaches(from, v)
                        && self@.is_stale(v),
                // What was not visited is as it was.
                forall|m: u32|
                    m < start.n() && !visited@.contains(m) ==> self.stale@[m as int].view()
                        == #[trigger] start.reasons[m as int],
                // Reasons are only added, and only edges from something that moved.
                forall|m: u32, q: Reason|
                    #![trigger self.stale@[m as int].view().contains(q)]
                    m < start.n() ==> (start.reasons[m as int].contains(q)
                        ==> self.stale@[m as int].view().contains(q)),
                forall|m: u32, q: Reason|
                    #![trigger self.stale@[m as int].view().contains(q)]
                    m < start.n() && self.stale@[m as int].view().contains(q) ==> (
                    start.reasons[m as int].contains(q) || match q {
                        Reason::Read(k) => start.feeds(k, m) && start.moved(from, k),
                        Reason::Owed => false,
                    }),
                // An edge out of what has been visited is recorded or queued.
                forall|k: u32, m: u32|
                    (k == from || visited@.contains(k)) && (#[trigger] start.feeds(k, m)) ==> (
                    queue@.contains((m, k)) || (visited@.contains(m)
                        && self.stale@[m as int].view().contains(Reason::Read(k)))),
                // The count is of visited nodes that were not stale at the start.
                fresh == visited@.filter(|m: u32| !start.is_stale(m)),
                fresh.finite(),
                marked == fresh.len(),
                marked <= visited@.len() <= start.n(),
                total == start.n(),
            decreases start.n() - visited@.len(), queue@.len(),
        {
            let ghost before = queue@;
            let ghost seen = visited@;
            let ghost held = self.stale@;
            let (next, through) = queue.pop_front().unwrap();
            proof {
                assert(before[0] == (next, through));
                assert(start.feeds(before[0].1, before[0].0));
                start.lemma_reach_step(from, through, next);
                assert(self@.reasons[next as int] == held[next as int].view());
            }
            let was_stale = !self.stale[next as usize].is_none();
            let owed: bool = self.stale[next as usize].owed;
            let mut reached: NodeSet = self.stale[next as usize].through.duplicate();
            reached.insert(through);
            self.stale.set(next as usize, crate::track::Reasons { through: reached, owed });
            let new = visited.insert(next);
            proof {
                assert(self.stale@[next as int].view() =~= held[next as int].view().insert(
                    Reason::Read(through),
                ));
                assert(self.stale@[next as int].view().contains(Reason::Read(through)));
                assert(self@.reasons[next as int] == self.stale@[next as int].view());
                crate::node_set::lemma_few_below(visited@, start.n());
                crate::node_set::lemma_few_below(seen, start.n());
                if was_stale {
                    assert(seen.contains(next) || start.is_stale(next));
                    assert(visited@.filter(|m: u32| !start.is_stale(m)) =~= fresh);
                } else {
                    assert(held[next as int].view() =~= Set::<Reason>::empty());
                    assert(!seen.contains(next)) by {
                        if seen.contains(next) {
                            assert(self@.is_stale(next));
                        }
                    }
                    assert(!start.is_stale(next));
                    assert(visited@.filter(|m: u32| !start.is_stale(m)) =~= fresh.insert(next));
                    assert(!fresh.contains(next));
                    fresh = fresh.insert(next);
                }
                assert forall|v: u32| #[trigger] visited@.contains(v) implies v < start.n()
                    && start.reaches(from, v) && self@.is_stale(v) by {
                    if v != next {
                        assert(seen.contains(v));
                        assert(self.stale@[v as int] == held[v as int]);
                        assert(self@.reasons[v as int] == held[v as int].view());
                    }
                }
                assert(fresh.subset_of(visited@));
                vstd::set_lib::lemma_len_subset(fresh, visited@);
            }
            if !was_stale {
                marked = marked + 1;
            }
            let ghost popped = queue@;
            proof {
                self.lemma_still_indexed(old(self));
            }
            let more: NodeSet = self.follow(next);
            if new {
                enqueue(&mut queue, &more, next);
            }
            proof {
                more.lemma_seq();
                assert(more@ == start.followers(next));
                assert forall|i: int| 0 <= i < queue@.len() implies {
                    &&& start.feeds(#[trigger] queue@[i].1, queue@[i].0)
                    &&& start.moved(from, queue@[i].1)
                } by {
                    if i < popped.len() {
                        assert(queue@[i] == before[i + 1]);
                        assert(start.feeds(before[i + 1].1, before[i + 1].0));
                    } else {
                        let j = i - popped.len();
                        assert(queue@[i] == (more.seq()[j], next));
                        assert(more@.contains(more.seq()[j]));
                    }
                }
                assert forall|k: u32, m: u32|
                    (k == from || visited@.contains(k)) && (#[trigger] start.feeds(k, m)) implies (
                queue@.contains((m, k)) || (visited@.contains(m) && self.stale@[m as int].view().contains(
                    Reason::Read(k),
                ))) by {
                    if k == from || seen.contains(k) {
                        if before.contains((m, k)) {
                            let i = choose|i: int| 0 <= i < before.len() && before[i] == (m, k);
                            if i > 0 {
                                assert(popped[i - 1] == (m, k));
                                assert(queue@[i - 1] == (m, k));
                            }
                        } else {
                            assert(seen.contains(m) && held[m as int].view().contains(
                                Reason::Read(k),
                            ));
                        }
                    } else {
                        assert(k == next && new);
                        assert(start.followers(next).contains(m));
                        let j = choose|j: int| 0 <= j < more.seq().len() && more.seq()[j] == m;
                        assert(queue@[popped.len() + j] == (m, k));
                    }
                }
            }
        }
        let any = !visited.is_empty();
        proof {
            let now = self@;
            assert forall|m: u32| start.reaches(from, m) <==> visited@.contains(m) by {
                if start.reaches(from, m) {
                    assert forall|k: u32, d: u32|
                        (k == from || visited@.contains(k)) && (#[trigger] start.feeds(
                            k,
                            d,
                        )) implies visited@.contains(d) by {
                        assert(!queue@.contains((d, k)));
                    }
                    start.lemma_closed_holds_dependents(from, visited@, m);
                }
            }
            assert forall|m: int| 0 <= m < start.n() implies (#[trigger] now.reasons[m])
                == start.reasons_after_change(from, m) by {
                let at = m as u32;
                assert forall|q: Reason|
                    now.reasons[m].contains(q) <==> start.reasons_after_change(from, m).contains(
                        q,
                    ) by {
                    assert(now.reasons[m] == self.stale@[at as int].view());
                    assert(self.stale@[at as int].view().contains(q) ==> (
                    start.reasons[m].contains(q) || match q {
                        Reason::Read(k) => start.feeds(k, at) && start.moved(from, k),
                        Reason::Owed => false,
                    }));
                    if let Reason::Read(k) = q {
                        if start.feeds(k, at) && start.moved(from, k) {
                            assert(start.feeds(k, at));
                            assert(!queue@.contains((at, k)));
                        }
                    }
                }
                assert(now.reasons[m] =~= start.reasons_after_change(from, m));
            }
            assert(now =~~= (LedgerView {
                reasons: Seq::new(start.n(), |m: int| start.reasons_after_change(from, m)),
                ..start
            }));
            assert(fresh =~= start.newly_stale(from));
            crate::track::lemma_readers_by_reads(start, now);
            assert forall|m: int, k: u32|
                0 <= m < start.n() && (#[trigger] now.reasons[m].contains(
                    Reason::Read(k),
                )) implies start.reasons[m].contains(Reason::Read(k)) || k < start.n() by {
                if !start.reasons[m].contains(Reason::Read(k)) {
                    assert(start.feeds(k, m as u32));
                }
            }
            crate::track::lemma_sane_by_reasons(start, now);
            if start.followers(from) =~= Set::<u32>::empty() {
                if any {
                    visited.lemma_seq();
                    let v = visited.seq()[0];
                    assert(visited@.contains(v));
                    let p = choose|p: Seq<u32>| start.leads(p, from, v);
                    assert(start.feeds(p[0], p[0int + 1]));
                    assert(start.followers(from).contains(p[1]));
                }
            } else {
                let m = choose|m: u32| start.followers(from).contains(m);
                assert(start.feeds(from, m));
                start.lemma_reach_step(from, from, m);
                assert(visited@.contains(m));
            }
        }
        (marked, any)
    }

    /// Declare that `node` has just recomputed to the value it already had, so its
    /// readers may stop counting it as a reason to be stale.
    ///
    /// Returns how many nodes stopped being stale. The retraction is per edge: a
    /// reader stops being stale only when every dependency whose change reached it
    /// has been retracted, and then it is no longer a reason for its own readers
    /// either. A node that owes a value of its own is not retracted.
    pub fn unchanged(&mut self, node: NodeId) -> (r: usize)
        requires
            old(self).wf(),
            old(self)@.holds(node),
        ensures
            final(self).wf(),
            final(self)@ == old(self)@.unchanged(node.at()),
            old(self)@.later(final(self)@),
            r == old(self)@.freed_set(node.at()).len(),
    {
        let from: u32 = node.index;
        let ghost start = self@;
        let mut queue: VecDeque<u32> = VecDeque::new();
        queue.push_back(from);
        let mut cleared: usize = 0;
        let nodes: usize = self.labels.len();
        let ghost mut done: Set<u32> = Set::empty();
        let ghost mut order: Seq<u32> = Seq::empty();
        proof {
            assert forall|m: u32, q: Reason|
                #![trigger self.stale@[m as int].view().contains(q)]
                m < start.n() implies self.stale@[m as int].view().contains(q) == (
            start.reasons[m as int].contains(q) && !retracted(start, done, m, q)) by {
                assert(start.reasons[m as int] == self.stale@[m as int].view());
            }
            assert(queue@[0] == from);
        }
        while queue.len() > 0
            invariant
                start == old(self)@,
                old(self).wf(),
                from < start.n(),
                self.same_but_reasons(old(self)),
                forall|m: u32, q: Reason|
                    #![trigger self.stale@[m as int].view().contains(q)]
                    m < start.n() ==> self.stale@[m as int].view().contains(q) == (
                    start.reasons[m as int].contains(q) && !retracted(start, done, m, q)),
                forall|k: u32| #[trigger] done.contains(k) ==> k == from || order.contains(k),
                forall|i: int|
                    0 <= i < queue@.len() ==> (#[trigger] queue@[i]) < start.n() && (queue@[i] == from
                        || order.contains(queue@[i])),
                done.contains(from) || queue@.contains(from),
                forall|i: int|
                    0 <= i < order.len() ==> done.contains(#[trigger] order[i]) || queue@.contains(
                        order[i],
                    ),
                forall|i: int|
                    0 <= i < order.len() ==> start.freed_within(
                        from,
                        (i + 1) as nat,
                        #[trigger] order[i],
                    ),
                forall|m: u32|
                    #![trigger order.contains(m)]
                    m < start.n() ==> (order.contains(m) <==> start.is_stale(m)
                        && self.stale@[m as int].view() == Set::<Reason>::empty()),
                order.no_duplicates(),
                cleared == order.len(),
                order.len() <= start.n(),
                nodes == start.n(),
            decreases start.n() - order.len(), queue@.len(),
        {
            let ghost before = queue@;
            let ghost order0 = order;
            let next: u32 = queue.pop_front().unwrap();
            assert(before[0] == next);
            proof {
                self.lemma_still_indexed(old(self));
            }
            let readers: NodeSet = self.follow(next);
            proof {
                readers.lemma_seq();
                assert(readers@ == start.followers(next));
                assert forall|k: u32| before.contains(k) implies k == next || queue@.contains(k) by {
                    let i = choose|i: int| 0 <= i < before.len() && before[i] == k;
                    if i > 0 {
                        assert(queue@[i - 1] == k);
                    }
                }
                assert forall|i: int| 0 <= i < queue@.len() implies (#[trigger] queue@[i]) < start.n()
                    && (queue@[i] == from || order.contains(queue@[i])) by {
                    assert(queue@[i] == before[i + 1]);
                }
            }
            let list: Vec<u32> = readers.items();
            let total: usize = list.len();
            let mut i: usize = 0;
            let ghost popped = queue@.len();
            proof {
                assert forall|m: u32, q: Reason|
                    #![trigger self.stale@[m as int].view().contains(q)]
                    m < start.n() implies self.stale@[m as int].view().contains(q) == (
                start.reasons[m as int].contains(q) && !retracted(start, done, m, q) && !(q
                    == Reason::Read(next) && readers.seq().take(0).contains(m))) by {
                    assert(!readers.seq().take(0).contains(m));
                }
            }
            while i < total
                invariant
                    i <= total,
                    total == list@.len(),
                    list@ == readers.seq(),
                    readers@ == start.followers(next),
                    readers@ == readers.seq().to_set(),
                    start == old(self)@,
                    old(self).wf(),
                    from < start.n(),
                    next < start.n(),
                    next == from || order0.contains(next),
                    self.same_but_reasons(old(self)),
                    forall|m: u32, q: Reason|
                        #![trigger self.stale@[m as int].view().contains(q)]
                        m < start.n() ==> self.stale@[m as int].view().contains(q) == (
                        start.reasons[m as int].contains(q) && !retracted(start, done, m, q) && !(q
                            == Reason::Read(next) && readers.seq().take(i as int).contains(m))),
                    forall|k: u32| #[trigger] done.contains(k) ==> k == from || order.contains(k),
                    forall|j: int|
                        0 <= j < queue@.len() ==> (#[trigger] queue@[j]) < start.n() && (queue@[j]
                            == from || order.contains(queue@[j])),
                    done.contains(from) || queue@.contains(from) || next == from,
                    forall|j: int|
                        0 <= j < order.len() ==> done.contains(#[trigger] order[j]) || queue@.contains(
                            order[j],
                        ) || order[j] == next,
                    forall|j: int|
                        0 <= j < order.len() ==> start.freed_within(
                            from,
                            (j + 1) as nat,
                            #[trigger] order[j],
                        ),
                    forall|m: u32|
                        #![trigger order.contains(m)]
                        m < start.n() ==> (order.contains(m) <==> start.is_stale(m)
                            && self.stale@[m as int].view() == Set::<Reason>::empty()),
                    order.no_duplicates(),
                    cleared == order.len(),
                    order.len() <= start.n(),
                    nodes == start.n(),
                    order0.is_prefix_of(order),
                    queue@.len() - popped == order.len() - order0.len(),
                decreases total - i,
            {
                let reader: u32 = list[i];
                let ghost held = self.stale@;
                let ghost shorter = readers.seq().take(i as int);
                let ghost longer = readers.seq().take(i + 1);
                proof {
                    readers.lemma_seq();
                    assert(start.followers(next).contains(reader));
                    assert(start.feeds(next, reader));
                    lemma_take_one_more(readers.seq(), i as int);
                }
                if !self.stale[reader as usize].is_none() {
                    let owed: bool = self.stale[reader as usize].owed;
                    let mut through: NodeSet = self.stale[reader as usize].through.duplicate();
                    through.remove(next);
                    self.stale.set(reader as usize, crate::track::Reasons { through, owed });
                    proof {
                        assert(self.stale@[reader as int].view() =~= held[reader as int].view().remove(
                            Reason::Read(next),
                        ));
                        lemma_one_more(start, held, self.stale@, done, next, reader, shorter, longer);
                    }
                    if self.stale[reader as usize].is_none() {
                        let ghost fewer = order;
                        proof {
                            assert(!fewer.contains(reader));
                            assert(start.is_stale(reader)) by {
                                let q = lemma_some(held[reader as int].view());
                                assert(start.reasons[reader as int].contains(q));
                            }
                            assert(start.freed_within(from, (fewer.len() + 1) as nat, reader)) by {
                                assert forall|q: Reason|
                                    #![trigger start.reasons[reader as int].contains(q)]
                                    start.reasons[reader as int].contains(q) implies match q {
                                    Reason::Read(k) => start.feeds(k, reader) && (k == from
                                        || start.freed_within(from, fewer.len(), k)),
                                    Reason::Owed => false,
                                } by {
                                    assert(!self.stale@[reader as int].view().contains(q));
                                    if let Reason::Read(k) = q {
                                        if k != from {
                                            if k == next {
                                                lemma_prefix_contains(order0, fewer, next);
                                            }
                                            assert(fewer.contains(k));
                                            let j = choose|j: int|
                                                0 <= j < fewer.len() && fewer[j] == k;
                                            start.lemma_freed_grows(
                                                from,
                                                (j + 1) as nat,
                                                fewer.len(),
                                                k,
                                            );
                                        }
                                    }
                                }
                            }
                            order = order.push(reader);
                            assert forall|m: u32| order.contains(m) <==> (fewer.contains(m) || m
                                == reader) by {
                                if fewer.contains(m) {
                                    let j = choose|j: int| 0 <= j < fewer.len() && fewer[j] == m;
                                    assert(order[j] == m);
                                }
                                assert(order[fewer.len() as int] == reader);
                            }
                            lemma_short(order, start.n());
                        }
                        let ghost short = queue@;
                        queue.push_back(reader);
                        proof {
                            assert forall|k: u32| queue@.contains(k) <==> (short.contains(k) || k
                                == reader) by {
                                if short.contains(k) {
                                    let j = choose|j: int| 0 <= j < short.len() && short[j] == k;
                                    assert(queue@[j] == k);
                                }
                                assert(queue@[short.len() as int] == reader);
                            }
                            assert forall|j: int| 0 <= j < order.len() implies done.contains(
                                #[trigger] order[j],
                            ) || queue@.contains(order[j]) || order[j] == next by {
                                if j < fewer.len() {
                                    assert(order[j] == fewer[j]);
                                    if short.contains(fewer[j]) {
                                        assert(queue@.contains(fewer[j]));
                                    }
                                } else {
                                    assert(order[j] == reader);
                                    assert(queue@[short.len() as int] == reader);
                                }
                            }
                            assert forall|j: int| 0 <= j < order.len() implies start.freed_within(
                                from,
                                (j + 1) as nat,
                                #[trigger] order[j],
                            ) by {
                                if j < fewer.len() {
                                    assert(order[j] == fewer[j]);
                                }
                            }
                            assert forall|j: int| 0 <= j < queue@.len() implies (
                            #[trigger] queue@[j]) < start.n() && (queue@[j] == from
                                || order.contains(queue@[j])) by {
                                if j < short.len() {
                                    assert(queue@[j] == short[j]);
                                }
                            }
                        }
                        cleared = cleared + 1;
                        proof {
                            assert forall|m: u32|
                                #![trigger order.contains(m)]
                                m < start.n() implies (order.contains(m) <==> start.is_stale(m)
                                && self.stale@[m as int].view() == Set::<Reason>::empty()) by {
                                assert(fewer.contains(m) <==> start.is_stale(m)
                                    && held[m as int].view() == Set::<Reason>::empty());
                            }
                        }
                    } else {
                        proof {
                            assert forall|m: u32|
                                #![trigger order.contains(m)]
                                m < start.n() implies (order.contains(m) <==> start.is_stale(m)
                                && self.stale@[m as int].view() == Set::<Reason>::empty()) by {
                                assert(order.contains(m) <==> start.is_stale(m)
                                    && held[m as int].view() == Set::<Reason>::empty());
                            }
                        }
                    }
                } else {
                    proof {
                        assert(held[reader as int].view() =~= held[reader as int].view().remove(
                            Reason::Read(next),
                        ));
                        lemma_one_more(start, held, self.stale@, done, next, reader, shorter, longer);
                    }
                }
                i = i + 1;
            }
            proof {
                assert(readers.seq().take(i as int) =~= readers.seq());
                let more = done.insert(next);
                assert forall|m: u32, q: Reason|
                    #![trigger self.stale@[m as int].view().contains(q)]
                    m < start.n() implies self.stale@[m as int].view().contains(q) == (
                start.reasons[m as int].contains(q) && !retracted(start, more, m, q)) by {
                    assert(start.feeds(next, m) <==> start.followers(next).contains(m));
                    assert(readers.seq().contains(m) <==> start.followers(next).contains(m));
                }
                if next != from {
                    lemma_prefix_contains(order0, order, next);
                }
                done = more;
            }
        }
        proof {
            let now = self@;
            assert forall|m: u32| start.freed(from, m) <==> order.contains(m) by {
                if order.contains(m) {
                    let i = choose|i: int| 0 <= i < order.len() && order[i] == m;
                    assert(start.freed_within(from, (i + 1) as nat, m));
                }
                if start.freed(from, m) {
                    let steps = choose|steps: nat| start.freed_within(from, steps, m);
                    lemma_all_freed(start, self.stale@, done, order, from, steps, m);
                }
            }
            assert forall|m: int| 0 <= m < start.n() implies (#[trigger] now.reasons[m])
                == start.unchanged(from).reasons[m] by {
                let at = m as u32;
                assert(now.reasons[m] == self.stale@[at as int].view());
                assert forall|q: Reason|
                    now.reasons[m].contains(q) <==> start.unchanged(from).reasons[m].contains(q) by {
                    assert(self.stale@[at as int].view().contains(q) == (
                    start.reasons[at as int].contains(q) && !retracted(start, done, at, q)));
                    if let Reason::Read(k) = q {
                        if order.contains(k) {
                            let i = choose|i: int| 0 <= i < order.len() && order[i] == k;
                            assert(done.contains(order[i]));
                        }
                    }
                }
                assert(now.reasons[m] =~= start.unchanged(from).reasons[m]);
            }
            assert(now =~~= start.unchanged(from));
            crate::track::lemma_readers_by_reads(start, now);
            crate::track::lemma_sane_by_reasons(start, now);
            assert(order.to_set() =~= start.freed_set(from));
            order.unique_seq_to_set();
        }
        cleared
    }
}

/// Whether `q`, held by node `m`, has been taken back once every node of `done` has
/// stopped being a reason.
spec fn retracted(start: LedgerView, done: Set<u32>, m: u32, q: Reason) -> bool {
    match q {
        Reason::Read(k) => start.feeds(k, m) && done.contains(k),
        Reason::Owed => false,
    }
}

/// Taking `next` from one more reader takes back that one reason and no other.
proof fn lemma_one_more(
    start: LedgerView,
    held: Seq<crate::track::Reasons>,
    now: Seq<crate::track::Reasons>,
    done: Set<u32>,
    next: u32,
    reader: u32,
    shorter: Seq<u32>,
    longer: Seq<u32>,
)
    requires
        reader < start.n(),
        start.n() <= u32::MAX + 1,
        held.len() == start.n(),
        now.len() == start.n(),
        forall|m: u32, q: Reason|
            #![trigger held[m as int].view().contains(q)]
            m < start.n() ==> held[m as int].view().contains(q) == (
            start.reasons[m as int].contains(q) && !retracted(start, done, m, q) && !(q
                == Reason::Read(next) && shorter.contains(m))),
        forall|m: u32| longer.contains(m) <==> (shorter.contains(m) || m == reader),
        forall|m: int| 0 <= m < start.n() && m != reader ==> now[m] == held[m],
        now[reader as int].view() == held[reader as int].view().remove(Reason::Read(next)),
    ensures
        forall|m: u32, q: Reason|
            #![trigger now[m as int].view().contains(q)]
            m < start.n() ==> now[m as int].view().contains(q) == (
            start.reasons[m as int].contains(q) && !retracted(start, done, m, q) && !(q
                == Reason::Read(next) && longer.contains(m))),
{
    assert forall|m: u32, q: Reason|
        #![trigger now[m as int].view().contains(q)]
        m < start.n() implies now[m as int].view().contains(q) == (
    start.reasons[m as int].contains(q) && !retracted(start, done, m, q) && !(q == Reason::Read(
        next,
    ) && longer.contains(m))) by {
        assert(held[m as int].view().contains(q) == (start.reasons[m as int].contains(q)
            && !retracted(start, done, m, q) && !(q == Reason::Read(next) && shorter.contains(m))));
        if m != reader {
            assert(now[m as int] == held[m as int]);
        }
    }
}

/// Once nothing is queued, everything that can be freed has been.
proof fn lemma_all_freed(
    start: LedgerView,
    now: Seq<crate::track::Reasons>,
    done: Set<u32>,
    order: Seq<u32>,
    from: u32,
    steps: nat,
    m: u32,
)
    requires
        start.freed_within(from, steps, m),
        forall|m: u32, q: Reason|
            #![trigger now[m as int].view().contains(q)]
            m < start.n() ==> now[m as int].view().contains(q) == (
            start.reasons[m as int].contains(q) && !retracted(start, done, m, q)),
        done.contains(from),
        forall|i: int| 0 <= i < order.len() ==> done.contains(#[trigger] order[i]),
        forall|m: u32|
            #![trigger order.contains(m)]
            m < start.n() ==> (order.contains(m) <==> start.is_stale(m) && now[m as int].view()
                == Set::<Reason>::empty()),
    ensures
        order.contains(m),
    decreases steps,
{
    assert forall|q: Reason| !now[m as int].view().contains(q) by {
        assert(now[m as int].view().contains(q) == (start.reasons[m as int].contains(q)
            && !retracted(start, done, m, q)));
        if start.reasons[m as int].contains(q) {
            if let Reason::Read(k) = q {
                if k != from {
                    lemma_all_freed(start, now, done, order, from, (steps - 1) as nat, k);
                    let i = choose|i: int| 0 <= i < order.len() && order[i] == k;
                    assert(done.contains(order[i]));
                }
            }
        }
    }
    assert(now[m as int].view() =~= Set::<Reason>::empty());
}

/// A set that is not empty has a member.
pub(crate) proof fn lemma_some<A>(s: Set<A>) -> (a: A)
    requires
        s != Set::<A>::empty(),
    ensures
        s.contains(a),
{
    if forall|a: A| !s.contains(a) {
        assert(s =~= Set::<A>::empty());
    }
    choose|a: A| s.contains(a)
}

proof fn lemma_prefix_contains(short: Seq<u32>, long: Seq<u32>, x: u32)
    requires
        short.is_prefix_of(long),
        short.contains(x),
    ensures
        long.contains(x),
{
    let i = choose|i: int| 0 <= i < short.len() && short[i] == x;
    assert(long[i] == x);
}

/// A listing without repeats of indices below `n` has at most `n` items.
pub(crate) proof fn lemma_short(s: Seq<u32>, n: nat)
    requires
        s.no_duplicates(),
        forall|i: int| 0 <= i < s.len() ==> (#[trigger] s[i]) < n,
    ensures
        s.len() <= n,
{
    s.unique_seq_to_set();
    assert forall|x: u32| s.to_set().contains(x) implies x < n by {
        let i = choose|i: int| 0 <= i < s.len() && s[i] == x;
    }
    crate::node_set::lemma_few_below(s.to_set(), n);
}

/// Ledgers whose nodes read alike, and are reading alike, have the same edges.
pub(crate) proof fn lemma_feeds_by_reads(a: LedgerView, b: LedgerView)
    requires
        a.n() == b.n(),
        a.reads == b.reads,
        a.running == b.running,
    ensures
        forall|k: u32, m: u32| #[trigger] a.feeds(k, m) == b.feeds(k, m),
        forall|k: u32| a.followers(k) == b.followers(k),
{
    assert forall|k: u32, m: u32| #[trigger] a.feeds(k, m) == b.feeds(k, m) by {
        assert(a.sees(k, m) == b.sees(k, m));
    }
    assert forall|k: u32| a.followers(k) == b.followers(k) by {
        assert(a.followers(k) =~= b.followers(k));
    }
}

/// Ledgers whose nodes read alike, and are reading alike, have the same paths.
pub(crate) proof fn lemma_reach_by_reads(a: LedgerView, b: LedgerView)
    requires
        a.n() == b.n(),
        a.reads == b.reads,
        a.running == b.running,
    ensures
        forall|from: u32, m: u32| a.reaches(from, m) == b.reaches(from, m),
{
    assert forall|from: u32, m: u32| a.reaches(from, m) == b.reaches(from, m) by {
        if a.reaches(from, m) {
            let p = choose|p: Seq<u32>| a.leads(p, from, m);
            assert forall|i: int| 0 <= i < p.len() - 1 implies #[trigger] b.feeds(p[i], p[i + 1]) by {
                assert(a.feeds(p[i], p[i + 1]));
            }
            assert(b.leads(p, from, m));
        }
        if b.reaches(from, m) {
            let p = choose|p: Seq<u32>| b.leads(p, from, m);
            assert forall|i: int| 0 <= i < p.len() - 1 implies #[trigger] a.feeds(p[i], p[i + 1]) by {
                assert(b.feeds(p[i], p[i + 1]));
            }
            assert(a.leads(p, from, m));
        }
    }
}

} // verus!
