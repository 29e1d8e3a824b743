//! Wake targets: who is told that a poll is worth repeating.
//!
//! A poll that has no answer yet leaves a [`Waker`] with whoever will land one.
//! Waking it marks its target, and every target it forwards to, until the target's
//! owner takes the mark. [`Wakes`] is where the marks live, and where the wakers that are
//! being kept are counted: there is no waker that was not counted when it was made. A waker
//! that is dropped takes its share of the target's token with it, so that it can be asked
//! at any time whether one is left.

use std::sync::Arc;

use vstd::prelude::*;

verus! {

/// How many shares of `token` there are, this one among them: `Arc::strong_count`. Which
/// shares have been dropped by now is not in the state of anything here, so that there is
/// this one is all that is claimed.
#[verifier::external_body]
fn shares(token: &Arc<()>) -> (r: usize)
    ensures
        r >= 1,
{
    Arc::strong_count(token)
}

/// Ask `f` about `token`: the answer is one that `f` gave.
fn ask_of<F: Fn(&Arc<()>) -> usize>(f: F, token: &Arc<()>) -> (r: usize)
    requires
        call_requires(f, (token,)),
    ensures
        call_ensures(f, (token,), r),
{
    f(token)
}

/// One more share of `token`.
fn another(token: &Arc<()>) -> (r: Arc<()>) {
    token.clone()
}

/// Have a share of `token` from `f`: it is one that `f` gave.
fn share_of<F: Fn(&Arc<()>) -> Arc<()>>(f: F, token: &Arc<()>) -> (r: Arc<()>)
    requires
        call_requires(f, (token,)),
    ensures
        call_ensures(f, (token,), r),
{
    f(token)
}

/// Which target a waker wakes. To name a target is not to wake it: that takes a
/// [`Waker`].
#[derive(Clone, Copy, PartialEq, Eq, Structural, Hash, Debug)]
pub enum WakerId {
    /// None.
    Noop,
    /// The target minted under this number, and whatever it forwards to.
    Target(usize),
}

/// A handle that wakes a target. It is had from [`Wakes::keep`] alone, which counts it, and
/// it cannot be copied. It is given up by [`Wakes::release`], and as well by being dropped.
#[derive(Debug)]
pub struct Waker {
    to: WakerId,
    token: Arc<()>,
}

impl View for Waker {
    type V = WakerId;

    closed spec fn view(&self) -> WakerId {
        self.to
    }
}

impl Waker {
    /// Which target this wakes.
    pub fn id(&self) -> (r: WakerId)
        ensures
            r == self@,
    {
        self.to
    }

    /// Whether both handles wake the same target.
    pub fn will_wake(&self, other: &Waker) -> (r: bool)
        ensures
            r == (self@ == other@),
    {
        self.to == other.to
    }
}

/// One wake target.
#[derive(Clone, Copy, Debug)]
pub struct Target {
    /// Whom a wake is passed on to.
    pub forward: WakerId,
    /// Whether a wake has arrived since the mark was last taken.
    pub woken: bool,
    /// How many wakes have arrived in all, up to what a `usize` can count.
    pub rung: usize,
    /// How many wakers of this target have been kept and not released, up to what a `usize`
    /// can count.
    pub held: usize,
    /// How many shares of the target's token there were when that was last asked, the
    /// target's own among them. None as long as it has not been asked.
    pub found: usize,
}

/// A target that passes its wakes on to `forward` and has not been heard of yet.
pub open spec fn fresh_target(forward: WakerId) -> Target {
    Target { forward, woken: false, rung: 0, held: 0, found: 0 }
}

/// `was` and `n` more, up to what a `usize` can count.
pub open spec fn counted(was: usize, n: nat) -> usize {
    if was + n <= usize::MAX {
        (was + n) as usize
    } else {
        usize::MAX
    }
}

/// Whether waking `from` reaches target `t`: it is the target itself or one that
/// the target forwards to, at any distance.
pub open spec fn on_path(targets: Seq<Target>, from: WakerId, t: int) -> bool
    decreases
            (match from {
                WakerId::Noop => 0nat,
                WakerId::Target(k) => (k + 1) as nat,
            }),
{
    match from {
        WakerId::Noop => false,
        WakerId::Target(k) => k < targets.len() && (t == k || match targets[k as int].forward {
            WakerId::Noop => false,
            WakerId::Target(j) => j < k && on_path(targets, WakerId::Target(j), t),
        }),
    }
}

/// Whether waking any of `wakers` reaches target `t`.
pub open spec fn any_path(targets: Seq<Target>, wakers: Seq<WakerId>, t: int) -> bool {
    exists|i: int| 0 <= i < wakers.len() && #[trigger] on_path(targets, wakers[i], t)
}

/// How many of `wakers` reach target `t` when they are woken.
pub open spec fn times(targets: Seq<Target>, wakers: Seq<WakerId>, t: int) -> nat
    decreases wakers.len(),
{
    if wakers.len() == 0 {
        0
    } else {
        times(targets, wakers.drop_last(), t) + once(targets, wakers.last(), t)
    }
}

/// How often a wake of `from` reaches target `t`: once or not at all.
pub open spec fn once(targets: Seq<Target>, from: WakerId, t: int) -> nat {
    if on_path(targets, from, t) {
        1
    } else {
        0
    }
}

/// The targets after every one of `wakers` has been woken.
pub open spec fn woken_all(targets: Seq<Target>, wakers: Seq<WakerId>) -> Seq<Target> {
    Seq::new(
        targets.len(),
        |t: int|
            Target {
                woken: targets[t].woken || any_path(targets, wakers, t),
                rung: counted(targets[t].rung, times(targets, wakers, t)),
                ..targets[t]
            },
    )
}

/// The targets after `waker` has been woken.
pub open spec fn woken(targets: Seq<Target>, waker: WakerId) -> Seq<Target> {
    Seq::new(
        targets.len(),
        |t: int|
            Target {
                woken: targets[t].woken || on_path(targets, waker, t),
                rung: counted(targets[t].rung, once(targets, waker, t)),
                ..targets[t]
            },
    )
}

/// Two lists of targets that forward alike.
pub open spec fn same_forwards(a: Seq<Target>, b: Seq<Target>) -> bool {
    &&& a.len() <= b.len()
    &&& forall|t: int| 0 <= t < a.len() ==> (#[trigger] b[t]).forward == a[t].forward
}

/// Paths follow forwards alone, so lists that forward alike have the same paths.
pub proof fn lemma_path_by_forwards(a: Seq<Target>, b: Seq<Target>, from: WakerId, t: int)
    requires
        same_forwards(a, b),
        from matches WakerId::Target(k) ==> k < a.len(),
    ensures
        on_path(a, from, t) == on_path(b, from, t),
    decreases
            (match from {
                WakerId::Noop => 0nat,
                WakerId::Target(k) => (k + 1) as nat,
            }),
{
    if let WakerId::Target(k) = from {
        assert(b[k as int].forward == a[k as int].forward);
        if let WakerId::Target(j) = a[k as int].forward {
            if j < k {
                lemma_path_by_forwards(a, b, WakerId::Target(j), t);
            }
        }
    }
}

/// A path reaches nothing minted after where it starts.
proof fn lemma_paths_go_back(targets: Seq<Target>, from: WakerId, t: int)
    requires
        from matches WakerId::Target(j) ==> j < t,
    ensures
        !on_path(targets, from, t),
    decreases
            (match from {
                WakerId::Noop => 0nat,
                WakerId::Target(k) => (k + 1) as nat,
            }),
{
    if let WakerId::Target(k) = from {
        if k < targets.len() {
            if let WakerId::Target(j) = targets[k as int].forward {
                if j < k {
                    lemma_paths_go_back(targets, WakerId::Target(j), t);
                }
            }
        }
    }
}

/// Every wake target of one drive.
pub struct Wakes {
    targets: Vec<Target>,
    tokens: Vec<Arc<()>>,
}

impl View for Wakes {
    type V = Seq<Target>;

    closed spec fn view(&self) -> Seq<Target> {
        self.targets@
    }
}

/// Targets forward only to targets minted before them, so a wake always ends.
pub open spec fn forwards_back(targets: Seq<Target>) -> bool {
    forall|t: int|
        0 <= t < targets.len() ==> ((#[trigger] targets[t]).forward matches WakerId::Target(j) ==> j
            < t)
}

/// Whether `waker` names one of `targets`, or none.
pub open spec fn known(targets: Seq<Target>, waker: WakerId) -> bool {
    waker matches WakerId::Target(k) ==> k < targets.len()
}

/// What later states of the targets have in common with earlier ones: no target is
/// dropped and none changes whom it forwards to.
pub open spec fn targets_later(a: Seq<Target>, b: Seq<Target>) -> bool {
    &&& same_forwards(a, b)
    &&& forwards_back(b)
}

impl Wakes {
    /// Every target has a token.
    pub closed spec fn has_tokens(&self) -> bool {
        self.tokens@.len() == self.targets@.len()
    }

    /// Whether `n` is what was answered of target `k`'s own token, asked how many shares it
    /// has.
    pub closed spec fn has_shares(&self, k: int, n: usize) -> bool {
        call_ensures(shares, (&self.tokens@[k],), n)
    }

    /// Whether `waker` holds a share that was had of target `k`'s own token.
    pub closed spec fn is_shared(&self, k: int, waker: Waker) -> bool {
        call_ensures(another, (&self.tokens@[k],), waker.token)
    }

    /// A waker kept of a target holds a share of the target's own token, however many are
    /// held already: as long as it is not dropped, one is left.
    pub proof fn law_a_waker_kept_is_a_share_of_its_target(
        wakes: &mut Wakes,
        k: usize,
        waker: Waker,
    )
        requires
            wakes.wf(),
            k < wakes@.len(),
            call_ensures(Wakes::keep, (wakes, WakerId::Target(k)), waker),
        ensures
            final(wakes).is_shared(k as int, waker),
            waker@ == WakerId::Target(k),
            final(wakes)@[k as int].held > 0,
    {
    }

    /// What a waker holds of a target is a share that was had of its token as one more of it.
    proof fn law_a_share_is_one_more_of_the_token(&self, k: int, waker: Waker)
        ensures
            self.is_shared(k, waker) <==> call_ensures(
                another,
                (&self.tokens@[k],),
                waker.token,
            ),
    {
    }

    /// A waker of a target is left exactly if one has been kept and not released and the
    /// target's own token, asked, has a share beyond the target's: both ways, however many
    /// are held. Of no target, and of one that there is not, none is left.
    pub proof fn law_a_waker_is_left_exactly_if_held_and_shared(&self, waker: WakerId, r: bool)
        requires
            self.wf(),
            call_ensures(Wakes::is_kept, (self, waker), r),
        ensures
            waker is Noop ==> !r,
            waker matches WakerId::Target(k) ==> {
                &&& k >= self@.len() ==> !r
                &&& k < self@.len() ==> exists|n: usize|
                    {
                        &&& #[trigger] self.has_shares(waker->Target_0 as int, n)
                        &&& r <==> self@[waker->Target_0 as int].held > 0 && n > 1
                    }
            },
    {
    }

    /// What was asked of a target was asked of its token, and was an answer of `shares`.
    proof fn law_shares_are_counted_of_the_targets_own_token(&self, k: int, n: usize)
        ensures
            self.has_shares(k, n) <==> call_ensures(shares, (&self.tokens@[k],), n),
    {
    }

    /// Every target has a token, and every forward leads to an earlier target.
    pub open spec fn wf(&self) -> bool {
        &&& self.has_tokens()
        &&& forwards_back(self@)
    }

    /// No targets.
    pub fn new() -> (r: Wakes)
        ensures
            r.wf(),
            r@ == Seq::<Target>::empty(),
    {
        Wakes { targets: Vec::new(), tokens: Vec::new() }
    }

    /// Mint a target that passes its wakes on to `forward`.
    pub fn mint(&mut self, forward: WakerId) -> (r: WakerId)
        requires
            old(self).wf(),
            known(old(self)@, forward),
        ensures
            final(self).wf(),
            r == WakerId::Target(old(self)@.len() as usize),
            old(self)@.len() <= usize::MAX,
            known(final(self)@, r),
            final(self)@ == old(self)@.push(fresh_target(forward)),
    {
        let at: usize = self.targets.len();
        self.targets.push(Target { forward, woken: false, rung: 0, held: 0, found: 0 });
        self.tokens.push(Arc::new(()));
        WakerId::Target(at)
    }

    /// Wake `waker`: mark its target and every one it forwards to.
    pub fn wake(&mut self, waker: &Waker)
        requires
            old(self).wf(),
        ensures
            final(self).wf(),
            final(self)@ == woken(old(self)@, waker@),
    {
        self.ring(waker.to);
    }

    /// Wake the target that `waker` names, and every one it forwards to.
    pub(crate) fn ring(&mut self, waker: WakerId)
        requires
            old(self).wf(),
        ensures
            final(self).wf(),
            final(self)@ == woken(old(self)@, waker),
    {
        let ghost start = self.targets@;
        let mut next: WakerId = waker;
        let mut go: bool = true;
        while go
            invariant
                self.targets@.len() == start.len(),
                self.tokens@.len() == start.len(),
                forwards_back(start),
                same_forwards(start, self.targets@),
                forall|t: int|
                    0 <= t < start.len() ==> (#[trigger] self.targets@[t]).held == start[t].held
                        && self.targets@[t].found == start[t].found,
                go ==> forall|t: int|
                    #![trigger self.targets@[t]]
                    0 <= t < start.len() ==> {
                        &&& (self.targets@[t].woken || on_path(start, next, t)) == (
                        start[t].woken || on_path(start, waker, t))
                        &&& on_path(start, next, t) ==> on_path(start, waker, t)
                        &&& self.targets@[t].rung == counted(
                            start[t].rung,
                            (once(start, waker, t) - once(start, next, t)) as nat,
                        )
                    },
                !go ==> forall|t: int|
                    #![trigger self.targets@[t]]
                    0 <= t < start.len() ==> {
                        &&& self.targets@[t].woken == (start[t].woken || on_path(start, waker, t))
                        &&& self.targets@[t].rung == counted(
                            start[t].rung,
                            once(start, waker, t),
                        )
                    },
            decreases
                    (if go {
                        1nat
                    } else {
                        0nat
                    }),
                    (match next {
                        WakerId::Noop => 0nat,
                        WakerId::Target(k) => (k + 1) as nat,
                    }),
        {
            match next {
                WakerId::Noop => {
                    go = false;
                },
                WakerId::Target(k) => {
                    if k < self.targets.len() {
                        let was: Target = self.targets[k];
                        assert(was.forward == start[k as int].forward);
                        let rung: usize = if was.rung < usize::MAX { was.rung + 1 } else { was.rung };
                        proof {
                            lemma_paths_go_back(start, was.forward, k as int);
                        }
                        self.targets.set(
                            k,
                            Target { woken: true, rung, ..was },
                        );
                        next = was.forward;
                    } else {
                        go = false;
                    }
                },
            }
        }
        assert(self@ =~= woken(old(self)@, waker));
    }

    /// Wake the targets that `wakers` name, one after the other.
    pub(crate) fn ring_all(&mut self, wakers: &Vec<WakerId>)
        requires
            old(self).wf(),
        ensures
            final(self).wf(),
            final(self)@ == woken_all(old(self)@, wakers@),
    {
        let ghost start = self@;
        let mut i: usize = 0;
        assert(self@ =~= woken_all(start, wakers@.take(0)));
        while i < wakers.len()
            invariant
                self.wf(),
                i <= wakers@.len(),
                forwards_back(start),
                self@ == woken_all(start, wakers@.take(i as int)),
            decreases wakers@.len() - i,
        {
            let ghost before = self@;
            self.ring(wakers[i]);
            proof {
                let w = wakers@[i as int];
                let shorter = wakers@.take(i as int);
                let longer = wakers@.take(i + 1);
                assert forall|t: int| 0 <= t < start.len() implies (#[trigger] self@[t])
                    == woken_all(start, longer)[t] by {
                    if w matches WakerId::Target(k) ==> k < start.len() {
                        lemma_path_by_forwards(start, before, w, t);
                    }
                    assert(longer[i as int] == w);
                    assert(longer.drop_last() =~= shorter);
                    if any_path(start, shorter, t) {
                        let j = choose|j: int|
                            0 <= j < shorter.len() && #[trigger] on_path(start, shorter[j], t);
                        assert(longer[j] == shorter[j]);
                    }
                    if any_path(start, longer, t) && !any_path(start, shorter, t) {
                        let j = choose|j: int|
                            0 <= j < longer.len() && #[trigger] on_path(start, longer[j], t);
                        if j < i {
                            assert(shorter[j] == longer[j]);
                        }
                    }
                }
                assert(self@ =~= woken_all(start, longer));
            }
            i = i + 1;
        }
        assert(wakers@.take(i as int) =~= wakers@);
    }

    /// How many wakes have reached the target that `waker` names, up to what a `usize` can
    /// count.
    pub fn rung(&self, waker: WakerId) -> (r: usize)
        ensures
            r == (match waker {
                WakerId::Target(k) if k < self@.len() => self@[k as int].rung,
                _ => 0,
            }),
    {
        match waker {
            WakerId::Noop => 0,
            WakerId::Target(k) => if k < self.targets.len() {
                self.targets[k].rung
            } else {
                0
            },
        }
    }

    /// Whether `waker`'s target has been woken and the mark not yet taken.
    pub fn is_woken(&self, waker: WakerId) -> (r: bool)
        ensures
            r == (waker matches WakerId::Target(k) && k < self@.len() && self@[k as int].woken),
    {
        match waker {
            WakerId::Noop => false,
            WakerId::Target(k) => k < self.targets.len() && self.targets[k].woken,
        }
    }

    /// Whether `waker`'s target has been woken since this was last asked. Asking
    /// clears the mark.
    pub fn take(&mut self, waker: WakerId) -> (r: bool)
        requires
            old(self).wf(),
        ensures
            final(self).wf(),
            r == (waker matches WakerId::Target(k) && k < old(self)@.len()
                && old(self)@[k as int].woken),
            final(self)@ == taken(old(self)@, waker),
    {
        match waker {
            WakerId::Noop => false,
            WakerId::Target(k) => {
                if k < self.targets.len() {
                    let was: Target = self.targets[k];
                    self.targets.set(k, Target { woken: false, ..was });
                    was.woken
                } else {
                    false
                }
            },
        }
    }

    /// A waker of the target that `waker` names, to keep past the poll that was handed it.
    pub fn keep(&mut self, waker: WakerId) -> (r: Waker)
        requires
            old(self).wf(),
        ensures
            final(self).wf(),
            r@ == waker,
            final(self)@ == kept(old(self)@, waker),
            waker matches WakerId::Target(k) && k < old(self)@.len() ==> final(self).is_shared(
                waker->Target_0 as int,
                r,
            ),
    {
        if let WakerId::Target(k) = waker {
            if k < self.targets.len() {
                let was: Target = self.targets[k];
                let held: usize = if was.held < usize::MAX { was.held + 1 } else { was.held };
                self.targets.set(
                    k,
                    Target { held, ..was },
                );
                let token: Arc<()> = share_of(another, &self.tokens[k]);
                return Waker { to: waker, token };
            }
        }
        Waker { to: waker, token: Arc::new(()) }
    }

    /// Give up a waker that was being kept.
    pub fn release(&mut self, waker: Waker)
        requires
            old(self).wf(),
        ensures
            final(self).wf(),
            final(self)@ == released(old(self)@, waker@),
    {
        if let WakerId::Target(k) = waker.to {
            if k < self.targets.len() {
                let was: Target = self.targets[k];
                let held: usize = if was.held > 0 { was.held - 1 } else { 0 };
                self.targets.set(k, Target { held, ..was });
            }
        }
    }

    /// Whether a waker of the target that `waker` names has been kept, not released, and
    /// not dropped either. A waker that was never kept, or that has been released, is not
    /// there to be dropped.
    pub fn is_kept(&self, waker: WakerId) -> (r: bool)
        requires
            self.wf(),
        ensures
            r ==> (waker matches WakerId::Target(k) && k < self@.len() && self@[k as int].held
                > 0),
            waker matches WakerId::Target(k) && k < self@.len() ==> exists|n: usize|
                {
                    &&& #[trigger] self.has_shares(waker->Target_0 as int, n)
                    &&& r == (self@[waker->Target_0 as int].held > 0 && n > 1)
                },
    {
        match waker {
            WakerId::Noop => false,
            WakerId::Target(k) => {
                if k < self.targets.len() {
                    let n: usize = ask_of(shares, &self.tokens[k]);
                    assert(self.has_shares(k as int, n));
                    left(self.targets[k].held, n)
                } else {
                    false
                }
            },
        }
    }

    /// Ask how many shares of its token the target that `waker` names has, its own among
    /// them, and keep the answer with the target.
    pub fn ask(&mut self, waker: WakerId)
        requires
            old(self).wf(),
        ensures
            final(self).wf(),
            match waker {
                WakerId::Target(k) if k < old(self)@.len() => {
                    &&& final(self).has_shares(k as int, final(self)@[k as int].found)
                    &&& final(self)@ == old(self)@.update(
                        k as int,
                        Target { found: final(self)@[k as int].found, ..old(self)@[k as int] },
                    )
                },
                _ => *final(self) == *old(self),
            },
    {
        if let WakerId::Target(k) = waker {
            if k < self.targets.len() {
                let found: usize = ask_of(shares, &self.tokens[k]);
                let was: Target = self.targets[k];
                self.targets.set(k, Target { found, ..was });
            }
        }
    }

    /// How many shares the token of the target that `waker` names had when that was last
    /// asked.
    pub fn found(&self, waker: WakerId) -> (r: usize)
        ensures
            r == (match waker {
                WakerId::Target(k) if k < self@.len() => self@[k as int].found,
                _ => 0,
            }),
    {
        match waker {
            WakerId::Noop => 0,
            WakerId::Target(k) => if k < self.targets.len() {
                self.targets[k].found
            } else {
                0
            },
        }
    }

    /// How many wakers of the target that `waker` names have been kept and not released.
    pub fn held(&self, waker: WakerId) -> (r: usize)
        ensures
            r == (match waker {
                WakerId::Target(k) if k < self@.len() => self@[k as int].held,
                _ => 0,
            }),
    {
        match waker {
            WakerId::Noop => 0,
            WakerId::Target(k) => if k < self.targets.len() {
                self.targets[k].held
            } else {
                0
            },
        }
    }
}

/// Whether a waker is left of a target of which `held` have been kept and not released and
/// whose token has `shares` shares, the target's own among them.
pub fn left(held: usize, shares: usize) -> (r: bool)
    ensures
        r == (held > 0 && shares > 1),
{
    held > 0 && shares > 1
}

/// Of how many held wakers and of how many shares one is left: of any number of the first
/// but none, and of any number of the second beyond the target's own.
pub proof fn law_one_is_left_of_any_held_and_shared(held: usize, shares: usize, r: bool)
    requires
        call_ensures(left, (held, shares), r),
    ensures
        r <==> held >= 1 && shares >= 2,
{
}

/// The targets with `waker`'s mark taken.
pub open spec fn taken(targets: Seq<Target>, waker: WakerId) -> Seq<Target> {
    match waker {
        WakerId::Target(k) if k < targets.len() => targets.update(
            k as int,
            Target { woken: false, ..targets[k as int] },
        ),
        _ => targets,
    }
}

/// The targets with one more waker of the target that `waker` names kept.
pub open spec fn kept(targets: Seq<Target>, waker: WakerId) -> Seq<Target> {
    match waker {
        WakerId::Target(k) if k < targets.len() => targets.update(
            k as int,
            Target {
                held: if targets[k as int].held < usize::MAX {
                    (targets[k as int].held + 1) as usize
                } else {
                    usize::MAX
                },
                ..targets[k as int]
            },
        ),
        _ => targets,
    }
}

/// The targets with one waker of the target that `waker` names given up.
pub open spec fn released(targets: Seq<Target>, waker: WakerId) -> Seq<Target> {
    match waker {
        WakerId::Target(k) if k < targets.len() => targets.update(
            k as int,
            Target {
                held: if targets[k as int].held > 0 {
                    (targets[k as int].held - 1) as usize
                } else {
                    0
                },
                ..targets[k as int]
            },
        ),
        _ => targets,
    }
}

} // verus!
