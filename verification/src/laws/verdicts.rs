//! What a graph of determined stages answers: the same, whatever it remembers and
//! whoever drives it.

use std::sync::Arc;

use vstd::prelude::*;

use crate::builder::{registered, BuilderStore, Failure, PipelineStore, Positioned, StoreChoice};
use crate::chain::Chain;
use crate::context::ContextView;
use crate::driver::{drives, frame_polls, turned, DriveError, PendingWork, Turn};
use crate::effect::{EffectPoll, StageAnswer};
use crate::key::{KeyView, StageId};
use crate::memo::Memo;
use crate::pipeline::{gated, Pipeline, Run};
use crate::stage::{Stage, StagePoll};
use crate::store::MemoStore;
use crate::track::LedgerView;
use crate::wake::WakerId;
use crate::watch::{watched_drives, watched_turned, WakePath};

verus! {

/// Whether `polled` gives `verdict`: a share of its value, or its failure.
pub open spec fn gives<T, E>(polled: StagePoll<T, E>, verdict: Result<T, E>) -> bool {
    match verdict {
        Ok(value) => polled matches EffectPoll::Ready(StageAnswer::Computed(share)) && *share
            == value,
        Err(error) => polled == StagePoll::<T, E>::Failed(error),
    }
}

/// Whether `S` is determined: every poll of a stage that is `good` gives the verdict on
/// its input, in whatever state the drive is, and leaves the stage good.
pub open spec fn keeps_to<S: Stage>(
    good: spec_fn(S) -> bool,
    verdict: spec_fn(S::Input) -> Result<S::Output, S::Error>,
) -> bool {
    forall|
        s: S,
        i: S::Input,
        c: ContextView,
        s_post: S,
        c_post: ContextView,
        a: StagePoll<S::Output, S::Error>,
    |
        good(s) && #[trigger] S::polls(s, i, c, s_post, c_post, a) ==> gives(a, verdict(i))
            && good(s_post)
}

/// Whether the keys of good stages are those of `key`, and tell a value from every other
/// verdict.
pub open spec fn keys_by<S: Stage>(
    good: spec_fn(S) -> bool,
    verdict: spec_fn(S::Input) -> Result<S::Output, S::Error>,
    key: spec_fn(S::Input) -> Option<KeyView>,
) -> bool {
    &&& forall|s: S, i: S::Input| good(s) ==> #[trigger] s.key_of(i) == key(i)
    &&& forall|i: S::Input, j: S::Input|
        (#[trigger] key(i)) is Some && key(i) == (#[trigger] key(j)) && verdict(i) is Ok
            ==> verdict(i) == verdict(j)
}

/// Whether every share that may be found is the verdict on the inputs of its key.
pub open spec fn is_sound<T, E, I, St: MemoStore<T>>(
    rows: St,
    verdict: spec_fn(I) -> Result<T, E>,
    key: spec_fn(I) -> Option<KeyView>,
) -> bool {
    forall|i: I, k: KeyView, share: Arc<T>|
        #![trigger key(i), rows.may_find(k, Some(share))]
        key(i) == Some(k) && rows.may_find(k, Some(share)) ==> verdict(i) == Ok::<T, E>(*share)
}

/// The memos that are good: in front of a good stage, with rows that are verdicts.
pub open spec fn good_memo<S: Stage, St: MemoStore<S::Output>>(
    good: spec_fn(S) -> bool,
    verdict: spec_fn(S::Input) -> Result<S::Output, S::Error>,
    key: spec_fn(S::Input) -> Option<KeyView>,
) -> spec_fn(Memo<S, St>) -> bool {
    |m: Memo<S, St>| good(m.inner()) && is_sound(m.rows(), verdict, key)
}

/// The memo changes speed and not answers: in front of a determined stage, a memo whose
/// rows are verdicts gives the verdicts that the stage gives, whatever store it has and
/// whatever the store has forgotten, and its rows stay verdicts.
pub proof fn law_the_memo_changes_speed_and_not_answers<S: Stage, St: MemoStore<S::Output>>(
    good: spec_fn(S) -> bool,
    verdict: spec_fn(S::Input) -> Result<S::Output, S::Error>,
    key: spec_fn(S::Input) -> Option<KeyView>,
)
    requires
        keeps_to::<S>(good, verdict),
        keys_by::<S>(good, verdict, key),
    ensures
        keeps_to::<Memo<S, St>>(good_memo::<S, St>(good, verdict, key), verdict),
{
    assert forall|
        m: Memo<S, St>,
        i: S::Input,
        c: ContextView,
        m_post: Memo<S, St>,
        c_post: ContextView,
        a: StagePoll<S::Output, S::Error>,
    |
        good_memo::<S, St>(good, verdict, key)(m) && #[trigger] Memo::<S, St>::polls(
            m,
            i,
            c,
            m_post,
            c_post,
            a,
        ) implies gives(a, verdict(i)) && good_memo::<S, St>(good, verdict, key)(m_post) by {
        assert(m.inner().key_of(i) == key(i));
        let found = choose|found: Option<Arc<S::Output>>|
            {
                &&& #[trigger] m.serves(i, c, found)
                &&& Memo::<S, St>::polls_on(m, i, c, found, m_post, c_post, a)
            };
        match found {
            Some(hit) => {
                assert(m.rows().may_find(key(i)->0, Some(hit)));
            },
            None => {
                assert(S::polls(m.inner(), i, c, m_post.inner(), c_post, a));
                assert forall|j: S::Input, k: KeyView, share: Arc<S::Output>|
                    #![trigger key(j), m_post.rows().may_find(k, Some(share))]
                    key(j) == Some(k) && m_post.rows().may_find(
                        k,
                        Some(share),
                    ) implies verdict(j) == Ok::<S::Output, S::Error>(*share) by {
                    if !m.rows().may_find(k, Some(share)) {
                        assert(key(i) == key(j));
                    }
                }
            },
        }
    }
}

/// The chains that are good: both parts are.
pub open spec fn good_chain<A: Stage, B: Stage<Input = A::Output, Error = A::Error>>(
    first: spec_fn(A) -> bool,
    second: spec_fn(B) -> bool,
) -> spec_fn(Chain<A, B>) -> bool {
    |c: Chain<A, B>| first(c.head()) && second(c.tail())
}

/// One verdict after the other: a failure of the first is the verdict.
pub open spec fn in_turn<I, T, U, E>(
    first: spec_fn(I) -> Result<T, E>,
    second: spec_fn(T) -> Result<U, E>,
) -> spec_fn(I) -> Result<U, E> {
    |i: I|
        match first(i) {
            Ok(value) => second(value),
            Err(error) => Err(error),
        }
}

/// A chain of determined graphs is determined: it gives the second's verdict on the
/// first's, and the first's failure where there is one. So a graph of memos of any
/// length gives the verdicts of its stages in turn, and every store in it stays sound.
pub proof fn law_a_chain_gives_its_verdicts_in_turn<
    A: Stage,
    B: Stage<Input = A::Output, Error = A::Error>,
>(
    first: spec_fn(A) -> bool,
    second: spec_fn(B) -> bool,
    va: spec_fn(A::Input) -> Result<A::Output, A::Error>,
    vb: spec_fn(A::Output) -> Result<B::Output, A::Error>,
)
    requires
        keeps_to::<A>(first, va),
        keeps_to::<B>(second, vb),
    ensures
        keeps_to::<Chain<A, B>>(good_chain::<A, B>(first, second), in_turn(va, vb)),
{
    assert forall|
        g: Chain<A, B>,
        i: A::Input,
        c: ContextView,
        g_post: Chain<A, B>,
        c_post: ContextView,
        a: StagePoll<B::Output, A::Error>,
    |
        good_chain::<A, B>(first, second)(g) && #[trigger] Chain::<A, B>::polls(
            g,
            i,
            c,
            g_post,
            c_post,
            a,
        ) implies gives(a, in_turn(va, vb)(i)) && good_chain::<A, B>(first, second)(g_post) by {
        let (mid, polled) = choose|mid: ContextView, polled: StagePoll<A::Output, A::Error>|
            {
                &&& #[trigger] A::polls(g.head(), i, c, g_post.head(), mid, polled)
                &&& c.later(mid)
                &&& Chain::<A, B>::follows(g, mid, polled, g_post, c_post, a)
            };
        assert(gives(polled, va(i)));
        if let EffectPoll::Ready(StageAnswer::Computed(handed)) = polled {
            assert(B::polls(g.tail(), *handed, mid, g_post.tail(), c_post, a));
        }
    }
}

/// The positioned stages that are good: at position `at`, over a good stage.
pub open spec fn good_at<S: Stage>(
    good: spec_fn(S) -> bool,
    at: usize,
) -> spec_fn(Positioned<S>) -> bool {
    |p: Positioned<S>| p.position() == at && good(p.inner())
}

/// `verdict`, with position `at` stamped onto a failure.
pub open spec fn verdict_at<I, T, E>(
    verdict: spec_fn(I) -> Result<T, E>,
    at: usize,
) -> spec_fn(I) -> Result<T, Failure<E>> {
    |i: I|
        match verdict(i) {
            Ok(value) => Ok(value),
            Err(error) => Err(Failure::of(at, error)),
        }
}

/// The registered stages that are good: positioned at `at`, over a good stage, with rows
/// that are verdicts.
pub open spec fn good_registered<S: Stage, G: PipelineStore<S::Output>>(
    good: spec_fn(S) -> bool,
    verdict: spec_fn(S::Input) -> Result<S::Output, S::Error>,
    key: spec_fn(S::Input) -> Option<KeyView>,
    at: usize,
) -> spec_fn(Memo<Positioned<S>, BuilderStore<S::Output, G>>) -> bool {
    good_memo::<Positioned<S>, BuilderStore<S::Output, G>>(
        good_at(good, at),
        verdict_at(verdict, at),
        key,
    )
}

/// Registering a determined stage gives a determined one: wherever the pipeline
/// remembers, it gives the stage's verdicts, its position stamped onto a failure.
pub proof fn law_a_registered_stage_gives_its_stages_verdicts<
    S: Stage,
    G: PipelineStore<S::Output>,
>(
    good: spec_fn(S) -> bool,
    verdict: spec_fn(S::Input) -> Result<S::Output, S::Error>,
    key: spec_fn(S::Input) -> Option<KeyView>,
    at: usize,
)
    requires
        keeps_to::<S>(good, verdict),
        keys_by::<S>(good, verdict, key),
    ensures
        keeps_to::<Memo<Positioned<S>, BuilderStore<S::Output, G>>>(
            good_registered::<S, G>(good, verdict, key, at),
            verdict_at(verdict, at),
        ),
{
    let placed = good_at(good, at);
    let stamped = verdict_at(verdict, at);
    assert forall|
        p: Positioned<S>,
        i: S::Input,
        c: ContextView,
        p_post: Positioned<S>,
        c_post: ContextView,
        a: StagePoll<S::Output, Failure<S::Error>>,
    |
        placed(p) && #[trigger] Positioned::<S>::polls(p, i, c, p_post, c_post, a) implies gives(
        a,
        stamped(i),
    ) && placed(p_post) by {
        let polled = choose|polled: StagePoll<S::Output, S::Error>|
            {
                &&& #[trigger] S::polls(p.inner(), i, c, p_post.inner(), c_post, polled)
                &&& a == crate::builder::stamped(p.position(), polled)
            };
        assert(gives(polled, verdict(i)));
    }
    assert forall|p: Positioned<S>, i: S::Input| placed(p) implies #[trigger] p.key_of(i) == key(
        i,
    ) by {
        assert(p.inner().key_of(i) == key(i));
    }
    law_the_memo_changes_speed_and_not_answers::<Positioned<S>, BuilderStore<S::Output, G>>(
        placed,
        stamped,
        key,
    );
}

/// A good stage is good once it is registered: with maps of the pipeline's own, with no
/// store at all, and with a store handed over whose rows are verdicts.
pub proof fn law_a_stage_is_registered_sound<S: Stage, G: PipelineStore<S::Output>>(
    good: spec_fn(S) -> bool,
    verdict: spec_fn(S::Input) -> Result<S::Output, S::Error>,
    key: spec_fn(S::Input) -> Option<KeyView>,
    stage: S,
    at: usize,
    id: StageId,
    choice: StoreChoice<G>,
    memo: Memo<Positioned<S>, BuilderStore<S::Output, G>>,
)
    requires
        good(stage),
        registered(stage, at, id, choice, memo),
        choice matches StoreChoice::Given(store) ==> is_sound(store, verdict, key),
    ensures
        good_registered::<S, G>(good, verdict, key, at)(memo),
{
    let stamped = verdict_at(verdict, at);
    assert forall|i: S::Input, k: KeyView, share: Arc<S::Output>|
        #![trigger key(i), memo.rows().may_find(k, Some(share))]
        key(i) == Some(k) && memo.rows().may_find(k, Some(share)) implies stamped(i) == Ok::<
        S::Output,
        Failure<S::Error>,
    >(*share) by {
        if let (StoreChoice::Given(whole), BuilderStore::Given(part)) = (choice, memo.rows()) {
            assert(part.may_find(k, Some(share)));
            assert(whole.may_find(k, Some(share)));
        }
    }
}

/// One run of a pipeline: where it stood, what it was asked, where it was left and what
/// it answered.
pub struct Visit<V, S: Stage> {
    /// The pipeline as the run found it.
    pub pre: Pipeline<V, S>,
    /// The version.
    pub version: V,
    /// The input.
    pub input: S::Input,
    /// The pipeline as the run left it.
    pub post: Pipeline<V, S>,
    /// The answer.
    pub answer: Result<Run<S::Output>, S::Error>,
}

impl<V: PartialEq, S: Stage> Visit<V, S> {
    /// Whether this is a run, by the contract of [`Pipeline::run`], of versions whose `==`
    /// is what it says it is.
    pub open spec fn is_run(self) -> bool {
        if gated(self.pre.answered(), self.version, self.pre.is_stale()) {
            Pipeline::<V, S>::stands(self.pre, self.post, self.answer)
        } else {
            Pipeline::<V, S>::enters(
                self.pre,
                self.version,
                self.input,
                self.post,
                self.answer,
            )
        }
    }
}

/// Whether `visits` are the runs of one pipeline, in order. Wakes may arrive between two
/// of them.
pub open spec fn one_after_the_other<V: PartialEq, S: Stage>(visits: Seq<Visit<V, S>>) -> bool {
    &&& forall|k: int| 0 <= k < visits.len() ==> (#[trigger] visits[k]).is_run()
    &&& forall|j: int, k: int|
        #![trigger visits[j], visits[k]]
        0 <= j < visits.len() && k == j + 1 && k < visits.len() ==> {
            &&& visits[k].pre.graph() == visits[j].post.graph()
            &&& visits[k].pre.answered() == visits[j].post.answered()
        }
}

/// Whether the runs of two pipelines were asked the same: the same versions over the same
/// inputs, with a wake waiting for both or for neither.
pub open spec fn asked_alike<
    V: PartialEq,
    S: Stage,
    R: Stage<Input = S::Input, Output = S::Output, Error = S::Error>,
>(visits: Seq<Visit<V, S>>, others: Seq<Visit<V, R>>) -> bool {
    &&& visits.len() == others.len()
    &&& forall|k: int|
        #![trigger visits[k], others[k]]
        0 <= k < visits.len() ==> {
            &&& visits[k].version == others[k].version
            &&& visits[k].input == others[k].input
            &&& visits[k].pre.is_stale() == others[k].pre.is_stale()
        }
}

/// Answers do not depend on what is remembered, only speed does: two pipelines whose
/// graphs give the same verdicts, such as one of registered stages and the uncached one of
/// the same stages, give the same answers in the same order to the same runs.
pub proof fn law_answers_do_not_depend_on_the_store<
    V: PartialEq,
    S: Stage,
    R: Stage<Input = S::Input, Output = S::Output, Error = S::Error>,
>(
    good: spec_fn(S) -> bool,
    other: spec_fn(R) -> bool,
    verdict: spec_fn(S::Input) -> Result<S::Output, S::Error>,
    visits: Seq<Visit<V, S>>,
    others: Seq<Visit<V, R>>,
)
    requires
        keeps_to::<S>(good, verdict),
        keeps_to::<R>(other, verdict),
        one_after_the_other(visits),
        one_after_the_other(others),
        asked_alike(visits, others),
        visits.len() > 0 ==> {
            &&& good(visits[0].pre.graph())
            &&& other(others[0].pre.graph())
            &&& visits[0].pre.answered() == others[0].pre.answered()
        },
    ensures
        forall|k: int|
            #![trigger visits[k], others[k]]
            0 <= k < visits.len() ==> visits[k].answer == others[k].answer,
{
    assert forall|k: int| #![trigger visits[k], others[k]] 0 <= k < visits.len() implies
        visits[k].answer == others[k].answer by {
        lemma_run_alike(good, other, verdict, visits, others, k);
    }
}

/// Runs asked alike of graphs with the same verdicts answer alike, and leave them good and
/// with the same version on record.
proof fn lemma_run_alike<
    V: PartialEq,
    S: Stage,
    R: Stage<Input = S::Input, Output = S::Output, Error = S::Error>,
>(
    good: spec_fn(S) -> bool,
    other: spec_fn(R) -> bool,
    verdict: spec_fn(S::Input) -> Result<S::Output, S::Error>,
    visits: Seq<Visit<V, S>>,
    others: Seq<Visit<V, R>>,
    k: int,
)
    requires
        keeps_to::<S>(good, verdict),
        keeps_to::<R>(other, verdict),
        one_after_the_other(visits),
        one_after_the_other(others),
        asked_alike(visits, others),
        0 <= k < visits.len(),
        good(visits[0].pre.graph()),
        other(others[0].pre.graph()),
        visits[0].pre.answered() == others[0].pre.answered(),
    ensures
        visits[k].answer == others[k].answer,
        good(visits[k].post.graph()),
        other(others[k].post.graph()),
        visits[k].post.answered() == others[k].post.answered(),
    decreases k,
{
    let a = visits[k];
    let b = others[k];
    if k > 0 {
        lemma_run_alike(good, other, verdict, visits, others, k - 1);
        assert(visits[k].pre.graph() == visits[k - 1].post.graph());
        assert(others[k].pre.graph() == others[k - 1].post.graph());
    }
    assert(a.is_run() && b.is_run());
    if !gated(a.pre.answered(), a.version, a.pre.is_stale()) {
        let p = choose|p: StagePoll<S::Output, S::Error>|
            {
                &&& #[trigger] frame_polls(
                    a.pre.graph(),
                    a.input,
                    a.pre.target(),
                    a.pre.drive_taken(),
                    a.post.graph(),
                    a.post.drive(),
                    p,
                )
                &&& a.answer == crate::pipeline::run_answer(p)
                &&& a.post.answered() == crate::pipeline::version_after(
                    a.pre.answered(),
                    a.version,
                    p,
                )
            };
        let q = choose|q: StagePoll<R::Output, R::Error>|
            {
                &&& #[trigger] frame_polls(
                    b.pre.graph(),
                    b.input,
                    b.pre.target(),
                    b.pre.drive_taken(),
                    b.post.graph(),
                    b.post.drive(),
                    q,
                )
                &&& b.answer == crate::pipeline::run_answer(q)
                &&& b.post.answered() == crate::pipeline::version_after(
                    b.pre.answered(),
                    b.version,
                    q,
                )
            };
        assert(gives(p, verdict(a.input)));
        assert(gives(q, verdict(a.input)));
    }
}

/// The control run: a registered stage of an uncached pipeline is polled each time, looks
/// nothing up and records nothing, whatever store the builder was handed.
pub proof fn law_uncached_polls_each_time<S: Stage, G: PipelineStore<S::Output>>(
    pre: Memo<Positioned<S>, BuilderStore<S::Output, G>>,
    input: S::Input,
    cx: ContextView,
    post: Memo<Positioned<S>, BuilderStore<S::Output, G>>,
    cx_post: ContextView,
    answer: StagePoll<S::Output, Failure<S::Error>>,
)
    requires
        pre.rows() is Off,
        Memo::<Positioned<S>, BuilderStore<S::Output, G>>::polls(
            pre,
            input,
            cx,
            post,
            cx_post,
            answer,
        ),
    ensures
        forall|found: Option<Arc<S::Output>>| #[trigger]
            pre.serves(input, cx, found) <==> found is None,
        post.rows() is Off,
        Positioned::<S>::polls(pre.inner(), input, cx, post.inner(), cx_post, answer),
{
}

/// So a graph with an uncached stage at its end enters it whenever what is before it
/// computed something.
pub proof fn law_an_uncached_chain_enters_its_last_stage<
    A: Stage<Error = Failure<E>>,
    B: Stage<Input = A::Output, Error = E>,
    G: PipelineStore<B::Output>,
    E,
>(
    pre: Chain<A, Memo<Positioned<B>, BuilderStore<B::Output, G>>>,
    mid: ContextView,
    handed: Arc<A::Output>,
    post: Chain<A, Memo<Positioned<B>, BuilderStore<B::Output, G>>>,
    cx_post: ContextView,
    answer: StagePoll<B::Output, Failure<E>>,
)
    requires
        pre.tail().rows() is Off,
        Chain::<A, Memo<Positioned<B>, BuilderStore<B::Output, G>>>::follows(
            pre,
            mid,
            EffectPoll::Ready(StageAnswer::Computed(handed)),
            post,
            cx_post,
            answer,
        ),
    ensures
        post.tail().rows() is Off,
        Positioned::<B>::polls(
            pre.tail().inner(),
            *handed,
            mid,
            post.tail().inner(),
            cx_post,
            answer,
        ),
{
}

/// Uncached wins over every store: what an uncached builder registers has no store, and so
/// has everything registered after it.
pub proof fn law_uncached_wins_over_every_store<S: Stage, G: PipelineStore<S::Output>>(
    builder: crate::builder::PipelineBuilder<G>,
    stage: S,
    at: usize,
    id: StageId,
    memo: Memo<Positioned<S>, BuilderStore<S::Output, G>>,
)
    requires
        builder.is_uncached(),
        registered(stage, at, id, builder.choice(), memo),
    ensures
        memo.rows() is Off,
{
}

/// A stage cannot tell which driver polls it: a determined one gives every driver the
/// verdict on its input.
pub proof fn law_every_driver_gives_the_verdict<S: Stage, W: PendingWork>(
    good: spec_fn(S) -> bool,
    verdict: spec_fn(S::Input) -> Result<S::Output, S::Error>,
    input: S::Input,
    pre: Turn<S, W>,
    turns: Seq<Turn<S, W>>,
    post: Turn<S, W>,
    driven: Result<StageAnswer<Arc<S::Output>>, DriveError<S::Error>>,
    paths: Seq<WakePath>,
    waker: WakerId,
    framed: StagePoll<S::Output, S::Error>,
)
    requires
        keeps_to::<S>(good, verdict),
        good(pre.stage),
    ensures
        frame_polls(pre.stage, input, waker, pre.cx, post.stage, post.cx, framed) ==> gives(
            framed,
            verdict(input),
        ),
        drives(input, pre, turns, post, driven) || watched_drives(
            input,
            pre,
            turns,
            post,
            driven,
            paths,
        ) ==> (match verdict(input) {
            Ok(value) => driven matches Ok(StageAnswer::Computed(share)) && *share == value,
            Err(error) => driven == Err::<StageAnswer<Arc<S::Output>>, DriveError<S::Error>>(
                DriveError::Failed(error),
            ),
        }),
{
    if drives(input, pre, turns, post, driven) && turns.len() > 1 {
        assert(turned(input, turns[0], turns[0int + 1]));
    }
    if watched_drives(input, pre, turns, post, driven, paths) && turns.len() > 1 {
        assert(watched_turned(input, turns[0], paths[0], turns[0int + 1]));
    }
}

/// What of a drive there is to see but for its wakes: the ledger, without those who are to
/// be told, and the tallies.
pub open spec fn unwoken(cx: ContextView) -> ContextView {
    ContextView {
        ledger: LedgerView { subscribers: Seq::empty(), ..cx.ledger },
        targets: Seq::empty(),
        waker: WakerId::Noop,
        ..cx
    }
}

/// Whether stages of this kind do not look at wakes: two that are alike, polled over the
/// same input in drives that differ in their wakes alone, answer the same, stay alike and
/// leave the drives differing in their wakes alone. Stages are alike, say, that differ only
/// in the wakers they keep.
pub open spec fn looks_at_no_wake<S: Stage>(alike: spec_fn(S, S) -> bool) -> bool {
    forall|
        s: S,
        r: S,
        i: S::Input,
        c: ContextView,
        d: ContextView,
        s_post: S,
        r_post: S,
        c_post: ContextView,
        d_post: ContextView,
        a: StagePoll<S::Output, S::Error>,
        b: StagePoll<S::Output, S::Error>,
    |
        #![trigger S::polls(s, i, c, s_post, c_post, a), S::polls(r, i, d, r_post, d_post, b)]
        {
            &&& alike(s, r)
            &&& unwoken(c) == unwoken(d)
            &&& S::polls(s, i, c, s_post, c_post, a)
            &&& S::polls(r, i, d, r_post, d_post, b)
        } ==> {
            &&& a == b
            &&& alike(s_post, r_post)
            &&& unwoken(c_post) == unwoken(d_post)
        }
}

/// Whether work of this kind does not look at wakes, in the same sense.
pub open spec fn works_by_no_wake<W: PendingWork>(alike: spec_fn(W, W) -> bool) -> bool {
    forall|
        v: W,
        w: W,
        c: ContextView,
        d: ContextView,
        v_post: W,
        w_post: W,
        c_post: ContextView,
        d_post: ContextView,
        p: bool,
        q: bool,
    |
        #![trigger W::runs(v, c, v_post, c_post, p), W::runs(w, d, w_post, d_post, q)]
        {
            &&& alike(v, w)
            &&& unwoken(c) == unwoken(d)
            &&& W::runs(v, c, v_post, c_post, p)
            &&& W::runs(w, d, w_post, d_post, q)
        } ==> {
            &&& p == q
            &&& alike(v_post, w_post)
            &&& unwoken(c_post) == unwoken(d_post)
        }
}

/// Whether two drives stand alike: like stages, like work, and states that differ in their
/// wakes alone.
pub open spec fn stand_alike<S: Stage, W: PendingWork>(
    stages: spec_fn(S, S) -> bool,
    works: spec_fn(W, W) -> bool,
    a: Turn<S, W>,
    b: Turn<S, W>,
) -> bool {
    &&& stages(a.stage, b.stage)
    &&& works(a.work, b.work)
    &&& unwoken(a.cx) == unwoken(b.cx)
}

/// How many polls of a drive of `turns` turns that ended with `driven` had no answer.
pub open spec fn unanswered<T, E>(turns: nat, driven: Result<T, DriveError<E>>) -> nat {
    if driven matches Err(DriveError::Stalled) {
        turns
    } else {
        (turns - 1) as nat
    }
}

/// Watching changes no answer: over a stage and work that do not look at wakes, a watched
/// drive and a plain one that start alike take as many turns, end with the same result and
/// are left alike. The watched one leaves one path for each poll without an answer.
pub proof fn law_watching_changes_no_answer<S: Stage, W: PendingWork>(
    stages: spec_fn(S, S) -> bool,
    works: spec_fn(W, W) -> bool,
    input: S::Input,
    pre: Turn<S, W>,
    turns: Seq<Turn<S, W>>,
    post: Turn<S, W>,
    driven: Result<StageAnswer<Arc<S::Output>>, DriveError<S::Error>>,
    watched_pre: Turn<S, W>,
    watched_turns: Seq<Turn<S, W>>,
    watched_post: Turn<S, W>,
    watched: Result<StageAnswer<Arc<S::Output>>, DriveError<S::Error>>,
    paths: Seq<WakePath>,
)
    requires
        looks_at_no_wake::<S>(stages),
        works_by_no_wake::<W>(works),
        stand_alike(stages, works, pre, watched_pre),
        drives(input, pre, turns, post, driven),
        watched_drives(input, watched_pre, watched_turns, watched_post, watched, paths),
    ensures
        watched == driven,
        watched_turns.len() == turns.len(),
        stand_alike(stages, works, post, watched_post),
        paths.len() == unanswered(turns.len(), driven),
{
    let n = turns.len();
    let m = watched_turns.len();
    if n < m {
        lemma_turn_alike(
            stages,
            works,
            input,
            pre,
            turns,
            post,
            driven,
            watched_pre,
            watched_turns,
            watched_post,
            watched,
            paths,
            n - 1,
        );
        assert(watched_turned(input, watched_turns[n - 1], paths[n - 1], watched_turns[n - 1 + 1]));
    } else {
        lemma_turn_alike(
            stages,
            works,
            input,
            pre,
            turns,
            post,
            driven,
            watched_pre,
            watched_turns,
            watched_post,
            watched,
            paths,
            m - 1,
        );
        if m < n {
            assert(turned(input, turns[m - 1], turns[m - 1 + 1]));
        }
    }
}

/// As long as both drives go on they stand alike.
proof fn lemma_turn_alike<S: Stage, W: PendingWork>(
    stages: spec_fn(S, S) -> bool,
    works: spec_fn(W, W) -> bool,
    input: S::Input,
    pre: Turn<S, W>,
    turns: Seq<Turn<S, W>>,
    post: Turn<S, W>,
    driven: Result<StageAnswer<Arc<S::Output>>, DriveError<S::Error>>,
    watched_pre: Turn<S, W>,
    watched_turns: Seq<Turn<S, W>>,
    watched_post: Turn<S, W>,
    watched: Result<StageAnswer<Arc<S::Output>>, DriveError<S::Error>>,
    paths: Seq<WakePath>,
    k: int,
)
    requires
        looks_at_no_wake::<S>(stages),
        works_by_no_wake::<W>(works),
        stand_alike(stages, works, pre, watched_pre),
        drives(input, pre, turns, post, driven),
        watched_drives(input, watched_pre, watched_turns, watched_post, watched, paths),
        0 <= k < turns.len(),
        k < watched_turns.len(),
    ensures
        stand_alike(stages, works, turns[k], watched_turns[k]),
    decreases k,
{
    if k > 0 {
        lemma_turn_alike(
            stages,
            works,
            input,
            pre,
            turns,
            post,
            driven,
            watched_pre,
            watched_turns,
            watched_post,
            watched,
            paths,
            k - 1,
        );
        let a = turns[k - 1];
        let b = watched_turns[k - 1];
        assert(turned(input, a, turns[k - 1 + 1]));
        assert(watched_turned(input, b, paths[k - 1], watched_turns[k - 1 + 1]));
    }
}

} // verus!
