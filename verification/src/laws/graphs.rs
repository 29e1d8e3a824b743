//! What holds of the graphs that a builder assembles, of any length.

use vstd::prelude::*;

use crate::builder::{
    registered, BuilderStore, Failure, PipelineStore, Positioned, StagedPipelineBuilder, StoreChoice,
};
use crate::chain::Chain;
use crate::context::ContextView;
use crate::driver::frame_polls;
use crate::effect::{EffectPoll, StageAnswer};
use crate::key::{KeyView, StageId};
use crate::laws::verdicts::{
    asked_alike, gives, good_registered, in_turn, is_sound, keeps_to, keys_by,
    law_a_registered_stage_gives_its_stages_verdicts, law_a_stage_is_registered_sound,
    law_answers_do_not_depend_on_the_store, one_after_the_other, verdict_at, Visit,
};
use crate::memo::Memo;
use crate::pipeline::gated;
use crate::stage::{Stage, StagePoll};

verus! {

/// A graph that a builder assembles: one registered stage, or one more after such a graph.
pub trait Assembled: Stage {
    /// Whether the graph's stages are determined, with `verdict` as their verdicts in turn,
    /// and every share in its stores is a verdict.
    spec fn determined(
        self,
        verdict: spec_fn(Self::Input) -> Result<Self::Output, Self::Error>,
    ) -> bool;

    /// Whether two graphs are of the same stages at the same positions, whatever their
    /// stores hold.
    spec fn same_stages(self, other: Self) -> bool;

    /// Whether no position of the graph has a store.
    spec fn has_no_store(self) -> bool;

    /// A poll of a determined graph gives the verdict and leaves it determined.
    proof fn lemma_determined(
        verdict: spec_fn(Self::Input) -> Result<Self::Output, Self::Error>,
        pre: Self,
        input: Self::Input,
        cx: ContextView,
        post: Self,
        cx_post: ContextView,
        answer: StagePoll<Self::Output, Self::Error>,
    )
        requires
            pre.determined(verdict),
            Self::polls(pre, input, cx, post, cx_post, answer),
        ensures
            gives(answer, verdict(input)),
            post.determined(verdict),
    ;

    /// A graph of the same stages without a store is determined alike.
    proof fn lemma_control(
        verdict: spec_fn(Self::Input) -> Result<Self::Output, Self::Error>,
        graph: Self,
        control: Self,
    )
        requires
            graph.determined(verdict),
            control.same_stages(graph),
            control.has_no_store(),
        ensures
            control.determined(verdict),
    ;

    /// A graph without a store gets none.
    proof fn lemma_no_store(
        pre: Self,
        input: Self::Input,
        cx: ContextView,
        post: Self,
        cx_post: ContextView,
        answer: StagePoll<Self::Output, Self::Error>,
    )
        requires
            pre.has_no_store(),
            Self::polls(pre, input, cx, post, cx_post, answer),
        ensures
            post.has_no_store(),
    ;
}

/// Whether the stage registered as `memo` at position `at` is determined, with `own` as its
/// verdict and `verdict` as that of the position, and every share in its store is a verdict.
pub open spec fn determined_as<S: Stage, G: PipelineStore<S::Output>>(
    good: spec_fn(S) -> bool,
    own: spec_fn(S::Input) -> Result<S::Output, S::Error>,
    key: spec_fn(S::Input) -> Option<KeyView>,
    at: usize,
    memo: Memo<Positioned<S>, BuilderStore<S::Output, G>>,
    verdict: spec_fn(S::Input) -> Result<S::Output, Failure<S::Error>>,
) -> bool {
    &&& keeps_to::<S>(good, own)
    &&& keys_by::<S>(good, own, key)
    &&& good_registered::<S, G>(good, own, key, at)(memo)
    &&& forall|i: S::Input| #[trigger] verdict(i) == verdict_at(own, at)(i)
}

impl<S: Stage, G: PipelineStore<S::Output>> Assembled for Memo<
    Positioned<S>,
    BuilderStore<S::Output, G>,
> {
    open spec fn determined(
        self,
        verdict: spec_fn(S::Input) -> Result<S::Output, Failure<S::Error>>,
    ) -> bool {
        exists|
            good: spec_fn(S) -> bool,
            own: spec_fn(S::Input) -> Result<S::Output, S::Error>,
            key: spec_fn(S::Input) -> Option<KeyView>,
            at: usize,
        |
            #[trigger] determined_as::<S, G>(good, own, key, at, self, verdict)
    }

    open spec fn same_stages(self, other: Self) -> bool {
        &&& self.inner().position() == other.inner().position()
        &&& self.inner().inner() == other.inner().inner()
    }

    open spec fn has_no_store(self) -> bool {
        self.rows() is Off
    }

    proof fn lemma_determined(
        verdict: spec_fn(S::Input) -> Result<S::Output, Failure<S::Error>>,
        pre: Self,
        input: S::Input,
        cx: ContextView,
        post: Self,
        cx_post: ContextView,
        answer: StagePoll<S::Output, Failure<S::Error>>,
    ) {
        let (good, own, key, at) = choose|
            good: spec_fn(S) -> bool,
            own: spec_fn(S::Input) -> Result<S::Output, S::Error>,
            key: spec_fn(S::Input) -> Option<KeyView>,
            at: usize,
        |
            #[trigger] determined_as::<S, G>(good, own, key, at, pre, verdict);
        law_a_registered_stage_gives_its_stages_verdicts::<S, G>(good, own, key, at);
        assert(verdict(input) == verdict_at(own, at)(input));
        assert(determined_as::<S, G>(good, own, key, at, post, verdict));
    }

    proof fn lemma_control(
        verdict: spec_fn(S::Input) -> Result<S::Output, Failure<S::Error>>,
        graph: Self,
        control: Self,
    ) {
        let (good, own, key, at) = choose|
            good: spec_fn(S) -> bool,
            own: spec_fn(S::Input) -> Result<S::Output, S::Error>,
            key: spec_fn(S::Input) -> Option<KeyView>,
            at: usize,
        |
            #[trigger] determined_as::<S, G>(good, own, key, at, graph, verdict);
        assert(determined_as::<S, G>(good, own, key, at, control, verdict));
    }

    proof fn lemma_no_store(
        pre: Self,
        input: S::Input,
        cx: ContextView,
        post: Self,
        cx_post: ContextView,
        answer: StagePoll<S::Output, Failure<S::Error>>,
    ) {
    }
}

/// Whether a chain's two parts are determined, with `first` and `second` in turn as
/// `verdict`.
pub open spec fn determined_in_turn<
    A: Assembled,
    B: Assembled<Input = A::Output, Error = A::Error>,
>(
    first: spec_fn(A::Input) -> Result<A::Output, A::Error>,
    second: spec_fn(A::Output) -> Result<B::Output, A::Error>,
    chain: Chain<A, B>,
    verdict: spec_fn(A::Input) -> Result<B::Output, A::Error>,
) -> bool {
    &&& chain.head().determined(first)
    &&& chain.tail().determined(second)
    &&& forall|i: A::Input| #[trigger] verdict(i) == in_turn(first, second)(i)
}

impl<A: Assembled, B: Assembled<Input = A::Output, Error = A::Error>> Assembled for Chain<A, B> {
    open spec fn determined(
        self,
        verdict: spec_fn(A::Input) -> Result<B::Output, A::Error>,
    ) -> bool {
        exists|
            first: spec_fn(A::Input) -> Result<A::Output, A::Error>,
            second: spec_fn(A::Output) -> Result<B::Output, A::Error>,
        |
            #[trigger] determined_in_turn::<A, B>(first, second, self, verdict)
    }

    open spec fn same_stages(self, other: Self) -> bool {
        &&& self.head().same_stages(other.head())
        &&& self.tail().same_stages(other.tail())
    }

    open spec fn has_no_store(self) -> bool {
        &&& self.head().has_no_store()
        &&& self.tail().has_no_store()
    }

    proof fn lemma_determined(
        verdict: spec_fn(A::Input) -> Result<B::Output, A::Error>,
        pre: Self,
        input: A::Input,
        cx: ContextView,
        post: Self,
        cx_post: ContextView,
        answer: StagePoll<B::Output, A::Error>,
    ) {
        let (first, second) = choose|
            first: spec_fn(A::Input) -> Result<A::Output, A::Error>,
            second: spec_fn(A::Output) -> Result<B::Output, A::Error>,
        |
            #[trigger] determined_in_turn::<A, B>(first, second, pre, verdict);
        let (mid, polled) = choose|mid: ContextView, polled: StagePoll<A::Output, A::Error>|
            {
                &&& #[trigger] A::polls(pre.head(), input, cx, post.head(), mid, polled)
                &&& cx.later(mid)
                &&& Chain::<A, B>::follows(pre, mid, polled, post, cx_post, answer)
            };
        A::lemma_determined(first, pre.head(), input, cx, post.head(), mid, polled);
        assert forall|x: A::Output| #[trigger]
            B::polls(pre.tail(), x, mid, post.tail(), cx_post, answer) implies gives(
            answer,
            second(x),
        ) && post.tail().determined(second) by {
            B::lemma_determined(second, pre.tail(), x, mid, post.tail(), cx_post, answer);
        }
        if let EffectPoll::Ready(StageAnswer::Computed(handed)) = polled {
            assert(B::polls(pre.tail(), *handed, mid, post.tail(), cx_post, answer));
        }
        assert(verdict(input) == in_turn(first, second)(input));
        assert(determined_in_turn::<A, B>(first, second, post, verdict));
    }

    proof fn lemma_control(
        verdict: spec_fn(A::Input) -> Result<B::Output, A::Error>,
        graph: Self,
        control: Self,
    ) {
        let (first, second) = choose|
            first: spec_fn(A::Input) -> Result<A::Output, A::Error>,
            second: spec_fn(A::Output) -> Result<B::Output, A::Error>,
        |
            #[trigger] determined_in_turn::<A, B>(first, second, graph, verdict);
        A::lemma_control(first, graph.head(), control.head());
        B::lemma_control(second, graph.tail(), control.tail());
        assert(determined_in_turn::<A, B>(first, second, control, verdict));
    }

    proof fn lemma_no_store(
        pre: Self,
        input: A::Input,
        cx: ContextView,
        post: Self,
        cx_post: ContextView,
        answer: StagePoll<B::Output, A::Error>,
    ) {
        let (mid, polled) = choose|mid: ContextView, polled: StagePoll<A::Output, A::Error>|
            {
                &&& #[trigger] A::polls(pre.head(), input, cx, post.head(), mid, polled)
                &&& cx.later(mid)
                &&& Chain::<A, B>::follows(pre, mid, polled, post, cx_post, answer)
            };
        A::lemma_no_store(pre.head(), input, cx, post.head(), mid, polled);
        assert forall|x: A::Output| #[trigger]
            B::polls(
                pre.tail(),
                x,
                mid,
                post.tail(),
                cx_post,
                answer,
            ) implies post.tail().has_no_store() by {
            B::lemma_no_store(pre.tail(), x, mid, post.tail(), cx_post, answer);
        }
    }
}

/// Registering the first stage of a pipeline: where the stage is determined, so is the graph,
/// wherever the pipeline remembers. Uncached, it has no store.
pub proof fn law_registering_the_first_stage_keeps_its_verdicts<
    S: Stage,
    G: PipelineStore<S::Output>,
>(
    good: spec_fn(S) -> bool,
    own: spec_fn(S::Input) -> Result<S::Output, S::Error>,
    key: spec_fn(S::Input) -> Option<KeyView>,
    stage: S,
    id: StageId,
    choice: StoreChoice<G>,
    post: StagedPipelineBuilder<Memo<Positioned<S>, BuilderStore<S::Output, G>>, G>,
)
    requires
        keeps_to::<S>(good, own),
        keys_by::<S>(good, own, key),
        good(stage),
        choice matches StoreChoice::Given(store) ==> is_sound(store, own, key),
        registered(stage, 0, id, choice, post.assembled()),
    ensures
        post.assembled().determined(verdict_at(own, 0)),
        choice is Off ==> post.assembled().has_no_store(),
{
    law_a_stage_is_registered_sound::<S, G>(
        good,
        own,
        key,
        stage,
        0,
        id,
        choice,
        post.assembled(),
    );
    assert(determined_as::<S, G>(good, own, key, 0, post.assembled(), verdict_at(own, 0)));
}

/// Registering one more stage: where the graph so far and the stage are determined, so is the
/// longer graph, with their verdicts in turn, wherever the pipeline remembers. Uncached, it
/// has no store.
pub proof fn law_registering_one_more_stage_keeps_the_verdicts<
    S: Assembled<Error = Failure<E>>,
    S2: Stage<Input = S::Output, Error = E>,
    G: PipelineStore<S2::Output>,
    E,
>(
    so_far: spec_fn(S::Input) -> Result<S::Output, Failure<E>>,
    good: spec_fn(S2) -> bool,
    own: spec_fn(S::Output) -> Result<S2::Output, E>,
    key: spec_fn(S::Output) -> Option<KeyView>,
    stage: S2,
    id: StageId,
    pre: StagedPipelineBuilder<S, G>,
    post: StagedPipelineBuilder<Chain<S, Memo<Positioned<S2>, BuilderStore<S2::Output, G>>>, G>,
)
    requires
        pre.assembled().determined(so_far),
        keeps_to::<S2>(good, own),
        keys_by::<S2>(good, own, key),
        good(stage),
        pre.remembers() matches StoreChoice::Given(store) ==> is_sound(store, own, key),
        post.assembled().head() == pre.assembled(),
        registered(stage, pre.count(), id, pre.remembers(), post.assembled().tail()),
    ensures
        post.assembled().determined(in_turn(so_far, verdict_at(own, pre.count()))),
        pre.remembers() is Off && pre.assembled().has_no_store()
            ==> post.assembled().has_no_store(),
{
    let at = pre.count();
    let memo = post.assembled().tail();
    law_a_stage_is_registered_sound::<S2, G>(good, own, key, stage, at, id, pre.remembers(), memo);
    assert(determined_as::<S2, G>(good, own, key, at, memo, verdict_at(own, at)));
    assert(determined_in_turn::<S, Memo<Positioned<S2>, BuilderStore<S2::Output, G>>>(
        so_far,
        verdict_at(own, at),
        post.assembled(),
        in_turn(so_far, verdict_at(own, at)),
    ));
}

/// Registering the same stage after graphs of the same stages gives graphs of the same
/// stages, whatever each pipeline remembers into.
pub proof fn law_the_same_registrations_give_the_same_stages<
    S: Assembled<Error = Failure<E>>,
    S2: Stage<Input = S::Output, Error = E>,
    G: PipelineStore<S2::Output>,
    E,
>(
    stage: S2,
    id: StageId,
    pre: StagedPipelineBuilder<S, G>,
    post: StagedPipelineBuilder<Chain<S, Memo<Positioned<S2>, BuilderStore<S2::Output, G>>>, G>,
    control_pre: StagedPipelineBuilder<S, G>,
    control_post: StagedPipelineBuilder<
        Chain<S, Memo<Positioned<S2>, BuilderStore<S2::Output, G>>>,
        G,
    >,
)
    requires
        control_pre.assembled().same_stages(pre.assembled()),
        control_pre.count() == pre.count(),
        post.assembled().head() == pre.assembled(),
        control_post.assembled().head() == control_pre.assembled(),
        registered(stage, pre.count(), id, pre.remembers(), post.assembled().tail()),
        registered(
            stage,
            control_pre.count(),
            id,
            control_pre.remembers(),
            control_post.assembled().tail(),
        ),
    ensures
        control_post.assembled().same_stages(post.assembled()),
{
}

/// Answers must not change, only speed: of two pipelines of the same determined stages, of
/// any number of them, one of which has no store, the same runs are answered the same, in
/// the same order. The one without a store never has one, so that it polls a stage each time
/// the graph reaches it.
pub proof fn law_the_uncached_pipeline_answers_as_the_cached_one<V: PartialEq, S: Assembled>(
    verdict: spec_fn(S::Input) -> Result<S::Output, S::Error>,
    visits: Seq<Visit<V, S>>,
    control: Seq<Visit<V, S>>,
)
    requires
        one_after_the_other(visits),
        one_after_the_other(control),
        asked_alike(visits, control),
        visits.len() > 0 ==> {
            &&& visits[0].pre.graph().determined(verdict)
            &&& control[0].pre.graph().same_stages(visits[0].pre.graph())
            &&& control[0].pre.graph().has_no_store()
            &&& visits[0].pre.answered() == control[0].pre.answered()
        },
    ensures
        forall|k: int|
            #![trigger visits[k], control[k]]
            0 <= k < visits.len() ==> visits[k].answer == control[k].answer,
        forall|k: int|
            0 <= k < control.len() ==> (#[trigger] control[k]).post.graph().has_no_store(),
{
    let good = |g: S| g.determined(verdict);
    assert forall|
        s: S,
        i: S::Input,
        c: ContextView,
        s_post: S,
        c_post: ContextView,
        a: StagePoll<S::Output, S::Error>,
    |
        good(s) && #[trigger] S::polls(s, i, c, s_post, c_post, a) implies gives(a, verdict(i))
        && good(s_post) by {
        S::lemma_determined(verdict, s, i, c, s_post, c_post, a);
    }
    if visits.len() > 0 {
        S::lemma_control(verdict, visits[0].pre.graph(), control[0].pre.graph());
    }
    law_answers_do_not_depend_on_the_store::<V, S, S>(good, good, verdict, visits, control);
    assert forall|k: int| 0 <= k < control.len() implies (
    #[trigger] control[k]).post.graph().has_no_store() by {
        lemma_never_a_store(control, k);
    }
}

/// Runs give a pipeline that has no store none.
proof fn lemma_never_a_store<V: PartialEq, S: Assembled>(control: Seq<Visit<V, S>>, k: int)
    requires
        one_after_the_other(control),
        0 <= k < control.len(),
        control[0].pre.graph().has_no_store(),
    ensures
        control[k].post.graph().has_no_store(),
    decreases k,
{
    let a = control[k];
    if k > 0 {
        lemma_never_a_store(control, k - 1);
        assert(control[k].pre.graph() == control[k - 1].post.graph());
    }
    assert(a.is_run());
    if !gated(a.pre.answered(), a.version, a.pre.is_stale()) {
        let p = choose|p: StagePoll<S::Output, S::Error>|
            {
                &&& #[trigger] frame_polls(
                    a.pre.graph(),
                    a.input,
                    a.pre.target(),
                    a.pre.drive_taken(),
                    a.post.graph(),
                    a.post.drive(),
                    p,
                )
                &&& a.answer == crate::pipeline::run_answer(p)
                &&& a.post.answered() == crate::pipeline::version_after(
                    a.pre.answered(),
                    a.version,
                    p,
                )
            };
        let cx = a.pre.drive_taken().handing(a.pre.target());
        let end = choose|end: ContextView|
            {
                &&& #[trigger] S::polls(a.pre.graph(), a.input, cx, a.post.graph(), end, p)
                &&& cx.later(end)
                &&& a.post.drive() == end.handing(a.pre.drive_taken().waker)
            };
        S::lemma_no_store(a.pre.graph(), a.input, cx, a.post.graph(), end, p);
    }
}

} // verus!
