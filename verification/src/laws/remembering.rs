//! What is remembered, where, and what of it is served again.

use std::sync::Arc;

use vstd::prelude::*;

use crate::builder::{
    registered, serves, BuilderStore, Failure, PipelineBuilder, PipelineStore, Positioned,
    StagedPipelineBuilder, StoreChoice,
};
use crate::chain::Chain;
use crate::context::{Context, ContextView};
use crate::effect::{EffectPoll, StageAnswer};
use crate::key::{ContentKey, KeyView, MemoKey, StageId};
use crate::memo::Memo;
use crate::stage::{Stage, StagePoll};
use crate::store::{MemoMap, MemoStore, NoMemo};

verus! {

/// A key gives back the stage and the inputs that it was made of, all of them and in order.
pub proof fn law_a_key_holds_all_it_was_made_of(
    stage: StageId,
    inputs: Vec<ContentKey>,
    key: MemoKey,
    stage_read: StageId,
    inputs_read: &Vec<ContentKey>,
)
    requires
        call_ensures(MemoKey::new, (stage, inputs), key),
        call_ensures(MemoKey::stage, (&key,), stage_read),
        call_ensures(MemoKey::inputs, (&key,), inputs_read),
    ensures
        stage_read == stage,
        inputs_read@.len() == inputs@.len(),
        forall|i: int| 0 <= i < inputs@.len() ==> (#[trigger] inputs_read@[i]) == inputs@[i],
        key@.stage == stage,
        key@.inputs.len() == inputs@.len(),
        forall|i: int| 0 <= i < inputs@.len() ==> (#[trigger] key@.inputs[i]) == inputs@[i],
{
}

/// Two keys are the same exactly if they were made of the same stage and, place by place, of
/// the same inputs.
pub proof fn law_keys_are_the_same_where_all_they_are_made_of_is(
    one: (StageId, Vec<ContentKey>),
    two: (StageId, Vec<ContentKey>),
    a: MemoKey,
    b: MemoKey,
    same: bool,
)
    requires
        call_ensures(MemoKey::new, one, a),
        call_ensures(MemoKey::new, two, b),
        call_ensures(MemoKey::same, (&a, &b), same),
    ensures
        same <==> one.0 == two.0 && one.1@.len() == two.1@.len() && forall|i: int|
            0 <= i < one.1@.len() ==> (#[trigger] one.1@[i]) == two.1@[i],
{
    if one.0 == two.0 && one.1@.len() == two.1@.len() && forall|i: int|
        0 <= i < one.1@.len() ==> (#[trigger] one.1@[i]) == two.1@[i] {
        assert(one.1@ =~= two.1@);
    }
}

/// A map finds under a key, whatever the key, the share last recorded under it, and under
/// every other key what it found before.
pub proof fn law_a_map_finds_what_was_recorded<V>(
    pre: MemoMap<V>,
    key: KeyView,
    value: Arc<V>,
    post: MemoMap<V>,
    k: KeyView,
    found: Option<Arc<V>>,
)
    requires
        MemoMap::<V>::records(pre, key, value, post),
    ensures
        k == key ==> (post.may_find(k, found) <==> found == Some(value)),
        k != key ==> (post.may_find(k, found) <==> pre.may_find(k, found)),
{
}

/// A new map finds nothing.
pub proof fn law_a_new_map_finds_nothing<V>(map: MemoMap<V>, k: KeyView, found: Option<Arc<V>>)
    requires
        call_ensures(MemoMap::<V>::new, (), map),
    ensures
        map.may_find(k, found) <==> found is None,
{
}

/// The control case finds nothing, before and after.
pub proof fn law_the_control_case_finds_nothing<V>(
    pre: NoMemo,
    key: KeyView,
    value: Arc<V>,
    post: NoMemo,
    k: KeyView,
    found: Option<Arc<V>>,
)
    requires
        <NoMemo as MemoStore<V>>::records(pre, key, value, post),
    ensures
        <NoMemo as MemoStore<V>>::may_find(&post, k, found) <==> found is None,
        <NoMemo as MemoStore<V>>::may_find(&pre, k, found) <==> found is None,
{
}

/// A stage's store finds what the map it owns or the store handed over finds, and nothing
/// where it remembers nothing.
pub proof fn law_a_stages_store_finds_what_is_behind_it<V, G: MemoStore<V>>(
    store: BuilderStore<V, G>,
    k: KeyView,
    found: Option<Arc<V>>,
)
    ensures
        store matches BuilderStore::Own(map) ==> (store.may_find(k, found) <==> map.may_find(
            k,
            found,
        )),
        store matches BuilderStore::Given(given) ==> (store.may_find(k, found) <==> given.may_find(
            k,
            found,
        )),
        store is Off ==> (store.may_find(k, found) <==> found is None),
{
}

/// What is recorded in a stage's store, under whatever key, is found there again where the
/// pipeline owns the map; it is recorded in the store handed over, by that store's own rule,
/// where one was; and it is nowhere where nothing is remembered.
pub proof fn law_what_a_stages_store_records_it_finds<V, G: MemoStore<V>>(
    pre: BuilderStore<V, G>,
    key: KeyView,
    value: Arc<V>,
    post: BuilderStore<V, G>,
    k: KeyView,
    found: Option<Arc<V>>,
)
    requires
        BuilderStore::<V, G>::records(pre, key, value, post),
    ensures
        pre is Own ==> {
            &&& post is Own
            &&& k == key ==> (post.may_find(k, found) <==> found == Some(value))
            &&& k != key ==> (post.may_find(k, found) <==> pre.may_find(k, found))
        },
        pre matches BuilderStore::Given(was) ==> {
            &&& post matches BuilderStore::Given(is)
            &&& G::records(was, key, value, is)
        },
        pre is Off ==> post is Off,
{
}

/// What a poll of a memo is. Either the store holds a share under the input's key, and the
/// poll is not revalidating: that share is the answer, it goes into the slot, and neither the
/// stage nor the store nor the drive is touched. Or the stage is polled, which happens only
/// where there is no key, or the poll is revalidating, or the store may find nothing: a value
/// that comes goes into the slot and, where there is a key, into the store; any other answer
/// leaves both alone.
pub proof fn law_a_memo_serves_or_polls_and_remembers<S: Stage, St: MemoStore<S::Output>>(
    pre: Memo<S, St>,
    input: S::Input,
    cx: ContextView,
    post: Memo<S, St>,
    cx_post: ContextView,
    answer: StagePoll<S::Output, S::Error>,
) -> (served: Option<Arc<S::Output>>)
    requires
        Memo::<S, St>::polls(pre, input, cx, post, cx_post, answer),
    ensures
        served matches Some(hit) ==> {
            &&& pre.inner().key_of(input) matches Some(key)
            &&& pre.rows().may_find(key, Some(hit))
            &&& cx.ledger.running.len() == 0 ==> !cx.nested
            &&& cx.ledger.running.len() > 0 ==> !cx.ledger.running.last().revalidating
            &&& answer == StagePoll::<S::Output, S::Error>::Ready(StageAnswer::Computed(hit))
            &&& cx_post == cx
            &&& post.inner() == pre.inner()
            &&& post.rows() == pre.rows()
            &&& post.last() == Some(hit)
        },
        served is None ==> {
            &&& S::polls(pre.inner(), input, cx, post.inner(), cx_post, answer)
            &&& pre.inner().key_of(input) matches Some(key) ==> {
                ||| cx.ledger.running.len() == 0 && cx.nested
                ||| cx.ledger.running.len() > 0 && cx.ledger.running.last().revalidating
                ||| pre.rows().may_find(key, None)
            }
            &&& answer matches EffectPoll::Ready(StageAnswer::Computed(held)) ==> {
                &&& post.last() == Some(held)
                &&& pre.inner().key_of(input) matches Some(key) ==> St::records(
                    pre.rows(),
                    key,
                    held,
                    post.rows(),
                )
                &&& pre.inner().key_of(input) matches Some(key) ==> forall|
                    k: KeyView,
                    share: Arc<S::Output>,
                | #[trigger]
                    post.rows().may_find(k, Some(share)) ==> pre.rows().may_find(k, Some(share))
                        || (k == key && share == held)
                &&& pre.inner().key_of(input) is None ==> post.rows() == pre.rows()
            }
            &&& !(answer matches EffectPoll::Ready(StageAnswer::Computed(_))) ==> post.last()
                == pre.last() && post.rows() == pre.rows()
        },
{
    choose|found: Option<Arc<S::Output>>|
        {
            &&& #[trigger] pre.serves(input, cx, found)
            &&& Memo::<S, St>::polls_on(pre, input, cx, found, post, cx_post, answer)
        }
}

/// Once an input with a key has been answered with a share, a poll over an input of the same
/// key that is not revalidating is served that share and does not enter the stage, however
/// many polls over other keys or over none came between.
///
/// Of a memo whose store is a map that the pipeline owns, or any other stage's store that is.
pub proof fn law_an_answered_key_is_served_again<S: Stage, G: MemoStore<S::Output>>(
    memos: Seq<Memo<S, BuilderStore<S::Output, G>>>,
    inputs: Seq<S::Input>,
    before: Seq<ContextView>,
    after: Seq<ContextView>,
    answers: Seq<StagePoll<S::Output, S::Error>>,
    key: KeyView,
    share: Arc<S::Output>,
)
    requires
        answers.len() >= 2,
        memos.len() == answers.len() + 1,
        inputs.len() == answers.len(),
        before.len() == answers.len(),
        after.len() == answers.len(),
        forall|i: int|
            #![trigger answers[i]]
            0 <= i < answers.len() ==> Memo::<S, BuilderStore<S::Output, G>>::polls(
                memos[i],
                inputs[i],
                before[i],
                memos[i + 1],
                after[i],
                answers[i],
            ),
        memos.first().rows() is Own,
        memos.first().inner().key_of(inputs.first()) == Some(key),
        answers.first() == StagePoll::<S::Output, S::Error>::Ready(StageAnswer::Computed(share)),
        forall|i: int|
            0 < i < answers.len() - 1 ==> (#[trigger] memos[i]).inner().key_of(inputs[i]) != Some(
                key,
            ),
        memos[answers.len() - 1].inner().key_of(inputs.last()) == Some(key),
        before.last().ledger.running.len() == 0 ==> !before.last().nested,
        before.last().ledger.running.len() > 0
            ==> !before.last().ledger.running.last().revalidating,
    ensures
        answers.last() == StagePoll::<S::Output, S::Error>::Ready(StageAnswer::Computed(share)),
        after.last() == before.last(),
        memos.last().inner() == memos[answers.len() - 1].inner(),
{
    let last = answers.len() - 1;
    lemma_answered_key_is_held(memos, inputs, before, after, answers, key, share, last);
    assert(answers[last] == answers.last());
    let served = law_a_memo_serves_or_polls_and_remembers(
        memos[last],
        inputs[last],
        before[last],
        memos[last + 1],
        after[last],
        answers[last],
    );
    if served is None {
        assert(memos[last].rows().may_find(key, None));
    }
}

/// Before poll `i` the key answered first is held.
proof fn lemma_answered_key_is_held<S: Stage, G: MemoStore<S::Output>>(
    memos: Seq<Memo<S, BuilderStore<S::Output, G>>>,
    inputs: Seq<S::Input>,
    before: Seq<ContextView>,
    after: Seq<ContextView>,
    answers: Seq<StagePoll<S::Output, S::Error>>,
    key: KeyView,
    share: Arc<S::Output>,
    i: int,
)
    requires
        0 < i < answers.len(),
        memos.len() == answers.len() + 1,
        inputs.len() == answers.len(),
        forall|i: int|
            #![trigger answers[i]]
            0 <= i < answers.len() ==> Memo::<S, BuilderStore<S::Output, G>>::polls(
                memos[i],
                inputs[i],
                before[i],
                memos[i + 1],
                after[i],
                answers[i],
            ),
        memos.first().rows() is Own,
        memos.first().inner().key_of(inputs.first()) == Some(key),
        answers.first() == StagePoll::<S::Output, S::Error>::Ready(StageAnswer::Computed(share)),
        forall|i: int|
            0 < i < answers.len() - 1 ==> (#[trigger] memos[i]).inner().key_of(inputs[i]) != Some(
                key,
            ),
    ensures
        memos[i].rows() is Own,
        forall|found: Option<Arc<S::Output>>| #[trigger]
            memos[i].rows().may_find(key, found) <==> found == Some(share),
    decreases i,
{
    let h = i - 1;
    assert(answers[h] == answers[h]);
    if h > 0 {
        lemma_answered_key_is_held(memos, inputs, before, after, answers, key, share, h);
    }
    let served = law_a_memo_serves_or_polls_and_remembers(
        memos[h],
        inputs[h],
        before[h],
        memos[h + 1],
        after[h],
        answers[h],
    );
    assert forall|found: Option<Arc<S::Output>>| #[trigger]
        memos[h + 1].rows().may_find(key, found) <==> found == Some(share) by {
        if served is None {
            if let EffectPoll::Ready(StageAnswer::Computed(held)) = answers[h] {
                if let Some(k) = memos[h].inner().key_of(inputs[h]) {
                    law_what_a_stages_store_records_it_finds(
                        memos[h].rows(),
                        k,
                        held,
                        memos[h + 1].rows(),
                        key,
                        found,
                    );
                }
            }
        }
        assert(memos[h].rows().may_find(key, found) || !memos[h].rows().may_find(key, found));
    }
}

/// A memo whose store is a map that the pipeline owns has one after any number of polls.
proof fn lemma_a_map_stays_a_map<S: Stage, G: MemoStore<S::Output>>(
    memos: Seq<Memo<S, BuilderStore<S::Output, G>>>,
    inputs: Seq<S::Input>,
    before: Seq<ContextView>,
    after: Seq<ContextView>,
    answers: Seq<StagePoll<S::Output, S::Error>>,
    i: int,
)
    requires
        0 <= i <= answers.len(),
        forall|i: int|
            #![trigger answers[i]]
            0 <= i < answers.len() ==> Memo::<S, BuilderStore<S::Output, G>>::polls(
                memos[i],
                inputs[i],
                before[i],
                memos[i + 1],
                after[i],
                answers[i],
            ),
        memos[0].rows() is Own,
    ensures
        memos[i].rows() is Own,
    decreases i,
{
    if i > 0 {
        let h = i - 1;
        assert(answers[h] == answers[h]);
        lemma_a_map_stays_a_map(memos, inputs, before, after, answers, h);
        let served = law_a_memo_serves_or_polls_and_remembers(
            memos[h],
            inputs[h],
            before[h],
            memos[h + 1],
            after[h],
            answers[h],
        );
        if served is None {
            if let EffectPoll::Ready(StageAnswer::Computed(held)) = answers[h] {
                if let Some(k) = memos[h].inner().key_of(inputs[h]) {
                    law_what_a_stages_store_records_it_finds(
                        memos[h].rows(),
                        k,
                        held,
                        memos[h + 1].rows(),
                        k,
                        None,
                    );
                }
            }
        }
    }
}

/// Of a stage that was registered by a builder that is not uncached and was handed no store:
/// once an input with a key has been answered with a share, whichever poll that was, a poll
/// over an input of the same key that is not revalidating is served that share and does not
/// enter the stage, however many polls over other keys or over none came between.
pub proof fn law_a_registered_stage_is_served_what_it_computed<
    S: Stage,
    G: PipelineStore<S::Output>,
    F: FnOnce(StageId) -> S,
>(
    builder: PipelineBuilder<G>,
    name: &'static str,
    make: F,
    r: StagedPipelineBuilder<Memo<Positioned<S>, BuilderStore<S::Output, G>>, G>,
    memos: Seq<Memo<Positioned<S>, BuilderStore<S::Output, G>>>,
    inputs: Seq<S::Input>,
    before: Seq<ContextView>,
    after: Seq<ContextView>,
    answers: Seq<StagePoll<S::Output, Failure<S::Error>>>,
    at: int,
    key: KeyView,
    share: Arc<S::Output>,
)
    requires
        call_ensures(PipelineBuilder::<G>::stage::<S, F>, (builder, name, make), r),
        !builder.is_uncached(),
        builder.given() is None,
        0 <= at < answers.len() - 1,
        memos.len() == answers.len() + 1,
        inputs.len() == answers.len(),
        before.len() == answers.len(),
        after.len() == answers.len(),
        memos[0] == r.assembled(),
        forall|i: int|
            #![trigger answers[i]]
            0 <= i < answers.len() ==> Memo::<
                Positioned<S>,
                BuilderStore<S::Output, G>,
            >::polls(memos[i], inputs[i], before[i], memos[i + 1], after[i], answers[i]),
        memos[at].inner().key_of(inputs[at]) == Some(key),
        answers[at] == StagePoll::<S::Output, Failure<S::Error>>::Ready(
            StageAnswer::Computed(share),
        ),
        forall|i: int|
            at < i < answers.len() - 1 ==> (#[trigger] memos[i]).inner().key_of(inputs[i]) != Some(
                key,
            ),
        memos[answers.len() - 1].inner().key_of(inputs.last()) == Some(key),
        before.last().ledger.running.len() == 0 ==> !before.last().nested,
        before.last().ledger.running.len() > 0
            ==> !before.last().ledger.running.last().revalidating,
    ensures
        answers.last() == StagePoll::<S::Output, Failure<S::Error>>::Ready(
            StageAnswer::Computed(share),
        ),
        after.last() == before.last(),
        memos.last().inner() == memos[answers.len() - 1].inner(),
{
    law_a_first_stage_remembers_as_its_builder_says(builder, name, make, r);
    lemma_a_map_stays_a_map(memos, inputs, before, after, answers, at);
    let rest = answers.skip(at);
    let rest_memos = memos.skip(at);
    let rest_inputs = inputs.skip(at);
    let rest_before = before.skip(at);
    let rest_after = after.skip(at);
    assert forall|i: int| #![trigger rest[i]] 0 <= i < rest.len() implies Memo::<
        Positioned<S>,
        BuilderStore<S::Output, G>,
    >::polls(
        rest_memos[i],
        rest_inputs[i],
        rest_before[i],
        rest_memos[i + 1],
        rest_after[i],
        rest[i],
    ) by {
        assert(rest[i] == answers[at + i]);
        assert(rest_memos[i + 1] == memos[at + i + 1]);
    }
    assert forall|i: int| 0 < i < rest.len() - 1 implies (
    #[trigger] rest_memos[i]).inner().key_of(rest_inputs[i]) != Some(key) by {
        assert(rest_memos[i] == memos[at + i]);
    }
    assert(rest_memos[rest.len() - 1] == memos[answers.len() - 1]);
    law_an_answered_key_is_served_again(
        rest_memos,
        rest_inputs,
        rest_before,
        rest_after,
        rest,
        key,
        share,
    );
}

/// What was computed over an input with a key is recorded in a store handed over under that
/// key, by the store's own rule for recording. The one share answered that is not, is one
/// that the store itself served, which leaves the store, the stage and the drive alone.
pub proof fn law_a_store_handed_over_records_what_was_computed<S: Stage, G: MemoStore<S::Output>>(
    pre: Memo<S, BuilderStore<S::Output, G>>,
    input: S::Input,
    cx: ContextView,
    post: Memo<S, BuilderStore<S::Output, G>>,
    cx_post: ContextView,
    answer: StagePoll<S::Output, S::Error>,
    whole: G,
    key: KeyView,
    share: Arc<S::Output>,
)
    requires
        Memo::<S, BuilderStore<S::Output, G>>::polls(pre, input, cx, post, cx_post, answer),
        pre.rows() == BuilderStore::<S::Output, G>::Given(whole),
        pre.inner().key_of(input) == Some(key),
        answer == StagePoll::<S::Output, S::Error>::Ready(StageAnswer::Computed(share)),
    ensures
        post.rows() matches BuilderStore::Given(is) && ({
            ||| G::records(whole, key, share, is) && S::polls(
                pre.inner(),
                input,
                cx,
                post.inner(),
                cx_post,
                answer,
            )
            ||| {
                &&& whole.may_find(key, Some(share))
                &&& cx.ledger.running.len() == 0 ==> !cx.nested
                &&& cx.ledger.running.len() > 0 ==> !cx.ledger.running.last().revalidating
                &&& is == whole
                &&& post.inner() == pre.inner()
                &&& cx_post == cx
            }
        }),
{
    let served = law_a_memo_serves_or_polls_and_remembers(pre, input, cx, post, cx_post, answer);
}

/// A memo is transparent: what its stage is, needs and is keyed by, it is, needs and is keyed
/// by.
pub proof fn law_a_memo_is_keyed_as_its_stage<S: Stage, St: MemoStore<S::Output>>(
    memo: Memo<S, St>,
    input: S::Input,
)
    ensures
        memo.key_of(input) == memo.inner().key_of(input),
        memo.identity() == memo.inner().identity(),
        memo.needs() == memo.inner().needs(),
        memo.may_repeat() == memo.inner().may_repeat(),
{
}

/// What the first stage of a pipeline remembers into is one decision of its builder: nothing
/// where that is uncached; the store handed over where one was; and an empty map of its own
/// otherwise. It stands at position zero and has given no answer yet.
pub proof fn law_a_first_stage_remembers_as_its_builder_says<
    S: Stage,
    G: PipelineStore<S::Output>,
    F: FnOnce(StageId) -> S,
>(
    builder: PipelineBuilder<G>,
    name: &'static str,
    make: F,
    r: StagedPipelineBuilder<Memo<Positioned<S>, BuilderStore<S::Output, G>>, G>,
)
    requires
        call_ensures(PipelineBuilder::<G>::stage::<S, F>, (builder, name, make), r),
    ensures
        r.assembled().inner().position() == 0,
        r.assembled().last() is None,
        r.count() == 1,
        exists|id: StageId| #[trigger]
            call_ensures(make, (id,), r.assembled().inner().inner()) && id.position() == 0,
        builder.is_uncached() ==> r.assembled().rows() is Off && r.remembers() is Off,
        !builder.is_uncached() && builder.given() is None ==> r.remembers() is Own && (
        r.assembled().rows() is Own && forall|k: KeyView, found: Option<Arc<S::Output>>| #[trigger]
            r.assembled().rows().may_find(k, found) <==> found is None),
        !builder.is_uncached() ==> (builder.given() matches Some(whole) ==> r.remembers()
            == StoreChoice::Given(whole) && (r.assembled().rows() matches BuilderStore::Given(part)
            && forall|k: KeyView, found: Option<Arc<S::Output>>| #[trigger]
            part.may_find(k, found) <==> whole.may_find(k, found))),
        r.drive() == builder.drive(),
{
    let (id, s) = choose|id: StageId, s: S|
        {
            &&& #[trigger] call_ensures(make, (id,), s)
            &&& id.position() == 0
            &&& registered(s, 0, id, builder.choice(), r.assembled())
        };
    assert(call_ensures(make, (id,), r.assembled().inner().inner()));
    assert(serves(builder.choice(), id, r.assembled().rows()));
}

/// Every further stage remembers as the first does, each into a map of its own where the
/// pipeline owns the maps. It stands at the next position, and what was assembled before
/// stands before it.
pub proof fn law_a_further_stage_remembers_as_the_first<
    S: Stage<Error = Failure<E>>,
    E,
    S2: Stage<Input = S::Output, Error = E>,
    G: PipelineStore<S2::Output>,
    F: FnOnce(StageId) -> S2,
>(
    builder: StagedPipelineBuilder<S, G>,
    name: &'static str,
    make: F,
    r: StagedPipelineBuilder<Chain<S, Memo<Positioned<S2>, BuilderStore<S2::Output, G>>>, G>,
)
    requires
        call_ensures(StagedPipelineBuilder::<S, G>::stage::<S2, F>, (builder, name, make), r),
        builder.count() < usize::MAX,
    ensures
        r.assembled().head() == builder.assembled(),
        r.assembled().join() is Cold,
        r.assembled().own_id().position() == usize::MAX,
        r.assembled().tail().inner().position() == builder.count(),
        r.assembled().tail().last() is None,
        r.count() == builder.count() + 1,
        exists|id: StageId| #[trigger]
            call_ensures(make, (id,), r.assembled().tail().inner().inner()) && id.position()
                == builder.count(),
        r.remembers() == builder.remembers(),
        builder.remembers() is Off ==> r.assembled().tail().rows() is Off,
        builder.remembers() is Own ==> r.assembled().tail().rows() is Own && forall|
            k: KeyView,
            found: Option<Arc<S2::Output>>,
        | #[trigger] r.assembled().tail().rows().may_find(k, found) <==> found is None,
        builder.remembers() matches StoreChoice::Given(whole) ==> (
        r.assembled().tail().rows() matches BuilderStore::Given(part) && forall|
            k: KeyView,
            found: Option<Arc<S2::Output>>,
        | #[trigger] part.may_find(k, found) <==> whole.may_find(k, found)),
        r.drive() == builder.drive(),
{
    let (id, s) = choose|id: StageId, s: S2|
        {
            &&& #[trigger] call_ensures(make, (id,), s)
            &&& id.position() == builder.count()
            &&& registered(s, builder.count(), id, builder.remembers(), r.assembled().tail())
        };
    assert(call_ensures(make, (id,), r.assembled().tail().inner().inner()));
    assert(serves(builder.remembers(), id, r.assembled().tail().rows()));
}

/// What a first stage that is made within the drive remembers into is the same decision.
pub proof fn law_a_first_stage_made_within_remembers_as_its_builder_says<
    S: Stage,
    G: PipelineStore<S::Output>,
    F: FnOnce(StageId, &mut Context) -> S,
>(
    builder: PipelineBuilder<G>,
    name: &'static str,
    make: F,
    r: StagedPipelineBuilder<Memo<Positioned<S>, BuilderStore<S::Output, G>>, G>,
)
    requires
        call_ensures(PipelineBuilder::<G>::stage_within::<S, F>, (builder, name, make), r),
    ensures
        r.assembled().inner().position() == 0,
        r.assembled().last() is None,
        r.count() == 1,
        exists|id: StageId, cx: &mut Context|
            {
                &&& #[trigger] call_ensures(make, (id, cx), r.assembled().inner().inner())
                &&& id.position() == 0
                &&& cx@ == builder.drive()
                &&& r.drive() == final(cx)@
            },
        builder.is_uncached() ==> r.assembled().rows() is Off && r.remembers() is Off,
        !builder.is_uncached() && builder.given() is None ==> r.remembers() is Own && (
        r.assembled().rows() is Own && forall|k: KeyView, found: Option<Arc<S::Output>>| #[trigger]
            r.assembled().rows().may_find(k, found) <==> found is None),
        !builder.is_uncached() ==> (builder.given() matches Some(whole) ==> r.remembers()
            == StoreChoice::Given(whole) && (r.assembled().rows() matches BuilderStore::Given(part)
            && forall|k: KeyView, found: Option<Arc<S::Output>>| #[trigger]
            part.may_find(k, found) <==> whole.may_find(k, found))),
{
    assert(exists|id: StageId, cx: &mut Context|
        {
            &&& #[trigger] call_ensures(make, (id, cx), r.assembled().inner().inner())
            &&& id.position() == 0
            &&& cx@ == builder.drive()
            &&& r.drive() == final(cx)@
            &&& serves(builder.choice(), id, r.assembled().rows())
        });
}

/// A further stage that is made within the drive remembers as the others do.
pub proof fn law_a_further_stage_made_within_remembers_as_the_first<
    S: Stage<Error = Failure<E>>,
    E,
    S2: Stage<Input = S::Output, Error = E>,
    G: PipelineStore<S2::Output>,
    F: FnOnce(StageId, &mut Context) -> S2,
>(
    builder: StagedPipelineBuilder<S, G>,
    name: &'static str,
    make: F,
    r: StagedPipelineBuilder<Chain<S, Memo<Positioned<S2>, BuilderStore<S2::Output, G>>>, G>,
)
    requires
        call_ensures(
            StagedPipelineBuilder::<S, G>::stage_within::<S2, F>,
            (builder, name, make),
            r,
        ),
        builder.count() < usize::MAX,
    ensures
        r.assembled().head() == builder.assembled(),
        r.assembled().join() is Cold,
        r.assembled().own_id().position() == usize::MAX,
        r.assembled().tail().inner().position() == builder.count(),
        r.assembled().tail().last() is None,
        r.count() == builder.count() + 1,
        exists|id: StageId, cx: &mut Context|
            {
                &&& #[trigger] call_ensures(make, (id, cx), r.assembled().tail().inner().inner())
                &&& id.position() == builder.count()
                &&& cx@ == builder.drive()
                &&& r.drive() == final(cx)@
            },
        r.remembers() == builder.remembers(),
        builder.remembers() is Off ==> r.assembled().tail().rows() is Off,
        builder.remembers() is Own ==> r.assembled().tail().rows() is Own && forall|
            k: KeyView,
            found: Option<Arc<S2::Output>>,
        | #[trigger] r.assembled().tail().rows().may_find(k, found) <==> found is None,
        builder.remembers() matches StoreChoice::Given(whole) ==> (
        r.assembled().tail().rows() matches BuilderStore::Given(part) && forall|
            k: KeyView,
            found: Option<Arc<S2::Output>>,
        | #[trigger] part.may_find(k, found) <==> whole.may_find(k, found)),
{
    assert(exists|id: StageId, cx: &mut Context|
        {
            &&& #[trigger] call_ensures(make, (id, cx), r.assembled().tail().inner().inner())
            &&& id.position() == builder.count()
            &&& cx@ == builder.drive()
            &&& r.drive() == final(cx)@
            &&& serves(builder.remembers(), id, r.assembled().tail().rows())
        });
}

} // verus!
