//! Identities, content addresses, and the keys made of them.

use vstd::prelude::*;

verus! {

/// A stage's identity: the position a builder minted for it. A stage answers the id
/// it was handed and never invents one.
#[derive(Clone, Copy, PartialEq, Eq, Structural, PartialOrd, Ord, Hash, Debug)]
pub struct StageId {
    index: usize,
}

impl StageId {
    /// The position.
    pub closed spec fn position(self) -> usize {
        self.index
    }

    /// The id of a position, mathematically.
    pub closed spec fn of(position: usize) -> StageId {
        StageId { index: position }
    }

    /// The id of position `index`.
    pub fn at(index: usize) -> (r: StageId)
        ensures
            r == StageId::of(index),
            r.position() == index,
    {
        StageId { index }
    }

    /// The position this id was minted from.
    pub fn index(&self) -> (r: usize)
        ensures
            r == self.position(),
    {
        self.index
    }
}

impl StageId {
    /// Ids are the same exactly when their positions are.
    pub proof fn law_an_id_is_its_position(a: StageId, b: StageId)
        ensures
            a.position() == b.position() <==> a == b,
            StageId::of(a.position()) == a,
    {
    }
}

/// The address of a value's content. Equal addresses are taken for equal values.
#[derive(Clone, Copy, PartialEq, Eq, Structural, PartialOrd, Ord, Hash, Debug)]
pub struct ContentKey {
    bits: u128,
}

impl ContentKey {
    /// The address, as a number.
    pub closed spec fn number(self) -> u128 {
        self.bits
    }

    /// The address `bits`.
    pub fn from_u128(bits: u128) -> (r: ContentKey)
        ensures
            r.number() == bits,
    {
        ContentKey { bits }
    }

    /// The address, as a number.
    pub fn to_u128(&self) -> (r: u128)
        ensures
            r == self.number(),
    {
        self.bits
    }

    /// The address of `value`.
    pub fn of<T: ContentHash>(value: &T) -> (r: ContentKey)
        ensures
            r == value.address(),
    {
        value.content_key()
    }

    /// Addresses are the same exactly when their numbers are.
    pub proof fn law_an_address_is_its_number(a: ContentKey, b: ContentKey)
        ensures
            a.number() == b.number() <==> a == b,
    {
    }
}

/// A value whose content has an address.
pub trait ContentHash {
    /// The address, mathematically: a function of the value alone.
    spec fn address(&self) -> ContentKey;

    /// The address of this value's content.
    fn content_key(&self) -> (r: ContentKey)
        ensures
            r == self.address(),
    ;
}

/// What a memo key says.
#[verifier::ext_equal]
pub struct KeyView {
    /// Which stage.
    pub stage: StageId,
    /// The addresses of its inputs.
    pub inputs: Seq<ContentKey>,
}

/// The key of an answer: which stage, over inputs of which content.
#[derive(Clone, PartialEq, Eq, PartialOrd, Ord, Hash, Debug)]
pub struct MemoKey {
    stage: StageId,
    inputs: Vec<ContentKey>,
}

impl View for MemoKey {
    type V = KeyView;

    closed spec fn view(&self) -> KeyView {
        KeyView { stage: self.stage, inputs: self.inputs@ }
    }
}

impl MemoKey {
    /// The key of `stage` over `inputs`.
    pub fn new(stage: StageId, inputs: Vec<ContentKey>) -> (r: MemoKey)
        ensures
            r@ == (KeyView { stage, inputs: inputs@ }),
    {
        MemoKey { stage, inputs }
    }

    /// The stage the key belongs to.
    pub fn stage(&self) -> (r: StageId)
        ensures
            r == self@.stage,
    {
        self.stage
    }

    /// The addresses of the inputs the key was made over.
    pub fn inputs(&self) -> (r: &Vec<ContentKey>)
        ensures
            r@ == self@.inputs,
    {
        &self.inputs
    }

    /// Whether two keys say the same.
    pub fn same(&self, other: &MemoKey) -> (r: bool)
        ensures
            r == (self@ == other@),
    {
        if self.stage != other.stage || self.inputs.len() != other.inputs.len() {
            return false;
        }
        let mut i: usize = 0;
        while i < self.inputs.len()
            invariant
                i <= self.inputs@.len(),
                self.inputs@.len() == other.inputs@.len(),
                forall|j: int| 0 <= j < i ==> self.inputs@[j] == other.inputs@[j],
            decreases self.inputs@.len() - i,
        {
            if self.inputs[i] != other.inputs[i] {
                assert(self@.inputs[i as int] != other@.inputs[i as int]);
                return false;
            }
            i = i + 1;
        }
        assert(self@ =~= other@);
        true
    }

    /// A key that says the same.
    pub fn duplicate(&self) -> (r: MemoKey)
        ensures
            r@ == self@,
    {
        let mut inputs: Vec<ContentKey> = Vec::new();
        let mut i: usize = 0;
        while i < self.inputs.len()
            invariant
                i <= self.inputs@.len(),
                inputs@ == self.inputs@.take(i as int),
            decreases self.inputs@.len() - i,
        {
            inputs.push(self.inputs[i]);
            assert(inputs@ =~= self.inputs@.take(i + 1));
            i = i + 1;
        }
        assert(inputs@ =~= self.inputs@);
        MemoKey { stage: self.stage, inputs }
    }
}

} // verus!
