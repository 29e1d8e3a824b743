//! Sets of node indices, walked in mint order.

use std::collections::BTreeSet;

use vstd::prelude::*;
use vstd::std_specs::cmp::OrdSpec;
use vstd::std_specs::iter::IteratorSpec;

verus! {

/// Whether `s` lists its items in strictly increasing order.
pub open spec fn increasing(s: Seq<u32>) -> bool {
    forall|i: int, j: int| 0 <= i < j < s.len() ==> s[i] < s[j]
}

/// Whether `s` lists `set`: each item once, in increasing order.
pub open spec fn lists(s: Seq<u32>, set: Set<u32>) -> bool {
    &&& increasing(s)
    &&& forall|x: u32| set.contains(x) <==> s.contains(x)
}

/// The listing of a finite set.
pub open spec fn listing(set: Set<u32>) -> Seq<u32> {
    choose|s: Seq<u32>| lists(s, set)
}

/// A set has one listing.
pub proof fn lemma_one_listing(a: Seq<u32>, b: Seq<u32>, set: Set<u32>)
    requires
        lists(a, set),
        lists(b, set),
    ensures
        a == b,
    decreases a.len(),
{
    if a.len() == 0 {
        if b.len() > 0 {
            assert(b.contains(b[0]));
            assert(a.contains(b[0]));
        }
        assert(a =~= b);
    } else {
        let x = a.last();
        assert(a.contains(x));
        assert(b.contains(x));
        let i = choose|i: int| 0 <= i < b.len() && b[i] == x;
        let y = b.last();
        assert(b.contains(y));
        assert(a.contains(y));
        let j = choose|j: int| 0 <= j < a.len() && a[j] == y;
        assert(x == y);
        let rest = set.remove(x);
        lemma_listing_without_last(a, set);
        lemma_listing_without_last(b, set);
        lemma_one_listing(a.drop_last(), b.drop_last(), rest);
        assert(a =~= a.drop_last().push(x));
        assert(b =~= b.drop_last().push(x));
    }
}

/// A listing without its last item lists the set without that item.
proof fn lemma_listing_without_last(s: Seq<u32>, set: Set<u32>)
    requires
        lists(s, set),
        s.len() > 0,
    ensures
        lists(s.drop_last(), set.remove(s.last())),
{
    let rest = s.drop_last();
    assert forall|x: u32| set.remove(s.last()).contains(x) <==> rest.contains(x) by {
        if set.contains(x) && x != s.last() {
            let i = choose|i: int| 0 <= i < s.len() && s[i] == x;
            assert(rest[i] == x);
        }
        if rest.contains(x) {
            let i = choose|i: int| 0 <= i < rest.len() && rest[i] == x;
            assert(s[i] == x);
            assert(s.contains(x));
        }
    }
}

/// A longer prefix holds what the shorter one holds and the next item.
pub proof fn lemma_take_one_more(s: Seq<u32>, i: int)
    requires
        0 <= i < s.len(),
    ensures
        s.take(i + 1) == s.take(i).push(s[i]),
        s.take(i + 1).to_set() == s.take(i).to_set().insert(s[i]),
        forall|x: u32|
            #![trigger s.take(i + 1).contains(x)]
            #![trigger s.take(i).contains(x)]
            s.take(i + 1).contains(x) <==> s.take(i).contains(x) || x == s[i],
{
    let shorter = s.take(i);
    let longer = s.take(i + 1);
    assert(longer =~= shorter.push(s[i]));
    assert forall|x: u32|
        #![trigger longer.contains(x)]
        #![trigger shorter.contains(x)]
        longer.contains(x) <==> shorter.contains(x) || x == s[i] by {
        assert(longer[i] == s[i]);
        if shorter.contains(x) {
            let j = choose|j: int| 0 <= j < shorter.len() && shorter[j] == x;
            assert(longer[j] == x);
        }
        if longer.contains(x) && x != s[i] {
            let j = choose|j: int| 0 <= j < longer.len() && longer[j] == x;
            assert(shorter[j] == x);
        }
    }
    assert(longer.to_set() =~= shorter.to_set().insert(s[i]));
}

/// There are at most `n` indices below `n`.
pub proof fn lemma_few_below(s: Set<u32>, n: nat)
    requires
        forall|x: u32| s.contains(x) ==> x < n,
    ensures
        s.finite(),
        s.len() <= n,
    decreases n,
{
    if n == 0 {
        assert(s =~= Set::<u32>::empty());
    } else {
        let m = (n - 1) as nat;
        let rest = s.filter(|x: u32| x < m);
        lemma_few_below(rest, m);
        if m <= u32::MAX && s.contains(m as u32) {
            assert(s =~= rest.insert(m as u32));
        } else {
            assert forall|x: u32| s.contains(x) implies x < m by {
                if x == m {
                    assert(s.contains(m as u32));
                }
            }
            assert(s =~= rest);
        }
    }
}

/// A set of node indices. Walking one walks it in mint order, so two walks of equal sets
/// agree.
pub struct NodeSet {
    items: BTreeSet<u32>,
}

impl View for NodeSet {
    type V = Set<u32>;

    closed spec fn view(&self) -> Set<u32> {
        self.items@
    }
}

impl NodeSet {
    /// The items, in increasing order.
    pub open spec fn seq(&self) -> Seq<u32> {
        listing(self@)
    }

    /// What the set's own iterator walks is its listing.
    proof fn lemma_walk(&self)
        ensures
            self.items.iter().remaining().unref() == self.seq(),
            lists(self.seq(), self@),
    {
        broadcast use {
            vstd::std_specs::btree::group_btree_axioms,
            vstd::laws_cmp::group_laws_cmp,
        };

        assert(vstd::laws_cmp::obeys_cmp::<u32>());
        assert(vstd::laws_cmp::obeys_cmp::<&u32>());
        let walk = self.items.iter().remaining();
        let s = walk.unref();
        assert forall|i: int, j: int| 0 <= i < j < s.len() implies s[i] < s[j] by {
            assert(OrdSpec::cmp_spec(&walk[i], &walk[j]) is Less);
        }
        assert forall|x: u32| self@.contains(x) <==> s.contains(x) by {
            assert(s.to_set().contains(x) <==> s.contains(x));
        }
        lemma_one_listing(s, self.seq(), self@);
    }

    /// Membership is membership in the listing, and the set is finite.
    pub proof fn lemma_seq(&self)
        ensures
            self@.finite(),
            lists(self.seq(), self@),
            self@ == self.seq().to_set(),
            self@.len() == self.seq().len(),
            forall|i: int| 0 <= i < self.seq().len() ==> self@.contains(#[trigger] self.seq()[i]),
    {
        self.lemma_walk();
        let s = self.seq();
        assert(self@ =~= s.to_set());
        vstd::seq_lib::seq_to_set_is_finite(s);
        assert(s.no_duplicates());
        s.unique_seq_to_set();
        assert forall|i: int| 0 <= i < s.len() implies self@.contains(#[trigger] s[i]) by {
            assert(s.contains(s[i]));
        }
    }

    /// The empty set.
    pub fn new() -> (r: NodeSet)
        ensures
            r@ == Set::<u32>::empty(),
    {
        NodeSet { items: BTreeSet::new() }
    }

    /// How many items there are.
    pub fn count(&self) -> (r: usize)
        ensures
            r == self.seq().len(),
    {
        broadcast use {
            vstd::std_specs::btree::group_btree_axioms,
            vstd::laws_cmp::group_laws_cmp,
        };

        proof {
            self.lemma_seq();
        }
        self.items.len()
    }

    /// Whether the set holds nothing.
    pub fn is_empty(&self) -> (r: bool)
        ensures
            r == (self@ == Set::<u32>::empty()),
            r == (self.seq().len() == 0),
    {
        let r = self.items.is_empty();
        proof {
            self.lemma_seq();
            assert(r ==> self@ =~= Set::<u32>::empty());
        }
        r
    }

    /// The items, in increasing order.
    pub fn items(&self) -> (r: Vec<u32>)
        ensures
            r@ == self.seq(),
    {
        broadcast use {
            vstd::std_specs::btree::group_btree_axioms,
            vstd::laws_cmp::group_laws_cmp,
        };

        let mut r: Vec<u32> = Vec::new();
        proof {
            self.lemma_walk();
        }
        for x in walk: self.items.iter()
            invariant
                walk.seq().unref() == self.seq(),
                r@ == self.seq().take(walk.index()),
        {
            r.push(*x);
            assert(r@ =~= self.seq().take(walk.index() + 1));
        }
        assert(r@ =~= self.seq());
        r
    }

    /// The smallest item.
    pub fn first(&self) -> (r: u32)
        requires
            self@ != Set::<u32>::empty(),
        ensures
            self@.contains(r),
            forall|x: u32| self@.contains(x) ==> r <= x,
    {
        broadcast use {
            vstd::std_specs::btree::group_btree_axioms,
            vstd::laws_cmp::group_laws_cmp,
        };

        proof {
            self.lemma_walk();
            let s = self.seq();
            if s.len() == 0 {
                assert(self@ =~= Set::<u32>::empty());
            }
            assert(s.contains(s[0]));
        }
        for x in walk: self.items.iter()
            invariant
                walk.seq().unref() == self.seq(),
                walk.index() == 0,
                lists(self.seq(), self@),
                self.seq().contains(self.seq()[0]),
        {
            return *x;
        }
        vstd::pervasive::unreached()
    }

    /// Whether the set holds `x`.
    pub fn contains(&self, x: u32) -> (r: bool)
        ensures
            r == self@.contains(x),
    {
        broadcast use {
            vstd::std_specs::btree::group_btree_axioms,
            vstd::laws_cmp::group_laws_cmp,
        };

        self.items.contains(&x)
    }

    /// Add `x`, saying whether it was new.
    pub fn insert(&mut self, x: u32) -> (r: bool)
        ensures
            final(self)@ == old(self)@.insert(x),
            r == !old(self)@.contains(x),
    {
        broadcast use {
            vstd::std_specs::btree::group_btree_axioms,
            vstd::laws_cmp::group_laws_cmp,
        };

        self.items.insert(x)
    }

    /// Remove `x`, saying whether it was held.
    pub fn remove(&mut self, x: u32) -> (r: bool)
        ensures
            final(self)@ == old(self)@.remove(x),
            r == old(self)@.contains(x),
    {
        broadcast use {
            vstd::std_specs::btree::group_btree_axioms,
            vstd::laws_cmp::group_laws_cmp,
        };

        self.items.remove(&x)
    }

    /// A set holding the same items.
    pub fn duplicate(&self) -> (r: NodeSet)
        ensures
            r@ == self@,
    {
        NodeSet { items: self.items.clone() }
    }
}

} // verus!
