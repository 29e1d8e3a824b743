//! Where answers are remembered.

use std::sync::Arc;

use vstd::prelude::*;

use crate::key::{KeyView, MemoKey};

verus! {

/// A place that remembers answers by key.
///
/// A store may forget and need not remember anything. What it may answer is its own to
/// say, with [`MemoStore::may_find`]: by default anything at all, which is all there is to
/// say of a store that others write to as well.
pub trait MemoStore<V>: Sized {
    /// Whether a lookup under `key` may answer `found`.
    open spec fn may_find(&self, key: KeyView, found: Option<Arc<V>>) -> bool {
        true
    }

    /// What recording `value` under `key` makes of the store.
    open spec fn records(pre: Self, key: KeyView, value: Arc<V>, post: Self) -> bool {
        true
    }

    /// A share of what is held under `key`.
    fn lookup(&self, key: &MemoKey) -> (r: Option<Arc<V>>)
        ensures
            self.may_find(key@, r),
    ;

    /// Remember `value` under `key`. No store invents: afterwards a share that may be found
    /// is one that might have been found before, or the one just recorded.
    fn record(&mut self, key: &MemoKey, value: Arc<V>)
        ensures
            Self::records(*old(self), key@, value, *final(self)),
            forall|k: KeyView, share: Arc<V>| #[trigger]
                final(self).may_find(k, Some(share)) ==> old(self).may_find(k, Some(share)) || (k
                    == key@ && share == value),
    ;
}

/// Whether `post` is `pre` with `value` recorded under `key`: as the store records, and
/// with nothing invented.
pub open spec fn recorded<V, St: MemoStore<V>>(
    pre: St,
    key: KeyView,
    value: Arc<V>,
    post: St,
) -> bool {
    &&& St::records(pre, key, value, post)
    &&& forall|k: KeyView, share: Arc<V>| #[trigger]
        post.may_find(k, Some(share)) ==> pre.may_find(k, Some(share)) || (k == key && share
            == value)
}

/// The control case: remembers nothing.
#[derive(Clone, Copy, Debug, Default)]
pub struct NoMemo;

impl<V> MemoStore<V> for NoMemo {
    open spec fn may_find(&self, key: KeyView, found: Option<Arc<V>>) -> bool {
        found is None
    }

    open spec fn records(pre: Self, key: KeyView, value: Arc<V>, post: Self) -> bool {
        post == pre
    }

    fn lookup(&self, key: &MemoKey) -> (r: Option<Arc<V>>) {
        None
    }

    fn record(&mut self, key: &MemoKey, value: Arc<V>) {
    }
}

/// A map that remembers everything it is given.
pub struct MemoMap<V> {
    rows: Vec<(MemoKey, Arc<V>)>,
}

impl<V> View for MemoMap<V> {
    type V = Map<KeyView, Arc<V>>;

    closed spec fn view(&self) -> Map<KeyView, Arc<V>> {
        Map::new(
            |k: KeyView| exists|i: int| 0 <= i < self.rows@.len() && #[trigger] self.rows@[i].0@ == k,
            |k: KeyView|
                self.rows@[choose|i: int| 0 <= i < self.rows@.len() && #[trigger] self.rows@[i].0@
                    == k].1,
        )
    }
}

impl<V> MemoMap<V> {
    /// No key has two rows.
    #[verifier::type_invariant]
    spec fn distinct(self) -> bool {
        forall|i: int, j: int|
            0 <= i < self.rows@.len() && 0 <= j < self.rows@.len() && #[trigger] self.rows@[i].0@
                == #[trigger] self.rows@[j].0@ ==> i == j
    }

    /// What is held under the key of row `i` is row `i`.
    proof fn lemma_row(self, i: int)
        requires
            self.distinct(),
            0 <= i < self.rows@.len(),
        ensures
            self@.contains_key(self.rows@[i].0@),
            self@[self.rows@[i].0@] == self.rows@[i].1,
    {
    }

    /// The share held under `key`, if one is.
    pub open spec fn row(&self, key: KeyView) -> Option<Arc<V>> {
        if self@.contains_key(key) {
            Some(self@[key])
        } else {
            None
        }
    }

    /// A map that holds nothing.
    pub fn new() -> (r: MemoMap<V>)
        ensures
            r@ == Map::<KeyView, Arc<V>>::empty(),
    {
        let r = MemoMap { rows: Vec::new() };
        assert(r@ =~= Map::<KeyView, Arc<V>>::empty());
        r
    }

    /// How many answers are held.
    pub fn len(&self) -> (r: usize)
        ensures
            self@.dom().finite(),
            r == self@.dom().len(),
    {
        proof {
            use_type_invariant(self);
            let keys = Seq::new(self.rows@.len(), |i: int| self.rows@[i].0@);
            assert forall|i: int, j: int| 0 <= i < j < keys.len() implies keys[i] != keys[j] by {
                assert(self.rows@[i].0@ != self.rows@[j].0@);
            }
            keys.unique_seq_to_set();
            vstd::seq_lib::seq_to_set_is_finite(keys);
            assert forall|k: KeyView| keys.to_set().contains(k) <==> self@.dom().contains(k) by {
                if keys.contains(k) {
                    let i = choose|i: int| 0 <= i < keys.len() && keys[i] == k;
                    assert(self.rows@[i].0@ == k);
                }
                if self@.dom().contains(k) {
                    let i = choose|i: int|
                        0 <= i < self.rows@.len() && #[trigger] self.rows@[i].0@ == k;
                    assert(keys[i] == k);
                }
            }
            assert(keys.to_set() =~= self@.dom());
        }
        self.rows.len()
    }

    /// Whether nothing is held.
    pub fn is_empty(&self) -> (r: bool)
        ensures
            r == (self@ == Map::<KeyView, Arc<V>>::empty()),
    {
        let r = self.rows.len() == 0;
        proof {
            use_type_invariant(self);
            if r {
                assert(self@ =~= Map::<KeyView, Arc<V>>::empty());
            } else {
                self.lemma_row(0);
            }
        }
        r
    }
}

/// Where `key` has its row, if it has one.
fn find<V>(rows: &Vec<(MemoKey, Arc<V>)>, key: &MemoKey) -> (r: Option<usize>)
    ensures
        match r {
            Some(i) => i < rows@.len() && rows@[i as int].0@ == key@,
            None => forall|i: int| 0 <= i < rows@.len() ==> #[trigger] rows@[i].0@ != key@,
        },
{
    let mut i: usize = 0;
    while i < rows.len()
        invariant
            i <= rows@.len(),
            forall|j: int| 0 <= j < i ==> #[trigger] rows@[j].0@ != key@,
        decreases rows@.len() - i,
    {
        if rows[i].0.same(key) {
            return Some(i);
        }
        i = i + 1;
    }
    None
}

impl<V> MemoStore<V> for MemoMap<V> {
    open spec fn may_find(&self, key: KeyView, found: Option<Arc<V>>) -> bool {
        found == self.row(key)
    }

    open spec fn records(pre: Self, key: KeyView, value: Arc<V>, post: Self) -> bool {
        post@ == pre@.insert(key, value)
    }

    fn lookup(&self, key: &MemoKey) -> (r: Option<Arc<V>>) {
        proof {
            use_type_invariant(self);
        }
        match find(&self.rows, key) {
            Some(i) => {
                proof {
                    self.lemma_row(i as int);
                }
                Some(self.rows[i].1.clone())
            },
            None => None,
        }
    }

    fn record(&mut self, key: &MemoKey, value: Arc<V>) {
        proof {
            use_type_invariant(&*self);
        }
        let mut rows: Vec<(MemoKey, Arc<V>)> = Vec::new();
        std::mem::swap(&mut rows, &mut self.rows);
        let ghost was = rows@;
        let at: usize = match find(&rows, key) {
            Some(i) => {
                rows.set(i, (key.duplicate(), value));
                i
            },
            None => {
                rows.push((key.duplicate(), value));
                rows.len() - 1
            },
        };
        proof {
            assert forall|i: int, j: int|
                0 <= i < rows@.len() && 0 <= j < rows@.len() && #[trigger] rows@[i].0@
                    == #[trigger] rows@[j].0@ implies i == j by {
                if i < was.len() && j < was.len() {
                    assert(was[i].0@ == rows@[i].0@);
                    assert(was[j].0@ == rows@[j].0@);
                } else if i < was.len() {
                    assert(was[i].0@ == rows@[i].0@);
                } else if j < was.len() {
                    assert(was[j].0@ == rows@[j].0@);
                }
            }
        }
        self.rows = rows;
        proof {
            let pre = old(self)@;
            let post = self@;
            assert forall|k: KeyView| post.contains_key(k) <==> pre.insert(key@, value).contains_key(
                k,
            ) by {
                assert(self.rows@[at as int].0@ == key@);
                if pre.contains_key(k) {
                    let i = choose|i: int| 0 <= i < was.len() && #[trigger] was[i].0@ == k;
                    assert(self.rows@[i].0@ == k);
                }
                if post.contains_key(k) && k != key@ {
                    let i = choose|i: int|
                        0 <= i < self.rows@.len() && #[trigger] self.rows@[i].0@ == k;
                    assert(was[i].0@ == k);
                }
            }
            assert forall|k: KeyView| #[trigger] post.contains_key(k) implies post[k] == pre.insert(
                key@,
                value,
            )[k] by {
                let i = choose|i: int| 0 <= i < self.rows@.len() && #[trigger] self.rows@[i].0@ == k;
                self.lemma_row(i);
                if k != key@ {
                    assert(was[i] == self.rows@[i]);
                    old(self).lemma_row(i);
                }
            }
            assert(post =~= pre.insert(key@, value));
        }
    }
}

} // verus!
