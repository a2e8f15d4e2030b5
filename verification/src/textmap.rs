//! A map from texts to values, kept in the order of its keys.

use vstd::prelude::*;

use crate::order::{before, comes_before, lemma_before_irreflexive, lemma_before_total, lemma_before_transitive};
use crate::text::{chars_of, same, same_text};

verus! {

/// Entries in strictly ascending order of their keys.
#[derive(Debug, Clone)]
pub struct TextMap<V> {
    entries: Vec<(String, V)>,
}

impl<V> TextMap<V> {
    /// The key of the `i`-th entry.
    pub closed spec fn key(self, i: int) -> Seq<char> {
        self.entries@[i].0@
    }

    /// The value of the `i`-th entry.
    pub closed spec fn val(self, i: int) -> V {
        self.entries@[i].1
    }

    /// How many entries there are.
    pub closed spec fn size(self) -> nat {
        self.entries@.len()
    }

    /// The keys ascend strictly, so none occurs twice.
    pub open spec fn wf(self) -> bool {
        forall|i: int, j: int| 0 <= i < j < self.size() ==> before(#[trigger] self.key(i), #[trigger] self.key(j))
    }

    /// Whether some entry has the key.
    pub open spec fn has(self, k: Seq<char>) -> bool {
        exists|i: int| 0 <= i < self.size() && #[trigger] self.key(i) == k
    }

    /// The value under a key that some entry has.
    pub open spec fn at(self, k: Seq<char>) -> V {
        self.val(choose|i: int| 0 <= i < self.size() && #[trigger] self.key(i) == k)
    }
}

impl<V> View for TextMap<V> {
    type V = Map<Seq<char>, V>;

    open spec fn view(&self) -> Map<Seq<char>, V> {
        Map::new(|k: Seq<char>| self.has(k), |k: Seq<char>| self.at(k))
    }
}

impl<V> TextMap<V> {
    /// An entry's key leads to that entry's value.
    pub proof fn lemma_entry(self, i: int)
        requires
            self.wf(),
            0 <= i < self.size(),
        ensures
            self@.contains_key(self.key(i)),
            self@[self.key(i)] == self.val(i),
    {
        let k = self.key(i);
        assert(self.has(k));
        let j = choose|j: int| 0 <= j < self.size() && #[trigger] self.key(j) == k;
        lemma_before_irreflexive(k);
        if i < j {
            assert(before(self.key(i), self.key(j)));
        } else if j < i {
            assert(before(self.key(j), self.key(i)));
        }
    }

    /// The keys are finitely many, one for each entry.
    pub proof fn lemma_len(self)
        requires
            self.wf(),
        ensures
            self@.dom().finite(),
            self@.dom().len() == self.size(),
    {
        let keys = Seq::new(self.size(), |i: int| self.key(i));
        assert(keys.no_duplicates()) by {
            assert forall|i: int, j: int| 0 <= i < keys.len() && 0 <= j < keys.len() && i != j implies keys[i]
                != keys[j] by {
                lemma_before_irreflexive(keys[i]);
                if i < j {
                    assert(before(self.key(i), self.key(j)));
                } else {
                    assert(before(self.key(j), self.key(i)));
                }
            }
        }
        keys.unique_seq_to_set();
        assert(keys.to_set() =~= self@.dom()) by {
            assert forall|k: Seq<char>| keys.to_set().contains(k) == self@.dom().contains(k) by {
                if keys.contains(k) {
                    let i = choose|i: int| 0 <= i < keys.len() && keys[i] == k;
                    assert(self.key(i) == k);
                }
                if self.has(k) {
                    let i = choose|i: int| 0 <= i < self.size() && #[trigger] self.key(i) == k;
                    assert(keys[i] == k);
                }
            }
        }
    }

    pub fn new() -> (r: Self)
        ensures
            r.wf(),
            r@ == Map::<Seq<char>, V>::empty(),
            r.size() == 0,
    {
        let r = TextMap { entries: Vec::new() };
        assert(r@ =~= Map::<Seq<char>, V>::empty());
        r
    }

    pub fn len(&self) -> (r: usize)
        requires
            self.wf(),
        ensures
            r == self.size(),
            r == self@.dom().len(),
            self@.dom().finite(),
    {
        proof {
            self.lemma_len();
        }
        self.entries.len()
    }

    pub fn is_empty(&self) -> (r: bool)
        requires
            self.wf(),
        ensures
            r == (self.size() == 0),
    {
        self.entries.len() == 0
    }

    /// The key of the `i`-th entry in ascending order.
    pub fn key_at(&self, i: usize) -> (r: &str)
        requires
            i < self.size(),
        ensures
            r@ == self.key(i as int),
    {
        self.entries[i].0.as_str()
    }

    /// The value of the `i`-th entry in ascending order of the keys.
    pub fn value_at(&self, i: usize) -> (r: &V)
        requires
            i < self.size(),
        ensures
            *r == self.val(i as int),
    {
        &self.entries[i].1
    }

    /// The value under a key.
    pub fn get(&self, key: &str) -> (r: Option<&V>)
        requires
            self.wf(),
        ensures
            r is Some == self@.contains_key(key@),
            r is Some ==> *r->0 == self@[key@],
    {
        let mut i: usize = 0;
        while i < self.entries.len()
            invariant
                i <= self.entries@.len(),
                self.wf(),
                forall|j: int| 0 <= j < i ==> #[trigger] self.key(j) != key@,
            decreases self.entries@.len() - i,
        {
            if same_text(self.entries[i].0.as_str(), key) {
                proof {
                    self.lemma_entry(i as int);
                }
                return Some(&self.entries[i].1);
            }
            i = i + 1;
        }
        None
    }

    /// Whether there is a value under a key.
    pub fn contains_key(&self, key: &str) -> (r: bool)
        requires
            self.wf(),
        ensures
            r == self@.contains_key(key@),
    {
        self.get(key).is_some()
    }

    /// Puts a value under a key, in place of the one that was there.
    pub fn insert(&mut self, key: String, value: V)
        requires
            old(self).wf(),
        ensures
            final(self).wf(),
            final(self)@ == old(self)@.insert(key@, value),
    {
        let kc = chars_of(key.as_str());
        let mut i: usize = 0;
        let ghost before_map = *self;
        while i < self.entries.len()
            invariant
                i <= self.entries@.len(),
                *self == before_map,
                before_map == *old(self),
                self.wf(),
                kc@ == key@,
                forall|j: int| 0 <= j < i ==> before(#[trigger] self.key(j), key@),
            decreases self.entries@.len() - i,
        {
            let ec = chars_of(self.entries[i].0.as_str());
            if !comes_before(ec.as_slice(), kc.as_slice()) {
                if same(ec.as_slice(), kc.as_slice()) {
                    self.entries.set(i, (key, value));
                    proof {
                        before_map.lemma_replaced(*self, i as int, key@, value);
                    }
                    return;
                }
                proof {
                    lemma_before_total(ec@, kc@);
                    assert(before(key@, self.key(i as int)));
                    assert forall|j: int| i <= j < self.size() implies before(key@, #[trigger] self.key(j)) by {
                        if j > i {
                            lemma_before_transitive(key@, self.key(i as int), self.key(j));
                        }
                    }
                }
                self.entries.insert(i, (key, value));
                proof {
                    before_map.lemma_inserted(*self, i as int, key@, value);
                }
                return;
            }
            i = i + 1;
        }
        self.entries.push((key, value));
        proof {
            assert(self.entries@ =~= before_map.entries@.insert(i as int, (key, value)));
            before_map.lemma_inserted(*self, i as int, key@, value);
        }
    }

    proof fn lemma_replaced(self, now: Self, at: int, k: Seq<char>, v: V)
        requires
            self.wf(),
            0 <= at < self.size(),
            self.key(at) == k,
            now.size() == self.size(),
            forall|i: int| 0 <= i < self.size() ==> #[trigger] now.key(i) == self.key(i),
            forall|i: int| 0 <= i < self.size() && i != at ==> #[trigger] now.val(i) == self.val(i),
            now.val(at) == v,
        ensures
            now.wf(),
            now@ == self@.insert(k, v),
    {
        assert(now.wf());
        assert forall|q: Seq<char>| now.has(q) == (self.has(q) || q == k) by {
            if now.has(q) {
                let i = choose|i: int| 0 <= i < now.size() && #[trigger] now.key(i) == q;
                assert(self.key(i) == q);
            }
            if self.has(q) {
                let i = choose|i: int| 0 <= i < self.size() && #[trigger] self.key(i) == q;
                assert(now.key(i) == q);
            }
            assert(now.key(at) == k);
        }
        assert forall|q: Seq<char>| now.has(q) implies #[trigger] now@[q] == self@.insert(k, v)[q] by {
            let i = choose|i: int| 0 <= i < now.size() && #[trigger] now.key(i) == q;
            now.lemma_entry(i);
            self.lemma_entry(i);
            if q == k && i != at {
                lemma_before_irreflexive(k);
                assert(i < at ==> before(now.key(i), now.key(at)));
                assert(at < i ==> before(now.key(at), now.key(i)));
            }
        }
        assert(now@ =~= self@.insert(k, v));
    }

    proof fn lemma_inserted(self, now: Self, at: int, k: Seq<char>, v: V)
        requires
            self.wf(),
            0 <= at <= self.size(),
            now.entries@.len() == self.entries@.len() + 1,
            now.entries@ == self.entries@.insert(at, now.entries@[at]),
            now.entries@[at].0@ == k,
            now.entries@[at].1 == v,
            forall|j: int| 0 <= j < at ==> before(#[trigger] self.key(j), k),
            forall|j: int| at <= j < self.size() ==> before(k, #[trigger] self.key(j)),
        ensures
            now.wf(),
            now@ == self@.insert(k, v),
    {
        assert forall|i: int| 0 <= i < at implies #[trigger] now.key(i) == self.key(i) && now.val(i) == self.val(i) by {
        }
        assert forall|i: int| at < i < now.size() implies #[trigger] now.key(i) == self.key(i - 1) && now.val(i)
            == self.val(i - 1) by {}
        assert forall|i: int, j: int| 0 <= i < j < now.size() implies before(
            #[trigger] now.key(i),
            #[trigger] now.key(j),
        ) by {
            if i < at && j > at {
                assert(before(self.key(i), self.key(j - 1)));
            } else if i > at {
                assert(before(self.key(i - 1), self.key(j - 1)));
            } else if j < at {
                assert(before(self.key(i), self.key(j)));
            }
        }
        assert(now.key(at) == k);
        assert forall|q: Seq<char>| now.has(q) == (self.has(q) || q == k) by {
            if now.has(q) && q != k {
                let i = choose|i: int| 0 <= i < now.size() && #[trigger] now.key(i) == q;
                assert(self.key(if i < at { i } else { i - 1 }) == q);
            }
            if self.has(q) {
                let i = choose|i: int| 0 <= i < self.size() && #[trigger] self.key(i) == q;
                assert(now.key(if i < at { i } else { i + 1 }) == q);
            }
        }
        assert forall|q: Seq<char>| now.has(q) implies #[trigger] now@[q] == self@.insert(k, v)[q] by {
            let i = choose|i: int| 0 <= i < now.size() && #[trigger] now.key(i) == q;
            now.lemma_entry(i);
            if i == at {
                assert(q == k);
            } else {
                let i0 = if i < at { i } else { i - 1 };
                self.lemma_entry(i0);
                if q == k {
                    lemma_before_irreflexive(k);
                }
            }
        }
        assert(now@ =~= self@.insert(k, v));
    }
}

} // verus!
