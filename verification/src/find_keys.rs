//! A string-keyed mapping and `find_keys`, which returns the first key in
//! insertion order whose value satisfies a caller-supplied predicate.

use vstd::prelude::*;
use crate::collection::implements;

verus! {

/// Whether some pair of `m` carries the key `k`.
pub open spec fn contains_key<V>(m: Seq<(Seq<char>, V)>, k: Seq<char>) -> bool {
    exists|i: int| 0 <= i < m.len() && #[trigger] m[i].0 == k
}

/// The index of the pair of `m` that carries the key `k`; meaningful only
/// when `contains_key(m, k)` holds and the keys of `m` are distinct.
pub open spec fn key_index<V>(m: Seq<(Seq<char>, V)>, k: Seq<char>) -> int {
    choose|i: int| 0 <= i < m.len() && #[trigger] m[i].0 == k
}

/// The first key of `m`, in order, whose value satisfies `p`.
pub open spec fn spec_find_key<V>(p: spec_fn(V) -> bool, m: Seq<(Seq<char>, V)>) -> Option<
    Seq<char>,
>
    decreases m.len(),
{
    if m.len() == 0 {
        None
    } else if p(m[0].1) {
        Some(m[0].0)
    } else {
        spec_find_key(p, m.drop_first())
    }
}

/// The view of an optional key.
pub open spec fn found_key(r: Option<String>) -> Option<Seq<char>> {
    match r {
        Some(k) => Some(k@),
        None => None,
    }
}

/// An associative container from `String` keys to values of type `V`.
///
/// The view is the sequence of key/value pairs in insertion order; `wf`
/// says the keys are pairwise distinct. Iteration order is therefore
/// defined (insertion order), unlike a hash table's.
pub struct Mapping<V> {
    pairs: Vec<(String, V)>,
}

impl<V> View for Mapping<V> {
    type V = Seq<(Seq<char>, V)>;

    closed spec fn view(&self) -> Seq<(Seq<char>, V)> {
        self.pairs@.map_values(|kv: (String, V)| (kv.0@, kv.1))
    }
}

impl<V> Mapping<V> {
    /// Keys are pairwise distinct.
    pub open spec fn wf(&self) -> bool {
        forall|i: int, j: int| 0 <= i < j < self@.len() ==> self@[i].0 != self@[j].0
    }

    /// Returns an empty mapping.
    pub fn new() -> (m: Mapping<V>)
        ensures
            m@ == Seq::<(Seq<char>, V)>::empty(),
            m.wf(),
    {
        let m = Mapping { pairs: Vec::new() };
        proof {
            assert(m@ =~= Seq::<(Seq<char>, V)>::empty());
        }
        m
    }

    /// Inserts `key` with `value`: replaces the value in place when the key
    /// is already present, appends the pair otherwise.
    pub fn insert(&mut self, key: String, value: V)
        requires
            old(self).wf(),
        ensures
            final(self).wf(),
            contains_key(old(self)@, key@) ==> final(self)@ == old(self)@.update(
                key_index(old(self)@, key@),
                (key@, value),
            ),
            !contains_key(old(self)@, key@) ==> final(self)@ == old(self)@.push((key@, value)),
    {
        let ghost k = key@;
        let mut j: usize = 0;
        while j < self.pairs.len()
            invariant
                *self == *old(self),
                old(self).wf(),
                j <= self.pairs.len(),
                forall|i: int| 0 <= i < j ==> #[trigger] self@[i].0 != k,
                k == key@,
            decreases self.pairs.len() - j,
        {
            if self.pairs[j].0 == key {
                proof {
                    assert(self@[j as int] == (self.pairs@[j as int].0@, self.pairs@[j as int].1));
                    assert(self@[j as int].0 == k);
                    assert(contains_key(old(self)@, k));
                    let ki = key_index(old(self)@, k);
                    assert(0 <= ki < old(self)@.len() && old(self)@[ki].0 == k);
                    assert(ki == j as int);
                }
                self.pairs[j] = (key, value);
                proof {
                    assert(self@ =~= old(self)@.update(j as int, (k, value)));
                    assert forall|a: int, b: int|
                        0 <= a < b < self@.len() implies self@[a].0 != self@[b].0 by {
                        assert(self@[a].0 == old(self)@[a].0);
                        assert(self@[b].0 == old(self)@[b].0);
                    }
                }
                return;
            }
            j += 1;
        }
        proof {
            assert(!contains_key(self@, k));
        }
        self.pairs.push((key, value));
        proof {
            assert(self@ =~= old(self)@.push((k, value)));
            assert forall|a: int, b: int|
                0 <= a < b < self@.len() implies self@[a].0 != self@[b].0 by {
                assert(self@[a].0 == old(self)@[a].0);
                if b < old(self)@.len() {
                    assert(self@[b].0 == old(self)@[b].0);
                } else {
                    assert(self@[b].0 == k);
                }
            }
        }
    }
}

/// If the value at `j` satisfies `p` and no earlier value does, the first
/// matching key is the key at `j`.
proof fn lemma_find_key_first<V>(p: spec_fn(V) -> bool, m: Seq<(Seq<char>, V)>, j: int)
    requires
        0 <= j < m.len(),
        p(m[j].1),
        forall|i: int| 0 <= i < j ==> !p(#[trigger] m[i].1),
    ensures
        spec_find_key(p, m) == Some(m[j].0),
    decreases j,
{
    if j > 0 {
        assert(m.drop_first()[j - 1] == m[j]);
        assert(forall|i: int| 0 <= i < j - 1 ==> !p(#[trigger] m.drop_first()[i].1));
        lemma_find_key_first(p, m.drop_first(), j - 1);
    }
}

/// If no value of `m` satisfies `p`, there is no matching key.
proof fn lemma_find_key_none<V>(p: spec_fn(V) -> bool, m: Seq<(Seq<char>, V)>)
    requires
        forall|i: int| 0 <= i < m.len() ==> !p(#[trigger] m[i].1),
    ensures
        spec_find_key(p, m) is None,
    decreases m.len(),
{
    if m.len() > 0 {
        assert(forall|i: int| 0 <= i < m.drop_first().len() ==> !p(#[trigger] m.drop_first()[i].1));
        lemma_find_key_none(p, m.drop_first());
    }
}

/// Returns the first key of `obj`, in insertion order, whose value satisfies
/// the predicate, or `None` when no value does. An empty mapping always
/// yields `None`.
pub fn find_keys<V, F: Fn(&V) -> bool>(predicate: F, obj: Mapping<V>) -> (r: Option<String>)
    requires
        forall|i: int| #![trigger obj@[i]] 0 <= i < obj@.len() ==> call_requires(
            predicate,
            (&obj@[i].1,),
        ),
    ensures
        r matches Some(k) ==> exists|i: int|
            0 <= i < obj@.len() && k@ == #[trigger] obj@[i].0 && call_ensures(
                predicate,
                (&obj@[i].1,),
                true,
            ) && (forall|j: int| #![trigger obj@[j]] 0 <= j < i ==> call_ensures(
                predicate,
                (&obj@[j].1,),
                false,
            )),
        r is None ==> forall|i: int| #![trigger obj@[i]] 0 <= i < obj@.len() ==> call_ensures(
            predicate,
            (&obj@[i].1,),
            false,
        ),
        obj@.len() == 0 ==> r is None,
        forall|p: spec_fn(V) -> bool| #[trigger] implements(predicate, p) ==> found_key(r)
            == spec_find_key(p, obj@),
{
    let mut j: usize = 0;
    while j < obj.pairs.len()
        invariant
            forall|i: int| #![trigger obj@[i]] 0 <= i < obj@.len() ==> call_requires(
                predicate,
                (&obj@[i].1,),
            ),
            j <= obj.pairs.len(),
            obj@.len() == obj.pairs.len(),
            forall|i: int| #![trigger obj@[i]] 0 <= i < j ==> call_ensures(
                predicate,
                (&obj@[i].1,),
                false,
            ),
        decreases obj.pairs.len() - j,
    {
        proof {
            assert(obj@[j as int] == (obj.pairs@[j as int].0@, obj.pairs@[j as int].1));
        }
        if predicate(&obj.pairs[j].1) {
            let key = obj.pairs[j].0.clone();
            proof {
                assert(key@ == obj@[j as int].0);
                assert(call_ensures(predicate, (&obj@[j as int].1,), true));
                assert forall|p: spec_fn(V) -> bool| #[trigger]
                    implements(predicate, p) implies found_key(Some(key)) == spec_find_key(
                    p,
                    obj@,
                ) by {
                    assert(p(obj@[j as int].1));
                    assert forall|i: int| 0 <= i < j implies !p(obj@[i].1) by {
                        assert(call_ensures(predicate, (&obj@[i].1,), false));
                    }
                    lemma_find_key_first(p, obj@, j as int);
                }
            }
            return Some(key);
        }
        j += 1;
    }
    proof {
        assert forall|p: spec_fn(V) -> bool| #[trigger]
            implements(predicate, p) implies found_key(None::<String>) == spec_find_key(
            p,
            obj@,
        ) by {
            assert forall|i: int| 0 <= i < obj@.len() implies !p(obj@[i].1) by {
                assert(call_ensures(predicate, (&obj@[i].1,), false));
            }
            lemma_find_key_none(p, obj@);
        }
    }
    None
}

} // verus!
