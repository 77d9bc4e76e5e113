//! Higher-order utilities over sequences: `any`, `count`, `find` and `map`.
//!
//! Each executable function takes a caller-supplied closure. Its contract
//! states, first, what holds of the results the closure actually returned,
//! and second, that whenever the closure implements a mathematical predicate
//! or transform, the result is exactly the one the mathematical model
//! (`spec_any`, `spec_count`, `spec_find`, `Seq::map_values`) prescribes.

use vstd::prelude::*;

verus! {

/// The closure `f` implements the mathematical function `m`: every result
/// that `f` can return on an input agrees with `m` on that input.
pub open spec fn implements<T, U, F: Fn(&T) -> U>(f: F, m: spec_fn(T) -> U) -> bool {
    forall|x: T, y: U| #[trigger] call_ensures(f, (&x,), y) ==> y == m(x)
}

/// Whether some element of `s` satisfies `p`.
pub open spec fn spec_any<T>(p: spec_fn(T) -> bool, s: Seq<T>) -> bool {
    exists|i: int| 0 <= i < s.len() && #[trigger] p(s[i])
}

/// Returns whether at least one element of `s` satisfies the predicate.
pub fn any<T, F: Fn(&T) -> bool>(predicate: F, s: &Vec<T>) -> (r: bool)
    requires
        forall|i: int| #![trigger s[i]] 0 <= i < s.len() ==> call_requires(predicate, (&s[i],)),
    ensures
        r ==> exists|i: int| 0 <= i < s.len() && call_ensures(predicate, (&s[i],), true),
        !r ==> forall|i: int| #![trigger s[i]] 0 <= i < s.len() ==> call_ensures(
            predicate,
            (&s[i],),
            false,
        ),
        s.len() == 0 ==> !r,
        forall|p: spec_fn(T) -> bool| #[trigger] implements(predicate, p) ==> r == spec_any(
            p,
            s@,
        ),
{
    let mut j: usize = 0;
    while j < s.len()
        invariant
            forall|i: int| #![trigger s[i]] 0 <= i < s.len() ==> call_requires(
                predicate,
                (&s[i],),
            ),
            j <= s.len(),
            forall|i: int| #![trigger s[i]] 0 <= i < j ==> call_ensures(predicate, (&s[i],), false),
        decreases s.len() - j,
    {
        if predicate(&s[j]) {
            proof {
                assert forall|p: spec_fn(T) -> bool| #[trigger]
                    implements(predicate, p) implies true == spec_any(p, s@) by {
                    assert(p(s@[j as int]));
                }
            }
            return true;
        }
        j += 1;
    }
    proof {
        assert forall|p: spec_fn(T) -> bool| #[trigger]
            implements(predicate, p) implies false == spec_any(p, s@) by {
            assert forall|i: int| 0 <= i < s@.len() implies !p(s@[i]) by {
                assert(call_ensures(predicate, (&s@[i],), false));
            }
        }
    }
    false
}

/// The number of `true` entries in a sequence of booleans.
pub open spec fn count_trues(b: Seq<bool>) -> nat
    decreases b.len(),
{
    if b.len() == 0 {
        0
    } else {
        count_trues(b.drop_last()) + if b.last() {
            1nat
        } else {
            0nat
        }
    }
}

/// The number of elements of `s` that satisfy `p`.
pub open spec fn spec_count<T>(p: spec_fn(T) -> bool, s: Seq<T>) -> nat
    decreases s.len(),
{
    if s.len() == 0 {
        0
    } else {
        spec_count(p, s.drop_last()) + if p(s.last()) {
            1nat
        } else {
            0nat
        }
    }
}

proof fn lemma_count_agrees<T>(p: spec_fn(T) -> bool, s: Seq<T>, b: Seq<bool>)
    requires
        b.len() == s.len(),
        forall|i: int| 0 <= i < s.len() ==> b[i] == p(#[trigger] s[i]),
    ensures
        count_trues(b) == spec_count(p, s),
    decreases s.len(),
{
    if s.len() > 0 {
        assert(forall|i: int|
            0 <= i < s.drop_last().len() ==> b.drop_last()[i] == p(#[trigger] s.drop_last()[i]));
        lemma_count_agrees(p, s.drop_last(), b.drop_last());
    }
}

/// Returns the number of elements of `s` that satisfy the predicate.
///
/// The first clause states the result exactly even for a nondeterministic
/// closure: the count of `true` answers over one full traversal. The last
/// clause pins the result whenever the closure implements a predicate `p`.
pub fn count<T, F: Fn(&T) -> bool>(predicate: F, s: &Vec<T>) -> (r: usize)
    requires
        forall|i: int| #![trigger s[i]] 0 <= i < s.len() ==> call_requires(predicate, (&s[i],)),
    ensures
        exists|b: Seq<bool>|
            #![trigger count_trues(b)]
            b.len() == s.len() && (forall|i: int|
                0 <= i < s.len() ==> call_ensures(predicate, (&s[i],), #[trigger] b[i])) && r
                == count_trues(b),
        r <= s.len(),
        s.len() == 0 ==> r == 0,
        forall|p: spec_fn(T) -> bool| #[trigger] implements(predicate, p) ==> r == spec_count(
            p,
            s@,
        ),
{
    let mut c: usize = 0;
    let mut j: usize = 0;
    let ghost mut gb: Seq<bool> = Seq::empty();
    while j < s.len()
        invariant
            forall|i: int| #![trigger s[i]] 0 <= i < s.len() ==> call_requires(
                predicate,
                (&s[i],),
            ),
            j <= s.len(),
            gb.len() == j,
            forall|i: int| 0 <= i < j ==> call_ensures(predicate, (&s[i],), #[trigger] gb[i]),
            c == count_trues(gb),
            c <= j,
        decreases s.len() - j,
    {
        let b = predicate(&s[j]);
        proof {
            assert(gb.push(b).drop_last() =~= gb);
            gb = gb.push(b);
        }
        if b {
            c += 1;
        }
        j += 1;
    }
    proof {
        assert(gb.len() == s.len() && (forall|i: int|
            0 <= i < s.len() ==> call_ensures(predicate, (&s[i],), #[trigger] gb[i])) && c
            == count_trues(gb));
        assert forall|p: spec_fn(T) -> bool| #[trigger]
            implements(predicate, p) implies c == spec_count(p, s@) by {
            assert forall|i: int| 0 <= i < s@.len() implies gb[i] == p(s@[i]) by {
                assert(call_ensures(predicate, (&s@[i],), gb[i]));
            }
            lemma_count_agrees(p, s@, gb);
        }
    }
    c
}

/// The first element of `s` that satisfies `p`, if any.
pub open spec fn spec_find<T>(p: spec_fn(T) -> bool, s: Seq<T>) -> Option<T>
    decreases s.len(),
{
    if s.len() == 0 {
        None
    } else if p(s[0]) {
        Some(s[0])
    } else {
        spec_find(p, s.drop_first())
    }
}

/// The value behind an optional reference.
pub open spec fn option_read<T>(r: Option<&T>) -> Option<T> {
    match r {
        Some(e) => Some(*e),
        None => None,
    }
}

/// If `s[j]` satisfies `p` and no earlier element does, the first match is `s[j]`.
proof fn lemma_find_first<T>(p: spec_fn(T) -> bool, s: Seq<T>, j: int)
    requires
        0 <= j < s.len(),
        p(s[j]),
        forall|i: int| 0 <= i < j ==> !p(#[trigger] s[i]),
    ensures
        spec_find(p, s) == Some(s[j]),
    decreases j,
{
    if j > 0 {
        assert(s.drop_first()[j - 1] == s[j]);
        assert(forall|i: int| 0 <= i < j - 1 ==> !p(#[trigger] s.drop_first()[i]));
        lemma_find_first(p, s.drop_first(), j - 1);
    }
}

/// If no element of `s` satisfies `p`, there is no first match.
proof fn lemma_find_none<T>(p: spec_fn(T) -> bool, s: Seq<T>)
    requires
        forall|i: int| 0 <= i < s.len() ==> !p(#[trigger] s[i]),
    ensures
        spec_find(p, s) is None,
    decreases s.len(),
{
    if s.len() > 0 {
        assert(forall|i: int| 0 <= i < s.drop_first().len() ==> !p(#[trigger] s.drop_first()[i]));
        lemma_find_none(p, s.drop_first());
    }
}

/// Returns the first element of `s` that satisfies the predicate, or `None`
/// when no element does. Traversal order (front to back) determines "first".
pub fn find<'a, T, F: Fn(&T) -> bool>(predicate: F, s: &'a Vec<T>) -> (r: Option<&'a T>)
    requires
        forall|i: int| #![trigger s[i]] 0 <= i < s.len() ==> call_requires(predicate, (&s[i],)),
    ensures
        r matches Some(e) ==> exists|i: int|
            0 <= i < s.len() && *e == s[i] && call_ensures(predicate, (&s[i],), true) && (
            forall|j: int| #![trigger s[j]] 0 <= j < i ==> call_ensures(predicate, (&s[j],), false)),
        r is None ==> forall|i: int| #![trigger s[i]] 0 <= i < s.len() ==> call_ensures(
            predicate,
            (&s[i],),
            false,
        ),
        s.len() == 0 ==> r is None,
        forall|p: spec_fn(T) -> bool| #[trigger] implements(predicate, p) ==> option_read(r)
            == spec_find(p, s@),
{
    let mut j: usize = 0;
    while j < s.len()
        invariant
            forall|i: int| #![trigger s[i]] 0 <= i < s.len() ==> call_requires(
                predicate,
                (&s[i],),
            ),
            j <= s.len(),
            forall|i: int| #![trigger s[i]] 0 <= i < j ==> call_ensures(predicate, (&s[i],), false),
        decreases s.len() - j,
    {
        if predicate(&s[j]) {
            proof {
                assert forall|p: spec_fn(T) -> bool| #[trigger]
                    implements(predicate, p) implies option_read(Some(&s[j as int]))
                    == spec_find(p, s@) by {
                    assert(p(s@[j as int]));
                    assert forall|i: int| 0 <= i < j implies !p(s@[i]) by {
                        assert(call_ensures(predicate, (&s@[i],), false));
                    }
                    lemma_find_first(p, s@, j as int);
                }
            }
            return Some(&s[j]);
        }
        j += 1;
    }
    proof {
        assert forall|p: spec_fn(T) -> bool| #[trigger]
            implements(predicate, p) implies option_read(None::<&T>) == spec_find(p, s@) by {
            assert forall|i: int| 0 <= i < s@.len() implies !p(s@[i]) by {
                assert(call_ensures(predicate, (&s@[i],), false));
            }
            lemma_find_none(p, s@);
        }
    }
    None
}

/// Returns a new sequence of the same length whose `i`-th element is the
/// transform applied to `s[i]`. The input is not mutated.
pub fn map<T, U, F: Fn(&T) -> U>(transform: F, s: &Vec<T>) -> (r: Vec<U>)
    requires
        forall|i: int| #![trigger s[i]] 0 <= i < s.len() ==> call_requires(transform, (&s[i],)),
    ensures
        r.len() == s.len(),
        forall|i: int| #![trigger s[i]] 0 <= i < s.len() ==> call_ensures(
            transform,
            (&s[i],),
            #[trigger] r[i],
        ),
        s.len() == 0 ==> r.len() == 0,
        forall|m: spec_fn(T) -> U| #[trigger] implements(transform, m) ==> r@ == s@.map_values(m),
{
    let mut r: Vec<U> = Vec::new();
    let mut j: usize = 0;
    while j < s.len()
        invariant
            forall|i: int| #![trigger s[i]] 0 <= i < s.len() ==> call_requires(
                transform,
                (&s[i],),
            ),
            j <= s.len(),
            r.len() == j,
            forall|i: int| #![trigger s[i]] 0 <= i < j ==> call_ensures(
                transform,
                (&s[i],),
                #[trigger] r[i],
            ),
        decreases s.len() - j,
    {
        r.push(transform(&s[j]));
        j += 1;
    }
    proof {
        assert forall|m: spec_fn(T) -> U| #[trigger]
            implements(transform, m) implies r@ == s@.map_values(m) by {
            assert forall|i: int| 0 <= i < s@.len() implies r@[i] == m(s@[i]) by {
                assert(call_ensures(transform, (&s@[i],), r@[i]));
            }
            assert(r@ =~= s@.map_values(m));
        }
    }
    r
}

/// Law: a sequence has an element satisfying `p` exactly when the number of
/// its elements satisfying `p` is positive. Together with the contracts of
/// `any` and `count`, for a closure implementing `p`:
/// `any(p, s) == (count(p, s) > 0)`.
pub proof fn lemma_any_iff_count_positive<T>(p: spec_fn(T) -> bool, s: Seq<T>)
    ensures
        spec_any(p, s) <==> spec_count(p, s) > 0,
    decreases s.len(),
{
    if s.len() > 0 {
        let head = s.drop_last();
        lemma_any_iff_count_positive(p, head);
        if p(s.last()) {
            assert(spec_any(p, s));
        } else {
            if spec_any(p, s) {
                let i = choose|i: int| 0 <= i < s.len() && #[trigger] p(s[i]);
                assert(i < s.len() - 1);
                assert(p(head[i]));
                assert(spec_any(p, head));
            }
            if spec_any(p, head) {
                let i = choose|i: int| 0 <= i < head.len() && #[trigger] p(head[i]);
                assert(p(s[i]));
                assert(spec_any(p, s));
            }
        }
    }
}

/// Law: the first match exists exactly when some element satisfies `p`, and
/// when it exists it is an element of `s` that satisfies `p`. Together with
/// the contracts of `find` and `any`: `find(p, s)` returns an element
/// satisfying `p` when `any(p, s)` is true, and an empty result otherwise.
pub proof fn lemma_find_when_any<T>(p: spec_fn(T) -> bool, s: Seq<T>)
    ensures
        spec_any(p, s) <==> spec_find(p, s) is Some,
        spec_find(p, s) matches Some(e) ==> p(e) && s.contains(e),
    decreases s.len(),
{
    if s.len() > 0 {
        let tail = s.drop_first();
        lemma_find_when_any(p, tail);
        if p(s[0]) {
            assert(spec_any(p, s));
            assert(s.contains(s[0]));
        } else {
            if spec_any(p, s) {
                let i = choose|i: int| 0 <= i < s.len() && #[trigger] p(s[i]);
                assert(i > 0);
                assert(p(tail[i - 1]));
                assert(spec_any(p, tail));
            }
            if spec_any(p, tail) {
                let i = choose|i: int| 0 <= i < tail.len() && #[trigger] p(tail[i]);
                assert(p(s[i + 1]));
                assert(spec_any(p, s));
            }
            match spec_find(p, tail) {
                Some(e) => {
                    let i = choose|i: int| 0 <= i < tail.len() && tail[i] == e;
                    assert(s[i + 1] == e);
                    assert(s.contains(e));
                },
                None => {},
            }
        }
    }
}

} // verus!
