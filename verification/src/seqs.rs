//! Facts about searching a sequence for the first element that satisfies a
//! predicate, which every "find the first ..." operation of the library uses.

use vstd::prelude::*;

verus! {

/// `i` is the position of the first element of `s` that satisfies `p`.
pub open spec fn is_first<A>(s: Seq<A>, p: spec_fn(A) -> bool, i: int) -> bool {
    &&& 0 <= i < s.len()
    &&& p(s[i])
    &&& forall|j: int| 0 <= j < i ==> !p(#[trigger] s[j])
}

/// Some element of `s` satisfies `p`.
pub open spec fn any_match<A>(s: Seq<A>, p: spec_fn(A) -> bool) -> bool {
    exists|i: int| 0 <= i < s.len() && p(#[trigger] s[i])
}

/// The position of the first element of `s` that satisfies `p`, if any.
pub open spec fn first_match<A>(s: Seq<A>, p: spec_fn(A) -> bool) -> Option<int> {
    if any_match(s, p) {
        Some(choose|i: int| is_first(s, p, i))
    } else {
        None
    }
}

proof fn lemma_first_exists<A>(s: Seq<A>, p: spec_fn(A) -> bool, i: int)
    requires
        0 <= i < s.len(),
        p(s[i]),
    ensures
        exists|k: int| is_first(s, p, k),
    decreases i,
{
    if exists|j: int| 0 <= j < i && p(#[trigger] s[j]) {
        let j = choose|j: int| 0 <= j < i && p(#[trigger] s[j]);
        lemma_first_exists(s, p, j);
    } else {
        assert(is_first(s, p, i));
    }
}

/// What `first_match` gives: the first satisfying position, or `None` when
/// no element satisfies the predicate.
pub proof fn lemma_first_match<A>(s: Seq<A>, p: spec_fn(A) -> bool)
    ensures
        match first_match(s, p) {
            Some(i) => is_first(s, p, i),
            None => forall|j: int| 0 <= j < s.len() ==> !p(#[trigger] s[j]),
        },
{
    if any_match(s, p) {
        let i = choose|i: int| 0 <= i < s.len() && p(#[trigger] s[i]);
        lemma_first_exists(s, p, i);
    }
}

/// A position that is the first satisfying one is the one `first_match` gives.
pub proof fn lemma_first_match_unique<A>(s: Seq<A>, p: spec_fn(A) -> bool, i: int)
    requires
        is_first(s, p, i),
    ensures
        first_match(s, p) == Some(i),
{
    assert(any_match(s, p)) by {
        assert(p(s[i]));
    }
    let k = choose|k: int| is_first(s, p, k);
    lemma_first_exists(s, p, i);
    if k < i {
        assert(!p(s[k]));
    } else if k > i {
        assert(!p(s[i]));
    }
}

/// When no element satisfies the predicate, `first_match` is `None`.
pub proof fn lemma_first_match_none<A>(s: Seq<A>, p: spec_fn(A) -> bool)
    requires
        forall|j: int| 0 <= j < s.len() ==> !p(#[trigger] s[j]),
    ensures
        first_match(s, p) == None::<int>,
{
}


/// Searching a concatenation: the first match lies in the front part if the
/// front part has one, and is shifted past the front part otherwise.
pub proof fn lemma_first_match_append<A>(a: Seq<A>, b: Seq<A>, p: spec_fn(A) -> bool)
    ensures
        first_match(a + b, p) == (match first_match(a, p) {
            Some(i) => Some(i),
            None => match first_match(b, p) {
                Some(j) => Some(j + a.len()),
                None => None,
            },
        }),
{
    let s = a + b;
    lemma_first_match(a, p);
    lemma_first_match(b, p);
    match first_match(a, p) {
        Some(i) => {
            assert(is_first(s, p, i)) by {
                assert(s[i] == a[i]);
                assert forall|j: int| 0 <= j < i implies !p(#[trigger] s[j]) by {
                    assert(s[j] == a[j]);
                }
            }
            lemma_first_match_unique(s, p, i);
        },
        None => match first_match(b, p) {
            Some(j) => {
                let k = j + a.len();
                assert(is_first(s, p, k)) by {
                    assert(s[k] == b[j]);
                    assert forall|m: int| 0 <= m < k implies !p(#[trigger] s[m]) by {
                        if m < a.len() {
                            assert(s[m] == a[m]);
                        } else {
                            assert(s[m] == b[m - a.len()]);
                        }
                    }
                }
                lemma_first_match_unique(s, p, k);
            },
            None => {
                assert forall|m: int| 0 <= m < s.len() implies !p(#[trigger] s[m]) by {
                    if m < a.len() {
                        assert(s[m] == a[m]);
                    } else {
                        assert(s[m] == b[m - a.len()]);
                    }
                }
                lemma_first_match_none(s, p);
            },
        },
    }
}

/// A one-element sequence matches exactly when its element does.
pub proof fn lemma_first_match_single<A>(x: A, p: spec_fn(A) -> bool)
    ensures
        first_match(seq![x], p) == (if p(x) { Some(0int) } else { None }),
{
    let s = seq![x];
    if p(x) {
        assert(is_first(s, p, 0));
        lemma_first_match_unique(s, p, 0);
    } else {
        lemma_first_match_none(s, p);
    }
}
/// Two sequences of one length whose elements agree on the predicates have
/// their first match at the same place.
pub proof fn lemma_first_match_agree<A, B>(a: Seq<A>, p: spec_fn(A) -> bool, b: Seq<B>, q: spec_fn(B) -> bool)
    requires
        a.len() == b.len(),
        forall|i: int| 0 <= i < a.len() ==> p(#[trigger] a[i]) == q(b[i]),
    ensures
        first_match(a, p) == first_match(b, q),
{
    lemma_first_match(a, p);
    lemma_first_match(b, q);
    match first_match(a, p) {
        Some(i) => {
            assert(is_first(b, q, i)) by {
                assert forall|j: int| 0 <= j < i implies !q(#[trigger] b[j]) by {
                    assert(p(a[j]) == q(b[j]));
                }
            }
            lemma_first_match_unique(b, q, i);
        },
        None => {
            assert forall|j: int| 0 <= j < b.len() implies !q(#[trigger] b[j]) by {
                assert(p(a[j]) == q(b[j]));
            }
            lemma_first_match_none(b, q);
        },
    }
}

} // verus!
