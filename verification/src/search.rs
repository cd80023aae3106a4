//! Searching a sequence for the first item with a property.

use vstd::prelude::*;
use crate::text::texts;

verus! {

/// The position of the first item of `s` that satisfies `p`, or `s.len()`
/// if none does.
pub open spec fn first_index<T>(s: Seq<T>, p: spec_fn(T) -> bool) -> int
    decreases s.len(),
{
    if s.len() == 0 || p(s[0]) {
        0
    } else {
        1 + first_index(s.drop_first(), p)
    }
}

/// `first_index` is in range, nothing before it satisfies `p`, and the item
/// at it does, unless it is the end.
pub proof fn lemma_first_index<T>(s: Seq<T>, p: spec_fn(T) -> bool)
    ensures
        0 <= first_index(s, p) <= s.len(),
        forall|j: int| 0 <= j < first_index(s, p) ==> !p(#[trigger] s[j]),
        first_index(s, p) < s.len() ==> p(s[first_index(s, p)]),
    decreases s.len(),
{
    if s.len() == 0 || p(s[0]) {
    } else {
        let t = s.drop_first();
        lemma_first_index(t, p);
        assert forall|j: int| 0 <= j < first_index(s, p) implies !p(#[trigger] s[j]) by {
            if j > 0 {
                assert(s[j] == t[j - 1]);
            }
        }
        assert(first_index(s, p) < s.len() ==> s[first_index(s, p)] == t[first_index(t, p)]);
    }
}

/// A position before which nothing satisfies `p`, and which satisfies it or
/// is the end, is the first index.
pub proof fn lemma_first_index_is<T>(s: Seq<T>, p: spec_fn(T) -> bool, i: int)
    requires
        0 <= i <= s.len(),
        forall|j: int| 0 <= j < i ==> !p(#[trigger] s[j]),
        i < s.len() ==> p(s[i]),
    ensures
        first_index(s, p) == i,
{
    lemma_first_index(s, p);
    let f = first_index(s, p);
    if f < i {
        assert(p(s[f]));
    } else if i < f {
        assert(!p(s[i]));
    }
}


/// Two properties that hold of the same items have the same first index.
pub proof fn lemma_first_index_agrees<T>(s: Seq<T>, p: spec_fn(T) -> bool, q: spec_fn(T) -> bool)
    requires
        forall|x: T| #[trigger] p(x) == q(x),
    ensures
        first_index(s, p) == first_index(s, q),
    decreases s.len(),
{
    if s.len() == 0 || p(s[0]) {
    } else {
        lemma_first_index_agrees(s.drop_first(), p, q);
    }
}


/// Two sequences whose items have, place by place, the one property or the
/// other alike, have the same first index.
pub proof fn lemma_first_index_corresponds<T, U>(
    s: Seq<T>,
    p: spec_fn(T) -> bool,
    t: Seq<U>,
    q: spec_fn(U) -> bool,
)
    requires
        s.len() == t.len(),
        forall|j: int| 0 <= j < s.len() ==> p(#[trigger] s[j]) == q(t[j]),
    ensures
        first_index(s, p) == first_index(t, q),
{
    lemma_first_index(t, q);
    let i = first_index(t, q);
    assert forall|j: int| 0 <= j < i implies !p(#[trigger] s[j]) by {
        assert(!q(t[j]));
    }
    lemma_first_index_is(s, p, i);
}

/// The property of being the text `wanted`.
pub open spec fn is_text(wanted: Seq<char>) -> spec_fn(Seq<char>) -> bool {
    |t: Seq<char>| t == wanted
}

/// The position of the first of `items` that equals `wanted`, or
/// `items.len()` if none does.
pub fn first_equal(items: &Vec<String>, wanted: &str) -> (i: usize)
    ensures
        i == first_index(texts(items@), is_text(wanted@)),
        i <= items.len(),
{
    let sought = wanted.to_owned();
    let mut i: usize = 0;
    while i < items.len()
        invariant
            0 <= i <= items.len(),
            sought@ == wanted@,
            forall|j: int| 0 <= j < i ==> !is_text(wanted@)(#[trigger] texts(items@)[j]),
        decreases items.len() - i,
    {
        if items[i] == sought {
            proof {
                lemma_first_index_is(texts(items@), is_text(wanted@), i as int);
            }
            return i;
        }
        i += 1;
    }
    proof {
        lemma_first_index_is(texts(items@), is_text(wanted@), i as int);
    }
    i
}

} // verus!
