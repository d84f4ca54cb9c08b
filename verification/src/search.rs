//! Finding the first element of a sequence that meets a condition.
use vstd::prelude::*;

verus! {

/// `i` is the first index of `s` at which `p` holds, or the length of `s`
/// where `p` holds nowhere.
pub open spec fn first_at<A>(s: Seq<A>, p: spec_fn(A) -> bool, i: int) -> bool {
    &&& 0 <= i <= s.len()
    &&& forall|k: int| 0 <= k < i ==> !p(#[trigger] s[k])
    &&& i < s.len() ==> p(s[i])
}

/// The first index of `s` at which `p` holds, or the length of `s` where
/// `p` holds nowhere.
pub open spec fn position<A>(s: Seq<A>, p: spec_fn(A) -> bool) -> int {
    let i = choose|i: int| first_at(s, p, i);
    if 0 <= i < s.len() && p(s[i]) {
        i
    } else {
        s.len() as int
    }
}

/// `s` without its first element that meets `p`; `s` itself where none does.
pub open spec fn without_first<A>(s: Seq<A>, p: spec_fn(A) -> bool) -> Seq<A> {
    if position(s, p) < s.len() {
        s.remove(position(s, p))
    } else {
        s
    }
}

/// The elements of `s` that meet `p`, in their order.
pub open spec fn matching<A>(s: Seq<A>, p: spec_fn(A) -> bool) -> Seq<A>
    decreases s.len(),
{
    if s.len() == 0 {
        Seq::empty()
    } else if p(s.last()) {
        matching(s.drop_last(), p).push(s.last())
    } else {
        matching(s.drop_last(), p)
    }
}

/// `matching` holds what meets `p` and nothing else.
pub proof fn lemma_matching<A>(s: Seq<A>, p: spec_fn(A) -> bool, a: A)
    ensures
        matching(s, p).contains(a) <==> s.contains(a) && p(a),
    decreases s.len(),
{
    if s.len() > 0 {
        let front = s.drop_last();
        lemma_matching(front, p, a);
        let found = matching(s, p);
        if s.contains(a) {
            let k = choose|k: int| 0 <= k < s.len() && s[k] == a;
            if k < front.len() {
                assert(front[k] == a);
            }
        }
        if front.contains(a) {
            let k = choose|k: int| 0 <= k < front.len() && front[k] == a;
            assert(s[k] == a);
        }
        if p(s.last()) {
            let sub = matching(front, p);
            assert(found[sub.len() as int] == s.last());
            assert(s[s.len() - 1] == s.last());
            if sub.contains(a) {
                let k = choose|k: int| 0 <= k < sub.len() && sub[k] == a;
                assert(found[k] == a);
            }
            if found.contains(a) {
                let k = choose|k: int| 0 <= k < found.len() && found[k] == a;
                if k < sub.len() {
                    assert(sub[k] == a);
                }
            }
        }
    }
}

/// What one more element adds to `matching`.
pub proof fn lemma_matching_next<A>(s: Seq<A>, p: spec_fn(A) -> bool, i: int)
    requires
        0 <= i < s.len(),
    ensures
        matching(s.take(i + 1), p) == if p(s[i]) {
            matching(s.take(i), p).push(s[i])
        } else {
            matching(s.take(i), p)
        },
{
    assert(s.take(i + 1).drop_last() =~= s.take(i));
    assert(s.take(i + 1).last() == s[i]);
}

proof fn lemma_first_from<A>(s: Seq<A>, p: spec_fn(A) -> bool, from: int) -> (i: int)
    requires
        0 <= from <= s.len(),
        forall|k: int| 0 <= k < from ==> !p(#[trigger] s[k]),
    ensures
        first_at(s, p, i),
    decreases s.len() - from,
{
    if from == s.len() || p(s[from]) {
        from
    } else {
        lemma_first_from(s, p, from + 1)
    }
}

/// `position` is what its name says.
pub proof fn lemma_position<A>(s: Seq<A>, p: spec_fn(A) -> bool)
    ensures
        first_at(s, p, position(s, p)),
{
    let i = lemma_first_from(s, p, 0);
}

/// There is only one first index.
pub proof fn lemma_position_is<A>(s: Seq<A>, p: spec_fn(A) -> bool, i: int)
    requires
        first_at(s, p, i),
    ensures
        position(s, p) == i,
{
    lemma_position(s, p);
    let j = position(s, p);
    if j < i {
        assert(!p(s[j]));
    }
    if i < j {
        assert(!p(s[i]));
    }
}

/// An element that meets `p` puts the position inside the sequence.
pub proof fn lemma_position_found<A>(s: Seq<A>, p: spec_fn(A) -> bool, k: int)
    requires
        0 <= k < s.len(),
        p(s[k]),
    ensures
        position(s, p) <= k,
{
    lemma_position(s, p);
    if k < position(s, p) {
        assert(!p(s[k]));
    }
}

/// The position lies inside the sequence exactly if some element meets
/// `p`.
pub proof fn lemma_found_iff<A>(s: Seq<A>, p: spec_fn(A) -> bool)
    ensures
        position(s, p) < s.len() <==> exists|k: int| 0 <= k < s.len() && p(#[trigger] s[k]),
{
    lemma_position(s, p);
    if exists|k: int| 0 <= k < s.len() && p(#[trigger] s[k]) {
        let k = choose|k: int| 0 <= k < s.len() && p(#[trigger] s[k]);
        lemma_position_found(s, p, k);
    }
}

/// Two sequences on which `p` agrees index by index have the same
/// position.
pub proof fn lemma_found_same<A>(s: Seq<A>, t: Seq<A>, p: spec_fn(A) -> bool)
    requires
        s.len() == t.len(),
        forall|k: int| 0 <= k < s.len() ==> p(#[trigger] s[k]) == p(t[k]),
    ensures
        position(s, p) == position(t, p),
{
    lemma_position(s, p);
    let i = position(s, p);
    assert forall|k: int| 0 <= k < i implies !p(#[trigger] t[k]) by {
        assert(!p(s[k]));
    }
    lemma_position_is(t, p, i);
}

/// Appending an element keeps what was found and finds the new element
/// otherwise.
pub proof fn lemma_found_push<A>(s: Seq<A>, a: A, p: spec_fn(A) -> bool)
    ensures
        position(s.push(a), p) < s.len() + 1 <==> position(s, p) < s.len() || p(a),
        position(s, p) < s.len() ==> position(s.push(a), p) == position(s, p),
{
    lemma_position(s, p);
    let i = position(s, p);
    let t = s.push(a);
    assert forall|k: int| 0 <= k < i implies !p(#[trigger] t[k]) by {
        assert(t[k] == s[k]);
        assert(!p(s[k]));
    }
    if i < s.len() {
        assert(t[i] == s[i]);
        lemma_position_is(t, p, i);
    } else if p(a) {
        assert(t[i] == a);
        lemma_position_is(t, p, i);
    } else {
        lemma_position_is(t, p, i + 1);
    }
}

/// Something is found in a sequence exactly if it is found once the
/// element at `at` is removed, or that element meets `p`.
pub proof fn lemma_found_remove<A>(s: Seq<A>, at: int, p: spec_fn(A) -> bool)
    requires
        0 <= at < s.len(),
    ensures
        position(s, p) < s.len() <==> position(s.remove(at), p) < s.len() - 1 || p(s[at]),
{
    let t = s.remove(at);
    lemma_found_iff(s, p);
    lemma_found_iff(t, p);
    if position(t, p) < t.len() {
        let k = choose|k: int| 0 <= k < t.len() && p(#[trigger] t[k]);
        if k < at {
            assert(p(s[k]));
        } else {
            assert(t[k] == s[k + 1]);
            assert(p(s[k + 1]));
        }
    }
    if position(s, p) < s.len() && !p(s[at]) {
        let k = choose|k: int| 0 <= k < s.len() && p(#[trigger] s[k]);
        if k < at {
            assert(t[k] == s[k]);
            assert(p(t[k]));
        } else {
            assert(t[k - 1] == s[k]);
            assert(p(t[k - 1]));
        }
    }
}

/// Something is found in a sequence with the element at `at` replaced by
/// `a` exactly if it is found without that element, or `a` meets `p`.
pub proof fn lemma_found_update<A>(s: Seq<A>, at: int, a: A, p: spec_fn(A) -> bool)
    requires
        0 <= at < s.len(),
    ensures
        position(s.update(at, a), p) < s.len() <==> position(s.remove(at), p) < s.len() - 1 || p(a),
{
    let t = s.update(at, a);
    assert(t.remove(at) =~= s.remove(at));
    lemma_found_remove(t, at, p);
}

/// A sequence without duplicates that loses the first `x` holds no `x`,
/// holds whatever else it held, and has no duplicates.
pub proof fn lemma_struck<A>(s: Seq<A>, x: A, p: spec_fn(A) -> bool)
    requires
        s.no_duplicates(),
        forall|a: A| #[trigger] p(a) <==> a == x,
    ensures
        without_first(s, p).no_duplicates(),
        !without_first(s, p).contains(x),
        forall|y: A| y != x ==> (#[trigger] without_first(s, p).contains(y) == s.contains(y)),
        without_first(s, p).len() <= s.len(),
{
    lemma_position(s, p);
    let at = position(s, p);
    let r = without_first(s, p);
    if at < s.len() {
        assert forall|a: int, b: int| 0 <= a < r.len() && 0 <= b < r.len() && a != b implies r[a]
            != r[b] by {
            let a2 = if a < at { a } else { a + 1 };
            let b2 = if b < at { b } else { b + 1 };
            assert(r[a] == s[a2] && r[b] == s[b2]);
        }
        if r.contains(x) {
            let k = choose|k: int| 0 <= k < r.len() && r[k] == x;
            let k2 = if k < at { k } else { k + 1 };
            assert(r[k] == s[k2]);
            assert(s[at] == x);
        }
        assert forall|y: A| y != x implies (#[trigger] r.contains(y) == s.contains(y)) by {
            if r.contains(y) {
                let k = choose|k: int| 0 <= k < r.len() && r[k] == y;
                let k2 = if k < at { k } else { k + 1 };
                assert(r[k] == s[k2]);
            }
            if s.contains(y) {
                let k = choose|k: int| 0 <= k < s.len() && s[k] == y;
                assert(k != at);
                let k2 = if k < at { k } else { k - 1 };
                assert(r[k2] == s[k]);
            }
        }
    } else {
        if s.contains(x) {
            let k = choose|k: int| 0 <= k < s.len() && s[k] == x;
            assert(p(s[k]));
        }
    }
}

/// A sequence without duplicates that gains an `x` it did not hold holds
/// `x` and whatever it held, and has no duplicates.
pub proof fn lemma_listed<A>(s: Seq<A>, x: A)
    requires
        s.no_duplicates(),
        !s.contains(x),
    ensures
        s.push(x).no_duplicates(),
        s.push(x).contains(x),
        forall|y: A| y != x ==> (#[trigger] s.push(x).contains(y) == s.contains(y)),
{
    let r = s.push(x);
    assert(r[s.len() as int] == x);
    assert forall|a: int, b: int| 0 <= a < r.len() && 0 <= b < r.len() && a != b implies r[a]
        != r[b] by {
        if a < s.len() {
            assert(r[a] == s[a]);
        }
        if b < s.len() {
            assert(r[b] == s[b]);
        }
    }
    assert forall|y: A| y != x implies (#[trigger] r.contains(y) == s.contains(y)) by {
        if r.contains(y) {
            let k = choose|k: int| 0 <= k < r.len() && r[k] == y;
            assert(r[k] == s[k]);
        }
        if s.contains(y) {
            let k = choose|k: int| 0 <= k < s.len() && s[k] == y;
            assert(r[k] == s[k]);
        }
    }
}

} // verus!
