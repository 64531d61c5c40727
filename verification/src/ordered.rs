//! The mathematical model of candidate sets: strictly ascending sequences of
//! 32-bit values, the position a key would take in one, and the elements two
//! of them share.

use vstd::prelude::*;

verus! {

/// `s` is ascending and holds no value twice.
pub open spec fn ascending(s: Seq<u32>) -> bool {
    forall|i: int, j: int| 0 <= i < j < s.len() ==> s[i] < s[j]
}

/// `i` is the smallest index of `s` whose element is at least `key`, or the
/// length of `s` when every element is smaller.
pub open spec fn is_first_at_least(s: Seq<u32>, key: u32, i: int) -> bool {
    &&& 0 <= i <= s.len()
    &&& forall|j: int| 0 <= j < i ==> s[j] < key
    &&& i < s.len() ==> s[i] >= key
}

/// The smallest index of `s` whose element is at least `key`, or the length
/// of `s` when there is none.
pub open spec fn first_at_least(s: Seq<u32>, key: u32) -> int
    decreases s.len(),
{
    if s.len() == 0 || s[0] >= key {
        0
    } else {
        1 + first_at_least(s.skip(1), key)
    }
}

/// The suffix of `s` that starts at the first element at least `key`.
pub open spec fn suffix_from(s: Seq<u32>, key: u32) -> Seq<u32> {
    s.skip(first_at_least(s, key))
}

/// `first_at_least` meets its description, on any sequence.
pub proof fn lemma_first_at_least(s: Seq<u32>, key: u32)
    ensures
        is_first_at_least(s, key, first_at_least(s, key)),
    decreases s.len(),
{
    if s.len() == 0 || s[0] >= key {
    } else {
        let rest = s.skip(1);
        lemma_first_at_least(rest, key);
        let t = first_at_least(rest, key);
        assert forall|j: int| 0 <= j < 1 + t implies s[j] < key by {
            if j > 0 {
                assert(rest[j - 1] == s[j]);
            }
        }
        if 1 + t < s.len() {
            assert(rest[t] == s[1 + t]);
        }
    }
}

/// At most one index meets the description of `first_at_least`.
pub proof fn lemma_first_at_least_unique(s: Seq<u32>, key: u32, i: int)
    requires
        is_first_at_least(s, key, i),
    ensures
        i == first_at_least(s, key),
{
    lemma_first_at_least(s, key);
    let t = first_at_least(s, key);
    if i < t {
        assert(s[i] < key);
    } else if t < i {
        assert(s[t] < key);
    }
}

/// Searching the result of `suffix_from` for the same key again changes
/// nothing.
pub proof fn lemma_suffix_from_idempotent(s: Seq<u32>, key: u32)
    ensures
        suffix_from(suffix_from(s, key), key) == suffix_from(s, key),
{
    lemma_first_at_least(s, key);
    let rest = suffix_from(s, key);
    assert(is_first_at_least(rest, key, 0));
    lemma_first_at_least_unique(rest, key, 0);
    assert(rest.skip(0) =~= rest);
}

/// Where everything before `lo` is smaller than `key`, the search may start
/// at `lo`.
pub proof fn lemma_suffix_from_skip(s: Seq<u32>, key: u32, lo: int)
    requires
        0 <= lo <= s.len(),
        forall|k: int| 0 <= k < lo ==> s[k] < key,
    ensures
        first_at_least(s, key) == lo + first_at_least(s.skip(lo), key),
        suffix_from(s.skip(lo), key) == suffix_from(s, key),
{
    let tail = s.skip(lo);
    lemma_first_at_least(tail, key);
    let t = first_at_least(tail, key);
    assert forall|j: int| 0 <= j < lo + t implies s[j] < key by {
        if j >= lo {
            assert(tail[j - lo] == s[j]);
        }
    }
    if lo + t < s.len() {
        assert(tail[t] == s[lo + t]);
    }
    lemma_first_at_least_unique(s, key, lo + t);
    assert(tail.skip(t) =~= s.skip(lo + t));
}

/// In an ascending sequence `key` occurs exactly when the suffix that
/// `suffix_from` gives starts with it.
pub proof fn lemma_suffix_from_finds(s: Seq<u32>, key: u32)
    requires
        ascending(s),
    ensures
        s.contains(key) <==> (suffix_from(s, key).len() > 0 && suffix_from(s, key)[0] == key),
{
    lemma_first_at_least(s, key);
    let t = first_at_least(s, key);
    if s.contains(key) {
        let i = choose|i: int| 0 <= i < s.len() && s[i] == key;
        assert(t <= i);
        if t < i {
            assert(s[t] < s[i]);
        }
    }
    if t < s.len() && s[t] == key {
        assert(s.contains(s[t]));
    }
}

/// The test whether a value occurs in `b`.
pub open spec fn member_of<T>(b: Seq<T>) -> spec_fn(T) -> bool {
    |x: T| b.contains(x)
}

/// The elements of `a` that also occur in `b`, in the order they have in `a`.
pub open spec fn common<T>(a: Seq<T>, b: Seq<T>) -> Seq<T> {
    a.filter(member_of(b))
}

/// Taking one more element of `a` into account adds it to the common
/// elements exactly when it occurs in `b`.
pub proof fn lemma_common_step<T>(a: Seq<T>, b: Seq<T>, i: int)
    requires
        0 <= i < a.len(),
    ensures
        common(a.take(i + 1), b) == if b.contains(a[i]) {
            common(a.take(i), b).push(a[i])
        } else {
            common(a.take(i), b)
        },
        common(a.take(i), b).len() <= i,
{
    assert(a.take(i + 1) =~= a.take(i).push(a[i]));
    a.take(i).lemma_filter_push(a[i], member_of(b));
    a.take(i).lemma_filter_len(member_of(b));
}

/// Elements of `a` from `i` on that do not occur in `b` add nothing.
pub proof fn lemma_common_rest<T>(a: Seq<T>, b: Seq<T>, i: int)
    requires
        0 <= i <= a.len(),
        forall|k: int| i <= k < a.len() ==> !b.contains(a[k]),
    ensures
        common(a, b) == common(a.take(i), b),
    decreases a.len() - i,
{
    if i == a.len() {
        assert(a.take(i) =~= a);
    } else {
        lemma_common_step(a, b, i);
        lemma_common_rest(a, b, i + 1);
    }
}

/// A value is among the common elements exactly when it occurs in both.
pub proof fn lemma_common_contains<T>(a: Seq<T>, b: Seq<T>, x: T)
    ensures
        common(a, b).contains(x) <==> a.contains(x) && b.contains(x),
{
    let p = member_of(b);
    if common(a, b).contains(x) {
        a.lemma_filter_contains_rev(p, x);
        let i = choose|i: int| 0 <= i < common(a, b).len() && common(a, b)[i] == x;
        a.lemma_filter_pred(p, i);
    }
    if a.contains(x) && b.contains(x) {
        let i = choose|i: int| 0 <= i < a.len() && a[i] == x;
        a.lemma_filter_contains(p, i);
    }
}

/// What an ascending sequence keeps under any test is ascending.
pub proof fn lemma_filter_ascending(a: Seq<u32>, keep: spec_fn(u32) -> bool)
    requires
        ascending(a),
    ensures
        ascending(a.filter(keep)),
    decreases a.len(),
{
    reveal(Seq::filter);
    if a.len() > 0 {
        let front = a.drop_last();
        lemma_filter_ascending(front, keep);
        let kept = front.filter(keep);
        if keep(a.last()) {
            assert forall|i: int, j: int| 0 <= i < j < kept.push(a.last()).len() implies kept.push(
                a.last(),
            )[i] < kept.push(a.last())[j] by {
                if j == kept.len() {
                    assert(kept.contains(kept[i]));
                    front.lemma_filter_contains_rev(keep, kept[i]);
                    let k = choose|k: int| 0 <= k < front.len() && front[k] == kept[i];
                    assert(a[k] < a[a.len() - 1]);
                }
            }
        }
    }
}

/// The common elements of two ascending sequences are ascending.
pub proof fn lemma_common_ascending(a: Seq<u32>, b: Seq<u32>)
    requires
        ascending(a),
    ensures
        ascending(common(a, b)),
{
    lemma_filter_ascending(a, member_of(b));
}

/// An ascending sequence holds no value twice.
pub proof fn lemma_ascending_no_duplicates(s: Seq<u32>)
    requires
        ascending(s),
    ensures
        s.no_duplicates(),
{
    assert forall|i: int, j: int| 0 <= i < s.len() && 0 <= j < s.len() && i != j implies s[i]
        != s[j] by {
        if i < j {
            assert(s[i] < s[j]);
        } else {
            assert(s[j] < s[i]);
        }
    }
}

/// The common elements of an ascending sequence and another are the
/// intersection of their sets of elements, each once.
pub proof fn lemma_common_is_intersection(a: Seq<u32>, b: Seq<u32>)
    requires
        ascending(a),
    ensures
        common(a, b).to_set() == a.to_set().intersect(b.to_set()),
        common(a, b).len() == a.to_set().intersect(b.to_set()).len(),
{
    assert forall|x: u32| common(a, b).to_set().contains(x) <==> a.to_set().intersect(
        b.to_set(),
    ).contains(x) by {
        lemma_common_contains(a, b, x);
    }
    assert(common(a, b).to_set() =~= a.to_set().intersect(b.to_set()));
    lemma_common_ascending(a, b);
    lemma_ascending_no_duplicates(common(a, b));
    common(a, b).unique_seq_to_set();
}

/// Ascending sequences with the same elements are the same sequence.
pub proof fn lemma_ascending_same(s: Seq<u32>, t: Seq<u32>)
    requires
        ascending(s),
        ascending(t),
        forall|x: u32| s.contains(x) <==> t.contains(x),
    ensures
        s == t,
    decreases s.len(),
{
    if s.len() == 0 {
        if t.len() > 0 {
            assert(t.contains(t[0]));
        }
        assert(s =~= t);
    } else {
        assert(s.contains(s.last()));
        let at = choose|k: int| 0 <= k < t.len() && t[k] == s.last();
        assert(t.contains(t.last()));
        let back = choose|k: int| 0 <= k < s.len() && s[k] == t.last();
        assert(s.last() == t.last()) by {
            if at < t.len() - 1 {
                assert(t[at] < t[t.len() - 1]);
            }
            if back < s.len() - 1 {
                assert(s[back] < s[s.len() - 1]);
            }
        }
        let front = s.drop_last();
        let other = t.drop_last();
        assert forall|x: u32| front.contains(x) <==> other.contains(x) by {
            if front.contains(x) {
                let i = choose|i: int| 0 <= i < front.len() && front[i] == x;
                assert(s[i] < s[s.len() - 1]);
                assert(s.contains(s[i]));
                let k = choose|k: int| 0 <= k < t.len() && t[k] == x;
                assert(other[k] == x);
            }
            if other.contains(x) {
                let i = choose|i: int| 0 <= i < other.len() && other[i] == x;
                assert(t[i] < t[t.len() - 1]);
                assert(t.contains(t[i]));
                let k = choose|k: int| 0 <= k < s.len() && s[k] == x;
                assert(front[k] == x);
            }
        }
        lemma_ascending_same(front, other);
        assert(s =~= front.push(s.last()));
        assert(t =~= other.push(t.last()));
    }
}

/// What two ascending sequences share does not depend on which of them is
/// filtered by the other.
pub proof fn lemma_common_symmetric(a: Seq<u32>, b: Seq<u32>)
    requires
        ascending(a),
        ascending(b),
    ensures
        common(a, b) == common(b, a),
{
    assert forall|x: u32| common(a, b).contains(x) <==> common(b, a).contains(x) by {
        lemma_common_contains(a, b, x);
        lemma_common_contains(b, a, x);
    }
    lemma_common_ascending(a, b);
    lemma_common_ascending(b, a);
    lemma_ascending_same(common(a, b), common(b, a));
}

} // verus!
