//! Facts about sequences that are filtered and mapped in several passes.

use vstd::prelude::*;

verus! {

/// Two passes of `filter_map` are one pass of their composition.
pub proof fn lemma_filter_map_twice<A, B, C>(
    s: Seq<A>,
    first: spec_fn(A) -> Option<B>,
    second: spec_fn(B) -> Option<C>,
    both: spec_fn(A) -> Option<C>,
)
    requires
        forall|i: int|
            0 <= i < s.len() ==> both(#[trigger] s[i]) == match first(s[i]) {
                Some(y) => second(y),
                None => None,
            },
    ensures
        s.filter_map(first).filter_map(second) == s.filter_map(both),
    decreases s.len(),
{
    if s.len() > 0 {
        let front = s.drop_last();
        assert forall|i: int| 0 <= i < front.len() implies both(#[trigger] front[i]) == match first(
            front[i],
        ) {
            Some(y) => second(y),
            None => None,
        } by {
            assert(front[i] == s[i]);
        }
        lemma_filter_map_twice(front, first, second, both);
        assert(s.last() == s[s.len() - 1]);
        match first(s.last()) {
            Some(y) => {
                let once = front.filter_map(first);
                assert(s.filter_map(first) == once + seq![y]);
                assert((once + seq![y]).drop_last() =~= once);
                assert((once + seq![y]).last() == y);
            },
            None => {},
        }
    }
}

/// A `filter_map` depends on what its function makes of the elements only.
pub proof fn lemma_filter_map_same<A, B>(
    s: Seq<A>,
    one: spec_fn(A) -> Option<B>,
    other: spec_fn(A) -> Option<B>,
)
    requires
        forall|i: int| 0 <= i < s.len() ==> one(#[trigger] s[i]) == other(s[i]),
    ensures
        s.filter_map(one) == s.filter_map(other),
    decreases s.len(),
{
    if s.len() > 0 {
        let front = s.drop_last();
        assert forall|i: int| 0 <= i < front.len() implies one(#[trigger] front[i]) == other(
            front[i],
        ) by {
            assert(front[i] == s[i]);
        }
        lemma_filter_map_same(front, one, other);
        assert(s.last() == s[s.len() - 1]);
    }
}

/// Mapping every element is a `filter_map` that keeps every element.
pub proof fn lemma_map_as_filter_map<A, B>(
    s: Seq<A>,
    each: spec_fn(A) -> B,
    kept: spec_fn(A) -> Option<B>,
)
    requires
        forall|i: int| 0 <= i < s.len() ==> kept(#[trigger] s[i]) == Some(each(s[i])),
    ensures
        s.map_values(each) == s.filter_map(kept),
    decreases s.len(),
{
    if s.len() > 0 {
        let front = s.drop_last();
        assert forall|i: int| 0 <= i < front.len() implies kept(#[trigger] front[i]) == Some(
            each(front[i]),
        ) by {
            assert(front[i] == s[i]);
        }
        lemma_map_as_filter_map(front, each, kept);
        assert(s.last() == s[s.len() - 1]);
        assert(s.map_values(each) =~= front.map_values(each) + seq![each(s.last())]);
    } else {
        assert(s.map_values(each) =~= s.filter_map(kept));
    }
}

/// Selecting from the results of a `filter_map` and mapping them back is a
/// plain filter, where the selection can be told from the source element and
/// the way back returns it.
pub proof fn lemma_filter_map_select<A, B>(
    s: Seq<A>,
    made: spec_fn(A) -> Option<B>,
    chosen: spec_fn(B) -> bool,
    back: spec_fn(B) -> A,
    wanted: spec_fn(A) -> bool,
)
    requires
        forall|i: int|
            0 <= i < s.len() ==> match made(#[trigger] s[i]) {
                Some(y) => chosen(y) == wanted(s[i]) && (chosen(y) ==> back(y) == s[i]),
                None => !wanted(s[i]),
            },
    ensures
        s.filter_map(made).filter(chosen).map_values(back) == s.filter(wanted),
    decreases s.len(),
{
    reveal(Seq::filter);
    if s.len() > 0 {
        let front = s.drop_last();
        assert forall|i: int| 0 <= i < front.len() implies match made(#[trigger] front[i]) {
            Some(y) => chosen(y) == wanted(front[i]) && (chosen(y) ==> back(y) == front[i]),
            None => !wanted(front[i]),
        } by {
            assert(front[i] == s[i]);
        }
        lemma_filter_map_select(front, made, chosen, back, wanted);
        assert(s.last() == s[s.len() - 1]);
        let once = front.filter_map(made);
        match made(s.last()) {
            Some(y) => {
                assert(s.filter_map(made) == once + seq![y]);
                assert(once + seq![y] =~= once.push(y));
                once.lemma_filter_push(y, chosen);
                if chosen(y) {
                    assert(once.filter(chosen).push(y).map_values(back) =~= once.filter(
                        chosen,
                    ).map_values(back).push(back(y)));
                }
            },
            None => {},
        }
    } else {
        assert(s.filter_map(made).filter(chosen).map_values(back) =~= s.filter(wanted));
    }
}

/// What a `filter_map` yields was made from an element of its source.
pub proof fn lemma_filter_map_source<A, B>(s: Seq<A>, made: spec_fn(A) -> Option<B>, k: int)
    requires
        0 <= k < s.filter_map(made).len(),
    ensures
        exists|i: int| 0 <= i < s.len() && made(#[trigger] s[i]) == Some(s.filter_map(made)[k]),
{
    let y = s.filter_map(made)[k];
    assert(s.filter_map(made).contains(y));
    s.lemma_filter_map_contains(made, y);
    let x = choose|x: A| #[trigger] s.contains(x) && made(x) == Some(y);
    let i = choose|i: int| 0 <= i < s.len() && s[i] == x;
    assert(made(s[i]) == Some(y));
}

/// What a filter keeps is an element of its source that passes the test.
pub proof fn lemma_filter_source<A>(s: Seq<A>, keep: spec_fn(A) -> bool, k: int)
    requires
        0 <= k < s.filter(keep).len(),
    ensures
        exists|i: int| 0 <= i < s.len() && #[trigger] s[i] == s.filter(keep)[k],
        keep(s.filter(keep)[k]),
{
    let y = s.filter(keep)[k];
    assert(s.filter(keep).contains(y));
    s.lemma_filter_contains_rev(keep, y);
    s.lemma_filter_pred(keep, k);
    let i = choose|i: int| 0 <= i < s.len() && s[i] == y;
    assert(s[i] == y);
}

/// A filter depends on what its test says of the elements only.
pub proof fn lemma_filter_same<A>(s: Seq<A>, one: spec_fn(A) -> bool, other: spec_fn(A) -> bool)
    requires
        forall|i: int| 0 <= i < s.len() ==> one(#[trigger] s[i]) == other(s[i]),
    ensures
        s.filter(one) == s.filter(other),
    decreases s.len(),
{
    reveal(Seq::filter);
    if s.len() > 0 {
        let front = s.drop_last();
        assert forall|i: int| 0 <= i < front.len() implies one(#[trigger] front[i]) == other(
            front[i],
        ) by {
            assert(front[i] == s[i]);
        }
        lemma_filter_same(front, one, other);
        assert(s.last() == s[s.len() - 1]);
    }
}

/// Filtering, then mapping what is left to something or nothing, then
/// mapping back is a plain filter, where the way back returns the source
/// element.
pub proof fn lemma_filter_then_filter_map<A, B>(
    s: Seq<A>,
    first: spec_fn(A) -> bool,
    made: spec_fn(A) -> Option<B>,
    back: spec_fn(B) -> A,
    wanted: spec_fn(A) -> bool,
)
    requires
        forall|i: int|
            0 <= i < s.len() ==> wanted(#[trigger] s[i]) == (first(s[i]) && made(s[i]) is Some),
        forall|i: int|
            0 <= i < s.len() && made(#[trigger] s[i]) is Some ==> back(made(s[i]).unwrap()) == s[i],
    ensures
        s.filter(first).filter_map(made).map_values(back) == s.filter(wanted),
    decreases s.len(),
{
    reveal(Seq::filter);
    if s.len() > 0 {
        let front = s.drop_last();
        assert forall|i: int| 0 <= i < front.len() implies wanted(#[trigger] front[i]) == (first(
            front[i],
        ) && made(front[i]) is Some) by {
            assert(front[i] == s[i]);
        }
        assert forall|i: int| 0 <= i < front.len() && made(#[trigger] front[i]) is Some implies back(
            made(front[i]).unwrap(),
        ) == front[i] by {
            assert(front[i] == s[i]);
        }
        lemma_filter_then_filter_map(front, first, made, back, wanted);
        assert(s.last() == s[s.len() - 1]);
        let kept = front.filter(first);
        if first(s.last()) {
            assert(kept.push(s.last()).drop_last() =~= kept);
            match made(s.last()) {
                Some(y) => {
                    let mapped = kept.filter_map(made);
                    assert(kept.push(s.last()).filter_map(made) == mapped + seq![y]);
                    assert((mapped + seq![y]).map_values(back) =~= mapped.map_values(back).push(
                        back(y),
                    ));
                },
                None => {},
            }
        }
    } else {
        assert(s.filter(first).filter_map(made).map_values(back) =~= s.filter(wanted));
    }
}

/// Two tests that never hold together divide what their disjunction keeps.
pub proof fn lemma_filter_split<A>(
    s: Seq<A>,
    either: spec_fn(A) -> bool,
    one: spec_fn(A) -> bool,
    other: spec_fn(A) -> bool,
)
    requires
        forall|i: int|
            0 <= i < s.len() ==> either(#[trigger] s[i]) == (one(s[i]) || other(s[i])) && !(one(
                s[i],
            ) && other(s[i])),
    ensures
        s.filter(either).to_multiset() == s.filter(one).to_multiset().add(
            s.filter(other).to_multiset(),
        ),
    decreases s.len(),
{
    broadcast use vstd::multiset::group_multiset_axioms;

    reveal(Seq::filter);
    if s.len() > 0 {
        let front = s.drop_last();
        assert forall|i: int| 0 <= i < front.len() implies either(#[trigger] front[i]) == (one(
            front[i],
        ) || other(front[i])) && !(one(front[i]) && other(front[i])) by {
            assert(front[i] == s[i]);
        }
        lemma_filter_split(front, either, one, other);
        let x = s.last();
        assert(x == s[s.len() - 1]);
        let all = front.filter(either);
        let left = front.filter(one);
        let right = front.filter(other);
        vstd::seq_lib::to_multiset_build(all, x);
        vstd::seq_lib::to_multiset_build(left, x);
        vstd::seq_lib::to_multiset_build(right, x);
        if one(x) {
            assert(left.to_multiset().insert(x).add(right.to_multiset()) =~= left.to_multiset().add(
                right.to_multiset(),
            ).insert(x));
        } else if other(x) {
            assert(left.to_multiset().add(right.to_multiset().insert(x)) =~= left.to_multiset().add(
                right.to_multiset(),
            ).insert(x));
        }
    } else {
        s.to_multiset_ensures();
        assert(s.to_multiset() =~= s.to_multiset().add(s.to_multiset()));
    }
}

} // verus!
