//! What a layer of the join computes: which relation proposes for a prefix,
//! which candidates survive, and what that means in terms of the relations.

use vstd::prelude::*;
use crate::extender::PrefixExtender;
use crate::ordered::{common, lemma_common_contains, member_of};

verus! {

/// A prefix with its candidates, unless none is left.
pub open spec fn nonempty<P, E>(prefix: P, candidates: Seq<E>) -> Option<(P, Seq<E>)> {
    if candidates.len() > 0 {
        Some((prefix, candidates))
    } else {
        None
    }
}

/// Every relation is valid and admits every prefix.
pub open spec fn extendable<R: PrefixExtender>(
    relations: Seq<R>,
    prefixes: Seq<R::Prefix>,
) -> bool {
    &&& forall|k: int| 0 <= k < relations.len() ==> (#[trigger] relations[k]).valid()
    &&& forall|k: int, i: int|
        0 <= k < relations.len() && 0 <= i < prefixes.len() ==> (#[trigger] relations[k]).admits(
            #[trigger] prefixes[i],
        )
}

/// None of the first `upto` relations reports a count of zero for `prefix`.
pub open spec fn all_positive<R: PrefixExtender>(
    relations: Seq<R>,
    prefix: R::Prefix,
    upto: int,
) -> bool {
    forall|k: int| 0 <= k < upto ==> (#[trigger] relations[k]).estimate(prefix) > 0
}

/// The smallest count that the first `upto` relations report for `prefix`.
pub open spec fn least<R: PrefixExtender>(relations: Seq<R>, prefix: R::Prefix, upto: int) -> u64
    decreases upto,
{
    if upto <= 0 {
        u64::MAX
    } else {
        let before = least(relations, prefix, upto - 1);
        let here = relations[upto - 1].estimate(prefix);
        if here < before {
            here
        } else {
            before
        }
    }
}

/// The first of the first `upto` relations that reports the smallest count
/// for `prefix`: the one that proposes for it.
pub open spec fn owner<R: PrefixExtender>(relations: Seq<R>, prefix: R::Prefix, upto: int) -> int
    decreases upto,
{
    if upto <= 0 {
        0
    } else if relations[upto - 1].estimate(prefix) < least(relations, prefix, upto - 1) {
        upto - 1
    } else {
        owner(relations, prefix, upto - 1)
    }
}

/// The record of `prefix` once the first `upto` relations have counted.
pub open spec fn tally<R: PrefixExtender>(
    relations: Seq<R>,
    prefix: R::Prefix,
    upto: int,
) -> Option<(R::Prefix, u64, u64)> {
    if all_positive(relations, prefix, upto) {
        Some((prefix, least(relations, prefix, upto), owner(relations, prefix, upto) as u64))
    } else {
        None
    }
}

/// `tally` for fixed relations.
pub open spec fn tallies<R: PrefixExtender>(relations: Seq<R>, upto: int) -> spec_fn(
    R::Prefix,
) -> Option<(R::Prefix, u64, u64)> {
    |prefix: R::Prefix| tally(relations, prefix, upto)
}

/// The test whether a record names `owner`.
pub open spec fn held_by<P>(owner: u64) -> spec_fn((P, u64, u64)) -> bool {
    |record: (P, u64, u64)| record.2 == owner
}

/// The prefix of a record.
pub open spec fn prefix_of<P>() -> spec_fn((P, u64, u64)) -> P {
    |record: (P, u64, u64)| record.0
}

/// The test whether relation `own` proposes for a prefix: no relation
/// reports zero for it and `own` is its owner.
pub open spec fn owned_by<R: PrefixExtender>(relations: Seq<R>, own: int) -> spec_fn(
    R::Prefix,
) -> bool {
    |prefix: R::Prefix|
        all_positive(relations, prefix, relations.len() as int) && owner(
            relations,
            prefix,
            relations.len() as int,
        ) == own
}

/// What relation `own` proposes for `prefix`, filtered by each of the first
/// `upto` relations but `own` itself, in their order.
pub open spec fn survivors<R: PrefixExtender>(
    relations: Seq<R>,
    prefix: R::Prefix,
    own: int,
    upto: int,
) -> Seq<R::Extension>
    decreases upto,
{
    if upto <= 0 {
        relations[own].proposals(prefix)
    } else if upto - 1 == own {
        survivors(relations, prefix, own, upto - 1)
    } else {
        common(survivors(relations, prefix, own, upto - 1), relations[upto - 1].proposals(prefix))
    }
}

/// A prefix with its `survivors`, unless there is none.
pub open spec fn surviving<R: PrefixExtender>(relations: Seq<R>, own: int, upto: int) -> spec_fn(
    R::Prefix,
) -> Option<(R::Prefix, Seq<R::Extension>)> {
    |prefix: R::Prefix| nonempty(prefix, survivors(relations, prefix, own, upto))
}

/// What relation `own` contributes to a layer: the prefixes it owns, in
/// their order, each with the candidates that every relation has, those with
/// no candidate left out.
pub open spec fn share<R: PrefixExtender>(
    relations: Seq<R>,
    prefixes: Seq<R::Prefix>,
    own: int,
) -> Seq<(R::Prefix, Seq<R::Extension>)> {
    prefixes.filter(owned_by(relations, own)).filter_map(
        surviving(relations, own, relations.len() as int),
    )
}

/// The shares of the first `upto` relations, one after the other.
pub open spec fn gathered<R: PrefixExtender>(
    relations: Seq<R>,
    prefixes: Seq<R::Prefix>,
    upto: int,
) -> Seq<(R::Prefix, Seq<R::Extension>)>
    decreases upto,
{
    if upto <= 0 {
        Seq::empty()
    } else {
        gathered(relations, prefixes, upto - 1) + share(relations, prefixes, upto - 1)
    }
}

/// The result of a layer: the shares of all relations, in their order.
pub open spec fn joined<R: PrefixExtender>(relations: Seq<R>, prefixes: Seq<R::Prefix>) -> Seq<
    (R::Prefix, Seq<R::Extension>),
> {
    gathered(relations, prefixes, relations.len() as int)
}

/// The owner of a prefix is the first relation that reports the smallest
/// count for it.
pub proof fn lemma_owner<R: PrefixExtender>(relations: Seq<R>, prefix: R::Prefix, upto: int)
    requires
        1 <= upto <= relations.len(),
    ensures
        0 <= owner(relations, prefix, upto) < upto,
        relations[owner(relations, prefix, upto)].estimate(prefix) == least(
            relations,
            prefix,
            upto,
        ),
        forall|k: int|
            0 <= k < upto ==> least(relations, prefix, upto) <= (#[trigger] relations[k]).estimate(
                prefix,
            ),
        forall|k: int|
            0 <= k < owner(relations, prefix, upto) ==> (#[trigger] relations[k]).estimate(prefix)
                > least(relations, prefix, upto),
    decreases upto,
{
    if upto > 1 {
        lemma_owner(relations, prefix, upto - 1);
    } else {
        reveal_with_fuel(owner, 2);
        reveal_with_fuel(least, 2);
    }
}

/// Only the owner is first among the relations with the smallest count.
pub proof fn lemma_owner_unique<R: PrefixExtender>(
    relations: Seq<R>,
    prefix: R::Prefix,
    upto: int,
    own: int,
)
    requires
        1 <= upto <= relations.len(),
        0 <= own < upto,
        forall|k: int|
            0 <= k < upto ==> relations[own].estimate(prefix) <= (#[trigger] relations[k]).estimate(
                prefix,
            ),
        forall|k: int|
            0 <= k < own ==> (#[trigger] relations[k]).estimate(prefix) > relations[own].estimate(
                prefix,
            ),
    ensures
        own == owner(relations, prefix, upto),
{
    lemma_owner(relations, prefix, upto);
    let found = owner(relations, prefix, upto);
    assert(relations[found].estimate(prefix) >= relations[own].estimate(prefix));
    assert(relations[own].estimate(prefix) >= least(relations, prefix, upto));
}

/// Every relation has `value` for the next attribute of `prefix`.
pub open spec fn shared<R: PrefixExtender>(
    relations: Seq<R>,
    prefix: R::Prefix,
    value: R::Extension,
) -> bool {
    forall|k: int|
        0 <= k < relations.len() ==> (#[trigger] relations[k]).proposals(prefix).contains(value)
}

/// The prefix reaches the result of the layer: there is a relation, none
/// reports zero for the prefix, and its owner's proposals keep a candidate.
pub open spec fn alive<R: PrefixExtender>(relations: Seq<R>, prefix: R::Prefix) -> bool {
    let n = relations.len() as int;
    &&& n >= 1
    &&& all_positive(relations, prefix, n)
    &&& survivors(relations, prefix, owner(relations, prefix, n), n).len() > 0
}

/// `alive` for fixed relations.
pub open spec fn living<R: PrefixExtender>(relations: Seq<R>) -> spec_fn(R::Prefix) -> bool {
    |prefix: R::Prefix| alive(relations, prefix)
}

/// The prefix of a result entry.
pub open spec fn entry_prefix<P, E>() -> spec_fn((P, Seq<E>)) -> P {
    |entry: (P, Seq<E>)| entry.0
}

/// The test whether a prefix reaches the result with `own` as its owner.
pub open spec fn alive_under<R: PrefixExtender>(relations: Seq<R>, own: int) -> spec_fn(
    R::Prefix,
) -> bool {
    |prefix: R::Prefix|
        alive(relations, prefix) && owner(relations, prefix, relations.len() as int) == own
}

/// The test whether a prefix reaches the result with an owner before `upto`.
pub open spec fn alive_before<R: PrefixExtender>(relations: Seq<R>, upto: int) -> spec_fn(
    R::Prefix,
) -> bool {
    |prefix: R::Prefix|
        alive(relations, prefix) && owner(relations, prefix, relations.len() as int) < upto
}

/// The candidates that are left after `upto` relations are those that the
/// owner and each of these relations have.
pub proof fn lemma_survivors_contain<R: PrefixExtender>(
    relations: Seq<R>,
    prefix: R::Prefix,
    own: int,
    upto: int,
    value: R::Extension,
)
    requires
        0 <= upto <= relations.len(),
    ensures
        survivors(relations, prefix, own, upto).contains(value) <==> relations[own].proposals(
            prefix,
        ).contains(value) && forall|k: int|
            0 <= k < upto ==> (#[trigger] relations[k]).proposals(prefix).contains(value),
    decreases upto,
{
    if upto > 0 {
        lemma_survivors_contain(relations, prefix, own, upto - 1, value);
        if upto - 1 != own {
            lemma_common_contains(
                survivors(relations, prefix, own, upto - 1),
                relations[upto - 1].proposals(prefix),
                value,
            );
        }
    }
}

/// Filtering never adds a candidate: a prefix that has lost its last
/// candidate to some relation has none after any later one.
pub proof fn lemma_survivors_shrink<R: PrefixExtender>(
    relations: Seq<R>,
    prefix: R::Prefix,
    own: int,
    upto: int,
    later: int,
)
    requires
        0 <= upto <= later,
    ensures
        survivors(relations, prefix, own, later).len() <= survivors(
            relations,
            prefix,
            own,
            upto,
        ).len(),
    decreases later - upto,
{
    if upto < later {
        lemma_survivors_shrink(relations, prefix, own, upto, later - 1);
        if later - 1 != own {
            survivors(relations, prefix, own, later - 1).lemma_filter_len(
                member_of(relations[later - 1].proposals(prefix)),
            );
        }
    }
}

/// A prefix reaches the result of a layer exactly when some value is its
/// next attribute in every relation.
pub proof fn lemma_alive<R: PrefixExtender>(relations: Seq<R>, prefix: R::Prefix)
    requires
        relations.len() >= 1,
        forall|k: int|
            0 <= k < relations.len() ==> (#[trigger] relations[k]).valid() && relations[k].admits(
                prefix,
            ),
    ensures
        alive(relations, prefix) <==> exists|value: R::Extension| shared(relations, prefix, value),
{
    let n = relations.len() as int;
    lemma_owner(relations, prefix, n);
    let own = owner(relations, prefix, n);
    if alive(relations, prefix) {
        let left = survivors(relations, prefix, own, n);
        let value = left[0];
        assert(left.contains(value));
        lemma_survivors_contain(relations, prefix, own, n, value);
        assert(shared(relations, prefix, value));
    }
    if exists|value: R::Extension| shared(relations, prefix, value) {
        let value = choose|value: R::Extension| shared(relations, prefix, value);
        assert forall|k: int| 0 <= k < n implies (#[trigger] relations[k]).estimate(prefix)
            > 0 by {
            if relations[k].estimate(prefix) == 0 {
                relations[k].lemma_estimate_zero(prefix);
                assert(relations[k].proposals(prefix).contains(value));
            }
        }
        lemma_survivors_contain(relations, prefix, own, n, value);
        assert(relations[own].proposals(prefix).contains(value));
    }
}

/// The prefixes of one relation's share are those it owns that reach the
/// result, in their order.
proof fn lemma_share_prefixes<R: PrefixExtender>(
    relations: Seq<R>,
    prefixes: Seq<R::Prefix>,
    own: int,
)
    requires
        0 <= own < relations.len(),
    ensures
        share(relations, prefixes, own).map_values(entry_prefix()) == prefixes.filter(
            alive_under(relations, own),
        ),
{
    let n = relations.len() as int;
    assert forall|i: int| 0 <= i < prefixes.len() implies alive_under(relations, own)(
        #[trigger] prefixes[i],
    ) == (owned_by(relations, own)(prefixes[i]) && surviving(relations, own, n)(
        prefixes[i],
    ) is Some) by {}
    crate::seqs::lemma_filter_then_filter_map(
        prefixes,
        owned_by(relations, own),
        surviving(relations, own, n),
        entry_prefix(),
        alive_under(relations, own),
    );
}

/// The prefixes that the first `upto` relations contribute are, up to their
/// order, the prefixes that reach the result and have one of them as owner.
proof fn lemma_gathered_prefixes<R: PrefixExtender>(
    relations: Seq<R>,
    prefixes: Seq<R::Prefix>,
    upto: int,
)
    requires
        0 <= upto <= relations.len(),
    ensures
        gathered(relations, prefixes, upto).map_values(entry_prefix()).to_multiset()
            == prefixes.filter(alive_before(relations, upto)).to_multiset(),
    decreases upto,
{
    broadcast use vstd::multiset::group_multiset_axioms;

    let n = relations.len() as int;
    if upto <= 0 {
        let none = prefixes.filter(alive_before(relations, upto));
        if none.len() > 0 {
            crate::seqs::lemma_filter_source(prefixes, alive_before(relations, upto), 0);
            lemma_owner(relations, none[0], n);
        }
        assert(gathered(relations, prefixes, upto).map_values(entry_prefix()) =~= none);
    } else {
        lemma_gathered_prefixes(relations, prefixes, upto - 1);
        lemma_share_prefixes(relations, prefixes, upto - 1);
        let before = gathered(relations, prefixes, upto - 1);
        let added = share(relations, prefixes, upto - 1);
        assert((before + added).map_values(entry_prefix()) =~= before.map_values(entry_prefix())
            + added.map_values(entry_prefix()));
        vstd::seq_lib::lemma_multiset_commutative(
            before.map_values(entry_prefix()),
            added.map_values(entry_prefix()),
        );
        assert forall|i: int| 0 <= i < prefixes.len() implies alive_before(relations, upto)(
            #[trigger] prefixes[i],
        ) == (alive_before(relations, upto - 1)(prefixes[i]) || alive_under(relations, upto - 1)(
            prefixes[i],
        )) && !(alive_before(relations, upto - 1)(prefixes[i]) && alive_under(
            relations,
            upto - 1,
        )(prefixes[i])) by {}
        crate::seqs::lemma_filter_split(
            prefixes,
            alive_before(relations, upto),
            alive_before(relations, upto - 1),
            alive_under(relations, upto - 1),
        );
    }
}

/// The result of a layer holds, up to their order, the prefixes that reach
/// it, each as often as it came in: none is lost, none comes twice, and a
/// prefix without a candidate is not in it.
pub proof fn lemma_joined_prefixes<R: PrefixExtender>(relations: Seq<R>, prefixes: Seq<R::Prefix>)
    ensures
        joined(relations, prefixes).map_values(entry_prefix()).to_multiset() == prefixes.filter(
            living(relations),
        ).to_multiset(),
{
    let n = relations.len() as int;
    lemma_gathered_prefixes(relations, prefixes, n);
    assert forall|i: int| 0 <= i < prefixes.len() implies alive_before(relations, n)(
        #[trigger] prefixes[i],
    ) == living(relations)(prefixes[i]) by {
        if alive(relations, prefixes[i]) {
            lemma_owner(relations, prefixes[i], n);
        }
    }
    crate::seqs::lemma_filter_same(prefixes, alive_before(relations, n), living(relations));
}

/// Every entry of a layer's result is a prefix that came in and reaches the
/// result, with the candidates that are left of its owner's proposals, of
/// which there is at least one.
pub proof fn lemma_joined_entry<R: PrefixExtender>(
    relations: Seq<R>,
    prefixes: Seq<R::Prefix>,
    j: int,
)
    requires
        0 <= j < joined(relations, prefixes).len(),
    ensures
        prefixes.contains(joined(relations, prefixes)[j].0),
        alive(relations, joined(relations, prefixes)[j].0),
        joined(relations, prefixes)[j].1.len() > 0,
        joined(relations, prefixes)[j].1 == survivors(
            relations,
            joined(relations, prefixes)[j].0,
            owner(relations, joined(relations, prefixes)[j].0, relations.len() as int),
            relations.len() as int,
        ),
{
    lemma_gathered_entry(relations, prefixes, relations.len() as int, j);
}

/// A prefix that some relation counts as zero, or whose candidates run out
/// under some relation, is the prefix of no entry of the layer's result: it
/// yields no row in this layer nor, for want of an entry, in any later one.
pub proof fn lemma_dropped_absent<R: PrefixExtender>(
    relations: Seq<R>,
    prefixes: Seq<R::Prefix>,
    prefix: R::Prefix,
    upto: int,
    j: int,
)
    requires
        0 <= upto <= relations.len(),
        !all_positive(relations, prefix, relations.len() as int) || survivors(
            relations,
            prefix,
            owner(relations, prefix, relations.len() as int),
            upto,
        ).len() == 0,
        0 <= j < joined(relations, prefixes).len(),
    ensures
        joined(relations, prefixes)[j].0 != prefix,
{
    lemma_joined_entry(relations, prefixes, j);
    lemma_survivors_shrink(
        relations,
        prefix,
        owner(relations, prefix, relations.len() as int),
        upto,
        relations.len() as int,
    );
}

/// `lemma_joined_entry` for the shares of the first `upto` relations.
proof fn lemma_gathered_entry<R: PrefixExtender>(
    relations: Seq<R>,
    prefixes: Seq<R::Prefix>,
    upto: int,
    j: int,
)
    requires
        0 <= upto <= relations.len(),
        0 <= j < gathered(relations, prefixes, upto).len(),
    ensures
        prefixes.contains(gathered(relations, prefixes, upto)[j].0),
        alive(relations, gathered(relations, prefixes, upto)[j].0),
        gathered(relations, prefixes, upto)[j].1.len() > 0,
        gathered(relations, prefixes, upto)[j].1 == survivors(
            relations,
            gathered(relations, prefixes, upto)[j].0,
            owner(relations, gathered(relations, prefixes, upto)[j].0, relations.len() as int),
            relations.len() as int,
        ),
    decreases upto,
{
    let n = relations.len() as int;
    let before = gathered(relations, prefixes, upto - 1);
    if j < before.len() {
        lemma_gathered_entry(relations, prefixes, upto - 1, j);
    } else {
        let own = upto - 1;
        let part = prefixes.filter(owned_by(relations, own));
        let added = share(relations, prefixes, own);
        let at = j - before.len();
        assert(gathered(relations, prefixes, upto)[j] == added[at]);
        crate::seqs::lemma_filter_map_source(part, surviving(relations, own, n), at);
        let i = choose|i: int|
            0 <= i < part.len() && surviving(relations, own, n)(#[trigger] part[i]) == Some(
                added[at],
            );
        crate::seqs::lemma_filter_source(prefixes, owned_by(relations, own), i);
        assert(owned_by(relations, own)(part[i]));
        assert(prefixes.contains(part[i]));
    }
}

} // verus!
