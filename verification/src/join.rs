//! One layer of the join: every extender counts, the prefixes are divided
//! among the extenders by the smallest count, each extender proposes for its
//! share, and all the others filter what was proposed.

use std::rc::Rc;
use vstd::prelude::*;
use crate::extender::PrefixExtender;
use crate::layer::{
    all_positive, extendable, gathered, held_by, joined, lemma_owner, nonempty, owned_by, prefix_of,
    surviving, survivors, tallies, tally,
};
use crate::ordered::common;

verus! {

/// The record that starts the counting for a prefix: no count seen yet.
pub open spec fn seeded<P>() -> spec_fn(P) -> (P, u64, u64) {
    |prefix: P| (prefix, u64::MAX, 0u64)
}

/// What one extender's count makes of a record `(prefix, least, owner)`: the
/// prefix is dropped where the extender has nothing to propose, the record
/// names the extender where its count is smaller than every one before, and
/// stays as it is otherwise.
pub open spec fn tally_step<PE: PrefixExtender>(
    extender: &PE,
    ident: u64,
    record: (PE::Prefix, u64, u64),
) -> Option<(PE::Prefix, u64, u64)> {
    let count = extender.estimate(record.0);
    if count == 0 {
        None
    } else if count < record.1 {
        Some((record.0, count, ident))
    } else {
        Some(record)
    }
}

/// `tally_step` for a fixed extender.
pub open spec fn tallying<PE: PrefixExtender>(extender: &PE, ident: u64) -> spec_fn(
    (PE::Prefix, u64, u64),
) -> Option<(PE::Prefix, u64, u64)> {
    |record: (PE::Prefix, u64, u64)| tally_step(extender, ident, record)
}

/// A prefix with what `extender` proposes for it, unless that is nothing.
pub open spec fn proposing<PE: PrefixExtender>(extender: &PE) -> spec_fn(PE::Prefix) -> Option<
    (PE::Prefix, Seq<PE::Extension>),
> {
    |prefix: PE::Prefix| nonempty(prefix, extender.proposals(prefix))
}

/// A prefix with the candidates that `extender` has too, unless none is left.
pub open spec fn filtering<PE: PrefixExtender>(extender: &PE) -> spec_fn(
    (PE::Prefix, Seq<PE::Extension>),
) -> Option<(PE::Prefix, Seq<PE::Extension>)> {
    |record: (PE::Prefix, Seq<PE::Extension>)|
        nonempty(record.0, common(record.1, extender.proposals(record.0)))
}

/// The prefixes of a batch with the contents of their candidate vectors.
pub open spec fn pairs<P, E>(batch: Seq<(P, Vec<E>)>) -> Seq<(P, Seq<E>)> {
    batch.map_values(|record: (P, Vec<E>)| (record.0, record.1@))
}

/// The relations behind a sequence of handles.
pub open spec fn relations<S: StreamPrefixExtender>(extenders: Seq<S>) -> Seq<S::Relation> {
    extenders.map_values(|extender: S| extender.relation())
}

/// The batch operations that a layer of the join is made of, offered by a
/// handle to a relation that can extend single prefixes.
pub trait StreamPrefixExtender {
    /// The relation behind the handle.
    type Relation: PrefixExtender;

    /// The relation behind the handle.
    spec fn relation(&self) -> Self::Relation;

    /// Lets the relation count for every record of the batch, under the
    /// index `ident`: see `tally_step`.
    fn count(
        &self,
        batch: Vec<(<Self::Relation as PrefixExtender>::Prefix, u64, u64)>,
        ident: u64,
    ) -> (out: Vec<(<Self::Relation as PrefixExtender>::Prefix, u64, u64)>)
        requires
            self.relation().valid(),
            forall|i: int|
                0 <= i < batch@.len() ==> self.relation().admits((#[trigger] batch@[i]).0),
        ensures
            out@ == batch@.filter_map(tallying(&self.relation(), ident)),
    ;

    /// Pairs every prefix of the batch with the relation's proposals for it;
    /// a prefix for which it proposes nothing is dropped.
    fn propose(&self, batch: Vec<<Self::Relation as PrefixExtender>::Prefix>) -> (out: Vec<
        (
            <Self::Relation as PrefixExtender>::Prefix,
            Vec<<Self::Relation as PrefixExtender>::Extension>,
        ),
    >)
        requires
            self.relation().valid(),
            forall|i: int| 0 <= i < batch@.len() ==> self.relation().admits(#[trigger] batch@[i]),
        ensures
            pairs(out@) == batch@.filter_map(proposing(&self.relation())),
            forall|i: int|
                0 <= i < out@.len() ==> <Self::Relation as PrefixExtender>::ordered(
                    (#[trigger] out@[i]).1@,
                ),
    ;

    /// Keeps, for every prefix of the batch, the candidates that the
    /// relation has too; a prefix that is left with none is dropped.
    fn intersect(
        &self,
        batch: Vec<
            (
                <Self::Relation as PrefixExtender>::Prefix,
                Vec<<Self::Relation as PrefixExtender>::Extension>,
            ),
        >,
    ) -> (out: Vec<
        (
            <Self::Relation as PrefixExtender>::Prefix,
            Vec<<Self::Relation as PrefixExtender>::Extension>,
        ),
    >)
        requires
            self.relation().valid(),
            forall|i: int|
                0 <= i < batch@.len() ==> self.relation().admits((#[trigger] batch@[i]).0)
                    && <Self::Relation as PrefixExtender>::ordered(batch@[i].1@),
        ensures
            pairs(out@) == pairs(batch@).filter_map(filtering(&self.relation())),
            forall|i: int|
                0 <= i < out@.len() ==> <Self::Relation as PrefixExtender>::ordered(
                    (#[trigger] out@[i]).1@,
                ),
    ;
}

impl<PE: PrefixExtender> StreamPrefixExtender for Rc<PE> {
    type Relation = PE;

    open spec fn relation(&self) -> PE {
        **self
    }

    fn count(&self, batch: Vec<(PE::Prefix, u64, u64)>, ident: u64) -> (out: Vec<
        (PE::Prefix, u64, u64),
    >) {
        let relation: &PE = &**self;
        let ghost all = batch@;
        let mut out: Vec<(PE::Prefix, u64, u64)> = Vec::new();
        for record in it: batch
            invariant
                relation.valid(),
                forall|i: int| 0 <= i < all.len() ==> relation.admits((#[trigger] all[i]).0),
                it.seq() == all,
                out@ == all.take(it.index() as int).filter_map(tallying(relation, ident)),
        {
            let ghost at = it.index() as int;
            proof {
                all.lemma_filter_map_take_succ(tallying(relation, ident), at);
                assert(record == all[at]);
            }
            let (prefix, least, owner) = record;
            let count = relation.count(&prefix);
            if count > 0 {
                if count < least {
                    out.push((prefix, count, ident));
                } else {
                    out.push((prefix, least, owner));
                }
            }
            proof {
                assert(out@ =~= all.take(at + 1).filter_map(tallying(relation, ident)));
            }
        }
        proof {
            assert(all.take(all.len() as int) =~= all);
        }
        out
    }

    fn propose(&self, batch: Vec<PE::Prefix>) -> (out: Vec<(PE::Prefix, Vec<PE::Extension>)>) {
        let relation: &PE = &**self;
        let ghost all = batch@;
        let mut out: Vec<(PE::Prefix, Vec<PE::Extension>)> = Vec::new();
        proof {
            assert(pairs(out@) =~= all.take(0).filter_map(proposing(relation)));
        }
        for prefix in it: batch
            invariant
                relation.valid(),
                forall|i: int| 0 <= i < all.len() ==> relation.admits(#[trigger] all[i]),
                it.seq() == all,
                pairs(out@) == all.take(it.index() as int).filter_map(proposing(relation)),
                forall|i: int| 0 <= i < out@.len() ==> PE::ordered((#[trigger] out@[i]).1@),
        {
            let ghost at = it.index() as int;
            let ghost before = out@;
            proof {
                all.lemma_filter_map_take_succ(proposing(relation), at);
                assert(prefix == all[at]);
            }
            let candidates = relation.propose(&prefix);
            if candidates.len() > 0 {
                out.push((prefix, candidates));
                proof {
                    assert(pairs(out@) =~= pairs(before).push((prefix, candidates@)));
                }
            }
            proof {
                assert(pairs(out@) =~= all.take(at + 1).filter_map(proposing(relation)));
            }
        }
        proof {
            assert(all.take(all.len() as int) =~= all);
        }
        out
    }

    fn intersect(&self, batch: Vec<(PE::Prefix, Vec<PE::Extension>)>) -> (out: Vec<
        (PE::Prefix, Vec<PE::Extension>),
    >) {
        let relation: &PE = &**self;
        let ghost all = batch@;
        let mut out: Vec<(PE::Prefix, Vec<PE::Extension>)> = Vec::new();
        proof {
            assert(pairs(out@) =~= pairs(all).take(0).filter_map(filtering(relation)));
        }
        for record in it: batch
            invariant
                relation.valid(),
                forall|i: int|
                    0 <= i < all.len() ==> relation.admits((#[trigger] all[i]).0) && PE::ordered(
                        all[i].1@,
                    ),
                it.seq() == all,
                pairs(out@) == pairs(all).take(it.index() as int).filter_map(filtering(relation)),
                forall|i: int| 0 <= i < out@.len() ==> PE::ordered((#[trigger] out@[i]).1@),
        {
            let ghost at = it.index() as int;
            let ghost before = out@;
            proof {
                pairs(all).lemma_filter_map_take_succ(filtering(relation), at);
                assert(record == all[at]);
            }
            let (prefix, mut candidates) = record;
            relation.intersect(&prefix, &mut candidates);
            if candidates.len() > 0 {
                out.push((prefix, candidates));
                proof {
                    assert(pairs(out@) =~= pairs(before).push((prefix, candidates@)));
                }
            }
            proof {
                assert(pairs(out@) =~= pairs(all).take(at + 1).filter_map(filtering(relation)));
            }
        }
        proof {
            assert(pairs(all).take(all.len() as int) =~= pairs(all));
        }
        out
    }
}

/// One layer of the join on a collection of prefixes.
pub trait GenericJoinExt<P>: Sized {
    /// The prefixes of the collection, in their order.
    spec fn prefixes(&self) -> Seq<P>;

    /// Extends the prefixes by one attribute: every prefix for which no
    /// relation reports zero goes to the first relation with the smallest
    /// count, which proposes candidates that all the others filter in their
    /// order.  The result holds, owner by owner, the prefixes that keep a
    /// candidate, each with its candidates.
    fn extend<S>(self, extenders: &Vec<S>) -> (out: Vec<
        (P, Vec<<S::Relation as PrefixExtender>::Extension>),
    >) where S: StreamPrefixExtender, S::Relation: PrefixExtender<Prefix = P>
        requires
            extendable(relations(extenders@), self.prefixes()),
        ensures
            pairs(out@) == joined(relations(extenders@), self.prefixes()),
            forall|i: int|
                0 <= i < out@.len() ==> <S::Relation as PrefixExtender>::ordered(
                    (#[trigger] out@[i]).1@,
                ),
    ;
}

impl<P> GenericJoinExt<P> for Vec<P> {
    open spec fn prefixes(&self) -> Seq<P> {
        self@
    }

    fn extend<S>(self, extenders: &Vec<S>) -> (out: Vec<
        (P, Vec<<S::Relation as PrefixExtender>::Extension>),
    >) where S: StreamPrefixExtender, S::Relation: PrefixExtender<Prefix = P> {
        let n = extenders.len();
        let ghost rels = relations(extenders@);
        let ghost prefixes = self@;
        let mut results: Vec<(P, Vec<<S::Relation as PrefixExtender>::Extension>)> = Vec::new();
        proof {
            assert(pairs(results@) =~= gathered(rels, prefixes, 0));
        }
        if n == 0 {
            return results;
        }
        let mut counts: Vec<(P, u64, u64)> = Vec::new();
        proof {
            assert(counts@ =~= prefixes.take(0).map_values(seeded()));
        }
        for prefix in it: self
            invariant
                it.seq() == prefixes,
                counts@ == prefixes.take(it.index() as int).map_values(seeded()),
        {
            let ghost at = it.index() as int;
            proof {
                assert(prefix == prefixes[at]);
            }
            counts.push((prefix, u64::MAX, 0));
            proof {
                assert(counts@ =~= prefixes.take(at + 1).map_values(seeded()));
            }
        }
        proof {
            assert(prefixes.take(prefixes.len() as int) =~= prefixes);
            crate::seqs::lemma_map_as_filter_map(prefixes, seeded(), tallies(rels, 0));
        }
        let mut k: usize = 0;
        while k < n
            invariant
                n == extenders@.len(),
                rels == relations(extenders@),
                extendable(rels, prefixes),
                k <= n,
                counts@ == prefixes.filter_map(tallies(rels, k as int)),
            decreases n - k,
        {
            proof {
                assert(rels[k as int] == extenders@[k as int].relation());
                lemma_tallied(rels, prefixes, k as int);
                lemma_count_stage(rels, prefixes, k as int);
            }
            counts = extenders[k].count(counts, k as u64);
            k = k + 1;
        }
        proof {
            lemma_tallied(rels, prefixes, n as int);
        }
        let parts = partition(counts, n);
        let ghost shares = parts@;
        proof {
            assert forall|i: int| 0 <= i < n implies (#[trigger] shares[i])@ == prefixes.filter(
                owned_by(rels, i),
            ) by {
                lemma_owned(rels, prefixes, i);
            }
        }
        let mut index: usize = 0;
        for part in it: parts
            invariant
                n == extenders@.len(),
                rels == relations(extenders@),
                extendable(rels, prefixes),
                it.seq() == shares,
                shares.len() == n,
                index == it.index(),
                forall|i: int|
                    0 <= i < n ==> (#[trigger] shares[i])@ == prefixes.filter(owned_by(rels, i)),
                pairs(results@) == gathered(rels, prefixes, index as int),
                forall|i: int|
                    0 <= i < results@.len() ==> <S::Relation as PrefixExtender>::ordered(
                        (#[trigger] results@[i]).1@,
                    ),
        {
            let ghost owned = part@;
            proof {
                assert(part == shares[index as int]);
                assert(rels[index as int] == extenders@[index as int].relation());
                lemma_share_admitted(rels, prefixes, index as int, 0);
                lemma_propose_stage(rels, owned, index as int);
            }
            let mut extensions = extenders[index].propose(part);
            let mut other: usize = 0;
            while other < n
                invariant
                    n == extenders@.len(),
                    rels == relations(extenders@),
                    extendable(rels, prefixes),
                    index < n,
                    other <= n,
                    owned == prefixes.filter(owned_by(rels, index as int)),
                    pairs(extensions@) == owned.filter_map(
                        surviving(rels, index as int, other as int),
                    ),
                    forall|i: int|
                        0 <= i < extensions@.len() ==> <S::Relation as PrefixExtender>::ordered(
                            (#[trigger] extensions@[i]).1@,
                        ),
                decreases n - other,
            {
                proof {
                    assert(rels[other as int] == extenders@[other as int].relation());
                    lemma_share_admitted(rels, prefixes, index as int, other as int);
                    lemma_intersect_stage(rels, owned, index as int, other as int);
                }
                if other != index {
                    proof {
                        assert forall|i: int| 0 <= i < extensions@.len() implies rels[other
                            as int].admits((#[trigger] extensions@[i]).0) by {
                            assert(pairs(extensions@)[i].0 == extensions@[i].0);
                        }
                    }
                    extensions = extenders[other].intersect(extensions);
                }
                other = other + 1;
            }
            let ghost before = results@;
            let ghost added = extensions@;
            results.append(&mut extensions);
            proof {
                assert(results@ =~= before + added);
                assert(pairs(before + added) =~= pairs(before) + pairs(added));
            }
            index = index + 1;
        }
        results
    }
}

/// A pass over a collection of prefixes that leaves it as it is.
pub trait TestExt<P>: Sized {
    /// Returns the collection unchanged, whatever the extenders.
    fn test<S>(self, extenders: &Vec<S>) -> (out: Self) where
        S: StreamPrefixExtender,
        S::Relation: PrefixExtender<Prefix = P>,

        ensures
            out == self,
    ;
}

impl<P> TestExt<P> for Vec<P> {
    fn test<S>(self, extenders: &Vec<S>) -> (out: Self) where
        S: StreamPrefixExtender,
        S::Relation: PrefixExtender<Prefix = P>,
     {
        self
    }
}

/// The count of one more relation turns the records that `upto` relations
/// made into those that `upto + 1` make.
proof fn lemma_count_stage<R: PrefixExtender>(
    relations: Seq<R>,
    prefixes: Seq<R::Prefix>,
    upto: int,
)
    requires
        0 <= upto < relations.len(),
    ensures
        prefixes.filter_map(tallies(relations, upto)).filter_map(
            tallying(&relations[upto], upto as u64),
        ) == prefixes.filter_map(tallies(relations, upto + 1)),
{
    assert forall|i: int| 0 <= i < prefixes.len() implies tallies(relations, upto + 1)(
        #[trigger] prefixes[i],
    ) == match tallies(relations, upto)(prefixes[i]) {
        Some(record) => tallying(&relations[upto], upto as u64)(record),
        None => None,
    } by {
        lemma_tally_next(relations, prefixes[i], upto);
    }
    crate::seqs::lemma_filter_map_twice(
        prefixes,
        tallies(relations, upto),
        tallying(&relations[upto], upto as u64),
        tallies(relations, upto + 1),
    );
}

/// What the owner proposes is what is left before any relation has filtered.
proof fn lemma_propose_stage<R: PrefixExtender>(relations: Seq<R>, owned: Seq<R::Prefix>, own: int)
    requires
        0 <= own < relations.len(),
    ensures
        owned.filter_map(proposing(&relations[own])) == owned.filter_map(
            surviving(relations, own, 0),
        ),
{
    assert forall|i: int| 0 <= i < owned.len() implies proposing(&relations[own])(
        #[trigger] owned[i],
    ) == surviving(relations, own, 0)(owned[i]) by {}
    crate::seqs::lemma_filter_map_same(
        owned,
        proposing(&relations[own]),
        surviving(relations, own, 0),
    );
}

/// The filter of one more relation turns what `upto` relations left into
/// what `upto + 1` leave; the owner's turn changes nothing.
proof fn lemma_intersect_stage<R: PrefixExtender>(
    relations: Seq<R>,
    owned: Seq<R::Prefix>,
    own: int,
    upto: int,
)
    requires
        0 <= upto < relations.len(),
    ensures
        upto != own ==> owned.filter_map(surviving(relations, own, upto)).filter_map(
            filtering(&relations[upto]),
        ) == owned.filter_map(surviving(relations, own, upto + 1)),
        upto == own ==> owned.filter_map(surviving(relations, own, upto)) == owned.filter_map(
            surviving(relations, own, upto + 1),
        ),
{
    assert forall|i: int| 0 <= i < owned.len() implies surviving(relations, own, upto + 1)(
        #[trigger] owned[i],
    ) == match surviving(relations, own, upto)(owned[i]) {
        Some(record) => if upto == own {
            Some(record)
        } else {
            filtering(&relations[upto])(record)
        },
        None => None,
    } by {
        lemma_surviving_next(relations, owned[i], own, upto);
    }
    if upto != own {
        crate::seqs::lemma_filter_map_twice(
            owned,
            surviving(relations, own, upto),
            filtering(&relations[upto]),
            surviving(relations, own, upto + 1),
        );
    } else {
        crate::seqs::lemma_filter_map_same(
            owned,
            surviving(relations, own, upto),
            surviving(relations, own, upto + 1),
        );
    }
}

/// One more count turns the record that `upto` relations made into the one
/// that `upto + 1` make.
proof fn lemma_tally_next<R: PrefixExtender>(relations: Seq<R>, prefix: R::Prefix, upto: int)
    requires
        0 <= upto < relations.len(),
    ensures
        tally(relations, prefix, upto + 1) == match tally(relations, prefix, upto) {
            Some(record) => tally_step(&relations[upto], upto as u64, record),
            None => None,
        },
{
    if upto >= 1 {
        lemma_owner(relations, prefix, upto);
    }
    if all_positive(relations, prefix, upto) {
        if relations[upto].estimate(prefix) > 0 {
            assert(all_positive(relations, prefix, upto + 1));
        } else {
            assert(!all_positive(relations, prefix, upto + 1));
        }
    } else {
        let k = choose|k: int| 0 <= k < upto && !((#[trigger] relations[k]).estimate(prefix) > 0);
        assert(!(relations[k].estimate(prefix) > 0));
        assert(!all_positive(relations, prefix, upto + 1));
    }
}

/// One more filter turns the candidates that `upto` relations left into
/// those that `upto + 1` leave.
proof fn lemma_surviving_next<R: PrefixExtender>(
    relations: Seq<R>,
    prefix: R::Prefix,
    own: int,
    upto: int,
)
    requires
        0 <= upto < relations.len(),
    ensures
        surviving(relations, own, upto + 1)(prefix) == match surviving(relations, own, upto)(
            prefix,
        ) {
            Some(record) => if upto == own {
                Some(record)
            } else {
                filtering(&relations[upto])(record)
            },
            None => None,
        },
{
    let before = survivors(relations, prefix, own, upto);
    if upto != own {
        before.lemma_filter_len(crate::ordered::member_of(relations[upto].proposals(prefix)));
    }
}

/// The records that `upto` relations have counted hold prefixes that every
/// relation admits, and name a relation among those that counted.
proof fn lemma_tallied<R: PrefixExtender>(
    relations: Seq<R>,
    prefixes: Seq<R::Prefix>,
    upto: int,
)
    requires
        extendable(relations, prefixes),
        0 <= upto <= relations.len(),
    ensures
        forall|k: int, j: int|
            0 <= k < relations.len() && 0 <= j < prefixes.filter_map(tallies(relations, upto)).len()
                ==> (#[trigger] relations[k]).admits(
                (#[trigger] prefixes.filter_map(tallies(relations, upto))[j]).0,
            ),
        forall|j: int|
            0 <= j < prefixes.filter_map(tallies(relations, upto)).len() && upto >= 1 ==> (
            #[trigger] prefixes.filter_map(tallies(relations, upto))[j]).2 < upto,
{
    let counted = prefixes.filter_map(tallies(relations, upto));
    assert forall|j: int| 0 <= j < counted.len() implies (exists|i: int|
        0 <= i < prefixes.len() && (#[trigger] counted[j]).0 == prefixes[i]) && (upto >= 1
        ==> counted[j].2 < upto) by {
        crate::seqs::lemma_filter_map_source(prefixes, tallies(relations, upto), j);
        let i = choose|i: int|
            0 <= i < prefixes.len() && tallies(relations, upto)(#[trigger] prefixes[i]) == Some(
                counted[j],
            );
        assert(counted[j].0 == prefixes[i]);
        if upto >= 1 {
            lemma_owner(relations, prefixes[i], upto);
        }
    }
    assert forall|k: int, j: int| 0 <= k < relations.len() && 0 <= j < counted.len() implies (
    #[trigger] relations[k]).admits((#[trigger] counted[j]).0) by {
        let i = choose|i: int| 0 <= i < prefixes.len() && counted[j].0 == prefixes[i];
        assert(relations[k].admits(prefixes[i]));
    }
}

/// The prefixes that a relation owns, found among the counted records.
proof fn lemma_owned<R: PrefixExtender>(relations: Seq<R>, prefixes: Seq<R::Prefix>, own: int)
    requires
        0 <= own < relations.len() <= u64::MAX,
    ensures
        prefixes.filter_map(tallies(relations, relations.len() as int)).filter(
            held_by(own as u64),
        ).map_values(prefix_of()) == prefixes.filter(owned_by(relations, own)),
{
    let n = relations.len() as int;
    assert forall|i: int| 0 <= i < prefixes.len() implies match tallies(relations, n)(
        #[trigger] prefixes[i],
    ) {
        Some(record) => held_by(own as u64)(record) == owned_by(relations, own)(prefixes[i]) && (
        held_by(own as u64)(record) ==> prefix_of()(record) == prefixes[i]),
        None => !owned_by(relations, own)(prefixes[i]),
    } by {
        lemma_owner(relations, prefixes[i], n);
    }
    crate::seqs::lemma_filter_map_select(
        prefixes,
        tallies(relations, n),
        held_by(own as u64),
        prefix_of(),
        owned_by(relations, own),
    );
}

/// The candidates that `upto` relations have left for the prefixes of one
/// owner belong to prefixes that every relation admits.
proof fn lemma_share_admitted<R: PrefixExtender>(
    relations: Seq<R>,
    prefixes: Seq<R::Prefix>,
    own: int,
    upto: int,
)
    requires
        extendable(relations, prefixes),
    ensures
        forall|k: int, j: int|
            0 <= k < relations.len() && 0 <= j < prefixes.filter(owned_by(relations, own)).len()
                ==> (#[trigger] relations[k]).admits(
                #[trigger] prefixes.filter(owned_by(relations, own))[j],
            ),
        forall|k: int, j: int|
            0 <= k < relations.len() && 0 <= j < prefixes.filter(
                owned_by(relations, own),
            ).filter_map(surviving(relations, own, upto)).len() ==> (#[trigger] relations[k]).admits(
                (#[trigger] prefixes.filter(owned_by(relations, own)).filter_map(
                    surviving(relations, own, upto),
                )[j]).0,
            ),
{
    let part = prefixes.filter(owned_by(relations, own));
    let left = part.filter_map(surviving(relations, own, upto));
    assert forall|k: int, j: int| 0 <= k < relations.len() && 0 <= j < part.len() implies (
    #[trigger] relations[k]).admits(#[trigger] part[j]) by {
        crate::seqs::lemma_filter_source(prefixes, owned_by(relations, own), j);
        let i = choose|i: int| 0 <= i < prefixes.len() && #[trigger] prefixes[i] == part[j];
        assert(relations[k].admits(prefixes[i]));
    }
    assert forall|k: int, j: int| 0 <= k < relations.len() && 0 <= j < left.len() implies (
    #[trigger] relations[k]).admits((#[trigger] left[j]).0) by {
        crate::seqs::lemma_filter_map_source(part, surviving(relations, own, upto), j);
        let i = choose|i: int|
            0 <= i < part.len() && surviving(relations, own, upto)(#[trigger] part[i]) == Some(
                left[j],
            );
        assert(left[j].0 == part[i]);
        assert(relations[k].admits(part[i]));
    }
}

/// Divides counted records among `n` owners, each record's prefix going to
/// the owner that the record names; the order within a part is that of the
/// records.
fn partition<P>(counts: Vec<(P, u64, u64)>, n: usize) -> (parts: Vec<Vec<P>>)
    requires
        forall|i: int| 0 <= i < counts@.len() ==> (#[trigger] counts@[i]).2 < n,
    ensures
        parts@.len() == n,
        forall|i: int|
            0 <= i < n ==> (#[trigger] parts@[i])@ == counts@.filter(held_by(i as u64)).map_values(
                prefix_of(),
            ),
{
    let ghost all = counts@;
    let mut parts: Vec<Vec<P>> = Vec::new();
    let mut k: usize = 0;
    while k < n
        invariant
            k <= n,
            parts@.len() == k,
            forall|i: int| 0 <= i < k ==> (#[trigger] parts@[i])@ == Seq::<P>::empty(),
        decreases n - k,
    {
        parts.push(Vec::new());
        k = k + 1;
    }
    proof {
        assert forall|i: int| 0 <= i < n implies (#[trigger] parts@[i])@ == all.take(0).filter(
            held_by(i as u64),
        ).map_values(prefix_of()) by {
            all.take(0).lemma_filter_len(held_by::<P>(i as u64));
            assert(parts@[i]@ =~= all.take(0).filter(held_by(i as u64)).map_values(prefix_of()));
        }
    }
    for record in it: counts
        invariant
            parts@.len() == n,
            it.seq() == all,
            forall|i: int| 0 <= i < all.len() ==> (#[trigger] all[i]).2 < n,
            forall|i: int|
                0 <= i < n ==> (#[trigger] parts@[i])@ == all.take(it.index() as int).filter(
                    held_by(i as u64),
                ).map_values(prefix_of()),
    {
        let ghost at = it.index() as int;
        let ghost before = parts@;
        proof {
            assert(record == all[at]);
        }
        let (prefix, _, owner) = record;
        parts[owner as usize].push(prefix);
        proof {
            assert forall|i: int| 0 <= i < n implies (#[trigger] parts@[i])@ == all.take(
                at + 1,
            ).filter(held_by(i as u64)).map_values(prefix_of()) by {
                let kept = all.take(at).filter(held_by(i as u64));
                assert(all.take(at + 1) =~= all.take(at).push(all[at]));
                all.take(at).lemma_filter_push(all[at], held_by(i as u64));
                if i == owner {
                    assert(parts@[i]@ =~= before[i]@.push(prefix));
                    assert(kept.push(all[at]).map_values(prefix_of()) =~= kept.map_values(
                        prefix_of(),
                    ).push(prefix));
                } else {
                    assert(parts@[i] == before[i]);
                }
            }
        }
    }
    proof {
        assert(all.take(all.len() as int) =~= all);
    }
    parts
}

} // verus!
