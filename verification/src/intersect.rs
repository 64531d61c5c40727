//! The intersection engine: what two ascending sequences share, counted or
//! kept, by a two-pointer merge or by galloping through the longer one.

use vstd::prelude::*;
use crate::ordered::{
    ascending, common, first_at_least, lemma_common_ascending, lemma_common_rest,
    lemma_common_step, lemma_first_at_least, lemma_suffix_from_finds, lemma_suffix_from_skip,
};
use crate::search::gallop;

verus! {

/// How many times longer the second sequence must be than the first before
/// galloping replaces the merge, unless the caller says otherwise.
pub const GALLOP_CROSSOVER: usize = 4;

/// Counts the common elements with a two-pointer scan: the smaller head
/// advances, equal heads advance together and count once.
pub fn merge_count(a: &[u32], b: &[u32]) -> (count: u64)
    requires
        ascending(a@),
        ascending(b@),
    ensures
        count == common(a@, b@).len(),
{
    let mut count: u64 = 0;
    let mut i: usize = 0;
    let mut j: usize = 0;
    proof {
        lemma_common_rest(a@.take(0), b@, 0);
    }
    while i < a.len() && j < b.len()
        invariant
            ascending(a@),
            ascending(b@),
            i <= a@.len(),
            j <= b@.len(),
            count == common(a@.take(i as int), b@).len(),
            count <= i,
            i < a@.len() ==> forall|k: int| 0 <= k < j ==> b@[k] < a@[i as int],
        decreases a@.len() - i + b@.len() - j,
    {
        let x = a[i];
        let y = b[j];
        if x < y {
            proof {
                assert(!b@.contains(x)) by {
                    if b@.contains(x) {
                        let k = choose|k: int| 0 <= k < b@.len() && b@[k] == x;
                        if k > j {
                            assert(b@[j as int] < b@[k]);
                        }
                    }
                }
                lemma_common_step(a@, b@, i as int);
            }
            i = i + 1;
        } else if y < x {
            j = j + 1;
        } else {
            proof {
                assert(b@[j as int] == x);
                lemma_common_step(a@, b@, i as int);
            }
            count = count + 1;
            i = i + 1;
            j = j + 1;
        }
    }
    proof {
        assert forall|k: int| i <= k < a@.len() implies !b@.contains(a@[k]) by {
            if b@.contains(a@[k]) {
                let m = choose|m: int| 0 <= m < b@.len() && b@[m] == a@[k];
                assert(b@[m] < a@[i as int]);
                if i < k {
                    assert(a@[i as int] < a@[k]);
                }
            }
        }
        lemma_common_rest(a@, b@, i as int);
    }
    count
}

/// Counts the common elements by searching `b` for each element of `a` in
/// turn; every search resumes where the one before it stopped.
pub fn gallop_count(a: &[u32], b: &[u32]) -> (count: u64)
    requires
        ascending(a@),
        ascending(b@),
    ensures
        count == common(a@, b@).len(),
{
    let mut count: u64 = 0;
    let mut rest = b;
    let mut i: usize = 0;
    let ghost mut lo: int = 0;
    proof {
        lemma_common_rest(a@.take(0), b@, 0);
        assert(rest@ =~= b@.skip(0));
    }
    while i < a.len()
        invariant
            ascending(a@),
            ascending(b@),
            i <= a@.len(),
            0 <= lo <= b@.len(),
            rest@ == b@.skip(lo),
            count == common(a@.take(i as int), b@).len(),
            count <= i,
            i < a@.len() ==> forall|k: int| 0 <= k < lo ==> b@[k] < a@[i as int],
        decreases a@.len() - i,
    {
        let x = a[i];
        proof {
            lemma_suffix_from_skip(b@, x, lo);
            lemma_suffix_from_finds(b@, x);
            lemma_first_at_least(b@, x);
        }
        rest = gallop(rest, &x);
        proof {
            lemma_common_step(a@, b@, i as int);
            lo = first_at_least(b@, x);
        }
        if rest.len() > 0 && rest[0] == x {
            count = count + 1;
        }
        i = i + 1;
    }
    proof {
        assert(a@.take(i as int) =~= a@);
    }
    count
}

/// Counts the common elements of two ascending sequences, galloping when the
/// second is more than `crossover` times as long as the first and merging
/// otherwise; a `crossover` of zero always merges.  The count does not
/// depend on `crossover`.
pub fn intersect_with(a: &[u32], b: &[u32], crossover: usize) -> (count: u64)
    requires
        ascending(a@),
        ascending(b@),
    ensures
        count == common(a@, b@).len(),
{
    if crossover > 0 && a.len() < b.len() / crossover {
        gallop_count(a, b)
    } else {
        merge_count(a, b)
    }
}

/// Counts the common elements of two ascending sequences, galloping when the
/// first is shorter than a quarter of the second and merging otherwise.
pub fn intersect(a: &[u32], b: &[u32]) -> (count: u64)
    requires
        ascending(a@),
        ascending(b@),
    ensures
        count == common(a@, b@).len(),
{
    intersect_with(a, b, GALLOP_CROSSOVER)
}

/// Keeps in `candidates` its elements that occur in `other`, found by a
/// two-pointer scan that ends with the shorter side; the survivors keep
/// their order.
pub fn merge_retain(candidates: &mut Vec<u32>, other: &[u32])
    requires
        ascending(old(candidates)@),
        ascending(other@),
    ensures
        final(candidates)@ == common(old(candidates)@, other@),
        ascending(final(candidates)@),
{
    let ghost before = candidates@;
    let n = candidates.len();
    let mut kept: usize = 0;
    let mut i: usize = 0;
    let mut j: usize = 0;
    proof {
        lemma_common_rest(before.take(0), other@, 0);
        assert(candidates@.take(0) =~= common(before.take(0), other@));
    }
    while i < n && j < other.len()
        invariant
            ascending(before),
            ascending(other@),
            n == before.len(),
            candidates@.len() == n,
            kept <= i <= n,
            j <= other@.len(),
            candidates@.take(kept as int) == common(before.take(i as int), other@),
            candidates@.skip(i as int) == before.skip(i as int),
            i < n ==> forall|k: int| 0 <= k < j ==> other@[k] < before[i as int],
        decreases n - i + other@.len() - j,
    {
        let x = candidates[i];
        let y = other[j];
        proof {
            assert(candidates@.skip(i as int)[0] == before.skip(i as int)[0]);
            assert(before.skip(i + 1) =~= before.skip(i as int).skip(1));
            if i + 1 < n {
                assert(before[i as int] < before[i + 1]);
            }
        }
        let ghost mid = candidates@;
        if x < y {
            proof {
                if other@.contains(x) {
                    let k = choose|k: int| 0 <= k < other@.len() && other@[k] == x;
                    if k > j {
                        assert(other@[j as int] < other@[k]);
                    }
                }
                lemma_common_step(before, other@, i as int);
                assert(candidates@.skip(i + 1) =~= mid.skip(i as int).skip(1));
            }
            i = i + 1;
        } else if y < x {
            j = j + 1;
        } else {
            proof {
                assert(other@[j as int] == x);
                lemma_common_step(before, other@, i as int);
            }
            candidates[kept] = x;
            proof {
                assert(candidates@.take(kept + 1) =~= mid.take(kept as int).push(x));
                assert(candidates@.skip(i + 1) =~= mid.skip(i as int).skip(1));
            }
            kept = kept + 1;
            i = i + 1;
            j = j + 1;
        }
    }
    candidates.truncate(kept);
    proof {
        assert forall|k: int| i <= k < n implies !other@.contains(before[k]) by {
            if other@.contains(before[k]) {
                let m = choose|m: int| 0 <= m < other@.len() && other@[m] == before[k];
                assert(other@[m] < before[i as int]);
                if i < k {
                    assert(before[i as int] < before[k]);
                }
            }
        }
        lemma_common_rest(before, other@, i as int);
        assert(candidates@ =~= common(before, other@));
        lemma_common_ascending(before, other@);
    }
}

/// Keeps in `candidates` its elements that occur in `other`, each found by a
/// galloping search that resumes where the one before it stopped; the
/// survivors keep their order.
pub fn gallop_retain(candidates: &mut Vec<u32>, other: &[u32])
    requires
        ascending(old(candidates)@),
        ascending(other@),
    ensures
        final(candidates)@ == common(old(candidates)@, other@),
        ascending(final(candidates)@),
{
    let ghost before = candidates@;
    let n = candidates.len();
    let mut kept: usize = 0;
    let mut i: usize = 0;
    let mut rest = other;
    let ghost mut lo: int = 0;
    proof {
        lemma_common_rest(before.take(0), other@, 0);
        assert(candidates@.take(0) =~= common(before.take(0), other@));
        assert(rest@ =~= other@.skip(0));
    }
    while i < n
        invariant
            ascending(before),
            ascending(other@),
            n == before.len(),
            candidates@.len() == n,
            kept <= i <= n,
            0 <= lo <= other@.len(),
            rest@ == other@.skip(lo),
            candidates@.take(kept as int) == common(before.take(i as int), other@),
            candidates@.skip(i as int) == before.skip(i as int),
            i < n ==> forall|k: int| 0 <= k < lo ==> other@[k] < before[i as int],
        decreases n - i,
    {
        let x = candidates[i];
        proof {
            assert(candidates@.skip(i as int)[0] == before.skip(i as int)[0]);
            lemma_suffix_from_skip(other@, x, lo);
            lemma_suffix_from_finds(other@, x);
            lemma_first_at_least(other@, x);
        }
        rest = gallop(rest, &x);
        let found = rest.len() > 0 && rest[0] == x;
        proof {
            lo = first_at_least(other@, x);
            lemma_common_step(before, other@, i as int);
        }
        let ghost mid = candidates@;
        if found {
            candidates[kept] = x;
            proof {
                assert(candidates@.take(kept + 1) =~= mid.take(kept as int).push(x));
                assert(candidates@.skip(i + 1) =~= mid.skip(i as int).skip(1));
            }
            kept = kept + 1;
        } else {
            proof {
                assert(candidates@.skip(i + 1) =~= mid.skip(i as int).skip(1));
            }
        }
        proof {
            assert(before.skip(i + 1) =~= before.skip(i as int).skip(1));
            if i + 1 < n {
                assert(before[i as int] < before[i + 1]);
            }
        }
        i = i + 1;
    }
    candidates.truncate(kept);
    proof {
        assert(before.take(n as int) =~= before);
        assert(candidates@ =~= common(before, other@));
        lemma_common_ascending(before, other@);
    }
}

/// Keeps in `candidates` its elements that occur in `other`, galloping when
/// `other` is more than `crossover` times as long as the candidates and
/// merging otherwise; a `crossover` of zero always merges.  What is kept
/// does not depend on `crossover`.
pub fn retain_common_with(candidates: &mut Vec<u32>, other: &[u32], crossover: usize)
    requires
        ascending(old(candidates)@),
        ascending(other@),
    ensures
        final(candidates)@ == common(old(candidates)@, other@),
        ascending(final(candidates)@),
{
    if crossover > 0 && candidates.len() < other.len() / crossover {
        gallop_retain(candidates, other);
    } else {
        merge_retain(candidates, other);
    }
}

/// Keeps in `candidates` its elements that occur in `other`, galloping when
/// the candidates are fewer than a quarter of `other` and merging otherwise.
pub fn retain_common(candidates: &mut Vec<u32>, other: &[u32])
    requires
        ascending(old(candidates)@),
        ascending(other@),
    ensures
        final(candidates)@ == common(old(candidates)@, other@),
        ascending(final(candidates)@),
{
    retain_common_with(candidates, other, GALLOP_CROSSOVER);
}

} // verus!
