//! The step from one layer to the next: every prefix that kept candidates
//! becomes one longer prefix per candidate.

use vstd::prelude::*;
use vstd::slice::slice_to_vec;

verus! {

/// The contents of the rows of a batch.
pub open spec fn rows_view(rows: Seq<Vec<u32>>) -> Seq<Seq<u32>> {
    rows.map_values(|row: Vec<u32>| row@)
}

/// The contents of the entries of a layer's result.
pub open spec fn entries_view(batch: Seq<(Vec<u32>, Vec<u32>)>) -> Seq<(Seq<u32>, Seq<u32>)> {
    batch.map_values(|entry: (Vec<u32>, Vec<u32>)| (entry.0@, entry.1@))
}

/// The rows that one prefix yields: itself with each candidate appended, in
/// the order of the candidates.
pub open spec fn rows_of(prefix: Seq<u32>, candidates: Seq<u32>) -> Seq<Seq<u32>> {
    Seq::new(candidates.len(), |i: int| prefix.push(candidates[i]))
}

/// The rows that the entries yield, entry after entry.
pub open spec fn expanded(entries: Seq<(Seq<u32>, Seq<u32>)>) -> Seq<Seq<u32>>
    decreases entries.len(),
{
    if entries.len() == 0 {
        Seq::empty()
    } else {
        expanded(entries.drop_last()) + rows_of(entries.last().0, entries.last().1)
    }
}

/// The number of candidates in all the entries.
pub open spec fn candidate_total(entries: Seq<(Seq<u32>, Seq<u32>)>) -> nat
    decreases entries.len(),
{
    if entries.len() == 0 {
        0
    } else {
        candidate_total(entries.drop_last()) + entries.last().1.len()
    }
}

/// There is one row per candidate.
pub proof fn lemma_expanded_len(entries: Seq<(Seq<u32>, Seq<u32>)>)
    ensures
        expanded(entries).len() == candidate_total(entries),
    decreases entries.len(),
{
    if entries.len() > 0 {
        lemma_expanded_len(entries.drop_last());
    }
}

/// Every row is the prefix of an entry with one of its candidates appended:
/// an entry without candidates yields no row, and no row comes from
/// elsewhere.
pub proof fn lemma_expanded_row(entries: Seq<(Seq<u32>, Seq<u32>)>, r: int)
    requires
        0 <= r < expanded(entries).len(),
    ensures
        exists|j: int, i: int|
            0 <= j < entries.len() && 0 <= i < entries[j].1.len() && expanded(entries)[r]
                == #[trigger] entries[j].0.push(entries[j].1[i]),
    decreases entries.len(),
{
    let front = entries.drop_last();
    if r < expanded(front).len() {
        lemma_expanded_row(front, r);
        let (j, i) = choose|j: int, i: int|
            0 <= j < front.len() && 0 <= i < front[j].1.len() && expanded(front)[r]
                == #[trigger] front[j].0.push(front[j].1[i]);
        assert(front[j] == entries[j]);
        assert(expanded(entries)[r] == entries[j].0.push(entries[j].1[i]));
    } else {
        let j = entries.len() - 1;
        let i = r - expanded(front).len();
        assert(expanded(entries)[r] == entries[j].0.push(entries[j].1[i]));
    }
}

/// Turns the entries of a layer's result into the prefixes of the next
/// layer: each prefix once per candidate, with the candidate appended.
pub fn expand(batch: &Vec<(Vec<u32>, Vec<u32>)>) -> (rows: Vec<Vec<u32>>)
    ensures
        rows_view(rows@) == expanded(entries_view(batch@)),
{
    let ghost entries = entries_view(batch@);
    let mut rows: Vec<Vec<u32>> = Vec::new();
    let mut j: usize = 0;
    proof {
        assert(rows_view(rows@) =~= expanded(entries.take(0)));
    }
    while j < batch.len()
        invariant
            entries == entries_view(batch@),
            j <= batch@.len(),
            rows_view(rows@) == expanded(entries.take(j as int)),
        decreases batch@.len() - j,
    {
        let entry = &batch[j];
        let ghost done = expanded(entries.take(j as int));
        let ghost prefix = entry.0@;
        let ghost candidates = entry.1@;
        let mut i: usize = 0;
        proof {
            assert(entries[j as int] == (prefix, candidates));
            assert(rows_view(rows@) =~= done + rows_of(prefix, candidates).take(0));
        }
        while i < entry.1.len()
            invariant
                entry.0@ == prefix,
                entry.1@ == candidates,
                i <= candidates.len(),
                rows_view(rows@) == done + rows_of(prefix, candidates).take(i as int),
            decreases candidates.len() - i,
        {
            let ghost before = rows@;
            let mut row = slice_to_vec(entry.0.as_slice());
            row.push(entry.1[i]);
            rows.push(row);
            proof {
                assert(rows_view(rows@) =~= rows_view(before).push(row@));
                assert(rows_of(prefix, candidates).take(i + 1) =~= rows_of(prefix, candidates).take(
                    i as int,
                ).push(prefix.push(candidates[i as int])));
            }
            i = i + 1;
        }
        proof {
            assert(rows_of(prefix, candidates).take(i as int) =~= rows_of(prefix, candidates));
            assert(entries.take(j + 1).drop_last() =~= entries.take(j as int));
            assert(entries.take(j + 1).last() == entries[j as int]);
        }
        j = j + 1;
    }
    proof {
        assert(entries.take(j as int) =~= entries);
    }
    rows
}

} // verus!
