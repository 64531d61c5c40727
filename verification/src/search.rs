//! Galloping search: exponential doubling followed by binary refinement.

use vstd::prelude::*;
use vstd::arithmetic::power2::{lemma2_to64, lemma_pow2_unfold, pow2};
use crate::ordered::{
    ascending, first_at_least, is_first_at_least, lemma_first_at_least, suffix_from,
};

verus! {

/// Returns the suffix of `slice` that starts at its first element at least
/// `value`; the suffix is empty when every element is smaller.
///
/// The search leaps forward by steps of 1, 2, 4, ... while it lands on
/// smaller elements, then closes in by the same steps halved.
pub fn gallop<'a>(slice: &'a [u32], value: &u32) -> (rest: &'a [u32])
    requires
        ascending(slice@),
    ensures
        rest@ == suffix_from(slice@, *value),
{
    let mut cur = slice;
    proof {
        lemma_first_at_least(slice@, *value);
    }
    if cur.len() > 0 && cur[0] < *value {
        let ghost target = first_at_least(slice@, *value);
        let ghost mut lo: int = 0;
        let ghost mut e: nat = 0;
        let mut step: usize = 1;
        proof {
            lemma2_to64();
            assert(cur@ =~= slice@.skip(0));
        }
        while step < cur.len() && cur[step] < *value
            invariant
                ascending(slice@),
                is_first_at_least(slice@, *value, target),
                0 <= lo < slice@.len(),
                cur@ == slice@.skip(lo),
                slice@[lo] < *value,
                step == pow2(e),
                step >= 1,
            decreases cur@.len(),
        {
            let len = cur.len();
            cur = &cur[step..len];
            proof {
                assert(cur@ =~= slice@.skip(lo + step));
                lo = lo + step;
            }
            // a step that already reaches the end is not doubled: the
            // doubled step would reach it as well, and could not overflow
            if step < cur.len() {
                proof {
                    lemma_pow2_unfold(e + 1);
                    e = e + 1;
                }
                step = step * 2;
            }
        }
        proof {
            if e > 0 {
                lemma_pow2_unfold(e);
                e = (e - 1) as nat;
            }
        }
        step = step / 2;
        while step > 0
            invariant
                ascending(slice@),
                is_first_at_least(slice@, *value, target),
                0 <= lo < slice@.len(),
                cur@ == slice@.skip(lo),
                slice@[lo] < *value,
                step > 0 ==> step == pow2(e),
                target - lo <= if step > 0 { 2 * step } else { 1 },
            decreases step,
        {
            if step < cur.len() && cur[step] < *value {
                let len = cur.len();
                cur = &cur[step..len];
                proof {
                    assert(cur@ =~= slice@.skip(lo + step));
                    lo = lo + step;
                }
            }
            proof {
                if e > 0 {
                    lemma_pow2_unfold(e);
                    e = (e - 1) as nat;
                } else {
                    lemma2_to64();
                }
            }
            step = step / 2;
        }
        let len = cur.len();
        cur = &cur[1..len];
        proof {
            assert(cur@ =~= slice@.skip(lo + 1));
        }
    } else {
        proof {
            assert(cur@ =~= slice@.skip(0));
        }
    }
    cur
}

} // verus!
