use vstd::prelude::*;
use crate::utils::order::{less, lt, same, total_order, lemma_trichotomy, lemma_lt_transitive};

pub mod ghost_cell;
pub mod order;
pub mod tag;
pub mod trc;

verus! {

/// No element of `s` comes after a later one.
pub open spec fn sorted<T: Ord>(s: Seq<T>) -> bool {
    forall|i: int, j: int| 0 <= i <= j < s.len() ==> !lt(s[j], s[i])
}

/// Looks for `target` in a slice that is sorted from small to large. `Ok`
/// holds the first place at which `target` stands; `Err` holds the place at
/// which it would have to be put in.
pub fn binary_search<T: Ord>(slice: &[T], target: &T) -> (found: Result<usize, usize>)
    requires
        total_order::<T>(),
    ensures
        match found {
            Ok(at) => at < slice.len() && slice[at as int] == *target,
            Err(at) => at <= slice.len(),
        },
        sorted(slice@) ==> match found {
            Ok(at) => forall|i: int| 0 <= i < at ==> lt(slice[i], *target),
            Err(at) => (forall|i: int| 0 <= i < at ==> lt(slice[i], *target)) && (forall|i: int|
                at <= i < slice.len() ==> lt(*target, slice[i])),
        },
{
    let mut l: usize = 0;
    let mut r: usize = slice.len();
    while l < r
        invariant
            total_order::<T>(),
            0 <= l <= r <= slice.len(),
            sorted(slice@) ==> forall|i: int| 0 <= i < l ==> lt(slice[i], *target),
            sorted(slice@) ==> forall|i: int| r <= i < slice.len() ==> !lt(slice[i], *target),
        decreases r - l,
    {
        let m: usize = l + (r - l) / 2;
        if less(&slice[m], target) {
            proof {
                if sorted(slice@) {
                    assert forall|i: int| 0 <= i < m + 1 implies lt(slice[i], *target) by {
                        if i < m {
                            lemma_trichotomy(slice[i], *target);
                            lemma_trichotomy(slice[i], slice[m as int]);
                            if slice[i] != slice[m as int] {
                                lemma_lt_transitive(slice[i], slice[m as int], *target);
                            }
                        }
                    }
                }
            }
            l = m + 1;
        } else {
            proof {
                if sorted(slice@) {
                    assert forall|i: int| m <= i < slice.len() implies !lt(slice[i], *target) by {
                        if i > m && lt(slice[i], *target) {
                            lemma_trichotomy(slice[i], slice[m as int]);
                            lemma_trichotomy(slice[m as int], *target);
                            if slice[m as int] != slice[i] && slice[m as int] != *target {
                                lemma_lt_transitive(slice[m as int], slice[i], *target);
                            }
                        }
                    }
                }
            }
            r = m;
        }
    }
    if r != slice.len() && same(&slice[r], target) {
        Ok(r)
    } else {
        proof {
            if sorted(slice@) {
                assert forall|i: int| r <= i < slice.len() implies lt(*target, slice[i]) by {
                    lemma_trichotomy(slice[i], *target);
                    if slice[i] == *target {
                        lemma_trichotomy(slice[r as int], *target);
                        lemma_trichotomy(slice[r as int], slice[i]);
                    }
                }
            }
        }
        Err(r)
    }
}

} // verus!
