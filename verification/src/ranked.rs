//! The shape shared by both engines' outputs: a ranked list of records with
//! a numeric score, drawn from a larger pool of candidates.
//!
//! [`is_top_selection`] pins down what "the top `k` records of a pool" means;
//! both the directory scanner and the process aggregator promise it of their
//! results. The pool is a multiset: candidates carry no inherent order, and
//! two candidates may be indistinguishable.

use vstd::prelude::*;
use vstd::multiset::Multiset;

verus! {

/// The value a `u64` accumulator reaches when the mathematical total is `x`
/// and every addition saturates: the total itself while it fits, the
/// ceiling once it does not.
pub open spec fn clip64(x: int) -> u64 {
    if x > u64::MAX { u64::MAX } else if x < 0 { 0u64 } else { x as u64 }
}

/// `s` is ordered by non-increasing key; equal keys may stand in any order.
pub open spec fn sorted_desc_by<T>(s: Seq<T>, key: spec_fn(T) -> int) -> bool {
    forall|i: int, j: int|
        #![trigger key(s[i]), key(s[j])]
        0 <= i <= j < s.len() ==> key(s[i]) >= key(s[j])
}

/// `res` is a top-`k` selection of the pool `all` under `key`: it is drawn
/// from the pool without invention or duplication, it holds `k` records (or
/// the whole pool, when the pool is smaller), it is sorted by non-increasing
/// key, and no record left behind in the pool outscores any record kept.
pub open spec fn is_top_selection<T>(
    res: Seq<T>,
    all: Multiset<T>,
    k: int,
    key: spec_fn(T) -> int,
) -> bool {
    &&& res.len() == if all.len() <= k { all.len() as int } else { k }
    &&& sorted_desc_by(res, key)
    &&& res.to_multiset().subset_of(all)
    &&& forall|x: T|
        #[trigger] all.count(x) > res.to_multiset().count(x) ==> (forall|i: int|
            0 <= i < res.len() ==> key(x) <= #[trigger] key(res[i]))
}

/// A submultiset as large as its superset is that superset.
pub proof fn lemma_subset_equal_len<T>(a: Multiset<T>, b: Multiset<T>)
    requires
        a.subset_of(b),
        a.len() == b.len(),
    ensures
        a =~= b,
{
    broadcast use vstd::multiset::group_multiset_axioms;

    assert(b.sub(a).len() == 0);
    vstd::multiset::lemma_multiset_empty_len(b.sub(a));
    assert forall|v: T| #[trigger] a.count(v) == b.count(v) by {
        assert(a.count(v) <= b.count(v));
        assert(b.sub(a).count(v) == 0);
    }
}

/// A pool of at most `k` records is kept whole by a top-`k` selection:
/// the result is a reordering of the entire pool, nothing is dropped.
pub proof fn lemma_top_selection_complete<T>(
    res: Seq<T>,
    all: Multiset<T>,
    k: int,
    key: spec_fn(T) -> int,
)
    requires
        is_top_selection(res, all, k, key),
        all.len() <= k,
    ensures
        res.to_multiset() =~= all,
{
    broadcast use vstd::seq_lib::group_to_multiset_ensures;

    assert(res.to_multiset().len() == res.len());
    lemma_subset_equal_len(res.to_multiset(), all);
}

} // verus!
