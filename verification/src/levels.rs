//! Spec-level helpers shared by the price-level containers.
//!
//! Both books store one side as a vector of `(price, queue)` pairs; these
//! functions describe lookups in such a vector.

use vstd::prelude::*;

verus! {

/// Index of the first level with the given price, or `-1` if no level has it.
pub open spec fn find_price_index<L>(s: Seq<(u64, L)>, price: u64) -> int
    decreases s.len(),
{
    if s.len() == 0 {
        -1
    } else if s[0].0 == price {
        0
    } else {
        let r = find_price_index(s.skip(1), price);
        if r < 0 {
            -1
        } else {
            r + 1
        }
    }
}

/// What [`find_price_index`] returns: the first index carrying `price`,
/// or `-1` when no index does.
pub proof fn lemma_find_price_index<L>(s: Seq<(u64, L)>, price: u64)
    ensures
        find_price_index(s, price) == -1 ==> forall|i: int|
            0 <= i < s.len() ==> (#[trigger] s[i]).0 != price,
        find_price_index(s, price) != -1 ==> {
            let k = find_price_index(s, price);
            &&& 0 <= k < s.len()
            &&& s[k].0 == price
        },
    decreases s.len(),
{
    if s.len() > 0 && s[0].0 != price {
        lemma_find_price_index(s.skip(1), price);
        assert forall|i: int| 1 <= i < s.len() implies (#[trigger] s[i]) == s.skip(1)[i - 1] by {}
        if find_price_index(s, price) != -1 {
            assert(s[find_price_index(s, price)] == s.skip(1)[find_price_index(s.skip(1), price)]);
        }
    }
}

/// A scan that saw no match before `k` and a match at `k`
/// (or none at all) determines [`find_price_index`].
pub proof fn lemma_find_price_index_is<L>(s: Seq<(u64, L)>, price: u64, k: int)
    requires
        0 <= k <= s.len(),
        forall|i: int| 0 <= i < k ==> (#[trigger] s[i]).0 != price,
        k < s.len() ==> s[k].0 == price,
    ensures
        find_price_index(s, price) == if k == s.len() {
            -1int
        } else {
            k
        },
    decreases s.len(),
{
    if s.len() > 0 && k > 0 {
        assert(s[0].0 != price);
        lemma_find_price_index_is(s.skip(1), price, k - 1);
    }
}

} // verus!
