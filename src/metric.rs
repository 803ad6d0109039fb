//! The product of the two largest activity counters.
use itertools::Itertools;
use vstd::prelude::*;
use vstd::relations::{sorted_by, total_ordering};
use vstd::seq_lib::lemma_sorted_unique;

verus! {

pub open spec fn ascending_order() -> spec_fn(u64, u64) -> bool {
    |a: u64, b: u64| a <= b
}

/// The values of `s` in ascending order.
pub open spec fn ascending(s: Seq<u64>) -> Seq<u64> {
    s.sort_by(ascending_order())
}

/// The product of the two largest values of `s`; of the only one where there
/// is one; 1 where there is none.
pub open spec fn spec_business(s: Seq<u64>) -> int {
    let t = ascending(s);
    if t.len() == 0 {
        1
    } else if t.len() == 1 {
        t[0] as int
    } else {
        t[t.len() - 1] * t[t.len() - 2]
    }
}

/// Relies on itertools::Itertools::sorted: it yields the same values, in
/// ascending order.
#[verifier::external_body]
pub(crate) fn sorted_values(v: &Vec<u64>) -> (r: Vec<u64>)
    ensures
        r@.to_multiset() == v@.to_multiset(),
        sorted_by(r@, ascending_order()),
{
    v.iter().copied().sorted().collect()
}

pub(crate) proof fn lemma_ascending_is_total()
    ensures
        total_ordering(ascending_order()),
{
    let leq = ascending_order();
    assert(vstd::relations::reflexive(leq));
    assert(vstd::relations::antisymmetric(leq));
    assert(vstd::relations::transitive(leq));
    assert(vstd::relations::strongly_connected(leq));
}

/// Sorts the counters and multiplies the two largest.
pub fn business(activity: &Vec<u64>) -> (r: u128)
    ensures
        r == spec_business(activity@),
{
    let sorted = sorted_values(activity);
    proof {
        lemma_ascending_is_total();
        activity@.lemma_sort_by_ensures(ascending_order());
        lemma_sorted_unique(sorted@, ascending(activity@), ascending_order());
    }
    let n = sorted.len();
    if n == 0 {
        1
    } else if n == 1 {
        sorted[0] as u128
    } else {
        let a = sorted[n - 1] as u128;
        let b = sorted[n - 2] as u128;
        assert(a * b <= u128::MAX) by (nonlinear_arith)
            requires
                a <= u64::MAX,
                b <= u64::MAX,
        ;
        a * b
    }
}

} // verus!
