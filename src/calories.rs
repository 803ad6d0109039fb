//! Calorie lists separated by empty lines: the largest total and the sum of
//! the three largest.
use crate::metric::{ascending, ascending_order, lemma_ascending_is_total, sorted_values};
use crate::ranges::{copy_range, parse_u32, u32_value};
use crate::text::{lines, spec_lines};
use vstd::prelude::*;
use vstd::seq_lib::lemma_sorted_unique;
use vstd::string::StringSliceAdditionalSpecFns;

verus! {

/// Offset of the first `"\n\n"` at or after `p`, if any.
pub open spec fn separator_from(s: Seq<u8>, p: int) -> Option<int>
    decreases s.len() - p,
{
    if p < 0 || p + 1 >= s.len() {
        None
    } else if s[p] == 10 && s[p + 1] == 10 {
        Some(p)
    } else {
        separator_from(s, p + 1)
    }
}

pub proof fn lemma_separator_from(s: Seq<u8>, p: int)
    requires
        0 <= p,
    ensures
        separator_from(s, p) matches Some(q) ==> p <= q && q + 1 < s.len(),
    decreases s.len() - p,
{
    if p + 1 < s.len() && !(s[p] == 10 && s[p + 1] == 10) {
        lemma_separator_from(s, p + 1);
    }
}

/// The pieces of `s[p..]` between `"\n\n"` separators, as `str::split` gives them.
pub open spec fn groups_from(s: Seq<u8>, p: int) -> Seq<Seq<u8>>
    decreases s.len() - p,
{
    if p < 0 || p > s.len() {
        seq![]
    } else {
        match separator_from(s, p) {
            None => seq![s.subrange(p, s.len() as int)],
            Some(q) => {
                proof {
                    lemma_separator_from(s, p);
                }
                seq![s.subrange(p, q)] + groups_from(s, q + 2)
            },
        }
    }
}

/// The numbers on the lines of `s`; lines that are no `u32` are skipped.
pub open spec fn numbers_of(ls: Seq<Seq<u8>>) -> Seq<u32>
    decreases ls.len(),
{
    if ls.len() == 0 {
        seq![]
    } else {
        match u32_value(ls.last()) {
            Some(v) => numbers_of(ls.drop_last()).push(v),
            None => numbers_of(ls.drop_last()),
        }
    }
}

pub open spec fn sum_of(vs: Seq<u32>) -> int
    decreases vs.len(),
{
    if vs.len() == 0 {
        0
    } else {
        sum_of(vs.drop_last()) + vs.last()
    }
}

/// The total of each group.
pub open spec fn group_totals(s: Seq<u8>) -> Seq<int> {
    groups_from(s, 0).map_values(|g: Seq<u8>| sum_of(numbers_of(spec_lines(g))))
}

/// The sum of the last `k` values of `t`, or of all where there are fewer.
pub open spec fn sum_top(t: Seq<u64>, k: int) -> int
    decreases k,
{
    if k <= 0 || t.len() == 0 {
        0
    } else {
        t.last() + sum_top(t.drop_last(), k - 1)
    }
}

/// The largest total and the sum of the three largest, where every total is a `u64`.
pub open spec fn spec_day01(s: Seq<u8>) -> Option<(int, int)> {
    let ts = group_totals(s);
    if forall|k: int| 0 <= k < ts.len() ==> #[trigger] ts[k] <= u64::MAX {
        let t = ascending(ts.map_values(|v: int| v as u64));
        Some((t.last() as int, sum_top(t, 3)))
    } else {
        None
    }
}

/// The numbers on the lines of `lines`; lines that are no `u32` are skipped.
pub fn to_calories(lines_text: &str) -> (r: Vec<u32>)
    ensures
        r@ == numbers_of(spec_lines(lines_text.spec_bytes())),
{
    numbers_in(lines_text.as_bytes())
}

fn numbers_in(s: &[u8]) -> (r: Vec<u32>)
    ensures
        r@ == numbers_of(spec_lines(s@)),
{
    let ls = lines(s);
    let ghost lv = ls@.map_values(|l: Vec<u8>| l@);
    let mut r: Vec<u32> = Vec::new();
    let mut i: usize = 0;
    assert(lv.subrange(0, 0) =~= seq![]);
    while i < ls.len()
        invariant
            i <= ls@.len(),
            lv == ls@.map_values(|l: Vec<u8>| l@),
            lv == spec_lines(s@),
            r@ == numbers_of(lv.subrange(0, i as int)),
        decreases ls@.len() - i,
    {
        let ghost next = lv.subrange(0, i as int + 1);
        assert(next.drop_last() =~= lv.subrange(0, i as int));
        assert(next.last() == ls@[i as int]@);
        if let Some(v) = parse_u32(ls[i].as_slice()) {
            r.push(v);
        }
        i += 1;
    }
    assert(lv.subrange(0, i as int) =~= lv);
    r
}

/// The sum of `vs`, if it is a `u64`.
fn total(vs: &Vec<u32>) -> (r: Option<u64>)
    ensures
        r matches Some(t) ==> t == sum_of(vs@),
        r is None ==> sum_of(vs@) > u64::MAX,
{
    let mut acc: u64 = 0;
    let mut i: usize = 0;
    assert(vs@.subrange(0, 0) =~= seq![]);
    while i < vs.len()
        invariant
            i <= vs@.len(),
            acc == sum_of(vs@.subrange(0, i as int)),
        decreases vs@.len() - i,
    {
        assert(vs@.subrange(0, i as int + 1).drop_last() =~= vs@.subrange(0, i as int));
        if acc > u64::MAX - vs[i] as u64 {
            proof {
                lemma_sum_grows(vs@, i as int + 1);
            }
            return None;
        }
        acc = acc + vs[i] as u64;
        i += 1;
    }
    assert(vs@.subrange(0, i as int) =~= vs@);
    Some(acc)
}

proof fn lemma_sum_grows(vs: Seq<u32>, n: int)
    requires
        0 <= n <= vs.len(),
    ensures
        sum_of(vs.subrange(0, n)) <= sum_of(vs),
    decreases vs.len(),
{
    if n < vs.len() {
        assert(vs.drop_last().subrange(0, n) =~= vs.subrange(0, n));
        lemma_sum_grows(vs.drop_last(), n);
        lemma_sum_nonneg(vs);
    } else {
        assert(vs.subrange(0, n) =~= vs);
    }
}

proof fn lemma_sum_nonneg(vs: Seq<u32>)
    ensures
        sum_of(vs) >= 0,
    decreases vs.len(),
{
    if vs.len() > 0 {
        lemma_sum_nonneg(vs.drop_last());
    }
}

/// The total of each group, if every total is a `u64`.
fn totals_of(s: &[u8]) -> (r: Option<Vec<u64>>)
    ensures
        r matches Some(v) ==> v@.map_values(|x: u64| x as int) == group_totals(s@),
        r is None ==> exists|k: int|
            0 <= k < group_totals(s@).len() && #[trigger] group_totals(s@)[k] > u64::MAX,
{
    let n = s.len();
    let ghost gs = groups_from(s@, 0);
    let ghost ts = group_totals(s@);
    let mut totals: Vec<u64> = Vec::new();
    let ghost mut done: Seq<Seq<u8>> = seq![];
    let mut p: usize = 0;
    loop
        invariant
            p <= n,
            n == s@.len(),
            gs == groups_from(s@, 0),
            ts == group_totals(s@),
            gs == done + groups_from(s@, p as int),
            totals@.len() == done.len(),
            forall|k: int| 0 <= k < done.len() ==> #[trigger] totals@[k] as int == ts[k],
        decreases n - p,
    {
        let mut q = p;
        while n > 0 && q < n - 1 && !(s[q] == 10 && s[q + 1] == 10)
            invariant
                p <= q <= n,
                n == s@.len(),
                separator_from(s@, p as int) == separator_from(s@, q as int),
            decreases n - q,
        {
            q += 1;
        }
        let last = n == 0 || q >= n - 1;
        let end = if last {
            n
        } else {
            q
        };
        let group = copy_range(s, p, end);
        let ghost here = group@;
        assert(gs[done.len() as int] == here);
        assert(ts[done.len() as int] == sum_of(numbers_of(spec_lines(here))));
        let t = match total(&numbers_in(group.as_slice())) {
            None => return None,
            Some(t) => t,
        };
        totals.push(t);
        proof {
            done = done.push(here);
        }
        if last {
            assert(gs =~= done);
            assert(totals@.map_values(|x: u64| x as int) =~= ts);
            return Some(totals);
        }
        assert(gs =~= done + groups_from(s@, q + 2));
        p = q + 2;
    }
}

/// The largest group total and the sum of the three largest.
pub fn day01(input: &str) -> (r: Option<(u64, u128)>)
    ensures
        r matches Some((a, b)) ==> spec_day01(input.spec_bytes()) == Some((a as int, b as int)),
        r is None ==> spec_day01(input.spec_bytes()) is None,
{
    let totals = match totals_of(input.as_bytes()) {
        None => return None,
        Some(v) => v,
    };
    let ghost ts = group_totals(input.spec_bytes());
    let ghost tu = ts.map_values(|v: int| v as u64);
    assert(tu =~= totals@);
    let sorted = sorted_values(&totals);
    proof {
        lemma_ascending_is_total();
        totals@.lemma_sort_by_ensures(ascending_order());
        lemma_sorted_unique(sorted@, ascending(totals@), ascending_order());
    }
    let n = sorted.len();
    proof {
        assert(groups_from(input.spec_bytes(), 0).len() > 0);
        vstd::seq_lib::to_multiset_len(sorted@);
        vstd::seq_lib::to_multiset_len(totals@);
    }
    let mut top: u128 = 0;
    let mut k: usize = 0;
    assert(sorted@.subrange(0, n as int) =~= sorted@);
    while k < 3 && k < n
        invariant
            n == sorted@.len(),
            k <= 3,
            k <= n,
            top == sum_top(sorted@, 3) - sum_top(sorted@.subrange(0, n - k), 3 - k),
            top <= k * u64::MAX,
        decreases 3 - k,
    {
        let ghost rest = sorted@.subrange(0, n - k);
        assert(rest.drop_last() =~= sorted@.subrange(0, n - k - 1));
        top = top + sorted[n - 1 - k] as u128;
        k += 1;
    }
    proof {
        if k < 3 {
            assert(sorted@.subrange(0, n - k) =~= seq![]);
        }
    }
    Some((sorted[n - 1], top))
}

} // verus!
