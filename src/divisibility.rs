//! Greatest common divisors, least common multiples, and why reducing by a
//! common multiple keeps every divisibility test.
use vstd::arithmetic::div_mod::{
    lemma_fundamental_div_mod, lemma_mod_multiples_basic, lemma_mod_multiples_vanish,
};
use vstd::prelude::*;

verus! {

/// Euclid's greatest common divisor.
pub open spec fn gcd(a: nat, b: nat) -> nat
    decreases b,
{
    if b == 0 {
        a
    } else {
        gcd(b, a % b)
    }
}

/// Least common multiple, computed as `a * (b / gcd(a, b))`.
pub open spec fn lcm(a: nat, b: nat) -> nat {
    if a == 0 && b == 0 {
        0
    } else {
        a * (b / gcd(a, b))
    }
}

/// The least common multiple of a non-empty list, folded from the left.
pub open spec fn lcm_all(ds: Seq<u64>) -> nat
    decreases ds.len(),
{
    if ds.len() <= 1 {
        if ds.len() == 0 {
            1
        } else {
            ds[0] as nat
        }
    } else {
        lcm(lcm_all(ds.drop_last()), ds.last() as nat)
    }
}

/// Relies on num::integer::lcm on `u128`, which returns `a * (b / gcd(a, b))`
/// and overflows when that is not a `u128`.
#[verifier::external_body]
fn lcm_u128(a: u128, b: u128) -> (r: u128)
    requires
        a > 0,
        b > 0,
        lcm(a as nat, b as nat) <= u128::MAX,
    ensures
        r == lcm(a as nat, b as nat),
{
    num::integer::lcm(a, b)
}

proof fn lemma_divides_sum(g: int, b: int, q: int, r: int)
    requires
        g > 0,
        b % g == 0,
        r % g == 0,
    ensures
        (q * b + r) % g == 0,
{
    lemma_fundamental_div_mod(b, g);
    lemma_fundamental_div_mod(r, g);
    assert(q * b + r == g * (q * (b / g) + r / g)) by (nonlinear_arith)
        requires
            b == g * (b / g) + b % g,
            r == g * (r / g) + r % g,
            b % g == 0,
            r % g == 0,
    ;
    lemma_mod_multiples_basic(q * (b / g) + r / g, g);
    assert((q * (b / g) + r / g) * g == g * (q * (b / g) + r / g)) by (nonlinear_arith);
}

/// The greatest common divisor divides both numbers.
pub proof fn lemma_gcd_divides(a: nat, b: nat)
    requires
        a > 0 || b > 0,
    ensures
        gcd(a, b) > 0,
        a % gcd(a, b) == 0,
        b % gcd(a, b) == 0,
    decreases b,
{
    if b == 0 {
        assert(a % a == 0) by {
            lemma_mod_multiples_basic(1, a as int);
        }
    } else {
        lemma_gcd_divides(b, a % b);
        let g = gcd(a, b);
        lemma_fundamental_div_mod(a as int, b as int);
        lemma_divides_sum(g as int, b as int, a as int / b as int, a as int % b as int);
        assert(a == (a as int / b as int) * b + a as int % b as int) by (nonlinear_arith)
            requires
                a == b * (a as int / b as int) + a as int % b as int,
        ;
    }
}

/// The least common multiple of two positive numbers is a positive multiple
/// of both, and no smaller than the first.
pub proof fn lemma_lcm_multiple(a: nat, b: nat)
    requires
        a > 0,
        b > 0,
    ensures
        a <= lcm(a, b) <= a * b,
        lcm(a, b) % a == 0,
        lcm(a, b) % b == 0,
{
    lemma_gcd_divides(a, b);
    let g = gcd(a, b) as int;
    lemma_fundamental_div_mod(a as int, g);
    lemma_fundamental_div_mod(b as int, g);
    let k = b as int / g;
    assert(k >= 1) by (nonlinear_arith)
        requires
            b == g * k,
            b > 0,
            g > 0,
    ;
    assert(a * k >= a) by (nonlinear_arith)
        requires
            k >= 1,
    ;
    assert(k <= b) by (nonlinear_arith)
        requires
            b == g * k,
            g > 0,
            k >= 1,
    ;
    assert(a * k <= a * b) by (nonlinear_arith)
        requires
            k <= b,
    ;
    lemma_mod_multiples_basic(k, a as int);
    assert(k * a == a * k) by (nonlinear_arith);
    assert(a * k == (a as int / g) * b) by (nonlinear_arith)
        requires
            a == g * (a as int / g),
            b == g * k,
    ;
    lemma_mod_multiples_basic(a as int / g, b as int);
}

/// Each number of the list divides their least common multiple, which is positive.
pub proof fn lemma_lcm_all(ds: Seq<u64>)
    requires
        ds.len() > 0,
        forall|k: int| 0 <= k < ds.len() ==> #[trigger] ds[k] > 0,
    ensures
        lcm_all(ds) > 0,
        forall|k: int| 0 <= k < ds.len() ==> lcm_all(ds) % (#[trigger] ds[k] as nat) == 0,
    decreases ds.len(),
{
    if ds.len() == 1 {
        assert(ds[0] % ds[0] == 0) by {
            lemma_mod_multiples_basic(1, ds[0] as int);
        }
    } else {
        let front = ds.drop_last();
        lemma_lcm_all(front);
        let l = lcm_all(front);
        lemma_lcm_multiple(l, ds.last() as nat);
        assert forall|k: int| 0 <= k < ds.len() implies lcm_all(ds) % (#[trigger] ds[k] as nat)
            == 0 by {
            if k < ds.len() - 1 {
                assert(front[k] == ds[k]);
                let d = ds[k] as int;
                lemma_fundamental_div_mod(l as int, d);
                lemma_fundamental_div_mod(lcm_all(ds) as int, l as int);
                lemma_divides_sum(d, l as int, lcm_all(ds) as int / l as int, 0);
                assert(lcm_all(ds) as int == (lcm_all(ds) as int / l as int) * l + 0) by (
                nonlinear_arith)
                    requires
                        lcm_all(ds) as int == l * (lcm_all(ds) as int / l as int) + lcm_all(ds)
                            as int % l as int,
                        lcm_all(ds) as int % l as int == 0,
                ;
            }
        }
    }
}

/// The least common multiple of a list is at least that of any non-empty prefix.
pub proof fn lemma_lcm_all_grows(ds: Seq<u64>, n: int)
    requires
        1 <= n <= ds.len(),
        forall|k: int| 0 <= k < ds.len() ==> #[trigger] ds[k] > 0,
    ensures
        lcm_all(ds) >= lcm_all(ds.subrange(0, n)),
    decreases ds.len(),
{
    if n == ds.len() {
        assert(ds.subrange(0, n) =~= ds);
    } else {
        let front = ds.drop_last();
        assert(front.subrange(0, n) =~= ds.subrange(0, n));
        lemma_lcm_all_grows(front, n);
        lemma_lcm_all(front);
        lemma_lcm_multiple(lcm_all(front), ds.last() as nat);
    }
}

/// Reducing a value by a multiple of `d` keeps its remainder by `d`.
pub proof fn lemma_mod_of_mod(x: int, l: int, d: int)
    requires
        d > 0,
        l > 0,
        l % d == 0,
    ensures
        (x % l) % d == x % d,
{
    lemma_fundamental_div_mod(x, l);
    lemma_fundamental_div_mod(l, d);
    let k = l / d;
    assert(x == d * (k * (x / l)) + x % l) by (nonlinear_arith)
        requires
            x == l * (x / l) + x % l,
            l == d * k + l % d,
            l % d == 0,
    ;
    lemma_mod_multiples_vanish(k * (x / l), x % l, d);
}

/// For every value `x` and every divisor `ds[k]` that the common multiple was
/// computed from, `(x mod L) mod ds[k] == x mod ds[k]`.
pub proof fn lemma_reduction_keeps_remainders(ds: Seq<u64>, x: int, k: int)
    requires
        ds.len() > 0,
        forall|j: int| 0 <= j < ds.len() ==> #[trigger] ds[j] > 0,
        0 <= k < ds.len(),
    ensures
        (x % (lcm_all(ds) as int)) % (ds[k] as int) == x % (ds[k] as int),
{
    lemma_lcm_all(ds);
    lemma_mod_of_mod(x, lcm_all(ds) as int, ds[k] as int);
}

/// The least common multiple of all `ds`, if it is a `u64`.
pub fn lcm_of(ds: &Vec<u64>) -> (r: Option<u64>)
    requires
        ds@.len() > 0,
        forall|k: int| 0 <= k < ds@.len() ==> #[trigger] ds@[k] > 0,
    ensures
        r == (if lcm_all(ds@) <= u64::MAX {
            Some(lcm_all(ds@) as u64)
        } else {
            None
        }),
{
    let mut acc: u64 = ds[0];
    let mut i: usize = 1;
    assert(ds@.subrange(0, 1).drop_last() =~= seq![]);
    while i < ds.len()
        invariant
            1 <= i <= ds@.len(),
            forall|k: int| 0 <= k < ds@.len() ==> #[trigger] ds@[k] > 0,
            acc == lcm_all(ds@.subrange(0, i as int)),
        decreases ds@.len() - i,
    {
        let ghost prefix = ds@.subrange(0, i as int);
        let ghost next = ds@.subrange(0, i as int + 1);
        assert(next.drop_last() =~= prefix);
        proof {
            lemma_lcm_all(prefix);
            lemma_lcm_multiple(acc as nat, ds@[i as int] as nat);
        }
        let d = ds[i];
        assert(acc as nat * d as nat <= u128::MAX) by (nonlinear_arith)
            requires
                acc <= u64::MAX,
                d <= u64::MAX,
        ;
        let wide = lcm_u128(acc as u128, d as u128);
        if wide > u64::MAX as u128 {
            proof {
                lemma_lcm_all_grows(ds@, i as int + 1);
            }
            return None;
        }
        acc = wide as u64;
        i += 1;
    }
    assert(ds@.subrange(0, i as int) =~= ds@);
    Some(acc)
}

} // verus!
