//! Pairs of section ranges: full containment and overlap.
use crate::crt::all_digits;
use crate::grammar::digits_value;
use crate::text::{lines, spec_lines};
use vstd::prelude::*;
use vstd::string::StringSliceAdditionalSpecFns;

verus! {

/// The value of a decimal number with an optional `+`, as `u32::from_str`
/// reads it; `None` where it is malformed or above `u32::MAX`.
pub open spec fn u32_value(s: Seq<u8>) -> Option<u32> {
    let digits = if s.len() > 0 && s[0] == 43 {
        s.drop_first()
    } else {
        s
    };
    let v = digits_value(digits, 0, digits.len() as int);
    if digits.len() > 0 && all_digits(digits) && v <= u32::MAX {
        Some(v as u32)
    } else {
        None
    }
}

/// Index of the first `b` in `s`, if any.
pub open spec fn find_byte(s: Seq<u8>, b: u8) -> Option<int> {
    if exists|k: int| 0 <= k < s.len() && s[k] == b {
        Some(choose|k: int| 0 <= k < s.len() && s[k] == b && forall|m: int| 0 <= m < k ==> s[m] != b)
    } else {
        None
    }
}

/// `s` split around its first `b`, as `str::split_once` does.
pub open spec fn split_once(s: Seq<u8>, b: u8) -> Option<(Seq<u8>, Seq<u8>)> {
    match find_byte(s, b) {
        Some(k) => Some((s.subrange(0, k), s.subrange(k + 1, s.len() as int))),
        None => None,
    }
}

/// The four bounds of a line `a-b,c-d`.
#[verifier::opaque]
pub open spec fn spec_bounds(line: Seq<u8>) -> Option<(u32, u32, u32, u32)> {
    match split_once(line, 44) {
        None => None,
        Some((left, right)) => match (split_once(left, 45), split_once(right, 45)) {
            (Some((a, b)), Some((c, d))) => match (u32_value(a), u32_value(b), u32_value(c), u32_value(d)) {
                (Some(a), Some(b), Some(c), Some(d)) => Some((a, b, c, d)),
                _ => None,
            },
            _ => None,
        },
    }
}

pub(crate) fn copy_range(s: &[u8], from: usize, to: usize) -> (r: Vec<u8>)
    requires
        from <= to <= s@.len(),
    ensures
        r@ == s@.subrange(from as int, to as int),
{
    let mut r: Vec<u8> = Vec::new();
    let mut k = from;
    while k < to
        invariant
            from <= k <= to,
            to <= s@.len(),
            r@ == s@.subrange(from as int, k as int),
        decreases to - k,
    {
        r.push(s[k]);
        k += 1;
        assert(r@ =~= s@.subrange(from as int, k as int));
    }
    r
}

fn split_at_byte(s: &[u8], b: u8) -> (r: Option<(Vec<u8>, Vec<u8>)>)
    ensures
        match split_once(s@, b) {
            Some((x, y)) => r matches Some((u, v)) && u@ == x && v@ == y,
            None => r is None,
        },
{
    let n = s.len();
    let mut k: usize = 0;
    while k < n
        invariant
            k <= n,
            n == s@.len(),
            forall|m: int| 0 <= m < k ==> s@[m] != b,
        decreases n - k,
    {
        if s[k] == b {
            let ghost c = choose|j: int|
                0 <= j < s@.len() && s@[j] == b && forall|m: int| 0 <= m < j ==> s@[m] != b;
            assert(c == k) by {
                assert(exists|j: int| 0 <= j < s@.len() && s@[j] == b && forall|m: int| 0 <= m < j ==> s@[m] != b) by {
                    assert(0 <= k < s@.len() && s@[k as int] == b);
                }
                if c < k {
                    assert(s@[c] != b);
                } else if c > k {
                    assert(s@[k as int] != b);
                }
            }
            return Some((copy_range(s, 0, k), copy_range(s, k + 1, n)));
        }
        k += 1;
    }
    None
}

/// Reads a `u32` as `u32::from_str` does.
pub fn parse_u32(s: &[u8]) -> (r: Option<u32>)
    ensures
        r == u32_value(s@),
{
    let n = s.len();
    let start: usize = if n > 0 && s[0] == 43 {
        1
    } else {
        0
    };
    let ghost digits = s@.subrange(start as int, n as int);
    assert(digits =~= (if start == 1 { s@.drop_first() } else { s@ }));
    if start == n {
        return None;
    }
    let mut k = start;
    let mut v: u64 = 0;
    while k < n
        invariant
            start < n,
            n == s@.len(),
            start <= k <= n,
            start == 1 <==> (n > 0 && s@[0] == 43),
            start <= 1,
            digits == s@.subrange(start as int, n as int),
            digits == (if start == 1 {
                s@.drop_first()
            } else {
                s@
            }),
            v == digits_value(digits, 0, k - start),
            v <= u32::MAX,
            forall|m: int| start <= m < k ==> 48 <= #[trigger] s@[m] <= 57,
        decreases n - k,
    {
        let c = s[k];
        assert(digits[k - start] == c);
        if c < 48 || c > 57 {
            return None;
        }
        let next = v * 10 + (c - 48) as u64;
        if next > u32::MAX as u64 {
            proof {
                if all_digits(digits) {
                    lemma_value_grows(digits, k - start + 1, digits.len() as int);
                }
            }
            return None;
        }
        v = next;
        k += 1;
    }
    assert(all_digits(digits)) by {
        assert forall|m: int| 0 <= m < digits.len() implies 48 <= #[trigger] digits[m] <= 57 by {
            assert(digits[m] == s@[start + m]);
        }
    }
    Some(v as u32)
}

proof fn lemma_value_grows(s: Seq<u8>, a: int, b: int)
    requires
        0 <= a <= b <= s.len(),
        all_digits(s),
    ensures
        0 <= digits_value(s, 0, a) <= digits_value(s, 0, b),
    decreases b,
{
    if a < b {
        lemma_value_grows(s, a, b - 1);
    } else {
        lemma_value_nonneg(s, a);
    }
}

proof fn lemma_value_nonneg(s: Seq<u8>, b: int)
    requires
        0 <= b <= s.len(),
        all_digits(s),
    ensures
        0 <= digits_value(s, 0, b),
    decreases b,
{
    if b > 0 {
        lemma_value_nonneg(s, b - 1);
    }
}

fn bounds_of(line: &[u8]) -> (r: Option<(u32, u32, u32, u32)>)
    ensures
        r == spec_bounds(line@),
{
    reveal(spec_bounds);
    let (left, right) = match split_at_byte(line, 44) {
        None => return None,
        Some(x) => x,
    };
    let (a, b) = match split_at_byte(left.as_slice(), 45) {
        None => return None,
        Some(x) => x,
    };
    let (c, d) = match split_at_byte(right.as_slice(), 45) {
        None => return None,
        Some(x) => x,
    };
    match (parse_u32(a.as_slice()), parse_u32(b.as_slice()), parse_u32(c.as_slice()), parse_u32(d.as_slice())) {
        (Some(a), Some(b), Some(c), Some(d)) => Some((a, b, c, d)),
        _ => None,
    }
}

/// The bounds `a-b,c-d` of the two ranges on `line`.
pub fn parse_line(line: &str) -> (r: Option<(u32, u32, u32, u32)>)
    ensures
        r == spec_bounds(line.spec_bytes()),
{
    bounds_of(line.as_bytes())
}

/// One range lies within the other.
pub open spec fn contains_other(r: (u32, u32, u32, u32)) -> bool {
    (r.0 <= r.2 && r.3 <= r.1) || (r.2 <= r.0 && r.1 <= r.3)
}

/// The ranges share a section.
pub open spec fn ranges_meet(r: (u32, u32, u32, u32)) -> bool {
    (r.2 <= r.0 <= r.3) || (r.0 <= r.2 <= r.1)
}

/// Tells whether one of the ranges `a..=b`, `c..=d` contains the other.
pub fn fully_contained(r: &(u32, u32, u32, u32)) -> (res: bool)
    ensures
        res == contains_other(*r),
{
    let (a, b, c, d) = *r;
    if a < c {
        b >= d
    } else if a == c {
        true
    } else {
        b <= d
    }
}

/// Tells whether the ranges `a..=b`, `c..=d` share a section.
pub fn overlap(r: &(u32, u32, u32, u32)) -> (res: bool)
    ensures
        res == ranges_meet(*r),
{
    let (a, b, c, d) = *r;
    (c <= a && a <= d) || (a <= c && c <= b)
}

/// The lines whose ranges have one inside the other; malformed lines count nothing.
pub open spec fn count_contained(ls: Seq<Seq<u8>>) -> int
    decreases ls.len(),
{
    if ls.len() == 0 {
        0
    } else {
        let here = match spec_bounds(ls.last()) {
            Some(r) => contains_other(r),
            None => false,
        };
        count_contained(ls.drop_last()) + if here {
            1int
        } else {
            0
        }
    }
}

/// The lines whose ranges overlap; malformed lines count nothing.
pub open spec fn count_overlapping(ls: Seq<Seq<u8>>) -> int
    decreases ls.len(),
{
    if ls.len() == 0 {
        0
    } else {
        let here = match spec_bounds(ls.last()) {
            Some(r) => ranges_meet(r),
            None => false,
        };
        count_overlapping(ls.drop_last()) + if here {
            1int
        } else {
            0
        }
    }
}

/// How many pairs have one range inside the other, and how many overlap.
pub fn day04(input: &str) -> (r: (usize, usize))
    ensures
        r.0 == count_contained(spec_lines(input.spec_bytes())),
        r.1 == count_overlapping(spec_lines(input.spec_bytes())),
{
    let ls = lines(input.as_bytes());
    let ghost lv = ls@.map_values(|l: Vec<u8>| l@);
    let mut contained: usize = 0;
    let mut overlapping: usize = 0;
    let mut i: usize = 0;
    assert(lv.subrange(0, 0) =~= seq![]);
    while i < ls.len()
        invariant
            i <= ls@.len(),
            lv == ls@.map_values(|l: Vec<u8>| l@),
            lv == spec_lines(input.spec_bytes()),
            contained == count_contained(lv.subrange(0, i as int)),
            overlapping == count_overlapping(lv.subrange(0, i as int)),
            contained <= i,
            overlapping <= i,
        decreases ls@.len() - i,
    {
        let ghost next = lv.subrange(0, i as int + 1);
        assert(next.drop_last() =~= lv.subrange(0, i as int));
        assert(next.last() == ls@[i as int]@);
        if let Some(r) = bounds_of(ls[i].as_slice()) {
            if fully_contained(&r) {
                contained += 1;
            }
            if overlap(&r) {
                overlapping += 1;
            }
        }
        i += 1;
    }
    assert(lv.subrange(0, i as int) =~= lv);
    (contained, overlapping)
}

} // verus!
