//! Rucksacks of items named by letters: the items both compartments share,
//! the items three rucksacks share, and their priorities.
use crate::text::{char_lines, chars_of, spec_char_lines};
use vstd::prelude::*;
use vstd::string::StringSliceAdditionalSpecFns;
use vstd::utf8::{is_ascii_chars, is_char_boundary};

verus! {

/// The distinct values of `a` that also occur in `b`, in the order in which
/// they first occur in `a`.
pub open spec fn shared<T>(a: Seq<T>, b: Seq<T>) -> Seq<T>
    decreases a.len(),
{
    if a.len() == 0 {
        seq![]
    } else {
        let front = shared(a.drop_last(), b);
        let c = a.last();
        if b.contains(c) && !front.contains(c) {
            front.push(c)
        } else {
            front
        }
    }
}

/// The letters `a` to `z`, then `A` to `Z`.
pub open spec fn letters() -> Seq<char> {
    seq![
        'a', 'b', 'c', 'd', 'e', 'f', 'g', 'h', 'i', 'j', 'k', 'l', 'm', 'n', 'o', 'p', 'q', 'r',
        's', 't', 'u', 'v', 'w', 'x', 'y', 'z', 'A', 'B', 'C', 'D', 'E', 'F', 'G', 'H', 'I', 'J',
        'K', 'L', 'M', 'N', 'O', 'P', 'Q', 'R', 'S', 'T', 'U', 'V', 'W', 'X', 'Y', 'Z',
    ]
}

/// Every rucksack of `rs` holds `c`.
pub open spec fn held_by_all(c: char, rs: Seq<Seq<char>>) -> bool {
    forall|i: int| 0 <= i < rs.len() ==> #[trigger] rs[i].contains(c)
}

/// The values of `ls` that every rucksack of `rs` holds, in the order of `ls`.
pub open spec fn in_all(ls: Seq<char>, rs: Seq<Seq<char>>) -> Seq<char>
    decreases ls.len(),
{
    if ls.len() == 0 {
        seq![]
    } else {
        let front = in_all(ls.drop_last(), rs);
        if held_by_all(ls.last(), rs) {
            front.push(ls.last())
        } else {
            front
        }
    }
}

pub open spec fn is_letter(c: char) -> bool {
    ('a' <= c <= 'z') || ('A' <= c <= 'Z')
}

/// `a`..`z` are worth 1 to 26, `A`..`Z` 27 to 52.
pub open spec fn spec_priority(c: char) -> int {
    if 'a' <= c <= 'z' {
        c as int - 96
    } else {
        c as int - 38
    }
}

/// Splits a rucksack into its two compartments of equal byte length.
pub fn rucksack_from_string(rucksack: &str) -> (r: (&str, &str))
    requires
        rucksack.spec_bytes().len() % 2 == 0,
        is_char_boundary(rucksack.spec_bytes(), (rucksack.spec_bytes().len() / 2) as int),
    ensures
        r.0.spec_bytes() == rucksack.spec_bytes().subrange(0, (rucksack.spec_bytes().len() / 2) as int),
        r.1.spec_bytes() == rucksack.spec_bytes().subrange(
            (rucksack.spec_bytes().len() / 2) as int,
            rucksack.spec_bytes().len() as int,
        ),
{
    proof {
        vstd::utf8::encode_utf8_valid_utf8(rucksack@);
    }
    let len = rucksack.as_bytes().len();
    rucksack.split_at(len / 2)
}

fn holds(v: &Vec<char>, c: char) -> (r: bool)
    ensures
        r == v@.contains(c),
{
    let mut i: usize = 0;
    while i < v.len()
        invariant
            i <= v@.len(),
            forall|k: int| 0 <= k < i ==> v@[k] != c,
        decreases v@.len() - i,
    {
        if v[i] == c {
            return true;
        }
        i += 1;
    }
    false
}

fn shared_of(a: &Vec<char>, b: &Vec<char>) -> (r: Vec<char>)
    ensures
        r@ == shared(a@, b@),
{
    let mut r: Vec<char> = Vec::new();
    let mut i: usize = 0;
    assert(a@.subrange(0, 0) =~= seq![]);
    while i < a.len()
        invariant
            i <= a@.len(),
            r@ == shared(a@.subrange(0, i as int), b@),
        decreases a@.len() - i,
    {
        assert(a@.subrange(0, i + 1).drop_last() =~= a@.subrange(0, i as int));
        let c = a[i];
        if holds(b, c) && !holds(&r, c) {
            r.push(c);
        }
        i += 1;
    }
    assert(a@.subrange(0, i as int) =~= a@);
    r
}

/// The distinct items of the first compartment that the second also holds.
pub fn common_chars_a(compartments: (&str, &str)) -> (r: Vec<char>)
    ensures
        r@ == shared(compartments.0@, compartments.1@),
{
    shared_of(&chars_of(compartments.0), &chars_of(compartments.1))
}

fn all_letters() -> (r: Vec<char>)
    ensures
        r@ == letters(),
{
    let r = vec![
        'a', 'b', 'c', 'd', 'e', 'f', 'g', 'h', 'i', 'j', 'k', 'l', 'm', 'n', 'o', 'p', 'q', 'r',
        's', 't', 'u', 'v', 'w', 'x', 'y', 'z', 'A', 'B', 'C', 'D', 'E', 'F', 'G', 'H', 'I', 'J',
        'K', 'L', 'M', 'N', 'O', 'P', 'Q', 'R', 'S', 'T', 'U', 'V', 'W', 'X', 'Y', 'Z',
    ];
    assert(r@ =~= letters());
    r
}

/// The letters that all `rucksacks` hold.
fn letters_in_all(rucksacks: &Vec<Vec<char>>) -> (r: Vec<char>)
    ensures
        r@ == in_all(letters(), rucksacks@.map_values(|v: Vec<char>| v@)),
{
    let ghost rs = rucksacks@.map_values(|v: Vec<char>| v@);
    let ls = all_letters();
    let mut r: Vec<char> = Vec::new();
    let mut i: usize = 0;
    assert(ls@.subrange(0, 0) =~= seq![]);
    while i < ls.len()
        invariant
            i <= ls@.len(),
            ls@ == letters(),
            rs == rucksacks@.map_values(|v: Vec<char>| v@),
            r@ == in_all(ls@.subrange(0, i as int), rs),
        decreases ls@.len() - i,
    {
        let c = ls[i];
        let mut everywhere = true;
        let mut k: usize = 0;
        while k < rucksacks.len()
            invariant
                k <= rucksacks@.len(),
                rs == rucksacks@.map_values(|v: Vec<char>| v@),
                rs.len() == rucksacks@.len(),
                everywhere == (forall|m: int| 0 <= m < k ==> #[trigger] rs[m].contains(c)),
            decreases rucksacks@.len() - k,
        {
            assert(rs[k as int] == rucksacks@[k as int]@);
            if !holds(&rucksacks[k], c) {
                everywhere = false;
            }
            k += 1;
        }
        let ghost next = ls@.subrange(0, i as int + 1);
        assert(next.drop_last() =~= ls@.subrange(0, i as int));
        assert(next.last() == c);
        assert(everywhere == held_by_all(c, rs));
        if everywhere {
            r.push(c);
            assert(r@ =~= in_all(ls@.subrange(0, i as int + 1), rs));
        } else {
            assert(r@ =~= in_all(ls@.subrange(0, i as int + 1), rs));
        }
        i += 1;
    }
    assert(ls@.subrange(0, i as int) =~= ls@);
    r
}

/// The letters that all `rucksacks` hold, `a` to `z` then `A` to `Z`.
pub fn common_chars_b(rucksacks: &Vec<&str>) -> (r: Vec<char>)
    ensures
        r@ == in_all(letters(), rucksacks@.map_values(|s: &str| s@)),
{
    let mut all: Vec<Vec<char>> = Vec::new();
    let mut i: usize = 0;
    while i < rucksacks.len()
        invariant
            i <= rucksacks@.len(),
            all@.map_values(|v: Vec<char>| v@) == rucksacks@.map_values(|s: &str| s@).subrange(
                0,
                i as int,
            ),
        decreases rucksacks@.len() - i,
    {
        let ghost prev = all@.map_values(|v: Vec<char>| v@);
        let chars = chars_of(rucksacks[i]);
        all.push(chars);
        assert(all@.map_values(|v: Vec<char>| v@) =~= prev.push(rucksacks@[i as int]@));
        assert(all@.map_values(|v: Vec<char>| v@) =~= rucksacks@.map_values(|s: &str| s@).subrange(
            0,
            i + 1,
        ));
        i += 1;
    }
    assert(all@.map_values(|v: Vec<char>| v@) =~= rucksacks@.map_values(|s: &str| s@));
    letters_in_all(&all)
}

/// The priority of an item.
pub fn priority(c: char) -> (r: u32)
    requires
        is_letter(c),
    ensures
        r == spec_priority(c),
{
    if 'a' <= c && c <= 'z' {
        c as u32 - 96
    } else {
        c as u32 - 38
    }
}

/// The sum of the priorities of `cs`, if all are letters.
pub open spec fn priorities(cs: Seq<char>) -> Option<int>
    decreases cs.len(),
{
    if cs.len() == 0 {
        Some(0)
    } else {
        match priorities(cs.drop_last()) {
            Some(p) => if is_letter(cs.last()) {
                Some(p + spec_priority(cs.last()))
            } else {
                None
            },
            None => None,
        }
    }
}

/// The priorities of the items that both halves of a line share; `None`
/// for a line of odd length or a shared item that is no letter.
pub open spec fn line_score(l: Seq<char>) -> Option<int> {
    if l.len() % 2 != 0 {
        None
    } else {
        let half = l.len() / 2;
        priorities(shared(l.subrange(0, half as int), l.subrange(half as int, l.len() as int)))
    }
}

/// The sum of the line scores of `ls`, if every line has one.
pub open spec fn total_a(ls: Seq<Seq<char>>) -> Option<int>
    decreases ls.len(),
{
    if ls.len() == 0 {
        Some(0)
    } else {
        match (total_a(ls.drop_last()), line_score(ls.last())) {
            (Some(a), Some(b)) => Some(a + b),
            _ => None,
        }
    }
}

/// Groups of three lines, the last one possibly shorter: the sum of the
/// priorities of the letters each group shares.
pub open spec fn total_b(ls: Seq<Seq<char>>) -> int
    decreases ls.len(),
{
    if ls.len() == 0 {
        0
    } else {
        let k = if ls.len() < 3 {
            ls.len() as int
        } else {
            3
        };
        priorities(in_all(letters(), ls.subrange(0, k)))->0 + total_b(ls.subrange(k, ls.len() as int))
    }
}

/// Both sums for an ASCII text; `None` for other text, for a line of odd
/// length, for a shared item that is no letter, or where a sum is no `u64`.
pub open spec fn spec_day03(s: Seq<char>) -> Option<(int, int)> {
    let ls = spec_char_lines(s);
    if !is_ascii_chars(s) {
        None
    } else {
        match total_a(ls) {
            Some(a) => if a <= u64::MAX && total_b(ls) <= u64::MAX {
                Some((a, total_b(ls)))
            } else {
                None
            },
            None => None,
        }
    }
}

proof fn lemma_priorities_of_letters(cs: Seq<char>)
    requires
        forall|k: int| 0 <= k < cs.len() ==> is_letter(#[trigger] cs[k]),
    ensures
        priorities(cs) matches Some(p) && 0 <= p <= 52 * cs.len(),
    decreases cs.len(),
{
    if cs.len() > 0 {
        lemma_priorities_of_letters(cs.drop_last());
        assert(is_letter(cs[cs.len() - 1]));
    }
}

proof fn lemma_in_all_letters(ls: Seq<char>, rs: Seq<Seq<char>>)
    requires
        forall|k: int| 0 <= k < ls.len() ==> is_letter(#[trigger] ls[k]),
    ensures
        forall|k: int| 0 <= k < in_all(ls, rs).len() ==> is_letter(#[trigger] in_all(ls, rs)[k]),
        in_all(ls, rs).len() <= ls.len(),
    decreases ls.len(),
{
    if ls.len() > 0 {
        lemma_in_all_letters(ls.drop_last(), rs);
        assert(is_letter(ls[ls.len() - 1]));
    }
}

proof fn lemma_total_b_nonneg(ls: Seq<Seq<char>>)
    ensures
        total_b(ls) >= 0,
    decreases ls.len(),
{
    if ls.len() > 0 {
        let k = if ls.len() < 3 {
            ls.len() as int
        } else {
            3
        };
        assert forall|m: int| 0 <= m < letters().len() implies is_letter(#[trigger] letters()[m]) by {
        }
        lemma_in_all_letters(letters(), ls.subrange(0, k));
        lemma_priorities_of_letters(in_all(letters(), ls.subrange(0, k)));
        lemma_total_b_nonneg(ls.subrange(k, ls.len() as int));
    }
}

fn priority_sum(cs: &Vec<char>) -> (r: Option<u128>)
    ensures
        match priorities(cs@) {
            Some(p) => r == Some(p as u128) && 0 <= p <= 52 * cs@.len() && cs@.len() <= usize::MAX,
            None => r is None,
        },
{
    let mut sum: u128 = 0;
    let mut i: usize = 0;
    let n = cs.len();
    assert(cs@.subrange(0, 0) =~= seq![]);
    while i < n
        invariant
            i <= cs@.len(),
            n == cs@.len(),
            priorities(cs@.subrange(0, i as int)) == Some(sum as int),
            0 <= sum <= 52 * i,
        decreases cs@.len() - i,
    {
        let ghost next = cs@.subrange(0, i as int + 1);
        assert(next.drop_last() =~= cs@.subrange(0, i as int));
        let c = cs[i];
        if !(('a' <= c && c <= 'z') || ('A' <= c && c <= 'Z')) {
            proof {
                lemma_priorities_fail_on(cs@, i as int + 1);
            }
            return None;
        }
        sum = sum + priority(c) as u128;
        i += 1;
    }
    assert(cs@.subrange(0, i as int) =~= cs@);
    Some(sum)
}

proof fn lemma_priorities_fail_on(cs: Seq<char>, n: int)
    requires
        0 < n <= cs.len(),
        !is_letter(cs[n - 1]),
    ensures
        priorities(cs) is None,
    decreases cs.len(),
{
    if n < cs.len() {
        assert(cs.drop_last()[n - 1] == cs[n - 1]);
        lemma_priorities_fail_on(cs.drop_last(), n);
    }
}

proof fn lemma_total_a_grows(ls: Seq<Seq<char>>, n: int)
    requires
        0 <= n <= ls.len(),
        total_a(ls) is Some,
    ensures
        total_a(ls.subrange(0, n)) matches Some(x) && 0 <= x <= total_a(ls)->0,
    decreases ls.len(),
{
    if ls.len() > 0 {
        if n < ls.len() {
            assert(ls.drop_last().subrange(0, n) =~= ls.subrange(0, n));
            lemma_total_a_grows(ls.drop_last(), n);
            let l = ls.last();
            if l.len() % 2 == 0 {
                let half = l.len() / 2;
                let sh = shared(l.subrange(0, half as int), l.subrange(half as int, l.len() as int));
                lemma_priorities_nonneg(sh);
            }
        } else {
            assert(ls.subrange(0, n) =~= ls);
            lemma_total_a_grows(ls.drop_last(), 0);
            assert(ls.drop_last().subrange(0, 0) =~= seq![]);
            lemma_total_a_nonneg(ls);
        }
    } else {
        assert(ls.subrange(0, n) =~= seq![]);
    }
}

proof fn lemma_priorities_nonneg(cs: Seq<char>)
    ensures
        priorities(cs) matches Some(p) ==> p >= 0,
    decreases cs.len(),
{
    if cs.len() > 0 {
        lemma_priorities_nonneg(cs.drop_last());
    }
}

proof fn lemma_total_a_nonneg(ls: Seq<Seq<char>>)
    ensures
        total_a(ls) matches Some(a) ==> a >= 0,
    decreases ls.len(),
{
    if ls.len() > 0 {
        lemma_total_a_nonneg(ls.drop_last());
        let l = ls.last();
        if l.len() % 2 == 0 {
            let half = l.len() / 2;
            lemma_priorities_nonneg(shared(l.subrange(0, half as int), l.subrange(half as int, l.len() as int)));
        }
    }
}

proof fn lemma_total_a_fail_on(ls: Seq<Seq<char>>, n: int)
    requires
        0 < n <= ls.len(),
        line_score(ls[n - 1]) is None,
    ensures
        total_a(ls) is None,
    decreases ls.len(),
{
    if n < ls.len() {
        assert(ls.drop_last()[n - 1] == ls[n - 1]);
        lemma_total_a_fail_on(ls.drop_last(), n);
    } else {
        assert(ls.last() == ls[n - 1]);
    }
}

fn copy_chars(v: &Vec<char>, from: usize, to: usize) -> (r: Vec<char>)
    requires
        from <= to <= v@.len(),
    ensures
        r@ == v@.subrange(from as int, to as int),
{
    let mut r: Vec<char> = Vec::new();
    let mut k = from;
    while k < to
        invariant
            from <= k <= to,
            to <= v@.len(),
            r@ == v@.subrange(from as int, k as int),
        decreases to - k,
    {
        r.push(v[k]);
        k += 1;
        assert(r@ =~= v@.subrange(from as int, k as int));
    }
    r
}

/// The sum of the priorities of the items both halves of each rucksack
/// share, and of the letters each group of three rucksacks shares.
pub fn day03(input: &str) -> (r: Option<(u64, u64)>)
    ensures
        r matches Some((a, b)) ==> spec_day03(input@) == Some((a as int, b as int)),
        r is None ==> spec_day03(input@) is None,
{
    if !input.is_ascii() {
        return None;
    }
    let chars = chars_of(input);
    let ls = char_lines(&chars);
    let ghost lv = ls@.map_values(|l: Vec<char>| l@);
    let mut a: u64 = 0;
    let mut i: usize = 0;
    assert(lv.subrange(0, 0) =~= seq![]);
    while i < ls.len()
        invariant
            i <= ls@.len(),
            lv == ls@.map_values(|l: Vec<char>| l@),
            lv == spec_char_lines(input@),
            total_a(lv.subrange(0, i as int)) == Some(a as int),
        decreases ls@.len() - i,
    {
        let ghost next = lv.subrange(0, i as int + 1);
        assert(next.drop_last() =~= lv.subrange(0, i as int));
        assert(next.last() == ls@[i as int]@);
        let line = &ls[i];
        let n = line.len();
        if n % 2 != 0 {
            proof {
                lemma_total_a_fail_on(lv, i as int + 1);
            }
            return None;
        }
        let first = copy_chars(line, 0, n / 2);
        let second = copy_chars(line, n / 2, n);
        let common = shared_of(&first, &second);
        let p = match priority_sum(&common) {
            None => {
                proof {
                    lemma_total_a_fail_on(lv, i as int + 1);
                }
                return None;
            },
            Some(p) => p,
        };
        assert(line_score(ls@[i as int]@) == Some(p as int));
        assert(total_a(next) == Some(a + p));
        if a as u128 + p > u64::MAX as u128 {
            proof {
                if total_a(lv) is Some {
                    lemma_total_a_grows(lv, i as int + 1);
                }
            }
            return None;
        }
        a = a + p as u64;
        i += 1;
    }
    assert(lv.subrange(0, i as int) =~= lv);
    let mut b: u64 = 0;
    let mut i: usize = 0;
    let len = ls.len();
    assert(lv.subrange(0, len as int) =~= lv);
    while i < len
        invariant
            i <= len,
            len == ls@.len(),
            lv == ls@.map_values(|l: Vec<char>| l@),
            lv == spec_char_lines(input@),
            total_a(lv) == Some(a as int),
            total_b(lv) == b + total_b(lv.subrange(i as int, len as int)),
        decreases len - i,
    {
        let k: usize = if len - i < 3 {
            len - i
        } else {
            3
        };
        let mut group: Vec<Vec<char>> = Vec::new();
        let mut j: usize = 0;
        while j < k
            invariant
                j <= k,
                i + k <= len,
                len == ls@.len(),
                lv == ls@.map_values(|l: Vec<char>| l@),
                group@.map_values(|l: Vec<char>| l@) == lv.subrange(i as int, i + j),
            decreases k - j,
        {
            let ghost prev = group@.map_values(|l: Vec<char>| l@);
            let line = copy_chars(&ls[i + j], 0, ls[i + j].len());
            assert(line@ =~= lv[i + j]);
            group.push(line);
            assert(group@.map_values(|l: Vec<char>| l@) =~= prev.push(lv[i + j]));
            assert(group@.map_values(|l: Vec<char>| l@) =~= lv.subrange(i as int, i + j + 1));
            j += 1;
        }
        let common = letters_in_all(&group);
        let ghost rest = lv.subrange(i as int, len as int);
        assert(rest.subrange(0, k as int) =~= lv.subrange(i as int, i + k));
        assert(rest.subrange(k as int, rest.len() as int) =~= lv.subrange(i + k, len as int));
        proof {
            assert forall|m: int| 0 <= m < letters().len() implies is_letter(#[trigger] letters()[m]) by {
            }
            lemma_in_all_letters(letters(), lv.subrange(i as int, i + k));
            lemma_priorities_of_letters(common@);
            lemma_total_b_nonneg(lv.subrange(i + k, len as int));
        }
        let p = match priority_sum(&common) {
            None => 0,
            Some(p) => p,
        };
        if b as u128 + p > u64::MAX as u128 {
            return None;
        }
        b = b + p as u64;
        i = i + k;
    }
    assert(lv.subrange(i as int, len as int) =~= seq![]);
    Some((a, b))
}

} // verus!
