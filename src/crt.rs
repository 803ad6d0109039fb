//! A two-instruction CPU driving a 40-column display.
use crate::grammar::digits_value;
use crate::text::{lines, spec_lines};
use vstd::prelude::*;
use vstd::string::StringSliceAdditionalSpecFns;

verus! {

pub open spec fn all_digits(s: Seq<u8>) -> bool {
    forall|k: int| 0 <= k < s.len() ==> 48 <= #[trigger] s[k] <= 57
}

/// The value of a decimal integer with an optional sign, as `i32::from_str`
/// reads it; `None` where it is malformed or out of range.
pub open spec fn int_value(s: Seq<u8>) -> Option<int> {
    let signed = s.len() > 0 && (s[0] == 45 || s[0] == 43);
    let digits = if signed {
        s.drop_first()
    } else {
        s
    };
    let magnitude = digits_value(digits, 0, digits.len() as int);
    let v = if signed && s[0] == 45 {
        -magnitude
    } else {
        magnitude
    };
    if digits.len() > 0 && all_digits(digits) && i32::MIN <= v <= i32::MAX {
        Some(v)
    } else {
        None
    }
}

pub open spec fn starts_with(s: Seq<u8>, prefix: Seq<u8>) -> bool {
    prefix.len() <= s.len() && s.subrange(0, prefix.len() as int) == prefix
}

/// What one line adds to the register in each cycle it takes: a `noop`
/// takes one cycle, an `addx v` two; `None` for any other line.
pub open spec fn line_deltas(line: Seq<u8>) -> Option<Seq<int>> {
    if starts_with(line, "noop".spec_bytes()) {
        Some(seq![0])
    } else if starts_with(line, "addx ".spec_bytes()) {
        match int_value(line.subrange("addx ".spec_bytes().len() as int, line.len() as int)) {
            Some(v) => Some(seq![0, v]),
            None => None,
        }
    } else {
        None
    }
}

fn is_prefix(s: &[u8], prefix: &str) -> (r: bool)
    ensures
        r == starts_with(s@, prefix.spec_bytes()),
{
    let p = prefix.as_bytes();
    if p.len() > s.len() {
        return false;
    }
    let mut i: usize = 0;
    while i < p.len()
        invariant
            i <= p@.len(),
            p@.len() <= s@.len(),
            p@ == prefix.spec_bytes(),
            forall|k: int| 0 <= k < i ==> s@[k] == p@[k],
        decreases p@.len() - i,
    {
        if s[i] != p[i] {
            assert(s@.subrange(0, p@.len() as int)[i as int] != p@[i as int]);
            return false;
        }
        i += 1;
    }
    assert(s@.subrange(0, p@.len() as int) =~= p@);
    true
}

/// Reads a signed decimal `i32` from `s[from..]`.
fn parse_i32(s: &[u8], from: usize) -> (r: Option<i32>)
    requires
        from <= s@.len(),
    ensures
        r matches Some(v) ==> int_value(s@.subrange(from as int, s@.len() as int)) == Some(v as int),
        r is None ==> int_value(s@.subrange(from as int, s@.len() as int)) is None,
{
    let ghost t = s@.subrange(from as int, s@.len() as int);
    let n = s.len();
    let mut start = from;
    let mut negative = false;
    if from < n && (s[from] == 45 || s[from] == 43) {
        negative = s[from] == 45;
        start = from + 1;
    }
    let ghost digits = s@.subrange(start as int, n as int);
    assert(digits =~= (if start > from { t.drop_first() } else { t }));
    if start == n {
        return None;
    }
    let mut k = start;
    let mut magnitude: u64 = 0;
    while k < n
        invariant
            from <= start < n,
            n == s@.len(),
            t == s@.subrange(from as int, n as int),
            start == from || start == from + 1,
            (start > from) == (t.len() > 0 && (t[0] == 45 || t[0] == 43)),
            negative == (start > from && t[0] == 45),
            digits == (if start > from {
                t.drop_first()
            } else {
                t
            }),
            start <= k <= n,
            digits == s@.subrange(start as int, n as int),
            magnitude == digits_value(digits, 0, k - start),
            magnitude <= 0x8000_0000,
            forall|m: int| start <= m < k ==> 48 <= #[trigger] s@[m] <= 57,
        decreases n - k,
    {
        let b = s[k];
        if b < 48 || b > 57 {
            assert(!all_digits(digits)) by {
                assert(digits[k - start] == b);
            }
            return None;
        }
        assert(digits[k - start] == b);
        let next = magnitude * 10 + (b - 48) as u64;
        if next > 0x8000_0000 {
            proof {
                if all_digits(digits) {
                    assert(digits.subrange(0, digits.len() as int) =~= digits);
                    lemma_digits_value_grows(digits, k - start + 1, digits.len() as int);
                }
            }
            return None;
        }
        magnitude = next;
        k += 1;
    }
    assert(all_digits(digits)) by {
        assert forall|m: int| 0 <= m < digits.len() implies 48 <= #[trigger] digits[m] <= 57 by {
            assert(digits[m] == s@[start + m]);
        }
    }
    if negative {
        Some((0 - magnitude as i64) as i32)
    } else if magnitude > 0x7fff_ffff {
        None
    } else {
        Some(magnitude as i32)
    }
}

proof fn lemma_digits_value_grows(s: Seq<u8>, a: int, b: int)
    requires
        0 <= a <= b <= s.len(),
        all_digits(s.subrange(0, b)),
    ensures
        digits_value(s, 0, a) <= digits_value(s, 0, b),
    decreases b,
{
    if a < b {
        assert(s.subrange(0, b - 1) =~= s.subrange(0, b).subrange(0, b - 1));
        assert(s[b - 1] == s.subrange(0, b)[b - 1]);
        lemma_digits_value_grows(s, a, b - 1);
        lemma_digits_value_nonneg(s, b - 1);
    }
}

proof fn lemma_digits_value_nonneg(s: Seq<u8>, b: int)
    requires
        0 <= b <= s.len(),
        all_digits(s.subrange(0, b)),
    ensures
        digits_value(s, 0, b) >= 0,
    decreases b,
{
    if b > 0 {
        assert(s.subrange(0, b - 1) =~= s.subrange(0, b).subrange(0, b - 1));
        assert(s[b - 1] == s.subrange(0, b)[b - 1]);
        lemma_digits_value_nonneg(s, b - 1);
    }
}

fn deltas_of(line: &[u8]) -> (r: Option<Vec<i32>>)
    ensures
        match line_deltas(line@) {
            Some(ds) => r matches Some(v) && v@.map_values(|d: i32| d as int) == ds,
            None => r is None,
        },
{
    if is_prefix(line, "noop") {
        let mut v: Vec<i32> = Vec::new();
        v.push(0);
        assert(v@.map_values(|d: i32| d as int) =~= seq![0int]);
        Some(v)
    } else if is_prefix(line, "addx ") {
        let skip = "addx ".as_bytes().len();
        match parse_i32(line, skip) {
            None => None,
            Some(x) => {
                let mut v: Vec<i32> = Vec::new();
                v.push(0);
                v.push(x);
                assert(v@.map_values(|d: i32| d as int) =~= seq![0int, x as int]);
                Some(v)
            },
        }
    } else {
        None
    }
}

/// What `line` adds to the register in each of its cycles.
pub fn parse_command(line: &str) -> (r: Vec<i32>)
    requires
        line_deltas(line.spec_bytes()) is Some,
    ensures
        Some(r@.map_values(|d: i32| d as int)) == line_deltas(line.spec_bytes()),
{
    match deltas_of(line.as_bytes()) {
        Some(v) => v,
        None => Vec::new(),
    }
}

/// The deltas of all lines, in order; `None` if a line is no instruction.
pub open spec fn program_deltas(ls: Seq<Seq<u8>>) -> Option<Seq<int>>
    decreases ls.len(),
{
    if ls.len() == 0 {
        Some(seq![])
    } else {
        match (program_deltas(ls.drop_last()), line_deltas(ls.last())) {
            (Some(a), Some(b)) => Some(a + b),
            _ => None,
        }
    }
}

/// The register after the first `n` deltas; it starts at 1.
pub open spec fn register_after(ds: Seq<int>, n: int) -> int
    decreases n,
{
    if n <= 0 {
        1
    } else {
        register_after(ds, n - 1) + ds[n - 1]
    }
}

/// After each delta: the number of the next cycle and the register.
pub open spec fn spec_cycles(ds: Seq<int>) -> Seq<(int, int)> {
    Seq::new(ds.len(), |k: int| (k + 2, register_after(ds, k + 1)))
}

/// Every cycle number and register value is an `i32`.
pub open spec fn cycles_fit(ds: Seq<int>) -> bool {
    &&& ds.len() + 2 <= i32::MAX
    &&& forall|k: int| 0 <= k <= ds.len() ==> i32::MIN <= #[trigger] register_after(ds, k) <= i32::MAX
}

pub open spec fn pairs_view(v: Seq<(i32, i32)>) -> Seq<(int, int)> {
    v.map_values(|p: (i32, i32)| (p.0 as int, p.1 as int))
}

/// The program's deltas as one vector, if every line is an instruction.
fn all_deltas(input: &str) -> (r: Option<Vec<i32>>)
    ensures
        match program_deltas(spec_lines(input.spec_bytes())) {
            Some(ds) => r matches Some(v) && v@.map_values(|d: i32| d as int) == ds,
            None => r is None,
        },
{
    let ls = lines(input.as_bytes());
    let ghost lv = ls@.map_values(|l: Vec<u8>| l@);
    let mut all: Vec<i32> = Vec::new();
    let mut i: usize = 0;
    assert(lv.subrange(0, 0) =~= seq![]);
    while i < ls.len()
        invariant
            i <= ls@.len(),
            lv == ls@.map_values(|l: Vec<u8>| l@),
            lv == spec_lines(input.spec_bytes()),
            program_deltas(lv.subrange(0, i as int)) == Some(all@.map_values(|d: i32| d as int)),
        decreases ls@.len() - i,
    {
        let ghost prefix = lv.subrange(0, i as int + 1);
        assert(prefix.drop_last() =~= lv.subrange(0, i as int));
        assert(prefix.last() == ls@[i as int]@);
        let ds = match deltas_of(ls[i].as_slice()) {
            None => {
                proof {
                    lemma_deltas_fail_on(lv, i as int + 1);
                }
                return None;
            },
            Some(ds) => ds,
        };
        let ghost before = all@.map_values(|d: i32| d as int);
        let mut k: usize = 0;
        while k < ds.len()
            invariant
                k <= ds@.len(),
                all@.map_values(|d: i32| d as int) == before + ds@.map_values(|d: i32| d as int).subrange(
                    0,
                    k as int,
                ),
            decreases ds@.len() - k,
        {
            let ghost prev = all@.map_values(|d: i32| d as int);
            all.push(ds[k]);
            assert(all@.map_values(|d: i32| d as int) =~= prev.push(ds[k as int] as int));
            k += 1;
            assert(all@.map_values(|d: i32| d as int) =~= before + ds@.map_values(|d: i32| d as int).subrange(
                0,
                k as int,
            ));
        }
        assert(ds@.map_values(|d: i32| d as int).subrange(0, k as int) =~= ds@.map_values(|d: i32| d as int));
        i += 1;
    }
    assert(lv.subrange(0, i as int) =~= lv);
    Some(all)
}

/// Once a line is no instruction, the whole program is none.
proof fn lemma_deltas_fail_on(ls: Seq<Seq<u8>>, n: int)
    requires
        0 < n <= ls.len(),
        line_deltas(ls[n - 1]) is None,
    ensures
        program_deltas(ls) is None,
    decreases ls.len(),
{
    if n < ls.len() {
        assert(ls.drop_last()[n - 1] == ls[n - 1]);
        lemma_deltas_fail_on(ls.drop_last(), n);
    } else {
        assert(ls.last() == ls[n - 1]);
    }
}

/// For each cycle after the first: its number and the register at its end.
pub fn cycles(input: &str) -> (r: Vec<(i32, i32)>)
    requires
        program_deltas(spec_lines(input.spec_bytes())) matches Some(ds) && cycles_fit(ds),
    ensures
        program_deltas(spec_lines(input.spec_bytes())) matches Some(ds) && pairs_view(r@)
            == spec_cycles(ds),
{
    match cycles_checked(input) {
        Some(v) => v,
        None => Vec::new(),
    }
}

/// `cycles`, or `None` where a line is no instruction or a number is no `i32`.
fn cycles_checked(input: &str) -> (r: Option<Vec<(i32, i32)>>)
    ensures
        match program_deltas(spec_lines(input.spec_bytes())) {
            Some(ds) => if cycles_fit(ds) {
                r matches Some(v) && pairs_view(v@) == spec_cycles(ds)
            } else {
                r is None
            },
            None => r is None,
        },
{
    let ds = match all_deltas(input) {
        None => return None,
        Some(ds) => ds,
    };
    let ghost dv = ds@.map_values(|d: i32| d as int);
    if ds.len() > 0x7fff_fffd {
        return None;
    }
    let mut out: Vec<(i32, i32)> = Vec::new();
    let mut cycle: i32 = 1;
    let mut x: i32 = 1;
    let mut k: usize = 0;
    while k < ds.len()
        invariant
            dv == ds@.map_values(|d: i32| d as int),
            program_deltas(spec_lines(input.spec_bytes())) == Some(dv),
            ds@.len() <= 0x7fff_fffd,
            k <= ds@.len(),
            cycle == k + 1,
            x == register_after(dv, k as int),
            pairs_view(out@) == spec_cycles(dv).subrange(0, k as int),
            forall|m: int| 0 <= m <= k ==> i32::MIN <= #[trigger] register_after(dv, m) <= i32::MAX,
        decreases ds@.len() - k,
    {
        let next = x as i64 + ds[k] as i64;
        assert(dv[k as int] == ds@[k as int] as int);
        if next < i32::MIN as i64 || next > i32::MAX as i64 {
            assert(register_after(dv, k as int + 1) == next);
            return None;
        }
        cycle = cycle + 1;
        x = next as i32;
        let ghost prev = pairs_view(out@);
        out.push((cycle, x));
        assert(pairs_view(out@) =~= prev.push((k + 2, register_after(dv, k + 1))));
        k += 1;
        assert(pairs_view(out@) =~= spec_cycles(dv).subrange(0, k as int));
    }
    assert(pairs_view(out@) =~= spec_cycles(dv));
    Some(out)
}

/// The remainder of `a` by 40 as Rust's `%` computes it: towards zero.
pub open spec fn rem40(a: int) -> int {
    if a >= 0 {
        a % 40
    } else {
        -((-a) % 40)
    }
}

/// The sprite, three pixels wide and centred on `x`, covers the pixel that
/// `cycle` draws.
pub open spec fn lit(cycle: int, x: int) -> bool {
    let d = x - rem40(cycle - 1);
    -2 < d < 2
}

/// The character drawn for `(cycle, x)`.
pub fn render_pixel(p: (i32, i32)) -> (r: char)
    ensures
        r == (if lit(p.0 as int, p.1 as int) {
            '█'
        } else {
            ' '
        }),
{
    let c = p.0 as i64 - 1;
    let m = if c >= 0 {
        c % 40
    } else {
        -((-c) % 40)
    };
    let d = p.1 as i64 - m;
    if -2 < d && d < 2 {
        '█'
    } else {
        ' '
    }
}

/// The sum of `cycle * x` over the first `n` pairs whose cycle is 20 past a
/// multiple of 40.
pub open spec fn signal(cs: Seq<(int, int)>, n: int) -> int
    decreases n,
{
    if n <= 0 {
        0
    } else {
        signal(cs, n - 1) + if cs[n - 1].0 % 40 == 20 {
            cs[n - 1].0 * cs[n - 1].1
        } else {
            0
        }
    }
}

/// What the screen draws: the start state, then every cycle but the last.
pub open spec fn screen_points(cs: Seq<(int, int)>) -> Seq<(int, int)> {
    if cs.len() == 0 {
        seq![]
    } else {
        seq![(0int, 0int)] + cs.drop_last()
    }
}

pub open spec fn pixel_text(p: (int, int)) -> Seq<char> {
    if lit(p.0, p.1) {
        "█"@
    } else {
        " "@
    }
}

/// The first `n` pixels of `ps`, 40 to a row, rows separated by `\n`.
pub open spec fn picture(ps: Seq<(int, int)>, n: int) -> Seq<char>
    decreases n,
{
    if n <= 0 {
        seq![]
    } else {
        let sep = if n - 1 > 0 && (n - 1) % 40 == 0 {
            "\n"@
        } else {
            seq![]
        };
        picture(ps, n - 1) + sep + pixel_text(ps[n - 1])
    }
}

/// The signal strength and the picture, where every line is an instruction
/// and every number an `i32`.
pub open spec fn spec_day10(s: Seq<u8>) -> Option<(int, Seq<char>)> {
    match program_deltas(spec_lines(s)) {
        Some(ds) => if cycles_fit(ds) {
            let cs = spec_cycles(ds);
            Some((signal(cs, cs.len() as int), picture(screen_points(cs), cs.len() as int)))
        } else {
            None
        },
        None => None,
    }
}

/// Runs the program in `input`: the signal strength and the rendered screen.
pub fn day10(input: &str) -> (r: Option<(i128, String)>)
    ensures
        r matches Some((a, b)) ==> spec_day10(input.spec_bytes()) == Some((a as int, b@)),
        r is None ==> spec_day10(input.spec_bytes()) is None,
{
    let cs = match cycles_checked(input) {
        None => return None,
        Some(v) => v,
    };
    let ghost ds = program_deltas(spec_lines(input.spec_bytes()))->0;
    let ghost cv = pairs_view(cs@);
    assert(cv == spec_cycles(ds));
    let n = cs.len();
    assert(ds.len() == n);
    let mut sum: i128 = 0;
    let mut k: usize = 0;
    while k < n
        invariant
            n == cs@.len(),
            cv == pairs_view(cs@),
            cv == spec_cycles(ds),
            ds.len() == n,
            n <= 0x7fff_ffff,
            k <= n,
            sum == signal(cv, k as int),
            -(k as int) * 0x4000_0000_0000_0000 <= sum <= (k as int) * 0x4000_0000_0000_0000,
        decreases n - k,
    {
        let (c, x) = cs[k];
        assert(cv[k as int] == (c as int, x as int));
        assert(spec_cycles(ds)[k as int] == (k + 2, register_after(ds, k + 1)));
        assert(c == k + 2);
        if (c as u32) % 40 == 20 {
            assert(-0x4000_0000_0000_0000 <= c * x <= 0x4000_0000_0000_0000) by (nonlinear_arith)
                requires
                    0 <= c <= 0x7fff_ffff,
                    -0x8000_0000 <= x <= 0x7fff_ffff,
            ;
            let term = c as i128 * x as i128;
            assert((k as int) * 0x4000_0000_0000_0000 <= 0x7fff_ffff * 0x4000_0000_0000_0000) by (nonlinear_arith)
                requires
                    k <= 0x7fff_ffff,
            ;
            sum = sum + term;
        }
        k += 1;
    }
    let ghost ps = screen_points(cv);
    let mut pic = String::new();
    let mut k: usize = 0;
    while k < n
        invariant
            n == cs@.len(),
            cv == pairs_view(cs@),
            ps == screen_points(cv),
            k <= n,
            pic@ == picture(ps, k as int),
        decreases n - k,
    {
        let p = if k == 0 {
            (0i32, 0i32)
        } else {
            cs[k - 1]
        };
        assert(ps[k as int] == (p.0 as int, p.1 as int));
        if k > 0 && k % 40 == 0 {
            pic.append("\n");
        }
        if render_pixel(p) == '█' {
            pic.append("█");
        } else {
            pic.append(" ");
        }
        k += 1;
        assert(pic@ =~= picture(ps, k as int));
    }
    Some((sum, pic))
}

} // verus!
