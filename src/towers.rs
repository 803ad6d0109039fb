//! Stacks of crates moved by a crane, one crate at a time or several at once.
use crate::text::{char_lines, chars_of, spec_char_lines};
use vstd::utf8::is_ascii_chars;
use vstd::prelude::*;

verus! {

/// Stacks of crates, each bottom first.
#[derive(Debug)]
pub struct Towers(pub Vec<Vec<char>>);

impl View for Towers {
    type V = Seq<Seq<char>>;

    open spec fn view(&self) -> Seq<Seq<char>> {
        self.0@.map_values(|t: Vec<char>| t@)
    }
}

/// A move of `amount` crates from stack `from` to stack `to` is possible.
pub open spec fn move_ok(ts: Seq<Seq<char>>, m: (usize, usize, usize)) -> bool {
    m.1 < ts.len() && m.2 < ts.len() && m.0 <= ts[m.1 as int].len()
}

/// `ts` after the top `amount` crates of `from` are taken off and `moved(top)`
/// is put on `to`.
pub open spec fn after_move(ts: Seq<Seq<char>>, m: (usize, usize, usize), reverse: bool) -> Seq<Seq<char>> {
    let src = ts[m.1 as int];
    let keep = (src.len() - m.0) as int;
    let top = src.subrange(keep, src.len() as int);
    let taken = ts.update(m.1 as int, src.subrange(0, keep));
    let put = if reverse {
        top.reverse()
    } else {
        top
    };
    taken.update(m.2 as int, taken[m.2 as int] + put)
}

/// Whether `c` has the Unicode `Alphabetic` property.
pub uninterp spec fn alphabetic(c: char) -> bool;

/// Relies on `char::is_alphabetic`: the Unicode `Alphabetic` property, which
/// every ASCII letter has and no other ASCII character.
#[verifier::external_body]
fn is_alphabetic(c: char) -> (r: bool)
    ensures
        r == alphabetic(c),
        c <= '\u{7f}' ==> (r <==> ('a' <= c <= 'z') || ('A' <= c <= 'Z')),
{
    c.is_alphabetic()
}

/// The top crate of each stack (a space for an empty one), letters only.
pub open spec fn spec_tops(ts: Seq<Seq<char>>) -> Seq<char>
    decreases ts.len(),
{
    if ts.len() == 0 {
        seq![]
    } else {
        let t = ts.last();
        let c = if t.len() == 0 {
            ' '
        } else {
            t.last()
        };
        if alphabetic(c) {
            spec_tops(ts.drop_last()).push(c)
        } else {
            spec_tops(ts.drop_last())
        }
    }
}

/// Relies on `FromIterator<char>` for `String`: the characters in order.
#[verifier::external_body]
fn string_of(cs: &Vec<char>) -> (r: String)
    ensures
        r@ == cs@,
{
    cs.iter().collect()
}

impl Towers {
    fn take_top(&mut self, amount: usize, from: usize) -> (top: Vec<char>)
        requires
            from < old(self)@.len(),
            amount <= old(self)@[from as int].len(),
        ensures
            ({
                let src = old(self)@[from as int];
                let keep = (src.len() - amount) as int;
                &&& top@ == src.subrange(keep, src.len() as int).reverse()
                &&& final(self)@ == old(self)@.update(from as int, src.subrange(0, keep))
            }),
    {
        let ghost start = self@;
        let ghost src = start[from as int];
        let mut stack: Vec<char> = Vec::new();
        std::mem::swap(&mut stack, &mut self.0[from]);
        assert(stack@ == src);
        let mut top: Vec<char> = Vec::new();
        let mut k: usize = 0;
        while k < amount
            invariant
                k <= amount,
                amount <= src.len(),
                stack@ == src.subrange(0, src.len() - k),
                top@ == src.subrange(src.len() - k, src.len() as int).reverse(),
            decreases amount - k,
        {
            let c = stack.pop().unwrap();
            top.push(c);
            k += 1;
            assert(top@ =~= src.subrange(src.len() - k, src.len() as int).reverse());
        }
        std::mem::swap(&mut stack, &mut self.0[from]);
        assert(self@ =~= start.update(from as int, src.subrange(0, src.len() - amount)));
        top
    }

    fn put_on(&mut self, to: usize, crates: &Vec<char>)
        requires
            to < old(self)@.len(),
        ensures
            final(self)@ == old(self)@.update(to as int, old(self)@[to as int] + crates@),
    {
        let ghost start = self@;
        let mut stack: Vec<char> = Vec::new();
        std::mem::swap(&mut stack, &mut self.0[to]);
        let ghost below = stack@;
        let mut k: usize = 0;
        while k < crates.len()
            invariant
                k <= crates@.len(),
                stack@ == below + crates@.subrange(0, k as int),
            decreases crates@.len() - k,
        {
            stack.push(crates[k]);
            k += 1;
            assert(stack@ =~= below + crates@.subrange(0, k as int));
        }
        assert(crates@.subrange(0, k as int) =~= crates@);
        std::mem::swap(&mut stack, &mut self.0[to]);
        assert(self@ =~= start.update(to as int, start[to as int] + crates@));
    }

    /// Moves `amount` crates from `from` to `to` one at a time, so they
    /// arrive in reverse order.
    pub fn perform_move_a(&mut self, m: (usize, usize, usize))
        requires
            move_ok(old(self)@, m),
        ensures
            final(self)@ == after_move(old(self)@, m, true),
    {
        let (amount, from, to) = m;
        let top = self.take_top(amount, from);
        self.put_on(to, &top);
    }

    /// Moves `amount` crates from `from` to `to` at once, keeping their order.
    pub fn perform_move_b(&mut self, m: (usize, usize, usize))
        requires
            move_ok(old(self)@, m),
        ensures
            final(self)@ == after_move(old(self)@, m, false),
    {
        let (amount, from, to) = m;
        let reversed_top = self.take_top(amount, from);
        let mut top: Vec<char> = Vec::new();
        let n = reversed_top.len();
        let mut k: usize = 0;
        while k < n
            invariant
                k <= n,
                n == reversed_top@.len(),
                top@ == reversed_top@.reverse().subrange(0, k as int),
            decreases n - k,
        {
            top.push(reversed_top[n - 1 - k]);
            k += 1;
            assert(top@ =~= reversed_top@.reverse().subrange(0, k as int));
        }
        assert(reversed_top@.reverse().subrange(0, k as int) =~= reversed_top@.reverse());
        proof {
            let src = old(self)@[from as int];
            let t = src.subrange((src.len() - amount) as int, src.len() as int);
            assert(t.reverse().reverse() =~= t);
        }
        self.put_on(to, &top);
    }

    /// The top crate of every stack, letters only.
    pub fn tops(&self) -> (r: String)
        ensures
            r@ == spec_tops(self@),
    {
        let mut cs: Vec<char> = Vec::new();
        let mut i: usize = 0;
        assert(self@.subrange(0, 0) =~= seq![]);
        while i < self.0.len()
            invariant
                i <= self@.len(),
                cs@ == spec_tops(self@.subrange(0, i as int)),
            decreases self@.len() - i,
        {
            let ghost next = self@.subrange(0, i as int + 1);
            assert(next.drop_last() =~= self@.subrange(0, i as int));
            assert(next.last() == self.0@[i as int]@);
            let t = &self.0[i];
            let c = if t.len() == 0 {
                ' '
            } else {
                t[t.len() - 1]
            };
            if is_alphabetic(c) {
                cs.push(c);
            }
            i += 1;
        }
        assert(self@.subrange(0, i as int) =~= self@);
        string_of(&cs)
    }
}

/// Rust's `char::is_whitespace` on an ASCII character.
pub open spec fn ascii_space(c: char) -> bool {
    c == ' ' || ('\t' <= c <= '\r')
}

/// The number of chunks of four characters a line of length `n` splits into.
pub open spec fn chunk_count(n: int) -> int {
    (n + 3) / 4
}

/// The first `k` chunks of a drawn row put on `ts`: the character at offset
/// 1 of chunk `i`, unless it is a space, goes on stack `i`. `None` where a
/// chunk is too short or names no stack.
pub open spec fn draw_row(ts: Seq<Seq<char>>, row: Seq<char>, k: int) -> Option<Seq<Seq<char>>>
    decreases k,
{
    if k <= 0 {
        Some(ts)
    } else {
        match draw_row(ts, row, k - 1) {
            None => None,
            Some(us) => {
                let at = 4 * (k - 1) + 1;
                if at >= row.len() {
                    None
                } else if ascii_space(row[at]) {
                    Some(us)
                } else if k - 1 >= us.len() {
                    None
                } else {
                    Some(us.update(k - 1, us[k - 1].push(row[at])))
                }
            },
        }
    }
}

/// Rows drawn onto `ts` from the bottom (last) row up.
pub open spec fn draw_rows(ts: Seq<Seq<char>>, rows: Seq<Seq<char>>) -> Option<Seq<Seq<char>>>
    decreases rows.len(),
{
    if rows.len() == 0 {
        Some(ts)
    } else {
        match draw_row(ts, rows.last(), chunk_count(rows.last().len() as int)) {
            None => None,
            Some(us) => draw_rows(us, rows.drop_last()),
        }
    }
}

/// The stacks that a drawing shows; its last line numbers the stacks and
/// its length gives their count.
pub open spec fn spec_setup(s: Seq<char>) -> Option<Seq<Seq<char>>> {
    let ls = spec_char_lines(s);
    if ls.len() == 0 {
        None
    } else {
        let n = ls.last().len() / 4 + 1;
        draw_rows(Seq::new(n as nat, |i: int| Seq::<char>::empty()), ls.drop_last())
    }
}

fn draw(ts: &mut Vec<Vec<char>>, row: &Vec<char>) -> (ok: bool)
    ensures
        match draw_row(
            old(ts)@.map_values(|t: Vec<char>| t@),
            row@,
            chunk_count(row@.len() as int),
        ) {
            Some(us) => ok && final(ts)@.map_values(|t: Vec<char>| t@) == us,
            None => !ok,
        },
{
    let ghost start = ts@.map_values(|t: Vec<char>| t@);
    let n = row.len();
    let chunks = n / 4 + if n % 4 == 0 { 0 } else { 1 };
    assert(chunks == chunk_count(n as int));
    let mut k: usize = 0;
    while k < chunks
        invariant
            start == old(ts)@.map_values(|t: Vec<char>| t@),
            k <= chunks,
            n == row@.len(),
            chunks == chunk_count(n as int),
            draw_row(start, row@, k as int) == Some(ts@.map_values(|t: Vec<char>| t@)),
        decreases chunks - k,
    {
        let at = 4 * k + 1;
        if at >= n {
            proof {
                lemma_draw_fails(start, row@, k as int + 1, chunks as int);
            }
            return false;
        }
        let c = row[at];
        if !(c == ' ' || ('\t' <= c && c <= '\r')) {
            if k >= ts.len() {
                proof {
                    lemma_draw_fails(start, row@, k as int + 1, chunks as int);
                }
                return false;
            }
            let ghost before = ts@.map_values(|t: Vec<char>| t@);
            let mut stack: Vec<char> = Vec::new();
            std::mem::swap(&mut stack, &mut ts[k]);
            stack.push(c);
            std::mem::swap(&mut stack, &mut ts[k]);
            assert(ts@.map_values(|t: Vec<char>| t@) =~= before.update(k as int, before[k as int].push(c)));
        }
        k += 1;
    }
    true
}

proof fn lemma_draw_fails(ts: Seq<Seq<char>>, row: Seq<char>, a: int, b: int)
    requires
        0 < a <= b,
        draw_row(ts, row, a) is None,
    ensures
        draw_row(ts, row, b) is None,
    decreases b - a,
{
    if a < b {
        lemma_draw_fails(ts, row, a, b - 1);
    }
}

/// The stacks of a drawing, or `None` where it has no line, a chunk is too
/// short or a crate names no stack.
fn setup_checked(ls: &Vec<Vec<char>>) -> (r: Option<Towers>)
    ensures
        ({
            let lv = ls@.map_values(|l: Vec<char>| l@);
            match (if lv.len() == 0 {
                None
            } else {
                draw_rows(
                    Seq::new((lv.last().len() / 4 + 1) as nat, |i: int| Seq::<char>::empty()),
                    lv.drop_last(),
                )
            }) {
                Some(ts) => r matches Some(t) && t@ == ts,
                None => r is None,
            }
        }),
{
    let ghost lv = ls@.map_values(|l: Vec<char>| l@);
    let m = ls.len();
    if m == 0 {
        return None;
    }
    let count = ls[m - 1].len() / 4 + 1;
    let mut ts: Vec<Vec<char>> = Vec::new();
    let mut i: usize = 0;
    while i < count
        invariant
            i <= count,
            ts@.len() == i,
            forall|j: int| 0 <= j < i ==> (#[trigger] ts@[j])@.len() == 0,
        decreases count - i,
    {
        ts.push(Vec::new());
        i += 1;
    }
    let ghost empty = Seq::new(count as nat, |i: int| Seq::<char>::empty());
    assert forall|j: int| 0 <= j < count implies (#[trigger] ts@[j])@ == Seq::<char>::empty() by {
        assert(ts@[j]@ =~= Seq::<char>::empty());
    }
    assert(ts@.map_values(|t: Vec<char>| t@) =~= empty);
    assert(lv.last() == ls@[m - 1]@);
    let ghost rows = lv.drop_last();
    let mut r: usize = m - 1;
    assert(rows.subrange(0, r as int) =~= rows);
    while r > 0
        invariant
            r <= m - 1,
            m == ls@.len(),
            m > 0,
            empty == Seq::new((lv.last().len() / 4 + 1) as nat, |i: int| Seq::<char>::empty()),
            rows == lv.drop_last(),
            lv == ls@.map_values(|l: Vec<char>| l@),
            draw_rows(empty, rows) == draw_rows(ts@.map_values(|t: Vec<char>| t@), rows.subrange(0, r as int)),
        decreases r,
    {
        let ghost part = rows.subrange(0, r as int);
        assert(part.drop_last() =~= rows.subrange(0, r - 1));
        assert(part.last() == ls@[r - 1]@);
        if !draw(&mut ts, &ls[r - 1]) {
            return None;
        }
        r -= 1;
    }
    assert(rows.subrange(0, 0) =~= seq![]);
    Some(Towers(ts))
}

/// The stacks drawn by an ASCII drawing.
pub fn parse_towers_setup(towers: &str) -> (r: Towers)
    requires
        is_ascii_chars(towers@),
        spec_setup(towers@) is Some,
    ensures
        r@ == spec_setup(towers@)->0,
{
    let chars = chars_of(towers);
    let ls = char_lines(&chars);
    match setup_checked(&ls) {
        Some(t) => t,
        None => Towers(Vec::new()),
    }
}

pub open spec fn tag_chars(s: Seq<char>, p: int, lit: Seq<char>) -> bool {
    0 <= p && p + lit.len() <= s.len() && s.subrange(p, p + lit.len()) == lit
}

pub open spec fn is_dec(c: char) -> bool {
    '0' <= c <= '9'
}

/// Offset just past the run of decimal digits that starts at `p`.
pub open spec fn dec_end(s: Seq<char>, p: int) -> int
    decreases s.len() - p,
{
    if 0 <= p < s.len() && is_dec(s[p]) {
        dec_end(s, p + 1)
    } else {
        p
    }
}

/// The value of the digits `s[from..to]`.
pub open spec fn dec_value(s: Seq<char>, from: int, to: int) -> int
    decreases to - from,
{
    if to <= from {
        0
    } else {
        dec_value(s, from, to - 1) * 10 + (s[to - 1] as int - 48)
    }
}

/// The three numbers of `move a from f to t` when it starts at `p`.
#[verifier::opaque]
pub open spec fn move_at(s: Seq<char>, p: int) -> Option<(int, int, int)> {
    let a0 = p + "move "@.len();
    let a1 = dec_end(s, a0);
    let f0 = a1 + " from "@.len();
    let f1 = dec_end(s, f0);
    let t0 = f1 + " to "@.len();
    let t1 = dec_end(s, t0);
    if tag_chars(s, p, "move "@) && a1 > a0 && tag_chars(s, a1, " from "@) && f1 > f0 && tag_chars(
        s,
        f1,
        " to "@,
    ) && t1 > t0 {
        Some((dec_value(s, a0, a1), dec_value(s, f0, f1), dec_value(s, t0, t1)))
    } else {
        None
    }
}

/// The numbers of the leftmost `move a from f to t` in `s`.
#[verifier::opaque]
pub open spec fn first_move(s: Seq<char>) -> Option<(int, int, int)> {
    if exists|p: int| 0 <= p <= s.len() && #[trigger] move_at(s, p) is Some {
        move_at(
            s,
            choose|p: int|
                0 <= p <= s.len() && #[trigger] move_at(s, p) is Some && forall|q: int|
                    0 <= q < p ==> move_at(s, q) is None,
        )
    } else {
        None
    }
}

/// The leftmost move would stop the crane: its stack numbers fit but one is zero.
pub open spec fn zero_stack(s: Seq<char>) -> bool {
    match first_move(s) {
        Some((a, f, t)) => fit(a) is Some && fit(f) is Some && (f == 0 || (fit(t) is Some && t
            == 0)),
        None => false,
    }
}

/// The leftmost move with stacks counted from zero; `None` where there is
/// none or a number is no `usize`.
pub open spec fn spec_instruction(s: Seq<char>) -> Option<(usize, usize, usize)> {
    match first_move(s) {
        Some((a, f, t)) => match (fit(a), fit(f), fit(t)) {
            (Some(a), Some(f), Some(t)) => Some((a, (f - 1) as usize, (t - 1) as usize)),
            _ => None,
        },
        None => None,
    }
}

proof fn lemma_dec_end(s: Seq<char>, p: int)
    requires
        0 <= p <= s.len(),
    ensures
        p <= dec_end(s, p) <= s.len(),
        forall|k: int| p <= k < dec_end(s, p) ==> is_dec(#[trigger] s[k]),
    decreases s.len() - p,
{
    if p < s.len() && is_dec(s[p]) {
        lemma_dec_end(s, p + 1);
    }
}

proof fn lemma_dec_value_grows(s: Seq<char>, from: int, a: int, b: int)
    requires
        0 <= from <= a <= b <= s.len(),
        forall|k: int| from <= k < b ==> is_dec(#[trigger] s[k]),
    ensures
        0 <= dec_value(s, from, a) <= dec_value(s, from, b),
    decreases b - from,
{
    if a < b {
        lemma_dec_value_grows(s, from, a, b - 1);
    } else if from < a {
        lemma_dec_value_grows(s, from, a - 1, a - 1);
    }
}

fn tag_at_chars(s: &Vec<char>, p: usize, lit: &Vec<char>) -> (r: bool)
    requires
        p <= s@.len(),
    ensures
        r == tag_chars(s@, p as int, lit@),
{
    let n = s.len();
    if lit.len() > n - p {
        return false;
    }
    let mut i: usize = 0;
    while i < lit.len()
        invariant
            n == s@.len(),
            i <= lit@.len(),
            p + lit@.len() <= s@.len(),
            forall|k: int| 0 <= k < i ==> s@[p + k] == lit@[k],
        decreases lit@.len() - i,
    {
        if s[p + i] != lit[i] {
            assert(s@.subrange(p as int, p + lit@.len())[i as int] != lit@[i as int]);
            return false;
        }
        i += 1;
    }
    assert(s@.subrange(p as int, p + lit@.len()) =~= lit@);
    true
}

/// The end of the digit run at `p`, and its value if it is a `usize`.
fn digits_at(s: &Vec<char>, p: usize) -> (r: (usize, Option<usize>))
    requires
        p <= s@.len(),
    ensures
        r.0 == dec_end(s@, p as int),
        r.1 == (if dec_value(s@, p as int, r.0 as int) <= usize::MAX {
            Some(dec_value(s@, p as int, r.0 as int) as usize)
        } else {
            None
        }),
{
    let n = s.len();
    let mut i = p;
    let mut v: usize = 0;
    let mut big = false;
    while i < n && '0' <= s[i] && s[i] <= '9'
        invariant
            p <= i <= n,
            n == s@.len(),
            dec_end(s@, p as int) == dec_end(s@, i as int),
            forall|k: int| p <= k < i ==> is_dec(#[trigger] s@[k]),
            big ==> dec_value(s@, p as int, i as int) > usize::MAX,
            !big ==> v == dec_value(s@, p as int, i as int),
        decreases n - i,
    {
        let d = (s[i] as u32 - 48) as usize;
        if !big {
            if v > (usize::MAX - d) / 10 {
                assert(v * 10 + d > usize::MAX) by (nonlinear_arith)
                    requires
                        v > (usize::MAX - d) / 10,
                        0 <= d <= 9,
                ;
                big = true;
            } else {
                assert(v * 10 + d <= usize::MAX) by (nonlinear_arith)
                    requires
                        v <= (usize::MAX - d) / 10,
                        0 <= d <= 9,
                ;
                v = v * 10 + d;
            }
        } else {
            proof {
                lemma_dec_value_grows(s@, p as int, i as int, i as int);
            }
        }
        i += 1;
    }
    if big {
        (i, None)
    } else {
        (i, Some(v))
    }
}

/// `x` as a `usize`, if it is one.
pub open spec fn fit(x: int) -> Option<usize> {
    if 0 <= x <= usize::MAX {
        Some(x as usize)
    } else {
        None
    }
}

fn move_at_exec(s: &Vec<char>, p: usize, mv: &Vec<char>, from_: &Vec<char>, to_: &Vec<char>) -> (r: Option<
    (Option<usize>, Option<usize>, Option<usize>),
>)
    requires
        p <= s@.len(),
        mv@ == "move "@,
        from_@ == " from "@,
        to_@ == " to "@,
    ensures
        match move_at(s@, p as int) {
            None => r is None,
            Some((a, f, t)) => r == Some((fit(a), fit(f), fit(t))),
        },
{
    reveal(move_at);
    let n = s.len();
    if !tag_at_chars(s, p, mv) {
        return None;
    }
    let a0 = p + mv.len();
    let (a1, a) = digits_at(s, a0);
    proof {
        lemma_dec_end(s@, a0 as int);
        lemma_dec_value_grows(s@, a0 as int, a0 as int, a1 as int);
    }
    if a1 == a0 || !tag_at_chars(s, a1, from_) {
        return None;
    }
    let f0 = a1 + from_.len();
    let (f1, f) = digits_at(s, f0);
    proof {
        lemma_dec_end(s@, f0 as int);
        lemma_dec_value_grows(s@, f0 as int, f0 as int, f1 as int);
    }
    if f1 == f0 || !tag_at_chars(s, f1, to_) {
        return None;
    }
    let t0 = f1 + to_.len();
    let (t1, tv) = digits_at(s, t0);
    proof {
        lemma_dec_end(s@, t0 as int);
        lemma_dec_value_grows(s@, t0 as int, t0 as int, t1 as int);
    }
    if t1 == t0 {
        return None;
    }
    Some((a, f, tv))
}

/// The numbers of the leftmost move in `s`, each `None` where it is no `usize`.
fn first_move_exec(s: &Vec<char>) -> (r: Option<(Option<usize>, Option<usize>, Option<usize>)>)
    ensures
        match first_move(s@) {
            None => r is None,
            Some((a, f, t)) => r == Some((fit(a), fit(f), fit(t))),
        },
{
    let mv = chars_of("move ");
    let from_ = chars_of(" from ");
    let to_ = chars_of(" to ");
    let n = s.len();
    let mut p: usize = 0;
    while p < n
        invariant
            n == s@.len(),
            p <= n,
            mv@ == "move "@,
            from_@ == " from "@,
            to_@ == " to "@,
            forall|q: int| 0 <= q < p ==> #[trigger] move_at(s@, q) is None,
        decreases n + 1 - p,
    {
        let r = move_at_exec(s, p, &mv, &from_, &to_);
        if r.is_some() {
            proof {
                reveal(first_move);
                let w = choose|q: int|
                    0 <= q <= s@.len() && #[trigger] move_at(s@, q) is Some && forall|k: int|
                        0 <= k < q ==> move_at(s@, k) is None;
                assert(0 <= p <= s@.len() && move_at(s@, p as int) is Some && forall|k: int|
                    0 <= k < p ==> move_at(s@, k) is None);
                if w < p {
                    assert(move_at(s@, w) is None);
                } else if w > p {
                    assert(move_at(s@, p as int) is None);
                }
            }
            return r;
        }
        p += 1;
    }
    let r = move_at_exec(s, n, &mv, &from_, &to_);
    if r.is_some() {
        proof {
            reveal(first_move);
            let w = choose|q: int|
                0 <= q <= s@.len() && #[trigger] move_at(s@, q) is Some && forall|k: int|
                    0 <= k < q ==> move_at(s@, k) is None;
            assert(0 <= n <= s@.len() && move_at(s@, n as int) is Some && forall|k: int|
                0 <= k < n ==> move_at(s@, k) is None);
            if w < n {
                assert(move_at(s@, w) is None);
            } else if w > n {
                assert(move_at(s@, n as int) is None);
            }
        }
        return r;
    }
    assert forall|q: int| 0 <= q <= s@.len() implies !(#[trigger] move_at(s@, q) is Some) by {
        assert(move_at(s@, q) is None);
    }
    proof {
        reveal(first_move);
    }
    None
}

/// The leftmost `move a from f to t` in `instruction`, stacks counted from zero.
pub fn parse_instruction(instruction: &str) -> (r: Option<(usize, usize, usize)>)
    requires
        !zero_stack(instruction@),
    ensures
        r == spec_instruction(instruction@),
{
    let s = chars_of(instruction);
    match first_move_exec(&s) {
        Some((Some(a), Some(f), Some(t))) => Some((a, f - 1, t - 1)),
        _ => None,
    }
}

/// The moves of the instruction lines; lines without a move are skipped,
/// and `None` where a line names stack zero.
pub open spec fn moves_of(ls: Seq<Seq<char>>) -> Option<Seq<(usize, usize, usize)>>
    decreases ls.len(),
{
    if ls.len() == 0 {
        Some(seq![])
    } else {
        match moves_of(ls.drop_last()) {
            None => None,
            Some(ms) => if zero_stack(ls.last()) {
                None
            } else {
                match spec_instruction(ls.last()) {
                    Some(m) => Some(ms.push(m)),
                    None => Some(ms),
                }
            },
        }
    }
}

/// The stacks after the moves, in order; `None` where a move is impossible.
pub open spec fn apply_moves(ts: Seq<Seq<char>>, ms: Seq<(usize, usize, usize)>, reverse: bool) -> Option<
    Seq<Seq<char>>,
>
    decreases ms.len(),
{
    if ms.len() == 0 {
        Some(ts)
    } else {
        match apply_moves(ts, ms.drop_last(), reverse) {
            None => None,
            Some(us) => if move_ok(us, ms.last()) {
                Some(after_move(us, ms.last(), reverse))
            } else {
                None
            },
        }
    }
}

/// Offset of the first empty line, as `str::split_once("\n\n")` finds it.
pub open spec fn blank_at(s: Seq<char>, p: int) -> bool {
    0 <= p && p + 1 < s.len() && s[p] == '\n' && s[p + 1] == '\n'
}

/// The drawing before the first empty line and the instructions after it.
#[verifier::opaque]
pub open spec fn split_blank(s: Seq<char>) -> Option<(Seq<char>, Seq<char>)> {
    if exists|p: int| #[trigger] blank_at(s, p) {
        let p = choose|p: int| #[trigger] blank_at(s, p) && forall|q: int| 0 <= q < p ==> !blank_at(s, q);
        Some((s.subrange(0, p), s.subrange(p + 2, s.len() as int)))
    } else {
        None
    }
}

/// The top crates after all moves one at a time, and after all moves as
/// blocks; `None` for other than ASCII text, a text without an empty line, a
/// malformed drawing, a move naming stack zero, or an impossible move.
pub open spec fn spec_day05(s: Seq<char>) -> Option<(Seq<char>, Seq<char>)> {
    if !is_ascii_chars(s) {
        None
    } else {
        match split_blank(s) {
            None => None,
            Some((top, rest)) => match (spec_setup(top), moves_of(spec_char_lines(rest))) {
                (Some(ts), Some(ms)) => match (apply_moves(ts, ms, true), apply_moves(ts, ms, false)) {
                    (Some(a), Some(b)) => Some((spec_tops(a), spec_tops(b))),
                    _ => None,
                },
                _ => None,
            },
        }
    }
}

proof fn lemma_moves_fail_on(ls: Seq<Seq<char>>, n: int)
    requires
        0 < n <= ls.len(),
        zero_stack(ls[n - 1]),
    ensures
        moves_of(ls) is None,
    decreases ls.len(),
{
    if n < ls.len() {
        assert(ls.drop_last()[n - 1] == ls[n - 1]);
        lemma_moves_fail_on(ls.drop_last(), n);
    } else {
        assert(ls.last() == ls[n - 1]);
    }
}

/// The moves of a prefix of the lines are a prefix of all moves.
proof fn lemma_moves_prefix(ls: Seq<Seq<char>>, n: int)
    requires
        0 <= n <= ls.len(),
        moves_of(ls) is Some,
    ensures
        moves_of(ls.subrange(0, n)) matches Some(ps) && ps.len() <= moves_of(ls)->0.len() && ps
            == moves_of(ls)->0.subrange(0, ps.len() as int),
    decreases ls.len(),
{
    if n == ls.len() {
        assert(ls.subrange(0, n) =~= ls);
        assert(moves_of(ls)->0.subrange(0, moves_of(ls)->0.len() as int) =~= moves_of(ls)->0);
    } else {
        assert(ls.drop_last().subrange(0, n) =~= ls.subrange(0, n));
        lemma_moves_prefix(ls.drop_last(), n);
        let a = moves_of(ls.drop_last())->0;
        let ps = moves_of(ls.subrange(0, n))->0;
        assert(ps =~= moves_of(ls)->0.subrange(0, ps.len() as int)) by {
            assert forall|k: int| 0 <= k < ps.len() implies ps[k] == moves_of(ls)->0[k] by {
                assert(ps[k] == a[k]);
            }
        }
    }
}

/// Once a move is impossible, no longer list of moves can be applied.
proof fn lemma_apply_fails(ts: Seq<Seq<char>>, ms: Seq<(usize, usize, usize)>, n: int, reverse: bool)
    requires
        0 <= n <= ms.len(),
        apply_moves(ts, ms.subrange(0, n), reverse) is None,
    ensures
        apply_moves(ts, ms, reverse) is None,
    decreases ms.len(),
{
    if n == ms.len() {
        assert(ms.subrange(0, n) =~= ms);
    } else {
        assert(ms.drop_last().subrange(0, n) =~= ms.subrange(0, n));
        lemma_apply_fails(ts, ms.drop_last(), n, reverse);
    }
}

fn copy_chars(v: &Vec<char>, from: usize, to: usize) -> (r: Vec<char>)
    requires
        from <= to <= v@.len(),
    ensures
        r@ == v@.subrange(from as int, to as int),
{
    let mut r: Vec<char> = Vec::new();
    let mut k = from;
    while k < to
        invariant
            from <= k <= to,
            to <= v@.len(),
            r@ == v@.subrange(from as int, k as int),
        decreases to - k,
    {
        r.push(v[k]);
        k += 1;
        assert(r@ =~= v@.subrange(from as int, k as int));
    }
    r
}

fn split_blank_exec(s: &Vec<char>) -> (r: Option<(Vec<char>, Vec<char>)>)
    ensures
        match split_blank(s@) {
            Some((a, b)) => r matches Some((x, y)) && x@ == a && y@ == b,
            None => r is None,
        },
{
    reveal(split_blank);
    let n = s.len();
    let mut p: usize = 0;
    while n > 0 && p < n - 1
        invariant
            n == s@.len(),
            p <= n,
            forall|q: int| 0 <= q < p ==> !#[trigger] blank_at(s@, q),
        decreases n - p,
    {
        if s[p] == '\n' && s[p + 1] == '\n' {
            proof {
                reveal(split_blank);
                assert(blank_at(s@, p as int));
                let w = choose|q: int| #[trigger] blank_at(s@, q) && forall|k: int| 0 <= k < q ==> !blank_at(s@, k);
                assert(blank_at(s@, p as int) && forall|k: int| 0 <= k < p ==> !blank_at(s@, k));
                if w < p {
                    assert(!blank_at(s@, w));
                } else if w > p {
                    assert(!blank_at(s@, p as int));
                }
            }
            return Some((copy_chars(s, 0, p), copy_chars(s, p + 2, n)));
        }
        p += 1;
    }
    assert forall|q: int| !#[trigger] blank_at(s@, q) by {
        if 0 <= q < p {
        }
    }
    None
}

/// Runs the instructions of `input` on its drawing with both cranes and
/// reads the top crates.
pub fn day05(input: &str) -> (r: Option<(String, String)>)
    ensures
        r matches Some((a, b)) ==> spec_day05(input@) == Some((a@, b@)),
        r is None ==> spec_day05(input@) is None,
{
    if !input.is_ascii() {
        return None;
    }
    let s = chars_of(input);
    let (top, rest) = match split_blank_exec(&s) {
        None => return None,
        Some(x) => x,
    };
    let tl = char_lines(&top);
    let mut ta = match setup_checked(&tl) {
        None => return None,
        Some(t) => t,
    };
    let mut tb = match setup_checked(&tl) {
        None => return None,
        Some(t) => t,
    };
    let ghost ts0 = ta@;
    let rl = char_lines(&rest);
    let ghost rv = rl@.map_values(|l: Vec<char>| l@);
    let ghost mut ms: Seq<(usize, usize, usize)> = seq![];
    let mut i: usize = 0;
    assert(rv.subrange(0, 0) =~= seq![]);
    while i < rl.len()
        invariant
            i <= rl@.len(),
            rv == rl@.map_values(|l: Vec<char>| l@),
            rv == spec_char_lines(rest@),
            split_blank(input@) == Some((top@, rest@)),
            spec_setup(top@) == Some(ts0),
            is_ascii_chars(input@),
            moves_of(rv.subrange(0, i as int)) == Some(ms),
            apply_moves(ts0, ms, true) == Some(ta@),
            apply_moves(ts0, ms, false) == Some(tb@),
        decreases rl@.len() - i,
    {
        let ghost next = rv.subrange(0, i as int + 1);
        assert(next.drop_last() =~= rv.subrange(0, i as int));
        assert(next.last() == rl@[i as int]@);
        let line = &rl[i];
        if let Some((Some(a), Some(f), tt)) = first_move_exec(line) {
            if f == 0 {
                proof {
                    lemma_moves_fail_on(rv, i as int + 1);
                }
                return None;
            }
            if let Some(tv) = tt {
                if tv == 0 {
                    proof {
                        lemma_moves_fail_on(rv, i as int + 1);
                    }
                    return None;
                }
                let m = (a, f - 1, tv - 1);
                assert(moves_of(next) == Some(ms.push(m)));
                let ok_a = m.1 < ta.0.len() && m.2 < ta.0.len() && m.0 <= ta.0[m.1].len();
                let ok_b = m.1 < tb.0.len() && m.2 < tb.0.len() && m.0 <= tb.0[m.1].len();
                if !ok_a || !ok_b {
                    proof {
                        if ok_a {
                            assert(!move_ok(tb@, m));
                        } else {
                            assert(!move_ok(ta@, m));
                        }
                        if moves_of(rv) is Some {
                            lemma_moves_prefix(rv, i as int + 1);
                            let all = moves_of(rv)->0;
                            assert(all.subrange(0, ms.len() as int + 1) == ms.push(m));
                            assert(ms.push(m).drop_last() =~= ms);
                            if !ok_a {
                                lemma_apply_fails(ts0, all, ms.len() as int + 1, true);
                            } else {
                                lemma_apply_fails(ts0, all, ms.len() as int + 1, false);
                            }
                        }
                        assert(rv.subrange(0, rv.len() as int) =~= rv);
                    }
                    return None;
                }
                ta.perform_move_a(m);
                tb.perform_move_b(m);
                proof {
                    assert(ms.push(m).drop_last() =~= ms);
                    ms = ms.push(m);
                }
            }
        }
        i += 1;
    }
    assert(rv.subrange(0, i as int) =~= rv);
    Some((ta.tops(), tb.tops()))
}

} // verus!
