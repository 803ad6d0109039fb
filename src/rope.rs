//! A rope whose knots follow each other across a grid.
use crate::text::{char_lines, chars_of, spec_char_lines};
use itertools::Itertools;
use vstd::prelude::*;
use vstd::string::{StrSliceExecFns, StringExecFns};

verus! {

#[derive(Clone, Copy, Debug, PartialEq, Eq, Structural)]
pub enum Direction {
    R,
    U,
    L,
    D,
}

/// Move `length` steps towards `direction`.
#[derive(Clone, Copy, Debug, PartialEq, Eq, Structural)]
pub struct Command {
    pub direction: Direction,
    pub length: usize,
}

/// Why a line is no command.
#[derive(Clone, Copy, Debug, PartialEq, Eq, Structural)]
pub enum CommandErrorKind {
    /// There is no space in the line.
    Malformed,
    /// The text before the first space is none of `U D L R`.
    UnknownDirection,
    /// The text after the first space is no `usize`.
    BadLength,
}

/// A rejected line: the reason and the offending text.
#[derive(Debug)]
pub struct CommandError {
    pub kind: CommandErrorKind,
    pub text: String,
}

/// Index of the first space in `s`, if any.
pub open spec fn first_space(s: Seq<char>) -> Option<int> {
    if exists|k: int| 0 <= k < s.len() && s[k] == ' ' {
        Some(choose|k: int| 0 <= k < s.len() && s[k] == ' ' && forall|m: int| 0 <= m < k ==> s[m] != ' ')
    } else {
        None
    }
}

/// The direction that a one-letter text names.
pub open spec fn direction_of(s: Seq<char>) -> Option<Direction> {
    if s.len() != 1 {
        None
    } else if s[0] == 'U' {
        Some(Direction::U)
    } else if s[0] == 'D' {
        Some(Direction::D)
    } else if s[0] == 'L' {
        Some(Direction::L)
    } else if s[0] == 'R' {
        Some(Direction::R)
    } else {
        None
    }
}

/// The value of the decimal digits `s[0..n]`.
pub open spec fn char_digits_value(s: Seq<char>, n: int) -> int
    decreases n,
{
    if n <= 0 {
        0
    } else {
        char_digits_value(s, n - 1) * 10 + (s[n - 1] as int - 48)
    }
}

pub open spec fn all_char_digits(s: Seq<char>) -> bool {
    forall|k: int| 0 <= k < s.len() ==> '0' <= #[trigger] s[k] <= '9'
}

/// A `usize` as `usize::from_str` reads it: an optional `+` and digits.
pub open spec fn usize_value(s: Seq<char>) -> Option<usize> {
    let digits = if s.len() > 0 && s[0] == '+' {
        s.drop_first()
    } else {
        s
    };
    let v = char_digits_value(digits, digits.len() as int);
    if digits.len() > 0 && all_char_digits(digits) && v <= usize::MAX {
        Some(v as usize)
    } else {
        None
    }
}

/// The command a line describes, or why it describes none and the text at fault.
pub open spec fn spec_command(s: Seq<char>) -> Result<Command, (CommandErrorKind, Seq<char>)> {
    match first_space(s) {
        None => Err((CommandErrorKind::Malformed, s)),
        Some(k) => {
            let d = s.subrange(0, k);
            let rest = s.subrange(k + 1, s.len() as int);
            match direction_of(d) {
                None => Err((CommandErrorKind::UnknownDirection, d)),
                Some(direction) => match usize_value(rest) {
                    None => Err((CommandErrorKind::BadLength, rest)),
                    Some(length) => Ok(Command { direction, length }),
                },
            }
        },
    }
}

proof fn lemma_char_value_grows(s: Seq<char>, a: int, b: int)
    requires
        0 <= a <= b <= s.len(),
        all_char_digits(s),
    ensures
        0 <= char_digits_value(s, a) <= char_digits_value(s, b),
    decreases b,
{
    if a < b {
        lemma_char_value_grows(s, a, b - 1);
    } else if a > 0 {
        lemma_char_value_grows(s, a - 1, a - 1);
    }
}

fn usize_of(s: &Vec<char>, from: usize) -> (r: Option<usize>)
    requires
        from <= s@.len(),
    ensures
        r == usize_value(s@.subrange(from as int, s@.len() as int)),
{
    let ghost t = s@.subrange(from as int, s@.len() as int);
    let n = s.len();
    let start = if from < n && s[from] == '+' {
        from + 1
    } else {
        from
    };
    let ghost digits = s@.subrange(start as int, n as int);
    assert(digits =~= (if start > from { t.drop_first() } else { t }));
    if start == n {
        return None;
    }
    let mut k = start;
    let mut v: usize = 0;
    while k < n
        invariant
            from <= start < n,
            n == s@.len(),
            start <= k <= n,
            t == s@.subrange(from as int, n as int),
            (start > from) == (t.len() > 0 && t[0] == '+'),
            start == from || start == from + 1,
            digits == s@.subrange(start as int, n as int),
            digits == (if start > from {
                t.drop_first()
            } else {
                t
            }),
            v == char_digits_value(digits, k - start),
            forall|m: int| start <= m < k ==> '0' <= #[trigger] s@[m] <= '9',
        decreases n - k,
    {
        let c = s[k];
        assert(digits[k - start] == c);
        if c < '0' || c > '9' {
            return None;
        }
        let d = (c as u32 - 48) as usize;
        if v > (usize::MAX - d) / 10 {
            proof {
                if all_char_digits(digits) {
                    assert(char_digits_value(digits, k - start + 1) > usize::MAX) by (nonlinear_arith)
                        requires
                            char_digits_value(digits, k - start + 1) == v * 10 + d,
                            v > (usize::MAX - d) / 10,
                            0 <= d <= 9,
                    ;
                    lemma_char_value_grows(digits, k - start + 1, digits.len() as int);
                }
            }
            return None;
        }
        assert(v * 10 + d <= usize::MAX) by (nonlinear_arith)
            requires
                v <= (usize::MAX - d) / 10,
                0 <= d <= 9,
        ;
        v = v * 10 + d;
        k += 1;
    }
    assert(all_char_digits(digits)) by {
        assert forall|m: int| 0 <= m < digits.len() implies '0' <= #[trigger] digits[m] <= '9' by {
            assert(digits[m] == s@[start + m]);
        }
    }
    Some(v)
}

/// The command on a line, or the reason and the range of the text at fault.
fn command_of(s: &Vec<char>) -> (r: Result<Command, (CommandErrorKind, usize, usize)>)
    ensures
        match r {
            Ok(c) => spec_command(s@) == Ok::<Command, (CommandErrorKind, Seq<char>)>(c),
            Err((kind, from, to)) => from <= to <= s@.len() && spec_command(s@) == Err::<
                Command,
                (CommandErrorKind, Seq<char>),
            >((kind, s@.subrange(from as int, to as int))),
        },
{
    let n = s.len();
    let mut k: usize = 0;
    while k < n && s[k] != ' '
        invariant
            k <= n,
            n == s@.len(),
            forall|m: int| 0 <= m < k ==> s@[m] != ' ',
        decreases n - k,
    {
        k += 1;
    }
    if k == n {
        assert(s@.subrange(0, n as int) =~= s@);
        return Err((CommandErrorKind::Malformed, 0, n));
    }
    proof {
        let c = choose|j: int| 0 <= j < s@.len() && s@[j] == ' ' && forall|m: int| 0 <= m < j ==> s@[m] != ' ';
        assert(exists|j: int| 0 <= j < s@.len() && s@[j] == ' ' && forall|m: int| 0 <= m < j ==> s@[m] != ' ') by {
            assert(0 <= k < s@.len() && s@[k as int] == ' ');
        }
        if c < k {
            assert(s@[c] != ' ');
        } else if c > k {
            assert(s@[k as int] != ' ');
        }
        assert(first_space(s@) == Some(k as int));
    }
    let ghost d = s@.subrange(0, k as int);
    let direction = if k == 1 && s[0] == 'U' {
        Direction::U
    } else if k == 1 && s[0] == 'D' {
        Direction::D
    } else if k == 1 && s[0] == 'L' {
        Direction::L
    } else if k == 1 && s[0] == 'R' {
        Direction::R
    } else {
        assert(direction_of(d) is None) by {
            if k == 1 {
                assert(d[0] == s@[0]);
            } else {
                assert(d.len() != 1);
            }
        }
        return Err((CommandErrorKind::UnknownDirection, 0, k));
    };
    assert(d[0] == s@[0]);
    match usize_of(s, k + 1) {
        None => Err((CommandErrorKind::BadLength, k + 1, n)),
        Some(length) => Ok(Command { direction, length }),
    }
}

impl CommandError {
    /// The message for this error.
    pub fn to_string(&self) -> (r: String)
        ensures
            r@ == error_message(self.kind, self.text@),
    {
        let mut s = String::new();
        match self.kind {
            CommandErrorKind::Malformed => s.append("Malformated Command: "),
            CommandErrorKind::UnknownDirection => s.append("Cannot Parse Direction: "),
            CommandErrorKind::BadLength => s.append("Cannot Parse Length: "),
        }
        s.append(self.text.as_str());
        s
    }
}

pub open spec fn error_message(kind: CommandErrorKind, text: Seq<char>) -> Seq<char> {
    match kind {
        CommandErrorKind::Malformed => "Malformated Command: "@ + text,
        CommandErrorKind::UnknownDirection => "Cannot Parse Direction: "@ + text,
        CommandErrorKind::BadLength => "Cannot Parse Length: "@ + text,
    }
}

/// Reads a command `<direction> <length>`.
pub fn parse_line(line: &str) -> (r: Result<Command, CommandError>)
    ensures
        match r {
            Ok(c) => spec_command(line@) == Ok::<Command, (CommandErrorKind, Seq<char>)>(c),
            Err(e) => spec_command(line@) == Err::<Command, (CommandErrorKind, Seq<char>)>(
                (e.kind, e.text@),
            ),
        },
{
    let chars = chars_of(line);
    match command_of(&chars) {
        Ok(c) => Ok(c),
        Err((kind, from, to)) => {
            let text = line.substring_char(from, to).to_owned();
            Err(CommandError { kind, text })
        },
    }
}

pub open spec fn step(p: (int, int), d: Direction) -> (int, int) {
    match d {
        Direction::U => (p.0 + 1, p.1),
        Direction::D => (p.0 - 1, p.1),
        Direction::R => (p.0, p.1 + 1),
        Direction::L => (p.0, p.1 - 1),
    }
}

/// The single steps of the commands, in order.
pub open spec fn steps(cs: Seq<Command>) -> Seq<Direction>
    decreases cs.len(),
{
    if cs.len() == 0 {
        seq![]
    } else {
        steps(cs.drop_last()) + Seq::new(cs.last().length as nat, |k: int| cs.last().direction)
    }
}

/// The position after the first `n` steps from the origin.
pub open spec fn position(ds: Seq<Direction>, n: int) -> (int, int)
    decreases n,
{
    if n <= 0 {
        (0, 0)
    } else {
        step(position(ds, n - 1), ds[n - 1])
    }
}

/// The position after each step.
pub open spec fn walk(ds: Seq<Direction>) -> Seq<(int, int)> {
    Seq::new(ds.len(), |k: int| position(ds, k + 1))
}

/// The commands of all lines, if every line is one.
pub open spec fn line_commands(ls: Seq<Seq<char>>) -> Option<Seq<Command>>
    decreases ls.len(),
{
    if ls.len() == 0 {
        Some(seq![])
    } else {
        match (line_commands(ls.drop_last()), spec_command(ls.last())) {
            (Some(cs), Ok(c)) => Some(cs.push(c)),
            _ => None,
        }
    }
}

pub open spec fn fits_i32(ps: Seq<(int, int)>) -> bool {
    forall|k: int|
        0 <= k < ps.len() ==> i32::MIN <= (#[trigger] ps[k]).0 <= i32::MAX && i32::MIN <= ps[k].1
            <= i32::MAX
}

pub open spec fn pairs(v: Seq<(i32, i32)>) -> Seq<(int, int)> {
    v.map_values(|p: (i32, i32)| (p.0 as int, p.1 as int))
}

/// The head's positions for the commands of `input`, if every line is a
/// command and every position fits in `i32`.
fn walk_checked(input: &str) -> (r: Option<Vec<(i32, i32)>>)
    ensures
        match line_commands(spec_char_lines(input@)) {
            Some(cs) => if fits_i32(walk(steps(cs))) {
                r matches Some(v) && pairs(v@) == walk(steps(cs))
            } else {
                r is None
            },
            None => r is None,
        },
{
    let chars = chars_of(input);
    let ls = char_lines(&chars);
    let ghost lv = ls@.map_values(|l: Vec<char>| l@);
    let mut cs: Vec<Command> = Vec::new();
    let mut i: usize = 0;
    assert(lv.subrange(0, 0) =~= seq![]);
    while i < ls.len()
        invariant
            i <= ls@.len(),
            lv == ls@.map_values(|l: Vec<char>| l@),
            lv == spec_char_lines(input@),
            line_commands(lv.subrange(0, i as int)) == Some(cs@),
        decreases ls@.len() - i,
    {
        let ghost next = lv.subrange(0, i as int + 1);
        assert(next.drop_last() =~= lv.subrange(0, i as int));
        assert(next.last() == ls@[i as int]@);
        match command_of(&ls[i]) {
            Ok(c) => cs.push(c),
            Err(_) => {
                proof {
                    lemma_commands_fail_on(lv, i as int + 1);
                }
                return None;
            },
        }
        i += 1;
    }
    assert(lv.subrange(0, i as int) =~= lv);
    let ghost all = cs@;
    let mut dirs: Vec<Direction> = Vec::new();
    let mut i: usize = 0;
    assert(all.subrange(0, 0) =~= seq![]);
    while i < cs.len()
        invariant
            i <= cs@.len(),
            all == cs@,
            dirs@ == steps(all.subrange(0, i as int)),
        decreases cs@.len() - i,
    {
        let c = cs[i];
        let ghost before = dirs@;
        let mut j: usize = 0;
        while j < c.length
            invariant
                j <= c.length,
                dirs@ == before + Seq::new(j as nat, |k: int| c.direction),
            decreases c.length - j,
        {
            dirs.push(c.direction);
            j += 1;
            assert(dirs@ =~= before + Seq::new(j as nat, |k: int| c.direction));
        }
        let ghost next = all.subrange(0, i as int + 1);
        assert(next.drop_last() =~= all.subrange(0, i as int));
        assert(next.last() == c);
        i += 1;
    }
    assert(all.subrange(0, i as int) =~= all);
    let ghost ds = dirs@;
    let mut out: Vec<(i32, i32)> = Vec::new();
    let mut cur: (i32, i32) = (0, 0);
    let mut k: usize = 0;
    while k < dirs.len()
        invariant
            ds == dirs@,
            ds == steps(all),
            line_commands(spec_char_lines(input@)) == Some(all),
            k <= ds.len(),
            out@.len() == k,
            (cur.0 as int, cur.1 as int) == position(ds, k as int),
            forall|m: int| 0 <= m < k ==> #[trigger] pairs(out@)[m] == position(ds, m + 1),
        decreases ds.len() - k,
    {
        let (a, b) = cur;
        let next: (i64, i64) = match dirs[k] {
            Direction::U => (a as i64 + 1, b as i64),
            Direction::D => (a as i64 - 1, b as i64),
            Direction::R => (a as i64, b as i64 + 1),
            Direction::L => (a as i64, b as i64 - 1),
        };
        assert(walk(ds)[k as int] == position(ds, k + 1));
        if next.0 < i32::MIN as i64 || next.0 > i32::MAX as i64 || next.1 < i32::MIN as i64
            || next.1 > i32::MAX as i64 {
            return None;
        }
        cur = (next.0 as i32, next.1 as i32);
        let ghost prev = pairs(out@);
        out.push(cur);
        assert(pairs(out@) =~= prev.push((cur.0 as int, cur.1 as int)));
        k += 1;
    }
    assert(pairs(out@) =~= walk(ds));
    Some(out)
}

/// Once a line is no command, the whole input is none.
proof fn lemma_commands_fail_on(ls: Seq<Seq<char>>, n: int)
    requires
        0 < n <= ls.len(),
        spec_command(ls[n - 1]) is Err,
    ensures
        line_commands(ls) is None,
    decreases ls.len(),
{
    if n < ls.len() {
        assert(ls.drop_last()[n - 1] == ls[n - 1]);
        lemma_commands_fail_on(ls.drop_last(), n);
    } else {
        assert(ls.last() == ls[n - 1]);
    }
}

/// The head's position after each single step of the commands in `input`.
pub fn head_positions(input: &str) -> (r: Vec<(i32, i32)>)
    requires
        line_commands(spec_char_lines(input@)) matches Some(cs) && fits_i32(walk(steps(cs))),
    ensures
        line_commands(spec_char_lines(input@)) matches Some(cs) && pairs(r@) == walk(steps(cs)),
{
    match walk_checked(input) {
        Some(v) => v,
        None => Vec::new(),
    }
}

pub open spec fn sign(x: int) -> int {
    if x > 0 {
        1
    } else if x < 0 {
        -1
    } else {
        0
    }
}

/// Equal or next to each other, diagonals included.
pub open spec fn touching(a: (int, int), b: (int, int)) -> bool {
    -1 <= a.0 - b.0 <= 1 && -1 <= a.1 - b.1 <= 1
}

/// Where a knot at `tail` goes when the knot before it is at `head`: it stays
/// while they touch, and else moves one step towards it on each axis.
pub open spec fn follow(tail: (int, int), head: (int, int)) -> (int, int) {
    if touching(tail, head) {
        tail
    } else {
        (tail.0 + sign(head.0 - tail.0), tail.1 + sign(head.1 - tail.1))
    }
}

/// The new position of the knot at `tail_pos` behind the knot at `head_pos`.
pub fn new_tail_pos(tail_pos: &(i32, i32), head_pos: (i32, i32)) -> (r: (i32, i32))
    requires
        -2 <= head_pos.0 - tail_pos.0 <= 2,
        -2 <= head_pos.1 - tail_pos.1 <= 2,
    ensures
        (r.0 as int, r.1 as int) == follow(
            (tail_pos.0 as int, tail_pos.1 as int),
            (head_pos.0 as int, head_pos.1 as int),
        ),
{
    let (t0, t1) = *tail_pos;
    let dh = head_pos.0 - t0;
    let dw = head_pos.1 - t1;
    if -1 <= dh && dh <= 1 && -1 <= dw && dw <= 1 {
        return (t0, t1);
    }
    let n0 = if dh > 0 {
        t0 + 1
    } else if dh < 0 {
        t0 - 1
    } else {
        t0
    };
    let n1 = if dw > 0 {
        t1 + 1
    } else if dw < 0 {
        t1 - 1
    } else {
        t1
    };
    (n0, n1)
}

/// The position of the following knot after the leading knot has been at
/// the first `n` positions of `ps`; both start at the origin.
pub open spec fn tail_after(ps: Seq<(int, int)>, n: int) -> (int, int)
    decreases n,
{
    if n <= 0 {
        (0, 0)
    } else {
        follow(tail_after(ps, n - 1), ps[n - 1])
    }
}

/// The following knot's position after each position of the leading one.
pub open spec fn trail(ps: Seq<(int, int)>) -> Seq<(int, int)> {
    Seq::new(ps.len(), |k: int| tail_after(ps, k + 1))
}

/// The positions of the knot `m` places behind the one that visits `ps`.
pub open spec fn rope(ps: Seq<(int, int)>, m: nat) -> Seq<(int, int)>
    decreases m,
{
    if m == 0 {
        ps
    } else {
        trail(rope(ps, (m - 1) as nat))
    }
}

/// Where the knot was before its `k`-th position: the origin at first.
pub open spec fn before(ps: Seq<(int, int)>, k: int) -> (int, int) {
    if k <= 0 {
        (0, 0)
    } else {
        ps[k - 1]
    }
}

/// Each position touches the one before it, starting from the origin.
pub open spec fn king_walk(ps: Seq<(int, int)>) -> bool {
    forall|k: int| 0 <= k < ps.len() ==> touching(before(ps, k), #[trigger] ps[k])
}

proof fn lemma_tail_after(ps: Seq<(int, int)>, n: int)
    requires
        king_walk(ps),
        fits_i32(ps),
        0 <= n <= ps.len(),
    ensures
        touching(tail_after(ps, n), before(ps, n)),
        i32::MIN <= tail_after(ps, n).0 <= i32::MAX,
        i32::MIN <= tail_after(ps, n).1 <= i32::MAX,
        n > 0 ==> touching(tail_after(ps, n - 1), tail_after(ps, n)),
        n > 0 ==> -2 <= ps[n - 1].0 - tail_after(ps, n - 1).0 <= 2 && -2 <= ps[n - 1].1
            - tail_after(ps, n - 1).1 <= 2,
    decreases n,
{
    if n > 0 {
        lemma_tail_after(ps, n - 1);
        assert(touching(before(ps, n - 1), ps[n - 1]));
        assert(i32::MIN <= ps[n - 1].0 <= i32::MAX && i32::MIN <= ps[n - 1].1 <= i32::MAX);
    }
}

/// Following a king walk gives a king walk, inside the same `i32` bounds.
pub proof fn lemma_trail_walks(ps: Seq<(int, int)>)
    requires
        king_walk(ps),
        fits_i32(ps),
    ensures
        king_walk(trail(ps)),
        fits_i32(trail(ps)),
{
    assert forall|k: int| 0 <= k < trail(ps).len() implies touching(
        before(trail(ps), k),
        #[trigger] trail(ps)[k],
    ) by {
        lemma_tail_after(ps, k + 1);
    }
    assert forall|k: int| 0 <= k < trail(ps).len() implies i32::MIN <= (
    #[trigger] trail(ps)[k]).0 <= i32::MAX && i32::MIN <= trail(ps)[k].1 <= i32::MAX by {
        lemma_tail_after(ps, k + 1);
    }
}

/// The head moves one step at a time.
proof fn lemma_walk_is_king_walk(ds: Seq<Direction>)
    ensures
        king_walk(walk(ds)),
{
    assert forall|k: int| 0 <= k < walk(ds).len() implies touching(
        before(walk(ds), k),
        #[trigger] walk(ds)[k],
    ) by {
        assert(before(walk(ds), k) == position(ds, k));
    }
}

fn trail_of(ps: &Vec<(i32, i32)>) -> (r: Vec<(i32, i32)>)
    requires
        king_walk(pairs(ps@)),
        fits_i32(pairs(ps@)),
    ensures
        pairs(r@) == trail(pairs(ps@)),
{
    let ghost hs = pairs(ps@);
    let mut r: Vec<(i32, i32)> = Vec::new();
    let mut tail: (i32, i32) = (0, 0);
    let mut k: usize = 0;
    while k < ps.len()
        invariant
            hs == pairs(ps@),
            king_walk(hs),
            fits_i32(hs),
            k <= ps@.len(),
            r@.len() == k,
            (tail.0 as int, tail.1 as int) == tail_after(hs, k as int),
            forall|m: int| 0 <= m < k ==> #[trigger] pairs(r@)[m] == tail_after(hs, m + 1),
        decreases ps@.len() - k,
    {
        proof {
            lemma_tail_after(hs, k as int + 1);
        }
        assert(hs[k as int] == (ps@[k as int].0 as int, ps@[k as int].1 as int));
        tail = new_tail_pos(&tail, ps[k]);
        let ghost prev = pairs(r@);
        r.push(tail);
        assert(pairs(r@) =~= prev.push((tail.0 as int, tail.1 as int)));
        k += 1;
    }
    assert(pairs(r@) =~= trail(hs));
    r
}

/// Relies on itertools::Itertools::unique and Iterator::count: the number of
/// distinct positions.
#[verifier::external_body]
fn distinct_count(v: &Vec<(i32, i32)>) -> (r: usize)
    ensures
        r == pairs(v@).to_set().len(),
{
    v.iter().unique().count()
}

/// The number of positions visited by the knot right behind the head, and
/// by the knot nine places behind it.
pub open spec fn spec_day09(s: Seq<char>) -> Option<(int, int)> {
    match line_commands(spec_char_lines(s)) {
        Some(cs) => {
            let h = walk(steps(cs));
            if fits_i32(h) {
                Some((trail(h).to_set().len() as int, rope(h, 9).to_set().len() as int))
            } else {
                None
            }
        },
        None => None,
    }
}

/// Moves the rope by the commands in `input` and counts the positions its
/// second and its tenth knot visit.
pub fn day09(input: &str) -> (r: Option<(usize, usize)>)
    ensures
        r matches Some((a, b)) ==> spec_day09(input@) == Some((a as int, b as int)),
        r is None ==> spec_day09(input@) is None,
{
    let heads = match walk_checked(input) {
        None => return None,
        Some(v) => v,
    };
    let ghost h = pairs(heads@);
    proof {
        let cs = line_commands(spec_char_lines(input@))->0;
        lemma_walk_is_king_walk(steps(cs));
    }
    let second = trail_of(&heads);
    let a = distinct_count(&second);
    let mut knots = heads;
    let mut m: usize = 0;
    while m < 9
        invariant
            m <= 9,
            pairs(knots@) == rope(h, m as nat),
            king_walk(pairs(knots@)),
            fits_i32(pairs(knots@)),
        decreases 9 - m,
    {
        proof {
            lemma_trail_walks(pairs(knots@));
        }
        knots = trail_of(&knots);
        m += 1;
    }
    let b = distinct_count(&knots);
    Some((a, b))
}

} // verus!
