//! Reads worker definitions from text; each function meets its counterpart
//! in `grammar`.
use crate::engine::well_formed;
use crate::expression::{Operand, Operation, Symbol};
use crate::grammar::{
    agrees, block_marks, first_bad, lemma_first_bad, spec_marks, digits_end, digits_value, is_digit, lemma_number, prepend, spec_actions, spec_block,
    spec_blocks, spec_expect, spec_expression, spec_header, spec_item_list, spec_items_field,
    spec_items_line, spec_more_items, spec_number, spec_number_line, spec_operand,
    spec_operation_field, spec_operation_line, spec_parse, spec_symbol, spec_test_field,
    Expected, MonkeyView, PResult, ParseError,
};
use vstd::prelude::*;
use vstd::string::StringSliceAdditionalSpecFns;

verus! {

/// One worker as the text defines it.
#[derive(Debug)]
pub struct Monkey {
    pub items: Vec<u64>,
    pub operation: Operation,
    pub test: u64,
    pub if_true: usize,
    pub if_false: usize,
}

impl View for Monkey {
    type V = MonkeyView;

    open spec fn view(&self) -> MonkeyView {
        MonkeyView {
            items: self.items@,
            operation: self.operation,
            test: self.test,
            if_true: self.if_true,
            if_false: self.if_false,
        }
    }
}

fn is_digit_byte(b: u8) -> (r: bool)
    ensures
        r == is_digit(b),
{
    48 <= b && b <= 57
}

fn expect(s: &[u8], p: usize, lit: &str, what: Expected) -> (r: PResult<()>)
    requires
        p <= s@.len(),
    ensures
        r == spec_expect(s@, p, lit, what),
        r matches Ok((_, e)) ==> p <= e <= s@.len(),
{
    let b = lit.as_bytes();
    let n = s.len();
    if b.len() > n - p {
        return Err(ParseError { position: p, expected: what });
    }
    let mut i: usize = 0;
    while i < b.len()
        invariant
            i <= b@.len(),
            n == s@.len(),
            p + b@.len() <= s@.len(),
            b@ == lit.spec_bytes(),
            forall|k: int| 0 <= k < i ==> s@[p + k] == b@[k],
        decreases b@.len() - i,
    {
        if s[p + i] != b[i] {
            assert(s@.subrange(p as int, p + b@.len())[i as int] != b@[i as int]);
            return Err(ParseError { position: p, expected: what });
        }
        i += 1;
    }
    assert(s@.subrange(p as int, p + b@.len()) =~= b@);
    Ok(((), p + b.len()))
}

fn number(s: &[u8], p: usize) -> (r: PResult<u64>)
    requires
        p <= s@.len(),
    ensures
        r == spec_number(s@, p),
        r matches Ok((_, e)) ==> p < e <= s@.len(),
{
    let n = s.len();
    let mut i = p;
    let mut v: u64 = 0;
    let mut too_big = false;
    while i < n && is_digit_byte(s[i])
        invariant
            p <= i <= n,
            n == s@.len(),
            digits_end(s@, p as int) == digits_end(s@, i as int),
            too_big ==> digits_value(s@, p as int, i as int) > u32::MAX,
            !too_big ==> v == digits_value(s@, p as int, i as int),
            v <= u32::MAX,
        decreases n - i,
    {
        if !too_big {
            let next = v * 10 + (s[i] - 48) as u64;
            if next > u32::MAX as u64 {
                too_big = true;
            } else {
                v = next;
            }
        }
        i += 1;
    }
    if i == p || too_big {
        Err(ParseError { position: p, expected: Expected::Number })
    } else {
        Ok((v, i))
    }
}

fn item_list(s: &[u8], p: usize) -> (r: PResult<Vec<u64>>)
    requires
        p <= s@.len(),
    ensures
        agrees(r, spec_item_list(s@, p)),
        r matches Ok((_, e)) ==> p <= e <= s@.len(),
{
    let n = s.len();
    let mut items: Vec<u64> = Vec::new();
    if !(p < n && is_digit_byte(s[p])) {
        return Ok((items, p));
    }
    let (first, q) = match number(s, p) {
        Err(e) => return Err(e),
        Ok(x) => x,
    };
    proof {
        lemma_number(s@, p);
    }
    items.push(first);
    assert(items@ == seq![first]);
    let mut pos = q;
    loop
        invariant
            p <= pos <= n,
            n == s@.len(),
            spec_item_list(s@, p) == prepend(items@, spec_more_items(s@, pos)),
        decreases n - pos,
    {
        let q = match expect(s, pos, ", ", Expected::Items) {
            Err(_) => {
                assert(items@ + seq![] =~= items@);
                return Ok((items, pos));
            },
            Ok(((), q)) => q,
        };
        let (v, r) = match number(s, q) {
            Err(e) => return Err(e),
            Ok(x) => x,
        };
        proof {
            lemma_number(s@, q);
            let rest = spec_more_items(s@, r);
            match rest {
                Ok((ws, e)) => {
                    assert(items@ + (seq![v] + ws) =~= items@.push(v) + ws);
                },
                Err(_) => {},
            }
        }
        items.push(v);
        pos = r;
    }
}

fn operand(s: &[u8], p: usize) -> (r: PResult<Operand>)
    requires
        p <= s@.len(),
    ensures
        r == spec_operand(s@, p),
        r matches Ok((_, e)) ==> p <= e <= s@.len(),
{
    match expect(s, p, "old", Expected::Operand) {
        Ok(((), q)) => Ok((Operand::Old, q)),
        Err(_) => match number(s, p) {
            Ok((v, e)) => Ok((Operand::Num(v), e)),
            Err(_) => Err(ParseError { position: p, expected: Expected::Operand }),
        },
    }
}

fn symbol(s: &[u8], p: usize) -> (r: PResult<Symbol>)
    requires
        p <= s@.len(),
    ensures
        r == spec_symbol(s@, p),
        r matches Ok((_, e)) ==> p <= e <= s@.len(),
{
    if p >= s.len() {
        return Err(ParseError { position: p, expected: Expected::Symbol });
    }
    let b = s[p];
    if b == 43 {
        Ok((Symbol::Plus, p + 1))
    } else if b == 45 {
        Ok((Symbol::Minus, p + 1))
    } else if b == 42 {
        Ok((Symbol::Mul, p + 1))
    } else if b == 47 {
        Ok((Symbol::Div, p + 1))
    } else {
        Err(ParseError { position: p, expected: Expected::Symbol })
    }
}

fn expression(s: &[u8], p: usize) -> (r: PResult<Operation>)
    requires
        p <= s@.len(),
    ensures
        r == spec_expression(s@, p),
        r matches Ok((_, e)) ==> p <= e <= s@.len(),
{
    let (first, q) = match operand(s, p) {
        Err(e) => return Err(e),
        Ok(x) => x,
    };
    let ((), q) = match expect(s, q, " ", Expected::Space) {
        Err(e) => return Err(e),
        Ok(x) => x,
    };
    let (sym, q) = match symbol(s, q) {
        Err(e) => return Err(e),
        Ok(x) => x,
    };
    let ((), q) = match expect(s, q, " ", Expected::Space) {
        Err(e) => return Err(e),
        Ok(x) => x,
    };
    let (second, q) = match operand(s, q) {
        Err(e) => return Err(e),
        Ok(x) => x,
    };
    Ok((Operation { first, symbol: sym, second }, q))
}

fn number_line(s: &[u8], p: usize, prefix: &str, what: Expected) -> (r: PResult<u64>)
    requires
        p <= s@.len(),
    ensures
        r == spec_number_line(s@, p, prefix, what),
        r matches Ok((_, e)) ==> p < e <= s@.len(),
{
    let ((), q) = match expect(s, p, prefix, what) {
        Err(e) => return Err(e),
        Ok(x) => x,
    };
    let (v, q) = match number(s, q) {
        Err(e) => return Err(e),
        Ok(x) => x,
    };
    let ((), q) = match expect(s, q, "\n", Expected::Newline) {
        Err(e) => return Err(e),
        Ok(x) => x,
    };
    Ok((v, q))
}

fn header(s: &[u8], p: usize) -> (r: PResult<()>)
    requires
        p <= s@.len(),
    ensures
        r == spec_header(s@, p),
        r matches Ok((_, e)) ==> p < e <= s@.len(),
{
    let ((), q) = match expect(s, p, "Monkey ", Expected::Header) {
        Err(e) => return Err(e),
        Ok(x) => x,
    };
    let (_, q) = match number(s, q) {
        Err(e) => return Err(e),
        Ok(x) => x,
    };
    expect(s, q, ":\n", Expected::Header)
}

fn items_line(s: &[u8], p: usize) -> (r: PResult<Vec<u64>>)
    requires
        p <= s@.len(),
    ensures
        agrees(r, spec_items_line(s@, p)),
        r matches Ok((_, e)) ==> p <= e <= s@.len(),
{
    let ((), q) = match expect(s, p, "  Starting items: ", Expected::Items) {
        Err(e) => return Err(e),
        Ok(x) => x,
    };
    let (items, q) = match item_list(s, q) {
        Err(e) => return Err(e),
        Ok(x) => x,
    };
    let ((), q) = match expect(s, q, "\n", Expected::Newline) {
        Err(e) => return Err(e),
        Ok(x) => x,
    };
    Ok((items, q))
}

fn operation_line(s: &[u8], p: usize) -> (r: PResult<Operation>)
    requires
        p <= s@.len(),
    ensures
        r == spec_operation_line(s@, p),
        r matches Ok((_, e)) ==> p <= e <= s@.len(),
{
    let ((), q) = match expect(s, p, "  Operation: new = ", Expected::Operation) {
        Err(e) => return Err(e),
        Ok(x) => x,
    };
    let (op, q) = match expression(s, q) {
        Err(e) => return Err(e),
        Ok(x) => x,
    };
    let ((), q) = match expect(s, q, "\n", Expected::Newline) {
        Err(e) => return Err(e),
        Ok(x) => x,
    };
    Ok((op, q))
}

/// Parses the six lines of one worker that start at `p`; also returns where
/// its divisor and targets stand.
fn block(s: &[u8], p: usize) -> (r: (PResult<Monkey>, (usize, usize, usize)))
    requires
        p <= s@.len(),
    ensures
        agrees(r.0, spec_block(s@, p)),
        r.0 matches Ok((_, e)) ==> p < e <= s@.len(),
        r.0 is Ok ==> r.1 == block_marks(s@, p),
{
    reveal(spec_block);
    let none = (0, 0, 0);
    let n = s.len();
    let ((), q) = match header(s, p) {
        Err(e) => return (Err(e), none),
        Ok(x) => x,
    };
    let (items, q) = match items_line(s, q) {
        Err(e) => return (Err(e), none),
        Ok(x) => x,
    };
    let (operation, q3) = match operation_line(s, q) {
        Err(e) => return (Err(e), none),
        Ok(x) => x,
    };
    let (test, q4) = match number_line(s, q3, "  Test: divisible by ", Expected::Test) {
        Err(e) => return (Err(e), none),
        Ok(x) => x,
    };
    let (t, q5) = match number_line(s, q4, "    If true: throw to monkey ", Expected::TrueTarget) {
        Err(e) => return (Err(e), none),
        Ok(x) => x,
    };
    let (f, q) = match number_line(s, q5, "    If false: throw to monkey ", Expected::FalseTarget) {
        Err(e) => return (Err(e), none),
        Ok(x) => x,
    };
    proof {
        crate::grammar::lemma_expect(s@, q3, "  Test: divisible by ", Expected::Test);
        crate::grammar::lemma_expect(s@, q4, "    If true: throw to monkey ", Expected::TrueTarget);
        crate::grammar::lemma_expect(s@, q5, "    If false: throw to monkey ", Expected::FalseTarget);
    }
    let marks = (
        q3 + "  Test: divisible by ".as_bytes().len(),
        q4 + "    If true: throw to monkey ".as_bytes().len(),
        q5 + "    If false: throw to monkey ".as_bytes().len(),
    );
    (Ok((Monkey { items, operation, test, if_true: t as usize, if_false: f as usize }, q)), marks)
}

/// The views of a list of workers.
pub open spec fn views(ms: Seq<Monkey>) -> Seq<MonkeyView> {
    ms.map_values(|m: Monkey| m@)
}

/// `ms` in front of a successful result.
pub open spec fn prepend_blocks(ms: Seq<MonkeyView>, r: Result<Seq<MonkeyView>, ParseError>) -> Result<
    Seq<MonkeyView>,
    ParseError,
> {
    match r {
        Ok(ns) => Ok(ms + ns),
        Err(e) => Err(e),
    }
}

/// Parses a whole text into worker definitions, in the order of their blocks.
/// Nothing is returned but the error when any part of the text is malformed,
/// when a divisor is zero, or when a target names no worker of the text.
pub fn parse_monkeys(text: &str) -> (r: Result<Vec<Monkey>, ParseError>)
    ensures
        match r {
            Ok(ms) => spec_parse(text.spec_bytes()) == Ok::<Seq<MonkeyView>, ParseError>(views(ms@)),
            Err(e) => spec_parse(text.spec_bytes()) == Err::<Seq<MonkeyView>, ParseError>(e),
        },
        r matches Ok(ms) ==> ms@.len() > 0 && well_formed(views(ms@)),
{
    let s = text.as_bytes();
    let n = s.len();
    let mut ms: Vec<Monkey> = Vec::new();
    let mut ks: Vec<(usize, usize, usize)> = Vec::new();
    let mut pos: usize = 0;
    assert(views(ms@) + seq![] =~= seq![]);
    assert(ks@ + spec_marks(s@, 0) =~= spec_marks(s@, 0));
    loop
        invariant
            pos <= n,
            n == s@.len(),
            s@ == text.spec_bytes(),
            spec_blocks(s@, 0) == prepend_blocks(views(ms@), spec_blocks(s@, pos)),
            spec_marks(s@, 0) == ks@ + spec_marks(s@, pos),
            ks@.len() == ms@.len(),
        decreases n - pos,
    {
        let (res, marks) = block(s, pos);
        let (m, q) = match res {
            Err(e) => return Err(e),
            Ok(x) => x,
        };
        let ghost before = views(ms@);
        let ghost kb = ks@;
        let ghost mv = m@;
        ms.push(m);
        ks.push(marks);
        assert(views(ms@) =~= before.push(mv));
        if q == n {
            assert(before + seq![mv] =~= views(ms@));
            assert(kb + seq![marks] =~= ks@);
            return validate(ms, ks, Ghost(s@));
        }
        if s[q] != 10 {
            return Err(ParseError { position: q, expected: Expected::BlankLine });
        }
        proof {
            match spec_blocks(s@, (q + 1) as usize) {
                Ok(ns) => {
                    assert(before + (seq![mv] + ns) =~= views(ms@) + ns);
                },
                Err(_) => {},
            }
            assert(kb + (seq![marks] + spec_marks(s@, (q + 1) as usize)) =~= ks@ + spec_marks(
                s@,
                (q + 1) as usize,
            ));
        }
        pos = q + 1;
    }
}

/// Checks every divisor and target of the blocks of `s`, parsed as `ms`
/// with their marks `ks`.
fn validate(ms: Vec<Monkey>, ks: Vec<(usize, usize, usize)>, s: Ghost<Seq<u8>>) -> (r: Result<
    Vec<Monkey>,
    ParseError,
>)
    requires
        spec_blocks(s@, 0) == Ok::<Seq<MonkeyView>, ParseError>(views(ms@)),
        spec_marks(s@, 0) == ks@,
        ks@.len() == ms@.len(),
        ms@.len() > 0,
    ensures
        match r {
            Ok(rs) => spec_parse(s@) == Ok::<Seq<MonkeyView>, ParseError>(views(rs@)),
            Err(e) => spec_parse(s@) == Err::<Seq<MonkeyView>, ParseError>(e),
        },
        r matches Ok(rs) ==> rs@.len() > 0 && well_formed(views(rs@)),
{
    let ghost vs = views(ms@);
    let count = ms.len();
    let mut k: usize = 0;
    while k < count
        invariant
            count == ms@.len(),
            vs == views(ms@),
            spec_blocks(s@, 0) == Ok::<Seq<MonkeyView>, ParseError>(vs),
            spec_marks(s@, 0) == ks@,
            ks@.len() == count,
            k <= count,
            first_bad(vs, ks@, count as int, 0) == first_bad(vs, ks@, count as int, k as int),
        decreases count - k,
    {
        let m = &ms[k];
        assert(vs[k as int] == m@);
        if m.test == 0 {
            return Err(ParseError { position: ks[k].0, expected: Expected::PositiveDivisor });
        }
        if m.if_true >= count {
            return Err(ParseError { position: ks[k].1, expected: Expected::KnownWorker });
        }
        if m.if_false >= count {
            return Err(ParseError { position: ks[k].2, expected: Expected::KnownWorker });
        }
        k += 1;
    }
    proof {
        lemma_first_bad(vs, ks@, count as int, 0);
    }
    Ok(ms)
}

/// Parses `  Starting items: ` and a list of numbers at the start of `input`.
pub fn parse_items(input: &str) -> (r: PResult<Vec<u64>>)
    ensures
        agrees(r, spec_items_field(input.spec_bytes(), 0)),
{
    let s = input.as_bytes();
    let ((), q) = match expect(s, 0, "  Starting items: ", Expected::Items) {
        Err(e) => return Err(e),
        Ok(x) => x,
    };
    item_list(s, q)
}

/// Parses `  Operation: new = ` and an expression at the start of `input`.
pub fn parse_operation(input: &str) -> (r: PResult<Operation>)
    ensures
        r == spec_operation_field(input.spec_bytes(), 0),
{
    let s = input.as_bytes();
    let ((), q) = match expect(s, 0, "  Operation: new = ", Expected::Operation) {
        Err(e) => return Err(e),
        Ok(x) => x,
    };
    expression(s, q)
}

/// Parses `old` or a number at the start of `input`.
pub fn parse_operand(input: &str) -> (r: PResult<Operand>)
    ensures
        r == spec_operand(input.spec_bytes(), 0),
{
    operand(input.as_bytes(), 0)
}

/// Parses one of `+ - * /` at the start of `input`.
pub fn parse_symbol(input: &str) -> (r: PResult<Symbol>)
    ensures
        r == spec_symbol(input.spec_bytes(), 0),
{
    symbol(input.as_bytes(), 0)
}

/// Parses `  Test: divisible by ` and the divisor at the start of `input`.
pub fn parse_test(input: &str) -> (r: PResult<u64>)
    ensures
        r == spec_test_field(input.spec_bytes(), 0),
{
    let s = input.as_bytes();
    let ((), q) = match expect(s, 0, "  Test: divisible by ", Expected::Test) {
        Err(e) => return Err(e),
        Ok(x) => x,
    };
    number(s, q)
}

/// Parses both target lines at the start of `input`.
pub fn parse_actions(input: &str) -> (r: PResult<(u64, u64)>)
    ensures
        r == spec_actions(input.spec_bytes(), 0),
{
    let s = input.as_bytes();
    let (t, q) = match number_line(s, 0, "    If true: throw to monkey ", Expected::TrueTarget) {
        Err(e) => return Err(e),
        Ok(x) => x,
    };
    let ((), q) = match expect(s, q, "    If false: throw to monkey ", Expected::FalseTarget) {
        Err(e) => return Err(e),
        Ok(x) => x,
    };
    let (f, q) = match number(s, q) {
        Err(e) => return Err(e),
        Ok(x) => x,
    };
    Ok(((t, f), q))
}

/// Parses the block of one worker at the start of `input`.
pub fn parse_monkey(input: &str) -> (r: PResult<Monkey>)
    ensures
        agrees(r, spec_block(input.spec_bytes(), 0)),
{
    block(input.as_bytes(), 0).0
}

} // verus!
