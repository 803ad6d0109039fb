//! The text format of worker definitions, stated over bytes.
//!
//! ```text
//! Monkey <n>:
//!   Starting items: <n>, <n>, ...
//!   Operation: new = <operand> <symbol> <operand>
//!   Test: divisible by <n>
//!     If true: throw to monkey <n>
//!     If false: throw to monkey <n>
//! ```
//!
//! Blocks are separated by one empty line; every line ends with `\n`.
use crate::expression::{Operand, Operation, Symbol};
use vstd::prelude::*;
use vstd::string::StringSliceAdditionalSpecFns;

verus! {

/// The construct that was expected where parsing stopped.
#[derive(Clone, Copy, Debug, PartialEq, Eq, Structural)]
pub enum Expected {
    Header,
    Number,
    Newline,
    Items,
    Operation,
    Operand,
    Space,
    Symbol,
    Test,
    TrueTarget,
    FalseTarget,
    BlankLine,
    /// The divisor is zero.
    PositiveDivisor,
    /// The target is no worker of the text.
    KnownWorker,
}

/// A parse failure: the byte offset where it happened and what was expected there.
#[derive(Clone, Copy, Debug, PartialEq, Eq, Structural)]
pub struct ParseError {
    pub position: usize,
    pub expected: Expected,
}

/// A parsed value and the offset just past it, or the failure.
pub type PResult<T> = Result<(T, usize), ParseError>;

/// The parsed block of one worker, as seen by specifications.
pub struct MonkeyView {
    pub items: Seq<u64>,
    pub operation: Operation,
    pub test: u64,
    pub if_true: usize,
    pub if_false: usize,
}

pub open spec fn fail<T>(position: usize, expected: Expected) -> PResult<T> {
    Err(ParseError { position, expected })
}

pub open spec fn is_digit(b: u8) -> bool {
    48 <= b <= 57
}

pub open spec fn tag_at(s: Seq<u8>, p: int, lit: Seq<u8>) -> bool {
    &&& 0 <= p
    &&& p + lit.len() <= s.len()
    &&& s.subrange(p, p + lit.len()) == lit
}

/// Offset just past the run of digits that starts at `p`.
pub open spec fn digits_end(s: Seq<u8>, p: int) -> int
    decreases s.len() - p,
{
    if 0 <= p < s.len() && is_digit(s[p]) {
        digits_end(s, p + 1)
    } else {
        p
    }
}

/// The decimal value of the digits `s[from..to]`.
pub open spec fn digits_value(s: Seq<u8>, from: int, to: int) -> int
    decreases to - from,
{
    if to <= from {
        0
    } else {
        digits_value(s, from, to - 1) * 10 + (s[to - 1] - 48)
    }
}

pub proof fn lemma_digits_end(s: Seq<u8>, p: int)
    requires
        0 <= p <= s.len(),
    ensures
        p <= digits_end(s, p) <= s.len(),
        forall|k: int| p <= k < digits_end(s, p) ==> is_digit(#[trigger] s[k]),
    decreases s.len() - p,
{
    if p < s.len() && is_digit(s[p]) {
        lemma_digits_end(s, p + 1);
    }
}

/// A literal at `p`.
pub open spec fn spec_expect(s: Seq<u8>, p: usize, lit: &str, what: Expected) -> PResult<()> {
    if tag_at(s, p as int, lit.spec_bytes()) {
        Ok(((), (p + lit.spec_bytes().len()) as usize))
    } else {
        fail(p, what)
    }
}

/// An unsigned number at `p`: one digit or more, at most `u32::MAX`.
pub open spec fn spec_number(s: Seq<u8>, p: usize) -> PResult<u64> {
    let e = digits_end(s, p as int);
    if e == p || digits_value(s, p as int, e) > u32::MAX {
        fail(p, Expected::Number)
    } else {
        Ok((digits_value(s, p as int, e) as u64, e as usize))
    }
}

pub proof fn lemma_number(s: Seq<u8>, p: usize)
    requires
        p <= s.len() <= usize::MAX,
    ensures
        spec_number(s, p) matches Ok((_, e)) ==> p < e <= s.len(),
        spec_number(s, p) matches Err(e) ==> p <= e.position <= s.len(),
{
    lemma_digits_end(s, p as int);
}

pub proof fn lemma_expect(s: Seq<u8>, p: usize, lit: &str, what: Expected)
    requires
        s.len() <= usize::MAX,
    ensures
        spec_expect(s, p, lit, what) matches Ok((_, e)) ==> p <= e <= s.len(),
        spec_expect(s, p, lit, what) matches Err(e) ==> (p <= s.len() ==> p <= e.position <= s.len()),
{
}

/// `vs` in front of the values of a successful result.
pub open spec fn prepend<A>(vs: Seq<A>, r: PResult<Seq<A>>) -> PResult<Seq<A>> {
    match r {
        Ok((ws, e)) => Ok((vs + ws, e)),
        Err(e) => Err(e),
    }
}

/// The items after the first one: each is `", "` and a number.
pub open spec fn spec_more_items(s: Seq<u8>, p: usize) -> PResult<Seq<u64>>
    decreases s.len() - p
        when s.len() <= usize::MAX
{
    if p <= s.len() && tag_at(s, p as int, ", ".spec_bytes()) {
        let q = (p + ", ".spec_bytes().len()) as usize;
        match spec_number(s, q) {
            Err(e) => Err(e),
            Ok((v, r)) => {
                proof {
                    lemma_number(s, q);
                }
                prepend(seq![v], spec_more_items(s, r))
            },
        }
    } else {
        Ok((seq![], p))
    }
}

/// A possibly empty list of numbers separated by `", "`.
pub open spec fn spec_item_list(s: Seq<u8>, p: usize) -> PResult<Seq<u64>> {
    if !(p < s.len() && is_digit(s[p as int])) {
        Ok((seq![], p))
    } else {
        match spec_number(s, p) {
            Err(e) => Err(e),
            Ok((v, q)) => prepend(seq![v], spec_more_items(s, q)),
        }
    }
}

pub proof fn lemma_more_items(s: Seq<u8>, p: usize)
    requires
        p <= s.len() <= usize::MAX,
    ensures
        spec_more_items(s, p) matches Ok((_, e)) ==> p <= e <= s.len(),
        spec_more_items(s, p) matches Err(e) ==> p <= e.position <= s.len(),
    decreases s.len() - p,
{
    if tag_at(s, p as int, ", ".spec_bytes()) {
        let q = (p + ", ".spec_bytes().len()) as usize;
        lemma_number(s, q);
        if let Ok((_, r)) = spec_number(s, q) {
            lemma_more_items(s, r);
        }
    }
}

pub proof fn lemma_item_list(s: Seq<u8>, p: usize)
    requires
        p <= s.len() <= usize::MAX,
    ensures
        spec_item_list(s, p) matches Ok((_, e)) ==> p <= e <= s.len(),
        spec_item_list(s, p) matches Err(e) ==> p <= e.position <= s.len(),
{
    lemma_number(s, p);
    if let Ok((_, q)) = spec_number(s, p) {
        lemma_more_items(s, q);
    }
}

/// The operand `old`, or a number.
pub open spec fn spec_operand(s: Seq<u8>, p: usize) -> PResult<Operand> {
    if tag_at(s, p as int, "old".spec_bytes()) {
        Ok((Operand::Old, (p + "old".spec_bytes().len()) as usize))
    } else {
        match spec_number(s, p) {
            Ok((v, e)) => Ok((Operand::Num(v), e)),
            Err(_) => fail(p, Expected::Operand),
        }
    }
}

/// The operator that a byte stands for.
pub open spec fn symbol_of(b: u8) -> Option<Symbol> {
    if b == 43 {
        Some(Symbol::Plus)
    } else if b == 45 {
        Some(Symbol::Minus)
    } else if b == 42 {
        Some(Symbol::Mul)
    } else if b == 47 {
        Some(Symbol::Div)
    } else {
        None
    }
}

pub open spec fn spec_symbol(s: Seq<u8>, p: usize) -> PResult<Symbol> {
    if p < s.len() && symbol_of(s[p as int]) is Some {
        Ok((symbol_of(s[p as int])->0, (p + 1) as usize))
    } else {
        fail(p, Expected::Symbol)
    }
}

/// `<operand> <symbol> <operand>`, one space on each side of the symbol.
pub open spec fn spec_expression(s: Seq<u8>, p: usize) -> PResult<Operation> {
    match spec_operand(s, p) {
        Err(e) => Err(e),
        Ok((first, q)) => match spec_expect(s, q, " ", Expected::Space) {
            Err(e) => Err(e),
            Ok((_, q)) => match spec_symbol(s, q) {
                Err(e) => Err(e),
                Ok((symbol, q)) => match spec_expect(s, q, " ", Expected::Space) {
                    Err(e) => Err(e),
                    Ok((_, q)) => match spec_operand(s, q) {
                        Err(e) => Err(e),
                        Ok((second, q)) => Ok((Operation { first, symbol, second }, q)),
                    },
                },
            },
        },
    }
}

pub proof fn lemma_operand(s: Seq<u8>, p: usize)
    requires
        p <= s.len() <= usize::MAX,
    ensures
        spec_operand(s, p) matches Ok((_, e)) ==> p <= e <= s.len(),
        spec_operand(s, p) matches Err(e) ==> p <= e.position <= s.len(),
{
    lemma_number(s, p);
}

pub proof fn lemma_expression(s: Seq<u8>, p: usize)
    requires
        p <= s.len() <= usize::MAX,
    ensures
        spec_expression(s, p) matches Ok((_, e)) ==> p <= e <= s.len(),
        spec_expression(s, p) matches Err(e) ==> p <= e.position <= s.len(),
{
    lemma_operand(s, p);
    if let Ok((_, q1)) = spec_operand(s, p) {
        lemma_expect(s, q1, " ", Expected::Space);
        if let Ok((_, q2)) = spec_expect(s, q1, " ", Expected::Space) {
            if let Ok((_, q3)) = spec_symbol(s, q2) {
                lemma_expect(s, q3, " ", Expected::Space);
                if let Ok((_, q4)) = spec_expect(s, q3, " ", Expected::Space) {
                    lemma_operand(s, q4);
                }
            }
        }
    }
}

/// `prefix`, a number, and the end of the line.
pub open spec fn spec_number_line(s: Seq<u8>, p: usize, prefix: &str, what: Expected) -> PResult<
    u64,
> {
    match spec_expect(s, p, prefix, what) {
        Err(e) => Err(e),
        Ok((_, q)) => match spec_number(s, q) {
            Err(e) => Err(e),
            Ok((v, q)) => match spec_expect(s, q, "\n", Expected::Newline) {
                Err(e) => Err(e),
                Ok((_, q)) => Ok((v, q)),
            },
        },
    }
}

pub proof fn lemma_number_line(s: Seq<u8>, p: usize, prefix: &str, what: Expected)
    requires
        p <= s.len() <= usize::MAX,
    ensures
        spec_number_line(s, p, prefix, what) matches Ok((_, e)) ==> p < e <= s.len(),
        spec_number_line(s, p, prefix, what) matches Err(e) ==> p <= e.position <= s.len(),
{
    lemma_expect(s, p, prefix, what);
    if let Ok((_, q1)) = spec_expect(s, p, prefix, what) {
        lemma_number(s, q1);
        if let Ok((_, q2)) = spec_number(s, q1) {
            lemma_expect(s, q2, "\n", Expected::Newline);
        }
    }
}

/// `Monkey <n>:` and the end of the line; the number is not kept.
pub open spec fn spec_header(s: Seq<u8>, p: usize) -> PResult<()> {
    match spec_expect(s, p, "Monkey ", Expected::Header) {
        Err(e) => Err(e),
        Ok((_, q)) => match spec_number(s, q) {
            Err(e) => Err(e),
            Ok((_, q)) => spec_expect(s, q, ":\n", Expected::Header),
        },
    }
}

pub open spec fn spec_items_line(s: Seq<u8>, p: usize) -> PResult<Seq<u64>> {
    match spec_expect(s, p, "  Starting items: ", Expected::Items) {
        Err(e) => Err(e),
        Ok((_, q)) => match spec_item_list(s, q) {
            Err(e) => Err(e),
            Ok((items, q)) => match spec_expect(s, q, "\n", Expected::Newline) {
                Err(e) => Err(e),
                Ok((_, q)) => Ok((items, q)),
            },
        },
    }
}

pub open spec fn spec_operation_line(s: Seq<u8>, p: usize) -> PResult<Operation> {
    match spec_expect(s, p, "  Operation: new = ", Expected::Operation) {
        Err(e) => Err(e),
        Ok((_, q)) => match spec_expression(s, q) {
            Err(e) => Err(e),
            Ok((op, q)) => match spec_expect(s, q, "\n", Expected::Newline) {
                Err(e) => Err(e),
                Ok((_, q)) => Ok((op, q)),
            },
        },
    }
}

/// The six lines of one worker.
#[verifier::opaque]
pub open spec fn spec_block(s: Seq<u8>, p: usize) -> PResult<MonkeyView> {
    match spec_header(s, p) {
        Err(e) => Err(e),
        Ok((_, q)) => match spec_items_line(s, q) {
            Err(e) => Err(e),
            Ok((items, q)) => match spec_operation_line(s, q) {
                Err(e) => Err(e),
                Ok((operation, q)) => match spec_number_line(s, q, "  Test: divisible by ", Expected::Test) {
                    Err(e) => Err(e),
                    Ok((test, q)) => match spec_number_line(s, q, "    If true: throw to monkey ", Expected::TrueTarget) {
                        Err(e) => Err(e),
                        Ok((t, q)) => match spec_number_line(s, q, "    If false: throw to monkey ", Expected::FalseTarget) {
                            Err(e) => Err(e),
                            Ok((f, q)) => Ok((
                                MonkeyView { items, operation, test, if_true: t as usize, if_false: f as usize },
                                q,
                            )),
                        },
                    },
                },
            },
        },
    }
}

pub proof fn lemma_block(s: Seq<u8>, p: usize)
    requires
        p <= s.len() <= usize::MAX,
    ensures
        spec_block(s, p) matches Ok((_, e)) ==> p < e <= s.len(),
        spec_block(s, p) matches Err(e) ==> p <= e.position <= s.len(),
{
    reveal(spec_block);
    lemma_expect(s, p, "Monkey ", Expected::Header);
    if let Ok((_, a)) = spec_expect(s, p, "Monkey ", Expected::Header) {
        lemma_number(s, a);
        if let Ok((_, b)) = spec_number(s, a) {
            lemma_expect(s, b, ":\n", Expected::Header);
        }
    }
    if let Ok((_, q1)) = spec_header(s, p) {
        lemma_expect(s, q1, "  Starting items: ", Expected::Items);
        if let Ok((_, a)) = spec_expect(s, q1, "  Starting items: ", Expected::Items) {
            lemma_item_list(s, a);
            if let Ok((_, b)) = spec_item_list(s, a) {
                lemma_expect(s, b, "\n", Expected::Newline);
            }
        }
        if let Ok((_, q2)) = spec_items_line(s, q1) {
            lemma_expect(s, q2, "  Operation: new = ", Expected::Operation);
            if let Ok((_, a)) = spec_expect(s, q2, "  Operation: new = ", Expected::Operation) {
                lemma_expression(s, a);
                if let Ok((_, b)) = spec_expression(s, a) {
                    lemma_expect(s, b, "\n", Expected::Newline);
                }
            }
            if let Ok((_, q3)) = spec_operation_line(s, q2) {
                lemma_number_line(s, q3, "  Test: divisible by ", Expected::Test);
                if let Ok((_, q4)) = spec_number_line(s, q3, "  Test: divisible by ", Expected::Test) {
                    lemma_number_line(s, q4, "    If true: throw to monkey ", Expected::TrueTarget);
                    if let Ok((_, q5)) = spec_number_line(s, q4, "    If true: throw to monkey ", Expected::TrueTarget) {
                        lemma_number_line(s, q5, "    If false: throw to monkey ", Expected::FalseTarget);
                    }
                }
            }
        }
    }
}

/// Blocks from `p` to the end of the text, each after the first preceded by
/// an empty line.
pub open spec fn spec_blocks(s: Seq<u8>, p: usize) -> Result<Seq<MonkeyView>, ParseError>
    decreases s.len() - p
        when p <= s.len() <= usize::MAX
{
    match spec_block(s, p) {
        Err(e) => Err(e),
        Ok((m, q)) => {
            proof {
                lemma_block(s, p);
            }
            if q == s.len() {
                Ok(seq![m])
            } else if s[q as int] == 10 {
                match spec_blocks(s, (q + 1) as usize) {
                    Err(e) => Err(e),
                    Ok(ms) => Ok(seq![m] + ms),
                }
            } else {
                Err(ParseError { position: q, expected: Expected::BlankLine })
            }
        },
    }
}

/// `  Starting items: ` and the list, without the line end.
pub open spec fn spec_items_field(s: Seq<u8>, p: usize) -> PResult<Seq<u64>> {
    match spec_expect(s, p, "  Starting items: ", Expected::Items) {
        Err(e) => Err(e),
        Ok((_, q)) => spec_item_list(s, q),
    }
}

/// `  Operation: new = ` and the expression, without the line end.
pub open spec fn spec_operation_field(s: Seq<u8>, p: usize) -> PResult<Operation> {
    match spec_expect(s, p, "  Operation: new = ", Expected::Operation) {
        Err(e) => Err(e),
        Ok((_, q)) => spec_expression(s, q),
    }
}

/// `  Test: divisible by ` and the divisor, without the line end.
pub open spec fn spec_test_field(s: Seq<u8>, p: usize) -> PResult<u64> {
    match spec_expect(s, p, "  Test: divisible by ", Expected::Test) {
        Err(e) => Err(e),
        Ok((_, q)) => spec_number(s, q),
    }
}

/// Both target lines, without the end of the second.
pub open spec fn spec_actions(s: Seq<u8>, p: usize) -> PResult<(u64, u64)> {
    match spec_number_line(s, p, "    If true: throw to monkey ", Expected::TrueTarget) {
        Err(e) => Err(e),
        Ok((t, q)) => match spec_expect(s, q, "    If false: throw to monkey ", Expected::FalseTarget) {
            Err(e) => Err(e),
            Ok((_, q)) => match spec_number(s, q) {
                Err(e) => Err(e),
                Ok((f, q)) => Ok(((t, f), q)),
            },
        },
    }
}

/// An exec result agrees with a specified one: equal views and offsets,
/// or the same failure.
pub open spec fn agrees<T: View>(r: PResult<T>, m: PResult<T::V>) -> bool {
    match (r, m) {
        (Ok((v, e)), Ok((w, f))) => v@ == w && e == f,
        (Err(a), Err(b)) => a == b,
        _ => false,
    }
}

pub proof fn lemma_blocks_error(s: Seq<u8>, p: usize)
    requires
        p <= s.len() <= usize::MAX,
    ensures
        spec_blocks(s, p) matches Err(e) ==> p <= e.position <= s.len(),
    decreases s.len() - p,
{
    lemma_block(s, p);
    if let Ok((_, q)) = spec_block(s, p) {
        if q < s.len() && s[q as int] == 10 {
            lemma_blocks_error(s, (q + 1) as usize);
        }
    }
}

/// Where the divisor, the true target and the false target of the block at
/// `p` stand, for a block that parses.
pub open spec fn block_marks(s: Seq<u8>, p: usize) -> (usize, usize, usize) {
    let q1 = spec_header(s, p)->Ok_0.1;
    let q2 = spec_items_line(s, q1)->Ok_0.1;
    let q3 = spec_operation_line(s, q2)->Ok_0.1;
    let q4 = spec_number_line(s, q3, "  Test: divisible by ", Expected::Test)->Ok_0.1;
    let q5 = spec_number_line(s, q4, "    If true: throw to monkey ", Expected::TrueTarget)->Ok_0.1;
    (
        (q3 + "  Test: divisible by ".spec_bytes().len()) as usize,
        (q4 + "    If true: throw to monkey ".spec_bytes().len()) as usize,
        (q5 + "    If false: throw to monkey ".spec_bytes().len()) as usize,
    )
}

/// The marks of the blocks that `spec_blocks` reads from `p`, in order.
pub open spec fn spec_marks(s: Seq<u8>, p: usize) -> Seq<(usize, usize, usize)>
    decreases s.len() - p
        when p <= s.len() <= usize::MAX
{
    match spec_block(s, p) {
        Err(_) => seq![],
        Ok((_, q)) => {
            proof {
                lemma_block(s, p);
            }
            if q == s.len() {
                seq![block_marks(s, p)]
            } else if s[q as int] == 10 {
                seq![block_marks(s, p)] + spec_marks(s, (q + 1) as usize)
            } else {
                seq![]
            }
        },
    }
}

/// The first definition from the `k`-th on with a zero divisor or a target
/// that is no worker among `n`, reported at that number.
pub open spec fn first_bad(
    ms: Seq<MonkeyView>,
    ks: Seq<(usize, usize, usize)>,
    n: int,
    k: int,
) -> Option<ParseError>
    decreases ms.len() - k,
{
    if k < 0 || k >= ms.len() {
        None
    } else if ms[k].test == 0 {
        Some(ParseError { position: ks[k].0, expected: Expected::PositiveDivisor })
    } else if ms[k].if_true >= n {
        Some(ParseError { position: ks[k].1, expected: Expected::KnownWorker })
    } else if ms[k].if_false >= n {
        Some(ParseError { position: ks[k].2, expected: Expected::KnownWorker })
    } else {
        first_bad(ms, ks, n, k + 1)
    }
}

/// The worker definitions that a whole text describes: the blocks read in
/// order, each divisor positive and each target one of the workers.
pub open spec fn spec_parse(s: Seq<u8>) -> Result<Seq<MonkeyView>, ParseError> {
    match spec_blocks(s, 0) {
        Err(e) => Err(e),
        Ok(ms) => match first_bad(ms, spec_marks(s, 0), ms.len() as int, 0) {
            Some(e) => Err(e),
            None => Ok(ms),
        },
    }
}

/// With no bad definition from `k` on, the definitions from `k` on have
/// positive divisors and targets below `n`.
pub proof fn lemma_first_bad(ms: Seq<MonkeyView>, ks: Seq<(usize, usize, usize)>, n: int, k: int)
    requires
        0 <= k,
    ensures
        first_bad(ms, ks, n, k) is None <==> forall|j: int|
            k <= j < ms.len() ==> {
                &&& #[trigger] ms[j].test > 0
                &&& ms[j].if_true < n
                &&& ms[j].if_false < n
            },
    decreases ms.len() - k,
{
    if k < ms.len() {
        lemma_first_bad(ms, ks, n, k + 1);
    }
}

} // verus!
