//! A parse that succeeds reads only the bytes up to where it ends (and,
//! after a number, the byte that ends it): it gives the same result in any
//! text that agrees on those bytes, wherever they stand.
use crate::grammar::{
    digits_end, digits_value, is_digit, lemma_digits_end, lemma_more_items, lemma_number,
    spec_block, spec_expect, spec_expression, spec_header, spec_item_list, spec_items_line,
    spec_more_items, spec_number, spec_number_line, spec_operand, spec_operation_line,
    spec_symbol, tag_at, Expected, MonkeyView,
};
use vstd::prelude::*;
use vstd::string::StringSliceAdditionalSpecFns;

verus! {

/// The first `lim` bytes of `b` stand in `s` from offset `o`.
pub open spec fn window(s: Seq<u8>, o: int, b: Seq<u8>, lim: int) -> bool {
    &&& 0 <= o
    &&& 0 <= lim <= b.len() <= usize::MAX
    &&& o + lim <= s.len()
    &&& s.subrange(o, o + lim) == b.subrange(0, lim)
}

proof fn lemma_literals()
    ensures
        ", ".spec_bytes() == seq![44u8, 32u8],
        "old".spec_bytes()[0] == 111u8,
        "old".spec_bytes().len() == 3,
        "\n".spec_bytes() == seq![10u8],
        ":\n".spec_bytes().len() == 2,
{
    crate::framing::lemma_literal_bytes();
}

proof fn lemma_win_at(s: Seq<u8>, o: int, b: Seq<u8>, lim: int, k: int)
    requires
        window(s, o, b, lim),
        0 <= k < lim,
    ensures
        s[o + k] == b[k],
{
    assert(s.subrange(o, o + lim)[k] == b.subrange(0, lim)[k]);
}

proof fn lemma_win_tag(s: Seq<u8>, o: int, b: Seq<u8>, lim: int, q: int, lit: Seq<u8>)
    requires
        window(s, o, b, lim),
        0 <= q <= b.len(),
        tag_at(b, q, lit),
        q + lit.len() <= lim,
    ensures
        tag_at(s, o + q, lit),
{
    let l = lit.len() as int;
    assert forall|k: int| 0 <= k < l implies s.subrange(o + q, o + q + l)[k] == lit[k] by {
        lemma_win_at(s, o, b, lim, q + k);
        assert(b.subrange(q, q + l)[k] == lit[k]);
    }
    assert(s.subrange(o + q, o + q + l) =~= lit);
}

proof fn lemma_win_expect(s: Seq<u8>, o: usize, b: Seq<u8>, lim: int, q: usize, lit: &str, w: Expected)
    requires
        window(s, o as int, b, lim),
        s.len() <= usize::MAX,
        q <= b.len(),
    ensures
        spec_expect(b, q, lit, w) matches Ok((_, e)) ==> e <= lim ==> spec_expect(s, (o + q) as usize, lit, w)
            == Ok::<((), usize), crate::grammar::ParseError>(((), (o + e) as usize)),
{
    if tag_at(b, q as int, lit.spec_bytes()) && q + lit.spec_bytes().len() <= lim {
        let l = lit.spec_bytes().len() as int;
        assert forall|k: int| 0 <= k < l implies s.subrange(o + q, o + q + l)[k] == lit.spec_bytes()[k] by {
            lemma_win_at(s, o as int, b, lim, q + k);
            assert(b.subrange(q as int, q + l)[k] == lit.spec_bytes()[k]);
        }
        assert(s.subrange(o + q, o + q + l) =~= lit.spec_bytes());
    }
}

proof fn lemma_win_digits(s: Seq<u8>, o: int, b: Seq<u8>, lim: int, q: int)
    requires
        window(s, o, b, lim),
        0 <= q <= b.len(),
        digits_end(b, q) < lim,
    ensures
        digits_end(s, o + q) == o + digits_end(b, q),
    decreases b.len() - q,
{
    lemma_digits_end(b, q);
    lemma_win_at(s, o, b, lim, q);
    if q < lim && is_digit(b[q]) {
        lemma_win_digits(s, o, b, lim, q + 1);
    }
}

proof fn lemma_win_value(s: Seq<u8>, o: int, b: Seq<u8>, lim: int, q: int, r: int)
    requires
        window(s, o, b, lim),
        0 <= q <= r <= lim,
    ensures
        digits_value(s, o + q, o + r) == digits_value(b, q, r),
    decreases r - q,
{
    if q < r {
        lemma_win_value(s, o, b, lim, q, r - 1);
        lemma_win_at(s, o, b, lim, r - 1);
    }
}

proof fn lemma_win_number(s: Seq<u8>, o: usize, b: Seq<u8>, lim: int, q: usize)
    requires
        window(s, o as int, b, lim),
        s.len() <= usize::MAX,
        q <= b.len(),
    ensures
        spec_number(b, q) matches Ok((v, e)) ==> (e < lim ==> spec_number(s, (o + q) as usize)
            == Ok::<(u64, usize), crate::grammar::ParseError>((v, (o + e) as usize))),
{
    if let Ok((v, e)) = spec_number(b, q) {
        lemma_digits_end(b, q as int);
        if e < lim {
            lemma_win_digits(s, o as int, b, lim, q as int);
            lemma_win_value(s, o as int, b, lim, q as int, e as int);
        }
    }
}

proof fn lemma_win_more_items(s: Seq<u8>, o: usize, b: Seq<u8>, lim: int, q: usize)
    requires
        window(s, o as int, b, lim),
        s.len() <= usize::MAX,
        q <= b.len(),
    ensures
        spec_more_items(b, q) matches Ok((vs, e)) ==> (e < lim && b[e as int] == 10
            ==> spec_more_items(s, (o + q) as usize) == Ok::<(Seq<u64>, usize), crate::grammar::ParseError>(
            (vs, (o + e) as usize),
        )),
    decreases b.len() - q,
{
    lemma_literals();
    let sep = ", ".spec_bytes();
    lemma_more_items(b, q);
    if let Ok((vs, e)) = spec_more_items(b, q) {
        if e < lim && b[e as int] == 10 {
            if tag_at(b, q as int, sep) {
                let q2 = (q + 2) as usize;
                lemma_number(b, q2);
                if let Ok((v, r)) = spec_number(b, q2) {
                    lemma_more_items(b, r);
                    lemma_win_tag(s, o as int, b, lim, q as int, sep);
                    lemma_win_more_items(s, o, b, lim, r);
                    lemma_win_number(s, o, b, lim, q2);
                }
            } else {
                lemma_win_at(s, o as int, b, lim, q as int);
                if tag_at(s, o + q, sep) {
                    assert(s.subrange(o + q, o + q + 2)[0] == sep[0]);
                }
            }
        }
    }
}


proof fn lemma_win_item_list(s: Seq<u8>, o: usize, b: Seq<u8>, lim: int, q: usize)
    requires
        window(s, o as int, b, lim),
        s.len() <= usize::MAX,
        q <= b.len(),
    ensures
        spec_item_list(b, q) matches Ok((vs, e)) ==> (e < lim && b[e as int] == 10
            ==> spec_item_list(s, (o + q) as usize) == Ok::<(Seq<u64>, usize), crate::grammar::ParseError>(
            (vs, (o + e) as usize),
        )),
{
    crate::grammar::lemma_item_list(b, q);
    if let Ok((vs, e)) = spec_item_list(b, q) {
        if e < lim && b[e as int] == 10 {
            lemma_win_at(s, o as int, b, lim, q as int);
            if is_digit(b[q as int]) {
                lemma_number(b, q);
                if let Ok((v, r)) = spec_number(b, q) {
                    lemma_more_items(b, r);
                    lemma_win_number(s, o, b, lim, q);
                    lemma_win_more_items(s, o, b, lim, r);
                }
            }
        }
    }
}


proof fn lemma_win_operand(s: Seq<u8>, o: usize, b: Seq<u8>, lim: int, q: usize)
    requires
        window(s, o as int, b, lim),
        s.len() <= usize::MAX,
        q <= b.len(),
    ensures
        spec_operand(b, q) matches Ok((v, e)) ==> (e < lim ==> spec_operand(s, (o + q) as usize)
            == Ok::<(crate::expression::Operand, usize), crate::grammar::ParseError>((v, (o + e) as usize))),
{
    lemma_literals();
    let old = "old".spec_bytes();
    if let Ok((v, e)) = spec_operand(b, q) {
        if e < lim {
            if tag_at(b, q as int, old) {
                lemma_win_tag(s, o as int, b, lim, q as int, old);
            } else {
                lemma_win_number(s, o, b, lim, q);
                lemma_digits_end(b, q as int);
                lemma_win_at(s, o as int, b, lim, q as int);
                if tag_at(s, o + q, old) {
                    assert(s.subrange(o + q, o + q + 3)[0] == old[0]);
                }
            }
        }
    }
}


proof fn lemma_win_expression(s: Seq<u8>, o: usize, b: Seq<u8>, lim: int, q: usize)
    requires
        window(s, o as int, b, lim),
        s.len() <= usize::MAX,
        q <= b.len(),
    ensures
        spec_expression(b, q) matches Ok((v, e)) ==> (e < lim ==> spec_expression(
            s,
            (o + q) as usize,
        ) == Ok::<(crate::expression::Operation, usize), crate::grammar::ParseError>(
            (v, (o + e) as usize),
        )),
{
    if let Ok((_, e)) = spec_expression(b, q) {
        if e < lim {
            crate::grammar::lemma_operand(b, q);
            let (_, q1) = spec_operand(b, q)->Ok_0;
            lemma_win_operand(s, o, b, lim, q);
            lemma_win_expect(s, o, b, lim, q1, " ", Expected::Space);
            crate::grammar::lemma_expect(b, q1, " ", Expected::Space);
            let (_, q2) = spec_expect(b, q1, " ", Expected::Space)->Ok_0;
            let (_, q3) = spec_symbol(b, q2)->Ok_0;
            lemma_win_expect(s, o, b, lim, q3, " ", Expected::Space);
            crate::grammar::lemma_expect(b, q3, " ", Expected::Space);
            let (_, q4) = spec_expect(b, q3, " ", Expected::Space)->Ok_0;
            lemma_win_operand(s, o, b, lim, q4);
            crate::grammar::lemma_operand(b, q4);
            lemma_win_at(s, o as int, b, lim, q2 as int);
        }
    }
}

pub proof fn lemma_win_number_line(
    s: Seq<u8>,
    o: usize,
    b: Seq<u8>,
    lim: int,
    q: usize,
    prefix: &str,
    what: Expected,
)
    requires
        window(s, o as int, b, lim),
        s.len() <= usize::MAX,
        q <= b.len(),
    ensures
        spec_number_line(b, q, prefix, what) matches Ok((v, e)) ==> e <= lim ==> spec_number_line(
            s,
            (o + q) as usize,
            prefix,
            what,
        ) == Ok::<(u64, usize), crate::grammar::ParseError>((v, (o + e) as usize)),
{
    lemma_literals();
    if let Ok((_, e)) = spec_number_line(b, q, prefix, what) {
        crate::grammar::lemma_expect(b, q, prefix, what);
        lemma_win_expect(s, o, b, lim, q, prefix, what);
        let (_, q1) = spec_expect(b, q, prefix, what)->Ok_0;
        lemma_number(b, q1);
        let (_, q2) = spec_number(b, q1)->Ok_0;
        lemma_win_number(s, o, b, lim, q1);
        lemma_win_expect(s, o, b, lim, q2, "\n", Expected::Newline);
    }
}

pub proof fn lemma_win_header(s: Seq<u8>, o: usize, b: Seq<u8>, lim: int, q: usize)
    requires
        window(s, o as int, b, lim),
        s.len() <= usize::MAX,
        q <= b.len(),
    ensures
        spec_header(b, q) matches Ok((_, e)) ==> e <= lim ==> spec_header(s, (o + q) as usize) == Ok::<
            ((), usize),
            crate::grammar::ParseError,
        >(((), (o + e) as usize)),
{
    lemma_literals();
    if let Ok((_, e)) = spec_header(b, q) {
        crate::grammar::lemma_expect(b, q, "Monkey ", Expected::Header);
        lemma_win_expect(s, o, b, lim, q, "Monkey ", Expected::Header);
        let (_, q1) = spec_expect(b, q, "Monkey ", Expected::Header)->Ok_0;
        lemma_number(b, q1);
        let (_, q2) = spec_number(b, q1)->Ok_0;
        lemma_win_number(s, o, b, lim, q1);
        lemma_win_expect(s, o, b, lim, q2, ":\n", Expected::Header);
    }
}

pub proof fn lemma_win_items_line(s: Seq<u8>, o: usize, b: Seq<u8>, lim: int, q: usize)
    requires
        window(s, o as int, b, lim),
        s.len() <= usize::MAX,
        q <= b.len(),
    ensures
        spec_items_line(b, q) matches Ok((v, e)) ==> e <= lim ==> spec_items_line(s, (o + q) as usize) == Ok::<
            (Seq<u64>, usize),
            crate::grammar::ParseError,
        >((v, (o + e) as usize)),
{
    lemma_literals();
    if let Ok((_, e)) = spec_items_line(b, q) {
        crate::grammar::lemma_expect(b, q, "  Starting items: ", Expected::Items);
        lemma_win_expect(s, o, b, lim, q, "  Starting items: ", Expected::Items);
        let (_, q1) = spec_expect(b, q, "  Starting items: ", Expected::Items)->Ok_0;
        crate::grammar::lemma_item_list(b, q1);
        let (_, q2) = spec_item_list(b, q1)->Ok_0;
        assert(b.subrange(q2 as int, q2 + 1)[0] == 10u8);
        lemma_win_item_list(s, o, b, lim, q1);
        lemma_win_expect(s, o, b, lim, q2, "\n", Expected::Newline);
    }
}

pub proof fn lemma_win_operation_line(s: Seq<u8>, o: usize, b: Seq<u8>, lim: int, q: usize)
    requires
        window(s, o as int, b, lim),
        s.len() <= usize::MAX,
        q <= b.len(),
    ensures
        spec_operation_line(b, q) matches Ok((v, e)) ==> e <= lim ==> spec_operation_line(s, (o + q) as usize)
            == Ok::<(crate::expression::Operation, usize), crate::grammar::ParseError>(
            (v, (o + e) as usize),
        ),
{
    lemma_literals();
    if let Ok((_, e)) = spec_operation_line(b, q) {
        crate::grammar::lemma_expect(b, q, "  Operation: new = ", Expected::Operation);
        lemma_win_expect(s, o, b, lim, q, "  Operation: new = ", Expected::Operation);
        let (_, q1) = spec_expect(b, q, "  Operation: new = ", Expected::Operation)->Ok_0;
        crate::grammar::lemma_expression(b, q1);
        let (_, q2) = spec_expression(b, q1)->Ok_0;
        lemma_win_expression(s, o, b, lim, q1);
        lemma_win_expect(s, o, b, lim, q2, "\n", Expected::Newline);
    }
}

proof fn lemma_win_block(s: Seq<u8>, o: usize, b: Seq<u8>, lim: int, q: usize)
    requires
        window(s, o as int, b, lim),
        s.len() <= usize::MAX,
        q <= b.len(),
    ensures
        spec_block(b, q) matches Ok((m, e)) ==> e <= lim ==> spec_block(s, (o + q) as usize) == Ok::<
            (MonkeyView, usize),
            crate::grammar::ParseError,
        >((m, (o + e) as usize)),
{
    reveal(spec_block);
    if let Ok((_, e)) = spec_block(b, q) {
        crate::grammar::lemma_block(b, q);
        crate::grammar::lemma_expect(b, q, "Monkey ", Expected::Header);
        let (_, a) = spec_expect(b, q, "Monkey ", Expected::Header)->Ok_0;
        lemma_number(b, a);
        let (_, a2) = spec_number(b, a)->Ok_0;
        crate::grammar::lemma_expect(b, a2, ":\n", Expected::Header);
        let (_, q1) = spec_header(b, q)->Ok_0;
        crate::grammar::lemma_expect(b, q1, "  Starting items: ", Expected::Items);
        let (_, c) = spec_expect(b, q1, "  Starting items: ", Expected::Items)->Ok_0;
        crate::grammar::lemma_item_list(b, c);
        let (_, c2) = spec_item_list(b, c)->Ok_0;
        crate::grammar::lemma_expect(b, c2, "\n", Expected::Newline);
        let (_, q2) = spec_items_line(b, q1)->Ok_0;
        crate::grammar::lemma_expect(b, q2, "  Operation: new = ", Expected::Operation);
        let (_, d) = spec_expect(b, q2, "  Operation: new = ", Expected::Operation)->Ok_0;
        crate::grammar::lemma_expression(b, d);
        let (_, d2) = spec_expression(b, d)->Ok_0;
        crate::grammar::lemma_expect(b, d2, "\n", Expected::Newline);
        let (_, q3) = spec_operation_line(b, q2)->Ok_0;
        crate::grammar::lemma_number_line(b, q3, "  Test: divisible by ", Expected::Test);
        let (_, q4) = spec_number_line(b, q3, "  Test: divisible by ", Expected::Test)->Ok_0;
        crate::grammar::lemma_number_line(b, q4, "    If true: throw to monkey ", Expected::TrueTarget);
        let (_, q5) = spec_number_line(b, q4, "    If true: throw to monkey ", Expected::TrueTarget)->Ok_0;
        crate::grammar::lemma_number_line(b, q5, "    If false: throw to monkey ", Expected::FalseTarget);
        if e <= lim {
            lemma_win_header(s, o, b, lim, q);
            lemma_win_items_line(s, o, b, lim, q1);
            lemma_win_operation_line(s, o, b, lim, q2);
            lemma_win_number_line(s, o, b, lim, q3, "  Test: divisible by ", Expected::Test);
            lemma_win_number_line(s, o, b, lim, q4, "    If true: throw to monkey ", Expected::TrueTarget);
            lemma_win_number_line(s, o, b, lim, q5, "    If false: throw to monkey ", Expected::FalseTarget);
        }
    }
}

} // verus!
