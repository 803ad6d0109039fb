//! Parsing never looks to the left of where it starts: a text parsed after
//! any prefix gives the same result, its offsets moved by the prefix length.
//! So a failure in the text after valid blocks is reported inside that text.
use crate::framing::{join_blocks, valid_block};
use crate::grammar::{
    digits_end, digits_value, is_digit, spec_block, spec_blocks, spec_expect, spec_expression,
    spec_header, spec_item_list, spec_items_line, spec_more_items, spec_number, spec_number_line,
    spec_operand, spec_operation_line, spec_parse, spec_symbol, tag_at, Expected, MonkeyView,
    PResult, ParseError,
};
use vstd::prelude::*;
use vstd::string::StringSliceAdditionalSpecFns;

verus! {

/// `r` with every offset moved right by `d`.
pub open spec fn shifted<T>(r: PResult<T>, d: int) -> PResult<T> {
    match r {
        Ok((v, e)) => Ok((v, (e + d) as usize)),
        Err(err) => Err(ParseError { position: (err.position + d) as usize, expected: err.expected }),
    }
}

proof fn lemma_shift_at(u: Seq<u8>, t: Seq<u8>, k: int)
    requires
        0 <= k < t.len(),
    ensures
        (u + t)[u.len() + k] == t[k],
{
}

proof fn lemma_shift_tag(u: Seq<u8>, t: Seq<u8>, p: int, lit: Seq<u8>)
    requires
        0 <= p <= t.len(),
    ensures
        tag_at(u + t, u.len() + p, lit) == tag_at(t, p, lit),
{
    let s = u + t;
    let d = u.len() as int;
    let l = lit.len() as int;
    if p + l <= t.len() {
        assert(s.subrange(d + p, d + p + l) =~= t.subrange(p, p + l));
    }
}

proof fn lemma_shift_expect(u: Seq<u8>, t: Seq<u8>, p: usize, lit: &str, w: Expected)
    requires
        p <= t.len(),
        (u + t).len() <= usize::MAX,
    ensures
        spec_expect(u + t, (u.len() + p) as usize, lit, w) == shifted(spec_expect(t, p, lit, w), u.len() as int),
{
    lemma_shift_tag(u, t, p as int, lit.spec_bytes());
}

proof fn lemma_shift_digits(u: Seq<u8>, t: Seq<u8>, p: int)
    requires
        0 <= p <= t.len(),
    ensures
        digits_end(u + t, u.len() + p) == u.len() + digits_end(t, p),
    decreases t.len() - p,
{
    if p < t.len() {
        lemma_shift_at(u, t, p);
        if is_digit(t[p]) {
            lemma_shift_digits(u, t, p + 1);
        }
    }
}

proof fn lemma_shift_value(u: Seq<u8>, t: Seq<u8>, p: int, r: int)
    requires
        0 <= p <= r <= t.len(),
    ensures
        digits_value(u + t, u.len() + p, u.len() + r) == digits_value(t, p, r),
    decreases r - p,
{
    if p < r {
        lemma_shift_value(u, t, p, r - 1);
        lemma_shift_at(u, t, r - 1);
    }
}

proof fn lemma_shift_number(u: Seq<u8>, t: Seq<u8>, p: usize)
    requires
        p <= t.len(),
        (u + t).len() <= usize::MAX,
    ensures
        spec_number(u + t, (u.len() + p) as usize) == shifted(spec_number(t, p), u.len() as int),
{
    lemma_shift_digits(u, t, p as int);
    crate::grammar::lemma_digits_end(t, p as int);
    lemma_shift_value(u, t, p as int, digits_end(t, p as int));
}

proof fn lemma_shift_more_items(u: Seq<u8>, t: Seq<u8>, p: usize)
    requires
        p <= t.len(),
        (u + t).len() <= usize::MAX,
    ensures
        spec_more_items(u + t, (u.len() + p) as usize) == shifted(spec_more_items(t, p), u.len() as int),
    decreases t.len() - p,
{
    let sep = ", ".spec_bytes();
    lemma_shift_tag(u, t, p as int, sep);
    if tag_at(t, p as int, sep) {
        let q = (p + sep.len()) as usize;
        lemma_shift_number(u, t, q);
        crate::grammar::lemma_number(t, q);
        if let Ok((v, r)) = spec_number(t, q) {
            lemma_shift_more_items(u, t, r);
        }
    }
}

proof fn lemma_shift_item_list(u: Seq<u8>, t: Seq<u8>, p: usize)
    requires
        p <= t.len(),
        (u + t).len() <= usize::MAX,
    ensures
        spec_item_list(u + t, (u.len() + p) as usize) == shifted(spec_item_list(t, p), u.len() as int),
{
    if p < t.len() {
        lemma_shift_at(u, t, p as int);
    }
    lemma_shift_number(u, t, p);
    crate::grammar::lemma_number(t, p);
    if let Ok((v, q)) = spec_number(t, p) {
        lemma_shift_more_items(u, t, q);
    }
}

proof fn lemma_shift_operand(u: Seq<u8>, t: Seq<u8>, p: usize)
    requires
        p <= t.len(),
        (u + t).len() <= usize::MAX,
    ensures
        spec_operand(u + t, (u.len() + p) as usize) == shifted(spec_operand(t, p), u.len() as int),
{
    lemma_shift_tag(u, t, p as int, "old".spec_bytes());
    lemma_shift_number(u, t, p);
}

proof fn lemma_shift_symbol(u: Seq<u8>, t: Seq<u8>, p: usize)
    requires
        p <= t.len(),
        (u + t).len() <= usize::MAX,
    ensures
        spec_symbol(u + t, (u.len() + p) as usize) == shifted(spec_symbol(t, p), u.len() as int),
{
    if p < t.len() {
        lemma_shift_at(u, t, p as int);
    }
}

proof fn lemma_shift_expression(u: Seq<u8>, t: Seq<u8>, p: usize)
    requires
        p <= t.len(),
        (u + t).len() <= usize::MAX,
    ensures
        spec_expression(u + t, (u.len() + p) as usize) == shifted(spec_expression(t, p), u.len() as int),
{
    lemma_shift_operand(u, t, p);
    crate::grammar::lemma_operand(t, p);
    if let Ok((_, q1)) = spec_operand(t, p) {
        lemma_shift_expect(u, t, q1, " ", Expected::Space);
        crate::grammar::lemma_expect(t, q1, " ", Expected::Space);
        if let Ok((_, q2)) = spec_expect(t, q1, " ", Expected::Space) {
            lemma_shift_symbol(u, t, q2);
            if let Ok((_, q3)) = spec_symbol(t, q2) {
                lemma_shift_expect(u, t, q3, " ", Expected::Space);
                crate::grammar::lemma_expect(t, q3, " ", Expected::Space);
                if let Ok((_, q4)) = spec_expect(t, q3, " ", Expected::Space) {
                    lemma_shift_operand(u, t, q4);
                }
            }
        }
    }
}

proof fn lemma_shift_number_line(u: Seq<u8>, t: Seq<u8>, p: usize, prefix: &str, what: Expected)
    requires
        p <= t.len(),
        (u + t).len() <= usize::MAX,
    ensures
        spec_number_line(u + t, (u.len() + p) as usize, prefix, what) == shifted(
            spec_number_line(t, p, prefix, what),
            u.len() as int,
        ),
{
    lemma_shift_expect(u, t, p, prefix, what);
    crate::grammar::lemma_expect(t, p, prefix, what);
    if let Ok((_, q1)) = spec_expect(t, p, prefix, what) {
        lemma_shift_number(u, t, q1);
        crate::grammar::lemma_number(t, q1);
        if let Ok((_, q2)) = spec_number(t, q1) {
            lemma_shift_expect(u, t, q2, "\n", Expected::Newline);
        }
    }
}

proof fn lemma_shift_header(u: Seq<u8>, t: Seq<u8>, p: usize)
    requires
        p <= t.len(),
        (u + t).len() <= usize::MAX,
    ensures
        spec_header(u + t, (u.len() + p) as usize) == shifted(spec_header(t, p), u.len() as int),
{
    lemma_shift_expect(u, t, p, "Monkey ", Expected::Header);
    crate::grammar::lemma_expect(t, p, "Monkey ", Expected::Header);
    if let Ok((_, q1)) = spec_expect(t, p, "Monkey ", Expected::Header) {
        lemma_shift_number(u, t, q1);
        crate::grammar::lemma_number(t, q1);
        if let Ok((_, q2)) = spec_number(t, q1) {
            lemma_shift_expect(u, t, q2, ":\n", Expected::Header);
        }
    }
}

proof fn lemma_shift_items_line(u: Seq<u8>, t: Seq<u8>, p: usize)
    requires
        p <= t.len(),
        (u + t).len() <= usize::MAX,
    ensures
        spec_items_line(u + t, (u.len() + p) as usize) == shifted(spec_items_line(t, p), u.len() as int),
{
    lemma_shift_expect(u, t, p, "  Starting items: ", Expected::Items);
    crate::grammar::lemma_expect(t, p, "  Starting items: ", Expected::Items);
    if let Ok((_, q1)) = spec_expect(t, p, "  Starting items: ", Expected::Items) {
        lemma_shift_item_list(u, t, q1);
        crate::grammar::lemma_item_list(t, q1);
        if let Ok((_, q2)) = spec_item_list(t, q1) {
            lemma_shift_expect(u, t, q2, "\n", Expected::Newline);
        }
    }
}

proof fn lemma_shift_operation_line(u: Seq<u8>, t: Seq<u8>, p: usize)
    requires
        p <= t.len(),
        (u + t).len() <= usize::MAX,
    ensures
        spec_operation_line(u + t, (u.len() + p) as usize) == shifted(
            spec_operation_line(t, p),
            u.len() as int,
        ),
{
    lemma_shift_expect(u, t, p, "  Operation: new = ", Expected::Operation);
    crate::grammar::lemma_expect(t, p, "  Operation: new = ", Expected::Operation);
    if let Ok((_, q1)) = spec_expect(t, p, "  Operation: new = ", Expected::Operation) {
        lemma_shift_expression(u, t, q1);
        crate::grammar::lemma_expression(t, q1);
        if let Ok((_, q2)) = spec_expression(t, q1) {
            lemma_shift_expect(u, t, q2, "\n", Expected::Newline);
        }
    }
}

proof fn lemma_header_bound(t: Seq<u8>, p: usize)
    requires
        p <= t.len() <= usize::MAX,
    ensures
        spec_header(t, p) matches Ok((_, e)) ==> p <= e <= t.len(),
{
    crate::grammar::lemma_expect(t, p, "Monkey ", Expected::Header);
    if let Ok((_, a)) = spec_expect(t, p, "Monkey ", Expected::Header) {
        crate::grammar::lemma_number(t, a);
        if let Ok((_, b)) = spec_number(t, a) {
            crate::grammar::lemma_expect(t, b, ":\n", Expected::Header);
        }
    }
}

proof fn lemma_items_line_bound(t: Seq<u8>, p: usize)
    requires
        p <= t.len() <= usize::MAX,
    ensures
        spec_items_line(t, p) matches Ok((_, e)) ==> p <= e <= t.len(),
{
    crate::grammar::lemma_expect(t, p, "  Starting items: ", Expected::Items);
    if let Ok((_, a)) = spec_expect(t, p, "  Starting items: ", Expected::Items) {
        crate::grammar::lemma_item_list(t, a);
        if let Ok((_, b)) = spec_item_list(t, a) {
            crate::grammar::lemma_expect(t, b, "\n", Expected::Newline);
        }
    }
}

proof fn lemma_operation_line_bound(t: Seq<u8>, p: usize)
    requires
        p <= t.len() <= usize::MAX,
    ensures
        spec_operation_line(t, p) matches Ok((_, e)) ==> p <= e <= t.len(),
{
    crate::grammar::lemma_expect(t, p, "  Operation: new = ", Expected::Operation);
    if let Ok((_, a)) = spec_expect(t, p, "  Operation: new = ", Expected::Operation) {
        crate::grammar::lemma_expression(t, a);
        if let Ok((_, b)) = spec_expression(t, a) {
            crate::grammar::lemma_expect(t, b, "\n", Expected::Newline);
        }
    }
}

#[verifier::rlimit(100)]
proof fn lemma_shift_block(u: Seq<u8>, t: Seq<u8>, p: usize)
    requires
        p <= t.len(),
        (u + t).len() <= usize::MAX,
    ensures
        spec_block(u + t, (u.len() + p) as usize) == shifted(spec_block(t, p), u.len() as int),
{
    reveal(spec_block);
    lemma_shift_header(u, t, p);
    lemma_header_bound(t, p);
    if let Ok((_, q1)) = spec_header(t, p) {
        lemma_shift_items_line(u, t, q1);
        lemma_items_line_bound(t, q1);
        if let Ok((_, q2)) = spec_items_line(t, q1) {
            lemma_shift_operation_line(u, t, q2);
            lemma_operation_line_bound(t, q2);
            if let Ok((_, q3)) = spec_operation_line(t, q2) {
                lemma_shift_number_line(u, t, q3, "  Test: divisible by ", Expected::Test);
                crate::grammar::lemma_number_line(t, q3, "  Test: divisible by ", Expected::Test);
                if let Ok((_, q4)) = spec_number_line(t, q3, "  Test: divisible by ", Expected::Test) {
                    lemma_shift_number_line(u, t, q4, "    If true: throw to monkey ", Expected::TrueTarget);
                    crate::grammar::lemma_number_line(t, q4, "    If true: throw to monkey ", Expected::TrueTarget);
                    if let Ok((_, q5)) = spec_number_line(t, q4, "    If true: throw to monkey ", Expected::TrueTarget) {
                        lemma_shift_number_line(u, t, q5, "    If false: throw to monkey ", Expected::FalseTarget);
                    }
                }
            }
        }
    }
}

/// `e` moved right by `d`.
pub open spec fn moved(e: ParseError, d: int) -> ParseError {
    ParseError { position: (e.position + d) as usize, expected: e.expected }
}

proof fn lemma_shift_blocks(u: Seq<u8>, t: Seq<u8>, p: usize)
    requires
        p <= t.len(),
        (u + t).len() <= usize::MAX,
    ensures
        spec_blocks(u + t, (u.len() + p) as usize) == match spec_blocks(t, p) {
            Ok(ms) => Ok::<Seq<MonkeyView>, ParseError>(ms),
            Err(e) => Err(moved(e, u.len() as int)),
        },
    decreases t.len() - p,
{
    lemma_shift_block(u, t, p);
    crate::grammar::lemma_block(t, p);
    if let Ok((m, q)) = spec_block(t, p) {
        if q < t.len() {
            lemma_shift_at(u, t, q as int);
            if t[q as int] == 10 {
                lemma_shift_blocks(u, t, (q + 1) as usize);
            }
        }
    }
}

/// Valid blocks, each followed by an empty line.
pub open spec fn lead(bs: Seq<Seq<u8>>) -> Seq<u8> {
    if bs.len() == 0 {
        seq![]
    } else {
        join_blocks(bs) + seq![10u8]
    }
}

proof fn lemma_lead_unfold(bs: Seq<Seq<u8>>)
    requires
        bs.len() > 0,
    ensures
        lead(bs) == bs[0] + seq![10u8] + lead(bs.drop_first()),
{
    if bs.len() == 1 {
        assert(lead(bs.drop_first()) =~= seq![]);
        assert(lead(bs) =~= bs[0] + seq![10u8] + lead(bs.drop_first()));
    } else {
        assert(lead(bs) =~= bs[0] + seq![10u8] + lead(bs.drop_first()));
    }
}

proof fn lemma_blocks_fail_locally(bs: Seq<Seq<u8>>, ms: Seq<MonkeyView>, t: Seq<u8>)
    requires
        bs.len() == ms.len(),
        forall|i: int| 0 <= i < bs.len() ==> #[trigger] valid_block(bs[i], ms[i]),
        spec_blocks(t, 0) is Err,
        (lead(bs) + t).len() <= usize::MAX,
    ensures
        spec_blocks(lead(bs) + t, 0) == Err::<Seq<MonkeyView>, ParseError>(
            moved(spec_blocks(t, 0)->Err_0, lead(bs).len() as int),
        ),
        lead(bs).len() <= moved(spec_blocks(t, 0)->Err_0, lead(bs).len() as int).position <= (lead(bs)
            + t).len(),
    decreases bs.len(),
{
    let e = spec_blocks(t, 0)->Err_0;
    crate::grammar::lemma_blocks_error(t, 0);
    if bs.len() == 0 {
        assert(lead(bs) + t =~= t);
        assert(moved(e, 0) == e);
    } else {
        let rest = bs.drop_first();
        let b = bs[0];
        assert(valid_block(bs[0], ms[0]));
        assert forall|i: int| 0 <= i < rest.len() implies #[trigger] valid_block(rest[i], ms.drop_first()[i]) by {
            assert(valid_block(bs[i + 1], ms[i + 1]));
        }
        lemma_lead_unfold(bs);
        let tail = lead(rest) + t;
        let s = lead(bs) + t;
        assert(s =~= b + (seq![10u8] + tail));
        lemma_blocks_fail_locally(rest, ms.drop_first(), t);
        crate::framing::lemma_embed_block_at_start(b, seq![10u8] + tail, ms[0]);
        crate::grammar::lemma_block(b, 0);
        let u = b + seq![10u8];
        assert(s =~= u + tail);
        assert(s[b.len() as int] == 10u8);
        lemma_shift_blocks(u, tail, 0);
        assert(tail.len() == s.len() - u.len());
        crate::grammar::lemma_blocks_error(t, 0);
        let inner = moved(e, lead(rest).len() as int);
        assert(spec_blocks(tail, 0) == Err::<Seq<MonkeyView>, ParseError>(inner));
        assert(spec_blocks(s, (u.len() + 0) as usize) == Err::<Seq<MonkeyView>, ParseError>(
            moved(inner, u.len() as int),
        ));
        assert(moved(inner, u.len() as int) == moved(e, lead(bs).len() as int));
        assert(spec_block(s, 0) == Ok::<(MonkeyView, usize), ParseError>((ms[0], b.len() as usize)));
        assert(spec_blocks(s, 0) == Err::<Seq<MonkeyView>, ParseError>(moved(inner, u.len() as int)));
    }
}

/// When the text that follows valid blocks (each followed by an empty line)
/// does not read as blocks, the whole text fails where that text alone fails,
/// the offset moved by the length of the blocks before it: at or after the
/// start of that text, never inside the valid blocks. No definitions are
/// returned.
pub proof fn lemma_failure_stays_local(bs: Seq<Seq<u8>>, ms: Seq<MonkeyView>, t: Seq<u8>)
    requires
        bs.len() == ms.len(),
        forall|i: int| 0 <= i < bs.len() ==> #[trigger] valid_block(bs[i], ms[i]),
        spec_blocks(t, 0) is Err,
        (lead(bs) + t).len() <= usize::MAX,
    ensures
        spec_parse(lead(bs) + t) == Err::<Seq<MonkeyView>, ParseError>(
            moved(spec_blocks(t, 0)->Err_0, lead(bs).len() as int),
        ),
        lead(bs).len() <= moved(spec_blocks(t, 0)->Err_0, lead(bs).len() as int).position <= (lead(bs)
            + t).len(),
{
    lemma_blocks_fail_locally(bs, ms, t);
}

} // verus!
