//! A block parses the same wherever it stands in a larger text, so a text
//! made of valid blocks parses to their definitions, one per block, in order.
use crate::grammar::{
    digits_end, digits_value, is_digit, lemma_digits_end, lemma_more_items, lemma_number,
    spec_block, spec_blocks, spec_expect, spec_expression, spec_header, spec_item_list,
    spec_items_line, spec_more_items, spec_number, spec_number_line, spec_operand,
    spec_operation_line, spec_parse, spec_symbol, tag_at, Expected, MonkeyView,
};
use vstd::prelude::*;
use vstd::string::StringSliceAdditionalSpecFns;

verus! {

/// `b` stands in `s` from offset `o`.
pub open spec fn embeds(s: Seq<u8>, o: int, b: Seq<u8>) -> bool {
    &&& 0 <= o
    &&& o + b.len() <= s.len()
    &&& s.subrange(o, o + b.len()) == b
}

pub proof fn lemma_literal_bytes()
    ensures
        ", ".spec_bytes() == seq![44u8, 32u8],
        "old".spec_bytes()[0] == 111u8,
        "old".spec_bytes().len() == 3,
        "\n".spec_bytes() == seq![10u8],
        ":\n".spec_bytes().len() == 2,
{
    reveal_strlit(", ");
    reveal_strlit("old");
    reveal_strlit("\n");
    reveal_strlit(":\n");
    broadcast use vstd::string::is_ascii_spec_bytes;

    assert(vstd::string::is_ascii(", "));
    assert(vstd::string::is_ascii("old"));
    assert(vstd::string::is_ascii("\n"));
    assert(vstd::string::is_ascii(":\n"));
    assert(", ".spec_bytes() =~= seq![44u8, 32u8]);
    assert("\n".spec_bytes() =~= seq![10u8]);
}

proof fn lemma_embed_at(s: Seq<u8>, o: int, b: Seq<u8>, k: int)
    requires
        embeds(s, o, b),
        0 <= k < b.len(),
    ensures
        s[o + k] == b[k],
{
    assert(s.subrange(o, o + b.len())[k] == b[k]);
}

proof fn lemma_embed_tag(s: Seq<u8>, o: int, b: Seq<u8>, q: int, lit: Seq<u8>)
    requires
        embeds(s, o, b),
        0 <= q <= b.len(),
        tag_at(b, q, lit),
    ensures
        tag_at(s, o + q, lit),
{
    let l = lit.len() as int;
    assert forall|k: int| 0 <= k < l implies s.subrange(o + q, o + q + l)[k] == lit[k] by {
        lemma_embed_at(s, o, b, q + k);
        assert(b.subrange(q, q + l)[k] == lit[k]);
    }
    assert(s.subrange(o + q, o + q + l) =~= lit);
}

proof fn lemma_embed_expect(s: Seq<u8>, o: usize, b: Seq<u8>, q: usize, lit: &str, w: Expected)
    requires
        embeds(s, o as int, b),
        s.len() <= usize::MAX,
        q <= b.len(),
    ensures
        spec_expect(b, q, lit, w) matches Ok((_, e)) ==> spec_expect(s, (o + q) as usize, lit, w)
            == Ok::<((), usize), crate::grammar::ParseError>(((), (o + e) as usize)),
{
    if tag_at(b, q as int, lit.spec_bytes()) {
        let l = lit.spec_bytes().len() as int;
        assert forall|k: int| 0 <= k < l implies s.subrange(o + q, o + q + l)[k] == lit.spec_bytes()[k] by {
            lemma_embed_at(s, o as int, b, q + k);
            assert(b.subrange(q as int, q + l)[k] == lit.spec_bytes()[k]);
        }
        assert(s.subrange(o + q, o + q + l) =~= lit.spec_bytes());
    }
}

proof fn lemma_embed_digits(s: Seq<u8>, o: int, b: Seq<u8>, q: int)
    requires
        embeds(s, o, b),
        0 <= q <= b.len(),
        digits_end(b, q) < b.len(),
    ensures
        digits_end(s, o + q) == o + digits_end(b, q),
    decreases b.len() - q,
{
    lemma_embed_at(s, o, b, q);
    if q < b.len() && is_digit(b[q]) {
        lemma_embed_digits(s, o, b, q + 1);
    }
}

proof fn lemma_embed_value(s: Seq<u8>, o: int, b: Seq<u8>, q: int, r: int)
    requires
        embeds(s, o, b),
        0 <= q <= r <= b.len(),
    ensures
        digits_value(s, o + q, o + r) == digits_value(b, q, r),
    decreases r - q,
{
    if q < r {
        lemma_embed_value(s, o, b, q, r - 1);
        lemma_embed_at(s, o, b, r - 1);
    }
}

proof fn lemma_embed_number(s: Seq<u8>, o: usize, b: Seq<u8>, q: usize)
    requires
        embeds(s, o as int, b),
        s.len() <= usize::MAX,
        q <= b.len(),
    ensures
        spec_number(b, q) matches Ok((v, e)) ==> (e < b.len() ==> spec_number(s, (o + q) as usize)
            == Ok::<(u64, usize), crate::grammar::ParseError>((v, (o + e) as usize))),
{
    if let Ok((v, e)) = spec_number(b, q) {
        lemma_digits_end(b, q as int);
        if e < b.len() {
            lemma_embed_digits(s, o as int, b, q as int);
            lemma_embed_value(s, o as int, b, q as int, e as int);
        }
    }
}

proof fn lemma_embed_more_items(s: Seq<u8>, o: usize, b: Seq<u8>, q: usize)
    requires
        embeds(s, o as int, b),
        s.len() <= usize::MAX,
        q <= b.len(),
    ensures
        spec_more_items(b, q) matches Ok((vs, e)) ==> (e < b.len() && b[e as int] == 10
            ==> spec_more_items(s, (o + q) as usize) == Ok::<(Seq<u64>, usize), crate::grammar::ParseError>(
            (vs, (o + e) as usize),
        )),
    decreases b.len() - q,
{
    lemma_literal_bytes();
    let sep = ", ".spec_bytes();
    if tag_at(b, q as int, sep) {
        lemma_embed_tag(s, o as int, b, q as int, sep);
        let q2 = (q + 2) as usize;
        lemma_number(b, q2);
        if let Ok((v, r)) = spec_number(b, q2) {
            lemma_more_items(b, r);
            lemma_embed_more_items(s, o, b, r);
            lemma_embed_number(s, o, b, q2);
        }
    } else if q < b.len() && b[q as int] == 10 {
        lemma_embed_at(s, o as int, b, q as int);
        if tag_at(s, o + q, sep) {
            assert(s.subrange(o + q, o + q + 2)[0] == sep[0]);
        }
    }
}

proof fn lemma_embed_item_list(s: Seq<u8>, o: usize, b: Seq<u8>, q: usize)
    requires
        embeds(s, o as int, b),
        s.len() <= usize::MAX,
        q <= b.len(),
    ensures
        spec_item_list(b, q) matches Ok((vs, e)) ==> (e < b.len() && b[e as int] == 10
            ==> spec_item_list(s, (o + q) as usize) == Ok::<(Seq<u64>, usize), crate::grammar::ParseError>(
            (vs, (o + e) as usize),
        )),
{
    if q < b.len() {
        lemma_embed_at(s, o as int, b, q as int);
    }
    if q < b.len() && is_digit(b[q as int]) {
        lemma_number(b, q);
        if let Ok((v, r)) = spec_number(b, q) {
            lemma_more_items(b, r);
            lemma_embed_number(s, o, b, q);
            lemma_embed_more_items(s, o, b, r);
        }
    }
}

proof fn lemma_embed_operand(s: Seq<u8>, o: usize, b: Seq<u8>, q: usize)
    requires
        embeds(s, o as int, b),
        s.len() <= usize::MAX,
        q <= b.len(),
    ensures
        spec_operand(b, q) matches Ok((v, e)) ==> (e < b.len() ==> spec_operand(s, (o + q) as usize)
            == Ok::<(crate::expression::Operand, usize), crate::grammar::ParseError>((v, (o + e) as usize))),
{
    lemma_literal_bytes();
    let old = "old".spec_bytes();
    if tag_at(b, q as int, old) {
        lemma_embed_tag(s, o as int, b, q as int, old);
    } else {
        lemma_embed_number(s, o, b, q);
        if let Ok((v, e)) = spec_number(b, q) {
            lemma_digits_end(b, q as int);
            lemma_embed_at(s, o as int, b, q as int);
            if tag_at(s, o + q, old) {
                assert(s.subrange(o + q, o + q + 3)[0] == old[0]);
            }
        }
    }
}

proof fn lemma_embed_expression(s: Seq<u8>, o: usize, b: Seq<u8>, q: usize)
    requires
        embeds(s, o as int, b),
        s.len() <= usize::MAX,
        q <= b.len(),
    ensures
        spec_expression(b, q) matches Ok((v, e)) ==> (e < b.len() ==> spec_expression(
            s,
            (o + q) as usize,
        ) == Ok::<(crate::expression::Operation, usize), crate::grammar::ParseError>(
            (v, (o + e) as usize),
        )),
{
    if let Ok((_, e)) = spec_expression(b, q) {
        if e < b.len() {
            crate::grammar::lemma_operand(b, q);
            let (_, q1) = spec_operand(b, q)->Ok_0;
            lemma_embed_operand(s, o, b, q);
            lemma_embed_expect(s, o, b, q1, " ", Expected::Space);
            crate::grammar::lemma_expect(b, q1, " ", Expected::Space);
            let (_, q2) = spec_expect(b, q1, " ", Expected::Space)->Ok_0;
            let (_, q3) = spec_symbol(b, q2)->Ok_0;
            lemma_embed_at(s, o as int, b, q2 as int);
            lemma_embed_expect(s, o, b, q3, " ", Expected::Space);
            crate::grammar::lemma_expect(b, q3, " ", Expected::Space);
            let (_, q4) = spec_expect(b, q3, " ", Expected::Space)->Ok_0;
            lemma_embed_operand(s, o, b, q4);
            crate::grammar::lemma_operand(b, q4);
        }
    }
}

proof fn lemma_embed_number_line(
    s: Seq<u8>,
    o: usize,
    b: Seq<u8>,
    q: usize,
    prefix: &str,
    what: Expected,
)
    requires
        embeds(s, o as int, b),
        s.len() <= usize::MAX,
        q <= b.len(),
    ensures
        spec_number_line(b, q, prefix, what) matches Ok((v, e)) ==> spec_number_line(
            s,
            (o + q) as usize,
            prefix,
            what,
        ) == Ok::<(u64, usize), crate::grammar::ParseError>((v, (o + e) as usize)),
{
    lemma_literal_bytes();
    if let Ok((_, e)) = spec_number_line(b, q, prefix, what) {
        crate::grammar::lemma_expect(b, q, prefix, what);
        lemma_embed_expect(s, o, b, q, prefix, what);
        let (_, q1) = spec_expect(b, q, prefix, what)->Ok_0;
        lemma_number(b, q1);
        let (_, q2) = spec_number(b, q1)->Ok_0;
        lemma_embed_number(s, o, b, q1);
        lemma_embed_expect(s, o, b, q2, "\n", Expected::Newline);
    }
}

proof fn lemma_embed_header(s: Seq<u8>, o: usize, b: Seq<u8>, q: usize)
    requires
        embeds(s, o as int, b),
        s.len() <= usize::MAX,
        q <= b.len(),
    ensures
        spec_header(b, q) matches Ok((_, e)) ==> spec_header(s, (o + q) as usize) == Ok::<
            ((), usize),
            crate::grammar::ParseError,
        >(((), (o + e) as usize)),
{
    lemma_literal_bytes();
    if let Ok((_, e)) = spec_header(b, q) {
        crate::grammar::lemma_expect(b, q, "Monkey ", Expected::Header);
        lemma_embed_expect(s, o, b, q, "Monkey ", Expected::Header);
        let (_, q1) = spec_expect(b, q, "Monkey ", Expected::Header)->Ok_0;
        lemma_number(b, q1);
        let (_, q2) = spec_number(b, q1)->Ok_0;
        lemma_embed_number(s, o, b, q1);
        lemma_embed_expect(s, o, b, q2, ":\n", Expected::Header);
    }
}

proof fn lemma_embed_items_line(s: Seq<u8>, o: usize, b: Seq<u8>, q: usize)
    requires
        embeds(s, o as int, b),
        s.len() <= usize::MAX,
        q <= b.len(),
    ensures
        spec_items_line(b, q) matches Ok((v, e)) ==> spec_items_line(s, (o + q) as usize) == Ok::<
            (Seq<u64>, usize),
            crate::grammar::ParseError,
        >((v, (o + e) as usize)),
{
    lemma_literal_bytes();
    if let Ok((_, e)) = spec_items_line(b, q) {
        crate::grammar::lemma_expect(b, q, "  Starting items: ", Expected::Items);
        lemma_embed_expect(s, o, b, q, "  Starting items: ", Expected::Items);
        let (_, q1) = spec_expect(b, q, "  Starting items: ", Expected::Items)->Ok_0;
        crate::grammar::lemma_item_list(b, q1);
        let (_, q2) = spec_item_list(b, q1)->Ok_0;
        assert(b.subrange(q2 as int, q2 + 1)[0] == 10u8);
        lemma_embed_item_list(s, o, b, q1);
        lemma_embed_expect(s, o, b, q2, "\n", Expected::Newline);
    }
}

proof fn lemma_embed_operation_line(s: Seq<u8>, o: usize, b: Seq<u8>, q: usize)
    requires
        embeds(s, o as int, b),
        s.len() <= usize::MAX,
        q <= b.len(),
    ensures
        spec_operation_line(b, q) matches Ok((v, e)) ==> spec_operation_line(s, (o + q) as usize)
            == Ok::<(crate::expression::Operation, usize), crate::grammar::ParseError>(
            (v, (o + e) as usize),
        ),
{
    lemma_literal_bytes();
    if let Ok((_, e)) = spec_operation_line(b, q) {
        crate::grammar::lemma_expect(b, q, "  Operation: new = ", Expected::Operation);
        lemma_embed_expect(s, o, b, q, "  Operation: new = ", Expected::Operation);
        let (_, q1) = spec_expect(b, q, "  Operation: new = ", Expected::Operation)->Ok_0;
        crate::grammar::lemma_expression(b, q1);
        let (_, q2) = spec_expression(b, q1)->Ok_0;
        lemma_embed_expression(s, o, b, q1);
        lemma_embed_expect(s, o, b, q2, "\n", Expected::Newline);
    }
}

proof fn lemma_embed_block(s: Seq<u8>, o: usize, b: Seq<u8>, q: usize)
    requires
        embeds(s, o as int, b),
        s.len() <= usize::MAX,
        q <= b.len(),
    ensures
        spec_block(b, q) matches Ok((m, e)) ==> spec_block(s, (o + q) as usize) == Ok::<
            (MonkeyView, usize),
            crate::grammar::ParseError,
        >((m, (o + e) as usize)),
{
    reveal(spec_block);
    if let Ok((_, e)) = spec_block(b, q) {
        crate::grammar::lemma_block(b, q);
        lemma_embed_header(s, o, b, q);
        let (_, q1) = spec_header(b, q)->Ok_0;
        crate::grammar::lemma_expect(b, q, "Monkey ", Expected::Header);
        let (_, a) = spec_expect(b, q, "Monkey ", Expected::Header)->Ok_0;
        lemma_number(b, a);
        let (_, a2) = spec_number(b, a)->Ok_0;
        crate::grammar::lemma_expect(b, a2, ":\n", Expected::Header);
        lemma_embed_items_line(s, o, b, q1);
        crate::grammar::lemma_expect(b, q1, "  Starting items: ", Expected::Items);
        let (_, c) = spec_expect(b, q1, "  Starting items: ", Expected::Items)->Ok_0;
        crate::grammar::lemma_item_list(b, c);
        let (_, c2) = spec_item_list(b, c)->Ok_0;
        crate::grammar::lemma_expect(b, c2, "\n", Expected::Newline);
        let (_, q2) = spec_items_line(b, q1)->Ok_0;
        lemma_embed_operation_line(s, o, b, q2);
        crate::grammar::lemma_expect(b, q2, "  Operation: new = ", Expected::Operation);
        let (_, d) = spec_expect(b, q2, "  Operation: new = ", Expected::Operation)->Ok_0;
        crate::grammar::lemma_expression(b, d);
        let (_, d2) = spec_expression(b, d)->Ok_0;
        crate::grammar::lemma_expect(b, d2, "\n", Expected::Newline);
        let (_, q3) = spec_operation_line(b, q2)->Ok_0;
        lemma_embed_number_line(s, o, b, q3, "  Test: divisible by ", Expected::Test);
        crate::grammar::lemma_number_line(b, q3, "  Test: divisible by ", Expected::Test);
        let (_, q4) = spec_number_line(b, q3, "  Test: divisible by ", Expected::Test)->Ok_0;
        lemma_embed_number_line(s, o, b, q4, "    If true: throw to monkey ", Expected::TrueTarget);
        crate::grammar::lemma_number_line(b, q4, "    If true: throw to monkey ", Expected::TrueTarget);
        let (_, q5) = spec_number_line(b, q4, "    If true: throw to monkey ", Expected::TrueTarget)->Ok_0;
        lemma_embed_number_line(s, o, b, q5, "    If false: throw to monkey ", Expected::FalseTarget);
    }
}

/// Blocks joined into one text, an empty line between each two.
pub open spec fn join_blocks(bs: Seq<Seq<u8>>) -> Seq<u8>
    decreases bs.len(),
{
    if bs.len() <= 1 {
        if bs.len() == 0 {
            seq![]
        } else {
            bs[0]
        }
    } else {
        bs[0] + seq![10u8] + join_blocks(bs.drop_first())
    }
}

/// `b` is the whole text of one worker, which defines `m`.
pub open spec fn valid_block(b: Seq<u8>, m: MonkeyView) -> bool {
    spec_block(b, 0) == Ok::<(MonkeyView, usize), crate::grammar::ParseError>((m, b.len() as usize))
}

proof fn lemma_blocks_at(s: Seq<u8>, o: usize, bs: Seq<Seq<u8>>, ms: Seq<MonkeyView>)
    requires
        bs.len() > 0,
        bs.len() == ms.len(),
        forall|i: int| 0 <= i < bs.len() ==> #[trigger] valid_block(bs[i], ms[i]),
        s.len() <= usize::MAX,
        o <= s.len(),
        s.subrange(o as int, s.len() as int) == join_blocks(bs),
    ensures
        spec_blocks(s, o) == Ok::<Seq<MonkeyView>, crate::grammar::ParseError>(ms),
    decreases bs.len(),
{
    let b = bs[0];
    assert(valid_block(bs[0], ms[0]));
    let rest = s.subrange(o as int, s.len() as int);
    if bs.len() == 1 {
        assert(rest == b);
    } else {
        assert(rest == b + seq![10u8] + join_blocks(bs.drop_first()));
        assert(rest.subrange(0, b.len() as int) =~= b);
    }
    assert(s.subrange(o as int, o + b.len()) =~= rest.subrange(0, b.len() as int));
    assert(embeds(s, o as int, b));
    lemma_embed_block(s, o, b, 0);
    crate::grammar::lemma_block(b, 0);
    let q = (o + b.len()) as usize;
    assert(spec_block(s, o) == Ok::<(MonkeyView, usize), crate::grammar::ParseError>((ms[0], q)));
    if bs.len() == 1 {
        assert(seq![ms[0]] =~= ms);
    } else {
        let tail = join_blocks(bs.drop_first());
        assert(rest[b.len() as int] == 10u8);
        assert(s[q as int] == rest[b.len() as int]);
        assert(s.subrange(q + 1, s.len() as int) =~= rest.subrange(b.len() as int + 1, rest.len() as int));
        assert(rest.subrange(b.len() as int + 1, rest.len() as int) =~= tail);
        assert forall|i: int| 0 <= i < bs.drop_first().len() implies #[trigger] valid_block(
            bs.drop_first()[i],
            ms.drop_first()[i],
        ) by {
            assert(valid_block(bs[i + 1], ms[i + 1]));
        }
        lemma_blocks_at(s, (q + 1) as usize, bs.drop_first(), ms.drop_first());
        assert(seq![ms[0]] + ms.drop_first() =~= ms);
    }
}

/// A text made of `k` valid worker blocks, an empty line between each two,
/// whose divisors are positive and whose targets are among the `k` workers,
/// parses to exactly the `k` definitions of those blocks, in their order.
pub proof fn lemma_parse_joined_blocks(bs: Seq<Seq<u8>>, ms: Seq<MonkeyView>)
    requires
        bs.len() > 0,
        bs.len() == ms.len(),
        forall|i: int| 0 <= i < bs.len() ==> #[trigger] valid_block(bs[i], ms[i]),
        crate::engine::well_formed(ms),
        join_blocks(bs).len() <= usize::MAX,
    ensures
        spec_parse(join_blocks(bs)) == Ok::<Seq<MonkeyView>, crate::grammar::ParseError>(ms),
{
    let s = join_blocks(bs);
    assert(s.subrange(0, s.len() as int) =~= s);
    lemma_blocks_at(s, 0, bs, ms);
    crate::grammar::lemma_first_bad(ms, crate::grammar::spec_marks(s, 0), ms.len() as int, 0);
}

/// A valid block parses the same at the start of a longer text.
pub proof fn lemma_embed_block_at_start(b: Seq<u8>, rest: Seq<u8>, m: MonkeyView)
    requires
        valid_block(b, m),
        (b + rest).len() <= usize::MAX,
    ensures
        spec_block(b + rest, 0) == Ok::<(MonkeyView, usize), crate::grammar::ParseError>(
            (m, b.len() as usize),
        ),
{
    let s = b + rest;
    assert(s.subrange(0, b.len() as int) =~= b);
    lemma_embed_block(s, 0, b, 0);
}

} // verus!
