//! A worker block with one of its field lines removed fails to parse exactly
//! where the removed line began, so a text with such a block fails inside it.
use crate::framing::valid_block;
use crate::grammar::{
    spec_block, spec_blocks, spec_expect, spec_header, spec_items_line, spec_number_line,
    spec_operation_line, spec_parse, tag_at, Expected, MonkeyView, ParseError,
};
use crate::locality::{
    lemma_win_header, lemma_win_items_line, lemma_win_number_line, lemma_win_operation_line,
};
use crate::shifting::{lead, lemma_failure_stays_local};
use vstd::prelude::*;
use vstd::string::StringSliceAdditionalSpecFns;

verus! {

/// Where the header and each of the five field lines of a block end.
pub open spec fn line_ends(b: Seq<u8>) -> Seq<int> {
    let q1 = spec_header(b, 0)->Ok_0.1;
    let q2 = spec_items_line(b, q1)->Ok_0.1;
    let q3 = spec_operation_line(b, q2)->Ok_0.1;
    let q4 = spec_number_line(b, q3, "  Test: divisible by ", Expected::Test)->Ok_0.1;
    let q5 = spec_number_line(b, q4, "    If true: throw to monkey ", Expected::TrueTarget)->Ok_0.1;
    seq![q1 as int, q2 as int, q3 as int, q4 as int, q5 as int, b.len() as int]
}

/// The block without its `k`-th field line (1: items, 2: operation, 3: test,
/// 4: true target, 5: false target).
pub open spec fn cut(b: Seq<u8>, k: int) -> Seq<u8> {
    b.subrange(0, line_ends(b)[k - 1]) + b.subrange(line_ends(b)[k], b.len() as int)
}

/// What the parser expects where the `k`-th field line should begin.
pub open spec fn field_expected(k: int) -> Expected {
    if k == 1 {
        Expected::Items
    } else if k == 2 {
        Expected::Operation
    } else if k == 3 {
        Expected::Test
    } else if k == 4 {
        Expected::TrueTarget
    } else {
        Expected::FalseTarget
    }
}

proof fn lemma_prefixes()
    ensures
        "  Starting items: ".spec_bytes().len() >= 8,
        "  Operation: new = ".spec_bytes().len() >= 8,
        "  Test: divisible by ".spec_bytes().len() >= 8,
        "    If true: throw to monkey ".spec_bytes().len() >= 8,
        "    If false: throw to monkey ".spec_bytes().len() >= 8,
        "  Starting items: ".spec_bytes()[2] == 83u8,
        "  Operation: new = ".spec_bytes()[2] == 79u8,
        "  Test: divisible by ".spec_bytes()[2] == 84u8,
        "    If true: throw to monkey ".spec_bytes()[2] == 32u8,
        "    If true: throw to monkey ".spec_bytes()[7] == 116u8,
        "    If false: throw to monkey ".spec_bytes()[7] == 102u8,
        "    If false: throw to monkey ".spec_bytes()[0] == 32u8,
{
    reveal_strlit("  Starting items: ");
    reveal_strlit("  Operation: new = ");
    reveal_strlit("  Test: divisible by ");
    reveal_strlit("    If true: throw to monkey ");
    reveal_strlit("    If false: throw to monkey ");
    broadcast use vstd::string::is_ascii_spec_bytes;

    assert(vstd::string::is_ascii("  Starting items: "));
    assert(vstd::string::is_ascii("  Operation: new = "));
    assert(vstd::string::is_ascii("  Test: divisible by "));
    assert(vstd::string::is_ascii("    If true: throw to monkey "));
    assert(vstd::string::is_ascii("    If false: throw to monkey "));
}

proof fn lemma_cut_index(b: Seq<u8>, k: int, c: Seq<u8>, j: int)
    requires
        1 <= k <= 5,
        0 <= line_ends(b)[k - 1] <= line_ends(b)[k] <= b.len(),
        0 <= j < b.len() - line_ends(b)[k],
    ensures
        (cut(b, k) + c)[line_ends(b)[k - 1] + j] == b[line_ends(b)[k] + j],
{
    let start = line_ends(b)[k - 1];
    let end = line_ends(b)[k];
    assert(cut(b, k)[start + j] == b.subrange(end, b.len() as int)[j]);
}

proof fn lemma_mismatch(t: Seq<u8>, p: int, lit: Seq<u8>, i: int, found: u8)
    requires
        0 <= p,
        0 <= i < lit.len(),
        p + i < t.len(),
        t[p + i] == found,
        lit[i] != found,
    ensures
        !tag_at(t, p, lit),
{
    if tag_at(t, p, lit) {
        assert(t.subrange(p, p + lit.len())[i] == lit[i]);
    }
}

/// The header and the five field lines of `b` parse one after the other up to
/// its end, each field line starting with its own prefix.
pub open spec fn shaped(b: Seq<u8>) -> bool {
    let e = line_ends(b);
    &&& 0 <= e[0] <= e[1] <= e[2] <= e[3] <= e[4] <= e[5]
    &&& spec_header(b, 0) is Ok
    &&& spec_items_line(b, e[0] as usize) is Ok
    &&& spec_operation_line(b, e[1] as usize) is Ok
    &&& spec_number_line(b, e[2] as usize, "  Test: divisible by ", Expected::Test) is Ok
    &&& spec_number_line(b, e[3] as usize, "    If true: throw to monkey ", Expected::TrueTarget) is Ok
    &&& spec_number_line(b, e[4] as usize, "    If false: throw to monkey ", Expected::FalseTarget)
        == Ok::<(u64, usize), ParseError>((spec_number_line(b, e[4] as usize, "    If false: throw to monkey ", Expected::FalseTarget)->Ok_0.0, b.len() as usize))
    &&& tag_at(b, e[0], "  Starting items: ".spec_bytes())
    &&& tag_at(b, e[1], "  Operation: new = ".spec_bytes())
    &&& tag_at(b, e[2], "  Test: divisible by ".spec_bytes())
    &&& tag_at(b, e[3], "    If true: throw to monkey ".spec_bytes())
    &&& tag_at(b, e[4], "    If false: throw to monkey ".spec_bytes())
}

proof fn lemma_valid_shaped(b: Seq<u8>, m: MonkeyView)
    requires
        valid_block(b, m),
        b.len() <= usize::MAX,
    ensures
        shaped(b),
{
    reveal(spec_block);
    crate::grammar::lemma_block(b, 0);
    let q0: usize = 0;
    crate::grammar::lemma_expect(b, q0, "Monkey ", Expected::Header);
    let (_, a) = spec_expect(b, q0, "Monkey ", Expected::Header)->Ok_0;
    crate::grammar::lemma_number(b, a);
    let (_, a2) = crate::grammar::spec_number(b, a)->Ok_0;
    crate::grammar::lemma_expect(b, a2, ":\n", Expected::Header);
    let q1 = spec_header(b, 0)->Ok_0.1;
    crate::grammar::lemma_expect(b, q1, "  Starting items: ", Expected::Items);
    let (_, c1) = spec_expect(b, q1, "  Starting items: ", Expected::Items)->Ok_0;
    crate::grammar::lemma_item_list(b, c1);
    let (_, c2) = crate::grammar::spec_item_list(b, c1)->Ok_0;
    crate::grammar::lemma_expect(b, c2, "\n", Expected::Newline);
    let q2 = spec_items_line(b, q1)->Ok_0.1;
    crate::grammar::lemma_expect(b, q2, "  Operation: new = ", Expected::Operation);
    let (_, d) = spec_expect(b, q2, "  Operation: new = ", Expected::Operation)->Ok_0;
    crate::grammar::lemma_expression(b, d);
    let (_, d2) = crate::grammar::spec_expression(b, d)->Ok_0;
    crate::grammar::lemma_expect(b, d2, "\n", Expected::Newline);
    let q3 = spec_operation_line(b, q2)->Ok_0.1;
    crate::grammar::lemma_number_line(b, q3, "  Test: divisible by ", Expected::Test);
    let q4 = spec_number_line(b, q3, "  Test: divisible by ", Expected::Test)->Ok_0.1;
    crate::grammar::lemma_number_line(b, q4, "    If true: throw to monkey ", Expected::TrueTarget);
    let q5 = spec_number_line(b, q4, "    If true: throw to monkey ", Expected::TrueTarget)->Ok_0.1;
    crate::grammar::lemma_number_line(b, q5, "    If false: throw to monkey ", Expected::FalseTarget);
}

proof fn lemma_cut_1(b: Seq<u8>, m: MonkeyView, c: Seq<u8>)
    requires
        valid_block(b, m),
        shaped(b),
        c.len() == 0 || c[0] == 10u8,
        (cut(b, 1) + c).len() <= usize::MAX,
        b.len() <= usize::MAX,
    ensures
        spec_block(cut(b, 1) + c, 0) == Err::<(MonkeyView, usize), ParseError>(
            ParseError { position: line_ends(b)[0] as usize, expected: field_expected(1) },
        ),
        0 <= line_ends(b)[0] <= cut(b, 1).len(),
{
    lemma_prefixes();
    let e = line_ends(b);
    let start = e[0];
    let t = cut(b, 1) + c;
    let fe = ParseError { position: start as usize, expected: field_expected(1) };
    let p_next = "  Operation: new = ".spec_bytes();
    assert(t.subrange(0, start) =~= b.subrange(0, start));
    let z: usize = 0;
    lemma_win_header(t, z, b, start, z);
    assert(b.subrange(e[1], e[1] + p_next.len())[2] == p_next[2]);
    lemma_cut_index(b, 1, c, 2);
    lemma_mismatch(t, start, "  Starting items: ".spec_bytes(), 2, p_next[2]);
    assert(spec_items_line(t, e[0] as usize) == Err::<(Seq<u64>, usize), ParseError>(fe));
    reveal(spec_block);
}

#[verifier::rlimit(100)]
proof fn lemma_cut_2(b: Seq<u8>, m: MonkeyView, c: Seq<u8>)
    requires
        valid_block(b, m),
        shaped(b),
        c.len() == 0 || c[0] == 10u8,
        (cut(b, 2) + c).len() <= usize::MAX,
        b.len() <= usize::MAX,
    ensures
        spec_block(cut(b, 2) + c, 0) == Err::<(MonkeyView, usize), ParseError>(
            ParseError { position: line_ends(b)[1] as usize, expected: field_expected(2) },
        ),
        0 <= line_ends(b)[1] <= cut(b, 2).len(),
{
    lemma_prefixes();
    let e = line_ends(b);
    let start = e[1];
    let t = cut(b, 2) + c;
    let fe = ParseError { position: start as usize, expected: field_expected(2) };
    let p_next = "  Test: divisible by ".spec_bytes();
    assert(t.subrange(0, start) =~= b.subrange(0, start));
    let z: usize = 0;
    lemma_win_header(t, z, b, start, z);
        lemma_win_items_line(t, z, b, start, e[0] as usize);
    assert(b.subrange(e[2], e[2] + p_next.len())[2] == p_next[2]);
    lemma_cut_index(b, 2, c, 2);
    lemma_mismatch(t, start, "  Operation: new = ".spec_bytes(), 2, p_next[2]);
    assert(spec_operation_line(t, e[1] as usize) == Err::<(crate::expression::Operation, usize), ParseError>(fe));
    reveal(spec_block);
}

proof fn lemma_cut_3(b: Seq<u8>, m: MonkeyView, c: Seq<u8>)
    requires
        valid_block(b, m),
        shaped(b),
        c.len() == 0 || c[0] == 10u8,
        (cut(b, 3) + c).len() <= usize::MAX,
        b.len() <= usize::MAX,
    ensures
        spec_block(cut(b, 3) + c, 0) == Err::<(MonkeyView, usize), ParseError>(
            ParseError { position: line_ends(b)[2] as usize, expected: field_expected(3) },
        ),
        0 <= line_ends(b)[2] <= cut(b, 3).len(),
{
    lemma_prefixes();
    let e = line_ends(b);
    let start = e[2];
    let t = cut(b, 3) + c;
    let fe = ParseError { position: start as usize, expected: field_expected(3) };
    let p_next = "    If true: throw to monkey ".spec_bytes();
    assert(t.subrange(0, start) =~= b.subrange(0, start));
    let z: usize = 0;
    lemma_win_header(t, z, b, start, z);
        lemma_win_items_line(t, z, b, start, e[0] as usize);
        lemma_win_operation_line(t, z, b, start, e[1] as usize);
    assert(b.subrange(e[3], e[3] + p_next.len())[2] == p_next[2]);
    lemma_cut_index(b, 3, c, 2);
    lemma_mismatch(t, start, "  Test: divisible by ".spec_bytes(), 2, p_next[2]);
    assert(spec_number_line(t, e[2] as usize, "  Test: divisible by ", Expected::Test) == Err::<(u64, usize), ParseError>(fe));
    reveal(spec_block);
}

proof fn lemma_cut_4(b: Seq<u8>, m: MonkeyView, c: Seq<u8>)
    requires
        valid_block(b, m),
        shaped(b),
        c.len() == 0 || c[0] == 10u8,
        (cut(b, 4) + c).len() <= usize::MAX,
        b.len() <= usize::MAX,
    ensures
        spec_block(cut(b, 4) + c, 0) == Err::<(MonkeyView, usize), ParseError>(
            ParseError { position: line_ends(b)[3] as usize, expected: field_expected(4) },
        ),
        0 <= line_ends(b)[3] <= cut(b, 4).len(),
{
    lemma_prefixes();
    let e = line_ends(b);
    let start = e[3];
    let t = cut(b, 4) + c;
    let fe = ParseError { position: start as usize, expected: field_expected(4) };
    let p_next = "    If false: throw to monkey ".spec_bytes();
    assert(t.subrange(0, start) =~= b.subrange(0, start));
    let z: usize = 0;
    lemma_win_header(t, z, b, start, z);
        lemma_win_items_line(t, z, b, start, e[0] as usize);
        lemma_win_operation_line(t, z, b, start, e[1] as usize);
        lemma_win_number_line(t, z, b, start, e[2] as usize, "  Test: divisible by ", Expected::Test);
    assert(b.subrange(e[4], e[4] + p_next.len())[7] == p_next[7]);
    lemma_cut_index(b, 4, c, 7);
    lemma_mismatch(t, start, "    If true: throw to monkey ".spec_bytes(), 7, p_next[7]);
    assert(spec_number_line(t, e[3] as usize, "    If true: throw to monkey ", Expected::TrueTarget) == Err::<(u64, usize), ParseError>(fe));
    reveal(spec_block);
}

proof fn lemma_cut_5(b: Seq<u8>, m: MonkeyView, c: Seq<u8>)
    requires
        valid_block(b, m),
        shaped(b),
        c.len() == 0 || c[0] == 10u8,
        (cut(b, 5) + c).len() <= usize::MAX,
        b.len() <= usize::MAX,
    ensures
        spec_block(cut(b, 5) + c, 0) == Err::<(MonkeyView, usize), ParseError>(
            ParseError { position: line_ends(b)[4] as usize, expected: field_expected(5) },
        ),
        0 <= line_ends(b)[4] <= cut(b, 5).len(),
{
    lemma_prefixes();
    let e = line_ends(b);
    let start = e[4];
    let t = cut(b, 5) + c;
    let fe = ParseError { position: start as usize, expected: field_expected(5) };
    assert(t.subrange(0, start) =~= b.subrange(0, start));
    let z: usize = 0;
    lemma_win_header(t, z, b, start, z);
        lemma_win_items_line(t, z, b, start, e[0] as usize);
        lemma_win_operation_line(t, z, b, start, e[1] as usize);
        lemma_win_number_line(t, z, b, start, e[2] as usize, "  Test: divisible by ", Expected::Test);
        lemma_win_number_line(t, z, b, start, e[3] as usize, "    If true: throw to monkey ", Expected::TrueTarget);
    assert(t.len() == start + c.len());
    if c.len() > 0 {
        assert(t[start] == c[0]);
        lemma_mismatch(t, start, "    If false: throw to monkey ".spec_bytes(), 0, 10u8);
    }
    assert(spec_number_line(t, e[4] as usize, "    If false: throw to monkey ", Expected::FalseTarget) == Err::<(u64, usize), ParseError>(fe));
    reveal(spec_block);
}

/// Removing the `k`-th field line from a valid block, whatever follows it
/// (nothing, or an empty line), makes the block fail where that line began.
pub proof fn lemma_cut_block_fails(b: Seq<u8>, m: MonkeyView, k: int, c: Seq<u8>)
    requires
        valid_block(b, m),
        1 <= k <= 5,
        c.len() == 0 || c[0] == 10u8,
        (cut(b, k) + c).len() <= usize::MAX,
        b.len() <= usize::MAX,
    ensures
        spec_block(cut(b, k) + c, 0) == Err::<(MonkeyView, usize), ParseError>(
            ParseError { position: line_ends(b)[k - 1] as usize, expected: field_expected(k) },
        ),
        0 <= line_ends(b)[k - 1] <= cut(b, k).len(),
{
    lemma_valid_shaped(b, m);
    if k == 1 {
        lemma_cut_1(b, m, c);
    } else if k == 2 {
        lemma_cut_2(b, m, c);
    } else if k == 3 {
        lemma_cut_3(b, m, c);
    } else if k == 4 {
        lemma_cut_4(b, m, c);
    } else {
        lemma_cut_5(b, m, c);
    }
}

/// A text of valid blocks, each followed by an empty line, then a valid block
/// with one field line removed, then nothing or an empty line and anything:
/// parsing fails inside the shortened block, where the removed line began,
/// and returns no definitions.
pub proof fn lemma_truncated_field_fails_inside(
    bs: Seq<Seq<u8>>,
    ms: Seq<MonkeyView>,
    b: Seq<u8>,
    m: MonkeyView,
    k: int,
    c: Seq<u8>,
)
    requires
        bs.len() == ms.len(),
        forall|i: int| 0 <= i < bs.len() ==> #[trigger] valid_block(bs[i], ms[i]),
        valid_block(b, m),
        1 <= k <= 5,
        c.len() == 0 || c[0] == 10u8,
        (lead(bs) + (cut(b, k) + c)).len() <= usize::MAX,
        b.len() <= usize::MAX,
    ensures
        spec_parse(lead(bs) + (cut(b, k) + c)) == Err::<Seq<MonkeyView>, ParseError>(
            ParseError {
                position: (lead(bs).len() + line_ends(b)[k - 1]) as usize,
                expected: field_expected(k),
            },
        ),
        lead(bs).len() <= lead(bs).len() + line_ends(b)[k - 1] <= lead(bs).len() + cut(b, k).len(),
{
    let t = cut(b, k) + c;
    lemma_cut_block_fails(b, m, k, c);
    assert(spec_blocks(t, 0) is Err);
    lemma_failure_stays_local(bs, ms, t);
    assert(spec_blocks(t, 0)->Err_0 == ParseError {
        position: line_ends(b)[k - 1] as usize,
        expected: field_expected(k),
    });
}

} // verus!
