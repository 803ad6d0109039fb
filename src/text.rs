//! Splitting text into lines, as `str::lines` does: at `\n`, with a `\r`
//! just before it dropped, and no empty line after a final `\n`.
use vstd::prelude::*;

verus! {

/// Offset of the first `nl` at or after `p`, or the length of `s`.
pub open spec fn line_end<T>(s: Seq<T>, p: int, nl: T) -> int
    decreases s.len() - p,
{
    if p < 0 || p >= s.len() || s[p] == nl {
        p
    } else {
        line_end(s, p + 1, nl)
    }
}

pub proof fn lemma_line_end<T>(s: Seq<T>, p: int, nl: T)
    requires
        0 <= p <= s.len(),
    ensures
        p <= line_end(s, p, nl) <= s.len(),
        line_end(s, p, nl) < s.len() ==> s[line_end(s, p, nl)] == nl,
        forall|k: int| p <= k < line_end(s, p, nl) ==> #[trigger] s[k] != nl,
    decreases s.len() - p,
{
    if p < s.len() && s[p] != nl {
        lemma_line_end(s, p + 1, nl);
    }
}

/// The line `s[p..e]`, without the `cr` of a `cr nl` ending.
pub open spec fn line_text<T>(s: Seq<T>, p: int, e: int, cr: T) -> Seq<T> {
    if e < s.len() && p < e && s[e - 1] == cr {
        s.subrange(p, e - 1)
    } else {
        s.subrange(p, e)
    }
}

/// The lines of `s` from offset `p` on.
pub open spec fn lines_from<T>(s: Seq<T>, p: int, nl: T, cr: T) -> Seq<Seq<T>>
    decreases s.len() - p,
{
    if p < 0 || p >= s.len() {
        seq![]
    } else {
        let e = line_end(s, p, nl);
        proof {
            lemma_line_end(s, p, nl);
        }
        if e < s.len() {
            seq![line_text(s, p, e, cr)] + lines_from(s, e + 1, nl, cr)
        } else {
            seq![line_text(s, p, e, cr)]
        }
    }
}

/// The lines of a text given as bytes.
pub open spec fn spec_lines(s: Seq<u8>) -> Seq<Seq<u8>> {
    lines_from(s, 0, 10u8, 13u8)
}

/// The lines of a text given as characters.
pub open spec fn spec_char_lines(s: Seq<char>) -> Seq<Seq<char>> {
    lines_from(s, 0, '\n', '\r')
}

/// The lines of `s`, each without its line ending.
pub fn lines(s: &[u8]) -> (r: Vec<Vec<u8>>)
    ensures
        r@.map_values(|l: Vec<u8>| l@) == spec_lines(s@),
{
    let n = s.len();
    let mut r: Vec<Vec<u8>> = Vec::new();
    let mut p: usize = 0;
    while p < n
        invariant
            p <= n,
            n == s@.len(),
            spec_lines(s@) == r@.map_values(|l: Vec<u8>| l@) + lines_from(s@, p as int, 10u8, 13u8),
        decreases n - p,
    {
        let mut e = p;
        while e < n && s[e] != 10
            invariant
                p <= e <= n,
                n == s@.len(),
                line_end(s@, p as int, 10u8) == line_end(s@, e as int, 10u8),
            decreases n - e,
        {
            e += 1;
        }
        let stop = if e < n && p < e && s[e - 1] == 13 {
            e - 1
        } else {
            e
        };
        let mut line: Vec<u8> = Vec::new();
        let mut k = p;
        while k < stop
            invariant
                p <= k <= stop,
                stop <= n,
                n == s@.len(),
                line@ == s@.subrange(p as int, k as int),
            decreases stop - k,
        {
            line.push(s[k]);
            k += 1;
            assert(line@ =~= s@.subrange(p as int, k as int));
        }
        let ghost before = r@.map_values(|l: Vec<u8>| l@);
        let ghost text = line@;
        r.push(line);
        assert(r@.map_values(|l: Vec<u8>| l@) =~= before.push(text));
        if e < n {
            assert(before + lines_from(s@, p as int, 10u8, 13u8) =~= r@.map_values(
                |l: Vec<u8>| l@,
            ) + lines_from(s@, e + 1, 10u8, 13u8));
            p = e + 1;
        } else {
            assert(before + lines_from(s@, p as int, 10u8, 13u8) =~= r@.map_values(
                |l: Vec<u8>| l@,
            ) + lines_from(s@, n as int, 10u8, 13u8));
            p = n;
        }
    }
    assert(r@.map_values(|l: Vec<u8>| l@) + seq![] =~= r@.map_values(|l: Vec<u8>| l@));
    r
}

/// The lines of the characters `s`, each without its line ending.
pub fn char_lines(s: &Vec<char>) -> (r: Vec<Vec<char>>)
    ensures
        r@.map_values(|l: Vec<char>| l@) == spec_char_lines(s@),
{
    let n = s.len();
    let mut r: Vec<Vec<char>> = Vec::new();
    let mut p: usize = 0;
    while p < n
        invariant
            p <= n,
            n == s@.len(),
            spec_char_lines(s@) == r@.map_values(|l: Vec<char>| l@) + lines_from(s@, p as int, '\n', '\r'),
        decreases n - p,
    {
        let mut e = p;
        while e < n && s[e] != '\n'
            invariant
                p <= e <= n,
                n == s@.len(),
                line_end(s@, p as int, '\n') == line_end(s@, e as int, '\n'),
            decreases n - e,
        {
            e += 1;
        }
        let stop = if e < n && p < e && s[e - 1] == '\r' {
            e - 1
        } else {
            e
        };
        let mut line: Vec<char> = Vec::new();
        let mut k = p;
        while k < stop
            invariant
                p <= k <= stop,
                stop <= n,
                n == s@.len(),
                line@ == s@.subrange(p as int, k as int),
            decreases stop - k,
        {
            line.push(s[k]);
            k += 1;
            assert(line@ =~= s@.subrange(p as int, k as int));
        }
        let ghost before = r@.map_values(|l: Vec<char>| l@);
        let ghost text = line@;
        r.push(line);
        assert(r@.map_values(|l: Vec<char>| l@) =~= before.push(text));
        if e < n {
            assert(before + lines_from(s@, p as int, '\n', '\r') =~= r@.map_values(
                |l: Vec<char>| l@,
            ) + lines_from(s@, e + 1, '\n', '\r'));
            p = e + 1;
        } else {
            assert(before + lines_from(s@, p as int, '\n', '\r') =~= r@.map_values(
                |l: Vec<char>| l@,
            ) + lines_from(s@, n as int, '\n', '\r'));
            p = n;
        }
    }
    assert(r@.map_values(|l: Vec<char>| l@) + seq![] =~= r@.map_values(|l: Vec<char>| l@));
    r
}

/// The characters of `s`.
pub fn chars_of(s: &str) -> (r: Vec<char>)
    ensures
        r@ == s@,
{
    let mut r: Vec<char> = Vec::new();
    for c in it: s.chars()
        invariant
            r@ == it.seq().subrange(0, it.index() as int),
            it.seq() == s@,
    {
        r.push(c);
    }
    r
}

} // verus!
