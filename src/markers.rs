//! Finding the first window of distinct bytes in a stream.
use vstd::prelude::*;
use vstd::string::StringSliceAdditionalSpecFns;

verus! {

/// No byte occurs twice.
pub open spec fn distinct(s: Seq<u8>) -> bool {
    forall|a: int, b: int| 0 <= a < b < s.len() ==> s[a] != s[b]
}

/// The `len` bytes from offset `i` are distinct.
pub open spec fn marker_at(s: Seq<u8>, i: int, len: int) -> bool {
    0 <= i && i + len <= s.len() && distinct(s.subrange(i, i + len))
}

/// `i` starts the first window of `len` distinct bytes.
pub open spec fn first_marker(s: Seq<u8>, i: int, len: int) -> bool {
    marker_at(s, i, len) && forall|j: int| 0 <= j < i ==> !marker_at(s, j, len)
}

fn distinct_range(s: &[u8], from: usize, to: usize) -> (r: bool)
    requires
        from <= to <= s@.len(),
    ensures
        r == distinct(s@.subrange(from as int, to as int)),
{
    let ghost w = s@.subrange(from as int, to as int);
    let mut a = from;
    while a < to
        invariant
            from <= a <= to,
            to <= s@.len(),
            w == s@.subrange(from as int, to as int),
            forall|x: int, y: int| 0 <= x < y < w.len() && x < a - from ==> w[x] != w[y],
        decreases to - a,
    {
        let mut b = a + 1;
        while b < to
            invariant
                from <= a < to,
                a + 1 <= b <= to,
                to <= s@.len(),
                w == s@.subrange(from as int, to as int),
                forall|x: int, y: int| 0 <= x < y < w.len() && x < a - from ==> w[x] != w[y],
                forall|y: int| a - from < y < b - from ==> w[a - from] != #[trigger] w[y],
            decreases to - b,
        {
            if s[a] == s[b] {
                assert(w[a - from] == w[b - from]);
                return false;
            }
            b += 1;
        }
        a += 1;
    }
    true
}

/// Tells whether all bytes of `slice` differ.
pub fn all_unique(slice: &[u8]) -> (r: bool)
    ensures
        r == distinct(slice@),
{
    assert(slice@.subrange(0, slice@.len() as int) =~= slice@);
    distinct_range(slice, 0, slice.len())
}

/// The offset just past the first window of `len` distinct bytes, if any.
fn find_marker(s: &[u8], len: usize) -> (r: Option<usize>)
    ensures
        r matches Some(e) ==> e >= len && first_marker(s@, e - len, len as int),
        r is None ==> forall|i: int| !marker_at(s@, i, len as int),
{
    let n = s.len();
    if len > n {
        return None;
    }
    let mut i: usize = 0;
    while i <= n - len
        invariant
            len <= n,
            n == s@.len(),
            i <= n - len + 1,
            forall|j: int| 0 <= j < i ==> !marker_at(s@, j, len as int),
        decreases n - i,
    {
        if distinct_range(s, i, i + len) {
            return Some(i + len);
        }
        i += 1;
    }
    None
}

/// The offset just past the first window of `len` distinct bytes.
pub fn solve_for_len(input: &str, len: usize) -> (r: usize)
    requires
        len > 0,
        exists|i: int| marker_at(input.spec_bytes(), i, len as int),
    ensures
        r >= len,
        first_marker(input.spec_bytes(), r - len, len as int),
{
    match find_marker(input.as_bytes(), len) {
        Some(e) => e,
        None => 0,
    }
}

/// The ends of the first start-of-packet (4 distinct) and start-of-message
/// (14 distinct) markers, where there are such windows.
pub fn day06(input: &str) -> (r: (Option<usize>, Option<usize>))
    ensures
        r.0 matches Some(e) ==> e >= 4 && first_marker(input.spec_bytes(), e - 4, 4),
        r.0 is None ==> forall|i: int| !marker_at(input.spec_bytes(), i, 4),
        r.1 matches Some(e) ==> e >= 14 && first_marker(input.spec_bytes(), e - 14, 14),
        r.1 is None ==> forall|i: int| !marker_at(input.spec_bytes(), i, 14),
{
    let s = input.as_bytes();
    (find_marker(s, 4), find_marker(s, 14))
}

} // verus!
