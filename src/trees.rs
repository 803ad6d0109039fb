//! A grid of tree heights: which trees are visible from outside the grid,
//! and how far each tree can see.
use crate::text::{lines, spec_lines};
use vstd::string::StringSliceAdditionalSpecFns;
use vstd::prelude::*;

verus! {

/// The heights of a grid given as rows of vectors.
pub open spec fn cells(grid: Seq<Vec<u32>>) -> Seq<Seq<u32>> {
    grid.map_values(|row: Vec<u32>| row@)
}

/// The flags of a grid given as rows of vectors.
pub open spec fn flag_cells(grid: Seq<Vec<bool>>) -> Seq<Seq<bool>> {
    grid.map_values(|row: Vec<bool>| row@)
}

/// At least one row, and every row as wide as the first.
pub open spec fn rectangular<T>(g: Seq<Seq<T>>) -> bool {
    &&& g.len() > 0
    &&& forall|i: int| 0 <= i < g.len() ==> #[trigger] g[i].len() == g[0].len()
}

/// `f` has the shape of `g`.
pub open spec fn same_shape<T, U>(f: Seq<Seq<T>>, g: Seq<Seq<U>>) -> bool {
    &&& f.len() == g.len()
    &&& forall|i: int| 0 <= i < g.len() ==> #[trigger] f[i].len() == g[i].len()
}

/// Position `k` of `line` is higher than everything before it, or first.
pub open spec fn taller_than_before(line: Seq<u32>, k: int) -> bool {
    k == 0 || forall|m: int| 0 <= m < k ==> line[m] < line[k]
}

pub open spec fn visible_from_left(g: Seq<Seq<u32>>, i: int, j: int) -> bool {
    j == 0 || forall|k: int| 0 <= k < j ==> g[i][k] < g[i][j]
}

pub open spec fn visible_from_right(g: Seq<Seq<u32>>, i: int, j: int) -> bool {
    j == g[i].len() - 1 || forall|k: int| j < k < g[i].len() ==> g[i][k] < g[i][j]
}

pub open spec fn visible_from_top(g: Seq<Seq<u32>>, i: int, j: int) -> bool {
    i == 0 || forall|k: int| 0 <= k < i ==> g[k][j] < g[i][j]
}

pub open spec fn visible_from_bottom(g: Seq<Seq<u32>>, i: int, j: int) -> bool {
    i == g.len() - 1 || forall|k: int| i < k < g.len() ==> g[k][j] < g[i][j]
}

/// For each position of `line`: is it higher than all before it?
fn running_flags(line: &Vec<u32>) -> (r: Vec<bool>)
    ensures
        r@.len() == line@.len(),
        forall|k: int| 0 <= k < line@.len() ==> #[trigger] r@[k] == taller_than_before(line@, k),
{
    let mut r: Vec<bool> = Vec::new();
    let mut max: u32 = 0;
    let ghost mut arg: int = 0;
    let mut j: usize = 0;
    while j < line.len()
        invariant
            j <= line@.len(),
            r@.len() == j,
            forall|k: int| 0 <= k < j ==> #[trigger] r@[k] == taller_than_before(line@, k),
            j > 0 ==> 0 <= arg < j && line@[arg] == max,
            forall|k: int| 0 <= k < j ==> line@[k] <= max,
        decreases line@.len() - j,
    {
        let h = line[j];
        if h > max || j == 0 {
            max = h;
            proof {
                arg = j as int;
            }
            r.push(true);
        } else {
            assert(!taller_than_before(line@, j as int)) by {
                assert(!(line@[arg] < line@[j as int]));
            }
            r.push(false);
        }
        j += 1;
    }
    r
}

/// `line` back to front.
fn reversed<T: Copy>(line: &Vec<T>) -> (r: Vec<T>)
    ensures
        r@.len() == line@.len(),
        forall|k: int| 0 <= k < line@.len() ==> #[trigger] r@[k] == line@[line@.len() - 1 - k],
{
    let n = line.len();
    let mut r: Vec<T> = Vec::new();
    let mut k: usize = 0;
    while k < n
        invariant
            n == line@.len(),
            k <= n,
            r@.len() == k,
            forall|m: int| 0 <= m < k ==> #[trigger] r@[m] == line@[n - 1 - m],
        decreases n - k,
    {
        r.push(line[n - 1 - k]);
        k += 1;
    }
    r
}

/// Rows become columns.
fn transpose<T: Copy>(grid: &Vec<Vec<T>>) -> (r: Vec<Vec<T>>)
    requires
        rectangular(grid@.map_values(|row: Vec<T>| row@)),
    ensures
        r@.len() == grid@[0]@.len(),
        forall|j: int| 0 <= j < r@.len() ==> #[trigger] r@[j]@.len() == grid@.len(),
        forall|i: int, j: int|
            0 <= i < grid@.len() && 0 <= j < grid@[0]@.len() ==> #[trigger] r@[j]@[i]
                == grid@[i]@[j],
{
    let h = grid.len();
    let w = grid[0].len();
    let mut r: Vec<Vec<T>> = Vec::new();
    let mut j: usize = 0;
    while j < w
        invariant
            h == grid@.len(),
            w == grid@[0]@.len(),
            rectangular(grid@.map_values(|row: Vec<T>| row@)),
            j <= w,
            r@.len() == j,
            forall|c: int| 0 <= c < j ==> #[trigger] r@[c]@.len() == h,
            forall|i: int, c: int| 0 <= i < h && 0 <= c < j ==> #[trigger] r@[c]@[i] == grid@[i]@[c],
        decreases w - j,
    {
        let mut col: Vec<T> = Vec::new();
        let mut i: usize = 0;
        while i < h
            invariant
                h == grid@.len(),
                w == grid@[0]@.len(),
                rectangular(grid@.map_values(|row: Vec<T>| row@)),
                j < w,
                i <= h,
                col@.len() == i,
                forall|m: int| 0 <= m < i ==> #[trigger] col@[m] == grid@[m]@[j as int],
            decreases h - i,
        {
            assert(grid@.map_values(|row: Vec<T>| row@)[i as int].len() == w);
            col.push(grid[i][j]);
            i += 1;
        }
        r.push(col);
        j += 1;
    }
    r
}

/// A grid of `h` empty rows.
fn empty_rows(h: usize) -> (r: Vec<Vec<bool>>)
    ensures
        r@.len() == h,
        forall|i: int| 0 <= i < h ==> (#[trigger] r@[i])@.len() == 0,
{
    let mut r: Vec<Vec<bool>> = Vec::new();
    let mut i: usize = 0;
    while i < h
        invariant
            i <= h,
            r@.len() == i,
            forall|k: int| 0 <= k < i ==> (#[trigger] r@[k])@.len() == 0,
        decreases h - i,
    {
        r.push(Vec::new());
        i += 1;
    }
    r
}

/// Flags the trees that are visible from the left edge of their row.
pub fn left_right(grid: &Vec<Vec<u32>>) -> (r: Vec<Vec<bool>>)
    requires
        rectangular(cells(grid@)),
    ensures
        same_shape(flag_cells(r@), cells(grid@)),
        forall|i: int, j: int|
            0 <= i < grid@.len() && 0 <= j < grid@[i]@.len() ==> #[trigger] r@[i]@[j]
                == visible_from_left(cells(grid@), i, j),
{
    let mut r: Vec<Vec<bool>> = Vec::new();
    let mut i: usize = 0;
    while i < grid.len()
        invariant
            i <= grid@.len(),
            r@.len() == i,
            forall|k: int| 0 <= k < i ==> (#[trigger] r@[k])@.len() == grid@[k]@.len(),
            forall|k: int, j: int|
                0 <= k < i && 0 <= j < grid@[k]@.len() ==> #[trigger] r@[k]@[j]
                    == visible_from_left(cells(grid@), k, j),
        decreases grid@.len() - i,
    {
        let flags = running_flags(&grid[i]);
        assert(cells(grid@)[i as int] == grid@[i as int]@);
        r.push(flags);
        i += 1;
    }
    r
}

/// Flags the trees that are visible from the right edge of their row.
pub fn right_left(grid: &Vec<Vec<u32>>) -> (r: Vec<Vec<bool>>)
    requires
        rectangular(cells(grid@)),
    ensures
        same_shape(flag_cells(r@), cells(grid@)),
        forall|i: int, j: int|
            0 <= i < grid@.len() && 0 <= j < grid@[i]@.len() ==> #[trigger] r@[i]@[j]
                == visible_from_right(cells(grid@), i, j),
{
    let mut r: Vec<Vec<bool>> = Vec::new();
    let mut i: usize = 0;
    while i < grid.len()
        invariant
            i <= grid@.len(),
            r@.len() == i,
            forall|k: int| 0 <= k < i ==> (#[trigger] r@[k])@.len() == grid@[k]@.len(),
            forall|k: int, j: int|
                0 <= k < i && 0 <= j < grid@[k]@.len() ==> #[trigger] r@[k]@[j]
                    == visible_from_right(cells(grid@), k, j),
        decreases grid@.len() - i,
    {
        let row = &grid[i];
        let back = reversed(row);
        let flags = reversed(&running_flags(&back));
        let ghost w = row@.len() as int;
        assert(cells(grid@)[i as int] == row@);
        assert forall|j: int| 0 <= j < w implies #[trigger] flags@[j] == visible_from_right(
            cells(grid@),
            i as int,
            j,
        ) by {
            let p = w - 1 - j;
            assert(flags@[j] == taller_than_before(back@, p));
            if taller_than_before(back@, p) && j != w - 1 {
                assert forall|k: int| j < k < w implies row@[k] < row@[j] by {
                    assert(back@[w - 1 - k] == row@[k]);
                }
            }
            if visible_from_right(cells(grid@), i as int, j) && p != 0 {
                assert forall|m: int| 0 <= m < p implies back@[m] < back@[p] by {
                    assert(back@[m] == row@[w - 1 - m]);
                }
            }
        }
        r.push(flags);
        i += 1;
    }
    r
}

/// Flags the trees that are visible from the top edge of their column.
pub fn top_down(grid: &Vec<Vec<u32>>) -> (r: Vec<Vec<bool>>)
    requires
        rectangular(cells(grid@)),
    ensures
        same_shape(flag_cells(r@), cells(grid@)),
        forall|i: int, j: int|
            0 <= i < grid@.len() && 0 <= j < grid@[i]@.len() ==> #[trigger] r@[i]@[j]
                == visible_from_top(cells(grid@), i, j),
{
    let ghost g = cells(grid@);
    assert(g[0] == grid@[0]@);
    assert forall|i: int| 0 <= i < grid@.len() implies #[trigger] grid@[i]@.len() == grid@[0]@.len() by {
        assert(g[i] == grid@[i]@);
    }
    if grid[0].len() == 0 {
        return empty_rows(grid.len());
    }
    let columns = transpose(grid);
    assert(rectangular(cells(columns@))) by {
        assert(cells(columns@)[0] == columns@[0]@);
        assert forall|j: int| 0 <= j < columns@.len() implies #[trigger] cells(columns@)[j].len()
            == cells(columns@)[0].len() by {
            assert(cells(columns@)[j] == columns@[j]@);
        }
    }
    let down = left_right(&columns);
    assert(rectangular(flag_cells(down@))) by {
        assert(flag_cells(down@)[0] == down@[0]@);
        assert(cells(columns@)[0] == columns@[0]@);
        assert forall|j: int| 0 <= j < down@.len() implies #[trigger] flag_cells(down@)[j].len()
            == flag_cells(down@)[0].len() by {
            assert(flag_cells(down@)[j] == down@[j]@);
            assert(cells(columns@)[j] == columns@[j]@);
        }
    }
    let r = transpose(&down);
    assert forall|i: int, j: int|
        0 <= i < grid@.len() && 0 <= j < grid@[i]@.len() implies #[trigger] r@[i]@[j]
            == visible_from_top(g, i, j) by {
        assert(cells(columns@)[j] == columns@[j]@);
        assert(flag_cells(down@)[j] == down@[j]@);
        assert(down@[j]@[i] == visible_from_left(cells(columns@), j, i));
        assert(g[i] == grid@[i]@);
        if visible_from_left(cells(columns@), j, i) && i != 0 {
            assert forall|k: int| 0 <= k < i implies g[k][j] < g[i][j] by {
                assert(g[k] == grid@[k]@);
                assert(columns@[j]@[k] == grid@[k]@[j]);
            }
        }
        if visible_from_top(g, i, j) && i != 0 {
            assert forall|k: int| 0 <= k < i implies cells(columns@)[j][k] < cells(columns@)[j][i] by {
                assert(g[k] == grid@[k]@);
                assert(columns@[j]@[k] == grid@[k]@[j]);
            }
        }
    }
    assert(same_shape(flag_cells(r@), cells(grid@))) by {
        assert(flag_cells(down@)[0] == down@[0]@);
        assert(cells(columns@)[0] == columns@[0]@);
        assert(r@.len() == grid@.len());
        assert forall|i: int| 0 <= i < grid@.len() implies #[trigger] flag_cells(r@)[i].len()
            == cells(grid@)[i].len() by {
            assert(flag_cells(r@)[i] == r@[i]@);
            assert(g[i] == grid@[i]@);
        }
    }
    r
}

/// Flags the trees that are visible from the bottom edge of their column.
pub fn bottom_up(grid: &Vec<Vec<u32>>) -> (r: Vec<Vec<bool>>)
    requires
        rectangular(cells(grid@)),
    ensures
        same_shape(flag_cells(r@), cells(grid@)),
        forall|i: int, j: int|
            0 <= i < grid@.len() && 0 <= j < grid@[i]@.len() ==> #[trigger] r@[i]@[j]
                == visible_from_bottom(cells(grid@), i, j),
{
    let ghost g = cells(grid@);
    assert(g[0] == grid@[0]@);
    assert forall|i: int| 0 <= i < grid@.len() implies #[trigger] grid@[i]@.len() == grid@[0]@.len() by {
        assert(g[i] == grid@[i]@);
    }
    if grid[0].len() == 0 {
        return empty_rows(grid.len());
    }
    let columns = transpose(grid);
    assert(rectangular(cells(columns@))) by {
        assert(cells(columns@)[0] == columns@[0]@);
        assert forall|j: int| 0 <= j < columns@.len() implies #[trigger] cells(columns@)[j].len()
            == cells(columns@)[0].len() by {
            assert(cells(columns@)[j] == columns@[j]@);
        }
    }
    let down = right_left(&columns);
    assert(rectangular(flag_cells(down@))) by {
        assert(flag_cells(down@)[0] == down@[0]@);
        assert(cells(columns@)[0] == columns@[0]@);
        assert forall|j: int| 0 <= j < down@.len() implies #[trigger] flag_cells(down@)[j].len()
            == flag_cells(down@)[0].len() by {
            assert(flag_cells(down@)[j] == down@[j]@);
            assert(cells(columns@)[j] == columns@[j]@);
        }
    }
    let r = transpose(&down);
    assert forall|i: int, j: int|
        0 <= i < grid@.len() && 0 <= j < grid@[i]@.len() implies #[trigger] r@[i]@[j]
            == visible_from_bottom(g, i, j) by {
        assert(cells(columns@)[j] == columns@[j]@);
        assert(flag_cells(down@)[j] == down@[j]@);
        assert(down@[j]@[i] == visible_from_right(cells(columns@), j, i));
        assert(g[i] == grid@[i]@);
        if visible_from_right(cells(columns@), j, i) && i != grid@.len() - 1 {
            assert forall|k: int| i < k < grid@.len() implies g[k][j] < g[i][j] by {
                assert(g[k] == grid@[k]@);
                assert(columns@[j]@[k] == grid@[k]@[j]);
            }
        }
        if visible_from_bottom(g, i, j) && i != grid@.len() - 1 {
            assert forall|k: int| i < k < grid@.len() implies cells(columns@)[j][k] < cells(columns@)[j][i] by {
                assert(g[k] == grid@[k]@);
                assert(columns@[j]@[k] == grid@[k]@[j]);
            }
        }
    }
    assert(same_shape(flag_cells(r@), cells(grid@))) by {
        assert(flag_cells(down@)[0] == down@[0]@);
        assert(cells(columns@)[0] == columns@[0]@);
        assert(r@.len() == grid@.len());
        assert forall|i: int| 0 <= i < grid@.len() implies #[trigger] flag_cells(r@)[i].len()
            == cells(grid@)[i].len() by {
            assert(flag_cells(r@)[i] == r@[i]@);
            assert(g[i] == grid@[i]@);
        }
    }
    r
}

/// How many trees a tree of height `h` sees along `line`: up to and
/// including the first that is at least as high.
pub open spec fn view_distance(line: Seq<u32>, h: u32) -> nat
    decreases line.len(),
{
    if line.len() == 0 {
        0
    } else if line[0] >= h {
        1
    } else {
        1 + view_distance(line.drop_first(), h)
    }
}

pub open spec fn look_up(g: Seq<Seq<u32>>, i: int, j: int) -> Seq<u32> {
    Seq::new(i as nat, |k: int| g[i - 1 - k][j])
}

pub open spec fn look_down(g: Seq<Seq<u32>>, i: int, j: int) -> Seq<u32> {
    Seq::new((g.len() - 1 - i) as nat, |k: int| g[i + 1 + k][j])
}

pub open spec fn look_left(g: Seq<Seq<u32>>, i: int, j: int) -> Seq<u32> {
    Seq::new(j as nat, |k: int| g[i][j - 1 - k])
}

pub open spec fn look_right(g: Seq<Seq<u32>>, i: int, j: int) -> Seq<u32> {
    Seq::new((g[i].len() - 1 - j) as nat, |k: int| g[i][j + 1 + k])
}

/// The product of the viewing distances up, down, right and left.
pub open spec fn spec_scenic(g: Seq<Seq<u32>>, i: int, j: int) -> int {
    let h = g[i][j];
    let up = view_distance(look_up(g, i, j), h) as int;
    let down = view_distance(look_down(g, i, j), h) as int;
    let right = view_distance(look_right(g, i, j), h) as int;
    let left = view_distance(look_left(g, i, j), h) as int;
    up * down * right * left
}

fn distance(line: &Vec<u32>, h: u32) -> (r: usize)
    ensures
        r == view_distance(line@, h),
{
    let n = line.len();
    let mut k: usize = 0;
    assert(line@.subrange(0, n as int) =~= line@);
    while k < n
        invariant
            k <= n,
            n == line@.len(),
            view_distance(line@, h) == k + view_distance(line@.subrange(k as int, n as int), h),
        decreases n - k,
    {
        let ghost rest = line@.subrange(k as int, n as int);
        assert(rest.drop_first() =~= line@.subrange(k + 1, n as int));
        if line[k] >= h {
            return k + 1;
        }
        k += 1;
    }
    k
}

/// The heights from `(i, j)` towards the top edge, nearest first.
fn line_up(grid: &Vec<Vec<u32>>, i: usize, j: usize) -> (r: Vec<u32>)
    requires
        rectangular(cells(grid@)),
        i < grid@.len(),
        j < grid@[0]@.len(),
    ensures
        r@ == look_up(cells(grid@), i as int, j as int),
{
    let mut r: Vec<u32> = Vec::new();
    let mut k: usize = 0;
    while k < i
        invariant
            rectangular(cells(grid@)),
            i < grid@.len(),
            j < grid@[0]@.len(),
            k <= i,
            r@ == look_up(cells(grid@), i as int, j as int).subrange(0, k as int),
        decreases i - k,
    {
        assert(cells(grid@)[i - 1 - k] == grid@[i - 1 - k]@);
        assert(cells(grid@)[0] == grid@[0]@);
        r.push(grid[i - 1 - k][j]);
        k += 1;
        assert(r@ =~= look_up(cells(grid@), i as int, j as int).subrange(0, k as int));
    }
    assert(r@ =~= look_up(cells(grid@), i as int, j as int));
    r
}

/// The heights from `(i, j)` towards the bottom edge, nearest first.
fn line_down(grid: &Vec<Vec<u32>>, i: usize, j: usize) -> (r: Vec<u32>)
    requires
        rectangular(cells(grid@)),
        i < grid@.len(),
        j < grid@[0]@.len(),
    ensures
        r@ == look_down(cells(grid@), i as int, j as int),
{
    let mut r: Vec<u32> = Vec::new();
    let height = grid.len();
    let mut k: usize = i + 1;
    while k < height
        invariant
            rectangular(cells(grid@)),
            i < grid@.len(),
            j < grid@[0]@.len(),
            height == grid@.len(),
            i + 1 <= k <= grid@.len(),
            r@ == look_down(cells(grid@), i as int, j as int).subrange(0, k - i - 1),
        decreases grid@.len() - k,
    {
        assert(cells(grid@)[k as int] == grid@[k as int]@);
        assert(cells(grid@)[0] == grid@[0]@);
        r.push(grid[k][j]);
        k += 1;
        assert(r@ =~= look_down(cells(grid@), i as int, j as int).subrange(0, k - i - 1));
    }
    assert(r@ =~= look_down(cells(grid@), i as int, j as int));
    r
}

/// The heights from `(i, j)` towards the left edge, nearest first.
fn line_left(grid: &Vec<Vec<u32>>, i: usize, j: usize) -> (r: Vec<u32>)
    requires
        i < grid@.len(),
        j < grid@[i as int]@.len(),
    ensures
        r@ == look_left(cells(grid@), i as int, j as int),
{
    let row = &grid[i];
    assert(cells(grid@)[i as int] == row@);
    let mut r: Vec<u32> = Vec::new();
    let mut k: usize = 0;
    while k < j
        invariant
            cells(grid@)[i as int] == row@,
            j < row@.len(),
            k <= j,
            r@ == look_left(cells(grid@), i as int, j as int).subrange(0, k as int),
        decreases j - k,
    {
        r.push(row[j - 1 - k]);
        k += 1;
        assert(r@ =~= look_left(cells(grid@), i as int, j as int).subrange(0, k as int));
    }
    assert(r@ =~= look_left(cells(grid@), i as int, j as int));
    r
}

/// The heights from `(i, j)` towards the right edge, nearest first.
fn line_right(grid: &Vec<Vec<u32>>, i: usize, j: usize) -> (r: Vec<u32>)
    requires
        i < grid@.len(),
        j < grid@[i as int]@.len(),
    ensures
        r@ == look_right(cells(grid@), i as int, j as int),
{
    let row = &grid[i];
    assert(cells(grid@)[i as int] == row@);
    let mut r: Vec<u32> = Vec::new();
    let width = row.len();
    let mut k: usize = j + 1;
    while k < width
        invariant
            cells(grid@)[i as int] == row@,
            j < row@.len(),
            width == row@.len(),
            j + 1 <= k <= row@.len(),
            r@ == look_right(cells(grid@), i as int, j as int).subrange(0, k - j - 1),
        decreases row@.len() - k,
    {
        r.push(row[k]);
        k += 1;
        assert(r@ =~= look_right(cells(grid@), i as int, j as int).subrange(0, k - j - 1));
    }
    assert(r@ =~= look_right(cells(grid@), i as int, j as int));
    r
}

/// `a * b * c * d`, if it is a `usize`.
fn product4(a: usize, b: usize, c: usize, d: usize) -> (r: Option<usize>)
    ensures
        r == (if a * b * c * d <= usize::MAX {
            Some((a * b * c * d) as usize)
        } else {
            None
        }),
{
    if a == 0 || b == 0 || c == 0 || d == 0 {
        assert(a * b * c * d == 0) by (nonlinear_arith)
            requires
                a == 0 || b == 0 || c == 0 || d == 0,
        ;
        return Some(0);
    }
    let ab = match a.checked_mul(b) {
        None => {
            assert(a * b * c * d >= a * b) by (nonlinear_arith)
                requires
                    a >= 1,
                    b >= 1,
                    c >= 1,
                    d >= 1,
            ;
            return None;
        },
        Some(x) => x,
    };
    let abc = match ab.checked_mul(c) {
        None => {
            assert(a * b * c * d >= a * b * c) by (nonlinear_arith)
                requires
                    a >= 1,
                    b >= 1,
                    c >= 1,
                    d >= 1,
            ;
            return None;
        },
        Some(x) => x,
    };
    abc.checked_mul(d)
}

/// The viewing distances from `(i, j)`: up, down, right, left.
fn distances(grid: &Vec<Vec<u32>>, i: usize, j: usize) -> (r: (usize, usize, usize, usize))
    requires
        rectangular(cells(grid@)),
        i < grid@.len(),
        j < grid@[i as int]@.len(),
    ensures
        ({
            let g = cells(grid@);
            let h = g[i as int][j as int];
            &&& r.0 == view_distance(look_up(g, i as int, j as int), h)
            &&& r.1 == view_distance(look_down(g, i as int, j as int), h)
            &&& r.2 == view_distance(look_right(g, i as int, j as int), h)
            &&& r.3 == view_distance(look_left(g, i as int, j as int), h)
        }),
{
    assert(cells(grid@)[i as int] == grid@[i as int]@);
    assert(cells(grid@)[0] == grid@[0]@);
    let h = grid[i][j];
    let up = distance(&line_up(grid, i, j), h);
    let down = distance(&line_down(grid, i, j), h);
    let right = distance(&line_right(grid, i, j), h);
    let left = distance(&line_left(grid, i, j), h);
    (up, down, right, left)
}

/// The scenic score of the tree at row `i`, column `j`.
pub fn scenic_score(i: usize, j: usize, grid: &Vec<Vec<u32>>) -> (r: usize)
    requires
        rectangular(cells(grid@)),
        i < grid@.len(),
        j < grid@[i as int]@.len(),
        spec_scenic(cells(grid@), i as int, j as int) <= usize::MAX,
    ensures
        r == spec_scenic(cells(grid@), i as int, j as int),
{
    let (up, down, right, left) = distances(grid, i, j);
    match product4(up, down, right, left) {
        Some(s) => s,
        None => 0,
    }
}

/// The digits of a line as numbers; other characters are skipped.
pub open spec fn digit_values(s: Seq<u8>) -> Seq<u32>
    decreases s.len(),
{
    if s.len() == 0 {
        seq![]
    } else if 48 <= s.last() <= 57 {
        digit_values(s.drop_last()).push((s.last() - 48) as u32)
    } else {
        digit_values(s.drop_last())
    }
}

/// The grid that a text describes: one row per line, one height per digit.
pub open spec fn spec_grid(s: Seq<u8>) -> Seq<Seq<u32>> {
    spec_lines(s).map_values(|l: Seq<u8>| digit_values(l))
}

fn digits_of(line: &[u8]) -> (r: Vec<u32>)
    ensures
        r@ == digit_values(line@),
{
    let mut r: Vec<u32> = Vec::new();
    let mut k: usize = 0;
    assert(line@.subrange(0, 0) =~= seq![]);
    while k < line.len()
        invariant
            k <= line@.len(),
            r@ == digit_values(line@.subrange(0, k as int)),
        decreases line@.len() - k,
    {
        assert(line@.subrange(0, k + 1).drop_last() =~= line@.subrange(0, k as int));
        let b = line[k];
        if 48 <= b && b <= 57 {
            r.push((b - 48) as u32);
        }
        k += 1;
    }
    assert(line@.subrange(0, k as int) =~= line@);
    r
}

/// The digits of `line` as numbers.
pub fn to_digit_arr(line: &str) -> (r: Vec<u32>)
    ensures
        r@ == digit_values(line.spec_bytes()),
{
    digits_of(line.as_bytes())
}

/// One row of heights per line of `input`.
pub fn parse_grid(input: &str) -> (r: Vec<Vec<u32>>)
    ensures
        cells(r@) == spec_grid(input.spec_bytes()),
{
    let ls = lines(input.as_bytes());
    let ghost lv = ls@.map_values(|l: Vec<u8>| l@);
    let mut r: Vec<Vec<u32>> = Vec::new();
    let mut i: usize = 0;
    while i < ls.len()
        invariant
            i <= ls@.len(),
            lv == ls@.map_values(|l: Vec<u8>| l@),
            lv == spec_lines(input.spec_bytes()),
            spec_grid(input.spec_bytes()).len() == ls@.len(),
            cells(r@) == spec_grid(input.spec_bytes()).subrange(0, i as int),
        decreases ls@.len() - i,
    {
        let row = digits_of(ls[i].as_slice());
        assert(lv[i as int] == ls@[i as int]@);
        assert(spec_grid(input.spec_bytes())[i as int] == digit_values(lv[i as int]));
        let ghost before = cells(r@);
        let ghost added = row@;
        r.push(row);
        assert(cells(r@) =~= before.push(added));
        i += 1;
        assert(cells(r@) =~= spec_grid(input.spec_bytes()).subrange(0, i as int));
    }
    assert(cells(r@) =~= spec_grid(input.spec_bytes()));
    r
}

/// Visible from at least one edge.
pub open spec fn visible(g: Seq<Seq<u32>>, i: int, j: int) -> bool {
    visible_from_left(g, i, j) || visible_from_right(g, i, j) || visible_from_top(g, i, j)
        || visible_from_bottom(g, i, j)
}

/// The visible trees among the first `n` of row `i`.
pub open spec fn visible_in_row(g: Seq<Seq<u32>>, i: int, n: int) -> int
    decreases n,
{
    if n <= 0 {
        0
    } else {
        visible_in_row(g, i, n - 1) + if visible(g, i, n - 1) {
            1int
        } else {
            0int
        }
    }
}

/// The visible trees in the first `m` rows.
pub open spec fn visible_in_rows(g: Seq<Seq<u32>>, m: int) -> int
    decreases m,
{
    if m <= 0 {
        0
    } else {
        visible_in_rows(g, m - 1) + visible_in_row(g, m - 1, g[m - 1].len() as int)
    }
}

/// The best scenic score among the first `n` trees of row `i`, or 0.
pub open spec fn best_in_row(g: Seq<Seq<u32>>, i: int, n: int) -> int
    decreases n,
{
    if n <= 0 {
        0
    } else {
        let s = spec_scenic(g, i, n - 1);
        let b = best_in_row(g, i, n - 1);
        if s > b {
            s
        } else {
            b
        }
    }
}

/// The best scenic score in the first `m` rows, or 0.
pub open spec fn best_in_rows(g: Seq<Seq<u32>>, m: int) -> int
    decreases m,
{
    if m <= 0 {
        0
    } else {
        let s = best_in_row(g, m - 1, g[m - 1].len() as int);
        let b = best_in_rows(g, m - 1);
        if s > b {
            s
        } else {
            b
        }
    }
}

proof fn lemma_row_grows(g: Seq<Seq<u32>>, i: int, a: int, b: int)
    requires
        0 <= a <= b,
    ensures
        visible_in_row(g, i, a) <= visible_in_row(g, i, b),
    decreases b,
{
    if a < b {
        lemma_row_grows(g, i, a, b - 1);
    }
}

proof fn lemma_rows_grow(g: Seq<Seq<u32>>, a: int, b: int)
    requires
        0 <= a <= b,
    ensures
        visible_in_rows(g, a) <= visible_in_rows(g, b),
    decreases b,
{
    if a < b {
        lemma_rows_grow(g, a, b - 1);
        lemma_row_grows(g, b - 1, 0, g[b - 1].len() as int);
    }
}

/// The number of trees visible from outside the grid, and the best scenic
/// score; `None` for an empty or ragged grid, or where either number or a
/// score is not a `usize`.
pub open spec fn spec_day08(s: Seq<u8>) -> Option<(int, int)> {
    let g = spec_grid(s);
    if rectangular(g) && visible_in_rows(g, g.len() as int) <= usize::MAX && forall|i: int, j: int|
        0 <= i < g.len() && 0 <= j < g[i].len() ==> #[trigger] spec_scenic(g, i, j) <= usize::MAX {
        Some((visible_in_rows(g, g.len() as int), best_in_rows(g, g.len() as int)))
    } else {
        None
    }
}

/// Counts the trees visible from outside the grid that `input` describes,
/// and finds the best scenic score.
pub fn day08(input: &str) -> (r: Option<(usize, usize)>)
    ensures
        r matches Some((count, best)) ==> spec_day08(input.spec_bytes()) == Some(
            (count as int, best as int),
        ),
        r is None ==> spec_day08(input.spec_bytes()) is None,
{
    let grid = parse_grid(input);
    let ghost g = spec_grid(input.spec_bytes());
    let h = grid.len();
    if h == 0 {
        return None;
    }
    let w = grid[0].len();
    let mut i: usize = 0;
    while i < h
        invariant
            g == cells(grid@),
            g == spec_grid(input.spec_bytes()),
            h == grid@.len(),
            w == grid@[0]@.len(),
            i <= h,
            forall|k: int| 0 <= k < i ==> #[trigger] g[k].len() == w,
        decreases h - i,
    {
        assert(g[i as int] == grid@[i as int]@);
        if grid[i].len() != w {
            return None;
        }
        i += 1;
    }
    assert(g[0] == grid@[0]@);
    assert(rectangular(g));
    let lr = left_right(&grid);
    let rl = right_left(&grid);
    let td = top_down(&grid);
    let bu = bottom_up(&grid);
    let mut count: usize = 0;
    let mut best: usize = 0;
    let mut i: usize = 0;
    while i < h
        invariant
            g == cells(grid@),
            g == spec_grid(input.spec_bytes()),
            rectangular(g),
            h == g.len(),
            w == g[0].len(),
            i <= h,
            same_shape(flag_cells(lr@), g),
            same_shape(flag_cells(rl@), g),
            same_shape(flag_cells(td@), g),
            same_shape(flag_cells(bu@), g),
            forall|a: int, b: int|
                0 <= a < h && 0 <= b < w ==> #[trigger] lr@[a]@[b] == visible_from_left(g, a, b),
            forall|a: int, b: int|
                0 <= a < h && 0 <= b < w ==> #[trigger] rl@[a]@[b] == visible_from_right(g, a, b),
            forall|a: int, b: int|
                0 <= a < h && 0 <= b < w ==> #[trigger] td@[a]@[b] == visible_from_top(g, a, b),
            forall|a: int, b: int|
                0 <= a < h && 0 <= b < w ==> #[trigger] bu@[a]@[b] == visible_from_bottom(g, a, b),
            count == visible_in_rows(g, i as int),
            best == best_in_rows(g, i as int),
            forall|a: int, b: int|
                0 <= a < i && 0 <= b < w ==> #[trigger] spec_scenic(g, a, b) <= usize::MAX,
        decreases h - i,
    {
        assert(g[i as int] == grid@[i as int]@);
        assert(g[i as int].len() == w);
        let ghost rows_before = count as int;
        let mut row_count: usize = 0;
        let mut row_best: usize = 0;
        let mut j: usize = 0;
        while j < w
            invariant
                g == cells(grid@),
                g == spec_grid(input.spec_bytes()),
            g == spec_grid(input.spec_bytes()),
                rectangular(g),
                h == g.len(),
                w == g[0].len(),
                i < h,
                g[i as int].len() == w,
                j <= w,
                same_shape(flag_cells(lr@), g),
                same_shape(flag_cells(rl@), g),
                same_shape(flag_cells(td@), g),
                same_shape(flag_cells(bu@), g),
                forall|a: int, b: int|
                    0 <= a < h && 0 <= b < w ==> #[trigger] lr@[a]@[b] == visible_from_left(g, a, b),
                forall|a: int, b: int|
                    0 <= a < h && 0 <= b < w ==> #[trigger] rl@[a]@[b] == visible_from_right(g, a, b),
                forall|a: int, b: int|
                    0 <= a < h && 0 <= b < w ==> #[trigger] td@[a]@[b] == visible_from_top(g, a, b),
                forall|a: int, b: int|
                    0 <= a < h && 0 <= b < w ==> #[trigger] bu@[a]@[b] == visible_from_bottom(g, a, b),
                count == visible_in_rows(g, i as int),
                row_count == visible_in_row(g, i as int, j as int),
                count + row_count <= usize::MAX,
                row_best == best_in_row(g, i as int, j as int),
                forall|b: int| 0 <= b < j ==> #[trigger] spec_scenic(g, i as int, b) <= usize::MAX,
            decreases w - j,
        {
            assert(flag_cells(lr@)[i as int] == lr@[i as int]@);
            assert(flag_cells(rl@)[i as int] == rl@[i as int]@);
            assert(flag_cells(td@)[i as int] == td@[i as int]@);
            assert(flag_cells(bu@)[i as int] == bu@[i as int]@);
            let seen = lr[i][j] || rl[i][j] || td[i][j] || bu[i][j];
            if seen {
                if count as u128 + row_count as u128 >= usize::MAX as u128 {
                    proof {
                        lemma_row_grows(g, i as int, j as int + 1, w as int);
                        lemma_rows_grow(g, i as int + 1, h as int);
                    }
                    return None;
                }
                row_count += 1;
            }
            let (up, down, right, left) = distances(&grid, i, j);
            assert(spec_scenic(g, i as int, j as int) == up * down * right * left);
            let score = match product4(up, down, right, left) {
                None => return None,
                Some(s) => s,
            };
            if score > row_best {
                row_best = score;
            }
            j += 1;
        }
        proof {
            lemma_row_grows(g, i as int, 0, w as int);
        }
        count = count + row_count;
        if row_best > best {
            best = row_best;
        }
        i += 1;
    }
    Some((count, best))
}

} // verus!
