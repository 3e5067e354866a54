//! The board as a square grid of integers, and how a move acts on it line by line.
use vstd::prelude::*;
use crate::game::Action;
use crate::line::{lemma_merged, lemma_slide, lemma_tiles, nonneg, slide, slide_gain, tiles, total};

verus! {

/// `g` has `n` rows of `n` cells each.
pub open spec fn square(g: Seq<Seq<int>>, n: int) -> bool {
    &&& g.len() == n
    &&& forall|i: int| 0 <= i < n ==> #[trigger] g[i].len() == n
}

/// The position `(row, column)` of the `t`-th cell of line `k` for a move
/// toward `a`, counting from the edge that the tiles move toward.
pub open spec fn cell_of(a: Action, n: int, k: int, t: int) -> (int, int) {
    match a {
        Action::Left => (k, t),
        Action::Right => (k, n - 1 - t),
        Action::Up => (t, k),
        Action::Down => (n - 1 - t, k),
    }
}

/// The line and the place in it of the cell at `(r, c)`: the inverse of `cell_of`.
pub open spec fn line_index(a: Action, n: int, r: int, c: int) -> (int, int) {
    match a {
        Action::Left => (r, c),
        Action::Right => (r, n - 1 - c),
        Action::Up => (c, r),
        Action::Down => (c, n - 1 - r),
    }
}

/// Line `k` of the grid for a move toward `a`, read from the edge that the
/// tiles move toward.
pub open spec fn line_of(g: Seq<Seq<int>>, a: Action, n: int, k: int) -> Seq<int> {
    Seq::new(n as nat, |t: int| g[cell_of(a, n, k, t).0][cell_of(a, n, k, t).1])
}

/// The grid after a move toward `a`: every line slides on its own.
pub open spec fn moved(g: Seq<Seq<int>>, a: Action, n: int) -> Seq<Seq<int>> {
    Seq::new(
        n as nat,
        |r: int|
            Seq::new(
                n as nat,
                |c: int| slide(line_of(g, a, n, line_index(a, n, r, c).0))[line_index(a, n, r, c).1],
            ),
    )
}

/// The score earned by the first `m` lines of a move toward `a`.
pub open spec fn gain_upto(g: Seq<Seq<int>>, a: Action, n: int, m: int) -> int
    decreases m,
{
    if m <= 0 {
        0
    } else {
        gain_upto(g, a, n, m - 1) + slide_gain(line_of(g, a, n, m - 1))
    }
}

/// The score earned by a move toward `a`.
pub open spec fn move_gain(g: Seq<Seq<int>>, a: Action, n: int) -> int {
    gain_upto(g, a, n, n)
}

/// Every cell of the grid holds a tile.
pub open spec fn full(g: Seq<Seq<int>>, n: int) -> bool {
    forall|i: int, j: int| 0 <= i < n && 0 <= j < n ==> #[trigger] g[i][j] != 0
}

/// The empty cells among the first `c` cells of row `i`, left to right.
pub open spec fn row_empties(g: Seq<Seq<int>>, i: int, c: int) -> Seq<(int, int)>
    decreases c,
{
    if c <= 0 {
        seq![]
    } else if g[i][c - 1] == 0 {
        row_empties(g, i, c - 1).push((i, c - 1))
    } else {
        row_empties(g, i, c - 1)
    }
}

/// The empty cells of the first `r` rows, in row-major order.
pub open spec fn empties(g: Seq<Seq<int>>, n: int, r: int) -> Seq<(int, int)>
    decreases r,
{
    if r <= 0 {
        seq![]
    } else {
        empties(g, n, r - 1) + row_empties(g, r - 1, n)
    }
}

/// An `n` by `n` grid of empty cells.
pub open spec fn zeros(n: int) -> Seq<Seq<int>> {
    Seq::new(n as nat, |i: int| Seq::new(n as nat, |j: int| 0int))
}

/// The grid with the cell at `(i, j)` set to `v`.
pub open spec fn put(g: Seq<Seq<int>>, i: int, j: int, v: int) -> Seq<Seq<int>> {
    g.update(i, g[i].update(j, v))
}

proof fn lemma_row_empties(g: Seq<Seq<int>>, i: int, c: int)
    requires
        0 <= c,
    ensures
        forall|p: int| 0 <= p < row_empties(g, i, c).len() ==> {
            let (a, b) = #[trigger] row_empties(g, i, c)[p];
            a == i && 0 <= b < c && g[a][b] == 0
        },
        forall|j: int| 0 <= j < c && g[i][j] == 0 ==> row_empties(g, i, c).contains((i, j)),
    decreases c,
{
    if c > 0 {
        lemma_row_empties(g, i, c - 1);
        let prev = row_empties(g, i, c - 1);
        if g[i][c - 1] == 0 {
            assert forall|j: int| 0 <= j < c && g[i][j] == 0 implies row_empties(g, i, c).contains((i, j)) by {
                if j < c - 1 {
                    let p = choose|p: int| 0 <= p < prev.len() && prev[p] == (i, j);
                    assert(row_empties(g, i, c)[p] == (i, j));
                } else {
                    assert(row_empties(g, i, c)[prev.len() as int] == (i, j));
                }
            }
        }
    }
}

/// The empty cells that `empties` lists are exactly the empty cells of the grid.
pub proof fn lemma_empties(g: Seq<Seq<int>>, n: int, r: int)
    requires
        0 <= r <= n,
        square(g, n),
    ensures
        forall|p: int| 0 <= p < empties(g, n, r).len() ==> {
            let (a, b) = #[trigger] empties(g, n, r)[p];
            0 <= a < r && 0 <= b < n && g[a][b] == 0
        },
        forall|i: int, j: int|
            0 <= i < r && 0 <= j < n && g[i][j] == 0 ==> empties(g, n, r).contains((i, j)),
        empties(g, n, r).len() == 0 <==> forall|i: int, j: int|
            0 <= i < r && 0 <= j < n ==> #[trigger] g[i][j] != 0,
    decreases r,
{
    if r > 0 {
        lemma_empties(g, n, r - 1);
        lemma_row_empties(g, r - 1, n);
        let prev = empties(g, n, r - 1);
        let row = row_empties(g, r - 1, n);
        let all = empties(g, n, r);
        assert(all == prev + row);
        assert forall|p: int| 0 <= p < all.len() implies {
            let (a, b) = #[trigger] all[p];
            0 <= a < r && 0 <= b < n && g[a][b] == 0
        } by {
            if p >= prev.len() {
                assert(all[p] == row[p - prev.len()]);
            }
        }
        assert forall|i: int, j: int| 0 <= i < r && 0 <= j < n && g[i][j] == 0 implies all.contains((i, j)) by {
            if i < r - 1 {
                let p = choose|p: int| 0 <= p < prev.len() && prev[p] == (i, j);
                assert(all[p] == (i, j));
            } else {
                let p = choose|p: int| 0 <= p < row.len() && row[p] == (i, j);
                assert(all[prev.len() + p] == (i, j));
            }
        }
        if all.len() == 0 {
            assert forall|i: int, j: int| 0 <= i < r && 0 <= j < n implies #[trigger] g[i][j] != 0 by {
                if g[i][j] == 0 {
                    assert(all.contains((i, j)));
                }
            }
        } else {
            let (a, b) = all[0];
            assert(g[a][b] == 0);
        }
    }
}

/// The sum of `f` over the cells of a line.
pub open spec fn sumf(s: Seq<int>, f: spec_fn(int) -> int) -> int
    decreases s.len(),
{
    if s.len() == 0 {
        0
    } else {
        sumf(s.drop_last(), f) + f(s.last())
    }
}

/// A cell weighed by its value.
pub open spec fn value_weight() -> spec_fn(int) -> int {
    |x: int| x
}

/// A cell weighed as one if it holds a tile.
pub open spec fn tile_weight() -> spec_fn(int) -> int {
    |x: int|
        if x != 0 {
            1int
        } else {
            0int
        }
}

/// The sum of `f` over the first `c` cells of each of the first `r` rows.
pub open spec fn rows_sum(g: Seq<Seq<int>>, f: spec_fn(int) -> int, r: int, c: int) -> int
    decreases r,
{
    if r <= 0 {
        0
    } else {
        rows_sum(g, f, r - 1, c) + sumf(g[r - 1].subrange(0, c), f)
    }
}

/// Column `j` of the grid, top to bottom, over its first `r` rows.
pub open spec fn column(g: Seq<Seq<int>>, j: int, r: int) -> Seq<int> {
    Seq::new(r as nat, |i: int| g[i][j])
}

/// The sum of `f` over the first `r` cells of each of the first `c` columns.
pub open spec fn cols_sum(g: Seq<Seq<int>>, f: spec_fn(int) -> int, r: int, c: int) -> int
    decreases c,
{
    if c <= 0 {
        0
    } else {
        cols_sum(g, f, r, c - 1) + sumf(column(g, c - 1, r), f)
    }
}

/// The sum of `f` over the first `m` lines of a move toward `a`.
pub open spec fn lines_sum(g: Seq<Seq<int>>, a: Action, n: int, f: spec_fn(int) -> int, m: int) -> int
    decreases m,
{
    if m <= 0 {
        0
    } else {
        lines_sum(g, a, n, f, m - 1) + sumf(line_of(g, a, n, m - 1), f)
    }
}

/// The sum of `f` over every cell of the grid.
pub open spec fn grid_sum(g: Seq<Seq<int>>, n: int, f: spec_fn(int) -> int) -> int {
    rows_sum(g, f, n, n)
}

/// The sum of all values on the grid.
pub open spec fn grid_total(g: Seq<Seq<int>>, n: int) -> int {
    grid_sum(g, n, value_weight())
}

/// The number of tiles on the grid.
pub open spec fn grid_count(g: Seq<Seq<int>>, n: int) -> int {
    grid_sum(g, n, tile_weight())
}

pub proof fn lemma_sumf_front(s: Seq<int>, f: spec_fn(int) -> int)
    requires
        s.len() > 0,
    ensures
        sumf(s, f) == f(s[0]) + sumf(s.subrange(1, s.len() as int), f),
    decreases s.len(),
{
    if s.len() > 1 {
        let d = s.drop_last();
        lemma_sumf_front(d, f);
        assert(d.subrange(1, d.len() as int) =~= s.subrange(1, s.len() as int).drop_last());
    } else {
        assert(s.drop_last() =~= Seq::<int>::empty());
        assert(s.subrange(1, 1) =~= Seq::<int>::empty());
    }
}

/// A line read backwards has the same sum.
pub proof fn lemma_sumf_reversed(s: Seq<int>, r: Seq<int>, f: spec_fn(int) -> int)
    requires
        r.len() == s.len(),
        forall|t: int| 0 <= t < s.len() ==> r[t] == s[s.len() - 1 - t],
    ensures
        sumf(r, f) == sumf(s, f),
    decreases s.len(),
{
    if s.len() > 0 {
        lemma_sumf_front(r, f);
        let r1 = r.subrange(1, r.len() as int);
        let s1 = s.drop_last();
        assert forall|t: int| 0 <= t < s1.len() implies r1[t] == s1[s1.len() - 1 - t] by {
            assert(r1[t] == r[t + 1]);
        }
        lemma_sumf_reversed(s1, r1, f);
    }
}

pub proof fn lemma_rows_sum_zero(g: Seq<Seq<int>>, f: spec_fn(int) -> int, r: int)
    requires
        forall|i: int| 0 <= i < r ==> #[trigger] g[i].len() >= 0,
    ensures
        rows_sum(g, f, r, 0) == 0,
    decreases r,
{
    if r > 0 {
        lemma_rows_sum_zero(g, f, r - 1);
        assert(g[r - 1].subrange(0, 0) =~= Seq::<int>::empty());
    }
}

/// Peeling off the last column of a block of the grid.
pub proof fn lemma_rows_sum_last_column(g: Seq<Seq<int>>, f: spec_fn(int) -> int, r: int, c: int)
    requires
        0 <= r <= g.len(),
        1 <= c,
        forall|i: int| 0 <= i < r ==> c <= #[trigger] g[i].len(),
    ensures
        rows_sum(g, f, r, c) == rows_sum(g, f, r, c - 1) + sumf(column(g, c - 1, r), f),
    decreases r,
{
    if r > 0 {
        lemma_rows_sum_last_column(g, f, r - 1, c);
        let row = g[r - 1].subrange(0, c);
        assert(row.drop_last() =~= g[r - 1].subrange(0, c - 1));
        assert(column(g, c - 1, r).drop_last() =~= column(g, c - 1, r - 1));
    } else {
        assert(column(g, c - 1, r) =~= Seq::<int>::empty());
    }
}

/// Summing a block of the grid by rows or by columns gives the same.
pub proof fn lemma_rows_cols(g: Seq<Seq<int>>, f: spec_fn(int) -> int, r: int, c: int)
    requires
        0 <= r <= g.len(),
        0 <= c,
        forall|i: int| 0 <= i < r ==> c <= #[trigger] g[i].len(),
    ensures
        rows_sum(g, f, r, c) == cols_sum(g, f, r, c),
    decreases c,
{
    if c > 0 {
        lemma_rows_sum_last_column(g, f, r, c);
        lemma_rows_cols(g, f, r, c - 1);
    } else {
        lemma_rows_sum_zero(g, f, r);
    }
}

/// Summing over the lines of any direction covers each cell of the grid once.
pub proof fn lemma_lines_sum(g: Seq<Seq<int>>, a: Action, n: int, f: spec_fn(int) -> int)
    requires
        0 <= n,
        square(g, n),
    ensures
        lines_sum(g, a, n, f, n) == grid_sum(g, n, f),
{
    match a {
        Action::Left | Action::Right => {
            lemma_lines_rows(g, a, n, f, n);
        },
        Action::Up | Action::Down => {
            lemma_lines_cols(g, a, n, f, n);
            lemma_rows_cols(g, f, n, n);
        },
    }
}

proof fn lemma_lines_rows(g: Seq<Seq<int>>, a: Action, n: int, f: spec_fn(int) -> int, m: int)
    requires
        0 <= m <= n,
        square(g, n),
        a == Action::Left || a == Action::Right,
    ensures
        lines_sum(g, a, n, f, m) == rows_sum(g, f, m, n),
    decreases m,
{
    if m > 0 {
        lemma_lines_rows(g, a, n, f, m - 1);
        let row = g[m - 1].subrange(0, n);
        assert(row =~= g[m - 1]);
        if a == Action::Left {
            assert(line_of(g, a, n, m - 1) =~= row);
        } else {
            lemma_sumf_reversed(row, line_of(g, a, n, m - 1), f);
        }
    }
}

proof fn lemma_lines_cols(g: Seq<Seq<int>>, a: Action, n: int, f: spec_fn(int) -> int, m: int)
    requires
        0 <= m <= n,
        square(g, n),
        a == Action::Up || a == Action::Down,
    ensures
        lines_sum(g, a, n, f, m) == cols_sum(g, f, n, m),
    decreases m,
{
    if m > 0 {
        lemma_lines_cols(g, a, n, f, m - 1);
        let col = column(g, m - 1, n);
        if a == Action::Up {
            assert(line_of(g, a, n, m - 1) =~= col);
        } else {
            lemma_sumf_reversed(col, line_of(g, a, n, m - 1), f);
        }
    }
}

/// Each line of the moved grid is the slid line of the grid before.
pub proof fn lemma_moved_lines(g: Seq<Seq<int>>, a: Action, n: int, k: int)
    requires
        0 <= n,
        0 <= k < n,
        square(g, n),
    ensures
        square(moved(g, a, n), n),
        line_of(moved(g, a, n), a, n, k) == slide(line_of(g, a, n, k)),
{
    let m = moved(g, a, n);
    assert forall|i: int| 0 <= i < n implies #[trigger] m[i].len() == n by {}
    let l = line_of(g, a, n, k);
    lemma_tiles(l, 0);
    lemma_merged(tiles(l));
    assert(slide(l).len() == n);
    assert forall|t: int| 0 <= t < n implies #[trigger] line_of(m, a, n, k)[t] == slide(l)[t] by {
        let (r, c) = cell_of(a, n, k, t);
        assert(line_index(a, n, r, c) == (k, t));
    }
    assert(line_of(m, a, n, k) =~= slide(l));
}

/// A prefix of a line without negative values sums to at most the line.
pub proof fn lemma_sumf_prefix(s: Seq<int>, j: int)
    requires
        0 <= j <= s.len(),
        forall|i: int| 0 <= i < s.len() ==> s[i] >= 0,
    ensures
        0 <= sumf(s.subrange(0, j), value_weight()) <= sumf(s, value_weight()),
    decreases s.len(),
{
    if s.len() > 0 {
        let d = s.drop_last();
        if j == s.len() {
            lemma_sumf_prefix(d, j - 1);
            assert(d.subrange(0, j - 1) =~= d);
            assert(s.subrange(0, j) =~= s);
        } else {
            lemma_sumf_prefix(d, j);
            assert(d.subrange(0, j) =~= s.subrange(0, j));
        }
    } else {
        assert(s.subrange(0, j) =~= s);
    }
}

/// On a grid without negative values, the first rows sum to at most the grid.
pub proof fn lemma_rows_prefix(g: Seq<Seq<int>>, n: int, i: int)
    requires
        0 <= i <= n,
        square(g, n),
        forall|a: int, b: int| 0 <= a < n && 0 <= b < n ==> #[trigger] g[a][b] >= 0,
    ensures
        0 <= rows_sum(g, value_weight(), i, n) <= grid_total(g, n),
    decreases n - i,
{
    if i < n {
        lemma_rows_prefix(g, n, i + 1);
        lemma_sumf_prefix(g[i], n);
    }
    if i > 0 {
        lemma_rows_prefix_low(g, n, i);
    }
}

proof fn lemma_rows_prefix_low(g: Seq<Seq<int>>, n: int, i: int)
    requires
        0 <= i <= n,
        square(g, n),
        forall|a: int, b: int| 0 <= a < n && 0 <= b < n ==> #[trigger] g[a][b] >= 0,
    ensures
        0 <= rows_sum(g, value_weight(), i, n),
    decreases i,
{
    if i > 0 {
        lemma_rows_prefix_low(g, n, i - 1);
        lemma_sumf_prefix(g[i - 1], n);
    }
}

/// The front-first sum of a line is its sum by value.
pub proof fn lemma_total_sumf(s: Seq<int>)
    ensures
        total(s) == sumf(s, value_weight()),
    decreases s.len(),
{
    if s.len() > 0 {
        lemma_sumf_front(s, value_weight());
        lemma_total_sumf(s.subrange(1, s.len() as int));
    }
}

/// On a grid without negative values, the score of the first `m` lines of a
/// move is at most their sum, which is at most the sum of all lines.
pub proof fn lemma_lines_sum_upto(g: Seq<Seq<int>>, a: Action, n: int, m: int)
    requires
        0 <= m <= n,
        square(g, n),
        forall|i: int, j: int| 0 <= i < n && 0 <= j < n ==> #[trigger] g[i][j] >= 0,
    ensures
        0 <= gain_upto(g, a, n, m) <= lines_sum(g, a, n, value_weight(), m),
        lines_sum(g, a, n, value_weight(), m) <= lines_sum(g, a, n, value_weight(), n),
    decreases n - m,
{
    lemma_gain_upto(g, a, n, m);
    if m < n {
        lemma_lines_sum_upto(g, a, n, m + 1);
        let l = line_of(g, a, n, m);
        lemma_line_nonneg(g, a, n, m);
        lemma_slide(l);
        lemma_total_sumf(l);
    }
}

proof fn lemma_gain_upto(g: Seq<Seq<int>>, a: Action, n: int, m: int)
    requires
        0 <= m <= n,
        square(g, n),
        forall|i: int, j: int| 0 <= i < n && 0 <= j < n ==> #[trigger] g[i][j] >= 0,
    ensures
        0 <= gain_upto(g, a, n, m) <= lines_sum(g, a, n, value_weight(), m),
    decreases m,
{
    if m > 0 {
        lemma_gain_upto(g, a, n, m - 1);
        let l = line_of(g, a, n, m - 1);
        lemma_line_nonneg(g, a, n, m - 1);
        lemma_slide(l);
        lemma_total_sumf(l);
    }
}

/// Every line of a grid without negative values has none either.
pub proof fn lemma_line_nonneg(g: Seq<Seq<int>>, a: Action, n: int, k: int)
    requires
        0 <= k < n,
        square(g, n),
        forall|i: int, j: int| 0 <= i < n && 0 <= j < n ==> #[trigger] g[i][j] >= 0,
    ensures
        nonneg(line_of(g, a, n, k)),
{
    let l = line_of(g, a, n, k);
    assert forall|t: int| 0 <= t < l.len() implies l[t] >= 0 by {
        let (i, j) = cell_of(a, n, k, t);
        assert(g[i][j] >= 0);
    }
}

} // verus!
