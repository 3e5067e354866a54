//! What every move guarantees, stated over the grid model.
use vstd::prelude::*;
use crate::game::Action;
use crate::grid::{
    cell_of, full,
    gain_upto, grid_count, lemma_lines_sum, lemma_lines_sum_upto, lemma_line_nonneg,
    lemma_moved_lines, line_index, line_of, lines_sum, move_gain, moved, square, sumf,
    tile_weight, lemma_sumf_front,
};
use crate::line::{
    lemma_merged, lemma_merged_distinct, lemma_slide, lemma_tiles, lemma_tiles_slide, merged,
    merges, no_equal_neighbours, nonneg, slide, slide_gain, tiles,
};

verus! {

/// No cell of the grid holds a negative value.
pub open spec fn grid_nonneg(g: Seq<Seq<int>>, n: int) -> bool {
    forall|i: int, j: int| 0 <= i < n && 0 <= j < n ==> #[trigger] g[i][j] >= 0
}

/// The number of merges in the first `m` lines of a move toward `a`.
pub open spec fn merges_upto(g: Seq<Seq<int>>, a: Action, n: int, m: int) -> int
    decreases m,
{
    if m <= 0 {
        0
    } else {
        merges_upto(g, a, n, m - 1) + merges(tiles(line_of(g, a, n, m - 1)))
    }
}

/// The number of merges in a move toward `a`.
pub open spec fn move_merges(g: Seq<Seq<int>>, a: Action, n: int) -> int {
    merges_upto(g, a, n, n)
}

/// The grid and the score after the moves of `acts`, in order.
pub open spec fn play(g: Seq<Seq<int>>, n: int, score: int, acts: Seq<Action>) -> (Seq<Seq<int>>, int)
    decreases acts.len(),
{
    if acts.len() == 0 {
        (g, score)
    } else {
        play(moved(g, acts[0], n), n, score + move_gain(g, acts[0], n), acts.subrange(1, acts.len() as int))
    }
}

proof fn lemma_count_tiles(s: Seq<int>)
    ensures
        sumf(s, tile_weight()) == tiles(s).len(),
    decreases s.len(),
{
    if s.len() > 0 {
        lemma_sumf_front(s, tile_weight());
        lemma_count_tiles(s.subrange(1, s.len() as int));
    }
}

/// A move keeps the grid square and free of negative values.
pub proof fn lemma_moved_wf(g: Seq<Seq<int>>, a: Action, n: int)
    requires
        0 <= n,
        square(g, n),
        grid_nonneg(g, n),
    ensures
        square(moved(g, a, n), n),
        grid_nonneg(moved(g, a, n), n),
        move_gain(g, a, n) >= 0,
{
    let m = moved(g, a, n);
    assert forall|i: int| 0 <= i < n implies #[trigger] m[i].len() == n by {}
    assert forall|i: int, j: int| 0 <= i < n && 0 <= j < n implies #[trigger] m[i][j] >= 0 by {
        let (k, t) = line_index(a, n, i, j);
        lemma_line_nonneg(g, a, n, k);
        lemma_slide(line_of(g, a, n, k));
    }
    lemma_lines_sum_upto(g, a, n, n);
}

/// A grid is determined by its lines in any one direction.
pub proof fn lemma_lines_determine(g1: Seq<Seq<int>>, g2: Seq<Seq<int>>, a: Action, n: int)
    requires
        0 <= n,
        square(g1, n),
        square(g2, n),
        forall|k: int| 0 <= k < n ==> #[trigger] line_of(g1, a, n, k) == line_of(g2, a, n, k),
    ensures
        g1 == g2,
{
    assert forall|i: int| 0 <= i < n implies #[trigger] g1[i] == g2[i] by {
        assert forall|j: int| 0 <= j < n implies g1[i][j] == g2[i][j] by {
            let (k, t) = line_index(a, n, i, j);
            assert(line_of(g1, a, n, k)[t] == line_of(g2, a, n, k)[t]);
        }
        assert(g1[i] =~= g2[i]);
    }
    assert(g1 =~= g2);
}

/// A move never adds tiles: the tiles after it are the tiles before it less
/// one for every merge, so the count stays the same exactly when nothing merges.
pub proof fn lemma_move_tile_count(g: Seq<Seq<int>>, a: Action, n: int)
    requires
        0 <= n,
        square(g, n),
        grid_nonneg(g, n),
    ensures
        move_merges(g, a, n) >= 0,
        grid_count(moved(g, a, n), n) == grid_count(g, n) - move_merges(g, a, n),
        grid_count(moved(g, a, n), n) <= grid_count(g, n),
{
    let m = moved(g, a, n);
    lemma_moved_wf(g, a, n);
    lemma_lines_sum(g, a, n, tile_weight());
    lemma_lines_sum(m, a, n, tile_weight());
    lemma_count_upto(g, a, n, n);
}

proof fn lemma_count_upto(g: Seq<Seq<int>>, a: Action, n: int, k: int)
    requires
        0 <= k <= n,
        square(g, n),
        grid_nonneg(g, n),
    ensures
        merges_upto(g, a, n, k) >= 0,
        lines_sum(moved(g, a, n), a, n, tile_weight(), k) == lines_sum(g, a, n, tile_weight(), k)
            - merges_upto(g, a, n, k),
    decreases k,
{
    if k > 0 {
        lemma_count_upto(g, a, n, k - 1);
        let l = line_of(g, a, n, k - 1);
        lemma_moved_lines(g, a, n, k - 1);
        lemma_line_nonneg(g, a, n, k - 1);
        lemma_tiles_slide(l);
        lemma_tiles(l, 0);
        lemma_merged(tiles(l));
        lemma_count_tiles(l);
        lemma_count_tiles(slide(l));
    }
}

/// The score never goes down, whatever moves follow one another.
pub proof fn lemma_score_never_decreases(g: Seq<Seq<int>>, n: int, score: int, acts: Seq<Action>)
    requires
        0 <= n,
        square(g, n),
        grid_nonneg(g, n),
    ensures
        play(g, n, score, acts).1 >= score,
    decreases acts.len(),
{
    if acts.len() > 0 {
        lemma_moved_wf(g, acts[0], n);
        lemma_score_never_decreases(
            moved(g, acts[0], n),
            n,
            score + move_gain(g, acts[0], n),
            acts.subrange(1, acts.len() as int),
        );
    }
}

/// Moving the same way again right after a move changes nothing and earns
/// nothing, as long as the first move left no two equal tiles side by side
/// along that direction (else those two merge on the second move).
pub proof fn lemma_repeat_move(g: Seq<Seq<int>>, a: Action, n: int)
    requires
        0 <= n,
        square(g, n),
        grid_nonneg(g, n),
        forall|k: int| 0 <= k < n ==> no_equal_neighbours(#[trigger] line_of(moved(g, a, n), a, n, k)),
    ensures
        moved(moved(g, a, n), a, n) == moved(g, a, n),
        move_gain(moved(g, a, n), a, n) == 0,
{
    let m = moved(g, a, n);
    lemma_moved_wf(g, a, n);
    lemma_moved_wf(m, a, n);
    assert forall|k: int| 0 <= k < n implies #[trigger] line_of(moved(m, a, n), a, n, k) == line_of(m, a, n, k) by {
        lemma_moved_lines(g, a, n, k);
        lemma_moved_lines(m, a, n, k);
        lemma_line_nonneg(g, a, n, k);
        lemma_slide_again(line_of(g, a, n, k));
    }
    lemma_lines_determine(moved(m, a, n), m, a, n);
    lemma_no_gain_upto(g, a, n, n);
}

proof fn lemma_no_gain_upto(g: Seq<Seq<int>>, a: Action, n: int, k: int)
    requires
        0 <= k <= n,
        square(g, n),
        grid_nonneg(g, n),
        forall|k: int| 0 <= k < n ==> no_equal_neighbours(#[trigger] line_of(moved(g, a, n), a, n, k)),
    ensures
        gain_upto(moved(g, a, n), a, n, k) == 0,
    decreases k,
{
    if k > 0 {
        lemma_no_gain_upto(g, a, n, k - 1);
        lemma_moved_lines(g, a, n, k - 1);
        lemma_line_nonneg(g, a, n, k - 1);
        lemma_slide_again(line_of(g, a, n, k - 1));
    }
}

/// A move on a full board whose lines hold no two equal neighbouring tiles
/// along that direction changes nothing and earns nothing.
pub proof fn lemma_blocked_move(g: Seq<Seq<int>>, a: Action, n: int)
    requires
        0 <= n,
        square(g, n),
        full(g, n),
        grid_nonneg(g, n),
        forall|k: int| 0 <= k < n ==> no_equal_neighbours(#[trigger] line_of(g, a, n, k)),
    ensures
        moved(g, a, n) == g,
        move_gain(g, a, n) == 0,
{
    lemma_moved_wf(g, a, n);
    assert forall|k: int| 0 <= k < n implies #[trigger] line_of(moved(g, a, n), a, n, k) == line_of(g, a, n, k) by {
        lemma_moved_lines(g, a, n, k);
        lemma_blocked_line(g, a, n, k);
    }
    lemma_lines_determine(moved(g, a, n), g, a, n);
    lemma_blocked_gain(g, a, n, n);
}

proof fn lemma_blocked_line(g: Seq<Seq<int>>, a: Action, n: int, k: int)
    requires
        0 <= k < n,
        square(g, n),
        full(g, n),
        no_equal_neighbours(line_of(g, a, n, k)),
    ensures
        slide(line_of(g, a, n, k)) == line_of(g, a, n, k),
        slide_gain(line_of(g, a, n, k)) == 0,
{
    let l = line_of(g, a, n, k);
    assert forall|t: int| 0 <= t < l.len() implies l[t] != 0 by {
        let (i, j) = cell_of(a, n, k, t);
        assert(g[i][j] != 0);
    }
    lemma_tiles_full(l);
    assert forall|i: int| 0 <= i < l.len() - 1 implies #[trigger] l[i] != l[i + 1] by {
        assert(l[i] != 0);
    }
    lemma_merged_distinct(l);
    assert(slide(l) =~= l);
}

proof fn lemma_blocked_gain(g: Seq<Seq<int>>, a: Action, n: int, k: int)
    requires
        0 <= k <= n,
        square(g, n),
        full(g, n),
        forall|k: int| 0 <= k < n ==> no_equal_neighbours(#[trigger] line_of(g, a, n, k)),
    ensures
        gain_upto(g, a, n, k) == 0,
    decreases k,
{
    if k > 0 {
        lemma_blocked_gain(g, a, n, k - 1);
        lemma_blocked_line(g, a, n, k - 1);
    }
}

/// A line without empty cells is its own list of tiles.
proof fn lemma_tiles_full(s: Seq<int>)
    requires
        forall|i: int| 0 <= i < s.len() ==> s[i] != 0,
    ensures
        tiles(s) == s,
    decreases s.len(),
{
    if s.len() > 0 {
        let s1 = s.subrange(1, s.len() as int);
        lemma_tiles_full(s1);
        assert(seq![s[0]] + s1 =~= s);
    }
}

/// A slid line without equal neighbouring tiles slides to itself.
proof fn lemma_slide_again(s: Seq<int>)
    requires
        nonneg(s),
        no_equal_neighbours(slide(s)),
    ensures
        slide(slide(s)) == slide(s),
        slide_gain(slide(s)) == 0,
{
    lemma_tiles_slide(s);
    lemma_slide(s);
    let m = merged(tiles(s));
    let p = slide(s);
    assert forall|i: int| 0 <= i < m.len() - 1 implies #[trigger] m[i] != m[i + 1] by {
        assert(p[i] == m[i] && p[i + 1] == m[i + 1]);
        assert(p[i] != 0);
    }
    lemma_merged_distinct(m);
}

} // verus!
