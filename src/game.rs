//! The game state and the moves on it.
use vstd::prelude::*;
use crate::grid::{
    cell_of, empties, full, gain_upto, grid_total, lemma_empties, lemma_line_nonneg,
    lemma_lines_sum, lemma_lines_sum_upto, lemma_rows_prefix, lemma_sumf_prefix,
    lemma_total_sumf, line_index, line_of, lines_sum, move_gain, moved, put, row_empties,
    rows_sum, square, sumf, value_weight, zeros,
};
use crate::line::{ints, lemma_slide, nonneg, slide, slide_line, total, MAX_MERGEABLE};

verus! {

/// A direction in which the tiles move.
#[derive(Clone, Copy, Debug, PartialEq, Eq, Structural)]
pub enum Action {
    Up,
    Down,
    Left,
    Right,
}

/// A square board of tiles and the score earned so far.
#[derive(Debug)]
pub struct Game {
    pub board: Vec<Vec<i16>>,
    pub size: usize,
    pub score: u32,
}

#[verifier::external_type_specification]
#[verifier::external_body]
pub struct ExThreadRng(rand::rngs::ThreadRng);

/// Relies on `rand::thread_rng`: a handle to the thread's random generator.
pub assume_specification[ rand::thread_rng ]() -> rand::rngs::ThreadRng;

/// Relies on `rand::Rng::gen_range`: a value drawn from `0..n`; it panics
/// only on an empty range.
#[verifier::external_body]
fn random_below(rng: &mut rand::rngs::ThreadRng, n: usize) -> (r: usize)
    requires
        0 < n,
    ensures
        r < n,
{
    rand::Rng::gen_range(rng, 0..n)
}

/// Relies on `rand::Rng::gen_ratio`: `true` with probability
/// `numerator / denominator`, always `true` when they are equal and never
/// when `numerator` is 0; it panics if `denominator` is 0 or smaller than
/// `numerator`.
#[verifier::external_body]
fn random_ratio(rng: &mut rand::rngs::ThreadRng, numerator: u32, denominator: u32) -> (r: bool)
    requires
        0 < denominator,
        numerator <= denominator,
    ensures
        numerator == 0 ==> !r,
        numerator == denominator ==> r,
{
    rand::Rng::gen_ratio(rng, numerator, denominator)
}

/// Whether two `n` by `n` boards hold the same values.
fn same_cells(a: &Vec<Vec<i16>>, b: &Vec<Vec<i16>>, n: usize) -> (r: bool)
    requires
        a@.len() == n,
        b@.len() == n,
        forall|i: int| 0 <= i < n ==> (#[trigger] a@[i])@.len() == n,
        forall|i: int| 0 <= i < n ==> (#[trigger] b@[i])@.len() == n,
    ensures
        r == (forall|i: int, j: int| 0 <= i < n && 0 <= j < n ==> #[trigger] a@[i]@[j] == b@[i]@[j]),
{
    let mut i: usize = 0;
    while i < n
        invariant
            a@.len() == n,
            b@.len() == n,
            forall|i: int| 0 <= i < n ==> (#[trigger] a@[i])@.len() == n,
            forall|i: int| 0 <= i < n ==> (#[trigger] b@[i])@.len() == n,
            i <= n,
            forall|x: int, y: int| 0 <= x < i && 0 <= y < n ==> #[trigger] a@[x]@[y] == b@[x]@[y],
        decreases n - i,
    {
        let mut j: usize = 0;
        while j < n
            invariant
                a@.len() == n,
                b@.len() == n,
                forall|i: int| 0 <= i < n ==> (#[trigger] a@[i])@.len() == n,
                forall|i: int| 0 <= i < n ==> (#[trigger] b@[i])@.len() == n,
                i < n,
                j <= n,
                forall|x: int, y: int| 0 <= x < i && 0 <= y < n ==> #[trigger] a@[x]@[y] == b@[x]@[y],
                forall|y: int| 0 <= y < j ==> #[trigger] a@[i as int]@[y] == b@[i as int]@[y],
            decreases n - j,
        {
            if a[i][j] != b[i][j] {
                return false;
            }
            j = j + 1;
        }
        i = i + 1;
    }
    true
}

impl Game {
    /// The board as a grid of integers.
    pub open spec fn grid(&self) -> Seq<Seq<int>> {
        self.board@.map_values(|row: Vec<i16>| ints(row@))
    }

    /// The board is `size` by `size` and holds no negative value.
    pub open spec fn wf(&self) -> bool {
        &&& self.board@.len() == self.size
        &&& forall|i: int| 0 <= i < self.size ==> (#[trigger] self.board@[i])@.len() == self.size
        &&& forall|i: int, j: int|
            0 <= i < self.size && 0 <= j < self.size ==> #[trigger] self.board@[i]@[j] >= 0
    }

    /// A move cannot overflow: every tile can still be doubled, and the score
    /// can still grow by the sum of the board.
    pub open spec fn fits(&self) -> bool {
        &&& forall|i: int, j: int|
            0 <= i < self.size && 0 <= j < self.size ==> #[trigger] self.board@[i]@[j] <= MAX_MERGEABLE
        &&& self.score + grid_total(self.grid(), self.size as int) <= u32::MAX
    }

    proof fn lemma_grid(&self)
        requires
            self.wf(),
        ensures
            square(self.grid(), self.size as int),
            forall|i: int, j: int|
                0 <= i < self.size && 0 <= j < self.size ==> #[trigger] self.grid()[i][j]
                    == self.board@[i]@[j] as int,
    {
        let g = self.grid();
        assert forall|i: int| 0 <= i < self.size implies #[trigger] g[i].len() == self.size by {}
    }

    /// A `size` by `size` board with a 2 on two different cells drawn at
    /// random, and a score of 0.
    pub fn new(size: usize) -> (r: Game)
        requires
            2 <= size,
        ensures
            r.wf(),
            r.size == size,
            r.score == 0,
            exists|i1: int, j1: int, i2: int, j2: int|
                0 <= i1 < size && 0 <= j1 < size && 0 <= i2 < size && 0 <= j2 < size && (i1 != i2
                    || j1 != j2) && r.grid() == #[trigger] put(put(zeros(size as int), i1, j1, 2), i2, j2, 2),
    {
        let mut board: Vec<Vec<i16>> = Vec::new();
        let mut i: usize = 0;
        while i < size
            invariant
                i <= size,
                board@.len() == i,
                forall|a: int| 0 <= a < i ==> ints((#[trigger] board@[a])@) == zeros(size as int)[a],
            decreases size - i,
        {
            let mut line: Vec<i16> = Vec::new();
            let mut j: usize = 0;
            while j < size
                invariant
                    j <= size,
                    ints(line@) =~= Seq::new(j as nat, |b: int| 0int),
                decreases size - j,
            {
                let ghost before = line@;
                line.push(0);
                assert(ints(line@) =~= ints(before).push(0));
                j = j + 1;
            }
            board.push(line);
            i = i + 1;
        }
        let mut rng = rand::thread_rng();
        let mut game = Game { board, size, score: 0 };
        let ghost z = zeros(size as int);
        proof {
            assert forall|a: int| 0 <= a < size implies (#[trigger] game.board@[a])@.len() == size by {
                assert(ints(game.board@[a]@).len() == z[a].len());
            }
            assert forall|a: int, b: int| 0 <= a < size && 0 <= b < size implies #[trigger] game.board@[a]@[b] >= 0 by {
                assert(ints(game.board@[a]@)[b] == z[a][b]);
            }
            assert(game.grid() =~~= z);
        }
        let cells = game.empty_cells();
        proof {
            game.lemma_grid();
            lemma_empties(z, size as int, size as int);
            assert(z[0][0] == 0);
        }
        let pick = random_below(&mut rng, cells.len());
        let ghost (i1, j1) = empties(z, size as int, size as int)[pick as int];
        game.place_new_cell(pick, false);
        let ghost g1 = game.grid();
        let cells = game.empty_cells();
        proof {
            game.lemma_grid();
            lemma_empties(z, size as int, size as int);
            lemma_empties(g1, size as int, size as int);
            let other: int = if i1 == 0 { 1 } else { 0 };
            assert(g1[other][j1] == 0);
        }
        let pick = random_below(&mut rng, cells.len());
        proof {
            lemma_empties(g1, size as int, size as int);
        }
        let ghost (i2, j2) = empties(g1, size as int, size as int)[pick as int];
        game.place_new_cell(pick, false);
        proof {
            assert(g1[i2][j2] == 0);
            assert(g1[i1][j1] == 2);
            assert(game.grid() == put(put(z, i1, j1, 2), i2, j2, 2));
        }
        game
    }

    /// Whether a move on this board is free of overflow, as `compute` requires.
    pub fn within_limits(&self) -> (r: bool)
        requires
            self.wf(),
        ensures
            r == self.fits(),
    {
        let n = self.size;
        let ghost g = self.grid();
        let ghost v = value_weight();
        let room: u64 = (u32::MAX - self.score) as u64;
        let mut acc: u64 = 0;
        let mut i: usize = 0;
        proof {
            self.lemma_grid();
            assert forall|a: int, b: int| 0 <= a < n && 0 <= b < n implies #[trigger] g[a][b] >= 0 by {
                assert(g[a][b] == self.board@[a]@[b]);
            }
        }
        while i < n
            invariant
                self.wf(),
                n == self.size,
                g == self.grid(),
                v == value_weight(),
                square(g, n as int),
                forall|a: int, b: int| 0 <= a < n && 0 <= b < n ==> #[trigger] g[a][b] >= 0,
                room == u32::MAX - self.score,
                i <= n,
                acc == rows_sum(g, v, i as int, n as int),
                acc <= room,
                forall|a: int, b: int|
                    0 <= a < i && 0 <= b < n ==> #[trigger] self.board@[a]@[b] <= MAX_MERGEABLE,
            decreases n - i,
        {
            let mut j: usize = 0;
            assert(g[i as int].subrange(0, 0) =~= Seq::<int>::empty());
            while j < n
                invariant
                    self.wf(),
                    n == self.size,
                    g == self.grid(),
                    v == value_weight(),
                    square(g, n as int),
                    forall|a: int, b: int| 0 <= a < n && 0 <= b < n ==> #[trigger] g[a][b] >= 0,
                    room == u32::MAX - self.score,
                    i < n,
                    j <= n,
                    acc == rows_sum(g, v, i as int, n as int) + sumf(g[i as int].subrange(0, j as int), v),
                    acc <= room,
                    forall|a: int, b: int|
                        0 <= a < i && 0 <= b < n ==> #[trigger] self.board@[a]@[b] <= MAX_MERGEABLE,
                    forall|b: int| 0 <= b < j ==> #[trigger] self.board@[i as int]@[b] <= MAX_MERGEABLE,
                decreases n - j,
            {
                let x = self.board[i][j];
                if x > MAX_MERGEABLE {
                    return false;
                }
                proof {
                    assert(g[i as int].subrange(0, j + 1).drop_last() =~= g[i as int].subrange(0, j as int));
                    assert(g[i as int][j as int] == x);
                }
                let next = acc + x as u64;
                if next > room {
                    proof {
                        lemma_sumf_prefix(g[i as int], j + 1);
                        lemma_rows_prefix(g, n as int, i as int + 1);
                        assert(g[i as int].subrange(0, n as int) =~= g[i as int]);
                    }
                    return false;
                }
                acc = next;
                j = j + 1;
            }
            assert(g[i as int].subrange(0, n as int) =~= g[i as int]);
            i = i + 1;
        }
        true
    }

    /// Whether the cell at row `i`, column `j` is empty.
    pub fn is_cell_empty(&self, i: usize, j: usize) -> (r: bool)
        requires
            self.wf(),
            i < self.size,
            j < self.size,
        ensures
            r == (self.grid()[i as int][j as int] == 0),
    {
        self.board[i][j] == 0
    }

    /// Whether every cell of the board holds a tile.
    pub fn is_board_full(&self) -> (r: bool)
        requires
            self.wf(),
        ensures
            r == full(self.grid(), self.size as int),
    {
        let n = self.size;
        let mut i: usize = 0;
        while i < n
            invariant
                self.wf(),
                n == self.size,
                i <= n,
                forall|a: int, b: int| 0 <= a < i && 0 <= b < n ==> #[trigger] self.grid()[a][b] != 0,
            decreases n - i,
        {
            let mut j: usize = 0;
            while j < n
                invariant
                    self.wf(),
                    n == self.size,
                    i < n,
                    j <= n,
                    forall|a: int, b: int| 0 <= a < i && 0 <= b < n ==> #[trigger] self.grid()[a][b] != 0,
                    forall|b: int| 0 <= b < j ==> #[trigger] self.grid()[i as int][b] != 0,
                decreases n - j,
            {
                if self.is_cell_empty(i, j) {
                    return false;
                }
                j = j + 1;
            }
            i = i + 1;
        }
        true
    }

    /// The empty cells of the board, in row-major order.
    pub fn empty_cells(&self) -> (r: Vec<(usize, usize)>)
        requires
            self.wf(),
        ensures
            r@.map_values(|p: (usize, usize)| (p.0 as int, p.1 as int)) == empties(
                self.grid(),
                self.size as int,
                self.size as int,
            ),
    {
        let n = self.size;
        let ghost g = self.grid();
        let mut r: Vec<(usize, usize)> = Vec::new();
        let mut i: usize = 0;
        while i < n
            invariant
                self.wf(),
                n == self.size,
                g == self.grid(),
                i <= n,
                r@.map_values(|p: (usize, usize)| (p.0 as int, p.1 as int)) == empties(g, n as int, i as int),
            decreases n - i,
        {
            let mut j: usize = 0;
            while j < n
                invariant
                    self.wf(),
                    n == self.size,
                    g == self.grid(),
                    i < n,
                    j <= n,
                    r@.map_values(|p: (usize, usize)| (p.0 as int, p.1 as int)) == empties(g, n as int, i as int)
                        + row_empties(g, i as int, j as int),
                decreases n - j,
            {
                let ghost before = r@;
                let ghost f = |p: (usize, usize)| (p.0 as int, p.1 as int);
                if self.is_cell_empty(i, j) {
                    r.push((i, j));
                    assert(r@.map_values(f) =~= before.map_values(f).push((i as int, j as int)));
                } else {
                    assert(r@ == before);
                }
                assert(row_empties(g, i as int, j as int + 1) == if g[i as int][j as int] == 0 {
                    row_empties(g, i as int, j as int).push((i as int, j as int))
                } else {
                    row_empties(g, i as int, j as int)
                });
                assert(r@.map_values(|p: (usize, usize)| (p.0 as int, p.1 as int)) =~= empties(g, n as int, i as int)
                    + row_empties(g, i as int, j as int + 1));
                j = j + 1;
            }
            i = i + 1;
        }
        r
    }

    /// Puts a new tile on the `pick`-th empty cell in row-major order: a 4 if
    /// `four`, else a 2.
    pub fn place_new_cell(&mut self, pick: usize, four: bool)
        requires
            old(self).wf(),
            pick < empties(old(self).grid(), old(self).size as int, old(self).size as int).len(),
        ensures
            final(self).wf(),
            final(self).size == old(self).size,
            final(self).score == old(self).score,
            ({
                let (i, j) = empties(old(self).grid(), old(self).size as int, old(self).size as int)[pick as int];
                final(self).grid() == put(old(self).grid(), i, j, if four { 4 } else { 2 })
            }),
    {
        let cells = self.empty_cells();
        proof {
            self.lemma_grid();
            lemma_empties(self.grid(), self.size as int, self.size as int);
            assert(cells@.map_values(|p: (usize, usize)| (p.0 as int, p.1 as int))[pick as int] == (
                cells@[pick as int].0 as int,
                cells@[pick as int].1 as int,
            ));
        }
        let (i, j) = cells[pick];
        let v: i16 = if four { 4 } else { 2 };
        let ghost g = self.grid();
        self.board[i][j] = v;
        proof {
            assert(self.grid() =~~= put(g, i as int, j as int, v as int));
        }
    }

    /// Puts a new tile on an empty cell drawn at random, a 4 one time in four
    /// and a 2 otherwise; a full board is left as it is.
    pub fn generate_new_cell(&mut self)
        requires
            old(self).wf(),
        ensures
            final(self).wf(),
            final(self).size == old(self).size,
            final(self).score == old(self).score,
            full(old(self).grid(), old(self).size as int) ==> final(self).grid() == old(self).grid(),
            !full(old(self).grid(), old(self).size as int) ==> exists|i: int, j: int, v: int|
                0 <= i < old(self).size && 0 <= j < old(self).size && old(self).grid()[i][j] == 0
                    && (v == 2 || v == 4) && final(self).grid() == #[trigger] put(old(self).grid(), i, j, v),
    {
        if !self.is_board_full() {
            let cells = self.empty_cells();
            proof {
                self.lemma_grid();
                lemma_empties(self.grid(), self.size as int, self.size as int);
            }
            let mut rng = rand::thread_rng();
            let pick = random_below(&mut rng, cells.len());
            let four = random_ratio(&mut rng, 1, 4);
            let ghost e = empties(self.grid(), self.size as int, self.size as int);
            let ghost before = self.grid();
            self.place_new_cell(pick, four);
            proof {
                let (i, j) = e[pick as int];
                let v: int = if four { 4 } else { 2 };
                assert(self.grid() == put(before, i, j, v));
            }
        }
    }

    /// Line `k` of the board for a move toward `action`, read from the edge
    /// that the tiles move toward.
    fn line_at(&self, action: Action, k: usize) -> (r: Vec<i16>)
        requires
            self.wf(),
            k < self.size,
        ensures
            ints(r@) == line_of(self.grid(), action, self.size as int, k as int),
    {
        let n = self.size;
        proof {
            self.lemma_grid();
        }
        let mut r: Vec<i16> = Vec::new();
        let mut t: usize = 0;
        while t < n
            invariant
                self.wf(),
                n == self.size,
                k < n,
                t <= n,
                ints(r@) =~= line_of(self.grid(), action, n as int, k as int).subrange(0, t as int),
            decreases n - t,
        {
            let (i, j) = match action {
                Action::Left => (k, t),
                Action::Right => (k, n - 1 - t),
                Action::Up => (t, k),
                Action::Down => (n - 1 - t, k),
            };
            let ghost before = r@;
            r.push(self.board[i][j]);
            proof {
                self.lemma_grid();
                assert(ints(r@) =~= ints(before) + seq![self.board@[i as int]@[j as int] as int]);
                assert(cell_of(action, n as int, k as int, t as int) == (i as int, j as int));
            }
            t = t + 1;
        }
        r
    }

    /// Moves every tile toward `action`'s edge, merging equal neighbours once
    /// per move, and adds the value of every merged tile to the score.
    /// Returns whether the board changed.
    pub fn compute(&mut self, action: Action) -> (changed: bool)
        requires
            old(self).wf(),
            old(self).fits(),
        ensures
            final(self).wf(),
            final(self).size == old(self).size,
            final(self).grid() == moved(old(self).grid(), action, old(self).size as int),
            changed == (final(self).grid() != old(self).grid()),
            final(self).score >= old(self).score,
            final(self).score == old(self).score + move_gain(
                old(self).grid(),
                action,
                old(self).size as int,
            ),
    {
        let n = self.size;
        let ghost g = self.grid();
        let ghost v = value_weight();
        proof {
            self.lemma_grid();
            lemma_lines_sum(g, action, n as int, v);
            assert forall|i: int, j: int| 0 <= i < n && 0 <= j < n implies #[trigger] g[i][j] >= 0 by {
                assert(g[i][j] == self.board@[i]@[j]);
            }
        }
        // Slide every line on its own.
        let mut lines: Vec<Vec<i16>> = Vec::new();
        let mut k: usize = 0;
        while k < n
            invariant
                self.board == old(self).board,
                self.size == n,
                self.wf(),
                forall|i: int, j: int|
                    0 <= i < n && 0 <= j < n ==> #[trigger] self.board@[i]@[j] <= MAX_MERGEABLE,
                old(self).score + grid_total(g, n as int) <= u32::MAX,
                forall|i: int, j: int| 0 <= i < n && 0 <= j < n ==> #[trigger] g[i][j] >= 0,
                g == self.grid(),
                v == value_weight(),
                square(g, n as int),
                lines_sum(g, action, n as int, v, n as int) == grid_total(g, n as int),
                k <= n,
                lines@.len() == k,
                forall|j: int|
                    0 <= j < k ==> ints((#[trigger] lines@[j])@) == slide(line_of(g, action, n as int, j)),
                self.score == old(self).score + gain_upto(g, action, n as int, k as int),
                0 <= gain_upto(g, action, n as int, k as int) <= lines_sum(g, action, n as int, v, k as int),
            decreases n - k,
        {
            let line = self.line_at(action, k);
            let ghost l = line_of(g, action, n as int, k as int);
            proof {
                assert forall|t: int| 0 <= t < l.len() implies l[t] >= 0 && l[t] <= MAX_MERGEABLE by {
                    let (i, j) = cell_of(action, n as int, k as int, t);
                    assert(l[t] == self.board@[i]@[j]);
                }
                lemma_slide(l);
                lemma_total_sumf(l);
                lemma_lines_sum_upto(g, action, n as int, k as int);
                lemma_lines_sum_upto(g, action, n as int, k as int + 1);
                assert(lines_sum(g, action, n as int, v, k + 1) == lines_sum(g, action, n as int, v, k as int)
                    + sumf(l, v));
                assert(ints(line@) == l);
                assert(total(l) <= u32::MAX);
            }
            let (slid, gain) = slide_line(&line);
            self.score = self.score + gain;
            lines.push(slid);
            k = k + 1;
        }
        // Lay the slid lines back onto the board.
        let mut board: Vec<Vec<i16>> = Vec::new();
        let mut r: usize = 0;
        let ghost m = moved(g, action, n as int);
        proof {
            assert forall|j: int| 0 <= j < n implies (#[trigger] lines@[j])@.len() == n by {
                lemma_line_nonneg(g, action, n as int, j);
                lemma_slide(line_of(g, action, n as int, j));
            }
            assert forall|i: int| 0 <= i < n implies (#[trigger] m[i]).len() == n by {}
        }
        while r < n
            invariant
                self.size == n,
                square(g, n as int),
                r <= n,
                lines@.len() == n,
                forall|j: int|
                    0 <= j < n ==> ints((#[trigger] lines@[j])@) == slide(line_of(g, action, n as int, j)),
                forall|j: int| 0 <= j < n ==> (#[trigger] lines@[j])@.len() == n,
                board@.len() == r,
                m == moved(g, action, n as int),
                m.len() == n,
                forall|i: int| 0 <= i < n ==> (#[trigger] m[i]).len() == n,
                forall|i: int| 0 <= i < r ==> ints((#[trigger] board@[i])@) == m[i],
            decreases n - r,
        {
            let mut row: Vec<i16> = Vec::new();
            let mut c: usize = 0;
            while c < n
                invariant
                    r < n,
                    c <= n,
                    m == moved(g, action, n as int),
                    m.len() == n,
                    forall|i: int| 0 <= i < n ==> (#[trigger] m[i]).len() == n,
                    lines@.len() == n,
                    forall|j: int|
                        0 <= j < n ==> ints((#[trigger] lines@[j])@) == slide(line_of(g, action, n as int, j)),
                    forall|j: int| 0 <= j < n ==> (#[trigger] lines@[j])@.len() == n,
                    ints(row@) =~= m[r as int].subrange(0, c as int),
                decreases n - c,
            {
                let (k, t) = match action {
                    Action::Left => (r, c),
                    Action::Right => (r, n - 1 - c),
                    Action::Up => (c, r),
                    Action::Down => (c, n - 1 - r),
                };
                let ghost before = row@;
                row.push(lines[k][t]);
                proof {
                    assert(line_index(action, n as int, r as int, c as int) == (k as int, t as int));
                    assert(ints(lines@[k as int]@)[t as int] == m[r as int][c as int]);
                    assert(ints(row@) =~= ints(before) + seq![m[r as int][c as int]]);
                }
                c = c + 1;
            }
            assert(m[r as int].subrange(0, n as int) =~= m[r as int]);
            board.push(row);
            r = r + 1;
        }
        let same = same_cells(&self.board, &board, n);
        self.board = board;
        proof {
            assert forall|k: int| 0 <= k < n implies nonneg(#[trigger] slide(line_of(g, action, n as int, k))) by {
                lemma_slide(line_of(g, action, n as int, k));
            }
            assert forall|i: int, j: int| 0 <= i < n && 0 <= j < n implies #[trigger] self.board@[i]@[j] >= 0 by {
                let (k, t) = line_index(action, n as int, i, j);
                lemma_slide(line_of(g, action, n as int, k));
                assert(ints(self.board@[i]@)[j] == m[i][j]);
            }
            assert(self.grid() =~= m);
            if same {
                assert forall|i: int| 0 <= i < n implies #[trigger] g[i] == m[i] by {
                    assert(g[i] =~= m[i]);
                }
                assert(g =~= m);
            } else {
                let (i, j) = choose|i: int, j: int|
                    0 <= i < n && 0 <= j < n && #[trigger] old(self).board@[i]@[j] != self.board@[i]@[j];
                assert(g[i][j] != m[i][j]);
            }
        }
        !same
    }
}

} // verus!
