//! The board and the score as text, for display.
use vstd::prelude::*;
use vstd::string::StringExecFns;
use crate::game::Game;
use crate::line::ints;

verus! {

/// The width that each cell's value is right-aligned to.
pub const CELL_WIDTH: usize = 4;

pub open spec fn digit_char(d: int) -> char {
    if d == 0 {
        '0'
    } else if d == 1 {
        '1'
    } else if d == 2 {
        '2'
    } else if d == 3 {
        '3'
    } else if d == 4 {
        '4'
    } else if d == 5 {
        '5'
    } else if d == 6 {
        '6'
    } else if d == 7 {
        '7'
    } else if d == 8 {
        '8'
    } else {
        '9'
    }
}

/// The decimal digits of `n`, most significant first.
pub open spec fn decimal(n: nat) -> Seq<char>
    decreases n,
{
    if n < 10 {
        seq![digit_char(n as int)]
    } else {
        decimal(n / 10) + seq![digit_char((n % 10) as int)]
    }
}

/// `s` preceded by spaces up to width `w`.
pub open spec fn right_aligned(s: Seq<char>, w: nat) -> Seq<char> {
    if s.len() >= w {
        s
    } else {
        Seq::new((w - s.len()) as nat, |i: int| ' ') + s
    }
}

/// One row of the board: each value right-aligned and followed by a space.
pub open spec fn row_text(row: Seq<int>) -> Seq<char>
    decreases row.len(),
{
    if row.len() == 0 {
        seq![]
    } else {
        row_text(row.drop_last()) + right_aligned(decimal(row.last() as nat), CELL_WIDTH as nat) + seq![' ']
    }
}

/// The first `r` rows of the board, each ended by a line break.
pub open spec fn rows_text(g: Seq<Seq<int>>, r: int) -> Seq<char>
    decreases r,
{
    if r <= 0 {
        seq![]
    } else {
        rows_text(g, r - 1) + row_text(g[r - 1]) + seq!['\r', '\n']
    }
}

/// A header line with the score, a blank line, then the rows of the board.
pub open spec fn snapshot_text(score: nat, g: Seq<Seq<int>>, n: int) -> Seq<char> {
    seq!['S', 'c', 'o', 'r', 'e', ':', ' '] + decimal(score) + seq!['\r', '\n', '\n'] + rows_text(g, n)
}

fn digit_str(d: u32) -> (r: &'static str)
    requires
        d < 10,
    ensures
        r@ == seq![digit_char(d as int)],
{
    proof {
        reveal_strlit("0");
        reveal_strlit("1");
        reveal_strlit("2");
        reveal_strlit("3");
        reveal_strlit("4");
        reveal_strlit("5");
        reveal_strlit("6");
        reveal_strlit("7");
        reveal_strlit("8");
        reveal_strlit("9");
    }
    match d {
        0 => "0",
        1 => "1",
        2 => "2",
        3 => "3",
        4 => "4",
        5 => "5",
        6 => "6",
        7 => "7",
        8 => "8",
        _ => "9",
    }
}

/// Appends the decimal digits of `n`.
fn push_decimal(out: &mut String, n: u32)
    ensures
        final(out)@ == old(out)@ + decimal(n as nat),
    decreases n,
{
    if n >= 10 {
        push_decimal(out, n / 10);
    }
    out.append(digit_str(n % 10));
    proof {
        if n < 10 {
            assert(decimal(n as nat) == seq![digit_char(n as int)]);
        }
    }
}

/// The number of decimal digits of `n`.
fn decimal_len(n: u32) -> (r: u64)
    ensures
        r == decimal(n as nat).len(),
        1 <= r <= n as u64 + 1,
    decreases n,
{
    if n >= 10 {
        decimal_len(n / 10) + 1
    } else {
        1
    }
}

/// Appends `n` right-aligned to `CELL_WIDTH`, then a space.
fn push_cell(out: &mut String, n: u32)
    ensures
        final(out)@ == old(out)@ + right_aligned(decimal(n as nat), CELL_WIDTH as nat) + seq![' '],
{
    let len = decimal_len(n);
    let ghost start = out@;
    let mut k: u64 = len;
    while k < CELL_WIDTH as u64
        invariant
            len == decimal(n as nat).len(),
            len <= k,
            k <= CELL_WIDTH || k == len,
            out@ == start + Seq::new((k - len) as nat, |i: int| ' '),
        decreases CELL_WIDTH - k,
    {
        proof {
            reveal_strlit(" ");
        }
        out.append(" ");
        k = k + 1;
        assert(out@ =~= start + Seq::new((k - len) as nat, |i: int| ' '));
    }
    let ghost spaces = out@;
    push_decimal(out, n);
    proof {
        reveal_strlit(" ");
    }
    out.append(" ");
    if len < CELL_WIDTH as u64 {
        assert(spaces =~= start + Seq::new((CELL_WIDTH - len) as nat, |i: int| ' '));
    } else {
        assert(spaces =~= start);
    }
    assert(out@ =~= start + right_aligned(decimal(n as nat), CELL_WIDTH as nat) + seq![' ']);
}

impl Game {
    /// The score and the board as text: `Score: <score>`, a blank line, then
    /// one line per row with each value right-aligned to four places.
    pub fn snapshot(&self) -> (r: String)
        requires
            self.wf(),
        ensures
            r@ == snapshot_text(self.score as nat, self.grid(), self.size as int),
    {
        let n = self.size;
        let mut out = String::from_str("Score: ");
        proof {
            reveal_strlit("Score: ");
            reveal_strlit("\r\n\n");
            reveal_strlit("\r\n");
        }
        push_decimal(&mut out, self.score);
        out.append("\r\n\n");
        let ghost head = out@;
        assert(head =~= seq!['S', 'c', 'o', 'r', 'e', ':', ' '] + decimal(self.score as nat) + seq!['\r', '\n', '\n']);
        let mut i: usize = 0;
        while i < n
            invariant
                self.wf(),
                n == self.size,
                i <= n,
                out@ == head + rows_text(self.grid(), i as int),
            decreases n - i,
        {
            let ghost before = out@;
            let mut j: usize = 0;
            assert(ints(self.board@[i as int]@).subrange(0, 0) =~= Seq::<int>::empty());
            while j < n
                invariant
                    self.wf(),
                    n == self.size,
                    i < n,
                    j <= n,
                    out@ == before + row_text(ints(self.board@[i as int]@).subrange(0, j as int)),
                decreases n - j,
            {
                let v = self.board[i][j];
                push_cell(&mut out, v as u32);
                let ghost row = ints(self.board@[i as int]@);
                assert(row.subrange(0, j + 1).drop_last() =~= row.subrange(0, j as int));
                assert(out@ =~= before + row_text(row.subrange(0, j + 1)));
                j = j + 1;
            }
            proof {
                reveal_strlit("\r\n");
            }
            out.append("\r\n");
            assert(ints(self.board@[i as int]@).subrange(0, n as int) =~= self.grid()[i as int]);
            assert(out@ =~= head + rows_text(self.grid(), i + 1));
            i = i + 1;
        }
        out
    }
}

} // verus!
