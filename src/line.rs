//! One line of the board: sliding its tiles toward index 0 and merging
//! equal neighbours once per move.
use vstd::prelude::*;

verus! {

/// The largest tile value that can still be doubled within an `i16`.
pub const MAX_MERGEABLE: i16 = 16383;

/// A line of cells, read as mathematical integers.
pub open spec fn ints(v: Seq<i16>) -> Seq<int> {
    v.map_values(|x: i16| x as int)
}

/// The non-empty cells of a line, in order.
pub open spec fn tiles(s: Seq<int>) -> Seq<int>
    decreases s.len(),
{
    if s.len() == 0 {
        seq![]
    } else if s[0] != 0 {
        seq![s[0]] + tiles(s.subrange(1, s.len() as int))
    } else {
        tiles(s.subrange(1, s.len() as int))
    }
}

/// Packed tiles after merging: each pair of equal neighbours, taken from the
/// front, becomes one tile of twice the value, and a merged tile merges no further.
pub open spec fn merged(t: Seq<int>) -> Seq<int>
    decreases t.len(),
{
    if t.len() < 2 {
        t
    } else if t[0] == t[1] {
        seq![2 * t[0]] + merged(t.subrange(2, t.len() as int))
    } else {
        seq![t[0]] + merged(t.subrange(1, t.len() as int))
    }
}

/// The sum of the values of the tiles that `merged` forms.
pub open spec fn merge_gain(t: Seq<int>) -> int
    decreases t.len(),
{
    if t.len() < 2 {
        0
    } else if t[0] == t[1] {
        2 * t[0] + merge_gain(t.subrange(2, t.len() as int))
    } else {
        merge_gain(t.subrange(1, t.len() as int))
    }
}

/// The number of merges that `merged` performs.
pub open spec fn merges(t: Seq<int>) -> nat
    decreases t.len(),
{
    if t.len() < 2 {
        0
    } else if t[0] == t[1] {
        1 + merges(t.subrange(2, t.len() as int))
    } else {
        merges(t.subrange(1, t.len() as int))
    }
}

/// `s` followed by empty cells up to length `n`.
pub open spec fn pad(s: Seq<int>, n: nat) -> Seq<int> {
    s + Seq::new((n - s.len()) as nat, |i: int| 0int)
}

/// The line after a move toward index 0.
pub open spec fn slide(s: Seq<int>) -> Seq<int> {
    pad(merged(tiles(s)), s.len())
}

/// The score that a move toward index 0 earns on this line.
pub open spec fn slide_gain(s: Seq<int>) -> int {
    merge_gain(tiles(s))
}

/// The sum of all values of a line.
pub open spec fn total(s: Seq<int>) -> int
    decreases s.len(),
{
    if s.len() == 0 {
        0
    } else {
        s[0] + total(s.subrange(1, s.len() as int))
    }
}

pub open spec fn nonneg(s: Seq<int>) -> bool {
    forall|i: int| 0 <= i < s.len() ==> s[i] >= 0
}

pub open spec fn positive(s: Seq<int>) -> bool {
    forall|i: int| 0 <= i < s.len() ==> s[i] > 0
}

/// No two neighbouring tiles of the line hold the same value.
pub open spec fn no_equal_neighbours(s: Seq<int>) -> bool {
    forall|i: int| 0 <= i < s.len() - 1 && #[trigger] s[i] != 0 ==> s[i] != s[i + 1]
}

pub open spec fn at_most(s: Seq<int>, b: int) -> bool {
    forall|i: int| 0 <= i < s.len() ==> s[i] <= b
}

pub proof fn lemma_tiles(s: Seq<int>, b: int)
    ensures
        tiles(s).len() <= s.len(),
        forall|i: int| 0 <= i < tiles(s).len() ==> tiles(s)[i] != 0,
        nonneg(s) ==> positive(tiles(s)),
        total(tiles(s)) == total(s),
        at_most(s, b) ==> at_most(tiles(s), b),
    decreases s.len(),
{
    if s.len() > 0 {
        let rest = s.subrange(1, s.len() as int);
        lemma_tiles(rest, b);
        if at_most(s, b) {
            assert forall|i: int| 0 <= i < rest.len() implies rest[i] <= b by {
                assert(rest[i] == s[i + 1]);
            }
        }
        if nonneg(s) {
            assert forall|i: int| 0 <= i < rest.len() implies rest[i] >= 0 by {
                assert(rest[i] == s[i + 1]);
            }
        }
        if s[0] != 0 {
            let t = tiles(rest);
            assert(tiles(s) == seq![s[0]] + t);
            assert((seq![s[0]] + t).subrange(1, 1 + t.len() as int) =~= t);
        }
    }
}

pub proof fn lemma_merged(t: Seq<int>)
    ensures
        merged(t).len() + merges(t) == t.len(),
        positive(t) ==> positive(merged(t)),
        positive(t) ==> 0 <= merge_gain(t) <= total(t),
        positive(t) ==> total(merged(t)) == total(t),
    decreases t.len(),
{
    if t.len() >= 2 {
        let k: int = if t[0] == t[1] { 2 } else { 1 };
        let rest = t.subrange(k, t.len() as int);
        lemma_merged(rest);
        let m = merged(rest);
        if positive(t) {
            assert forall|i: int| 0 <= i < rest.len() implies rest[i] > 0 by {
                assert(rest[i] == t[i + k]);
            }
        }
        let h = if t[0] == t[1] { 2 * t[0] } else { t[0] };
        assert(merged(t) == seq![h] + m);
        assert((seq![h] + m).subrange(1, 1 + m.len() as int) =~= m);
        let r1 = t.subrange(1, t.len() as int);
        if t[0] == t[1] {
            assert(r1.subrange(1, r1.len() as int) =~= rest);
            assert(total(t) == t[0] + total(r1));
            assert(total(r1) == r1[0] + total(rest));
        } else {
            assert(total(t) == t[0] + total(rest));
        }
    } else if t.len() == 1 {
        assert(total(t) == t[0] + total(t.subrange(1, 1)));
    }
}

pub proof fn lemma_slide(s: Seq<int>)
    requires
        nonneg(s),
    ensures
        slide(s).len() == s.len(),
        nonneg(slide(s)),
        0 <= slide_gain(s) <= total(s),
{
    lemma_tiles(s, 0);
    lemma_merged(tiles(s));
    let m = merged(tiles(s));
    assert forall|i: int| 0 <= i < slide(s).len() implies slide(s)[i] >= 0 by {
        if i < m.len() {
            assert(slide(s)[i] == m[i]);
        }
    }
}

proof fn lemma_tiles_zeros(z: Seq<int>)
    requires
        forall|i: int| 0 <= i < z.len() ==> z[i] == 0,
    ensures
        tiles(z) == Seq::<int>::empty(),
    decreases z.len(),
{
    if z.len() > 0 {
        lemma_tiles_zeros(z.subrange(1, z.len() as int));
    }
}

/// Padding a line of tiles with empty cells adds no tile.
pub proof fn lemma_tiles_pad(m: Seq<int>, n: nat)
    requires
        positive(m),
        m.len() <= n,
    ensures
        tiles(pad(m, n)) == m,
    decreases m.len(),
{
    let p = pad(m, n);
    if m.len() == 0 {
        lemma_tiles_zeros(p);
        assert(p.len() == 0 || p[0] == 0);
    } else {
        let m1 = m.subrange(1, m.len() as int);
        lemma_tiles_pad(m1, (n - 1) as nat);
        assert(p.subrange(1, p.len() as int) =~= pad(m1, (n - 1) as nat));
        assert(seq![m[0]] + m1 =~= m);
    }
}

/// The tiles of a slid line are the merged tiles of the line.
pub proof fn lemma_tiles_slide(s: Seq<int>)
    requires
        nonneg(s),
    ensures
        tiles(slide(s)) == merged(tiles(s)),
        positive(merged(tiles(s))),
{
    lemma_tiles(s, 0);
    lemma_merged(tiles(s));
    lemma_tiles_pad(merged(tiles(s)), s.len());
}

/// Merging tiles without equal neighbours changes nothing and earns nothing.
pub proof fn lemma_merged_distinct(m: Seq<int>)
    requires
        forall|i: int| 0 <= i < m.len() - 1 ==> #[trigger] m[i] != m[i + 1],
    ensures
        merged(m) == m,
        merge_gain(m) == 0,
        merges(m) == 0,
    decreases m.len(),
{
    if m.len() >= 2 {
        let m1 = m.subrange(1, m.len() as int);
        assert forall|i: int| 0 <= i < m1.len() - 1 implies #[trigger] m1[i] != m1[i + 1] by {
            assert(m1[i] == m[i + 1] && m1[i + 1] == m[i + 2]);
        }
        lemma_merged_distinct(m1);
        assert(m[0] != m[1]);
        assert(seq![m[0]] + m1 =~= m);
    }
}

/// Slides one line toward index 0: returns the new line and the score it earns.
pub fn slide_line(line: &Vec<i16>) -> (r: (Vec<i16>, u32))
    requires
        nonneg(ints(line@)),
        at_most(ints(line@), MAX_MERGEABLE as int),
        total(ints(line@)) <= u32::MAX,
    ensures
        ints(r.0@) == slide(ints(line@)),
        r.1 == slide_gain(ints(line@)),
{
    let ghost s = ints(line@);
    let n = line.len();
    proof {
        lemma_tiles(s, MAX_MERGEABLE as int);
    }
    // Gather the tiles in order.
    let mut packed: Vec<i16> = Vec::new();
    let mut i: usize = 0;
    assert(s.subrange(0, n as int) =~= s);
    assert(ints(packed@) + tiles(s) =~= tiles(s));
    while i < n
        invariant
            n == line.len(),
            s == ints(line@),
            i <= n,
            tiles(s) == ints(packed@) + tiles(s.subrange(i as int, n as int)),
        decreases n - i,
    {
        let ghost rest = s.subrange(i as int, n as int);
        assert(rest.subrange(1, rest.len() as int) =~= s.subrange(i + 1, n as int));
        if line[i] != 0 {
            let ghost before = packed@;
            packed.push(line[i]);
            assert(ints(packed@) =~= ints(before) + seq![line@[i as int] as int]);
        }
        i = i + 1;
    }
    assert(s.subrange(n as int, n as int) =~= Seq::<int>::empty());
    assert(ints(packed@) =~= tiles(s));
    let ghost t = tiles(s);
    proof {
        lemma_merged(t);
    }
    // Merge equal neighbours, front first.
    let m = packed.len();
    let mut out: Vec<i16> = Vec::new();
    let mut gain: u32 = 0;
    let mut k: usize = 0;
    assert(t.subrange(0, m as int) =~= t);
    assert(ints(out@) + merged(t) =~= merged(t));
    while k < m
        invariant
            m == packed.len(),
            t == ints(packed@),
            t == tiles(s),
            positive(t),
            at_most(t, MAX_MERGEABLE as int),
            merge_gain(t) <= total(s) <= u32::MAX,
            k <= m,
            merged(t) == ints(out@) + merged(t.subrange(k as int, m as int)),
            merge_gain(t) == gain + merge_gain(t.subrange(k as int, m as int)),
        decreases m - k,
    {
        let ghost rest = t.subrange(k as int, m as int);
        proof {
            lemma_merged(rest);
            assert forall|j: int| 0 <= j < rest.len() implies rest[j] > 0 by {
                assert(rest[j] == t[j + k]);
            }
        }
        if k + 1 < m && packed[k] == packed[k + 1] {
            let ghost rest2 = rest.subrange(2, rest.len() as int);
            assert(rest2 =~= t.subrange(k + 2, m as int));
            proof {
                lemma_merged(rest2);
                assert forall|j: int| 0 <= j < rest2.len() implies rest2[j] > 0 by {
                    assert(rest2[j] == t[j + k + 2]);
                }
            }
            let v = 2 * packed[k];
            let ghost before = out@;
            out.push(v);
            gain = gain + v as u32;
            assert(ints(out@) =~= ints(before) + seq![v as int]);
            k = k + 2;
        } else {
            assert(rest.subrange(1, rest.len() as int) =~= t.subrange(k + 1, m as int));
            if k + 1 >= m {
                assert(rest.len() == 1);
                assert(t.subrange(k + 1, m as int) =~= Seq::<int>::empty());
            }
            let ghost before = out@;
            out.push(packed[k]);
            assert(ints(out@) =~= ints(before) + seq![packed@[k as int] as int]);
            k = k + 1;
        }
    }
    assert(t.subrange(m as int, m as int) =~= Seq::<int>::empty());
    assert(ints(out@) =~= merged(t));
    // Fill the rest of the line with empty cells.
    let ghost mt = merged(t);
    while out.len() < n
        invariant
            mt.len() <= n,
            mt.len() <= out.len() <= n,
            ints(out@) =~= pad(mt, out.len() as nat),
        decreases n - out.len(),
    {
        let ghost before = out@;
        out.push(0);
        assert(ints(out@) =~= ints(before) + seq![0int]);
        assert(ints(out@) =~= pad(mt, out.len() as nat));
    }
    (out, gain)
}

} // verus!
