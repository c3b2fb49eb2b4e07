//! Parsing a board from a textual grid: one line of digit characters per
//! row, the last line being the bottom row of the board.

use vstd::prelude::*;
use vstd::string::StringSliceAdditionalSpecFns;
use crate::board::{Board, LEVEL_CAP};

verus! {

/// Index right after the line that starts at `i`: the first newline at or
/// after `i`, or the end of the text.
pub open spec fn line_end(s: Seq<u8>, i: int) -> int
    decreases s.len() - i,
    when 0 <= i <= s.len()
{
    if i >= s.len() || s[i] == 10 {
        i
    } else {
        line_end(s, i + 1)
    }
}

/// The lines of the text from position `i` on, split on newlines, as the
/// standard line iterator yields them (no empty line after a final newline).
pub open spec fn split_from(s: Seq<u8>, i: int) -> Seq<Seq<u8>>
    decreases s.len() - i,
    when 0 <= i <= s.len()
    via split_from_decreases
{
    if i >= s.len() {
        Seq::empty()
    } else {
        let e = line_end(s, i);
        if e >= s.len() {
            seq![s.subrange(i, e)]
        } else {
            seq![s.subrange(i, e)] + split_from(s, e + 1)
        }
    }
}

pub proof fn lemma_line_end_bounds(s: Seq<u8>, i: int)
    requires
        0 <= i <= s.len(),
    ensures
        i <= line_end(s, i) <= s.len(),
    decreases s.len() - i,
{
    if !(i >= s.len() || s[i] == 10) {
        lemma_line_end_bounds(s, i + 1);
    }
}

#[via_fn]
proof fn split_from_decreases(s: Seq<u8>, i: int) {
    lemma_line_end_bounds(s, i);
}

/// First index at or after `i` that does not hold a space.
pub open spec fn trim_start_idx(l: Seq<u8>, i: int) -> int
    decreases l.len() - i,
    when 0 <= i <= l.len()
{
    if i >= l.len() || l[i] != 32 {
        i
    } else {
        trim_start_idx(l, i + 1)
    }
}

/// Last index at or before `j` such that no space stands right before it.
pub open spec fn trim_end_idx(l: Seq<u8>, j: int) -> int
    decreases j,
    when 0 <= j <= l.len()
{
    if j <= 0 || l[j - 1] != 32 {
        j
    } else {
        trim_end_idx(l, j - 1)
    }
}

/// The line with the spaces at both ends removed.
pub open spec fn trimmed(l: Seq<u8>) -> Seq<u8> {
    let a = trim_start_idx(l, 0);
    let b = trim_end_idx(l, l.len() as int);
    if a <= b {
        l.subrange(a, b)
    } else {
        Seq::empty()
    }
}

/// The rows a text describes: its lines, trimmed of spaces, in reverse
/// order, so that row 0 is the last text line.
pub open spec fn parsed_rows(s: Seq<u8>) -> Seq<Seq<u8>> {
    split_from(s, 0).map_values(|l: Seq<u8>| trimmed(l)).reverse()
}

/// The rows form a rectangular, nonempty grid of decimal digits.
pub open spec fn valid_grid(ls: Seq<Seq<u8>>) -> bool {
    &&& ls.len() >= 1
    &&& ls[0].len() >= 1
    &&& forall|i: int| 0 <= i < ls.len() ==> (#[trigger] ls[i]).len() == ls[0].len()
    &&& forall|i: int, j: int|
        0 <= i < ls.len() && 0 <= j < ls[i].len() ==> 48 <= #[trigger] ls[i][j] <= 57
}

/// Largest digit among the first `n` bytes of a digit line.
pub open spec fn line_max(l: Seq<u8>, n: int) -> int
    decreases n,
{
    if n <= 0 {
        0
    } else {
        let m = line_max(l, n - 1);
        let d = l[n - 1] - 48;
        if d > m {
            d
        } else {
            m
        }
    }
}

/// Largest digit among the first `n` rows of a digit grid.
pub open spec fn grid_max(ls: Seq<Seq<u8>>, n: int) -> int
    decreases n,
{
    if n <= 0 {
        0
    } else {
        let m = grid_max(ls, n - 1);
        let lm = line_max(ls[n - 1], ls[n - 1].len() as int);
        if lm > m {
            lm
        } else {
            m
        }
    }
}

impl Board {
    /// Builds a board from a multi-line block of digit characters. Each
    /// line, once its surrounding spaces are dropped, is one row, the last
    /// line being row 0 (the bottom); `highest` starts at the largest digit
    /// present, and at least at 2. Returns `None` when the text is empty,
    /// the lines differ in length or are empty, or a character is not a
    /// digit.
    #[verifier::loop_isolation(false)]
    #[verifier::rlimit(30)]
    pub fn from_str(s: &str) -> (r: Option<Board>)
        ensures
            r is Some <==> valid_grid(parsed_rows(s.spec_bytes())),
            r matches Some(b) ==> {
                let ls = parsed_rows(s.spec_bytes());
                &&& b.wf()
                &&& b.x == ls[0].len()
                &&& b.y == ls.len()
                &&& forall|c: int, rr: int|
                    b.in_bounds(c, rr) ==> b.at(c, rr) == ls[rr][c] - 48
                &&& b.highest_level() == if grid_max(ls, ls.len() as int) < 2 {
                    2int
                } else {
                    grid_max(ls, ls.len() as int)
                }
            },
    {
        let bytes = s.as_bytes();
        let ghost bs = s.spec_bytes();
        let n = bytes.len();
        let mut lines: Vec<Vec<u8>> = Vec::new();
        let ghost mut raw: Seq<Seq<u8>> = Seq::empty();
        let mut pos: usize = 0;
        while pos < n
            invariant
                pos <= n,
                split_from(bs, 0) == raw + split_from(bs, pos as int),
                lines@.len() == raw.len(),
                forall|k: int| 0 <= k < raw.len() ==> (#[trigger] lines@[k])@ == trimmed(raw[k]),
            decreases n - pos,
        {
            // find the end of the line that starts at `pos`
            let mut e: usize = pos;
            while e < n && bytes[e] != 10
                invariant
                    pos <= e <= n,
                    line_end(bs, pos as int) == line_end(bs, e as int),
                decreases n - e,
            {
                e = e + 1;
            }
            proof {
                assert(line_end(bs, pos as int) == e);
            }
            // trim the spaces at both ends
            let mut a: usize = pos;
            while a < e && bytes[a] == 32
                invariant
                    pos <= a <= e,
                    forall|t: int| pos <= t < a ==> bs[t] == 32,
                decreases e - a,
            {
                a = a + 1;
            }
            let mut b: usize = e;
            while b > a && bytes[b - 1] == 32
                invariant
                    a <= b <= e,
                    forall|t: int| b <= t < e ==> bs[t] == 32,
                decreases b,
            {
                b = b - 1;
            }
            // copy the trimmed line
            let mut line: Vec<u8> = Vec::new();
            let mut t: usize = a;
            while t < b
                invariant
                    a <= t <= b,
                    line@.len() == t - a,
                    forall|u: int| 0 <= u < t - a ==> line@[u] == bs[a + u],
                decreases b - t,
            {
                line.push(bytes[t]);
                t = t + 1;
            }
            proof {
                let lraw = bs.subrange(pos as int, e as int);
                assert(line@ =~= trimmed(lraw)) by {
                    lemma_trim_shape(bs, pos as int, e as int, a as int, b as int);
                }
                raw = raw.push(lraw);
                assert(split_from(bs, 0) =~= raw + (if e < n {
                    split_from(bs, e + 1)
                } else {
                    Seq::<Seq<u8>>::empty()
                }));
            }
            lines.push(line);
            if e == n {
                pos = n;
            } else {
                pos = e + 1;
            }
        }
        proof {
            assert(split_from(bs, 0) =~= raw);
        }
        let ghost ls = parsed_rows(bs);
        let y = lines.len();
        if y == 0 {
            return None;
        }
        proof {
            assert(ls.len() == raw.len());
            assert forall|k: int| 0 <= k < ls.len() implies ls[k] == (
            #[trigger] lines@[y - 1 - k])@ by {
                assert(ls[k] == trimmed(raw[y - 1 - k]));
            }
        }
        let x = lines[y - 1].len();
        if x == 0 {
            return None;
        }
        let mut tab: Vec<u32> = Vec::new();
        let mut maxd: u32 = 0;
        let mut rr: usize = 0;
        while rr < y
            invariant
                rr <= y,
                x >= 1,
                ls[0].len() == x,
                tab@.len() == rr * x,
                forall|i: int| 0 <= i < rr ==> (#[trigger] ls[i]).len() == x,
                forall|i: int, j: int|
                    0 <= i < rr && 0 <= j < x ==> 48 <= #[trigger] ls[i][j] <= 57,
                forall|i: int, j: int|
                    0 <= i < rr && 0 <= j < x ==> tab@[j + i * x] == ls[i][j] - 48,
                forall|t: int| 0 <= t < tab@.len() ==> #[trigger] tab@[t] <= 9,
                maxd == grid_max(ls, rr as int),
                maxd <= 9,
            decreases y - rr,
        {
            let line = &lines[y - 1 - rr];
            if line.len() != x {
                proof {
                    assert(ls[rr as int].len() != ls[0].len());
                }
                return None;
            }
            let mut c: usize = 0;
            while c < x
                invariant
                    c <= x,
                    line@ == ls[rr as int],
                    line@.len() == x,
                    tab@.len() == rr * x + c,
                    forall|i: int| 0 <= i < rr ==> (#[trigger] ls[i]).len() == x,
                    forall|i: int, j: int|
                        0 <= i < rr && 0 <= j < x ==> 48 <= #[trigger] ls[i][j] <= 57,
                    forall|i: int, j: int|
                        0 <= i < rr && 0 <= j < x ==> tab@[j + i * x] == ls[i][j] - 48,
                    forall|j: int| 0 <= j < c ==> 48 <= #[trigger] ls[rr as int][j] <= 57,
                    forall|j: int| 0 <= j < c ==> tab@[j + rr * x] == ls[rr as int][j] - 48,
                    forall|t: int| 0 <= t < tab@.len() ==> #[trigger] tab@[t] <= 9,
                    maxd == if line_max(ls[rr as int], c as int) > grid_max(ls, rr as int) {
                        line_max(ls[rr as int], c as int)
                    } else {
                        grid_max(ls, rr as int)
                    },
                    maxd <= 9,
                decreases x - c,
            {
                let ch = line[c];
                if ch < 48 || ch > 57 {
                    proof {
                        assert(!(48 <= ls[rr as int][c as int] <= 57));
                    }
                    return None;
                }
                let d = (ch - 48) as u32;
                proof {
                    lemma_mul_bounds(rr as int, c as int, x as int, y as int);
                }
                tab.push(d);
                proof {
                    assert forall|i: int, j: int|
                        0 <= i < rr && 0 <= j < x implies tab@[j + i * x] == ls[i][j] - 48 by {
                        lemma_mul_bounds(i, j, x as int, rr as int);
                    }
                }
                if d > maxd {
                    maxd = d;
                }
                c = c + 1;
            }
            proof {
                lemma_mul_step(rr as int, x as int);
                assert forall|i: int, j: int|
                    0 <= i < rr + 1 && 0 <= j < x implies tab@[j + i * x] == ls[i][j] - 48 by {
                    lemma_mul_bounds(i, j, x as int, rr + 1);
                }
            }
            rr = rr + 1;
        }
        let highest: u32 = if maxd < 2 {
            2
        } else {
            maxd
        };
        let b = Board { x, y, tab, highest };
        proof {
            assert(y * x == x * y) by (nonlinear_arith);
            assert(b.wf());
            assert forall|c: int, rr2: int| b.in_bounds(c, rr2) implies b.at(c, rr2) == ls[rr2][c]
                - 48 by {
                assert(tab@[c + rr2 * x] == ls[rr2][c] - 48);
            }
            assert(valid_grid(ls));
        }
        Some(b)
    }
}

/// After scanning, the trimmed window `[a, b)` of the raw line `[i, e)` of
/// `s` is exactly what the trim of that line describes.
proof fn lemma_trim_shape(s: Seq<u8>, i: int, e: int, a: int, b: int)
    requires
        0 <= i <= e <= s.len(),
        i <= a <= e,
        a <= b <= e,
        forall|t: int| i <= t < a ==> s[t] == 32,
        forall|t: int| b <= t < e ==> s[t] == 32,
        a < e ==> s[a] != 32,
        b > a ==> s[b - 1] != 32,
    ensures
        trimmed(s.subrange(i, e)) == s.subrange(a, b),
{
    let l = s.subrange(i, e);
    lemma_trim_start(l, 0, a - i);
    if a == e {
        // the whole line is spaces: both sides are empty
        assert(b == a);
        if l.len() == 0 {
            assert(trimmed(l) =~= s.subrange(a, b));
        } else {
            assert(l[l.len() - 1] == 32);
            lemma_trim_end_le(l, l.len() - 1);
            assert(trim_end_idx(l, l.len() as int) == trim_end_idx(l, l.len() - 1));
            assert(trim_start_idx(l, 0) > trim_end_idx(l, l.len() as int));
            assert(trimmed(l) =~= s.subrange(a, b));
        }
    } else {
        assert(b > a) by {
            if b == a {
                assert(s[a] == 32);
            }
        }
        lemma_trim_end(l, l.len() as int, b - i);
        assert(trimmed(l) =~= s.subrange(a, b));
    }
}

proof fn lemma_trim_end_le(l: Seq<u8>, j: int)
    requires
        0 <= j <= l.len(),
    ensures
        0 <= trim_end_idx(l, j) <= j,
    decreases j,
{
    if !(j <= 0 || l[j - 1] != 32) {
        lemma_trim_end_le(l, j - 1);
    }
}

proof fn lemma_trim_start(l: Seq<u8>, i: int, a: int)
    requires
        0 <= i <= a <= l.len(),
        forall|t: int| i <= t < a ==> l[t] == 32,
        a < l.len() ==> l[a] != 32,
    ensures
        trim_start_idx(l, i) == a,
    decreases a - i,
{
    if i < a {
        lemma_trim_start(l, i + 1, a);
    }
}

proof fn lemma_trim_end(l: Seq<u8>, j: int, b: int)
    requires
        0 <= b <= j <= l.len(),
        forall|t: int| b <= t < j ==> l[t] == 32,
        b > 0 ==> l[b - 1] != 32,
    ensures
        trim_end_idx(l, j) == b,
    decreases j - b,
{
    if j > b {
        lemma_trim_end(l, j - 1, b);
    }
}

proof fn lemma_mul_bounds(r: int, c: int, x: int, y: int)
    requires
        0 <= r < y,
        0 <= c < x,
    ensures
        r * x + c < y * x,
        r * x + c >= 0,
{
    assert(r * x + c < y * x && r * x + c >= 0) by (nonlinear_arith)
        requires
            0 <= r < y,
            0 <= c < x,
    ;
}

proof fn lemma_mul_step(r: int, x: int)
    ensures
        r * x + x == (r + 1) * x,
{
    assert(r * x + x == (r + 1) * x) by (nonlinear_arith);
}

} // verus!
