//! The board: a dense grid of tile levels with bounds-checked access.

use vstd::prelude::*;
use vstd::pervasive::VecAdditionalExecFns;

verus! {

/// Practical ceiling on tile levels. A stored level never exceeds it, so the
/// next level after a merge always fits in a `u32`. Levels anywhere near the
/// ceiling are unreachable in play: producing level `n + 1` takes at least
/// three tiles of level `n`.
pub const LEVEL_CAP: u32 = 1_000_000_000;

/// A rectangular grid of tile levels. Level 0 means the cell is empty.
///
/// The grid is stored as a flat vector of length `x * y`, indexed by
/// `col + row * x`; row 0 is the bottom of the board (gravity pulls toward
/// row 0).
#[derive(Debug)]
pub struct Board {
    /// Width: number of columns.
    pub x: usize,
    /// Height: number of rows.
    pub y: usize,
    /// The flat grid, cell `(col, row)` at index `col + row * x`.
    pub tab: Vec<u32>,
    /// Highest tile level produced on this board so far (at least 2); bounds
    /// the values that `get_random_value` may draw.
    pub highest: u32,
}

impl Board {
    /// The `highest` field, for use in contracts.
    pub open spec fn highest_level(&self) -> u32 {
        self.highest
    }

    /// Whether `(c, r)` is a valid cell coordinate.
    pub open spec fn in_bounds(&self, c: int, r: int) -> bool {
        0 <= c < self.x && 0 <= r < self.y
    }

    /// The level stored at cell `(c, r)`.
    pub open spec fn at(&self, c: int, r: int) -> u32 {
        self.tab@[c + r * self.x]
    }

    /// Well-formedness: positive dimensions, a grid of exactly `x * y`
    /// cells, every level at most `LEVEL_CAP`, and `highest` in range.
    pub open spec fn wf(&self) -> bool {
        &&& 1 <= self.x
        &&& 1 <= self.y
        &&& self.tab@.len() == self.x * self.y
        &&& forall|i: int| 0 <= i < self.tab@.len() ==> self.tab@[i] <= LEVEL_CAP
        &&& 2 <= self.highest_level() <= LEVEL_CAP
    }
}

/// The two boards have the same dimensions.
pub open spec fn same_dims(a: Board, b: Board) -> bool {
    a.x == b.x && b.y == a.y && a.tab@.len() == b.tab@.len()
}

/// The two boards look the same: same dimensions, same grid contents, same
/// highest level.
pub open spec fn same_board(a: Board, b: Board) -> bool {
    same_dims(a, b) && a.tab@ == b.tab@ && a.highest_level() == b.highest_level()
}

/// A valid cell's flat index lies inside the grid.
pub proof fn lemma_grid_index(c: int, r: int, xs: int, ys: int)
    requires
        0 <= c < xs,
        0 <= r < ys,
    ensures
        0 <= c + r * xs < xs * ys,
{
    assert(0 <= c + r * xs < xs * ys) by (nonlinear_arith)
        requires
            0 <= c < xs,
            0 <= r < ys,
    ;
}

/// Distinct cells have distinct flat indices.
pub proof fn lemma_grid_index_injective(c1: int, r1: int, c2: int, r2: int, xs: int)
    requires
        0 <= c1 < xs,
        0 <= c2 < xs,
        0 <= r1,
        0 <= r2,
        c1 + r1 * xs == c2 + r2 * xs,
    ensures
        c1 == c2 && r1 == r2,
{
    assert(c1 == c2 && r1 == r2) by (nonlinear_arith)
        requires
            0 <= c1 < xs,
            0 <= c2 < xs,
            0 <= r1,
            0 <= r2,
            c1 + r1 * xs == c2 + r2 * xs,
    ;
}

impl Board {
    /// Creates an empty `x` by `y` board with `highest` set to 2.
    ///
    /// Positive dimensions are a caller obligation, as is a grid size that
    /// fits in memory.
    pub fn new(x: usize, y: usize) -> (b: Board)
        requires
            1 <= x,
            1 <= y,
            x * y <= usize::MAX,
        ensures
            b.wf(),
            b.x == x,
            b.y == y,
            b.highest_level() == 2,
            forall|c: int, r: int| b.in_bounds(c, r) ==> b.at(c, r) == 0,
    {
        let n = x * y;
        let mut tab: Vec<u32> = Vec::new();
        let mut i: usize = 0;
        while i < n
            invariant
                i <= n,
                tab@.len() == i,
                forall|j: int| 0 <= j < i ==> tab@[j] == 0,
            decreases n - i,
        {
            tab.push(0);
            i = i + 1;
        }
        let b = Board { x, y, tab, highest: 2 };
        proof {
            assert forall|c: int, r: int| b.in_bounds(c, r) implies b.at(c, r) == 0 by {
                lemma_grid_index(c, r, x as int, y as int);
            }
        }
        b
    }

    /// Reads the level at cell `(x, y)`. Coordinates must be in bounds: an
    /// out-of-range coordinate is a caller error, not a recoverable one.
    pub fn get(&self, x: usize, y: usize) -> (v: u32)
        requires
            self.wf(),
            x < self.x,
            y < self.y,
        ensures
            v == self.at(x as int, y as int),
            v <= LEVEL_CAP,
    {
        // the length, a usize, bounds the flat index, so it cannot overflow
        let n = self.tab.len();
        proof {
            lemma_grid_index(x as int, y as int, self.x as int, self.y as int);
            assert(x + y * self.x < n);
        }
        self.tab[x + y * self.x]
    }

    /// Writes `value` at cell `(x, y)`, leaving every other cell, the
    /// dimensions, and `highest` unchanged. Coordinates must be in bounds.
    pub fn set(&mut self, x: usize, y: usize, value: u32)
        requires
            old(self).wf(),
            x < old(self).x,
            y < old(self).y,
            value <= LEVEL_CAP,
        ensures
            final(self).wf(),
            final(self).x == old(self).x,
            final(self).y == old(self).y,
            final(self).highest_level() == old(self).highest_level(),
            final(self).tab@ == old(self).tab@.update(x + y * old(self).x, value),
            final(self).at(x as int, y as int) == value,
            forall|c: int, r: int|
                old(self).in_bounds(c, r) && !(c == x && r == y) ==> final(self).at(c, r) == old(
                    self,
                ).at(c, r),
    {
        // the length, a usize, bounds the flat index, so it cannot overflow
        let n = self.tab.len();
        proof {
            lemma_grid_index(x as int, y as int, self.x as int, self.y as int);
            assert(x + y * self.x < n);
        }
        let ghost prev = *self;
        self.tab.set(x + y * self.x, value);
        proof {
            assert forall|c: int, r: int|
                prev.in_bounds(c, r) && !(c == x && r == y) implies self.at(c, r) == prev.at(
                c,
                r,
            ) by {
                lemma_grid_index(c, r, prev.x as int, prev.y as int);
                if c + r * prev.x == x + y * prev.x {
                    lemma_grid_index_injective(c, r, x as int, y as int, prev.x as int);
                }
            }
        }
    }
}

/// The nonzero entries of a column, bottom to top, in their original order.
pub open spec fn packed_of(s: Seq<u32>) -> Seq<u32>
    decreases s.len(),
{
    if s.len() == 0 {
        Seq::<u32>::empty()
    } else {
        let rest = packed_of(s.drop_last());
        if s.last() != 0 {
            rest.push(s.last())
        } else {
            rest
        }
    }
}

/// A column after gravity: the nonzero entries first, zeros above them.
pub open spec fn compacted(s: Seq<u32>) -> Seq<u32> {
    packed_of(s) + Seq::new((s.len() - packed_of(s).len()) as nat, |i: int| 0u32)
}

pub proof fn lemma_packed_len(s: Seq<u32>)
    ensures
        packed_of(s).len() <= s.len(),
    decreases s.len(),
{
    if s.len() > 0 {
        lemma_packed_len(s.drop_last());
    }
}

pub proof fn lemma_packed_nonzero(s: Seq<u32>)
    ensures
        forall|i: int| 0 <= i < packed_of(s).len() ==> packed_of(s)[i] != 0,
    decreases s.len(),
{
    if s.len() > 0 {
        lemma_packed_nonzero(s.drop_last());
        let p = packed_of(s);
        assert forall|i: int| 0 <= i < p.len() implies p[i] != 0 by {
            if s.last() != 0 && i == p.len() - 1 {
                assert(p[i] == s.last());
            } else {
                assert(p[i] == packed_of(s.drop_last())[i]);
            }
        }
    }
}

/// On a sequence with no zeros, packing changes nothing.
pub proof fn lemma_packed_id(s: Seq<u32>)
    requires
        forall|i: int| 0 <= i < s.len() ==> s[i] != 0,
    ensures
        packed_of(s) == s,
    decreases s.len(),
{
    if s.len() > 0 {
        lemma_packed_id(s.drop_last());
        assert(packed_of(s) =~= s);
    }
}

/// Zeros appended on top do not change the packed entries.
pub proof fn lemma_packed_zero_pad(s: Seq<u32>, k: nat)
    ensures
        packed_of(s + Seq::new(k, |i: int| 0u32)) == packed_of(s),
    decreases k,
{
    let zeros = Seq::new(k, |i: int| 0u32);
    if k == 0 {
        assert(s + zeros =~= s);
    } else {
        let shorter = Seq::new((k - 1) as nat, |i: int| 0u32);
        assert((s + zeros).drop_last() =~= s + shorter);
        lemma_packed_zero_pad(s, (k - 1) as nat);
    }
}

pub proof fn lemma_packed_compacted(s: Seq<u32>)
    ensures
        packed_of(compacted(s)) == packed_of(s),
        compacted(s).len() == s.len(),
{
    lemma_packed_len(s);
    lemma_packed_zero_pad(packed_of(s), (s.len() - packed_of(s).len()) as nat);
    lemma_packed_nonzero(s);
    lemma_packed_id(packed_of(s));
}

/// Compacting a column is idempotent.
pub proof fn lemma_compacted_idempotent(s: Seq<u32>)
    ensures
        compacted(compacted(s)) == compacted(s),
{
    lemma_packed_compacted(s);
    assert(compacted(compacted(s)) =~= compacted(s));
}

impl Board {
    /// Column `c` of the grid as a sequence, bottom to top.
    pub open spec fn col_seq(&self, c: int) -> Seq<u32> {
        Seq::new(self.y as nat, |r: int| self.at(c, r))
    }
}

/// How `apply_gravity` relates the board before the call to the board after:
/// dimensions and `highest` are untouched and every column is compacted.
pub open spec fn gravity_rel(a: Board, b: Board) -> bool {
    &&& same_dims(a, b)
    &&& b.highest_level() == a.highest_level()
    &&& forall|c: int| 0 <= c < a.x ==> b.col_seq(c) == compacted(a.col_seq(c))
}

/// Gravity has nothing left to move: every column equals its own compaction.
pub open spec fn settled(b: Board) -> bool {
    forall|c: int| 0 <= c < b.x ==> b.col_seq(c) == compacted(b.col_seq(c))
}

/// Number of tiles (nonzero cells) in column `c`.
pub open spec fn col_tiles(b: Board, c: int) -> nat {
    packed_of(b.col_seq(c)).len()
}

/// Number of tiles in the first `n` columns.
pub open spec fn tile_count_to(b: Board, n: int) -> nat
    decreases n,
{
    if n <= 0 {
        0
    } else {
        tile_count_to(b, n - 1) + col_tiles(b, n - 1)
    }
}

/// Total number of tiles on the board.
pub open spec fn tile_count(b: Board) -> nat {
    tile_count_to(b, b.x as int)
}

/// Boards whose first `n` columns hold equally many tiles column by column
/// hold equally many tiles in those columns altogether.
pub proof fn lemma_tile_count_congruence(a: Board, b: Board, n: int)
    requires
        forall|c: int| 0 <= c < n ==> col_tiles(a, c) == col_tiles(b, c),
    ensures
        tile_count_to(a, n) == tile_count_to(b, n),
    decreases n,
{
    if n > 0 {
        lemma_tile_count_congruence(a, b, n - 1);
    }
}

/// Applying gravity a second time changes nothing: the two boards after the
/// first and after the second application look the same.
pub proof fn lemma_gravity_idempotent(a: Board, b: Board, c: Board)
    requires
        a.wf(),
        gravity_rel(a, b),
        gravity_rel(b, c),
    ensures
        same_board(b, c),
{
    assert(b.tab@.len() == b.x * b.y);
    assert forall|i: int| 0 <= i < b.tab@.len() implies c.tab@[i] == b.tab@[i] by {
        lemma_flat_to_cell(i, b.x as int, b.y as int);
        let cc = i % (b.x as int);
        let rr = i / (b.x as int);
        lemma_compacted_idempotent(a.col_seq(cc));
        assert(c.col_seq(cc)[rr] == b.col_seq(cc)[rr]);
    }
    assert(b.tab@ =~= c.tab@);
}

/// A board in the `gravity_rel` image is settled.
pub proof fn lemma_gravity_settles(a: Board, b: Board)
    requires
        gravity_rel(a, b),
    ensures
        settled(b),
{
    assert forall|c: int| 0 <= c < b.x implies b.col_seq(c) == compacted(b.col_seq(c)) by {
        lemma_compacted_idempotent(a.col_seq(c));
    }
}

/// Gravity conserves the tiles of every column: the nonzero entries, in
/// order, are the same before and after, so in particular so is their
/// multiset.
pub proof fn lemma_gravity_conserves_column_tiles(a: Board, b: Board, c: int)
    requires
        gravity_rel(a, b),
        0 <= c < a.x,
    ensures
        packed_of(b.col_seq(c)) == packed_of(a.col_seq(c)),
        packed_of(b.col_seq(c)).to_multiset() == packed_of(a.col_seq(c)).to_multiset(),
{
    lemma_packed_compacted(a.col_seq(c));
}

/// Gravity conserves the total tile count.
pub proof fn lemma_gravity_conserves_tile_count(a: Board, b: Board)
    requires
        gravity_rel(a, b),
    ensures
        tile_count(b) == tile_count(a),
{
    assert forall|c: int| 0 <= c < a.x implies col_tiles(a, c) == col_tiles(b, c) by {
        lemma_gravity_conserves_column_tiles(a, b, c);
    }
    lemma_tile_count_congruence(a, b, a.x as int);
}

/// Splits a flat grid index into its column `i % xs` and row `i / xs`.
pub proof fn lemma_flat_to_cell(i: int, xs: int, ys: int)
    requires
        0 <= i < xs * ys,
        1 <= xs,
    ensures
        0 <= i % xs < xs,
        0 <= i / xs < ys,
        i == (i % xs) + (i / xs) * xs,
{
    vstd::arithmetic::div_mod::lemma_fundamental_div_mod(i, xs);
    vstd::arithmetic::div_mod::lemma_mod_bound(i, xs);
    assert(0 <= i / xs < ys) by (nonlinear_arith)
        requires
            0 <= i < xs * ys,
            1 <= xs,
            i == xs * (i / xs) + i % xs,
            0 <= i % xs < xs,
    ;
    assert(i == (i % xs) + (i / xs) * xs) by (nonlinear_arith)
        requires
            i == xs * (i / xs) + i % xs,
    ;
}

proof fn lemma_packed_take_step(s: Seq<u32>, j: int)
    requires
        0 <= j < s.len(),
    ensures
        s[j] != 0 ==> packed_of(s.take(j + 1)) == packed_of(s.take(j)).push(s[j]),
        s[j] == 0 ==> packed_of(s.take(j + 1)) == packed_of(s.take(j)),
{
    assert(s.take(j + 1).drop_last() =~= s.take(j));
    assert(s.take(j + 1).last() == s[j]);
}

impl Board {
    /// For every column independently, slides all tiles down toward row 0,
    /// preserving their relative vertical order, and fills the vacated upper
    /// cells with zero.
    pub fn apply_gravity(&mut self)
        requires
            old(self).wf(),
        ensures
            final(self).wf(),
            gravity_rel(*old(self), *final(self)),
            tile_count(*final(self)) == tile_count(*old(self)),
            settled(*final(self)),
    {
        let ghost b0 = *self;
        let mut c: usize = 0;
        while c < self.x
            invariant
                self.wf(),
                self.x == b0.x,
                self.y == b0.y,
                self.highest_level() == b0.highest_level(),
                self.tab@.len() == b0.tab@.len(),
                c <= b0.x,
                forall|cc: int, r: int|
                    0 <= cc < c && 0 <= r < b0.y ==> self.at(cc, r) == compacted(b0.col_seq(cc))[r],
                forall|cc: int, r: int|
                    c <= cc < b0.x && 0 <= r < b0.y ==> self.at(cc, r) == b0.at(cc, r),
            decreases b0.x - c,
        {
            let mut last_free: usize = 0;
            let mut j: usize = 0;
            let ghost col = b0.col_seq(c as int);
            while j < self.y
                invariant
                    self.wf(),
                    self.x == b0.x,
                    self.y == b0.y,
                    self.highest_level() == b0.highest_level(),
                    self.tab@.len() == b0.tab@.len(),
                    c < b0.x,
                    col == b0.col_seq(c as int),
                    last_free <= j <= b0.y,
                    last_free == packed_of(col.take(j as int)).len(),
                    forall|r: int|
                        0 <= r < last_free ==> self.at(c as int, r) == packed_of(
                            col.take(j as int),
                        )[r],
                    forall|r: int| last_free <= r < j ==> self.at(c as int, r) == 0,
                    forall|r: int| j <= r < b0.y ==> self.at(c as int, r) == b0.at(c as int, r),
                    forall|cc: int, r: int|
                        0 <= cc < c && 0 <= r < b0.y ==> self.at(cc, r) == compacted(
                            b0.col_seq(cc),
                        )[r],
                    forall|cc: int, r: int|
                        c < cc < b0.x && 0 <= r < b0.y ==> self.at(cc, r) == b0.at(cc, r),
                decreases b0.y - j,
            {
                proof {
                    lemma_packed_len(col.take(j as int));
                    lemma_packed_take_step(col, j as int);
                    assert(col[j as int] == b0.at(c as int, j as int));
                }
                let value = self.get(c, j);
                if value != 0 {
                    self.set(c, j, 0);
                    self.set(c, last_free, value);
                    last_free = last_free + 1;
                }
                j = j + 1;
            }
            proof {
                lemma_packed_len(col);
                assert(col.take(b0.y as int) =~= col);
                assert forall|r: int| 0 <= r < b0.y implies self.at(c as int, r) == compacted(
                    b0.col_seq(c as int),
                )[r] by {
                    assert(compacted(col).len() == col.len());
                }
            }
            c = c + 1;
        }
        proof {
            assert forall|cc: int| 0 <= cc < b0.x implies self.col_seq(cc) == compacted(
                b0.col_seq(cc),
            ) by {
                lemma_packed_len(b0.col_seq(cc));
                assert(self.col_seq(cc) =~= compacted(b0.col_seq(cc)));
            }
            lemma_gravity_conserves_tile_count(b0, *self);
            lemma_gravity_settles(b0, *self);
        }
    }
}

impl Board {
    /// Draws a uniformly random level in `[1, highest]` from the external
    /// random source.
    pub fn get_random_value(&self) -> (v: u32)
        requires
            self.wf(),
        ensures
            1 <= v <= self.highest_level(),
    {
        crate::rng::rand_range(1, self.highest)
    }
}

impl Clone for Board {
    /// A deep copy: the clone looks exactly like the original, with its own
    /// grid buffer.
    fn clone(&self) -> (r: Board)
        ensures
            same_board(*self, r),
    {
        let mut tab: Vec<u32> = Vec::new();
        let n = self.tab.len();
        let mut i: usize = 0;
        while i < n
            invariant
                i <= n,
                n == self.tab@.len(),
                tab@.len() == i,
                forall|j: int| 0 <= j < i ==> tab@[j] == self.tab@[j],
            decreases n - i,
        {
            tab.push(self.tab[i]);
            i = i + 1;
        }
        proof {
            assert(tab@ =~= self.tab@);
        }
        Board { x: self.x, y: self.y, tab, highest: self.highest }
    }
}

impl PartialEq for Board {
    /// Boards are equal when they look the same: same dimensions, same grid,
    /// same highest level.
    fn eq(&self, other: &Board) -> (r: bool) {
        if self.x != other.x || self.y != other.y || self.highest != other.highest {
            return false;
        }
        if self.tab.len() != other.tab.len() {
            return false;
        }
        let n = self.tab.len();
        let mut i: usize = 0;
        while i < n
            invariant
                i <= n,
                n == self.tab@.len(),
                n == other.tab@.len(),
                forall|j: int| 0 <= j < i ==> self.tab@[j] == other.tab@[j],
            decreases n - i,
        {
            if self.tab[i] != other.tab[i] {
                return false;
            }
            i = i + 1;
        }
        proof {
            assert(self.tab@ =~= other.tab@);
        }
        true
    }
}

impl vstd::std_specs::cmp::PartialEqSpecImpl for Board {
    open spec fn obeys_eq_spec() -> bool {
        true
    }

    open spec fn eq_spec(&self, other: &Board) -> bool {
        same_board(*self, *other)
    }
}

} // verus!
