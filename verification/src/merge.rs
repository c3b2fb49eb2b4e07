//! Merge resolution: eligible groups collapse into one tile of the next
//! level, and `evolve` alternates gravity and merging until nothing changes.

use vstd::prelude::*;
use crate::board::{
    lemma_gravity_conserves_tile_count,
    Board,
    LEVEL_CAP,
    same_dims,
    same_board,
    gravity_rel,
    settled,
    col_tiles,
    tile_count,
    tile_count_to,
    packed_of,
    lemma_grid_index,
    lemma_grid_index_injective,
    lemma_tile_count_congruence,
};
use crate::groups::{is_group, groupable, linked, is_chain, connected, lemma_group_unique};

verus! {

/// `(row, col)` order on cells: the key that picks a merged group's
/// surviving cell (lowest row first, then lowest column).
pub open spec fn rc_le(p: (usize, usize), q: (usize, usize)) -> bool {
    p.1 < q.1 || (p.1 == q.1 && p.0 <= q.0)
}

/// `p` is the `(row, col)`-smallest cell of `g`.
pub open spec fn rc_min(g: Set<(usize, usize)>, p: (usize, usize)) -> bool {
    g.contains(p) && forall|q: (usize, usize)| g.contains(q) ==> rc_le(p, q)
}

/// A group that merge resolution collapses: a maximal group of at least
/// three cells whose level is below `LEVEL_CAP`.
pub open spec fn eligible(b: Board, g: Set<(usize, usize)>) -> bool {
    &&& is_group(b, g)
    &&& g.len() >= 3
    &&& forall|p: (usize, usize)| g.contains(p) ==> b.at(p.0 as int, p.1 as int) < LEVEL_CAP
}

/// No eligible group is left on the board.
pub open spec fn no_eligible(b: Board) -> bool {
    forall|g: Set<(usize, usize)>| !eligible(b, g)
}

/// Some eligible group of `b` has reached level `h`, so collapsing it must
/// push the highest level seen past `h`.
pub open spec fn eligible_at_highest(b: Board, h: u32) -> bool {
    exists|g: Set<(usize, usize)>, p: (usize, usize)|
        #![all_triggers]
        eligible(b, g) && g.contains(p) && b.at(p.0 as int, p.1 as int) >= h
}

/// The grid effect of one merge-resolution pass from `a` to `b`: every cell
/// of an eligible group is cleared except the `(row, col)`-smallest, which
/// receives the next level, and every other cell keeps its value.
pub open spec fn merged_cells(a: Board, b: Board) -> bool {
    &&& forall|g: Set<(usize, usize)>, p: (usize, usize)|
        #![trigger eligible(a, g), g.contains(p)]
        eligible(a, g) && g.contains(p) ==> b.at(p.0 as int, p.1 as int) == if rc_min(g, p) {
            (a.at(p.0 as int, p.1 as int) + 1) as u32
        } else {
            0u32
        }
    &&& forall|p: (usize, usize)|
        #![all_triggers]
        p.0 < a.x && p.1 < a.y && (forall|g: Set<(usize, usize)>|
            #[trigger] eligible(a, g) ==> !g.contains(p)) ==> b.at(p.0 as int, p.1 as int) == a.at(
            p.0 as int,
            p.1 as int,
        )
}

/// How `transform_matches` relates the board before the call to the board
/// after: the grid effect above, a monotone `highest`, and no change at all
/// when no group is eligible.
pub open spec fn merge_rel(a: Board, b: Board) -> bool {
    &&& same_dims(a, b)
    &&& merged_cells(a, b)
    &&& a.highest_level() <= b.highest_level() <= LEVEL_CAP
    &&& b.highest_level() > a.highest_level() <==> eligible_at_highest(a, a.highest_level())
    &&& !(exists|g: Set<(usize, usize)>| eligible(a, g)) ==> same_board(a, b)
}

/// One round of `evolve`: gravity, then one merge-resolution pass.
pub open spec fn evolve_step(a: Board, b: Board) -> bool {
    exists|m: Board| gravity_rel(a, m) && merge_rel(m, b)
}

/// `b` is reachable from `a` by rounds of gravity and merge resolution.
pub open spec fn evolve_rel(a: Board, b: Board) -> bool {
    exists|s: Seq<Board>|
        s.len() >= 1 && s[0] == a && s[s.len() - 1] == b && (forall|i: int, j: int|
            0 <= i && i + 1 == j && j < s.len() ==> #[trigger] evolve_step(s[i], s[j]))
}

/// Every member of a maximal group has an equal-level neighbor.
pub proof fn lemma_group_member_groupable(b: Board, g: Set<(usize, usize)>, p: (usize, usize))
    requires
        is_group(b, g),
        g.contains(p),
    ensures
        groupable(b, p),
{
    let rest = g.remove(p);
    assert(rest.len() >= 1);
    assert(exists|q: (usize, usize)| rest.contains(q)) by {
        if !(exists|q: (usize, usize)| rest.contains(q)) {
            assert(rest =~= Set::empty());
        }
    }
    let q = choose|q: (usize, usize)| rest.contains(q);
    assert(g.contains(q) && q != p);
    assert(connected(b, p, q));
    let s = choose|s: Seq<(usize, usize)>|
        is_chain(b, s) && s.len() >= 1 && s.first() == p && s.last() == q;
    assert(s.len() >= 2);
    assert(linked(b, s[0], s[1]));
}

/// The fixpoint that `evolve` reaches: on a board with no eligible group,
/// group discovery can report no group of three or more cells below the
/// level ceiling, so nothing is left to merge.
pub proof fn lemma_stable_groups_are_small(b: Board, g: Set<(usize, usize)>, p: (usize, usize))
    requires
        no_eligible(b),
        is_group(b, g),
        g.contains(p),
        b.at(p.0 as int, p.1 as int) < LEVEL_CAP,
    ensures
        g.len() < 3,
{
    if g.len() >= 3 {
        assert forall|q: (usize, usize)| g.contains(q) implies b.at(q.0 as int, q.1 as int)
            < LEVEL_CAP by {
            assert(b.at(q.0 as int, q.1 as int) == b.at(p.0 as int, p.1 as int));
        }
        assert(eligible(b, g));
    }
}

proof fn lemma_packed_update_len(s: Seq<u32>, i: int, v: u32)
    requires
        0 <= i < s.len(),
    ensures
        packed_of(s.update(i, v)).len() + (if s[i] != 0 {
            1nat
        } else {
            0nat
        }) == packed_of(s).len() + (if v != 0 {
            1nat
        } else {
            0nat
        }),
    decreases s.len(),
{
    let s2 = s.update(i, v);
    if i == s.len() - 1 {
        assert(s2.drop_last() =~= s.drop_last());
    } else {
        assert(s2.drop_last() =~= s.drop_last().update(i, v));
        lemma_packed_update_len(s.drop_last(), i, v);
        assert(s2.last() == s.last());
    }
}

proof fn lemma_tile_count_one_col(a: Board, b: Board, n: int, c0: int)
    requires
        forall|c: int| 0 <= c < n && c != c0 ==> col_tiles(a, c) == col_tiles(b, c),
        0 <= c0,
    ensures
        c0 < n ==> tile_count_to(b, n) + col_tiles(a, c0) == tile_count_to(a, n) + col_tiles(
            b,
            c0,
        ),
        c0 >= n ==> tile_count_to(b, n) == tile_count_to(a, n),
    decreases n,
{
    if n > 0 {
        lemma_tile_count_one_col(a, b, n - 1, c0);
    }
}

/// Writing `v` at cell `(cx, cy)` changes the tile count by the difference
/// between the new and the old cell being nonzero.
pub proof fn lemma_tile_count_set(a: Board, b: Board, cx: int, cy: int, v: u32)
    requires
        a.wf(),
        b.x == a.x,
        b.y == a.y,
        b.tab@ == a.tab@.update(cx + cy * a.x, v),
        0 <= cx < a.x,
        0 <= cy < a.y,
    ensures
        tile_count(b) + (if a.at(cx, cy) != 0 {
            1nat
        } else {
            0nat
        }) == tile_count(a) + (if v != 0 {
            1nat
        } else {
            0nat
        }),
{
    lemma_grid_index(cx, cy, a.x as int, a.y as int);
    assert forall|c: int| 0 <= c < a.x && c != cx implies col_tiles(a, c) == col_tiles(b, c) by {
        assert(b.col_seq(c) =~= a.col_seq(c)) by {
            assert forall|r: int| 0 <= r < a.y implies b.at(c, r) == a.at(c, r) by {
                lemma_grid_index(c, r, a.x as int, a.y as int);
                if c + r * a.x == cx + cy * a.x {
                    lemma_grid_index_injective(c, r, cx, cy, a.x as int);
                }
            }
        }
    }
    assert(b.col_seq(cx) =~= a.col_seq(cx).update(cy, v)) by {
        assert forall|r: int| 0 <= r < a.y implies b.col_seq(cx)[r] == a.col_seq(cx).update(
            cy,
            v,
        )[r] by {
            lemma_grid_index(cx, r, a.x as int, a.y as int);
            if r != cy && cx + r * a.x == cx + cy * a.x {
                lemma_grid_index_injective(cx, r, cx, cy, a.x as int);
            }
        }
    }
    lemma_packed_update_len(a.col_seq(cx), cy, v);
    lemma_tile_count_one_col(a, b, a.x as int, cx);
}

impl Board {
    /// Collapses every eligible group: all its cells are cleared and the
    /// `(row, col)`-smallest receives the next level. `highest` grows by one
    /// for each collapsed group whose level had reached it. Returns whether
    /// anything was collapsed. Groups whose level has hit `LEVEL_CAP` (far
    /// beyond what play can produce) are left as they are, so levels stay
    /// below the ceiling.
    #[verifier::loop_isolation(false)]
    #[verifier::rlimit(50)]
    pub fn transform_matches(&mut self) -> (changed: bool)
        requires
            old(self).wf(),
        ensures
            final(self).wf(),
            merge_rel(*old(self), *final(self)),
            changed == exists|g: Set<(usize, usize)>| eligible(*old(self), g),
            changed ==> tile_count(*final(self)) < tile_count(*old(self)),
            !changed ==> *final(self) == *old(self),
            tile_count(*final(self)) <= tile_count(*old(self)),
    {
        let ghost b0 = *self;
        let groups = self.find_groups();
        let mut changed = false;
        let mut k: usize = 0;
        while k < groups.len()
            invariant
                self.wf(),
                self.x == b0.x,
                self.y == b0.y,
                self.tab@.len() == b0.tab@.len(),
                b0.highest_level() <= self.highest_level() <= LEVEL_CAP,
                changed ==> tile_count(*self) < tile_count(b0),
                tile_count(*self) <= tile_count(b0),
                !changed ==> *self == b0,
                k <= groups@.len(),
                changed == exists|j: int|
                    0 <= j < k && eligible(b0, (#[trigger] groups@[j])@.to_set()),
                self.highest_level() > b0.highest_level() <==> exists|j: int, p: (usize, usize)|
                    #![all_triggers]
                    0 <= j < k && eligible(b0, groups@[j]@.to_set()) && groups@[j]@.contains(p)
                        && b0.at(p.0 as int, p.1 as int) >= b0.highest_level(),
                forall|j: int, p: (usize, usize)|
                    #![all_triggers]
                    0 <= j < k && eligible(b0, groups@[j]@.to_set()) && groups@[j]@.contains(p)
                        ==> self.at(p.0 as int, p.1 as int) == if rc_min(
                        groups@[j]@.to_set(),
                        p,
                    ) {
                        (b0.at(p.0 as int, p.1 as int) + 1) as u32
                    } else {
                        0u32
                    },
                forall|p: (usize, usize)|
                    #![all_triggers]
                    p.0 < b0.x && p.1 < b0.y && (forall|j: int|
                        0 <= j < k && eligible(b0, (#[trigger] groups@[j])@.to_set())
                            ==> !groups@[j]@.contains(p)) ==> self.at(p.0 as int, p.1 as int)
                        == b0.at(p.0 as int, p.1 as int),
            decreases groups@.len() - k,
        {
            let ghost bg = *self;
            let ghost gset = groups@[k as int]@.to_set();
            let glen = groups[k].len();
            proof {
                groups@[k as int]@.unique_seq_to_set();
            }
            if glen >= 3 {
                let p0 = groups[k][0];
                proof {
                    assert(gset.contains(p0));
                    assert forall|j: int|
                        0 <= j < k && eligible(b0, (#[trigger] groups@[j])@.to_set())
                            implies !groups@[j]@.contains(p0) by {
                        if groups@[j]@.contains(p0) {
                            assert(groups@[k as int]@.contains(p0));
                        }
                    }
                    assert(self.at(p0.0 as int, p0.1 as int) == b0.at(p0.0 as int, p0.1 as int));
                }
                let v = self.get(p0.0, p0.1);
                if v < LEVEL_CAP {
                    proof {
                        assert(eligible(b0, gset));
                        assert(changed ==> tile_count(*self) < tile_count(b0));
                    }
                    // pick the (row, col)-smallest member
                    let mut mi: usize = 0;
                    let mut j: usize = 1;
                    while j < glen
                        invariant
                            mi < glen,
                            1 <= j <= glen,
                            forall|t: int|
                                0 <= t < j ==> rc_le(
                                    groups@[k as int]@[mi as int],
                                    #[trigger] groups@[k as int]@[t],
                                ),
                        decreases glen - j,
                    {
                        let best = groups[k][mi];
                        let cand = groups[k][j];
                        if cand.1 < best.1 || (cand.1 == best.1 && cand.0 < best.0) {
                            mi = j;
                        }
                        j = j + 1;
                    }
                    let m = groups[k][mi];
                    proof {
                        assert(rc_min(gset, m)) by {
                            assert(gset.contains(m));
                            assert forall|q: (usize, usize)| gset.contains(q) implies rc_le(
                                m,
                                q,
                            ) by {
                                let t = choose|t: int|
                                    0 <= t < groups@[k as int]@.len() && groups@[k as int]@[t]
                                        == q;
                                assert(rc_le(groups@[k as int]@[mi as int], groups@[k as int]@[t]));
                            }
                        }
                    }
                    // every member still holds the group's level
                    proof {
                        assert forall|p: (usize, usize)| gset.contains(p) implies self.at(
                            p.0 as int,
                            p.1 as int,
                        ) == v && b0.at(p.0 as int, p.1 as int) == v by {
                            assert forall|j2: int|
                                0 <= j2 < k && eligible(b0, (#[trigger] groups@[j2])@.to_set())
                                    implies !groups@[j2]@.contains(p) by {
                                if groups@[j2]@.contains(p) {
                                    assert(groups@[k as int]@.contains(p));
                                }
                            }
                            assert(self.at(p.0 as int, p.1 as int) == b0.at(p.0 as int, p.1 as int));
                        }
                    }
                    proof {
                        assert forall|t: int| 0 <= t < glen implies self.at(
                            (#[trigger] groups@[k as int]@[t]).0 as int,
                            groups@[k as int]@[t].1 as int,
                        ) == v by {
                            assert(gset.contains(groups@[k as int]@[t]));
                        }
                    }
                    // clear the whole group
                    let mut j2: usize = 0;
                    while j2 < glen
                        invariant
                            j2 <= glen,
                            self.wf(),
                            self.x == b0.x,
                            self.y == b0.y,
                            self.tab@.len() == b0.tab@.len(),
                            self.highest_level() == bg.highest_level(),
                            tile_count(*self) + j2 == tile_count(bg),
                            forall|t: int|
                                0 <= t < j2 ==> self.at(
                                    (#[trigger] groups@[k as int]@[t]).0 as int,
                                    groups@[k as int]@[t].1 as int,
                                ) == 0,
                            forall|t: int|
                                j2 <= t < glen ==> self.at(
                                    (#[trigger] groups@[k as int]@[t]).0 as int,
                                    groups@[k as int]@[t].1 as int,
                                ) == v,
                            forall|p: (usize, usize)|
                                #![all_triggers]
                                p.0 < b0.x && p.1 < b0.y && !gset.contains(p) ==> self.at(
                                    p.0 as int,
                                    p.1 as int,
                                ) == bg.at(p.0 as int, p.1 as int),
                        decreases glen - j2,
                    {
                        let q = groups[k][j2];
                        proof {
                            assert(gset.contains(q));
                            assert(self.at(q.0 as int, q.1 as int) == v);
                        }
                        let ghost before = *self;
                        self.set(q.0, q.1, 0);
                        proof {
                            lemma_tile_count_set(before, *self, q.0 as int, q.1 as int, 0);
                            assert(groups@[k as int]@.no_duplicates());
                            assert forall|t: int|
                                j2 + 1 <= t < glen implies self.at(
                                (#[trigger] groups@[k as int]@[t]).0 as int,
                                groups@[k as int]@[t].1 as int,
                            ) == v by {
                                let qt = groups@[k as int]@[t];
                                assert(gset.contains(qt));
                                assert(qt.0 < b0.x && qt.1 < b0.y);
                                if qt.0 == q.0 && qt.1 == q.1 {
                                    assert(qt == q);
                                    assert(groups@[k as int]@[t] != groups@[k as int]@[j2 as int]);
                                }
                            }
                            assert forall|t: int|
                                0 <= t < j2 + 1 implies self.at(
                                (#[trigger] groups@[k as int]@[t]).0 as int,
                                groups@[k as int]@[t].1 as int,
                            ) == 0 by {
                                let qt = groups@[k as int]@[t];
                                assert(gset.contains(qt));
                                assert(qt.0 < b0.x && qt.1 < b0.y);
                                if t < j2 {
                                    if qt.0 == q.0 && qt.1 == q.1 {
                                        assert(qt == q);
                                        assert(groups@[k as int]@[t] != groups@[k as int]@[
                                            j2 as int
                                        ]);
                                    }
                                    assert(before.at(qt.0 as int, qt.1 as int) == 0);
                                }
                            }
                        }
                        j2 = j2 + 1;
                    }
                    // write the next level into the surviving cell
                    let ghost before_write = *self;
                    self.set(m.0, m.1, v + 1);
                    proof {
                        lemma_tile_count_set(before_write, *self, m.0 as int, m.1 as int, (v + 1) as u32);
                        assert(tile_count(*self) + glen == tile_count(bg) + 1);
                        assert(tile_count(bg) <= tile_count(b0));
                        assert(tile_count(*self) < tile_count(b0));
                    }
                    let ghost before_high = *self;
                    if v >= self.highest {
                        proof {
                            assert(self.highest_level() <= v);
                        }
                        self.highest = self.highest + 1;
                    }
                    changed = true;
                    proof {
                        assert(self.highest_level() > b0.highest_level() <==> exists|
                            j: int,
                            p: (usize, usize),
                        |
                            #![all_triggers]
                            0 <= j < k + 1 && eligible(b0, groups@[j]@.to_set())
                                && groups@[j]@.contains(p) && b0.at(p.0 as int, p.1 as int)
                                >= b0.highest_level()) by {
                            if self.highest_level() > b0.highest_level() {
                                if before_high.highest_level() > b0.highest_level() {
                                    let (j, p) = choose|j: int, p: (usize, usize)|
                                        #![all_triggers]
                                        0 <= j < k && eligible(b0, groups@[j]@.to_set())
                                            && groups@[j]@.contains(p) && b0.at(
                                            p.0 as int,
                                            p.1 as int,
                                        ) >= b0.highest_level();
                                    assert(0 <= j < k + 1 && eligible(b0, groups@[j]@.to_set())
                                        && groups@[j]@.contains(p) && b0.at(p.0 as int, p.1 as int)
                                        >= b0.highest_level());
                                } else {
                                    assert(v >= before_high.highest_level());
                                    assert(b0.at(p0.0 as int, p0.1 as int) >= b0.highest_level());
                                    assert(0 <= k < k + 1 && eligible(
                                        b0,
                                        groups@[k as int]@.to_set(),
                                    ) && groups@[k as int]@.contains(p0) && b0.at(
                                        p0.0 as int,
                                        p0.1 as int,
                                    ) >= b0.highest_level());
                                }
                            } else {
                                assert(before_high.highest_level() == self.highest_level());
                                assert(v < before_high.highest_level());
                                assert forall|j: int, p: (usize, usize)|
                                    0 <= j < k + 1 && eligible(b0, groups@[j]@.to_set())
                                        && groups@[j]@.contains(p) implies b0.at(
                                    p.0 as int,
                                    p.1 as int,
                                ) < b0.highest_level() by {
                                    if j == k {
                                        assert(gset.contains(p));
                                        assert(b0.at(p.0 as int, p.1 as int) == v);
                                        assert(self.highest_level() >= b0.highest_level());
                                    }
                                }
                            }
                        }
                        assert(self.tab@ == before_high.tab@ && self.x == before_high.x && self.y
                            == before_high.y);
                        assert forall|c: int| 0 <= c < b0.x implies col_tiles(before_high, c)
                            == col_tiles(*self, c) by {
                            assert(before_high.col_seq(c) =~= self.col_seq(c));
                        }
                        lemma_tile_count_congruence(before_high, *self, b0.x as int);
                        assert(tile_count(*self) < tile_count(b0));
                        assert(eligible(b0, (groups@[k as int])@.to_set()));
                        // cells of this group now hold their merged values
                        assert forall|p: (usize, usize)| gset.contains(p) implies self.at(
                            p.0 as int,
                            p.1 as int,
                        ) == if rc_min(gset, p) {
                            (b0.at(p.0 as int, p.1 as int) + 1) as u32
                        } else {
                            0u32
                        } by {
                            let t = choose|t: int|
                                0 <= t < groups@[k as int]@.len() && groups@[k as int]@[t] == p;
                            if p == m {
                                assert(self.at(p.0 as int, p.1 as int) == v + 1);
                            } else {
                                assert(rc_le(m, p));
                                assert(!rc_min(gset, p)) by {
                                    if rc_min(gset, p) {
                                        assert(rc_le(p, m));
                                        assert(p.0 == m.0 && p.1 == m.1);
                                    }
                                }
                                assert(before_write.at(p.0 as int, p.1 as int) == 0);
                                assert(self.at(p.0 as int, p.1 as int) == 0);
                            }
                        }
                        // groups already processed keep their merged values
                        assert forall|j3: int, p: (usize, usize)|
                            #![all_triggers]
                            0 <= j3 < k + 1 && eligible(b0, groups@[j3]@.to_set())
                                && groups@[j3]@.contains(p) implies self.at(p.0 as int, p.1 as int)
                            == if rc_min(groups@[j3]@.to_set(), p) {
                            (b0.at(p.0 as int, p.1 as int) + 1) as u32
                        } else {
                            0u32
                        } by {
                            if j3 < k {
                                assert(!groups@[k as int]@.contains(p));
                                assert(!gset.contains(p));
                                assert(groups@[j3]@.to_set().contains(p));
                                assert(p.0 < b0.x && p.1 < b0.y);
                                assert(self.at(p.0 as int, p.1 as int) == bg.at(
                                    p.0 as int,
                                    p.1 as int,
                                )) by {
                                    if p == m {
                                        assert(gset.contains(m));
                                    }
                                }
                                assert(bg.at(p.0 as int, p.1 as int) == if rc_min(
                                    groups@[j3]@.to_set(),
                                    p,
                                ) {
                                    (b0.at(p.0 as int, p.1 as int) + 1) as u32
                                } else {
                                    0u32
                                });
                            } else {
                                assert(groups@[j3] == groups@[k as int]);
                                assert(gset.contains(p));
                            }
                        }
                        // untouched cells stay untouched
                        assert forall|p: (usize, usize)|
                            #![all_triggers]
                            p.0 < b0.x && p.1 < b0.y && (forall|j3: int|
                                0 <= j3 < k + 1 && eligible(b0, (#[trigger] groups@[j3])@.to_set())
                                    ==> !groups@[j3]@.contains(p)) implies self.at(
                            p.0 as int,
                            p.1 as int,
                        ) == b0.at(p.0 as int, p.1 as int) by {
                            assert(!groups@[k as int]@.contains(p));
                            assert(!gset.contains(p));
                            assert(self.at(p.0 as int, p.1 as int) == bg.at(p.0 as int, p.1 as int))
                                by {
                                if p == m {
                                    assert(gset.contains(m));
                                }
                            }
                            assert forall|j3: int|
                                0 <= j3 < k && eligible(b0, (#[trigger] groups@[j3])@.to_set())
                                    implies !groups@[j3]@.contains(p) by {}
                            assert(bg.at(p.0 as int, p.1 as int) == b0.at(p.0 as int, p.1 as int));
                        }
                    }
                } else {
                    proof {
                        assert(!eligible(b0, gset)) by {
                            if eligible(b0, gset) {
                                assert(b0.at(p0.0 as int, p0.1 as int) < LEVEL_CAP);
                            }
                        }
                    }
                }
            } else {
                proof {
                    assert(!eligible(b0, gset)) by {
                        if eligible(b0, gset) {
                            assert(gset.len() == groups@[k as int]@.len());
                        }
                    }
                }
            }
            k = k + 1;
        }
        proof {
            // every eligible group of the starting board is one of the found
            // groups, so its cells were merged
            assert forall|g: Set<(usize, usize)>, p: (usize, usize)|
                #![trigger eligible(b0, g), g.contains(p)]
                eligible(b0, g) && g.contains(p) implies self.at(p.0 as int, p.1 as int)
                == if rc_min(g, p) {
                (b0.at(p.0 as int, p.1 as int) + 1) as u32
            } else {
                0u32
            } by {
                lemma_group_member_groupable(b0, g, p);
                let kk = choose|kk: int|
                    0 <= kk < groups@.len() && (#[trigger] groups@[kk])@.contains(p);
                groups@[kk]@.unique_seq_to_set();
                assert(groups@[kk]@.to_set().contains(p));
                lemma_group_unique(b0, g, groups@[kk]@.to_set(), p);
                assert(eligible(b0, groups@[kk]@.to_set()));
            }
            assert forall|p: (usize, usize)|
                #![all_triggers]
                p.0 < b0.x && p.1 < b0.y && (forall|g: Set<(usize, usize)>|
                    #[trigger] eligible(b0, g) ==> !g.contains(p)) implies self.at(
                p.0 as int,
                p.1 as int,
            ) == b0.at(p.0 as int, p.1 as int) by {
                assert forall|j: int|
                    0 <= j < groups@.len() && eligible(b0, (#[trigger] groups@[j])@.to_set())
                        implies !groups@[j]@.contains(p) by {
                    if groups@[j]@.contains(p) {
                        assert(groups@[j]@.to_set().contains(p));
                    }
                }
            }
            assert(self.highest_level() > b0.highest_level() <==> eligible_at_highest(
                b0,
                b0.highest_level(),
            )) by {
                if self.highest_level() > b0.highest_level() {
                    let (j, p) = choose|j: int, p: (usize, usize)|
                        #![all_triggers]
                        0 <= j < k && eligible(b0, groups@[j]@.to_set())
                            && groups@[j]@.contains(p) && b0.at(p.0 as int, p.1 as int)
                            >= b0.highest_level();
                    assert(eligible(b0, groups@[j]@.to_set()) && groups@[j]@.to_set().contains(p)
                        && b0.at(p.0 as int, p.1 as int) >= b0.highest_level());
                } else {
                    if eligible_at_highest(b0, b0.highest_level()) {
                        let (g, p) = choose|g: Set<(usize, usize)>, p: (usize, usize)|
                            #![all_triggers]
                            eligible(b0, g) && g.contains(p) && b0.at(p.0 as int, p.1 as int)
                                >= b0.highest_level();
                        lemma_group_member_groupable(b0, g, p);
                        let kk = choose|kk: int|
                            0 <= kk < groups@.len() && (#[trigger] groups@[kk])@.contains(p);
                        groups@[kk]@.unique_seq_to_set();
                        assert(groups@[kk]@.to_set().contains(p));
                        lemma_group_unique(b0, g, groups@[kk]@.to_set(), p);
                        assert(0 <= kk < k && eligible(b0, groups@[kk]@.to_set())
                            && groups@[kk]@.contains(p) && b0.at(p.0 as int, p.1 as int)
                            >= b0.highest_level());
                        assert(false);
                    }
                }
            }
            // a merge happened exactly when some eligible group exists
            assert(changed == exists|g: Set<(usize, usize)>| eligible(b0, g)) by {
                if changed {
                    let j = choose|j: int|
                        0 <= j < k && eligible(b0, (#[trigger] groups@[j])@.to_set());
                    assert(eligible(b0, groups@[j]@.to_set()));
                } else {
                    if exists|g: Set<(usize, usize)>| eligible(b0, g) {
                        let g = choose|g: Set<(usize, usize)>| eligible(b0, g);
                        assert(g.len() >= 1);
                        assert(exists|p: (usize, usize)| g.contains(p)) by {
                            if !(exists|p: (usize, usize)| g.contains(p)) {
                                assert(g =~= Set::empty());
                            }
                        }
                        let p = choose|p: (usize, usize)| g.contains(p);
                        lemma_group_member_groupable(b0, g, p);
                        let kk = choose|kk: int|
                            0 <= kk < groups@.len() && (#[trigger] groups@[kk])@.contains(p);
                        groups@[kk]@.unique_seq_to_set();
                        assert(groups@[kk]@.to_set().contains(p));
                        lemma_group_unique(b0, g, groups@[kk]@.to_set(), p);
                        assert(eligible(b0, groups@[kk]@.to_set()));
                        assert(false);
                    }
                }
            }
        }
        changed
    }
}

impl Board {
    /// Alternates gravity and merge resolution until a full pass merges
    /// nothing. Terminates because every merging pass strictly lowers the
    /// tile count. Afterwards the board is settled and holds no eligible
    /// group.
    #[verifier::loop_isolation(false)]
    pub fn evolve(&mut self)
        requires
            old(self).wf(),
        ensures
            final(self).wf(),
            final(self).x == old(self).x,
            final(self).y == old(self).y,
            old(self).highest_level() <= final(self).highest_level() <= LEVEL_CAP,
            tile_count(*final(self)) <= tile_count(*old(self)),
            evolve_rel(*old(self), *final(self)),
            settled(*final(self)),
            no_eligible(*final(self)),
    {
        let ghost b_start = *old(self);
        let ghost mut states: Seq<Board> = seq![*old(self)];
        let mut go = true;
        while go
            invariant
                self.wf(),
                self.x == b_start.x,
                self.y == b_start.y,
                b_start.highest_level() <= self.highest_level() <= LEVEL_CAP,
                tile_count(*self) <= tile_count(b_start),
                states.len() >= 1,
                states[0] == b_start,
                states[states.len() - 1] == *self,
                forall|i: int, j: int|
                    0 <= i && i + 1 == j && j < states.len() ==> #[trigger] evolve_step(
                        states[i],
                        states[j],
                    ),
                !go ==> settled(*self) && no_eligible(*self),
            decreases tile_count(*self), (if go { 1int } else { 0int }),
        {
            let ghost prev = *self;
            let ghost states_before = states;
            self.apply_gravity();
            let ghost mid = *self;
            go = self.transform_matches();
            proof {
                assert(gravity_rel(prev, mid) && merge_rel(mid, *self));
                assert(evolve_step(prev, *self));
                states = states_before.push(*self);
                assert(states[states.len() - 1] == *self);
                assert forall|i: int, j: int|
                    0 <= i && i + 1 == j && j < states.len() implies #[trigger] evolve_step(
                    states[i],
                    states[j],
                ) by {
                    if j < states.len() - 1 {
                        assert(states[i] == states_before[i] && states[j] == states_before[j]);
                        assert(evolve_step(states_before[i], states_before[j]));
                    } else {
                        assert(states[i] == prev && states[j] == *self);
                    }
                }
                if !go {
                    assert(*self == mid);
                    assert(!(exists|g: Set<(usize, usize)>| eligible(mid, g)));
                    assert(settled(mid));
                }
                lemma_gravity_conserves_tile_count(prev, mid);
            }
        }
        proof {
            assert(states.len() >= 1 && states[0] == b_start && states[states.len() - 1] == *self);
            assert(evolve_rel(b_start, *self));
        }
    }
}

} // verus!
