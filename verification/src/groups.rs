//! Discovery of maximal groups: connected components of equal adjacent tiles.

use vstd::prelude::*;
use crate::board::{Board, lemma_grid_index, lemma_grid_index_injective};

verus! {

/// The two cells are 4-directionally adjacent.
pub open spec fn adjacent(p: (usize, usize), q: (usize, usize)) -> bool {
    ||| (p.0 == q.0 && (p.1 + 1 == q.1 || q.1 + 1 == p.1))
    ||| (p.1 == q.1 && (p.0 + 1 == q.0 || q.0 + 1 == p.0))
}

/// The two cells are in bounds, adjacent, and hold the same nonzero level.
pub open spec fn linked(b: Board, p: (usize, usize), q: (usize, usize)) -> bool {
    &&& b.in_bounds(p.0 as int, p.1 as int)
    &&& b.in_bounds(q.0 as int, q.1 as int)
    &&& adjacent(p, q)
    &&& b.at(p.0 as int, p.1 as int) == b.at(q.0 as int, q.1 as int)
    &&& b.at(p.0 as int, p.1 as int) != 0
}

/// Consecutive cells of `s` are linked.
pub open spec fn is_chain(b: Board, s: Seq<(usize, usize)>) -> bool {
    forall|i: int, j: int| 0 <= i && i + 1 == j && j < s.len() ==> #[trigger] linked(b, s[i], s[j])
}

/// `q` can be reached from `p` through a chain of linked cells.
pub open spec fn connected(b: Board, p: (usize, usize), q: (usize, usize)) -> bool {
    exists|s: Seq<(usize, usize)>|
        is_chain(b, s) && s.len() >= 1 && s.first() == p && s.last() == q
}

/// `p` has at least one equal-level neighbor.
pub open spec fn groupable(b: Board, p: (usize, usize)) -> bool {
    exists|q: (usize, usize)| linked(b, p, q)
}

/// `g` is a maximal group: a connected component, of at least two cells, of
/// the `linked` relation.
pub open spec fn is_group(b: Board, g: Set<(usize, usize)>) -> bool {
    &&& g.finite()
    &&& g.len() >= 2
    &&& forall|p: (usize, usize)|
        g.contains(p) ==> b.in_bounds(p.0 as int, p.1 as int) && b.at(p.0 as int, p.1 as int) != 0
    &&& forall|p: (usize, usize), q: (usize, usize)|
        g.contains(p) && g.contains(q) ==> b.at(p.0 as int, p.1 as int) == b.at(
            q.0 as int,
            q.1 as int,
        )
    &&& forall|p: (usize, usize), q: (usize, usize)|
        g.contains(p) && linked(b, p, q) ==> g.contains(q)
    &&& forall|p: (usize, usize), q: (usize, usize)|
        g.contains(p) && g.contains(q) ==> connected(b, p, q)
}

pub proof fn lemma_connected_refl(b: Board, p: (usize, usize))
    ensures
        connected(b, p, p),
{
    let s: Seq<(usize, usize)> = seq![p];
    assert(is_chain(b, s) && s.len() >= 1 && s.first() == p && s.last() == p);
}

pub proof fn lemma_connected_step(b: Board, p: (usize, usize), q: (usize, usize), r: (
    usize,
    usize,
))
    requires
        connected(b, p, q),
        linked(b, q, r),
    ensures
        connected(b, p, r),
{
    let s = choose|s: Seq<(usize, usize)>|
        is_chain(b, s) && s.len() >= 1 && s.first() == p && s.last() == q;
    let s2 = s.push(r);
    assert forall|i: int, j: int| 0 <= i && i + 1 == j && j < s2.len() implies #[trigger] linked(
        b,
        s2[i],
        s2[j],
    ) by {
        if i < s.len() - 1 {
            assert(linked(b, s[i], s[i + 1]));
        } else {
            assert(s2[i] == q && s2[j] == r);
        }
    }
    assert(is_chain(b, s2) && s2.len() >= 1 && s2.first() == p && s2.last() == r);
}

pub proof fn lemma_connected_sym(b: Board, p: (usize, usize), q: (usize, usize))
    requires
        connected(b, p, q),
    ensures
        connected(b, q, p),
{
    let s = choose|s: Seq<(usize, usize)>|
        is_chain(b, s) && s.len() >= 1 && s.first() == p && s.last() == q;
    let s2 = s.reverse();
    assert forall|i: int, j: int| 0 <= i && i + 1 == j && j < s2.len() implies #[trigger] linked(
        b,
        s2[i],
        s2[j],
    ) by {
        let n = s.len() as int;
        let k = n - 2 - i;
        assert(s2[i] == s[k + 1] && s2[j] == s[k]);
        assert(linked(b, s[k], s[k + 1]));
    }
    assert(is_chain(b, s2) && s2.len() >= 1 && s2.first() == q && s2.last() == p);
}

pub proof fn lemma_connected_trans(b: Board, p: (usize, usize), q: (usize, usize), r: (
    usize,
    usize,
))
    requires
        connected(b, p, q),
        connected(b, q, r),
    ensures
        connected(b, p, r),
{
    let s1 = choose|s: Seq<(usize, usize)>|
        is_chain(b, s) && s.len() >= 1 && s.first() == p && s.last() == q;
    let s2 = choose|s: Seq<(usize, usize)>|
        is_chain(b, s) && s.len() >= 1 && s.first() == q && s.last() == r;
    let s3 = s1 + s2.drop_first();
    assert forall|i: int, j: int| 0 <= i && i + 1 == j && j < s3.len() implies #[trigger] linked(
        b,
        s3[i],
        s3[j],
    ) by {
        let n1 = s1.len() as int;
        if i < n1 - 1 {
            assert(s3[i] == s1[i] && s3[j] == s1[i + 1]);
            assert(linked(b, s1[i], s1[i + 1]));
        } else if i == n1 - 1 {
            assert(s3[i] == s1[n1 - 1] && s3[j] == s2[1]);
            assert(linked(b, s2[0], s2[1]));
        } else {
            let k = i - n1 + 1;
            assert(s3[i] == s2[k] && s3[j] == s2[k + 1]);
            assert(linked(b, s2[k], s2[k + 1]));
        }
    }
    assert(s3.len() >= 1 && s3.first() == p && s3.last() == r);
    assert(is_chain(b, s3));
}

/// A set closed under `linked` that holds the first cell of a chain holds
/// every cell of the chain.
proof fn lemma_chain_stays_in_closed_set(b: Board, g: Set<(usize, usize)>, s: Seq<(usize, usize)>)
    requires
        forall|p: (usize, usize), q: (usize, usize)|
            g.contains(p) && linked(b, p, q) ==> g.contains(q),
        is_chain(b, s),
        s.len() >= 1,
        g.contains(s.first()),
    ensures
        g.contains(s.last()),
    decreases s.len(),
{
    if s.len() > 1 {
        assert(linked(b, s[0], s[1]));
        let s2 = s.drop_first();
        assert(is_chain(b, s2)) by {
            assert forall|i: int, j: int|
                0 <= i && i + 1 == j && j < s2.len() implies #[trigger] linked(
                b,
                s2[i],
                s2[j],
            ) by {
                let k = i + 1;
                assert(s2[i] == s[k] && s2[j] == s[k + 1]);
                assert(linked(b, s[k], s[k + 1]));
            }
        }
        lemma_chain_stays_in_closed_set(b, g, s2);
    }
}

/// Two maximal groups that share a cell are the same group.
pub proof fn lemma_group_unique(b: Board, g1: Set<(usize, usize)>, g2: Set<(usize, usize)>, p: (
    usize,
    usize,
))
    requires
        is_group(b, g1),
        is_group(b, g2),
        g1.contains(p),
        g2.contains(p),
    ensures
        g1 == g2,
{
    assert forall|q: (usize, usize)| g1.contains(q) implies g2.contains(q) by {
        assert(connected(b, p, q));
        let s = choose|s: Seq<(usize, usize)>|
            is_chain(b, s) && s.len() >= 1 && s.first() == p && s.last() == q;
        lemma_chain_stays_in_closed_set(b, g2, s);
    }
    assert forall|q: (usize, usize)| g2.contains(q) implies g1.contains(q) by {
        assert(connected(b, p, q));
        let s = choose|s: Seq<(usize, usize)>|
            is_chain(b, s) && s.len() >= 1 && s.first() == p && s.last() == q;
        lemma_chain_stays_in_closed_set(b, g1, s);
    }
    assert(g1 =~= g2);
}

/// Group maximality: two adjacent cells of the same level that each lie in
/// some maximal group lie in the same group.
pub proof fn lemma_group_maximality(
    b: Board,
    g1: Set<(usize, usize)>,
    g2: Set<(usize, usize)>,
    p: (usize, usize),
    q: (usize, usize),
)
    requires
        is_group(b, g1),
        is_group(b, g2),
        g1.contains(p),
        g2.contains(q),
        linked(b, p, q),
    ensures
        g1 == g2,
{
    assert(g1.contains(q));
    lemma_group_unique(b, g1, g2, q);
}

/// The seen flag of cell `p` in a flat flag vector laid out like the grid.
pub open spec fn cell_seen(b: Board, s: Seq<bool>, p: (usize, usize)) -> bool {
    s[p.0 + p.1 * b.x]
}

/// The flagged cells are closed under `linked`.
pub open spec fn seen_closed(b: Board, s: Seq<bool>) -> bool {
    forall|p: (usize, usize), q: (usize, usize)|
        p.0 < b.x && p.1 < b.y && #[trigger] cell_seen(b, s, p) && #[trigger] linked(b, p, q)
            ==> cell_seen(b, s, q)
}

/// Number of set flags.
pub open spec fn count_true(s: Seq<bool>) -> nat
    decreases s.len(),
{
    if s.len() == 0 {
        0
    } else {
        count_true(s.drop_last()) + if s.last() {
            1nat
        } else {
            0nat
        }
    }
}

proof fn lemma_count_true_le(s: Seq<bool>)
    ensures
        count_true(s) <= s.len(),
    decreases s.len(),
{
    if s.len() > 0 {
        lemma_count_true_le(s.drop_last());
    }
}

proof fn lemma_count_true_set(s: Seq<bool>, i: int)
    requires
        0 <= i < s.len(),
        !s[i],
    ensures
        count_true(s.update(i, true)) == count_true(s) + 1,
    decreases s.len(),
{
    let s2 = s.update(i, true);
    if i == s.len() - 1 {
        assert(s2.drop_last() =~= s.drop_last());
    } else {
        assert(s2.drop_last() =~= s.drop_last().update(i, true));
        lemma_count_true_set(s.drop_last(), i);
    }
}

impl Board {
    /// The cells 4-adjacent to `(x, y)` that lie on the board.
    #[verifier::loop_isolation(false)]
    pub fn neighbours(&self, x: usize, y: usize) -> (ns: Vec<(usize, usize)>)
        requires
            self.wf(),
            x < self.x,
            y < self.y,
        ensures
            forall|i: int|
                0 <= i < ns@.len() ==> adjacent((x, y), #[trigger] ns@[i]) && ns@[i].0 < self.x
                    && ns@[i].1 < self.y,
            forall|q: (usize, usize)|
                adjacent((x, y), q) && q.0 < self.x && q.1 < self.y ==> ns@.contains(q),
    {
        let mut ns: Vec<(usize, usize)> = Vec::new();
        if x + 1 < self.x {
            ns.push((x + 1, y));
        }
        if x > 0 {
            ns.push((x - 1, y));
        }
        if y + 1 < self.y {
            ns.push((x, y + 1));
        }
        if y > 0 {
            ns.push((x, y - 1));
        }
        proof {
            assert forall|q: (usize, usize)|
                adjacent((x, y), q) && q.0 < self.x && q.1 < self.y implies ns@.contains(q) by {
                if q.0 == x + 1 && q.1 == y {
                    assert(ns@[0] == q);
                } else if x > 0 && q.0 == x - 1 && q.1 == y {
                    if x + 1 < self.x {
                        assert(ns@[1] == q);
                    } else {
                        assert(ns@[0] == q);
                    }
                } else if q.0 == x && q.1 == y + 1 {
                    let i = ns@.len() - (if y > 0 { 2int } else { 1int });
                    assert(ns@[i] == q);
                } else {
                    assert(y > 0 && q.0 == x && q.1 == y - 1);
                    assert(ns@[ns@.len() - 1] == q);
                }
            }
        }
        ns
    }

    /// Whether some 4-neighbor of `(x, y)` holds the same nonzero level.
    #[verifier::loop_isolation(false)]
    pub fn has_linked_neighbour(&self, x: usize, y: usize) -> (r: bool)
        requires
            self.wf(),
            x < self.x,
            y < self.y,
        ensures
            r == groupable(*self, (x, y)),
    {
        let v = self.get(x, y);
        if v == 0 {
            return false;
        }
        let ns = self.neighbours(x, y);
        let mut i: usize = 0;
        while i < ns.len()
            invariant
                i <= ns@.len(),
                forall|k: int|
                    0 <= k < i ==> self.at((#[trigger] ns@[k]).0 as int, ns@[k].1 as int) != v,
            decreases ns@.len() - i,
        {
            let q = ns[i];
            if self.get(q.0, q.1) == v {
                proof {
                    assert(linked(*self, (x, y), q));
                }
                return true;
            }
            i = i + 1;
        }
        proof {
            assert forall|q: (usize, usize)| !linked(*self, (x, y), q) by {
                if linked(*self, (x, y), q) {
                    assert(ns@.contains(q));
                    let k = choose|k: int| 0 <= k < ns@.len() && ns@[k] == q;
                    assert(self.at(ns@[k].0 as int, ns@[k].1 as int) != v);
                }
            }
        }
        false
    }

    /// Collects, into a fresh group, every cell of the connected component of
    /// `(sx, sy)` under `linked`, marking each collected cell in `seen`.
    #[verifier::loop_isolation(false)]
    fn flood(&self, sx: usize, sy: usize, seen: &mut Vec<bool>) -> (g: Vec<(usize, usize)>)
        requires
            self.wf(),
            sx < self.x,
            sy < self.y,
            old(seen)@.len() == self.x * self.y,
            groupable(*self, (sx, sy)),
            !cell_seen(*self, old(seen)@, (sx, sy)),
            seen_closed(*self, old(seen)@),
        ensures
            final(seen)@.len() == old(seen)@.len(),
            g@.no_duplicates(),
            g@.to_set().contains((sx, sy)),
            is_group(*self, g@.to_set()),
            forall|p: (usize, usize)| #![all_triggers]
                g@.contains(p) ==> !cell_seen(*self, old(seen)@, p),
            forall|p: (usize, usize)| #![all_triggers]
                p.0 < self.x && p.1 < self.y ==> (cell_seen(*self, final(seen)@, p) <==> cell_seen(
                    *self,
                    old(seen)@,
                    p,
                ) || g@.contains(p)),
    {
        let ghost s0 = seen@;
        let v0 = self.get(sx, sy);
        proof {
            let w = choose|q: (usize, usize)| linked(*self, (sx, sy), q);
            assert(v0 != 0);
            lemma_grid_index(sx as int, sy as int, self.x as int, self.y as int);
            lemma_count_true_set(seen@, sx + sy * self.x);
            lemma_count_true_le(s0.update(sx + sy * self.x, true));
        }
        let n = seen.len();
        seen.set(sx + sy * self.x, true);
        let mut g: Vec<(usize, usize)> = Vec::new();
        let mut stack: Vec<(usize, usize)> = Vec::new();
        g.push((sx, sy));
        stack.push((sx, sy));
        proof {
            lemma_connected_refl(*self, (sx, sy));
            assert forall|p: (usize, usize)| p.0 < self.x && p.1 < self.y implies (cell_seen(
                *self,
                seen@,
                p,
            ) <==> cell_seen(*self, s0, p) || g@.contains(p)) by {
                lemma_grid_index(p.0 as int, p.1 as int, self.x as int, self.y as int);
                if p.0 + p.1 * self.x == sx + sy * self.x {
                    lemma_grid_index_injective(
                        p.0 as int,
                        p.1 as int,
                        sx as int,
                        sy as int,
                        self.x as int,
                    );
                    assert(g@[0] == p);
                }
            }
        }
        while stack.len() > 0
            invariant
                seen@.len() == s0.len(),
                g@.no_duplicates(),
                stack@.no_duplicates(),
                g@[0] == (sx, sy),
                g@.len() >= 1,
                forall|k: int|
                    0 <= k < g@.len() ==> (#[trigger] g@[k]).0 < self.x && g@[k].1 < self.y
                        && self.at(g@[k].0 as int, g@[k].1 as int) == v0 && !cell_seen(
                        *self,
                        s0,
                        g@[k],
                    ),
                forall|p: (usize, usize)|
                    p.0 < self.x && p.1 < self.y ==> (cell_seen(*self, seen@, p) <==> cell_seen(
                        *self,
                        s0,
                        p,
                    ) || g@.contains(p)),
                forall|k: int| 0 <= k < stack@.len() ==> g@.contains(#[trigger] stack@[k]),
                forall|k: int| 0 <= k < g@.len() ==> connected(*self, (sx, sy), #[trigger] g@[k]),
                forall|p: (usize, usize), q: (usize, usize)|
                    g@.contains(p) && !stack@.contains(p) && #[trigger] linked(*self, p, q)
                        ==> g@.contains(q),
                count_true(seen@) == count_true(s0) + g@.len(),
                count_true(seen@) <= seen@.len(),
            decreases seen@.len() - count_true(seen@), stack@.len(),
        {
            let ghost stack_pre = stack@;
            let p = stack.pop().unwrap();
            let ghost stack_after_pop = stack@;
            assert(g@.contains(p));
            proof {
                assert forall|p2: (usize, usize)| #[trigger] stack_pre.contains(p2) implies
                    stack@.contains(p2) || p2 == p by {
                    let k = choose|k: int| 0 <= k < stack_pre.len() && stack_pre[k] == p2;
                    if k < stack_pre.len() - 1 {
                        assert(stack@[k] == p2);
                    }
                }
                assert(!stack@.contains(p)) by {
                    if stack@.contains(p) {
                        let k = choose|k: int| 0 <= k < stack@.len() && stack@[k] == p;
                        assert(stack_pre[k] == p && stack_pre[stack_pre.len() - 1] == p);
                    }
                }
            }
            let ns = self.neighbours(p.0, p.1);
            let ghost g_pop_len = g@.len();
            let mut i: usize = 0;
            while i < ns.len()
                invariant
                    i <= ns@.len(),
                    seen@.len() == s0.len(),
                    g@.no_duplicates(),
                    stack@.no_duplicates(),
                    g@[0] == (sx, sy),
                    g@.len() >= 1,
                    g@.contains(p),
                    forall|k: int|
                        0 <= k < g@.len() ==> (#[trigger] g@[k]).0 < self.x && g@[k].1 < self.y
                            && self.at(g@[k].0 as int, g@[k].1 as int) == v0 && !cell_seen(
                            *self,
                            s0,
                            g@[k],
                        ),
                    forall|p2: (usize, usize)|
                        p2.0 < self.x && p2.1 < self.y ==> (cell_seen(*self, seen@, p2)
                            <==> cell_seen(*self, s0, p2) || g@.contains(p2)),
                    forall|k: int| 0 <= k < stack@.len() ==> g@.contains(#[trigger] stack@[k]),
                    forall|k: int|
                        0 <= k < g@.len() ==> connected(*self, (sx, sy), #[trigger] g@[k]),
                    forall|p2: (usize, usize), q: (usize, usize)|
                        g@.contains(p2) && !stack@.contains(p2) && p2 != p && #[trigger] linked(
                            *self,
                            p2,
                            q,
                        ) ==> g@.contains(q),
                    forall|k: int|
                        0 <= k < i && self.at((#[trigger] ns@[k]).0 as int, ns@[k].1 as int) == v0
                            ==> g@.contains(ns@[k]),
                    count_true(seen@) == count_true(s0) + g@.len(),
                    count_true(seen@) <= seen@.len(),
                    !stack@.contains(p),
                    g_pop_len <= g@.len(),
                    stack@.len() + g_pop_len == stack_after_pop.len() + g@.len(),
                decreases ns@.len() - i,
            {
                let q = ns[i];
                let qv = self.get(q.0, q.1);
                if qv == v0 {
                    proof {
                        assert(linked(*self, p, q));
                        lemma_grid_index(q.0 as int, q.1 as int, self.x as int, self.y as int);
                    }
                    let qi = q.0 + q.1 * self.x;
                    if !seen[qi] {
                        proof {
                            lemma_count_true_set(seen@, qi as int);
                            lemma_count_true_le(seen@.update(qi as int, true));
                            assert(!g@.contains(q));
                            let k0 = choose|k0: int|
                                0 <= k0 < g@.len() && g@[k0] == p && connected(
                                    *self,
                                    (sx, sy),
                                    g@[k0],
                                );
                            lemma_connected_step(*self, (sx, sy), p, q);
                        }
                        seen.set(qi, true);
                        let ghost g_before = g@;
                        let ghost stack_before = stack@;
                        g.push(q);
                        stack.push(q);
                        proof {
                            assert forall|p2: (usize, usize)| #[trigger] g_before.contains(p2)
                                implies g@.contains(p2) by {
                                let k = choose|k: int|
                                    0 <= k < g_before.len() && g_before[k] == p2;
                                assert(g@[k] == p2);
                            }
                            assert forall|p2: (usize, usize)| #[trigger] stack@.contains(p2)
                                implies stack_before.contains(p2) || p2 == q by {
                                let k = choose|k: int|
                                    0 <= k < stack@.len() && stack@[k] == p2;
                                if k < stack@.len() - 1 {
                                    assert(stack_before[k] == p2);
                                }
                            }
                            assert forall|p2: (usize, usize)| #[trigger] stack_before.contains(p2)
                                implies stack@.contains(p2) by {
                                let k = choose|k: int|
                                    0 <= k < stack_before.len() && stack_before[k] == p2;
                                assert(stack@[k] == p2);
                            }
                            assert(g@.contains(q)) by {
                                assert(g@[g@.len() - 1] == q);
                            }
                            assert(stack@.contains(q)) by {
                                assert(stack@[stack@.len() - 1] == q);
                            }
                            assert forall|p2: (usize, usize)|
                                p2.0 < self.x && p2.1 < self.y implies (cell_seen(*self, seen@, p2)
                                <==> cell_seen(*self, s0, p2) || g@.contains(p2)) by {
                                lemma_grid_index(
                                    p2.0 as int,
                                    p2.1 as int,
                                    self.x as int,
                                    self.y as int,
                                );
                                if p2.0 + p2.1 * self.x == qi {
                                    lemma_grid_index_injective(
                                        p2.0 as int,
                                        p2.1 as int,
                                        q.0 as int,
                                        q.1 as int,
                                        self.x as int,
                                    );
                                    assert(g@[g@.len() - 1] == p2);
                                } else {
                                    assert(g@.contains(p2) <==> g_before.contains(p2)) by {
                                        if g_before.contains(p2) {
                                            let k = choose|k: int|
                                                0 <= k < g_before.len() && g_before[k] == p2;
                                            assert(g@[k] == p2);
                                        } else if g@.contains(p2) {
                                            let k = choose|k: int|
                                                0 <= k < g@.len() && g@[k] == p2;
                                            if k < g@.len() - 1 {
                                                assert(g_before[k] == p2);
                                            }
                                        }
                                    }
                                }
                            }
                        }
                    } else {
                        proof {
                            assert(cell_seen(*self, seen@, q));
                            if cell_seen(*self, s0, q) {
                                assert(linked(*self, q, p));
                                assert(cell_seen(*self, s0, p));
                                assert(false);
                            }
                            assert(g@.contains(q));
                        }
                    }
                }
                i = i + 1;
            }
            proof {
                assert forall|p2: (usize, usize), q: (usize, usize)|
                    g@.contains(p2) && !stack@.contains(p2) && #[trigger] linked(*self, p2, q)
                        implies g@.contains(q) by {
                    if p2 == p {
                        assert(adjacent(p, q) && q.0 < self.x && q.1 < self.y);
                        assert(ns@.contains(q));
                        let k = choose|k: int| 0 <= k < ns@.len() && ns@[k] == q;
                        assert(self.at(q.0 as int, q.1 as int) == v0);
                        assert(g@.contains(ns@[k]));
                    }
                }
            }
        }
        proof {
            let gs = g@.to_set();
            broadcast use vstd::seq_lib::seq_to_set_is_finite;

            g@.unique_seq_to_set();
            let w = choose|q: (usize, usize)| linked(*self, (sx, sy), q);
            assert(g@.contains((sx, sy)));
            assert(g@.contains(w));
            assert(w != (sx, sy));
            let kw = choose|k: int| 0 <= k < g@.len() && g@[k] == w;
            assert(g@.len() >= 2) by {
                if g@.len() < 2 {
                    assert(g@[kw] == g@[0]);
                }
            }
            assert(gs.len() >= 2);
            assert forall|p2: (usize, usize), q: (usize, usize)|
                gs.contains(p2) && gs.contains(q) implies connected(*self, p2, q) by {
                lemma_connected_sym(*self, (sx, sy), p2);
                lemma_connected_trans(*self, p2, (sx, sy), q);
            }
            assert(is_group(*self, gs));
        }
        g
    }

    /// Returns every maximal group of the board: each returned vector lists,
    /// without duplicates, the cells of one connected component of two or
    /// more equal-level tiles. No cell lies in two returned groups, and every
    /// cell with an equal-level neighbor lies in one of them.
    #[verifier::loop_isolation(false)]
    pub fn find_groups(&self) -> (groups: Vec<Vec<(usize, usize)>>)
        requires
            self.wf(),
        ensures
            forall|k: int| 0 <= k < groups@.len() ==> is_group(*self, (#[trigger] groups@[k])@.to_set()),
            forall|k: int| 0 <= k < groups@.len() ==> (#[trigger] groups@[k])@.no_duplicates(),
            forall|k1: int, k2: int, p: (usize, usize)|
                0 <= k1 < groups@.len() && 0 <= k2 < groups@.len() && k1 != k2
                    && #[trigger] groups@[k1]@.contains(p) ==> !(#[trigger] groups@[k2]@.contains(
                    p,
                )),
            forall|p: (usize, usize)|
                #[trigger] groupable(*self, p) ==> exists|k: int|
                    0 <= k < groups@.len() && (#[trigger] groups@[k])@.contains(p),
    {
        let n = self.tab.len();
        let mut seen: Vec<bool> = Vec::new();
        let mut i: usize = 0;
        while i < n
            invariant
                i <= n,
                seen@.len() == i,
                forall|j: int| 0 <= j < i ==> !seen@[j],
            decreases n - i,
        {
            seen.push(false);
            i = i + 1;
        }
        proof {
            assert forall|p: (usize, usize)| p.0 < self.x && p.1 < self.y implies !cell_seen(
                *self,
                seen@,
                p,
            ) by {
                lemma_grid_index(p.0 as int, p.1 as int, self.x as int, self.y as int);
            }
        }
        let mut groups: Vec<Vec<(usize, usize)>> = Vec::new();
        let mut c: usize = 0;
        while c < self.x
            invariant
                c <= self.x,
                seen@.len() == self.x * self.y,
                forall|k: int|
                    0 <= k < groups@.len() ==> is_group(*self, (#[trigger] groups@[k])@.to_set()),
                forall|k: int| 0 <= k < groups@.len() ==> (#[trigger] groups@[k])@.no_duplicates(),
                forall|p: (usize, usize)| #![all_triggers]
                    p.0 < self.x && p.1 < self.y ==> (cell_seen(*self, seen@, p) <==> exists|k: int|
                        0 <= k < groups@.len() && (#[trigger] groups@[k])@.contains(p)),
                forall|k1: int, k2: int, p: (usize, usize)|
                    0 <= k1 < groups@.len() && 0 <= k2 < groups@.len() && k1 != k2
                        && #[trigger] groups@[k1]@.contains(p) ==> !(
                    #[trigger] groups@[k2]@.contains(p)),
                seen_closed(*self, seen@),
                forall|p: (usize, usize)|
                    p.0 < c && p.1 < self.y && #[trigger] groupable(*self, p) ==> cell_seen(
                        *self,
                        seen@,
                        p,
                    ),
            decreases self.x - c,
        {
            let mut r: usize = 0;
            while r < self.y
                invariant
                    r <= self.y,
                    c < self.x,
                    seen@.len() == self.x * self.y,
                    forall|k: int|
                        0 <= k < groups@.len() ==> is_group(
                            *self,
                            (#[trigger] groups@[k])@.to_set(),
                        ),
                    forall|k: int|
                        0 <= k < groups@.len() ==> (#[trigger] groups@[k])@.no_duplicates(),
                    forall|p: (usize, usize)| #![all_triggers]
                        p.0 < self.x && p.1 < self.y ==> (cell_seen(*self, seen@, p) <==> exists|
                            k: int,
                        |
                            0 <= k < groups@.len() && (#[trigger] groups@[k])@.contains(p)),
                    forall|k1: int, k2: int, p: (usize, usize)|
                        0 <= k1 < groups@.len() && 0 <= k2 < groups@.len() && k1 != k2
                            && #[trigger] groups@[k1]@.contains(p) ==> !(
                        #[trigger] groups@[k2]@.contains(p)),
                    seen_closed(*self, seen@),
                    forall|p: (usize, usize)|
                        p.0 < c && p.1 < self.y && #[trigger] groupable(*self, p) ==> cell_seen(
                            *self,
                            seen@,
                            p,
                        ),
                    forall|p: (usize, usize)|
                        p.0 == c && p.1 < r && #[trigger] groupable(*self, p) ==> cell_seen(
                            *self,
                            seen@,
                            p,
                        ),
                decreases self.y - r,
            {
                proof {
                    lemma_grid_index(c as int, r as int, self.x as int, self.y as int);
                }
                let idx = c + r * self.x;
                if !seen[idx] {
                    let v = self.get(c, r);
                    if v != 0 && self.has_linked_neighbour(c, r) {
                        let ghost seen_before = seen@;
                        let ghost groups_before = groups@;
                        let g = self.flood(c, r, &mut seen);
                        proof {
                            assert forall|p: (usize, usize)| #![all_triggers]
                                p.0 < self.x && p.1 < self.y implies (cell_seen(*self, seen@, p)
                                <==> cell_seen(*self, seen_before, p) || g@.contains(p)) by {
                                let witness = g@.contains(p);
                            }
                        }
                        groups.push(g);
                        proof {
                            let gl = groups@.len() - 1;
                            assert(groups@[gl] == g);
                            assert forall|p: (usize, usize)|
                                p.0 < self.x && p.1 < self.y implies (cell_seen(*self, seen@, p)
                                <==> exists|k: int|
                                    0 <= k < groups@.len() && (#[trigger] groups@[k])@.contains(
                                        p,
                                    )) by {
                                if cell_seen(*self, seen@, p) {
                                    if cell_seen(*self, seen_before, p) {
                                        let k = choose|k: int|
                                            0 <= k < groups_before.len() && (
                                            #[trigger] groups_before[k])@.contains(p);
                                        assert(groups@[k]@.contains(p));
                                    } else {
                                        assert(g@.contains(p));
                                        assert(groups@[gl]@.contains(p));
                                    }
                                } else {
                                    assert(!cell_seen(*self, seen_before, p));
                                    assert forall|k: int|
                                        0 <= k < groups@.len() implies !(
                                    #[trigger] groups@[k])@.contains(p) by {
                                        if k < gl {
                                            assert(groups@[k] == groups_before[k]);
                                            assert(!groups_before[k]@.contains(p));
                                        } else {
                                            assert(groups@[gl] == g);
                                            assert(!g@.contains(p));
                                        }
                                    }
                                }
                            }
                            assert forall|k1: int, k2: int, p: (usize, usize)|
                                0 <= k1 < groups@.len() && 0 <= k2 < groups@.len() && k1 != k2
                                && #[trigger] groups@[k1]@.contains(p) implies !(
                            #[trigger] groups@[k2]@.contains(p)) by {
                                if k1 == gl {
                                    if k2 < gl && groups@[k2]@.contains(p) {
                                        assert(groups_before[k2] == groups@[k2]);
                                        assert(groups_before[k2]@.contains(p));
                                        assert(groups_before[k2]@.to_set().contains(p));
                                        assert(p.0 < self.x && p.1 < self.y);
                                        assert(cell_seen(*self, seen_before, p));
                                        assert(g@.contains(p));
                                        assert(false);
                                    }
                                } else if k2 == gl {
                                    if groups@[k2]@.contains(p) {
                                        assert(groups_before[k1] == groups@[k1]);
                                        assert(groups_before[k1]@.contains(p));
                                        assert(groups_before[k1]@.to_set().contains(p));
                                        assert(p.0 < self.x && p.1 < self.y);
                                        assert(cell_seen(*self, seen_before, p));
                                        assert(g@.contains(p));
                                        assert(false);
                                    }
                                } else {
                                    assert(groups_before[k1] == groups@[k1]);
                                    assert(groups_before[k2] == groups@[k2]);
                                    assert(groups_before[k1]@.contains(p));
                                }
                            }
                            assert(seen_closed(*self, seen@)) by {
                                assert forall|p: (usize, usize), q: (usize, usize)|
                                    p.0 < self.x && p.1 < self.y && #[trigger] cell_seen(
                                        *self,
                                        seen@,
                                        p,
                                    ) && #[trigger] linked(*self, p, q) implies cell_seen(
                                    *self,
                                    seen@,
                                    q,
                                ) by {
                                    if cell_seen(*self, seen_before, p) {
                                        assert(cell_seen(*self, seen_before, q));
                                    } else {
                                        assert(g@.contains(p));
                                        assert(g@.to_set().contains(p));
                                        assert(g@.to_set().contains(q));
                                    }
                                }
                            }
                        }
                    } else {
                        proof {
                            if groupable(*self, (c, r)) {
                                let q = choose|q: (usize, usize)| linked(*self, (c, r), q);
                                assert(self.at(c as int, r as int) != 0);
                                assert(false);
                            }
                        }
                    }
                }
                proof {
                    assert forall|p: (usize, usize)|
                        p.0 == c && p.1 < r + 1 && #[trigger] groupable(*self, p) implies cell_seen(
                        *self,
                        seen@,
                        p,
                    ) by {
                        if p.1 == r {
                            assert(p == (c, r));
                        }
                    }
                }
                r = r + 1;
            }
            c = c + 1;
        }
        proof {
            assert forall|p: (usize, usize)| #[trigger] groupable(*self, p) implies exists|k: int|
                0 <= k < groups@.len() && (#[trigger] groups@[k])@.contains(p) by {
                let q = choose|q: (usize, usize)| linked(*self, p, q);
                assert(p.0 < self.x && p.1 < self.y);
                assert(cell_seen(*self, seen@, p));
            }
        }
        groups
    }
}

} // verus!
