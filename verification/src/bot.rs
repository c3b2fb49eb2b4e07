//! The move-search bot: a one-ply lookahead over every legal placement.

use vstd::prelude::*;
use crate::board::Board;
use crate::game::{Game, Orientation, move_in_range, targets_free, placed_rel};
use crate::merge::{evolve_rel, no_eligible};
use crate::board::settled;

verus! {

/// Every syntactically legal move for a board of width `x`: the horizontal
/// shapes over columns `0..x-1`, then the vertical shapes over `0..x`.
pub open spec fn all_moves(x: int) -> Seq<(usize, Orientation)> {
    Seq::new((x - 1) as nat, |i: int| (i as usize, Orientation::Horizontal)) + Seq::new(
        (x - 1) as nat,
        |i: int| (i as usize, Orientation::RevHorizontal),
    ) + Seq::new(x as nat, |i: int| (i as usize, Orientation::Vertical)) + Seq::new(
        x as nat,
        |i: int| (i as usize, Orientation::RevVertical),
    )
}

/// `10^n`.
pub open spec fn pow10(n: nat) -> nat
    decreases n,
{
    if n == 0 {
        1
    } else {
        10 * pow10((n - 1) as nat)
    }
}

/// Sum of `10^level` over the first `n` cells of a flat grid.
pub open spec fn spec_score_to(s: Seq<u32>, n: int) -> nat
    decreases n,
{
    if n <= 0 {
        0
    } else {
        spec_score_to(s, n - 1) + pow10(s[n - 1] as nat)
    }
}

/// The board score: the sum over all cells of `10^level` (an empty cell
/// contributes 1).
pub open spec fn spec_score(b: Board) -> nat {
    spec_score_to(b.tab@, b.tab@.len() as int)
}

/// A mathematical value clamped into `u128`.
pub open spec fn sat128(n: nat) -> u128 {
    if n <= u128::MAX {
        n as u128
    } else {
        u128::MAX
    }
}

proof fn lemma_pow10_bounds()
    ensures
        pow10(38) <= u128::MAX,
        pow10(39) > u128::MAX,
{
    reveal_with_fuel(pow10, 41);
}

proof fn lemma_pow10_pos(n: nat)
    ensures
        pow10(n) >= 1,
    decreases n,
{
    if n > 0 {
        lemma_pow10_pos((n - 1) as nat);
    }
}

proof fn lemma_pow10_mono(a: nat, b: nat)
    requires
        a <= b,
    ensures
        pow10(a) <= pow10(b),
    decreases b,
{
    if a < b {
        lemma_pow10_mono(a, (b - 1) as nat);
        lemma_pow10_pos((b - 1) as nat);
    }
}

/// `10^l`, clamped into `u128`.
#[verifier::loop_isolation(false)]
fn pow10_sat(l: u32) -> (r: u128)
    ensures
        r == sat128(pow10(l as nat)),
{
    if l >= 39 {
        proof {
            lemma_pow10_bounds();
            lemma_pow10_mono(39, l as nat);
        }
        return u128::MAX;
    }
    let mut acc: u128 = 1;
    let mut i: u32 = 0;
    while i < l
        invariant
            i <= l,
            acc == pow10(i as nat),
            pow10(i as nat) <= u128::MAX,
        decreases l - i,
    {
        proof {
            lemma_pow10_bounds();
            lemma_pow10_mono((i + 1) as nat, 38);
        }
        acc = acc * 10;
        i = i + 1;
    }
    proof {
        lemma_pow10_bounds();
        lemma_pow10_mono(l as nat, 38);
    }
    acc
}

/// The board score, clamped into `u128`: the sum over all cells of
/// `10^level`. The clamp only matters for levels or boards far beyond play.
#[verifier::loop_isolation(false)]
pub fn score(b: &Board) -> (s: u128)
    ensures
        s == sat128(spec_score(*b)),
{
    let n = b.tab.len();
    let mut acc: u128 = 0;
    let mut i: usize = 0;
    while i < n
        invariant
            i <= n,
            acc == sat128(spec_score_to(b.tab@, i as int)),
        decreases n - i,
    {
        let t = pow10_sat(b.tab[i]);
        proof {
            lemma_pow10_pos(b.tab@[i as int] as nat);
        }
        if acc > u128::MAX - t {
            acc = u128::MAX;
        } else {
            acc = acc + t;
        }
        i = i + 1;
    }
    acc
}

/// `s` is a possible score of simulating move `m` from game `g`: the score
/// of the stabilized board when the move places, and 0 when it is rejected.
pub open spec fn play_outcome(g: Game, m: (usize, Orientation), s: u128) -> bool {
    if move_in_range(g.b, m.0 as int, m.1) && targets_free(g.b, m.0 as int, m.1) {
        exists|mid: Board, fin: Board|
            #![all_triggers]
            placed_rel(g.b, mid, m.0 as int, m.1, g.current) && evolve_rel(mid, fin) && settled(
                fin,
            ) && no_eligible(fin) && s == sat128(spec_score(fin))
    } else {
        s == 0
    }
}

/// Enumerates every syntactically legal `(column, orientation)` pair for a
/// board of width `x`, in a fixed order.
#[verifier::loop_isolation(false)]
pub fn available_moves(x: usize) -> (moves: Vec<(usize, Orientation)>)
    requires
        1 <= x,
    ensures
        moves@ == all_moves(x as int),
{
    let mut moves: Vec<(usize, Orientation)> = Vec::new();
    let mut i: usize = 0;
    while i < x - 1
        invariant
            i <= x - 1,
            moves@.len() == i,
            forall|t: int| 0 <= t < i ==> moves@[t] == (t as usize, Orientation::Horizontal),
        decreases x - 1 - i,
    {
        moves.push((i, Orientation::Horizontal));
        i = i + 1;
    }
    let mut i2: usize = 0;
    while i2 < x - 1
        invariant
            i2 <= x - 1,
            moves@.len() == x - 1 + i2,
            forall|t: int| 0 <= t < x - 1 ==> moves@[t] == (t as usize, Orientation::Horizontal),
            forall|t: int|
                x - 1 <= t < x - 1 + i2 ==> moves@[t] == (
                    (t - (x - 1)) as usize,
                    Orientation::RevHorizontal,
                ),
        decreases x - 1 - i2,
    {
        moves.push((i2, Orientation::RevHorizontal));
        i2 = i2 + 1;
    }
    let mut i3: usize = 0;
    while i3 < x
        invariant
            i3 <= x,
            moves@.len() == 2 * (x - 1) + i3,
            forall|t: int| 0 <= t < x - 1 ==> moves@[t] == (t as usize, Orientation::Horizontal),
            forall|t: int|
                x - 1 <= t < 2 * (x - 1) ==> moves@[t] == (
                    (t - (x - 1)) as usize,
                    Orientation::RevHorizontal,
                ),
            forall|t: int|
                2 * (x - 1) <= t < 2 * (x - 1) + i3 ==> moves@[t] == (
                    (t - 2 * (x - 1)) as usize,
                    Orientation::Vertical,
                ),
        decreases x - i3,
    {
        moves.push((i3, Orientation::Vertical));
        i3 = i3 + 1;
    }
    let mut i4: usize = 0;
    while i4 < x
        invariant
            i4 <= x,
            moves@.len() == 2 * (x - 1) + x + i4,
            forall|t: int| 0 <= t < x - 1 ==> moves@[t] == (t as usize, Orientation::Horizontal),
            forall|t: int|
                x - 1 <= t < 2 * (x - 1) ==> moves@[t] == (
                    (t - (x - 1)) as usize,
                    Orientation::RevHorizontal,
                ),
            forall|t: int|
                2 * (x - 1) <= t < 2 * (x - 1) + x ==> moves@[t] == (
                    (t - 2 * (x - 1)) as usize,
                    Orientation::Vertical,
                ),
            forall|t: int|
                2 * (x - 1) + x <= t < 2 * (x - 1) + x + i4 ==> moves@[t] == (
                    (t - (2 * (x - 1) + x)) as usize,
                    Orientation::RevVertical,
                ),
        decreases x - i4,
    {
        moves.push((i4, Orientation::RevVertical));
        i4 = i4 + 1;
    }
    proof {
        assert(moves@ =~= all_moves(x as int));
    }
    moves
}

impl Clone for Game {
    /// A deep copy used for simulating candidate moves: the copy looks
    /// exactly like the original, so simulation never touches the original.
    fn clone(&self) -> (r: Game)
        ensures
            crate::board::same_board(self.b, r.b),
            r.current == self.current,
    {
        Game { b: self.b.clone(), current: self.current }
    }
}

/// Simulates one candidate move on a copy of the game and scores the result.
fn simulate(g: &Game, m: (usize, Orientation)) -> (s: u128)
    requires
        g.wf(),
        move_in_range(g.b, m.0 as int, m.1),
    ensures
        play_outcome(*g, m, s),
{
    let mut sim = g.clone();
    proof {
        assert(sim.wf());
        assert(move_in_range(sim.b, m.0 as int, m.1));
    }
    match sim.play(m.0, m.1) {
        Ok(()) => {
            let s = score(&sim.b);
            proof {
                assert(targets_free(g.b, m.0 as int, m.1));
            }
            s
        },
        Err(_) => {
            proof {
                assert(!targets_free(g.b, m.0 as int, m.1));
            }
            0
        },
    }
}

/// Picks the candidate move whose simulated score is highest. The candidate
/// list is shuffled first, so ties break uniformly at random; the first
/// maximum of the shuffled list wins. Rejected moves score 0, so any
/// placeable move beats them.
#[verifier::loop_isolation(false)]
pub fn best_move(g: &Game) -> (m: (usize, Orientation))
    requires
        g.wf(),
        g.b.x >= 2,
        g.b.y >= 2,
    ensures
        exists|ms: Seq<(usize, Orientation)>, sc: Seq<u128>|
            #![all_triggers]
            ms.to_multiset() == all_moves(g.b.x as int).to_multiset() && sc.len() == ms.len() && (
            forall|i: int| 0 <= i < ms.len() ==> play_outcome(*g, ms[i], sc[i])) && (exists|kk: int|
                0 <= kk < ms.len() && ms[kk] == m && (forall|i: int|
                    0 <= i < ms.len() ==> sc[i] <= sc[kk]) && (forall|i: int|
                    0 <= i < kk ==> sc[i] < sc[kk])),
{
    let mut moves = available_moves(g.b.x);
    crate::rng::shuffle_moves(&mut moves);
    proof {
        broadcast use vstd::seq_lib::group_to_multiset_ensures;

        assert(moves@.len() == all_moves(g.b.x as int).len()) by {
            assert(moves@.to_multiset().len() == all_moves(g.b.x as int).to_multiset().len());
        }
        assert(moves@.len() == 2 * (g.b.x - 1) + 2 * g.b.x);
        assert forall|t: int| 0 <= t < moves@.len() implies move_in_range(
            g.b,
            (#[trigger] moves@[t]).0 as int,
            moves@[t].1,
        ) by {
            assert(moves@.contains(moves@[t]));
            assert(moves@.to_multiset().count(moves@[t]) > 0);
            assert(all_moves(g.b.x as int).to_multiset().count(moves@[t]) > 0);
            assert(all_moves(g.b.x as int).contains(moves@[t]));
            let j = choose|j: int|
                0 <= j < all_moves(g.b.x as int).len() && all_moves(g.b.x as int)[j] == moves@[t];
        }
    }
    let first = moves[0];
    let mut best_m = first;
    let mut best_s = simulate(g, first);
    let ghost mut scores: Seq<u128> = seq![best_s];
    let mut i: usize = 1;
    while i < moves.len()
        invariant
            1 <= i <= moves@.len(),
            scores.len() == i,
            forall|t: int| 0 <= t < i ==> play_outcome(*g, moves@[t], #[trigger] scores[t]),
            exists|kk: int|
                #![all_triggers]
                0 <= kk < i && moves@[kk] == best_m && best_s == scores[kk] && (forall|t: int|
                    0 <= t < i ==> scores[t] <= scores[kk]) && (forall|t: int|
                    0 <= t < kk ==> scores[t] < scores[kk]),
        decreases moves@.len() - i,
    {
        let mv = moves[i];
        let s = simulate(g, mv);
        let ghost scores_before = scores;
        let ghost old_best_s = best_s;
        let ghost old_best_m = best_m;
        proof {
            scores = scores.push(s);
            assert(forall|t: int| 0 <= t < i ==> scores[t] == scores_before[t]);
            assert(scores[i as int] == s);
        }
        if s > best_s {
            best_s = s;
            best_m = mv;
            proof {
                let kk = i as int;
                let k0 = choose|k0: int|
                    #![all_triggers]
                    0 <= k0 < i && moves@[k0] == old_best_m && old_best_s == scores_before[k0] && (
                    forall|t: int| 0 <= t < i ==> scores_before[t] <= scores_before[k0]) && (forall|
                        t: int,
                    |
                        0 <= t < k0 ==> scores_before[t] < scores_before[k0]);
                assert forall|t: int| 0 <= t < i + 1 implies scores[t] <= scores[kk] by {
                    if t < i {
                        assert(scores_before[t] <= scores_before[k0]);
                    }
                }
                assert forall|t: int| 0 <= t < kk implies scores[t] < scores[kk] by {
                    assert(scores_before[t] <= scores_before[k0]);
                }
            }
        } else {
            proof {
                let k0 = choose|k0: int|
                    #![all_triggers]
                    0 <= k0 < i && moves@[k0] == old_best_m && old_best_s == scores_before[k0] && (
                    forall|t: int| 0 <= t < i ==> scores_before[t] <= scores_before[k0]) && (forall|
                        t: int,
                    |
                        0 <= t < k0 ==> scores_before[t] < scores_before[k0]);
                assert(moves@[k0] == best_m && best_s == scores[k0]);
                assert forall|t: int| 0 <= t < i + 1 implies scores[t] <= scores[k0] by {
                    if t < i {
                        assert(scores_before[t] <= scores_before[k0]);
                    }
                }
                assert forall|t: int| 0 <= t < k0 implies scores[t] < scores[k0] by {
                    assert(scores_before[t] < scores_before[k0]);
                }
            }
        }
        i = i + 1;
    }
    proof {
        assert(moves@.to_multiset() == all_moves(g.b.x as int).to_multiset());
    }
    best_m
}

} // verus!
