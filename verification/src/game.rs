//! The game: a board plus the pending pair of tiles awaiting placement.

use vstd::prelude::*;
use crate::board::{Board, LEVEL_CAP, tile_count, settled};
use crate::merge::lemma_tile_count_set;
use crate::merge::{evolve_rel, no_eligible};

verus! {

/// The four shapes in which the pending pair is written onto the board.
#[derive(Clone, Copy, PartialEq, Eq, Structural, Debug)]
pub enum Orientation {
    Horizontal,
    Vertical,
    RevHorizontal,
    RevVertical,
}

/// The one recoverable failure kind: a placement landed on an occupied cell.
#[derive(Clone, Copy, PartialEq, Eq, Structural, Debug)]
pub enum GameErrorKind {
    GameOver,
}

/// Error returned by a rejected move.
#[derive(Clone, Copy, Debug)]
pub struct GameError {
    pub kind: GameErrorKind,
    pub desc: &'static str,
}

pub type GameResult<T> = Result<T, GameError>;

fn error(kind: GameErrorKind, desc: &'static str) -> (e: GameError)
    ensures
        e.kind == kind,
        e.desc == desc,
{
    GameError { kind, desc }
}

/// A running game: one board and the pair of levels to place next.
pub struct Game {
    /// The board being played on.
    pub b: Board,
    /// The pending pair; always drawn from `[1, b.highest]`.
    pub current: (u32, u32),
}

/// The two cells a move writes to, bottom cell first, as `(col, row)`.
pub open spec fn play_cells(b: Board, col: int, o: Orientation) -> ((int, int), (int, int)) {
    let last = b.y - 1;
    match o {
        Orientation::Horizontal | Orientation::RevHorizontal => (
            (col, last),
            (col + 1, last),
        ),
        Orientation::Vertical | Orientation::RevVertical => ((col, last), (col, last - 1)),
    }
}

/// The pair in the order the move writes it: reversed shapes swap it.
pub open spec fn play_values(o: Orientation, pair: (u32, u32)) -> (u32, u32) {
    match o {
        Orientation::Horizontal | Orientation::Vertical => pair,
        Orientation::RevHorizontal | Orientation::RevVertical => (pair.1, pair.0),
    }
}

/// The column (and, for vertical shapes, the height) leaves both target
/// cells on the board; anything else is a caller error.
pub open spec fn move_in_range(b: Board, col: int, o: Orientation) -> bool {
    match o {
        Orientation::Horizontal | Orientation::RevHorizontal => col + 1 < b.x,
        Orientation::Vertical | Orientation::RevVertical => col < b.x && b.y >= 2,
    }
}

/// Both target cells of the move are empty.
pub open spec fn targets_free(b: Board, col: int, o: Orientation) -> bool {
    let cells = play_cells(b, col, o);
    b.at(cells.0.0, cells.0.1) == 0 && b.at(cells.1.0, cells.1.1) == 0
}

/// `post` is `pre` with the pair written onto the move's two cells and
/// nothing else changed.
pub open spec fn placed_rel(pre: Board, post: Board, col: int, o: Orientation, pair: (
    u32,
    u32,
)) -> bool {
    let cells = play_cells(pre, col, o);
    let vals = play_values(o, pair);
    &&& post.x == pre.x
    &&& post.y == pre.y
    &&& post.highest_level() == pre.highest_level()
    &&& post.tab@ == pre.tab@.update(cells.0.0 + cells.0.1 * pre.x, vals.0).update(
        cells.1.0 + cells.1.1 * pre.x,
        vals.1,
    )
}

impl Game {
    /// Well-formedness: the board is well-formed and both pending levels lie
    /// in `[1, highest]`.
    pub open spec fn wf(&self) -> bool {
        &&& self.b.wf()
        &&& 1 <= self.current.0 <= self.b.highest_level()
        &&& 1 <= self.current.1 <= self.b.highest_level()
    }

    /// Starts a game on a fresh empty board with a random initial pair.
    pub fn new(x: usize, y: usize) -> (g: Game)
        requires
            1 <= x,
            1 <= y,
            x * y <= usize::MAX,
        ensures
            g.wf(),
            g.b.x == x,
            g.b.y == y,
            g.b.highest_level() == 2,
            forall|c: int, r: int| g.b.in_bounds(c, r) ==> g.b.at(c, r) == 0,
            1 <= g.current.0 <= 2,
            1 <= g.current.1 <= 2,
    {
        let b = Board::new(x, y);
        let v1 = b.get_random_value();
        let v2 = b.get_random_value();
        Game { b, current: (v1, v2) }
    }

    /// The pending pair.
    pub fn get_current(&self) -> (c: (u32, u32))
        ensures
            c == self.current,
    {
        self.current
    }

    /// Writes the pair onto the move's two cells, or rejects the whole move
    /// untouched when either cell is occupied.
    fn apply_play(&mut self, x: usize, o: Orientation) -> (r: GameResult<()>)
        requires
            old(self).wf(),
            move_in_range(old(self).b, x as int, o),
        ensures
            final(self).current == old(self).current,
            final(self).b.wf(),
            r.is_ok() == targets_free(old(self).b, x as int, o),
            !r.is_ok() ==> *final(self) == *old(self),
            r matches Err(e) ==> e.kind == GameErrorKind::GameOver,
            r.is_ok() ==> placed_rel(old(self).b, final(self).b, x as int, o, old(self).current),
            r.is_ok() ==> tile_count(final(self).b) == tile_count(old(self).b) + 2,
    {
        let last = self.b.y - 1;
        let (v1, v2) = match o {
            Orientation::Horizontal | Orientation::Vertical => self.current,
            Orientation::RevHorizontal | Orientation::RevVertical => (
                self.current.1,
                self.current.0,
            ),
        };
        let (c2, r2) = match o {
            Orientation::Horizontal | Orientation::RevHorizontal => (x + 1, last),
            Orientation::Vertical | Orientation::RevVertical => (x, last - 1),
        };
        if self.b.get(x, last) != 0 || self.b.get(c2, r2) != 0 {
            return Err(error(GameErrorKind::GameOver, "This move ends the game"));
        }
        let ghost b0 = self.b;
        self.b.set(x, last, v1);
        let ghost b1 = self.b;
        self.b.set(c2, r2, v2);
        proof {
            lemma_tile_count_set(b0, b1, x as int, last as int, v1);
            lemma_tile_count_set(b1, self.b, c2 as int, r2 as int, v2);
        }
        Ok(())
    }

    /// Attempts the move. On success the pair is written, the board evolves
    /// to a stable state, and a new pair is drawn; on failure (an occupied
    /// target cell) the game is left exactly as it was.
    pub fn play(&mut self, x: usize, o: Orientation) -> (r: GameResult<()>)
        requires
            old(self).wf(),
            move_in_range(old(self).b, x as int, o),
        ensures
            final(self).wf(),
            final(self).b.x == old(self).b.x,
            final(self).b.y == old(self).b.y,
            r.is_ok() == targets_free(old(self).b, x as int, o),
            !r.is_ok() ==> *final(self) == *old(self),
            r matches Err(e) ==> e.kind == GameErrorKind::GameOver,
            r.is_ok() ==> exists|mid: Board|
                #![all_triggers]
                placed_rel(old(self).b, mid, x as int, o, old(self).current) && evolve_rel(
                    mid,
                    final(self).b,
                ) && settled(final(self).b) && no_eligible(final(self).b) && tile_count(
                    final(self).b,
                ) <= tile_count(mid),
            r.is_ok() ==> old(self).b.highest_level() <= final(self).b.highest_level(),
            r.is_ok() ==> tile_count(final(self).b) <= tile_count(old(self).b) + 2,
    {
        match self.apply_play(x, o) {
            Err(e) => Err(e),
            Ok(()) => {
                let ghost mid = self.b;
                self.b.evolve();
                let n1 = self.b.get_random_value();
                let n2 = self.b.get_random_value();
                self.current = (n1, n2);
                Ok(())
            },
        }
    }
}

} // verus!
