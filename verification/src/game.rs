//! The game interface that the searches drive, and a table-driven game that
//! implements it.

use vstd::prelude::*;

use crate::pvs::INF;

verus! {

/// A two-player game that the searches can drive.
///
/// Moves are plain `u64` handles. The spec functions describe the game as a
/// mathematical object; the executable methods must agree with them.
/// Implementations promise that chains of forced positions (unfinished, with
/// a single legal move) are finite, and that heuristic scores lie within
/// `[-INF, INF]`. Games themselves may be infinite: the searches are bounded
/// by depth, which falls with every move except a forced one.
pub trait GameState: Sized {
    /// The legal moves in this position, in generation order.
    spec fn legal_moves(&self) -> Seq<u64>;

    /// The position reached by playing `mov`.
    spec fn after(&self, mov: u64) -> Self;

    /// Whether the game has reached a terminal state.
    spec fn finished(&self) -> bool;

    /// Heuristic score from the perspective of the side to move.
    spec fn score(&self) -> int;

    /// An upper bound on the length of the chain of forced positions that
    /// starts here.
    spec fn forced_horizon(&self) -> nat;

    /// Playing a move in a forced position brings the end of the chain
    /// closer.
    proof fn lemma_forced_shortens(&self, mov: u64)
        requires
            !self.finished(),
            self.legal_moves().len() == 1,
        ensures
            self.after(mov).forced_horizon() < self.forced_horizon(),
    ;

    /// Scores never exceed the search window's infinity.
    proof fn lemma_score_bounded(&self)
        ensures
            -INF <= self.score() <= INF,
    ;

    /// Enumerates the legal moves in the current state.
    fn moves(&self) -> (moves: Vec<u64>)
        ensures
            moves@ == self.legal_moves(),
    ;

    /// Applies `mov`, advancing the state by one ply.
    fn play(&mut self, mov: u64)
        ensures
            *final(self) == old(self).after(mov),
    ;

    /// Returns whether the game has reached a terminal state.
    fn is_over(&self) -> (over: bool)
        ensures
            over == self.finished(),
    ;

    /// Heuristic score from the perspective of the side to move.
    fn evaluate_i32(&self) -> (score: i32)
        ensures
            score == self.score(),
    ;

    /// Returns an independent copy of the state.
    fn duplicate(&self) -> (copy: Self)
        ensures
            copy == *self,
    ;
}

/// One position of a [`PositionTable`].
pub struct Position {
    /// Whether the game is over in this position.
    pub over: bool,
    /// Heuristic score from the perspective of the side to move.
    pub eval: i32,
    /// Legal moves, in generation order.
    pub moves: Vec<u64>,
    /// `children[j]` is the index of the position reached by `moves[j]`.
    pub children: Vec<usize>,
}

/// A finite game given explicitly as a table of positions.
///
/// Position `0` is the start. Every move leads to a position with a larger
/// index, so every line of play ends.
pub struct PositionTable {
    positions: Vec<Position>,
}

/// A state of a game described by a [`PositionTable`]: a cursor into it.
#[derive(Clone, Copy)]
pub struct TableGame<'a> {
    /// The table being played.
    pub table: &'a PositionTable,
    /// The index of the current position; past the end once play has left
    /// the table.
    pub at: usize,
}

/// Whether position `k` of `ps` is well formed.
pub open spec fn position_wf(ps: Seq<Position>, k: int) -> bool {
    let p = ps[k];
    &&& p.moves@.len() == p.children@.len()
    &&& -INF <= p.eval <= INF
    &&& forall|j: int| 0 <= j < p.children@.len() ==> k < #[trigger] p.children@[j] < ps.len()
}

/// Whether every position of `ps` is well formed.
pub open spec fn table_wf(ps: Seq<Position>) -> bool {
    forall|k: int| 0 <= k < ps.len() ==> #[trigger] position_wf(ps, k)
}

/// The index of the first occurrence of `mov` in `moves`, or `moves.len()`.
pub open spec fn first_index(moves: Seq<u64>, mov: u64) -> nat
    decreases moves.len(),
{
    if moves.len() == 0 {
        0
    } else if moves[0] == mov {
        0
    } else {
        1 + first_index(moves.drop_first(), mov)
    }
}

pub(crate) proof fn lemma_first_index(moves: Seq<u64>, mov: u64)
    ensures
        first_index(moves, mov) <= moves.len(),
        first_index(moves, mov) < moves.len() ==> moves[first_index(moves, mov) as int] == mov,
        forall|j: int| 0 <= j < first_index(moves, mov) ==> moves[j] != mov,
    decreases moves.len(),
{
    if moves.len() > 0 && moves[0] != mov {
        lemma_first_index(moves.drop_first(), mov);
        assert forall|j: int| 0 <= j < first_index(moves, mov) implies moves[j] != mov by {
            if j > 0 {
                assert(moves[j] == moves.drop_first()[j - 1]);
            }
        }
    }
}

impl PositionTable {
    #[verifier::type_invariant]
    spec fn inv(self) -> bool {
        table_wf(self.positions@)
    }

    /// The positions of the table.
    pub closed spec fn view_positions(self) -> Seq<Position> {
        self.positions@
    }

    /// Builds a table from its positions, or returns `None` if some position
    /// has a different number of moves and children, a score outside
    /// `[-INF, INF]`, or a child whose index is not both larger than its own
    /// and within the table.
    pub fn new(positions: Vec<Position>) -> (table: Option<PositionTable>)
        ensures
            table is Some <==> table_wf(positions@),
            table matches Some(t) ==> t.view_positions() == positions@,
    {
        let n = positions.len();
        let mut k: usize = 0;
        while k < n
            invariant
                n == positions@.len(),
                k <= n,
                forall|i: int| 0 <= i < k ==> #[trigger] position_wf(positions@, i),
            decreases n - k,
        {
            let p = &positions[k];
            if p.moves.len() != p.children.len() || p.eval < -INF || p.eval > INF {
                assert(!position_wf(positions@, k as int));
                return None;
            }
            let m = p.children.len();
            let mut j: usize = 0;
            while j < m
                invariant
                    n == positions@.len(),
                    k < n,
                    *p == positions@[k as int],
                    m == p.children@.len(),
                    j <= m,
                    forall|i: int| 0 <= i < j ==> k < #[trigger] p.children@[i] < n,
                decreases m - j,
            {
                let c = p.children[j];
                if c <= k || c >= n {
                    assert(!position_wf(positions@, k as int));
                    return None;
                }
                j += 1;
            }
            assert(position_wf(positions@, k as int));
            k += 1;
        }
        Some(PositionTable { positions })
    }

    /// Returns the number of positions.
    pub fn len(&self) -> (n: usize)
        ensures
            n == self.view_positions().len(),
    {
        self.positions.len()
    }
}

impl<'a> TableGame<'a> {
    /// Starts a game at position `0` of `table`.
    pub fn new(table: &'a PositionTable) -> (game: TableGame<'a>)
        ensures
            game.at == 0,
            game.table == table,
    {
        TableGame { table, at: 0 }
    }
}

impl<'a> GameState for TableGame<'a> {
    open spec fn legal_moves(&self) -> Seq<u64> {
        if self.at < self.table.view_positions().len() {
            self.table.view_positions()[self.at as int].moves@
        } else {
            Seq::empty()
        }
    }

    /// A move that is not legal, or that leads outside the table, leaves the
    /// table: the game is then over.
    open spec fn after(&self, mov: u64) -> Self {
        let n = self.table.view_positions().len();
        if self.at < n {
            let p = self.table.view_positions()[self.at as int];
            let j = first_index(p.moves@, mov);
            if j < p.children@.len() && self.at < p.children@[j as int] < n {
                TableGame { table: self.table, at: p.children@[j as int] }
            } else {
                TableGame { table: self.table, at: n as usize }
            }
        } else {
            TableGame { table: self.table, at: n as usize }
        }
    }

    open spec fn finished(&self) -> bool {
        ||| self.table.view_positions().len() > usize::MAX
        ||| self.at >= self.table.view_positions().len()
        ||| self.table.view_positions()[self.at as int].over
    }

    open spec fn score(&self) -> int {
        if self.at < self.table.view_positions().len() {
            let e = self.table.view_positions()[self.at as int].eval as int;
            if e < -INF {
                -INF as int
            } else if e > INF {
                INF as int
            } else {
                e
            }
        } else {
            0
        }
    }

    open spec fn forced_horizon(&self) -> nat {
        if self.at < self.table.view_positions().len() {
            (self.table.view_positions().len() - self.at) as nat
        } else {
            0
        }
    }

    proof fn lemma_forced_shortens(&self, mov: u64) {
    }

    proof fn lemma_score_bounded(&self) {
    }

    fn moves(&self) -> (moves: Vec<u64>) {
        if self.at < self.table.positions.len() {
            self.table.positions[self.at].moves.clone()
        } else {
            Vec::new()
        }
    }

    fn play(&mut self, mov: u64) {
        proof {
            use_type_invariant(self.table);
        }
        let n = self.table.positions.len();
        if self.at < n {
            let p = &self.table.positions[self.at];
            proof {
                lemma_first_index(p.moves@, mov);
                assert(position_wf(self.table.positions@, self.at as int));
            }
            let m = p.moves.len();
            let mut j: usize = 0;
            while j < m
                invariant
                    m == p.moves@.len(),
                    j <= m,
                    forall|i: int| 0 <= i < j ==> p.moves@[i] != mov,
                    j <= first_index(p.moves@, mov) <= m,
                    first_index(p.moves@, mov) < m ==> p.moves@[first_index(p.moves@, mov) as int]
                        == mov,
                ensures
                    j <= m,
                    j < m ==> p.moves@[j as int] == mov,
                    j <= first_index(p.moves@, mov) <= m,
                decreases m - j,
            {
                if p.moves[j] == mov {
                    break;
                }
                j += 1;
            }
            if j < m {
                self.at = p.children[j];
            } else {
                self.at = n;
            }
        } else {
            self.at = n;
        }
    }

    fn is_over(&self) -> (over: bool) {
        self.at >= self.table.positions.len() || self.table.positions[self.at].over
    }

    fn evaluate_i32(&self) -> (score: i32) {
        proof {
            use_type_invariant(self.table);
        }
        if self.at < self.table.positions.len() {
            proof {
                assert(position_wf(self.table.positions@, self.at as int));
            }
            self.table.positions[self.at].eval
        } else {
            0
        }
    }

    fn duplicate(&self) -> (copy: Self) {
        TableGame { table: self.table, at: self.at }
    }
}

} // verus!
