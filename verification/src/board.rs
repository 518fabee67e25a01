use vstd::prelude::*;
use crate::game::Position;
use crate::game_error::GameError;

verus! {

/// The mathematical model of a game: the dimensions of its grid and the set
/// of the positions that are alive. Everything the engine does is stated as a
/// function on this model.
pub struct Board {
    /// Height, then width.
    pub dimensions: Position,
    /// The positions that hold a living cell.
    pub alive: Set<Position>,
}

impl Board {
    /// The board of the given dimensions on which nothing lives.
    pub open spec fn empty(dimensions: Position) -> Board {
        Board { dimensions, alive: Set::empty() }
    }

    /// A position is in bounds when its row is below the height and its column
    /// below the width.
    pub open spec fn in_bounds(self, pos: Position) -> bool {
        pos.0 < self.dimensions.0 && pos.1 < self.dimensions.1
    }

    /// Every living position lies on the grid.
    pub open spec fn valid(self) -> bool {
        forall|pos: Position| #[trigger] self.alive.contains(pos) ==> self.in_bounds(pos)
    }

    /// What a bounds check of `pos` answers.
    pub open spec fn check(self, pos: Position) -> Result<(), GameError> {
        if self.in_bounds(pos) {
            Ok(())
        } else {
            Err(GameError::OutOfBoundsGridAccess(pos, self.dimensions))
        }
    }

    /// The board with `pos` alive; the board itself where `pos` is out of bounds.
    pub open spec fn give_life(self, pos: Position) -> Board {
        if self.in_bounds(pos) {
            Board { dimensions: self.dimensions, alive: self.alive.insert(pos) }
        } else {
            self
        }
    }

    /// The board with `pos` dead; the board itself where `pos` is out of bounds.
    pub open spec fn kill(self, pos: Position) -> Board {
        if self.in_bounds(pos) {
            Board { dimensions: self.dimensions, alive: self.alive.remove(pos) }
        } else {
            self
        }
    }

    /// The board with the state of `pos` flipped.
    pub open spec fn toggle_cell(self, pos: Position) -> Board {
        if self.alive.contains(pos) {
            self.kill(pos)
        } else {
            self.give_life(pos)
        }
    }

    /// How many entries at the front of `list` a bulk operation applies: the
    /// length of the longest prefix whose positions are all in bounds.
    pub open spec fn accepted(self, list: Seq<Position>) -> nat
        decreases list.len(),
    {
        if list.len() > 0 && self.in_bounds(list[0]) {
            1 + self.accepted(list.skip(1))
        } else {
            0
        }
    }

    /// `n` is the index at which a bulk operation on `list` stops: all entries
    /// before it are in bounds, and the entry at it, if there is one, is not.
    pub open spec fn stops_at(self, list: Seq<Position>, n: int) -> bool {
        &&& 0 <= n <= list.len()
        &&& forall|i: int| 0 <= i < n ==> self.in_bounds(#[trigger] list[i])
        &&& n < list.len() ==> !self.in_bounds(list[n])
    }

    /// The index at which a bulk operation stops is the number of entries it
    /// accepts, so there is one such index and no other.
    pub proof fn lemma_accepted(self, list: Seq<Position>, n: int)
        requires
            self.stops_at(list, n),
        ensures
            self.accepted(list) == n,
        decreases n,
    {
        if n > 0 {
            let rest = list.skip(1);
            assert forall|i: int| 0 <= i < n - 1 implies self.in_bounds(#[trigger] rest[i]) by {
                assert(rest[i] == list[i + 1]);
            }
            assert(n - 1 < rest.len() ==> rest[n - 1] == list[n]);
            self.lemma_accepted(rest, n - 1);
        }
    }

    /// The accepted entries are in bounds, and the entry after them, if there
    /// is one, is not.
    pub proof fn lemma_accepted_stops(self, list: Seq<Position>)
        ensures
            self.stops_at(list, self.accepted(list) as int),
        decreases list.len(),
    {
        if list.len() > 0 && self.in_bounds(list[0]) {
            let rest = list.skip(1);
            self.lemma_accepted_stops(rest);
            let n = self.accepted(list) as int;
            assert forall|i: int| 0 <= i < n implies self.in_bounds(#[trigger] list[i]) by {
                if i > 0 {
                    assert(list[i] == rest[i - 1]);
                }
            }
            assert(n < list.len() ==> list[n] == rest[n - 1]);
        }
    }

    /// What a bulk operation on `list` answers: the failure of its first
    /// out-of-bounds entry, if it has one.
    pub open spec fn check_list(self, list: Seq<Position>) -> Result<(), GameError> {
        let n = self.accepted(list) as int;
        if n == list.len() {
            Ok(())
        } else {
            Err(GameError::OutOfBoundsGridAccess(list[n], self.dimensions))
        }
    }

    /// The board after giving life to the accepted entries of `list`.
    pub open spec fn give_life_list(self, list: Seq<Position>) -> Board {
        Board {
            dimensions: self.dimensions,
            alive: self.alive.union(list.take(self.accepted(list) as int).to_set()),
        }
    }

    /// The board after killing the accepted entries of `list`.
    pub open spec fn kill_list(self, list: Seq<Position>) -> Board {
        Board {
            dimensions: self.dimensions,
            alive: self.alive.difference(list.take(self.accepted(list) as int).to_set()),
        }
    }

    /// The board of the same dimensions on which nothing lives.
    pub open spec fn genocide(self) -> Board {
        Board::empty(self.dimensions)
    }

    /// Whether the coordinates name a position of the grid that is alive.
    /// Coordinates off the grid, negative ones among them, are never alive:
    /// the grid does not wrap around.
    pub open spec fn alive_at(self, row: int, column: int) -> bool {
        &&& 0 <= row < self.dimensions.0
        &&& 0 <= column < self.dimensions.1
        &&& self.alive.contains((row as usize, column as usize))
    }

    /// One for living coordinates, zero for all others.
    pub open spec fn occupied(self, row: int, column: int) -> nat {
        if self.alive_at(row, column) {
            1
        } else {
            0
        }
    }

    /// The number of living cells among the eight neighbours of `pos`.
    pub open spec fn live_neighbors(self, pos: Position) -> nat {
        let (r, c) = (pos.0 as int, pos.1 as int);
        self.occupied(r - 1, c - 1) + self.occupied(r - 1, c) + self.occupied(r - 1, c + 1)
            + self.occupied(r, c - 1) + self.occupied(r, c + 1) + self.occupied(r + 1, c - 1)
            + self.occupied(r + 1, c) + self.occupied(r + 1, c + 1)
    }

    /// A living cell dies of underpopulation with fewer than two living
    /// neighbours and of overpopulation with more than three.
    pub open spec fn should_die(alive: bool, live_neighbors: nat) -> bool {
        alive && !(2 <= live_neighbors <= 3)
    }

    /// A dead cell comes to life with exactly three living neighbours.
    pub open spec fn should_live(alive: bool, live_neighbors: nat) -> bool {
        !alive && live_neighbors == 3
    }

    /// The cell at `pos` is on the grid and dies in the step to the next
    /// generation.
    pub open spec fn dies(self, pos: Position) -> bool {
        self.in_bounds(pos) && Self::should_die(
            self.alive.contains(pos),
            self.live_neighbors(pos),
        )
    }

    /// The cell at `pos` is on the grid and comes to life in the step to the
    /// next generation.
    pub open spec fn is_born(self, pos: Position) -> bool {
        self.in_bounds(pos) && Self::should_live(
            self.alive.contains(pos),
            self.live_neighbors(pos),
        )
    }

    /// Whether `pos` is alive in the next generation: it is on the grid, and
    /// it is alive and does not die, or it is born.
    pub open spec fn alive_next(self, pos: Position) -> bool {
        self.in_bounds(pos) && if self.alive.contains(pos) {
            !self.dies(pos)
        } else {
            self.is_born(pos)
        }
    }

    /// The next generation: every cell of the grid judged by its neighbours in
    /// this one.
    pub open spec fn next(self) -> Board {
        Board {
            dimensions: self.dimensions,
            alive: Set::new(|pos: Position| self.alive_next(pos)),
        }
    }

    /// A position off the grid is rejected, with the position and the
    /// dimensions in the error, and the attempt to kill it, give life to it or
    /// toggle it leaves the board as it was.
    pub proof fn lemma_out_of_bounds_rejected(self, pos: Position)
        requires
            pos.0 >= self.dimensions.0 || pos.1 >= self.dimensions.1,
        ensures
            self.check(pos) == Err::<(), GameError>(
                GameError::OutOfBoundsGridAccess(pos, self.dimensions),
            ),
            self.give_life(pos) == self,
            self.kill(pos) == self,
            self.toggle_cell(pos) == self,
    {
    }

    /// A position on the grid is accepted: afterwards it is alive after
    /// `give_life` and dead after `kill`, and no other position has changed.
    pub proof fn lemma_in_bounds_applied(self, pos: Position, other: Position)
        requires
            self.in_bounds(pos),
        ensures
            self.check(pos) is Ok,
            self.give_life(pos).alive.contains(pos),
            !self.kill(pos).alive.contains(pos),
            self.toggle_cell(pos).alive.contains(pos) == !self.alive.contains(pos),
            other != pos ==> self.give_life(pos).alive.contains(other) == self.alive.contains(
                other,
            ),
            other != pos ==> self.kill(pos).alive.contains(other) == self.alive.contains(other),
            other != pos ==> self.toggle_cell(pos).alive.contains(other) == self.alive.contains(
                other,
            ),
    {
    }

    /// Giving life twice is giving life once, and killing twice is killing
    /// once.
    pub proof fn lemma_idempotent(self, pos: Position)
        ensures
            self.give_life(pos).give_life(pos) == self.give_life(pos),
            self.kill(pos).kill(pos) == self.kill(pos),
    {
        assert(self.give_life(pos).give_life(pos).alive =~= self.give_life(pos).alive);
        assert(self.kill(pos).kill(pos).alive =~= self.kill(pos).alive);
    }

    /// Toggling a cell twice restores the board.
    pub proof fn lemma_toggle_twice(self, pos: Position)
        ensures
            self.toggle_cell(pos).toggle_cell(pos) == self,
            self.toggle_cell(pos).toggle_cell(pos).alive.contains(pos) == self.alive.contains(pos),
    {
        assert(self.toggle_cell(pos).toggle_cell(pos).alive =~= self.alive);
    }

    /// After a genocide nothing lives: the set of living positions is empty,
    /// and every position reports dead.
    pub proof fn lemma_genocide_kills_all(self, pos: Position)
        ensures
            self.genocide().alive == Set::<Position>::empty(),
            !self.genocide().alive.contains(pos),
            self.genocide().dimensions == self.dimensions,
            self.genocide().valid(),
    {
    }

    /// Every operation keeps the living positions on the grid.
    pub proof fn lemma_valid_preserved(self, pos: Position, list: Seq<Position>)
        requires
            self.valid(),
        ensures
            Board::empty(self.dimensions).valid(),
            self.give_life(pos).valid(),
            self.kill(pos).valid(),
            self.toggle_cell(pos).valid(),
            self.give_life_list(list).valid(),
            self.kill_list(list).valid(),
            self.next().valid(),
    {
        self.lemma_accepted_stops(list);
        let n = self.accepted(list) as int;
        assert forall|p: Position| #[trigger]
            self.give_life_list(list).alive.contains(p) implies self.in_bounds(p) by {
            if !self.alive.contains(p) {
                let front = list.take(n);
                assert(front.contains(p));
                let i = choose|i: int| 0 <= i < front.len() && front[i] == p;
                assert(list[i] == p);
            }
        }
    }

    /// A bulk operation on a list that begins with a position on the grid is
    /// the single operation on that position, followed by the bulk operation
    /// on the rest of the list.
    pub proof fn lemma_list_step(self, list: Seq<Position>)
        requires
            list.len() > 0,
            self.in_bounds(list[0]),
        ensures
            self.give_life_list(list) == self.give_life(list[0]).give_life_list(list.skip(1)),
            self.kill_list(list) == self.kill(list[0]).kill_list(list.skip(1)),
            self.check_list(list) == self.give_life(list[0]).check_list(list.skip(1)),
            self.check_list(list) == self.kill(list[0]).check_list(list.skip(1)),
    {
        let rest = list.skip(1);
        let n = self.accepted(list) as int;
        let given = self.give_life(list[0]);
        let killed = self.kill(list[0]);
        given.lemma_same_dimensions_accept(self, rest);
        killed.lemma_same_dimensions_accept(self, rest);
        assert(n == 1 + self.accepted(rest));
        self.lemma_accepted_stops(list);
        let front = list.take(n);
        let tail = rest.take(n - 1);
        assert(front.to_set() =~= tail.to_set().insert(list[0])) by {
            assert forall|p: Position|
                front.to_set().contains(p) == tail.to_set().insert(list[0]).contains(p) by {
                if front.contains(p) {
                    let i = choose|i: int| 0 <= i < front.len() && front[i] == p;
                    if i > 0 {
                        assert(tail[i - 1] == p);
                    }
                }
                if tail.contains(p) {
                    let i = choose|i: int| 0 <= i < tail.len() && tail[i] == p;
                    assert(front[i + 1] == p);
                }
                if p == list[0] {
                    assert(front[0] == p);
                }
            }
        }
        assert(self.give_life_list(list).alive =~= given.give_life_list(rest).alive);
        assert(self.kill_list(list).alive =~= killed.kill_list(rest).alive);
        assert(n < list.len() ==> list[n] == rest[n - 1]);
    }

    /// A bulk operation on a list that is empty or begins with a position off
    /// the grid changes nothing.
    pub proof fn lemma_list_stop(self, list: Seq<Position>)
        requires
            list.len() == 0 || !self.in_bounds(list[0]),
        ensures
            self.give_life_list(list) == self,
            self.kill_list(list) == self,
            list.len() == 0 ==> self.check_list(list) is Ok,
            list.len() > 0 ==> self.check_list(list) == self.check(list[0]),
    {
        assert(list.take(0).to_set() =~= Set::<Position>::empty());
        assert(self.give_life_list(list).alive =~= self.alive);
        assert(self.kill_list(list).alive =~= self.alive);
    }

    /// How much of a list is accepted depends on the dimensions alone.
    pub proof fn lemma_same_dimensions_accept(self, other: Board, list: Seq<Position>)
        requires
            self.dimensions == other.dimensions,
        ensures
            self.accepted(list) == other.accepted(list),
        decreases list.len(),
    {
        if list.len() > 0 && self.in_bounds(list[0]) {
            self.lemma_same_dimensions_accept(other, list.skip(1));
        }
    }

    /// A cell has at most eight living neighbours.
    pub proof fn lemma_live_neighbors_bound(self, pos: Position)
        ensures
            self.live_neighbors(pos) <= 8,
    {
    }

    /// The step to the next generation, cell by cell: a cell of the grid is
    /// alive afterwards exactly when it had three living neighbours, or was
    /// alive and had two. Nothing off the grid is alive afterwards.
    pub proof fn lemma_next_rule(self, pos: Position)
        requires
            self.valid(),
        ensures
            self.next().dimensions == self.dimensions,
            self.next().alive.contains(pos) == (self.in_bounds(pos) && (self.live_neighbors(pos)
                == 3 || (self.alive.contains(pos) && self.live_neighbors(pos) == 2))),
            self.next().alive.contains(pos) == ((self.alive.contains(pos) && !self.dies(pos))
                || self.is_born(pos)),
    {
    }
}

} // verus!
