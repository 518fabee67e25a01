use vstd::prelude::*;
use vstd::std_specs::iter::IteratorSpec;
use std::collections::HashSet;
use crate::board::Board;
use crate::cell::Cell;
use crate::game_error::GameError;

verus! {

broadcast use vstd::std_specs::hash::group_hash_axioms;

/// A cell's address: its row, then its column.
pub type Position = (usize, usize);

/// The key under which a position stands in the index of living cells: the
/// row in the upper 64 bits, the column in the lower.
spec fn key_of(pos: Position) -> u128 {
    (pos.0 * 0x1_0000_0000_0000_0000 + pos.1) as u128
}

/// The position that a key stands for.
spec fn position_of(key: u128) -> Position {
    ((key / 0x1_0000_0000_0000_0000) as usize, (key % 0x1_0000_0000_0000_0000) as usize)
}

/// Keys and positions correspond one to one.
proof fn lemma_key_roundtrip(pos: Position)
    ensures
        position_of(key_of(pos)) == pos,
{
}

/// Different positions have different keys.
proof fn lemma_key_injective(pos: Position)
    ensures
        forall|other: Position| #[trigger] key_of(other) == key_of(pos) ==> other == pos,
{
    assert forall|other: Position| #[trigger] key_of(other) == key_of(pos) implies other
        == pos by {
        lemma_key_roundtrip(other);
        lemma_key_roundtrip(pos);
    }
}

/// Computes the key of a position.
fn key(pos: Position) -> (k: u128)
    ensures
        k == key_of(pos),
{
    (pos.0 as u128) * 0x1_0000_0000_0000_0000u128 + (pos.1 as u128)
}

/// Computes the position of a key.
fn position(key: u128) -> (pos: Position)
    ensures
        pos == position_of(key),
{
    (
        (key / 0x1_0000_0000_0000_0000u128) as usize,
        (key % 0x1_0000_0000_0000_0000u128) as usize,
    )
}

/// `num::traits::Zero::zero` on `i128`: the additive identity, which is 0.
#[verifier::external_body]
fn zero() -> (z: i128)
    ensures
        z == 0,
{
    <i128 as num::traits::Zero>::zero()
}

/// An instance of the Game of Life on a grid of fixed size. Each cell can be
/// killed or given life, and `next` replaces the game by its next generation.
#[derive(Debug, PartialEq, Eq)]
pub struct Game {
    grid: Vec<Vec<Cell>>,
    alive_cells: HashSet<u128>,
    width: usize,
}

impl View for Game {
    type V = Board;

    closed spec fn view(&self) -> Board {
        Board {
            dimensions: (self.grid.len(), self.width),
            alive: Set::new(|pos: Position| self.alive_cells@.contains(key_of(pos))),
        }
    }
}

impl Clone for Game {
    /// A game of the same dimensions in which the same cells are alive.
    fn clone(&self) -> (copy: Self)
        ensures
            copy@ == self@,
            self.wf() ==> copy.wf(),
            forall|pos: Position|
                self@.in_bounds(pos) ==> #[trigger] copy.cell(pos) == self.cell(pos),
    {
        let mut grid: Vec<Vec<Cell>> = Vec::new();
        for i in 0..self.grid.len()
            invariant
                grid@.len() == i,
                forall|r: int| 0 <= r < i ==> (#[trigger] grid@[r])@ == self.grid@[r]@,
        {
            let cells = &self.grid[i];
            let mut row: Vec<Cell> = Vec::new();
            for j in 0..cells.len()
                invariant
                    row@.len() == j,
                    forall|c: int| 0 <= c < j ==> #[trigger] row@[c] == cells@[c],
            {
                row.push(cells[j]);
            }
            assert(row@ =~= cells@);
            grid.push(row);
        }
        let mut alive_cells: HashSet<u128> = HashSet::new();
        let ghost all = self.alive_cells.iter().remaining().unref();
        for k in keys: self.alive_cells.iter()
            invariant
                keys.seq().unref() == all,
                alive_cells@ == all.take(keys.index() as int).to_set(),
        {
            proof {
                let i = keys.index() as int;
                assert(all.take(i + 1) == all.take(i).push(*k));
                all.take(i).lemma_push_to_set_commute(*k);
            }
            alive_cells.insert(*k);
        }
        proof {
            assert(all.take(all.len() as int) == all);
        }
        let copy = Game { grid, alive_cells, width: self.width };
        proof {
            assert(copy@.alive =~= self@.alive);
            if self.wf() {
                assert forall|i: int| 0 <= i < copy.grid@.len() implies (
                #[trigger] copy.grid@[i])@.len() == copy.width by {
                    assert(self.grid@[i]@.len() == self.width);
                }
                assert forall|pos: Position| copy@.in_bounds(pos) implies (#[trigger] copy.cell(
                    pos,
                )).is_alive() == copy.alive_cells@.contains(key_of(pos)) by {
                    assert(self.cell(pos).is_alive() == self.alive_cells@.contains(key_of(pos)));
                }
            }
        }
        copy
    }
}

impl Game {
    /// The cell that the grid holds at `pos`.
    pub closed spec fn cell(&self, pos: Position) -> Cell {
        self.grid@[pos.0 as int]@[pos.1 as int]
    }

    /// The grid is a rectangle, and the index of living cells agrees with it:
    /// it holds the positions of the grid whose cell is alive, and no others.
    pub closed spec fn wf(&self) -> bool {
        &&& forall|i: int|
            0 <= i < self.grid@.len() ==> (#[trigger] self.grid@[i])@.len() == self.width
        &&& forall|pos: Position|
            self@.in_bounds(pos) ==> (#[trigger] self.cell(pos)).is_alive()
                == self.alive_cells@.contains(key_of(pos))
        &&& forall|k: u128| #[trigger]
            self.alive_cells@.contains(k) ==> self@.in_bounds(position_of(k)) && key_of(
                position_of(k),
            ) == k
    }

    /// In a well-formed game a cell of the grid is alive exactly when its
    /// position is in the set of living positions, and that set lies on the
    /// grid.
    pub proof fn lemma_index_agrees(&self, pos: Position)
        requires
            self.wf(),
        ensures
            self@.valid(),
            self@.in_bounds(pos) ==> self.cell(pos).is_alive() == self@.alive.contains(pos),
    {
        assert forall|p: Position| #[trigger] self@.alive.contains(p) implies self@.in_bounds(
            p,
        ) by {
            lemma_key_roundtrip(p);
        }
    }

    /// A game on a grid of `dimensions.0` rows and `dimensions.1` columns in
    /// which every cell is dead. Either dimension may be zero.
    pub fn of_size(dimensions: Position) -> (game: Self)
        ensures
            game.wf(),
            game@ == Board::empty(dimensions),
    {
        let (height, width) = dimensions;
        let mut grid: Vec<Vec<Cell>> = Vec::new();
        for i in 0..height
            invariant
                grid@.len() == i,
                forall|r: int| 0 <= r < i ==> (#[trigger] grid@[r])@.len() == width,
                forall|r: int, c: int|
                    0 <= r < i && 0 <= c < width ==> !(#[trigger] grid@[r]@[c]).is_alive(),
        {
            let mut row: Vec<Cell> = Vec::new();
            for j in 0..width
                invariant
                    row@.len() == j,
                    forall|c: int| 0 <= c < j ==> !(#[trigger] row@[c]).is_alive(),
            {
                row.push(Cell::new());
            }
            grid.push(row);
        }
        let game = Game { grid, alive_cells: HashSet::new(), width };
        assert(game@.alive =~= Set::empty());
        game
    }

    /// A game of the given dimensions in which the cells of `cells` are alive.
    /// Fails at the first position that is not on the grid.
    pub fn from_size_and_cells(
        dimensions: Position,
        cells: &[Position],
    ) -> (made: Result<Self, GameError>)
        ensures
            match made {
                Ok(game) => {
                    &&& game.wf()
                    &&& game@ == Board::empty(dimensions).give_life_list(cells@)
                    &&& Board::empty(dimensions).check_list(cells@) is Ok
                },
                Err(error) => {
                    Board::empty(dimensions).check_list(cells@) == Err::<(), GameError>(error)
                },
            },
    {
        let mut game = Game::of_size(dimensions);
        game.give_life_list(cells)?;
        Ok(game)
    }

    /// Kills the cell at `pos` if it is alive and gives life to it if it is
    /// dead. Fails, and changes nothing, where `pos` is not on the grid.
    pub fn toggle_cell(&mut self, pos: Position) -> (toggled: Result<(), GameError>)
        requires
            old(self).wf(),
        ensures
            final(self).wf(),
            final(self)@ == old(self)@.toggle_cell(pos),
            toggled == old(self)@.check(pos),
            toggled is Err ==> *final(self) == *old(self),
    {
        if self.alive_cells.contains(&key(pos)) {
            self.kill(pos)
        } else {
            self.give_life(pos)
        }
    }

    /// Kills the cell at `pos`. Fails, and changes nothing, where `pos` is not
    /// on the grid.
    pub fn kill(&mut self, pos: Position) -> (killed: Result<(), GameError>)
        requires
            old(self).wf(),
        ensures
            final(self).wf(),
            final(self)@ == old(self)@.kill(pos),
            killed == old(self)@.check(pos),
            killed is Err ==> *final(self) == *old(self),
    {
        self.check_in_bounds(pos)?;
        let cell = &mut self.grid[pos.0][pos.1];
        cell.kill();
        self.alive_cells.remove(&key(pos));
        proof {
            lemma_key_injective(pos);
            lemma_key_roundtrip(pos);
            assert(self.grid@.len() == old(self).grid@.len());
            assert(self@.alive =~= old(self)@.kill(pos).alive);
            assert forall|p: Position| self@.in_bounds(p) implies (#[trigger] self.cell(
                p,
            )).is_alive() == self.alive_cells@.contains(key_of(p)) by {
                assert(old(self).cell(p).is_alive() == old(self).alive_cells@.contains(key_of(p)));
            }
        }
        Ok(())
    }

    /// Gives life to the cell at `pos`. Fails, and changes nothing, where `pos`
    /// is not on the grid.
    pub fn give_life(&mut self, pos: Position) -> (given: Result<(), GameError>)
        requires
            old(self).wf(),
        ensures
            final(self).wf(),
            final(self)@ == old(self)@.give_life(pos),
            given == old(self)@.check(pos),
            given is Err ==> *final(self) == *old(self),
    {
        self.check_in_bounds(pos)?;
        let cell = &mut self.grid[pos.0][pos.1];
        cell.give_life();
        self.alive_cells.insert(key(pos));
        proof {
            lemma_key_injective(pos);
            lemma_key_roundtrip(pos);
            assert(self.grid@.len() == old(self).grid@.len());
            assert(self@.alive =~= old(self)@.give_life(pos).alive);
            assert forall|p: Position| self@.in_bounds(p) implies (#[trigger] self.cell(
                p,
            )).is_alive() == self.alive_cells@.contains(key_of(p)) by {
                assert(old(self).cell(p).is_alive() == old(self).alive_cells@.contains(key_of(p)));
            }
        }
        Ok(())
    }

    /// Kills the cells of `list` in order. Stops and fails at the first position
    /// that is not on the grid; the cells before it stay killed.
    pub fn kill_list(&mut self, list: &[Position]) -> (killed: Result<(), GameError>)
        requires
            old(self).wf(),
        ensures
            final(self).wf(),
            final(self)@ == old(self)@.kill_list(list@),
            killed == old(self)@.check_list(list@),
    {
        for i in 0..list.len()
            invariant
                self.wf(),
                self@.dimensions == old(self)@.dimensions,
                forall|k: int| 0 <= k < i ==> old(self)@.in_bounds(#[trigger] list@[k]),
                self@.alive == old(self)@.alive.difference(list@.take(i as int).to_set()),
        {
            let pos = list[i];
            proof {
                if !self@.in_bounds(pos) {
                    old(self)@.lemma_accepted(list@, i as int);
                }
                assert(list@.take(i + 1) == list@.take(i as int).push(pos));
                list@.take(i as int).lemma_push_to_set_commute(pos);
            }
            self.kill(pos)?;
            assert(self@.alive =~= old(self)@.alive.difference(list@.take(i + 1).to_set()));
        }
        proof {
            old(self)@.lemma_accepted(list@, list@.len() as int);
        }
        Ok(())
    }

    /// Gives life to the cells of `list` in order. Stops and fails at the first
    /// position that is not on the grid; the cells before it stay alive.
    pub fn give_life_list(&mut self, list: &[Position]) -> (given: Result<(), GameError>)
        requires
            old(self).wf(),
        ensures
            final(self).wf(),
            final(self)@ == old(self)@.give_life_list(list@),
            given == old(self)@.check_list(list@),
    {
        for i in 0..list.len()
            invariant
                self.wf(),
                self@.dimensions == old(self)@.dimensions,
                forall|k: int| 0 <= k < i ==> old(self)@.in_bounds(#[trigger] list@[k]),
                self@.alive == old(self)@.alive.union(list@.take(i as int).to_set()),
        {
            let pos = list[i];
            proof {
                if !self@.in_bounds(pos) {
                    old(self)@.lemma_accepted(list@, i as int);
                }
                assert(list@.take(i + 1) == list@.take(i as int).push(pos));
                list@.take(i as int).lemma_push_to_set_commute(pos);
            }
            self.give_life(pos)?;
            assert(self@.alive =~= old(self)@.alive.union(list@.take(i + 1).to_set()));
        }
        proof {
            old(self)@.lemma_accepted(list@, list@.len() as int);
        }
        Ok(())
    }

    /// Kills every cell of the grid.
    pub fn genocide(&mut self)
        requires
            old(self).wf(),
        ensures
            final(self).wf(),
            final(self)@ == old(self)@.genocide(),
    {
        let alive = self.alive_cells();
        proof {
            self.lemma_index_agrees((0, 0));
            assert forall|i: int| 0 <= i < alive@.len() implies self@.in_bounds(
                #[trigger] alive@[i],
            ) by {
                assert(alive@.to_set().contains(alive@[i]));
                assert(self@.alive.contains(alive@[i]));
            }
            self@.lemma_accepted(alive@, alive@.len() as int);
            assert(alive@.take(alive@.len() as int) == alive@);
        }
        let _ = self.kill_list(&alive);
        assert(self@.alive =~= Set::empty());
    }

    /// The positions of the living cells, each once, in no particular order.
    pub fn alive_cells(&self) -> (alive: Vec<Position>)
        requires
            self.wf(),
        ensures
            alive@.no_duplicates(),
            alive@.to_set() == self@.alive,
    {
        let mut alive: Vec<Position> = Vec::new();
        let ghost all = self.alive_cells.iter().remaining().unref();
        for k in keys: self.alive_cells.iter()
            invariant
                self.wf(),
                keys.seq().unref() == all,
                all.to_set() == self.alive_cells@,
                alive@.len() == keys.index(),
                forall|i: int| 0 <= i < alive@.len() ==> key_of(#[trigger] alive@[i]) == all[i],
        {
            proof {
                assert(all[keys.index() as int] == *k);
                assert(all.contains(*k));
                assert(self.alive_cells@.contains(*k));
            }
            alive.push(position(*k));
        }
        proof {
            assert(alive@.len() == all.len());
            assert forall|pos: Position| alive@.contains(pos) == self@.alive.contains(pos) by {
                if alive@.contains(pos) {
                    let i = choose|i: int| 0 <= i < alive@.len() && alive@[i] == pos;
                    assert(all[i] == key_of(pos));
                    assert(all.contains(key_of(pos)));
                }
                if self@.alive.contains(pos) {
                    assert(all.contains(key_of(pos)));
                    let i = choose|i: int| 0 <= i < all.len() && all[i] == key_of(pos);
                    lemma_key_injective(pos);
                    assert(key_of(alive@[i]) == key_of(pos));
                }
            }
            assert(alive@.to_set() =~= self@.alive);
        }
        alive
    }

    /// The height and the width of the grid.
    pub fn dimensions(&self) -> (dimensions: Position)
        ensures
            dimensions == self@.dimensions,
    {
        (self.grid.len(), self.width)
    }

    /// Whether the cell at `pos` is alive. In a well-formed game a position off
    /// the grid is never alive.
    pub fn is_alive(&self, pos: Position) -> (alive: bool)
        ensures
            alive == self@.alive.contains(pos),
    {
        self.alive_cells.contains(&key(pos))
    }

    /// The cells of the grid, row by row.
    pub fn grid(&self) -> (grid: &Vec<Vec<Cell>>)
        requires
            self.wf(),
        ensures
            grid@.len() == self@.dimensions.0,
            forall|row: int|
                0 <= row < grid@.len() ==> (#[trigger] grid@[row])@.len() == self@.dimensions.1,
            forall|pos: Position|
                self@.in_bounds(pos) ==> grid@[pos.0 as int]@[pos.1 as int] == #[trigger] self.cell(
                    pos,
                ),
    {
        &self.grid
    }

    /// Replaces the game by its next generation:
    /// - a living cell with fewer than two living neighbours dies, as if by
    ///   underpopulation;
    /// - a living cell with two or three living neighbours lives on;
    /// - a living cell with more than three living neighbours dies, as if by
    ///   overpopulation;
    /// - a dead cell with exactly three living neighbours comes to life, as if
    ///   by reproduction.
    ///
    /// Every cell is judged by its neighbours in the generation before the
    /// call.
    pub fn next(&mut self)
        requires
            old(self).wf(),
        ensures
            final(self).wf(),
            final(self)@ == old(self)@.next(),
    {
        let mut to_live: Vec<Position> = Vec::new();
        let mut to_die: Vec<Position> = Vec::new();
        let (height, width) = self.dimensions();
        let ghost board = self@;
        for i in 0..height
            invariant
                *self == *old(self),
                board == self@,
                self.wf(),
                (height, width) == board.dimensions,
                forall|k: int| 0 <= k < to_die@.len() ==> board.dies(#[trigger] to_die@[k]),
                forall|k: int| 0 <= k < to_live@.len() ==> board.is_born(#[trigger] to_live@[k]),
                forall|pos: Position|
                    pos.0 < i && #[trigger] board.dies(pos) ==> to_die@.contains(pos),
                forall|pos: Position|
                    pos.0 < i && #[trigger] board.is_born(pos) ==> to_live@.contains(pos),
        {
            for j in 0..width
                invariant
                    *self == *old(self),
                    board == self@,
                    self.wf(),
                    (height, width) == board.dimensions,
                    i < height,
                    forall|k: int| 0 <= k < to_die@.len() ==> board.dies(#[trigger] to_die@[k]),
                    forall|k: int|
                        0 <= k < to_live@.len() ==> board.is_born(#[trigger] to_live@[k]),
                    forall|pos: Position|
                        (pos.0 < i || (pos.0 == i && pos.1 < j)) && #[trigger] board.dies(pos)
                            ==> to_die@.contains(pos),
                    forall|pos: Position|
                        (pos.0 < i || (pos.0 == i && pos.1 < j)) && #[trigger] board.is_born(pos)
                            ==> to_live@.contains(pos),
            {
                let live_neighbors = self.live_neighbors((i, j));
                let cell = &self.grid[i][j];
                proof {
                    self.lemma_index_agrees((i, j));
                }
                let ghost old_die = to_die@;
                let ghost old_live = to_live@;
                if self.should_die(cell, live_neighbors) {
                    to_die.push((i, j));
                } else if self.should_live(cell, live_neighbors) {
                    to_live.push((i, j));
                }
                proof {
                    assert forall|pos: Position|
                        (pos.0 < i || (pos.0 == i && pos.1 < j + 1)) && #[trigger] board.dies(
                            pos,
                        ) implies to_die@.contains(pos) by {
                        if pos == (i, j) {
                            assert(to_die@[to_die@.len() - 1] == pos);
                        } else {
                            let k = choose|k: int| 0 <= k < old_die.len() && old_die[k] == pos;
                            assert(to_die@[k] == pos);
                        }
                    }
                    assert forall|pos: Position|
                        (pos.0 < i || (pos.0 == i && pos.1 < j + 1)) && #[trigger] board.is_born(
                            pos,
                        ) implies to_live@.contains(pos) by {
                        if pos == (i, j) {
                            assert(to_live@[to_live@.len() - 1] == pos);
                        } else {
                            let k = choose|k: int| 0 <= k < old_live.len() && old_live[k] == pos;
                            assert(to_live@[k] == pos);
                        }
                    }
                }
            }
        }

        proof {
            board.lemma_accepted(to_die@, to_die@.len() as int);
        }
        let _ = self.kill_list(&to_die);
        proof {
            self@.lemma_accepted(to_live@, to_live@.len() as int);
        }
        let _ = self.give_life_list(&to_live);
        proof {
            old(self).lemma_index_agrees((0, 0));
            assert(to_die@.take(to_die@.len() as int) == to_die@);
            assert(to_live@.take(to_live@.len() as int) == to_live@);
            assert forall|pos: Position| self@.alive.contains(pos) == board.alive_next(pos) by {
                assert(self@.alive.contains(pos) == (to_live@.contains(pos) || (
                board.alive.contains(pos) && !to_die@.contains(pos))));
                if to_die@.contains(pos) {
                    let k = choose|k: int| 0 <= k < to_die@.len() && to_die@[k] == pos;
                    assert(board.dies(to_die@[k]));
                }
                if to_live@.contains(pos) {
                    let k = choose|k: int| 0 <= k < to_live@.len() && to_live@[k] == pos;
                    assert(board.is_born(to_live@[k]));
                }
            }
            assert(self@.alive =~= board.next().alive);
        }
    }

    /// Whether a cell with so many living neighbours dies.
    fn should_die(&self, cell: &Cell, live_neighbors: usize) -> (dies: bool)
        ensures
            dies == Board::should_die(cell.is_alive(), live_neighbors as nat),
    {
        cell.is_alive() && !(2 <= live_neighbors && live_neighbors <= 3)
    }

    /// Whether a cell with so many living neighbours comes to life.
    fn should_live(&self, cell: &Cell, live_neighbors: usize) -> (lives: bool)
        ensures
            lives == Board::should_live(cell.is_alive(), live_neighbors as nat),
    {
        !cell.is_alive() && live_neighbors == 3
    }

    /// The number of living cells among the eight neighbours of `position`,
    /// which decides whether its cell lives or dies in the next generation.
    /// Neighbours off the grid do not count.
    pub fn live_neighbors(&self, position: Position) -> (live_neighbors: usize)
        requires
            self.wf(),
        ensures
            live_neighbors == self@.live_neighbors(position),
            live_neighbors <= 8,
    {
        let row = position.0 as i128;
        let column = position.1 as i128;
        self.occupied(row - 1, column - 1) + self.occupied(row - 1, column) + self.occupied(
            row - 1,
            column + 1,
        ) + self.occupied(row, column - 1) + self.occupied(row, column + 1) + self.occupied(
            row + 1,
            column - 1,
        ) + self.occupied(row + 1, column) + self.occupied(row + 1, column + 1)
    }

    /// One where the coordinates name a living cell of the grid, zero where
    /// they name a dead one or lie off the grid.
    fn occupied(&self, row: i128, column: i128) -> (count: usize)
        requires
            self.wf(),
        ensures
            count == self@.occupied(row as int, column as int),
    {
        let (height, width) = self.dimensions();
        let alive = Self::in_bounds(row, column, height as i128, width as i128)
            && self.grid[row as usize][column as usize].is_alive();
        proof {
            if 0 <= row < height && 0 <= column < width {
                let pos = (row as usize, column as usize);
                assert(self.cell(pos).is_alive() == self.alive_cells@.contains(key_of(pos)));
            }
        }
        if alive {
            1
        } else {
            0
        }
    }

    /// Fails for a position that is not on the grid, with the position and the
    /// dimensions in the error.
    fn check_in_bounds(&self, pos: Position) -> (checked: Result<(), GameError>)
        ensures
            checked == self@.check(pos),
    {
        let (height, width) = self.dimensions();
        if !Self::in_bounds(pos.0 as i128, pos.1 as i128, height as i128, width as i128) {
            Err(GameError::OutOfBoundsGridAccess((pos.0, pos.1), (height, width)))
        } else {
            Ok(())
        }
    }

    /// Whether the coordinates, which may be negative, name a cell of a grid of
    /// the given height and width.
    fn in_bounds(row: i128, column: i128, height: i128, width: i128) -> (inside: bool)
        ensures
            inside == (0 <= row < height && 0 <= column < width),
    {
        let z = zero();
        row >= z && column >= z && row < height && column < width
    }
}

} // verus!
