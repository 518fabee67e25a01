use vstd::prelude::*;

verus! {

#[derive(Copy, Clone, Debug, PartialEq, Eq, Structural)]
enum CellState {
    Alive,
    Dead,
}

/// A single cell of the game of life: it is alive or it is dead, and knows
/// nothing of its position or of its neighbours.
#[derive(Copy, Clone, Debug, PartialEq, Eq, Structural)]
pub struct Cell {
    state: CellState,
}

impl Default for Cell {
    fn default() -> (cell: Self)
        ensures
            !cell.is_alive(),
    {
        Self::new()
    }
}

impl Cell {
    /// Whether the cell is alive, for use in contracts.
    pub closed spec fn spec_is_alive(&self) -> bool {
        self.state == CellState::Alive
    }

    /// A dead cell.
    pub fn new() -> (cell: Self)
        ensures
            !cell.is_alive(),
    {
        Cell { state: CellState::Dead }
    }

    /// Makes the cell alive, whatever it was before.
    pub fn give_life(&mut self)
        ensures
            final(self).is_alive(),
    {
        self.state = CellState::Alive;
    }

    /// Makes the cell dead, whatever it was before.
    pub fn kill(&mut self)
        ensures
            !final(self).is_alive(),
    {
        self.state = CellState::Dead;
    }

    #[verifier::when_used_as_spec(spec_is_alive)]
    pub fn is_alive(&self) -> (alive: bool)
        ensures
            alive == self.spec_is_alive(),
    {
        self.state == CellState::Alive
    }

    /// Two cells with the same state are the same cell.
    pub proof fn lemma_state_decides(a: Cell, b: Cell)
        ensures
            a.is_alive() == b.is_alive() <==> a == b,
    {
    }
}

} // verus!
