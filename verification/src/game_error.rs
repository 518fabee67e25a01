use vstd::prelude::*;
use crate::game::Position;

verus! {

/// What can go wrong when a cell of the grid is addressed.
#[derive(Debug)]
pub enum GameError {
    /// The position, given first, lies outside a grid of the dimensions given
    /// second.
    OutOfBoundsGridAccess(Position, Position),
}

impl GameError {
    /// The text that describes the error to a user.
    pub open spec fn spec_message(&self) -> Seq<char> {
        "Attemped access to an out of bounds position"@
    }

    /// The text that describes the error to a user.
    pub fn message(&self) -> (text: String)
        ensures
            text@ == self.spec_message(),
    {
        "Attemped access to an out of bounds position".to_owned()
    }
}

} // verus!
