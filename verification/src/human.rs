//! The human player's handle.
//!
//! Choosing a column is interactive and lives with the surrounding
//! program; the core only knows the player as a stateless handle.

use vstd::prelude::*;

verus! {

/// A human player: a stateless marker the game loop owns.
pub struct Human {}

impl Human {
    pub fn new() -> (human: Self)
        ensures
            human == (Human {  }),
    {
        Self {  }
    }
}

} // verus!
