//! A single cell of the automaton grid.

use vstd::prelude::*;

verus! {

/// One cell of the grid: one byte of state. `0` is solid rock, any nonzero
/// value is open space ("air"). A whole byte per cell avoids bit-packing.
#[derive(Copy, Clone, Debug, PartialEq, Eq, Structural)]
pub struct CACell(pub u8);

impl CACell {
    /// True when the cell is open space.
    pub open spec fn spec_alive(self) -> bool {
        self.0 != 0
    }

    pub fn new(state: u8) -> (r: Self)
        ensures
            r == CACell(state),
    {
        CACell(state)
    }

    pub fn is_alive(&self) -> (r: bool)
        ensures
            r == self.spec_alive(),
    {
        self.0 != 0
    }

    pub fn set_state(&mut self, state: u8)
        ensures
            *final(self) == CACell(state),
    {
        self.0 = state;
    }
}

} // verus!
