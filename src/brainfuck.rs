use vstd::prelude::*;
use crate::engine::{next_index, prev_index};

verus! {

/// The tape and cursor of the single-instruction runner: the same state as an
/// [`Engine`](crate::engine::Engine).
pub struct Brainfuck {
    /// Current cursor index.
    pub pointer: usize,
    /// The cells.
    pub tape: Vec<u8>,
}

impl Brainfuck {
    /// The cursor points at a cell of the tape, so the tape has at least one cell.
    pub open spec fn wf(&self) -> bool {
        self.pointer < self.tape.len()
    }

    /// Shift pointer to the next cell or wraps around.
    pub fn next(&mut self)
        requires
            old(self).wf(),
        ensures
            final(self).tape == old(self).tape,
            final(self).pointer == next_index(old(self).pointer as int, old(self).tape.len() as int),
            final(self).wf(),
    {
        if self.pointer == self.tape.len() - 1 {
            self.pointer = 0;
        } else {
            self.pointer += 1;
        }
    }

    /// Shift pointer to the previous cell or wraps around.
    pub fn prev(&mut self)
        requires
            old(self).wf(),
        ensures
            final(self).tape == old(self).tape,
            final(self).pointer == prev_index(old(self).pointer as int, old(self).tape.len() as int),
            final(self).wf(),
    {
        if self.pointer == 0 {
            self.pointer = self.tape.len() - 1;
        } else {
            self.pointer -= 1;
        }
    }
}

} // verus!
