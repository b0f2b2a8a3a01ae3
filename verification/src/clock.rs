//! The two one-bit state machines: a clock and a rising-edge detector.
use crate::blocks::{Block, Component};
use crate::circuit::Circuit;
use vstd::prelude::*;

verus! {

/// A free-running clock: every state-updating evaluation toggles its level
/// and returns the new level. A pure evaluation returns false.
pub struct Clock {
    s: bool,
}

impl View for Clock {
    type V = Circuit;

    closed spec fn view(&self) -> Circuit {
        Circuit::Clock { level: self.s }
    }
}

impl Clock {
    /// A clock at level false.
    pub fn new() -> (r: Self)
        ensures
            r@ == (Circuit::Clock { level: false }),
            r@.realizable(),
    {
        Self { s: false }
    }
}

impl Component for Clock {
    fn input_width(&self) -> (w: usize) {
        0
    }

    fn output_width(&self) -> (w: usize) {
        1
    }

    fn eval(&self, input: &[bool]) -> (out: Vec<bool>) {
        let out = vec![false];
        assert(out@ =~= seq![false]);
        out
    }

    fn eval_mut(&mut self, input: &[bool]) -> (out: Vec<bool>) {
        self.s = !self.s;
        let out = vec![self.s];
        assert(out@ =~= seq![self.s]);
        out
    }

    fn into_block(self) -> (b: Block) {
        Block::Clock(self)
    }
}

/// Detects the rising edge of its input: a state-updating evaluation returns
/// true exactly when the input is true and was false the time before. A pure
/// evaluation returns false.
pub struct DetectClockWake {
    s: bool,
}

impl View for DetectClockWake {
    type V = Circuit;

    closed spec fn view(&self) -> Circuit {
        Circuit::EdgeDetector { previous: self.s }
    }
}

impl DetectClockWake {
    /// A detector that takes the input to have been true before.
    pub fn new() -> (r: Self)
        ensures
            r@ == (Circuit::EdgeDetector { previous: true }),
            r@.realizable(),
    {
        Self { s: true }
    }
}

impl Component for DetectClockWake {
    fn input_width(&self) -> (w: usize) {
        1
    }

    fn output_width(&self) -> (w: usize) {
        1
    }

    fn eval(&self, input: &[bool]) -> (out: Vec<bool>) {
        let out = vec![false];
        assert(out@ =~= seq![false]);
        out
    }

    fn eval_mut(&mut self, input: &[bool]) -> (out: Vec<bool>) {
        let rising = !self.s && input[0];
        self.s = input[0];
        let out = vec![rising];
        assert(out@ =~= seq![rising]);
        out
    }

    fn into_block(self) -> (b: Block) {
        Block::DetectClockWake(self)
    }
}

} // verus!
