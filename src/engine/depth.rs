//! The nesting depth of the document at the executor's position.
use vstd::prelude::*;
use crate::error::DepthError;

verus! {

/// Largest supported nesting depth.
pub const MAX_DEPTH: u8 = 255;

/// Nesting depth, between zero and [`MAX_DEPTH`].
#[derive(Clone, Copy, Debug, PartialEq, Eq, Structural)]
pub struct Depth {
    value: u8,
}

impl View for Depth {
    type V = nat;

    closed spec fn view(&self) -> nat {
        self.value as nat
    }
}

impl Depth {
    /// Depth zero.
    pub fn zero() -> (r: Depth)
        ensures
            r@ == 0,
    {
        Depth { value: 0 }
    }

    /// The depth as a number.
    pub fn get(&self) -> (r: u8)
        ensures
            r as nat == self@,
    {
        self.value
    }

    /// Whether the depth is zero.
    pub fn is_zero(&self) -> (r: bool)
        ensures
            r == (self@ == 0),
    {
        self.value == 0
    }

    /// The depth never exceeds [`MAX_DEPTH`].
    pub proof fn lemma_bounded(&self)
        ensures
            self@ <= MAX_DEPTH,
    {
    }

    /// Go one level deeper; fails, leaving the depth unchanged, at [`MAX_DEPTH`].
    pub fn increment(&mut self) -> (r: Result<(), DepthError>)
        ensures
            old(self)@ < MAX_DEPTH ==> r is Ok && final(self)@ == old(self)@ + 1,
            old(self)@ == MAX_DEPTH ==> r == Err::<(), DepthError>(DepthError::AboveLimit(MAX_DEPTH as usize))
                && *final(self) == *old(self),
    {
        if self.value == MAX_DEPTH {
            Err(DepthError::AboveLimit(MAX_DEPTH as usize))
        } else {
            self.value = self.value + 1;
            Ok(())
        }
    }

    /// Go one level up; fails, leaving the depth unchanged, at zero.
    pub fn decrement(&mut self) -> (r: Result<(), DepthError>)
        ensures
            old(self)@ > 0 ==> r is Ok && final(self)@ == old(self)@ - 1,
            old(self)@ == 0 ==> r == Err::<(), DepthError>(DepthError::BelowZero) && *final(self) == *old(self),
    {
        if self.value == 0 {
            Err(DepthError::BelowZero)
        } else {
            self.value = self.value - 1;
            Ok(())
        }
    }
}

} // verus!
