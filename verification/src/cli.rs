//! Choices of the control tool that map onto scheduling values.

use vstd::prelude::*;
use crate::priority::{Priority, PriorityLevel};

verus! {

/// A fixed priority level chosen on the command line.
#[derive(Debug, Clone, Copy, PartialEq, Eq, Structural)]
pub enum SetPriorityLevel {
    Interactive,
    LowInteractive,
    Batch,
    Background,
}

impl SetPriorityLevel {
    /// The fixed priority at the chosen level.
    pub fn to_fixed(self) -> (p: Priority)
        ensures
            p == Priority::Fixed(match self {
                SetPriorityLevel::Interactive => PriorityLevel::Interactive,
                SetPriorityLevel::LowInteractive => PriorityLevel::LowInteractive,
                SetPriorityLevel::Batch => PriorityLevel::Batch,
                SetPriorityLevel::Background => PriorityLevel::Background,
            }),
    {
        match self {
            SetPriorityLevel::Interactive => Priority::Fixed(PriorityLevel::Interactive),
            SetPriorityLevel::LowInteractive => Priority::Fixed(PriorityLevel::LowInteractive),
            SetPriorityLevel::Batch => Priority::Fixed(PriorityLevel::Batch),
            SetPriorityLevel::Background => Priority::Fixed(PriorityLevel::Background),
        }
    }
}

} // verus!
