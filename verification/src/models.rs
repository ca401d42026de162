//! Outcomes of one probe run and of one advisory decision.
use vstd::prelude::*;

verus! {

/// How a probe run ended.
#[derive(PartialEq, Eq, Structural, Clone, Copy, Debug)]
pub enum TargetStatus {
    Online,
    Degraded,
    Unreachable,
    Timeout,
    Unknown,
}

impl TargetStatus {
    /// The run reached the target (it may still report degraded conditions).
    pub open spec fn succeeded(self) -> bool {
        self == TargetStatus::Online || self == TargetStatus::Degraded
    }

    pub fn is_success(&self) -> (r: bool)
        ensures
            r == self.succeeded(),
    {
        match self {
            TargetStatus::Online | TargetStatus::Degraded => true,
            _ => false,
        }
    }
}

} // verus!
