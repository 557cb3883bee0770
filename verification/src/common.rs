//! What the environment says of the process.

use vstd::prelude::*;

verus! {

/// The kind of a process in a set of processes that share one environment.
#[derive(Debug, Clone, Copy, PartialEq, Eq, Structural)]
pub enum ProcType {
    Auto,
    Primary,
    Secondary,
    Invalid,
}

impl ProcType {
    /// The number that the environment has for the kind.
    pub open spec fn spec_to_i32(&self) -> i32 {
        match self {
            ProcType::Auto => -1i32,
            ProcType::Primary => 0i32,
            ProcType::Secondary => 1i32,
            ProcType::Invalid => 2i32,
        }
    }

    /// The number that the environment has for the kind.
    pub fn to_i32(&self) -> (n: i32)
        ensures
            n == self.spec_to_i32(),
    {
        match self {
            ProcType::Auto => -1,
            ProcType::Primary => 0,
            ProcType::Secondary => 1,
            ProcType::Invalid => 2,
        }
    }

    /// The kind that the environment has the number `n` for, if it has
    /// one.
    pub fn from_i32(n: i32) -> (r: Option<ProcType>)
        ensures
            r is Some <==> -1 <= n <= 2,
            r is Some ==> r->Some_0.spec_to_i32() == n,
    {
        if n == -1 {
            Some(ProcType::Auto)
        } else if n == 0 {
            Some(ProcType::Primary)
        } else if n == 1 {
            Some(ProcType::Secondary)
        } else if n == 2 {
            Some(ProcType::Invalid)
        } else {
            None
        }
    }
}

/// The error number of the last call into the environment that failed on
/// this thread. The environment keeps none: the answer is always 0.
pub fn rte_errno() -> (e: i32)
    ensures
        e == 0,
{
    0
}

} // verus!
