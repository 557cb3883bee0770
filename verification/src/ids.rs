//! Identities of cores and memory nodes, and the error codes of the
//! environment.

use vstd::prelude::*;
use vstd::std_specs::convert::FromSpecImpl;

verus! {

/// The errno that tells that a thing was done before.
pub const EALREADY: u8 = 114;

/// How NIC queues are created for a CPU.
#[derive(Debug, Clone, Copy, Hash, PartialEq, Eq, Structural)]
pub enum Affinity {
    /// All NICs create queues for the CPU.
    Full,
    /// NICs on the same NUMA node create queues for the CPU.
    Numa,
}

/// A logical core.
#[derive(Debug, Clone, Copy, Hash, PartialEq, Eq, PartialOrd, Ord, Structural)]
pub struct LCoreId(pub u32);

/// A NUMA node.
#[derive(Debug, Clone, Copy, Hash, PartialEq, Eq, PartialOrd, Ord, Structural)]
pub struct SocketId(pub u32);

impl LCoreId {
    /// The core with the index `id`.
    pub fn new(id: u32) -> (c: LCoreId)
        ensures
            c == LCoreId(id),
    {
        LCoreId(id)
    }
}

impl SocketId {
    /// The node with the index `id`.
    pub fn new(id: u32) -> (s: SocketId)
        ensures
            s == SocketId(id),
    {
        SocketId(id)
    }
}

impl From<LCoreId> for u32 {
    fn from(c: LCoreId) -> (id: u32) {
        c.0
    }
}

impl FromSpecImpl<LCoreId> for u32 {
    open spec fn obeys_from_spec() -> bool {
        true
    }

    open spec fn from_spec(c: LCoreId) -> u32 {
        c.0
    }
}

impl From<SocketId> for u32 {
    fn from(s: SocketId) -> (id: u32) {
        s.0
    }
}

impl FromSpecImpl<SocketId> for u32 {
    open spec fn obeys_from_spec() -> bool {
        true
    }

    open spec fn from_spec(s: SocketId) -> u32 {
        s.0
    }
}

/// What went wrong at start-up.
#[derive(Debug, Clone, Copy, Hash, PartialEq, Eq, PartialOrd, Ord, Structural)]
pub enum ErrorCode {
    /// The ports were claimed before.
    AlreadyInUse,
    /// The device rejected a request, with this errno.
    DeviceError { code: u8 },
    /// Any other errno.
    Unknown { code: u8 },
}

impl From<u8> for ErrorCode {
    fn from(code: u8) -> (e: ErrorCode) {
        ErrorCode::Unknown { code }
    }
}

impl FromSpecImpl<u8> for ErrorCode {
    open spec fn obeys_from_spec() -> bool {
        true
    }

    open spec fn from_spec(code: u8) -> ErrorCode {
        ErrorCode::Unknown { code }
    }
}

impl ErrorCode {
    /// The error for a positive errno, which has to fit in a byte.
    pub fn try_from_u32(code: u32) -> (r: Option<ErrorCode>)
        ensures
            code <= 255 ==> r == Some(ErrorCode::Unknown { code: code as u8 }),
            code > 255 ==> r is None,
    {
        if code <= 255 {
            Some(ErrorCode::Unknown { code: code as u8 })
        } else {
            None
        }
    }

    /// The error for a return value of the environment, which is the
    /// negated errno. The errno has to fit in a byte.
    pub fn try_from_i32(code: i32) -> (r: Option<ErrorCode>)
        ensures
            -255 <= code <= 0 ==> r == Some(ErrorCode::Unknown { code: (-code) as u8 }),
            !(-255 <= code <= 0) ==> r is None,
    {
        if -255 <= code && code <= 0 {
            Some(ErrorCode::Unknown { code: (-code) as u8 })
        } else {
            None
        }
    }

    /// The errno that the error carries.
    pub fn code(&self) -> (c: u8)
        ensures
            c == self.spec_code(),
    {
        match self {
            ErrorCode::AlreadyInUse => EALREADY,
            ErrorCode::DeviceError { code } => *code,
            ErrorCode::Unknown { code } => *code,
        }
    }

    /// The errno that the error carries.
    pub open spec fn spec_code(&self) -> u8 {
        match self {
            ErrorCode::AlreadyInUse => EALREADY,
            ErrorCode::DeviceError { code } => *code,
            ErrorCode::Unknown { code } => *code,
        }
    }
}

} // verus!
