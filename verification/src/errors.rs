//! Error taxonomy of the engine.
//!
//! Policy errors are raised at the offending access, concurrency errors at
//! commit time, integrity errors abort the transaction without a state swap,
//! and usage errors are local and side-effect free.
use vstd::prelude::*;

verus! {

/// Every failure the engine surfaces.
#[derive(Debug, Clone, PartialEq, Eq, Structural)]
pub enum EngineError {
    /// A malformed argument, such as an update delta that is not a dict.
    Context,
    /// The transaction outlived its write timeout; all pending work is lost.
    WriteTimeout,
    /// The committed data would break the attached schema; nothing is swapped.
    SchemaViolation,
    /// The effective capability mask lacks the bit the operation needs.
    PermissionDenied,
    /// A write through a read-only proxy.
    PureProcessWrite,
    /// A write attempted with no transaction attached.
    NoActiveTransaction,
    /// The shadowing deep copy failed; isolation cannot be kept.
    DeepCopyFailed,
    /// The conflict manager is holding a priority ticket for another actor.
    SystemBusy,
    /// Strict compare-and-swap saw a version other than the expected one.
    StrictCasMismatch { expected: u64, found: u64 },
    /// Field-level compare-and-swap found a touched key newer than expected.
    CasConflict { expected: u64, found: u64 },
    /// A guard was built over inputs from a restricted control zone.
    SecurityViolation,
    /// A path step does not fit the value it is applied to.
    TypeError,
    /// A list index beyond the end where no extension is allowed.
    IndexError,
}

impl EngineError {
    /// Wire name of the error, as embedded in payloads.
    pub fn wire_name(&self) -> (r: &'static str)
        ensures
            r@ == self.spec_wire_name(),
    {
        match self {
            EngineError::Context => "ContextError",
            EngineError::WriteTimeout => "WriteTimeoutError",
            EngineError::SchemaViolation => "SchemaViolationError",
            EngineError::PermissionDenied => "PermissionDenied",
            EngineError::PureProcessWrite => "PureProcessWrite",
            EngineError::NoActiveTransaction => "NoActiveTransaction",
            EngineError::DeepCopyFailed => "DeepCopyFailed",
            EngineError::SystemBusy => "SystemBusy",
            EngineError::StrictCasMismatch { .. } => "StrictCasMismatch",
            EngineError::CasConflict { .. } => "CasConflict",
            EngineError::SecurityViolation => "SecurityViolation",
            EngineError::TypeError => "TypeError",
            EngineError::IndexError => "IndexError",
        }
    }

    /// The wire name each variant carries.
    pub open spec fn spec_wire_name(&self) -> Seq<char> {
        match self {
            EngineError::Context => "ContextError"@,
            EngineError::WriteTimeout => "WriteTimeoutError"@,
            EngineError::SchemaViolation => "SchemaViolationError"@,
            EngineError::PermissionDenied => "PermissionDenied"@,
            EngineError::PureProcessWrite => "PureProcessWrite"@,
            EngineError::NoActiveTransaction => "NoActiveTransaction"@,
            EngineError::DeepCopyFailed => "DeepCopyFailed"@,
            EngineError::SystemBusy => "SystemBusy"@,
            EngineError::StrictCasMismatch { .. } => "StrictCasMismatch"@,
            EngineError::CasConflict { .. } => "CasConflict"@,
            EngineError::SecurityViolation => "SecurityViolation"@,
            EngineError::TypeError => "TypeError"@,
            EngineError::IndexError => "IndexError"@,
        }
    }
}

} // verus!
