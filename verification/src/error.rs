//! What can go wrong while planning or running a mirror.

use vstd::prelude::*;

verus! {

/// The broad classes of failure.
#[derive(Debug, Clone, Copy, PartialEq, Eq, Structural)]
pub enum ErrorKind {
    /// The network failed.
    Transport,
    /// Something received could not be understood.
    Parse,
    /// The saved plan is missing or unreadable.
    PlanIo,
    /// A local file or directory could not be created or moved.
    Filesystem,
}

/// A failure, as precise as this crate can tell.
#[derive(Debug, Clone, Copy, PartialEq, Eq, Structural)]
pub enum MirrorError {
    /// A request did not complete.
    Transport,
    /// A string is not an absolute URL.
    InvalidUrl,
    /// An index response is not a JSON array of string rows.
    MalformedJson,
    /// An index row does not have exactly two fields.
    MalformedRow,
    /// A record's path is shorter than the path of the query it answers.
    OutsidePrefix,
    /// The saved plan could not be read back.
    PlanIo,
    /// A local file operation failed.
    Filesystem,
}

impl MirrorError {
    /// The class of each failure.
    pub open spec fn spec_kind(self) -> ErrorKind {
        match self {
            MirrorError::Transport => ErrorKind::Transport,
            MirrorError::InvalidUrl => ErrorKind::Parse,
            MirrorError::MalformedJson => ErrorKind::Parse,
            MirrorError::MalformedRow => ErrorKind::Parse,
            MirrorError::OutsidePrefix => ErrorKind::Parse,
            MirrorError::PlanIo => ErrorKind::PlanIo,
            MirrorError::Filesystem => ErrorKind::Filesystem,
        }
    }

    /// The class this failure belongs to.
    #[verifier::when_used_as_spec(spec_kind)]
    pub fn kind(self) -> (k: ErrorKind)
        ensures
            k == self.spec_kind(),
    {
        match self {
            MirrorError::Transport => ErrorKind::Transport,
            MirrorError::InvalidUrl => ErrorKind::Parse,
            MirrorError::MalformedJson => ErrorKind::Parse,
            MirrorError::MalformedRow => ErrorKind::Parse,
            MirrorError::OutsidePrefix => ErrorKind::Parse,
            MirrorError::PlanIo => ErrorKind::PlanIo,
            MirrorError::Filesystem => ErrorKind::Filesystem,
        }
    }

    /// Whether a run may carry on after this failure. Only a plan that
    /// cannot be read back is recoverable: the plan is then computed afresh.
    pub fn is_recoverable(self) -> (r: bool)
        ensures
            r == (self.spec_kind() == ErrorKind::PlanIo),
    {
        match self {
            MirrorError::PlanIo => true,
            _ => false,
        }
    }
}

} // verus!
