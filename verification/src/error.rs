//! Domain-level error taxonomy shared by the whole control plane.

use vstd::prelude::*;

verus! {

/// What went wrong, at the level an operator cares about.
///
/// `Transient` failures are retried on the next wake; `Network` failures
/// belong to one connection; `Auth` rejects a request; `InvalidConfig`
/// means the declared state is impossible and prior state is left
/// untouched; `Fatal` ends the process.
#[derive(Clone, Copy, Debug, PartialEq, Eq, Structural)]
pub enum ErrorKind {
    Transient,
    Network,
    Auth,
    InvalidConfig,
    Fatal,
}

impl ErrorKind {
    /// Stable lower-case name of the kind, for operator-facing output.
    pub fn as_str(&self) -> (r: &'static str)
        ensures
            r@ == self.spec_name(),
    {
        match self {
            ErrorKind::Transient => "transient",
            ErrorKind::Network => "network",
            ErrorKind::Auth => "auth",
            ErrorKind::InvalidConfig => "invalid-config",
            ErrorKind::Fatal => "fatal",
        }
    }

    pub open spec fn spec_name(self) -> Seq<char> {
        match self {
            ErrorKind::Transient => "transient"@,
            ErrorKind::Network => "network"@,
            ErrorKind::Auth => "auth"@,
            ErrorKind::InvalidConfig => "invalid-config"@,
            ErrorKind::Fatal => "fatal"@,
        }
    }
}

} // verus!
