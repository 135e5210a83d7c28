//! Error kinds shared by the whole engine.
//!
//! Fatal conditions (usage and configuration mistakes) exit with code 2;
//! repository, conflict and network failures exit with code 1.

use vstd::prelude::*;

verus! {

/// Every failure the engine can report.
///
/// `Usage` covers missing or invalid options, a dirty working tree, a
/// detached HEAD where an attached one is required, and unknown branch
/// names. `Config` covers malformed protected-branch patterns. `NotFound`,
/// `Io` and `Protocol` are repository-level failures; `Conflict` marks a
/// rebase, cherry-pick or squash that could not be applied cleanly and is
/// non-fatal per branch. `Network` marks a failed fetch or push.
#[derive(Clone, Copy, Debug, PartialEq, Eq, Structural)]
pub enum Error {
    Usage,
    Config,
    NotFound,
    Conflict,
    Io,
    Protocol,
    Network,
}

impl Error {
    /// The process exit code this failure maps to: 2 for usage and
    /// configuration mistakes, 1 for everything else.
    pub fn exit_code(&self) -> (code: u8)
        ensures
            code == self.spec_exit_code(),
    {
        match self {
            Error::Usage => 2,
            Error::Config => 2,
            _ => 1,
        }
    }

    /// Specification of [`Error::exit_code`].
    pub open spec fn spec_exit_code(self) -> u8 {
        match self {
            Error::Usage => 2u8,
            Error::Config => 2u8,
            _ => 1u8,
        }
    }

    /// A short fixed description, usable by a front end in messages.
    pub fn describe(&self) -> &'static str {
        match self {
            Error::Usage => "usage error",
            Error::Config => "configuration error",
            Error::NotFound => "not found in the repository",
            Error::Conflict => "conflict",
            Error::Io => "repository input/output error",
            Error::Protocol => "repository protocol error",
            Error::Network => "network failure",
        }
    }
}

} // verus!
