//! The kinds of failure, and which of them end a run.

use vstd::prelude::*;

verus! {

/// What went wrong.
#[derive(Clone, Copy, Debug, PartialEq, Eq, Structural)]
pub enum ErrorKind {
    /// The configuration cannot be read, or there is no home directory.
    Config,
    /// A pattern of the configuration does not compile.
    Pattern,
    /// A resolved path is not a repository.
    RepoAccess,
    /// The backend failed to answer a query about a repository.
    VcsQuery,
}

impl ErrorKind {
    /// A failure of the setup is fatal: nothing can be reported without the
    /// configuration. A failure in one repository is not: it is reported with
    /// that repository, and the run goes on to the next.
    pub open spec fn fatal(self) -> bool {
        self == ErrorKind::Config || self == ErrorKind::Pattern
    }

    /// Whether a failure of this kind ends the run.
    pub fn is_fatal(self) -> (r: bool)
        ensures
            r == self.fatal(),
    {
        match self {
            ErrorKind::Config => true,
            ErrorKind::Pattern => true,
            ErrorKind::RepoAccess => false,
            ErrorKind::VcsQuery => false,
        }
    }
}

} // verus!
