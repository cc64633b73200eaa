//! Error kinds surfaced by the library, each with a one-line human message.

use vstd::prelude::*;
use vstd::string::StringExecFns;

verus! {

/// Result alias used throughout the library.
pub type StResult<T> = Result<T, StError>;

/// Every failure the core can report.
#[derive(Debug, Clone, PartialEq, Eq)]
pub enum StError {
    /// A lookup of a name that is not in the active trunk; also used for a
    /// missing parent or a missing trunk.
    BranchNotTracked(String),
    /// A duplicate insertion.
    BranchAlreadyTracked(String),
    /// An attempt to delete the trunk entry itself.
    CannotDeleteTrunkBranch,
    /// A cached parent id disagrees with the parent's current head.
    NeedsRestack(String),
    /// Uncommitted changes are present in the working copy.
    WorkingTreeDirty,
    /// First-time push of a child whose parent has never been pushed.
    BaseBranchNotOnRemote(String),
    /// The origin URL is unparseable or absent.
    RemoteNotFound(String),
    /// A remote pull-request lookup returned nothing.
    PullRequestNotFound,
    /// The process was started outside a repository.
    NotAGitRepository,
    /// The repository root could not be located.
    GitRepositoryRootNotFound,
    /// An empty commit message was given at create-commit.
    CommitMessageRequired,
    /// A non-trunk branch without a cached parent id was found at restack.
    MissingParentOidCache,
    /// A malformed on-disk document or response.
    DecodingError(String),
    /// A branch handle could not be resolved.
    BranchUnavailable,
    /// A wrapped I/O failure.
    IoError(String),
    /// A wrapped formatting failure.
    FmtError,
}

impl StError {
    /// The one-line message for this error, as a sequence of characters.
    pub open spec fn message_spec(&self) -> Seq<char> {
        match self {
            StError::BranchNotTracked(n) => "Branch `"@ + n@ + "` is not tracked"@,
            StError::BranchAlreadyTracked(n) => "Branch `"@ + n@ + "` is already tracked"@,
            StError::CannotDeleteTrunkBranch => "Cannot delete the trunk branch"@,
            StError::NeedsRestack(n) => "Branch `"@ + n@
                + "` is out of date. Run `st restack` first."@,
            StError::WorkingTreeDirty => "Working tree is dirty"@,
            StError::BaseBranchNotOnRemote(n) => "Base branch `"@ + n@
                + "` does not exist on remote. Push it first with `git push origin "@ + n@
                + "`."@,
            StError::RemoteNotFound(n) => "Remote `"@ + n@ + "` not found"@,
            StError::PullRequestNotFound => "Remote pull request not found"@,
            StError::NotAGitRepository => "`st` must be used within a git repository"@,
            StError::GitRepositoryRootNotFound => "Git repository root could not be found"@,
            StError::CommitMessageRequired => "Commit message is required"@,
            StError::MissingParentOidCache => "Parent's commit id cache is missing"@,
            StError::DecodingError(d) => "Decoding error: "@ + d@,
            StError::BranchUnavailable => "Branch was not found"@,
            StError::IoError(d) => "IO error: "@ + d@,
            StError::FmtError => "A write error occurred"@,
        }
    }

    /// Renders the one-line message for this error.
    pub fn message(&self) -> (r: String)
        ensures
            r@ == self.message_spec(),
    {
        match self {
            StError::BranchNotTracked(n) => {
                let mut s: String = "Branch `".to_owned();
                s.append(n.as_str());
                s.append("` is not tracked");
                proof {
                    assert(s@ =~= self.message_spec());
                }
                s
            },
            StError::BranchAlreadyTracked(n) => {
                let mut s: String = "Branch `".to_owned();
                s.append(n.as_str());
                s.append("` is already tracked");
                proof {
                    assert(s@ =~= self.message_spec());
                }
                s
            },
            StError::CannotDeleteTrunkBranch => "Cannot delete the trunk branch".to_owned(),
            StError::NeedsRestack(n) => {
                let mut s: String = "Branch `".to_owned();
                s.append(n.as_str());
                s.append("` is out of date. Run `st restack` first.");
                proof {
                    assert(s@ =~= self.message_spec());
                }
                s
            },
            StError::WorkingTreeDirty => "Working tree is dirty".to_owned(),
            StError::BaseBranchNotOnRemote(n) => {
                let mut s: String = "Base branch `".to_owned();
                s.append(n.as_str());
                s.append("` does not exist on remote. Push it first with `git push origin ");
                s.append(n.as_str());
                s.append("`.");
                proof {
                    assert(s@ =~= self.message_spec());
                }
                s
            },
            StError::RemoteNotFound(n) => {
                let mut s: String = "Remote `".to_owned();
                s.append(n.as_str());
                s.append("` not found");
                proof {
                    assert(s@ =~= self.message_spec());
                }
                s
            },
            StError::PullRequestNotFound => "Remote pull request not found".to_owned(),
            StError::NotAGitRepository => "`st` must be used within a git repository".to_owned(),
            StError::GitRepositoryRootNotFound => {
                "Git repository root could not be found".to_owned()
            },
            StError::CommitMessageRequired => "Commit message is required".to_owned(),
            StError::MissingParentOidCache => "Parent's commit id cache is missing".to_owned(),
            StError::DecodingError(d) => {
                let mut s: String = "Decoding error: ".to_owned();
                s.append(d.as_str());
                proof {
                    assert(s@ =~= self.message_spec());
                }
                s
            },
            StError::BranchUnavailable => "Branch was not found".to_owned(),
            StError::IoError(d) => {
                let mut s: String = "IO error: ".to_owned();
                s.append(d.as_str());
                proof {
                    assert(s@ =~= self.message_spec());
                }
                s
            },
            StError::FmtError => "A write error occurred".to_owned(),
        }
    }
}

#[verifier::external_type_specification]
#[verifier::external_body]
pub struct ExIoError(std::io::Error);

#[verifier::external_type_specification]
#[verifier::external_body]
pub struct ExFmtError(core::fmt::Error);

/// Relies on the standard `Display` rendering of `std::io::Error` to carry
/// the failure's description into the library's own error kind.
impl From<std::io::Error> for StError {
    #[verifier::external_body]
    fn from(e: std::io::Error) -> StError {
        StError::IoError(format!("{}", e))
    }
}

/// Every formatting failure maps to the same error kind: `core::fmt::Error`
/// carries no data.
impl From<core::fmt::Error> for StError {
    fn from(e: core::fmt::Error) -> (r: StError)
        ensures
            r == StError::FmtError,
    {
        let _ = e;
        StError::FmtError
    }
}

impl vstd::std_specs::convert::FromSpecImpl<core::fmt::Error> for StError {
    open spec fn obeys_from_spec() -> bool {
        true
    }

    open spec fn from_spec(e: core::fmt::Error) -> StError {
        StError::FmtError
    }
}

} // verus!
