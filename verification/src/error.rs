//! The ways a command line can be refused.
use vstd::prelude::*;

use crate::cli::{command_word, Command};
use crate::text::{concat3, owned};

verus! {

/// Why a command cannot run.
#[derive(Clone, Copy, Debug, PartialEq, Eq, Structural)]
pub enum UsageError {
    /// No token was given.
    MissingToken,
    /// The token holds a byte that an HTTP header value cannot hold.
    InvalidToken,
    /// `list` was given a trailing name.
    ListTakesNoName,
    /// A group command was given neither `-n` nor a name.
    GroupNeedsContext(Command),
    /// A repository command was given no name.
    RepoNeedsName(Command),
}

/// The message shown for an error.
pub open spec fn error_message(e: UsageError) -> Seq<char> {
    match e {
        UsageError::MissingToken => "GitLab token is required. Use --token or set GITLAB_TOKEN env var"@,
        UsageError::InvalidToken => "failed to parse header value"@,
        UsageError::ListTakesNoName => "`list` does not accept a trailing name; use -n to set the context"@,
        UsageError::GroupNeedsContext(c) => "`"@ + command_word(c) + " group` requires -n <group> or a name"@,
        UsageError::RepoNeedsName(c) => "`"@ + command_word(c) + " repo` requires a name"@,
    }
}

impl UsageError {
    /// The message shown for the error.
    pub fn message(&self) -> (r: String)
        ensures
            r@ == error_message(*self),
    {
        match self {
            UsageError::MissingToken => owned(
                "GitLab token is required. Use --token or set GITLAB_TOKEN env var",
            ),
            UsageError::InvalidToken => owned("failed to parse header value"),
            UsageError::ListTakesNoName => owned(
                "`list` does not accept a trailing name; use -n to set the context",
            ),
            UsageError::GroupNeedsContext(c) => concat3(
                "`",
                c.word(),
                " group` requires -n <group> or a name",
            ),
            UsageError::RepoNeedsName(c) => concat3("`", c.word(), " repo` requires a name"),
        }
    }
}

} // verus!
