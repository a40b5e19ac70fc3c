//! The commands and object types the tool accepts.
use vstd::prelude::*;

verus! {

/// What to do.
#[derive(Clone, Copy, Debug, PartialEq, Eq, Structural)]
pub enum Command {
    /// Print objects of the given type.
    List,
    /// Fetch metadata for the specified object.
    Get,
    /// Clone repo(s); when applied to a group, clone every repo it contains.
    Clone,
}

/// What to do it to.
#[derive(Clone, Copy, Debug, PartialEq, Eq, Structural)]
pub enum ObjectType {
    Group,
    Repo,
}

/// The word a command is typed as.
pub open spec fn command_word(c: Command) -> Seq<char> {
    match c {
        Command::List => "list"@,
        Command::Get => "get"@,
        Command::Clone => "clone"@,
    }
}

impl Command {
    /// The word the command is typed as.
    pub fn word(&self) -> (r: &'static str)
        ensures
            r@ == command_word(*self),
    {
        match self {
            Command::List => "list",
            Command::Get => "get",
            Command::Clone => "clone",
        }
    }
}

} // verus!
