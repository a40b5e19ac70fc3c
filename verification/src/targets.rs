//! Which group or repository a command addresses: the `-n` context and the
//! trailing name, joined with `/`.
use vstd::prelude::*;

use crate::cli::Command;
use crate::error::UsageError;
use crate::text::{concat3, owned};

verus! {

/// The view of an optional string.
pub open spec fn str_opt(o: Option<&str>) -> Option<Seq<char>> {
    match o {
        Some(s) => Some(s@),
        None => None,
    }
}

/// `a/b`.
pub open spec fn join_path(a: Seq<char>, b: Seq<char>) -> Seq<char> {
    a + "/"@ + b
}

/// The group a group command addresses: the context, the name, or the name
/// inside the context; none when both are missing.
pub open spec fn group_target_spec(ns: Option<Seq<char>>, name: Option<Seq<char>>) -> Option<
    Seq<char>,
> {
    match (ns, name) {
        (Some(a), Some(b)) => Some(join_path(a, b)),
        (Some(a), None) => Some(a),
        (None, Some(b)) => Some(b),
        (None, None) => None,
    }
}

/// The repository a repository command addresses: the name, inside the
/// context if there is one; none without a name.
pub open spec fn repo_target_spec(ns: Option<Seq<char>>, name: Option<Seq<char>>) -> Option<
    Seq<char>,
> {
    match name {
        Some(b) => match ns {
            Some(a) => Some(join_path(a, b)),
            None => Some(b),
        },
        None => None,
    }
}

/// The group a command addresses is the trailing name as given when there
/// is no `-n` context, the context itself when there is no name, and the
/// name inside the context otherwise: the context, one `/`, then the name.
/// With neither there is none.
pub proof fn lemma_group_target(ns: Seq<char>, name: Seq<char>)
    ensures
        group_target_spec(None, Some(name)) == Some(name),
        group_target_spec(Some(ns), None) == Some(ns),
        group_target_spec(Some(ns), Some(name)) == Some(ns + seq!['/'] + name),
        group_target_spec(None, None) is None,
{
    reveal_strlit("/");
    assert("/"@ =~= seq!['/']);
}

/// The repository a command addresses is the trailing name as given when
/// there is no `-n` context, and the name inside the context otherwise: the
/// context, one `/`, then the name. Without a name there is none, whatever
/// the context.
pub proof fn lemma_repo_target(ns: Option<Seq<char>>, name: Seq<char>)
    ensures
        repo_target_spec(None, Some(name)) == Some(name),
        repo_target_spec(ns, None) is None,
        ns is Some ==> repo_target_spec(ns, Some(name)) == Some(ns.unwrap() + seq!['/'] + name),
{
    reveal_strlit("/");
    assert("/"@ =~= seq!['/']);
}

/// A path addressed inside a context keeps both whole: it starts with the
/// context, has a `/` right after it, and the rest is the name.
pub proof fn lemma_target_splits_back(ns: Seq<char>, name: Seq<char>)
    ensures
        ({
            let p = group_target_spec(Some(ns), Some(name)).unwrap();
            &&& p.len() == ns.len() + 1 + name.len()
            &&& p.take(ns.len() as int) == ns
            &&& p[ns.len() as int] == '/'
            &&& p.skip(ns.len() + 1int) == name
            &&& repo_target_spec(Some(ns), Some(name)) == Some(p)
        }),
{
    lemma_group_target(ns, name);
    lemma_repo_target(Some(ns), name);
    let p = ns + seq!['/'] + name;
    assert(p.take(ns.len() as int) =~= ns);
    assert(p.skip(ns.len() + 1int) =~= name);
}

/// The path of the group that `cmd` addresses.
pub fn group_target(cmd: Command, namespace: Option<&str>, name: Option<&str>) -> (r: Result<
    String,
    UsageError,
>)
    ensures
        match group_target_spec(str_opt(namespace), str_opt(name)) {
            Some(p) => r matches Ok(s) && s@ == p,
            None => r == Err::<String, UsageError>(UsageError::GroupNeedsContext(cmd)),
        },
{
    match (namespace, name) {
        (Some(ns), Some(n)) => Ok(concat3(ns, "/", n)),
        (Some(ns), None) => Ok(owned(ns)),
        (None, Some(n)) => Ok(owned(n)),
        (None, None) => Err(UsageError::GroupNeedsContext(cmd)),
    }
}

/// The path of the repository that `cmd` addresses.
pub fn repo_target(cmd: Command, namespace: Option<&str>, name: Option<&str>) -> (r: Result<
    String,
    UsageError,
>)
    ensures
        match repo_target_spec(str_opt(namespace), str_opt(name)) {
            Some(p) => r matches Ok(s) && s@ == p,
            None => r == Err::<String, UsageError>(UsageError::RepoNeedsName(cmd)),
        },
{
    match name {
        None => Err(UsageError::RepoNeedsName(cmd)),
        Some(n) => match namespace {
            Some(ns) => Ok(concat3(ns, "/", n)),
            None => Ok(owned(n)),
        },
    }
}

} // verus!
