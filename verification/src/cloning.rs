//! `clone`: which repositories to clone, from where, and into which
//! directory, keeping the group hierarchy below the queried context.
use vstd::prelude::*;

use crate::api::{trim_end_slashes, ListRequest, ListSpec};
use crate::cli::{Command, ObjectType};
use crate::error::UsageError;
use crate::models::Project;
use crate::targets::{group_target, group_target_spec, repo_target, repo_target_spec, str_opt};
use crate::text::{chars_of, concat2, concat3, decimal, decimal_string, owned, string_from};

verus! {

/// `s` without the `/` characters at its start.
pub open spec fn trim_start_slashes(s: Seq<char>) -> Seq<char>
    decreases s.len(),
{
    if s.len() > 0 && s[0] == '/' {
        trim_start_slashes(s.drop_first())
    } else {
        s
    }
}

/// `s` without `/` at either end (`trim_matches('/')`).
pub open spec fn trim_slashes(s: Seq<char>) -> Seq<char> {
    trim_end_slashes(trim_start_slashes(s))
}

/// `full` lies in the group `c` or is `c` itself: `c` is made of its
/// leading whole `/`-separated segments.
pub open spec fn in_context(c: Seq<char>, full: Seq<char>) -> bool {
    ||| full == c
    ||| c.len() < full.len() && full.take(c.len() as int) == c && full[c.len() as int] == '/'
}

/// Where a project is cloned to, relative to the working directory: its
/// path below the (slash-trimmed) context group; its own path segment when
/// it is the context itself; its full path when there is no context or it
/// lies outside the context group.
pub open spec fn target_path_spec(context: Seq<char>, full: Seq<char>, own: Seq<char>) -> Seq<char> {
    let c = trim_slashes(context);
    if c.len() == 0 {
        full
    } else if in_context(c, full) {
        let rest = trim_start_slashes(full.skip(c.len() as int));
        if rest.len() == 0 {
            own
        } else {
            rest
        }
    } else {
        full
    }
}

/// The directory a project is cloned into.
pub fn target_path(context: &str, p: &Project) -> (r: String)
    ensures
        r@ == target_path_spec(context@, p.path_with_namespace@, p.path@),
{
    let cc = chars_of(context);
    let mut a: usize = 0;
    assert(cc@.skip(0) =~= cc@);
    while a < cc.len() && cc[a] == '/'
        invariant
            a <= cc.len(),
            cc@ == context@,
            trim_start_slashes(context@) == trim_start_slashes(cc@.skip(a as int)),
        decreases cc.len() - a,
    {
        assert(cc@.skip(a as int).drop_first() =~= cc@.skip(a + 1));
        a = a + 1;
    }
    let mut b: usize = cc.len();
    assert(cc@.skip(a as int) =~= cc@.subrange(a as int, b as int));
    while b > a && cc[b - 1] == '/'
        invariant
            a <= b <= cc.len(),
            cc@ == context@,
            trim_slashes(context@) == trim_end_slashes(cc@.subrange(a as int, b as int)),
        decreases b,
    {
        assert(cc@.subrange(a as int, b as int).drop_last() =~= cc@.subrange(a as int, b - 1));
        b = b - 1;
    }
    let ghost c = cc@.subrange(a as int, b as int);
    assert(trim_slashes(context@) == c);
    let full = &p.path_with_namespace;
    if a == b {
        return full.clone();
    }
    let pc = chars_of(full.as_str());
    let clen = b - a;
    if clen > pc.len() {
        return full.clone();
    }
    let mut i: usize = 0;
    while i < clen
        invariant
            i <= clen <= pc.len(),
            clen == b - a,
            a <= b <= cc.len(),
            c == cc@.subrange(a as int, b as int),
            c.len() == clen,
            cc@ == context@,
            pc@ == p.path_with_namespace@,
            trim_slashes(context@) == c,
            pc@.take(i as int) == c.take(i as int),
        decreases clen - i,
    {
        if pc[i] != cc[a + i] {
            assert(pc@.take(clen as int)[i as int] != c[i as int]);
            return p.path_with_namespace.clone();
        }
        assert(pc@.take(i + 1) =~= pc@.take(i as int).push(pc@[i as int]));
        assert(c.take(i + 1) =~= c.take(i as int).push(c[i as int]));
        i = i + 1;
    }
    assert(c.take(clen as int) =~= c);
    if clen == pc.len() {
        assert(pc@ =~= c);
        return p.path.clone();
    }
    if pc[clen] != '/' {
        assert(pc@ != c);
        return p.path_with_namespace.clone();
    }
    let mut s: usize = clen;
    assert(pc@.skip(clen as int) =~= pc@.skip(s as int));
    while s < pc.len() && pc[s] == '/'
        invariant
            clen <= s <= pc.len(),
            trim_start_slashes(pc@.skip(clen as int)) == trim_start_slashes(pc@.skip(s as int)),
        decreases pc.len() - s,
    {
        assert(pc@.skip(s as int).drop_first() =~= pc@.skip(s + 1));
        s = s + 1;
    }
    if s == pc.len() {
        return p.path.clone();
    }
    let r = string_from(&pc, s, pc.len());
    assert(r@ =~= pc@.skip(s as int));
    r
}

/// Below a context given without surrounding slashes, a project at
/// `context/rest` is cloned into `rest`: the hierarchy below the context is
/// kept and the context itself does not appear.
pub proof fn lemma_target_below_context(
    context: Seq<char>,
    rest: Seq<char>,
    own: Seq<char>,
)
    requires
        context.len() > 0,
        trim_slashes(context) == context,
        rest.len() > 0,
        rest[0] != '/',
    ensures
        target_path_spec(context, context + "/"@ + rest, own) == rest,
{
    let full = context + "/"@ + rest;
    assert(("/"@).len() == 1 && ("/"@)[0] == '/') by {
        reveal_strlit("/");
    }
    assert(trim_slashes(context) == context);
    assert(full.len() == context.len() + 1 + rest.len());
    assert(full.take(context.len() as int) =~= context);
    let tail = full.skip(context.len() as int);
    assert(tail.len() == rest.len() + 1);
    assert(tail[0] == '/');
    assert(tail.drop_first() =~= rest);
    assert(trim_start_slashes(tail) == trim_start_slashes(rest));
    assert(trim_start_slashes(rest) == rest);
}

/// The repository that is the context itself is cloned into its own path
/// segment.
pub proof fn lemma_target_is_context(context: Seq<char>, own: Seq<char>)
    requires
        trim_slashes(context).len() > 0,
    ensures
        target_path_spec(context, trim_slashes(context), own) == own,
{
    let c = trim_slashes(context);
    assert(c.take(c.len() as int) =~= c);
    assert(c.skip(c.len() as int) =~= Seq::<char>::empty());
}

/// A project whose path only starts with the context's characters, within
/// one segment (`my_group/repo` for the context `my`), lies outside the
/// context group and keeps its full path.
pub proof fn lemma_target_partial_segment(
    context: Seq<char>,
    x: char,
    rest: Seq<char>,
    own: Seq<char>,
)
    requires
        context.len() > 0,
        trim_slashes(context) == context,
        x != '/',
    ensures
        target_path_spec(context, context.push(x) + rest, own) == context.push(x) + rest,
{
    let full = context.push(x) + rest;
    assert(full[context.len() as int] == x);
    assert(full.len() > context.len());
}

/// Without a context, every project is cloned into its full path.
pub proof fn lemma_target_without_context(context: Seq<char>, full: Seq<char>, own: Seq<char>)
    requires
        trim_slashes(context).len() == 0,
    ensures
        target_path_spec(context, full, own) == full,
{
}

/// What `clone` clones.
pub enum CloneSource {
    /// One repository.
    Repo { path: String },
    /// Every repository of a group (and of its subgroups when recursive).
    Group { path: String, projects: ListRequest },
}

/// The source for `clone`.
pub fn clone_source(
    namespace: Option<&str>,
    recursive: bool,
    object_type: ObjectType,
    name: Option<&str>,
) -> (r: Result<CloneSource, UsageError>)
    ensures
        object_type == ObjectType::Group ==> match group_target_spec(
            str_opt(namespace),
            str_opt(name),
        ) {
            Some(p) => (r matches Ok(CloneSource::Group { path, projects }) && path@ == p
                && projects@ == ListSpec::GroupProjects(p, recursive)),
            None => r == Err::<CloneSource, UsageError>(
                UsageError::GroupNeedsContext(Command::Clone),
            ),
        },
        object_type == ObjectType::Repo ==> match repo_target_spec(
            str_opt(namespace),
            str_opt(name),
        ) {
            Some(p) => (r matches Ok(CloneSource::Repo { path }) && path@ == p),
            None => r == Err::<CloneSource, UsageError>(UsageError::RepoNeedsName(Command::Clone)),
        },
{
    match object_type {
        ObjectType::Repo => {
            let path = repo_target(Command::Clone, namespace, name)?;
            Ok(CloneSource::Repo { path })
        },
        ObjectType::Group => {
            let path = group_target(Command::Clone, namespace, name)?;
            let projects = ListRequest::GroupProjects(path.clone(), recursive);
            Ok(CloneSource::Group { path, projects })
        },
    }
}

/// One `git clone` to run.
pub struct CloneJob {
    /// The project's path with namespace, as reported.
    pub name: String,
    /// The URL to clone from.
    pub source: String,
    /// The directory to clone into.
    pub target: String,
}

/// The URL a project is cloned from: HTTPS or SSH.
pub open spec fn clone_url(p: Project, use_http: bool) -> Seq<char> {
    if use_http {
        p.http_url_to_repo@
    } else {
        p.ssh_url_to_repo@
    }
}

/// The clones to run, one per project, in order.
pub fn clone_jobs(context: &str, projects: &Vec<Project>, use_http: bool) -> (r: Vec<CloneJob>)
    ensures
        r@.len() == projects@.len(),
        forall|i: int|
            0 <= i < r@.len() ==> {
                &&& (#[trigger] r@[i]).name@ == projects@[i].path_with_namespace@
                &&& r@[i].source@ == clone_url(projects@[i], use_http)
                &&& r@[i].target@ == target_path_spec(
                    context@,
                    projects@[i].path_with_namespace@,
                    projects@[i].path@,
                )
            },
{
    let mut out: Vec<CloneJob> = Vec::new();
    let mut i: usize = 0;
    while i < projects.len()
        invariant
            i <= projects@.len(),
            out@.len() == i,
            forall|j: int|
                0 <= j < i ==> {
                    &&& (#[trigger] out@[j]).name@ == projects@[j].path_with_namespace@
                    &&& out@[j].source@ == clone_url(projects@[j], use_http)
                    &&& out@[j].target@ == target_path_spec(
                        context@,
                        projects@[j].path_with_namespace@,
                        projects@[j].path@,
                    )
                },
        decreases projects.len() - i,
    {
        let p = &projects[i];
        let source = if use_http {
            p.http_url_to_repo.clone()
        } else {
            p.ssh_url_to_repo.clone()
        };
        let target = target_path(context, p);
        out.push(CloneJob { name: p.path_with_namespace.clone(), source, target });
        i = i + 1;
    }
    out
}

/// The line printed before cloning.
pub fn clone_banner(total: usize) -> (r: String)
    ensures
        total == 0 ==> r@ == "No repositories to clone."@,
        total > 0 ==> r@ == "Cloning "@ + decimal(total as nat) + " repositories...\n"@,
{
    if total == 0 {
        owned("No repositories to clone.")
    } else {
        let n = decimal_string(total as u64);
        concat3("Cloning ", n.as_str(), " repositories...\n")
    }
}

/// The line printed for one clone.
pub fn clone_job_line(job: &CloneJob) -> (r: String)
    ensures
        r@ == "Cloning "@ + job.name@ + " -> ./"@ + job.target@,
{
    let head = concat3("Cloning ", job.name.as_str(), " -> ./");
    concat2(head.as_str(), job.target.as_str())
}

/// The line printed after cloning: how many of the clones succeeded.
pub fn clone_summary(total: usize, failed: usize) -> (r: String)
    requires
        failed <= total,
    ensures
        r@ == "Done. "@ + decimal((total - failed) as nat) + "/"@ + decimal(total as nat)
            + " cloned successfully."@,
{
    let ok = decimal_string((total - failed) as u64);
    let all = decimal_string(total as u64);
    let head = concat3("Done. ", ok.as_str(), "/");
    concat3(head.as_str(), all.as_str(), " cloned successfully.")
}

} // verus!
