//! `get`: what to fetch, and what to print about a group or a repository.
use vstd::prelude::*;

use crate::api::{ListRequest, ListSpec};
use crate::cli::{Command, ObjectType};
use crate::error::UsageError;
use crate::models::{Group, Project};
use crate::targets::{group_target, group_target_spec, repo_target, repo_target_spec, str_opt};
use crate::text::{concat2, decimal, decimal_string};
use crate::tree::{
    build_tree, built_from, lemma_built_from_renders_alike, render_from, render_node, views, Node,
};

verus! {

/// What `get` fetches.
pub enum GetPlan {
    /// A group, then its subgroups (all of them when recursive) and its
    /// projects (with those of its subgroups when recursive).
    Group { path: String, subgroups: ListRequest, projects: ListRequest },
    /// One repository.
    Repo { path: String },
}

/// The plan for `get`.
pub fn get_plan(
    namespace: Option<&str>,
    recursive: bool,
    object_type: ObjectType,
    name: Option<&str>,
) -> (r: Result<GetPlan, UsageError>)
    ensures
        object_type == ObjectType::Group ==> match group_target_spec(
            str_opt(namespace),
            str_opt(name),
        ) {
            Some(p) => (r matches Ok(GetPlan::Group { path, subgroups, projects }) && path@ == p
                && subgroups@ == (if recursive {
                ListSpec::DescendantGroups(p)
            } else {
                ListSpec::Subgroups(p)
            }) && projects@ == ListSpec::GroupProjects(p, recursive)),
            None => r == Err::<GetPlan, UsageError>(UsageError::GroupNeedsContext(Command::Get)),
        },
        object_type == ObjectType::Repo ==> match repo_target_spec(
            str_opt(namespace),
            str_opt(name),
        ) {
            Some(p) => (r matches Ok(GetPlan::Repo { path }) && path@ == p),
            None => r == Err::<GetPlan, UsageError>(UsageError::RepoNeedsName(Command::Get)),
        },
{
    match object_type {
        ObjectType::Group => {
            let path = group_target(Command::Get, namespace, name)?;
            let subgroups = if recursive {
                ListRequest::DescendantGroups(path.clone())
            } else {
                ListRequest::Subgroups(path.clone())
            };
            let projects = ListRequest::GroupProjects(path.clone(), recursive);
            Ok(GetPlan::Group { path, subgroups, projects })
        },
        ObjectType::Repo => {
            let path = repo_target(Command::Get, namespace, name)?;
            Ok(GetPlan::Repo { path })
        },
    }
}

/// A labelled line for an optional value, when it is present.
pub open spec fn opt_line(label: Seq<char>, v: Option<String>) -> Seq<Seq<char>> {
    match v {
        Some(s) => seq![label + s@],
        None => seq![],
    }
}

/// A labelled line for an optional value, when it is present and not empty.
pub open spec fn nonempty_line(label: Seq<char>, v: Option<String>) -> Seq<Seq<char>> {
    match v {
        Some(s) => if s@.len() > 0 {
            seq![label + s@]
        } else {
            seq![]
        },
        None => seq![],
    }
}

fn push_opt(out: &mut Vec<String>, label: &str, v: &Option<String>)
    ensures
        views(final(out)@) == views(old(out)@) + opt_line(label@, *v),
{
    let ghost before = views(out@);
    match v {
        Some(s) => {
            out.push(concat2(label, s.as_str()));
        },
        None => {},
    }
    assert(views(out@) =~= before + opt_line(label@, *v));
}

fn push_nonempty(out: &mut Vec<String>, label: &str, v: &Option<String>)
    ensures
        views(final(out)@) == views(old(out)@) + nonempty_line(label@, *v),
{
    let ghost before = views(out@);
    match v {
        Some(s) => {
            if !s.as_str().is_empty() {
                out.push(concat2(label, s.as_str()));
            }
        },
        None => {},
    }
    assert(views(out@) =~= before + nonempty_line(label@, *v));
}

fn push_line(out: &mut Vec<String>, label: &str, value: &str)
    ensures
        views(final(out)@) == views(old(out)@).push(label@ + value@),
{
    let ghost before = views(out@);
    out.push(concat2(label, value));
    assert(views(out@) =~= before.push(label@ + value@));
}

/// What `get group` prints about the group itself.
pub open spec fn group_details_spec(g: Group) -> Seq<Seq<char>> {
    seq![
        "id:          "@ + decimal(g.id as nat),
        "name:        "@ + g.name@,
        "full_path:   "@ + g.full_path@,
    ] + opt_line("visibility:  "@, g.visibility) + nonempty_line("description: "@, g.description)
        + opt_line("web_url:     "@, g.web_url) + match g.parent_id {
        Some(p) => seq!["parent_id:   "@ + decimal(p as nat)],
        None => seq![],
    }
}

/// What `get repo` prints about the repository.
pub open spec fn project_details_spec(p: Project) -> Seq<Seq<char>> {
    seq![
        "id:                  "@ + decimal(p.id as nat),
        "name:                "@ + p.name@,
        "path_with_namespace: "@ + p.path_with_namespace@,
    ] + opt_line("default_branch:      "@, p.default_branch) + opt_line(
        "visibility:          "@,
        p.visibility,
    ) + nonempty_line("description:         "@, p.description) + opt_line(
        "web_url:             "@,
        p.web_url,
    ) + seq![
        "ssh_url_to_repo:     "@ + p.ssh_url_to_repo@,
        "http_url_to_repo:    "@ + p.http_url_to_repo@,
    ]
}

/// The lines describing a group.
pub fn group_details(g: &Group) -> (r: Vec<String>)
    ensures
        views(r@) == group_details_spec(*g),
{
    let mut out: Vec<String> = Vec::new();
    let id = decimal_string(g.id);
    push_line(&mut out, "id:          ", id.as_str());
    push_line(&mut out, "name:        ", g.name.as_str());
    push_line(&mut out, "full_path:   ", g.full_path.as_str());
    push_opt(&mut out, "visibility:  ", &g.visibility);
    push_nonempty(&mut out, "description: ", &g.description);
    push_opt(&mut out, "web_url:     ", &g.web_url);
    let ghost before = views(out@);
    match g.parent_id {
        Some(p) => {
            let ps = decimal_string(p);
            push_line(&mut out, "parent_id:   ", ps.as_str());
        },
        None => {},
    }
    assert(views(out@) =~= group_details_spec(*g));
    out
}

/// The lines describing a repository.
pub fn project_details(p: &Project) -> (r: Vec<String>)
    ensures
        views(r@) == project_details_spec(*p),
{
    let mut out: Vec<String> = Vec::new();
    let id = decimal_string(p.id);
    push_line(&mut out, "id:                  ", id.as_str());
    push_line(&mut out, "name:                ", p.name.as_str());
    push_line(&mut out, "path_with_namespace: ", p.path_with_namespace.as_str());
    push_opt(&mut out, "default_branch:      ", &p.default_branch);
    push_opt(&mut out, "visibility:          ", &p.visibility);
    push_nonempty(&mut out, "description:         ", &p.description);
    push_opt(&mut out, "web_url:             ", &p.web_url);
    push_line(&mut out, "ssh_url_to_repo:     ", p.ssh_url_to_repo.as_str());
    push_line(&mut out, "http_url_to_repo:    ", p.http_url_to_repo.as_str());
    assert(views(out@) =~= project_details_spec(*p));
    out
}

/// What `get group` prints below the group's details: nothing when it has
/// no subgroups or projects; otherwise an empty line, the group's own path
/// segment with `/`, and the tree of its children.
pub fn child_tree_lines(
    group_segment: &str,
    root_path: &str,
    groups: &Vec<Group>,
    projects: &Vec<Project>,
) -> (r: Vec<String>)
    ensures
        groups@.len() == 0 && projects@.len() == 0 ==> r@.len() == 0,
        groups@.len() > 0 || projects@.len() > 0 ==> exists|t: Node|
            #[trigger] built_from(t, root_path@, groups@, projects@),
        groups@.len() > 0 || projects@.len() > 0 ==> forall|t: Node|
            #[trigger] built_from(t, root_path@, groups@, projects@) ==> views(r@) == seq![
                Seq::<char>::empty(),
                group_segment@ + "/"@,
            ] + render_from(t, Seq::<char>::empty(), 0),
{
    let mut out: Vec<String> = Vec::new();
    if groups.len() == 0 && projects.len() == 0 {
        return out;
    }
    out.push(String::new());
    out.push(concat2(group_segment, "/"));
    let tree = build_tree(root_path, groups, projects);
    let top = String::new();
    let mut body = render_node(&tree, top.as_str());
    let ghost head = views(out@);
    let ghost bodyv = views(body@);
    out.append(&mut body);
    assert(views(out@) =~= head + bodyv);
    assert(head =~= seq![Seq::<char>::empty(), group_segment@ + "/"@]);
    assert(built_from(tree, root_path@, groups@, projects@));
    assert forall|t: Node| #[trigger] built_from(t, root_path@, groups@, projects@) implies views(
        out@,
    ) == seq![Seq::<char>::empty(), group_segment@ + "/"@] + render_from(
        t,
        Seq::<char>::empty(),
        0,
    ) by {
        lemma_built_from_renders_alike(
            tree,
            t,
            root_path@,
            groups@,
            projects@,
            Seq::<char>::empty(),
        );
    }
    out
}

} // verus!
