//! `list`: which list to fetch, and the line printed for each item.
use vstd::prelude::*;

use crate::api::{ListRequest, ListSpec};
use crate::cli::ObjectType;
use crate::error::UsageError;
use crate::models::{Group, Project};
use crate::targets::str_opt;
use crate::text::owned;
use crate::tree::views;

verus! {

/// The list that `list` fetches: groups at the top, everywhere, directly in
/// the context or anywhere below it; repositories in user namespaces,
/// everywhere, or in the context (with its subgroups when recursive).
pub open spec fn list_spec(ns: Option<Seq<char>>, recursive: bool, object_type: ObjectType) -> ListSpec {
    match object_type {
        ObjectType::Group => match ns {
            None => if recursive {
                ListSpec::AllGroups
            } else {
                ListSpec::TopLevelGroups
            },
            Some(g) => if recursive {
                ListSpec::DescendantGroups(g)
            } else {
                ListSpec::Subgroups(g)
            },
        },
        ObjectType::Repo => match ns {
            None => if recursive {
                ListSpec::AllProjects
            } else {
                ListSpec::TopLevelProjects
            },
            Some(g) => ListSpec::GroupProjects(g, recursive),
        },
    }
}

/// The group a list request is about, if any.
pub open spec fn request_group(s: ListSpec) -> Option<Seq<char>> {
    match s {
        ListSpec::Subgroups(g) => Some(g),
        ListSpec::DescendantGroups(g) => Some(g),
        ListSpec::GroupProjects(g, _) => Some(g),
        _ => None,
    }
}

/// With `-n` the list is about exactly the context group, whatever the
/// other flags; without it, about no group.
pub proof fn lemma_list_context(ns: Option<Seq<char>>, recursive: bool, object_type: ObjectType)
    ensures
        request_group(list_spec(ns, recursive, object_type)) == ns,
{
}

/// Which list each command line asks for: groups at the top or all groups
/// without a context; the direct subgroups or all groups below the context
/// with one; repositories in user namespaces or all member repositories
/// without a context; the context's repositories, with those of its
/// subgroups under `-r`, with one.
pub proof fn lemma_list_table(g: Seq<char>, recursive: bool)
    ensures
        list_spec(None, false, ObjectType::Group) == ListSpec::TopLevelGroups,
        list_spec(None, true, ObjectType::Group) == ListSpec::AllGroups,
        list_spec(Some(g), false, ObjectType::Group) == ListSpec::Subgroups(g),
        list_spec(Some(g), true, ObjectType::Group) == ListSpec::DescendantGroups(g),
        list_spec(None, false, ObjectType::Repo) == ListSpec::TopLevelProjects,
        list_spec(None, true, ObjectType::Repo) == ListSpec::AllProjects,
        list_spec(Some(g), recursive, ObjectType::Repo) == ListSpec::GroupProjects(g, recursive),
{
}

/// The list request for `list`; a trailing name is refused.
pub fn list_request(
    namespace: Option<&str>,
    recursive: bool,
    object_type: ObjectType,
    name: Option<&str>,
) -> (r: Result<ListRequest, UsageError>)
    ensures
        name is Some ==> r == Err::<ListRequest, UsageError>(UsageError::ListTakesNoName),
        name is None ==> (r matches Ok(q) && q@ == list_spec(str_opt(namespace), recursive, object_type)),
{
    if name.is_some() {
        return Err(UsageError::ListTakesNoName);
    }
    let req = match object_type {
        ObjectType::Group => match namespace {
            None => if recursive {
                ListRequest::AllGroups
            } else {
                ListRequest::TopLevelGroups
            },
            Some(ns) => if recursive {
                ListRequest::DescendantGroups(owned(ns))
            } else {
                ListRequest::Subgroups(owned(ns))
            },
        },
        ObjectType::Repo => match namespace {
            None => if recursive {
                ListRequest::AllProjects
            } else {
                ListRequest::TopLevelProjects
            },
            Some(ns) => ListRequest::GroupProjects(owned(ns), recursive),
        },
    };
    Ok(req)
}

/// What `list group` prints for a group: its full path when recursive, its
/// own path segment otherwise.
pub open spec fn group_line(g: Group, recursive: bool) -> Seq<char> {
    if recursive {
        g.full_path@
    } else {
        g.path@
    }
}

/// What `list repo` prints for a project: its path with namespace when
/// recursive, its own path segment otherwise.
pub open spec fn project_line(p: Project, recursive: bool) -> Seq<char> {
    if recursive {
        p.path_with_namespace@
    } else {
        p.path@
    }
}

/// The lines `list group` prints, one per group, in order.
pub fn group_list_lines(groups: &Vec<Group>, recursive: bool) -> (r: Vec<String>)
    ensures
        views(r@) == groups@.map_values(|g: Group| group_line(g, recursive)),
{
    let mut out: Vec<String> = Vec::new();
    let mut i: usize = 0;
    while i < groups.len()
        invariant
            i <= groups@.len(),
            views(out@) == groups@.take(i as int).map_values(|g: Group| group_line(g, recursive)),
        decreases groups.len() - i,
    {
        let g = &groups[i];
        let line = if recursive {
            g.full_path.clone()
        } else {
            g.path.clone()
        };
        let ghost before = views(out@);
        out.push(line);
        assert(views(out@) =~= before.push(line@));
        assert(groups@.take(i + 1).map_values(|g: Group| group_line(g, recursive)) =~= groups@.take(
            i as int,
        ).map_values(|g: Group| group_line(g, recursive)).push(group_line(groups@[i as int], recursive)));
        i = i + 1;
    }
    assert(groups@.take(groups@.len() as int) =~= groups@);
    out
}

/// The lines `list repo` prints, one per project, in order.
pub fn project_list_lines(projects: &Vec<Project>, recursive: bool) -> (r: Vec<String>)
    ensures
        views(r@) == projects@.map_values(|p: Project| project_line(p, recursive)),
{
    let mut out: Vec<String> = Vec::new();
    let mut i: usize = 0;
    while i < projects.len()
        invariant
            i <= projects@.len(),
            views(out@) == projects@.take(i as int).map_values(
                |p: Project| project_line(p, recursive),
            ),
        decreases projects.len() - i,
    {
        let p = &projects[i];
        let line = if recursive {
            p.path_with_namespace.clone()
        } else {
            p.path.clone()
        };
        let ghost before = views(out@);
        out.push(line);
        assert(views(out@) =~= before.push(line@));
        assert(projects@.take(i + 1).map_values(|p: Project| project_line(p, recursive))
            =~= projects@.take(i as int).map_values(|p: Project| project_line(p, recursive)).push(
            project_line(projects@[i as int], recursive),
        ));
        i = i + 1;
    }
    assert(projects@.take(projects@.len() as int) =~= projects@);
    out
}

} // verus!
