use gitlab_helper::api::ListRequest;
use gitlab_helper::cli::{Command, ObjectType};
use gitlab_helper::cloning::{
    clone_banner, clone_job_line, clone_jobs, clone_source, clone_summary, target_path, CloneSource,
};
use gitlab_helper::config::Config;
use gitlab_helper::error::UsageError;
use gitlab_helper::get::{child_tree_lines, get_plan, group_details, project_details, GetPlan};
use gitlab_helper::listing::{group_list_lines, list_request, project_list_lines};
use gitlab_helper::models::{Group, Namespace, Project};
use gitlab_helper::targets::{group_target, repo_target};

fn group(full_path: &str) -> Group {
    Group {
        id: 11,
        name: "Group Name".to_string(),
        path: full_path.rsplit('/').next().unwrap().to_string(),
        full_path: full_path.to_string(),
        parent_id: None,
        description: None,
        visibility: None,
        web_url: None,
    }
}

fn project(full: &str) -> Project {
    Project {
        id: 42,
        name: "Repo Name".to_string(),
        path: full.rsplit('/').next().unwrap().to_string(),
        path_with_namespace: full.to_string(),
        default_branch: None,
        ssh_url_to_repo: format!("git@h:{}.git", full),
        http_url_to_repo: format!("https://h/{}.git", full),
        description: None,
        visibility: None,
        web_url: None,
        namespace: Some(Namespace { kind: "group".to_string() }),
    }
}

fn lines(v: &[&str]) -> Vec<String> {
    v.iter().map(|s| s.to_string()).collect()
}

#[test]
fn config_requires_token() {
    assert_eq!(Config::from_args(None, None).err(), Some(UsageError::MissingToken));
    assert_eq!(
        Config::from_args(Some(String::new()), Some("https://x".to_string())).err(),
        Some(UsageError::MissingToken)
    );
}

#[test]
fn config_defaults_url() {
    let c = Config::from_args(Some("tok".to_string()), None).ok().unwrap();
    assert_eq!(c.token, "tok");
    assert_eq!(c.base_url, "https://gitlab.com");
    let c = Config::from_args(Some("t".to_string()), Some("https://git.local/".to_string())).ok().unwrap();
    assert_eq!(c.base_url, "https://git.local/");
}

#[test]
fn token_must_fit_a_header() {
    let cfg = |t: &str| Config::from_args(Some(t.to_string()), None).ok().unwrap();
    assert_eq!(cfg("glpat-abc123").check_token(), Ok(()));
    assert_eq!(cfg("with space\tand tab").check_token(), Ok(()));
    assert_eq!(cfg("é").check_token(), Ok(()));
    assert_eq!(cfg("a\nb").check_token(), Err(UsageError::InvalidToken));
    assert_eq!(cfg("x\u{7f}").check_token(), Err(UsageError::InvalidToken));
    assert_eq!(cfg("\u{1}").check_token(), Err(UsageError::InvalidToken));
    assert_eq!(UsageError::InvalidToken.message(), "failed to parse header value");
}

#[test]
fn error_messages() {
    assert_eq!(
        UsageError::MissingToken.message(),
        "GitLab token is required. Use --token or set GITLAB_TOKEN env var"
    );
    assert_eq!(
        UsageError::ListTakesNoName.message(),
        "`list` does not accept a trailing name; use -n to set the context"
    );
    assert_eq!(
        UsageError::GroupNeedsContext(Command::Get).message(),
        "`get group` requires -n <group> or a name"
    );
    assert_eq!(
        UsageError::GroupNeedsContext(Command::Clone).message(),
        "`clone group` requires -n <group> or a name"
    );
    assert_eq!(UsageError::RepoNeedsName(Command::Get).message(), "`get repo` requires a name");
    assert_eq!(UsageError::RepoNeedsName(Command::Clone).message(), "`clone repo` requires a name");
    assert_eq!(Command::List.word(), "list");
}

#[test]
fn targets_join_context_and_name() {
    assert_eq!(group_target(Command::Get, Some("ns"), Some("g")), Ok("ns/g".to_string()));
    assert_eq!(group_target(Command::Get, Some("ns"), None), Ok("ns".to_string()));
    assert_eq!(group_target(Command::Get, None, Some("g")), Ok("g".to_string()));
    assert_eq!(
        group_target(Command::Clone, None, None),
        Err(UsageError::GroupNeedsContext(Command::Clone))
    );
    assert_eq!(repo_target(Command::Get, Some("my_group"), Some("my-repo")), Ok("my_group/my-repo".to_string()));
    assert_eq!(repo_target(Command::Get, None, Some("r")), Ok("r".to_string()));
    assert_eq!(repo_target(Command::Get, Some("ns"), None), Err(UsageError::RepoNeedsName(Command::Get)));
}

#[test]
fn list_refuses_trailing_name() {
    assert_eq!(
        list_request(Some("g"), false, ObjectType::Repo, Some("x")).err(),
        Some(UsageError::ListTakesNoName)
    );
}

#[test]
fn list_picks_request() {
    let r = |ns: Option<&str>, rec: bool, t: ObjectType| list_request(ns, rec, t, None).ok().unwrap();
    assert!(matches!(r(None, false, ObjectType::Group), ListRequest::TopLevelGroups));
    assert!(matches!(r(None, true, ObjectType::Group), ListRequest::AllGroups));
    assert!(matches!(r(Some("g"), false, ObjectType::Group), ListRequest::Subgroups(ref p) if p == "g"));
    assert!(matches!(r(Some("g"), true, ObjectType::Group), ListRequest::DescendantGroups(ref p) if p == "g"));
    assert!(matches!(r(None, false, ObjectType::Repo), ListRequest::TopLevelProjects));
    assert!(matches!(r(None, true, ObjectType::Repo), ListRequest::AllProjects));
    assert!(matches!(r(Some("g"), false, ObjectType::Repo), ListRequest::GroupProjects(ref p, false) if p == "g"));
    assert!(matches!(r(Some("g"), true, ObjectType::Repo), ListRequest::GroupProjects(ref p, true) if p == "g"));
}

#[test]
fn list_lines_depend_on_recursion() {
    let gs = vec![group("my_group/sub_group"), group("my_group/other")];
    assert_eq!(group_list_lines(&gs, false), lines(&["sub_group", "other"]));
    assert_eq!(group_list_lines(&gs, true), lines(&["my_group/sub_group", "my_group/other"]));
    let ps = vec![project("my_group/sub_group/my-repo")];
    assert_eq!(project_list_lines(&ps, false), lines(&["my-repo"]));
    assert_eq!(project_list_lines(&ps, true), lines(&["my_group/sub_group/my-repo"]));
}

#[test]
fn get_plans() {
    match get_plan(Some("ns"), true, ObjectType::Group, Some("g")).ok().unwrap() {
        GetPlan::Group { path, subgroups, projects } => {
            assert_eq!(path, "ns/g");
            assert!(matches!(subgroups, ListRequest::DescendantGroups(ref p) if p == "ns/g"));
            assert!(matches!(projects, ListRequest::GroupProjects(ref p, true) if p == "ns/g"));
        }
        GetPlan::Repo { .. } => panic!("expected a group plan"),
    }
    match get_plan(Some("ns"), false, ObjectType::Group, None).ok().unwrap() {
        GetPlan::Group { path, subgroups, projects } => {
            assert_eq!(path, "ns");
            assert!(matches!(subgroups, ListRequest::Subgroups(ref p) if p == "ns"));
            assert!(matches!(projects, ListRequest::GroupProjects(ref p, false) if p == "ns"));
        }
        GetPlan::Repo { .. } => panic!("expected a group plan"),
    }
    match get_plan(Some("my_group"), false, ObjectType::Repo, Some("my-repo")).ok().unwrap() {
        GetPlan::Repo { path } => assert_eq!(path, "my_group/my-repo"),
        GetPlan::Group { .. } => panic!("expected a repo plan"),
    }
    assert_eq!(
        get_plan(None, false, ObjectType::Group, None).err(),
        Some(UsageError::GroupNeedsContext(Command::Get))
    );
    assert_eq!(
        get_plan(Some("x"), false, ObjectType::Repo, None).err(),
        Some(UsageError::RepoNeedsName(Command::Get))
    );
}

#[test]
fn group_detail_lines() {
    let mut g = group("my_group");
    assert_eq!(
        group_details(&g),
        lines(&["id:          11", "name:        Group Name", "full_path:   my_group"])
    );
    g.visibility = Some("private".to_string());
    g.description = Some(String::new());
    g.web_url = Some("https://h/my_group".to_string());
    g.parent_id = Some(7);
    assert_eq!(
        group_details(&g),
        lines(&[
            "id:          11",
            "name:        Group Name",
            "full_path:   my_group",
            "visibility:  private",
            "web_url:     https://h/my_group",
            "parent_id:   7",
        ])
    );
    g.description = Some("About".to_string());
    assert_eq!(group_details(&g)[4], "description: About");
}

#[test]
fn project_detail_lines() {
    let mut p = project("g/r");
    assert_eq!(
        project_details(&p),
        lines(&[
            "id:                  42",
            "name:                Repo Name",
            "path_with_namespace: g/r",
            "ssh_url_to_repo:     git@h:g/r.git",
            "http_url_to_repo:    https://h/g/r.git",
        ])
    );
    p.default_branch = Some("main".to_string());
    p.visibility = Some("public".to_string());
    p.description = Some("Text".to_string());
    p.web_url = Some("https://h/g/r".to_string());
    assert_eq!(
        project_details(&p),
        lines(&[
            "id:                  42",
            "name:                Repo Name",
            "path_with_namespace: g/r",
            "default_branch:      main",
            "visibility:          public",
            "description:         Text",
            "web_url:             https://h/g/r",
            "ssh_url_to_repo:     git@h:g/r.git",
            "http_url_to_repo:    https://h/g/r.git",
        ])
    );
}

#[test]
fn child_tree_of_get_group() {
    assert!(child_tree_lines("my_group", "my_group", &Vec::new(), &Vec::new()).is_empty());
    let groups = vec![group("my_group/group1")];
    let projects = vec![
        project("my_group/group1/repo1"),
        project("my_group/group1/repo2"),
        project("my_group/repo3"),
    ];
    assert_eq!(
        child_tree_lines("my_group", "my_group", &groups, &projects),
        lines(&["", "my_group/", "├── group1/", "│   ├── repo1", "│   └── repo2", "└── repo3"])
    );
}

#[test]
fn clone_targets_follow_context() {
    let p = project("my_group/group1/repo1");
    assert_eq!(target_path("my_group", &p), "group1/repo1");
    assert_eq!(target_path("/my_group/", &p), "group1/repo1");
    assert_eq!(target_path("", &p), "my_group/group1/repo1");
    assert_eq!(target_path("//", &p), "my_group/group1/repo1");
    assert_eq!(target_path("other", &p), "my_group/group1/repo1");
    assert_eq!(target_path("my_group/group1/repo1", &p), "repo1");
    assert_eq!(target_path("my_gr", &p), "my_group/group1/repo1");
    assert_eq!(target_path("my_group/group", &p), "my_group/group1/repo1");
    assert_eq!(target_path("my_group/group1", &p), "repo1");
    assert_eq!(target_path("my_group/group1/", &p), "repo1");
    let r = project("my_group/repo");
    assert_eq!(target_path("my", &r), "my_group/repo");
    let s = project("my_group//x");
    assert_eq!(target_path("my_group", &s), "x");
    let q = project("my_group/repo3");
    assert_eq!(target_path("my_group", &q), "repo3");
}

#[test]
fn clone_sources() {
    match clone_source(Some("my_group"), true, ObjectType::Group, None).ok().unwrap() {
        CloneSource::Group { path, projects } => {
            assert_eq!(path, "my_group");
            assert!(matches!(projects, ListRequest::GroupProjects(ref p, true) if p == "my_group"));
        }
        CloneSource::Repo { .. } => panic!("expected a group"),
    }
    match clone_source(None, false, ObjectType::Repo, Some("r")).ok().unwrap() {
        CloneSource::Repo { path } => assert_eq!(path, "r"),
        CloneSource::Group { .. } => panic!("expected a repo"),
    }
    assert_eq!(
        clone_source(None, false, ObjectType::Group, None).err(),
        Some(UsageError::GroupNeedsContext(Command::Clone))
    );
    assert_eq!(
        clone_source(Some("g"), false, ObjectType::Repo, None).err(),
        Some(UsageError::RepoNeedsName(Command::Clone))
    );
}

#[test]
fn clone_job_list() {
    let projects = vec![project("my_group/repo3"), project("my_group/group1/repo1")];
    let ssh = clone_jobs("my_group", &projects, false);
    assert_eq!(ssh.len(), 2);
    assert_eq!(ssh[0].name, "my_group/repo3");
    assert_eq!(ssh[0].source, "git@h:my_group/repo3.git");
    assert_eq!(ssh[0].target, "repo3");
    assert_eq!(ssh[1].target, "group1/repo1");
    let http = clone_jobs("my_group", &projects, true);
    assert_eq!(http[1].source, "https://h/my_group/group1/repo1.git");
    assert_eq!(clone_job_line(&http[1]), "Cloning my_group/group1/repo1 -> ./group1/repo1");
}

#[test]
fn clone_messages() {
    assert_eq!(clone_banner(0), "No repositories to clone.");
    assert_eq!(clone_banner(3), "Cloning 3 repositories...\n");
    assert_eq!(clone_summary(3, 1), "Done. 2/3 cloned successfully.");
    assert_eq!(clone_summary(0, 0), "Done. 0/0 cloned successfully.");
}
