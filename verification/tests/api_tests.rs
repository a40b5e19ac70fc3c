use gitlab_helper::api::{
    api_url, group_url, next_page_header, normalize_base_url, order_groups, order_projects,
    project_url, ListRequest, Pager,
};
use gitlab_helper::models::{Group, Namespace, Project};

fn group(id: u64, full_path: &str) -> Group {
    Group {
        id,
        name: full_path.to_string(),
        path: full_path.rsplit('/').next().unwrap().to_string(),
        full_path: full_path.to_string(),
        parent_id: None,
        description: None,
        visibility: None,
        web_url: None,
    }
}

fn project(id: u64, full: &str, kind: Option<&str>) -> Project {
    Project {
        id,
        name: full.to_string(),
        path: full.rsplit('/').next().unwrap().to_string(),
        path_with_namespace: full.to_string(),
        default_branch: None,
        ssh_url_to_repo: format!("git@gitlab.com:{}.git", full),
        http_url_to_repo: format!("https://gitlab.com/{}.git", full),
        description: None,
        visibility: None,
        web_url: None,
        namespace: kind.map(|k| Namespace { kind: k.to_string() }),
    }
}

fn pairs(q: Vec<(String, String)>) -> Vec<(String, String)> {
    q
}

fn owned(v: &[(&str, &str)]) -> Vec<(String, String)> {
    v.iter().map(|(a, b)| (a.to_string(), b.to_string())).collect()
}

#[test]
fn base_url_loses_trailing_slashes() {
    assert_eq!(normalize_base_url("https://gitlab.example.com/"), "https://gitlab.example.com");
    assert_eq!(normalize_base_url("https://gitlab.example.com///"), "https://gitlab.example.com");
    assert_eq!(normalize_base_url("https://gitlab.com"), "https://gitlab.com");
    assert_eq!(normalize_base_url("///"), "");
    assert_eq!(normalize_base_url(""), "");
    let once = normalize_base_url("http://h/a//");
    assert_eq!(normalize_base_url(&once), once);
}

#[test]
fn list_paths() {
    assert_eq!(ListRequest::TopLevelGroups.path(), "/api/v4/groups");
    assert_eq!(ListRequest::AllGroups.path(), "/api/v4/groups");
    assert_eq!(
        ListRequest::Subgroups("my_group/sub".to_string()).path(),
        "/api/v4/groups/my_group%2Fsub/subgroups"
    );
    assert_eq!(
        ListRequest::DescendantGroups("my_group".to_string()).path(),
        "/api/v4/groups/my_group/descendant_groups"
    );
    assert_eq!(
        ListRequest::GroupProjects("a b/c~d".to_string(), true).path(),
        "/api/v4/groups/a%20b%2Fc~d/projects"
    );
    assert_eq!(ListRequest::AllProjects.path(), "/api/v4/projects");
    assert_eq!(ListRequest::TopLevelProjects.path(), "/api/v4/projects");
}

#[test]
fn list_queries() {
    assert_eq!(
        pairs(ListRequest::TopLevelGroups.page_query(1)),
        owned(&[("per_page", "100"), ("page", "1"), ("top_level_only", "true"), ("all_available", "true")])
    );
    assert_eq!(
        pairs(ListRequest::AllGroups.page_query(12)),
        owned(&[("per_page", "100"), ("page", "12"), ("all_available", "true")])
    );
    assert_eq!(
        pairs(ListRequest::Subgroups("g".to_string()).page_query(2)),
        owned(&[("per_page", "100"), ("page", "2")])
    );
    assert_eq!(
        pairs(ListRequest::DescendantGroups("g".to_string()).page_query(3)),
        owned(&[("per_page", "100"), ("page", "3")])
    );
    assert_eq!(
        pairs(ListRequest::GroupProjects("g".to_string(), false).page_query(1)),
        owned(&[("per_page", "100"), ("page", "1"), ("include_subgroups", "false")])
    );
    assert_eq!(
        pairs(ListRequest::GroupProjects("g".to_string(), true).page_query(1)),
        owned(&[("per_page", "100"), ("page", "1"), ("include_subgroups", "true")])
    );
    assert_eq!(
        pairs(ListRequest::AllProjects.page_query(4294967295)),
        owned(&[("per_page", "100"), ("page", "4294967295"), ("membership", "true")])
    );
    assert_eq!(
        pairs(ListRequest::TopLevelProjects.page_query(5)),
        owned(&[("per_page", "100"), ("page", "5"), ("membership", "true")])
    );
}

#[test]
fn single_object_urls() {
    assert_eq!(
        group_url("https://gitlab.com", "my_group/sub"),
        "https://gitlab.com/api/v4/groups/my_group%2Fsub"
    );
    assert_eq!(
        project_url("https://gitlab.com", "my_group/my-repo"),
        "https://gitlab.com/api/v4/projects/my_group%2Fmy-repo"
    );
    assert_eq!(
        project_url("http://h", "é.x"),
        "http://h/api/v4/projects/%C3%A9.x"
    );
    assert_eq!(api_url("http://h", "/api/v4/groups"), "http://h/api/v4/groups");
}

#[test]
fn encoded_paths_have_no_slash() {
    for p in ["a/b/c", "/", "x//y", "plain"] {
        let url = group_url("", p);
        let encoded = url.strip_prefix("/api/v4/groups/").unwrap();
        assert!(!encoded.contains('/'));
    }
}

#[test]
fn next_page_values() {
    assert_eq!(next_page_header(None), None);
    assert_eq!(next_page_header(Some("")), None);
    assert_eq!(next_page_header(Some("3")), Some(3));
    assert_eq!(next_page_header(Some("x")), None);
    assert_eq!(next_page_header(Some("99999999999")), None);
}

#[test]
fn pager_follows_next_pages() {
    let mut pager = Pager::new();
    let mut results: Vec<u32> = Vec::new();
    assert_eq!(pager.next_request(), Some(1));
    pager.record(&mut results, vec![1, 2], Some(2));
    assert_eq!(pager.next_request(), Some(2));
    pager.record(&mut results, vec![3], Some(5));
    assert_eq!(pager.next_request(), Some(5));
    pager.record(&mut results, vec![4], None);
    assert_eq!(pager.next_request(), None);
    assert_eq!(results, vec![1, 2, 3, 4]);
}

#[test]
fn pager_stops_on_empty_page() {
    let mut pager = Pager::new();
    let mut results: Vec<u32> = vec![7];
    pager.record(&mut results, Vec::new(), Some(2));
    assert_eq!(pager.next_request(), None);
    assert_eq!(results, vec![7]);
}

#[test]
fn pager_stops_when_next_page_does_not_advance() {
    let mut pager = Pager::new();
    let mut results: Vec<u32> = Vec::new();
    pager.record(&mut results, vec![1], Some(3));
    pager.record(&mut results, vec![2], Some(3));
    assert_eq!(pager.next_request(), None);
    assert_eq!(pager.page, 3);
    assert_eq!(results, vec![1, 2]);
    let mut back = Pager::new();
    back.record(&mut results, vec![9], Some(1));
    assert_eq!(back.next_request(), None);
}

#[test]
fn groups_sorted_by_full_path() {
    let out = order_groups(vec![group(1, "b"), group(2, "a/z"), group(3, "a"), group(4, "a-b")]);
    let paths: Vec<&str> = out.iter().map(|g| g.full_path.as_str()).collect();
    assert_eq!(paths, vec!["a", "a-b", "a/z", "b"]);
}

#[test]
fn top_level_projects_are_user_projects() {
    let input = vec![
        project(1, "zed/p", Some("user")),
        project(2, "grp/p", Some("group")),
        project(3, "amy/q", Some("user")),
        project(4, "none/p", None),
    ];
    let out = order_projects(&ListRequest::TopLevelProjects, input);
    let ids: Vec<u64> = out.iter().map(|p| p.id).collect();
    assert_eq!(ids, vec![3, 1]);
}

#[test]
fn other_project_lists_keep_everything_sorted() {
    let input = vec![
        project(1, "zed/p", Some("user")),
        project(2, "grp/p", Some("group")),
        project(3, "amy/q", None),
    ];
    let out = order_projects(&ListRequest::AllProjects, input);
    let ids: Vec<u64> = out.iter().map(|p| p.id).collect();
    assert_eq!(ids, vec![3, 2, 1]);
}
