use gitlab_helper::models::{Group, Project};
use gitlab_helper::tree::{build_tree, entry_name, relative_segments, render_node, split_segments, Entry, Node};

fn group(full_path: &str) -> Group {
    Group {
        id: 1,
        name: full_path.to_string(),
        path: full_path.rsplit('/').next().unwrap().to_string(),
        full_path: full_path.to_string(),
        parent_id: None,
        description: None,
        visibility: None,
        web_url: None,
    }
}

fn project(full: &str) -> Project {
    Project {
        id: 1,
        name: full.to_string(),
        path: full.rsplit('/').next().unwrap().to_string(),
        path_with_namespace: full.to_string(),
        default_branch: None,
        ssh_url_to_repo: String::new(),
        http_url_to_repo: String::new(),
        description: None,
        visibility: None,
        web_url: None,
        namespace: None,
    }
}

fn segs(v: &[&str]) -> Vec<String> {
    v.iter().map(|s| s.to_string()).collect()
}

#[test]
fn segments_below_prefix() {
    assert_eq!(relative_segments("a/b/c", "a"), segs(&["b", "c"]));
    assert_eq!(relative_segments("my_group/repo3", "my_group"), segs(&["repo3"]));
    assert_eq!(relative_segments("a", "a"), segs(&[]));
    assert_eq!(relative_segments("ab/c", "a"), segs(&[]));
    assert_eq!(relative_segments("b/a/c", "a"), segs(&[]));
    assert_eq!(relative_segments("a/", "a"), segs(&[]));
    assert_eq!(relative_segments("a//b", "a"), segs(&["", "b"]));
    assert_eq!(relative_segments("a/b/", "a"), segs(&["b", ""]));
    assert_eq!(relative_segments("/x", ""), segs(&["x"]));
}

#[test]
fn splitting_on_slash() {
    assert_eq!(split_segments("x"), segs(&["x"]));
    assert_eq!(split_segments("x/y/z"), segs(&["x", "y", "z"]));
    assert_eq!(split_segments(""), segs(&[""]));
    assert_eq!(split_segments("/"), segs(&["", ""]));
}

fn readme_tree() -> Node {
    let groups = vec![group("my_group/group1")];
    let projects = vec![
        project("my_group/repo3"),
        project("my_group/group1/repo2"),
        project("my_group/group1/repo1"),
    ];
    build_tree("my_group", &groups, &projects)
}

#[test]
fn readme_tree_renders() {
    let t = readme_tree();
    assert_eq!(
        render_node(&t, ""),
        segs(&["├── group1/", "│   ├── repo1", "│   └── repo2", "└── repo3"])
    );
}

#[test]
fn tree_shape() {
    let t = readme_tree();
    assert_eq!(t.children.len(), 1);
    assert_eq!(t.children[0].name, "group1");
    assert_eq!(t.repos, segs(&["repo3"]));
    assert_eq!(t.children[0].node.repos, segs(&["repo2", "repo1"]));
    assert!(t.children[0].node.children.is_empty());
}

#[test]
fn tree_creates_intermediate_groups() {
    let t = build_tree("r", &vec![group("r/a/b/c")], &vec![project("r/x/y/p"), project("other/q")]);
    assert_eq!(
        render_node(&t, ""),
        segs(&[
            "├── a/",
            "│   └── b/",
            "│       └── c/",
            "└── x/",
            "    └── y/",
            "        └── p",
        ])
    );
}

#[test]
fn tree_ignores_root_and_outsiders() {
    let t = build_tree("r", &vec![group("r"), group("rr/a"), group("s/a")], &vec![project("r")]);
    assert!(t.children.is_empty());
    assert!(t.repos.is_empty());
    assert!(render_node(&t, "").is_empty());
}

#[test]
fn tree_merges_repeated_groups_and_orders_names() {
    let groups = vec![group("r/b"), group("r/a"), group("r/b"), group("r/b/c")];
    let projects = vec![project("r/a"), project("r/b/z"), project("r/b/m")];
    let t = build_tree("r", &groups, &projects);
    let names: Vec<&str> = t.children.iter().map(|c| c.name.as_str()).collect();
    assert_eq!(names, vec!["a", "b"]);
    assert_eq!(
        render_node(&t, "> "),
        segs(&[
            "> ├── a/",
            "> ├── a",
            "> └── b/",
            ">     ├── c/",
            ">     ├── m",
            ">     └── z",
        ])
    );
}

#[test]
fn entry_names() {
    let n = Node::default();
    assert_eq!(entry_name(&Entry::Group("g", &n)), "g");
    assert_eq!(entry_name(&Entry::Repo("r")), "r");
}

#[test]
fn tree_does_not_depend_on_group_order() {
    let projects = vec![project("r/a/p"), project("r/q")];
    let one = build_tree("r", &vec![group("r/a"), group("r/b/c")], &projects);
    let two = build_tree("r", &vec![group("r/b/c"), group("r/a"), group("r/b/c"), group("r/a")], &projects);
    assert_eq!(render_node(&one, ""), render_node(&two, ""));
    // one line per subgroup and per repository below the root: a, p, b, c, q
    assert_eq!(render_node(&one, "").len(), 5);
}

fn count_repos(n: &Node) -> usize {
    n.repos.len() + n.children.iter().map(|c| count_repos(&c.node)).sum::<usize>()
}

#[test]
fn tree_holds_one_repo_per_placed_project() {
    assert_eq!(count_repos(&readme_tree()), 3);
    let t = build_tree("r", &vec![], &vec![project("r"), project("r/a/b"), project("x/y"), project("r/c")]);
    assert_eq!(count_repos(&t), 2);
}
