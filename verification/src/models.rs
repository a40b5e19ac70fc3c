//! The GitLab objects the tool works with, holding the fields it reads.
use vstd::prelude::*;

use crate::sort::{Keyed, KeyedExec};

verus! {

/// A GitLab group.
pub struct Group {
    pub id: u64,
    pub name: String,
    pub path: String,
    pub full_path: String,
    pub parent_id: Option<u64>,
    pub description: Option<String>,
    pub visibility: Option<String>,
    pub web_url: Option<String>,
}

/// A GitLab project (a repository).
pub struct Project {
    pub id: u64,
    pub name: String,
    pub path: String,
    pub path_with_namespace: String,
    pub default_branch: Option<String>,
    pub ssh_url_to_repo: String,
    pub http_url_to_repo: String,
    pub description: Option<String>,
    pub visibility: Option<String>,
    pub web_url: Option<String>,
    pub namespace: Option<Namespace>,
}

/// The namespace a project lives in; `kind` is `"user"` or `"group"`.
pub struct Namespace {
    pub kind: String,
}

/// Groups are listed in the order of their full path.
impl Keyed for Group {
    open spec fn sort_key(&self) -> Seq<char> {
        self.full_path@
    }
}

impl KeyedExec for Group {
    fn key_str(&self) -> (k: &str) {
        self.full_path.as_str()
    }
}

/// Projects are listed in the order of their path with namespace.
impl Keyed for Project {
    open spec fn sort_key(&self) -> Seq<char> {
        self.path_with_namespace@
    }
}

impl KeyedExec for Project {
    fn key_str(&self) -> (k: &str) {
        self.path_with_namespace.as_str()
    }
}

} // verus!
