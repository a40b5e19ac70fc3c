//! What the GitLab client asks for and how it treats the answers: request
//! paths and queries, page-by-page fetching, and the order of the results.
use vstd::prelude::*;
use vstd::utf8::encode_utf8;

use crate::models::{Group, Project};
use crate::sort::{sort_by_key, stable_sort};
use crate::text::{
    chars_of, concat2, concat3, decimal, decimal_string, digit_char, owned, parse_u32,
    parse_u32_spec, str_eq, string_from,
};

verus! {

/// Bytes that URL encoding leaves as they are: ASCII letters and digits and
/// `-`, `.`, `_`, `~`.
pub open spec fn is_unreserved(b: u8) -> bool {
    (48 <= b <= 57) || (65 <= b <= 90) || (97 <= b <= 122) || b == 45 || b == 46 || b == 95
        || b == 126
}

/// An upper-case hexadecimal digit.
pub open spec fn hex_upper(d: nat) -> char {
    if d < 10 {
        digit_char(d)
    } else if d == 10 {
        'A'
    } else if d == 11 {
        'B'
    } else if d == 12 {
        'C'
    } else if d == 13 {
        'D'
    } else if d == 14 {
        'E'
    } else {
        'F'
    }
}

/// Percent-encoding of bytes: unreserved bytes stay, every other byte `b`
/// becomes `%` and two upper-case hex digits.
pub open spec fn percent_encode(bytes: Seq<u8>) -> Seq<char>
    decreases bytes.len(),
{
    if bytes.len() == 0 {
        seq![]
    } else {
        let b = bytes[0];
        let head = if is_unreserved(b) {
            seq![b as char]
        } else {
            seq!['%', hex_upper((b / 16) as nat), hex_upper((b % 16) as nat)]
        };
        head + percent_encode(bytes.drop_first())
    }
}

/// The URL encoding of a string: its UTF-8 bytes, percent-encoded.
pub open spec fn url_encoded(s: Seq<char>) -> Seq<char> {
    percent_encode(encode_utf8(s))
}

/// `urlencoding::encode`: percent-encodes every UTF-8 byte of `s` except
/// ASCII alphanumerics and `-`, `_`, `.`, `~`, with upper-case hex digits.
#[verifier::external_body]
fn url_encode(s: &str) -> (r: String)
    ensures
        r@ == url_encoded(s@),
{
    urlencoding::encode(s).into_owned()
}

/// An encoded path never holds a `/`: a group path is sent as one segment
/// of the request path.
pub proof fn lemma_encoded_has_no_slash(s: Seq<char>)
    ensures
        !url_encoded(s).contains('/'),
{
    lemma_percent_no_slash(encode_utf8(s));
}

proof fn lemma_percent_no_slash(bytes: Seq<u8>)
    ensures
        forall|i: int| 0 <= i < percent_encode(bytes).len() ==> #[trigger] percent_encode(bytes)[i] != '/',
    decreases bytes.len(),
{
    if bytes.len() > 0 {
        lemma_percent_no_slash(bytes.drop_first());
        let b = bytes[0];
        let rest = percent_encode(bytes.drop_first());
        let head = if is_unreserved(b) {
            seq![b as char]
        } else {
            seq!['%', hex_upper((b / 16) as nat), hex_upper((b % 16) as nat)]
        };
        assert forall|i: int| 0 <= i < head.len() implies head[i] != '/' by {
            if is_unreserved(b) {
                assert((b as char) as u32 == b as u32);
            }
        }
        assert forall|i: int| 0 <= i < percent_encode(bytes).len() implies #[trigger] percent_encode(
            bytes,
        )[i] != '/' by {
            if i < head.len() {
                assert(percent_encode(bytes)[i] == head[i]);
            } else {
                assert(percent_encode(bytes)[i] == rest[i - head.len()]);
            }
        }
    }
}

/// `url` without the `/` characters at its end (`trim_end_matches('/')`).
pub open spec fn trim_end_slashes(url: Seq<char>) -> Seq<char>
    decreases url.len(),
{
    if url.len() > 0 && url.last() == '/' {
        trim_end_slashes(url.drop_last())
    } else {
        url
    }
}

/// The base URL the client sends requests to: the configured URL without
/// trailing slashes.
pub fn normalize_base_url(url: &str) -> (r: String)
    ensures
        r@ == trim_end_slashes(url@),
{
    let cs = chars_of(url);
    let mut end = cs.len();
    assert(cs@.take(end as int) =~= cs@);
    while end > 0 && cs[end - 1] == '/'
        invariant
            end <= cs.len(),
            cs@ == url@,
            trim_end_slashes(url@) == trim_end_slashes(cs@.take(end as int)),
        decreases end,
    {
        assert(cs@.take(end as int).drop_last() =~= cs@.take(end - 1));
        end = end - 1;
    }
    let r = string_from(&cs, 0, end);
    assert(r@ =~= cs@.take(end as int));
    r
}

/// The result of trimming has no trailing slash, and trimming again changes
/// nothing.
pub proof fn lemma_trim_end_slashes(url: Seq<char>)
    ensures
        trim_end_slashes(url).len() <= url.len(),
        trim_end_slashes(url).len() == 0 || trim_end_slashes(url).last() != '/',
        trim_end_slashes(trim_end_slashes(url)) == trim_end_slashes(url),
        url.take(trim_end_slashes(url).len() as int) == trim_end_slashes(url),
    decreases url.len(),
{
    if url.len() > 0 && url.last() == '/' {
        lemma_trim_end_slashes(url.drop_last());
        let t = trim_end_slashes(url);
        assert(url.take(t.len() as int) =~= url.drop_last().take(t.len() as int));
    } else {
        assert(url.take(url.len() as int) =~= url);
    }
}

/// A list endpoint of the GitLab API that the tool reads.
pub enum ListRequest {
    /// Top-level groups.
    TopLevelGroups,
    /// Every group.
    AllGroups,
    /// The direct subgroups of a group.
    Subgroups(String),
    /// All groups below a group.
    DescendantGroups(String),
    /// The projects of a group, with or without those of its subgroups.
    GroupProjects(String, bool),
    /// Every project the user is a member of.
    AllProjects,
    /// The member projects in a user namespace.
    TopLevelProjects,
}

/// What a list request asks for, with group paths as character sequences.
pub enum ListSpec {
    TopLevelGroups,
    AllGroups,
    Subgroups(Seq<char>),
    DescendantGroups(Seq<char>),
    GroupProjects(Seq<char>, bool),
    AllProjects,
    TopLevelProjects,
}

impl View for ListRequest {
    type V = ListSpec;

    open spec fn view(&self) -> ListSpec {
        match self {
            ListRequest::TopLevelGroups => ListSpec::TopLevelGroups,
            ListRequest::AllGroups => ListSpec::AllGroups,
            ListRequest::Subgroups(g) => ListSpec::Subgroups(g@),
            ListRequest::DescendantGroups(g) => ListSpec::DescendantGroups(g@),
            ListRequest::GroupProjects(g, sub) => ListSpec::GroupProjects(g@, *sub),
            ListRequest::AllProjects => ListSpec::AllProjects,
            ListRequest::TopLevelProjects => ListSpec::TopLevelProjects,
        }
    }
}

/// The request path of a list request.
pub open spec fn list_path(req: ListRequest) -> Seq<char> {
    match req {
        ListRequest::TopLevelGroups => "/api/v4/groups"@,
        ListRequest::AllGroups => "/api/v4/groups"@,
        ListRequest::Subgroups(g) => "/api/v4/groups/"@ + url_encoded(g@) + "/subgroups"@,
        ListRequest::DescendantGroups(g) => "/api/v4/groups/"@ + url_encoded(g@)
            + "/descendant_groups"@,
        ListRequest::GroupProjects(g, _) => "/api/v4/groups/"@ + url_encoded(g@) + "/projects"@,
        ListRequest::AllProjects => "/api/v4/projects"@,
        ListRequest::TopLevelProjects => "/api/v4/projects"@,
    }
}

/// A request about a group names the group in its path as one segment,
/// right after `/api/v4/groups/` and before the endpoint: the group path
/// URL-encoded, so that none of its own `/` split it. Requests about no
/// group go to `/api/v4/groups` or `/api/v4/projects` as they are.
pub proof fn lemma_group_request_path(req: ListRequest)
    ensures
        match req@ {
            ListSpec::Subgroups(g) => list_path(req) == "/api/v4/groups/"@ + url_encoded(g)
                + "/subgroups"@,
            ListSpec::DescendantGroups(g) => list_path(req) == "/api/v4/groups/"@ + url_encoded(g)
                + "/descendant_groups"@,
            ListSpec::GroupProjects(g, _) => list_path(req) == "/api/v4/groups/"@ + url_encoded(g)
                + "/projects"@,
            ListSpec::TopLevelGroups => list_path(req) == "/api/v4/groups"@,
            ListSpec::AllGroups => list_path(req) == "/api/v4/groups"@,
            ListSpec::AllProjects => list_path(req) == "/api/v4/projects"@,
            ListSpec::TopLevelProjects => list_path(req) == "/api/v4/projects"@,
        },
        match req@ {
            ListSpec::Subgroups(g) => !url_encoded(g).contains('/'),
            ListSpec::DescendantGroups(g) => !url_encoded(g).contains('/'),
            ListSpec::GroupProjects(g, _) => !url_encoded(g).contains('/'),
            _ => true,
        },
{
    match req@ {
        ListSpec::Subgroups(g) => lemma_encoded_has_no_slash(g),
        ListSpec::DescendantGroups(g) => lemma_encoded_has_no_slash(g),
        ListSpec::GroupProjects(g, _) => lemma_encoded_has_no_slash(g),
        _ => {},
    }
}

/// The query parameters of a list request, besides paging.
pub open spec fn list_query(req: ListRequest) -> Seq<(Seq<char>, Seq<char>)> {
    match req {
        ListRequest::TopLevelGroups => seq![
            ("top_level_only"@, "true"@),
            ("all_available"@, "true"@),
        ],
        ListRequest::AllGroups => seq![("all_available"@, "true"@)],
        ListRequest::Subgroups(_) => seq![],
        ListRequest::DescendantGroups(_) => seq![],
        ListRequest::GroupProjects(_, sub) => seq![
            ("include_subgroups"@, if sub {
                "true"@
            } else {
                "false"@
            }),
        ],
        ListRequest::AllProjects => seq![("membership"@, "true"@)],
        ListRequest::TopLevelProjects => seq![("membership"@, "true"@)],
    }
}

/// The views of query parameters.
pub open spec fn pair_views(v: Seq<(String, String)>) -> Seq<(Seq<char>, Seq<char>)> {
    v.map_values(|p: (String, String)| (p.0@, p.1@))
}

fn pair(k: &str, v: &str) -> (r: (String, String))
    ensures
        r.0@ == k@,
        r.1@ == v@,
{
    (owned(k), owned(v))
}

impl ListRequest {
    /// The request path, relative to the base URL.
    pub fn path(&self) -> (r: String)
        ensures
            r@ == list_path(*self),
    {
        match self {
            ListRequest::TopLevelGroups => owned("/api/v4/groups"),
            ListRequest::AllGroups => owned("/api/v4/groups"),
            ListRequest::Subgroups(g) => {
                let e = url_encode(g.as_str());
                concat3("/api/v4/groups/", e.as_str(), "/subgroups")
            },
            ListRequest::DescendantGroups(g) => {
                let e = url_encode(g.as_str());
                concat3("/api/v4/groups/", e.as_str(), "/descendant_groups")
            },
            ListRequest::GroupProjects(g, _) => {
                let e = url_encode(g.as_str());
                concat3("/api/v4/groups/", e.as_str(), "/projects")
            },
            ListRequest::AllProjects => owned("/api/v4/projects"),
            ListRequest::TopLevelProjects => owned("/api/v4/projects"),
        }
    }

    /// The query of the request for page `page`: 100 items per page, the
    /// page number, then the request's own parameters.
    pub fn page_query(&self, page: u32) -> (r: Vec<(String, String)>)
        ensures
            pair_views(r@) == seq![("per_page"@, "100"@), ("page"@, decimal(page as nat))]
                + list_query(*self),
    {
        let mut q: Vec<(String, String)> = Vec::new();
        q.push(pair("per_page", "100"));
        let p = decimal_string(page as u64);
        q.push((owned("page"), p));
        match self {
            ListRequest::TopLevelGroups => {
                q.push(pair("top_level_only", "true"));
                q.push(pair("all_available", "true"));
            },
            ListRequest::AllGroups => {
                q.push(pair("all_available", "true"));
            },
            ListRequest::Subgroups(_) => {},
            ListRequest::DescendantGroups(_) => {},
            ListRequest::GroupProjects(_, sub) => {
                if *sub {
                    q.push(pair("include_subgroups", "true"));
                } else {
                    q.push(pair("include_subgroups", "false"));
                }
            },
            ListRequest::AllProjects => {
                q.push(pair("membership", "true"));
            },
            ListRequest::TopLevelProjects => {
                q.push(pair("membership", "true"));
            },
        }
        assert(pair_views(q@) =~= seq![("per_page"@, "100"@), ("page"@, decimal(page as nat))]
            + list_query(*self));
        q
    }
}

/// The full URL of a request path.
pub fn api_url(base_url: &str, path: &str) -> (r: String)
    ensures
        r@ == base_url@ + path@,
{
    concat2(base_url, path)
}

/// The URL that fetches one group.
pub fn group_url(base_url: &str, group_path: &str) -> (r: String)
    ensures
        r@ == base_url@ + "/api/v4/groups/"@ + url_encoded(group_path@),
{
    let e = url_encode(group_path);
    concat3(base_url, "/api/v4/groups/", e.as_str())
}

/// The URL that fetches one project.
pub fn project_url(base_url: &str, project_path: &str) -> (r: String)
    ensures
        r@ == base_url@ + "/api/v4/projects/"@ + url_encoded(project_path@),
{
    let e = url_encode(project_path);
    concat3(base_url, "/api/v4/projects/", e.as_str())
}

/// The next page announced by a response (its `x-next-page` header), when
/// it reads as a page number.
pub fn next_page_header(value: Option<&str>) -> (r: Option<u32>)
    ensures
        r == match value {
            Some(v) => parse_u32_spec(v@),
            None => None,
        },
{
    match value {
        Some(v) => parse_u32(v),
        None => None,
    }
}

/// Where fetching a paginated list stands.
pub struct Pager {
    pub page: u32,
    pub finished: bool,
}

/// One step of paging: the items of the page just fetched are added to the
/// results in order; an empty page, or a next page that is missing or not
/// beyond the current one, ends the list; otherwise the pager moves on to
/// the announced page.
pub open spec fn record_step<T>(
    before: Pager,
    results: Seq<T>,
    batch: Seq<T>,
    next_page: Option<u32>,
    after: Pager,
    after_results: Seq<T>,
) -> bool {
    &&& after_results == results + batch
    &&& after.finished == (batch.len() == 0 || match next_page {
        Some(p) => p <= before.page,
        None => true,
    })
    &&& after.finished ==> after.page == before.page
    &&& !after.finished ==> after.page == next_page.unwrap() && after.page > before.page
}

/// The items of a paginated list from page `p` on, when the server answers
/// page `k` with the items `batch(k)` and announces `next(k)` as the next
/// page.
pub open spec fn paged_items<T>(
    batch: spec_fn(u32) -> Seq<T>,
    next: spec_fn(u32) -> Option<u32>,
    p: u32,
) -> Seq<T>
    decreases u32::MAX - p,
{
    let b = batch(p);
    if b.len() == 0 {
        seq![]
    } else {
        match next(p) {
            Some(q) => if q > p {
                b + paged_items(batch, next, q)
            } else {
                b
            },
            None => b,
        }
    }
}

/// The items still to come to a pager.
pub open spec fn pending<T>(
    pager: Pager,
    batch: spec_fn(u32) -> Seq<T>,
    next: spec_fn(u32) -> Option<u32>,
) -> Seq<T> {
    if pager.finished {
        seq![]
    } else {
        paged_items(batch, next, pager.page)
    }
}

/// Paging from `Pager::new()` with no results, fed with the server's
/// answers for each page it asks for, ends with every item of every page
/// in order, each once (`paged_items` from page 1): the steps form a chain
/// `pagers[0] .. pagers[n]` with results `results[0] .. results[n]`. The
/// pages asked for strictly increase, so there are at most `u32::MAX`
/// requests.
pub proof fn lemma_paging_collects<T>(
    batch: spec_fn(u32) -> Seq<T>,
    next: spec_fn(u32) -> Option<u32>,
    pagers: Seq<Pager>,
    results: Seq<Seq<T>>,
)
    requires
        pagers.len() >= 1,
        results.len() == pagers.len(),
        pagers[0] == (Pager { page: 1, finished: false }),
        results[0] == Seq::<T>::empty(),
        pagers.last().finished,
        forall|k: int|
            0 <= k < pagers.len() - 1 ==> !(#[trigger] pagers[k]).finished && record_step(
                pagers[k],
                results[k],
                batch(pagers[k].page),
                next(pagers[k].page),
                pagers[k + 1],
                results[k + 1],
            ),
    ensures
        results.last() == paged_items(batch, next, 1),
        forall|k: int| 0 <= k < pagers.len() - 1 ==> (#[trigger] pagers[k]).page >= k + 1,
        pagers.len() - 1 <= u32::MAX,
{
    let n = pagers.len() - 1;
    assert forall|k: int| 0 <= k <= n implies #[trigger] results[k] + pending(pagers[k], batch, next)
        == paged_items(batch, next, 1) && (k < n ==> pagers[k].page >= k + 1) by {
        lemma_paging_prefix(batch, next, pagers, results, k);
    }
    assert(results[n] + pending(pagers[n], batch, next) == paged_items(batch, next, 1));
    assert(results[n] + Seq::<T>::empty() =~= results[n]);
    if n > 0 {
        assert(pagers[n - 1].page >= n);
    }
}

proof fn lemma_paging_prefix<T>(
    batch: spec_fn(u32) -> Seq<T>,
    next: spec_fn(u32) -> Option<u32>,
    pagers: Seq<Pager>,
    results: Seq<Seq<T>>,
    k: int,
)
    requires
        pagers.len() >= 1,
        results.len() == pagers.len(),
        pagers[0] == (Pager { page: 1, finished: false }),
        results[0] == Seq::<T>::empty(),
        forall|k: int|
            0 <= k < pagers.len() - 1 ==> !(#[trigger] pagers[k]).finished && record_step(
                pagers[k],
                results[k],
                batch(pagers[k].page),
                next(pagers[k].page),
                pagers[k + 1],
                results[k + 1],
            ),
        0 <= k < pagers.len(),
    ensures
        results[k] + pending(pagers[k], batch, next) == paged_items(batch, next, 1),
        k < pagers.len() - 1 ==> pagers[k].page >= k + 1,
    decreases k,
{
    if k == 0 {
        assert(Seq::<T>::empty() + paged_items(batch, next, 1) =~= paged_items(batch, next, 1));
    } else {
        lemma_paging_prefix(batch, next, pagers, results, k - 1);
        let before = pagers[k - 1];
        assert(!before.finished);
        lemma_paging_step(
            batch,
            next,
            before,
            results[k - 1],
            pagers[k],
            results[k],
        );
        if k < pagers.len() - 1 {
            assert(!pagers[k].finished);
        }
    }
}

/// One step keeps what was fetched followed by what is still to come
/// unchanged, and moves to a strictly larger page when it goes on.
pub proof fn lemma_paging_step<T>(
    batch: spec_fn(u32) -> Seq<T>,
    next: spec_fn(u32) -> Option<u32>,
    before: Pager,
    results: Seq<T>,
    after: Pager,
    after_results: Seq<T>,
)
    requires
        !before.finished,
        record_step(before, results, batch(before.page), next(before.page), after, after_results),
    ensures
        after_results + pending(after, batch, next) == results + pending(before, batch, next),
        !after.finished ==> after.page > before.page,
{
    let b = batch(before.page);
    if after.finished {
        assert(after_results + Seq::<T>::empty() =~= results + b);
        assert(pending(before, batch, next) == paged_items(batch, next, before.page));
        if b.len() == 0 {
            assert(results + b =~= results + Seq::<T>::empty());
        }
    } else {
        assert(results + b + paged_items(batch, next, after.page) =~= results + (b + paged_items(
            batch,
            next,
            after.page,
        )));
    }
}

impl Pager {
    /// Fetching starts at page 1.
    pub fn new() -> (p: Pager)
        ensures
            p.page == 1,
            !p.finished,
    {
        Pager { page: 1, finished: false }
    }

    /// The page to fetch next, if fetching goes on.
    pub fn next_request(&self) -> (r: Option<u32>)
        ensures
            r == (if self.finished {
                None
            } else {
                Some(self.page)
            }),
    {
        if self.finished {
            None
        } else {
            Some(self.page)
        }
    }

    /// Takes in the items of the page just fetched and the next page it
    /// announced. An empty page ends the list; so does a next page that is
    /// missing or not beyond the current one. The items are kept in order.
    pub fn record<T>(&mut self, results: &mut Vec<T>, batch: Vec<T>, next_page: Option<u32>)
        requires
            !old(self).finished,
        ensures
            record_step(*old(self), old(results)@, batch@, next_page, *final(self), final(results)@),
    {
        let mut batch = batch;
        if batch.len() == 0 {
            self.finished = true;
            assert(old(results)@ + batch@ =~= old(results)@);
            return;
        }
        results.append(&mut batch);
        match next_page {
            Some(p) => {
                if p > self.page {
                    self.page = p;
                } else {
                    self.finished = true;
                }
            },
            None => {
                self.finished = true;
            },
        }
    }
}

/// Groups as the client returns them: sorted by full path.
pub fn order_groups(groups: Vec<Group>) -> (r: Vec<Group>)
    ensures
        r@ == stable_sort(groups@),
{
    sort_by_key(groups)
}

/// A project in a user's own namespace.
pub open spec fn is_user_project(p: Project) -> bool {
    match p.namespace {
        Some(ns) => ns.kind@ == "user"@,
        None => false,
    }
}

/// The projects of `s` in user namespaces, in order.
pub open spec fn user_projects(s: Seq<Project>) -> Seq<Project>
    decreases s.len(),
{
    if s.len() == 0 {
        s
    } else if is_user_project(s.last()) {
        user_projects(s.drop_last()).push(s.last())
    } else {
        user_projects(s.drop_last())
    }
}

fn keep_user_projects(projects: Vec<Project>) -> (r: Vec<Project>)
    ensures
        r@ == user_projects(projects@),
{
    let ghost orig = projects@;
    let mut rest = projects;
    let mut out: Vec<Project> = Vec::new();
    let ghost mut k: int = 0;
    while rest.len() > 0
        invariant
            0 <= k <= orig.len(),
            rest@ == orig.skip(k),
            out@ == user_projects(orig.take(k)),
        decreases rest.len(),
    {
        let p = rest.remove(0);
        proof {
            assert(orig.take(k + 1).drop_last() =~= orig.take(k));
            assert(orig.take(k + 1).last() == p);
        }
        let keep = match &p.namespace {
            Some(ns) => str_eq(ns.kind.as_str(), "user"),
            None => false,
        };
        if keep {
            out.push(p);
        }
        proof {
            k = k + 1;
            assert(rest@ =~= orig.skip(k));
        }
    }
    assert(orig.take(k) =~= orig);
    out
}

/// The projects of a list as the client returns them: for the top-level
/// request only those in user namespaces, sorted by path with namespace.
pub fn order_projects(req: &ListRequest, projects: Vec<Project>) -> (r: Vec<Project>)
    ensures
        r@ == stable_sort(
            if *req is TopLevelProjects {
                user_projects(projects@)
            } else {
                projects@
            },
        ),
{
    match req {
        ListRequest::TopLevelProjects => sort_by_key(keep_user_projects(projects)),
        _ => sort_by_key(projects),
    }
}

} // verus!
