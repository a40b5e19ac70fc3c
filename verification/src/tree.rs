//! The child tree that `get group` prints: paths relative to a group are
//! split into segments, gathered into a tree of subgroups and repositories,
//! and rendered line by line.
use vstd::prelude::*;

use crate::models::{Group, Project};
use crate::sort::{
    insert_by_key, lemma_sort_contains, lemma_sort_map, lemma_sort_related, related, sort_by_key,
    stable_sort, Keyed, KeyedExec,
};
use crate::text::{
    chars_lt, chars_of, compare_strs, concat2, concat3, lemma_lt_asymmetric, lemma_lt_irreflexive,
    lemma_lt_total, lemma_lt_transitive, str_eq, string_from, Order,
};

verus! {

/// The character views of a sequence of strings.
pub open spec fn views(v: Seq<String>) -> Seq<Seq<char>> {
    v.map_values(|s: String| s@)
}

/// `s` split at every `/` (as `str::split('/')` does: empty pieces are kept,
/// and the empty string gives one empty piece).
pub open spec fn split_slash(s: Seq<char>) -> Seq<Seq<char>>
    decreases s.len(),
{
    if s.len() == 0 {
        seq![Seq::<char>::empty()]
    } else {
        let r = split_slash(s.drop_last());
        if s.last() == '/' {
            r.push(Seq::<char>::empty())
        } else {
            r.update(r.len() - 1, r.last().push(s.last()))
        }
    }
}

/// Pieces joined back with `/` between them.
pub open spec fn join_slash(segs: Seq<Seq<char>>) -> Seq<char>
    decreases segs.len(),
{
    if segs.len() == 0 {
        Seq::<char>::empty()
    } else if segs.len() == 1 {
        segs[0]
    } else {
        join_slash(segs.drop_last()) + seq!['/'] + segs.last()
    }
}

proof fn lemma_split_len(s: Seq<char>)
    ensures
        split_slash(s).len() >= 1,
    decreases s.len(),
{
    if s.len() > 0 {
        lemma_split_len(s.drop_last());
    }
}

/// Splitting at `/` and joining with `/` gives the string back.
pub proof fn lemma_split_join(s: Seq<char>)
    ensures
        join_slash(split_slash(s)) == s,
    decreases s.len(),
{
    if s.len() > 0 {
        let t = s.drop_last();
        let r = split_slash(t);
        lemma_split_join(t);
        lemma_split_len(t);
        assert(t.push(s.last()) =~= s);
        if s.last() == '/' {
            let r2 = r.push(Seq::<char>::empty());
            assert(r2.drop_last() =~= r);
            assert(join_slash(r2) =~= t + seq!['/'] + Seq::<char>::empty());
        } else {
            let r2 = r.update(r.len() - 1, r.last().push(s.last()));
            if r.len() == 1 {
                assert(join_slash(r2) == r2[0]);
            } else {
                assert(r2.drop_last() =~= r.drop_last());
                assert(join_slash(r2) =~= (join_slash(r.drop_last()) + seq!['/'] + r.last()).push(
                    s.last(),
                ));
            }
        }
    } else {
        assert(join_slash(seq![Seq::<char>::empty()]) == Seq::<char>::empty());
    }
}

/// Splits `s` at every `/`, keeping empty pieces.
pub fn split_segments(s: &str) -> (r: Vec<String>)
    ensures
        views(r@) == split_slash(s@),
{
    let cs = chars_of(s);
    let mut out: Vec<String> = Vec::new();
    let mut start: usize = 0;
    let mut i: usize = 0;
    assert(views(out@) =~= Seq::<Seq<char>>::empty());
    assert(cs@.take(0) =~= Seq::<char>::empty());
    assert(views(out@).push(cs@.subrange(0, 0)) =~~= split_slash(cs@.take(0)));
    while i < cs.len()
        invariant
            start <= i <= cs.len(),
            cs@ == s@,
            views(out@).push(cs@.subrange(start as int, i as int)) == split_slash(
                cs@.take(i as int),
            ),
        decreases cs.len() - i,
    {
        let ghost before = views(out@);
        let ghost cur = cs@.subrange(start as int, i as int);
        assert(cs@.take(i + 1).drop_last() =~= cs@.take(i as int));
        assert(cs@.take(i + 1).last() == cs@[i as int]);
        if cs[i] == '/' {
            let piece = string_from(&cs, start, i);
            out.push(piece);
            start = i + 1;
            assert(views(out@) =~= before.push(cur));
            assert(views(out@).push(cs@.subrange(start as int, i + 1)) =~~= before.push(cur).push(
                Seq::<char>::empty(),
            ));
        } else {
            assert(cs@.subrange(start as int, i + 1) =~= cur.push(cs@[i as int]));
            assert(before.push(cur).update(before.len() as int, cur.push(cs@[i as int]))
                =~= before.push(cs@.subrange(start as int, i + 1)));
        }
        i = i + 1;
    }
    let last = string_from(&cs, start, cs.len());
    let ghost before = views(out@);
    out.push(last);
    assert(views(out@) =~= before.push(cs@.subrange(start as int, cs@.len() as int)));
    assert(cs@.take(cs@.len() as int) =~= cs@);
    out
}

/// The segments of `path` below `prefix`: empty when `path` is `prefix`
/// itself or does not start with `prefix` and a `/`.
pub open spec fn rel_segments(path: Seq<char>, prefix: Seq<char>) -> Seq<Seq<char>> {
    if path == prefix {
        seq![]
    } else if prefix.len() + 1 <= path.len() && path.take(prefix.len() + 1 as int) == prefix.push('/') {
        let rest = path.skip(prefix.len() + 1 as int);
        if rest.len() == 0 {
            seq![]
        } else {
            split_slash(rest)
        }
    } else {
        seq![]
    }
}

fn no_segments() -> (v: Vec<String>)
    ensures
        views(v@) == Seq::<Seq<char>>::empty(),
{
    let v: Vec<String> = Vec::new();
    assert(views(v@) =~= Seq::<Seq<char>>::empty());
    v
}

/// The path segments of `path` below `prefix`.
pub fn relative_segments(path: &str, prefix: &str) -> (r: Vec<String>)
    ensures
        views(r@) == rel_segments(path@, prefix@),
{
    if str_eq(path, prefix) {
        let v: Vec<String> = Vec::new();
        assert(views(v@) =~= Seq::<Seq<char>>::empty());
        return v;
    }
    let pc = chars_of(path);
    let xc = chars_of(prefix);
    if xc.len() >= pc.len() {
        return no_segments();
    }
    let mut i: usize = 0;
    while i < xc.len()
        invariant
            i <= xc.len() < pc.len(),
            pc@ == path@,
            xc@ == prefix@,
            path@ != prefix@,
            pc@.take(i as int) == xc@.take(i as int),
        decreases xc.len() - i,
    {
        if pc[i] != xc[i] {
            assert(pc@.take(xc.len() + 1)[i as int] != xc@.push('/')[i as int]);
            return no_segments();
        }
        assert(pc@.take(i + 1) =~= pc@.take(i as int).push(pc@[i as int]));
        assert(xc@.take(i + 1) =~= xc@.take(i as int).push(xc@[i as int]));
        i = i + 1;
    }
    assert(xc@.take(xc.len() as int) =~= xc@);
    if pc[xc.len()] != '/' {
        assert(pc@.take(xc.len() + 1)[xc.len() as int] != xc@.push('/')[xc.len() as int]);
        return no_segments();
    }
    assert(pc@.take(xc.len() + 1) =~= xc@.push('/'));
    if xc.len() + 1 == pc.len() {
        return no_segments();
    }
    let rest = string_from(&pc, xc.len() + 1, pc.len());
    assert(rest@ =~= pc@.skip(xc.len() + 1));
    split_segments(rest.as_str())
}

/// Relative segments put back together with `prefix` give the path.
pub proof fn lemma_relative_segments_rejoin(path: Seq<char>, prefix: Seq<char>)
    requires
        rel_segments(path, prefix).len() > 0,
    ensures
        prefix + seq!['/'] + join_slash(rel_segments(path, prefix)) == path,
{
    let rest = path.skip(prefix.len() + 1 as int);
    lemma_split_join(rest);
    assert(path.take(prefix.len() + 1 as int) + rest =~= path);
    assert(prefix.push('/') =~= prefix + seq!['/']);
}

/// A node of the child tree: subgroups by name, and repositories.
pub struct Node {
    pub children: Vec<Child>,
    pub repos: Vec<String>,
}

/// A named subgroup of a node.
pub struct Child {
    pub name: String,
    pub node: Node,
}

impl Default for Node {
    fn default() -> (n: Node)
        ensures
            n.children@.len() == 0,
            n.repos@.len() == 0,
    {
        Node { children: Vec::new(), repos: Vec::new() }
    }
}

/// Subgroup names are strictly increasing (so each occurs once).
pub open spec fn names_sorted(cs: Seq<Child>) -> bool {
    forall|i: int, j: int|
        0 <= i < j < cs.len() ==> chars_lt(#[trigger] cs[i].name@, #[trigger] cs[j].name@)
}

/// Every node of the tree keeps its subgroups sorted by name.
pub open spec fn well_formed(n: Node) -> bool
    decreases n,
{
    &&& names_sorted(n.children@)
    &&& forall|i: int| 0 <= i < n.children@.len() ==> well_formed(#[trigger] n.children@[i].node)
}

proof fn lemma_wf_child(n: Node, i: int)
    requires
        well_formed(n),
        0 <= i < n.children@.len(),
    ensures
        well_formed(n.children@[i].node),
{
}

/// The first index at or after `i` of a subgroup named `name`.
pub open spec fn find_child(cs: Seq<Child>, name: Seq<char>, i: int) -> Option<int>
    decreases cs.len() - i,
{
    if i < 0 || i >= cs.len() {
        None
    } else if cs[i].name@ == name {
        Some(i)
    } else {
        find_child(cs, name, i + 1)
    }
}

/// The node reached from `n` by following the subgroup names in `path`.
pub open spec fn subtree(n: Node, path: Seq<Seq<char>>) -> Option<Node>
    decreases path.len(),
{
    if path.len() == 0 {
        Some(n)
    } else {
        match find_child(n.children@, path[0], 0) {
            Some(k) => if 0 <= k < n.children@.len() {
                subtree(n.children@[k].node, path.drop_first())
            } else {
                None
            },
            None => None,
        }
    }
}

/// The repositories recorded at the node reached by `path` (none if there
/// is no such node).
pub open spec fn repos_at(n: Node, path: Seq<Seq<char>>) -> Seq<Seq<char>> {
    match subtree(n, path) {
        Some(m) => views(m.repos@),
        None => seq![],
    }
}

/// `q` is a prefix of `s`.
pub open spec fn is_prefix(q: Seq<Seq<char>>, s: Seq<Seq<char>>) -> bool {
    q.len() <= s.len() && s.take(q.len() as int) == q
}

proof fn lemma_is_prefix_step(q: Seq<Seq<char>>, s: Seq<Seq<char>>)
    requires
        q.len() > 0,
        s.len() > 0,
    ensures
        is_prefix(q, s) <==> (q[0] == s[0] && is_prefix(q.drop_first(), s.drop_first())),
{
    if is_prefix(q, s) {
        assert(q[0] == s.take(q.len() as int)[0]);
        assert(s.drop_first().take(q.len() - 1) =~= q.drop_first());
    }
    if q[0] == s[0] && is_prefix(q.drop_first(), s.drop_first()) {
        assert forall|i: int| 0 <= i < q.len() implies #[trigger] s.take(q.len() as int)[i] == q[i] by {
            if i > 0 {
                assert(s.drop_first().take(q.len() - 1)[i - 1] == q.drop_first()[i - 1]);
            }
        }
        assert(s.take(q.len() as int) =~= q);
    }
}

proof fn lemma_find_child(cs: Seq<Child>, name: Seq<char>, i: int)
    requires
        0 <= i <= cs.len(),
    ensures
        match find_child(cs, name, i) {
            Some(j) => i <= j < cs.len() && cs[j].name@ == name,
            None => forall|m: int| i <= m < cs.len() ==> cs[m].name@ != name,
        },
    decreases cs.len() - i,
{
    if i < cs.len() && cs[i].name@ != name {
        lemma_find_child(cs, name, i + 1);
    }
}

/// In a sorted list, the subgroup with a given name is the one found.
proof fn lemma_find_unique(cs: Seq<Child>, name: Seq<char>, j: int)
    requires
        names_sorted(cs),
        0 <= j < cs.len(),
        cs[j].name@ == name,
    ensures
        find_child(cs, name, 0) == Some(j),
{
    lemma_find_child(cs, name, 0);
    match find_child(cs, name, 0) {
        Some(k) => {
            if k < j {
                assert(chars_lt(cs[k].name@, cs[j].name@));
                lemma_lt_irreflexive(name);
            } else if k > j {
                assert(chars_lt(cs[j].name@, cs[k].name@));
                lemma_lt_irreflexive(name);
            }
        },
        None => {},
    }
}

proof fn lemma_find_absent(cs: Seq<Child>, name: Seq<char>)
    requires
        forall|m: int| 0 <= m < cs.len() ==> cs[m].name@ != name,
    ensures
        find_child(cs, name, 0) is None,
{
    lemma_find_child(cs, name, 0);
}

proof fn lemma_empty_node(n: Node, q: Seq<Seq<char>>)
    requires
        n.children@.len() == 0,
        n.repos@.len() == 0,
    ensures
        subtree(n, q) is Some <==> q.len() == 0,
        repos_at(n, q) == Seq::<Seq<char>>::empty(),
        well_formed(n),
{
    if q.len() > 0 {
        lemma_find_absent(n.children@, q[0]);
    } else {
        assert(views(n.repos@) =~= Seq::<Seq<char>>::empty());
    }
}

/// Replacing the subtree of one existing subgroup.
proof fn lemma_step_update(
    n: Node,
    r: Node,
    idx: int,
    sub_new: Node,
    s: Seq<Seq<char>>,
    leaf: Option<Seq<char>>,
)
    requires
        well_formed(n),
        0 <= idx < n.children@.len(),
        s.len() > 0,
        n.children@[idx].name@ == s[0],
        r.repos == n.repos,
        r.children@ == n.children@.update(idx, Child { name: n.children@[idx].name, node: sub_new }),
        well_formed(sub_new),
        forall|q: Seq<Seq<char>>|
            #[trigger] subtree(sub_new, q) is Some <==> (subtree(n.children@[idx].node, q) is Some
                || is_prefix(q, s.drop_first())),
        forall|q: Seq<Seq<char>>|
            #[trigger] repos_at(sub_new, q) == (if q == s.drop_first() && leaf is Some {
                repos_at(n.children@[idx].node, q).push(leaf.unwrap())
            } else {
                repos_at(n.children@[idx].node, q)
            }),
    ensures
        well_formed(r),
        forall|q: Seq<Seq<char>>|
            #[trigger] subtree(r, q) is Some <==> (subtree(n, q) is Some || is_prefix(q, s)),
        forall|q: Seq<Seq<char>>|
            #[trigger] repos_at(r, q) == (if q == s && leaf is Some {
                repos_at(n, q).push(leaf.unwrap())
            } else {
                repos_at(n, q)
            }),
{
    let cs = n.children@;
    let rs = r.children@;
    assert(names_sorted(rs)) by {
        assert forall|i: int, j: int| 0 <= i < j < rs.len() implies chars_lt(
            #[trigger] rs[i].name@,
            #[trigger] rs[j].name@,
        ) by {
            assert(rs[i].name@ == cs[i].name@);
            assert(rs[j].name@ == cs[j].name@);
        }
    }
    assert forall|i: int| 0 <= i < rs.len() implies well_formed(#[trigger] rs[i].node) by {
        if i != idx {
            assert(rs[i] == cs[i]);
            lemma_wf_child(n, i);
        }
    }
    assert forall|q: Seq<Seq<char>>|
        (#[trigger] subtree(r, q) is Some <==> (subtree(n, q) is Some || is_prefix(q, s))) && (
        repos_at(r, q) == (if q == s && leaf is Some {
            repos_at(n, q).push(leaf.unwrap())
        } else {
            repos_at(n, q)
        })) by {
        if q.len() == 0 {
            assert(s.take(0) =~= q);
            assert(q != s);
            assert(repos_at(r, q) == views(r.repos@));
            assert(repos_at(n, q) == views(n.repos@));
        } else {
            lemma_is_prefix_step(q, s);
            if q[0] == s[0] {
                lemma_find_unique(cs, s[0], idx);
                lemma_find_unique(rs, s[0], idx);
                assert(subtree(r, q) == subtree(sub_new, q.drop_first()));
                assert(subtree(n, q) == subtree(cs[idx].node, q.drop_first()));
                assert(repos_at(r, q) == repos_at(sub_new, q.drop_first()));
                assert(repos_at(n, q) == repos_at(cs[idx].node, q.drop_first()));
                assert(q == s <==> q.drop_first() == s.drop_first()) by {
                    if q.drop_first() == s.drop_first() {
                        assert(q =~= seq![q[0]] + q.drop_first());
                        assert(s =~= seq![s[0]] + s.drop_first());
                    }
                }
            } else {
                lemma_find_child(cs, q[0], 0);
                lemma_find_child(rs, q[0], 0);
                match find_child(cs, q[0], 0) {
                    Some(j) => {
                        assert(j != idx);
                        assert(rs[j] == cs[j]);
                        lemma_find_unique(rs, q[0], j);
                    },
                    None => {
                        assert forall|m: int| 0 <= m < rs.len() implies rs[m].name@ != q[0] by {
                            assert(rs[m].name@ == cs[m].name@);
                        }
                        lemma_find_absent(rs, q[0]);
                    },
                }
                assert(subtree(r, q) == subtree(n, q));
                assert(repos_at(r, q) == repos_at(n, q));
                assert(q != s);
            }
        }
    }
}

/// Adding a new subgroup at its sorted position.
proof fn lemma_step_insert(
    n: Node,
    r: Node,
    idx: int,
    name: String,
    sub_new: Node,
    sub_old: Node,
    s: Seq<Seq<char>>,
    leaf: Option<Seq<char>>,
)
    requires
        well_formed(n),
        0 <= idx <= n.children@.len(),
        s.len() > 0,
        name@ == s[0],
        forall|m: int| 0 <= m < idx ==> chars_lt(#[trigger] n.children@[m].name@, s[0]),
        idx < n.children@.len() ==> chars_lt(s[0], n.children@[idx].name@),
        r.repos == n.repos,
        r.children@ == n.children@.insert(idx, Child { name: name, node: sub_new }),
        sub_old.children@.len() == 0,
        sub_old.repos@.len() == 0,
        well_formed(sub_new),
        forall|q: Seq<Seq<char>>|
            #[trigger] subtree(sub_new, q) is Some <==> (subtree(sub_old, q) is Some || is_prefix(
                q,
                s.drop_first(),
            )),
        forall|q: Seq<Seq<char>>|
            #[trigger] repos_at(sub_new, q) == (if q == s.drop_first() && leaf is Some {
                repos_at(sub_old, q).push(leaf.unwrap())
            } else {
                repos_at(sub_old, q)
            }),
    ensures
        well_formed(r),
        forall|q: Seq<Seq<char>>|
            #[trigger] subtree(r, q) is Some <==> (subtree(n, q) is Some || is_prefix(q, s)),
        forall|q: Seq<Seq<char>>|
            #[trigger] repos_at(r, q) == (if q == s && leaf is Some {
                repos_at(n, q).push(leaf.unwrap())
            } else {
                repos_at(n, q)
            }),
{
    let cs = n.children@;
    let rs = r.children@;
    let c = Child { name: name, node: sub_new };
    cs.insert_ensures(idx, c);
    assert forall|m: int| 0 <= m < cs.len() implies #[trigger] cs[m].name@ != s[0] by {
        if m < idx {
            lemma_lt_irreflexive(s[0]);
        } else {
            if m > idx {
                lemma_lt_transitive(s[0], cs[idx].name@, cs[m].name@);
            }
            lemma_lt_irreflexive(s[0]);
        }
    }
    assert(names_sorted(rs)) by {
        assert forall|i: int, j: int| 0 <= i < j < rs.len() implies chars_lt(
            #[trigger] rs[i].name@,
            #[trigger] rs[j].name@,
        ) by {
            if j < idx {
                assert(rs[i] == cs[i] && rs[j] == cs[j]);
            } else if j == idx {
                assert(rs[i] == cs[i]);
            } else if i < idx {
                assert(rs[i] == cs[i] && rs[j] == cs[j - 1]);
            } else if i == idx {
                assert(rs[j] == cs[j - 1]);
                if j - 1 > idx {
                    lemma_lt_transitive(s[0], cs[idx].name@, cs[j - 1].name@);
                }
            } else {
                assert(rs[i] == cs[i - 1] && rs[j] == cs[j - 1]);
            }
        }
    }
    assert forall|i: int| 0 <= i < rs.len() implies well_formed(#[trigger] rs[i].node) by {
        if i < idx {
            assert(rs[i] == cs[i]);
            lemma_wf_child(n, i);
        } else if i > idx {
            assert(rs[i] == cs[i - 1]);
            lemma_wf_child(n, i - 1);
        }
    }
    assert forall|q: Seq<Seq<char>>|
        (#[trigger] subtree(r, q) is Some <==> (subtree(n, q) is Some || is_prefix(q, s))) && (
        repos_at(r, q) == (if q == s && leaf is Some {
            repos_at(n, q).push(leaf.unwrap())
        } else {
            repos_at(n, q)
        })) by {
        if q.len() == 0 {
            assert(s.take(0) =~= q);
            assert(q != s);
            assert(repos_at(r, q) == views(r.repos@));
            assert(repos_at(n, q) == views(n.repos@));
        } else {
            lemma_is_prefix_step(q, s);
            if q[0] == s[0] {
                lemma_find_unique(rs, s[0], idx);
                lemma_find_absent(cs, s[0]);
                assert(subtree(r, q) == subtree(sub_new, q.drop_first()));
                assert(subtree(n, q) is None);
                assert(repos_at(r, q) == repos_at(sub_new, q.drop_first()));
                assert(repos_at(n, q) == Seq::<Seq<char>>::empty());
                lemma_empty_node(sub_old, q.drop_first());
                if q.drop_first().len() == 0 {
                    assert(s.drop_first().take(0) =~= q.drop_first());
                }
                assert(q == s <==> q.drop_first() == s.drop_first()) by {
                    if q.drop_first() == s.drop_first() {
                        assert(q =~= seq![q[0]] + q.drop_first());
                        assert(s =~= seq![s[0]] + s.drop_first());
                    }
                }
            } else {
                lemma_find_child(cs, q[0], 0);
                match find_child(cs, q[0], 0) {
                    Some(j) => {
                        if j < idx {
                            assert(rs[j] == cs[j]);
                            lemma_find_unique(rs, q[0], j);
                        } else {
                            assert(rs[j + 1] == cs[j]);
                            lemma_find_unique(rs, q[0], j + 1);
                        }
                    },
                    None => {
                        assert forall|m: int| 0 <= m < rs.len() implies rs[m].name@ != q[0] by {
                            if m < idx {
                                assert(rs[m] == cs[m]);
                            } else if m > idx {
                                assert(rs[m] == cs[m - 1]);
                            }
                        }
                        lemma_find_absent(rs, q[0]);
                    },
                }
                assert(subtree(r, q) == subtree(n, q));
                assert(repos_at(r, q) == repos_at(n, q));
                assert(q != s);
            }
        }
    }
}

/// The character view of an optional string.
pub open spec fn opt_view(o: Option<String>) -> Option<Seq<char>> {
    match o {
        Some(s) => Some(s@),
        None => None,
    }
}

/// Recording a repository at a node, or nothing, leaves the subgroups alone.
proof fn lemma_step_leaf(n: Node, r: Node, leaf: Option<Seq<char>>)
    requires
        well_formed(n),
        r.children == n.children,
        views(r.repos@) == (if leaf is Some {
            views(n.repos@).push(leaf.unwrap())
        } else {
            views(n.repos@)
        }),
    ensures
        well_formed(r),
        forall|q: Seq<Seq<char>>|
            #[trigger] subtree(r, q) is Some <==> (subtree(n, q) is Some || is_prefix(
                q,
                Seq::<Seq<char>>::empty(),
            )),
        forall|q: Seq<Seq<char>>|
            #[trigger] repos_at(r, q) == (if q == Seq::<Seq<char>>::empty() && leaf is Some {
                repos_at(n, q).push(leaf.unwrap())
            } else {
                repos_at(n, q)
            }),
{
    assert forall|i: int| 0 <= i < r.children@.len() implies well_formed(
        #[trigger] r.children@[i].node,
    ) by {
        lemma_wf_child(n, i);
    }
    assert forall|q: Seq<Seq<char>>|
        (#[trigger] subtree(r, q) is Some <==> (subtree(n, q) is Some || is_prefix(
            q,
            Seq::<Seq<char>>::empty(),
        ))) && (repos_at(r, q) == (if q == Seq::<Seq<char>>::empty() && leaf is Some {
            repos_at(n, q).push(leaf.unwrap())
        } else {
            repos_at(n, q)
        })) by {
        if q.len() == 0 {
            assert(q =~= Seq::<Seq<char>>::empty());
            assert(repos_at(r, q) == views(r.repos@));
            assert(repos_at(n, q) == views(n.repos@));
        } else {
            assert(subtree(r, q) == subtree(n, q));
            assert(repos_at(r, q) == repos_at(n, q));
        }
    }
}

/// How many repositories the tree holds, at any depth.
pub open spec fn tree_repos(n: Node) -> nat
    decreases n, n.children@.len() + 1,
{
    n.repos@.len() + subgroup_repos(n, 0)
}

/// How many repositories lie in the subgroups of `n` from the `k`-th on.
pub open spec fn subgroup_repos(n: Node, k: int) -> nat
    decreases n, n.children@.len() - k,
{
    if k < 0 || k >= n.children@.len() {
        0
    } else {
        proof {
            assert(decreases_to!(n => n.children@[k].node));
        }
        tree_repos(n.children@[k].node) + subgroup_repos(n, k + 1)
    }
}

proof fn lemma_repos_same_children(n: Node, r: Node, k: int)
    requires
        r.children@ == n.children@,
        0 <= k <= n.children@.len(),
    ensures
        subgroup_repos(r, k) == subgroup_repos(n, k),
    decreases n.children@.len() - k,
{
    if k < n.children@.len() {
        lemma_repos_same_children(n, r, k + 1);
    }
}

proof fn lemma_repos_update(n: Node, r: Node, idx: int, sub: Node, k: int)
    requires
        0 <= idx < n.children@.len(),
        r.children@ == n.children@.update(idx, Child { name: n.children@[idx].name, node: sub }),
        0 <= k <= n.children@.len(),
    ensures
        subgroup_repos(r, k) + (if k <= idx {
            tree_repos(n.children@[idx].node)
        } else {
            0
        }) == subgroup_repos(n, k) + (if k <= idx {
            tree_repos(sub)
        } else {
            0
        }),
    decreases n.children@.len() - k,
{
    if k < n.children@.len() {
        lemma_repos_update(n, r, idx, sub, k + 1);
        if k != idx {
            assert(r.children@[k] == n.children@[k]);
        }
    }
}

proof fn lemma_repos_insert(n: Node, r: Node, idx: int, c: Child, k: int)
    requires
        0 <= idx <= n.children@.len(),
        r.children@ == n.children@.insert(idx, c),
        0 <= k <= r.children@.len(),
    ensures
        k <= idx ==> subgroup_repos(r, k) == subgroup_repos(n, k) + tree_repos(c.node),
        k > idx ==> subgroup_repos(r, k) == subgroup_repos(n, k - 1),
    decreases r.children@.len() - k,
{
    n.children@.insert_ensures(idx, c);
    if k < r.children@.len() {
        lemma_repos_insert(n, r, idx, c, k + 1);
        if k < idx {
            assert(r.children@[k] == n.children@[k]);
        } else if k > idx {
            assert(r.children@[k] == n.children@[k - 1]);
        }
    }
}

/// Adds the path `segs[k..]` below `node`, creating missing subgroups, and
/// records `leaf` as a repository at its end.
fn insert_entry(node: Node, segs: &Vec<String>, k: usize, leaf: Option<String>) -> (r: Node)
    requires
        well_formed(node),
        k <= segs.len(),
    ensures
        well_formed(r),
        forall|q: Seq<Seq<char>>|
            #[trigger] subtree(r, q) is Some <==> (subtree(node, q) is Some || is_prefix(
                q,
                views(segs@).skip(k as int),
            )),
        forall|q: Seq<Seq<char>>|
            #[trigger] repos_at(r, q) == (if q == views(segs@).skip(k as int) && leaf is Some {
                repos_at(node, q).push(leaf.unwrap()@)
            } else {
                repos_at(node, q)
            }),
        tree_repos(r) == tree_repos(node) + (if leaf is Some {
            1nat
        } else {
            0nat
        }),
    decreases segs.len() - k,
{
    let ghost s = views(segs@).skip(k as int);
    let ghost lv = opt_view(leaf);
    let ghost n0 = node;
    let mut node = node;
    if k == segs.len() {
        assert(s =~= Seq::<Seq<char>>::empty());
        match leaf {
            Some(l) => {
                node.repos.push(l);
                assert(views(node.repos@) =~= views(n0.repos@).push(lv.unwrap()));
            },
            None => {},
        }
        proof {
            lemma_step_leaf(n0, node, lv);
            lemma_repos_same_children(n0, node, 0);
        }
        return node;
    }
    let mut idx: usize = 0;
    while idx < node.children.len() && compare_strs(
        node.children[idx].name.as_str(),
        segs[k].as_str(),
    ) == Order::Less
        invariant
            idx <= node.children.len(),
            node == n0,
            k < segs.len(),
            forall|m: int|
                0 <= m < idx ==> chars_lt(#[trigger] node.children@[m].name@, segs@[k as int]@),
        decreases node.children.len() - idx,
    {
        idx = idx + 1;
    }
    let found = idx < node.children.len() && str_eq(
        node.children[idx].name.as_str(),
        segs[k].as_str(),
    );
    assert(s[0] == segs@[k as int]@);
    assert(views(segs@).skip(k + 1) =~= s.drop_first());
    if found {
        proof {
            lemma_wf_child(n0, idx as int);
        }
        let Child { name: cname, node: cnode } = node.children.remove(idx);
        let sub = insert_entry(cnode, segs, k + 1, leaf);
        node.children.insert(idx, Child { name: cname, node: sub });
        proof {
            assert(node.children@ =~= n0.children@.update(
                idx as int,
                Child { name: n0.children@[idx as int].name, node: sub },
            ));
            lemma_step_update(n0, node, idx as int, sub, s, lv);
            lemma_repos_update(n0, node, idx as int, sub, 0);
        }
    } else {
        proof {
            if idx < n0.children@.len() {
                lemma_lt_total(n0.children@[idx as int].name@, s[0]);
            }
        }
        let empty = Node::default();
        let ghost e = empty;
        let sub = insert_entry(empty, segs, k + 1, leaf);
        let name = segs[k].clone();
        node.children.insert(idx, Child { name: name, node: sub });
        proof {
            assert(node.children@ =~= n0.children@.insert(
                idx as int,
                Child { name: name, node: sub },
            ));
            lemma_step_insert(n0, node, idx as int, name, sub, e, s, lv);
            lemma_repos_insert(n0, node, idx as int, Child { name: name, node: sub }, 0);
            assert(tree_repos(e) == 0);
        }
    }
    node
}

/// The segments of a group's full path below `root`.
pub open spec fn group_segs(root: Seq<char>, g: Group) -> Seq<Seq<char>> {
    rel_segments(g.full_path@, root)
}

/// The segments of a project's path below `root`.
pub open spec fn project_segs(root: Seq<char>, p: Project) -> Seq<Seq<char>> {
    rel_segments(p.path_with_namespace@, root)
}

/// `q` leads to (or is) one of the groups below `root`.
pub open spec fn under_groups(q: Seq<Seq<char>>, root: Seq<char>, groups: Seq<Group>) -> bool {
    exists|i: int|
        0 <= i < groups.len() && group_segs(root, #[trigger] groups[i]).len() > 0 && is_prefix(
            q,
            group_segs(root, groups[i]),
        )
}

/// `q` leads to (or is) the group holding one of the projects below `root`.
pub open spec fn under_projects(
    q: Seq<Seq<char>>,
    root: Seq<char>,
    projects: Seq<Project>,
) -> bool {
    exists|i: int|
        0 <= i < projects.len() && project_segs(root, #[trigger] projects[i]).len() > 0
            && is_prefix(q, project_segs(root, projects[i]).drop_last())
}

/// The tree has a node at `q`: the root, or on the way to a group or to
/// the group of a project.
pub open spec fn tree_contains(
    q: Seq<Seq<char>>,
    root: Seq<char>,
    groups: Seq<Group>,
    projects: Seq<Project>,
) -> bool {
    q.len() == 0 || under_groups(q, root, groups) || under_projects(q, root, projects)
}

/// The repositories directly in the group at `q`, in the order of `projects`.
pub open spec fn repos_below(
    q: Seq<Seq<char>>,
    root: Seq<char>,
    projects: Seq<Project>,
) -> Seq<Seq<char>>
    decreases projects.len(),
{
    if projects.len() == 0 {
        seq![]
    } else {
        let rest = repos_below(q, root, projects.drop_last());
        let segs = project_segs(root, projects.last());
        if segs.len() > 0 && segs.drop_last() == q {
            rest.push(segs.last())
        } else {
            rest
        }
    }
}

/// How many of `projects` lie below `root` (and are not `root` itself).
pub open spec fn placed_projects(root: Seq<char>, projects: Seq<Project>) -> nat
    decreases projects.len(),
{
    if projects.len() == 0 {
        0
    } else {
        placed_projects(root, projects.drop_last()) + (if project_segs(root, projects.last()).len()
            > 0 {
            1nat
        } else {
            0nat
        })
    }
}

/// `t` is the tree of `groups` and `projects` below `root`: well formed,
/// with a node exactly where `tree_contains` says, holding the repositories
/// `repos_below` says.
pub open spec fn built_from(
    t: Node,
    root: Seq<char>,
    groups: Seq<Group>,
    projects: Seq<Project>,
) -> bool {
    &&& well_formed(t)
    &&& forall|q: Seq<Seq<char>>|
        #[trigger] subtree(t, q) is Some <==> tree_contains(q, root, groups, projects)
    &&& forall|q: Seq<Seq<char>>| #[trigger] repos_at(t, q) == repos_below(q, root, projects)
}

/// Builds the tree of the groups and projects below `root_path`: a node for
/// every group and every group on the way to one, and each project recorded
/// as a repository in the node of its group.
pub fn build_tree(root_path: &str, groups: &[Group], projects: &[Project]) -> (t: Node)
    ensures
        well_formed(t),
        forall|q: Seq<Seq<char>>|
            #[trigger] subtree(t, q) is Some <==> tree_contains(
                q,
                root_path@,
                groups@,
                projects@,
            ),
        forall|q: Seq<Seq<char>>| #[trigger]
            repos_at(t, q) == repos_below(q, root_path@, projects@),
        built_from(t, root_path@, groups@, projects@),
        tree_repos(t) == placed_projects(root_path@, projects@),
{
    let ghost root = root_path@;
    let mut tree = Node::default();
    assert(tree_repos(tree) == 0);
    proof {
        assert forall|q: Seq<Seq<char>>|
            (#[trigger] subtree(tree, q) is Some <==> (q.len() == 0 || under_groups(
                q,
                root,
                groups@.take(0),
            ))) && repos_at(tree, q) == Seq::<Seq<char>>::empty() by {
            lemma_empty_node(tree, q);
        }
    }
    let mut i: usize = 0;
    while i < groups.len()
        invariant
            i <= groups.len(),
            root == root_path@,
            well_formed(tree),
            forall|q: Seq<Seq<char>>|
                #[trigger] subtree(tree, q) is Some <==> (q.len() == 0 || under_groups(
                    q,
                    root,
                    groups@.take(i as int),
                )),
            forall|q: Seq<Seq<char>>| #[trigger]
                repos_at(tree, q) == Seq::<Seq<char>>::empty(),
            tree_repos(tree) == 0,
        decreases groups.len() - i,
    {
        let segs = relative_segments(groups[i].full_path.as_str(), root_path);
        let ghost t0 = tree;
        let ghost gs = group_segs(root, groups@[i as int]);
        assert(views(segs@).skip(0) =~= gs);
        if segs.len() > 0 {
            tree = insert_entry(tree, &segs, 0, None);
        }
        proof {
            assert forall|q: Seq<Seq<char>>|
                under_groups(q, root, groups@.take(i + 1)) <==> (under_groups(
                    q,
                    root,
                    groups@.take(i as int),
                ) || (gs.len() > 0 && is_prefix(q, gs))) by {
                if under_groups(q, root, groups@.take(i + 1)) {
                    let j = choose|j: int|
                        0 <= j < i + 1 && group_segs(root, #[trigger] groups@.take(i + 1)[j]).len()
                            > 0 && is_prefix(q, group_segs(root, groups@.take(i + 1)[j]));
                    if j < i {
                        assert(groups@.take(i as int)[j] == groups@.take(i + 1)[j]);
                    } else {
                        assert(groups@.take(i + 1)[j] == groups@[i as int]);
                    }
                }
                if under_groups(q, root, groups@.take(i as int)) {
                    let j = choose|j: int|
                        0 <= j < i && group_segs(root, #[trigger] groups@.take(i as int)[j]).len()
                            > 0 && is_prefix(q, group_segs(root, groups@.take(i as int)[j]));
                    assert(groups@.take(i as int)[j] == groups@.take(i + 1)[j]);
                }
                if gs.len() > 0 && is_prefix(q, gs) {
                    assert(groups@.take(i + 1)[i as int] == groups@[i as int]);
                }
            }
            if segs.len() == 0 {
                assert forall|q: Seq<Seq<char>>|
                    #[trigger] subtree(tree, q) is Some <==> (q.len() == 0 || under_groups(
                        q,
                        root,
                        groups@.take(i + 1),
                    )) by {}
            }
        }
        i = i + 1;
    }
    assert(groups@.take(groups.len() as int) =~= groups@);
    let mut j: usize = 0;
    assert(projects@.take(0) =~= Seq::<Project>::empty());
    while j < projects.len()
        invariant
            j <= projects.len(),
            root == root_path@,
            well_formed(tree),
            forall|q: Seq<Seq<char>>|
                #[trigger] subtree(tree, q) is Some <==> (q.len() == 0 || under_groups(
                    q,
                    root,
                    groups@,
                ) || under_projects(q, root, projects@.take(j as int))),
            forall|q: Seq<Seq<char>>| #[trigger]
                repos_at(tree, q) == repos_below(q, root, projects@.take(j as int)),
            tree_repos(tree) == placed_projects(root, projects@.take(j as int)),
        decreases projects.len() - j,
    {
        let segs = relative_segments(projects[j].path_with_namespace.as_str(), root_path);
        let ghost ps = project_segs(root, projects@[j as int]);
        let ghost t0 = tree;
        assert(projects@.take(j + 1).drop_last() =~= projects@.take(j as int));
        assert(projects@.take(j + 1).last() == projects@[j as int]);
        if segs.len() > 0 {
            let mut parents = segs;
            let leaf = parents.pop();
            match leaf {
                Some(l) => {
                    assert(views(parents@).skip(0) =~= ps.drop_last());
                    assert(l@ == ps.last());
                    tree = insert_entry(tree, &parents, 0, Some(l));
                },
                None => {},
            }
        }
        proof {
            assert forall|q: Seq<Seq<char>>|
                under_projects(q, root, projects@.take(j + 1)) <==> (under_projects(
                    q,
                    root,
                    projects@.take(j as int),
                ) || (ps.len() > 0 && is_prefix(q, ps.drop_last()))) by {
                if under_projects(q, root, projects@.take(j + 1)) {
                    let m = choose|m: int|
                        0 <= m < j + 1 && project_segs(root, #[trigger] projects@.take(j + 1)[m]).len()
                            > 0 && is_prefix(q, project_segs(root, projects@.take(j + 1)[m]).drop_last());
                    if m < j {
                        assert(projects@.take(j as int)[m] == projects@.take(j + 1)[m]);
                    }
                }
                if under_projects(q, root, projects@.take(j as int)) {
                    let m = choose|m: int|
                        0 <= m < j && project_segs(root, #[trigger] projects@.take(j as int)[m]).len()
                            > 0 && is_prefix(q, project_segs(root, projects@.take(j as int)[m]).drop_last());
                    assert(projects@.take(j as int)[m] == projects@.take(j + 1)[m]);
                }
                if ps.len() > 0 && is_prefix(q, ps.drop_last()) {
                    assert(projects@.take(j + 1)[j as int] == projects@[j as int]);
                }
            }
        }
        j = j + 1;
    }
    assert(projects@.take(projects.len() as int) =~= projects@);
    tree
}

/// `a` and `b` hold the same: the same subgroup names in the same order,
/// subtrees that hold the same, and the same repositories in the same order.
pub open spec fn same_tree(a: Node, b: Node) -> bool
    decreases a,
{
    &&& a.children@.len() == b.children@.len()
    &&& forall|k: int|
        0 <= k < a.children@.len() ==> (#[trigger] a.children@[k]).name@ == b.children@[k].name@
    &&& views(a.repos@) == views(b.repos@)
    &&& forall|k: int|
        0 <= k < a.children@.len() ==> same_tree(#[trigger] a.children@[k].node, b.children@[k].node)
}

/// The names of a node's subgroups, in order.
spec fn child_names(n: Node) -> Seq<Seq<char>> {
    n.children@.map_values(|c: Child| c.name@)
}

/// `x` occurs in `s`.
spec fn has_name(s: Seq<Seq<char>>, x: Seq<char>) -> bool {
    exists|i: int| 0 <= i < s.len() && s[i] == x
}

/// Strictly increasing sequences with the same members are equal.
proof fn lemma_sorted_same_members(s: Seq<Seq<char>>, t: Seq<Seq<char>>)
    requires
        forall|i: int, j: int| 0 <= i < j < s.len() ==> chars_lt(#[trigger] s[i], #[trigger] s[j]),
        forall|i: int, j: int| 0 <= i < j < t.len() ==> chars_lt(#[trigger] t[i], #[trigger] t[j]),
        forall|i: int| 0 <= i < s.len() ==> has_name(t, #[trigger] s[i]),
        forall|j: int| 0 <= j < t.len() ==> has_name(s, #[trigger] t[j]),
    ensures
        s == t,
    decreases s.len(),
{
    if s.len() == 0 {
        if t.len() > 0 {
            assert(has_name(s, t[0]));
        }
        assert(s =~= t);
    } else if t.len() == 0 {
        assert(has_name(t, s[0]));
    } else {
        assert(has_name(t, s[0]));
        let j = choose|j: int| 0 <= j < t.len() && t[j] == s[0];
        assert(has_name(s, t[0]));
        let i = choose|i: int| 0 <= i < s.len() && s[i] == t[0];
        if j > 0 {
            assert(chars_lt(t[0], t[j]));
            if i > 0 {
                assert(chars_lt(s[0], s[i]));
                lemma_lt_asymmetric(s[0], s[i]);
            } else {
                lemma_lt_irreflexive(s[0]);
            }
        }
        assert(s[0] == t[0]);
        let s1 = s.drop_first();
        let t1 = t.drop_first();
        assert forall|a: int| 0 <= a < s1.len() implies has_name(t1, #[trigger] s1[a]) by {
            assert(s1[a] == s[a + 1]);
            assert(has_name(t, s[a + 1]));
            let b = choose|b: int| 0 <= b < t.len() && t[b] == s[a + 1];
            assert(chars_lt(s[0], s[a + 1]));
            if b == 0 {
                lemma_lt_irreflexive(s[0]);
            }
            assert(t1[b - 1] == s1[a]);
        }
        assert forall|b: int| 0 <= b < t1.len() implies has_name(s1, #[trigger] t1[b]) by {
            assert(t1[b] == t[b + 1]);
            assert(has_name(s, t[b + 1]));
            let a = choose|a: int| 0 <= a < s.len() && s[a] == t[b + 1];
            assert(chars_lt(t[0], t[b + 1]));
            if a == 0 {
                lemma_lt_irreflexive(t[0]);
            }
            assert(s1[a - 1] == t1[b]);
        }
        assert forall|a: int, b: int| 0 <= a < b < s1.len() implies chars_lt(
            #[trigger] s1[a],
            #[trigger] s1[b],
        ) by {
            assert(chars_lt(s[a + 1], s[b + 1]));
        }
        assert forall|a: int, b: int| 0 <= a < b < t1.len() implies chars_lt(
            #[trigger] t1[a],
            #[trigger] t1[b],
        ) by {
            assert(chars_lt(t[a + 1], t[b + 1]));
        }
        lemma_sorted_same_members(s1, t1);
        assert(s =~= t) by {
            assert forall|a: int| 0 <= a < s.len() implies s[a] == t[a] by {
                if a > 0 {
                    assert(s[a] == s1[a - 1]);
                    assert(t[a] == t1[a - 1]);
                }
            }
        }
    }
}

/// Following a subgroup's name from `n` leads into that subgroup.
proof fn lemma_subtree_step(n: Node, k: int, q: Seq<Seq<char>>)
    requires
        well_formed(n),
        0 <= k < n.children@.len(),
    ensures
        subtree(n, seq![n.children@[k].name@] + q) == subtree(n.children@[k].node, q),
        repos_at(n, seq![n.children@[k].name@] + q) == repos_at(n.children@[k].node, q),
{
    let x = n.children@[k].name@;
    let p = seq![x] + q;
    lemma_find_unique(n.children@, x, k);
    assert(p[0] == x);
    assert(p.drop_first() =~= q);
}

/// A well-formed node has a subgroup of a given name exactly when the
/// one-segment path of that name leads somewhere.
proof fn lemma_has_child_name(n: Node, x: Seq<char>)
    requires
        well_formed(n),
    ensures
        has_name(child_names(n), x) <==> subtree(n, seq![x]) is Some,
{
    lemma_find_child(n.children@, x, 0);
    if has_name(child_names(n), x) {
        let k = choose|k: int| 0 <= k < child_names(n).len() && child_names(n)[k] == x;
        lemma_subtree_step(n, k, Seq::<Seq<char>>::empty());
        assert(seq![x] + Seq::<Seq<char>>::empty() =~= seq![x]);
    }
    if subtree(n, seq![x]) is Some {
        match find_child(n.children@, x, 0) {
            Some(k) => {
                assert(child_names(n)[k] == x);
            },
            None => {},
        }
    }
}

/// Two well-formed trees with nodes at the same paths, holding the same
/// repositories at each path, hold the same.
pub proof fn lemma_paths_determine_tree(a: Node, b: Node)
    requires
        well_formed(a),
        well_formed(b),
        forall|q: Seq<Seq<char>>| #[trigger] subtree(a, q) is Some <==> subtree(b, q) is Some,
        forall|q: Seq<Seq<char>>| #[trigger] repos_at(a, q) == repos_at(b, q),
    ensures
        same_tree(a, b),
    decreases a,
{
    let na = child_names(a);
    let nb = child_names(b);
    assert forall|i: int| 0 <= i < na.len() implies has_name(nb, #[trigger] na[i]) by {
        lemma_has_child_name(a, na[i]);
        lemma_has_child_name(b, na[i]);
        assert(has_name(na, na[i]));
        assert(subtree(a, seq![na[i]]) is Some);
    }
    assert forall|j: int| 0 <= j < nb.len() implies has_name(na, #[trigger] nb[j]) by {
        lemma_has_child_name(a, nb[j]);
        lemma_has_child_name(b, nb[j]);
        assert(has_name(nb, nb[j]));
        assert(subtree(b, seq![nb[j]]) is Some);
    }
    assert forall|i: int, j: int| 0 <= i < j < na.len() implies chars_lt(
        #[trigger] na[i],
        #[trigger] na[j],
    ) by {
        assert(chars_lt(a.children@[i].name@, a.children@[j].name@));
    }
    assert forall|i: int, j: int| 0 <= i < j < nb.len() implies chars_lt(
        #[trigger] nb[i],
        #[trigger] nb[j],
    ) by {
        assert(chars_lt(b.children@[i].name@, b.children@[j].name@));
    }
    lemma_sorted_same_members(na, nb);
    assert forall|k: int| 0 <= k < a.children@.len() implies (#[trigger] a.children@[k]).name@
        == b.children@[k].name@ by {
        assert(na[k] == nb[k]);
    }
    assert(repos_at(a, Seq::<Seq<char>>::empty()) == repos_at(b, Seq::<Seq<char>>::empty()));
    assert forall|k: int| 0 <= k < a.children@.len() implies same_tree(
        #[trigger] a.children@[k].node,
        b.children@[k].node,
    ) by {
        assert(na[k] == nb[k]);
        let ca = a.children@[k].node;
        let cb = b.children@[k].node;
        let x = a.children@[k].name@;
        assert forall|q: Seq<Seq<char>>| #[trigger] subtree(ca, q) is Some <==> subtree(
            cb,
            q,
        ) is Some by {
            lemma_subtree_step(a, k, q);
            lemma_subtree_step(b, k, q);
        }
        assert forall|q: Seq<Seq<char>>| #[trigger] repos_at(ca, q) == repos_at(cb, q) by {
            lemma_subtree_step(a, k, q);
            lemma_subtree_step(b, k, q);
        }
        lemma_paths_determine_tree(ca, cb);
    }
}

/// One line of a node's listing: a subgroup with its subtree, or a
/// repository.
#[derive(Clone, Copy)]
pub enum Entry<'a> {
    Group(&'a str, &'a Node),
    Repo(&'a str),
}

/// What an entry shows: its name, and the subtree of a subgroup.
pub struct EntryView {
    pub name: Seq<char>,
    pub child: Option<Node>,
}

impl<'a> View for Entry<'a> {
    type V = EntryView;

    open spec fn view(&self) -> EntryView {
        match self {
            Entry::Group(name, node) => EntryView { name: name@, child: Some(**node) },
            Entry::Repo(name) => EntryView { name: name@, child: None },
        }
    }
}

impl Keyed for EntryView {
    open spec fn sort_key(&self) -> Seq<char> {
        self.name
    }
}

impl<'a> Keyed for Entry<'a> {
    open spec fn sort_key(&self) -> Seq<char> {
        self@.name
    }
}

impl<'a> KeyedExec for Entry<'a> {
    fn key_str(&self) -> (k: &str) {
        entry_name(self)
    }
}

/// The name an entry is listed under.
pub fn entry_name<'a>(e: &Entry<'a>) -> (name: &'a str)
    ensures
        name@ == e@.name,
{
    match e {
        Entry::Group(name, _) => name,
        Entry::Repo(name) => name,
    }
}

/// The entries of a node's subgroups, in the node's order.
pub open spec fn group_entries(n: Node) -> Seq<EntryView> {
    Seq::new(
        n.children@.len(),
        |i: int| EntryView { name: n.children@[i].name@, child: Some(n.children@[i].node) },
    )
}

/// The entries of a node's repositories, in the node's order.
pub open spec fn repo_entries(n: Node) -> Seq<EntryView> {
    Seq::new(n.repos@.len(), |i: int| EntryView { name: n.repos@[i]@, child: None })
}

/// A node's listing: its subgroups, then its repositories sorted by name,
/// all sorted stably by name (a subgroup comes before a repository of the
/// same name).
pub open spec fn entries(n: Node) -> Seq<EntryView> {
    stable_sort(group_entries(n) + stable_sort(repo_entries(n)))
}

/// `c` is the subtree of one of the subgroups of `n`.
pub open spec fn is_child(n: Node, c: Node) -> bool {
    exists|k: int| 0 <= k < n.children@.len() && n.children@[k].node == c
}

/// The connector drawn before an entry: the last entry closes the branch.
pub open spec fn connector(last: bool) -> Seq<char> {
    if last {
        "└── "@
    } else {
        "├── "@
    }
}

/// What the lines below an entry are indented with.
pub open spec fn indent(last: bool) -> Seq<char> {
    if last {
        "    "@
    } else {
        "│   "@
    }
}

/// The lines for the entries of `n` from the `i`-th on, each after
/// `prefix`: a subgroup as its name and `/`, followed by its own listing one
/// level deeper; a repository as its name.
pub open spec fn render_from(n: Node, prefix: Seq<char>, i: int) -> Seq<Seq<char>>
    decreases n, entries(n).len() - i,
{
    let es = entries(n);
    if i < 0 || i >= es.len() {
        seq![]
    } else {
        let e = es[i];
        let last = i + 1 == es.len();
        let head = prefix + connector(last) + e.name;
        match e.child {
            Some(c) => if is_child(n, c) {
                let k = choose|k: int| 0 <= k < n.children@.len() && n.children@[k].node == c;
                proof {
                    assert(decreases_to!(n => n.children@[k].node));
                }
                seq![head + "/"@] + render_from(n.children@[k].node, prefix + indent(last), 0)
                    + render_from(n, prefix, i + 1)
            } else {
                seq![]
            },
            None => seq![head] + render_from(n, prefix, i + 1),
        }
    }
}

/// The entry views of a sequence of entries.
pub open spec fn entry_views<'a>(es: Seq<Entry<'a>>) -> Seq<EntryView> {
    es.map_values(|e: Entry<'a>| e@)
}

proof fn lemma_entry_views_sort<'a>(es: Seq<Entry<'a>>)
    ensures
        entry_views(stable_sort(es)) == stable_sort(entry_views(es)),
{
    let f = |e: Entry<'a>| e@;
    assert forall|x: Entry<'a>| #[trigger] f(x).sort_key() == x.sort_key() by {}
    lemma_sort_map(es, f);
}

/// An entry of a node's listing that has a subtree is one of its subgroups.
proof fn lemma_entry_child(n: Node, i: int)
    requires
        0 <= i < entries(n).len(),
        entries(n)[i].child is Some,
    ensures
        is_child(n, entries(n)[i].child.unwrap()),
{
    let ge = group_entries(n);
    let sr = stable_sort(repo_entries(n));
    let all = ge + sr;
    lemma_sort_contains(all, i);
    let e = entries(n)[i];
    let j = choose|j: int| 0 <= j < all.len() && all[j] == e;
    if j < ge.len() {
        assert(all[j] == ge[j]);
        assert(n.children@[j].node == e.child.unwrap());
    } else {
        assert(all[j] == sr[j - ge.len()]);
        lemma_sort_contains(repo_entries(n), j - ge.len());
        let m = choose|m: int| 0 <= m < repo_entries(n).len() && repo_entries(n)[m] == e;
        assert(repo_entries(n)[m].child is None);
    }
}

/// Two entries that show the same: the same name, and subtrees that hold
/// the same when they are subgroups.
pub open spec fn same_entry(x: EntryView, y: EntryView) -> bool {
    &&& x.name == y.name
    &&& match x.child {
        Some(c) => match y.child {
            Some(d) => same_tree(c, d),
            None => false,
        },
        None => y.child is None,
    }
}

/// Trees that hold the same have corresponding listings, entry by entry.
proof fn lemma_same_entries(a: Node, b: Node)
    requires
        same_tree(a, b),
    ensures
        related(entries(a), entries(b), |x: EntryView, y: EntryView| same_entry(x, y)),
{
    let r = |x: EntryView, y: EntryView| same_entry(x, y);
    let ga = group_entries(a);
    let gb = group_entries(b);
    let ra = repo_entries(a);
    let rb = repo_entries(b);
    assert forall|x: EntryView, y: EntryView| #[trigger] r(x, y) implies x.sort_key()
        == y.sort_key() by {}
    assert(related(ga, gb, r)) by {
        assert forall|i: int| 0 <= i < ga.len() implies r(#[trigger] ga[i], gb[i]) by {
            assert(a.children@[i].name@ == b.children@[i].name@);
            assert(same_tree(a.children@[i].node, b.children@[i].node));
        }
    }
    assert(related(ra, rb, r)) by {
        assert(views(a.repos@).len() == views(b.repos@).len());
        assert forall|i: int| 0 <= i < ra.len() implies r(#[trigger] ra[i], rb[i]) by {
            assert(views(a.repos@)[i] == views(b.repos@)[i]);
        }
    }
    lemma_sort_related(ra, rb, r);
    let sa = stable_sort(ra);
    let sb = stable_sort(rb);
    assert(related(ga + sa, gb + sb, r)) by {
        assert forall|i: int| 0 <= i < (ga + sa).len() implies r(#[trigger] (ga + sa)[i], (gb
            + sb)[i]) by {
            if i < ga.len() {
                assert(r(ga[i], gb[i]));
            } else {
                assert(r(sa[i - ga.len()], sb[i - ga.len()]));
            }
        }
    }
    lemma_sort_related(ga + sa, gb + sb, r);
}

/// Trees that hold the same are listed alike.
proof fn lemma_render_same(a: Node, b: Node, p: Seq<char>, i: int)
    requires
        same_tree(a, b),
    ensures
        render_from(a, p, i) == render_from(b, p, i),
    decreases a, entries(a).len() - i,
{
    let ea = entries(a);
    let eb = entries(b);
    lemma_same_entries(a, b);
    if 0 <= i < ea.len() {
        assert(same_entry(ea[i], eb[i]));
        let last = i + 1 == ea.len();
        match ea[i].child {
            Some(c) => {
                let d = eb[i].child.unwrap();
                lemma_entry_child(a, i);
                lemma_entry_child(b, i);
                let ka = choose|k: int| 0 <= k < a.children@.len() && a.children@[k].node == c;
                let kb = choose|k: int| 0 <= k < b.children@.len() && b.children@[k].node == d;
                assert(decreases_to!(a => a.children@[ka].node));
                lemma_render_same(a.children@[ka].node, b.children@[kb].node, p + indent(last), 0);
                lemma_render_same(a, b, p, i + 1);
            },
            None => {
                lemma_render_same(a, b, p, i + 1);
            },
        }
    }
}

/// The listing of a child tree depends on the root, the groups and the
/// projects it is built from, and on nothing else.
pub proof fn lemma_built_from_renders_alike(
    t1: Node,
    t2: Node,
    root: Seq<char>,
    groups: Seq<Group>,
    projects: Seq<Project>,
    prefix: Seq<char>,
)
    requires
        built_from(t1, root, groups, projects),
        built_from(t2, root, groups, projects),
    ensures
        same_tree(t1, t2),
        render_from(t1, prefix, 0) == render_from(t2, prefix, 0),
{
    assert forall|q: Seq<Seq<char>>| #[trigger] subtree(t1, q) is Some <==> subtree(
        t2,
        q,
    ) is Some by {
        assert(subtree(t1, q) is Some <==> tree_contains(q, root, groups, projects));
        assert(subtree(t2, q) is Some <==> tree_contains(q, root, groups, projects));
    }
    assert forall|q: Seq<Seq<char>>| #[trigger] repos_at(t1, q) == repos_at(t2, q) by {
        assert(repos_at(t1, q) == repos_below(q, root, projects));
        assert(repos_at(t2, q) == repos_below(q, root, projects));
    }
    lemma_paths_determine_tree(t1, t2);
    lemma_render_same(t1, t2, prefix, 0);
}

/// Some group of `groups` has the full path `x`.
pub open spec fn has_full_path(groups: Seq<Group>, x: Seq<char>) -> bool {
    exists|j: int| 0 <= j < groups.len() && (#[trigger] groups[j]).full_path@ == x
}

/// The tree does not depend on the order of the groups, nor on a group
/// given twice: trees built from groups with the same full paths, and the
/// same projects, hold the same and are listed alike.
pub proof fn lemma_tree_ignores_group_order(
    t1: Node,
    t2: Node,
    root: Seq<char>,
    groups1: Seq<Group>,
    groups2: Seq<Group>,
    projects: Seq<Project>,
    prefix: Seq<char>,
)
    requires
        built_from(t1, root, groups1, projects),
        built_from(t2, root, groups2, projects),
        forall|i: int| 0 <= i < groups1.len() ==> has_full_path(groups2, (#[trigger] groups1[i]).full_path@),
        forall|j: int| 0 <= j < groups2.len() ==> has_full_path(groups1, (#[trigger] groups2[j]).full_path@),
    ensures
        same_tree(t1, t2),
        render_from(t1, prefix, 0) == render_from(t2, prefix, 0),
{
    assert forall|q: Seq<Seq<char>>| #[trigger] subtree(t1, q) is Some <==> subtree(
        t2,
        q,
    ) is Some by {
        if under_groups(q, root, groups1) {
            let i = choose|i: int|
                0 <= i < groups1.len() && group_segs(root, #[trigger] groups1[i]).len() > 0
                    && is_prefix(q, group_segs(root, groups1[i]));
            assert(has_full_path(groups2, groups1[i].full_path@));
            let j = choose|j: int|
                0 <= j < groups2.len() && (#[trigger] groups2[j]).full_path@ == groups1[i].full_path@;
            assert(group_segs(root, groups2[j]) == group_segs(root, groups1[i]));
            assert(under_groups(q, root, groups2));
        }
        if under_groups(q, root, groups2) {
            let j = choose|j: int|
                0 <= j < groups2.len() && group_segs(root, #[trigger] groups2[j]).len() > 0
                    && is_prefix(q, group_segs(root, groups2[j]));
            assert(has_full_path(groups1, groups2[j].full_path@));
            let i = choose|i: int|
                0 <= i < groups1.len() && (#[trigger] groups1[i]).full_path@ == groups2[j].full_path@;
            assert(group_segs(root, groups1[i]) == group_segs(root, groups2[j]));
            assert(under_groups(q, root, groups1));
        }
        assert(subtree(t1, q) is Some <==> tree_contains(q, root, groups1, projects));
        assert(subtree(t2, q) is Some <==> tree_contains(q, root, groups2, projects));
    }
    assert forall|q: Seq<Seq<char>>| #[trigger] repos_at(t1, q) == repos_at(t2, q) by {
        assert(repos_at(t1, q) == repos_below(q, root, projects));
        assert(repos_at(t2, q) == repos_below(q, root, projects));
    }
    lemma_paths_determine_tree(t1, t2);
    lemma_render_same(t1, t2, prefix, 0);
}

/// `lines`, each after `prefix`.
pub open spec fn shifted(lines: Seq<Seq<char>>, prefix: Seq<char>) -> Seq<Seq<char>> {
    lines.map_values(|l: Seq<char>| prefix + l)
}

proof fn lemma_shifted_concat(a: Seq<Seq<char>>, b: Seq<Seq<char>>, p: Seq<char>)
    ensures
        shifted(a + b, p) == shifted(a, p) + shifted(b, p),
{
    assert(shifted(a + b, p) =~= shifted(a, p) + shifted(b, p));
}

proof fn lemma_shifted_twice(a: Seq<Seq<char>>, p: Seq<char>, q: Seq<char>)
    ensures
        shifted(shifted(a, q), p) == shifted(a, p + q),
{
    assert forall|j: int| 0 <= j < a.len() implies #[trigger] shifted(shifted(a, q), p)[j] == shifted(
        a,
        p + q,
    )[j] by {
        assert(p + (q + a[j]) =~= (p + q) + a[j]);
    }
    assert(shifted(shifted(a, q), p) =~= shifted(a, p + q));
}

/// A listing drawn after a prefix is the listing drawn at the left margin
/// with the prefix put in front of every line. So the lines of a
/// subgroup's subtree, drawn after its entry's prefix followed by `│   `
/// (or `    ` under the last entry), extend that prefix and never come
/// before it.
pub proof fn lemma_render_shift(n: Node, prefix: Seq<char>, i: int)
    ensures
        render_from(n, prefix, i) == shifted(render_from(n, Seq::<char>::empty(), i), prefix),
    decreases n, entries(n).len() - i,
{
    let es = entries(n);
    let z = Seq::<char>::empty();
    if 0 <= i < es.len() {
        let e = es[i];
        let last = i + 1 == es.len();
        lemma_render_shift(n, prefix, i + 1);
        let head_p = prefix + connector(last) + e.name;
        let head_z = z + connector(last) + e.name;
        assert(prefix + head_z =~= head_p);
        match e.child {
            Some(c) => {
                lemma_entry_child(n, i);
                let k = choose|k: int| 0 <= k < n.children@.len() && n.children@[k].node == c;
                assert(decreases_to!(n => n.children@[k].node));
                let ck = n.children@[k].node;
                lemma_render_shift(ck, prefix + indent(last), 0);
                lemma_render_shift(ck, z + indent(last), 0);
                assert(z + indent(last) =~= indent(last));
                assert(prefix + indent(last) =~= prefix + (z + indent(last)));
                let base = render_from(ck, z, 0);
                lemma_shifted_twice(base, prefix, z + indent(last));
                let top = seq![head_z + "/"@];
                assert(prefix + (head_z + "/"@) =~= head_p + "/"@);
                assert(shifted(top, prefix) =~= seq![head_p + "/"@]);
                lemma_shifted_concat(top, render_from(ck, z + indent(last), 0), prefix);
                lemma_shifted_concat(
                    top + render_from(ck, z + indent(last), 0),
                    render_from(n, z, i + 1),
                    prefix,
                );
            },
            None => {
                let top = seq![head_z];
                assert(shifted(top, prefix) =~= seq![head_p]);
                lemma_shifted_concat(top, render_from(n, z, i + 1), prefix);
            },
        }
    } else {
        assert(shifted(Seq::<Seq<char>>::empty(), prefix) =~= Seq::<Seq<char>>::empty());
    }
}

/// How one entry of a node's listing is drawn after `prefix`: its own line,
/// `├── ` (or `└── ` for the last entry) and its name, with `/` for a
/// subgroup; then, for a subgroup, its whole listing with each line after
/// `prefix` and `│   ` (or `    ` under the last entry); then the
/// entries that follow.
pub proof fn lemma_render_entry(n: Node, prefix: Seq<char>, i: int)
    requires
        0 <= i < entries(n).len(),
    ensures
        ({
            let e = entries(n)[i];
            let last = i + 1 == entries(n).len();
            let conn = if last {
                "└── "@
            } else {
                "├── "@
            };
            let ind = if last {
                "    "@
            } else {
                "│   "@
            };
            match e.child {
                Some(c) => render_from(n, prefix, i) == seq![prefix + conn + e.name + "/"@] + shifted(
                    render_from(c, Seq::<char>::empty(), 0),
                    prefix + ind,
                ) + render_from(n, prefix, i + 1),
                None => render_from(n, prefix, i) == seq![prefix + conn + e.name] + render_from(
                    n,
                    prefix,
                    i + 1,
                ),
            }
        }),
{
    let e = entries(n)[i];
    let last = i + 1 == entries(n).len();
    match e.child {
        Some(c) => {
            lemma_entry_child(n, i);
            let k = choose|k: int| 0 <= k < n.children@.len() && n.children@[k].node == c;
            lemma_render_shift(c, prefix + indent(last), 0);
        },
        None => {},
    }
}

/// Every line of a listing drawn after a prefix starts with that prefix.
pub proof fn lemma_render_keeps_prefix(n: Node, prefix: Seq<char>)
    ensures
        forall|j: int|
            0 <= j < render_from(n, prefix, 0).len() ==> prefix.len() <= (#[trigger] render_from(
                n,
                prefix,
                0,
            )[j]).len() && render_from(n, prefix, 0)[j].take(prefix.len() as int) == prefix,
{
    lemma_render_shift(n, prefix, 0);
    let base = render_from(n, Seq::<char>::empty(), 0);
    assert forall|j: int| 0 <= j < render_from(n, prefix, 0).len() implies prefix.len() <= (
    #[trigger] render_from(n, prefix, 0)[j]).len() && render_from(n, prefix, 0)[j].take(
        prefix.len() as int,
    ) == prefix by {
        assert(render_from(n, prefix, 0)[j] == prefix + base[j]);
        assert((prefix + base[j]).take(prefix.len() as int) =~= prefix);
    }
}

/// How many lines list `n`: one for each subgroup and each repository
/// below it, at any depth.
pub open spec fn tree_lines(n: Node) -> nat
    decreases n, n.children@.len() + 1,
{
    n.repos@.len() + subgroup_lines(n, 0)
}

/// The lines for the subgroups of `n` from the `k`-th on: one for each,
/// followed by the lines of its subtree.
pub open spec fn subgroup_lines(n: Node, k: int) -> nat
    decreases n, n.children@.len() - k,
{
    if k < 0 || k >= n.children@.len() {
        0
    } else {
        proof {
            assert(decreases_to!(n => n.children@[k].node));
        }
        1 + tree_lines(n.children@[k].node) + subgroup_lines(n, k + 1)
    }
}

/// The lines one entry takes: its own and, for a subgroup, those of its
/// subtree.
spec fn entry_lines(e: EntryView) -> nat {
    1 + match e.child {
        Some(c) => tree_lines(c),
        None => 0,
    }
}

spec fn entries_lines(es: Seq<EntryView>) -> nat
    decreases es.len(),
{
    if es.len() == 0 {
        0
    } else {
        entry_lines(es[0]) + entries_lines(es.drop_first())
    }
}

proof fn lemma_lines_append(a: Seq<EntryView>, b: Seq<EntryView>)
    ensures
        entries_lines(a + b) == entries_lines(a) + entries_lines(b),
    decreases a.len(),
{
    if a.len() == 0 {
        assert(a + b =~= b);
    } else {
        assert((a + b).drop_first() =~= a.drop_first() + b);
        assert((a + b)[0] == a[0]);
        lemma_lines_append(a.drop_first(), b);
    }
}

proof fn lemma_lines_single(x: EntryView)
    ensures
        entries_lines(seq![x]) == entry_lines(x),
{
    assert(seq![x].drop_first() =~= Seq::<EntryView>::empty());
    assert(entries_lines(Seq::<EntryView>::empty()) == 0);
    assert(seq![x][0] == x);
}

proof fn lemma_lines_insert(s: Seq<EntryView>, x: EntryView)
    ensures
        entries_lines(insert_by_key(s, x)) == entries_lines(s) + entry_lines(x),
    decreases s.len(),
{
    lemma_lines_single(x);
    if s.len() == 0 {
    } else {
        let dl = s.drop_last();
        lemma_lines_single(s.last());
        lemma_lines_append(dl, seq![s.last()]);
        assert(dl.push(s.last()) =~= s);
        assert(dl + seq![s.last()] =~= s);
        if !chars_lt(x.sort_key(), s.last().sort_key()) {
            lemma_lines_append(s, seq![x]);
            assert(s.push(x) =~= s + seq![x]);
        } else {
            lemma_lines_insert(dl, x);
            let a = insert_by_key(dl, x);
            lemma_lines_append(a, seq![s.last()]);
            assert(a.push(s.last()) =~= a + seq![s.last()]);
        }
    }
}

proof fn lemma_lines_sort(s: Seq<EntryView>)
    ensures
        entries_lines(stable_sort(s)) == entries_lines(s),
    decreases s.len(),
{
    if s.len() > 0 {
        let dl = s.drop_last();
        lemma_lines_sort(dl);
        lemma_lines_insert(stable_sort(dl), s.last());
        lemma_lines_single(s.last());
        lemma_lines_append(dl, seq![s.last()]);
        assert(dl + seq![s.last()] =~= s);
    }
}

proof fn lemma_lines_groups(n: Node, k: int)
    requires
        0 <= k <= n.children@.len(),
    ensures
        entries_lines(group_entries(n).skip(k)) == subgroup_lines(n, k),
    decreases n.children@.len() - k,
{
    let g = group_entries(n);
    if k < n.children@.len() {
        lemma_lines_groups(n, k + 1);
        assert(g.skip(k).drop_first() =~= g.skip(k + 1));
        assert(g.skip(k)[0] == g[k]);
    } else {
        assert(g.skip(k).len() == 0);
    }
}

proof fn lemma_lines_repos(s: Seq<EntryView>)
    requires
        forall|i: int| 0 <= i < s.len() ==> (#[trigger] s[i]).child is None,
    ensures
        entries_lines(s) == s.len(),
    decreases s.len(),
{
    if s.len() > 0 {
        assert(s[0].child is None);
        assert forall|i: int| 0 <= i < s.drop_first().len() implies (#[trigger] s.drop_first()[i]).child is None by {
            assert(s.drop_first()[i] == s[i + 1]);
        }
        lemma_lines_repos(s.drop_first());
    }
}

proof fn lemma_lines_entries(n: Node)
    ensures
        entries_lines(entries(n)) == tree_lines(n),
{
    let ge = group_entries(n);
    let re = repo_entries(n);
    lemma_lines_groups(n, 0);
    assert(ge.skip(0) =~= ge);
    lemma_lines_repos(re);
    lemma_lines_sort(re);
    lemma_lines_append(ge, stable_sort(re));
    lemma_lines_sort(ge + stable_sort(re));
}

proof fn lemma_render_len(n: Node, p: Seq<char>, i: int)
    requires
        0 <= i <= entries(n).len(),
    ensures
        render_from(n, p, i).len() == entries_lines(entries(n).skip(i)),
    decreases n, entries(n).len() - i,
{
    let es = entries(n);
    if i < es.len() {
        assert(es.skip(i).drop_first() =~= es.skip(i + 1));
        assert(es.skip(i)[0] == es[i]);
        let last = i + 1 == es.len();
        lemma_render_len(n, p, i + 1);
        match es[i].child {
            Some(c) => {
                lemma_entry_child(n, i);
                let k = choose|k: int| 0 <= k < n.children@.len() && n.children@[k].node == c;
                assert(decreases_to!(n => n.children@[k].node));
                lemma_render_len(n.children@[k].node, p + indent(last), 0);
                lemma_lines_entries(c);
                assert(entries(c).skip(0) =~= entries(c));
            },
            None => {},
        }
    } else {
        assert(es.skip(i).len() == 0);
    }
}

/// The listing of a node has one line for each subgroup and each
/// repository below it, at any depth.
pub proof fn lemma_render_line_count(n: Node, prefix: Seq<char>)
    ensures
        render_from(n, prefix, 0).len() == tree_lines(n),
{
    lemma_render_len(n, prefix, 0);
    assert(entries(n).skip(0) =~= entries(n));
    lemma_lines_entries(n);
}

/// The lines that list `n` and everything below it, each after `prefix`.
pub fn render_node(n: &Node, prefix: &str) -> (lines: Vec<String>)
    ensures
        views(lines@) == render_from(*n, prefix@, 0),
    decreases n,
{
    let mut groups_v: Vec<Entry> = Vec::new();
    let mut i: usize = 0;
    while i < n.children.len()
        invariant
            i <= n.children@.len(),
            entry_views(groups_v@) == group_entries(*n).take(i as int),
        decreases n.children.len() - i,
    {
        let nm = n.children[i].name.as_str();
        let e = Entry::Group(nm, &n.children[i].node);
        assert(nm@ == n.children@[i as int].name@);
        assert(e@ == group_entries(*n)[i as int]);
        let ghost prev = groups_v@;
        groups_v.push(e);
        assert(entry_views(groups_v@) =~= entry_views(prev).push(e@));
        assert(entry_views(groups_v@) =~= group_entries(*n).take(i + 1));
        i = i + 1;
    }
    assert(group_entries(*n).take(n.children@.len() as int) =~= group_entries(*n));
    let mut repos_v: Vec<Entry> = Vec::new();
    let mut j: usize = 0;
    while j < n.repos.len()
        invariant
            j <= n.repos@.len(),
            entry_views(repos_v@) == repo_entries(*n).take(j as int),
        decreases n.repos.len() - j,
    {
        let e = Entry::Repo(n.repos[j].as_str());
        assert(e@ == repo_entries(*n)[j as int]);
        let ghost prev = repos_v@;
        repos_v.push(e);
        assert(entry_views(repos_v@) =~= entry_views(prev).push(e@));
        assert(entry_views(repos_v@) =~= repo_entries(*n).take(j + 1));
        j = j + 1;
    }
    assert(repo_entries(*n).take(n.repos@.len() as int) =~= repo_entries(*n));
    let mut sorted_repos = sort_by_key(repos_v);
    proof {
        lemma_entry_views_sort(repos_v@);
    }
    let ghost gv = groups_v@;
    let ghost rv = sorted_repos@;
    let mut all = groups_v;
    all.append(&mut sorted_repos);
    assert(entry_views(all@) =~= entry_views(gv) + entry_views(rv));
    let ghost allv = all@;
    let sorted = sort_by_key(all);
    proof {
        lemma_entry_views_sort(allv);
    }
    assert(entry_views(sorted@) == entries(*n));
    let ghost es = entries(*n);
    let mut out: Vec<String> = Vec::new();
    let mut k: usize = 0;
    assert(views(out@) + render_from(*n, prefix@, 0) =~= render_from(*n, prefix@, 0));
    while k < sorted.len()
        invariant
            k <= sorted@.len(),
            es == entries(*n),
            entry_views(sorted@) == es,
            views(out@) + render_from(*n, prefix@, k as int) == render_from(*n, prefix@, 0),
        decreases sorted.len() - k,
    {
        let e = sorted[k];
        assert(e@ == es[k as int]);
        let last = k + 1 == sorted.len();
        let conn: &str = if last {
            "└── "
        } else {
            "├── "
        };
        assert(conn@ == connector(last));
        let ghost before = views(out@);
        match e {
            Entry::Group(name, child) => {
                proof {
                    lemma_entry_child(*n, k as int);
                }
                let ghost c = *child;
                let ghost kk = choose|kk: int|
                    0 <= kk < n.children@.len() && n.children@[kk].node == c;
                proof {
                    assert(decreases_to!(*n => n.children@[kk].node));
                }
                let mut line = concat3(prefix, conn, name);
                line.append("/");
                out.push(line);
                let ind: &str = if last {
                    "    "
                } else {
                    "│   "
                };
                assert(ind@ == indent(last));
                let child_prefix = concat2(prefix, ind);
                let mut sub = render_node(child, child_prefix.as_str());
                let ghost subv = views(sub@);
                let ghost line_v = prefix@ + connector(last) + es[k as int].name + "/"@;
                out.append(&mut sub);
                assert(views(out@) =~= before + seq![line_v] + subv);
                assert(render_from(*n, prefix@, k as int) == seq![line_v] + subv + render_from(
                    *n,
                    prefix@,
                    k + 1,
                ));
                assert(views(out@) + render_from(*n, prefix@, k + 1) =~= before + render_from(
                    *n,
                    prefix@,
                    k as int,
                ));
            },
            Entry::Repo(name) => {
                let line = concat3(prefix, conn, name);
                out.push(line);
                let ghost line_v = prefix@ + connector(last) + es[k as int].name;
                assert(views(out@) =~= before + seq![line_v]);
                assert(views(out@) + render_from(*n, prefix@, k + 1) =~= before + render_from(
                    *n,
                    prefix@,
                    k as int,
                ));
            },
        }
        k = k + 1;
    }
    assert(render_from(*n, prefix@, k as int) =~= Seq::<Seq<char>>::empty());
    assert(views(out@) =~= views(out@) + render_from(*n, prefix@, k as int));
    out
}

} // verus!
