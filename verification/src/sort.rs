//! A stable sort by a string key, as `slice::sort_by` with a key comparison
//! does it: items with equal keys keep their relative order.
use vstd::prelude::*;
use vstd::multiset::Multiset;

use crate::text::{chars_le, chars_lt, compare_strs, lemma_le_properties, Order};

verus! {

/// Values ordered by a string key.
pub trait Keyed {
    spec fn sort_key(&self) -> Seq<char>;
}

/// Values whose key can be read at run time.
pub trait KeyedExec: Keyed {
    fn key_str(&self) -> (k: &str)
        ensures
            k@ == self.sort_key(),
    ;
}

/// Inserts `x` into `s` after the last element whose key is not greater
/// than the key of `x`.
pub open spec fn insert_by_key<T: Keyed>(s: Seq<T>, x: T) -> Seq<T>
    decreases s.len(),
{
    if s.len() == 0 {
        seq![x]
    } else if !chars_lt(x.sort_key(), s.last().sort_key()) {
        s.push(x)
    } else {
        insert_by_key(s.drop_last(), x).push(s.last())
    }
}

/// The stable sort of `s` by key.
pub open spec fn stable_sort<T: Keyed>(s: Seq<T>) -> Seq<T>
    decreases s.len(),
{
    if s.len() == 0 {
        s
    } else {
        insert_by_key(stable_sort(s.drop_last()), s.last())
    }
}

/// The keys of `s` never decrease.
pub open spec fn sorted_by_key<T: Keyed>(s: Seq<T>) -> bool {
    forall|i: int, j: int|
        0 <= i < j < s.len() ==> chars_le(#[trigger] s[i].sort_key(), #[trigger] s[j].sort_key())
}

/// Where `insert_by_key` puts `x`: after every element whose key is not
/// greater, before the run of elements with greater keys at the end.
pub proof fn lemma_insert_shape<T: Keyed>(s: Seq<T>, x: T) -> (j: int)
    ensures
        0 <= j <= s.len(),
        insert_by_key(s, x) == s.insert(j, x),
        forall|m: int| j <= m < s.len() ==> chars_lt(x.sort_key(), #[trigger] s[m].sort_key()),
        j > 0 ==> !chars_lt(x.sort_key(), s[j - 1].sort_key()),
    decreases s.len(),
{
    if s.len() == 0 {
        assert(s.insert(0, x) =~= seq![x]);
        0
    } else if !chars_lt(x.sort_key(), s.last().sort_key()) {
        assert(s.insert(s.len() as int, x) =~= s.push(x));
        s.len() as int
    } else {
        let j = lemma_insert_shape(s.drop_last(), x);
        assert(s.drop_last().insert(j, x).push(s.last()) =~= s.insert(j, x));
        assert forall|m: int| j <= m < s.len() implies chars_lt(
            x.sort_key(),
            #[trigger] s[m].sort_key(),
        ) by {
            if m < s.len() - 1 {
                assert(s[m] == s.drop_last()[m]);
            }
        }
        if j > 0 {
            assert(s[j - 1] == s.drop_last()[j - 1]);
        }
        j
    }
}

/// Sorting keeps exactly the same items: the result is a permutation.
pub proof fn lemma_sort_permutation<T: Keyed>(s: Seq<T>)
    ensures
        stable_sort(s).to_multiset() == s.to_multiset(),
        stable_sort(s).len() == s.len(),
    decreases s.len(),
{
    broadcast use vstd::seq_lib::to_multiset_insert, vstd::seq_lib::to_multiset_build, vstd::seq_lib::to_multiset_len;
    if s.len() > 0 {
        lemma_sort_permutation(s.drop_last());
        let j = lemma_insert_shape(stable_sort(s.drop_last()), s.last());
        assert(s.drop_last().push(s.last()) =~= s);
    }
}

/// Every item of the sorted sequence comes from the input.
pub proof fn lemma_sort_contains<T: Keyed>(s: Seq<T>, i: int)
    requires
        0 <= i < stable_sort(s).len(),
    ensures
        s.contains(stable_sort(s)[i]),
{
    broadcast use vstd::seq_lib::to_multiset_contains;
    lemma_sort_permutation(s);
    let r = stable_sort(s);
    assert(r.contains(r[i]));
    assert(r.to_multiset().count(r[i]) > 0);
}

/// The sorted sequence is ordered by key.
pub proof fn lemma_sort_sorted<T: Keyed>(s: Seq<T>)
    ensures
        sorted_by_key(stable_sort(s)),
    decreases s.len(),
{
    lemma_le_properties();
    if s.len() > 0 {
        lemma_sort_sorted(s.drop_last());
        let p = stable_sort(s.drop_last());
        let x = s.last();
        let j = lemma_insert_shape(p, x);
        let r = p.insert(j, x);
        p.insert_ensures(j, x);
        assert forall|a: int, b: int| 0 <= a < b < r.len() implies chars_le(
            #[trigger] r[a].sort_key(),
            #[trigger] r[b].sort_key(),
        ) by {
            if b < j {
                assert(r[a] == p[a] && r[b] == p[b]);
            } else if b == j {
                assert(r[a] == p[a]);
                assert(r[b] == x);
                assert(chars_le(p[j - 1].sort_key(), x.sort_key()));
                if a < j - 1 {
                    assert(chars_le(p[a].sort_key(), p[j - 1].sort_key()));
                }
                assert(chars_le(p[a].sort_key(), x.sort_key()));
            } else if a < j {
                assert(r[a] == p[a] && r[b] == p[b - 1]);
                assert(chars_le(p[a].sort_key(), p[b - 1].sort_key()));
            } else if a == j {
                assert(r[a] == x);
                assert(r[b] == p[b - 1]);
                assert(chars_lt(x.sort_key(), p[b - 1].sort_key()));
                crate::text::lemma_lt_asymmetric(x.sort_key(), p[b - 1].sort_key());
            } else {
                assert(r[a] == p[a - 1] && r[b] == p[b - 1]);
                assert(chars_le(p[a - 1].sort_key(), p[b - 1].sort_key()));
            }
        }
    }
}

/// Sorting by key commutes with a map that keeps keys.
pub proof fn lemma_sort_map<T: Keyed, U: Keyed>(s: Seq<T>, f: spec_fn(T) -> U)
    requires
        forall|x: T| #[trigger] f(x).sort_key() == x.sort_key(),
    ensures
        stable_sort(s).map_values(f) == stable_sort(s.map_values(f)),
    decreases s.len(),
{
    if s.len() > 0 {
        lemma_sort_map(s.drop_last(), f);
        assert(s.map_values(f).drop_last() =~= s.drop_last().map_values(f));
        lemma_insert_map(stable_sort(s.drop_last()), s.last(), f);
    } else {
        assert(s.map_values(f) =~= Seq::<U>::empty());
    }
}

proof fn lemma_insert_map<T: Keyed, U: Keyed>(s: Seq<T>, x: T, f: spec_fn(T) -> U)
    requires
        forall|x: T| #[trigger] f(x).sort_key() == x.sort_key(),
    ensures
        insert_by_key(s, x).map_values(f) == insert_by_key(s.map_values(f), f(x)),
    decreases s.len(),
{
    if s.len() == 0 {
        assert(seq![x].map_values(f) =~= seq![f(x)]);
    } else {
        assert(s.map_values(f).last() == f(s.last()));
        assert(s.map_values(f).drop_last() =~= s.drop_last().map_values(f));
        if !chars_lt(x.sort_key(), s.last().sort_key()) {
            assert(s.push(x).map_values(f) =~= s.map_values(f).push(f(x)));
        } else {
            lemma_insert_map(s.drop_last(), x, f);
            assert(insert_by_key(s.drop_last(), x).push(s.last()).map_values(f)
                =~= insert_by_key(s.drop_last(), x).map_values(f).push(f(s.last())));
        }
    }
}

/// `s` and `t` correspond item by item under `r`.
pub open spec fn related<T, U>(s: Seq<T>, t: Seq<U>, r: spec_fn(T, U) -> bool) -> bool {
    &&& s.len() == t.len()
    &&& forall|i: int| 0 <= i < s.len() ==> r(#[trigger] s[i], t[i])
}

/// Sorting two sequences whose items correspond one to one, each with an
/// item of the same key, keeps them in correspondence: the order a stable
/// sort picks depends on the keys alone.
pub proof fn lemma_sort_related<T: Keyed, U: Keyed>(s: Seq<T>, t: Seq<U>, r: spec_fn(T, U) -> bool)
    requires
        related(s, t, r),
        forall|x: T, y: U| #[trigger] r(x, y) ==> x.sort_key() == y.sort_key(),
    ensures
        related(stable_sort(s), stable_sort(t), r),
    decreases s.len(),
{
    if s.len() > 0 {
        assert(related(s.drop_last(), t.drop_last(), r)) by {
            assert forall|i: int| 0 <= i < s.drop_last().len() implies r(
                #[trigger] s.drop_last()[i],
                t.drop_last()[i],
            ) by {
                assert(r(s[i], t[i]));
            }
        }
        assert(r(s[s.len() - 1], t[t.len() - 1]));
        lemma_sort_related(s.drop_last(), t.drop_last(), r);
        lemma_insert_related(stable_sort(s.drop_last()), stable_sort(t.drop_last()), s.last(), t.last(), r);
    }
}

proof fn lemma_insert_related<T: Keyed, U: Keyed>(
    s: Seq<T>,
    t: Seq<U>,
    x: T,
    y: U,
    r: spec_fn(T, U) -> bool,
)
    requires
        related(s, t, r),
        r(x, y),
        forall|x: T, y: U| #[trigger] r(x, y) ==> x.sort_key() == y.sort_key(),
    ensures
        related(insert_by_key(s, x), insert_by_key(t, y), r),
    decreases s.len(),
{
    if s.len() == 0 {
        assert(related(seq![x], seq![y], r)) by {
            assert forall|i: int| 0 <= i < 1 implies r(#[trigger] seq![x][i], seq![y][i]) by {}
        }
    } else {
        let n = s.len() - 1;
        assert(r(s[n], t[n]));
        assert(s.last().sort_key() == t.last().sort_key());
        assert(x.sort_key() == y.sort_key());
        assert(related(s.drop_last(), t.drop_last(), r)) by {
            assert forall|i: int| 0 <= i < s.drop_last().len() implies r(
                #[trigger] s.drop_last()[i],
                t.drop_last()[i],
            ) by {
                assert(r(s[i], t[i]));
            }
        }
        if !chars_lt(x.sort_key(), s.last().sort_key()) {
            assert(related(s.push(x), t.push(y), r)) by {
                assert forall|i: int| 0 <= i < s.push(x).len() implies r(
                    #[trigger] s.push(x)[i],
                    t.push(y)[i],
                ) by {
                    if i < s.len() {
                        assert(r(s[i], t[i]));
                    }
                }
            }
        } else {
            lemma_insert_related(s.drop_last(), t.drop_last(), x, y, r);
            let a = insert_by_key(s.drop_last(), x);
            let b = insert_by_key(t.drop_last(), y);
            assert(related(a.push(s.last()), b.push(t.last()), r)) by {
                assert forall|i: int| 0 <= i < a.push(s.last()).len() implies r(
                    #[trigger] a.push(s.last())[i],
                    b.push(t.last())[i],
                ) by {
                    if i < a.len() {
                        assert(r(a[i], b[i]));
                    }
                }
            }
        }
    }
}

/// Sorts `v` stably by key.
pub fn sort_by_key<T: KeyedExec>(v: Vec<T>) -> (r: Vec<T>)
    ensures
        r@ == stable_sort(v@),
{
    let ghost orig = v@;
    let mut rest = v;
    let mut out: Vec<T> = Vec::new();
    let ghost mut k: int = 0;
    while rest.len() > 0
        invariant
            0 <= k <= orig.len(),
            rest@ == orig.skip(k),
            out@ == stable_sort(orig.take(k)),
        decreases rest.len(),
    {
        let x = rest.remove(0);
        proof {
            assert(x == orig[k]);
            assert(orig.take(k + 1).drop_last() =~= orig.take(k));
            assert(orig.take(k + 1).last() == x);
        }
        let mut j = out.len();
        assert(out@.take(j as int) =~= out@);
        assert(out@.skip(j as int) =~= Seq::<T>::empty());
        while j > 0 && compare_strs(x.key_str(), out[j - 1].key_str()) == Order::Less
            invariant
                j <= out.len(),
                insert_by_key(out@, x) == insert_by_key(out@.take(j as int), x) + out@.skip(
                    j as int,
                ),
            decreases j,
        {
            proof {
                let t = out@.take(j as int);
                assert(t.last() == out@[j - 1]);
                assert(t.drop_last() =~= out@.take(j - 1));
                assert(insert_by_key(out@.take(j - 1), x).push(out@[j - 1]) + out@.skip(j as int)
                    =~= insert_by_key(out@.take(j - 1), x) + out@.skip(j - 1));
            }
            j = j - 1;
        }
        proof {
            let t = out@.take(j as int);
            if j == 0 {
                assert(insert_by_key(t, x) =~= seq![x]);
            } else {
                assert(t.last() == out@[j - 1]);
                assert(insert_by_key(t, x) == t.push(x));
            }
            assert(insert_by_key(t, x) + out@.skip(j as int) =~= out@.insert(j as int, x));
        }
        out.insert(j, x);
        proof {
            k = k + 1;
            assert(rest@ =~= orig.skip(k));
        }
    }
    assert(orig.take(k) =~= orig);
    out
}

} // verus!
