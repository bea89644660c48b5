//! Orderings: node lists stably sorted by an integer key, and names in
//! lexicographic order.
use vstd::prelude::*;
use vstd::seq_lib::{lemma_multiset_commutative};

verus! {

broadcast use vstd::seq_lib::group_to_multiset_ensures, vstd::multiset::group_multiset_axioms;

/// Holds of the nodes whose key is `k`.
pub open spec fn key_is(keys: Seq<int>, k: int) -> spec_fn(usize) -> bool {
    |v: usize| keys[v as int] == k
}

/// `r` is `s` stably sorted by ascending key: the same nodes, keys never
/// decreasing, and the nodes of each key in the order that `s` gives them.
pub open spec fn is_stable_sort(s: Seq<usize>, r: Seq<usize>, keys: Seq<int>) -> bool {
    &&& r.to_multiset() == s.to_multiset()
    &&& forall|i: int, j: int| 0 <= i < j < r.len() ==> keys[r[i] as int] <= keys[r[j] as int]
    &&& forall|k: int| #[trigger] r.filter(key_is(keys, k)) == s.filter(key_is(keys, k))
}

/// The keys of `keys` as mathematical integers.
pub open spec fn int_keys(keys: Seq<i128>) -> Seq<int> {
    keys.map_values(|k: i128| k as int)
}

proof fn lemma_filter_single(x: usize, p: spec_fn(usize) -> bool)
    ensures
        seq![x].filter(p) == (if p(x) { seq![x] } else { Seq::<usize>::empty() }),
{
    broadcast use vstd::seq_lib::group_filter_ensures;
    assert(Seq::<usize>::empty().push(x) =~= seq![x]);
    Seq::<usize>::empty().lemma_filter_push(x, p);
    assert(Seq::<usize>::empty().filter(p).len() == 0);
    assert(Seq::<usize>::empty().filter(p) =~= Seq::<usize>::empty());
    assert(Seq::<usize>::empty().push(x) =~= seq![x]);
}

/// Returns `items` stably sorted by ascending `keys[v]`.
pub fn stable_sort_by_key(items: &Vec<usize>, keys: &Vec<i128>) -> (r: Vec<usize>)
    requires
        forall|i: int| 0 <= i < items@.len() ==> (items@[i] as int) < keys@.len(),
    ensures
        is_stable_sort(items@, r@, int_keys(keys@)),
{
    let ghost ks = int_keys(keys@);
    let mut r: Vec<usize> = Vec::new();
    let mut i: usize = 0;
    proof {
        assert(items@.subrange(0, 0) =~= r@);
    }
    while i < items.len()
        invariant
            ks == int_keys(keys@),
            forall|i: int| 0 <= i < items@.len() ==> (items@[i] as int) < keys@.len(),
            i <= items@.len(),
            forall|q: int| 0 <= q < r@.len() ==> (r@[q] as int) < keys@.len(),
            is_stable_sort(items@.subrange(0, i as int), r@, ks),
        decreases items@.len() - i,
    {
        let x = items[i];
        let kx = keys[x];
        let mut p: usize = 0;
        while p < r.len() && keys[r[p]] <= kx
            invariant
                ks == int_keys(keys@),
                p <= r@.len(),
                forall|q: int| 0 <= q < r@.len() ==> (r@[q] as int) < keys@.len(),
                forall|q: int| 0 <= q < p ==> ks[r@[q] as int] <= kx,
            decreases r@.len() - p,
        {
            p += 1;
        }
        let ghost old_r = r@;
        let ghost s = items@.subrange(0, i as int);
        proof {
            // Past the insertion point every key is larger.
            assert forall|q: int| p <= q < old_r.len() implies ks[old_r[q] as int] > kx by {
                assert(ks[old_r[p as int] as int] > kx);
                if q > p {
                    assert(ks[old_r[p as int] as int] <= ks[old_r[q] as int]);
                }
            }
        }
        r.insert(p, x);
        proof {
            let a = old_r.subrange(0, p as int);
            let b = old_r.subrange(p as int, old_r.len() as int);
            let s2 = items@.subrange(0, i as int + 1);
            assert(s2 =~= s.push(x));
            assert(r@ =~= a + seq![x] + b);
            assert(old_r =~= a + b);
            // the same nodes
            assert(r@.remove(p as int) =~= old_r);
            assert(r@.to_multiset() =~= old_r.to_multiset().insert(x)) by {
                assert(r@.contains(r@[p as int]));
            }
            // keys still ascend
            assert forall|i1: int, j1: int| 0 <= i1 < j1 < r@.len() implies ks[r@[i1] as int]
                <= ks[r@[j1] as int] by {
                if j1 < p {
                    assert(r@[i1] == old_r[i1] && r@[j1] == old_r[j1]);
                } else if j1 == p {
                    assert(r@[i1] == old_r[i1]);
                } else if i1 == p {
                    assert(r@[j1] == old_r[j1 - 1]);
                } else if i1 < p {
                    assert(r@[i1] == old_r[i1] && r@[j1] == old_r[j1 - 1]);
                } else {
                    assert(r@[i1] == old_r[i1 - 1] && r@[j1] == old_r[j1 - 1]);
                }
            }
            // each key keeps its order
            assert forall|k: int| #[trigger] r@.filter(key_is(ks, k)) == s2.filter(key_is(ks, k)) by {
                let f = key_is(ks, k);
                broadcast use vstd::seq_lib::group_filter_ensures;
                Seq::filter_distributes_over_add(a + seq![x], b, f);
                Seq::filter_distributes_over_add(a, seq![x], f);
                Seq::filter_distributes_over_add(a, b, f);
                lemma_filter_single(x, f);
                s.lemma_filter_push(x, f);
                if k == kx as int {
                    assert(b.filter(f).len() == 0) by {
                        if b.filter(f).len() > 0 {
                            let y = b.filter(f)[0];
                            b.lemma_filter_pred(f, 0);
                            assert(b.filter(f).contains(y));
                            b.lemma_filter_contains_rev(f, y);
                            assert(f(y));
                            assert(b.contains(y));
                            let q = choose|q: int| 0 <= q < b.len() && b[q] == y;
                            assert(old_r[p + q] == y);
                        }
                    }
                    assert(b.filter(f) =~= Seq::<usize>::empty());
                    assert(r@.filter(f) =~= a.filter(f).push(x));
                } else {
                    assert(r@.filter(f) =~= a.filter(f) + b.filter(f));
                }
            }
        }
        i += 1;
    }
    proof {
        assert(items@.subrange(0, items@.len() as int) =~= items@);
    }
    r
}

/// `a` comes before `b`, or equals it, in the lexicographic order of code points
/// (the order of `String`'s comparison).
pub open spec fn text_le(a: Seq<char>, b: Seq<char>) -> bool
    decreases a.len(),
{
    if a.len() == 0 {
        true
    } else if b.len() == 0 {
        false
    } else if a[0] != b[0] {
        (a[0] as int) < (b[0] as int)
    } else {
        text_le(a.drop_first(), b.drop_first())
    }
}

/// Every text comes before or equals itself.
pub proof fn lemma_text_le_reflexive(a: Seq<char>)
    ensures
        text_le(a, a),
    decreases a.len(),
{
    if a.len() > 0 {
        lemma_text_le_reflexive(a.drop_first());
    }
}

proof fn lemma_text_le_total(a: Seq<char>, b: Seq<char>)
    ensures
        text_le(a, b) || text_le(b, a),
    decreases a.len(),
{
    if a.len() > 0 && b.len() > 0 {
        if a[0] == b[0] {
            lemma_text_le_total(a.drop_first(), b.drop_first());
        } else {
            assert((a[0] as int) != (b[0] as int));
        }
    }
}

proof fn lemma_text_le_transitive(a: Seq<char>, b: Seq<char>, c: Seq<char>)
    requires
        text_le(a, b),
        text_le(b, c),
    ensures
        text_le(a, c),
    decreases a.len(),
{
    if a.len() > 0 && b.len() > 0 && c.len() > 0 && a[0] == b[0] && b[0] == c[0] {
        lemma_text_le_transitive(a.drop_first(), b.drop_first(), c.drop_first());
    }
}

/// Whether `a` comes before `b`, or equals it, in lexicographic order.
pub fn text_less_eq(a: &str, b: &str) -> (r: bool)
    ensures
        r == text_le(a@, b@),
{
    let n = a.unicode_len();
    let m = b.unicode_len();
    let mut i: usize = 0;
    proof {
        assert(a@.subrange(0, n as int) =~= a@);
        assert(b@.subrange(0, m as int) =~= b@);
    }
    while i < n && i < m
        invariant
            n == a@.len(),
            m == b@.len(),
            i <= n,
            i <= m,
            text_le(a@, b@) == text_le(a@.subrange(i as int, n as int), b@.subrange(i as int, m as int)),
        decreases n - i,
    {
        let c = a.get_char(i);
        let d = b.get_char(i);
        let ghost sa = a@.subrange(i as int, n as int);
        let ghost sb = b@.subrange(i as int, m as int);
        proof {
            assert(sa[0] == c && sb[0] == d);
        }
        if c != d {
            return (c as u32) < (d as u32);
        }
        proof {
            assert(sa.drop_first() =~= a@.subrange(i + 1, n as int));
            assert(sb.drop_first() =~= b@.subrange(i + 1, m as int));
        }
        i += 1;
    }
    i == n
}

/// The names of `names` at positions `r` never decrease.
pub open spec fn names_ascend(names: Seq<Seq<char>>, r: Seq<usize>) -> bool {
    forall|i: int, j: int| 0 <= i < j < r.len() ==> text_le(names[r[i] as int], names[r[j] as int])
}

/// The positions `0..n`, each once, in some order.
pub open spec fn is_permutation_of_range(r: Seq<usize>, n: nat) -> bool {
    &&& r.len() == n
    &&& r.no_duplicates()
    &&& forall|i: int| 0 <= i < r.len() ==> (r[i] as int) < n
    &&& forall|v: usize| (v as int) < n ==> r.contains(v)
}

/// The positions of `names` ordered by name, equal names in their given order.
pub fn order_by_name(names: &Vec<String>) -> (r: Vec<usize>)
    ensures
        is_permutation_of_range(r@, names@.len()),
        names_ascend(names@.map_values(|s: String| s@), r@),
{
    let ghost ns = names@.map_values(|s: String| s@);
    let mut r: Vec<usize> = Vec::new();
    let mut i: usize = 0;
    while i < names.len()
        invariant
            ns == names@.map_values(|s: String| s@),
            i <= names@.len(),
            r@.len() == i,
            r@.no_duplicates(),
            forall|q: int| 0 <= q < r@.len() ==> (r@[q] as int) < i,
            forall|v: usize| (v as int) < i ==> r@.contains(v),
            names_ascend(ns, r@),
        decreases names@.len() - i,
    {
        let mut p: usize = 0;
        while p < r.len() && text_less_eq(names[r[p]].as_str(), names[i].as_str())
            invariant
                ns == names@.map_values(|s: String| s@),
                i < names@.len(),
                p <= r@.len(),
                forall|q: int| 0 <= q < r@.len() ==> (r@[q] as int) < i,
                forall|q: int| 0 <= q < p ==> text_le(ns[r@[q] as int], ns[i as int]),
            decreases r@.len() - p,
        {
            p += 1;
        }
        let ghost old_r = r@;
        proof {
            assert forall|q: int| p <= q < old_r.len() implies text_le(ns[i as int], ns[old_r[q] as int]) by {
                lemma_text_le_total(ns[i as int], ns[old_r[p as int] as int]);
                if q > p {
                    lemma_text_le_transitive(ns[i as int], ns[old_r[p as int] as int], ns[old_r[q] as int]);
                }
            }
        }
        r.insert(p, i);
        proof {
            assert forall|i1: int, j1: int| 0 <= i1 < j1 < r@.len() implies text_le(ns[r@[i1] as int], ns[r@[j1] as int]) by {
                if j1 < p {
                    assert(r@[i1] == old_r[i1] && r@[j1] == old_r[j1]);
                } else if j1 == p {
                    assert(r@[i1] == old_r[i1]);
                } else if i1 == p {
                    assert(r@[j1] == old_r[j1 - 1]);
                } else if i1 < p {
                    assert(r@[i1] == old_r[i1] && r@[j1] == old_r[j1 - 1]);
                } else {
                    assert(r@[i1] == old_r[i1 - 1] && r@[j1] == old_r[j1 - 1]);
                }
            }
            assert forall|a: int, b: int| 0 <= a < r@.len() && 0 <= b < r@.len() && a != b implies r@[a] != r@[b] by {
                if a != p && b != p {
                    let a0 = if a < p { a } else { a - 1 };
                    let b0 = if b < p { b } else { b - 1 };
                    assert(r@[a] == old_r[a0] && r@[b] == old_r[b0]);
                } else if a == p {
                    let b0 = if b < p { b } else { b - 1 };
                    assert(r@[b] == old_r[b0]);
                } else {
                    let a0 = if a < p { a } else { a - 1 };
                    assert(r@[a] == old_r[a0]);
                }
            }
            assert forall|v: usize| (v as int) < i + 1 implies r@.contains(v) by {
                if (v as int) < i {
                    assert(old_r.contains(v));
                    let q = choose|q: int| 0 <= q < old_r.len() && old_r[q] == v;
                    if q < p {
                        assert(r@[q] == v);
                    } else {
                        assert(r@[q + 1] == v);
                    }
                } else {
                    assert(r@[p as int] == v);
                }
            }
            assert forall|q: int| 0 <= q < r@.len() implies (r@[q] as int) < i + 1 by {
                if q < p { assert(r@[q] == old_r[q]); } else if q > p { assert(r@[q] == old_r[q - 1]); }
            }
        }
        i += 1;
    }
    r
}

/// Two elements of `s` that `p` keeps appear in `s.filter(p)` in the order
/// they have in `s`.
proof fn lemma_filter_keeps_order(s: Seq<usize>, p: spec_fn(usize) -> bool, i: int, j: int)
    requires
        0 <= i < j < s.len(),
        p(s[i]),
        p(s[j]),
    ensures
        exists|a: int, b: int|
            0 <= a < b < s.filter(p).len() && s.filter(p)[a] == s[i] && s.filter(p)[b] == s[j],
    decreases s.len(),
{
    broadcast use vstd::seq_lib::group_filter_ensures;
    let d = s.drop_last();
    assert(d.push(s.last()) =~= s);
    d.lemma_filter_push(s.last(), p);
    if j == s.len() - 1 {
        assert(d[i] == s[i]);
        d.lemma_filter_contains(p, i);
        let a = choose|a: int| 0 <= a < d.filter(p).len() && d.filter(p)[a] == s[i];
        let b = d.filter(p).len() as int;
        assert(s.filter(p)[a] == s[i] && s.filter(p)[b] == s[j]);
    } else {
        assert(d[i] == s[i] && d[j] == s[j]);
        lemma_filter_keeps_order(d, p, i, j);
        let (a, b) = choose|a: int, b: int|
            0 <= a < b < d.filter(p).len() && d.filter(p)[a] == d[i] && d.filter(p)[b] == d[j];
        assert(s.filter(p)[a] == s[i] && s.filter(p)[b] == s[j]);
    }
}

/// Filtering keeps a sequence free of duplicates.
proof fn lemma_filter_no_duplicates(s: Seq<usize>, p: spec_fn(usize) -> bool)
    requires
        s.no_duplicates(),
    ensures
        s.filter(p).no_duplicates(),
    decreases s.len(),
{
    broadcast use vstd::seq_lib::group_filter_ensures;
    if s.len() > 0 {
        let d = s.drop_last();
        assert(d.push(s.last()) =~= s);
        d.lemma_filter_push(s.last(), p);
        lemma_filter_no_duplicates(d, p);
        if p(s.last()) {
            if d.filter(p).contains(s.last()) {
                d.lemma_filter_contains_rev(p, s.last());
                let q = choose|q: int| 0 <= q < d.len() && d[q] == s.last();
                assert(s[q] == s[s.len() - 1]);
            }
        }
    }
}

/// A stable sort keeps two elements of equal key in their order.
pub proof fn lemma_stable_sort_keeps_ties(s: Seq<usize>, r: Seq<usize>, keys: Seq<int>, i: int, j: int)
    requires
        is_stable_sort(s, r, keys),
        s.no_duplicates(),
        0 <= i < j < s.len(),
        keys[s[i] as int] == keys[s[j] as int],
    ensures
        exists|a: int, b: int| 0 <= a < b < r.len() && r[a] == s[i] && r[b] == s[j],
{
    broadcast use vstd::seq_lib::group_to_multiset_ensures;
    let x = s[i];
    let y = s[j];
    let f = key_is(keys, keys[x as int]);
    assert(r.filter(f) == s.filter(f));
    lemma_filter_keeps_order(s, f, i, j);
    lemma_filter_no_duplicates(s, f);
    let ff = s.filter(f);
    let (c, d) = choose|c: int, d: int| 0 <= c < d < ff.len() && ff[c] == x && ff[d] == y;
    assert(s.contains(x) && s.contains(y));
    assert(s.to_multiset().count(x) > 0 && s.to_multiset().count(y) > 0);
    assert(r.contains(x) && r.contains(y));
    let a = choose|a: int| 0 <= a < r.len() && r[a] == x;
    let b = choose|b: int| 0 <= b < r.len() && r[b] == y;
    assert(x != y);
    if b < a {
        lemma_filter_keeps_order(r, f, b, a);
        let (a2, b2) = choose|a2: int, b2: int|
            0 <= a2 < b2 < r.filter(f).len() && r.filter(f)[a2] == r[b] && r.filter(f)[b2] == r[a];
        assert(ff[a2] == y && ff[b2] == x);
        assert(a2 == d && b2 == c);
    }
}

} // verus!
