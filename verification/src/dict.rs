//! Verified operations on string-keyed association vectors.

use vstd::prelude::*;

use crate::text::{lemma_lex_refl, lemma_lex_total, lemma_lex_trans, lex_le, str_eq, str_le};
use crate::types::{idx_of, keys_unique, map_has, map_val};

verus! {

/// Index of the first entry under key `k`, if any.
pub fn dict_find<V>(m: &Vec<(String, V)>, k: &str) -> (r: Option<usize>)
    ensures
        match r {
            Some(i) => i < m@.len() && m@[i as int].0@ == k@ && forall|j: int|
                0 <= j < i ==> m@[j].0@ != k@,
            None => !map_has(m@, k@),
        },
{
    let n = m.len();
    let mut i: usize = 0;
    while i < n
        invariant
            n == m.len(),
            i <= n,
            forall|j: int| 0 <= j < i ==> m@[j].0@ != k@,
        decreases n - i,
    {
        if str_eq(m[i].0.as_str(), k) {
            return Some(i);
        }
        i += 1;
    }
    None
}

/// Whether the map has an entry under key `k`.
pub fn dict_contains<V>(m: &Vec<(String, V)>, k: &str) -> (r: bool)
    ensures
        r == map_has(m@, k@),
{
    match dict_find(m, k) {
        Some(_) => true,
        None => false,
    }
}

/// A reference to the value under key `k`, if any.
pub fn dict_get<'a, V>(m: &'a Vec<(String, V)>, k: &str) -> (r: Option<&'a V>)
    ensures
        match r {
            Some(v) => map_has(m@, k@) && (keys_unique(m@) ==> *v == map_val(m@, k@)),
            None => !map_has(m@, k@),
        },
{
    match dict_find(m, k) {
        Some(i) => {
            proof {
                if keys_unique(m@) {
                    let j = idx_of(m@, k@);
                    assert(0 <= j < m@.len() && m@[j].0@ == k@);
                    assert(j == i as int);
                }
            }
            Some(&m[i].1)
        },
        None => None,
    }
}

/// Replace the value of entry `i`, keeping its key.
pub fn dict_set_at<V>(m: &mut Vec<(String, V)>, i: usize, v: V)
    requires
        i < old(m)@.len(),
    ensures
        final(m)@ == old(m)@.update(i as int, (old(m)@[i as int].0, v)),
{
    let (k, _old_v) = m.remove(i);
    m.insert(i, (k, v));
    proof {
        assert(m@ =~= old(m)@.update(i as int, (old(m)@[i as int].0, v)));
    }
}

/// Insert a value under a key, replacing the value if the key exists,
/// appending a new entry otherwise.
pub fn dict_insert<V>(m: &mut Vec<(String, V)>, k: String, v: V)
    requires
        keys_unique(old(m)@),
    ensures
        keys_unique(final(m)@),
        map_has(old(m)@, k@) ==> final(m)@ == old(m)@.update(idx_of(old(m)@, k@), (k, v)),
        !map_has(old(m)@, k@) ==> final(m)@ == old(m)@.push((k, v)),
        map_has(final(m)@, k@),
        final(m)@.len() == old(m)@.len() + (if map_has(old(m)@, k@) { 0int } else { 1int }),
{
    let ghost m0 = m@;
    match dict_find(m, k.as_str()) {
        Some(i) => {
            proof {
                let j = idx_of(m0, k@);
                assert(0 <= j < m0.len() && m0[j].0@ == k@);
                assert(j == i as int);
            }
            let _ = m.remove(i);
            m.insert(i, (k, v));
            proof {
                assert(m@ =~= m0.update(i as int, (k, v)));
                assert(m@[i as int].0@ == k@);
            }
        },
        None => {
            m.push((k, v));
            proof {
                assert(m@[m0.len() as int].0@ == k@);
            }
        },
    }
}

/// Remove the entry under key `k`, if any, and return its value.
pub fn dict_remove<V>(m: &mut Vec<(String, V)>, k: &str) -> (r: Option<V>)
    requires
        keys_unique(old(m)@),
    ensures
        keys_unique(final(m)@),
        map_has(old(m)@, k@) ==> final(m)@ == old(m)@.remove(idx_of(old(m)@, k@)) && r == Some(
            map_val(old(m)@, k@),
        ),
        !map_has(old(m)@, k@) ==> final(m)@ == old(m)@ && r is None,
        !map_has(final(m)@, k@),
{
    let ghost m0 = m@;
    match dict_find(m, k) {
        Some(i) => {
            proof {
                let j = idx_of(m0, k@);
                assert(0 <= j < m0.len() && m0[j].0@ == k@);
                assert(j == i as int);
            }
            let (_k, v) = m.remove(i);
            proof {
                assert forall|a: int| 0 <= a < m@.len() implies m@[a].0@ != k@ by {
                    if a < i {
                        assert(m@[a] == m0[a]);
                    } else {
                        assert(m@[a] == m0[a + 1]);
                    }
                }
            }
            Some(v)
        },
        None => None,
    }
}

/// The keys of the map, as owned strings, in entry order.
pub fn dict_keys<V>(m: &Vec<(String, V)>) -> (r: Vec<String>)
    ensures
        r@.len() == m@.len(),
        forall|i: int| 0 <= i < m@.len() ==> r@[i] == m@[i].0,
{
    let n = m.len();
    let mut r: Vec<String> = Vec::new();
    let mut i: usize = 0;
    while i < n
        invariant
            n == m.len(),
            i <= n,
            r@.len() == i,
            forall|j: int| 0 <= j < i ==> r@[j] == m@[j].0,
        decreases n - i,
    {
        r.push(m[i].0.clone());
        i += 1;
    }
    r
}

/// The views of a sequence of strings.
pub open spec fn views_of(s: Seq<String>) -> Seq<Seq<char>> {
    s.map_values(|x: String| x@)
}

/// The lexicographic order as a first-class relation.
pub open spec fn lex_leq_fn() -> spec_fn(Seq<char>, Seq<char>) -> bool {
    |a: Seq<char>, b: Seq<char>| lex_le(a, b)
}

pub proof fn lemma_lex_total_ordering()
    ensures
        vstd::relations::total_ordering(lex_leq_fn()),
{
    let r = lex_leq_fn();
    assert forall|a: Seq<char>| #[trigger] r(a, a) by {
        lemma_lex_refl(a);
    }
    assert forall|a: Seq<char>, b: Seq<char>| #[trigger] r(a, b) && #[trigger] r(b, a) implies a
        == b by {
        crate::text::lemma_lex_antisym(a, b);
    }
    assert forall|a: Seq<char>, b: Seq<char>, c: Seq<char>|
        #[trigger] r(a, b) && #[trigger] r(b, c) implies r(a, c) by {
        lemma_lex_trans(a, b, c);
    }
    assert forall|a: Seq<char>, b: Seq<char>| !(#[trigger] r(a, b)) implies r(b, a) by {
        lemma_lex_total(a, b);
    }
}

/// Whether a sequence of strings is sorted by [`lex_le`] on the views.
pub open spec fn sorted_lex(s: Seq<String>) -> bool {
    forall|i: int, j: int| 0 <= i < j < s.len() ==> lex_le(s[i]@, s[j]@)
}

/// Sort strings lexicographically by Unicode scalar value (insertion sort).
pub fn sort_strings(v: Vec<String>) -> (r: Vec<String>)
    ensures
        r@.to_multiset() == v@.to_multiset(),
        views_of(r@).to_multiset() == views_of(v@).to_multiset(),
        r@.len() == v@.len(),
        sorted_lex(r@),
{
    broadcast use vstd::seq_lib::group_to_multiset_ensures;

    let n = v.len();
    let mut out: Vec<String> = Vec::new();
    let mut i: usize = 0;
    while i < n
        invariant
            n == v.len(),
            i <= n,
            out@.len() == i,
            out@.to_multiset() == v@.subrange(0, i as int).to_multiset(),
            views_of(out@).to_multiset() == views_of(v@.subrange(0, i as int)).to_multiset(),
            sorted_lex(out@),
        decreases n - i,
    {
        let x = v[i].clone();
        let mut pos: usize = 0;
        while pos < out.len() && !str_le(x.as_str(), out[pos].as_str())
            invariant
                pos <= out@.len(),
                forall|j: int| 0 <= j < pos ==> !lex_le(x@, out@[j]@),
            decreases out@.len() - pos,
        {
            pos += 1;
        }
        let ghost out0 = out@;
        out.insert(pos, x);
        proof {
            vstd::seq_lib::to_multiset_insert(out0, pos as int, x);
            assert(v@.subrange(0, i + 1).drop_last() =~= v@.subrange(0, i as int));
            assert(v@.subrange(0, i + 1).last() == v@[i as int]);
            assert(v@.subrange(0, i + 1) =~= v@.subrange(0, i as int).push(v@[i as int]));
            vstd::seq_lib::to_multiset_build(v@.subrange(0, i as int), v@[i as int]);
            assert(out@ == out0.insert(pos as int, x));
            assert(out@.to_multiset() == out0.to_multiset().insert(x));
            assert(out@.to_multiset() =~= v@.subrange(0, i + 1).to_multiset());
            assert(views_of(out@) =~= views_of(out0).insert(pos as int, x@));
            vstd::seq_lib::to_multiset_insert(views_of(out0), pos as int, x@);
            assert(views_of(v@.subrange(0, i + 1)) =~= views_of(v@.subrange(0, i as int)).push(
                v@[i as int]@,
            ));
            vstd::seq_lib::to_multiset_build(views_of(v@.subrange(0, i as int)), v@[i as int]@);
            assert(views_of(out@).to_multiset() =~= views_of(v@.subrange(0, i + 1)).to_multiset());
            let s = out@;
            assert forall|a: int, b: int| 0 <= a < b < s.len() implies lex_le(s[a]@, s[b]@) by {
                if b < pos {
                    assert(s[a] == out0[a] && s[b] == out0[b]);
                } else if a > pos {
                    assert(s[a] == out0[a - 1] && s[b] == out0[b - 1]);
                } else if a == pos {
                    assert(s[a] == x && s[b] == out0[b - 1]);
                    if pos < out0.len() {
                        if b - 1 > pos {
                            lemma_lex_trans(x@, out0[pos as int]@, out0[b - 1]@);
                        }
                    }
                } else if b == pos {
                    assert(s[a] == out0[a] && s[b] == x);
                    lemma_lex_total(x@, out0[a]@);
                } else {
                    assert(s[a] == out0[a] && s[b] == out0[b - 1]);
                    if b - 1 == a {
                        lemma_lex_refl(out0[a]@);
                    }
                }
            }
        }
        i += 1;
    }
    proof {
        assert(v@.subrange(0, n as int) =~= v@);
    }
    out
}

} // verus!
