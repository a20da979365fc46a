//! Graph sanitizer: the single component responsible for structural
//! validity of the node graph.
//!
//! Three passes, always visiting the entry node first and the remaining
//! keys in lexicographic order: duplicate collapse by content/choice
//! signature, cycle elimination by depth-first search, and reference
//! repair together with terminal-marker consistency.

use vstd::prelude::*;

use crate::dict::{
    dict_contains, dict_find, dict_insert, dict_keys, lemma_lex_total_ordering, lex_leq_fn,
    sort_strings, sorted_lex, views_of,
};
use crate::text::{lex_le, str_chars, str_concat, str_eq, str_trim, trim_of};
use crate::types::{idx_of, keys_unique, map_has, map_val, Choice, MovieTemplate, StoryNode};

verus! {

/// The signature fragment contributed by one choice.
pub open spec fn part_of(c: Choice) -> Seq<char> {
    trim_of(c.text@) + "→"@ + trim_of(c.next_node_id@)
}

/// The signature fragments of a node's choices, in choice order.
pub open spec fn parts_of(n: StoryNode) -> Seq<Seq<char>> {
    n.choices@.map_values(|c: Choice| part_of(c))
}

/// The fragments joined with `|`.
pub open spec fn join_parts(ps: Seq<Seq<char>>) -> Seq<char>
    decreases ps.len(),
{
    if ps.len() == 0 {
        Seq::empty()
    } else if ps.len() == 1 {
        ps[0]
    } else {
        ps[0] + "|"@ + join_parts(ps.drop_first())
    }
}

/// A node's duplicate-detection signature: the trimmed content and the
/// sorted choice fragments.
pub open spec fn sig_of(n: StoryNode) -> Seq<char> {
    trim_of(n.content@) + "||"@ + join_parts(parts_of(n).sort_by(lex_leq_fn()))
}

fn choice_part(c: &Choice) -> (r: String)
    ensures
        r@ == part_of(*c),
{
    let tt = str_trim(c.text.as_str());
    let ta = str_trim(c.next_node_id.as_str());
    let s1 = str_concat(tt.as_str(), "→");
    let r = str_concat(s1.as_str(), ta.as_str());
    proof {
        assert(r@ =~= part_of(*c));
    }
    r
}

fn join_with_bar(ps: &Vec<String>) -> (r: String)
    ensures
        r@ == join_parts(views_of(ps@)),
{
    let n = ps.len();
    if n == 0 {
        let r = String::new();
        proof {
            assert(r@ =~= join_parts(views_of(ps@)));
        }
        return r;
    }
    let mut r = ps[n - 1].clone();
    proof {
        assert(views_of(ps@).skip(n - 1) =~= seq![ps@[n - 1]@]);
    }
    let mut i: usize = n - 1;
    while i > 0
        invariant
            n == ps@.len(),
            i < n,
            r@ == join_parts(views_of(ps@).skip(i as int)),
        decreases i,
    {
        i -= 1;
        let s1 = str_concat(ps[i].as_str(), "|");
        r = str_concat(s1.as_str(), r.as_str());
        proof {
            let vs = views_of(ps@);
            assert(vs.skip(i as int).len() >= 2);
            assert(vs.skip(i as int).drop_first() =~= vs.skip(i + 1));
            assert(vs.skip(i as int)[0] == ps@[i as int]@);
            assert(r@ =~= vs.skip(i as int)[0] + "|"@ + join_parts(vs.skip(i + 1)));
        }
    }
    proof {
        assert(views_of(ps@).skip(0) =~= views_of(ps@));
    }
    r
}

/// The node's signature as an owned string.
pub fn node_signature(n: &StoryNode) -> (r: String)
    ensures
        r@ == sig_of(*n),
{
    let cn = n.choices.len();
    let mut parts: Vec<String> = Vec::new();
    let mut i: usize = 0;
    while i < cn
        invariant
            cn == n.choices@.len(),
            i <= cn,
            parts@.len() == i,
            forall|j: int| 0 <= j < i ==> (#[trigger] parts@[j])@ == part_of(n.choices@[j]),
        decreases cn - i,
    {
        parts.push(choice_part(&n.choices[i]));
        i += 1;
    }
    proof {
        assert(views_of(parts@) =~= parts_of(*n));
    }
    let sorted = sort_strings(parts);
    proof {
        lemma_lex_total_ordering();
        let leq = lex_leq_fn();
        parts_of(*n).lemma_sort_by_ensures(leq);
        assert(vstd::relations::sorted_by(views_of(sorted@), leq)) by {
            assert forall|a: int, b: int|
                0 <= a < b < views_of(sorted@).len() implies leq(
                views_of(sorted@)[a],
                views_of(sorted@)[b],
            ) by {
                assert(lex_le(sorted@[a]@, sorted@[b]@));
            }
        }
        vstd::seq_lib::lemma_sorted_unique(
            views_of(sorted@),
            parts_of(*n).sort_by(leq),
            leq,
        );
        assert(views_of(sorted@) == parts_of(*n).sort_by(leq));
    }
    let joined = join_with_bar(&sorted);
    let tc = str_trim(n.content.as_str());
    let s1 = str_concat(tc.as_str(), "||");
    let r = str_concat(s1.as_str(), joined.as_str());
    proof {
        assert(r@ =~= sig_of(*n));
    }
    r
}

/// The visit order of the node keys: the entry node first (the canonical
/// key `start`, or its legacy spelling `n_start` when no `start` exists),
/// then the remaining keys in lexicographic order.
pub fn visit_order(nodes: &Vec<(String, StoryNode)>) -> (r: Vec<String>)
    ensures
        r@.len() == nodes@.len(),
        views_of(r@).to_multiset() == views_of(
            nodes@.map_values(|e: (String, StoryNode)| e.0),
        ).to_multiset(),
{
    broadcast use vstd::seq_lib::group_to_multiset_ensures;

    let keys = dict_keys(nodes);
    proof {
        assert(keys@ =~= nodes@.map_values(|e: (String, StoryNode)| e.0));
    }
    let mut sorted = sort_strings(keys);
    let n = sorted.len();
    let mut entry_pos: Option<usize> = None;
    let mut i: usize = 0;
    while i < n
        invariant
            n == sorted@.len(),
            i <= n,
            match entry_pos {
                Some(p) => p < n && sorted@[p as int]@ == "start"@,
                None => true,
            },
        decreases n - i,
    {
        if str_eq(sorted[i].as_str(), "start") {
            entry_pos = Some(i);
            break;
        }
        i += 1;
    }
    if matches!(entry_pos, None) {
        let mut j: usize = 0;
        while j < n
            invariant
                n == sorted@.len(),
                j <= n,
                match entry_pos {
                    Some(p) => p < n && sorted@[p as int]@ == "n_start"@,
                    None => true,
                },
            decreases n - j,
        {
            if str_eq(sorted[j].as_str(), "n_start") {
                entry_pos = Some(j);
                break;
            }
            j += 1;
        }
    }
    let ghost sorted0 = sorted@;
    match entry_pos {
        Some(p) => {
            let e = sorted.remove(p);
            sorted.insert(0, e);
            proof {
                vstd::seq_lib::to_multiset_remove(views_of(sorted0), p as int);
                vstd::seq_lib::to_multiset_insert(
                    views_of(sorted0).remove(p as int),
                    0,
                    sorted0[p as int]@,
                );
                assert(views_of(sorted0.remove(p as int)) =~= views_of(sorted0).remove(p as int));
                assert(views_of(sorted@) =~= views_of(sorted0).remove(p as int).insert(
                    0,
                    sorted0[p as int]@,
                ));
                assert(views_of(sorted@).to_multiset() =~= views_of(sorted0).to_multiset());
            }
        },
        None => {},
    }
    sorted
}

/// How a surviving node relates to its pre-pass self: same payload, with
/// every choice target rewritten through the redirect map.
pub open spec fn node_redirected(
    red: Seq<(String, String)>,
    o: StoryNode,
    n: StoryNode,
) -> bool {
    &&& n.id == o.id
    &&& n.content == o.content
    &&& n.ending_key == o.ending_key
    &&& n.level == o.level
    &&& n.characters == o.characters
    &&& n.choices@.len() == o.choices@.len()
    &&& forall|j: int|
        0 <= j < n.choices@.len() ==> {
            &&& (#[trigger] n.choices@[j]).text == o.choices@[j].text
            &&& n.choices@[j].affinity_effect == o.choices@[j].affinity_effect
            &&& n.choices@[j].next_node_id@ == crate::normalize::mapped_key(
                red,
                o.choices@[j].next_node_id@,
            )
        }
}

/// How a survivor's marker may relate to its old one: unchanged, or, when
/// it had none, inherited from a duplicate redirected to it.
pub open spec fn marker_choice(
    red: Seq<(String, String)>,
    nodes0: Seq<(String, StoryNode)>,
    k: Seq<char>,
    okey: Option<String>,
    nkey: Option<String>,
) -> bool {
    nkey == okey || (okey is None && exists|a: int|
        0 <= a < red.len() && (#[trigger] red[a]).1@ == k && map_val(
            nodes0,
            red[a].0@,
        ).ending_key == nkey)
}

/// Full relation between a surviving entry of the output and the input.
pub open spec fn dedup_survivor_ok(
    red: Seq<(String, String)>,
    nodes0: Seq<(String, StoryNode)>,
    e: (String, StoryNode),
) -> bool {
    let o = map_val(nodes0, e.0@);
    let nn = e.1;
    &&& nn.id == o.id
    &&& nn.content == o.content
    &&& nn.level == o.level
    &&& nn.characters == o.characters
    &&& marker_choice(red, nodes0, e.0@, o.ending_key, nn.ending_key)
    &&& nn.choices@.len() == o.choices@.len()
    &&& forall|j: int|
        0 <= j < nn.choices@.len() ==> {
            &&& (#[trigger] nn.choices@[j]).text == o.choices@[j].text
            &&& nn.choices@[j].affinity_effect == o.choices@[j].affinity_effect
            &&& nn.choices@[j].next_node_id@ == crate::normalize::mapped_key(
                red,
                o.choices@[j].next_node_id@,
            )
        }
}

/// Everything of a node except its terminal marker.
pub open spec fn same_but_marker(o: StoryNode, n: StoryNode) -> bool {
    &&& n.id == o.id
    &&& n.content == o.content
    &&& n.level == o.level
    &&& n.characters == o.characters
    &&& n.choices == o.choices
}

fn clone_opt_string(o: &Option<String>) -> (r: Option<String>)
    ensures
        r == *o,
{
    match o {
        Some(s) => Some(s.clone()),
        None => None,
    }
}

/// Pass A of the sanitizer: collapse duplicate nodes.
///
/// Nodes are visited entry-first, then in lexicographic key order. The
/// first node with a given signature owns it; later nodes with the same
/// signature are deleted, every choice target that pointed at them is
/// rewritten to the owner's key, and a deleted node's terminal marker is
/// transferred to its owner when the owner has none. Returns the applied
/// redirect map (deleted key to owner key).
pub fn dedup_nodes(t: &mut MovieTemplate) -> (red: Vec<(String, String)>)
    requires
        old(t).wf(),
    ensures
        final(t).wf(),
        final(t).endings == old(t).endings,
        final(t).characters == old(t).characters,
        final(t).meta == old(t).meta,
        final(t).title == old(t).title,
        final(t).project_id == old(t).project_id,
        final(t).version == old(t).version,
        final(t).owner == old(t).owner,
        final(t).background_image_base64 == old(t).background_image_base64,
        final(t).provenance == old(t).provenance,
        keys_unique(red@),
        final(t).nodes@.len() <= old(t).nodes@.len(),
        // the redirect map pairs a deleted duplicate with its surviving owner
        forall|a: int|
            0 <= a < red@.len() ==> {
                &&& map_has(old(t).nodes@, (#[trigger] red@[a]).0@)
                &&& map_has(old(t).nodes@, red@[a].1@)
                &&& red@[a].0@ != red@[a].1@
                &&& sig_of(map_val(old(t).nodes@, red@[a].0@)) == sig_of(
                    map_val(old(t).nodes@, red@[a].1@),
                )
                &&& !map_has(final(t).nodes@, red@[a].0@)
                &&& map_has(final(t).nodes@, red@[a].1@)
            },
        // surviving nodes: exactly the old keys that are not redirected
        forall|i: int|
            0 <= i < final(t).nodes@.len() ==> map_has(
                old(t).nodes@,
                (#[trigger] final(t).nodes@[i]).0@,
            ) && !map_has(red@, final(t).nodes@[i].0@),
        forall|j: int|
            0 <= j < old(t).nodes@.len() ==> map_has(red@, (#[trigger] old(t).nodes@[j]).0@)
                || map_has(final(t).nodes@, old(t).nodes@[j].0@),
        // no two surviving nodes share a signature (with respect to the
        // signatures the nodes came in with)
        forall|i: int, j: int|
            0 <= i < j < final(t).nodes@.len() ==> sig_of(
                map_val(old(t).nodes@, (#[trigger] final(t).nodes@[i]).0@),
            ) != sig_of(map_val(old(t).nodes@, (#[trigger] final(t).nodes@[j]).0@)),
        // each surviving node keeps its payload, with targets rewritten
        // through the redirect map, except that a node without a marker may
        // have inherited one from a duplicate that redirects to it
        forall|i: int|
            0 <= i < final(t).nodes@.len() ==> dedup_survivor_ok(
                red@,
                old(t).nodes@,
                (#[trigger] final(t).nodes@[i]),
            ),
{
    broadcast use vstd::seq_lib::group_to_multiset_ensures;

    let ghost orig = t.nodes@;
    let order = visit_order(&t.nodes);
    proof {
        assert forall|j: int| 0 <= j < order@.len() implies map_has(
            orig,
            (#[trigger] order@[j])@,
        ) by {
            let vs = views_of(order@);
            assert(vs[j] == order@[j]@);
            assert(vs.contains(order@[j]@));
            assert(vs.to_multiset().count(order@[j]@) > 0);
            let ks = views_of(orig.map_values(|e: (String, StoryNode)| e.0));
            assert(ks.to_multiset().count(order@[j]@) > 0);
            assert(ks.contains(order@[j]@));
            let w = choose|w: int| 0 <= w < ks.len() && ks[w] == order@[j]@;
            assert(orig[w].0@ == order@[j]@);
        }
        assert forall|j: int| 0 <= j < orig.len() implies exists|a: int|
            0 <= a < order@.len() && (#[trigger] orig[j]).0@ == order@[a]@ by {
            let ks = views_of(orig.map_values(|e: (String, StoryNode)| e.0));
            assert(ks[j] == orig[j].0@);
            assert(ks.contains(orig[j].0@));
            assert(ks.to_multiset().count(orig[j].0@) > 0);
            let vs = views_of(order@);
            assert(vs.to_multiset().count(orig[j].0@) > 0);
            assert(vs.contains(orig[j].0@));
            let a = choose|a: int| 0 <= a < vs.len() && vs[a] == orig[j].0@;
            assert(order@[a]@ == orig[j].0@);
        }
        assert forall|a: int, b: int| 0 <= a < b < order@.len() implies (#[trigger] order@[a])@
            != (#[trigger] order@[b])@ by {
            let vs = views_of(order@);
            if vs[a] == vs[b] {
                vstd::seq_lib::to_multiset_remove(vs, a);
                assert(vs.remove(a).to_multiset().count(vs[b]) >= 1) by {
                    if b < a {
                        assert(vs.remove(a)[b] == vs[b]);
                        assert(vs.remove(a).contains(vs[b]));
                    } else {
                        assert(vs.remove(a)[b - 1] == vs[b]);
                        assert(vs.remove(a).contains(vs[b]));
                    }
                }
                assert(vs.to_multiset().count(vs[a]) >= 2);
                let ks = views_of(orig.map_values(|e: (String, StoryNode)| e.0));
                assert(ks.no_duplicates()) by {
                    assert forall|x: int, y: int|
                        0 <= x < ks.len() && 0 <= y < ks.len() && x != y implies ks[x]
                        != ks[y] by {
                        if x < y {
                            assert(orig[x].0@ != orig[y].0@);
                        } else {
                            assert(orig[y].0@ != orig[x].0@);
                        }
                    }
                }
                ks.lemma_multiset_has_no_duplicates();
                assert(false);
            }
        }
    }
    let mut owner: Vec<(String, String)> = Vec::new();
    let mut redirect: Vec<(String, String)> = Vec::new();
    let n = order.len();
    let mut i: usize = 0;
    while i < n
        invariant
            t.nodes@ == orig,
            keys_unique(orig),
            n == order@.len(),
            i <= n,
            keys_unique(owner@),
            keys_unique(redirect@),
            forall|j: int| 0 <= j < order@.len() ==> map_has(orig, (#[trigger] order@[j])@),
            forall|a: int, b: int|
                0 <= a < b < order@.len() ==> (#[trigger] order@[a])@ != (#[trigger] order@[b])@,
            forall|a: int|
                0 <= a < owner@.len() ==> {
                    &&& map_has(orig, (#[trigger] owner@[a]).1@)
                    &&& sig_of(map_val(orig, owner@[a].1@)) == owner@[a].0@
                    &&& !map_has(redirect@, owner@[a].1@)
                    &&& exists|j: int| 0 <= j < i && (#[trigger] order@[j])@ == owner@[a].1@
                },
            forall|a: int|
                0 <= a < redirect@.len() ==> {
                    &&& map_has(orig, (#[trigger] redirect@[a]).0@)
                    &&& map_has(orig, redirect@[a].1@)
                    &&& redirect@[a].0@ != redirect@[a].1@
                    &&& sig_of(map_val(orig, redirect@[a].0@)) == sig_of(
                        map_val(orig, redirect@[a].1@),
                    )
                    &&& !map_has(redirect@, redirect@[a].1@)
                    &&& exists|j: int| 0 <= j < i && (#[trigger] order@[j])@ == redirect@[a].0@
                    &&& exists|j: int| 0 <= j < i && (#[trigger] order@[j])@ == redirect@[a].1@
                },
            forall|j: int|
                0 <= j < i ==> {
                    let k = (#[trigger] order@[j])@;
                    &&& map_has(owner@, sig_of(map_val(orig, k)))
                    &&& (map_val(owner@, sig_of(map_val(orig, k)))@ == k || map_has(redirect@, k))
                },
        decreases n - i,
    {
        let k = order[i].as_str();
        let ni = match dict_find(&t.nodes, k) {
            Some(ni) => ni,
            None => {
                proof {
                    assert(map_has(orig, order@[i as int]@));
                    assert(false);
                }
                0
            },
        };
        proof {
            let j = idx_of(orig, order@[i as int]@);
            assert(0 <= j < orig.len() && orig[j].0@ == order@[i as int]@);
            assert(j == ni as int);
        }
        let sig = node_signature(&t.nodes[ni].1);
        match dict_find(&owner, sig.as_str()) {
            Some(oi) => {
                proof {
                    let j = idx_of(owner@, sig@);
                    assert(0 <= j < owner@.len() && owner@[j].0@ == sig@);
                    assert(j == oi as int);
                }
                if !str_eq(owner[oi].1.as_str(), k) {
                    let ghost redpre = redirect@;
                    proof {
                        // the current key was never seen, so it is in
                        // neither the redirect domain nor the owner range
                        assert forall|a: int| 0 <= a < redirect@.len() implies (
                        #[trigger] redirect@[a]).0@ != order@[i as int]@ by {
                            let j = choose|j: int|
                                0 <= j < i && (#[trigger] order@[j])@ == redirect@[a].0@;
                        }
                        assert forall|a: int| 0 <= a < owner@.len() implies (
                        #[trigger] owner@[a]).1@ != order@[i as int]@ by {
                            if owner@[a].1@ == order@[i as int]@ {
                                let s2 = sig_of(map_val(orig, order@[i as int]@));
                                assert(owner@[a].0@ == s2);
                            }
                        }
                    }
                    redirect.push((order[i].clone(), owner[oi].1.clone()));
                    proof {
                        assert(sig_of(map_val(orig, order@[i as int]@)) == sig@);
                        assert(map_has(owner@, sig@)) by {
                            assert(owner@[oi as int].0@ == sig@);
                        }
                        let last = redirect@.len() - 1;
                        assert(redirect@[last].0@ == order@[i as int]@);
                        assert(redirect@[last].1 == owner@[oi as int].1);
                        assert forall|a: int| 0 <= a < redirect@.len() implies {
                            &&& map_has(orig, (#[trigger] redirect@[a]).0@)
                            &&& map_has(orig, redirect@[a].1@)
                            &&& redirect@[a].0@ != redirect@[a].1@
                            &&& sig_of(map_val(orig, redirect@[a].0@)) == sig_of(
                                map_val(orig, redirect@[a].1@),
                            )
                            &&& !map_has(redirect@, redirect@[a].1@)
                            &&& exists|j: int|
                                0 <= j < i + 1 && (#[trigger] order@[j])@ == redirect@[a].0@
                            &&& exists|j: int|
                                0 <= j < i + 1 && (#[trigger] order@[j])@ == redirect@[a].1@
                        } by {
                            if a < last {
                                assert(redirect@[a] == redpre[a]);
                                assert(exists|j: int|
                                    0 <= j < i && (#[trigger] order@[j])@ == redpre[a].0@);
                                assert(exists|j: int|
                                    0 <= j < i && (#[trigger] order@[j])@ == redpre[a].1@);
                                assert(!map_has(redpre, redpre[a].1@));
                                if map_has(redirect@, redirect@[a].1@) {
                                    let w = idx_of(redirect@, redpre[a].1@);
                                    assert(0 <= w < redirect@.len() && redirect@[w].0@
                                        == redpre[a].1@);
                                    if w < last {
                                        assert(redpre[w].0@ == redpre[a].1@);
                                        assert(map_has(redpre, redpre[a].1@));
                                        assert(false);
                                    } else {
                                        assert(order@[i as int]@ == redpre[a].1@);
                                        let j2 = choose|j2: int|
                                            0 <= j2 < i && (#[trigger] order@[j2])@
                                                == redpre[a].1@;
                                        assert(order@[j2]@ == order@[i as int]@ && j2 < i);
                                        assert(false);
                                    }
                                }
                            } else {
                                assert(redirect@[a].0@ == order@[i as int]@);
                                assert(map_has(orig, order@[i as int]@));
                                assert(sig_of(map_val(orig, redirect@[a].0@)) == sig@);
                                if map_has(redirect@, redirect@[a].1@) {
                                    let w = idx_of(redirect@, redirect@[a].1@);
                                    assert(0 <= w < redirect@.len() && redirect@[w].0@
                                        == redirect@[a].1@);
                                    if w < last {
                                        assert(redpre[w].0@ == owner@[oi as int].1@);
                                        assert(false);
                                    } else {
                                        assert(order@[i as int]@ == owner@[oi as int].1@);
                                        assert(false);
                                    }
                                }
                                assert(exists|j: int|
                                    0 <= j < i + 1 && (#[trigger] order@[j])@
                                        == redirect@[a].0@) by {
                                    assert(order@[i as int]@ == redirect@[a].0@);
                                }
                                assert(exists|j: int|
                                    0 <= j < i && (#[trigger] order@[j])@ == owner@[oi as int].1@);
                            }
                        }
                        assert(map_has(redirect@, order@[i as int]@)) by {
                            assert(redirect@[last].0@ == order@[i as int]@);
                        }
                        assert forall|j: int| 0 <= j < i + 1 implies {
                            let k2 = (#[trigger] order@[j])@;
                            &&& map_has(owner@, sig_of(map_val(orig, k2)))
                            &&& (map_val(owner@, sig_of(map_val(orig, k2)))@ == k2 || map_has(
                                redirect@,
                                k2,
                            ))
                        } by {
                            let k2 = order@[j]@;
                            let s2 = sig_of(map_val(orig, k2));
                            if j < i {
                                assert(map_has(owner@, s2));
                                if map_val(owner@, s2)@ != k2 {
                                    assert(map_has(redpre, k2));
                                    let w = idx_of(redpre, k2);
                                    assert(0 <= w < redpre.len() && redpre[w].0@ == k2);
                                    assert(redirect@[w].0@ == k2);
                                }
                            } else {
                                assert(s2 == sig@);
                                if map_val(owner@, sig@)@ != k2 {
                                    assert(map_has(redirect@, order@[i as int]@));
                                }
                            }
                        }
                    }
                } else {
                    proof {
                        assert(sig_of(map_val(orig, order@[i as int]@)) == sig@);
                        assert(map_has(owner@, sig@)) by {
                            assert(owner@[oi as int].0@ == sig@);
                        }
                        let w = idx_of(owner@, sig@);
                        assert(0 <= w < owner@.len() && owner@[w].0@ == sig@);
                        assert(w == oi as int);
                        assert(map_val(owner@, sig@)@ == order@[i as int]@);
                    }
                }
            },
            None => {
                let ghost ownpre = owner@;
                owner.push((sig, order[i].clone()));
                proof {
                    let last = owner@.len() - 1;
                    assert(owner@[last].0@ == sig@ && owner@[last].1@ == order@[i as int]@);
                    assert forall|a: int| 0 <= a < owner@.len() implies exists|j: int|
                        0 <= j < i + 1 && (#[trigger] order@[j])@ == (#[trigger] owner@[a]).1@ by {
                        if a < last {
                            assert(owner@[a] == ownpre[a]);
                            assert(exists|j: int|
                                0 <= j < i && (#[trigger] order@[j])@ == ownpre[a].1@);
                        } else {
                            assert(order@[i as int]@ == owner@[a].1@);
                        }
                    }
                    assert(keys_unique(owner@)) by {
                        assert forall|x: int, y: int|
                            0 <= x < y < owner@.len() implies owner@[x].0@ != owner@[y].0@ by {
                            if y == last {
                                assert(owner@[x] == ownpre[x]);
                                if ownpre[x].0@ == sig@ {
                                    assert(map_has(ownpre, sig@));
                                    assert(false);
                                }
                            } else {
                                assert(owner@[x] == ownpre[x] && owner@[y] == ownpre[y]);
                            }
                        }
                    }
                    assert forall|j: int| 0 <= j < i + 1 implies {
                        let k2 = (#[trigger] order@[j])@;
                        &&& map_has(owner@, sig_of(map_val(orig, k2)))
                        &&& (map_val(owner@, sig_of(map_val(orig, k2)))@ == k2 || map_has(
                            redirect@,
                            k2,
                        ))
                    } by {
                        let k2 = order@[j]@;
                        let s2 = sig_of(map_val(orig, k2));
                        if j < i {
                            assert(map_has(ownpre, s2));
                            let w = idx_of(ownpre, s2);
                            assert(0 <= w < ownpre.len() && ownpre[w].0@ == s2);
                            assert(owner@[w] == ownpre[w]);
                            let w2 = idx_of(owner@, s2);
                            assert(0 <= w2 < owner@.len() && owner@[w2].0@ == s2);
                            if w2 == last {
                                assert(sig@ == s2);
                                assert(false);
                            }
                            assert(owner@[w2] == ownpre[w2]);
                            assert(map_val(owner@, s2) == map_val(ownpre, s2)) by {
                                assert(w2 == idx_of(ownpre, s2) || ownpre[w2].0@ == s2);
                                assert(w == w2);
                            }
                        } else {
                            assert(s2 == sig@);
                            let w2 = idx_of(owner@, s2);
                            assert(0 <= w2 < owner@.len() && owner@[w2].0@ == s2);
                            if w2 != last {
                                assert(ownpre[w2].0@ == sig@);
                                assert(map_has(ownpre, sig@));
                                assert(false);
                            }
                            assert(map_val(owner@, s2)@ == k2);
                        }
                    }
                }
            },
        }
        i += 1;
    }
    let ghost redseq = redirect@;
    // transfer terminal markers from deleted duplicates to their owners
    let rn = redirect.len();
    let mut ri: usize = 0;
    while ri < rn
        invariant
            t.endings == old(t).endings,
            t.characters == old(t).characters,
            t.meta == old(t).meta,
            t.title == old(t).title,
            t.project_id == old(t).project_id,
            t.version == old(t).version,
            t.owner == old(t).owner,
            t.background_image_base64 == old(t).background_image_base64,
            t.provenance == old(t).provenance,
            keys_unique(old(t).endings@),
            keys_unique(old(t).characters@),
            orig == old(t).nodes@,
            keys_unique(orig),
            rn == redirect@.len(),
            ri <= rn,
            redirect@ == redseq,
            keys_unique(redseq),
            t.nodes@.len() == orig.len(),
            forall|a: int| 0 <= a < orig.len() ==> (#[trigger] t.nodes@[a]).0 == orig[a].0,
            forall|a: int|
                0 <= a < orig.len() ==> same_but_marker(
                    orig[a].1,
                    (#[trigger] t.nodes@[a]).1,
                ),
            forall|a: int|
                0 <= a < orig.len() ==> ((#[trigger] t.nodes@[a]).1.ending_key
                    == orig[a].1.ending_key || (orig[a].1.ending_key is None && exists|b: int|
                    0 <= b < redseq.len() && (#[trigger] redseq[b]).1@ == orig[a].0@ && map_val(
                        orig,
                        redseq[b].0@,
                    ).ending_key == t.nodes@[a].1.ending_key)),
            forall|a: int|
                0 <= a < redseq.len() ==> {
                    &&& map_has(orig, (#[trigger] redseq[a]).0@)
                    &&& map_has(orig, redseq[a].1@)
                    &&& redseq[a].0@ != redseq[a].1@
                    &&& sig_of(map_val(orig, redseq[a].0@)) == sig_of(map_val(orig, redseq[a].1@))
                    &&& !map_has(redseq, redseq[a].1@)
                },
        decreases rn - ri,
    {
        proof {
            assert(keys_unique(t.nodes@)) by {
                assert forall|x: int, y: int|
                    0 <= x < y < t.nodes@.len() implies t.nodes@[x].0@ != t.nodes@[y].0@ by {
                    assert(t.nodes@[x].0 == orig[x].0 && t.nodes@[y].0 == orig[y].0);
                }
            }
        }
        let from_k = redirect[ri].0.as_str();
        let fi = match dict_find(&t.nodes, from_k) {
            Some(fi) => fi,
            None => {
                proof {
                    assert(map_has(orig, redseq[ri as int].0@));
                    let j = idx_of(orig, redseq[ri as int].0@);
                    assert(t.nodes@[j].0@ == redseq[ri as int].0@);
                    assert(false);
                }
                0
            },
        };
        let marker = clone_opt_string(&t.nodes[fi].1.ending_key);
        if marker.is_some() {
            let to_k = redirect[ri].1.as_str();
            let ti = match dict_find(&t.nodes, to_k) {
                Some(ti) => ti,
                None => {
                    proof {
                        assert(map_has(orig, redseq[ri as int].1@));
                        let j = idx_of(orig, redseq[ri as int].1@);
                        assert(t.nodes@[j].0@ == redseq[ri as int].1@);
                        assert(false);
                    }
                    0
                },
            };
            if t.nodes[ti].1.ending_key.is_none() {
                let ghost pre = t.nodes@;
                let (key, mut node) = t.nodes.remove(ti);
                node.ending_key = marker;
                t.nodes.insert(ti, (key, node));
                proof {
                    assert(t.nodes@ =~= pre.update(
                        ti as int,
                        (pre[ti as int].0, t.nodes@[ti as int].1),
                    ));
                    // justify the marker clause for the updated entry
                    let j = idx_of(orig, redseq[ri as int].0@);
                    assert(orig[j].0@ == redseq[ri as int].0@);
                    assert(fi as int == j);
                    assert(map_val(orig, redseq[ri as int].0@) == orig[j].1);
                }
            }
        }
        ri += 1;
    }
    // rewrite targets through the redirect map and drop the duplicates
    let ghost pre = t.nodes@;
    proof {
        assert(keys_unique(pre)) by {
            assert forall|x: int, y: int|
                0 <= x < y < pre.len() implies pre[x].0@ != pre[y].0@ by {
                assert(pre[x].0 == orig[x].0 && pre[y].0 == orig[y].0);
            }
        }
    }
    let mut new_nodes: Vec<(String, StoryNode)> = Vec::new();
    let ghost mut kept: Seq<int> = Seq::empty();
    while t.nodes.len() > 0
        invariant
            t.endings == old(t).endings,
            t.characters == old(t).characters,
            t.meta == old(t).meta,
            t.title == old(t).title,
            t.project_id == old(t).project_id,
            t.version == old(t).version,
            t.owner == old(t).owner,
            t.background_image_base64 == old(t).background_image_base64,
            t.provenance == old(t).provenance,
            keys_unique(old(t).endings@),
            keys_unique(old(t).characters@),
            redirect@ == redseq,
            keys_unique(redseq),
            keys_unique(pre),
            t.nodes@.len() <= pre.len(),
            t.nodes@ =~= pre.skip(pre.len() - t.nodes@.len()),
            kept.len() == new_nodes@.len(),
            new_nodes@.len() <= pre.len() - t.nodes@.len(),
            forall|a: int|
                0 <= a < kept.len() ==> 0 <= #[trigger] kept[a] < pre.len() - t.nodes@.len(),
            forall|a: int, b: int| 0 <= a < b < kept.len() ==> kept[a] < kept[b],
            forall|a: int|
                0 <= a < new_nodes@.len() ==> (#[trigger] new_nodes@[a]).0 == pre[kept[a]].0,
            forall|a: int|
                0 <= a < new_nodes@.len() ==> !map_has(redseq, (#[trigger] new_nodes@[a]).0@),
            forall|a: int|
                0 <= a < new_nodes@.len() ==> node_redirected(
                    redseq,
                    pre[kept[a]].1,
                    (#[trigger] new_nodes@[a]).1,
                ),
            forall|j: int|
                0 <= j < pre.len() - t.nodes@.len() ==> map_has(redseq, (#[trigger] pre[j]).0@)
                    || exists|a: int| 0 <= a < kept.len() && #[trigger] kept[a] == j,
        decreases t.nodes@.len(),
    {
        let ghost done = pre.len() - t.nodes@.len();
        let ghost kept0 = kept;
        let (k, node) = t.nodes.remove(0);
        proof {
            assert((k, node) == pre[done]);
        }
        if !dict_contains(&redirect, k.as_str()) {
            let new_choices = crate::normalize::remap_choices(&redirect, node.choices);
            let n2 = StoryNode {
                id: node.id,
                content: node.content,
                ending_key: node.ending_key,
                level: node.level,
                characters: node.characters,
                choices: new_choices,
            };
            new_nodes.push((k, n2));
            proof {
                kept = kept.push(done);
                assert(kept[kept.len() - 1] == done);
            }
        } else {
            proof {
                assert(map_has(redseq, pre[done].0@));
            }
        }
        proof {
            assert(t.nodes@ =~= pre.skip(pre.len() - t.nodes@.len()));
            assert forall|j: int|
                0 <= j < pre.len() - t.nodes@.len() implies map_has(
                redseq,
                (#[trigger] pre[j]).0@,
            ) || exists|a: int| 0 <= a < kept.len() && #[trigger] kept[a] == j by {
                if j == done {
                    if !map_has(redseq, pre[done].0@) {
                        assert(kept[kept.len() - 1] == done);
                    }
                } else {
                    if !map_has(redseq, pre[j].0@) {
                        let a = choose|a: int| 0 <= a < kept0.len() && #[trigger] kept0[a] == j;
                        assert(kept[a] == j);
                    }
                }
            }
        }
    }
    t.nodes = new_nodes;
    proof {
        assert forall|x: int, y: int|
            0 <= x < y < t.nodes@.len() implies t.nodes@[x].0@ != t.nodes@[y].0@ by {
            assert(t.nodes@[x].0 == pre[kept[x]].0 && t.nodes@[y].0 == pre[kept[y]].0);
            assert(kept[x] < kept[y]);
        }
    }
    // each survivor satisfies the payload relation
    proof {
        assert forall|x: int| 0 <= x < t.nodes@.len() implies dedup_survivor_ok(
            redseq,
            orig,
            (#[trigger] t.nodes@[x]),
        ) by {
            let k = t.nodes@[x].0@;
            assert(t.nodes@[x].0 == pre[kept[x]].0);
            assert(pre[kept[x]].0 == orig[kept[x]].0);
            let j = idx_of(orig, k);
            assert(orig[kept[x]].0@ == k);
            assert(0 <= j < orig.len() && orig[j].0@ == k);
            assert(j == kept[x]);
            assert(map_val(orig, k) == orig[kept[x]].1);
            assert(node_redirected(redseq, pre[kept[x]].1, t.nodes@[x].1));
            assert(same_but_marker(orig[kept[x]].1, pre[kept[x]].1));
        }
    }
    // survivor signatures are pairwise distinct
    proof {
        assert forall|x: int, y: int|
            0 <= x < y < t.nodes@.len() implies sig_of(
            map_val(orig, (#[trigger] t.nodes@[x]).0@),
        ) != sig_of(map_val(orig, (#[trigger] t.nodes@[y]).0@)) by {
            let kx = t.nodes@[x].0@;
            let ky = t.nodes@[y].0@;
            assert(kx == pre[kept[x]].0@ && ky == pre[kept[y]].0@);
            assert(kx == orig[kept[x]].0@ && ky == orig[kept[y]].0@);
            assert(kx != ky);
            // both keys were visited during the scan
            let ja = choose|ja: int| 0 <= ja < order@.len() && orig[kept[x]].0@ == (
            #[trigger] order@[ja])@;
            let jb = choose|jb: int| 0 <= jb < order@.len() && orig[kept[y]].0@ == (
            #[trigger] order@[jb])@;
            assert(map_val(owner@, sig_of(map_val(orig, kx)))@ == kx || map_has(redseq, kx));
            assert(map_val(owner@, sig_of(map_val(orig, ky)))@ == ky || map_has(redseq, ky));
            assert(!map_has(redseq, kx) && !map_has(redseq, ky));
            if sig_of(map_val(orig, kx)) == sig_of(map_val(orig, ky)) {
                assert(kx == ky);
                assert(false);
            }
        }
    }
    proof {
        assert forall|a: int| 0 <= a < redseq.len() implies !map_has(
            t.nodes@,
            (#[trigger] redseq[a]).0@,
        ) && map_has(t.nodes@, redseq[a].1@) by {
            if map_has(t.nodes@, redseq[a].0@) {
                let w = idx_of(t.nodes@, redseq[a].0@);
                assert(0 <= w < t.nodes@.len() && t.nodes@[w].0@ == redseq[a].0@);
                assert(!map_has(redseq, t.nodes@[w].0@));
                assert(map_has(redseq, redseq[a].0@));
                assert(false);
            }
            let ok = redseq[a].1@;
            assert(map_has(orig, ok));
            let j = idx_of(orig, ok);
            assert(0 <= j < orig.len() && orig[j].0@ == ok);
            assert(pre[j].0 == orig[j].0);
            assert(!map_has(redseq, pre[j].0@));
            let w = choose|w: int| 0 <= w < kept.len() && #[trigger] kept[w] == j;
            assert(t.nodes@[w].0 == pre[j].0);
        }
        assert forall|j: int| 0 <= j < orig.len() implies map_has(
            redseq,
            (#[trigger] orig[j]).0@,
        ) || map_has(t.nodes@, orig[j].0@) by {
            assert(pre[j].0 == orig[j].0);
            if !map_has(redseq, pre[j].0@) {
                let w = choose|w: int| 0 <= w < kept.len() && #[trigger] kept[w] == j;
                assert(t.nodes@[w].0 == pre[j].0);
            }
        }
    }
    redirect
}

/// Whether node `i` has a choice targeting node `j`'s key.
pub open spec fn node_has_edge(nodes: Seq<(String, StoryNode)>, i: int, j: int) -> bool {
    exists|c: int|
        0 <= c < nodes[i].1.choices@.len() && (#[trigger] nodes[i].1.choices@[c]).next_node_id@
            == nodes[j].0@
}

/// A nonempty closed walk through the in-map choice edges.
pub open spec fn is_cycle(nodes: Seq<(String, StoryNode)>, p: Seq<int>) -> bool {
    &&& p.len() >= 2
    &&& p[0] == p[p.len() - 1]
    &&& forall|k: int| 0 <= k < p.len() ==> 0 <= #[trigger] p[k] < nodes.len()
    &&& forall|k: int| 0 <= k < p.len() - 1 ==> node_has_edge(nodes, #[trigger] p[k], p[k + 1])
}

/// No sequence of choice traversals returns to its starting node.
pub open spec fn acyclic(nodes: Seq<(String, StoryNode)>) -> bool {
    forall|p: Seq<int>| !is_cycle(nodes, p)
}

/// A rank assignment under which every in-map edge strictly descends.
pub open spec fn rank_ok(nodes: Seq<(String, StoryNode)>, rank: Seq<int>) -> bool {
    &&& rank.len() == nodes.len()
    &&& forall|i: int, j: int|
        0 <= i < nodes.len() && 0 <= j < nodes.len() && #[trigger] node_has_edge(nodes, i, j)
            ==> rank[j] < rank[i]
}

proof fn lemma_rank_path(nodes: Seq<(String, StoryNode)>, rank: Seq<int>, p: Seq<int>, k: int)
    requires
        rank_ok(nodes, rank),
        forall|a: int| 0 <= a < p.len() ==> 0 <= #[trigger] p[a] < nodes.len(),
        forall|a: int| 0 <= a < p.len() - 1 ==> node_has_edge(nodes, #[trigger] p[a], p[a + 1]),
        1 <= k < p.len(),
    ensures
        rank[p[k]] < rank[p[0]],
    decreases k,
{
    if k == 1 {
        assert(node_has_edge(nodes, p[0], p[1]));
    } else {
        lemma_rank_path(nodes, rank, p, k - 1);
        assert(node_has_edge(nodes, p[k - 1], p[k]));
    }
}

/// A descending rank assignment rules out every cycle.
proof fn lemma_rank_acyclic(nodes: Seq<(String, StoryNode)>, rank: Seq<int>)
    requires
        rank_ok(nodes, rank),
    ensures
        acyclic(nodes),
{
    assert forall|p: Seq<int>| !is_cycle(nodes, p) by {
        if is_cycle(nodes, p) {
            lemma_rank_path(nodes, rank, p, p.len() - 1);
            assert(rank[p[p.len() - 1]] < rank[p[0]]);
            assert(false);
        }
    }
}

/// What the fallback terminal key must be: the canonical neutral ending
/// when present, else the smallest existing ending key, else the literal
/// sentinel.
pub open spec fn terminal_fallback_ok(
    endings: Seq<(String, crate::types::Ending)>,
    fb: Seq<char>,
) -> bool {
    if map_has(endings, "ending_neutral"@) {
        fb == "ending_neutral"@
    } else if endings.len() > 0 {
        is_min_ending_key(endings, fb)
    } else {
        fb == "END"@
    }
}

/// How a node may change in the cycle-elimination pass: everything kept,
/// except that individual choice targets may have been rewritten to the
/// fallback terminal key.
pub open spec fn cycle_node_ok(o: StoryNode, n: StoryNode, fb: Seq<char>) -> bool {
    &&& n.id == o.id
    &&& n.content == o.content
    &&& n.ending_key == o.ending_key
    &&& n.level == o.level
    &&& n.characters == o.characters
    &&& n.choices@.len() == o.choices@.len()
    &&& forall|j: int|
        0 <= j < n.choices@.len() ==> {
            &&& (#[trigger] n.choices@[j]).text == o.choices@[j].text
            &&& n.choices@[j].affinity_effect == o.choices@[j].affinity_effect
            &&& (n.choices@[j].next_node_id == o.choices@[j].next_node_id
                || n.choices@[j].next_node_id@ == fb)
        }
}

spec fn choice_lens(nodes: Seq<(String, StoryNode)>) -> Seq<int> {
    nodes.map_values(|e: (String, StoryNode)| e.1.choices@.len() as int)
}

spec fn work_sum(lens: Seq<int>, s: Seq<(usize, usize)>) -> int
    decreases s.len(),
{
    if s.len() == 0 {
        0
    } else {
        let f = s.last();
        work_sum(lens, s.drop_last()) + (if 0 <= f.0 < lens.len() && f.1 <= lens[f.0 as int] {
            lens[f.0 as int] - f.1
        } else {
            0
        })
    }
}

proof fn lemma_work_sum_nonneg(lens: Seq<int>, s: Seq<(usize, usize)>)
    ensures
        work_sum(lens, s) >= 0,
    decreases s.len(),
{
    if s.len() > 0 {
        lemma_work_sum_nonneg(lens, s.drop_last());
    }
}

spec fn edges_done(nodes: Seq<(String, StoryNode)>, state: Seq<u8>, u: int, upto: int) -> bool {
    forall|c: int, j: int|
        0 <= c < upto && c < nodes[u].1.choices@.len() && 0 <= j < nodes.len() && (
        #[trigger] nodes[u].1.choices@[c]).next_node_id@ == (#[trigger] nodes[j].0@) ==> state[j]
            == 2
}

spec fn bc_inv(
    orig0: Seq<(String, StoryNode)>,
    nodes: Seq<(String, StoryNode)>,
    state: Seq<u8>,
    rank: Seq<int>,
    counter: int,
    whiteset: Set<int>,
    fbv: Seq<char>,
    fb_free: bool,
) -> bool {
    &&& nodes.len() == orig0.len()
    &&& keys_unique(orig0)
    &&& forall|i: int| 0 <= i < nodes.len() ==> (#[trigger] nodes[i]).0 == orig0[i].0
    &&& forall|i: int|
        0 <= i < nodes.len() ==> cycle_node_ok(orig0[i].1, (#[trigger] nodes[i]).1, fbv)
    &&& state.len() == nodes.len()
    &&& forall|i: int| 0 <= i < state.len() ==> (#[trigger] state[i]) <= 2
    &&& whiteset.finite()
    &&& forall|i: int|
        0 <= i < state.len() ==> ((#[trigger] state[i]) == 0 <==> whiteset.contains(i))
    &&& rank.len() == nodes.len()
    &&& counter >= 0
    &&& forall|i: int|
        0 <= i < state.len() && (#[trigger] state[i]) == 2 ==> 0 <= rank[i] < counter
    &&& (fb_free ==> forall|i: int, j: int|
        0 <= i < nodes.len() && 0 <= j < nodes.len() && state[i] == 2 && #[trigger] node_has_edge(
            nodes,
            i,
            j,
        ) ==> state[j] == 2 && rank[j] < rank[i])
    &&& (fb_free ==> !map_has(nodes, fbv))
}

spec fn bc_stack_inv(
    nodes: Seq<(String, StoryNode)>,
    state: Seq<u8>,
    stack: Seq<(usize, usize)>,
    fb_free: bool,
) -> bool {
    &&& forall|f: int|
        0 <= f < stack.len() ==> {
            &&& (#[trigger] stack[f]).0 < nodes.len()
            &&& state[stack[f].0 as int] == 1
            &&& stack[f].1 <= nodes[stack[f].0 as int].1.choices@.len()
        }
    &&& forall|f: int, g: int|
        0 <= f < g < stack.len() ==> (#[trigger] stack[f]).0 != (#[trigger] stack[g]).0
    &&& forall|i: int|
        0 <= i < state.len() && (#[trigger] state[i]) == 1 ==> exists|f: int|
            0 <= f < stack.len() && (#[trigger] stack[f]).0 == i
    &&& (fb_free ==> forall|f: int|
        0 <= f < stack.len() ==> edges_done(
            nodes,
            state,
            (#[trigger] stack[f]).0 as int,
            stack[f].1 as int,
        ))
}

proof fn lemma_quiet_pairs_retop(
    nodes0: Seq<(String, StoryNode)>,
    stackpre: Seq<(usize, usize)>,
    stacknew: Seq<(usize, usize)>,
    u: usize,
)
    requires
        stackpre.len() > 0,
        stackpre.last().0 == u,
        stacknew.len() == stackpre.len(),
        stacknew.drop_last() == stackpre.drop_last(),
        stacknew.last().0 == u,
        forall|f: int|
            0 <= f < stackpre.len() - 1 ==> node_has_edge(
                nodes0,
                (#[trigger] stackpre[f]).0 as int,
                stackpre[f + 1].0 as int,
            ),
    ensures
        forall|f: int|
            0 <= f < stacknew.len() - 1 ==> node_has_edge(
                nodes0,
                (#[trigger] stacknew[f]).0 as int,
                stacknew[f + 1].0 as int,
            ),
{
    assert forall|f: int|
        0 <= f < stacknew.len() - 1 implies node_has_edge(
        nodes0,
        (#[trigger] stacknew[f]).0 as int,
        stacknew[f + 1].0 as int,
    ) by {
        assert(stacknew[f] == stackpre.drop_last()[f]);
        assert(stacknew[f] == stackpre[f]);
        if f + 1 < stacknew.len() - 1 {
            assert(stacknew[f + 1] == stacknew.drop_last()[f + 1]);
            assert(stackpre[f + 1] == stackpre.drop_last()[f + 1]);
            assert(stacknew[f + 1] == stackpre[f + 1]);
        } else {
            assert(stacknew[f + 1].0 == u && stackpre[f + 1].0 == u);
        }
    }
}

proof fn lemma_stack_retop(
    nodes: Seq<(String, StoryNode)>,
    state: Seq<u8>,
    stackpre: Seq<(usize, usize)>,
    stacknew: Seq<(usize, usize)>,
    fb_free: bool,
    u: usize,
    ci: usize,
    ci2: usize,
)
    requires
        bc_stack_inv(nodes, state, stackpre, fb_free),
        stackpre.len() > 0,
        stackpre.last() == (u, ci),
        stacknew == stackpre.drop_last().push((u, ci2)),
        ci <= ci2,
        ci2 <= nodes[u as int].1.choices@.len(),
        fb_free ==> forall|c: int, j: int|
            ci <= c < ci2 && c < nodes[u as int].1.choices@.len() && 0 <= j < nodes.len() && (
            #[trigger] nodes[u as int].1.choices@[c]).next_node_id@ == (#[trigger] nodes[j].0@)
                ==> state[j] == 2,
    ensures
        bc_stack_inv(nodes, state, stacknew, fb_free),
{
    let sl = stacknew.len();
    assert(sl == stackpre.len());
    assert(stacknew[sl - 1] == (u, ci2));
    assert forall|f: int| 0 <= f < sl - 1 implies stacknew[f] == stackpre[f] by {}
    assert forall|i: int|
        0 <= i < state.len() && (#[trigger] state[i]) == 1 implies exists|f: int|
        0 <= f < stacknew.len() && (#[trigger] stacknew[f]).0 == i by {
        let f0 = choose|f0: int| 0 <= f0 < stackpre.len() && (#[trigger] stackpre[f0]).0 == i;
        if f0 == stackpre.len() - 1 {
            assert(stacknew[sl - 1].0 == i);
        } else {
            assert(stacknew[f0].0 == i);
        }
    }
    if fb_free {
        assert forall|f: int|
            0 <= f < stacknew.len() implies edges_done(
            nodes,
            state,
            (#[trigger] stacknew[f]).0 as int,
            stacknew[f].1 as int,
        ) by {
            if f < sl - 1 {
                assert(stacknew[f] == stackpre[f]);
                assert(edges_done(nodes, state, stackpre[f].0 as int, stackpre[f].1 as int));
            } else {
                assert(edges_done(nodes, state, u as int, ci as int));
                assert forall|c2: int, j2: int|
                    0 <= c2 < ci2 && c2 < nodes[u as int].1.choices@.len() && 0 <= j2
                    < nodes.len() && (#[trigger] nodes[u as int].1.choices@[c2]).next_node_id@ == (
                #[trigger] nodes[j2].0@) implies state[j2] == 2 by {
                    if c2 < ci {
                    } else {
                    }
                }
            }
        }
    }
}

/// Pass B of the sanitizer: break cycles.
///
/// A depth-first traversal from each unvisited node, entry node first, with
/// the usual three states per node. A choice whose target is the current
/// node or a node still in progress is rewritten in place to the fallback
/// terminal key, which is returned. When that key is not itself a node key
/// (node keys that shadow ending keys or the sentinel are degenerate
/// input), the surviving choice graph is acyclic.
#[verifier::rlimit(100)]
pub fn break_cycles(t: &mut MovieTemplate) -> (fb: String)
    requires
        old(t).wf(),
    ensures
        final(t).wf(),
        final(t).endings == old(t).endings,
        final(t).characters == old(t).characters,
        final(t).meta == old(t).meta,
        final(t).title == old(t).title,
        final(t).project_id == old(t).project_id,
        final(t).version == old(t).version,
        final(t).owner == old(t).owner,
        final(t).background_image_base64 == old(t).background_image_base64,
        final(t).provenance == old(t).provenance,
        terminal_fallback_ok(old(t).endings@, fb@),
        final(t).nodes@.len() == old(t).nodes@.len(),
        forall|i: int|
            0 <= i < final(t).nodes@.len() ==> (#[trigger] final(t).nodes@[i]).0 == old(
                t,
            ).nodes@[i].0,
        forall|i: int|
            0 <= i < final(t).nodes@.len() ==> cycle_node_ok(
                old(t).nodes@[i].1,
                (#[trigger] final(t).nodes@[i]).1,
                fb@,
            ),
        // an edge is rewritten only when its target was a node key
        forall|i: int, c: int|
            0 <= i < final(t).nodes@.len() && 0 <= c < (#[trigger] final(t).nodes@[
            i]).1.choices@.len() && (#[trigger] final(t).nodes@[i].1.choices@[c]).next_node_id
                != old(t).nodes@[i].1.choices@[c].next_node_id ==> map_has(
                old(t).nodes@,
                old(t).nodes@[i].1.choices@[c].next_node_id@,
            ),
        !map_has(old(t).nodes@, fb@) ==> acyclic(final(t).nodes@),
        // on an already-acyclic graph the pass changes nothing
        (!map_has(old(t).nodes@, fb@) && acyclic(old(t).nodes@)) ==> final(t).nodes@ == old(
            t,
        ).nodes@,
{
    broadcast use vstd::seq_lib::group_to_multiset_ensures;

    let ghost orig0 = t.nodes@;
    let n = t.nodes.len();
    let fb = fallback_terminal_key(&t.endings);
    let ghost fbv = fb@;
    let ghost fb_free = !map_has(orig0, fbv);
    let order = visit_order(&t.nodes);
    proof {
        assert forall|j: int| 0 <= j < order@.len() implies map_has(
            orig0,
            (#[trigger] order@[j])@,
        ) by {
            let vs = views_of(order@);
            assert(vs[j] == order@[j]@);
            assert(vs.contains(order@[j]@));
            assert(vs.to_multiset().count(order@[j]@) > 0);
            let ks = views_of(orig0.map_values(|e: (String, StoryNode)| e.0));
            assert(ks.to_multiset().count(order@[j]@) > 0);
            assert(ks.contains(order@[j]@));
            let w = choose|w: int| 0 <= w < ks.len() && ks[w] == order@[j]@;
            assert(orig0[w].0@ == order@[j]@);
        }
        assert forall|j: int| 0 <= j < orig0.len() implies exists|a: int|
            0 <= a < order@.len() && (#[trigger] orig0[j]).0@ == order@[a]@ by {
            let ks = views_of(orig0.map_values(|e: (String, StoryNode)| e.0));
            assert(ks[j] == orig0[j].0@);
            assert(ks.contains(orig0[j].0@));
            assert(ks.to_multiset().count(orig0[j].0@) > 0);
            let vs = views_of(order@);
            assert(vs.to_multiset().count(orig0[j].0@) > 0);
            assert(vs.contains(orig0[j].0@));
            let a = choose|a: int| 0 <= a < vs.len() && vs[a] == orig0[j].0@;
            assert(order@[a]@ == orig0[j].0@);
        }
    }
    let ghost quiet = !map_has(orig0, fbv) && acyclic(orig0);
    let mut state: Vec<u8> = Vec::new();
    let mut si: usize = 0;
    while si < n
        invariant
            si <= n,
            state@.len() == si,
            forall|i: int| 0 <= i < si ==> (#[trigger] state@[i]) == 0,
        decreases n - si,
    {
        state.push(0);
        si += 1;
    }
    let ghost mut rank: Seq<int> = Seq::new(n as nat, |i: int| -1);
    let ghost mut counter: int = 0;
    let ghost mut whiteset: Set<int> = vstd::set_lib::set_int_range(0, n as int);
    proof {
        vstd::set_lib::lemma_int_range(0, n as int);
        assert(bc_inv(orig0, t.nodes@, state@, rank, counter, whiteset, fbv, fb_free)) by {
            assert(t.nodes@ == orig0);
            if fb_free {
                assert(!map_has(orig0, fbv));
            }
        }
    }
    let mut oi: usize = 0;
    while oi < n
        invariant
            t.endings == old(t).endings,
            t.characters == old(t).characters,
            t.meta == old(t).meta,
            t.title == old(t).title,
            t.project_id == old(t).project_id,
            t.version == old(t).version,
            t.owner == old(t).owner,
            t.background_image_base64 == old(t).background_image_base64,
            t.provenance == old(t).provenance,
            keys_unique(old(t).endings@),
            keys_unique(old(t).characters@),
            orig0 == old(t).nodes@,
            n == orig0.len(),
            n == state@.len(),
            order@.len() == n,
            fb@ == fbv,
            fb_free == !map_has(orig0, fbv),
            oi <= n,
            bc_inv(orig0, t.nodes@, state@, rank, counter, whiteset, fbv, fb_free),
            quiet == (!map_has(orig0, fbv) && acyclic(orig0)),
            quiet ==> t.nodes@ == orig0,
            // the directional clause: a changed target was an in-map key
            forall|i: int, c: int|
                0 <= i < t.nodes@.len() && 0 <= c < (#[trigger] t.nodes@[i]).1.choices@.len() && (
                #[trigger] t.nodes@[i].1.choices@[c]).next_node_id != orig0[i].1.choices@[
                c].next_node_id ==> t.nodes@[i].1.choices@[c].next_node_id@ == fbv && map_has(
                    orig0,
                    orig0[i].1.choices@[c].next_node_id@,
                ),
            forall|i: int| 0 <= i < n ==> (#[trigger] state@[i]) != 1,
            forall|j2: int|
                0 <= j2 < oi ==> forall|ii: int|
                    0 <= ii < n && (#[trigger] t.nodes@[ii]).0@ == (#[trigger] order@[j2])@
                        ==> state@[ii] == 2,
            forall|j: int| 0 <= j < order@.len() ==> map_has(orig0, (#[trigger] order@[j])@),
        decreases n - oi,
    {
        let kidx = match dict_find(&t.nodes, order[oi].as_str()) {
            Some(kidx) => kidx,
            None => {
                proof {
                    assert(map_has(orig0, order@[oi as int]@));
                    let w = idx_of(orig0, order@[oi as int]@);
                    assert(0 <= w < orig0.len() && orig0[w].0@ == order@[oi as int]@);
                    assert(t.nodes@[w].0@ == order@[oi as int]@);
                    assert(false);
                }
                0
            },
        };
        let ghost state_in0 = state@;
        let ghost nodes_outer = t.nodes@;
        if state[kidx] == 0 {
            let mut stack: Vec<(usize, usize)> = Vec::new();
            stack.push((kidx, 0));
            set_state(&mut state, kidx, 1);
            proof {
                whiteset = whiteset.remove(kidx as int);
            }
            let ghost state_in = state@;
            proof {
                assert(bc_stack_inv(t.nodes@, state@, stack@, fb_free)) by {
                    assert(stack@[0].0 == kidx);
                    assert(stack@.len() == 1);
                    assert forall|i: int|
                        0 <= i < state@.len() && (#[trigger] state@[i]) == 1 implies exists|f: int|
                        0 <= f < stack@.len() && (#[trigger] stack@[f]).0 == i by {
                        assert(state_in0[i] != 1);
                        assert(i == kidx as int);
                        assert(stack@[0].0 == kidx);
                    }
                }
            }
            while stack.len() > 0
                invariant
                    t.endings == old(t).endings,
                    t.characters == old(t).characters,
                    t.meta == old(t).meta,
                    t.title == old(t).title,
                    t.project_id == old(t).project_id,
                    t.version == old(t).version,
                    t.owner == old(t).owner,
                    t.background_image_base64 == old(t).background_image_base64,
                    t.provenance == old(t).provenance,
                    keys_unique(old(t).endings@),
                    keys_unique(old(t).characters@),
                    orig0 == old(t).nodes@,
                    n == orig0.len(),
                    n == state@.len(),
                    state_in.len() == n,
                    fb@ == fbv,
                    fb_free == !map_has(orig0, fbv),
                    quiet == (!map_has(orig0, fbv) && acyclic(orig0)),
                    bc_inv(orig0, t.nodes@, state@, rank, counter, whiteset, fbv, fb_free),
                    bc_stack_inv(t.nodes@, state@, stack@, fb_free),
                    quiet ==> t.nodes@ == orig0,
                    quiet ==> forall|f: int|
                        0 <= f < stack@.len() - 1 ==> node_has_edge(
                            orig0,
                            (#[trigger] stack@[f]).0 as int,
                            stack@[f + 1].0 as int,
                        ),
                    forall|i: int, c: int|
                        0 <= i < t.nodes@.len() && 0 <= c < (#[trigger] t.nodes@[
                        i]).1.choices@.len() && (#[trigger] t.nodes@[i].1.choices@[
                        c]).next_node_id != orig0[i].1.choices@[c].next_node_id ==> t.nodes@[
                        i].1.choices@[c].next_node_id@ == fbv && map_has(
                            orig0,
                            orig0[i].1.choices@[c].next_node_id@,
                        ),
                    forall|i: int| 0 <= i < n ==> (#[trigger] state@[i]) >= state_in[i],
                decreases
                        whiteset.len(),
                        work_sum(choice_lens(t.nodes@), stack@),
                        stack@.len(),
            {
                proof {
                    lemma_work_sum_nonneg(choice_lens(t.nodes@), stack@);
                }
                let ghost stackpre = stack@;
                let (u, ci) = match stack.pop() {
                    Some(f) => f,
                    None => {
                        proof {
                            assert(false);
                        }
                        (0, 0)
                    },
                };
                proof {
                    assert((u, ci) == stackpre.last());
                    assert(stack@ == stackpre.drop_last());
                }
                let clen = t.nodes[u].1.choices.len();
                if ci >= clen {
                    // all choices processed: mark the node finished
                    proof {
                        if quiet {
                            assert forall|f: int|
                                0 <= f < stack@.len() - 1 implies node_has_edge(
                                orig0,
                                (#[trigger] stack@[f]).0 as int,
                                stack@[f + 1].0 as int,
                            ) by {
                                assert(stack@[f] == stackpre[f] && stack@[f + 1] == stackpre[f
                                    + 1]);
                            }
                        }
                    }
                    let ghost state0 = state@;
                    set_state(&mut state, u, 2);
                    let ghost rank0 = rank;
                    let ghost counter0 = counter;
                    proof {
                        rank = rank0.update(u as int, counter0);
                        counter = counter0 + 1;
                        assert(bc_inv(
                            orig0,
                            t.nodes@,
                            state@,
                            rank,
                            counter,
                            whiteset,
                            fbv,
                            fb_free,
                        )) by {
                            assert forall|i: int|
                                0 <= i < state@.len() && (#[trigger] state@[i]) == 2 implies 0
                                <= rank[i] < counter by {
                                if i == u as int {
                                    assert(rank[i] == counter0);
                                } else {
                                    assert(state0[i] == 2);
                                    assert(rank[i] == rank0[i]);
                                }
                            }
                            if fb_free {
                                assert forall|i: int, j: int|
                                    0 <= i < t.nodes@.len() && 0 <= j < t.nodes@.len() && state@[i]
                                        == 2 && #[trigger] node_has_edge(t.nodes@, i, j) implies
                                    state@[j] == 2 && rank[j] < rank[i] by {
                                    if i == u as int {
                                        let c = choose|c: int|
                                            0 <= c < t.nodes@[i].1.choices@.len() && (
                                            #[trigger] t.nodes@[i].1.choices@[c]).next_node_id@
                                                == t.nodes@[j].0@;
                                        assert(edges_done(t.nodes@, state0, u as int, ci as int));
                                        assert(state0[j] == 2);
                                        assert(j != u as int);
                                        assert(state@[j] == 2);
                                    } else {
                                        assert(state0[i] == 2);
                                        assert(state0[j] == 2 && rank[j] < rank[i] || j == u as int);
                                        assert(j != u as int) by {
                                            if j == u as int {
                                                assert(state0[j] == 1);
                                            }
                                        }
                                    }
                                }
                            }
                        }
                        assert(bc_stack_inv(t.nodes@, state@, stack@, fb_free)) by {
                            assert forall|i: int|
                                0 <= i < state@.len() && (#[trigger] state@[i]) == 1 implies exists|
                                f: int,
                            |
                                0 <= f < stack@.len() && (#[trigger] stack@[f]).0 == i by {
                                let f0 = choose|f0: int|
                                    0 <= f0 < stackpre.len() && (#[trigger] stackpre[f0]).0 == i;
                                assert(f0 < stackpre.len() - 1);
                                assert(stack@[f0].0 == i);
                            }
                        }
                        assert(work_sum(choice_lens(t.nodes@), stackpre) == work_sum(
                            choice_lens(t.nodes@),
                            stack@,
                        )) by {
                            assert(ci as int == choice_lens(t.nodes@)[u as int]);
                        }
                        lemma_work_sum_nonneg(choice_lens(t.nodes@), stack@);
                    }
                } else {
                    let tgt_opt = dict_find(&t.nodes, t.nodes[u].1.choices[ci].next_node_id.as_str());
                    match tgt_opt {
                        None => {
                            stack.push((u, ci + 1));
                            proof {
                                assert(stack@.drop_last() =~= stackpre.drop_last());
                                if quiet {
                                    lemma_quiet_pairs_retop(orig0, stackpre, stack@, u);
                                }
                                assert(work_sum(choice_lens(t.nodes@), stack@) == work_sum(
                                    choice_lens(t.nodes@),
                                    stackpre,
                                ) - 1);
                                lemma_stack_retop(
                                    t.nodes@,
                                    state@,
                                    stackpre,
                                    stack@,
                                    fb_free,
                                    u,
                                    ci,
                                    (ci + 1) as usize,
                                );
                            }
                        },
                        Some(j) => {
                            let stj = state[j];
                            if stj == 0 {
                                stack.push((u, ci));
                                stack.push((j, 0));
                                let ghost state1 = state@;
                                set_state(&mut state, j, 1);
                                let ghost whiteset0 = whiteset;
                                proof {
                                    assert(whiteset0.contains(j as int));
                                    whiteset = whiteset0.remove(j as int);
                                    assert(whiteset.len() == whiteset0.len() - 1);
                                    if quiet {
                                        let sl = stack@.len();
                                        assert(node_has_edge(orig0, u as int, j as int)) by {
                                            assert(t.nodes@[u as int].1.choices@[
                                            ci as int].next_node_id@ == t.nodes@[j as int].0@);
                                        }
                                        assert forall|f: int|
                                            0 <= f < stack@.len() - 1 implies node_has_edge(
                                            orig0,
                                            (#[trigger] stack@[f]).0 as int,
                                            stack@[f + 1].0 as int,
                                        ) by {
                                            if f < sl - 2 {
                                                assert(stack@[f] == stackpre[f]);
                                                assert(stack@[f + 1] == stackpre[f + 1]
                                                    || f + 1 == sl - 2);
                                                if f + 1 == sl - 2 {
                                                    assert(stack@[f + 1].0 == u);
                                                    assert(stackpre[f + 1].0 == u);
                                                }
                                            } else {
                                                assert(stack@[f].0 == u && stack@[f + 1].0 == j);
                                            }
                                        }
                                    }
                                    assert(bc_stack_inv(t.nodes@, state@, stack@, fb_free)) by {
                                        let sl = stack@.len();
                                        assert(stack@[sl - 1] == (j, 0usize));
                                        assert(stack@[sl - 2] == (u, ci));
                                        assert forall|f: int, g: int|
                                            0 <= f < g < stack@.len() implies (
                                        #[trigger] stack@[f]).0 != (#[trigger] stack@[g]).0 by {
                                            if g == sl - 1 {
                                                if f < sl - 2 {
                                                    assert(stack@[f] == stackpre[f]);
                                                    assert(state1[stack@[f].0 as int] == 1);
                                                } else {
                                                    assert(state1[u as int] == 1);
                                                }
                                            } else if g == sl - 2 {
                                                if f < sl - 2 {
                                                    assert(stack@[f] == stackpre[f]);
                                                    assert(stackpre[f].0 != stackpre[
                                                        stackpre.len() - 1].0);
                                                }
                                            } else {
                                                assert(stack@[f] == stackpre[f]);
                                                assert(stack@[g] == stackpre[g]);
                                            }
                                        }
                                        assert forall|i: int|
                                            0 <= i < state@.len() && (#[trigger] state@[i]) == 1
                                            implies exists|f: int|
                                            0 <= f < stack@.len() && (#[trigger] stack@[f]).0
                                                == i by {
                                            if i == j as int {
                                                assert(stack@[sl - 1].0 as int == i);
                                            } else if i == u as int {
                                                assert(stack@[sl - 2].0 as int == i);
                                            } else {
                                                let f0 = choose|f0: int|
                                                    0 <= f0 < stackpre.len() && (
                                                    #[trigger] stackpre[f0]).0 == i;
                                                assert(f0 < stackpre.len() - 1);
                                                assert(stack@[f0].0 == i);
                                            }
                                        }
                                        if fb_free {
                                            assert forall|f: int|
                                                0 <= f < stack@.len() implies edges_done(
                                                t.nodes@,
                                                state@,
                                                (#[trigger] stack@[f]).0 as int,
                                                stack@[f].1 as int,
                                            ) by {
                                                let fu = stack@[f].0 as int;
                                                let fc = stack@[f].1 as int;
                                                assert forall|c2: int, j2: int|
                                                    0 <= c2 < fc && c2 < t.nodes@[
                                                    fu].1.choices@.len() && 0 <= j2
                                                    < t.nodes@.len() && (#[trigger] t.nodes@[
                                                    fu].1.choices@[c2]).next_node_id@ == (
                                                #[trigger] t.nodes@[j2].0@) implies state@[j2]
                                                    == 2 by {
                                                    if f < sl - 2 {
                                                        assert(stack@[f] == stackpre[f]);
                                                        assert(edges_done(
                                                            t.nodes@,
                                                            state1,
                                                            fu,
                                                            fc,
                                                        ));
                                                        assert(state1[j2] == 2);
                                                    } else if f == sl - 2 {
                                                        assert(edges_done(
                                                            t.nodes@,
                                                            state1,
                                                            u as int,
                                                            ci as int,
                                                        ));
                                                        assert(state1[j2] == 2);
                                                    }
                                                }
                                            }
                                        }
                                    }
                                }
                            } else if stj == 2 {
                                stack.push((u, ci + 1));
                                proof {
                                    assert(stack@.drop_last() =~= stackpre.drop_last());
                                    if quiet {
                                        lemma_quiet_pairs_retop(orig0, stackpre, stack@, u);
                                    }
                                    assert(work_sum(choice_lens(t.nodes@), stack@) == work_sum(
                                        choice_lens(t.nodes@),
                                        stackpre,
                                    ) - 1);
                                    assert(keys_unique(t.nodes@)) by {
                                        assert forall|x: int, y: int|
                                            0 <= x < y < t.nodes@.len() implies t.nodes@[x].0@
                                            != t.nodes@[y].0@ by {
                                            assert(t.nodes@[x].0 == orig0[x].0 && t.nodes@[y].0
                                                == orig0[y].0);
                                        }
                                    }
                                    assert forall|j2: int|
                                        0 <= j2 < t.nodes@.len() && t.nodes@[u as int].1.choices@[
                                        ci as int].next_node_id@ == (#[trigger] t.nodes@[j2].0@)
                                        implies state@[j2] == 2 by {
                                        assert(t.nodes@[j as int].0@ == t.nodes@[j2].0@);
                                        assert(j2 == j as int);
                                    }
                                    lemma_stack_retop(
                                        t.nodes@,
                                        state@,
                                        stackpre,
                                        stack@,
                                        fb_free,
                                        u,
                                        ci,
                                        (ci + 1) as usize,
                                    );
                                }
                            } else {
                                // the target is in progress: a self-loop or a
                                // back edge, so break it here
                                let ghost nodespre = t.nodes@;
                                let (key, mut node) = t.nodes.remove(u);
                                let c = node.choices.remove(ci);
                                node.choices.insert(
                                    ci,
                                    Choice {
                                        text: c.text,
                                        next_node_id: fb.clone(),
                                        affinity_effect: c.affinity_effect,
                                    },
                                );
                                t.nodes.insert(u, (key, node));
                                stack.push((u, ci + 1));
                                proof {
                                    if quiet {
                                        // a target still in progress closes a
                                        // cycle through the traversal stack,
                                        // which an acyclic graph cannot have
                                        let p = choose|p: int|
                                            0 <= p < stackpre.len() && (#[trigger] stackpre[p]).0
                                                == j;
                                        let l = stackpre.len();
                                        let path = Seq::new(
                                            (l - p) as nat,
                                            |q: int| stackpre[p + q].0 as int,
                                        ).push(stackpre[p].0 as int);
                                        assert(is_cycle(orig0, path)) by {
                                            assert(path.len() == l - p + 1 >= 2);
                                            assert(path[0] == j as int);
                                            assert(path[path.len() - 1] == j as int);
                                            assert forall|q: int|
                                                0 <= q < path.len() implies 0 <= #[trigger] path[q]
                                                < orig0.len() by {
                                                if q < l - p {
                                                    assert(stackpre[p + q].0 < nodespre.len());
                                                }
                                            }
                                            assert forall|q: int|
                                                0 <= q < path.len() - 1 implies node_has_edge(
                                                orig0,
                                                #[trigger] path[q],
                                                path[q + 1],
                                            ) by {
                                                if q < l - p - 1 {
                                                    assert(path[q] == stackpre[p + q].0 as int);
                                                    assert(path[q + 1] == stackpre[p + q
                                                        + 1].0 as int);
                                                    assert(node_has_edge(
                                                        orig0,
                                                        stackpre[p + q].0 as int,
                                                        stackpre[p + q + 1].0 as int,
                                                    ));
                                                } else {
                                                    assert(q == l - p - 1);
                                                    assert(path[q] == stackpre[l - 1].0 as int);
                                                    assert(path[q] == u as int);
                                                    assert(path[q + 1] == j as int);
                                                    assert(node_has_edge(
                                                        orig0,
                                                        u as int,
                                                        j as int,
                                                    )) by {
                                                        assert(nodespre == orig0);
                                                        assert(nodespre[u as int].1.choices@[
                                                        ci as int].next_node_id@ == nodespre[
                                                        j as int].0@);
                                                    }
                                                }
                                            }
                                        }
                                        assert(!is_cycle(orig0, path));
                                        assert(false);
                                    }
                                    assert(t.nodes@ =~= nodespre.update(
                                        u as int,
                                        (nodespre[u as int].0, t.nodes@[u as int].1),
                                    ));
                                    assert(choice_lens(t.nodes@) =~= choice_lens(nodespre));
                                    assert forall|i2: int, c2: int|
                                        0 <= i2 < t.nodes@.len() && 0 <= c2 < (
                                    #[trigger] t.nodes@[i2]).1.choices@.len() && (
                                    #[trigger] t.nodes@[i2].1.choices@[c2]).next_node_id
                                        != orig0[i2].1.choices@[c2].next_node_id implies t.nodes@[
                                    i2].1.choices@[c2].next_node_id@ == fbv && map_has(
                                        orig0,
                                        orig0[i2].1.choices@[c2].next_node_id@,
                                    ) by {
                                        if i2 == u as int && c2 == ci as int {
                                            assert(t.nodes@[i2].1.choices@[c2].next_node_id@
                                                == fbv);
                                            if nodespre[i2].1.choices@[c2].next_node_id
                                                == orig0[i2].1.choices@[c2].next_node_id {
                                                assert(map_has(
                                                    nodespre,
                                                    nodespre[i2].1.choices@[c2].next_node_id@,
                                                )) by {
                                                    assert(nodespre[j as int].0@ == nodespre[
                                                    i2].1.choices@[c2].next_node_id@);
                                                }
                                                let w = idx_of(
                                                    nodespre,
                                                    orig0[i2].1.choices@[c2].next_node_id@,
                                                );
                                                assert(nodespre[w].0 == orig0[w].0);
                                                assert(map_has(
                                                    orig0,
                                                    orig0[i2].1.choices@[c2].next_node_id@,
                                                ));
                                            }
                                        } else {
                                            assert(t.nodes@[i2].1.choices@[c2]
                                                == nodespre[i2].1.choices@[c2]);
                                        }
                                    }
                                    assert(stack@.drop_last() =~= stackpre.drop_last());
                                    if quiet {
                                        lemma_quiet_pairs_retop(orig0, stackpre, stack@, u);
                                    }
                                    assert(work_sum(choice_lens(t.nodes@), stack@) == work_sum(
                                        choice_lens(t.nodes@),
                                        stackpre,
                                    ) - 1);
                                    let un = t.nodes@[u as int].1;
                                    let on = nodespre[u as int].1;
                                    assert(un.choices@ =~= on.choices@.update(
                                        ci as int,
                                        un.choices@[ci as int],
                                    ));
                                    assert(un.choices@[ci as int].next_node_id@ == fbv);
                                    // payload relation is preserved
                                    assert(bc_inv(
                                        orig0,
                                        t.nodes@,
                                        state@,
                                        rank,
                                        counter,
                                        whiteset,
                                        fbv,
                                        fb_free,
                                    )) by {
                                        assert forall|i: int|
                                            0 <= i < t.nodes@.len() implies cycle_node_ok(
                                            orig0[i].1,
                                            (#[trigger] t.nodes@[i]).1,
                                            fbv,
                                        ) by {
                                            if i != u as int {
                                                assert(t.nodes@[i] == nodespre[i]);
                                                assert(cycle_node_ok(
                                                    orig0[i].1,
                                                    nodespre[i].1,
                                                    fbv,
                                                ));
                                            } else {
                                                assert(cycle_node_ok(orig0[i].1, on, fbv));
                                            }
                                        }
                                        if fb_free {
                                            assert forall|i: int, j2: int|
                                                0 <= i < t.nodes@.len() && 0 <= j2
                                                < t.nodes@.len() && state@[i] == 2
                                                && #[trigger] node_has_edge(t.nodes@, i, j2)
                                                implies state@[j2] == 2 && rank[j2] < rank[i] by {
                                                assert(i != u as int);
                                                assert(t.nodes@[i] == nodespre[i]);
                                                assert(node_has_edge(nodespre, i, j2)) by {
                                                    let c2 = choose|c2: int|
                                                        0 <= c2 < t.nodes@[i].1.choices@.len() && (
                                                        #[trigger] t.nodes@[i].1.choices@[
                                                        c2]).next_node_id@ == t.nodes@[j2].0@;
                                                    assert(nodespre[i].1.choices@[c2].next_node_id@
                                                        == nodespre[j2].0@);
                                                }
                                            }
                                        }
                                    }
                                    assert(bc_stack_inv(t.nodes@, state@, stack@, fb_free)) by {
                                        let sl = stack@.len();
                                        assert forall|i: int|
                                            0 <= i < state@.len() && (#[trigger] state@[i]) == 1
                                            implies exists|f: int|
                                            0 <= f < stack@.len() && (#[trigger] stack@[f]).0
                                                == i by {
                                            if i == u as int {
                                                assert(stack@[sl - 1].0 as int == i);
                                            } else {
                                                let f0 = choose|f0: int|
                                                    0 <= f0 < stackpre.len() && (
                                                    #[trigger] stackpre[f0]).0 == i;
                                                assert(f0 < stackpre.len() - 1);
                                                assert(stack@[f0].0 == i);
                                            }
                                        }
                                        if fb_free {
                                            assert forall|f: int|
                                                0 <= f < stack@.len() implies edges_done(
                                                t.nodes@,
                                                state@,
                                                (#[trigger] stack@[f]).0 as int,
                                                stack@[f].1 as int,
                                            ) by {
                                                let fu = stack@[f].0 as int;
                                                let fc = stack@[f].1 as int;
                                                assert forall|c2: int, j2: int|
                                                    0 <= c2 < fc && c2 < t.nodes@[
                                                    fu].1.choices@.len() && 0 <= j2
                                                    < t.nodes@.len() && (#[trigger] t.nodes@[
                                                    fu].1.choices@[c2]).next_node_id@ == (
                                                #[trigger] t.nodes@[j2].0@) implies state@[j2]
                                                    == 2 by {
                                                    if f < sl - 1 {
                                                        assert(stack@[f] == stackpre[f]);
                                                        assert(stackpre[f].0 != u) by {
                                                            assert(stackpre[f].0 != stackpre[
                                                                stackpre.len() - 1].0);
                                                        }
                                                        assert(t.nodes@[fu] == nodespre[fu]);
                                                        assert(edges_done(
                                                            nodespre,
                                                            state@,
                                                            fu,
                                                            fc,
                                                        ));
                                                        assert(nodespre[fu].1.choices@[
                                                        c2].next_node_id@ == nodespre[j2].0@);
                                                        assert(state@[j2] == 2);
                                                    } else {
                                                        assert(fu == u as int && fc == ci + 1);
                                                        if c2 < ci {
                                                            assert(edges_done(
                                                                nodespre,
                                                                state@,
                                                                u as int,
                                                                ci as int,
                                                            ));
                                                            assert(un.choices@[c2]
                                                                == on.choices@[c2]);
                                                            assert(nodespre[u as int].1.choices@[
                                                            c2].next_node_id@ == nodespre[j2].0@);
                                                            assert(state@[j2] == 2);
                                                        } else {
                                                            assert(c2 == ci as int);
                                                            assert(t.nodes@[j2].0@ == fbv);
                                                            assert(t.nodes@[j2].0@
                                                                == orig0[j2].0@);
                                                            assert(map_has(orig0, fbv));
                                                            assert(false);
                                                        }
                                                    }
                                                }
                                            }
                                        }
                                    }
                                }
                            }
                        },
                    }
                }
                proof {
                    lemma_work_sum_nonneg(choice_lens(t.nodes@), stack@);
                }
            }
            proof {
                assert forall|i: int| 0 <= i < n implies (#[trigger] state@[i]) != 1 by {
                    if state@[i] == 1 {
                        let f = choose|f: int|
                            0 <= f < stack@.len() && (#[trigger] stack@[f]).0 == i;
                        assert(false);
                    }
                }
                assert(state@[kidx as int] == 2) by {
                    assert(state@[kidx as int] >= state_in[kidx as int]);
                    assert(state_in[kidx as int] == 1);
                    assert(state@[kidx as int] != 1);
                }
                assert forall|i: int|
                    0 <= i < n && state_in0[i] == 2 implies (#[trigger] state@[i]) == 2 by {
                    assert(state_in[i] == state_in0[i] || i == kidx as int);
                    assert(state@[i] >= state_in[i]);
                }
            }
        }
        proof {
            assert forall|i: int|
                0 <= i < n && state_in0[i] == 2 implies (#[trigger] state@[i]) == 2 by {}
            assert forall|j2: int, ii: int|
                0 <= j2 < oi + 1 && 0 <= ii < n && (#[trigger] t.nodes@[ii]).0@ == (
                #[trigger] order@[j2])@ implies state@[ii] == 2 by {
                if j2 < oi {
                    assert(nodes_outer[ii].0@ == orig0[ii].0@);
                    assert(t.nodes@[ii].0@ == orig0[ii].0@);
                    assert(state_in0[ii] == 2);
                } else {
                    let koi = order@[oi as int]@;
                    assert(t.nodes@[kidx as int].0@ == koi);
                    assert(t.nodes@[ii].0@ == orig0[ii].0@);
                    assert(t.nodes@[kidx as int].0@ == orig0[kidx as int].0@);
                    assert(ii == kidx as int);
                    assert(state@[kidx as int] != 0 && state@[kidx as int] != 1);
                }
            }
        }
        oi += 1;
    }
    proof {
        assert forall|i: int| 0 <= i < n implies (#[trigger] state@[i]) == 2 by {
            let a = choose|a: int| 0 <= a < order@.len() && (#[trigger] orig0[i]).0@ == order@[a]@;
            assert(t.nodes@[i].0@ == orig0[i].0@);
        }
        if fb_free {
            assert(rank_ok(t.nodes@, rank)) by {
                assert forall|i: int, j: int|
                    0 <= i < t.nodes@.len() && 0 <= j < t.nodes@.len() && #[trigger] node_has_edge(
                        t.nodes@,
                        i,
                        j,
                    ) implies rank[j] < rank[i] by {
                    assert(state@[i] == 2);
                }
            }
            lemma_rank_acyclic(t.nodes@, rank);
        }
        assert(keys_unique(t.nodes@)) by {
            assert forall|x: int, y: int|
                0 <= x < y < t.nodes@.len() implies t.nodes@[x].0@ != t.nodes@[y].0@ by {
                assert(t.nodes@[x].0 == orig0[x].0 && t.nodes@[y].0 == orig0[y].0);
            }
        }
    }
    fb
}

/// The fallback terminal key as an owned string: the canonical neutral
/// ending when present, else the smallest existing ending key, else the
/// literal sentinel.
pub fn fallback_terminal_key(endings: &Vec<(String, crate::types::Ending)>) -> (r: String)
    ensures
        terminal_fallback_ok(endings@, r@),
{
    if dict_contains(endings, "ending_neutral") {
        "ending_neutral".to_owned()
    } else if endings.len() > 0 {
        min_ending_key(endings)
    } else {
        "END".to_owned()
    }
}

/// Whether `k` is the lexicographically smallest ending key.
pub open spec fn is_min_ending_key(
    endings: Seq<(String, crate::types::Ending)>,
    k: Seq<char>,
) -> bool {
    map_has(endings, k) && forall|i: int|
        0 <= i < endings.len() ==> lex_le(k, (#[trigger] endings[i]).0@)
}

/// Whether a raw choice target is kept as it stands by reference repair:
/// its trimmed form is nonempty and is the sentinel, a node key or an
/// ending key.
pub open spec fn keeps_target(
    nodes: Seq<(String, StoryNode)>,
    endings: Seq<(String, crate::types::Ending)>,
    tgt: Seq<char>,
) -> bool {
    let tv = trim_of(tgt);
    tv.len() > 0 && (tv == "END"@ || map_has(nodes, tv) || map_has(endings, tv))
}

/// How one choice relates to its pre-repair self.
pub open spec fn repaired_choice(
    nodes: Seq<(String, StoryNode)>,
    endings: Seq<(String, crate::types::Ending)>,
    fb2: Seq<char>,
    o: Choice,
    c: Choice,
) -> bool {
    &&& c.text == o.text
    &&& c.affinity_effect == o.affinity_effect
    &&& (keeps_target(nodes, endings, o.next_node_id@) ==> c.next_node_id == o.next_node_id)
    &&& (!keeps_target(nodes, endings, o.next_node_id@) ==> c.next_node_id@ == fb2)
}

/// Whether a node's terminal marker names an existing ending.
pub open spec fn marker_valid(
    endings: Seq<(String, crate::types::Ending)>,
    n: StoryNode,
) -> bool {
    match n.ending_key {
        Some(k) => map_has(endings, k@),
        None => false,
    }
}

/// How one node relates to its pre-repair self after all of pass C.
pub open spec fn repaired_node(
    nodes: Seq<(String, StoryNode)>,
    endings: Seq<(String, crate::types::Ending)>,
    fb2: Seq<char>,
    o: StoryNode,
    n: StoryNode,
) -> bool {
    &&& n.id == o.id
    &&& n.content == o.content
    &&& n.level == o.level
    &&& n.characters == o.characters
    &&& (if marker_valid(endings, o) {
        // terminal nodes cannot also branch
        n.ending_key == o.ending_key && n.choices@.len() == 0
    } else {
        // choices repaired pointwise; a node left without choices and
        // without a valid marker is assigned the canonical fallback when
        // that is a real ending
        (n.choices@.len() == o.choices@.len() && (forall|j: int|
            0 <= j < n.choices@.len() ==> repaired_choice(
                nodes,
                endings,
                fb2,
                o.choices@[j],
                (#[trigger] n.choices@[j]),
            )) && (if o.choices@.len() == 0 && map_has(endings, "ending_neutral"@) {
            match n.ending_key {
                Some(k2) => k2@ == "ending_neutral"@,
                None => false,
            }
        } else {
            n.ending_key == o.ending_key
        }))
    })
}

/// Whether some string in the vector has view `k`.
pub open spec fn contains_str(vs: Seq<String>, k: Seq<char>) -> bool {
    exists|i: int| 0 <= i < vs.len() && (#[trigger] vs[i])@ == k
}

fn str_vec_contains(v: &Vec<String>, s: &str) -> (r: bool)
    ensures
        r == contains_str(v@, s@),
{
    let n = v.len();
    let mut i: usize = 0;
    while i < n
        invariant
            n == v.len(),
            i <= n,
            forall|j: int| 0 <= j < i ==> (#[trigger] v@[j])@ != s@,
        decreases n - i,
    {
        if str_eq(v[i].as_str(), s) {
            return true;
        }
        i += 1;
    }
    false
}

/// The lexicographically smallest ending key; meaningful only when the
/// ending map is nonempty.
fn min_ending_key(endings: &Vec<(String, crate::types::Ending)>) -> (r: String)
    requires
        endings@.len() > 0,
    ensures
        is_min_ending_key(endings@, r@),
{
    let n = endings.len();
    let mut best = endings[0].0.clone();
    proof {
        crate::text::lemma_lex_refl(best@);
    }
    let mut i: usize = 1;
    while i < n
        invariant
            n == endings@.len(),
            1 <= i <= n,
            map_has(endings@, best@),
            forall|j: int| 0 <= j < i ==> lex_le(best@, (#[trigger] endings@[j]).0@),
        decreases n - i,
    {
        if crate::text::str_le(endings[i].0.as_str(), best.as_str()) {
            let newbest = endings[i].0.clone();
            proof {
                assert forall|j: int| 0 <= j < i + 1 implies lex_le(
                    newbest@,
                    (#[trigger] endings@[j]).0@,
                ) by {
                    if j < i {
                        crate::text::lemma_lex_trans(newbest@, best@, endings@[j].0@);
                    } else {
                        crate::text::lemma_lex_refl(newbest@);
                    }
                }
            }
            best = newbest;
        } else {
            proof {
                crate::text::lemma_lex_total(endings@[i as int].0@, best@);
            }
        }
        i += 1;
    }
    best
}

/// Pass C of the sanitizer: reference repair and terminal consistency.
///
/// Every blank or unresolvable choice target is rewritten to the fallback
/// terminal key (the canonical fallback if it is a real ending, else the
/// smallest ending key, else the sentinel `END`); a target already naming
/// a node, an ending or the sentinel is left alone. Every node whose
/// terminal marker names an existing ending has its choices cleared, and
/// every node left without choices and without a valid marker is assigned
/// the canonical fallback ending when one exists. Returns the fallback key
/// that was used for rewrites.
pub fn repair_references(t: &mut MovieTemplate) -> (fb2: String)
    requires
        old(t).wf(),
    ensures
        final(t).wf(),
        final(t).endings == old(t).endings,
        final(t).characters == old(t).characters,
        final(t).meta == old(t).meta,
        final(t).title == old(t).title,
        final(t).project_id == old(t).project_id,
        final(t).version == old(t).version,
        final(t).owner == old(t).owner,
        final(t).background_image_base64 == old(t).background_image_base64,
        final(t).provenance == old(t).provenance,
        terminal_fallback_ok(old(t).endings@, fb2@),
        final(t).nodes@.len() == old(t).nodes@.len(),
        forall|i: int|
            0 <= i < final(t).nodes@.len() ==> (#[trigger] final(t).nodes@[i]).0 == old(
                t,
            ).nodes@[i].0,
        forall|i: int|
            0 <= i < final(t).nodes@.len() ==> repaired_node(
                old(t).nodes@,
                old(t).endings@,
                fb2@,
                old(t).nodes@[i].1,
                (#[trigger] final(t).nodes@[i]).1,
            ),
{
    let ghost orig = t.nodes@;
    let ghost ends = t.endings@;
    let node_keys = dict_keys(&t.nodes);
    let fb2 = fallback_terminal_key(&t.endings);
    let ghost fb2v = fb2@;
    let mut new_nodes: Vec<(String, StoryNode)> = Vec::new();
    while t.nodes.len() > 0
        invariant
            t.endings == old(t).endings,
            t.characters == old(t).characters,
            t.meta == old(t).meta,
            t.title == old(t).title,
            t.project_id == old(t).project_id,
            t.version == old(t).version,
            t.owner == old(t).owner,
            t.background_image_base64 == old(t).background_image_base64,
            t.provenance == old(t).provenance,
            keys_unique(old(t).endings@),
            keys_unique(old(t).characters@),
            orig == old(t).nodes@,
            ends == old(t).endings@,
            t.endings@ == ends,
            keys_unique(orig),
            fb2@ == fb2v,
            terminal_fallback_ok(ends, fb2v),
            node_keys@.len() == orig.len(),
            forall|i: int| 0 <= i < orig.len() ==> (#[trigger] node_keys@[i]) == orig[i].0,
            t.nodes@.len() <= orig.len(),
            t.nodes@ =~= orig.skip(orig.len() - t.nodes@.len()),
            new_nodes@.len() == orig.len() - t.nodes@.len(),
            forall|i: int|
                0 <= i < new_nodes@.len() ==> (#[trigger] new_nodes@[i]).0 == orig[i].0,
            forall|i: int|
                0 <= i < new_nodes@.len() ==> repaired_node(
                    orig,
                    ends,
                    fb2v,
                    orig[i].1,
                    (#[trigger] new_nodes@[i]).1,
                ),
        decreases t.nodes@.len(),
    {
        let ghost done = orig.len() - t.nodes@.len();
        let (key, node) = t.nodes.remove(0);
        proof {
            assert((key, node) == orig[done]);
        }
        let valid_marker = match &node.ending_key {
            Some(k) => dict_contains(&t.endings, k.as_str()),
            None => false,
        };
        let n2 = if valid_marker {
            StoryNode {
                id: node.id,
                content: node.content,
                ending_key: node.ending_key,
                level: node.level,
                characters: node.characters,
                choices: Vec::new(),
            }
        } else {
            let mut rest = node.choices;
            let ghost allc = rest@;
            let mut new_choices: Vec<Choice> = Vec::new();
            while rest.len() > 0
                invariant
                    t.endings@ == ends,
                    orig == old(t).nodes@,
                    keys_unique(orig),
                    fb2@ == fb2v,
                    node_keys@.len() == orig.len(),
                    forall|i: int|
                        0 <= i < orig.len() ==> (#[trigger] node_keys@[i]) == orig[i].0,
                    allc.len() == new_choices@.len() + rest@.len(),
                    rest@ =~= allc.skip(new_choices@.len() as int),
                    forall|j: int|
                        0 <= j < new_choices@.len() ==> repaired_choice(
                            orig,
                            ends,
                            fb2v,
                            allc[j],
                            (#[trigger] new_choices@[j]),
                        ),
                decreases rest@.len(),
            {
                let c = rest.remove(0);
                proof {
                    assert(c == allc[new_choices@.len() as int]);
                }
                let tv = str_trim(c.next_node_id.as_str());
                let keep = if tv.as_str().is_empty() {
                    false
                } else if str_eq(tv.as_str(), "END") {
                    true
                } else if str_vec_contains(&node_keys, tv.as_str()) {
                    proof {
                        let w = choose|w: int|
                            0 <= w < node_keys@.len() && (#[trigger] node_keys@[w])@ == tv@;
                        assert(orig[w].0@ == tv@);
                    }
                    true
                } else if dict_contains(&t.endings, tv.as_str()) {
                    true
                } else {
                    proof {
                        if map_has(orig, tv@) {
                            let w = idx_of(orig, tv@);
                            assert(0 <= w < orig.len() && orig[w].0@ == tv@);
                            assert(node_keys@[w]@ == tv@);
                        }
                    }
                    false
                };
                if keep {
                    new_choices.push(c);
                } else {
                    new_choices.push(
                        Choice {
                            text: c.text,
                            next_node_id: fb2.clone(),
                            affinity_effect: c.affinity_effect,
                        },
                    );
                }
                proof {
                    assert(rest@ =~= allc.skip(new_choices@.len() as int));
                }
            }
            let assign_marker = new_choices.len() == 0 && dict_contains(
                &t.endings,
                "ending_neutral",
            );
            StoryNode {
                id: node.id,
                content: node.content,
                ending_key: if assign_marker {
                    Some("ending_neutral".to_owned())
                } else {
                    node.ending_key
                },
                level: node.level,
                characters: node.characters,
                choices: new_choices,
            }
        };
        new_nodes.push((key, n2));
        proof {
            assert(t.nodes@ =~= orig.skip(orig.len() - t.nodes@.len()));
            assert(repaired_node(orig, ends, fb2v, orig[done].1, new_nodes@[done].1));
        }
    }
    t.nodes = new_nodes;
    proof {
        assert(keys_unique(t.nodes@)) by {
            assert forall|x: int, y: int|
                0 <= x < y < t.nodes@.len() implies t.nodes@[x].0@ != t.nodes@[y].0@ by {
                assert(t.nodes@[x].0 == orig[x].0 && t.nodes@[y].0 == orig[y].0);
            }
        }
    }
    fb2
}

/// No node key collides with an ending key or the sentinel. This always
/// holds of sensibly keyed graphs; it is the condition under which cycle
/// breaking can never accidentally re-enter the node map.
pub open spec fn keys_endings_disjoint(
    nodes: Seq<(String, StoryNode)>,
    endings: Seq<(String, crate::types::Ending)>,
) -> bool {
    &&& forall|i: int| 0 <= i < endings.len() ==> !map_has(nodes, (#[trigger] endings[i]).0@)
    &&& !map_has(nodes, "END"@)
}

/// Every choice target resolves to a node key, an ending key or the
/// sentinel (directly or after trimming).
pub open spec fn target_resolved(
    nodes: Seq<(String, StoryNode)>,
    endings: Seq<(String, crate::types::Ending)>,
    tgt: Seq<char>,
) -> bool {
    ||| map_has(nodes, trim_of(tgt))
    ||| map_has(endings, trim_of(tgt))
    ||| trim_of(tgt) == "END"@
    ||| map_has(endings, tgt)
    ||| tgt == "END"@
}

proof fn lemma_repair_preserves_acyclic(
    nodes_b: Seq<(String, StoryNode)>,
    endings: Seq<(String, crate::types::Ending)>,
    fb2v: Seq<char>,
    nodes_c: Seq<(String, StoryNode)>,
)
    requires
        nodes_b.len() == nodes_c.len(),
        forall|i: int| 0 <= i < nodes_c.len() ==> (#[trigger] nodes_c[i]).0 == nodes_b[i].0,
        forall|i: int|
            0 <= i < nodes_c.len() ==> repaired_node(
                nodes_b,
                endings,
                fb2v,
                nodes_b[i].1,
                (#[trigger] nodes_c[i]).1,
            ),
        !map_has(nodes_b, fb2v),
        acyclic(nodes_b),
    ensures
        acyclic(nodes_c),
{
    assert forall|p: Seq<int>| !is_cycle(nodes_c, p) by {
        if is_cycle(nodes_c, p) {
            assert forall|k: int| 0 <= k < p.len() - 1 implies node_has_edge(
                nodes_b,
                #[trigger] p[k],
                p[k + 1],
            ) by {
                let i = p[k];
                let j = p[k + 1];
                assert(node_has_edge(nodes_c, i, j));
                let c = choose|c: int|
                    0 <= c < nodes_c[i].1.choices@.len() && (#[trigger] nodes_c[i].1.choices@[
                    c]).next_node_id@ == nodes_c[j].0@;
                assert(repaired_node(nodes_b, endings, fb2v, nodes_b[i].1, nodes_c[i].1));
                if marker_valid(endings, nodes_b[i].1) {
                    assert(nodes_c[i].1.choices@.len() == 0);
                    assert(false);
                } else {
                    assert(repaired_choice(
                        nodes_b,
                        endings,
                        fb2v,
                        nodes_b[i].1.choices@[c],
                        nodes_c[i].1.choices@[c],
                    ));
                    if keeps_target(nodes_b, endings, nodes_b[i].1.choices@[c].next_node_id@) {
                        assert(nodes_b[i].1.choices@[c].next_node_id@ == nodes_b[j].0@);
                    } else {
                        assert(nodes_c[i].1.choices@[c].next_node_id@ == fb2v);
                        assert(nodes_b[j].0@ == fb2v);
                        assert(map_has(nodes_b, fb2v));
                        assert(false);
                    }
                }
            }
            assert(is_cycle(nodes_b, p));
            assert(false);
        }
    }
}

/// Two keys that both satisfy the fallback rule are the same key.
proof fn lemma_fallback_unique(
    endings: Seq<(String, crate::types::Ending)>,
    a: Seq<char>,
    b: Seq<char>,
)
    requires
        terminal_fallback_ok(endings, a),
        terminal_fallback_ok(endings, b),
    ensures
        a == b,
{
    if !map_has(endings, "ending_neutral"@) && endings.len() > 0 {
        assert(lex_le(a, b) && lex_le(b, a)) by {
            let ia = idx_of(endings, a);
            let ib = idx_of(endings, b);
            assert(0 <= ia < endings.len() && endings[ia].0@ == a);
            assert(0 <= ib < endings.len() && endings[ib].0@ == b);
            assert(lex_le(a, endings[ib].0@));
            assert(lex_le(b, endings[ia].0@));
        }
        crate::text::lemma_lex_antisym(a, b);
    }
}

/// The full relation between the sanitizer's input and output: the
/// duplicate-collapse, cycle-elimination and reference-repair relations
/// chained through the two intermediate node maps, with the returned
/// redirect map and fallback key.
pub open spec fn sanitize_stages(
    nodes0: Seq<(String, StoryNode)>,
    endings: Seq<(String, crate::types::Ending)>,
    red: Seq<(String, String)>,
    fb: Seq<char>,
    mid_a: Seq<(String, StoryNode)>,
    mid_b: Seq<(String, StoryNode)>,
    nodes_fin: Seq<(String, StoryNode)>,
) -> bool {
    // duplicate collapse: the redirect map pairs deleted duplicates with
    // surviving owners of equal incoming signature
    &&& keys_unique(red)
    &&& forall|a: int|
        0 <= a < red.len() ==> {
            &&& map_has(nodes0, (#[trigger] red[a]).0@)
            &&& map_has(nodes0, red[a].1@)
            &&& red[a].0@ != red[a].1@
            &&& sig_of(map_val(nodes0, red[a].0@)) == sig_of(map_val(nodes0, red[a].1@))
            &&& !map_has(mid_a, red[a].0@)
            &&& map_has(mid_a, red[a].1@)
        }
    &&& mid_a.len() <= nodes0.len()
    &&& keys_unique(mid_a)
    &&& forall|i: int|
        0 <= i < mid_a.len() ==> map_has(nodes0, (#[trigger] mid_a[i]).0@) && !map_has(
            red,
            mid_a[i].0@,
        )
    &&& forall|j: int|
        0 <= j < nodes0.len() ==> map_has(red, (#[trigger] nodes0[j]).0@) || map_has(
            mid_a,
            nodes0[j].0@,
        )
    &&& forall|i: int, j: int|
        0 <= i < j < mid_a.len() ==> sig_of(map_val(nodes0, (#[trigger] mid_a[i]).0@)) != sig_of(
            map_val(nodes0, (#[trigger] mid_a[j]).0@),
        )
    &&& forall|i: int|
        0 <= i < mid_a.len() ==> dedup_survivor_ok(red, nodes0, (#[trigger] mid_a[i]))
    // cycle elimination
    &&& terminal_fallback_ok(endings, fb)
    &&& mid_b.len() == mid_a.len()
    &&& forall|i: int| 0 <= i < mid_b.len() ==> (#[trigger] mid_b[i]).0 == mid_a[i].0
    &&& forall|i: int|
        0 <= i < mid_b.len() ==> cycle_node_ok(mid_a[i].1, (#[trigger] mid_b[i]).1, fb)
    &&& forall|i: int, c: int|
        0 <= i < mid_b.len() && 0 <= c < (#[trigger] mid_b[i]).1.choices@.len() && (
        #[trigger] mid_b[i].1.choices@[c]).next_node_id != mid_a[i].1.choices@[c].next_node_id
            ==> map_has(mid_a, mid_a[i].1.choices@[c].next_node_id@)
    &&& (!map_has(mid_a, fb) ==> acyclic(mid_b))
    &&& (!map_has(mid_a, fb) && acyclic(mid_a) ==> mid_b == mid_a)
    // reference repair and terminal consistency
    &&& nodes_fin.len() == mid_b.len()
    &&& forall|i: int| 0 <= i < nodes_fin.len() ==> (#[trigger] nodes_fin[i]).0 == mid_b[i].0
    &&& forall|i: int|
        0 <= i < nodes_fin.len() ==> repaired_node(
            mid_b,
            endings,
            fb,
            mid_b[i].1,
            (#[trigger] nodes_fin[i]).1,
        )
}

/// The graph sanitizer: duplicate collapse, cycle elimination, reference
/// repair and terminal consistency, in that order. Returns the applied
/// redirect map, the fallback terminal key, and (as a ghost witness) the
/// two intermediate node maps, through which the contract chains the
/// exact relations of the three passes.
///
/// When node keys do not collide with ending keys or the sentinel, the
/// resulting choice graph is acyclic and has no self-loops; every choice
/// target resolves; and every node is terminal exactly when its marker
/// names an existing ending, except that a node may stay terminal and
/// unmarked when no fallback ending exists at all.
pub fn sanitize_template_graph(t: &mut MovieTemplate) -> (r: (
    Vec<(String, String)>,
    String,
    Ghost<(Seq<(String, StoryNode)>, Seq<(String, StoryNode)>)>,
))
    requires
        old(t).wf(),
    ensures
        final(t).wf(),
        terminal_fallback_ok(old(t).endings@, r.1@),
        sanitize_stages(
            old(t).nodes@,
            old(t).endings@,
            r.0@,
            r.1@,
            r.2@.0,
            r.2@.1,
            final(t).nodes@,
        ),
        final(t).endings == old(t).endings,
        final(t).characters == old(t).characters,
        final(t).meta == old(t).meta,
        final(t).title == old(t).title,
        final(t).project_id == old(t).project_id,
        final(t).version == old(t).version,
        final(t).owner == old(t).owner,
        final(t).background_image_base64 == old(t).background_image_base64,
        final(t).provenance == old(t).provenance,
        final(t).nodes@.len() <= old(t).nodes@.len(),
        forall|i: int|
            0 <= i < final(t).nodes@.len() ==> map_has(
                old(t).nodes@,
                (#[trigger] final(t).nodes@[i]).0@,
            ),
        // acyclicity, hence also the absence of self-loops
        keys_endings_disjoint(old(t).nodes@, old(t).endings@) ==> acyclic(final(t).nodes@),
        keys_endings_disjoint(old(t).nodes@, old(t).endings@) ==> forall|i: int, j: int|
            0 <= i < final(t).nodes@.len() && 0 <= j < (#[trigger] final(t).nodes@[
            i]).1.choices@.len() ==> (#[trigger] final(t).nodes@[i].1.choices@[j]).next_node_id@
            != final(t).nodes@[i].0@,
        // referential closure
        forall|i: int, j: int|
            0 <= i < final(t).nodes@.len() && 0 <= j < (#[trigger] final(t).nodes@[
            i]).1.choices@.len() ==> target_resolved(
                final(t).nodes@,
                final(t).endings@,
                (#[trigger] final(t).nodes@[i].1.choices@[j]).next_node_id@,
            ),
        // terminal consistency
        forall|i: int|
            0 <= i < final(t).nodes@.len() && marker_valid(
                final(t).endings@,
                (#[trigger] final(t).nodes@[i]).1,
            ) ==> final(t).nodes@[i].1.choices@.len() == 0,
        forall|i: int|
            0 <= i < final(t).nodes@.len() && (#[trigger] final(t).nodes@[i]).1.choices@.len()
                == 0 ==> marker_valid(final(t).endings@, final(t).nodes@[i].1) || !map_has(
                final(t).endings@,
                "ending_neutral"@,
            ),
{
    let ghost orig = t.nodes@;
    let ghost ends = t.endings@;
    let red = dedup_nodes(t);
    let ghost nodes_a = t.nodes@;
    let fbb = break_cycles(t);
    let ghost nodes_b = t.nodes@;
    let fb2 = repair_references(t);
    proof {
        lemma_fallback_unique(ends, fbb@, fb2@);
        assert(sanitize_stages(orig, ends, red@, fb2@, nodes_a, nodes_b, t.nodes@)) by {
            assert(fbb@ == fb2@);
        }
        let fin = t.nodes@;
        // keys survive from the original map
        assert forall|i: int| 0 <= i < fin.len() implies map_has(
            orig,
            (#[trigger] fin[i]).0@,
        ) by {
            assert(fin[i].0 == nodes_b[i].0);
            assert(nodes_b[i].0 == nodes_a[i].0);
            assert(map_has(orig, nodes_a[i].0@));
        }
        if keys_endings_disjoint(orig, ends) {
            // the pass-B fallback key is not a node key
            assert(!map_has(nodes_a, fbb@)) by {
                if map_has(nodes_a, fbb@) {
                    let w = idx_of(nodes_a, fbb@);
                    assert(map_has(orig, nodes_a[w].0@));
                    if map_has(ends, "ending_neutral"@) {
                        assert(fbb@ == "ending_neutral"@);
                        let e = idx_of(ends, "ending_neutral"@);
                        assert(!map_has(orig, ends[e].0@));
                        assert(false);
                    } else if ends.len() > 0 {
                        assert(is_min_ending_key(ends, fbb@));
                        let e = idx_of(ends, fbb@);
                        assert(!map_has(orig, ends[e].0@));
                        assert(false);
                    } else {
                        assert(fbb@ == "END"@);
                        assert(false);
                    }
                }
            }
            assert(acyclic(nodes_b));
            // the pass-C fallback key is not a node key either
            assert(!map_has(nodes_b, fb2@)) by {
                if map_has(nodes_b, fb2@) {
                    let w = idx_of(nodes_b, fb2@);
                    assert(nodes_b[w].0 == nodes_a[w].0);
                    assert(map_has(orig, nodes_a[w].0@));
                    if map_has(ends, "ending_neutral"@) {
                        assert(fb2@ == "ending_neutral"@);
                        let e = idx_of(ends, "ending_neutral"@);
                        assert(!map_has(orig, ends[e].0@));
                        assert(false);
                    } else if ends.len() > 0 {
                        assert(is_min_ending_key(ends, fb2@));
                        let e = idx_of(ends, fb2@);
                        assert(!map_has(orig, ends[e].0@));
                        assert(false);
                    } else {
                        assert(fb2@ == "END"@);
                        assert(false);
                    }
                }
            }
            lemma_repair_preserves_acyclic(nodes_b, ends, fb2@, fin);
            assert forall|i: int, j: int|
                0 <= i < fin.len() && 0 <= j < (#[trigger] fin[i]).1.choices@.len() implies (
            #[trigger] fin[i].1.choices@[j]).next_node_id@ != fin[i].0@ by {
                if fin[i].1.choices@[j].next_node_id@ == fin[i].0@ {
                    assert(node_has_edge(fin, i, i));
                    let p = seq![i, i];
                    assert(p.len() == 2 && p[0] == p[p.len() - 1]);
                    assert(forall|k: int| 0 <= k < p.len() ==> 0 <= #[trigger] p[k] < fin.len());
                    assert forall|k: int| 0 <= k < p.len() - 1 implies node_has_edge(
                        fin,
                        #[trigger] p[k],
                        p[k + 1],
                    ) by {
                        assert(k == 0);
                    }
                    assert(is_cycle(fin, p));
                    assert(false);
                }
            }
        }
        // referential closure from the repaired-node relation
        assert forall|i: int, j: int|
            0 <= i < fin.len() && 0 <= j < (#[trigger] fin[i]).1.choices@.len() implies
            target_resolved(fin, ends, (#[trigger] fin[i].1.choices@[j]).next_node_id@) by {
            assert(repaired_node(nodes_b, ends, fb2@, nodes_b[i].1, fin[i].1));
            if marker_valid(ends, nodes_b[i].1) {
                assert(fin[i].1.choices@.len() == 0);
            } else {
                let oc = nodes_b[i].1.choices@[j];
                let nc = fin[i].1.choices@[j];
                assert(repaired_choice(nodes_b, ends, fb2@, oc, nc));
                if keeps_target(nodes_b, ends, oc.next_node_id@) {
                    let tv = trim_of(oc.next_node_id@);
                    if map_has(nodes_b, tv) {
                        let w = idx_of(nodes_b, tv);
                        assert(fin[w].0@ == tv);
                        assert(map_has(fin, tv));
                    }
                } else {
                    assert(nc.next_node_id@ == fb2@);
                    if map_has(ends, "ending_neutral"@) {
                        assert(fb2@ == "ending_neutral"@);
                        assert(map_has(ends, fb2@));
                    } else if ends.len() > 0 {
                        assert(is_min_ending_key(ends, fb2@));
                    } else {
                        assert(fb2@ == "END"@);
                    }
                }
            }
        }
        // terminal consistency from the repaired-node relation
        assert forall|i: int|
            0 <= i < fin.len() && marker_valid(ends, (#[trigger] fin[i]).1) implies fin[
            i].1.choices@.len() == 0 by {
            assert(repaired_node(nodes_b, ends, fb2@, nodes_b[i].1, fin[i].1));
            if !marker_valid(ends, nodes_b[i].1) {
                if nodes_b[i].1.choices@.len() == 0 && map_has(ends, "ending_neutral"@) {
                    assert(fin[i].1.choices@.len() == 0);
                } else {
                    assert(fin[i].1.ending_key == nodes_b[i].1.ending_key);
                    assert(false);
                }
            }
        }
        assert forall|i: int|
            0 <= i < fin.len() && (#[trigger] fin[i]).1.choices@.len() == 0 implies marker_valid(
            ends,
            fin[i].1,
        ) || !map_has(ends, "ending_neutral"@) by {
            assert(repaired_node(nodes_b, ends, fb2@, nodes_b[i].1, fin[i].1));
            if marker_valid(ends, nodes_b[i].1) {
                assert(fin[i].1.ending_key == nodes_b[i].1.ending_key);
            } else {
                if map_has(ends, "ending_neutral"@) {
                    assert(nodes_b[i].1.choices@.len() == fin[i].1.choices@.len());
                    assert(nodes_b[i].1.choices@.len() == 0);
                    assert(match fin[i].1.ending_key {
                        Some(k2) => k2@ == "ending_neutral"@,
                        None => false,
                    });
                    let e = idx_of(ends, "ending_neutral"@);
                    assert(marker_valid(ends, fin[i].1));
                }
            }
        }
    }
    (red, fb2, Ghost((nodes_a, nodes_b)))
}

/// Set one state cell.
fn set_state(state: &mut Vec<u8>, i: usize, v: u8)
    requires
        i < old(state)@.len(),
    ensures
        final(state)@ == old(state)@.update(i as int, v),
{
    let _ = state.remove(i);
    state.insert(i, v);
    proof {
        assert(state@ =~= old(state)@.update(i as int, v));
    }
}

} // verus!
