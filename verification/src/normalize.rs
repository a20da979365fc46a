//! Key normalizer: stable, collision-free keys for the node and cast maps.
//!
//! Node keys have known legacy prefixes stripped until none remains; the
//! entry node's variant spellings all land on the literal key `start`. When
//! stripping makes two keys collide, the later key (in lexicographic order
//! of the original keys) gets a numeric suffix. Every choice target that
//! referenced an old key is rewritten to the new one, and each node's `id`
//! field is resynchronized with its map key.

use vstd::prelude::*;

use crate::dict::{dict_find, dict_insert, dict_keys, sort_strings, sorted_lex, views_of};
use crate::text::{
    chars_concat, chars_skip, chars_start_with, chars_string, dec_of, lemma_dec_injective,
    starts_with, str_chars,
};
use crate::types::{
    idx_of, keys_unique, map_has, map_val, Character, Choice, MovieTemplate, StoryNode,
};

verus! {

/// The canonical form of a node key: the legacy prefixes stripped off, as
/// often as they occur, so long as something remains.
pub open spec fn strip_key(k: Seq<char>) -> Seq<char>
    decreases k.len(),
{
    if starts_with(k, "node_"@) && k.len() > 5 {
        strip_key(k.skip(5))
    } else if starts_with(k, "n_"@) && k.len() > 2 {
        strip_key(k.skip(2))
    } else {
        k
    }
}

/// Stripping is idempotent: a canonical key is a fixed point of the
/// normalizer's key rule.
pub proof fn lemma_strip_idempotent(k: Seq<char>)
    ensures
        strip_key(strip_key(k)) == strip_key(k),
    decreases k.len(),
{
    if starts_with(k, "node_"@) && k.len() > 5 {
        lemma_strip_idempotent(k.skip(5));
    } else if starts_with(k, "n_"@) && k.len() > 2 {
        lemma_strip_idempotent(k.skip(2));
    }
}

/// Whether `v` is `base` carrying the smallest numeric suffix whose
/// result is not yet a value of `m`: suffix numbers are tried in order
/// from two.
pub open spec fn first_free_suffix(
    m: Seq<(String, String)>,
    base: Seq<char>,
    v: Seq<char>,
) -> bool {
    exists|n: nat|
        n >= 2 && v == base + "_"@ + #[trigger] dec_of(n) && !vals_taken(
            m,
            base + "_"@ + dec_of(n),
        ) && (forall|t: nat| 2 <= t < n ==> vals_taken(m, base + "_"@ + #[trigger] dec_of(t)))
}

fn canon_key_chars(k: Vec<char>) -> (r: Vec<char>)
    ensures
        r@ == strip_key(k@),
    decreases k@.len(),
{
    let p_node = str_chars("node_");
    let p_n = str_chars("n_");
    proof {
        reveal_strlit("node_");
        reveal_strlit("n_");
        assert(p_node@ == "node_"@ && p_n@ == "n_"@);
    }
    if chars_start_with(&k, &p_node) && k.len() > 5 {
        canon_key_chars(chars_skip(&k, 5))
    } else if chars_start_with(&k, &p_n) && k.len() > 2 {
        canon_key_chars(chars_skip(&k, 2))
    } else {
        k
    }
}

/// Canonical (stripped) form of one node key.
pub fn canon_node_key(k: &str) -> (r: String)
    ensures
        r@ == strip_key(k@),
{
    let v = str_chars(k);
    let c = canon_key_chars(v);
    chars_string(&c)
}

/// Whether some entry's value has view `v`.
pub open spec fn vals_taken(m: Seq<(String, String)>, v: Seq<char>) -> bool {
    exists|i: int| 0 <= i < m.len() && (#[trigger] m[i].1@) == v
}

fn value_taken(m: &Vec<(String, String)>, v: &str) -> (r: bool)
    ensures
        r == vals_taken(m@, v@),
{
    let n = m.len();
    let mut i: usize = 0;
    while i < n
        invariant
            n == m.len(),
            i <= n,
            forall|j: int| 0 <= j < i ==> m@[j].1@ != v@,
        decreases n - i,
    {
        if crate::text::str_eq(m[i].1.as_str(), v) {
            return true;
        }
        i += 1;
    }
    false
}

proof fn lemma_cand_injective(base: Seq<char>, a: nat, b: nat)
    requires
        base + "_"@ + dec_of(a) == base + "_"@ + dec_of(b),
    ensures
        dec_of(a) == dec_of(b),
        a == b,
{
    let p = (base + "_"@).len() as int;
    let sa = base + "_"@ + dec_of(a);
    let sb = base + "_"@ + dec_of(b);
    assert(dec_of(a).len() >= 1 && dec_of(b).len() >= 1) by {
        if a < 10 {
        }
        if b < 10 {
        }
    }
    assert(sa.len() == sb.len());
    assert(dec_of(a) =~= sa.skip(p));
    assert(dec_of(b) =~= sb.skip(p));
    lemma_dec_injective(a, b);
}

/// Pick a map value that is not yet taken: the base itself if free, else the
/// base with the first free numeric suffix `_2`, `_3`, and so on.
fn fresh_value(m: &Vec<(String, String)>, base: &Vec<char>) -> (r: String)
    requires
        m@.len() + 2 <= usize::MAX,
    ensures
        !vals_taken(m@, r@),
        !vals_taken(m@, base@) ==> r@ == base@,
        vals_taken(m@, base@) ==> first_free_suffix(m@, base@, r@),
{
    let b = chars_string(base);
    if !value_taken(m, b.as_str()) {
        return b;
    }
    let underscore = str_chars("_");
    let prefix = chars_concat(base, &underscore);
    let mut i: usize = 2;
    let ghost mut tried: Set<Seq<char>> = Set::empty();
    loop
        invariant
            2 <= i,
            tried.finite(),
            tried.len() == i - 2,
            forall|s: Seq<char>| tried.contains(s) ==> vals_taken(m@, s),
            forall|s: Seq<char>|
                tried.contains(s) ==> exists|t: nat|
                    2 <= t < i && s == base@ + "_"@ + #[trigger] dec_of(t),
            i - 2 <= m@.len(),
            m@.len() + 2 <= usize::MAX,
            prefix@ == base@ + "_"@,
            vals_taken(m@, base@),
            forall|t: nat| 2 <= t < i ==> vals_taken(m@, base@ + "_"@ + #[trigger] dec_of(t)),
        decreases m@.len() + 2 - i,
    {
        let suffix = crate::text::u64_dec_chars(i as u64);
        let cand_chars = chars_concat(&prefix, &suffix);
        let cand = chars_string(&cand_chars);
        proof {
            assert(cand@ =~= base@ + "_"@ + dec_of(i as nat));
        }
        if !value_taken(m, cand.as_str()) {
            proof {
                assert(first_free_suffix(m@, base@, cand@)) by {
                    assert(cand@ == base@ + "_"@ + dec_of(i as nat));
                    assert(!vals_taken(m@, base@ + "_"@ + dec_of(i as nat)));
                }
            }
            return cand;
        }
        proof {
            if tried.contains(cand@) {
                let t = choose|t: nat|
                    2 <= t < i && cand@ == base@ + "_"@ + #[trigger] dec_of(t);
                lemma_cand_injective(base@, t, i as nat);
                assert(false);
            }
            tried = tried.insert(cand@);
            let valseq = m@.map_values(|e: (String, String)| e.1@);
            assert forall|s: Seq<char>| tried.contains(s) implies valseq.to_set().contains(
                s,
            ) by {
                let w = choose|w: int| 0 <= w < m@.len() && m@[w].1@ == s;
                assert(valseq[w] == s);
            }
            valseq.lemma_cardinality_of_set();
            vstd::set_lib::lemma_len_subset(tried, valseq.to_set());
        }
        i += 1;
    }
}

/// The image of `k` under the key mapping: its mapped value if present,
/// otherwise `k` itself.
pub open spec fn mapped_key(m: Seq<(String, String)>, k: Seq<char>) -> Seq<char> {
    if map_has(m, k) {
        map_val(m, k)@
    } else {
        k
    }
}

/// Build the old-key-to-new-key mapping for the given keys, processed in the
/// order given: each key's canonical form, disambiguated first-come.
fn build_key_mapping(keys: &Vec<String>) -> (m: Vec<(String, String)>)
    requires
        keys@.len() + 2 <= usize::MAX,
    ensures
        m@.len() == keys@.len(),
        forall|i: int| 0 <= i < m@.len() ==> (#[trigger] m@[i]).0 == keys@[i],
        forall|i: int, j: int| 0 <= i < j < m@.len() ==> m@[i].1@ != m@[j].1@,
        forall|i: int|
            0 <= i < m@.len() ==> (#[trigger] m@[i]).1@ == strip_key(keys@[i]@)
                || first_free_suffix(m@.subrange(0, i), strip_key(keys@[i]@), m@[i].1@),
        forall|i: int|
            0 <= i < m@.len() ==> ((forall|j: int|
                0 <= j < i ==> (#[trigger] m@[j]).1@ != strip_key(keys@[i]@)) ==> (
            #[trigger] m@[i]).1@ == strip_key(keys@[i]@)),
{
    let n = keys.len();
    let mut m: Vec<(String, String)> = Vec::new();
    let mut i: usize = 0;
    while i < n
        invariant
            n == keys@.len(),
            n + 2 <= usize::MAX,
            i <= n,
            m@.len() == i,
            forall|a: int| 0 <= a < i ==> (#[trigger] m@[a]).0 == keys@[a],
            forall|a: int, b: int| 0 <= a < b < i ==> m@[a].1@ != m@[b].1@,
            forall|a: int|
                0 <= a < i ==> (#[trigger] m@[a]).1@ == strip_key(keys@[a]@)
                    || first_free_suffix(m@.subrange(0, a), strip_key(keys@[a]@), m@[a].1@),
            forall|a: int|
                0 <= a < i ==> ((forall|b: int|
                    0 <= b < a ==> (#[trigger] m@[b]).1@ != strip_key(keys@[a]@)) ==> (
                #[trigger] m@[a]).1@ == strip_key(keys@[a]@)),
        decreases n - i,
    {
        let base_s = canon_node_key(keys[i].as_str());
        let base_v = str_chars(base_s.as_str());
        let ghost mpre = m@;
        let nk = fresh_value(&m, &base_v);
        m.push((keys[i].clone(), nk));
        proof {
            assert(base_v@ == strip_key(keys@[i as int]@));
            assert(mpre =~= m@.subrange(0, i as int));
            assert forall|a: int|
                0 <= a < i + 1 implies (#[trigger] m@[a]).1@ == strip_key(keys@[a]@)
                || first_free_suffix(m@.subrange(0, a), strip_key(keys@[a]@), m@[a].1@) by {
                if a < i {
                    assert(m@[a] == mpre[a]);
                    assert(m@.subrange(0, a) =~= mpre.subrange(0, a));
                } else {
                    if vals_taken(mpre, base_v@) {
                        assert(first_free_suffix(mpre, base_v@, nk@));
                        assert(m@.subrange(0, i as int) =~= mpre);
                    }
                }
            }
            assert forall|a: int|
                0 <= a < i + 1 implies ((forall|b: int|
                    0 <= b < a ==> (#[trigger] m@[b]).1@ != strip_key(keys@[a]@)) ==> (
                #[trigger] m@[a]).1@ == strip_key(keys@[a]@)) by {
                if a < i {
                    assert forall|b: int| 0 <= b < a implies (#[trigger] mpre[b]).1@ == m@[b].1@ by {}
                } else {
                    if forall|b: int| 0 <= b < a ==> (#[trigger] m@[b]).1@ != strip_key(keys@[a]@) {
                        if vals_taken(mpre, base_v@) {
                            let w = choose|w: int|
                                0 <= w < mpre.len() && (#[trigger] mpre[w].1@) == base_v@;
                            assert(m@[w].1@ == strip_key(keys@[a]@));
                            assert(false);
                        }
                    }
                }
            }
        }
        i += 1;
    }
    m
}

/// How an output node relates to the input node it came from: same payload,
/// the `id` synchronized to the new key, and every choice target rewritten
/// through the key mapping.
pub open spec fn node_remapped(
    m: Seq<(String, String)>,
    o: StoryNode,
    n: StoryNode,
    nk: Seq<char>,
) -> bool {
    &&& n.id@ == nk
    &&& n.content == o.content
    &&& n.ending_key == o.ending_key
    &&& n.level == o.level
    &&& n.characters == o.characters
    &&& n.choices@.len() == o.choices@.len()
    &&& forall|j: int|
        0 <= j < n.choices@.len() ==> {
            &&& (#[trigger] n.choices@[j]).text == o.choices@[j].text
            &&& n.choices@[j].affinity_effect == o.choices@[j].affinity_effect
            &&& n.choices@[j].next_node_id@ == mapped_key(m, o.choices@[j].next_node_id@)
        }
}

pub(crate) fn remap_choices(m: &Vec<(String, String)>, choices: Vec<Choice>) -> (r: Vec<Choice>)
    requires
        keys_unique(m@),
    ensures
        r@.len() == choices@.len(),
        forall|j: int|
            0 <= j < r@.len() ==> {
                &&& (#[trigger] r@[j]).text == choices@[j].text
                &&& r@[j].affinity_effect == choices@[j].affinity_effect
                &&& r@[j].next_node_id@ == mapped_key(m@, choices@[j].next_node_id@)
            },
{
    let mut rest = choices;
    let mut r: Vec<Choice> = Vec::new();
    let ghost all = rest@;
    while rest.len() > 0
        invariant
            keys_unique(m@),
            all.len() == r@.len() + rest@.len(),
            rest@ =~= all.skip(r@.len() as int),
            forall|j: int|
                0 <= j < r@.len() ==> {
                    &&& (#[trigger] r@[j]).text == all[j].text
                    &&& r@[j].affinity_effect == all[j].affinity_effect
                    &&& r@[j].next_node_id@ == mapped_key(m@, all[j].next_node_id@)
                },
        decreases rest@.len(),
    {
        let c = rest.remove(0);
        proof {
            assert(c == all[r@.len() as int]);
        }
        let target = match dict_find(m, c.next_node_id.as_str()) {
            Some(k) => {
                proof {
                    let j = idx_of(m@, c.next_node_id@);
                    assert(0 <= j < m@.len() && m@[j].0@ == c.next_node_id@);
                    assert(j == k as int);
                }
                m[k].1.clone()
            },
            None => c.next_node_id,
        };
        r.push(Choice { text: c.text, next_node_id: target, affinity_effect: c.affinity_effect });
        proof {
            assert(rest@ =~= all.skip(r@.len() as int));
        }
    }
    r
}

/// Canonicalize node keys: strip legacy prefixes (variant spellings of the
/// entry key land on `start`), disambiguate collisions with numeric
/// suffixes assigned in lexicographic order of the old keys, rewrite every
/// choice target accordingly, and resynchronize node `id`s. Returns the
/// applied old-key-to-new-key mapping.
pub fn normalize_template_nodes(t: &mut MovieTemplate) -> (m: Vec<(String, String)>)
    requires
        old(t).wf(),
        old(t).nodes@.len() + 2 <= usize::MAX,
    ensures
        final(t).wf(),
        final(t).endings == old(t).endings,
        final(t).characters == old(t).characters,
        final(t).meta == old(t).meta,
        final(t).title == old(t).title,
        final(t).project_id == old(t).project_id,
        final(t).version == old(t).version,
        final(t).owner == old(t).owner,
        final(t).background_image_base64 == old(t).background_image_base64,
        final(t).provenance == old(t).provenance,
        m@.len() == old(t).nodes@.len(),
        keys_unique(m@),
        sorted_lex(m@.map_values(|e: (String, String)| e.0)),
        views_of(m@.map_values(|e: (String, String)| e.0)).to_multiset() == views_of(
            old(t).nodes@.map_values(|e: (String, StoryNode)| e.0),
        ).to_multiset(),
        forall|i: int, j: int| 0 <= i < j < m@.len() ==> m@[i].1@ != m@[j].1@,
        // each key gets its stripped form when no earlier key took it,
        // else the smallest free numeric suffix: the mapping is a function
        // of the sorted key list alone
        forall|i: int|
            0 <= i < m@.len() ==> (#[trigger] m@[i]).1@ == strip_key(m@[i].0@)
                || first_free_suffix(m@.subrange(0, i), strip_key(m@[i].0@), m@[i].1@),
        forall|i: int|
            0 <= i < m@.len() ==> ((forall|j: int|
                0 <= j < i ==> (#[trigger] m@[j]).1@ != strip_key(m@[i].0@)) ==> (
            #[trigger] m@[i]).1@ == strip_key(m@[i].0@)),
        final(t).nodes@.len() == old(t).nodes@.len(),
        forall|i: int|
            0 <= i < final(t).nodes@.len() ==> (#[trigger] final(t).nodes@[i]).0@ == mapped_key(
                m@,
                old(t).nodes@[i].0@,
            ),
        forall|i: int|
            0 <= i < final(t).nodes@.len() ==> node_remapped(
                m@,
                old(t).nodes@[i].1,
                (#[trigger] final(t).nodes@[i]).1,
                final(t).nodes@[i].0@,
            ),
{
    broadcast use vstd::seq_lib::group_to_multiset_ensures;

    let ghost orig = t.nodes@;
    let keys = dict_keys(&t.nodes);
    let sorted = sort_strings(keys);
    proof {
        let ks = t.nodes@.map_values(|e: (String, StoryNode)| e.0);
        assert(keys@ =~= ks);
        // original keys are view-distinct, so the sorted keys are too
        assert(views_of(ks).no_duplicates()) by {
            assert forall|a: int, b: int|
                0 <= a < views_of(ks).len() && 0 <= b < views_of(ks).len() && a != b
                implies views_of(ks)[a] != views_of(ks)[b] by {
                if a < b {
                    assert(t.nodes@[a].0@ != t.nodes@[b].0@);
                } else {
                    assert(t.nodes@[b].0@ != t.nodes@[a].0@);
                }
            }
        }
        views_of(ks).lemma_multiset_has_no_duplicates();
        assert forall|a: int, b: int|
            0 <= a < sorted@.len() && 0 <= b < sorted@.len() && a != b implies sorted@[a]@
            != sorted@[b]@ by {
            let vs = views_of(sorted@);
            assert(vs[a] == sorted@[a]@ && vs[b] == sorted@[b]@);
            if vs[a] == vs[b] {
                vstd::seq_lib::to_multiset_remove(vs, a);
                assert(vs.to_multiset().count(vs[a]) >= 2) by {
                    assert(vs.remove(a).to_multiset().count(vs[b])
                        >= 1) by {
                        if b < a {
                            assert(vs.remove(a)[b] == vs[b]);
                            assert(vs.remove(a).contains(vs[b]));
                        } else {
                            assert(vs.remove(a)[b - 1] == vs[b]);
                            assert(vs.remove(a).contains(vs[b]));
                        }
                    }
                }
                assert(views_of(ks).to_multiset().count(vs[a]) <= 1);
                assert(false);
            }
        }
    }
    let mapping = build_key_mapping(&sorted);
    let ghost mseq = mapping@;
    proof {
        // the mapping's keys are pairwise view-distinct
        assert(keys_unique(mseq));
        assert(mseq.map_values(|e: (String, String)| e.0) =~= sorted@);
    }
    let mut new_nodes: Vec<(String, StoryNode)> = Vec::new();
    let ghost all = t.nodes@;
    proof {
        assert forall|i: int| 0 <= i < all.len() implies map_has(mseq, (#[trigger] all[i]).0@) by {
            let ks = all.map_values(|e: (String, StoryNode)| e.0);
            assert(views_of(keys@)[i] == all[i].0@);
            assert(views_of(keys@).contains(all[i].0@));
            assert(views_of(keys@).to_multiset().count(all[i].0@) > 0);
            assert(views_of(sorted@).to_multiset().count(all[i].0@) > 0);
            assert(views_of(sorted@).contains(all[i].0@));
            let j = choose|j: int| 0 <= j < views_of(sorted@).len() && views_of(sorted@)[j]
                == all[i].0@;
            assert(mseq[j].0@ == sorted@[j]@);
        }
    }
    while t.nodes.len() > 0
        invariant
            t.endings == old(t).endings,
            t.characters == old(t).characters,
            t.meta == old(t).meta,
            t.title == old(t).title,
            t.project_id == old(t).project_id,
            t.version == old(t).version,
            t.owner == old(t).owner,
            t.background_image_base64 == old(t).background_image_base64,
            t.provenance == old(t).provenance,
            keys_unique(old(t).characters@),
            keys_unique(old(t).endings@),
            keys_unique(mseq),
            forall|a: int, b: int| 0 <= a < b < mseq.len() ==> mseq[a].1@ != mseq[b].1@,
            mapping@ == mseq,
            all.len() == new_nodes@.len() + t.nodes@.len(),
            t.nodes@ =~= all.skip(new_nodes@.len() as int),
            forall|i: int|
                0 <= i < all.len() ==> map_has(mseq, (#[trigger] all[i]).0@),
            forall|i: int|
                0 <= i < new_nodes@.len() ==> (#[trigger] new_nodes@[i]).0@ == mapped_key(
                    mseq,
                    all[i].0@,
                ),
            forall|i: int|
                0 <= i < new_nodes@.len() ==> node_remapped(
                    mseq,
                    all[i].1,
                    (#[trigger] new_nodes@[i]).1,
                    new_nodes@[i].0@,
                ),
        decreases t.nodes@.len(),
    {
        let (okey, node) = t.nodes.remove(0);
        proof {
            assert((okey, node) == all[new_nodes@.len() as int]);
        }
        let mi = match dict_find(&mapping, okey.as_str()) {
            Some(mi) => mi,
            None => {
                proof {
                    assert(false);
                }
                0
            },
        };
        proof {
            let j = idx_of(mseq, okey@);
            assert(0 <= j < mseq.len() && mseq[j].0@ == okey@);
            assert(j == mi as int);
        }
        let new_key = mapping[mi].1.clone();
        let new_choices = remap_choices(&mapping, node.choices);
        let n2 = StoryNode {
            id: new_key.clone(),
            content: node.content,
            ending_key: node.ending_key,
            level: node.level,
            characters: node.characters,
            choices: new_choices,
        };
        new_nodes.push((new_key, n2));
        proof {
            assert(t.nodes@ =~= all.skip(new_nodes@.len() as int));
        }
    }
    proof {
        // distinct old keys map to distinct new keys
        assert forall|a: int, b: int|
            0 <= a < b < new_nodes@.len() implies new_nodes@[a].0@ != new_nodes@[b].0@ by {
            let ka = all[a].0@;
            let kb = all[b].0@;
            assert(ka != kb);
            let ia = idx_of(mseq, ka);
            let ib = idx_of(mseq, kb);
            assert(0 <= ia < mseq.len() && mseq[ia].0@ == ka);
            assert(0 <= ib < mseq.len() && mseq[ib].0@ == kb);
            assert(ia != ib);
            if ia < ib {
                assert(mseq[ia].1@ != mseq[ib].1@);
            } else {
                assert(mseq[ib].1@ != mseq[ia].1@);
            }
            assert(new_nodes@[a].0@ == mseq[ia].1@);
            assert(new_nodes@[b].0@ == mseq[ib].1@);
        }
    }
    t.nodes = new_nodes;
    mapping
}

/// Same person data, ignoring the `id` field.
pub open spec fn same_person(o: Character, n: Character) -> bool {
    &&& n.name == o.name
    &&& n.gender == o.gender
    &&& n.age == o.age
    &&& n.role == o.role
    &&& n.background == o.background
    &&& n.avatar_path == o.avatar_path
}

/// The key the normalizer computes for a cast entry: the display name,
/// falling back to the stored id, then the original map key, when empty.
pub open spec fn person_key(e: (String, Character)) -> Seq<char> {
    if e.1.name@.len() > 0 {
        e.1.name@
    } else if e.1.id@.len() > 0 {
        e.1.id@
    } else {
        e.0@
    }
}

/// Whether `e` is a re-keyed copy of some entry of `old_chars`: keyed by
/// that entry's computed key and carrying its data.
pub open spec fn rekeyed_entry(
    old_chars: Seq<(String, Character)>,
    e: (String, Character),
) -> bool {
    exists|j: int|
        0 <= j < old_chars.len() && e.0@ == person_key(#[trigger] old_chars[j]) && same_person(
            old_chars[j].1,
            e.1,
        )
}

/// Re-key the cast map by display name (falling back to the existing id,
/// then the original key, when empty), processing original keys in
/// lexicographic order so a name collision is resolved last-writer-wins,
/// and rewrite each person's `id` to the new key.
pub fn normalize_character_ids(t: &mut MovieTemplate)
    requires
        old(t).wf(),
    ensures
        final(t).wf(),
        final(t).nodes == old(t).nodes,
        final(t).endings == old(t).endings,
        final(t).meta == old(t).meta,
        final(t).title == old(t).title,
        final(t).project_id == old(t).project_id,
        final(t).version == old(t).version,
        final(t).owner == old(t).owner,
        final(t).background_image_base64 == old(t).background_image_base64,
        final(t).provenance == old(t).provenance,
        final(t).characters@.len() <= old(t).characters@.len(),
        forall|i: int|
            0 <= i < final(t).characters@.len() ==> (#[trigger] final(t).characters@[i]).1.id@
                == final(t).characters@[i].0@,
        // every surviving entry is a re-keyed copy of an input entry, and
        // every input entry survives under its computed key (a name shared
        // by two people merges, last writer in key order winning)
        forall|i: int|
            0 <= i < final(t).characters@.len() ==> rekeyed_entry(
                old(t).characters@,
                (#[trigger] final(t).characters@[i]),
            ),
        forall|j: int|
            0 <= j < old(t).characters@.len() ==> map_has(
                final(t).characters@,
                person_key(#[trigger] old(t).characters@[j]),
            ),
{
    broadcast use vstd::seq_lib::group_to_multiset_ensures;

    let ghost orig = t.characters@;
    let keys = dict_keys(&t.characters);
    let sorted = sort_strings(keys);
    proof {
        assert forall|a: int| 0 <= a < sorted@.len() implies map_has(
            orig,
            (#[trigger] sorted@[a])@,
        ) by {
            assert(views_of(sorted@)[a] == sorted@[a]@);
            assert(views_of(sorted@).contains(sorted@[a]@));
            assert(views_of(sorted@).to_multiset().count(sorted@[a]@) > 0);
            assert(views_of(keys@).to_multiset().count(sorted@[a]@) > 0);
            assert(views_of(keys@).contains(sorted@[a]@));
            let j = choose|j: int| 0 <= j < views_of(keys@).len() && views_of(keys@)[j]
                == sorted@[a]@;
            assert(orig[j].0@ == sorted@[a]@);
        }
        assert forall|j: int| 0 <= j < orig.len() implies exists|a: int|
            0 <= a < sorted@.len() && (#[trigger] orig[j]).0@ == sorted@[a]@ by {
            assert(views_of(keys@)[j] == orig[j].0@);
            assert(views_of(keys@).contains(orig[j].0@));
            assert(views_of(keys@).to_multiset().count(orig[j].0@) > 0);
            assert(views_of(sorted@).to_multiset().count(orig[j].0@) > 0);
            assert(views_of(sorted@).contains(orig[j].0@));
            let a = choose|a: int|
                0 <= a < views_of(sorted@).len() && views_of(sorted@)[a] == orig[j].0@;
            assert(sorted@[a]@ == orig[j].0@);
        }
    }
    let mut out: Vec<(String, Character)> = Vec::new();
    let n = sorted.len();
    let mut i: usize = 0;
    while i < n
        invariant
            t.characters@ == orig,
            t.nodes == old(t).nodes,
            t.endings == old(t).endings,
            t.meta == old(t).meta,
            t.title == old(t).title,
            t.project_id == old(t).project_id,
            t.version == old(t).version,
            t.owner == old(t).owner,
            t.background_image_base64 == old(t).background_image_base64,
            t.provenance == old(t).provenance,
            keys_unique(old(t).nodes@),
            keys_unique(old(t).endings@),
            orig == old(t).characters@,
            n == sorted@.len(),
            i <= n,
            keys_unique(orig),
            keys_unique(out@),
            out@.len() <= i,
            forall|a: int| 0 <= a < sorted@.len() ==> map_has(orig, (#[trigger] sorted@[a])@),
            forall|a: int|
                0 <= a < out@.len() ==> (#[trigger] out@[a]).1.id@ == out@[a].0@,
            forall|a: int|
                0 <= a < out@.len() ==> rekeyed_entry(orig, (#[trigger] out@[a])),
            forall|a: int|
                0 <= a < i ==> map_has(
                    out@,
                    person_key(orig[idx_of(orig, (#[trigger] sorted@[a])@)]),
                ),
        decreases n - i,
    {
        let key = sorted[i].as_str();
        proof {
            assert(map_has(orig, sorted@[i as int]@));
        }
        let c_opt = dict_find(&t.characters, key);
        let ci = match c_opt {
            Some(ci) => ci,
            None => {
                proof {
                    assert(map_has(orig, sorted@[i as int]@));
                    assert(false);
                }
                0
            },
        };
        let c = &t.characters[ci].1;
        let new_key = if !c.name.as_str().is_empty() {
            c.name.clone()
        } else if !c.id.as_str().is_empty() {
            c.id.clone()
        } else {
            t.characters[ci].0.clone()
        };
        let ghost j0 = ci as int;
        let nc = Character {
            id: new_key.clone(),
            name: c.name.clone(),
            gender: c.gender.clone(),
            age: c.age,
            role: c.role.clone(),
            background: c.background.clone(),
            avatar_path: match &c.avatar_path {
                Some(p) => Some(p.clone()),
                None => None,
            },
        };
        let ghost outpre = out@;
        proof {
            let w = idx_of(orig, sorted@[i as int]@);
            assert(0 <= w < orig.len() && orig[w].0@ == sorted@[i as int]@);
            assert(w == ci as int);
            assert(new_key@ == person_key(orig[ci as int]));
        }
        dict_insert(&mut out, new_key, nc);
        proof {
            assert forall|a: int| 0 <= a < out@.len() implies (#[trigger] out@[a]).1.id@
                == out@[a].0@ by {
                if map_has(outpre, nc.id@) {
                    if a != idx_of(outpre, nc.id@) {
                        assert(out@[a] == outpre[a]);
                    }
                } else {
                    if a < outpre.len() {
                        assert(out@[a] == outpre[a]);
                    }
                }
            }
            assert forall|a: int| 0 <= a < out@.len() implies rekeyed_entry(
                orig,
                (#[trigger] out@[a]),
            ) by {
                if map_has(outpre, nc.id@) && a == idx_of(outpre, nc.id@) {
                    assert(out@[a].0@ == person_key(orig[ci as int]));
                    assert(same_person(orig[ci as int].1, out@[a].1));
                    assert(rekeyed_entry(orig, out@[a]));
                } else if a < outpre.len() {
                    assert(out@[a] == outpre[a]);
                    assert(rekeyed_entry(orig, outpre[a]));
                } else {
                    assert(out@[a].0@ == person_key(orig[ci as int]));
                    assert(same_person(orig[ci as int].1, out@[a].1));
                    assert(rekeyed_entry(orig, out@[a]));
                }
            }
            assert forall|k: Seq<char>| #[trigger] map_has(outpre, k) implies map_has(
                out@,
                k,
            ) by {
                let w = idx_of(outpre, k);
                assert(0 <= w < outpre.len() && outpre[w].0@ == k);
                if map_has(outpre, nc.id@) && w == idx_of(outpre, nc.id@) {
                    assert(out@[w].0@ == nc.id@);
                    assert(outpre[w].0@ == nc.id@);
                } else {
                    assert(out@[w] == outpre[w]);
                }
            }
            assert forall|a: int|
                0 <= a < i + 1 implies map_has(
                out@,
                person_key(orig[idx_of(orig, (#[trigger] sorted@[a])@)]),
            ) by {
                if a < i {
                    assert(map_has(outpre, person_key(orig[idx_of(orig, sorted@[a]@)])));
                } else {
                    assert(idx_of(orig, sorted@[a]@) == ci as int);
                    assert(map_has(out@, nc.id@));
                    assert(nc.id@ == person_key(orig[ci as int]));
                }
            }
        }
        i += 1;
    }
    proof {
        assert(orig.len() == sorted@.len());
    }
    let ghost outg = out@;
    t.characters = out;
    proof {
        assert(t.characters@ == outg);
        assert(orig == old(t).characters@);
        assert forall|j: int| 0 <= j < orig.len() implies map_has(
            t.characters@,
            person_key(#[trigger] orig[j]),
        ) by {
            let a = choose|a: int|
                0 <= a < sorted@.len() && (#[trigger] orig[j]).0@ == sorted@[a]@;
            let w = idx_of(orig, sorted@[a]@);
            assert(0 <= w < orig.len() && orig[w].0@ == sorted@[a]@);
            assert(w == j);
            assert(map_has(outg, person_key(orig[j])));
        }
    }
}

} // verus!
