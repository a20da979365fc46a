//! Cast consistency: restrict the graph's character roster and per-node
//! person lists to a caller-supplied allow-list, make sure every requested
//! character exists in the roster, and give an empty graph a minimal
//! playable shape.

use vstd::prelude::*;

use crate::dict::{dict_contains, dict_insert};
use crate::text::{str_concat, str_eq, str_trim, trim_of, u64_dec_string};
use crate::types::{
    keys_unique, map_has, Character, CharacterInput, Choice, Ending, MovieTemplate, StoryNode,
};

verus! {

/// Whether the allow-list contains this trimmed name.
pub open spec fn allow_has(inputs: Seq<CharacterInput>, name: Seq<char>) -> bool {
    exists|j: int| 0 <= j < inputs.len() && #[trigger] trim_of(inputs[j].name@) == name
}

fn allow_contains(inputs: &Vec<CharacterInput>, name: &str) -> (r: bool)
    ensures
        r == allow_has(inputs@, name@),
{
    let n = inputs.len();
    let mut i: usize = 0;
    while i < n
        invariant
            n == inputs@.len(),
            i <= n,
            forall|j: int| 0 <= j < i ==> #[trigger] trim_of(inputs@[j].name@) != name@,
        decreases n - i,
    {
        let tv = str_trim(inputs[i].name.as_str());
        if str_eq(tv.as_str(), name) {
            proof {
                assert(trim_of(inputs@[i as int].name@) == name@);
            }
            return true;
        }
        i += 1;
    }
    false
}

/// Each kept entry is a trimmed, nonblank, allowed name drawn from `v`,
/// and no name is kept twice.
pub open spec fn filter_kept_ok(
    inputs: Seq<CharacterInput>,
    v: Seq<String>,
    w: Seq<String>,
) -> bool {
    &&& forall|k: int|
        0 <= k < w.len() ==> #[trigger] trim_of(w[k]@) == w[k]@ && w[k]@.len() > 0 && allow_has(
            inputs,
            w[k]@,
        ) && (exists|m: int| 0 <= m < v.len() && #[trigger] trim_of(v[m]@) == w[k]@)
    &&& forall|k1: int, k2: int| 0 <= k1 < k2 < w.len() ==> w[k1]@ != w[k2]@
}

/// Every qualifying name among the first `upto` entries of `v` is kept.
pub open spec fn filter_covers(
    inputs: Seq<CharacterInput>,
    v: Seq<String>,
    w: Seq<String>,
    upto: int,
) -> bool {
    forall|m: int|
        0 <= m < upto && (#[trigger] trim_of(v[m]@)).len() > 0 && allow_has(
            inputs,
            trim_of(v[m]@),
        ) ==> exists|k: int| 0 <= k < w.len() && (#[trigger] w[k])@ == trim_of(v[m]@)
}

/// Whether a filtered person list is correct for `v` under the allow-list:
/// it holds exactly the trimmed, nonblank, allowed names of `v`, without
/// duplicates.
pub open spec fn people_filtered(
    inputs: Seq<CharacterInput>,
    v: Seq<String>,
    w: Seq<String>,
) -> bool {
    filter_kept_ok(inputs, v, w) && filter_covers(inputs, v, w, v.len() as int)
}

fn filter_people(inputs: &Vec<CharacterInput>, v: &Vec<String>) -> (w: Vec<String>)
    ensures
        people_filtered(inputs@, v@, w@),
{
    let n = v.len();
    let mut w: Vec<String> = Vec::new();
    let mut i: usize = 0;
    while i < n
        invariant
            n == v@.len(),
            i <= n,
            filter_kept_ok(inputs@, v@, w@),
            filter_covers(inputs@, v@, w@, i as int),
        decreases n - i,
    {
        let tv = str_trim(v[i].as_str());
        if !tv.as_str().is_empty() && allow_contains(inputs, tv.as_str()) {
            let mut dup = false;
            let wn = w.len();
            let mut k: usize = 0;
            while k < wn && !dup
                invariant
                    wn == w@.len(),
                    k <= wn,
                    filter_kept_ok(inputs@, v@, w@),
                    filter_covers(inputs@, v@, w@, i as int),
                    tv@ == trim_of(v@[i as int]@),
                    dup ==> exists|k2: int| 0 <= k2 < w@.len() && (#[trigger] w@[k2])@ == tv@,
                    !dup ==> forall|k2: int| 0 <= k2 < k ==> (#[trigger] w@[k2])@ != tv@,
                decreases wn - k + (if dup {
                    0int
                } else {
                    1int
                }),
            {
                if str_eq(w[k].as_str(), tv.as_str()) {
                    dup = true;
                    proof {
                        assert(w@[k as int]@ == tv@);
                    }
                } else {
                    k += 1;
                }
            }
            let ghost wpre = w@;
            if !dup {
                w.push(tv);
                proof {
                    assert(w@[wpre.len() as int]@ == trim_of(v@[i as int]@));
                    assert(trim_of(w@[wpre.len() as int]@) == w@[wpre.len() as int]@) by {
                        crate::text::lemma_trim_idem(v@[i as int]@);
                    }
                }
            }
            proof {
                let tvv = trim_of(v@[i as int]@);
                assert(filter_kept_ok(inputs@, v@, w@)) by {
                    assert forall|k: int| 0 <= k < w@.len() implies #[trigger] trim_of(w@[k]@)
                        == w@[k]@ && w@[k]@.len() > 0 && allow_has(inputs@, w@[k]@) && (exists|
                    m: int|
                        0 <= m < v@.len() && #[trigger] trim_of(v@[m]@) == w@[k]@) by {
                        if k < wpre.len() {
                            assert(w@[k] == wpre[k]);
                            assert(filter_kept_ok(inputs@, v@, wpre));
                            assert(trim_of(wpre[k]@) == wpre[k]@);
                            assert(wpre[k]@.len() > 0 && allow_has(inputs@, wpre[k]@));
                            let m0 = choose|m0: int|
                                0 <= m0 < v@.len() && #[trigger] trim_of(v@[m0]@) == wpre[k]@;
                            assert(trim_of(v@[m0]@) == w@[k]@);
                        } else {
                            assert(w@[k]@ == tvv);
                            assert(trim_of(v@[i as int]@) == w@[k]@);
                        }
                    }
                    assert forall|k1: int, k2: int|
                        0 <= k1 < k2 < w@.len() implies w@[k1]@ != w@[k2]@ by {
                        assert(filter_kept_ok(inputs@, v@, wpre));
                        if k2 < wpre.len() {
                            assert(w@[k1] == wpre[k1] && w@[k2] == wpre[k2]);
                        } else {
                            assert(w@[k1] == wpre[k1]);
                            assert(!dup);
                            assert(wpre[k1]@ != tvv);
                        }
                    }
                }
                assert(filter_covers(inputs@, v@, w@, i + 1)) by {
                    assert forall|m: int|
                        0 <= m < i + 1 && (#[trigger] trim_of(v@[m]@)).len() > 0 && allow_has(
                            inputs@,
                            trim_of(v@[m]@),
                        ) implies exists|k: int|
                        0 <= k < w@.len() && (#[trigger] w@[k])@ == trim_of(v@[m]@) by {
                        if m < i {
                            assert(filter_covers(inputs@, v@, wpre, i as int));
                            let k0 = choose|k0: int|
                                0 <= k0 < wpre.len() && (#[trigger] wpre[k0])@ == trim_of(v@[m]@);
                            assert(w@[k0]@ == trim_of(v@[m]@));
                        } else {
                            if dup {
                                let k0 = choose|k0: int|
                                    0 <= k0 < wpre.len() && (#[trigger] wpre[k0])@ == tvv;
                                assert(w@[k0]@ == trim_of(v@[m]@));
                            } else {
                                assert(w@[wpre.len() as int]@ == trim_of(v@[m]@));
                            }
                        }
                    }
                }
            }
        } else {
            proof {
                let tvv = trim_of(v@[i as int]@);
                assert(filter_covers(inputs@, v@, w@, i + 1)) by {
                    assert forall|m: int|
                        0 <= m < i + 1 && (#[trigger] trim_of(v@[m]@)).len() > 0 && allow_has(
                            inputs@,
                            trim_of(v@[m]@),
                        ) implies exists|k: int|
                        0 <= k < w@.len() && (#[trigger] w@[k])@ == trim_of(v@[m]@) by {
                        if m < i {
                            assert(filter_covers(inputs@, v@, w@, i as int));
                            let k0 = choose|k0: int|
                                0 <= k0 < w@.len() && (#[trigger] w@[k0])@ == trim_of(v@[m]@);
                        } else {
                            assert(!(tvv.len() > 0 && allow_has(inputs@, tvv)));
                            assert(false);
                        }
                    }
                }
            }
        }
        i += 1;
    }
    w
}

/// When an allow-list of people is supplied, replace the whole cast with
/// entries built solely from it (keyed by trimmed name, last writer wins),
/// and filter every node's person list down to allowed names, dropping
/// blanks and duplicates; a person list left empty is cleared entirely.
/// Without an allow-list the graph is unchanged. An allow-list that is
/// supplied but empty deliberately empties the cast: the roster is the
/// caller's to dictate.
pub fn enforce_character_consistency(t: &mut MovieTemplate, req_chars: Option<Vec<CharacterInput>>)
    requires
        old(t).wf(),
    ensures
        final(t).wf(),
        final(t).endings == old(t).endings,
        final(t).meta == old(t).meta,
        final(t).title == old(t).title,
        final(t).project_id == old(t).project_id,
        final(t).version == old(t).version,
        final(t).owner == old(t).owner,
        final(t).background_image_base64 == old(t).background_image_base64,
        final(t).provenance == old(t).provenance,
        req_chars is None ==> final(t).nodes == old(t).nodes && final(t).characters == old(
            t,
        ).characters,
        match req_chars {
            None => true,
            Some(inputs) => {
                // the cast is built solely from the allow-list
                &&& forall|i: int|
                    0 <= i < final(t).characters@.len() ==> {
                        let e = #[trigger] final(t).characters@[i];
                        &&& e.1.id == e.0
                        &&& e.1.name == e.0
                        &&& allow_has(inputs@, e.0@)
                    }
                // every nonblank requested name is in the cast
                &&& forall|j: int|
                    0 <= j < inputs@.len() && (#[trigger] trim_of(inputs@[j].name@)).len() > 0
                        ==> map_has(final(t).characters@, trim_of(inputs@[j].name@))
                // node payloads are kept; person lists are filtered
                &&& final(t).nodes@.len() == old(t).nodes@.len()
                &&& forall|i: int|
                    0 <= i < final(t).nodes@.len() ==> {
                        let o = old(t).nodes@[i].1;
                        let n = (#[trigger] final(t).nodes@[i]).1;
                        &&& final(t).nodes@[i].0 == old(t).nodes@[i].0
                        &&& n.id == o.id
                        &&& n.content == o.content
                        &&& n.ending_key == o.ending_key
                        &&& n.level == o.level
                        &&& n.choices == o.choices
                        &&& match o.characters {
                            None => n.characters is None,
                            Some(v) => match n.characters {
                                Some(w) => people_filtered(inputs@, v@, w@) && w@.len() > 0,
                                None => forall|m: int|
                                    0 <= m < v@.len() ==> !((#[trigger] trim_of(
                                        v@[m]@,
                                    )).len() > 0 && allow_has(inputs@, trim_of(v@[m]@))),
                            },
                        }
                    }
            },
        },
{
    let inputs = match req_chars {
        Some(inputs) => inputs,
        None => {
            return ;
        },
    };
    // rebuild the cast from the allow-list
    let mut new_chars: Vec<(String, Character)> = Vec::new();
    let n = inputs.len();
    let mut i: usize = 0;
    while i < n
        invariant
            n == inputs@.len(),
            i <= n,
            keys_unique(new_chars@),
            forall|a: int|
                0 <= a < new_chars@.len() ==> {
                    let e = #[trigger] new_chars@[a];
                    &&& e.1.id == e.0
                    &&& e.1.name == e.0
                    &&& allow_has(inputs@, e.0@)
                },
            forall|j: int|
                0 <= j < i && (#[trigger] trim_of(inputs@[j].name@)).len() > 0 ==> map_has(
                    new_chars@,
                    trim_of(inputs@[j].name@),
                ),
        decreases n - i,
    {
        let name = str_trim(inputs[i].name.as_str());
        if !name.as_str().is_empty() {
            let role = if inputs[i].is_main {
                "Protagonist".to_owned()
            } else {
                "Supporting".to_owned()
            };
            let ghost cpre = new_chars@;
            let c = Character {
                id: name.clone(),
                name: name.clone(),
                gender: inputs[i].gender.clone(),
                age: 0,
                role,
                background: inputs[i].description.clone(),
                avatar_path: None,
            };
            dict_insert(&mut new_chars, name, c);
            proof {
                assert(trim_of(inputs@[i as int].name@).len() > 0);
                assert(allow_has(inputs@, trim_of(inputs@[i as int].name@))) by {
                    assert(trim_of(inputs@[i as int].name@) == trim_of(inputs@[i as int].name@));
                }
                assert forall|a: int| 0 <= a < new_chars@.len() implies {
                    let e = #[trigger] new_chars@[a];
                    &&& e.1.id == e.0
                    &&& e.1.name == e.0
                    &&& allow_has(inputs@, e.0@)
                } by {
                    if map_has(cpre, trim_of(inputs@[i as int].name@)) {
                        if a != crate::types::idx_of(cpre, trim_of(inputs@[i as int].name@)) {
                            assert(new_chars@[a] == cpre[a]);
                        }
                    } else {
                        if a < cpre.len() {
                            assert(new_chars@[a] == cpre[a]);
                        }
                    }
                }
                assert forall|j: int|
                    0 <= j < i + 1 && (#[trigger] trim_of(inputs@[j].name@)).len() > 0
                    implies map_has(new_chars@, trim_of(inputs@[j].name@)) by {
                    if j < i {
                        assert(map_has(cpre, trim_of(inputs@[j].name@)));
                        let wdx = crate::types::idx_of(cpre, trim_of(inputs@[j].name@));
                        assert(cpre[wdx].0@ == trim_of(inputs@[j].name@));
                        if map_has(cpre, trim_of(inputs@[i as int].name@)) {
                            let udx = crate::types::idx_of(
                                cpre,
                                trim_of(inputs@[i as int].name@),
                            );
                            if wdx == udx {
                                assert(new_chars@[wdx].0@ == trim_of(inputs@[j].name@));
                            } else {
                                assert(new_chars@[wdx] == cpre[wdx]);
                            }
                        } else {
                            assert(new_chars@[wdx] == cpre[wdx]);
                        }
                    }
                }
            }
        }
        i += 1;
    }
    t.characters = new_chars;
    // filter the per-node person lists
    let ghost nodes0 = t.nodes@;
    let ghost charsfin = t.characters@;
    let mut new_nodes: Vec<(String, StoryNode)> = Vec::new();
    while t.nodes.len() > 0
        invariant
            t.endings == old(t).endings,
            t.meta == old(t).meta,
            t.title == old(t).title,
            t.project_id == old(t).project_id,
            t.version == old(t).version,
            t.owner == old(t).owner,
            t.background_image_base64 == old(t).background_image_base64,
            t.provenance == old(t).provenance,
            t.characters@ == charsfin,
            keys_unique(charsfin),
            keys_unique(old(t).endings@),
            nodes0 == old(t).nodes@,
            keys_unique(nodes0),
            t.nodes@.len() <= nodes0.len(),
            t.nodes@ =~= nodes0.skip(nodes0.len() - t.nodes@.len()),
            new_nodes@.len() == nodes0.len() - t.nodes@.len(),
            forall|i2: int|
                0 <= i2 < new_nodes@.len() ==> (#[trigger] new_nodes@[i2]).0 == nodes0[i2].0,
            forall|i2: int|
                0 <= i2 < new_nodes@.len() ==> {
                    let o = nodes0[i2].1;
                    let nn = (#[trigger] new_nodes@[i2]).1;
                    &&& nn.id == o.id
                    &&& nn.content == o.content
                    &&& nn.ending_key == o.ending_key
                    &&& nn.level == o.level
                    &&& nn.choices == o.choices
                    &&& match o.characters {
                        None => nn.characters is None,
                        Some(v) => match nn.characters {
                            Some(w) => people_filtered(inputs@, v@, w@) && w@.len() > 0,
                            None => forall|m: int|
                                0 <= m < v@.len() ==> !((#[trigger] trim_of(v@[m]@)).len() > 0
                                    && allow_has(inputs@, trim_of(v@[m]@))),
                        },
                    }
                },
        decreases t.nodes@.len(),
    {
        let ghost done = nodes0.len() - t.nodes@.len();
        let (key, node) = t.nodes.remove(0);
        proof {
            assert((key, node) == nodes0[done]);
        }
        let new_people: Option<Vec<String>> = match &node.characters {
            Some(v) => {
                let w = filter_people(&inputs, v);
                if w.len() == 0 {
                    proof {
                        assert forall|m: int| 0 <= m < v@.len() implies !((#[trigger] trim_of(
                            v@[m]@,
                        )).len() > 0 && allow_has(inputs@, trim_of(v@[m]@))) by {
                            if trim_of(v@[m]@).len() > 0 && allow_has(inputs@, trim_of(v@[m]@)) {
                                let k = choose|k: int|
                                    0 <= k < w@.len() && (#[trigger] w@[k])@ == trim_of(v@[m]@);
                                assert(false);
                            }
                        }
                    }
                    None
                } else {
                    Some(w)
                }
            },
            None => None,
        };
        let n2 = StoryNode {
            id: node.id,
            content: node.content,
            ending_key: node.ending_key,
            level: node.level,
            characters: new_people,
            choices: node.choices,
        };
        new_nodes.push((key, n2));
        proof {
            assert(t.nodes@ =~= nodes0.skip(nodes0.len() - t.nodes@.len()));
        }
    }
    t.nodes = new_nodes;
    proof {
        assert(keys_unique(t.nodes@)) by {
            assert forall|x: int, y: int|
                0 <= x < y < t.nodes@.len() implies t.nodes@[x].0@ != t.nodes@[y].0@ by {
                assert(t.nodes@[x].0 == nodes0[x].0 && t.nodes@[y].0 == nodes0[y].0);
            }
        }
    }
}

/// Whether some cast entry's display name trims to `name`.
pub open spec fn cast_has_name(chars: Seq<(String, Character)>, name: Seq<char>) -> bool {
    exists|i: int| 0 <= i < chars.len() && #[trigger] trim_of(chars[i].1.name@) == name
}

fn cast_name_exists(chars: &Vec<(String, Character)>, name: &str) -> (r: bool)
    ensures
        r == cast_has_name(chars@, name@),
{
    let n = chars.len();
    let mut i: usize = 0;
    while i < n
        invariant
            n == chars@.len(),
            i <= n,
            forall|j: int| 0 <= j < i ==> #[trigger] trim_of(chars@[j].1.name@) != name@,
        decreases n - i,
    {
        let tv = str_trim(chars[i].1.name.as_str());
        if str_eq(tv.as_str(), name) {
            proof {
                assert(trim_of(chars@[i as int].1.name@) == name@);
            }
            return true;
        }
        i += 1;
    }
    false
}

/// Extend a candidate key with underscores until it collides with no
/// existing cast key.
fn fresh_cast_key(chars: &Vec<(String, Character)>, base: String) -> (r: String)
    ensures
        !map_has(chars@, r@),
{
    let cn = chars.len();
    let mut maxlen: usize = 0;
    let mut i: usize = 0;
    while i < cn
        invariant
            cn == chars@.len(),
            i <= cn,
            forall|j: int| 0 <= j < i ==> (#[trigger] chars@[j]).0@.len() <= maxlen,
        decreases cn - i,
    {
        let kl = crate::text::str_chars(chars[i].0.as_str()).len();
        if kl > maxlen {
            maxlen = kl;
        }
        i += 1;
    }
    let mut cand = crate::text::str_chars(base.as_str());
    loop
        invariant
            cn == chars@.len(),
            forall|j: int| 0 <= j < cn ==> (#[trigger] chars@[j]).0@.len() <= maxlen,
        decreases maxlen + 1 - cand@.len(),
    {
        let cs = crate::text::chars_string(&cand);
        if !dict_contains(chars, cs.as_str()) {
            return cs;
        }
        proof {
            let w = crate::types::idx_of(chars@, cand@);
            assert(0 <= w < chars@.len() && chars@[w].0@ == cand@);
            assert(cand@.len() <= maxlen);
        }
        cand.push('_');
    }
}

/// A cast entry kept as it stood, except that a blank gender may have
/// been filled in with a trimmed, nonblank one.
pub open spec fn kept_person(o: (String, Character), n: (String, Character)) -> bool {
    &&& n.0 == o.0
    &&& n.1.id == o.1.id
    &&& n.1.name == o.1.name
    &&& n.1.age == o.1.age
    &&& n.1.role == o.1.role
    &&& n.1.background == o.1.background
    &&& n.1.avatar_path == o.1.avatar_path
    &&& (n.1.gender == o.1.gender || (trim_of(o.1.gender@).len() == 0 && n.1.gender@.len() > 0
        && trim_of(n.1.gender@) == n.1.gender@))
}

/// A cast entry built from one requested character: keyed consistently,
/// named by the trimmed request name, and with the request's fields.
pub open spec fn requested_entry(inputs: Seq<CharacterInput>, e: (String, Character)) -> bool {
    &&& e.1.id == e.0
    &&& e.1.age == 0
    &&& e.1.avatar_path is None
    &&& exists|j: int|
        0 <= j < inputs.len() && {
            let inp = #[trigger] inputs[j];
            &&& e.1.name@ == trim_of(inp.name@)
            &&& e.1.name@.len() > 0
            &&& e.1.background@ == trim_of(inp.description@)
            &&& (if trim_of(inp.gender@).len() == 0 {
                e.1.gender@ == "Unknown"@
            } else {
                e.1.gender@ == trim_of(inp.gender@)
            })
            &&& (if inp.is_main {
                e.1.role@ == "Protagonist"@
            } else {
                e.1.role@ == "Supporting"@
            })
        }
}

/// Make sure every nonblank requested character exists in the cast, by
/// trimmed display name: an existing entry has a blank gender filled in
/// from the request; a missing one is inserted under a fresh key (the
/// protagonist under its reserved key, others under numbered request keys,
/// falling back to a hashed key on a collision).
pub fn ensure_request_characters_present(
    t: &mut MovieTemplate,
    req_chars: Option<Vec<CharacterInput>>,
)
    requires
        old(t).wf(),
    ensures
        final(t).wf(),
        final(t).nodes == old(t).nodes,
        final(t).endings == old(t).endings,
        final(t).meta == old(t).meta,
        final(t).title == old(t).title,
        final(t).project_id == old(t).project_id,
        final(t).version == old(t).version,
        final(t).owner == old(t).owner,
        final(t).background_image_base64 == old(t).background_image_base64,
        final(t).provenance == old(t).provenance,
        req_chars is None ==> final(t).characters == old(t).characters,
        // the cast only grows: existing entries stay in place, changed at
        // most by a blank gender being filled in
        final(t).characters@.len() >= old(t).characters@.len(),
        forall|a: int|
            0 <= a < old(t).characters@.len() ==> kept_person(
                old(t).characters@[a],
                (#[trigger] final(t).characters@[a]),
            ),
        // every appended entry is built from one requested character
        forall|a: int|
            old(t).characters@.len() <= a < final(t).characters@.len() ==> requested_entry(
                match req_chars {
                    Some(inputs) => inputs@,
                    None => Seq::empty(),
                },
                (#[trigger] final(t).characters@[a]),
            ),
        match req_chars {
            None => true,
            Some(inputs) => forall|j: int|
                0 <= j < inputs@.len() && (#[trigger] trim_of(inputs@[j].name@)).len() > 0
                    ==> cast_has_name(final(t).characters@, trim_of(inputs@[j].name@)),
        },
{
    let inputs = match req_chars {
        Some(inputs) => inputs,
        None => {
            return ;
        },
    };
    let n = inputs.len();
    let mut idx: u64 = 0;
    let mut i: usize = 0;
    while i < n
        invariant
            n == inputs@.len(),
            i <= n,
            t.nodes == old(t).nodes,
            t.endings == old(t).endings,
            t.meta == old(t).meta,
            t.title == old(t).title,
            t.project_id == old(t).project_id,
            t.version == old(t).version,
            t.owner == old(t).owner,
            t.background_image_base64 == old(t).background_image_base64,
            t.provenance == old(t).provenance,
            keys_unique(old(t).nodes@),
            keys_unique(old(t).endings@),
            keys_unique(t.characters@),
            idx <= i as u64,
            t.characters@.len() >= old(t).characters@.len(),
            forall|a: int|
                0 <= a < old(t).characters@.len() ==> kept_person(
                    old(t).characters@[a],
                    (#[trigger] t.characters@[a]),
                ),
            forall|a: int|
                old(t).characters@.len() <= a < t.characters@.len() ==> requested_entry(
                    inputs@,
                    (#[trigger] t.characters@[a]),
                ),
            forall|j: int|
                0 <= j < i && (#[trigger] trim_of(inputs@[j].name@)).len() > 0 ==> cast_has_name(
                    t.characters@,
                    trim_of(inputs@[j].name@),
                ),
        decreases n - i,
    {
        let ghost cpre = t.characters@;
        let name = str_trim(inputs[i].name.as_str());
        if !name.as_str().is_empty() {
            if cast_name_exists(&t.characters, name.as_str()) {
                // fill in blank genders on the matching entries
                let g = str_trim(inputs[i].gender.as_str());
                if !g.as_str().is_empty() {
                    let cn = t.characters.len();
                    let mut k: usize = 0;
                    while k < cn
                        invariant
                            cn == t.characters@.len(),
                            k <= cn,
                            t.nodes == old(t).nodes,
                            t.endings == old(t).endings,
                            t.meta == old(t).meta,
                            t.title == old(t).title,
                            t.project_id == old(t).project_id,
                            t.version == old(t).version,
                            t.owner == old(t).owner,
                            t.background_image_base64 == old(t).background_image_base64,
                            t.provenance == old(t).provenance,
                            keys_unique(old(t).nodes@),
                            keys_unique(old(t).endings@),
                            keys_unique(t.characters@),
                            t.characters@.len() == cpre.len(),
                            t.characters@.len() >= old(t).characters@.len(),
                            g@ == trim_of(inputs@[i as int].gender@),
                            g@.len() > 0,
                            forall|a: int|
                                0 <= a < cpre.len() ==> (#[trigger] t.characters@[a]).0
                                    == cpre[a].0,
                            forall|a: int|
                                0 <= a < cpre.len() ==> (#[trigger] t.characters@[a]).1.name
                                    == cpre[a].1.name,
                            forall|a: int|
                                0 <= a < old(t).characters@.len() ==> kept_person(
                                    old(t).characters@[a],
                                    (#[trigger] t.characters@[a]),
                                ),
                            forall|a: int|
                                old(t).characters@.len() <= a < t.characters@.len()
                                    ==> requested_entry(inputs@, (#[trigger] t.characters@[a])),
                        decreases cn - k,
                    {
                        let tv = str_trim(t.characters[k].1.name.as_str());
                        let gblank = str_trim(t.characters[k].1.gender.as_str());
                        if str_eq(tv.as_str(), name.as_str()) && gblank.as_str().is_empty() {
                            let ghost cmid = t.characters@;
                            let (key, mut c) = t.characters.remove(k);
                            c.gender = g.clone();
                            t.characters.insert(k, (key, c));
                            proof {
                                assert(t.characters@ =~= cmid.update(
                                    k as int,
                                    (cmid[k as int].0, t.characters@[k as int].1),
                                ));
                                assert forall|x: int, y: int|
                                    0 <= x < y < t.characters@.len() implies t.characters@[x].0@
                                    != t.characters@[y].0@ by {
                                    assert(t.characters@[x].0 == cmid[x].0 && t.characters@[y].0
                                        == cmid[y].0);
                                }
                                crate::text::lemma_trim_idem(inputs@[i as int].gender@);
                                assert forall|a: int|
                                    0 <= a < old(t).characters@.len() implies kept_person(
                                    old(t).characters@[a],
                                    (#[trigger] t.characters@[a]),
                                ) by {
                                    if a != k {
                                        assert(t.characters@[a] == cmid[a]);
                                    } else {
                                        assert(kept_person(old(t).characters@[a], cmid[a]));
                                        assert(trim_of(cmid[a].1.gender@).len() == 0);
                                        assert(trim_of(old(t).characters@[a].1.gender@).len()
                                            == 0) by {
                                            if cmid[a].1.gender
                                                != old(t).characters@[a].1.gender {
                                                assert(trim_of(cmid[a].1.gender@)
                                                    == cmid[a].1.gender@);
                                                assert(cmid[a].1.gender@.len() > 0);
                                            }
                                        }
                                        assert(t.characters@[a].1.gender@ == g@);
                                    }
                                }
                                assert forall|a: int|
                                    old(t).characters@.len() <= a < t.characters@.len()
                                    implies requested_entry(
                                    inputs@,
                                    (#[trigger] t.characters@[a]),
                                ) by {
                                    if a != k {
                                        assert(t.characters@[a] == cmid[a]);
                                    } else {
                                        // an appended entry never has a blank
                                        // gender, so it is never refilled
                                        assert(requested_entry(inputs@, cmid[a]));
                                        let j2 = choose|j2: int|
                                            0 <= j2 < inputs@.len() && {
                                                let inp = #[trigger] inputs@[j2];
                                                &&& cmid[a].1.name@ == trim_of(inp.name@)
                                                &&& cmid[a].1.name@.len() > 0
                                                &&& cmid[a].1.background@ == trim_of(
                                                    inp.description@,
                                                )
                                                &&& (if trim_of(inp.gender@).len() == 0 {
                                                    cmid[a].1.gender@ == "Unknown"@
                                                } else {
                                                    cmid[a].1.gender@ == trim_of(inp.gender@)
                                                })
                                                &&& (if inp.is_main {
                                                    cmid[a].1.role@ == "Protagonist"@
                                                } else {
                                                    cmid[a].1.role@ == "Supporting"@
                                                })
                                            };
                                        if trim_of(inputs@[j2].gender@).len() == 0 {
                                            reveal_strlit("Unknown");
                                            crate::text::lemma_trim_id("Unknown"@);
                                            assert(trim_of(cmid[a].1.gender@).len() > 0);
                                        } else {
                                            crate::text::lemma_trim_idem(inputs@[j2].gender@);
                                            assert(trim_of(cmid[a].1.gender@).len() > 0);
                                        }
                                        assert(false);
                                    }
                                }
                            }
                        }
                        k += 1;
                    }
                }
                proof {
                    assert forall|j: int|
                        0 <= j < i + 1 && (#[trigger] trim_of(inputs@[j].name@)).len() > 0
                        implies cast_has_name(t.characters@, trim_of(inputs@[j].name@)) by {
                        if j < i {
                            let w = choose|w: int|
                                0 <= w < cpre.len() && #[trigger] trim_of(cpre[w].1.name@)
                                    == trim_of(inputs@[j].name@);
                            assert(t.characters@[w].1.name == cpre[w].1.name);
                            assert(trim_of(t.characters@[w].1.name@) == trim_of(inputs@[j].name@));
                        } else {
                            let w = choose|w: int|
                                0 <= w < cpre.len() && #[trigger] trim_of(cpre[w].1.name@)
                                    == name@;
                            assert(t.characters@[w].1.name == cpre[w].1.name);
                            assert(trim_of(t.characters@[w].1.name@) == name@);
                        }
                    }
                }
            } else {
                let key = if inputs[i].is_main {
                    "player_protagonist".to_owned()
                } else {
                    idx = idx + 1;
                    let d = u64_dec_string(idx);
                    let prefix = if idx < 10 {
                        str_concat("c_req_0", d.as_str())
                    } else {
                        str_concat("c_req_", d.as_str())
                    };
                    prefix
                };
                let key2 = if dict_contains(&t.characters, key.as_str()) {
                    let salted = str_concat(name.as_str(), "::");
                    let salted2 = str_concat(salted.as_str(), u64_dec_string(idx).as_str());
                    let h = crate::text::simple_hash_u32(salted2.as_str());
                    let hashed = str_concat("c_req_", u64_dec_string(h as u64).as_str());
                    fresh_cast_key(&t.characters, hashed)
                } else {
                    key
                };
                let g = str_trim(inputs[i].gender.as_str());
                let gender = if g.as_str().is_empty() {
                    "Unknown".to_owned()
                } else {
                    g
                };
                let role = if inputs[i].is_main {
                    "Protagonist".to_owned()
                } else {
                    "Supporting".to_owned()
                };
                let c = Character {
                    id: key2.clone(),
                    name: name.clone(),
                    gender,
                    age: 0,
                    role,
                    background: str_trim(inputs[i].description.as_str()),
                    avatar_path: None,
                };
                proof {
                    assert(!map_has(cpre, key2@));
                }
                dict_insert(&mut t.characters, key2, c);
                proof {
                    crate::text::lemma_trim_idem(inputs@[i as int].name@);
                    crate::text::lemma_trim_idem(inputs@[i as int].gender@);
                    crate::text::lemma_trim_idem(inputs@[i as int].description@);
                    assert(t.characters@.len() == cpre.len() + 1);
                    assert forall|a: int|
                        0 <= a < old(t).characters@.len() implies kept_person(
                        old(t).characters@[a],
                        (#[trigger] t.characters@[a]),
                    ) by {
                        assert(t.characters@[a] == cpre[a]);
                    }
                    assert forall|a: int|
                        old(t).characters@.len() <= a < t.characters@.len()
                        implies requested_entry(inputs@, (#[trigger] t.characters@[a])) by {
                        if a < cpre.len() {
                            assert(t.characters@[a] == cpre[a]);
                        } else {
                            assert(t.characters@[a].1 == c);
                            assert(t.characters@[a].0@ == c.id@);
                            assert({
                                let inp = inputs@[i as int];
                                &&& c.name@ == trim_of(inp.name@)
                                &&& c.name@.len() > 0
                                &&& c.background@ == trim_of(inp.description@)
                                &&& (if trim_of(inp.gender@).len() == 0 {
                                    c.gender@ == "Unknown"@
                                } else {
                                    c.gender@ == trim_of(inp.gender@)
                                })
                                &&& (if inp.is_main {
                                    c.role@ == "Protagonist"@
                                } else {
                                    c.role@ == "Supporting"@
                                })
                            });
                            assert(requested_entry(inputs@, t.characters@[a]));
                        }
                    }
                    assert forall|j: int|
                        0 <= j < i + 1 && (#[trigger] trim_of(inputs@[j].name@)).len() > 0
                        implies cast_has_name(t.characters@, trim_of(inputs@[j].name@)) by {
                        if j < i {
                            let w = choose|w: int|
                                0 <= w < cpre.len() && #[trigger] trim_of(cpre[w].1.name@)
                                    == trim_of(inputs@[j].name@);
                            assert(t.characters@[w] == cpre[w]);
                            assert(trim_of(t.characters@[w].1.name@) == trim_of(
                                inputs@[j].name@,
                            ));
                        } else {
                            assert(t.characters@[t.characters@.len() - 1].1 == c);
                            assert(trim_of(c.name@) == name@);
                        }
                    }
                }
            }
        }
        i += 1;
    }
}

/// The requested protagonist's name: the first entry marked main, else
/// the first entry, else the default self-reference.
pub open spec fn first_main_idx(cs: Seq<CharacterInput>, i: int) -> int
    decreases cs.len() - i,
{
    if i < 0 || i >= cs.len() {
        -1
    } else if cs[i].is_main {
        i
    } else {
        first_main_idx(cs, i + 1)
    }
}

/// The requested protagonist's name and gender, with defaults.
pub open spec fn req_protagonist(req: Option<Vec<CharacterInput>>) -> (Seq<char>, Seq<char>) {
    match req {
        None => ("主角"@, "男"@),
        Some(cs) => {
            if cs@.len() == 0 {
                ("主角"@, "男"@)
            } else {
                let m = first_main_idx(cs@, 0);
                if m >= 0 {
                    (cs@[m].name@, cs@[m].gender@)
                } else {
                    (cs@[0].name@, cs@[0].gender@)
                }
            }
        },
    }
}

fn pick_protagonist(req: &Option<Vec<CharacterInput>>) -> (r: (String, String))
    ensures
        r.0@ == req_protagonist(*req).0,
        r.1@ == req_protagonist(*req).1,
{
    match req {
        None => ("主角".to_owned(), "男".to_owned()),
        Some(cs) => {
            if cs.len() == 0 {
                return ("主角".to_owned(), "男".to_owned());
            }
            let n = cs.len();
            let mut i: usize = 0;
            while i < n
                invariant
                    *req == Some(*cs),
                    n == cs@.len(),
                    n > 0,
                    i <= n,
                    first_main_idx(cs@, 0) == first_main_idx(cs@, i as int),
                decreases n - i,
            {
                if cs[i].is_main {
                    proof {
                        assert(first_main_idx(cs@, i as int) == i);
                    }
                    return (cs[i].name.clone(), cs[i].gender.clone());
                }
                i += 1;
            }
            proof {
                assert(first_main_idx(cs@, n as int) == -1);
            }
            (cs[0].name.clone(), cs[0].gender.clone())
        },
    }
}

/// The inserted entry node: keyed `start`, with the protagonist as its
/// single listed person.
pub open spec fn start_entry_ok(e: (String, StoryNode), name: Seq<char>) -> bool {
    &&& e.0@ == "start"@
    &&& match e.1.characters {
        Some(ps) => ps@.len() == 1 && ps@[0]@ == name,
        None => false,
    }
}

/// Give an empty or entry-less graph a minimal playable shape: fill in a
/// missing language, insert the three canonical endings when none exist,
/// and, when there is no entry node, insert a three-scene graph and a
/// protagonist drawn from the request.
#[verifier::rlimit(100)]
pub fn ensure_minimum_game_graph(
    t: &mut MovieTemplate,
    language_tag: &str,
    req_characters: Option<Vec<CharacterInput>>,
)
    requires
        old(t).wf(),
    ensures
        final(t).wf(),
        final(t).title == old(t).title,
        final(t).project_id == old(t).project_id,
        final(t).version == old(t).version,
        final(t).owner == old(t).owner,
        final(t).background_image_base64 == old(t).background_image_base64,
        final(t).provenance == old(t).provenance,
        final(t).meta.language@ == (if old(t).meta.language@.len() == 0 {
            language_tag@
        } else {
            old(t).meta.language@
        }),
        final(t).meta.logline == old(t).meta.logline,
        final(t).meta.synopsis == old(t).meta.synopsis,
        final(t).meta.genre == old(t).meta.genre,
        final(t).meta.target_runtime_minutes == old(t).meta.target_runtime_minutes,
        old(t).endings@.len() > 0 ==> final(t).endings == old(t).endings,
        old(t).endings@.len() == 0 ==> final(t).endings@.len() == 3 && map_has(
            final(t).endings@,
            "ending_good"@,
        ) && map_has(final(t).endings@, "ending_neutral"@) && map_has(
            final(t).endings@,
            "ending_bad"@,
        ),
        (old(t).nodes@.len() > 0 && map_has(old(t).nodes@, "start"@)) ==> final(t).nodes == old(
            t,
        ).nodes && final(t).characters == old(t).characters,
        !(old(t).nodes@.len() > 0 && map_has(old(t).nodes@, "start"@)) ==> map_has(
            final(t).nodes@,
            "start"@,
        ),
        // the inserted entry node lists exactly the protagonist
        !(old(t).nodes@.len() > 0 && map_has(old(t).nodes@, "start"@)) ==> exists|i: int|
            0 <= i < final(t).nodes@.len() && start_entry_ok(
                (#[trigger] final(t).nodes@[i]),
                req_protagonist(req_characters).0,
            ),
        (!(old(t).nodes@.len() > 0 && map_has(old(t).nodes@, "start"@)) && !map_has(
            old(t).characters@,
            "c_player"@,
        )) ==> exists|i: int|
            0 <= i < final(t).characters@.len() && (#[trigger] final(t).characters@[i]).1.name@
                == req_protagonist(req_characters).0 && final(t).characters@[i].1.gender@
                == req_protagonist(req_characters).1,
{
    if t.meta.language.as_str().is_empty() {
        t.meta.language = language_tag.to_owned();
    }
    let (prot_name, prot_gender) = pick_protagonist(&req_characters);
    if t.endings.len() == 0 {
        t.endings.push(
            (
                "ending_good".to_owned(),
                Ending {
                    category: "good".to_owned(),
                    description: "我扛住了压力，也守住了边界。".to_owned(),
                },
            ),
        );
        t.endings.push(
            (
                "ending_neutral".to_owned(),
                Ending {
                    category: "neutral".to_owned(),
                    description: "我暂时逃开了，但问题没消失。".to_owned(),
                },
            ),
        );
        t.endings.push(
            (
                "ending_bad".to_owned(),
                Ending {
                    category: "bad".to_owned(),
                    description: "我把事情拖烂了，明天更难受。".to_owned(),
                },
            ),
        );
        proof {
            assert(t.endings@[0].0@ == "ending_good"@);
            assert(t.endings@[1].0@ == "ending_neutral"@);
            assert(t.endings@[2].0@ == "ending_bad"@);
            reveal_strlit("ending_good");
            reveal_strlit("ending_neutral");
            reveal_strlit("ending_bad");
            assert(keys_unique(t.endings@));
        }
    }
    let need_graph = if t.nodes.len() == 0 {
        true
    } else {
        !dict_contains(&t.nodes, "start")
    };
    if need_graph {
        if !dict_contains(&t.characters, "c_player") {
            let c = Character {
                id: "c_player".to_owned(),
                name: prot_name.clone(),
                gender: prot_gender.clone(),
                age: 28,
                role: "员工".to_owned(),
                background: "下班时被突然的消息绊住。".to_owned(),
                avatar_path: None,
            };
            dict_insert(&mut t.characters, "c_player".to_owned(), c);
        }
        let ghost chars_after = t.characters@;
        let mut people: Vec<String> = Vec::new();
        people.push(prot_name.clone());
        let start_node = StoryNode {
            id: "start".to_owned(),
            content:
                "下班的电梯门合上那一刻，我手机震了一下。屏幕上只有一句：‘回来一趟。’我盯着那行字，胃里像被拧了一把。回去，就等于把自己再塞回那间会议室；不回去，明天的账只会更难算。门外的风很冷，我却更怕那句没有语气的命令。".to_owned(),
            ending_key: None,
            level: None,
            characters: Some(people),
            choices: vec_of_two(
                Choice {
                    text: "回去，当面把话说清楚".to_owned(),
                    next_node_id: "confront".to_owned(),
                    affinity_effect: None,
                },
                Choice {
                    text: "装作没看见，先离开".to_owned(),
                    next_node_id: "escape".to_owned(),
                    affinity_effect: None,
                },
            ),
        };
        let mut people2: Vec<String> = Vec::new();
        people2.push(prot_name.clone());
        let confront_node = StoryNode {
            id: "confront".to_owned(),
            content:
                "我转身往回走，每一步都像踩在自己心虚上。进门前我深吸一口气：今天的锅我不背，但我也不躲。对方的目光压过来时，我把手心里的汗收住，先把边界摆出来。".to_owned(),
            ending_key: None,
            level: None,
            characters: Some(people2),
            choices: vec_of_two(
                Choice {
                    text: "坚持边界".to_owned(),
                    next_node_id: "ending_good".to_owned(),
                    affinity_effect: None,
                },
                Choice {
                    text: "退一步求稳".to_owned(),
                    next_node_id: "ending_neutral".to_owned(),
                    affinity_effect: None,
                },
            ),
        };
        let mut people3: Vec<String> = Vec::new();
        people3.push(prot_name.clone());
        let escape_node = StoryNode {
            id: "escape".to_owned(),
            content:
                "我把手机塞进兜里，假装没听见。地铁的轰鸣把我脑子里那句‘回来’冲得更响。我知道自己在拖，但我现在只想把今天结束掉。可越走越快，我越清楚：明天只会更糟。".to_owned(),
            ending_key: None,
            level: None,
            characters: Some(people3),
            choices: vec_of_two(
                Choice {
                    text: "继续逃".to_owned(),
                    next_node_id: "ending_bad".to_owned(),
                    affinity_effect: None,
                },
                Choice {
                    text: "回头补救".to_owned(),
                    next_node_id: "ending_neutral".to_owned(),
                    affinity_effect: None,
                },
            ),
        };
        let ghost npre = t.nodes@;
        dict_insert(&mut t.nodes, "start".to_owned(), start_node);
        let ghost na = t.nodes@;
        dict_insert(&mut t.nodes, "confront".to_owned(), confront_node);
        let ghost nb = t.nodes@;
        dict_insert(&mut t.nodes, "escape".to_owned(), escape_node);
        proof {
            reveal_strlit("start");
            reveal_strlit("confront");
            reveal_strlit("escape");
            assert(map_has(na, "start"@));
            assert(map_has(nb, "start"@)) by {
                reveal_strlit("start");
                reveal_strlit("confront");
                let w = crate::types::idx_of(na, "start"@);
                assert(na[w].0@ == "start"@);
                if map_has(na, "confront"@) {
                    let u = crate::types::idx_of(na, "confront"@);
                    assert(na[u].0@ == "confront"@);
                    if w == u {
                        assert("start"@.len() == "confront"@.len());
                        assert(false);
                    }
                    assert(nb[w].0@ == "start"@);
                } else {
                    assert(nb[w].0@ == "start"@);
                }
            }
            assert(map_has(t.nodes@, "start"@)) by {
                reveal_strlit("start");
                reveal_strlit("escape");
                let w = crate::types::idx_of(nb, "start"@);
                assert(nb[w].0@ == "start"@);
                if map_has(nb, "escape"@) {
                    let u = crate::types::idx_of(nb, "escape"@);
                    assert(nb[u].0@ == "escape"@);
                    if w == u {
                        assert("start"@.len() == "escape"@.len());
                        assert(false);
                    }
                    assert(t.nodes@[w].0@ == "start"@);
                } else {
                    assert(t.nodes@[w].0@ == "start"@);
                }
            }
            if !map_has(old(t).characters@, "c_player"@) {
                assert(t.characters@ == chars_after);
                assert(t.characters@[t.characters@.len() - 1].1.name@ == prot_name@);
                assert(t.characters@[t.characters@.len() - 1].1.gender@ == prot_gender@);
                assert(exists|i: int|
                    0 <= i < t.characters@.len() && (#[trigger] t.characters@[i]).1.name@
                        == req_protagonist(req_characters).0 && t.characters@[i].1.gender@
                        == req_protagonist(req_characters).1);
            }
            // the freshly inserted entry node survives the two later inserts
            assert(!map_has(npre, "start"@));
            let wa = na.len() - 1;
            assert(na[wa].0@ == "start"@ && na[wa].1 == start_node);
            assert(start_entry_ok(na[wa], prot_name@));
            assert(nb[wa] == na[wa]) by {
                reveal_strlit("start");
                reveal_strlit("confront");
                if map_has(na, "confront"@) {
                    let u = crate::types::idx_of(na, "confront"@);
                    assert(na[u].0@ == "confront"@);
                    if u == wa {
                        assert("start"@.len() == "confront"@.len());
                        assert(false);
                    }
                }
            }
            assert(t.nodes@[wa] == nb[wa]) by {
                reveal_strlit("start");
                reveal_strlit("escape");
                if map_has(nb, "escape"@) {
                    let u = crate::types::idx_of(nb, "escape"@);
                    assert(nb[u].0@ == "escape"@);
                    if u == wa {
                        assert("start"@.len() == "escape"@.len());
                        assert(false);
                    }
                }
            }
            assert(start_entry_ok(t.nodes@[wa], prot_name@));
            assert(exists|i: int|
                0 <= i < t.nodes@.len() && start_entry_ok(
                    (#[trigger] t.nodes@[i]),
                    req_protagonist(req_characters).0,
                )) by {
                assert(start_entry_ok(t.nodes@[wa], req_protagonist(req_characters).0));
            }
        }
    }
}

fn vec_of_two(a: Choice, b: Choice) -> (r: Vec<Choice>)
    ensures
        r@.len() == 2,
        r@[0] == a,
        r@[1] == b,
{
    let mut r: Vec<Choice> = Vec::new();
    r.push(a);
    r.push(b);
    r
}

} // verus!
