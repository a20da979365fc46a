//! Side-effect sanitizer: make every choice-level relationship effect
//! referentially and numerically safe.
//!
//! Each effect's target is resolved through the cast id-to-name map, its
//! delta is clamped into the allowed interval, and the effect is dropped
//! entirely when the resolved target is blank, is the computed protagonist,
//! or is not in the node's declared person list.

use vstd::prelude::*;

use crate::text::{
    chars_contain, chars_string, chars_to_lower, contains_seq, lower_of, str_chars, str_eq,
    str_trim, trim_of,
};
use crate::types::{keys_unique, AffinityEffect, Character, Choice, MovieTemplate, StoryNode};

verus! {

/// The heuristic protagonist score of one cast entry.
pub open spec fn score_of(key: Seq<char>, c: Character) -> int {
    (if contains_seq(lower_of(key), "player"@) || contains_seq(lower_of(key), "protagonist"@)
        || contains_seq(lower_of(key), "main"@) {
        2int
    } else {
        0int
    }) + (if contains_seq(lower_of(c.role@), "protagonist"@) || contains_seq(c.role@, "主角"@)
        || contains_seq(lower_of(c.role@), "main"@) {
        2int
    } else {
        0int
    }) + (if c.name@ == "我"@ || lower_of(c.name@) == "player"@ {
        3int
    } else {
        0int
    }) + (if contains_seq(c.name@, "主角"@) || contains_seq(lower_of(c.name@), "protagonist"@) {
        3int
    } else {
        0int
    }) + (if contains_seq(lower_of(c.name@), "player"@) || contains_seq(c.name@, "玩家"@) {
        1int
    } else {
        0int
    })
}

/// The name of the best-scoring entry from position `i` on, given the best
/// score and name seen so far; earlier entries win ties.
pub open spec fn best_name_from(
    chars: Seq<(String, Character)>,
    i: int,
    bs: int,
    bn: Seq<char>,
) -> Seq<char>
    decreases chars.len() - i,
{
    if i < 0 || i >= chars.len() {
        bn
    } else {
        let s = score_of(chars[i].0@, chars[i].1);
        if s > bs {
            best_name_from(chars, i + 1, s, chars[i].1.name@)
        } else {
            best_name_from(chars, i + 1, bs, bn)
        }
    }
}

/// The computed protagonist name: the first best-scoring cast entry's
/// name, or the empty string for an empty cast.
pub open spec fn protagonist_of(chars: Seq<(String, Character)>) -> Seq<char> {
    if chars.len() == 0 {
        Seq::empty()
    } else {
        best_name_from(chars, 1, score_of(chars[0].0@, chars[0].1), chars[0].1.name@)
    }
}

fn score_entry(key: &str, c: &Character) -> (r: i32)
    ensures
        r as int == score_of(key@, *c),
        0 <= r <= 11,
{
    let lk = chars_to_lower(&str_chars(key));
    let lrole = chars_to_lower(&str_chars(c.role.as_str()));
    let role_raw = str_chars(c.role.as_str());
    let lname = chars_to_lower(&str_chars(c.name.as_str()));
    let name_raw = str_chars(c.name.as_str());
    let p_player = str_chars("player");
    let p_prot = str_chars("protagonist");
    let p_main = str_chars("main");
    let p_zhu = str_chars("主角");
    let p_wo = str_chars("我");
    let p_wanjia = str_chars("玩家");
    let mut r: i32 = 0;
    if chars_contain(&lk, &p_player) || chars_contain(&lk, &p_prot) || chars_contain(
        &lk,
        &p_main,
    ) {
        r += 2;
    }
    if chars_contain(&lrole, &p_prot) || chars_contain(&role_raw, &p_zhu) || chars_contain(
        &lrole,
        &p_main,
    ) {
        r += 2;
    }
    if str_eq(c.name.as_str(), "我") || {
        let ln = chars_string(&lname);
        str_eq(ln.as_str(), "player")
    } {
        r += 3;
    }
    if chars_contain(&name_raw, &p_zhu) || chars_contain(&lname, &p_prot) {
        r += 3;
    }
    if chars_contain(&lname, &p_player) || chars_contain(&name_raw, &p_wanjia) {
        r += 1;
    }
    r
}

/// The computed protagonist name: score every cast entry and keep the
/// highest-scoring name, earlier entries winning ties.
pub fn select_protagonist(chars: &Vec<(String, Character)>) -> (r: String)
    ensures
        r@ == protagonist_of(chars@),
{
    if chars.len() == 0 {
        let r = String::new();
        proof {
            assert(r@ =~= protagonist_of(chars@));
        }
        return r;
    }
    let mut bs = score_entry(chars[0].0.as_str(), &chars[0].1);
    let mut bn = chars[0].1.name.clone();
    let n = chars.len();
    let mut i: usize = 1;
    while i < n
        invariant
            n == chars@.len(),
            1 <= i <= n,
            protagonist_of(chars@) == best_name_from(chars@, i as int, bs as int, bn@),
        decreases n - i,
    {
        let s = score_entry(chars[i].0.as_str(), &chars[i].1);
        if s > bs {
            bs = s;
            bn = chars[i].1.name.clone();
        }
        i += 1;
    }
    bn
}

/// The resolved form of a trimmed effect target: the display name of the
/// first cast entry whose `id` matches it, otherwise the target itself.
pub open spec fn resolve_name(chars: Seq<(String, Character)>, tv: Seq<char>) -> Seq<char>
    decreases chars.len(),
{
    if chars.len() == 0 {
        tv
    } else if chars[0].1.id@ == tv {
        chars[0].1.name@
    } else {
        resolve_name(chars.drop_first(), tv)
    }
}

fn resolve_target(chars: &Vec<(String, Character)>, tv: &str) -> (r: String)
    ensures
        r@ == resolve_name(chars@, tv@),
{
    let n = chars.len();
    proof {
        assert(chars@.skip(0) =~= chars@);
    }
    let mut i: usize = 0;
    while i < n
        invariant
            n == chars@.len(),
            i <= n,
            resolve_name(chars@, tv@) == resolve_name(chars@.skip(i as int), tv@),
        decreases n - i,
    {
        if str_eq(chars[i].1.id.as_str(), tv) {
            proof {
                assert(chars@.skip(i as int)[0] == chars@[i as int]);
            }
            return chars[i].1.name.clone();
        }
        proof {
            assert(chars@.skip(i as int)[0] == chars@[i as int]);
            assert(chars@.skip(i as int).drop_first() =~= chars@.skip(i + 1));
        }
        i += 1;
    }
    proof {
        assert(chars@.skip(n as int).len() == 0);
    }
    tv.to_owned()
}

/// Whether a resolved name appears (after trimming) in a list of names.
pub open spec fn person_listed_seq(vs: Seq<String>, name: Seq<char>) -> bool {
    exists|k: int| 0 <= k < vs.len() && #[trigger] trim_of(vs[k]@) == name
}

/// Whether a resolved name appears (after trimming) in a node's declared
/// person list.
pub open spec fn person_listed(people: Option<Vec<String>>, name: Seq<char>) -> bool {
    match people {
        Some(v) => person_listed_seq(v@, name),
        None => false,
    }
}

fn person_in_list(people: &Option<Vec<String>>, name: &str) -> (r: bool)
    ensures
        r == person_listed(*people, name@),
{
    match people {
        Some(v) => {
            proof {
                assert(*people == Some(*v));
            }
            let n = v.len();
            let mut i: usize = 0;
            while i < n
                invariant
                    *people == Some(*v),
                    n == v@.len(),
                    i <= n,
                    forall|k: int| 0 <= k < i ==> trim_of((#[trigger] v@[k])@) != name@,
                decreases n - i,
            {
                let tv = str_trim(v[i].as_str());
                if str_eq(tv.as_str(), name) {
                    proof {
                        assert(trim_of(v@[i as int]@) == name@);
                        assert(person_listed_seq(v@, name@));
                        assert(person_listed(Some(*v), name@));
                    }
                    return true;
                }
                i += 1;
            }
            false
        },
        None => false,
    }
}

/// The delta clamped into the closed interval from -20 to 20.
pub open spec fn clamp_delta(d: int) -> int {
    if d < -20 {
        -20int
    } else if d > 20 {
        20int
    } else {
        d
    }
}

/// Whether an effect survives sanitization for a node with the given
/// person list.
pub open spec fn effect_kept(
    chars: Seq<(String, Character)>,
    prot: Seq<char>,
    people: Option<Vec<String>>,
    e: AffinityEffect,
) -> bool {
    let rv = resolve_name(chars, trim_of(e.character_id@));
    rv.len() > 0 && rv != prot && person_listed(people, rv)
}

/// How one choice relates to its pre-sanitization self.
pub open spec fn effect_sanitized_choice(
    chars: Seq<(String, Character)>,
    prot: Seq<char>,
    people: Option<Vec<String>>,
    o: Choice,
    c: Choice,
) -> bool {
    &&& c.text == o.text
    &&& c.next_node_id == o.next_node_id
    &&& match o.affinity_effect {
        None => c.affinity_effect is None,
        Some(e) => {
            if effect_kept(chars, prot, people, e) {
                match c.affinity_effect {
                    Some(e2) => e2.character_id@ == resolve_name(chars, trim_of(e.character_id@))
                        && e2.delta as int == clamp_delta(e.delta as int),
                    None => false,
                }
            } else {
                c.affinity_effect is None
            }
        },
    }
}

/// Sanitize every choice-level relationship effect: resolve its target
/// through the cast id-to-name map, clamp its delta into the closed
/// interval from -20 to 20, and drop it when the resolved target is blank,
/// is the computed protagonist, or is absent from the node's declared
/// person list. Returns the computed protagonist name.
pub fn sanitize_side_effects(t: &mut MovieTemplate) -> (prot: String)
    requires
        old(t).wf(),
    ensures
        final(t).wf(),
        final(t).endings == old(t).endings,
        final(t).characters == old(t).characters,
        final(t).meta == old(t).meta,
        final(t).title == old(t).title,
        final(t).project_id == old(t).project_id,
        final(t).version == old(t).version,
        final(t).owner == old(t).owner,
        final(t).background_image_base64 == old(t).background_image_base64,
        final(t).provenance == old(t).provenance,
        prot@ == protagonist_of(old(t).characters@),
        final(t).nodes@.len() == old(t).nodes@.len(),
        forall|i: int|
            0 <= i < final(t).nodes@.len() ==> (#[trigger] final(t).nodes@[i]).0 == old(
                t,
            ).nodes@[i].0,
        forall|i: int|
            0 <= i < final(t).nodes@.len() ==> {
                let o = old(t).nodes@[i].1;
                let n = (#[trigger] final(t).nodes@[i]).1;
                &&& n.id == o.id
                &&& n.content == o.content
                &&& n.ending_key == o.ending_key
                &&& n.level == o.level
                &&& n.characters == o.characters
                &&& n.choices@.len() == o.choices@.len()
            },
        forall|i: int, j: int|
            0 <= i < final(t).nodes@.len() && 0 <= j < (#[trigger] final(t).nodes@[
            i]).1.choices@.len() ==> effect_sanitized_choice(
                old(t).characters@,
                protagonist_of(old(t).characters@),
                old(t).nodes@[i].1.characters,
                old(t).nodes@[i].1.choices@[j],
                (#[trigger] final(t).nodes@[i].1.choices@[j]),
            ),
        // every surviving effect is in bounds, aimed at a listed person,
        // and never at the protagonist
        forall|i: int, j: int|
            0 <= i < final(t).nodes@.len() && 0 <= j < (#[trigger] final(t).nodes@[
            i]).1.choices@.len() ==> match (#[trigger] final(t).nodes@[i].1.choices@[
            j]).affinity_effect {
                Some(e) => -20 <= e.delta <= 20 && e.character_id@ != prot@ && e.character_id@.len()
                    > 0 && person_listed(final(t).nodes@[i].1.characters, e.character_id@),
                None => true,
            },
{
    let ghost chars0 = t.characters@;
    let ghost nodes0 = t.nodes@;
    let prot = select_protagonist(&t.characters);
    let mut new_nodes: Vec<(String, StoryNode)> = Vec::new();
    while t.nodes.len() > 0
        invariant
            t.endings == old(t).endings,
            t.characters == old(t).characters,
            t.meta == old(t).meta,
            t.title == old(t).title,
            t.project_id == old(t).project_id,
            t.version == old(t).version,
            t.owner == old(t).owner,
            t.background_image_base64 == old(t).background_image_base64,
            t.provenance == old(t).provenance,
            keys_unique(old(t).endings@),
            keys_unique(old(t).characters@),
            chars0 == old(t).characters@,
            nodes0 == old(t).nodes@,
            keys_unique(nodes0),
            prot@ == protagonist_of(chars0),
            t.nodes@.len() <= nodes0.len(),
            t.nodes@ =~= nodes0.skip(nodes0.len() - t.nodes@.len()),
            new_nodes@.len() == nodes0.len() - t.nodes@.len(),
            forall|i: int|
                0 <= i < new_nodes@.len() ==> (#[trigger] new_nodes@[i]).0 == nodes0[i].0,
            forall|i: int|
                0 <= i < new_nodes@.len() ==> {
                    let o = nodes0[i].1;
                    let n = (#[trigger] new_nodes@[i]).1;
                    &&& n.id == o.id
                    &&& n.content == o.content
                    &&& n.ending_key == o.ending_key
                    &&& n.level == o.level
                    &&& n.characters == o.characters
                    &&& n.choices@.len() == o.choices@.len()
                },
            forall|i: int, j: int|
                0 <= i < new_nodes@.len() && 0 <= j < (#[trigger] new_nodes@[
                i]).1.choices@.len() ==> effect_sanitized_choice(
                    chars0,
                    protagonist_of(chars0),
                    nodes0[i].1.characters,
                    nodes0[i].1.choices@[j],
                    (#[trigger] new_nodes@[i].1.choices@[j]),
                ),
        decreases t.nodes@.len(),
    {
        let ghost done = nodes0.len() - t.nodes@.len();
        let (key, node) = t.nodes.remove(0);
        proof {
            assert((key, node) == nodes0[done]);
        }
        let people = node.characters;
        let mut rest = node.choices;
        let ghost allc = rest@;
        let mut new_choices: Vec<Choice> = Vec::new();
        while rest.len() > 0
            invariant
                t.characters@ == chars0,
                prot@ == protagonist_of(chars0),
                allc.len() == new_choices@.len() + rest@.len(),
                rest@ =~= allc.skip(new_choices@.len() as int),
                forall|j: int|
                    0 <= j < new_choices@.len() ==> effect_sanitized_choice(
                        chars0,
                        protagonist_of(chars0),
                        people,
                        allc[j],
                        (#[trigger] new_choices@[j]),
                    ),
            decreases rest@.len(),
        {
            let c = rest.remove(0);
            proof {
                assert(c == allc[new_choices@.len() as int]);
            }
            let new_effect: Option<AffinityEffect> = match c.affinity_effect {
                Some(e) => {
                    let tv = str_trim(e.character_id.as_str());
                    let rv = resolve_target(&t.characters, tv.as_str());
                    let blank = rv.as_str().is_empty();
                    let is_prot = str_eq(rv.as_str(), prot.as_str());
                    let listed = person_in_list(&people, rv.as_str());
                    if !blank && !is_prot && listed {
                        let d = if e.delta < -20 {
                            -20
                        } else if e.delta > 20 {
                            20
                        } else {
                            e.delta
                        };
                        Some(AffinityEffect { character_id: rv, delta: d })
                    } else {
                        None
                    }
                },
                None => None,
            };
            new_choices.push(
                Choice {
                    text: c.text,
                    next_node_id: c.next_node_id,
                    affinity_effect: new_effect,
                },
            );
            proof {
                assert(rest@ =~= allc.skip(new_choices@.len() as int));
            }
        }
        let n2 = StoryNode {
            id: node.id,
            content: node.content,
            ending_key: node.ending_key,
            level: node.level,
            characters: people,
            choices: new_choices,
        };
        new_nodes.push((key, n2));
        proof {
            assert(t.nodes@ =~= nodes0.skip(nodes0.len() - t.nodes@.len()));
        }
    }
    t.nodes = new_nodes;
    proof {
        assert(keys_unique(t.nodes@)) by {
            assert forall|x: int, y: int|
                0 <= x < y < t.nodes@.len() implies t.nodes@[x].0@ != t.nodes@[y].0@ by {
                assert(t.nodes@[x].0 == nodes0[x].0 && t.nodes@[y].0 == nodes0[y].0);
            }
        }
        assert forall|i: int, j: int|
            0 <= i < t.nodes@.len() && 0 <= j < (#[trigger] t.nodes@[i]).1.choices@.len()
            implies match (#[trigger] t.nodes@[i].1.choices@[j]).affinity_effect {
            Some(e) => -20 <= e.delta <= 20 && e.character_id@ != prot@ && e.character_id@.len() > 0
                && person_listed(t.nodes@[i].1.characters, e.character_id@),
            None => true,
        } by {
            assert(effect_sanitized_choice(
                chars0,
                protagonist_of(chars0),
                nodes0[i].1.characters,
                nodes0[i].1.choices@[j],
                t.nodes@[i].1.choices@[j],
            ));
            assert(t.nodes@[i].1.characters == nodes0[i].1.characters);
        }
    }
    prot
}

} // verus!
