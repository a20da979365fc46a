//! Ending canonicalizer: collapse synonymous terminal-state keys onto the
//! three canonical category keys and rewrite every choice that referenced
//! a non-canonical spelling; afterwards cap the ending map at five entries,
//! always keeping the canonical three.

use vstd::prelude::*;

use crate::dict::{dict_contains, dict_keys, dict_remove, sort_strings};
use crate::text::{str_eq, str_trim, trim_of};
use crate::types::{idx_of, keys_unique, map_has, map_val, Choice, Ending, MovieTemplate, StoryNode};

verus! {

/// The canonical spelling of a terminal-state key, when the key is a known
/// variant of one of the three categories.
pub open spec fn canon_ending(k: Seq<char>) -> Option<Seq<char>> {
    let tv = trim_of(k);
    if tv == "ending_good"@ || tv == "good_end"@ || tv == "end_good"@ || tv == "good"@ || tv
        == "GOOD"@ {
        Some("ending_good"@)
    } else if tv == "ending_neutral"@ || tv == "neutral_end"@ || tv == "end_neutral"@ || tv
        == "neutral"@ || tv == "NEUTRAL"@ {
        Some("ending_neutral"@)
    } else if tv == "ending_bad"@ || tv == "bad_end"@ || tv == "end_bad"@ || tv == "bad"@ || tv
        == "BAD"@ {
        Some("ending_bad"@)
    } else {
        None
    }
}

/// The canonical spelling of a terminal-state key, as an owned string.
pub fn canon_ending_key(k: &str) -> (r: Option<String>)
    ensures
        match r {
            Some(s) => canon_ending(k@) == Some(s@),
            None => canon_ending(k@) is None,
        },
{
    let tv = str_trim(k);
    let t = tv.as_str();
    if str_eq(t, "ending_good") || str_eq(t, "good_end") || str_eq(t, "end_good") || str_eq(
        t,
        "good",
    ) || str_eq(t, "GOOD") {
        Some("ending_good".to_owned())
    } else if str_eq(t, "ending_neutral") || str_eq(t, "neutral_end") || str_eq(t, "end_neutral")
        || str_eq(t, "neutral") || str_eq(t, "NEUTRAL") {
        Some("ending_neutral".to_owned())
    } else if str_eq(t, "ending_bad") || str_eq(t, "bad_end") || str_eq(t, "end_bad") || str_eq(
        t,
        "bad",
    ) || str_eq(t, "BAD") {
        Some("ending_bad".to_owned())
    } else {
        None
    }
}

/// The same terminal state, field for field.
pub open spec fn same_ending(o: Ending, n: Ending) -> bool {
    n.category == o.category && n.description == o.description
}

/// Whether some entry of `old_e` carries this terminal state.
pub open spec fn ending_drawn(old_e: Seq<(String, Ending)>, v: Ending) -> bool {
    exists|j: int| 0 <= j < old_e.len() && same_ending((#[trigger] old_e[j]).1, v)
}

/// Every entry of `new_e` carries the payload of some entry of `old_e`:
/// the canonicalizer never invents an ending.
pub open spec fn endings_drawn_from(
    old_e: Seq<(String, Ending)>,
    new_e: Seq<(String, Ending)>,
) -> bool {
    forall|i: int| 0 <= i < new_e.len() ==> ending_drawn(old_e, (#[trigger] new_e[i]).1)
}

/// Whether some entry's key canonicalizes onto `c` (as the canonical key
/// itself or as an alias of it).
pub open spec fn category_present(e: Seq<(String, Ending)>, c: Seq<char>) -> bool {
    exists|j: int| 0 <= j < e.len() && #[trigger] canon_ending(e[j].0@) == Some(c)
}

/// A key that the canonicalizer leaves alone: not a variant spelling, or
/// already the canonical one.
pub open spec fn ending_key_canonical(k: Seq<char>) -> bool {
    canon_ending(k) is None || canon_ending(k) == Some(k)
}

/// How one choice relates to its pre-canonicalization self.
pub open spec fn ending_rewritten_choice(o: Choice, c: Choice) -> bool {
    &&& c.text == o.text
    &&& c.affinity_effect == o.affinity_effect
    &&& match canon_ending(o.next_node_id@) {
        Some(cv) => c.next_node_id@ == cv,
        None => c.next_node_id == o.next_node_id,
    }
}

/// How one node relates to its pre-canonicalization self: same payload,
/// with variant ending spellings in choice targets rewritten.
pub open spec fn ending_rewritten_node(o: StoryNode, n: StoryNode) -> bool {
    &&& n.id == o.id
    &&& n.content == o.content
    &&& n.ending_key == o.ending_key
    &&& n.level == o.level
    &&& n.characters == o.characters
    &&& n.choices@.len() == o.choices@.len()
    &&& forall|j: int|
        0 <= j < n.choices@.len() ==> ending_rewritten_choice(
            o.choices@[j],
            (#[trigger] n.choices@[j]),
        )
}

proof fn lemma_drawn_from_src(
    old_e: Seq<(String, Ending)>,
    new_e: Seq<(String, Ending)>,
    src: Seq<int>,
)
    requires
        src.len() == new_e.len(),
        forall|i: int| 0 <= i < src.len() ==> 0 <= #[trigger] src[i] < old_e.len(),
        forall|i: int| 0 <= i < src.len() ==> (#[trigger] new_e[i]).1 == old_e[src[i]].1,
    ensures
        endings_drawn_from(old_e, new_e),
{
    assert forall|i: int| 0 <= i < new_e.len() implies ending_drawn(
        old_e,
        (#[trigger] new_e[i]).1,
    ) by {
        assert(same_ending(old_e[src[i]].1, new_e[i].1));
        assert(ending_drawn(old_e, new_e[i].1));
    }
}

/// Merge synonymous ending keys onto the canonical category keys (first
/// registered wins), rewrite every choice target that used a variant
/// spelling, and cap the ending map at five entries, keeping the three
/// canonical keys and, beyond those, the smallest remaining keys. A graph
/// with no endings at all is left untouched.
pub fn normalize_template_endings(t: &mut MovieTemplate)
    requires
        old(t).wf(),
    ensures
        final(t).wf(),
        final(t).characters == old(t).characters,
        final(t).meta == old(t).meta,
        final(t).title == old(t).title,
        final(t).project_id == old(t).project_id,
        final(t).version == old(t).version,
        final(t).owner == old(t).owner,
        final(t).background_image_base64 == old(t).background_image_base64,
        final(t).provenance == old(t).provenance,
        old(t).endings@.len() == 0 ==> final(t).endings == old(t).endings && final(t).nodes == old(
            t,
        ).nodes,
        final(t).endings@.len() <= 5 || old(t).endings@.len() == 0,
        // no ending is invented: every surviving value existed, and every
        // surviving key is an input key or the canonical form of one
        endings_drawn_from(old(t).endings@, final(t).endings@),
        forall|i: int|
            0 <= i < final(t).endings@.len() ==> map_has(
                old(t).endings@,
                (#[trigger] final(t).endings@[i]).0@,
            ) || category_present(old(t).endings@, final(t).endings@[i].0@),
        old(t).endings@.len() > 0 ==> forall|i: int|
            0 <= i < final(t).endings@.len() ==> ending_key_canonical(
                (#[trigger] final(t).endings@[i]).0@,
            ),
        // a canonical category survives exactly when the input carried it
        // or an alias of it
        map_has(final(t).endings@, "ending_good"@) == category_present(
            old(t).endings@,
            "ending_good"@,
        ),
        map_has(final(t).endings@, "ending_neutral"@) == category_present(
            old(t).endings@,
            "ending_neutral"@,
        ),
        map_has(final(t).endings@, "ending_bad"@) == category_present(
            old(t).endings@,
            "ending_bad"@,
        ),
        // below the cap, every non-alias entry survives unchanged
        old(t).endings@.len() <= 5 ==> forall|j: int|
            0 <= j < old(t).endings@.len() && ending_key_canonical(
                (#[trigger] old(t).endings@[j]).0@,
            ) ==> map_has(final(t).endings@, old(t).endings@[j].0@) && map_val(
                final(t).endings@,
                old(t).endings@[j].0@,
            ) == old(t).endings@[j].1,
        old(t).endings@.len() > 0 ==> final(t).nodes@.len() == old(t).nodes@.len(),
        old(t).endings@.len() > 0 ==> forall|i: int|
            0 <= i < final(t).nodes@.len() ==> (#[trigger] final(t).nodes@[i]).0 == old(
                t,
            ).nodes@[i].0,
        old(t).endings@.len() > 0 ==> forall|i: int|
            0 <= i < final(t).nodes@.len() ==> ending_rewritten_node(
                old(t).nodes@[i].1,
                (#[trigger] final(t).nodes@[i]).1,
            ),
{
    if t.endings.len() == 0 {
        return ;
    }
    let ghost ends0 = t.endings@;
    proof {
        reveal_strlit("ending_good");
        reveal_strlit("ending_neutral");
        reveal_strlit("ending_bad");
        reveal_strlit("good_end");
        reveal_strlit("end_good");
        reveal_strlit("good");
        reveal_strlit("GOOD");
        reveal_strlit("neutral_end");
        reveal_strlit("end_neutral");
        reveal_strlit("neutral");
        reveal_strlit("NEUTRAL");
        reveal_strlit("bad_end");
        reveal_strlit("end_bad");
        reveal_strlit("bad");
        reveal_strlit("BAD");
        crate::text::lemma_trim_id("ending_good"@);
        crate::text::lemma_trim_id("ending_neutral"@);
        crate::text::lemma_trim_id("ending_bad"@);
    }
    // merge variant keys onto the canonical spellings, tracking which input
    // entry each surviving entry came from
    let ghost mut src: Seq<int> = Seq::new(ends0.len(), |i: int| i);
    proof {
        assert(canon_ending("ending_good"@) == Some("ending_good"@));
        assert(canon_ending("ending_neutral"@) == Some("ending_neutral"@));
        assert(canon_ending("ending_bad"@) == Some("ending_bad"@));
        assert forall|j: int|
            0 <= j < ends0.len() && (forall|i: int|
                0 <= i < src.len() ==> #[trigger] src[i] != j)
            implies !ending_key_canonical((#[trigger] ends0[j]).0@) by {
            assert(src[j] == j);
            assert(false);
        }
    }
    let mut ei: usize = 0;
    while ei < t.endings.len()
        invariant
            t.characters == old(t).characters,
            t.meta == old(t).meta,
            t.title == old(t).title,
            t.project_id == old(t).project_id,
            t.version == old(t).version,
            t.owner == old(t).owner,
            t.background_image_base64 == old(t).background_image_base64,
            t.provenance == old(t).provenance,
            t.nodes == old(t).nodes,
            keys_unique(old(t).nodes@),
            keys_unique(old(t).characters@),
            ends0 == old(t).endings@,
            keys_unique(t.endings@),
            ei <= t.endings@.len(),
            t.endings@.len() <= ends0.len(),
            canon_ending("ending_good"@) == Some("ending_good"@),
            canon_ending("ending_neutral"@) == Some("ending_neutral"@),
            canon_ending("ending_bad"@) == Some("ending_bad"@),
            forall|i: int|
                0 <= i < ei ==> ending_key_canonical((#[trigger] t.endings@[i]).0@),
            // provenance: entry i came from input entry src[i]
            src.len() == t.endings@.len(),
            forall|i: int| 0 <= i < src.len() ==> 0 <= #[trigger] src[i] < ends0.len(),
            forall|i1: int, i2: int| 0 <= i1 < i2 < src.len() ==> src[i1] < src[i2],
            forall|i: int|
                0 <= i < src.len() ==> (#[trigger] t.endings@[i]).1 == ends0[src[i]].1,
            forall|i: int|
                0 <= i < src.len() ==> (#[trigger] t.endings@[i]).0 == ends0[src[i]].0
                    || canon_ending(ends0[src[i]].0@) == Some(t.endings@[i].0@),
            forall|i: int| ei <= i < src.len() ==> #[trigger] t.endings@[i] == ends0[src[i]],
            // only alias entries whose canonical form already existed were
            // dropped
            forall|j: int|
                0 <= j < ends0.len() && (forall|i: int| 0 <= i < src.len() ==> #[trigger] src[i]
                    != j) ==> !ending_key_canonical((#[trigger] ends0[j]).0@),
            // the set of categories carried by the map never changes
            forall|c: Seq<char>|
                #[trigger] category_present(ends0, c) ==> category_present(t.endings@, c),
        decreases t.endings@.len() - ei,
    {
        let ghost epre = t.endings@;
        let ghost spre = src;
        let key_copy = t.endings[ei].0.clone();
        match canon_ending_key(key_copy.as_str()) {
            Some(c) => {
                if !str_eq(c.as_str(), key_copy.as_str()) {
                    if dict_contains(&t.endings, c.as_str()) {
                        // the canonical entry already exists: drop this one
                        let _ = t.endings.remove(ei);
                        proof {
                            src = spre.remove(ei as int);
                            assert forall|x: int, y: int|
                                0 <= x < y < t.endings@.len() implies t.endings@[x].0@
                                != t.endings@[y].0@ by {
                                let x2 = if x < ei { x } else { x + 1 };
                                let y2 = if y < ei { y } else { y + 1 };
                                assert(t.endings@[x] == epre[x2] && t.endings@[y] == epre[y2]);
                            }
                            assert forall|i: int|
                                0 <= i < src.len() implies (#[trigger] t.endings@[i]).1
                                == ends0[src[i]].1 && (t.endings@[i].0 == ends0[src[i]].0
                                || canon_ending(ends0[src[i]].0@) == Some(t.endings@[i].0@)) by {
                                let i2 = if i < ei { i } else { i + 1 };
                                assert(t.endings@[i] == epre[i2] && src[i] == spre[i2]);
                            }
                            assert forall|i: int|
                                ei <= i < src.len() implies #[trigger] t.endings@[i]
                                == ends0[src[i]] by {
                                assert(t.endings@[i] == epre[i + 1] && src[i] == spre[i + 1]);
                            }
                            assert forall|j: int|
                                0 <= j < ends0.len() && (forall|i: int|
                                    0 <= i < src.len() ==> #[trigger] src[i] != j)
                                implies !ending_key_canonical((#[trigger] ends0[j]).0@) by {
                                if j == spre[ei as int] {
                                    assert(ends0[j].0 == epre[ei as int].0);
                                    assert(canon_ending(ends0[j].0@) == Some(c@));
                                    assert(c@ != key_copy@);
                                    assert(epre[ei as int].0@ == key_copy@);
                                } else {
                                    if exists|i0: int|
                                        0 <= i0 < spre.len() && #[trigger] spre[i0] == j {
                                        let i0 = choose|i0: int|
                                            0 <= i0 < spre.len() && #[trigger] spre[i0] == j;
                                        assert(i0 != ei);
                                        if i0 < ei {
                                            assert(src[i0] == j);
                                        } else {
                                            assert(src[i0 - 1] == j);
                                        }
                                        assert(false);
                                    }
                                }
                            }
                            assert forall|c2: Seq<char>|
                                #[trigger] category_present(ends0, c2) implies category_present(
                                t.endings@,
                                c2,
                            ) by {
                                assert(category_present(epre, c2));
                                let w = choose|w: int|
                                    0 <= w < epre.len() && #[trigger] canon_ending(epre[w].0@)
                                        == Some(c2);
                                if w == ei {
                                    // the dropped entry was an alias of c;
                                    // the canonical entry itself remains
                                    assert(c2 == c@);
                                    let u = idx_of(epre, c@);
                                    assert(0 <= u < epre.len() && epre[u].0@ == c@);
                                    assert(u != ei);
                                    assert(canon_ending(c@) == Some(c@));
                                    let u2 = if u < ei { u } else { u - 1 };
                                    assert(t.endings@[u2].0@ == c@);
                                    assert(canon_ending(t.endings@[u2].0@) == Some(c2));
                                } else {
                                    let w2 = if w < ei { w } else { w - 1 };
                                    assert(t.endings@[w2] == epre[w]);
                                    assert(canon_ending(t.endings@[w2].0@) == Some(c2));
                                }
                            }
                        }
                    } else {
                        // rename this entry in place
                        let (_k, v) = t.endings.remove(ei);
                        t.endings.insert(ei, (c, v));
                        proof {
                            assert(t.endings@ =~= epre.update(
                                ei as int,
                                (t.endings@[ei as int].0, epre[ei as int].1),
                            ));
                            assert(ending_key_canonical(t.endings@[ei as int].0@)) by {
                                assert(canon_ending(key_copy@) == Some(t.endings@[ei as int].0@));
                            }
                            assert forall|x: int, y: int|
                                0 <= x < y < t.endings@.len() implies t.endings@[x].0@
                                != t.endings@[y].0@ by {
                                if x != ei && y != ei {
                                    assert(t.endings@[x] == epre[x] && t.endings@[y] == epre[y]);
                                } else if x == ei {
                                    assert(t.endings@[y] == epre[y]);
                                    assert(!map_has(epre, t.endings@[x].0@));
                                } else {
                                    assert(t.endings@[x] == epre[x]);
                                    assert(!map_has(epre, t.endings@[y].0@));
                                }
                            }
                            assert(ends0[src[ei as int]].0 == epre[ei as int].0);
                            assert(canon_ending(ends0[src[ei as int]].0@) == Some(
                                t.endings@[ei as int].0@,
                            ));
                            assert forall|c2: Seq<char>|
                                #[trigger] category_present(ends0, c2) implies category_present(
                                t.endings@,
                                c2,
                            ) by {
                                assert(category_present(epre, c2));
                                let w = choose|w: int|
                                    0 <= w < epre.len() && #[trigger] canon_ending(epre[w].0@)
                                        == Some(c2);
                                if w == ei {
                                    assert(c2 == c@);
                                    assert(canon_ending(t.endings@[ei as int].0@) == Some(c2));
                                } else {
                                    assert(t.endings@[w] == epre[w]);
                                    assert(canon_ending(t.endings@[w].0@) == Some(c2));
                                }
                            }
                        }
                        ei += 1;
                    }
                } else {
                    ei += 1;
                }
            },
            None => {
                ei += 1;
            },
        }
    }
    let ghost merged = t.endings@;
    let ghost msrc = src;
    proof {
        // with every key a fixed point, carrying a category means holding
        // its canonical key
        assert forall|c: Seq<char>|
            #[trigger] category_present(ends0, c) implies map_has(merged, c) by {
            assert(category_present(merged, c));
            let w = choose|w: int|
                0 <= w < merged.len() && #[trigger] canon_ending(merged[w].0@) == Some(c);
            assert(ending_key_canonical(merged[w].0@));
            assert(merged[w].0@ == c);
        }
        assert forall|c: Seq<char>|
            map_has(merged, c) && (c == "ending_good"@ || c == "ending_neutral"@ || c
                == "ending_bad"@) implies #[trigger] category_present(ends0, c) by {
            let w = idx_of(merged, c);
            assert(0 <= w < merged.len() && merged[w].0@ == c);
            if merged[w].0 == ends0[msrc[w]].0 {
                assert(canon_ending(ends0[msrc[w]].0@) == Some(c));
            } else {
                assert(canon_ending(ends0[msrc[w]].0@) == Some(merged[w].0@));
            }
        }
    }
    // rewrite node choice targets that used a variant spelling
    let ghost nodes0 = t.nodes@;
    let mut new_nodes: Vec<(String, StoryNode)> = Vec::new();
    while t.nodes.len() > 0
        invariant
            t.characters == old(t).characters,
            t.meta == old(t).meta,
            t.title == old(t).title,
            t.project_id == old(t).project_id,
            t.version == old(t).version,
            t.owner == old(t).owner,
            t.background_image_base64 == old(t).background_image_base64,
            t.provenance == old(t).provenance,
            t.endings@ == merged,
            keys_unique(merged),
            keys_unique(old(t).characters@),
            ends0 == old(t).endings@,
            nodes0 == old(t).nodes@,
            keys_unique(nodes0),
            forall|i: int|
                0 <= i < merged.len() ==> ending_key_canonical((#[trigger] merged[i]).0@),
            t.nodes@.len() <= nodes0.len(),
            t.nodes@ =~= nodes0.skip(nodes0.len() - t.nodes@.len()),
            new_nodes@.len() == nodes0.len() - t.nodes@.len(),
            forall|i: int|
                0 <= i < new_nodes@.len() ==> (#[trigger] new_nodes@[i]).0 == nodes0[i].0,
            forall|i: int|
                0 <= i < new_nodes@.len() ==> ending_rewritten_node(
                    nodes0[i].1,
                    (#[trigger] new_nodes@[i]).1,
                ),
        decreases t.nodes@.len(),
    {
        let ghost done = nodes0.len() - t.nodes@.len();
        let (key, node) = t.nodes.remove(0);
        proof {
            assert((key, node) == nodes0[done]);
        }
        let mut rest = node.choices;
        let ghost allc = rest@;
        let mut new_choices: Vec<Choice> = Vec::new();
        while rest.len() > 0
            invariant
                allc.len() == new_choices@.len() + rest@.len(),
                rest@ =~= allc.skip(new_choices@.len() as int),
                forall|j: int|
                    0 <= j < new_choices@.len() ==> ending_rewritten_choice(
                        allc[j],
                        (#[trigger] new_choices@[j]),
                    ),
            decreases rest@.len(),
        {
            let c = rest.remove(0);
            proof {
                assert(c == allc[new_choices@.len() as int]);
            }
            match canon_ending_key(c.next_node_id.as_str()) {
                Some(cv) => {
                    new_choices.push(
                        Choice {
                            text: c.text,
                            next_node_id: cv,
                            affinity_effect: c.affinity_effect,
                        },
                    );
                },
                None => {
                    new_choices.push(c);
                },
            }
            proof {
                assert(rest@ =~= allc.skip(new_choices@.len() as int));
            }
        }
        let n2 = StoryNode {
            id: node.id,
            content: node.content,
            ending_key: node.ending_key,
            level: node.level,
            characters: node.characters,
            choices: new_choices,
        };
        new_nodes.push((key, n2));
        proof {
            assert(t.nodes@ =~= nodes0.skip(nodes0.len() - t.nodes@.len()));
        }
    }
    t.nodes = new_nodes;
    let ghost nodes_fin = t.nodes@;
    proof {
        assert(keys_unique(t.nodes@)) by {
            assert forall|x: int, y: int|
                0 <= x < y < t.nodes@.len() implies t.nodes@[x].0@ != t.nodes@[y].0@ by {
                assert(t.nodes@[x].0 == nodes0[x].0 && t.nodes@[y].0 == nodes0[y].0);
            }
        }
    }
    // cap the ending map at five entries
    if t.endings.len() > 5 {
        let mut keep: Vec<(String, Ending)> = Vec::new();
        let ghost mut keep_src: Seq<int> = Seq::empty();
        let ghost mut esrc = msrc;
        let mut ci: usize = 0;
        while ci < 3
            invariant
                ci <= 3,
                t.characters == old(t).characters,
                t.meta == old(t).meta,
                t.title == old(t).title,
                t.project_id == old(t).project_id,
                t.version == old(t).version,
                t.owner == old(t).owner,
                t.background_image_base64 == old(t).background_image_base64,
                t.provenance == old(t).provenance,
                keys_unique(old(t).characters@),
                ends0 == old(t).endings@,
                t.nodes@ == nodes_fin,
                canon_ending("ending_good"@) == Some("ending_good"@),
                canon_ending("ending_neutral"@) == Some("ending_neutral"@),
                canon_ending("ending_bad"@) == Some("ending_bad"@),
                keys_unique(t.endings@),
                keys_unique(keep@),
                keep@.len() <= ci,
                forall|i: int|
                    0 <= i < t.endings@.len() ==> ending_key_canonical(
                        (#[trigger] t.endings@[i]).0@,
                    ),
                forall|i: int|
                    0 <= i < keep@.len() ==> ending_key_canonical((#[trigger] keep@[i]).0@),
                forall|i: int|
                    0 <= i < keep@.len() ==> !map_has(t.endings@, (#[trigger] keep@[i]).0@),
                forall|i: int|
                    0 <= i < keep@.len() ==> map_has(merged, (#[trigger] keep@[i]).0@),
                forall|i: int|
                    0 <= i < t.endings@.len() ==> map_has(merged, (#[trigger] t.endings@[i]).0@),
                // provenance for both halves
                esrc.len() == t.endings@.len(),
                forall|i: int| 0 <= i < esrc.len() ==> 0 <= #[trigger] esrc[i] < ends0.len(),
                forall|i: int|
                    0 <= i < esrc.len() ==> (#[trigger] t.endings@[i]).1 == ends0[esrc[i]].1,
                keep_src.len() == keep@.len(),
                forall|i: int| 0 <= i < keep_src.len() ==> 0 <= #[trigger] keep_src[i] < ends0.len(),
                forall|i: int|
                    0 <= i < keep_src.len() ==> (#[trigger] keep@[i]).1 == ends0[keep_src[i]].1,
                // each canonical key sits in exactly the half the merge left
                // it in
                (map_has(keep@, "ending_good"@) || map_has(t.endings@, "ending_good"@))
                    == map_has(merged, "ending_good"@),
                (map_has(keep@, "ending_neutral"@) || map_has(t.endings@, "ending_neutral"@))
                    == map_has(merged, "ending_neutral"@),
                (map_has(keep@, "ending_bad"@) || map_has(t.endings@, "ending_bad"@)) == map_has(
                    merged,
                    "ending_bad"@,
                ),
                ci >= 1 ==> !map_has(t.endings@, "ending_good"@),
                ci >= 2 ==> !map_has(t.endings@, "ending_neutral"@),
                ci >= 3 ==> !map_has(t.endings@, "ending_bad"@),
            decreases 3 - ci,
        {
            let ghost keeppre = keep@;
            let ghost endspre = t.endings@;
            let ghost esrcpre = esrc;
            let k = if ci == 0 {
                "ending_good"
            } else if ci == 1 {
                "ending_neutral"
            } else {
                "ending_bad"
            };
            match dict_remove(&mut t.endings, k) {
                Some(v) => {
                    proof {
                        assert(map_has(endspre, k@));
                        let j = idx_of(endspre, k@);
                        assert(endspre[j].0@ == k@);
                        assert(ending_key_canonical(k@));
                        esrc = esrcpre.remove(j);
                        assert forall|i: int|
                            0 <= i < esrc.len() implies (#[trigger] t.endings@[i]).1
                            == ends0[esrc[i]].1 && 0 <= esrc[i] < ends0.len() by {
                            let i2 = if i < j { i } else { i + 1 };
                            assert(t.endings@[i] == endspre[i2] && esrc[i] == esrcpre[i2]);
                        }
                        assert forall|i: int|
                            0 <= i < t.endings@.len() implies map_has(
                            merged,
                            (#[trigger] t.endings@[i]).0@,
                        ) by {
                            let i2 = if i < j { i } else { i + 1 };
                            assert(t.endings@[i] == endspre[i2]);
                        }
                    }
                    keep.push((k.to_owned(), v));
                    proof {
                        let last = keep@.len() - 1;
                        let ghost j = idx_of(endspre, k@);
                        keep_src = keep_src.push(esrcpre[j]);
                        assert(keep@[last].0@ == k@);
                        assert(keep@[last].1 == map_val(endspre, k@));
                        assert(map_val(endspre, k@) == endspre[j].1);
                        assert(keep@[last].1 == ends0[esrcpre[j]].1);
                        assert forall|i: int|
                            0 <= i < keep@.len() implies !map_has(
                            t.endings@,
                            (#[trigger] keep@[i]).0@,
                        ) by {
                            if i < last {
                                if map_has(t.endings@, keep@[i].0@) {
                                    let w = idx_of(t.endings@, keep@[i].0@);
                                    if w < j {
                                        assert(endspre[w].0@ == keep@[i].0@);
                                    } else {
                                        assert(endspre[w + 1].0@ == keep@[i].0@);
                                    }
                                    assert(map_has(endspre, keep@[i].0@));
                                    assert(false);
                                }
                            }
                        }
                        assert forall|x: int, y: int|
                            0 <= x < y < keep@.len() implies keep@[x].0@ != keep@[y].0@ by {
                            if y == last {
                                if keep@[x].0@ == k@ {
                                    assert(map_has(endspre, k@));
                                    assert(!map_has(endspre, keep@[x].0@));
                                    assert(false);
                                }
                            } else {
                                assert(keep@[x] == keeppre[x] && keep@[y] == keeppre[y]);
                            }
                        }
                        assert(map_has(keep@, k@)) by {
                            assert(keep@[last].0@ == k@);
                        }
                        assert forall|i: int|
                            0 <= i < keep@.len() implies map_has(
                            merged,
                            (#[trigger] keep@[i]).0@,
                        ) by {
                            if i < last {
                                assert(keep@[i] == keeppre[i]);
                            } else {
                                assert(map_has(merged, endspre[j].0@));
                                assert(endspre[j].0@ == k@);
                            }
                        }
                        assert forall|c2: Seq<char>|
                            (c2 == "ending_good"@ || c2 == "ending_neutral"@ || c2
                                == "ending_bad"@) && map_has(keeppre, c2) implies map_has(
                            keep@,
                            c2,
                        ) by {
                            let w = idx_of(keeppre, c2);
                            assert(keep@[w].0@ == c2);
                        }
                        assert forall|c2: Seq<char>|
                            (c2 == "ending_good"@ || c2 == "ending_neutral"@ || c2
                                == "ending_bad"@) && c2 != k@ && map_has(endspre, c2)
                            implies map_has(t.endings@, c2) by {
                            let w = idx_of(endspre, c2);
                            assert(w != j);
                            let w2 = if w < j { w } else { w - 1 };
                            assert(t.endings@[w2].0@ == c2);
                        }
                        assert forall|c2: Seq<char>|
                            !map_has(endspre, c2) implies !#[trigger] map_has(
                            t.endings@,
                            c2,
                        ) by {
                            if map_has(t.endings@, c2) {
                                let w = idx_of(t.endings@, c2);
                                let w2 = if w < j { w } else { w + 1 };
                                assert(endspre[w2].0@ == c2);
                            }
                        }
                    }
                },
                None => {},
            }
            ci += 1;
        }
        // fill with the smallest remaining keys up to five
        let rem_keys = dict_keys(&t.endings);
        let sorted_rem = sort_strings(rem_keys);
        let mut ri: usize = 0;
        while ri < sorted_rem.len() && keep.len() < 5
            invariant
                ri <= sorted_rem@.len(),
                t.characters == old(t).characters,
                t.meta == old(t).meta,
                t.title == old(t).title,
                t.project_id == old(t).project_id,
                t.version == old(t).version,
                t.owner == old(t).owner,
                t.background_image_base64 == old(t).background_image_base64,
                t.provenance == old(t).provenance,
                keys_unique(old(t).characters@),
                ends0 == old(t).endings@,
                t.nodes@ == nodes_fin,
                keys_unique(t.endings@),
                keys_unique(keep@),
                keep@.len() <= 5,
                forall|i: int|
                    0 <= i < t.endings@.len() ==> ending_key_canonical(
                        (#[trigger] t.endings@[i]).0@,
                    ),
                forall|i: int|
                    0 <= i < keep@.len() ==> ending_key_canonical((#[trigger] keep@[i]).0@),
                forall|i: int|
                    0 <= i < keep@.len() ==> !map_has(t.endings@, (#[trigger] keep@[i]).0@),
                forall|i: int|
                    0 <= i < keep@.len() ==> map_has(merged, (#[trigger] keep@[i]).0@),
                forall|i: int|
                    0 <= i < t.endings@.len() ==> map_has(merged, (#[trigger] t.endings@[i]).0@),
                esrc.len() == t.endings@.len(),
                forall|i: int| 0 <= i < esrc.len() ==> 0 <= #[trigger] esrc[i] < ends0.len(),
                forall|i: int|
                    0 <= i < esrc.len() ==> (#[trigger] t.endings@[i]).1 == ends0[esrc[i]].1,
                keep_src.len() == keep@.len(),
                forall|i: int| 0 <= i < keep_src.len() ==> 0 <= #[trigger] keep_src[i] < ends0.len(),
                forall|i: int|
                    0 <= i < keep_src.len() ==> (#[trigger] keep@[i]).1 == ends0[keep_src[i]].1,
                !map_has(t.endings@, "ending_good"@),
                !map_has(t.endings@, "ending_neutral"@),
                !map_has(t.endings@, "ending_bad"@),
                map_has(keep@, "ending_good"@) == map_has(merged, "ending_good"@),
                map_has(keep@, "ending_neutral"@) == map_has(merged, "ending_neutral"@),
                map_has(keep@, "ending_bad"@) == map_has(merged, "ending_bad"@),
            decreases sorted_rem@.len() - ri,
        {
            let ghost keeppre = keep@;
            let ghost endspre = t.endings@;
            let ghost esrcpre = esrc;
            let k = sorted_rem[ri].as_str();
            match dict_remove(&mut t.endings, k) {
                Some(v) => {
                    proof {
                        let j0 = idx_of(endspre, k@);
                        assert(endspre[j0].0@ == k@);
                        assert(ending_key_canonical(k@));
                        esrc = esrcpre.remove(j0);
                        assert forall|i: int|
                            0 <= i < esrc.len() implies (#[trigger] t.endings@[i]).1
                            == ends0[esrc[i]].1 && 0 <= esrc[i] < ends0.len() by {
                            let i2 = if i < j0 { i } else { i + 1 };
                            assert(t.endings@[i] == endspre[i2] && esrc[i] == esrcpre[i2]);
                        }
                        assert forall|i: int|
                            0 <= i < t.endings@.len() implies map_has(
                            merged,
                            (#[trigger] t.endings@[i]).0@,
                        ) by {
                            let i2 = if i < j0 { i } else { i + 1 };
                            assert(t.endings@[i] == endspre[i2]);
                        }
                    }
                    keep.push((sorted_rem[ri].clone(), v));
                    proof {
                        let last = keep@.len() - 1;
                        let ghost j0 = idx_of(endspre, k@);
                        keep_src = keep_src.push(esrcpre[j0]);
                        assert(keep@[last].0@ == k@);
                        assert(keep@[last].1 == map_val(endspre, k@));
                        assert(map_val(endspre, k@) == endspre[j0].1);
                        assert forall|i: int|
                            0 <= i < keep@.len() implies !map_has(
                            t.endings@,
                            (#[trigger] keep@[i]).0@,
                        ) by {
                            if i < last {
                                if map_has(t.endings@, keep@[i].0@) {
                                    let w = idx_of(t.endings@, keep@[i].0@);
                                    if w < j0 {
                                        assert(endspre[w].0@ == keep@[i].0@);
                                    } else {
                                        assert(endspre[w + 1].0@ == keep@[i].0@);
                                    }
                                    assert(map_has(endspre, keep@[i].0@));
                                    assert(false);
                                }
                            }
                        }
                        assert forall|x: int, y: int|
                            0 <= x < y < keep@.len() implies keep@[x].0@ != keep@[y].0@ by {
                            if y == last {
                                if keep@[x].0@ == k@ {
                                    assert(map_has(endspre, k@));
                                    assert(!map_has(endspre, keep@[x].0@));
                                    assert(false);
                                }
                            } else {
                                assert(keep@[x] == keeppre[x] && keep@[y] == keeppre[y]);
                            }
                        }
                        assert forall|c2: Seq<char>|
                            (c2 == "ending_good"@ || c2 == "ending_neutral"@ || c2
                                == "ending_bad"@) && map_has(keeppre, c2) implies map_has(
                            keep@,
                            c2,
                        ) by {
                            let w = idx_of(keeppre, c2);
                            assert(keep@[w].0@ == c2);
                        }
                        assert forall|c2: Seq<char>|
                            (c2 == "ending_good"@ || c2 == "ending_neutral"@ || c2
                                == "ending_bad"@) && map_has(keep@, c2) implies map_has(
                            keeppre,
                            c2,
                        ) || c2 == k@ by {
                            let w = idx_of(keep@, c2);
                            if w < last {
                                assert(keeppre[w].0@ == c2);
                            }
                        }
                        assert forall|i: int|
                            0 <= i < keep@.len() implies map_has(
                            merged,
                            (#[trigger] keep@[i]).0@,
                        ) by {
                            if i < last {
                                assert(keep@[i] == keeppre[i]);
                            } else {
                                assert(map_has(merged, endspre[j0].0@));
                                assert(endspre[j0].0@ == k@);
                            }
                        }
                        // a canonical key cannot still be waiting here
                        assert(k@ != "ending_good"@ && k@ != "ending_neutral"@ && k@
                            != "ending_bad"@) by {
                            if k@ == "ending_good"@ || k@ == "ending_neutral"@ || k@
                                == "ending_bad"@ {
                                assert(map_has(endspre, k@));
                                assert(false);
                            }
                        }
                        assert forall|c2: Seq<char>|
                            !map_has(endspre, c2) implies !#[trigger] map_has(
                            t.endings@,
                            c2,
                        ) by {
                            if map_has(t.endings@, c2) {
                                let w = idx_of(t.endings@, c2);
                                let w2 = if w < j0 { w } else { w + 1 };
                                assert(endspre[w2].0@ == c2);
                            }
                        }
                    }
                },
                None => {},
            }
            ri += 1;
        }
        let ghost keepg = keep@;
        t.endings = keep;
        proof {
            lemma_drawn_from_src(ends0, t.endings@, keep_src);
            assert forall|i: int| 0 <= i < t.endings@.len() implies map_has(
                ends0,
                (#[trigger] t.endings@[i]).0@,
            ) || category_present(ends0, t.endings@[i].0@) by {
                if !map_has(ends0, t.endings@[i].0@) {
                    assert(category_present(ends0, t.endings@[i].0@)) by {
                        assert(map_has(merged, t.endings@[i].0@));
                        let w = idx_of(merged, t.endings@[i].0@);
                        if merged[w].0 == ends0[msrc[w]].0 {
                            assert(map_has(ends0, t.endings@[i].0@)) by {
                                assert(ends0[msrc[w]].0@ == t.endings@[i].0@);
                            }
                            assert(false);
                        } else {
                            assert(canon_ending(ends0[msrc[w]].0@) == Some(merged[w].0@));
                        }
                    }
                }
            }
        }
    } else {
        proof {
            lemma_drawn_from_src(ends0, t.endings@, msrc);
            assert forall|i: int| 0 <= i < t.endings@.len() implies map_has(
                ends0,
                (#[trigger] t.endings@[i]).0@,
            ) || category_present(ends0, t.endings@[i].0@) by {
                if t.endings@[i].0 == ends0[msrc[i]].0 {
                    assert(ends0[msrc[i]].0@ == t.endings@[i].0@);
                } else {
                    assert(canon_ending(ends0[msrc[i]].0@) == Some(t.endings@[i].0@));
                }
            }
            // below the cap nothing is dropped, so every non-alias entry
            // survives under its own key with its own value
            assert forall|j: int|
                0 <= j < ends0.len() && ending_key_canonical(
                    (#[trigger] ends0[j]).0@,
                ) implies map_has(t.endings@, ends0[j].0@) && map_val(t.endings@, ends0[j].0@)
                == ends0[j].1 by {
                if forall|i: int| 0 <= i < msrc.len() ==> #[trigger] msrc[i] != j {
                    assert(!ending_key_canonical(ends0[j].0@));
                    assert(false);
                }
                let i0 = choose|i0: int| 0 <= i0 < msrc.len() && #[trigger] msrc[i0] == j;
                assert(t.endings@[i0].1 == ends0[j].1);
                assert(t.endings@[i0].0 == ends0[j].0 || canon_ending(ends0[j].0@) == Some(
                    t.endings@[i0].0@,
                ));
                assert(t.endings@[i0].0@ == ends0[j].0@);
                assert(map_has(t.endings@, ends0[j].0@));
                let u = idx_of(t.endings@, ends0[j].0@);
                assert(u == i0);
            }
        }
    }
}

/// A canonical ending key is a fixed point of the canonicalizer.
pub proof fn lemma_canon_fixed_point(k: Seq<char>)
    requires
        canon_ending(k) is Some,
    ensures
        canon_ending(canon_ending(k)->Some_0) == canon_ending(k),
{
    reveal_strlit("ending_good");
    reveal_strlit("ending_neutral");
    reveal_strlit("ending_bad");
    reveal_strlit("good_end");
    reveal_strlit("end_good");
    reveal_strlit("good");
    reveal_strlit("GOOD");
    reveal_strlit("neutral_end");
    reveal_strlit("end_neutral");
    reveal_strlit("neutral");
    reveal_strlit("NEUTRAL");
    reveal_strlit("bad_end");
    reveal_strlit("end_bad");
    reveal_strlit("bad");
    reveal_strlit("BAD");
    crate::text::lemma_trim_id("ending_good"@);
    crate::text::lemma_trim_id("ending_neutral"@);
    crate::text::lemma_trim_id("ending_bad"@);
    assert("ending_good"@.len() == 11);
    assert("ending_neutral"@.len() == 14);
    assert("ending_bad"@.len() == 10);
}

/// Re-running the choice-target canonicalization changes nothing: targets
/// already rewritten through the canonicalizer are fixed points of it.
pub proof fn lemma_ending_rewrite_stable(o: StoryNode, n: StoryNode, n2: StoryNode)
    requires
        ending_rewritten_node(o, n),
        ending_rewritten_node(n, n2),
    ensures
        n2.id == n.id,
        n2.content == n.content,
        n2.ending_key == n.ending_key,
        n2.level == n.level,
        n2.characters == n.characters,
        n2.choices@.len() == n.choices@.len(),
        forall|j: int|
            0 <= j < n2.choices@.len() ==> (#[trigger] n2.choices@[j]).text == n.choices@[j].text
                && n2.choices@[j].affinity_effect == n.choices@[j].affinity_effect && n2.choices@[
            j].next_node_id@ == n.choices@[j].next_node_id@,
{
    assert forall|j: int|
        0 <= j < n2.choices@.len() implies (#[trigger] n2.choices@[j]).text == n.choices@[j].text
        && n2.choices@[j].affinity_effect == n.choices@[j].affinity_effect && n2.choices@[
    j].next_node_id@ == n.choices@[j].next_node_id@ by {
        assert(ending_rewritten_choice(o.choices@[j], n.choices@[j]));
        assert(ending_rewritten_choice(n.choices@[j], n2.choices@[j]));
        match canon_ending(o.choices@[j].next_node_id@) {
            Some(cv) => {
                assert(n.choices@[j].next_node_id@ == cv);
                lemma_canon_fixed_point(o.choices@[j].next_node_id@);
                assert(canon_ending(n.choices@[j].next_node_id@) == Some(cv));
            },
            None => {
                assert(n.choices@[j].next_node_id == o.choices@[j].next_node_id);
            },
        }
    }
}

} // verus!
