//! The loosely-typed candidate graph the content generator emits, and the
//! single conversion step that turns it into the typed graph.
//!
//! Every field is optional and every list-or-string shape has already been
//! flattened by the decode layer; this module fills in the defaults and
//! assembles the typed graph that the pipeline then repairs.

use vstd::prelude::*;

use crate::types::{
    keys_unique, Character, Choice, Ending, MetaInfo, MovieTemplate, Provenance, StoryNode,
};

verus! {

/// A loosely-typed choice.
pub struct ChoiceLite {
    pub text: Option<String>,
    pub next_node_id: Option<String>,
}

/// A loosely-typed node.
pub struct StoryNodeLite {
    pub id: Option<String>,
    pub node_id: Option<String>,
    pub content_text: Option<String>,
    pub ending_key: Option<String>,
    pub characters: Option<Vec<String>>,
    pub choices: Option<Vec<ChoiceLite>>,
}

/// A loosely-typed cast entry.
pub struct CharacterLite {
    pub id: Option<String>,
    pub name: Option<String>,
    pub gender: Option<String>,
    pub age: Option<u32>,
    pub role: Option<String>,
    pub background: Option<String>,
    pub avatar_path: Option<String>,
    pub description: Option<String>,
}

/// Loosely-typed metadata.
pub struct MetaInfoLite {
    pub logline: Option<String>,
    pub synopsis: Option<String>,
    pub genre: Option<String>,
}

/// The loosely-typed candidate graph.
pub struct MovieTemplateLite {
    pub title: Option<String>,
    pub meta: Option<MetaInfoLite>,
    pub nodes: Vec<(String, StoryNodeLite)>,
    pub characters: Vec<(String, CharacterLite)>,
    pub endings: Vec<(String, Ending)>,
}

/// Relies on `uuid::Uuid::new_v4` and its hyphenated rendering: a fresh
/// random identifier, thirty-six characters long. Nothing further can be
/// promised of a random value.
#[verifier::external_body]
fn fresh_uuid_string() -> (r: String)
    ensures
        r@.len() == 36,
{
    uuid::Uuid::new_v4().to_string()
}

fn unwrap_or_string(o: Option<String>, d: &str) -> (r: String)
    ensures
        match o {
            Some(s) => r == s,
            None => r@ == d@,
        },
{
    match o {
        Some(s) => s,
        None => d.to_owned(),
    }
}

/// How a typed cast entry relates to the loose one it came from: missing
/// names and genders become `Unknown`, a missing id becomes a fresh
/// identifier, and the background falls back to the description.
pub open spec fn character_lite_converted(l: CharacterLite, c: Character) -> bool {
    &&& match l.id {
        Some(id) => c.id == id,
        None => c.id@.len() == 36,
    }
    &&& match l.name {
        Some(n) => c.name == n,
        None => c.name@ == "Unknown"@,
    }
    &&& match l.gender {
        Some(g) => c.gender == g,
        None => c.gender@ == "Unknown"@,
    }
    &&& c.age as int == (match l.age {
        Some(a) => a as int,
        None => 0,
    })
    &&& match l.role {
        Some(x) => c.role == x,
        None => c.role@ == Seq::<char>::empty(),
    }
    &&& match l.background {
        Some(b) => c.background == b,
        None => match l.description {
            Some(d) => c.background == d,
            None => c.background@ == Seq::<char>::empty(),
        },
    }
    &&& c.avatar_path == l.avatar_path
}

/// How the typed metadata relates to the loose metadata it came from.
pub open spec fn meta_lite_converted(lm: Option<MetaInfoLite>, m: MetaInfo) -> bool {
    match lm {
        Some(ml) => {
            &&& match ml.logline {
                Some(x) => m.logline == x,
                None => m.logline@ == Seq::<char>::empty(),
            }
            &&& match ml.synopsis {
                Some(x) => m.synopsis == x,
                None => m.synopsis@ == Seq::<char>::empty(),
            }
            &&& match ml.genre {
                Some(x) => m.genre == x,
                None => m.genre@ == Seq::<char>::empty(),
            }
        },
        None => m.logline@ == Seq::<char>::empty() && m.synopsis@ == Seq::<char>::empty()
            && m.genre@ == Seq::<char>::empty(),
    }
}

/// A typed cast entry from a loose one.
pub fn convert_character_lite(lite: CharacterLite) -> (r: Character)
    ensures
        character_lite_converted(lite, r),
{
    let id = match lite.id {
        Some(id) => id,
        None => fresh_uuid_string(),
    };
    let background = match lite.background {
        Some(b) => b,
        None => match lite.description {
            Some(d) => d,
            None => String::new(),
        },
    };
    let r = Character {
        id,
        name: unwrap_or_string(lite.name, "Unknown"),
        gender: unwrap_or_string(lite.gender, "Unknown"),
        age: match lite.age {
            Some(a) => a,
            None => 0,
        },
        role: unwrap_or_string(lite.role, ""),
        background,
        avatar_path: lite.avatar_path,
    };
    proof {
        reveal_strlit("");
        assert(""@ =~= Seq::<char>::empty());
        assert(character_lite_converted(lite, r));
    }
    r
}

/// How a typed choice relates to the loose one it came from.
pub open spec fn choice_lite_converted(l: ChoiceLite, c: Choice) -> bool {
    &&& match l.text {
        Some(x) => c.text == x,
        None => c.text@ == "Continue"@,
    }
    &&& match l.next_node_id {
        Some(x) => c.next_node_id == x,
        None => c.next_node_id@ == "END"@,
    }
    &&& c.affinity_effect is None
}

/// How a typed node relates to the loose one it came from under its key.
pub open spec fn node_lite_converted(key: String, l: StoryNodeLite, n: StoryNode) -> bool {
    &&& match l.id {
        Some(id) => n.id == id,
        None => match l.node_id {
            Some(nid) => n.id == nid,
            None => n.id == key,
        },
    }
    &&& match l.content_text {
        Some(c) => n.content == c,
        None => n.content@ == "..."@,
    }
    &&& n.ending_key == l.ending_key
    &&& n.level is None
    &&& n.characters == l.characters
    &&& match l.choices {
        Some(cs) => n.choices@.len() == cs@.len() && forall|j: int|
            0 <= j < cs@.len() ==> choice_lite_converted(cs@[j], (#[trigger] n.choices@[j])),
        None => n.choices@.len() == 0,
    }
}

/// A typed choice from a loose one: missing text becomes `Continue`, a
/// missing target becomes the sentinel.
pub fn convert_choice_lite(lite: ChoiceLite) -> (r: Choice)
    ensures
        choice_lite_converted(lite, r),
{
    Choice {
        text: unwrap_or_string(lite.text, "Continue"),
        next_node_id: unwrap_or_string(lite.next_node_id, "END"),
        affinity_effect: None,
    }
}

/// A typed node from a loose one under its map key: the id falls back
/// from `id` to `node_id` to the key, missing content becomes an
/// ellipsis, and missing choices become none at all.
pub fn convert_node_lite(key: String, lite: StoryNodeLite) -> (r: StoryNode)
    ensures
        node_lite_converted(key, lite, r),
{
    let id = match lite.id {
        Some(id) => id,
        None => match lite.node_id {
            Some(nid) => nid,
            None => key,
        },
    };
    let choices = match lite.choices {
        Some(cs) => {
            let mut rest = cs;
            let mut out: Vec<Choice> = Vec::new();
            let ghost cs0 = rest@;
            while rest.len() > 0
                invariant
                    out@.len() + rest@.len() == cs0.len(),
                    rest@ =~= cs0.skip(out@.len() as int),
                    forall|j: int|
                        0 <= j < out@.len() ==> choice_lite_converted(
                            cs0[j],
                            (#[trigger] out@[j]),
                        ),
                decreases rest@.len(),
            {
                let c = rest.remove(0);
                proof {
                    assert(c == cs0[out@.len() as int]);
                }
                out.push(convert_choice_lite(c));
                proof {
                    assert(rest@ =~= cs0.skip(out@.len() as int));
                }
            }
            out
        },
        None => Vec::new(),
    };
    StoryNode {
        id,
        content: unwrap_or_string(lite.content_text, "..."),
        ending_key: lite.ending_key,
        level: None,
        characters: lite.characters,
        choices,
    }
}

/// The single conversion step from the loose candidate graph to the typed
/// one: a fresh project identifier, defaulted metadata, converted nodes
/// and cast, and the endings as they came.
pub fn convert_lite_to_full(lite: MovieTemplateLite, language: &str) -> (r: MovieTemplate)
    requires
        keys_unique(lite.nodes@),
        keys_unique(lite.characters@),
        keys_unique(lite.endings@),
    ensures
        r.wf(),
        r.project_id@.len() == 36,
        match lite.title {
            Some(x) => r.title == x,
            None => r.title@ == "Untitled Project"@,
        },
        r.version@ == "1.0.0"@,
        r.owner@ == "User"@,
        r.meta.language@ == language@,
        r.meta.target_runtime_minutes == 0,
        meta_lite_converted(lite.meta, r.meta),
        r.background_image_base64 is None,
        r.nodes@.len() == lite.nodes@.len(),
        forall|i: int| 0 <= i < r.nodes@.len() ==> (#[trigger] r.nodes@[i]).0 == lite.nodes@[i].0,
        forall|i: int|
            0 <= i < r.nodes@.len() ==> node_lite_converted(
                lite.nodes@[i].0,
                lite.nodes@[i].1,
                (#[trigger] r.nodes@[i]).1,
            ),
        r.characters@.len() == lite.characters@.len(),
        forall|i: int|
            0 <= i < r.characters@.len() ==> (#[trigger] r.characters@[i]).0
                == lite.characters@[i].0,
        forall|i: int|
            0 <= i < r.characters@.len() ==> character_lite_converted(
                lite.characters@[i].1,
                (#[trigger] r.characters@[i]).1,
            ),
        r.endings == lite.endings,
{
    let project_id = fresh_uuid_string();
    proof {
        reveal_strlit("");
        assert(""@ =~= Seq::<char>::empty());
    }
    let (logline, synopsis, genre) = match lite.meta {
        Some(m) => (
            unwrap_or_string(m.logline, ""),
            unwrap_or_string(m.synopsis, ""),
            unwrap_or_string(m.genre, ""),
        ),
        None => (String::new(), String::new(), String::new()),
    };
    let mut nodes: Vec<(String, StoryNode)> = Vec::new();
    let mut rest = lite.nodes;
    let ghost nodes0 = rest@;
    while rest.len() > 0
        invariant
            nodes@.len() + rest@.len() == nodes0.len(),
            rest@ =~= nodes0.skip(nodes@.len() as int),
            forall|i: int| 0 <= i < nodes@.len() ==> (#[trigger] nodes@[i]).0 == nodes0[i].0,
            forall|i: int|
                0 <= i < nodes@.len() ==> node_lite_converted(
                    nodes0[i].0,
                    nodes0[i].1,
                    (#[trigger] nodes@[i]).1,
                ),
        decreases rest@.len(),
    {
        let (k, nl) = rest.remove(0);
        proof {
            assert((k, nl) == nodes0[nodes@.len() as int]);
        }
        let k2 = k.clone();
        let node = convert_node_lite(k, nl);
        nodes.push((k2, node));
        proof {
            assert(rest@ =~= nodes0.skip(nodes@.len() as int));
        }
    }
    let mut chars: Vec<(String, Character)> = Vec::new();
    let mut crest = lite.characters;
    let ghost chars0 = crest@;
    while crest.len() > 0
        invariant
            chars@.len() + crest@.len() == chars0.len(),
            crest@ =~= chars0.skip(chars@.len() as int),
            forall|i: int| 0 <= i < chars@.len() ==> (#[trigger] chars@[i]).0 == chars0[i].0,
            forall|i: int|
                0 <= i < chars@.len() ==> character_lite_converted(
                    chars0[i].1,
                    (#[trigger] chars@[i]).1,
                ),
        decreases crest@.len(),
    {
        let (k, cl) = crest.remove(0);
        proof {
            assert((k, cl) == chars0[chars@.len() as int]);
        }
        let c = convert_character_lite(cl);
        chars.push((k, c));
        proof {
            assert(crest@ =~= chars0.skip(chars@.len() as int));
        }
    }
    let r = MovieTemplate {
        project_id,
        title: unwrap_or_string(lite.title, "Untitled Project"),
        version: "1.0.0".to_owned(),
        owner: "User".to_owned(),
        meta: MetaInfo {
            logline,
            synopsis,
            target_runtime_minutes: 0,
            genre,
            language: language.to_owned(),
        },
        background_image_base64: None,
        nodes,
        endings: lite.endings,
        characters: chars,
        provenance: Provenance { created_by: String::new(), created_at: String::new() },
    };
    proof {
        assert(keys_unique(r.nodes@)) by {
            assert forall|x: int, y: int|
                0 <= x < y < r.nodes@.len() implies r.nodes@[x].0@ != r.nodes@[y].0@ by {
                assert(r.nodes@[x].0 == nodes0[x].0 && r.nodes@[y].0 == nodes0[y].0);
            }
        }
        assert(keys_unique(r.characters@)) by {
            assert forall|x: int, y: int|
                0 <= x < y < r.characters@.len() implies r.characters@[x].0@
                != r.characters@[y].0@ by {
                assert(r.characters@[x].0 == chars0[x].0 && r.characters@[y].0 == chars0[y].0);
            }
        }
    }
    r
}

/// An empty candidate graph carrying only a title, used when the
/// generator's output cannot be decoded at all.
pub fn fallback_template_lite(title: &str) -> (r: MovieTemplateLite)
    ensures
        r.title matches Some(x) && x@ == title@,
        r.meta is None,
        r.nodes@.len() == 0,
        r.characters@.len() == 0,
        r.endings@.len() == 0,
{
    MovieTemplateLite {
        title: Some(title.to_owned()),
        meta: None,
        nodes: Vec::new(),
        characters: Vec::new(),
        endings: Vec::new(),
    }
}

/// The lines joined with a line break, for list-valued text fields.
pub open spec fn joined_lines(vs: Seq<String>) -> Seq<char>
    decreases vs.len(),
{
    if vs.len() == 0 {
        Seq::empty()
    } else if vs.len() == 1 {
        vs[0]@
    } else {
        vs[0]@ + "\n"@ + joined_lines(vs.drop_first())
    }
}

/// Join a list-valued text field with line breaks.
pub fn join_lines(vs: &Vec<String>) -> (r: String)
    ensures
        r@ == joined_lines(vs@),
{
    let n = vs.len();
    if n == 0 {
        return String::new();
    }
    let mut r = vs[n - 1].clone();
    let mut i: usize = n - 1;
    while i > 0
        invariant
            n == vs@.len(),
            i < n,
            r@ == joined_lines(vs@.skip(i as int)),
        decreases i,
    {
        i -= 1;
        let s1 = crate::text::str_concat(vs[i].as_str(), "\n");
        r = crate::text::str_concat(s1.as_str(), r.as_str());
        proof {
            assert(vs@.skip(i as int).len() >= 2);
            assert(vs@.skip(i as int).drop_first() =~= vs@.skip(i + 1));
            assert(vs@.skip(i as int)[0] == vs@[i as int]);
            assert(r@ =~= vs@.skip(i as int)[0]@ + "\n"@ + joined_lines(vs@.skip(i + 1)));
        }
    }
    proof {
        assert(vs@.skip(0) =~= vs@);
    }
    r
}

} // verus!
