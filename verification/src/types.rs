//! The typed branching-narrative graph that the pipeline repairs.
//!
//! Node, ending and cast maps are association vectors keyed by strings; the
//! well-formedness predicate [`MovieTemplate::wf`] says that each map's keys
//! are pairwise distinct. Map iteration order is therefore explicit, which
//! the deterministic pipeline stages rely on.

use vstd::prelude::*;

verus! {

/// Global metadata of a narrative graph.
#[derive(Clone)]
pub struct MetaInfo {
    pub logline: String,
    pub synopsis: String,
    pub target_runtime_minutes: u32,
    pub genre: String,
    pub language: String,
}

/// Where a graph came from.
#[derive(Clone)]
pub struct Provenance {
    pub created_by: String,
    pub created_at: String,
}

/// A numeric relationship effect attached to a choice, aimed at one person.
#[derive(Clone)]
pub struct AffinityEffect {
    pub character_id: String,
    pub delta: i32,
}

/// A labeled edge from a node to another node or to an ending.
#[derive(Clone)]
pub struct Choice {
    pub text: String,
    pub next_node_id: String,
    pub affinity_effect: Option<AffinityEffect>,
}

/// A single narrative beat with its outgoing choices.
#[derive(Clone)]
pub struct StoryNode {
    pub id: String,
    pub content: String,
    pub ending_key: Option<String>,
    pub level: Option<u32>,
    pub characters: Option<Vec<String>>,
    pub choices: Vec<Choice>,
}

/// A terminal narrative state.
#[derive(Clone)]
pub struct Ending {
    pub category: String,
    pub description: String,
}

/// A member of the cast.
#[derive(Clone)]
pub struct Character {
    pub id: String,
    pub name: String,
    pub gender: String,
    pub age: u32,
    pub role: String,
    pub background: String,
    pub avatar_path: Option<String>,
}

/// The full branching-narrative document.
#[derive(Clone)]
pub struct MovieTemplate {
    pub project_id: String,
    pub title: String,
    pub version: String,
    pub owner: String,
    pub meta: MetaInfo,
    pub background_image_base64: Option<String>,
    pub nodes: Vec<(String, StoryNode)>,
    pub endings: Vec<(String, Ending)>,
    pub characters: Vec<(String, Character)>,
    pub provenance: Provenance,
}

/// A generation request, as plain values.
#[derive(Clone)]
pub struct GenerateRequest {
    pub mode: String,
    pub theme: Option<String>,
    pub synopsis: Option<String>,
    pub genre: Option<Vec<String>>,
    pub characters: Option<Vec<CharacterInput>>,
    pub min_nodes: Option<u32>,
    pub max_nodes: Option<u32>,
    pub min_endings: Option<u32>,
    pub max_endings: Option<u32>,
    pub free_input: Option<String>,
    pub language: Option<String>,
    pub size: Option<String>,
    pub api_key: Option<String>,
    pub base_url: Option<String>,
    pub model: Option<String>,
}

/// One entry of the caller-supplied character roster.
#[derive(Clone)]
pub struct CharacterInput {
    pub name: String,
    pub description: String,
    pub gender: String,
    pub is_main: bool,
}

/// The keys of an association vector, as character sequences.
pub open spec fn keys_of<V>(m: Seq<(String, V)>) -> Seq<Seq<char>> {
    m.map_values(|e: (String, V)| e.0@)
}

/// Whether an association vector's keys are pairwise distinct.
pub open spec fn keys_unique<V>(m: Seq<(String, V)>) -> bool {
    forall|i: int, j: int| 0 <= i < j < m.len() ==> m[i].0@ != m[j].0@
}

/// Whether an association vector has an entry under key `k`.
pub open spec fn map_has<V>(m: Seq<(String, V)>, k: Seq<char>) -> bool {
    exists|i: int| 0 <= i < m.len() && (#[trigger] m[i].0@) == k
}

/// The index of the entry under key `k`.
pub open spec fn idx_of<V>(m: Seq<(String, V)>, k: Seq<char>) -> int {
    choose|i: int| 0 <= i < m.len() && (#[trigger] m[i].0@) == k
}

/// The value stored under key `k`.
pub open spec fn map_val<V>(m: Seq<(String, V)>, k: Seq<char>) -> V {
    m[idx_of(m, k)].1
}

impl MovieTemplate {
    /// Each of the three maps has pairwise-distinct keys.
    pub open spec fn wf(&self) -> bool {
        keys_unique(self.nodes@) && keys_unique(self.endings@) && keys_unique(self.characters@)
    }
}

} // verus!
