//! The full repair pipeline: key normalization, ending canonicalization,
//! graph sanitization, side-effect sanitization and cast consistency, in
//! that fixed order.

use vstd::prelude::*;

use crate::cast::enforce_character_consistency;
use crate::effects::sanitize_side_effects;
use crate::endings::normalize_template_endings;
use crate::normalize::{normalize_character_ids, normalize_template_nodes};
use crate::sanitize::{
    keeps_target, marker_valid, repaired_choice, repaired_node, sanitize_template_graph,
    target_resolved,
};
use crate::types::{map_has, CharacterInput, MovieTemplate, StoryNode};

verus! {

/// Run all five repair stages in their mandatory order. Afterwards the
/// ending map holds at most five entries, every choice target resolves to
/// a node key, an ending key or the sentinel, and every node is terminal
/// exactly when its marker names an existing ending (unless no fallback
/// ending exists at all). The graph sanitizer stage additionally
/// guarantees acyclicity; its own contract states that.
pub fn run_pipeline(t: &mut MovieTemplate, req_chars: Option<Vec<CharacterInput>>)
    requires
        old(t).wf(),
        old(t).nodes@.len() + 2 <= usize::MAX,
    ensures
        final(t).wf(),
        final(t).endings@.len() <= 5,
        forall|i: int, j: int|
            0 <= i < final(t).nodes@.len() && 0 <= j < (#[trigger] final(t).nodes@[
            i]).1.choices@.len() ==> target_resolved(
                final(t).nodes@,
                final(t).endings@,
                (#[trigger] final(t).nodes@[i].1.choices@[j]).next_node_id@,
            ),
        forall|i: int|
            0 <= i < final(t).nodes@.len() && marker_valid(
                final(t).endings@,
                (#[trigger] final(t).nodes@[i]).1,
            ) ==> final(t).nodes@[i].1.choices@.len() == 0,
        forall|i: int|
            0 <= i < final(t).nodes@.len() && (#[trigger] final(t).nodes@[i]).1.choices@.len()
                == 0 ==> marker_valid(final(t).endings@, final(t).nodes@[i].1) || !map_has(
                final(t).endings@,
                "ending_neutral"@,
            ),
{
    normalize_character_ids(t);
    let _mapping = normalize_template_nodes(t);
    normalize_template_endings(t);
    sanitize_template_graph(t);
    let ghost ns = t.nodes@;
    let ghost es = t.endings@;
    let _prot = sanitize_side_effects(t);
    let ghost ne = t.nodes@;
    enforce_character_consistency(t, req_chars);
    proof {
        let fin = t.nodes@;
        // the later stages keep keys, targets, markers and choice counts
        assert forall|i: int| 0 <= i < fin.len() implies {
            &&& (#[trigger] fin[i]).0 == ns[i].0
            &&& fin[i].1.ending_key == ns[i].1.ending_key
            &&& fin[i].1.choices@.len() == ns[i].1.choices@.len()
        } by {
            assert(fin[i].0 == ne[i].0 && ne[i].0 == ns[i].0);
            assert(fin[i].1.ending_key == ne[i].1.ending_key);
            assert(ne[i].1.ending_key == ns[i].1.ending_key);
            assert(fin[i].1.choices == ne[i].1.choices);
            assert(ne[i].1.choices@.len() == ns[i].1.choices@.len());
        }
        assert forall|i: int, j: int|
            0 <= i < fin.len() && 0 <= j < (#[trigger] fin[i]).1.choices@.len() implies (
        #[trigger] fin[i].1.choices@[j]).next_node_id@ == ns[i].1.choices@[j].next_node_id@ by {
            assert(fin[i].1.choices == ne[i].1.choices);
            assert(ne[i].1.choices@[j].next_node_id == ns[i].1.choices@[j].next_node_id);
        }
        assert forall|i: int, j: int|
            0 <= i < fin.len() && 0 <= j < (#[trigger] fin[i]).1.choices@.len() implies
            target_resolved(fin, es, (#[trigger] fin[i].1.choices@[j]).next_node_id@) by {
            let tv = fin[i].1.choices@[j].next_node_id@;
            assert(target_resolved(ns, es, tv));
            if map_has(ns, crate::text::trim_of(tv)) {
                let w = crate::types::idx_of(ns, crate::text::trim_of(tv));
                assert(ns[w].0@ == crate::text::trim_of(tv));
                assert(fin[w].0@ == crate::text::trim_of(tv));
            }
        }
        assert forall|i: int|
            0 <= i < fin.len() && marker_valid(es, (#[trigger] fin[i]).1) implies fin[
        i].1.choices@.len() == 0 by {
            assert(fin[i].1.ending_key == ns[i].1.ending_key);
            assert(marker_valid(es, ns[i].1));
        }
        assert forall|i: int|
            0 <= i < fin.len() && (#[trigger] fin[i]).1.choices@.len() == 0 implies marker_valid(
            es,
            fin[i].1,
        ) || !map_has(es, "ending_neutral"@) by {
            assert(ns[i].1.choices@.len() == 0);
            if marker_valid(es, ns[i].1) {
                assert(fin[i].1.ending_key == ns[i].1.ending_key);
            }
        }
    }
}

/// Re-running reference repair on an already-repaired node changes
/// nothing: a node whose choice targets all resolve (and are kept as they
/// stand) and whose terminal marker is consistent is a fixed point of pass
/// C. This is the re-run-stability face of the pipeline that the repair
/// pass itself guarantees; duplicate collapse is not a fixed point in
/// general, because reference repair can make two distinct nodes converge
/// on the same signature.
pub proof fn lemma_repair_stable(
    nodes: Seq<(String, StoryNode)>,
    endings: Seq<(String, crate::types::Ending)>,
    fb2: Seq<char>,
    o: StoryNode,
    n: StoryNode,
)
    requires
        repaired_node(nodes, endings, fb2, o, n),
        forall|j: int|
            0 <= j < o.choices@.len() ==> keeps_target(
                nodes,
                endings,
                (#[trigger] o.choices@[j]).next_node_id@,
            ),
        marker_valid(endings, o) ==> o.choices@.len() == 0,
        o.choices@.len() == 0 ==> marker_valid(endings, o) || !map_has(
            endings,
            "ending_neutral"@,
        ),
    ensures
        n.id == o.id,
        n.content == o.content,
        n.level == o.level,
        n.characters == o.characters,
        n.ending_key == o.ending_key,
        n.choices@ =~= o.choices@,
{
    if marker_valid(endings, o) {
        assert(o.choices@.len() == 0);
        assert(n.choices@.len() == 0);
        assert(n.choices@ =~= o.choices@);
    } else {
        assert(n.choices@.len() == o.choices@.len());
        assert forall|j: int| 0 <= j < n.choices@.len() implies n.choices@[j]
            == o.choices@[j] by {
            assert(repaired_choice(nodes, endings, fb2, o.choices@[j], n.choices@[j]));
            assert(keeps_target(nodes, endings, o.choices@[j].next_node_id@));
        }
        assert(n.choices@ =~= o.choices@);
        if o.choices@.len() == 0 {
            assert(!map_has(endings, "ending_neutral"@));
            assert(n.ending_key == o.ending_key);
        } else {
            assert(n.ending_key == o.ending_key);
        }
    }
}

} // verus!
