use storygraph::cast::{enforce_character_consistency, ensure_minimum_game_graph};
use storygraph::endings::normalize_template_endings;
use storygraph::normalize::normalize_template_nodes;
use storygraph::sanitize::sanitize_template_graph;
use storygraph::types::{
    Character, CharacterInput, Choice, Ending, MetaInfo, MovieTemplate, Provenance, StoryNode,
};

fn base_template() -> MovieTemplate {
    MovieTemplate {
        project_id: "p".to_string(),
        title: "t".to_string(),
        version: "v".to_string(),
        owner: "o".to_string(),
        meta: MetaInfo {
            logline: "l".to_string(),
            synopsis: "s".to_string(),
            target_runtime_minutes: 1,
            genre: "Drama".to_string(),
            language: "zh-CN".to_string(),
        },
        background_image_base64: None,
        nodes: Vec::new(),
        endings: Vec::new(),
        characters: Vec::new(),
        provenance: Provenance { created_by: "c".to_string(), created_at: "a".to_string() },
    }
}

fn node(id: &str, content: &str, ending_key: Option<&str>, choices: Vec<Choice>) -> StoryNode {
    StoryNode {
        id: id.to_string(),
        content: content.to_string(),
        ending_key: ending_key.map(|s| s.to_string()),
        level: None,
        characters: None,
        choices,
    }
}

fn choice(text: &str, target: &str) -> Choice {
    Choice { text: text.to_string(), next_node_id: target.to_string(), affinity_effect: None }
}

fn get_node<'a>(t: &'a MovieTemplate, key: &str) -> Option<&'a StoryNode> {
    t.nodes.iter().find(|e| e.0 == key).map(|e| &e.1)
}

fn has_node(t: &MovieTemplate, key: &str) -> bool {
    t.nodes.iter().any(|e| e.0 == key)
}

fn has_ending(t: &MovieTemplate, key: &str) -> bool {
    t.endings.iter().any(|e| e.0 == key)
}

#[test]
fn test_normalize_nodes_key_and_choice_target() {
    let mut template = base_template();
    template.nodes.push((
        "node_start".to_string(),
        node("node_start", "...", None, vec![choice("go", "node_1")]),
    ));
    template.nodes.push(("node_1".to_string(), node("node_1", "...", None, vec![])));
    template.nodes.push(("n_keep".to_string(), node("n_keep", "...", None, vec![])));

    normalize_template_nodes(&mut template);

    assert!(has_node(&template, "start"));
    assert!(has_node(&template, "1"));
    assert!(has_node(&template, "keep"));
    assert!(!has_node(&template, "node_start"));
    assert!(!has_node(&template, "node_1"));
    assert!(!has_node(&template, "n_keep"));

    let start = get_node(&template, "start").unwrap();
    assert_eq!(start.id, "start");
    assert_eq!(start.choices[0].next_node_id, "1");
}

#[test]
fn test_normalize_endings_key_and_choice_target() {
    let mut template = base_template();
    template.nodes.push((
        "n_start".to_string(),
        node("n_start", "...", None, vec![choice("go", "bad_end")]),
    ));
    template.endings.push((
        "ending_bad".to_string(),
        Ending { category: "bad".to_string(), description: "bad".to_string() },
    ));

    normalize_template_endings(&mut template);

    let start = get_node(&template, "n_start").unwrap();
    assert_eq!(start.choices[0].next_node_id, "ending_bad");
    assert!(has_ending(&template, "ending_bad"));
}

#[test]
fn test_normalize_endings_alias_key_is_merged() {
    let mut template = base_template();
    template.nodes.push((
        "n_start".to_string(),
        node("n_start", "...", None, vec![choice("go", "bad_end")]),
    ));
    template.endings.push((
        "bad_end".to_string(),
        Ending { category: "bad".to_string(), description: "bad".to_string() },
    ));

    normalize_template_endings(&mut template);

    assert!(has_ending(&template, "ending_bad"));
    assert!(!has_ending(&template, "bad_end"));
    let start = get_node(&template, "n_start").unwrap();
    assert_eq!(start.choices[0].next_node_id, "ending_bad");
}

#[test]
fn test_normalize_endings_caps_at_five_keeping_canonical() {
    let mut template = base_template();
    for i in 0..7 {
        template.endings.push((
            format!("extra_{}", i),
            Ending { category: "neutral".to_string(), description: "e".to_string() },
        ));
    }
    template.endings.push((
        "ending_neutral".to_string(),
        Ending { category: "neutral".to_string(), description: "n".to_string() },
    ));

    normalize_template_endings(&mut template);

    assert!(template.endings.len() <= 5);
    assert!(has_ending(&template, "ending_neutral"));
}

#[test]
fn test_sanitize_template_graph_breaks_cycle_and_self_reference() {
    let mut template = base_template();
    template.nodes.push((
        "n_start".to_string(),
        node("n_start", "start", None, vec![choice("to 02", "n_02")]),
    ));
    template.nodes.push((
        "n_02".to_string(),
        node("n_02", "two", None, vec![choice("back", "n_start"), choice("self", "n_02")]),
    ));
    template.endings.push((
        "ending_neutral".to_string(),
        Ending { category: "neutral".to_string(), description: "neutral".to_string() },
    ));

    sanitize_template_graph(&mut template);

    let n2 = get_node(&template, "n_02").unwrap();
    assert!(n2.choices.iter().all(|c| c.next_node_id != "n_02"));
    assert!(n2.choices.iter().all(|c| c.next_node_id != "n_start"));
    assert!(n2.choices.iter().any(|c| c.next_node_id == "ending_neutral"));
}

#[test]
fn test_sanitize_template_graph_rewrites_invalid_choice_targets() {
    let mut template = base_template();
    template.nodes.push((
        "n_start".to_string(),
        node("n_start", "start", None, vec![choice("go", "n_missing")]),
    ));
    template.endings.push((
        "ending_neutral".to_string(),
        Ending { category: "neutral".to_string(), description: "neutral".to_string() },
    ));

    sanitize_template_graph(&mut template);

    let start = get_node(&template, "n_start").unwrap();
    assert_eq!(start.choices[0].next_node_id, "ending_neutral");
}

#[test]
fn test_sanitize_template_graph_deduplicates_nodes_and_preserves_ending_key() {
    let mut template = base_template();
    template.nodes.push((
        "n_start".to_string(),
        node("n_start", "start", None, vec![choice("go", "n_03")]),
    ));
    template.nodes.push((
        "n_02".to_string(),
        node("n_02", "dup", None, vec![choice("end", "ending_good")]),
    ));
    template.nodes.push((
        "n_03".to_string(),
        node("n_03", "dup", Some("ending_good"), vec![choice("end", "ending_good")]),
    ));
    template.endings.push((
        "ending_good".to_string(),
        Ending { category: "good".to_string(), description: "good".to_string() },
    ));
    template.endings.push((
        "ending_neutral".to_string(),
        Ending { category: "neutral".to_string(), description: "neutral".to_string() },
    ));

    sanitize_template_graph(&mut template);

    assert!(!has_node(&template, "n_03"));
    let start = get_node(&template, "n_start").unwrap();
    assert_eq!(start.choices[0].next_node_id, "n_02");

    let owner = get_node(&template, "n_02").unwrap();
    assert_eq!(owner.ending_key.as_deref(), Some("ending_good"));
    assert!(owner.choices.is_empty());
}

#[test]
fn test_sanitize_uses_sentinel_when_no_endings_exist() {
    let mut template = base_template();
    template.nodes.push((
        "n_start".to_string(),
        node("n_start", "start", None, vec![choice("go", "n_missing")]),
    ));

    sanitize_template_graph(&mut template);

    let start = get_node(&template, "n_start").unwrap();
    assert_eq!(start.choices[0].next_node_id, "END");
}

#[test]
fn test_sanitize_assigns_neutral_marker_to_dead_end_node() {
    let mut template = base_template();
    template.nodes.push(("n_start".to_string(), node("n_start", "start", None, vec![])));
    template.endings.push((
        "ending_neutral".to_string(),
        Ending { category: "neutral".to_string(), description: "neutral".to_string() },
    ));

    sanitize_template_graph(&mut template);

    let start = get_node(&template, "n_start").unwrap();
    assert_eq!(start.ending_key.as_deref(), Some("ending_neutral"));
}

#[test]
fn test_sanitize_twice_changes_nothing_structurally() {
    let mut template = base_template();
    template.nodes.push((
        "n_start".to_string(),
        node("n_start", "start", None, vec![choice("to 02", "n_02"), choice("oops", "gone")]),
    ));
    template.nodes.push((
        "n_02".to_string(),
        node("n_02", "two", None, vec![choice("back", "n_start"), choice("end", "ending_good")]),
    ));
    template.endings.push((
        "ending_good".to_string(),
        Ending { category: "good".to_string(), description: "good".to_string() },
    ));
    template.endings.push((
        "ending_neutral".to_string(),
        Ending { category: "neutral".to_string(), description: "neutral".to_string() },
    ));

    sanitize_template_graph(&mut template);
    let once_nodes: Vec<(String, String, Vec<String>)> = template
        .nodes
        .iter()
        .map(|e| {
            (
                e.0.clone(),
                e.1.ending_key.clone().unwrap_or_default(),
                e.1.choices.iter().map(|c| c.next_node_id.clone()).collect(),
            )
        })
        .collect();

    sanitize_template_graph(&mut template);
    let twice_nodes: Vec<(String, String, Vec<String>)> = template
        .nodes
        .iter()
        .map(|e| {
            (
                e.0.clone(),
                e.1.ending_key.clone().unwrap_or_default(),
                e.1.choices.iter().map(|c| c.next_node_id.clone()).collect(),
            )
        })
        .collect();

    assert_eq!(once_nodes, twice_nodes);
}

#[test]
fn test_ensure_minimum_game_graph_when_empty() {
    let mut template = base_template();
    template.meta.language = "".to_string();

    ensure_minimum_game_graph(&mut template, "zh-CN", None);

    assert!(has_node(&template, "start"));
    assert!(!template.nodes.is_empty());
    assert!(template.endings.len() >= 3);
    assert_eq!(template.meta.language, "zh-CN");
}

#[test]
fn test_ensure_minimum_game_graph_uses_request_protagonist_name() {
    let mut template = base_template();
    template.meta.language = "".to_string();

    let req_chars = vec![CharacterInput {
        name: "李雷".to_string(),
        description: "测试主角".to_string(),
        gender: "Male".to_string(),
        is_main: true,
    }];

    ensure_minimum_game_graph(&mut template, "zh-CN", Some(req_chars));

    let start = get_node(&template, "start").unwrap();
    let chars = start.characters.as_ref().unwrap();
    assert!(chars.iter().any(|c| c == "李雷"));
    assert!(template.characters.iter().any(|e| e.1.name == "李雷"));
}

#[test]
fn test_enforce_request_character_consistency_replaces_player_placeholder() {
    let mut template = base_template();
    template.nodes.push((
        "n_start".to_string(),
        StoryNode {
            id: "n_start".to_string(),
            content: "...".to_string(),
            ending_key: None,
            level: None,
            characters: Some(vec!["玩家".to_string(), "张三".to_string()]),
            choices: vec![],
        },
    ));
    template.characters.push((
        "c1".to_string(),
        Character {
            id: "c1".to_string(),
            name: "玩家".to_string(),
            gender: "Male".to_string(),
            age: 28,
            role: "".to_string(),
            background: "".to_string(),
            avatar_path: None,
        },
    ));

    let req_chars = vec![CharacterInput {
        name: "张三".to_string(),
        description: "测试主角".to_string(),
        gender: "Male".to_string(),
        is_main: true,
    }];

    enforce_character_consistency(&mut template, Some(req_chars));

    let start = get_node(&template, "n_start").unwrap();
    let chars = start.characters.as_ref().unwrap();
    assert_eq!(chars[0], "张三");
    assert!(template.characters.iter().any(|e| e.1.name == "张三"));
}

#[test]
fn test_ensure_request_characters_present_and_avatar_fallback_attaches() {
    let mut template = base_template();
    template.characters.push((
        "c_1".to_string(),
        Character {
            id: "c_1".to_string(),
            name: "SomeoneElse".to_string(),
            gender: "".to_string(),
            age: 20,
            role: "Supporting".to_string(),
            background: "".to_string(),
            avatar_path: None,
        },
    ));

    let req_chars = vec![CharacterInput {
        name: "Alice".to_string(),
        description: "Main character".to_string(),
        gender: "Female".to_string(),
        is_main: true,
    }];

    enforce_character_consistency(&mut template, Some(req_chars.clone()));
    assert!(template.characters.iter().any(|e| e.1.name == "Alice"));

    storygraph::images::ensure_avatar_fallbacks(&mut template, &Some(req_chars));
    let alice = template.characters.iter().find(|e| e.1.name == "Alice").unwrap();
    assert!(alice.1.avatar_path.as_deref().unwrap_or("").starts_with("data:image/"));
}

#[test]
fn test_ensure_request_characters_present_adds_missing_entry() {
    let mut template = base_template();

    let req_chars = vec![
        CharacterInput {
            name: "Alice".to_string(),
            description: "Main".to_string(),
            gender: "Female".to_string(),
            is_main: true,
        },
        CharacterInput {
            name: "Bob".to_string(),
            description: "Side".to_string(),
            gender: "".to_string(),
            is_main: false,
        },
    ];

    storygraph::cast::ensure_request_characters_present(&mut template, Some(req_chars));

    assert!(template.characters.iter().any(|e| e.1.name == "Alice"));
    assert!(template.characters.iter().any(|e| e.1.name == "Bob"));
    let bob = template.characters.iter().find(|e| e.1.name == "Bob").unwrap();
    assert_eq!(bob.1.gender, "Unknown");
}

#[test]
fn test_side_effects_are_clamped_resolved_and_dropped() {
    let mut template = base_template();
    template.characters.push((
        "c_hero".to_string(),
        Character {
            id: "c_hero".to_string(),
            name: "主角".to_string(),
            gender: "Male".to_string(),
            age: 20,
            role: "Protagonist".to_string(),
            background: "".to_string(),
            avatar_path: None,
        },
    ));
    template.characters.push((
        "c_amy".to_string(),
        Character {
            id: "c_amy".to_string(),
            name: "Amy".to_string(),
            gender: "Female".to_string(),
            age: 20,
            role: "Supporting".to_string(),
            background: "".to_string(),
            avatar_path: None,
        },
    ));
    template.nodes.push((
        "n_start".to_string(),
        StoryNode {
            id: "n_start".to_string(),
            content: "scene".to_string(),
            ending_key: None,
            level: None,
            characters: Some(vec!["Amy".to_string(), "主角".to_string()]),
            choices: vec![
                Choice {
                    text: "big".to_string(),
                    next_node_id: "END".to_string(),
                    affinity_effect: Some(storygraph::types::AffinityEffect {
                        character_id: "c_amy".to_string(),
                        delta: 35,
                    }),
                },
                Choice {
                    text: "self".to_string(),
                    next_node_id: "END".to_string(),
                    affinity_effect: Some(storygraph::types::AffinityEffect {
                        character_id: "主角".to_string(),
                        delta: 5,
                    }),
                },
                Choice {
                    text: "ghostly".to_string(),
                    next_node_id: "END".to_string(),
                    affinity_effect: Some(storygraph::types::AffinityEffect {
                        character_id: "Nobody".to_string(),
                        delta: 5,
                    }),
                },
            ],
        },
    ));

    let prot = storygraph::effects::sanitize_side_effects(&mut template);
    assert_eq!(prot, "主角");

    let start = get_node(&template, "n_start").unwrap();
    let kept = start.choices[0].affinity_effect.as_ref().unwrap();
    assert_eq!(kept.character_id, "Amy");
    assert_eq!(kept.delta, 20);
    assert!(start.choices[1].affinity_effect.is_none());
    assert!(start.choices[2].affinity_effect.is_none());
}

#[test]
fn test_run_pipeline_produces_consistent_graph() {
    let mut template = base_template();
    template.nodes.push((
        "node_start".to_string(),
        node("node_start", "start", None, vec![choice("go", "node_2"), choice("bad", "nowhere")]),
    ));
    template.nodes.push((
        "node_2".to_string(),
        node("node_2", "two", None, vec![choice("back", "node_start"), choice("end", "bad_end")]),
    ));
    template.endings.push((
        "bad_end".to_string(),
        Ending { category: "bad".to_string(), description: "b".to_string() },
    ));
    template.endings.push((
        "ending_neutral".to_string(),
        Ending { category: "neutral".to_string(), description: "n".to_string() },
    ));

    storygraph::pipeline::run_pipeline(&mut template, None);

    assert!(template.endings.len() <= 5);
    assert!(has_node(&template, "start"));
    assert!(has_node(&template, "2"));
    for e in &template.nodes {
        for c in &e.1.choices {
            let t = c.next_node_id.trim();
            assert!(
                t == "END"
                    || template.nodes.iter().any(|n| n.0 == t)
                    || template.endings.iter().any(|x| x.0 == t)
            );
            assert!(c.next_node_id != e.0);
        }
    }
}

fn snapshot(t: &MovieTemplate) -> Vec<(String, String, String, Vec<(String, String)>)> {
    t.nodes
        .iter()
        .map(|e| {
            (
                e.0.clone(),
                e.1.id.clone(),
                e.1.ending_key.clone().unwrap_or_default(),
                e.1
                    .choices
                    .iter()
                    .map(|c| (c.text.clone(), c.next_node_id.clone()))
                    .collect(),
            )
        })
        .collect()
}

#[test]
fn test_full_pipeline_twice_changes_nothing_structurally() {
    let mut template = base_template();
    template.nodes.push((
        "node_start".to_string(),
        node("node_start", "start", None, vec![choice("go", "node_2"), choice("bad", "nowhere")]),
    ));
    template.nodes.push((
        "node_2".to_string(),
        node("node_2", "two", None, vec![choice("back", "node_start"), choice("end", "bad_end")]),
    ));
    template.endings.push((
        "bad_end".to_string(),
        Ending { category: "bad".to_string(), description: "b".to_string() },
    ));
    template.endings.push((
        "ending_neutral".to_string(),
        Ending { category: "neutral".to_string(), description: "n".to_string() },
    ));

    storygraph::pipeline::run_pipeline(&mut template, None);
    let once = snapshot(&template);
    let once_endings: Vec<String> = template.endings.iter().map(|e| e.0.clone()).collect();

    storygraph::pipeline::run_pipeline(&mut template, None);
    assert_eq!(snapshot(&template), once);
    let twice_endings: Vec<String> = template.endings.iter().map(|e| e.0.clone()).collect();
    assert_eq!(twice_endings, once_endings);
}

#[test]
fn test_cycle_fallback_uses_any_existing_ending_without_neutral() {
    let mut template = base_template();
    template.nodes.push((
        "n_start".to_string(),
        node("n_start", "start", None, vec![choice("to 02", "n_02")]),
    ));
    template.nodes.push((
        "n_02".to_string(),
        node("n_02", "two", None, vec![choice("back", "n_start")]),
    ));
    template.endings.push((
        "custom".to_string(),
        Ending { category: "bad".to_string(), description: "c".to_string() },
    ));

    sanitize_template_graph(&mut template);

    let n2 = get_node(&template, "n_02").unwrap();
    assert_eq!(n2.choices[0].next_node_id, "custom");
}

#[test]
fn test_dead_end_stays_unmarked_without_a_neutral_ending() {
    let mut template = base_template();
    template.nodes.push(("n_start".to_string(), node("n_start", "start", None, vec![])));
    template.endings.push((
        "ending_bad".to_string(),
        Ending { category: "bad".to_string(), description: "b".to_string() },
    ));

    sanitize_template_graph(&mut template);

    let start = get_node(&template, "n_start").unwrap();
    assert!(start.ending_key.is_none());
    assert!(start.choices.is_empty());
}

#[test]
fn test_normalize_nodes_disambiguates_collisions_in_key_order() {
    let mut template = base_template();
    template.nodes.push(("n_7".to_string(), node("n_7", "a", None, vec![])));
    template.nodes.push(("node_7".to_string(), node("node_7", "b", None, vec![])));

    normalize_template_nodes(&mut template);

    assert!(has_node(&template, "7"));
    assert!(has_node(&template, "7_2"));
    let first = get_node(&template, "7").unwrap();
    let second = get_node(&template, "7_2").unwrap();
    assert_eq!(first.content, "a");
    assert_eq!(second.content, "b");
}

#[test]
fn test_normalize_endings_keeps_untouched_entries_below_the_cap() {
    let mut template = base_template();
    template.endings.push((
        "custom".to_string(),
        Ending { category: "neutral".to_string(), description: "kept".to_string() },
    ));
    template.endings.push((
        "bad_end".to_string(),
        Ending { category: "bad".to_string(), description: "renamed".to_string() },
    ));

    normalize_template_endings(&mut template);

    let custom = template.endings.iter().find(|e| e.0 == "custom").unwrap();
    assert_eq!(custom.1.description, "kept");
    let bad = template.endings.iter().find(|e| e.0 == "ending_bad").unwrap();
    assert_eq!(bad.1.description, "renamed");
    assert!(!has_ending(&template, "bad_end"));
}
