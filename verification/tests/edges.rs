use storygraph::api::{check_request_quota, status_for_error_code, ApiResponse, DbError};
use storygraph::glm::{
    contains_limit, extract_glm_error_code, is_rate_limit_error, resolve_glm_api_key,
    resolve_glm_endpoint,
};
use storygraph::images::{
    fallback_avatar_data_uri, fallback_background_data_uri, normalize_cogview_size,
    pick_background_prompt, svg_to_data_uri,
};
use storygraph::prompt::clean_json;
use storygraph::types::{GenerateRequest, MetaInfo, MovieTemplate, Provenance};

fn edge_request(synopsis: Option<&str>, theme: Option<&str>, free: Option<&str>) -> GenerateRequest {
    GenerateRequest {
        mode: "wizard".to_string(),
        theme: theme.map(|s| s.to_string()),
        synopsis: synopsis.map(|s| s.to_string()),
        genre: None,
        characters: None,
        min_nodes: None,
        max_nodes: None,
        min_endings: None,
        max_endings: None,
        free_input: free.map(|s| s.to_string()),
        language: Some("zh-CN".to_string()),
        size: None,
        api_key: None,
        base_url: None,
        model: None,
    }
}

fn edge_template(synopsis: &str, title: &str) -> MovieTemplate {
    MovieTemplate {
        project_id: "p".to_string(),
        title: title.to_string(),
        version: "v".to_string(),
        owner: "o".to_string(),
        meta: MetaInfo {
            logline: "l".to_string(),
            synopsis: synopsis.to_string(),
            target_runtime_minutes: 1,
            genre: "Drama".to_string(),
            language: "zh-CN".to_string(),
        },
        background_image_base64: None,
        nodes: Vec::new(),
        endings: Vec::new(),
        characters: Vec::new(),
        provenance: Provenance { created_by: "u".to_string(), created_at: "t".to_string() },
    }
}

#[test]
fn test_pick_background_prompt_prefers_template_synopsis() {
    let req = edge_request(Some("REQ"), Some("职场"), None);
    let template = edge_template("TEMPLATE", "t");
    let picked = pick_background_prompt(&req, &template);
    assert_eq!(picked, "TEMPLATE");
}

#[test]
fn test_pick_background_prompt_falls_back_to_request_then_title() {
    let req = edge_request(Some("REQ"), None, None);
    let template = edge_template("  ", "Title");
    assert_eq!(pick_background_prompt(&req, &template), "REQ");

    let req2 = edge_request(None, None, None);
    assert_eq!(pick_background_prompt(&req2, &template), "Title");
}

#[test]
fn test_fallback_image_data_uris_have_svg_prefix() {
    let bg = fallback_background_data_uri("Title", "Synopsis");
    assert!(bg.starts_with("data:image/svg+xml;base64,"));
    let avatar = fallback_avatar_data_uri("Alice");
    assert!(avatar.starts_with("data:image/svg+xml;base64,"));
}

#[test]
fn test_svg_to_data_uri_encodes_payload() {
    assert_eq!(svg_to_data_uri("a"), "data:image/svg+xml;base64,YQ==");
}

#[test]
fn test_normalize_cogview_size_defaults_and_accepts_known_values() {
    assert_eq!(normalize_cogview_size(None), "1024x1024");
    assert_eq!(normalize_cogview_size(Some("")), "1024x1024");
    assert_eq!(normalize_cogview_size(Some(" 1152x864 ")), "1152x864");
    assert_eq!(normalize_cogview_size(Some("864x1152")), "864x1152");
    assert_eq!(normalize_cogview_size(Some("1024x1024")), "1024x1024");
    assert_eq!(normalize_cogview_size(Some("999x999")), "1024x1024");
}

#[test]
fn test_extract_glm_error_code_reads_string_and_integer_codes() {
    let body = "{\"error\":{\"code\":\"1305\"}}";
    assert_eq!(extract_glm_error_code(body).as_deref(), Some("1305"));
    let body2 = "{\"error\":{\"code\":1305}}";
    assert_eq!(extract_glm_error_code(body2).as_deref(), Some("1305"));
    assert!(extract_glm_error_code("not json").is_none());
    assert!(extract_glm_error_code("{\"ok\":true}").is_none());
}

#[test]
fn test_is_rate_limit_error_matches_the_code() {
    assert!(is_rate_limit_error("{\"error\":{\"code\":\"1305\"}}"));
    assert!(!is_rate_limit_error("{\"error\":{\"code\":\"1234\"}}"));
    assert!(!is_rate_limit_error("plain text"));
}

#[test]
fn test_contains_limit_is_case_insensitive() {
    assert!(contains_limit("Rate LIMIT reached"));
    assert!(!contains_limit("all good"));
}

#[test]
fn test_resolve_glm_api_key_prefers_override() {
    let r = resolve_glm_api_key(Some(" sk-abc ".to_string()), Some("env-key".to_string()));
    assert_eq!(r.unwrap(), "sk-abc");
    let r2 = resolve_glm_api_key(Some("   ".to_string()), Some("env-key".to_string()));
    assert_eq!(r2.unwrap(), "env-key");
    let r3 = resolve_glm_api_key(None, None);
    assert!(r3.is_err());
}

#[test]
fn test_resolve_glm_endpoint_joins_and_rejects() {
    let r = resolve_glm_endpoint(None);
    assert_eq!(r.unwrap(), "https://open.bigmodel.cn/api/paas/v4/chat/completions");

    let r2 = resolve_glm_endpoint(Some("https://api.example.com/v1".to_string()));
    assert_eq!(r2.unwrap(), "https://api.example.com/v1/chat/completions");

    let r3 = resolve_glm_endpoint(Some("https://x.test/v4/chat/completions".to_string()));
    assert_eq!(r3.unwrap(), "https://x.test/v4/chat/completions");

    let r4 = resolve_glm_endpoint(Some("ftp://files.example.com".to_string()));
    assert!(r4.is_err());
}

#[test]
fn test_clean_json_strips_fences_and_escapes_controls() {
    let cleaned = clean_json("```json\n{\"a\":\"x\"}\n```");
    assert_eq!(cleaned, "{\"a\":\"x\"}");

    let cleaned2 = clean_json("{\"a\":\"line\nbreak\"}");
    assert_eq!(cleaned2, "{\"a\":\"line\\nbreak\"}");

    let cleaned3 = clean_json("  {\"a\":1}  ");
    assert_eq!(cleaned3, "{\"a\":1}");
}

#[test]
fn test_check_request_quota_limits() {
    assert!(check_request_quota(30, 0, false).is_some());
    assert!(check_request_quota(0, 2, false).is_some());
    assert!(check_request_quota(0, 0, false).is_none());
    assert!(check_request_quota(30, 2, true).is_none());
    match check_request_quota(30, 0, false) {
        Some(e) => assert_eq!(e.code(), "API_KEY_REQUIRED_DAILY_LIMIT"),
        None => panic!("expected a quota decision"),
    }
}

#[test]
fn test_status_for_error_code_mapping() {
    assert_eq!(status_for_error_code("TOO_MANY_REQUESTS"), 429);
    assert_eq!(status_for_error_code("BAD_REQUEST"), 400);
    assert_eq!(status_for_error_code("INVALID_BASE_URL"), 400);
    assert_eq!(status_for_error_code("ANYTHING_ELSE"), 500);
}

#[test]
fn test_api_response_shapes() {
    let ok: ApiResponse<u32> = ApiResponse::success(7);
    assert_eq!(ok.code, "0");
    assert_eq!(ok.msg, "success");
    assert_eq!(ok.data, Some(7));

    let err: ApiResponse<u32> = ApiResponse::error("X".to_string(), "boom".to_string());
    assert_eq!(err.code, "X");
    assert!(err.data.is_none());
    assert_eq!(DbError::InternalError.message(), "DB Error");
}

#[test]
fn test_convert_lite_to_full_fills_defaults() {
    let lite = storygraph::lite::MovieTemplateLite {
        title: None,
        meta: None,
        nodes: vec![(
            "start".to_string(),
            storygraph::lite::StoryNodeLite {
                id: None,
                node_id: None,
                content_text: None,
                ending_key: None,
                characters: None,
                choices: Some(vec![storygraph::lite::ChoiceLite { text: None, next_node_id: None }]),
            },
        )],
        characters: Vec::new(),
        endings: Vec::new(),
    };
    let full = storygraph::lite::convert_lite_to_full(lite, "zh-CN");
    assert_eq!(full.title, "Untitled Project");
    assert_eq!(full.meta.language, "zh-CN");
    assert_eq!(full.project_id.len(), 36);
    let n = &full.nodes[0];
    assert_eq!(n.0, "start");
    assert_eq!(n.1.id, "start");
    assert_eq!(n.1.content, "...");
    assert_eq!(n.1.choices[0].text, "Continue");
    assert_eq!(n.1.choices[0].next_node_id, "END");
}

#[test]
fn test_join_lines_joins_with_line_breaks() {
    let v = vec!["a".to_string(), "b".to_string(), "c".to_string()];
    assert_eq!(storygraph::lite::join_lines(&v), "a\nb\nc");
    let one = vec!["only".to_string()];
    assert_eq!(storygraph::lite::join_lines(&one), "only");
    let none: Vec<String> = Vec::new();
    assert_eq!(storygraph::lite::join_lines(&none), "");
}

#[test]
fn test_simple_hash_is_stable() {
    let a = storygraph::text::simple_hash_u32("abc");
    let b = storygraph::text::simple_hash_u32("abc");
    assert_eq!(a, b);
    assert_ne!(a, storygraph::text::simple_hash_u32("abd"));
}

#[test]
fn test_attach_avatar_to_template_sets_avatar_path() {
    let mut template = edge_template("s", "t");
    template.characters.push((
        "c_1".to_string(),
        storygraph::types::Character {
            id: "c_1".to_string(),
            name: "Alice".to_string(),
            gender: "Female".to_string(),
            age: 20,
            role: "Protagonist".to_string(),
            background: "".to_string(),
            avatar_path: None,
        },
    ));

    storygraph::images::attach_avatar_to_template(
        &mut template,
        "Alice",
        "data:image/png;base64,AAA".to_string(),
    );

    let c = &template.characters[0].1;
    assert_eq!(c.avatar_path.as_deref(), Some("data:image/png;base64,AAA"));
}

#[test]
fn test_attach_avatar_to_template_does_not_overwrite_existing() {
    let mut template = edge_template("s", "t");
    template.characters.push((
        "c_1".to_string(),
        storygraph::types::Character {
            id: "c_1".to_string(),
            name: "Alice".to_string(),
            gender: "Female".to_string(),
            age: 20,
            role: "Protagonist".to_string(),
            background: "".to_string(),
            avatar_path: Some("data:image/png;base64,OLD".to_string()),
        },
    ));

    storygraph::images::attach_avatar_to_template(
        &mut template,
        "Alice",
        "data:image/png;base64,NEW".to_string(),
    );

    let c = &template.characters[0].1;
    assert_eq!(c.avatar_path.as_deref(), Some("data:image/png;base64,OLD"));
}
