//! Classification of content-generator error responses, and endpoint
//! resolution for a caller-supplied base URL.

use vstd::prelude::*;

use crate::text::{
    chars_contain, chars_to_lower, contains_seq, lower_of, str_chars, str_eq, str_trim, trim_of,
};

verus! {

/// The error code carried by a generator error body, when the body is a
/// JSON object with a string or integer code under `error.code`.
pub uninterp spec fn glm_error_code_of(s: Seq<char>) -> Option<Seq<char>>;

/// Relies on `serde_json::from_str` and `Value::get`/`as_str`/`as_i64`/
/// `as_u64`: extracts the error code from a generator error body. The
/// result depends on the text alone.
#[verifier::external_body]
pub fn extract_glm_error_code(text: &str) -> (r: Option<String>)
    ensures
        match r {
            Some(c) => glm_error_code_of(text@) == Some(c@),
            None => glm_error_code_of(text@) is None,
        },
{
    let v: serde_json::Value = serde_json::from_str(text).ok()?;
    let code = v.get("error")?.get("code")?;
    if let Some(s) = code.as_str() {
        return Some(s.to_string());
    }
    if let Some(n) = code.as_i64() {
        return Some(n.to_string());
    }
    code.as_u64().map(|n| n.to_string())
}

/// The rate-limit error code the generator returns when a caller should
/// supply an API key of its own.
pub fn glm_rate_limit_code() -> (r: &'static str)
    ensures
        r@ == "1305"@,
{
    "1305"
}

/// The friendly message shown when the shared quota is exhausted.
pub fn glm_limit_friendly_message() -> (r: &'static str)
    ensures
        r@ == "GLM 已达最大调用频率, 请填写自己的 API Key 并再次尝试"@,
{
    "GLM 已达最大调用频率, 请填写自己的 API Key 并再次尝试"
}

/// Whether the text mentions a limit, case-insensitively.
pub fn contains_limit(text: &str) -> (r: bool)
    ensures
        r == contains_seq(lower_of(text@), "limit"@),
{
    let lv = chars_to_lower(&str_chars(text));
    let pat = str_chars("limit");
    chars_contain(&lv, &pat)
}

/// Whether the text is a generator error body carrying the rate-limit
/// error code.
pub fn is_rate_limit_error(text: &str) -> (r: bool)
    ensures
        r == (glm_error_code_of(text@) == Some("1305"@)),
{
    match extract_glm_error_code(text) {
        Some(c) => str_eq(c.as_str(), "1305"),
        None => false,
    }
}

/// Resolve the API key to use: a nonblank override wins, else the key
/// from the environment, else an error.
pub fn resolve_glm_api_key(override_key: Option<String>, env_key: Option<String>) -> (r: Result<
    String,
    String,
>)
    ensures
        match override_key {
            Some(k) if trim_of(k@).len() > 0 => r matches Ok(v) && v@ == trim_of(k@),
            _ => match env_key {
                Some(e) => r matches Ok(v) && v@ == e@,
                None => r matches Err(m) && m@ == "Missing GLM_API_KEY"@,
            },
        },
{
    let from_req = match &override_key {
        Some(k) => str_trim(k.as_str()),
        None => String::new(),
    };
    if !from_req.as_str().is_empty() {
        proof {
            assert(trim_of(Seq::<char>::empty()) =~= Seq::<char>::empty());
        }
        return Ok(from_req);
    }
    proof {
        assert(trim_of(Seq::<char>::empty()) =~= Seq::<char>::empty());
    }
    match env_key {
        Some(e) => Ok(e),
        None => Err("Missing GLM_API_KEY".to_owned()),
    }
}

/// The normalized rendering of an absolute http or https URL, when the
/// text parses as one.
pub uninterp spec fn parsed_http_url(s: Seq<char>) -> Option<Seq<char>>;

/// Relies on `url::Url::parse`, `Url::scheme` and `Url` display: parses
/// an absolute URL, accepts only the http and https schemes, and renders
/// it back. The result depends on the text alone.
#[verifier::external_body]
fn parse_http_url(raw: &str) -> (r: Option<String>)
    ensures
        match r {
            Some(u) => parsed_http_url(raw@) == Some(u@),
            None => parsed_http_url(raw@) is None,
        },
{
    let u = url::Url::parse(raw).ok()?;
    let scheme = u.scheme();
    if scheme != "http" && scheme != "https" {
        return None;
    }
    Some(u.to_string())
}

/// The normalized rendering of `rel` joined onto the absolute http or
/// https URL `base`, when both steps succeed.
pub uninterp spec fn joined_http_url(base: Seq<char>, rel: Seq<char>) -> Option<Seq<char>>;

/// Relies on `url::Url::parse`, `Url::scheme`, `Url::join` and `Url`
/// display. The result depends on the two texts alone.
#[verifier::external_body]
fn parse_http_url_join(base: &str, rel: &str) -> (r: Option<String>)
    ensures
        match r {
            Some(u) => joined_http_url(base@, rel@) == Some(u@),
            None => joined_http_url(base@, rel@) is None,
        },
{
    let b = url::Url::parse(base).ok()?;
    let scheme = b.scheme();
    if scheme != "http" && scheme != "https" {
        return None;
    }
    Some(b.join(rel).ok()?.to_string())
}

/// The trimmed base URL with a trailing slash appended when missing.
pub open spec fn with_slash(s: Seq<char>) -> Seq<char> {
    if s.len() > 0 && s[s.len() - 1] == '/' {
        s
    } else {
        s + "/"@
    }
}

/// Resolve the chat endpoint to call: the default when no base URL is
/// given; a full endpoint is parsed and normalized; anything else is
/// treated as a base to join the chat path onto. An unparsable or
/// non-http URL is rejected.
pub fn resolve_glm_endpoint(base_url: Option<String>) -> (r: Result<String, String>)
    ensures
        ({
            let raw = match base_url {
                Some(b) => trim_of(b@),
                None => Seq::<char>::empty(),
            };
            if raw.len() == 0 {
                r matches Ok(u) && u@ == "https://open.bigmodel.cn/api/paas/v4/chat/completions"@
            } else if contains_seq(raw, "chat/completions"@) {
                match parsed_http_url(raw) {
                    Some(u) => r matches Ok(v) && v@ == u,
                    None => r matches Err(m) && m@ == "Invalid baseUrl"@,
                }
            } else {
                match joined_http_url(with_slash(raw), "chat/completions"@) {
                    Some(u) => r matches Ok(v) && v@ == u,
                    None => r matches Err(m) && m@ == "Invalid baseUrl"@,
                }
            }
        }),
{
    let raw = match &base_url {
        Some(b) => str_trim(b.as_str()),
        None => String::new(),
    };
    proof {
        assert(trim_of(Seq::<char>::empty()) =~= Seq::<char>::empty());
    }
    if raw.as_str().is_empty() {
        return Ok("https://open.bigmodel.cn/api/paas/v4/chat/completions".to_owned());
    }
    let rawv = str_chars(raw.as_str());
    let pat = str_chars("chat/completions");
    if chars_contain(&rawv, &pat) {
        match parse_http_url(raw.as_str()) {
            Some(u) => Ok(u),
            None => Err("Invalid baseUrl".to_owned()),
        }
    } else {
        let with = if rawv.len() > 0 && {
            let last = rawv[rawv.len() - 1];
            last == '/'
        } {
            raw
        } else {
            crate::text::str_concat(raw.as_str(), "/")
        };
        proof {
            reveal_strlit("/");
            assert(with@ == with_slash(rawv@));
        }
        match parse_http_url_join(with.as_str(), "chat/completions") {
            Some(u) => Ok(u),
            None => Err("Invalid baseUrl".to_owned()),
        }
    }
}

} // verus!
