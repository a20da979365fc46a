//! Plain response and quota-decision values handed to the transport layer.

use vstd::prelude::*;

verus! {

/// The uniform response envelope handed back to callers.
pub struct ApiResponse<T> {
    pub code: String,
    pub msg: String,
    pub data: Option<T>,
}

impl<T> ApiResponse<T> {
    /// A success envelope carrying data.
    pub fn success(data: T) -> (r: ApiResponse<T>)
        ensures
            r.code@ == "0"@,
            r.msg@ == "success"@,
            r.data == Some(data),
    {
        ApiResponse { code: "0".to_owned(), msg: "success".to_owned(), data: Some(data) }
    }

    /// An error envelope without data.
    pub fn error(code: String, msg: String) -> (r: ApiResponse<T>)
        ensures
            r.code == code,
            r.msg == msg,
            r.data is None,
    {
        ApiResponse { code, msg, data: None }
    }

    /// An error envelope that still carries data.
    pub fn error_with_data(code: String, msg: String, data: T) -> (r: ApiResponse<T>)
        ensures
            r.code == code,
            r.msg == msg,
            r.data == Some(data),
    {
        ApiResponse { code, msg, data: Some(data) }
    }
}

/// The failures the persistence and quota layer reports.
pub enum DbError {
    DailyLimitExceeded,
    TooManyRequests,
    InternalError,
}

impl DbError {
    /// The stable machine-readable code of this failure.
    pub fn code(&self) -> (r: &'static str)
        ensures
            match self {
                DbError::DailyLimitExceeded => r@ == "API_KEY_REQUIRED_DAILY_LIMIT"@,
                DbError::TooManyRequests => r@ == "API_KEY_REQUIRED"@,
                DbError::InternalError => r@ == "INTERNAL_ERROR"@,
            },
    {
        match self {
            DbError::DailyLimitExceeded => "API_KEY_REQUIRED_DAILY_LIMIT",
            DbError::TooManyRequests => "API_KEY_REQUIRED",
            DbError::InternalError => "INTERNAL_ERROR",
        }
    }

    /// The human-readable message of this failure.
    pub fn message(&self) -> (r: &'static str)
        ensures
            match self {
                DbError::DailyLimitExceeded => r@ == "今日免费额度已用完 (30次/天)，请填写 API Key 继续使用"@,
                DbError::TooManyRequests => r@ == "当前并发较高，请填写 API Key 后重试"@,
                DbError::InternalError => r@ == "DB Error"@,
            },
    {
        match self {
            DbError::DailyLimitExceeded => "今日免费额度已用完 (30次/天)，请填写 API Key 继续使用",
            DbError::TooManyRequests => "当前并发较高，请填写 API Key 后重试",
            DbError::InternalError => "DB Error",
        }
    }
}

/// The quota decision the request ledger makes before a generation call:
/// thirty requests per day and two per five minutes for callers without a
/// key of their own; callers with a key are never limited.
pub fn check_request_quota(daily_count: i64, recent_count: i64, using_override_key: bool) -> (r:
    Option<DbError>)
    ensures
        using_override_key ==> r is None,
        !using_override_key && daily_count >= 30 ==> r == Some(DbError::DailyLimitExceeded),
        !using_override_key && daily_count < 30 && recent_count >= 2 ==> r == Some(
            DbError::TooManyRequests,
        ),
        !using_override_key && daily_count < 30 && recent_count < 2 ==> r is None,
{
    if daily_count >= 30 && !using_override_key {
        Some(DbError::DailyLimitExceeded)
    } else if recent_count >= 2 && !using_override_key {
        Some(DbError::TooManyRequests)
    } else {
        None
    }
}

/// The HTTP status for an error code: too-many-requests for rate limits,
/// bad-request for malformed input and invalid base URLs, and an internal
/// error otherwise.
pub fn status_for_error_code(code: &str) -> (r: u16)
    ensures
        code@ == "TOO_MANY_REQUESTS"@ ==> r == 429,
        (code@ == "BAD_REQUEST"@ || code@ == "INVALID_BASE_URL"@) ==> r == 400,
        (code@ != "TOO_MANY_REQUESTS"@ && code@ != "BAD_REQUEST"@ && code@ != "INVALID_BASE_URL"@)
            ==> r == 500,
{
    proof {
        reveal_strlit("TOO_MANY_REQUESTS");
        reveal_strlit("BAD_REQUEST");
        reveal_strlit("INVALID_BASE_URL");
        assert("TOO_MANY_REQUESTS"@.len() == 17);
        assert("BAD_REQUEST"@.len() == 11);
        assert("INVALID_BASE_URL"@.len() == 16);
        assert("TOO_MANY_REQUESTS"@ != "BAD_REQUEST"@);
        assert("TOO_MANY_REQUESTS"@ != "INVALID_BASE_URL"@);
        assert("BAD_REQUEST"@ != "INVALID_BASE_URL"@);
    }
    if crate::text::str_eq(code, "TOO_MANY_REQUESTS") {
        429
    } else if crate::text::str_eq(code, "BAD_REQUEST") || crate::text::str_eq(
        code,
        "INVALID_BASE_URL",
    ) {
        400
    } else {
        500
    }
}

/// Whether a wire-format key carries technical payload that content
/// filtering must leave alone.
pub fn should_skip_key(key: &str) -> (r: bool)
    ensures
        r == (key@ == "apiKey"@ || key@ == "baseUrl"@ || key@ == "model"@ || key@ == "size"@
            || key@ == "backgroundImageBase64"@ || key@ == "avatarPath"@ || key@ == "avatar"@
            || key@ == "image"@),
{
    crate::text::str_eq(key, "apiKey") || crate::text::str_eq(key, "baseUrl")
        || crate::text::str_eq(key, "model") || crate::text::str_eq(key, "size")
        || crate::text::str_eq(key, "backgroundImageBase64") || crate::text::str_eq(
        key,
        "avatarPath",
    ) || crate::text::str_eq(key, "avatar") || crate::text::str_eq(key, "image")
}

} // verus!
