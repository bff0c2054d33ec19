//! Checks on HTTP responses and on the pages they carry.

use vstd::prelude::*;

use crate::text::{lemma_parse_decimal, chars_of, decimal, decimal_of, framed, owned, signed_decimal, signed_decimal_of, contains, contains_str, lower, lowercase, parse_u64, parse_unsigned, trim, trimmed_str};

verus! {

/// Why a page could not be used.
#[derive(Debug, Clone, Copy, PartialEq, Eq)]
pub enum FetchError {
    /// HTTP 403 with a Cloudflare challenge header.
    CloudflareChallenge,
    /// HTTP 403 otherwise: the address or client is refused.
    Forbidden,
    /// HTTP 401: the login session is invalid.
    Unauthorized,
    /// HTTP 429, with the `Retry-After` seconds when they parse.
    TooManyRequests(Option<u64>),
    /// HTTP 500 or above.
    ServerError(i32),
    /// Any other status outside 200..300.
    RequestFailed(i32),
    /// A response without a body.
    EmptyResponse,
    /// The page is the login form.
    LoginPage,
    /// The site reports that it has closed.
    SiteClosed,
    /// The page is a browser security check.
    SecurityCheck,
    /// The page asks to log in again.
    LoginExpired,
}

/// The text shown to the user for a failed fetch.
pub open spec fn fetch_message(e: FetchError) -> Seq<char> {
    match e {
        FetchError::CloudflareChallenge => "Wenku8 触发了 Cloudflare 人机验证：请先用浏览器访问当前站点，或切换网络后重试"@,
        FetchError::Forbidden => "Wenku8 返回 HTTP 403：当前 IP 或客户端被拒绝，请关闭代理或切换 Wi-Fi/蜂窝网络后重试"@,
        FetchError::Unauthorized => "Wenku8 返回 HTTP 401：登录会话无效，请重新登录"@,
        FetchError::TooManyRequests(Some(seconds)) => "Wenku8 返回 HTTP 429：请求过于频繁，请在 "@
            + decimal(seconds as nat) + " 秒后重试"@,
        FetchError::TooManyRequests(None) => "Wenku8 返回 HTTP 429：请求过于频繁，请稍后再试"@,
        FetchError::ServerError(status) => "Wenku8 服务器暂时不可用（HTTP "@ + signed_decimal(
            status as int,
        ) + "），请稍后重试"@,
        FetchError::RequestFailed(status) => "Wenku8 请求失败（HTTP "@ + signed_decimal(
            status as int,
        ) + "）"@,
        FetchError::EmptyResponse => "Wenku8 返回了空响应，请稍后重试"@,
        FetchError::LoginPage => "Wenku8 返回登录页：请在插件设置中重新登录。若登录浏览器从 .cc 跳转到了 .net，请选择 .net 并登录该站点"@,
        FetchError::SiteClosed => "Wenku8 站点已关闭：当前域名返回了站点关闭页面"@,
        FetchError::SecurityCheck => "Wenku8 触发了 Cloudflare 安全验证：请在浏览器中确认站点可访问，或更换网络后重试"@,
        FetchError::LoginExpired => "Wenku8 登录已失效：请在插件设置中重新登录当前站点"@,
    }
}

impl FetchError {
    /// The text shown to the user for this failure.
    pub fn message(&self) -> (m: String)
        ensures
            m@ == fetch_message(*self),
    {
        match self {
            FetchError::CloudflareChallenge => owned(
                "Wenku8 触发了 Cloudflare 人机验证：请先用浏览器访问当前站点，或切换网络后重试",
            ),
            FetchError::Forbidden => owned(
                "Wenku8 返回 HTTP 403：当前 IP 或客户端被拒绝，请关闭代理或切换 Wi-Fi/蜂窝网络后重试",
            ),
            FetchError::Unauthorized => owned("Wenku8 返回 HTTP 401：登录会话无效，请重新登录"),
            FetchError::TooManyRequests(Some(seconds)) => framed(
                "Wenku8 返回 HTTP 429：请求过于频繁，请在 ",
                &decimal_of(*seconds),
                " 秒后重试",
            ),
            FetchError::TooManyRequests(None) => owned(
                "Wenku8 返回 HTTP 429：请求过于频繁，请稍后再试",
            ),
            FetchError::ServerError(status) => framed(
                "Wenku8 服务器暂时不可用（HTTP ",
                &signed_decimal_of(*status),
                "），请稍后重试",
            ),
            FetchError::RequestFailed(status) => framed(
                "Wenku8 请求失败（HTTP ",
                &signed_decimal_of(*status),
                "）",
            ),
            FetchError::EmptyResponse => owned("Wenku8 返回了空响应，请稍后重试"),
            FetchError::LoginPage => owned(
                "Wenku8 返回登录页：请在插件设置中重新登录。若登录浏览器从 .cc 跳转到了 .net，请选择 .net 并登录该站点",
            ),
            FetchError::SiteClosed => owned("Wenku8 站点已关闭：当前域名返回了站点关闭页面"),
            FetchError::SecurityCheck => owned(
                "Wenku8 触发了 Cloudflare 安全验证：请在浏览器中确认站点可访问，或更换网络后重试",
            ),
            FetchError::LoginExpired => owned("Wenku8 登录已失效：请在插件设置中重新登录当前站点"),
        }
    }
}

/// What a response status (with its `cf-mitigated` and `Retry-After` headers) means.
pub open spec fn status_outcome(
    status: i32,
    cf_mitigated: Option<Seq<char>>,
    retry_after: Option<Seq<char>>,
) -> Result<(), FetchError> {
    if status == 403 {
        if cf_mitigated matches Some(v) && contains(lower(v), "challenge"@) {
            Err(FetchError::CloudflareChallenge)
        } else {
            Err(FetchError::Forbidden)
        }
    } else if status == 401 {
        Err(FetchError::Unauthorized)
    } else if status == 429 {
        Err(
            FetchError::TooManyRequests(
                match retry_after {
                    Some(v) => parse_u64(trim(v)),
                    None => None,
                },
            ),
        )
    } else if status >= 500 {
        Err(FetchError::ServerError(status))
    } else if 200 <= status < 300 {
        Ok(())
    } else {
        Err(FetchError::RequestFailed(status))
    }
}

/// A response is accepted exactly when its status is 2xx, whatever its
/// headers.
pub proof fn lemma_status_accepted_iff_success(
    status: i32,
    cf_mitigated: Option<Seq<char>>,
    retry_after: Option<Seq<char>>,
)
    ensures
        status_outcome(status, cf_mitigated, retry_after) is Ok <==> 200 <= status < 300,
{
}

/// A 429 response reports the `Retry-After` seconds when the header holds,
/// up to surrounding white space, the decimal digits of a `u64`.
pub proof fn lemma_retry_after_seconds(cf_mitigated: Option<Seq<char>>, header: Seq<char>, n: u64)
    requires
        trim(header) == decimal(n as nat),
    ensures
        status_outcome(429, cf_mitigated, Some(header)) == Err::<(), FetchError>(
            FetchError::TooManyRequests(Some(n)),
        ),
{
    lemma_parse_decimal(n);
}

/// Accepts a 2xx status and classifies every other one.
pub fn validate_response_status(
    status: i32,
    cf_mitigated: Option<&str>,
    retry_after: Option<&str>,
) -> (r: Result<(), FetchError>)
    ensures
        r == status_outcome(status, cf_mitigated.deep_view(), retry_after.deep_view()),
{
    if status == 403 {
        let challenge = match cf_mitigated {
            Some(v) => {
                let cs = chars_of(v);
                let low = lowercase(&cs);
                contains_str(&low, "challenge")
            },
            None => false,
        };
        if challenge {
            return Err(FetchError::CloudflareChallenge);
        }
        return Err(FetchError::Forbidden);
    }
    if status == 401 {
        Err(FetchError::Unauthorized)
    } else if status == 429 {
        let seconds = match retry_after {
            Some(v) => {
                let t = trimmed_str(v);
                parse_unsigned(&t)
            },
            None => None,
        };
        Err(FetchError::TooManyRequests(seconds))
    } else if status >= 500 {
        Err(FetchError::ServerError(status))
    } else if 200 <= status && status < 300 {
        Ok(())
    } else {
        Err(FetchError::RequestFailed(status))
    }
}

/// The page text says that the site has closed.
pub open spec fn reports_closed(page_text: Seq<char>) -> bool {
    ||| contains(page_text, "本站正式关闭"@)
    ||| contains(page_text, "本站已经关闭"@)
    ||| contains(page_text, "site is closed"@)
}

/// The page text is a browser security check.
pub open spec fn reports_security_check(page_text: Seq<char>) -> bool {
    ||| contains(page_text, "just a moment"@)
    ||| contains(page_text, "checking your browser"@)
    ||| contains(page_text, "sorry, you have been blocked"@)
    ||| contains(page_text, "请完成安全验证"@)
    ||| contains(page_text, "cloudflare"@)
}

/// What a fetched page means, given whether it holds a password login form,
/// whether it holds the login form, and the text of its body.
pub open spec fn page_outcome(
    has_password_form: bool,
    has_login_form: bool,
    body_text: Seq<char>,
) -> Result<(), FetchError> {
    if has_password_form {
        Err(FetchError::LoginPage)
    } else if reports_closed(lower(body_text)) {
        Err(FetchError::SiteClosed)
    } else if reports_security_check(lower(body_text)) {
        Err(FetchError::SecurityCheck)
    } else if has_login_form || contains(body_text, "用户名或邮箱"@) {
        Err(FetchError::LoginExpired)
    } else {
        Ok(())
    }
}

/// Accepts a page unless it is a login form, a closed-site notice, a security
/// check or a request to log in again.
pub fn check_page(has_password_form: bool, has_login_form: bool, body_text: &str) -> (r: Result<
    (),
    FetchError,
>)
    ensures
        r == page_outcome(has_password_form, has_login_form, body_text@),
{
    if has_password_form {
        return Err(FetchError::LoginPage);
    }
    let body = chars_of(body_text);
    let page = lowercase(&body);
    if contains_str(&page, "本站正式关闭") || contains_str(&page, "本站已经关闭") || contains_str(
        &page,
        "site is closed",
    ) {
        return Err(FetchError::SiteClosed);
    }
    if contains_str(&page, "just a moment") || contains_str(&page, "checking your browser")
        || contains_str(&page, "sorry, you have been blocked") || contains_str(
        &page,
        "请完成安全验证",
    ) || contains_str(&page, "cloudflare") {
        return Err(FetchError::SecurityCheck);
    }
    if has_login_form || contains_str(&body, "用户名或邮箱") {
        return Err(FetchError::LoginExpired);
    }
    Ok(())
}

} // verus!
