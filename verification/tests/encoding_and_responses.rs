use wenku8::encoding::{decode_body, encode_search_query, percent_encode};
use wenku8::response::{check_page, validate_response_status, FetchError};

#[test]
fn percent_encode_bytes() {
    assert_eq!(percent_encode(&[]), "");
    assert_eq!(percent_encode(&[0x00, 0x0f, 0xa5, 0xff]), "%00%0F%A5%FF");
}

#[test]
fn search_query_is_gbk_percent_encoded() {
    assert_eq!(encode_search_query("ab"), "%61%62");
    assert_eq!(encode_search_query("轻小说"), "%C7%E1%D0%A1%CB%B5");
    assert_eq!(encode_search_query("轻小说搜索"), "%C7%E1%D0%A1%CB%B5%CB%D1%CB%F7");
    assert_eq!(encode_search_query(""), "");
}

#[test]
fn decode_body_cases() {
    assert_eq!(decode_body(&[]), Err(FetchError::EmptyResponse));
    assert_eq!(decode_body("hello 你好".as_bytes()), Ok("hello 你好".to_string()));
    // GBK bytes of 轻小 are not valid UTF-8 and decode as GBK.
    assert_eq!(decode_body(&[0xC7, 0xE1, 0xD0, 0xA1]), Ok("轻小".to_string()));
}

#[test]
fn status_success_range() {
    assert_eq!(validate_response_status(200, None, None), Ok(()));
    assert_eq!(validate_response_status(299, None, None), Ok(()));
    assert_eq!(validate_response_status(302, None, None), Err(FetchError::RequestFailed(302)));
    assert_eq!(validate_response_status(199, None, None), Err(FetchError::RequestFailed(199)));
}

#[test]
fn status_errors() {
    assert_eq!(
        validate_response_status(403, Some("Challenge"), None),
        Err(FetchError::CloudflareChallenge)
    );
    assert_eq!(validate_response_status(403, Some("block"), None), Err(FetchError::Forbidden));
    assert_eq!(validate_response_status(403, None, None), Err(FetchError::Forbidden));
    assert_eq!(validate_response_status(401, None, None), Err(FetchError::Unauthorized));
    assert_eq!(validate_response_status(500, None, None), Err(FetchError::ServerError(500)));
    assert_eq!(validate_response_status(503, None, None), Err(FetchError::ServerError(503)));
}

#[test]
fn status_retry_after() {
    assert_eq!(
        validate_response_status(429, None, Some(" 30 ")),
        Err(FetchError::TooManyRequests(Some(30)))
    );
    assert_eq!(
        validate_response_status(429, None, Some("+7")),
        Err(FetchError::TooManyRequests(Some(7)))
    );
    assert_eq!(
        validate_response_status(429, None, Some("abc")),
        Err(FetchError::TooManyRequests(None))
    );
    assert_eq!(
        validate_response_status(429, None, Some("-1")),
        Err(FetchError::TooManyRequests(None))
    );
    assert_eq!(
        validate_response_status(429, None, Some("18446744073709551616")),
        Err(FetchError::TooManyRequests(None))
    );
    assert_eq!(
        validate_response_status(429, None, Some("18446744073709551615")),
        Err(FetchError::TooManyRequests(Some(u64::MAX)))
    );
    assert_eq!(validate_response_status(429, None, None), Err(FetchError::TooManyRequests(None)));
}

#[test]
fn page_checks() {
    assert_eq!(check_page(true, true, "whatever"), Err(FetchError::LoginPage));
    assert_eq!(check_page(false, false, "The Site Is Closed."), Err(FetchError::SiteClosed));
    assert_eq!(check_page(false, false, "本站已经关闭"), Err(FetchError::SiteClosed));
    assert_eq!(check_page(false, false, "Just a moment..."), Err(FetchError::SecurityCheck));
    assert_eq!(check_page(false, false, "Powered by CloudFlare"), Err(FetchError::SecurityCheck));
    assert_eq!(check_page(false, false, "请输入用户名或邮箱"), Err(FetchError::LoginExpired));
    assert_eq!(check_page(false, true, "书架"), Err(FetchError::LoginExpired));
    assert_eq!(check_page(false, false, "轻小说文库"), Ok(()));
}

#[test]
fn fetch_error_messages() {
    assert_eq!(
        FetchError::TooManyRequests(Some(30)).message(),
        "Wenku8 返回 HTTP 429：请求过于频繁，请在 30 秒后重试"
    );
    assert_eq!(
        FetchError::TooManyRequests(None).message(),
        "Wenku8 返回 HTTP 429：请求过于频繁，请稍后再试"
    );
    assert_eq!(
        FetchError::ServerError(503).message(),
        "Wenku8 服务器暂时不可用（HTTP 503），请稍后重试"
    );
    assert_eq!(FetchError::RequestFailed(302).message(), "Wenku8 请求失败（HTTP 302）");
    assert_eq!(FetchError::RequestFailed(-7).message(), "Wenku8 请求失败（HTTP -7）");
    assert_eq!(
        FetchError::RequestFailed(i32::MIN).message(),
        "Wenku8 请求失败（HTTP -2147483648）"
    );
    assert_eq!(FetchError::EmptyResponse.message(), "Wenku8 返回了空响应，请稍后重试");
    assert_eq!(
        FetchError::Unauthorized.message(),
        "Wenku8 返回 HTTP 401：登录会话无效，请重新登录"
    );
    assert_eq!(
        FetchError::LoginExpired.message(),
        "Wenku8 登录已失效：请在插件设置中重新登录当前站点"
    );
}
