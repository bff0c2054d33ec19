use wenku8::resolve::resolve_url;
use wenku8::site::{
    auth_cookie_storage_key, base_url, book_url, clear_auth_cookie_keys, cookie_header,
    cover_url, handle_web_login, is_selected_site_url, reader_url, request_cookie,
    selected_site, LoginError,
};
use wenku8::parse::extract_book_key;

fn pairs(items: &[(&str, &str)]) -> Vec<(String, String)> {
    items.iter().map(|(n, v)| (n.to_string(), v.to_string())).collect()
}

#[test]
fn selected_site_defaults_to_net() {
    assert_eq!(selected_site(None), "wenku8.net");
    assert_eq!(selected_site(Some("wenku8.cc")), "wenku8.cc");
    assert_eq!(selected_site(Some("wenku8.net")), "wenku8.net");
    assert_eq!(selected_site(Some("example.org")), "wenku8.net");
    assert_eq!(selected_site(Some(" wenku8.cc")), "wenku8.net");
}

#[test]
fn base_url_uses_www_host() {
    assert_eq!(base_url("wenku8.net"), "https://www.wenku8.net");
    assert_eq!(base_url("wenku8.cc"), "https://www.wenku8.cc");
}

#[test]
fn storage_keys_per_site() {
    assert_eq!(auth_cookie_storage_key("wenku8.cc"), "wenku8_auth_cookies_wenku8.cc");
    let (k, v) = clear_auth_cookie_keys("wenku8_auth_cookies_wenku8.net");
    assert_eq!(k, "wenku8_auth_cookies_wenku8.net.keys");
    assert_eq!(v, "wenku8_auth_cookies_wenku8.net.values");
}

#[test]
fn cookie_header_keeps_session_cookies() {
    let cookies = pairs(&[
        ("jieqiUserInfo", " abc "),
        ("other", "x"),
        (" jieqiVisitInfo ", "v"),
        ("jieqiEmpty", "   "),
        ("cf_clearance", "secret"),
    ]);
    assert_eq!(
        cookie_header(&cookies).as_deref(),
        Some("jieqiUserInfo=abc; jieqiVisitInfo=v")
    );
}

#[test]
fn cookie_header_none_without_session_cookie() {
    assert_eq!(cookie_header(&Vec::new()), None);
    assert_eq!(cookie_header(&pairs(&[("other", "x"), ("jieqiA", " ")])), None);
}

#[test]
fn selected_site_url_matching() {
    assert!(is_selected_site_url("wenku8.net", "https://www.wenku8.net/book/1.htm"));
    assert!(is_selected_site_url("wenku8.net", "https://wenku8.net"));
    assert!(is_selected_site_url("wenku8.net", "https://www.wenku8.net"));
    assert!(!is_selected_site_url("wenku8.net", "https://www.wenku8.netx/"));
    assert!(!is_selected_site_url("wenku8.net", "http://www.wenku8.net/"));
    assert!(!is_selected_site_url("wenku8.net", "https://www.wenku8.cc/book/1.htm"));
    assert!(!is_selected_site_url("wenku8.net", "https://evil.example/https://www.wenku8.net/"));
}

#[test]
fn cookies_only_sent_to_selected_site() {
    let cookies = pairs(&[("jieqiUserInfo", "u")]);
    assert_eq!(
        request_cookie("wenku8.net", "https://www.wenku8.net/so.php", &cookies).as_deref(),
        Some("jieqiUserInfo=u")
    );
    assert_eq!(request_cookie("wenku8.net", "https://www.wenku8.cc/so.php", &cookies), None);
    assert_eq!(request_cookie("wenku8.cc", "http://www.wenku8.cc/so.php", &cookies), None);
}

#[test]
fn book_and_reader_urls() {
    assert_eq!(book_url("wenku8.net", "1234"), "https://www.wenku8.net/book/1234.htm");
    assert_eq!(book_url("wenku8.cc", "https://x.test/a"), "https://x.test/a");
    assert_eq!(book_url("wenku8.cc", "http://x.test/a"), "http://x.test/a");
    assert_eq!(
        reader_url("wenku8.cc", "1973"),
        "https://www.wenku8.cc/modules/article/reader.php?aid=1973"
    );
}

#[test]
fn book_url_round_trips_to_key() {
    for site in ["wenku8.net", "wenku8.cc"] {
        for key in ["1", "1234", "002"] {
            assert_eq!(extract_book_key(&book_url(site, key)).as_deref(), Some(key));
        }
    }
}

#[test]
fn cover_url_directory() {
    assert_eq!(cover_url("123"), "https://img.wenku8.com/image/0/123/123s.jpg");
    assert_eq!(cover_url("1234"), "https://img.wenku8.com/image/1/1234/1234s.jpg");
    assert_eq!(cover_url("2975"), "https://img.wenku8.com/image/2/2975/2975s.jpg");
    assert_eq!(cover_url("ab"), "https://img.wenku8.com/image/0/ab/abs.jpg");
    // Two CJK characters take six bytes and the first one is not ASCII.
    assert_eq!(cover_url("中文"), "https://img.wenku8.com/image/0/中文/中文s.jpg");
    // One CJK character is three bytes: at most three bytes gives `0`.
    assert_eq!(cover_url("中"), "https://img.wenku8.com/image/0/中/中s.jpg");
}

#[test]
fn web_login_outcomes() {
    let ok = handle_web_login("wenku8_login_net", Some("abc")).unwrap();
    assert_eq!(ok.storage_key, "wenku8_auth_cookies_wenku8.net");
    assert!(ok.logged_in);
    let cc = handle_web_login("wenku8_login_cc", Some("  ")).unwrap();
    assert_eq!(cc.storage_key, "wenku8_auth_cookies_wenku8.cc");
    assert!(!cc.logged_in);
    let none = handle_web_login("wenku8_login_cc", None).unwrap();
    assert!(!none.logged_in);
    assert_eq!(handle_web_login("other", Some("x")).unwrap_err(), LoginError::UnsupportedKey);
}

#[test]
fn resolve_url_dead_links() {
    for href in ["", "   ", "#top", "javascript:void(0)", "data:image/png;base64,AA"] {
        assert_eq!(resolve_url("wenku8.net", href, "https://www.wenku8.net/a/b.htm"), None);
    }
}

#[test]
fn resolve_url_absolute_and_rooted() {
    let base = "https://www.wenku8.net/novel/1/1234/index.htm";
    assert_eq!(
        resolve_url("wenku8.net", " https://img.test/x.jpg ", base).as_deref(),
        Some("https://img.test/x.jpg")
    );
    assert_eq!(
        resolve_url("wenku8.net", "http://a.test/b", base).as_deref(),
        Some("http://a.test/b")
    );
    assert_eq!(
        resolve_url("wenku8.net", "//img.wenku8.com/a.jpg", base).as_deref(),
        Some("https://img.wenku8.com/a.jpg")
    );
    assert_eq!(
        resolve_url("wenku8.cc", "/book/1.htm", base).as_deref(),
        Some("https://www.wenku8.cc/book/1.htm")
    );
}

#[test]
fn resolve_url_relative() {
    assert_eq!(
        resolve_url("wenku8.net", "2.htm", "https://www.wenku8.net/novel/1/1234/index.htm?x=/y#f/z")
            .as_deref(),
        Some("https://www.wenku8.net/novel/1/1234/2.htm")
    );
    assert_eq!(
        resolve_url("wenku8.net", "2.htm", "https://www.wenku8.net").as_deref(),
        Some("https://www.wenku8.net/2.htm")
    );
    assert_eq!(
        resolve_url("wenku8.net", "2.htm", "dir/page.htm").as_deref(),
        Some("dir/2.htm")
    );
    assert_eq!(resolve_url("wenku8.net", "2.htm", "page").as_deref(), Some("page/2.htm"));
}

#[test]
fn reader_url_round_trips_to_key() {
    for site in ["wenku8.net", "wenku8.cc"] {
        for key in ["7", "1973", "000"] {
            assert_eq!(extract_book_key(&reader_url(site, key)).as_deref(), Some(key));
        }
    }
}

#[test]
fn book_url_round_trips_plain_keys() {
    for key in ["abc", "a-1_b", "书名"] {
        assert_eq!(extract_book_key(&book_url("wenku8.net", key)).as_deref(), Some(key));
    }
}

#[test]
fn login_cookie_is_sent_after_login() {
    let outcome = handle_web_login("wenku8_login_net", Some(" user123 ")).unwrap();
    assert!(outcome.logged_in);
    assert_eq!(outcome.storage_key, auth_cookie_storage_key(&selected_site(Some("wenku8.net"))));
    let stored = pairs(&[("jieqiVisitInfo", "v"), ("jieqiUserInfo", " user123 ")]);
    let header = request_cookie("wenku8.net", "https://www.wenku8.net/book/1.htm", &stored).unwrap();
    assert!(header.split("; ").any(|part| part == "jieqiUserInfo=user123"));
    assert_eq!(
        wenku8::site::LoginError::UnsupportedKey.message("x"),
        "不支持的登录设置：x"
    );
}

#[test]
fn resolved_addresses_are_absolute_and_stable() {
    let base = "https://www.wenku8.net/novel/1/1234/index.htm";
    for href in ["2.htm", "/book/1.htm", "//img.test/a.jpg", " http://a.test/b "] {
        let r = resolve_url("wenku8.net", href, base).unwrap();
        assert!(r.starts_with("https://") || r.starts_with("http://"));
        assert_eq!(resolve_url("wenku8.cc", &r, "elsewhere/page").as_deref(), Some(r.as_str()));
    }
}
