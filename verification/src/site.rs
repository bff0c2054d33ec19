//! The selected site, the URLs built on it, and the login cookies that belong
//! to it.

use vstd::prelude::*;
use vstd::utf8::{encode_utf8, is_ascii_chars, is_ascii_chars_encode_utf8};

use crate::text::{
    begins_with, chars_eq, chars_of, concat, is_blank, join_str, lemma_starts_with_extend,
    lemma_starts_with_prefix, push_all, starts_with, trim_end, trim_start,
    starts_with_str, string_of, trim, trimmed, trimmed_str, utf8_len_at_most,
};

verus! {

/// The site used when the setting holds no known site.
pub open spec fn default_site() -> Seq<char> {
    "wenku8.net"@
}

/// The site that the stored setting selects: one of the two known domains, or
/// the default.
pub open spec fn site_from_setting(setting: Option<Seq<char>>) -> Seq<char> {
    match setting {
        Some(v) => if v == "wenku8.net"@ || v == "wenku8.cc"@ {
            v
        } else {
            default_site()
        },
        None => default_site(),
    }
}

/// The selected site, from the value stored under the site setting.
pub fn selected_site(setting: Option<&str>) -> (site: String)
    ensures
        site@ == site_from_setting(setting.deep_view()),
{
    if let Some(v) = setting {
        let vc = chars_of(v);
        let net = chars_of("wenku8.net");
        let cc = chars_of("wenku8.cc");
        if chars_eq(&vc, &net) || chars_eq(&vc, &cc) {
            return string_of(&vc);
        }
    }
    string_of(&chars_of("wenku8.net"))
}

/// `https://www.<site>`.
pub open spec fn base_url_of(site: Seq<char>) -> Seq<char> {
    "https://www."@ + site
}

/// The address that pages and the login flow of `site` live under.
pub fn base_url(site: &str) -> (url: String)
    ensures
        url@ == base_url_of(site@),
{
    let sc = chars_of(site);
    string_of(&join_str("https://www.", &sc))
}

pub(crate) fn base_url_chars(site: &[char]) -> (url: Vec<char>)
    ensures
        url@ == base_url_of(site@),
{
    join_str("https://www.", site)
}

/// The key under which the login cookies of `site` are stored.
pub open spec fn storage_key_of(site: Seq<char>) -> Seq<char> {
    "wenku8_auth_cookies_"@ + site
}

pub fn auth_cookie_storage_key(site: &str) -> (key: String)
    ensures
        key@ == storage_key_of(site@),
{
    let sc = chars_of(site);
    string_of(&join_str("wenku8_auth_cookies_", &sc))
}

/// The two keys whose values are cleared to forget the cookies stored under
/// `storage_key`.
pub fn clear_auth_cookie_keys(storage_key: &str) -> (keys: (String, String))
    ensures
        keys.0@ == storage_key@ + ".keys"@,
        keys.1@ == storage_key@ + ".values"@,
{
    let kc = chars_of(storage_key);
    let k = chars_of(".keys");
    let v = chars_of(".values");
    (string_of(&concat(&kc, &k)), string_of(&concat(&kc, &v)))
}

/// A stored cookie that is sent: a session cookie of the site (its trimmed
/// name starts with `jieqi`) with a non-blank value.
pub open spec fn cookie_kept(name: Seq<char>, value: Seq<char>) -> bool {
    &&& starts_with(trim(name), "jieqi"@)
    &&& trim(name).len() > 0
    &&& trim(value).len() > 0
}

/// `name=value` for each kept cookie, in order, names and values trimmed.
pub open spec fn cookie_pairs(cookies: Seq<(Seq<char>, Seq<char>)>) -> Seq<Seq<char>>
    decreases cookies.len(),
{
    if cookies.len() == 0 {
        Seq::<Seq<char>>::empty()
    } else {
        let init = cookie_pairs(cookies.drop_last());
        let (name, value) = cookies.last();
        if cookie_kept(name, value) {
            init.push(trim(name) + seq!['='] + trim(value))
        } else {
            init
        }
    }
}

/// The parts joined with `sep` between them.
pub open spec fn join(parts: Seq<Seq<char>>, sep: Seq<char>) -> Seq<char>
    decreases parts.len(),
{
    if parts.len() == 0 {
        Seq::<char>::empty()
    } else if parts.len() == 1 {
        parts[0]
    } else {
        join(parts.drop_last(), sep) + sep + parts.last()
    }
}

/// The `Cookie` header made of the stored cookies, if any is kept.
pub open spec fn cookie_header_of(cookies: Seq<(Seq<char>, Seq<char>)>) -> Option<Seq<char>> {
    let header = join(cookie_pairs(cookies), seq![';', ' ']);
    if header.len() == 0 {
        None
    } else {
        Some(header)
    }
}

proof fn lemma_join_push(parts: Seq<Seq<char>>, sep: Seq<char>, p: Seq<char>)
    requires
        p.len() > 0,
    ensures
        join(parts.push(p), sep) == (if parts.len() == 0 {
            p
        } else {
            join(parts, sep) + sep + p
        }),
        join(parts.push(p), sep).len() > 0,
{
    assert(parts.push(p).drop_last() =~= parts);
}

/// The `Cookie` header for the stored cookies (name/value pairs): the kept
/// ones as `name=value`, joined by `; `; none when no cookie is kept.
pub fn cookie_header(cookies: &Vec<(String, String)>) -> (header: Option<String>)
    ensures
        header.deep_view() == cookie_header_of(cookies.deep_view()),
{
    let ghost cs = cookies.deep_view();
    let mut header: Vec<char> = Vec::new();
    let mut i: usize = 0;
    assert(cs.take(0) =~= Seq::<(Seq<char>, Seq<char>)>::empty());
    while i < cookies.len()
        invariant
            i <= cookies@.len(),
            cs == cookies.deep_view(),
            header@ == join(cookie_pairs(cs.take(i as int)), seq![';', ' ']),
            header@.len() == 0 <==> cookie_pairs(cs.take(i as int)).len() == 0,
        decreases cookies@.len() - i,
    {
        let ghost before = cookie_pairs(cs.take(i as int));
        assert(cs.take(i + 1).drop_last() =~= cs.take(i as int));
        assert(cs.take(i + 1).last() == cs[i as int]);
        assert(cs[i as int] == (cookies@[i as int].0@, cookies@[i as int].1@));
        let name = trimmed_str(cookies[i].0.as_str());
        let value = trimmed_str(cookies[i].1.as_str());
        if starts_with_str(&name, "jieqi") && name.len() > 0 && value.len() > 0 {
            let ghost part = name@ + seq!['='] + value@;
            proof {
                lemma_join_push(before, seq![';', ' '], part);
            }
            if header.len() > 0 {
                header.push(';');
                header.push(' ');
            }
            push_all(&mut header, &name);
            header.push('=');
            push_all(&mut header, &value);
            assert(header@ =~= join(before, seq![';', ' ']) + (if before.len() == 0 {
                Seq::<char>::empty()
            } else {
                seq![';', ' ']
            }) + part);
        }
        i = i + 1;
    }
    assert(cs.take(cookies@.len() as int) =~= cs);
    if header.len() == 0 {
        None
    } else {
        Some(string_of(&header))
    }
}

/// `url` is `origin` itself or a path below it.
pub open spec fn under_origin(url: Seq<char>, origin: Seq<char>) -> bool {
    url == origin || starts_with(url, origin.push('/'))
}

/// `url` lies on `https://<site>` or `https://www.<site>`.
pub open spec fn on_site(site: Seq<char>, url: Seq<char>) -> bool {
    under_origin(url, "https://"@ + site) || under_origin(url, "https://www."@ + site)
}

/// Every selected site is one of the two known domains.
pub proof fn lemma_selected_site_known(setting: Option<Seq<char>>)
    ensures
        site_from_setting(setting) == "wenku8.net"@ || site_from_setting(setting) == "wenku8.cc"@,
{
}

/// Cookies go only to HTTPS addresses: a URL on the selected site starts
/// with `https://`.
pub proof fn lemma_site_urls_are_https(site: Seq<char>, url: Seq<char>)
    requires
        on_site(site, url),
    ensures
        starts_with(url, "https://"@),
{
    let o1 = "https://"@ + site;
    let o2 = "https://www."@ + site;
    if under_origin(url, o1) {
        if url == o1 {
            assert(url.take(("https://"@).len() as int) =~= "https://"@);
        } else {
            assert(o1.push('/') =~= "https://"@ + site.push('/'));
            lemma_starts_with_prefix(url, "https://"@, site.push('/'));
        }
    } else {
        proof_https_www(site, url);
    }
}

proof fn proof_https_www(site: Seq<char>, url: Seq<char>)
    requires
        under_origin(url, "https://www."@ + site),
    ensures
        starts_with(url, "https://"@),
{
    reveal_strlit("https://www.");
    reveal_strlit("https://");
    assert("https://www."@ =~= "https://"@ + "www."@) by {
        reveal_strlit("www.");
    }
    let rest = "www."@ + site;
    assert("https://www."@ + site =~= "https://"@ + rest);
    if url == "https://www."@ + site {
        assert(url.take(("https://"@).len() as int) =~= "https://"@);
    } else {
        assert(("https://www."@ + site).push('/') =~= "https://"@ + rest.push('/'));
        lemma_starts_with_prefix(url, "https://"@, rest.push('/'));
    }
}

/// Only the site's own session cookies are sent: every part of the header
/// starts with `jieqi`.
pub proof fn lemma_cookie_pairs_are_session_cookies(cookies: Seq<(Seq<char>, Seq<char>)>)
    ensures
        forall|k: int|
            0 <= k < cookie_pairs(cookies).len() ==> starts_with(
                #[trigger] cookie_pairs(cookies)[k],
                "jieqi"@,
            ) && cookie_pairs(cookies)[k].len() > 0,
    decreases cookies.len(),
{
    if cookies.len() > 0 {
        lemma_cookie_pairs_are_session_cookies(cookies.drop_last());
        let prev = cookie_pairs(cookies.drop_last());
        let (name, value) = cookies.last();
        if cookie_kept(name, value) {
            let part = trim(name) + seq!['='] + trim(value);
            assert(part =~= trim(name) + (seq!['='] + trim(value)));
            lemma_starts_with_extend(trim(name), seq!['='] + trim(value), "jieqi"@);
            assert forall|k: int| 0 <= k < cookie_pairs(cookies).len() implies starts_with(
                #[trigger] cookie_pairs(cookies)[k],
                "jieqi"@,
            ) && cookie_pairs(cookies)[k].len() > 0 by {
                if k < prev.len() {
                    assert(cookie_pairs(cookies)[k] == prev[k]);
                }
            }
        }
    }
}

proof fn lemma_join_nonempty(parts: Seq<Seq<char>>, sep: Seq<char>)
    requires
        forall|k: int| 0 <= k < parts.len() ==> (#[trigger] parts[k]).len() > 0,
    ensures
        join(parts, sep).len() == 0 <==> parts.len() == 0,
    decreases parts.len(),
{
    if parts.len() > 1 {
        lemma_join_nonempty(parts.drop_last(), sep);
        assert(parts.last() == parts[parts.len() - 1]);
    } else if parts.len() == 1 {
        assert(parts[0].len() > 0);
    }
}

/// A `Cookie` header is sent exactly when some stored cookie is kept.
pub proof fn lemma_cookie_header_iff_kept(cookies: Seq<(Seq<char>, Seq<char>)>)
    ensures
        cookie_header_of(cookies) is Some <==> cookie_pairs(cookies).len() > 0,
{
    lemma_cookie_pairs_are_session_cookies(cookies);
    lemma_join_nonempty(cookie_pairs(cookies), seq![';', ' ']);
}

/// A kept cookie's `name=value` part is among the header's parts.
proof fn lemma_kept_cookie_in_pairs(cookies: Seq<(Seq<char>, Seq<char>)>, i: int)
    requires
        0 <= i < cookies.len(),
        cookie_kept(cookies[i].0, cookies[i].1),
    ensures
        cookie_pairs(cookies).contains(trim(cookies[i].0) + seq!['='] + trim(cookies[i].1)),
    decreases cookies.len(),
{
    let prev = cookie_pairs(cookies.drop_last());
    let part = trim(cookies[i].0) + seq!['='] + trim(cookies[i].1);
    if i == cookies.len() - 1 {
        let pairs = cookie_pairs(cookies);
        assert(pairs[pairs.len() - 1] == part);
    } else {
        assert(cookies.drop_last()[i] == cookies[i]);
        lemma_kept_cookie_in_pairs(cookies.drop_last(), i);
        let k = choose|k: int| 0 <= k < prev.len() && prev[k] == part;
        assert(cookie_pairs(cookies)[k] == part);
    }
}

/// After a successful web login, the session is sent: when the login
/// setting `key` names `site` (the cookies are stored under that site's key)
/// and the stored cookies hold a non-blank `jieqiUserInfo` value `v`, the
/// `Cookie` header for that site exists and `jieqiUserInfo=` followed by `v`
/// trimmed is one of the parts it joins with `; `.
pub proof fn lemma_login_cookie_is_sent(
    key: Seq<char>,
    site: Seq<char>,
    cookies: Seq<(Seq<char>, Seq<char>)>,
    i: int,
)
    requires
        login_site(key) == Some(site),
        0 <= i < cookies.len(),
        cookies[i].0 == "jieqiUserInfo"@,
        !is_blank(cookies[i].1),
    ensures
        storage_key_of(login_site(key)->0) == storage_key_of(site),
        cookie_header_of(cookies) == Some(join(cookie_pairs(cookies), seq![';', ' '])),
        cookie_pairs(cookies).contains("jieqiUserInfo"@ + seq!['='] + trim(cookies[i].1)),
{
    reveal_strlit("jieqiUserInfo");
    reveal_strlit("jieqi");
    let name = "jieqiUserInfo"@;
    assert(trim_start(name) == name);
    assert(trim_end(name) == name);
    assert(trim(name) == name);
    assert(name.take(5) =~= "jieqi"@);
    assert(cookie_kept(cookies[i].0, cookies[i].1));
    lemma_kept_cookie_in_pairs(cookies, i);
    lemma_cookie_header_iff_kept(cookies);
}

fn under_origin_exec(url: &[char], origin: Vec<char>) -> (r: bool)
    ensures
        r == under_origin(url@, origin@),
{
    if chars_eq(url, &origin) {
        return true;
    }
    let mut with_slash = origin;
    with_slash.push('/');
    begins_with(url, &with_slash)
}

/// Whether `url` is on the selected site, over HTTPS.
pub fn is_selected_site_url(site: &str, url: &str) -> (r: bool)
    ensures
        r == on_site(site@, url@),
{
    let sc = chars_of(site);
    let uc = chars_of(url);
    under_origin_exec(&uc, join_str("https://", &sc)) || under_origin_exec(
        &uc,
        join_str("https://www.", &sc),
    )
}

/// The `Cookie` header to send with a request for `url`: the stored cookies,
/// and only when `url` is on the selected site.
pub fn request_cookie(site: &str, url: &str, cookies: &Vec<(String, String)>) -> (header: Option<
    String,
>)
    ensures
        header.deep_view() == (if on_site(site@, url@) {
            cookie_header_of(cookies.deep_view())
        } else {
            None
        }),
{
    if is_selected_site_url(site, url) {
        cookie_header(cookies)
    } else {
        None
    }
}

/// The detail page of a book: a key that already is an address is kept,
/// otherwise `<base>/book/<key>.htm`.
pub open spec fn book_url_of(site: Seq<char>, key: Seq<char>) -> Seq<char> {
    if starts_with(key, "http://"@) || starts_with(key, "https://"@) {
        key
    } else {
        base_url_of(site) + "/book/"@ + key + ".htm"@
    }
}

pub fn book_url(site: &str, key: &str) -> (url: String)
    ensures
        url@ == book_url_of(site@, key@),
{
    let kc = chars_of(key);
    if starts_with_str(&kc, "http://") || starts_with_str(&kc, "https://") {
        return string_of(&kc);
    }
    let sc = chars_of(site);
    let mut out = base_url_chars(&sc);
    push_all(&mut out, &chars_of("/book/"));
    push_all(&mut out, &kc);
    push_all(&mut out, &chars_of(".htm"));
    string_of(&out)
}

/// The chapter index of a book: `<base>/modules/article/reader.php?aid=<key>`.
pub open spec fn reader_url_of(site: Seq<char>, key: Seq<char>) -> Seq<char> {
    base_url_of(site) + "/modules/article/reader.php?aid="@ + key
}

pub fn reader_url(site: &str, key: &str) -> (url: String)
    ensures
        url@ == reader_url_of(site@, key@),
{
    let sc = chars_of(site);
    let mut out = base_url_chars(&sc);
    push_all(&mut out, &chars_of("/modules/article/reader.php?aid="));
    push_all(&mut out, &chars_of(key));
    string_of(&out)
}

/// The cover directory of a book: `0` for keys of at most three bytes,
/// otherwise the first character when it is ASCII (one byte), else `0`.
pub open spec fn cover_directory(key: Seq<char>) -> Seq<char> {
    if encode_utf8(key).len() <= 3 {
        seq!['0']
    } else if (key[0] as u32) < 0x80 {
        seq![key[0]]
    } else {
        seq!['0']
    }
}

/// `https://img.wenku8.com/image/<dir>/<key>/<key>s.jpg`.
pub open spec fn cover_url_of(key: Seq<char>) -> Seq<char> {
    "https://img.wenku8.com/image/"@ + cover_directory(key) + seq!['/'] + key + seq!['/'] + key
        + "s.jpg"@
}

pub fn cover_url(key: &str) -> (url: String)
    ensures
        url@ == cover_url_of(key@),
{
    let kc = chars_of(key);
    let mut dir: Vec<char> = Vec::new();
    if utf8_len_at_most(&kc, 3) {
        dir.push('0');
    } else {
        assert(key@.len() > 0) by {
            if key@.len() == 0 {
                assert(encode_utf8(key@) =~= Seq::<u8>::empty());
            }
        }
        let first = kc[0];
        if (first as u32) < 0x80 {
            dir.push(first);
        } else {
            dir.push('0');
        }
    }
    assert(dir@ =~= cover_directory(key@));
    let mut out = chars_of("https://img.wenku8.com/image/");
    push_all(&mut out, &dir);
    out.push('/');
    push_all(&mut out, &kc);
    out.push('/');
    push_all(&mut out, &kc);
    push_all(&mut out, &chars_of("s.jpg"));
    string_of(&out)
}

/// The cover of a book with a key of digits lies in directory `0` for keys
/// of at most three digits and in the directory of its first digit otherwise.
pub proof fn lemma_cover_of_digit_key(key: Seq<char>)
    requires
        key.len() > 0,
        forall|i: int| 0 <= i < key.len() ==> '0' <= #[trigger] key[i] <= '9',
    ensures
        cover_url_of(key) == "https://img.wenku8.com/image/"@ + (if key.len() <= 3 {
            seq!['0']
        } else {
            seq![key[0]]
        }) + seq!['/'] + key + seq!['/'] + key + "s.jpg"@,
{
    assert(is_ascii_chars(key));
    is_ascii_chars_encode_utf8(key);
}

/// The site whose login a login setting key stands for.
pub open spec fn login_site(key: Seq<char>) -> Option<Seq<char>> {
    if key == "wenku8_login_net"@ {
        Some("wenku8.net"@)
    } else if key == "wenku8_login_cc"@ {
        Some("wenku8.cc"@)
    } else {
        None
    }
}

/// A login setting key that is neither of the two sites'.
#[derive(Debug, Clone, Copy, PartialEq, Eq)]
pub enum LoginError {
    UnsupportedKey,
}

/// The text shown to the user for a login setting key `key` that is not
/// supported.
pub open spec fn login_message(key: Seq<char>) -> Seq<char> {
    "不支持的登录设置："@ + key
}

impl LoginError {
    /// The text shown to the user for the login setting key `key`.
    pub fn message(&self, key: &str) -> (m: String)
        ensures
            m@ == login_message(key@),
    {
        let mut cs = chars_of("不支持的登录设置：");
        push_all(&mut cs, &chars_of(key));
        string_of(&cs)
    }
}

/// Where the cookies of a finished web login go, and whether it succeeded.
#[derive(Debug)]
pub struct LoginOutcome {
    pub storage_key: String,
    pub logged_in: bool,
}

/// The result of a web login: the storage key of the site that `key` names,
/// and whether the user cookie (`jieqiUserInfo`) is present and non-blank.
/// When logged in the cookies are stored under the key; otherwise the stored
/// cookies are cleared.
pub fn handle_web_login(key: &str, user_cookie: Option<&str>) -> (r: Result<
    LoginOutcome,
    LoginError,
>)
    ensures
        login_site(key@) is None <==> r is Err,
        login_site(key@) matches Some(site) ==> (r matches Ok(o) && o.storage_key@
            == storage_key_of(site) && o.logged_in == (user_cookie.deep_view() matches Some(v)
            && !is_blank(v))),
{
    let kc = chars_of(key);
    let site = if chars_eq(&kc, &chars_of("wenku8_login_net")) {
        chars_of("wenku8.net")
    } else if chars_eq(&kc, &chars_of("wenku8_login_cc")) {
        chars_of("wenku8.cc")
    } else {
        return Err(LoginError::UnsupportedKey);
    };
    let storage_key = string_of(&join_str("wenku8_auth_cookies_", &site));
    let logged_in = match user_cookie {
        Some(v) => trimmed_str(v).len() > 0,
        None => false,
    };
    Ok(LoginOutcome { storage_key, logged_in })
}

} // verus!
