//! Search and listing pages: the request for a page, the books found on it,
//! and whether a further page exists.

use vstd::prelude::*;
use vstd::utf8::encode_utf8;

use crate::encoding::{codec_input_limit, encode_search_query, gbk_encoded, percent_encoded};
use crate::parse::{book_key, extract_book_key, first_nonblank, first_text};
use crate::resolve::{resolve_url, resolved_url};
use crate::site::{base_url, base_url_chars, base_url_of, book_url, book_url_of, cover_url, cover_url_of};
use crate::text::{
    before_first, chars_eq, owned, chars_of, contains, contains_str, copy_range, decimal, decimal_of,
    digit_prefix, find, find_in, is_blank, leading_digits, lemma_trim_utf8_len,
    prefix_before, push_all, split_char, split_on, string_of, trim, trimmed_str, views,
    all_digits, is_digit, lemma_decimal_digits, lemma_find_first, lemma_find_none, lemma_split_on_concat,
    lemma_split_on_without, occurs_at,
};

verus! {

/// What a link on a search or listing page offers: its resolved (`abs:href`)
/// and raw `href` addresses, its `title` attribute and its text.
#[derive(Debug)]
pub struct SearchLink {
    pub abs_href: Option<String>,
    pub href: Option<String>,
    pub title: Option<String>,
    pub text: Option<String>,
}

pub struct SearchLinkView {
    pub abs_href: Option<Seq<char>>,
    pub href: Option<Seq<char>>,
    pub title: Option<Seq<char>>,
    pub text: Option<Seq<char>>,
}

impl DeepView for SearchLink {
    type V = SearchLinkView;

    open spec fn deep_view(&self) -> SearchLinkView {
        SearchLinkView {
            abs_href: self.abs_href.deep_view(),
            href: self.href.deep_view(),
            title: self.title.deep_view(),
            text: self.text.deep_view(),
        }
    }
}

/// A book in a list: key, title, cover address and detail address.
#[derive(Debug)]
pub struct MangaEntry {
    pub key: String,
    pub title: String,
    pub cover: String,
    pub url: Option<String>,
}

pub struct MangaEntryView {
    pub key: Seq<char>,
    pub title: Seq<char>,
    pub cover: Seq<char>,
    pub url: Option<Seq<char>>,
}

impl DeepView for MangaEntry {
    type V = MangaEntryView;

    open spec fn deep_view(&self) -> MangaEntryView {
        MangaEntryView {
            key: self.key@,
            title: self.title@,
            cover: self.cover@,
            url: self.url.deep_view(),
        }
    }
}

/// The address of a link: the resolved one unless it is missing or blank,
/// else the raw one.
pub open spec fn link_address(l: SearchLinkView) -> Option<Seq<char>> {
    if l.abs_href matches Some(a) && !is_blank(a) {
        l.abs_href
    } else {
        l.href
    }
}

/// The title of a link: its `title` attribute unless missing or blank, else
/// its text; trimmed, and empty when neither exists.
pub open spec fn link_title(l: SearchLinkView) -> Seq<char> {
    let t = if l.title matches Some(a) && !is_blank(a) {
        l.title
    } else {
        l.text
    };
    match t {
        Some(x) => trim(x),
        None => Seq::<char>::empty(),
    }
}

/// Some entry of `es` has key `k`.
pub open spec fn has_key(es: Seq<MangaEntryView>, k: Seq<char>) -> bool {
    exists|i: int| 0 <= i < es.len() && (#[trigger] es[i]).key == k
}

/// The books of a list page, in link order: each link whose address names a
/// book key not seen before and that has a title.
pub open spec fn search_entries(site: Seq<char>, links: Seq<SearchLinkView>) -> Seq<MangaEntryView>
    decreases links.len(),
{
    if links.len() == 0 {
        Seq::<MangaEntryView>::empty()
    } else {
        let prev = search_entries(site, links.drop_last());
        let l = links.last();
        match link_address(l) {
            None => prev,
            Some(url) => match book_key(url) {
                None => prev,
                Some(key) => if has_key(prev, key) || link_title(l).len() == 0 {
                    prev
                } else {
                    prev.push(
                        MangaEntryView {
                            key: key,
                            title: link_title(l),
                            cover: cover_url_of(key),
                            url: resolved_url(site, url, base_url_of(site)),
                        },
                    )
                },
            },
        }
    }
}

fn clone_opt(o: &Option<String>) -> (r: Option<String>)
    ensures
        r.deep_view() == o.deep_view(),
{
    match o {
        Some(s) => Some(s.clone()),
        None => None,
    }
}

fn is_blank_str(s: &String) -> (r: bool)
    ensures
        r == is_blank(s@),
{
    trimmed_str(s.as_str()).len() == 0
}

fn entries_have_key(entries: &Vec<MangaEntry>, key: &String) -> (r: bool)
    ensures
        r == has_key(entries.deep_view(), key@),
{
    let ghost es = entries.deep_view();
    let mut i: usize = 0;
    while i < entries.len()
        invariant
            i <= entries@.len(),
            es == entries.deep_view(),
            forall|k: int| 0 <= k < i ==> es[k].key != key@,
        decreases entries@.len() - i,
    {
        assert(es[i as int].key == entries@[i as int].key@);
        if entries[i].key == *key {
            assert(es[i as int].key == key@);
            return true;
        }
        i = i + 1;
    }
    false
}

/// The books linked from a search or listing page of the selected site.
pub fn parse_search_results(site: &str, links: &Vec<SearchLink>) -> (entries: Vec<MangaEntry>)
    ensures
        entries.deep_view() == search_entries(site@, links.deep_view()),
{
    let ghost ls = links.deep_view();
    let base = base_url(site);
    let mut entries: Vec<MangaEntry> = Vec::new();
    let mut i: usize = 0;
    assert(ls.take(0) =~= Seq::<SearchLinkView>::empty());
    assert(entries.deep_view() =~= Seq::<MangaEntryView>::empty());
    while i < links.len()
        invariant
            i <= links@.len(),
            ls == links.deep_view(),
            base@ == base_url_of(site@),
            entries.deep_view() == search_entries(site@, ls.take(i as int)),
        decreases links@.len() - i,
    {
        let ghost prev = entries.deep_view();
        assert(ls.take(i + 1).drop_last() =~= ls.take(i as int));
        assert(ls.take(i + 1).last() == ls[i as int]);
        let link = &links[i];
        assert(ls[i as int] == link.deep_view());
        let address = match &link.abs_href {
            Some(a) => if !is_blank_str(a) {
                Some(a.clone())
            } else {
                clone_opt(&link.href)
            },
            None => clone_opt(&link.href),
        };
        if let Some(url) = address {
            if let Some(key) = extract_book_key(url.as_str()) {
                if !entries_have_key(&entries, &key) {
                    let chosen = match &link.title {
                        Some(t) => if !is_blank_str(t) {
                            Some(t.clone())
                        } else {
                            clone_opt(&link.text)
                        },
                        None => clone_opt(&link.text),
                    };
                    let title = match chosen {
                        Some(x) => string_of(&trimmed_str(x.as_str())),
                        None => String::new(),
                    };
                    if !title.as_str().is_empty() {
                        let cover = cover_url(key.as_str());
                        let resolved = resolve_url(site, url.as_str(), base.as_str());
                        let entry = MangaEntry { key, title, cover, url: resolved };
                        entries.push(entry);
                        assert(entries.deep_view() =~= prev.push(entry.deep_view()));
                    } else {
                        assert(title@.len() == 0);
                    }
                }
            }
        }
        i = i + 1;
    }
    assert(ls.take(links@.len() as int) =~= ls);
    entries
}

/// The books of a list page have pairwise different keys.
pub proof fn lemma_search_keys_distinct(site: Seq<char>, links: Seq<SearchLinkView>)
    ensures
        forall|i: int, j: int|
            0 <= i < j < search_entries(site, links).len() ==> (#[trigger] search_entries(
                site,
                links,
            )[i]).key != (#[trigger] search_entries(site, links)[j]).key,
    decreases links.len(),
{
    if links.len() > 0 {
        lemma_search_keys_distinct(site, links.drop_last());
        let prev = search_entries(site, links.drop_last());
        let es = search_entries(site, links);
        assert forall|i: int, j: int| 0 <= i < j < es.len() implies (#[trigger] es[i]).key != (
        #[trigger] es[j]).key by {
            if j < prev.len() {
                assert(es[i] == prev[i] && es[j] == prev[j]);
            } else {
                assert(es[i] == prev[i]);
                if prev[i].key == es[j].key {
                    assert(has_key(prev, es[j].key));
                }
            }
        }
    }
}


/// Link `i` names book `k` and has a title.
pub open spec fn titled_link_for(links: Seq<SearchLinkView>, i: int, k: Seq<char>) -> bool {
    &&& 0 <= i < links.len()
    &&& link_address(links[i]) is Some
    &&& book_key(link_address(links[i])->0) == Some(k)
    &&& link_title(links[i]).len() > 0
}

/// Every book that some titled link names is listed: a link skipped for a
/// missing title never keeps a later titled link to the same book out.
pub proof fn lemma_titled_links_listed(site: Seq<char>, links: Seq<SearchLinkView>, i: int, k: Seq<char>)
    requires
        titled_link_for(links, i, k),
    ensures
        has_key(search_entries(site, links), k),
    decreases links.len(),
{
    let prev = search_entries(site, links.drop_last());
    let es = search_entries(site, links);
    if i < links.len() - 1 {
        assert(links.drop_last()[i] == links[i]);
        assert(titled_link_for(links.drop_last(), i, k));
        lemma_titled_links_listed(site, links.drop_last(), i, k);
        let m = choose|m: int| 0 <= m < prev.len() && (#[trigger] prev[m]).key == k;
        assert(es[m] == prev[m]);
    } else {
        if has_key(prev, k) {
            let m = choose|m: int| 0 <= m < prev.len() && (#[trigger] prev[m]).key == k;
            assert(es[m] == prev[m]);
        } else {
            assert(es[es.len() - 1].key == k);
        }
    }
}

/// Every listed book comes from the first titled link that names it: the
/// entry holds that link's book key and title, the cover address of the key,
/// and the link's address resolved against the site.
pub proof fn lemma_entries_from_first_titled_link(site: Seq<char>, links: Seq<SearchLinkView>, e: int)
    requires
        0 <= e < search_entries(site, links).len(),
    ensures
        ({
            let entry = search_entries(site, links)[e];
            exists|i: int|
                #![trigger links[i]]
                titled_link_for(links, i, entry.key) && entry.title == link_title(links[i])
                    && entry.cover == cover_url_of(entry.key) && entry.url == resolved_url(
                    site,
                    link_address(links[i])->0,
                    base_url_of(site),
                ) && forall|j: int| 0 <= j < i ==> !titled_link_for(links, j, entry.key)
        }),
    decreases links.len(),
{
    let prev = search_entries(site, links.drop_last());
    let es = search_entries(site, links);
    let entry = es[e];
    if e < prev.len() {
        assert(es[e] == prev[e]);
        lemma_entries_from_first_titled_link(site, links.drop_last(), e);
        let i = choose|i: int|
            #![trigger links.drop_last()[i]]
            titled_link_for(links.drop_last(), i, entry.key) && entry.title == link_title(
                links.drop_last()[i],
            ) && entry.cover == cover_url_of(entry.key) && entry.url == resolved_url(
                site,
                link_address(links.drop_last()[i])->0,
                base_url_of(site),
            ) && forall|j: int| 0 <= j < i ==> !titled_link_for(links.drop_last(), j, entry.key);
        assert(links.drop_last()[i] == links[i]);
        assert forall|j: int| 0 <= j < i implies !titled_link_for(links, j, entry.key) by {
            assert(links.drop_last()[j] == links[j]);
            assert(!titled_link_for(links.drop_last(), j, entry.key));
        }
        assert(titled_link_for(links, i, entry.key));
    } else {
        let i = links.len() - 1;
        assert(links.last() == links[i]);
        assert forall|j: int| 0 <= j < i implies !titled_link_for(links, j, entry.key) by {
            if titled_link_for(links, j, entry.key) {
                assert(links.drop_last()[j] == links[j]);
                assert(titled_link_for(links.drop_last(), j, entry.key));
                lemma_titled_links_listed(site, links.drop_last(), j, entry.key);
            }
        }
        assert(titled_link_for(links, i, entry.key));
    }
}

/// The single result of a search that went straight to a book's page: the
/// digits after the first `bid=` of its add-to-bookcase link, and the first
/// usable title text.
pub open spec fn single_result_of(
    site: Seq<char>,
    bookcase_href: Option<Seq<char>>,
    titles: Seq<Option<Seq<char>>>,
) -> Option<MangaEntryView> {
    match bookcase_href {
        None => None,
        Some(h) => match find(h, "bid="@) {
            None => None,
            Some(p) => {
                let key = digit_prefix(h.skip(p + 4));
                if key.len() == 0 {
                    None
                } else {
                    match first_nonblank(titles) {
                        None => None,
                        Some(t) => Some(
                            MangaEntryView {
                                key: key,
                                title: t,
                                cover: cover_url_of(key),
                                url: Some(book_url_of(site, key)),
                            },
                        ),
                    }
                }
            },
        },
    }
}

/// The book of a search that the site answered with the book's own page,
/// from the `href` of its add-to-bookcase link and the texts of the title
/// selectors.
pub fn parse_single_search_result(
    site: &str,
    bookcase_href: Option<&str>,
    title_candidates: &Vec<Option<String>>,
) -> (entry: Option<MangaEntry>)
    ensures
        entry.deep_view() == single_result_of(
            site@,
            bookcase_href.deep_view(),
            title_candidates.deep_view(),
        ),
{
    let href = match bookcase_href {
        Some(h) => h,
        None => return None,
    };
    let hc = chars_of(href);
    proof {
        reveal_strlit("bid=");
    }
    let marker = chars_of("bid=");
    assert(marker@.len() == 4);
    let p = match find_in(&hc, &marker) {
        Some(p) => p,
        None => return None,
    };
    assert(p + 4 <= hc.len());
    let tail = copy_range(&hc, p + 4, hc.len());
    assert(tail@ =~= hc@.skip(p + 4));
    let digits = leading_digits(&tail);
    if digits.len() == 0 {
        return None;
    }
    let title = match first_text(title_candidates) {
        Some(t) => t,
        None => return None,
    };
    let key = string_of(&digits);
    let cover = cover_url(key.as_str());
    let url = book_url(site, key.as_str());
    Some(MangaEntry { key, title, cover, url: Some(url) })
}

/// The page number used: at least 1.
pub open spec fn effective_page(page: i32) -> i32 {
    if page < 1 {
        1
    } else {
        page
    }
}

/// A request for a list page.
#[derive(Debug)]
pub struct SearchRequest {
    /// `true` for a form POST, `false` for a GET.
    pub post: bool,
    pub url: String,
    /// The form body of a POST.
    pub body: Option<String>,
}

/// The request for page `page` of the results for `query`, or of the latest
/// updates when the query is missing or blank. The first page of a search is
/// the site's GBK form posted to `so.php`; later pages are GET requests.
pub open spec fn search_request_of(site: Seq<char>, query: Option<Seq<char>>, page: i32) -> (
    bool,
    Seq<char>,
    Option<Seq<char>>,
) {
    let p = effective_page(page);
    if query matches Some(q) && !is_blank(q) {
        let key = percent_encoded(gbk_encoded(trim(query->0)));
        if p == 1 {
            (
                true,
                base_url_of(site) + "/so.php"@,
                Some(
                    "searchtype=articlename&searchkey="@ + key
                        + "&charset=&Submit=%C7%E1%D0%A1%CB%B5%CB%D1%CB%F7"@,
                ),
            )
        } else {
            (
                false,
                base_url_of(site) + "/modules/article/search.php?searchtype=articlename&searchkey="@
                    + key + "&page="@ + decimal(p as nat),
                None,
            )
        }
    } else {
        (
            false,
            base_url_of(site) + "/modules/article/toplist.php?sort=lastupdate&page="@ + decimal(
                p as nat,
            ),
            None,
        )
    }
}

pub fn search_request(site: &str, query: Option<&str>, page: i32) -> (req: SearchRequest)
    requires
        query matches Some(q) ==> encode_utf8(q@).len() <= codec_input_limit(),
    ensures
        (req.post, req.url@, req.body.deep_view()) == search_request_of(
            site@,
            query.deep_view(),
            page,
        ),
{
    let p: i32 = if page < 1 {
        1
    } else {
        page
    };
    let sc = chars_of(site);
    let base = base_url_chars(&sc);
    if let Some(q) = query {
        let tq = trimmed_str(q);
        if tq.len() > 0 {
            proof {
                lemma_trim_utf8_len(q@);
            }
            let tqs = string_of(&tq);
            let key = chars_of(encode_search_query(tqs.as_str()).as_str());
            if p == 1 {
                let mut url = base;
                push_all(&mut url, &chars_of("/so.php"));
                let mut body = chars_of("searchtype=articlename&searchkey=");
                push_all(&mut body, &key);
                push_all(&mut body, &chars_of("&charset=&Submit=%C7%E1%D0%A1%CB%B5%CB%D1%CB%F7"));
                return SearchRequest { post: true, url: string_of(&url), body: Some(string_of(&body)) };
            } else {
                let mut url = base;
                push_all(
                    &mut url,
                    &chars_of("/modules/article/search.php?searchtype=articlename&searchkey="),
                );
                push_all(&mut url, &key);
                push_all(&mut url, &chars_of("&page="));
                push_all(&mut url, &decimal_of(p as u64));
                return SearchRequest { post: false, url: string_of(&url), body: None };
            }
        }
    }
    let mut url = base;
    push_all(&mut url, &chars_of("/modules/article/toplist.php?sort=lastupdate&page="));
    push_all(&mut url, &decimal_of(p as u64));
    SearchRequest { post: false, url: string_of(&url), body: None }
}

/// Every search carries one search key: the GBK bytes of the trimmed query,
/// percent-encoded. The first page posts it in the form body to `so.php`;
/// each later page `p` gets it in the URL of `search.php`, with `page=p`.
/// Pages below 1 are page 1.
pub proof fn lemma_search_key_is_gbk(site: Seq<char>, q: Seq<char>, page: i32)
    requires
        !is_blank(q),
    ensures
        ({
            let key = percent_encoded(gbk_encoded(trim(q)));
            let (post, url, body) = search_request_of(site, Some(q), page);
            &&& page <= 1 ==> post && url == "https://www."@ + site + "/so.php"@ && body == Some(
                "searchtype=articlename&searchkey="@ + key
                    + "&charset=&Submit=%C7%E1%D0%A1%CB%B5%CB%D1%CB%F7"@,
            )
            &&& page >= 2 ==> !post && body is None && url == "https://www."@ + site
                + "/modules/article/search.php?searchtype=articlename&searchkey="@ + key
                + "&page="@ + decimal(page as nat)
        }),
{
}

/// Without a query (or with a blank one) page `p` of the latest updates is
/// fetched, pages below 1 being page 1.
pub proof fn lemma_no_query_lists_updates(site: Seq<char>, q: Option<Seq<char>>, page: i32)
    requires
        q is None || is_blank(q->0),
    ensures
        search_request_of(site, q, page) == (
            false,
            "https://www."@ + site + "/modules/article/toplist.php?sort=lastupdate&page="@
                + decimal((if page < 1 {
                1
            } else {
                page
            }) as nat),
            None::<Seq<char>>,
        ),
{
}

/// The query parameter that links to the page after `page` carry.
pub open spec fn next_page_marker(page: i32) -> Seq<char> {
    let p = effective_page(page);
    let next: int = if p == i32::MAX {
        p as int
    } else {
        p + 1
    };
    "page="@ + decimal(next as nat)
}

/// The query of a link address: the part between its first and second `?`.
pub open spec fn query_part(href: Seq<char>) -> Option<Seq<char>> {
    if split_on(href, '?').len() > 1 {
        Some(split_on(href, '?')[1])
    } else {
        None
    }
}

/// The link's query (without fragment) has `marker` as one of its
/// `&`-separated parameters.
pub open spec fn links_to(href: Seq<char>, marker: Seq<char>) -> bool {
    match query_part(href) {
        Some(q) => split_on(before_first(q, '#'), '&').contains(marker),
        None => false,
    }
}

/// Some link of the page leads to the page after `page`.
pub open spec fn has_next(hrefs: Seq<Seq<char>>, page: i32) -> bool {
    exists|i: int| 0 <= i < hrefs.len() && links_to(#[trigger] hrefs[i], next_page_marker(page))
}

fn link_has_marker(href: &str, marker: &Vec<char>) -> (r: bool)
    ensures
        r == links_to(href@, marker@),
{
    let hc = chars_of(href);
    let parts = split_char(&hc, '?');
    if parts.len() <= 1 {
        return false;
    }
    assert(views(parts@)[1] == parts@[1]@);
    assert(split_on(hc@, '?').len() == parts@.len());
    assert(split_on(hc@, '?')[1] == parts@[1]@);
    let query = prefix_before(&parts[1], '#');
    let params = split_char(&query, '&');
    let ghost ps = split_on(before_first(parts@[1]@, '#'), '&');
    assert(query_part(href@) == Some(parts@[1]@));
    assert(links_to(href@, marker@) == ps.contains(marker@));
    let mut i: usize = 0;
    while i < params.len()
        invariant
            i <= params@.len(),
            views(params@) == ps,
            links_to(href@, marker@) == ps.contains(marker@),
            forall|k: int| 0 <= k < i ==> ps[k] != marker@,
        decreases params@.len() - i,
    {
        assert(ps[i as int] == params@[i as int]@);
        if chars_eq(&params[i], marker) {
            assert(ps[i as int] == marker@);
            assert(ps.contains(marker@));
            return true;
        }
        i = i + 1;
    }
    false
}

/// Whether the page links to the page after `page` (clamped to at least 1):
/// some link's query has the parameter `page=<page + 1>`.
pub fn has_next_page(hrefs: &Vec<String>, page: i32) -> (r: bool)
    ensures
        r == has_next(hrefs.deep_view(), page),
{
    let p: i32 = if page < 1 {
        1
    } else {
        page
    };
    let next: i32 = if p == i32::MAX {
        p
    } else {
        p + 1
    };
    let mut marker = chars_of("page=");
    push_all(&mut marker, &decimal_of(next as u64));
    let ghost hs = hrefs.deep_view();
    let mut i: usize = 0;
    while i < hrefs.len()
        invariant
            i <= hrefs@.len(),
            hs == hrefs.deep_view(),
            marker@ == next_page_marker(page),
            forall|k: int| 0 <= k < i ==> !links_to(#[trigger] hs[k], marker@),
        decreases hrefs@.len() - i,
    {
        assert(hs[i as int] == hrefs@[i as int]@);
        if link_has_marker(hrefs[i].as_str(), &marker) {
            return true;
        }
        i = i + 1;
    }
    false
}

/// `page=<n>` for the page after `page` (pages below 1 being page 1; the
/// last page number stays).
pub open spec fn following_page_param(page: i32) -> Seq<char> {
    let p: int = if page < 1 {
        1
    } else {
        page as int
    };
    "page="@ + decimal((if p == i32::MAX {
        p
    } else {
        p + 1
    }) as nat)
}

/// `c` does not occur in `s`.
pub open spec fn lacks(s: Seq<char>, c: char) -> bool {
    forall|k: int| 0 <= k < s.len() ==> s[k] != c
}

proof fn lemma_lacks_concat(a: Seq<char>, b: Seq<char>, c: char)
    requires
        lacks(a, c),
        lacks(b, c),
    ensures
        lacks(a + b, c),
{
    assert forall|k: int| 0 <= k < (a + b).len() implies (a + b)[k] != c by {
        if k < a.len() {
            assert((a + b)[k] == a[k]);
        } else {
            assert((a + b)[k] == b[k - a.len()]);
        }
    }
}

proof fn lemma_no_char_found(s: Seq<char>, c: char)
    requires
        lacks(s, c),
    ensures
        find(s, seq![c]) is None,
{
    assert forall|j: int| 0 <= j implies !occurs_at(s, seq![c], j) by {
        if occurs_at(s, seq![c], j) {
            assert(s.subrange(j, j + 1)[0] == s[j]);
        }
    }
    lemma_find_none(s, seq![c], 0);
}

proof fn lemma_param_chars(page: i32)
    ensures
        lacks(following_page_param(page), '?'),
        lacks(following_page_param(page), '#'),
        lacks(following_page_param(page), '&'),
        following_page_param(page) == next_page_marker(page),
{
    reveal_strlit("page=");
    let p: int = if page < 1 {
        1
    } else {
        page as int
    };
    let n: int = if p == i32::MAX {
        p
    } else {
        p + 1
    };
    lemma_decimal_digits(n as nat);
    let m = following_page_param(page);
    assert forall|k: int| 0 <= k < m.len() implies m[k] != '?' && m[k] != '#' && m[k] != '&' by {
        if k >= 5 {
            assert(m[k] == decimal(n as nat)[k - 5]);
            assert(is_digit(decimal(n as nat)[k - 5]));
        }
    }
}

/// The parts of `a`, `m` and `rest` split on `&` hold `m` when `a` is empty
/// or ends with `&`, `m` holds no `&`, and `rest` is empty or starts with `&`.
proof fn lemma_param_in_parts(a: Seq<char>, m: Seq<char>, rest: Seq<char>)
    requires
        lacks(m, '&'),
        a.len() == 0 || a.last() == '&',
        rest.len() == 0 || rest[0] == '&',
    ensures
        split_on(a + m + rest, '&').contains(m),
{
    let tail_parts = if rest.len() == 0 {
        lemma_split_on_without(m, '&');
        assert(m + rest =~= m);
        split_on(m, '&')
    } else {
        lemma_split_on_without(m, '&');
        assert(m + rest =~= m + seq!['&'] + rest.drop_first());
        lemma_split_on_concat(m, rest.drop_first(), '&');
        split_on(m + rest, '&')
    };
    assert(tail_parts == split_on(m + rest, '&'));
    assert(tail_parts[0] == m);
    if a.len() == 0 {
        assert(a + m + rest =~= m + rest);
        assert(split_on(a + m + rest, '&')[0] == m);
    } else {
        let a0 = a.drop_last();
        assert(a + m + rest =~= a0 + seq!['&'] + (m + rest));
        lemma_split_on_concat(a0, m + rest, '&');
        let pa = split_on(a0, '&');
        assert(split_on(a + m + rest, '&')[pa.len() as int] == m);
    }
}

/// A link to the following page is found wherever it stands: when some link
/// is `u?a` + `page=<p + 1>` + `tail`, with `a` empty or ending in `&` and the
/// parameter ending the query, followed by more parameters, or followed by a
/// fragment, the page has a next page.
pub proof fn lemma_next_page_link_found(
    hrefs: Seq<Seq<char>>,
    page: i32,
    i: int,
    u: Seq<char>,
    a: Seq<char>,
    tail: Seq<char>,
)
    requires
        0 <= i < hrefs.len(),
        hrefs[i] == u + seq!['?'] + a + following_page_param(page) + tail,
        lacks(u, '?'),
        lacks(a, '?'),
        lacks(a, '#'),
        a.len() == 0 || a.last() == '&',
        lacks(tail, '?'),
        tail.len() == 0 || tail[0] == '#' || (tail[0] == '&' && lacks(tail, '#')),
    ensures
        has_next(hrefs, page),
{
    let m = following_page_param(page);
    lemma_param_chars(page);
    let rest = a + m + tail;
    lemma_lacks_concat(a, m, '?');
    lemma_lacks_concat(a + m, tail, '?');
    assert(hrefs[i] =~= u + seq!['?'] + rest);
    lemma_split_on_concat(u, rest, '?');
    lemma_split_on_without(u, '?');
    lemma_split_on_without(rest, '?');
    assert(query_part(hrefs[i]) == Some(rest));
    lemma_lacks_concat(a, m, '#');
    if tail.len() > 0 && tail[0] == '#' {
        let n = (a + m).len() as int;
        assert forall|j: int| 0 <= j < n implies !occurs_at(rest, seq!['#'], j) by {
            if occurs_at(rest, seq!['#'], j) {
                assert(rest.subrange(j, j + 1)[0] == rest[j]);
                assert(rest[j] == (a + m)[j]);
            }
        }
        assert(occurs_at(rest, seq!['#'], n)) by {
            assert(rest.subrange(n, n + 1) =~= seq!['#']);
        }
        lemma_find_first(rest, seq!['#'], 0, n);
        assert(before_first(rest, '#') =~= a + m + Seq::<char>::empty());
        lemma_param_in_parts(a, m, Seq::<char>::empty());
    } else {
        lemma_lacks_concat(a + m, tail, '#');
        lemma_no_char_found(rest, '#');
        lemma_param_in_parts(a, m, tail);
    }
    assert(links_to(hrefs[i], next_page_marker(page)));
}

/// Where the links stand does not matter: the links of two lists lead to the
/// next page exactly when those of one of them do.
pub proof fn lemma_has_next_concat(h1: Seq<Seq<char>>, h2: Seq<Seq<char>>, page: i32)
    ensures
        has_next(h1 + h2, page) == (has_next(h1, page) || has_next(h2, page)),
{
    let m = next_page_marker(page);
    if has_next(h1 + h2, page) {
        let i = choose|i: int| 0 <= i < (h1 + h2).len() && links_to(#[trigger] (h1 + h2)[i], m);
        if i < h1.len() {
            assert((h1 + h2)[i] == h1[i]);
        } else {
            assert((h1 + h2)[i] == h2[i - h1.len()]);
        }
    }
    if has_next(h1, page) {
        let i = choose|i: int| 0 <= i < h1.len() && links_to(#[trigger] h1[i], m);
        assert((h1 + h2)[i] == h1[i]);
    }
    if has_next(h2, page) {
        let i = choose|i: int| 0 <= i < h2.len() && links_to(#[trigger] h2[i], m);
        assert((h1 + h2)[h1.len() + i] == h2[i]);
    }
}

/// A page of books.
#[derive(Debug)]
pub struct SearchPage {
    pub entries: Vec<MangaEntry>,
    pub has_next_page: bool,
}

/// A list page without books.
#[derive(Debug, PartialEq, Eq)]
pub enum SearchError {
    /// The site answered with its error page.
    SiteErrorPage,
    /// No book was found; the page title (at most 80 characters) and the
    /// number of links on the page.
    NoBooks { title: String, links: usize },
}

/// The text shown to the user for a list page without books.
pub open spec fn search_message(e: SearchError) -> Seq<char> {
    match e {
        SearchError::SiteErrorPage => "Wenku8 返回站点错误页面：可能是搜索过快或需要登录，请打开当前站点确认后重试"@,
        SearchError::NoBooks { title, links } => "Wenku8 未解析到书籍（页面："@ + title@
            + "，链接数："@ + decimal(links as nat)
            + "）。请打开当前站点确认登录状态；若网页正常，请反馈此提示"@,
    }
}

impl SearchError {
    /// The text shown to the user.
    pub fn message(&self) -> (m: String)
        ensures
            m@ == search_message(*self),
    {
        match self {
            SearchError::SiteErrorPage => owned(
                "Wenku8 返回站点错误页面：可能是搜索过快或需要登录，请打开当前站点确认后重试",
            ),
            SearchError::NoBooks { title, links } => {
                let mut cs = chars_of("Wenku8 未解析到书籍（页面：");
                push_all(&mut cs, &chars_of(title.as_str()));
                push_all(&mut cs, &chars_of("，链接数："));
                push_all(&mut cs, &decimal_of(*links as u64));
                push_all(&mut cs, &chars_of("）。请打开当前站点确认登录状态；若网页正常，请反馈此提示"));
                string_of(&cs)
            },
        }
    }
}

/// The site's error notice: the block title says an error occurred.
pub open spec fn is_site_error(block_title: Option<Seq<char>>) -> bool {
    block_title matches Some(t) && (contains(t, "出现错误"@) || contains(t, "出現錯誤"@))
}

/// At most the first 80 characters of `t`.
pub open spec fn first_80(t: Seq<char>) -> Seq<char> {
    if t.len() <= 80 {
        t
    } else {
        t.take(80)
    }
}

/// The page title shown when a page holds no book.
pub open spec fn shown_title(titles: Seq<Option<Seq<char>>>) -> Seq<char> {
    first_80(
        match first_nonblank(titles) {
            Some(t) => t,
            None => "无标题"@,
        },
    )
}

/// The result of a list page: its single book when the site went straight to
/// one, else its books with whether a next page exists; a page without books
/// is an error, the site's error page or an empty list.
pub fn search_page_result(
    single: Option<MangaEntry>,
    entries: Vec<MangaEntry>,
    block_titles: &Vec<Option<String>>,
    page_titles: &Vec<Option<String>>,
    link_count: usize,
    has_next_page: bool,
) -> (r: Result<SearchPage, SearchError>)
    ensures
        single is Some ==> (r matches Ok(page) && page.entries.deep_view() == seq![
            single->0.deep_view(),
        ] && !page.has_next_page),
        single is None && entries@.len() > 0 ==> (r matches Ok(page)
            && page.entries.deep_view() == entries.deep_view() && page.has_next_page
            == has_next_page),
        single is None && entries@.len() == 0 && is_site_error(
            first_nonblank(block_titles.deep_view()),
        ) ==> r == Err::<SearchPage, SearchError>(SearchError::SiteErrorPage),
        single is None && entries@.len() == 0 && !is_site_error(
            first_nonblank(block_titles.deep_view()),
        ) ==> (r matches Err(SearchError::NoBooks { title, links }) && title@ == shown_title(
            page_titles.deep_view(),
        ) && links == link_count),
{
    if let Some(entry) = single {
        let ghost v = entry.deep_view();
        let mut list: Vec<MangaEntry> = Vec::new();
        list.push(entry);
        assert(list.deep_view() =~= seq![v]);
        return Ok(SearchPage { entries: list, has_next_page: false });
    }
    if entries.len() > 0 {
        return Ok(SearchPage { entries, has_next_page });
    }
    let site_error = match first_text(block_titles) {
        Some(t) => {
            let tc = chars_of(t.as_str());
            contains_str(&tc, "出现错误") || contains_str(&tc, "出現錯誤")
        },
        None => false,
    };
    if site_error {
        return Err(SearchError::SiteErrorPage);
    }
    let title = match first_text(page_titles) {
        Some(t) => chars_of(t.as_str()),
        None => chars_of("无标题"),
    };
    let shown = if title.len() <= 80 {
        title
    } else {
        copy_range(&title, 0, 80)
    };
    assert(shown@ =~= shown_title(page_titles.deep_view()));
    Err(SearchError::NoBooks { title: string_of(&shown), links: link_count })
}

} // verus!
