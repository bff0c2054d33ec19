//! A book's detail page, its chapter index, and the text of a chapter.

use vstd::prelude::*;

use crate::parse::{lemma_first_usable_wins, lemma_no_usable_candidate, usable, author_of, description_of, first_nonblank, first_text, parse_author, parse_description};
use crate::resolve::{resolve_url, resolved_url};
use crate::search::link_address;
use crate::search::SearchLinkView;
use crate::site::{book_url, book_url_of, cover_url, cover_url_of};
use crate::text::{starts_with, trim_end, trim_start, lemma_replace_clean_prefix, lemma_replace_front, lemma_trim_shape, is_white_space, chars_of, owned, replace, replace_all, string_of, trim, trimmed, trimmed_str};

verus! {

/// What the detail page of a book gives.
#[derive(Debug)]
pub struct MangaDetails {
    pub title: String,
    pub cover: String,
    pub author: Option<String>,
    pub description: Option<String>,
    pub url: String,
}

pub struct MangaDetailsView {
    pub title: Seq<char>,
    pub cover: Seq<char>,
    pub author: Option<Seq<char>>,
    pub description: Option<Seq<char>>,
    pub url: Seq<char>,
}

impl DeepView for MangaDetails {
    type V = MangaDetailsView;

    open spec fn deep_view(&self) -> MangaDetailsView {
        MangaDetailsView {
            title: self.title@,
            cover: self.cover@,
            author: self.author.deep_view(),
            description: self.description.deep_view(),
            url: self.url@,
        }
    }
}

/// The cover found on the detail page: the first usable resolved `src`,
/// else the first usable raw `src`, resolved against the book's page.
pub open spec fn page_cover(
    site: Seq<char>,
    page: Seq<char>,
    abs_srcs: Seq<Option<Seq<char>>>,
    srcs: Seq<Option<Seq<char>>>,
) -> Option<Seq<char>> {
    let found = match first_nonblank(abs_srcs) {
        Some(c) => Some(c),
        None => first_nonblank(srcs),
    };
    match found {
        Some(c) => resolved_url(site, c, page),
        None => None,
    }
}

/// The details of book `key`: the first usable title (else the current one);
/// the cover found on the page, else the current cover, else the cover
/// address derived from the key; the author; the description; and the
/// book's page address.
pub open spec fn details_of(
    site: Seq<char>,
    key: Seq<char>,
    current_title: Seq<char>,
    current_cover: Option<Seq<char>>,
    titles: Seq<Option<Seq<char>>>,
    abs_srcs: Seq<Option<Seq<char>>>,
    srcs: Seq<Option<Seq<char>>>,
    authors: Seq<Option<Seq<char>>>,
    descriptions: Seq<Option<Seq<char>>>,
) -> MangaDetailsView {
    let page = book_url_of(site, key);
    MangaDetailsView {
        title: match first_nonblank(titles) {
            Some(t) => t,
            None => current_title,
        },
        cover: match page_cover(site, page, abs_srcs, srcs) {
            Some(c) => c,
            None => match current_cover {
                Some(c) => c,
                None => cover_url_of(key),
            },
        },
        author: author_of(authors),
        description: description_of(descriptions),
        url: page,
    }
}

/// The title of a book is the first usable title candidate, in selector
/// order, trimmed; without one the current title stays.
pub proof fn lemma_details_title(
    site: Seq<char>,
    key: Seq<char>,
    current_title: Seq<char>,
    current_cover: Option<Seq<char>>,
    titles: Seq<Option<Seq<char>>>,
    abs_srcs: Seq<Option<Seq<char>>>,
    srcs: Seq<Option<Seq<char>>>,
    authors: Seq<Option<Seq<char>>>,
    descriptions: Seq<Option<Seq<char>>>,
    i: int,
)
    ensures
        usable(titles, i) && (forall|j: int| 0 <= j < i ==> !usable(titles, j)) ==> details_of(
            site,
            key,
            current_title,
            current_cover,
            titles,
            abs_srcs,
            srcs,
            authors,
            descriptions,
        ).title == trim(titles[i]->0),
        (forall|j: int| 0 <= j < titles.len() ==> !usable(titles, j)) ==> details_of(
            site,
            key,
            current_title,
            current_cover,
            titles,
            abs_srcs,
            srcs,
            authors,
            descriptions,
        ).title == current_title,
        details_of(site, key, current_title, current_cover, titles, abs_srcs, srcs, authors, descriptions).url
            == book_url_of(site, key),
{
    if usable(titles, i) && (forall|j: int| 0 <= j < i ==> !usable(titles, j)) {
        lemma_first_usable_wins(titles, i);
    }
    if forall|j: int| 0 <= j < titles.len() ==> !usable(titles, j) {
        lemma_no_usable_candidate(titles);
    }
}

/// A cover already known is kept when the page offers none, and without one
/// the cover address derived from the key is used.
pub proof fn lemma_details_cover_kept(
    site: Seq<char>,
    key: Seq<char>,
    current_title: Seq<char>,
    current_cover: Option<Seq<char>>,
    titles: Seq<Option<Seq<char>>>,
    abs_srcs: Seq<Option<Seq<char>>>,
    srcs: Seq<Option<Seq<char>>>,
    authors: Seq<Option<Seq<char>>>,
    descriptions: Seq<Option<Seq<char>>>,
)
    requires
        forall|j: int| 0 <= j < abs_srcs.len() ==> !usable(abs_srcs, j),
        forall|j: int| 0 <= j < srcs.len() ==> !usable(srcs, j),
    ensures
        details_of(site, key, current_title, current_cover, titles, abs_srcs, srcs, authors, descriptions).cover
            == (match current_cover {
            Some(c) => c,
            None => cover_url_of(key),
        }),
{
    lemma_no_usable_candidate(abs_srcs);
    lemma_no_usable_candidate(srcs);
}

/// The details of a book from the values read off its detail page: the
/// texts of the title selectors, the `abs:src` and `src` values of the cover
/// selectors, and the texts of the author and description selectors.
pub fn manga_details(
    site: &str,
    key: &str,
    current_title: &str,
    current_cover: Option<&str>,
    title_candidates: &Vec<Option<String>>,
    cover_abs_candidates: &Vec<Option<String>>,
    cover_src_candidates: &Vec<Option<String>>,
    author_candidates: &Vec<Option<String>>,
    description_candidates: &Vec<Option<String>>,
) -> (details: MangaDetails)
    ensures
        details.deep_view() == details_of(
            site@,
            key@,
            current_title@,
            current_cover.deep_view(),
            title_candidates.deep_view(),
            cover_abs_candidates.deep_view(),
            cover_src_candidates.deep_view(),
            author_candidates.deep_view(),
            description_candidates.deep_view(),
        ),
{
    let page = book_url(site, key);
    let title = match first_text(title_candidates) {
        Some(t) => t,
        None => string_of(&chars_of(current_title)),
    };
    let found = match first_text(cover_abs_candidates) {
        Some(c) => Some(c),
        None => first_text(cover_src_candidates),
    };
    let parsed = match found {
        Some(c) => resolve_url(site, c.as_str(), page.as_str()),
        None => None,
    };
    let cover = match parsed {
        Some(c) => c,
        None => match current_cover {
            Some(c) => string_of(&chars_of(c)),
            None => cover_url(key),
        },
    };
    let author = parse_author(author_candidates);
    let description = parse_description(description_candidates);
    MangaDetails { title, cover, author, description, url: page }
}

/// A link of the chapter index: its resolved and raw addresses and its text.
#[derive(Debug)]
pub struct ChapterLink {
    pub abs_href: Option<String>,
    pub href: Option<String>,
    pub text: Option<String>,
}

impl DeepView for ChapterLink {
    type V = SearchLinkView;

    open spec fn deep_view(&self) -> SearchLinkView {
        SearchLinkView {
            abs_href: self.abs_href.deep_view(),
            href: self.href.deep_view(),
            title: None,
            text: self.text.deep_view(),
        }
    }
}

/// A chapter: its key and address (the same resolved address), its title,
/// and its number, the 1-based position of its link in the index.
#[derive(Debug)]
pub struct ChapterEntry {
    pub key: String,
    pub url: String,
    pub title: Option<String>,
    pub number: usize,
}

pub struct ChapterEntryView {
    pub key: Seq<char>,
    pub url: Seq<char>,
    pub title: Option<Seq<char>>,
    pub number: nat,
}

impl DeepView for ChapterEntry {
    type V = ChapterEntryView;

    open spec fn deep_view(&self) -> ChapterEntryView {
        ChapterEntryView {
            key: self.key@,
            url: self.url@,
            title: self.title.deep_view(),
            number: self.number as nat,
        }
    }
}

/// A chapter title: the trimmed text, when not blank.
pub open spec fn chapter_title(text: Option<Seq<char>>) -> Option<Seq<char>> {
    match text {
        Some(t) => if trim(t).len() > 0 {
            Some(trim(t))
        } else {
            None
        },
        None => None,
    }
}

/// The chapters of an index page in page order: each link whose address
/// resolves against the index page.
pub open spec fn parsed_chapters(
    site: Seq<char>,
    index: Seq<char>,
    links: Seq<SearchLinkView>,
) -> Seq<ChapterEntryView>
    decreases links.len(),
{
    if links.len() == 0 {
        Seq::<ChapterEntryView>::empty()
    } else {
        let prev = parsed_chapters(site, index, links.drop_last());
        let l = links.last();
        match link_address(l) {
            None => prev,
            Some(h) => match resolved_url(site, h, index) {
                None => prev,
                Some(u) => prev.push(
                    ChapterEntryView {
                        key: u,
                        url: u,
                        title: chapter_title(l.text),
                        number: links.len(),
                    },
                ),
            },
        }
    }
}

/// Link `i` of the index has an address that resolves against the index.
pub open spec fn resolvable_link(
    site: Seq<char>,
    index: Seq<char>,
    links: Seq<SearchLinkView>,
    i: int,
) -> bool {
    &&& 0 <= i < links.len()
    &&& link_address(links[i]) is Some
    &&& resolved_url(site, link_address(links[i])->0, index) is Some
}

/// Chapter `c` is the one of link `i`: numbered `i + 1`, keyed and addressed
/// by the link's resolved address, titled by its trimmed text when not blank.
pub open spec fn chapter_of_link(
    site: Seq<char>,
    index: Seq<char>,
    links: Seq<SearchLinkView>,
    i: int,
    c: ChapterEntryView,
) -> bool {
    &&& c.number == i + 1
    &&& Some(c.url) == resolved_url(site, link_address(links[i])->0, index)
    &&& c.key == c.url
    &&& c.title == (if links[i].text matches Some(t) && trim(t).len() > 0 {
        Some(trim(links[i].text->0))
    } else {
        None
    })
}

/// Every index link that resolves gives a chapter.
pub proof fn lemma_every_link_gives_chapter(
    site: Seq<char>,
    index: Seq<char>,
    links: Seq<SearchLinkView>,
    i: int,
)
    requires
        resolvable_link(site, index, links, i),
    ensures
        exists|k: int|
            0 <= k < parsed_chapters(site, index, links).len() && chapter_of_link(
                site,
                index,
                links,
                i,
                #[trigger] parsed_chapters(site, index, links)[k],
            ),
    decreases links.len(),
{
    let prev = parsed_chapters(site, index, links.drop_last());
    let cs = parsed_chapters(site, index, links);
    if i < links.len() - 1 {
        assert(links.drop_last()[i] == links[i]);
        assert(resolvable_link(site, index, links.drop_last(), i));
        lemma_every_link_gives_chapter(site, index, links.drop_last(), i);
        let k = choose|k: int|
            0 <= k < prev.len() && chapter_of_link(
                site,
                index,
                links.drop_last(),
                i,
                #[trigger] prev[k],
            );
        assert(cs[k] == prev[k]);
        assert(chapter_of_link(site, index, links, i, cs[k]));
    } else {
        assert(links.last() == links[i]);
        assert(chapter_of_link(site, index, links, i, cs[cs.len() - 1]));
    }
}

/// Every chapter comes from an index link that resolves.
pub proof fn lemma_every_chapter_from_link(
    site: Seq<char>,
    index: Seq<char>,
    links: Seq<SearchLinkView>,
    k: int,
)
    requires
        0 <= k < parsed_chapters(site, index, links).len(),
    ensures
        ({
            let c = parsed_chapters(site, index, links)[k];
            resolvable_link(site, index, links, c.number - 1) && chapter_of_link(
                site,
                index,
                links,
                c.number - 1,
                c,
            )
        }),
    decreases links.len(),
{
    let prev = parsed_chapters(site, index, links.drop_last());
    let cs = parsed_chapters(site, index, links);
    if k < prev.len() {
        assert(cs[k] == prev[k]);
        lemma_every_chapter_from_link(site, index, links.drop_last(), k);
        let i = prev[k].number - 1;
        assert(links.drop_last()[i] == links[i]);
    } else {
        assert(links.last() == links[links.len() - 1]);
    }
}

/// Why no chapter could be read.
#[derive(Debug, Clone, Copy, PartialEq, Eq)]
pub enum ChapterError {
    /// The index page held no chapter link.
    NoChapters,
    /// The chapter page held no text.
    NoText,
}

/// The text shown to the user when no chapter could be read.
pub open spec fn chapter_message(e: ChapterError) -> Seq<char> {
    match e {
        ChapterError::NoChapters => "没有解析到章节目录；Wenku8 可能要求登录，或页面结构已变化"@,
        ChapterError::NoText => "没有找到章节正文（#acontent / #content）"@,
    }
}

impl ChapterError {
    /// The text shown to the user.
    pub fn message(&self) -> (m: String)
        ensures
            m@ == chapter_message(*self),
    {
        match self {
            ChapterError::NoChapters => owned("没有解析到章节目录；Wenku8 可能要求登录，或页面结构已变化"),
            ChapterError::NoText => owned("没有找到章节正文（#acontent / #content）"),
        }
    }
}

/// The address a chapter's text is read from: its URL, else its key.
pub fn chapter_address(url: Option<&str>, key: &str) -> (address: String)
    ensures
        address@ == (match url.deep_view() {
            Some(u) => u,
            None => key@,
        }),
{
    match url {
        Some(u) => owned(u),
        None => owned(key),
    }
}

fn clone_opt(o: &Option<String>) -> (r: Option<String>)
    ensures
        r.deep_view() == o.deep_view(),
{
    match o {
        Some(s) => Some(s.clone()),
        None => None,
    }
}

/// The chapters of a book's index page (`index` is its address), newest
/// first: the page lists them oldest first, so the parsed list is reversed.
pub fn parse_chapter_list(site: &str, index: &str, links: &Vec<ChapterLink>) -> (r: Result<
    Vec<ChapterEntry>,
    ChapterError,
>)
    ensures
        parsed_chapters(site@, index@, links.deep_view()).len() == 0 <==> r is Err,
        r is Err ==> r == Err::<Vec<ChapterEntry>, ChapterError>(ChapterError::NoChapters),
        r matches Ok(chapters) ==> ({
            let parsed = parsed_chapters(site@, index@, links.deep_view());
            &&& chapters@.len() == parsed.len()
            &&& forall|k: int|
                0 <= k < parsed.len() ==> (#[trigger] chapters.deep_view()[k]) == parsed[parsed.len()
                    - 1 - k]
        }),
{
    let ghost ls = links.deep_view();
    let mut parsed: Vec<ChapterEntry> = Vec::new();
    let mut i: usize = 0;
    assert(ls.take(0) =~= Seq::<SearchLinkView>::empty());
    assert(parsed.deep_view() =~= Seq::<ChapterEntryView>::empty());
    while i < links.len()
        invariant
            i <= links@.len(),
            ls == links.deep_view(),
            parsed.deep_view() == parsed_chapters(site@, index@, ls.take(i as int)),
        decreases links@.len() - i,
    {
        let ghost prev = parsed.deep_view();
        assert(ls.take(i + 1).drop_last() =~= ls.take(i as int));
        assert(ls.take(i + 1).last() == ls[i as int]);
        let link = &links[i];
        assert(ls[i as int] == link.deep_view());
        let address = match &link.abs_href {
            Some(a) => if trimmed_str(a.as_str()).len() > 0 {
                Some(a.clone())
            } else {
                clone_opt(&link.href)
            },
            None => clone_opt(&link.href),
        };
        if let Some(h) = address {
            if let Some(u) = resolve_url(site, h.as_str(), index) {
                let title = match &link.text {
                    Some(t) => {
                        let tt = trimmed_str(t.as_str());
                        if tt.len() > 0 {
                            Some(string_of(&tt))
                        } else {
                            None
                        }
                    },
                    None => None,
                };
                let key = u.clone();
                let entry = ChapterEntry { key, url: u, title, number: i + 1 };
                parsed.push(entry);
                assert(parsed.deep_view() =~= prev.push(entry.deep_view()));
            }
        }
        i = i + 1;
    }
    assert(ls.take(links@.len() as int) =~= ls);
    if parsed.len() == 0 {
        return Err(ChapterError::NoChapters);
    }
    let ghost pv = parsed.deep_view();
    let mut chapters: Vec<ChapterEntry> = Vec::new();
    while parsed.len() > 0
        invariant
            pv.len() == parsed@.len() + chapters@.len(),
            forall|k: int| 0 <= k < parsed@.len() ==> (#[trigger] parsed.deep_view()[k]) == pv[k],
            forall|k: int|
                0 <= k < chapters@.len() ==> (#[trigger] chapters.deep_view()[k]) == pv[pv.len() - 1
                    - k],
        decreases parsed@.len(),
    {
        let ghost before = parsed.deep_view();
        let ghost done = chapters.deep_view();
        let last = parsed.pop().unwrap();
        assert(last.deep_view() == before[before.len() - 1]);
        chapters.push(last);
        assert forall|k: int| 0 <= k < parsed@.len() implies (#[trigger] parsed.deep_view()[k])
            == pv[k] by {
            assert(parsed.deep_view()[k] == before[k]);
        }
        assert forall|k: int| 0 <= k < chapters@.len() implies (#[trigger] chapters.deep_view()[k])
            == pv[pv.len() - 1 - k] by {
            if k < done.len() {
                assert(chapters.deep_view()[k] == done[k]);
            }
        }
    }
    Ok(chapters)
}

/// In page order, chapter numbers rise strictly and lie between 1 and the
/// number of index links.
pub proof fn lemma_parsed_numbers(site: Seq<char>, index: Seq<char>, links: Seq<SearchLinkView>)
    ensures
        forall|k: int|
            0 <= k < parsed_chapters(site, index, links).len() ==> 1 <= (
            #[trigger] parsed_chapters(site, index, links)[k]).number <= links.len(),
        forall|i: int, j: int|
            0 <= i < j < parsed_chapters(site, index, links).len() ==> (
            #[trigger] parsed_chapters(site, index, links)[i]).number < (
            #[trigger] parsed_chapters(site, index, links)[j]).number,
    decreases links.len(),
{
    if links.len() > 0 {
        lemma_parsed_numbers(site, index, links.drop_last());
        let prev = parsed_chapters(site, index, links.drop_last());
        let cs = parsed_chapters(site, index, links);
        assert forall|k: int| 0 <= k < cs.len() implies 1 <= (#[trigger] cs[k]).number
            <= links.len() by {
            if k < prev.len() {
                assert(cs[k] == prev[k]);
            }
        }
        assert forall|i: int, j: int| 0 <= i < j < cs.len() implies (#[trigger] cs[i]).number < (
        #[trigger] cs[j]).number by {
            assert(cs[i] == prev[i]);
            if j < prev.len() {
                assert(cs[j] == prev[j]);
            }
        }
    }
}

/// Newest first: in the returned order (the parsed list reversed), chapter
/// numbers fall strictly.
pub proof fn lemma_chapters_newest_first(
    site: Seq<char>,
    index: Seq<char>,
    links: Seq<SearchLinkView>,
)
    ensures
        ({
            let parsed = parsed_chapters(site, index, links);
            forall|i: int, j: int|
                0 <= i < j < parsed.len() ==> (#[trigger] parsed[parsed.len() - 1 - i]).number > (
                #[trigger] parsed[parsed.len() - 1 - j]).number
        }),
{
    lemma_parsed_numbers(site, index, links);
}

/// Chapter text with Windows and old Mac line ends made `\n`, trimmed.
pub open spec fn normalized_text(t: Seq<char>) -> Seq<char> {
    trim(replace_all(replace_all(t, "\r\n"@, "\n"@), "\r"@, "\n"@))
}

/// The text of the first container that has some once normalised.
pub open spec fn chapter_body(cs: Seq<Option<Seq<char>>>) -> Option<Seq<char>>
    decreases cs.len(),
{
    if cs.len() == 0 {
        None
    } else if cs[0] matches Some(t) && normalized_text(t).len() > 0 {
        Some(normalized_text(cs[0]->0))
    } else {
        chapter_body(cs.drop_first())
    }
}

/// `c` does not occur in `s`.
pub open spec fn without_char(s: Seq<char>, c: char) -> bool {
    forall|k: int| 0 <= k < s.len() ==> s[k] != c
}

/// Line ends are made `\n`: text without `\r` is only trimmed, and a
/// Windows line end between two pieces without `\r` becomes one `\n`.
pub proof fn lemma_line_ends(x: Seq<char>, y: Seq<char>)
    requires
        without_char(x, '\r'),
        without_char(y, '\r'),
    ensures
        normalized_text(x) == trim(x),
        normalized_text(x + seq!['\r', '\n'] + y) == trim(x + seq!['\n'] + y),
{
    reveal_strlit("\r\n");
    reveal_strlit("\r");
    reveal_strlit("\n");
    let crlf = "\r\n"@;
    let cr = "\r"@;
    let lf = "\n"@;
    assert(crlf =~= seq!['\r', '\n']);
    assert(lf =~= seq!['\n']);
    // Text without `\r` passes both replacements unchanged.
    assert forall|z: Seq<char>| without_char(z, '\r') implies replace_all(z, crlf, lf) == z
        && replace_all(z, cr, lf) == z by {
        lemma_replace_clean_prefix(z, Seq::<char>::empty(), crlf, lf);
        lemma_replace_clean_prefix(z, Seq::<char>::empty(), cr, lf);
        assert(z + Seq::<char>::empty() =~= z);
    }
    let w = x + seq!['\r', '\n'] + y;
    assert(w =~= x + (crlf + y));
    lemma_replace_clean_prefix(x, crlf + y, crlf, lf);
    lemma_replace_front(crlf, y, lf);
    let v = x + (lf + y);
    assert(replace_all(w, crlf, lf) == v);
    assert(without_char(v, '\r')) by {
        assert forall|k: int| 0 <= k < v.len() implies v[k] != '\r' by {
            if k < x.len() {
                assert(v[k] == x[k]);
            } else if k > x.len() {
                assert(v[k] == y[k - x.len() - 1]);
            }
        }
    }
    assert(v =~= x + seq!['\n'] + y);
}

/// Chapter text has no `\r`, is not empty, and neither begins nor ends with
/// white space.
pub proof fn lemma_chapter_body_clean(cs: Seq<Option<Seq<char>>>)
    ensures
        chapter_body(cs) matches Some(t) ==> t.len() > 0 && !is_white_space(t[0])
            && !is_white_space(t.last()) && without_char(t, '\r'),
    decreases cs.len(),
{
    if cs.len() > 0 {
        if cs[0] matches Some(t) && normalized_text(t).len() > 0 {
            reveal_strlit("\r\n");
            reveal_strlit("\r");
            reveal_strlit("\n");
            let a = replace_all(cs[0]->0, "\r\n"@, "\n"@);
            lemma_replace_removes(a, "\r"@, "\n"@);
            lemma_trim_shape(replace_all(a, "\r"@, "\n"@));
            lemma_trim_keeps_absent(replace_all(a, "\r"@, "\n"@), '\r');
        } else {
            lemma_chapter_body_clean(cs.drop_first());
        }
    }
}

/// Replacing every single-character pattern leaves none of it when the
/// replacement does not hold it.
proof fn lemma_replace_removes(s: Seq<char>, p: Seq<char>, r: Seq<char>)
    requires
        p.len() == 1,
        without_char(r, p[0]),
    ensures
        without_char(replace_all(s, p, r), p[0]),
    decreases s.len(),
{
    if s.len() > 0 {
        let out = replace_all(s, p, r);
        if starts_with(s, p) {
            lemma_replace_removes(s.skip(1), p, r);
            let rest = replace_all(s.skip(1), p, r);
            assert forall|k: int| 0 <= k < out.len() implies out[k] != p[0] by {
                if k < r.len() {
                    assert(out[k] == r[k]);
                } else {
                    assert(out[k] == rest[k - r.len()]);
                }
            }
        } else {
            lemma_replace_removes(s.drop_first(), p, r);
            let rest = replace_all(s.drop_first(), p, r);
            assert(s.take(1) =~= seq![s[0]]);
            assert(s[0] != p[0]) by {
                if s[0] == p[0] {
                    assert(p =~= seq![s[0]]);
                }
            }
            assert forall|k: int| 0 <= k < out.len() implies out[k] != p[0] by {
                if k > 0 {
                    assert(out[k] == rest[k - 1]);
                }
            }
        }
    }
}

/// Trimming adds no character.
proof fn lemma_trim_keeps_absent(s: Seq<char>, c: char)
    requires
        without_char(s, c),
    ensures
        without_char(trim(s), c),
{
    lemma_trim_start_absent(s, c);
    lemma_trim_end_absent(trim_start(s), c);
}

proof fn lemma_trim_start_absent(s: Seq<char>, c: char)
    requires
        without_char(s, c),
    ensures
        without_char(trim_start(s), c),
    decreases s.len(),
{
    if s.len() > 0 && is_white_space(s[0]) {
        assert forall|k: int| 0 <= k < s.drop_first().len() implies s.drop_first()[k] != c by {
            assert(s.drop_first()[k] == s[k + 1]);
        }
        lemma_trim_start_absent(s.drop_first(), c);
    }
}

proof fn lemma_trim_end_absent(s: Seq<char>, c: char)
    requires
        without_char(s, c),
    ensures
        without_char(trim_end(s), c),
    decreases s.len(),
{
    if s.len() > 0 && is_white_space(s.last()) {
        assert forall|k: int| 0 <= k < s.drop_last().len() implies s.drop_last()[k] != c by {
            assert(s.drop_last()[k] == s[k]);
        }
        lemma_trim_end_absent(s.drop_last(), c);
    }
}

/// The text of a chapter, from the texts of the body containers (in
/// selector order).
pub fn chapter_text(candidates: &Vec<Option<String>>) -> (r: Result<String, ChapterError>)
    ensures
        chapter_body(candidates.deep_view()) matches Some(t) ==> (r matches Ok(s) && s@ == t),
        chapter_body(candidates.deep_view()) is None ==> r == Err::<String, ChapterError>(
            ChapterError::NoText,
        ),
{
    let ghost cs = candidates.deep_view();
    proof {
        reveal_strlit("\r\n");
        reveal_strlit("\r");
    }
    let crlf = chars_of("\r\n");
    let cr = chars_of("\r");
    let lf = chars_of("\n");
    let mut i: usize = 0;
    assert(cs.skip(0) =~= cs);
    while i < candidates.len()
        invariant
            i <= candidates@.len(),
            cs == candidates.deep_view(),
            crlf@ == "\r\n"@,
            cr@ == "\r"@,
            lf@ == "\n"@,
            crlf@.len() > 0,
            cr@.len() > 0,
            chapter_body(cs) == chapter_body(cs.skip(i as int)),
        decreases candidates@.len() - i,
    {
        assert(cs.skip(i as int)[0] == cs[i as int]);
        assert(cs.skip(i as int).drop_first() =~= cs.skip(i + 1));
        if let Some(t) = &candidates[i] {
            let tc = chars_of(t.as_str());
            let a = replace(&tc, &crlf, &lf);
            let b = replace(&a, &cr, &lf);
            let c = trimmed(&b);
            if c.len() > 0 {
                return Ok(string_of(&c));
            }
        }
        i = i + 1;
    }
    Err(ChapterError::NoText)
}

} // verus!
