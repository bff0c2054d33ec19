//! Reading values taken off pages: book keys in links, the first usable text
//! of a list of candidates, labels, authors and descriptions.

use vstd::prelude::*;
use vstd::utf8::encode_utf8;

use crate::site::{base_url_of, book_url_of, reader_url_of};
use crate::text::{
    all_digits, before_first, is_digit, lemma_find_first, lemma_find_none, occurs_at, chars_of, copy_range, digit_prefix, find, find_in, leading_digits,
    prefix_before, replace, replace_all, starts_with, starts_with_str,
    string_of, trim, trimmed, trimmed_str, utf8_len_at_most,
};

verus! {

/// The key in a `/book/<key>.htm` address: what follows the first `/book/`,
/// up to the next `.` and then the next `/`.
pub open spec fn path_book_key(url: Seq<char>) -> Seq<char> {
    match find(url, "/book/"@) {
        Some(p) => before_first(before_first(url.skip(p + 6), '.'), '/'),
        None => Seq::<char>::empty(),
    }
}

/// The digits of the parameter value that follows the first `marker` in `url`.
pub open spec fn query_book_key(url: Seq<char>, marker: Seq<char>) -> Seq<char> {
    match find(url, marker) {
        Some(p) => digit_prefix(before_first(url.skip(p + marker.len()), '&')),
        None => Seq::<char>::empty(),
    }
}

/// The book key that a link address names: from a `/book/` path, else from
/// the first of the `?id=`, `&id=`, `?aid=`, `&aid=` parameters that has
/// digits.
pub open spec fn book_key(url: Seq<char>) -> Option<Seq<char>> {
    if path_book_key(url).len() > 0 {
        Some(path_book_key(url))
    } else if query_book_key(url, "?id="@).len() > 0 {
        Some(query_book_key(url, "?id="@))
    } else if query_book_key(url, "&id="@).len() > 0 {
        Some(query_book_key(url, "&id="@))
    } else if query_book_key(url, "?aid="@).len() > 0 {
        Some(query_book_key(url, "?aid="@))
    } else if query_book_key(url, "&aid="@).len() > 0 {
        Some(query_book_key(url, "&aid="@))
    } else {
        None
    }
}

fn path_key(url: &[char]) -> (key: Vec<char>)
    ensures
        key@ == path_book_key(url@),
{
    proof {
        reveal_strlit("/book/");
    }
    let marker = chars_of("/book/");
    assert(marker@.len() == 6);
    match find_in(url, &marker) {
        Some(p) => {
            assert(p + 6 <= url.len());
            let tail = copy_range(url, p + 6, url.len());
            assert(tail@ =~= url@.skip(p + 6));
            let first = prefix_before(&tail, '.');
            prefix_before(&first, '/')
        },
        None => Vec::new(),
    }
}

fn query_key(url: &[char], marker: &str) -> (key: Vec<char>)
    ensures
        key@ == query_book_key(url@, marker@),
{
    let m = chars_of(marker);
    match find_in(url, &m) {
        Some(p) => {
            assert(p + m@.len() <= url.len());
            let tail = copy_range(url, p + m.len(), url.len());
            assert(tail@ =~= url@.skip(p + m@.len()));
            let value = prefix_before(&tail, '&');
            leading_digits(&value)
        },
        None => Vec::new(),
    }
}

/// The book key named by a link address (see `book_key`).
pub fn extract_book_key(url: &str) -> (key: Option<String>)
    ensures
        key.deep_view() == book_key(url@),
{
    let uc = chars_of(url);
    let k = path_key(&uc);
    if k.len() > 0 {
        return Some(string_of(&k));
    }
    let k = query_key(&uc, "?id=");
    if k.len() > 0 {
        return Some(string_of(&k));
    }
    let k = query_key(&uc, "&id=");
    if k.len() > 0 {
        return Some(string_of(&k));
    }
    let k = query_key(&uc, "?aid=");
    if k.len() > 0 {
        return Some(string_of(&k));
    }
    let k = query_key(&uc, "&aid=");
    if k.len() > 0 {
        return Some(string_of(&k));
    }
    None
}

/// A sequence without `c` has no occurrence of it.
proof fn lemma_lacks(key: Seq<char>, c: char)
    requires
        forall|i: int| 0 <= i < key.len() ==> key[i] != c,
    ensures
        find(key, seq![c]) is None,
{
    assert forall|j: int| 0 <= j implies !occurs_at(key, seq![c], j) by {
        if occurs_at(key, seq![c], j) {
            assert(key.subrange(j, j + 1)[0] == key[j]);
        }
    }
    lemma_find_none(key, seq![c], 0);
}

/// A digit string has no occurrence of a character that is not a digit.
proof fn lemma_digits_lack(key: Seq<char>, c: char)
    requires
        all_digits(key),
        !is_digit(c),
    ensures
        find(key, seq![c]) is None,
{
    assert forall|i: int| 0 <= i < key.len() implies key[i] != c by {
        assert(is_digit(key[i]));
    }
    lemma_lacks(key, c);
}

/// A key of a detail address: non-empty, without `.` or `/`.
pub open spec fn is_plain_key(key: Seq<char>) -> bool {
    &&& key.len() > 0
    &&& forall|i: int| 0 <= i < key.len() ==> #[trigger] key[i] != '.' && key[i] != '/'
}

/// A `/book/<key>.htm` address names its key: whatever comes before the
/// first `/book/`, a non-empty key without `.` or `/` that follows it is the
/// book key.
pub proof fn lemma_path_key_of_book_url(base: Seq<char>, key: Seq<char>)
    requires
        is_plain_key(key),
        forall|j: int| 0 <= j < base.len() ==> !occurs_at(base + "/book/"@, "/book/"@, j),
    ensures
        path_book_key(base + "/book/"@ + key + ".htm"@) == key,
{
    reveal_strlit("/book/");
    reveal_strlit(".htm");
    let p = "/book/"@;
    let url = base + p + key + ".htm"@;
    assert forall|j: int| 0 <= j < base.len() implies !occurs_at(url, p, j) by {
        if occurs_at(url, p, j) {
            assert(url.subrange(j, j + 6) =~= (base + p).subrange(j, j + 6));
            assert(occurs_at(base + p, p, j));
        }
    }
    assert(occurs_at(url, p, base.len() as int)) by {
        assert(url.subrange(base.len() as int, base.len() as int + 6) =~= p);
    }
    lemma_find_first(url, p, 0, base.len() as int);
    let tail = url.skip(base.len() as int + 6);
    assert(tail =~= key + ".htm"@);
    assert forall|j: int| 0 <= j < key.len() implies !occurs_at(tail, seq!['.'], j) by {
        if occurs_at(tail, seq!['.'], j) {
            assert(tail.subrange(j, j + 1)[0] == tail[j]);
            assert(tail[j] == key[j]);
        }
    }
    assert(occurs_at(tail, seq!['.'], key.len() as int)) by {
        assert(tail.subrange(key.len() as int, key.len() as int + 1) =~= seq!['.']);
    }
    lemma_find_first(tail, seq!['.'], 0, key.len() as int);
    assert(before_first(tail, '.') =~= key);
    lemma_lacks(key, '/');
}

/// The detail address of a book names its key again: for either known site
/// and a non-empty key without `.` or `/`, `extract_book_key(book_url(site,
/// key))` is the key.
pub proof fn lemma_book_url_names_key(site: Seq<char>, key: Seq<char>)
    requires
        site == "wenku8.net"@ || site == "wenku8.cc"@,
        is_plain_key(key),
    ensures
        book_key(book_url_of(site, key)) == Some(key),
{
    reveal_strlit("http://");
    reveal_strlit("https://");
    reveal_strlit("https://www.");
    reveal_strlit("/book/");
    reveal_strlit("wenku8.net");
    reveal_strlit("wenku8.cc");
    assert(!starts_with(key, "http://"@)) by {
        if starts_with(key, "http://"@) {
            assert(key.take(7)[5] == key[5]);
        }
    }
    assert(!starts_with(key, "https://"@)) by {
        if starts_with(key, "https://"@) {
            assert(key.take(8)[6] == key[6]);
        }
    }
    let base = base_url_of(site);
    let p = "/book/"@;
    assert forall|j: int| 0 <= j < base.len() implies !occurs_at(base + p, p, j) by {
        if occurs_at(base + p, p, j) {
            let w = (base + p).subrange(j, j + 6);
            assert(w[0] == (base + p)[j]);
            assert(w[1] == (base + p)[j + 1]);
            assert(w[0] == '/' && w[1] == 'b');
            assert((base + p)[j] == base[j]);
        }
    }
    lemma_path_key_of_book_url(base, key);
    assert(book_url_of(site, key) == base + p + key + ".htm"@);
}

proof fn lemma_digit_prefix_whole(s: Seq<char>)
    requires
        all_digits(s),
    ensures
        digit_prefix(s) == s,
    decreases s.len(),
{
    if s.len() > 0 {
        assert(all_digits(s.drop_first())) by {
            assert forall|i: int| 0 <= i < s.drop_first().len() implies is_digit(
                #[trigger] s.drop_first()[i],
            ) by {
                assert(s.drop_first()[i] == s[i + 1]);
            }
        }
        lemma_digit_prefix_whole(s.drop_first());
        assert(is_digit(s[0]));
        assert(seq![s[0]] + s.drop_first() =~= s);
    }
}

/// The chapter-index address of a book names its key again: for either
/// known site and a key of digits, `extract_book_key(reader_url(site, key))`
/// is the key (taken from its `?aid=` parameter).
pub proof fn lemma_reader_url_names_key(site: Seq<char>, key: Seq<char>)
    requires
        site == "wenku8.net"@ || site == "wenku8.cc"@,
        key.len() > 0,
        all_digits(key),
    ensures
        book_key(reader_url_of(site, key)) == Some(key),
{
    reveal_strlit("https://www.");
    reveal_strlit("/modules/article/reader.php?aid=");
    reveal_strlit("/book/");
    reveal_strlit("?id=");
    reveal_strlit("&id=");
    reveal_strlit("?aid=");
    reveal_strlit("wenku8.net");
    reveal_strlit("wenku8.cc");
    let pre = base_url_of(site) + "/modules/article/reader.php?aid="@;
    let url = pre + key;
    assert(reader_url_of(site, key) == url);
    let n = pre.len() as int;
    assert forall|j: int| 0 <= j < url.len() && j >= n implies url[j] == key[j - n] && is_digit(
        #[trigger] url[j],
    ) by {}
    assert forall|j: int| 0 <= j < n implies #[trigger] url[j] == pre[j] by {}
    // No `/book/`.
    assert forall|j: int| 0 <= j implies !occurs_at(url, "/book/"@, j) by {
        if occurs_at(url, "/book/"@, j) {
            let w = url.subrange(j, j + 6);
            assert(w[0] == url[j] && w[1] == url[j + 1]);
        }
    }
    lemma_find_none(url, "/book/"@, 0);
    // No `?id=`.
    assert forall|j: int| 0 <= j implies !occurs_at(url, "?id="@, j) by {
        if occurs_at(url, "?id="@, j) {
            let w = url.subrange(j, j + 4);
            assert(w[0] == url[j] && w[1] == url[j + 1]);
        }
    }
    lemma_find_none(url, "?id="@, 0);
    // No `&id=`.
    assert forall|j: int| 0 <= j implies !occurs_at(url, "&id="@, j) by {
        if occurs_at(url, "&id="@, j) {
            let w = url.subrange(j, j + 4);
            assert(w[0] == url[j]);
        }
    }
    lemma_find_none(url, "&id="@, 0);
    // `?aid=` first stands just before the key.
    let q = n - 5;
    assert forall|j: int| 0 <= j < q implies !occurs_at(url, "?aid="@, j) by {
        if occurs_at(url, "?aid="@, j) {
            let w = url.subrange(j, j + 5);
            assert(w[0] == url[j]);
        }
    }
    assert(occurs_at(url, "?aid="@, q)) by {
        assert(url.subrange(q, q + 5) =~= "?aid="@);
    }
    lemma_find_first(url, "?aid="@, 0, q);
    assert(url.skip(q + 5) =~= key);
    lemma_digits_lack(key, '&');
    lemma_digit_prefix_whole(key);
}

/// The first candidate that is present and not blank, trimmed.
pub open spec fn first_nonblank(cs: Seq<Option<Seq<char>>>) -> Option<Seq<char>>
    decreases cs.len(),
{
    if cs.len() == 0 {
        None
    } else if cs[0] matches Some(t) && trim(t).len() > 0 {
        Some(trim(cs[0]->0))
    } else {
        first_nonblank(cs.drop_first())
    }
}

/// Candidate `i` is present and not blank.
pub open spec fn usable(cs: Seq<Option<Seq<char>>>, i: int) -> bool {
    0 <= i < cs.len() && cs[i] is Some && trim(cs[i]->0).len() > 0
}

/// The first usable candidate wins: when candidate `i` is usable and every
/// earlier one is missing or blank, the result is candidate `i` trimmed.
pub proof fn lemma_first_usable_wins(cs: Seq<Option<Seq<char>>>, i: int)
    requires
        usable(cs, i),
        forall|j: int| 0 <= j < i ==> !usable(cs, j),
    ensures
        first_nonblank(cs) == Some(trim(cs[i]->0)),
    decreases i,
{
    if i > 0 {
        assert(!usable(cs, 0));
        assert forall|j: int| 0 <= j < i - 1 implies !usable(cs.drop_first(), j) by {
            assert(cs.drop_first()[j] == cs[j + 1]);
            assert(!usable(cs, j + 1));
        }
        assert(cs.drop_first()[i - 1] == cs[i]);
        lemma_first_usable_wins(cs.drop_first(), i - 1);
    }
}

/// Without a usable candidate there is no result.
pub proof fn lemma_no_usable_candidate(cs: Seq<Option<Seq<char>>>)
    requires
        forall|j: int| 0 <= j < cs.len() ==> !usable(cs, j),
    ensures
        first_nonblank(cs) is None,
    decreases cs.len(),
{
    if cs.len() > 0 {
        assert(!usable(cs, 0));
        assert forall|j: int| 0 <= j < cs.len() - 1 implies !usable(cs.drop_first(), j) by {
            assert(cs.drop_first()[j] == cs[j + 1]);
            assert(!usable(cs, j + 1));
        }
        lemma_no_usable_candidate(cs.drop_first());
    }
}

/// The first usable text among the texts that a list of selectors found (in
/// selector order; `None` where a selector found nothing).
pub fn first_text(candidates: &Vec<Option<String>>) -> (text: Option<String>)
    ensures
        text.deep_view() == first_nonblank(candidates.deep_view()),
{
    let ghost cs = candidates.deep_view();
    let mut i: usize = 0;
    assert(cs.skip(0) =~= cs);
    while i < candidates.len()
        invariant
            i <= candidates@.len(),
            cs == candidates.deep_view(),
            first_nonblank(cs) == first_nonblank(cs.skip(i as int)),
        decreases candidates@.len() - i,
    {
        assert(cs.skip(i as int)[0] == cs[i as int]);
        assert(cs.skip(i as int).drop_first() =~= cs.skip(i + 1));
        if let Some(t) = &candidates[i] {
            let tt = trimmed_str(t.as_str());
            if tt.len() > 0 {
                return Some(string_of(&tt));
            }
        }
        i = i + 1;
    }
    None
}

/// The first usable attribute value among those that a list of selectors
/// found; the same rule as `first_text`.
pub fn first_attr(candidates: &Vec<Option<String>>) -> (value: Option<String>)
    ensures
        value.deep_view() == first_nonblank(candidates.deep_view()),
{
    first_text(candidates)
}

/// `s` with each label in turn removed from its front (when it starts with
/// it), trimming after each removal.
pub open spec fn strip_labels(s: Seq<char>, labels: Seq<Seq<char>>) -> Seq<char>
    decreases labels.len(),
{
    if labels.len() == 0 {
        s
    } else {
        let before = strip_labels(s, labels.drop_last());
        let label = labels.last();
        if starts_with(before, label) {
            trim(before.skip(label.len() as int))
        } else {
            before
        }
    }
}

/// The trimmed text without the given leading labels.
pub fn clean_label(text: &str, labels: &[&str]) -> (out: String)
    ensures
        out@ == strip_labels(trim(text@), labels.deep_view()),
{
    let ghost ls = labels.deep_view();
    let mut s = trimmed_str(text);
    let mut i: usize = 0;
    assert(ls.take(0) =~= Seq::<Seq<char>>::empty());
    while i < labels.len()
        invariant
            i <= labels@.len(),
            ls == labels.deep_view(),
            s@ == strip_labels(trim(text@), ls.take(i as int)),
        decreases labels@.len() - i,
    {
        assert(ls.take(i + 1).drop_last() =~= ls.take(i as int));
        assert(ls.take(i + 1).last() == ls[i as int]);
        assert(ls[i as int] == labels@[i as int]@);
        let label = chars_of(labels[i]);
        if starts_with_str(&s, labels[i]) {
            let rest = copy_range(&s, label.len(), s.len());
            assert(rest@ =~= s@.skip(label@.len() as int));
            s = trimmed(&rest);
        }
        i = i + 1;
    }
    assert(ls.take(labels@.len() as int) =~= ls);
    string_of(&s)
}

/// The labels that precede an author's name.
pub open spec fn author_labels() -> Seq<Seq<char>> {
    seq!["小说作者："@, "小说作者:"@, "作者："@, "作者:"@]
}

/// The author: the first usable candidate text without its label, if
/// anything remains.
pub open spec fn author_of(cs: Seq<Option<Seq<char>>>) -> Option<Seq<char>> {
    match first_nonblank(cs) {
        Some(t) => {
            let a = strip_labels(trim(t), author_labels());
            if a.len() > 0 {
                Some(a)
            } else {
                None
            }
        },
        None => None,
    }
}

/// The author, from the texts of the author-cell selectors.
pub fn parse_author(candidates: &Vec<Option<String>>) -> (author: Option<String>)
    ensures
        author.deep_view() == author_of(candidates.deep_view()),
{
    match first_text(candidates) {
        Some(t) => {
            let labels: [&str; 4] = ["小说作者：", "小说作者:", "作者：", "作者:"];
            assert(labels.deep_view() =~= author_labels());
            let a = clean_label(t.as_str(), labels.as_slice());
            if a.as_str().is_empty() {
                None
            } else {
                Some(a)
            }
        },
        None => None,
    }
}

/// A description candidate with the `内容简介` heading removed, trimmed.
pub open spec fn cleaned_description(s: Seq<char>) -> Seq<char> {
    trim(
        replace_all(
            replace_all(s, "内容简介："@, Seq::<char>::empty()),
            "内容简介"@,
            Seq::<char>::empty(),
        ),
    )
}

/// The first candidate whose trimmed text is longer than twenty bytes and
/// that keeps some text once the heading is removed.
pub open spec fn description_of(cs: Seq<Option<Seq<char>>>) -> Option<Seq<char>>
    decreases cs.len(),
{
    if cs.len() == 0 {
        None
    } else if cs[0] matches Some(t) && encode_utf8(trim(t)).len() > 20 && cleaned_description(
        trim(t),
    ).len() > 0 {
        Some(cleaned_description(trim(cs[0]->0)))
    } else {
        description_of(cs.drop_first())
    }
}

/// The description, from the texts of the description selectors.
pub fn parse_description(candidates: &Vec<Option<String>>) -> (text: Option<String>)
    ensures
        text.deep_view() == description_of(candidates.deep_view()),
{
    let ghost cs = candidates.deep_view();
    proof {
        reveal_strlit("内容简介：");
        reveal_strlit("内容简介");
    }
    let heading_colon = chars_of("内容简介：");
    let heading = chars_of("内容简介");
    let nothing: Vec<char> = Vec::new();
    let mut i: usize = 0;
    assert(cs.skip(0) =~= cs);
    while i < candidates.len()
        invariant
            i <= candidates@.len(),
            cs == candidates.deep_view(),
            heading_colon@ == "内容简介："@,
            heading@ == "内容简介"@,
            heading_colon@.len() > 0,
            heading@.len() > 0,
            nothing@ == Seq::<char>::empty(),
            description_of(cs) == description_of(cs.skip(i as int)),
        decreases candidates@.len() - i,
    {
        assert(cs.skip(i as int)[0] == cs[i as int]);
        assert(cs.skip(i as int).drop_first() =~= cs.skip(i + 1));
        if let Some(t) = &candidates[i] {
            let s = trimmed_str(t.as_str());
            if !utf8_len_at_most(&s, 20) {
                let a = replace(&s, &heading_colon, &nothing);
                let b = replace(&a, &heading, &nothing);
                let c = trimmed(&b);
                if c.len() > 0 {
                    return Some(string_of(&c));
                }
            }
        }
        i = i + 1;
    }
    None
}

} // verus!
