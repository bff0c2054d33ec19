//! Resolution of the links found on pages against the page they were found on.

use vstd::prelude::*;

use crate::site::{base_url_chars, base_url_of};
use crate::text::{
    lemma_before_first_keeps_prefix, lemma_before_first_after_clean, lemma_before_first_start,
    lemma_last_index_after, lemma_find_first, lemma_last_index_max,
    lemma_starts_with_extend, lemma_trim_noop, lemma_trim_shape, occurs_at, before_first, chars_of, contains, copy_range, find, find_char, find_in, join_str,
    last_index, lemma_find_from_bounds, prefix_before, push_all, rfind_char, starts_with,
    starts_with_str, string_of, trim, trimmed_str,
};

verus! {

/// A link that leads nowhere: empty, a fragment, a script or inline data.
pub open spec fn is_dead_link(h: Seq<char>) -> bool {
    ||| h.len() == 0
    ||| starts_with(h, "#"@)
    ||| starts_with(h, "javascript:"@)
    ||| starts_with(h, "data:"@)
}

/// The directory of a page address that relative links resolve against: the
/// address without fragment and query, cut at its last `/` unless that `/`
/// belongs to the scheme separator (an address with no path is kept whole).
pub open spec fn base_directory(base: Seq<char>) -> Seq<char> {
    let b = before_first(before_first(base, '#'), '?');
    let cut = match last_index(b, '/') {
        Some(k) => b.take(k),
        None => b,
    };
    match find(b, "://"@) {
        Some(a) => if contains(b.skip(a + 3), seq!['/']) {
            cut
        } else {
            b
        },
        None => cut,
    }
}

/// Where the link `href` on the page `base` leads.
pub open spec fn resolved_url(site: Seq<char>, href: Seq<char>, base: Seq<char>) -> Option<
    Seq<char>,
> {
    let h = trim(href);
    if is_dead_link(h) {
        None
    } else if starts_with(h, "https://"@) || starts_with(h, "http://"@) {
        Some(h)
    } else if starts_with(h, "//"@) {
        Some("https:"@ + h)
    } else if starts_with(h, "/"@) {
        Some(base_url_of(site) + h)
    } else {
        Some(base_directory(base) + seq!['/'] + h)
    }
}

fn directory_of(base: &[char]) -> (dir: Vec<char>)
    ensures
        dir@ == base_directory(base@),
{
    let b1 = prefix_before(base, '#');
    let b = prefix_before(&b1, '?');
    let cut = match rfind_char(&b, '/') {
        Some(k) => copy_range(&b, 0, k),
        None => copy_range(&b, 0, b.len()),
    };
    proof {
        reveal_strlit("://");
    }
    let sep = chars_of("://");
    assert(sep@.len() == 3);
    match find_in(&b, &sep) {
        Some(a) => {
            proof {
                lemma_find_from_bounds(b@, sep@, 0);
            }
            let rest = copy_range(&b, a + 3, b.len());
            assert(rest@ =~= b@.skip(a + 3));
            if find_char(&rest, '/').is_some() {
                cut
            } else {
                copy_range(&b, 0, b.len())
            }
        },
        None => cut,
    }
}

/// Resolves the link `href` found on the page at `base`: dead links give
/// none, absolute links are kept, scheme-relative ones get `https:`,
/// root-relative ones go to the selected site, and other ones are taken
/// relative to the directory of `base`.
pub fn resolve_url(site: &str, href: &str, base: &str) -> (url: Option<String>)
    ensures
        url.deep_view() == resolved_url(site@, href@, base@),
{
    let h = trimmed_str(href);
    if h.len() == 0 || starts_with_str(&h, "#") || starts_with_str(&h, "javascript:")
        || starts_with_str(&h, "data:") {
        return None;
    }
    if starts_with_str(&h, "https://") || starts_with_str(&h, "http://") {
        return Some(string_of(&h));
    }
    if starts_with_str(&h, "//") {
        return Some(string_of(&join_str("https:", &h)));
    }
    if starts_with_str(&h, "/") {
        let sc = chars_of(site);
        let mut out = base_url_chars(&sc);
        push_all(&mut out, &h);
        return Some(string_of(&out));
    }
    let bc = chars_of(base);
    let mut out = directory_of(&bc);
    out.push('/');
    push_all(&mut out, &h);
    Some(string_of(&out))
}


/// The directory of an `https://` page address is an `https://` address.
proof fn lemma_directory_https(base: Seq<char>)
    requires
        starts_with(base, "https://"@),
    ensures
        starts_with(base_directory(base), "https://"@),
{
    reveal_strlit("https://");
    reveal_strlit("://");
    let p = "https://"@;
    lemma_before_first_keeps_prefix(base, '#', p);
    let b1 = before_first(base, '#');
    lemma_before_first_keeps_prefix(b1, '?', p);
    let b = before_first(b1, '?');
    assert(b.take(8) == p);
    assert forall|k: int| 0 <= k < 8 implies #[trigger] b[k] == p[k] by {
        assert(b.take(8)[k] == b[k]);
    }
    assert forall|j: int| 0 <= j < 5 implies !occurs_at(b, "://"@, j) by {
        if occurs_at(b, "://"@, j) {
            assert(b.subrange(j, j + 3)[0] == b[j]);
        }
    }
    assert(occurs_at(b, "://"@, 5)) by {
        assert(b.subrange(5, 8) =~= "://"@);
    }
    lemma_find_first(b, "://"@, 0, 5);
    if contains(b.skip(8), seq!['/']) {
        lemma_find_from_bounds(b.skip(8), seq!['/'], 0);
        let i = find(b.skip(8), seq!['/'])->0;
        assert(b.skip(8).subrange(i, i + 1)[0] == b.skip(8)[i]);
        assert(b[8 + i] == '/');
        lemma_last_index_max(b, '/', 8 + i);
        let k = last_index(b, '/')->0;
        assert(b.take(k).take(8) =~= b.take(8));
    }
}

/// Resolved links are absolute and stay put: on a page at an `https://`
/// address, every address that a link resolves to starts with `https://` or
/// `http://`, and resolves to itself on any page of any site.
pub proof fn lemma_resolved_is_absolute(
    site: Seq<char>,
    href: Seq<char>,
    base: Seq<char>,
    other_site: Seq<char>,
    other_base: Seq<char>,
)
    requires
        starts_with(base, "https://"@),
        resolved_url(site, href, base) is Some,
    ensures
        ({
            let r = resolved_url(site, href, base)->0;
            &&& starts_with(r, "https://"@) || starts_with(r, "http://"@)
            &&& resolved_url(other_site, r, other_base) == Some(r)
        }),
{
    reveal_strlit("https://");
    reveal_strlit("http://");
    reveal_strlit("//");
    reveal_strlit("/");
    reveal_strlit("https:");
    reveal_strlit("https://www.");
    reveal_strlit("#");
    reveal_strlit("javascript:");
    reveal_strlit("data:");
    let h = trim(href);
    lemma_trim_shape(href);
    let r = resolved_url(site, href, base)->0;
    assert(h.len() > 0);
    if starts_with(h, "https://"@) || starts_with(h, "http://"@) {
        assert(r == h);
    } else if starts_with(h, "//"@) {
        assert(r == "https:"@ + h);
        assert(h.take(2)[0] == h[0] && h.take(2)[1] == h[1]);
        assert(r.take(8) =~= "https://"@);
        assert(r.last() == h.last());
    } else if starts_with(h, "/"@) {
        assert(r == base_url_of(site) + h);
        assert(r.take(8) =~= "https://"@);
        assert(r.last() == h.last());
    } else {
        lemma_directory_https(base);
        let dir = base_directory(base);
        assert(r == dir + seq!['/'] + h);
        lemma_starts_with_extend(dir, seq!['/'] + h, "https://"@);
        assert(dir + (seq!['/'] + h) =~= r);
        assert(r.last() == h.last());
    }
    let n: int = if starts_with(r, "https://"@) {
        8
    } else {
        7
    };
    assert(r.take(n)[0] == r[0]);
    assert(r[0] == 'h');
    lemma_trim_noop(r);
    assert(!starts_with(r, "#"@)) by {
        if starts_with(r, "#"@) {
            assert(r.take(1)[0] == r[0]);
        }
    }
    assert(!starts_with(r, "javascript:"@)) by {
        if starts_with(r, "javascript:"@) {
            assert(r.take(11)[0] == r[0]);
        }
    }
    assert(!starts_with(r, "data:"@)) by {
        if starts_with(r, "data:"@) {
            assert(r.take(5)[0] == r[0]);
        }
    }
}


/// `c` does not occur in `s`.
pub open spec fn free_of(s: Seq<char>, c: char) -> bool {
    forall|k: int| 0 <= k < s.len() ==> s[k] != c
}

/// A link that is neither dead, nor absolute, nor rooted (after trimming).
pub open spec fn is_relative_link(href: Seq<char>) -> bool {
    let h = trim(href);
    &&& !is_dead_link(h)
    &&& !starts_with(h, "https://"@)
    &&& !starts_with(h, "http://"@)
    &&& !starts_with(h, "/"@)
}

/// A relative link lands in the directory of its page: for a page address
/// `x://d/f` followed by nothing, by a query or by a fragment (`x` without
/// `:`, none of `x`, `d`, `f` with `?` or `#`, and the file name `f` without
/// `/`), the link resolves to `x://d/` followed by the trimmed link. In
/// particular a page address ending in `/` is itself the directory.
pub proof fn lemma_relative_link_in_directory(
    site: Seq<char>,
    href: Seq<char>,
    x: Seq<char>,
    d: Seq<char>,
    f: Seq<char>,
    t: Seq<char>,
)
    requires
        is_relative_link(href),
        free_of(x, ':'),
        free_of(x, '?') && free_of(x, '#'),
        free_of(d, '?') && free_of(d, '#'),
        free_of(f, '?') && free_of(f, '#') && free_of(f, '/'),
        t.len() == 0 || t[0] == '?' || t[0] == '#',
    ensures
        resolved_url(site, href, x + "://"@ + d + seq!['/'] + f + t) == Some(
            x + "://"@ + d + seq!['/'] + trim(href),
        ),
{
    reveal_strlit("://");
    let sep = "://"@;
    let b = x + sep + d + seq!['/'] + f;
    assert forall|k: int| 0 <= k < b.len() implies b[k] != '#' && b[k] != '?' by {
        if k < x.len() {
            assert(b[k] == x[k]);
        } else if k < x.len() + 3 {
            assert(b[k] == sep[k - x.len()]);
        } else if k < x.len() + 3 + d.len() {
            assert(b[k] == d[k - x.len() - 3]);
        } else if k > x.len() + 3 + d.len() {
            assert(b[k] == f[k - x.len() - 4 - d.len()]);
        }
    }
    let base = b + t;
    lemma_before_first_after_clean(b, t, '#');
    let t1 = before_first(t, '#');
    lemma_before_first_after_clean(b, t1, '?');
    let t2 = before_first(t1, '?');
    if t.len() > 0 {
        lemma_before_first_start(t, '#');
        if t[0] == '?' {
            lemma_before_first_start(t1, '?');
        }
    }
    assert(t2.len() == 0);
    assert(b + t2 =~= b);
    assert(before_first(before_first(base, '#'), '?') == b);
    // The scheme separator first stands after `x`.
    assert forall|j: int| 0 <= j < x.len() implies !occurs_at(b, sep, j) by {
        if occurs_at(b, sep, j) {
            assert(b.subrange(j, j + 3)[0] == b[j]);
            assert(b[j] == x[j]);
        }
    }
    assert(occurs_at(b, sep, x.len() as int)) by {
        assert(b.subrange(x.len() as int, x.len() as int + 3) =~= sep);
    }
    lemma_find_first(b, sep, 0, x.len() as int);
    // A `/` follows it.
    let after = b.skip(x.len() as int + 3);
    assert(after =~= d + seq!['/'] + f);
    assert(occurs_at(after, seq!['/'], d.len() as int)) by {
        assert(after.subrange(d.len() as int, d.len() as int + 1) =~= seq!['/']);
    }
    lemma_find_from_bounds(after, seq!['/'], 0);
    assert(contains(after, seq!['/']));
    // The directory ends before the last `/`.
    assert(b =~= (x + sep + d) + seq!['/'] + f);
    lemma_last_index_after(x + sep + d, f, '/');
    assert(b.take((x + sep + d).len() as int) =~= x + sep + d);
    assert(base_directory(base) == x + sep + d);
    let h = trim(href);
    assert(!starts_with(h, "//"@)) by {
        reveal_strlit("//");
        reveal_strlit("/");
        if starts_with(h, "//"@) {
            assert(h.take(2)[0] == h[0]);
            assert(h.take(1) =~= "/"@);
        }
    }
}

} // verus!
