use wenku8::details::{chapter_text, manga_details, parse_chapter_list, ChapterError, ChapterLink};
use wenku8::parse::{clean_label, extract_book_key, first_attr, first_text, parse_author, parse_description};
use wenku8::search::{
    has_next_page, parse_search_results, parse_single_search_result, search_page_result,
    search_request, MangaEntry, SearchError, SearchLink,
};

fn some(s: &str) -> Option<String> {
    Some(s.to_string())
}

fn texts(items: &[Option<&str>]) -> Vec<Option<String>> {
    items.iter().map(|o| o.map(|s| s.to_string())).collect()
}

#[test]
fn book_keys_from_addresses() {
    assert_eq!(extract_book_key("/book/1234.htm").as_deref(), Some("1234"));
    assert_eq!(extract_book_key("https://www.wenku8.net/book/1234.htm").as_deref(), Some("1234"));
    assert_eq!(extract_book_key("https://www.wenku8.net/book/77/index.htm").as_deref(), Some("77"));
    assert_eq!(
        extract_book_key("/modules/article/articleinfo.php?id=567&charset=gbk").as_deref(),
        Some("567")
    );
    assert_eq!(extract_book_key("reader.php?aid=89").as_deref(), Some("89"));
    assert_eq!(extract_book_key("x.php?id=abc&aid=12").as_deref(), Some("12"));
    assert_eq!(extract_book_key("/book/.htm"), None);
    assert_eq!(extract_book_key("https://www.wenku8.net/index.php"), None);
}

#[test]
fn first_usable_text() {
    assert_eq!(first_text(&texts(&[None, Some("  "), Some(" a "), Some("b")])).as_deref(), Some("a"));
    assert_eq!(first_text(&texts(&[None, Some("\t")])), None);
    assert_eq!(first_attr(&texts(&[Some(" /a.jpg ")])).as_deref(), Some("/a.jpg"));
}

#[test]
fn labels_are_removed() {
    assert_eq!(clean_label("  作者：张三 ", &["作者：", "作者:"]), "张三");
    assert_eq!(clean_label("小说作者: 李四", &["小说作者：", "小说作者:", "作者：", "作者:"]), "李四");
    assert_eq!(clean_label(" 王五 ", &["作者："]), "王五");
}

#[test]
fn author_from_cells() {
    assert_eq!(parse_author(&texts(&[Some("小说作者：某人")])).as_deref(), Some("某人"));
    assert_eq!(parse_author(&texts(&[None, Some("作者:  甲 ")])).as_deref(), Some("甲"));
    assert_eq!(parse_author(&texts(&[Some("作者："), Some("作者：乙")])), None);
    assert_eq!(parse_author(&texts(&[None])), None);
}

#[test]
fn description_from_cells() {
    assert_eq!(parse_description(&texts(&[Some("short text")])), None);
    assert_eq!(
        parse_description(&texts(&[Some("short"), Some(" 内容简介：这是一个很长的故事简介内容 ")]))
            .as_deref(),
        Some("这是一个很长的故事简介内容")
    );
    assert_eq!(
        parse_description(&texts(&[Some("内容简介内容简介内容简介"), Some("twenty-one bytes long")]))
            .as_deref(),
        Some("twenty-one bytes long")
    );
}

fn link(abs: Option<&str>, href: Option<&str>, title: Option<&str>, text: Option<&str>) -> SearchLink {
    SearchLink {
        abs_href: abs.map(|s| s.to_string()),
        href: href.map(|s| s.to_string()),
        title: title.map(|s| s.to_string()),
        text: text.map(|s| s.to_string()),
    }
}

#[test]
fn search_results_deduplicated() {
    let links = vec![
        link(Some("https://www.wenku8.net/book/1.htm"), Some("/book/1.htm"), None, Some(" Book One ")),
        link(Some(" "), Some("/book/1.htm"), Some("dup"), None),
        link(None, Some("/book/2.htm"), Some("Two"), Some("ignored")),
        link(None, Some("/about.htm"), Some("About"), None),
        link(None, Some("/book/3.htm"), Some("  "), None),
        link(None, None, Some("x"), None),
    ];
    let entries = parse_search_results("wenku8.net", &links);
    assert_eq!(entries.len(), 2);
    assert_eq!(entries[0].key, "1");
    assert_eq!(entries[0].title, "Book One");
    assert_eq!(entries[0].cover, "https://img.wenku8.com/image/0/1/1s.jpg");
    assert_eq!(entries[0].url.as_deref(), Some("https://www.wenku8.net/book/1.htm"));
    assert_eq!(entries[1].key, "2");
    assert_eq!(entries[1].title, "Two");
    assert_eq!(entries[1].url.as_deref(), Some("https://www.wenku8.net/book/2.htm"));
}

#[test]
fn single_search_result() {
    let e = parse_single_search_result(
        "wenku8.cc",
        Some("https://www.wenku8.cc/modules/article/addbookcase.php?bid=1973"),
        &texts(&[None, Some(" 标题 ")]),
    )
    .unwrap();
    assert_eq!(e.key, "1973");
    assert_eq!(e.title, "标题");
    assert_eq!(e.cover, "https://img.wenku8.com/image/1/1973/1973s.jpg");
    assert_eq!(e.url.as_deref(), Some("https://www.wenku8.cc/book/1973.htm"));
    assert!(parse_single_search_result("wenku8.cc", Some("addbookcase.php?id=1"), &texts(&[Some("t")])).is_none());
    assert!(parse_single_search_result("wenku8.cc", Some("addbookcase.php?bid=x"), &texts(&[Some("t")])).is_none());
    assert!(parse_single_search_result("wenku8.cc", Some("?bid=5"), &texts(&[None])).is_none());
    assert!(parse_single_search_result("wenku8.cc", None, &texts(&[Some("t")])).is_none());
}

#[test]
fn search_requests() {
    let r = search_request("wenku8.net", None, 0);
    assert!(!r.post);
    assert_eq!(r.url, "https://www.wenku8.net/modules/article/toplist.php?sort=lastupdate&page=1");
    assert_eq!(r.body, None);
    let r = search_request("wenku8.net", Some(" 轻小说 "), 1);
    assert!(r.post);
    assert_eq!(r.url, "https://www.wenku8.net/so.php");
    assert_eq!(
        r.body.as_deref(),
        Some("searchtype=articlename&searchkey=%C7%E1%D0%A1%CB%B5&charset=&Submit=%C7%E1%D0%A1%CB%B5%CB%D1%CB%F7")
    );
    let r = search_request("wenku8.cc", Some("ab"), 12);
    assert!(!r.post);
    assert_eq!(
        r.url,
        "https://www.wenku8.cc/modules/article/search.php?searchtype=articlename&searchkey=%61%62&page=12"
    );
    let r = search_request("wenku8.net", Some("   "), 2);
    assert_eq!(r.url, "https://www.wenku8.net/modules/article/toplist.php?sort=lastupdate&page=2");
}

#[test]
fn next_page_links() {
    let hrefs = vec!["toplist.php?sort=lastupdate&page=3#bottom".to_string()];
    assert!(has_next_page(&hrefs, 2));
    assert!(!has_next_page(&hrefs, 3));
    assert!(has_next_page(&vec!["a?page=2?x".to_string()], 1));
    assert!(has_next_page(&vec!["a?page=2".to_string()], -5));
    assert!(!has_next_page(&vec!["page=2".to_string()], 1));
    assert!(!has_next_page(&vec!["a?xpage=2".to_string()], 1));
    assert!(has_next_page(&vec!["a#?page=2".to_string()], 1));
    assert!(!has_next_page(&Vec::new(), 1));
    assert!(has_next_page(&vec!["a?page=2147483647".to_string()], i32::MAX));
}

fn entry(key: &str) -> MangaEntry {
    MangaEntry { key: key.to_string(), title: "t".to_string(), cover: "c".to_string(), url: None }
}

#[test]
fn search_page_outcomes() {
    let p = search_page_result(Some(entry("9")), vec![entry("1")], &vec![], &vec![], 3, true).unwrap();
    assert_eq!(p.entries.len(), 1);
    assert_eq!(p.entries[0].key, "9");
    assert!(!p.has_next_page);
    let p = search_page_result(None, vec![entry("1"), entry("2")], &vec![], &vec![], 3, true).unwrap();
    assert_eq!(p.entries.len(), 2);
    assert!(p.has_next_page);
    let e = search_page_result(None, vec![], &texts(&[Some("出现错误！")]), &vec![], 3, false).unwrap_err();
    assert_eq!(e, SearchError::SiteErrorPage);
    let long = "标".repeat(100);
    let e = search_page_result(None, vec![], &texts(&[Some("提示")]), &texts(&[Some(&long)]), 7, false)
        .unwrap_err();
    assert_eq!(e, SearchError::NoBooks { title: "标".repeat(80), links: 7 });
    let e = search_page_result(None, vec![], &vec![], &vec![], 0, false).unwrap_err();
    assert_eq!(e, SearchError::NoBooks { title: "无标题".to_string(), links: 0 });
}

#[test]
fn details_from_page() {
    let d = manga_details(
        "wenku8.net",
        "1234",
        "Old",
        Some("https://old/cover.jpg"),
        &texts(&[None, Some(" New Title ")]),
        &texts(&[None, Some("  ")]),
        &texts(&[Some("/files/article/image/1/1234/1234s.jpg")]),
        &texts(&[Some("作者：作家")]),
        &texts(&[Some("内容简介：一个足够长的简介文字内容")]),
    );
    assert_eq!(d.title, "New Title");
    assert_eq!(d.cover, "https://www.wenku8.net/files/article/image/1/1234/1234s.jpg");
    assert_eq!(d.author.as_deref(), Some("作家"));
    assert_eq!(d.description.as_deref(), Some("一个足够长的简介文字内容"));
    assert_eq!(d.url, "https://www.wenku8.net/book/1234.htm");
}

#[test]
fn details_cover_fallbacks() {
    let d = manga_details("wenku8.cc", "55", "Old", Some("https://old/c.jpg"), &vec![], &vec![], &vec![], &vec![], &vec![]);
    assert_eq!(d.title, "Old");
    assert_eq!(d.cover, "https://old/c.jpg");
    assert_eq!(d.author, None);
    assert_eq!(d.description, None);
    let d = manga_details("wenku8.cc", "55", "Old", None, &vec![], &texts(&[Some("javascript:x")]), &vec![], &vec![], &vec![]);
    assert_eq!(d.cover, "https://img.wenku8.com/image/0/55/55s.jpg");
}

fn chapter(abs: Option<&str>, href: Option<&str>, text: Option<&str>) -> ChapterLink {
    ChapterLink {
        abs_href: abs.map(|s| s.to_string()),
        href: href.map(|s| s.to_string()),
        text: text.map(|s| s.to_string()),
    }
}

#[test]
fn chapter_list_newest_first() {
    let index = "https://www.wenku8.net/modules/article/reader.php?aid=1";
    let links = vec![
        chapter(Some(""), Some("1.htm"), Some(" 第一章 ")),
        chapter(None, Some("javascript:;"), Some("skip")),
        chapter(Some("https://www.wenku8.net/novel/0/1/3.htm"), Some("3.htm"), Some("  ")),
    ];
    let chapters = parse_chapter_list("wenku8.net", index, &links).unwrap();
    assert_eq!(chapters.len(), 2);
    assert_eq!(chapters[0].key, "https://www.wenku8.net/novel/0/1/3.htm");
    assert_eq!(chapters[0].url, "https://www.wenku8.net/novel/0/1/3.htm");
    assert_eq!(chapters[0].title, None);
    assert_eq!(chapters[0].number, 3);
    assert_eq!(chapters[1].key, "https://www.wenku8.net/modules/article/1.htm");
    assert_eq!(chapters[1].title.as_deref(), Some("第一章"));
    assert_eq!(chapters[1].number, 1);
    assert!(chapters[0].number > chapters[1].number);
}

#[test]
fn chapter_list_empty_is_error() {
    let index = "https://www.wenku8.net/modules/article/reader.php?aid=1";
    assert_eq!(parse_chapter_list("wenku8.net", index, &vec![]).unwrap_err(), ChapterError::NoChapters);
    let links = vec![chapter(None, Some("#"), None)];
    assert_eq!(parse_chapter_list("wenku8.net", index, &links).unwrap_err(), ChapterError::NoChapters);
}

#[test]
fn chapter_text_normalised() {
    assert_eq!(
        chapter_text(&texts(&[None, Some("  \r\n "), Some("line1\r\nline2\rline3  ")])),
        Ok("line1\nline2\nline3".to_string())
    );
    assert_eq!(chapter_text(&texts(&[None, Some("\r\r")])), Err(ChapterError::NoText));
}

#[test]
fn error_messages_for_lists_and_chapters() {
    assert_eq!(
        SearchError::NoBooks { title: "首页".to_string(), links: 12 }.message(),
        "Wenku8 未解析到书籍（页面：首页，链接数：12）。请打开当前站点确认登录状态；若网页正常，请反馈此提示"
    );
    assert_eq!(
        SearchError::SiteErrorPage.message(),
        "Wenku8 返回站点错误页面：可能是搜索过快或需要登录，请打开当前站点确认后重试"
    );
    assert_eq!(
        ChapterError::NoChapters.message(),
        "没有解析到章节目录；Wenku8 可能要求登录，或页面结构已变化"
    );
    assert_eq!(ChapterError::NoText.message(), "没有找到章节正文（#acontent / #content）");
}

#[test]
fn chapter_address_prefers_url() {
    assert_eq!(wenku8::details::chapter_address(Some("https://a/1.htm"), "k"), "https://a/1.htm");
    assert_eq!(wenku8::details::chapter_address(None, "https://a/2.htm"), "https://a/2.htm");
}
