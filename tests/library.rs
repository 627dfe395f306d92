use epub_library::document::{is_container_name, strip_container_extension, Document, Resource, TocItem};
use epub_library::gateway::{begin_request, finish_request, parse_address, Step, STATUS_NOT_FOUND, STATUS_OK};
use epub_library::library::{load_library, Library, LibraryError, LoadFailure};
use epub_library::transform::{is_html_mime, transform, BLOCK_SEPARATOR, SCRIPT_BLOCK, STYLE_BLOCK};

fn block() -> String {
    format!("{}{}{}", STYLE_BLOCK, BLOCK_SEPARATOR, SCRIPT_BLOCK)
}

fn res(id: &str, path: &str, mime: &str) -> Resource {
    Resource { id: id.to_string(), path: path.to_string(), mime: mime.to_string() }
}

fn doc(identifier: &str, title: Option<&str>, resources: Vec<Resource>, spine: Vec<&str>, cover: Option<&str>) -> Document {
    Document {
        identifier: identifier.to_string(),
        title: title.map(|t| t.to_string()),
        resources,
        spine: spine.into_iter().map(|s| s.to_string()).collect(),
        toc: Vec::new(),
        cover_id: cover.map(|c| c.to_string()),
    }
}

fn sample_book() -> Document {
    doc(
        "novel.epub",
        Some("A Novel"),
        vec![
            res("c1", "OEBPS/ch1.xhtml", "application/xhtml+xml"),
            res("c2", "OEBPS/ch2.xhtml", "application/xhtml+xml"),
            res("css", "OEBPS/style.css", "text/css"),
            res("img", "OEBPS/images/cover.jpg", "image/jpeg"),
        ],
        vec!["c1", "missing", "c2"],
        Some("img"),
    )
}

fn library_of(docs: Vec<Document>) -> Library {
    let mut lib = Library::new();
    for d in docs {
        lib.insert(d);
    }
    lib
}

#[test]
fn injection_goes_before_head_close() {
    let page = "<html><head><title>T</title></head><body>X</body></html>";
    let out = String::from_utf8(transform(page.as_bytes().to_vec())).unwrap();
    let expected = format!("<html><head><title>T</title>{}</head><body>X</body></html>", block());
    assert_eq!(out, expected);
}

#[test]
fn injection_goes_after_body_tag_without_head() {
    let page = "<html><body class=\"x\"><p>Hi</p></body></html>";
    let out = String::from_utf8(transform(page.as_bytes().to_vec())).unwrap();
    let expected = format!("<html><body class=\"x\">{}<p>Hi</p></body></html>", block());
    assert_eq!(out, expected);
}

#[test]
fn injection_goes_first_without_markers() {
    let page = "just some text";
    let out = String::from_utf8(transform(page.as_bytes().to_vec())).unwrap();
    assert_eq!(out, format!("{}just some text", block()));
}

#[test]
fn unterminated_body_tag_injects_first() {
    let page = "<body class=";
    let out = String::from_utf8(transform(page.as_bytes().to_vec())).unwrap();
    assert_eq!(out, format!("{}<body class=", block()));
}

#[test]
fn empty_page_gets_only_the_block() {
    let out = String::from_utf8(transform(Vec::new())).unwrap();
    assert_eq!(out, block());
}

#[test]
fn multibyte_text_is_kept_around_injection() {
    let page = "<head>é中</head>😀";
    let out = String::from_utf8(transform(page.as_bytes().to_vec())).unwrap();
    assert_eq!(out, format!("<head>é中{}</head>😀", block()));
}

#[test]
fn non_utf8_payload_is_returned_unchanged() {
    let bytes = vec![0x3c, 0x68, 0xff, 0xfe, 0x2f, 0x3e, 0xc3];
    assert_eq!(transform(bytes.clone()), bytes);
}

#[test]
fn transform_twice_injects_twice() {
    let page = "<html><head></head><body></body></html>";
    let once = transform(page.as_bytes().to_vec());
    let twice = transform(once.clone());
    assert_ne!(once, twice);
    assert_eq!(twice.len(), page.len() + 2 * block().len());
    let text = String::from_utf8(twice).unwrap();
    assert_eq!(text.matches("<style>").count(), 2);
}

#[test]
fn html_mime_types_are_exact() {
    assert!(is_html_mime("text/html"));
    assert!(is_html_mime("application/xhtml+xml"));
    assert!(is_html_mime("application/xhtml"));
    assert!(is_html_mime("text/xhtml"));
    assert!(!is_html_mime("Text/HTML"));
    assert!(!is_html_mime("text/html; charset=utf-8"));
    assert!(!is_html_mime("image/png"));
}

#[test]
fn container_names_and_extension() {
    assert!(is_container_name("book.epub"));
    assert!(!is_container_name("book.pdf"));
    assert!(!is_container_name("book.epub.bak"));
    assert_eq!(strip_container_extension("book.epub"), "book");
    assert_eq!(strip_container_extension("notes.txt"), "notes.txt");
}

#[test]
fn title_is_declared_title() {
    let lib = library_of(vec![sample_book()]);
    assert_eq!(lib.title("novel.epub").unwrap(), "A Novel");
}

#[test]
fn title_falls_back_to_identifier() {
    let lib = library_of(vec![doc("plain.epub", None, vec![], vec![], None)]);
    assert_eq!(lib.title("plain.epub").unwrap(), "plain");
    assert!(!lib.title("plain.epub").unwrap().is_empty());
}

#[test]
fn unknown_book_is_not_found() {
    let lib = library_of(vec![sample_book()]);
    match lib.title("other.epub") {
        Err(LibraryError::BookNotFound(k)) => assert_eq!(k, "other.epub"),
        Ok(_) => panic!("expected an error"),
    }
    assert!(lib.spine("other.epub").is_err());
    assert!(lib.spine_index_of("other.epub", "x").is_err());
    assert!(lib.spine_item_at("other.epub", 0).is_err());
    assert!(lib.table_of_contents("other.epub").is_err());
    assert!(lib.resource_mime("other.epub", "OEBPS/ch1.xhtml").is_none());
}

#[test]
fn spine_drops_unresolved_entries() {
    let lib = library_of(vec![sample_book()]);
    let spine = lib.spine("novel.epub").unwrap();
    assert_eq!(spine, vec!["OEBPS/ch1.xhtml".to_string(), "OEBPS/ch2.xhtml".to_string()]);
    assert!(spine.len() <= 3);
}

#[test]
fn spine_index_round_trip() {
    let lib = library_of(vec![sample_book()]);
    for path in lib.spine("novel.epub").unwrap() {
        let i = lib.spine_index_of("novel.epub", &path).unwrap().unwrap();
        assert_eq!(lib.spine_item_at("novel.epub", i).unwrap(), Some(path));
    }
    assert_eq!(lib.spine_index_of("novel.epub", "OEBPS/ch2.xhtml").unwrap(), Some(1));
    assert_eq!(lib.spine_index_of("novel.epub", "ch2.xhtml").unwrap(), None);
    assert_eq!(lib.spine_item_at("novel.epub", 2).unwrap(), None);
}

#[test]
fn spine_index_is_first_occurrence() {
    let d = doc("r.epub", None, vec![res("a", "a.html", "text/html"), res("b", "b.html", "text/html")], vec!["a", "b", "a"], None);
    let lib = library_of(vec![d]);
    assert_eq!(lib.spine_index_of("r.epub", "a.html").unwrap(), Some(0));
    assert_eq!(lib.spine_item_at("r.epub", 2).unwrap(), Some("a.html".to_string()));
}

#[test]
fn table_of_contents_is_kept_in_order() {
    let mut d = sample_book();
    d.toc = vec![
        TocItem {
            label: "Part One".to_string(),
            content: "OEBPS/ch1.xhtml".to_string(),
            play_order: 1,
            children: vec![TocItem {
                label: "Chapter 1".to_string(),
                content: "OEBPS/ch1.xhtml#s1".to_string(),
                play_order: 2,
                children: vec![],
            }],
        },
        TocItem { label: "Part Two".to_string(), content: "OEBPS/ch2.xhtml".to_string(), play_order: 5, children: vec![] },
    ];
    let lib = library_of(vec![d]);
    let toc = lib.table_of_contents("novel.epub").unwrap();
    assert_eq!(toc.len(), 2);
    assert_eq!(toc[0].label, "Part One");
    assert_eq!(toc[0].children[0].content, "OEBPS/ch1.xhtml#s1");
    assert_eq!(toc[0].children[0].play_order, 2);
    assert_eq!(toc[1].play_order, 5);
}

#[test]
fn image_cover_is_used_directly() {
    let lib = library_of(vec![sample_book()]);
    let covers = lib.all_book_covers();
    assert_eq!(
        covers,
        vec![("novel.epub".to_string(), "A Novel".to_string(), "epub://novel.epub/OEBPS/images/cover.jpg".to_string())]
    );
}

#[test]
fn html_cover_wrapper_resolves_to_cover_image() {
    let d = doc(
        "wrapped.epub",
        Some("Wrapped"),
        vec![
            res("cover-page", "OEBPS/titlepage.xhtml", "application/xhtml+xml"),
            res("pic", "OEBPS/img/pic.png", "image/png"),
            res("cov", "OEBPS/img/Cover.png", "image/png"),
        ],
        vec![],
        Some("cover-page"),
    );
    let lib = library_of(vec![d]);
    assert_eq!(lib.all_book_covers()[0].2, "epub://wrapped.epub/OEBPS/img/Cover.png");
}

#[test]
fn html_cover_without_image_falls_back_to_page() {
    let d = doc(
        "page.epub",
        None,
        vec![res("cp", "OEBPS/cover.xhtml", "application/xhtml+xml"), res("pic", "OEBPS/pic.png", "image/png")],
        vec![],
        Some("cp"),
    );
    let lib = library_of(vec![d]);
    assert_eq!(
        lib.all_book_covers(),
        vec![("page.epub".to_string(), "page".to_string(), "epub://page.epub/OEBPS/cover.xhtml".to_string())]
    );
}

#[test]
fn books_without_resolvable_cover_are_omitted() {
    let none = doc("none.epub", None, vec![res("a", "a.png", "image/png")], vec![], None);
    let dangling = doc("dangling.epub", None, vec![res("a", "a.png", "image/png")], vec![], Some("zzz"));
    let lib = library_of(vec![none, dangling, sample_book()]);
    let covers = lib.all_book_covers();
    assert_eq!(covers.len(), 1);
    assert_eq!(covers[0].0, "novel.epub");
}

#[test]
fn load_keeps_valid_and_records_corrupt() {
    let failure = LoadFailure { name: "broken.epub".to_string(), reason: "invalid zip".to_string() };
    let report = load_library(vec![Err(failure), Ok(sample_book())]);
    assert_eq!(report.library.len(), 1);
    assert_eq!(report.library.title("novel.epub").unwrap(), "A Novel");
    assert!(report.library.title("broken.epub").is_err());
    assert_eq!(report.failures.len(), 1);
    assert_eq!(report.failures[0].name, "broken.epub");
}

#[test]
fn load_of_nothing_is_empty() {
    let report = load_library(Vec::new());
    assert_eq!(report.library.len(), 0);
    assert!(report.failures.is_empty());
}

#[test]
fn later_book_with_same_identifier_replaces_earlier() {
    let first = doc("same.epub", Some("First"), vec![], vec![], None);
    let second = doc("same.epub", Some("Second"), vec![], vec![], None);
    let report = load_library(vec![Ok(first), Ok(second)]);
    assert_eq!(report.library.len(), 1);
    assert_eq!(report.library.title("same.epub").unwrap(), "Second");
}

#[test]
fn address_strips_leading_separator() {
    let a = parse_address(Some("novel.epub"), "/OEBPS/ch1.xhtml").unwrap();
    assert_eq!(a.book_id, "novel.epub");
    assert_eq!(a.internal_path, "OEBPS/ch1.xhtml");
    let b = parse_address(Some("novel.epub"), "").unwrap();
    assert_eq!(b.internal_path, "");
    assert!(parse_address(None, "/x").is_none());
}

#[test]
fn request_for_known_resource_asks_for_bytes() {
    let lib = library_of(vec![sample_book()]);
    match begin_request(&lib, Some("novel.epub"), "/OEBPS/style.css") {
        Step::Fetch { book_id, path, mime } => {
            assert_eq!(book_id, "novel.epub");
            assert_eq!(path, "OEBPS/style.css");
            assert_eq!(mime, "text/css");
        }
        Step::Respond(_) => panic!("expected a fetch"),
    }
}

#[test]
fn request_for_unknown_book_or_path_is_not_found() {
    let lib = library_of(vec![sample_book()]);
    for (host, path) in [(Some("other.epub"), "/OEBPS/ch1.xhtml"), (Some("novel.epub"), "/nope.html"), (None, "/OEBPS/ch1.xhtml")] {
        match begin_request(&lib, host, path) {
            Step::Respond(r) => {
                assert_eq!(r.status, STATUS_NOT_FOUND);
                assert!(r.content_type.is_none());
                assert!(r.body.is_empty());
            }
            Step::Fetch { .. } => panic!("expected not found"),
        }
    }
}

#[test]
fn finished_html_response_is_transformed() {
    let r = finish_request("text/html".to_string(), Some(b"<head></head>".to_vec()));
    assert_eq!(r.status, STATUS_OK);
    assert_eq!(r.content_type, Some("text/html".to_string()));
    assert_eq!(String::from_utf8(r.body).unwrap(), format!("<head>{}</head>", block()));
}

#[test]
fn finished_other_response_is_raw() {
    let r = finish_request("text/css".to_string(), Some(b"<head></head>".to_vec()));
    assert_eq!(r.status, STATUS_OK);
    assert_eq!(r.body, b"<head></head>".to_vec());
}

#[test]
fn missing_bytes_finish_as_not_found() {
    let r = finish_request("text/html".to_string(), None);
    assert_eq!(r.status, STATUS_NOT_FOUND);
    assert!(r.content_type.is_none());
    assert!(r.body.is_empty());
}

#[test]
fn html_cover_wrapper_prefers_image_over_page() {
    let d = doc(
        "lower.epub",
        Some("Lower"),
        vec![
            res("titlepage", "OEBPS/cover.xhtml", "application/xhtml+xml"),
            res("art", "OEBPS/images/cover.jpeg", "image/jpeg"),
        ],
        vec![],
        Some("titlepage"),
    );
    let lib = library_of(vec![d]);
    let covers = lib.all_book_covers();
    assert_eq!(covers[0].2, "epub://lower.epub/OEBPS/images/cover.jpeg");
    assert_ne!(covers[0].2, "epub://lower.epub/OEBPS/cover.xhtml");
}

#[test]
fn request_with_empty_path_is_not_found() {
    let mut d = sample_book();
    d.resources.push(res("empty", "", "text/html"));
    let lib = library_of(vec![d]);
    for path in ["", "/"] {
        match begin_request(&lib, Some("novel.epub"), path) {
            Step::Respond(r) => {
                assert_eq!(r.status, STATUS_NOT_FOUND);
                assert!(r.content_type.is_none());
                assert!(r.body.is_empty());
            }
            Step::Fetch { .. } => panic!("expected not found"),
        }
    }
}

#[test]
fn insert_grows_only_for_new_identifiers() {
    let mut lib = Library::new();
    assert_eq!(lib.len(), 0);
    lib.insert(sample_book());
    assert_eq!(lib.len(), 1);
    lib.insert(doc("novel.epub", Some("Again"), vec![], vec![], None));
    assert_eq!(lib.len(), 1);
    assert_eq!(lib.title("novel.epub").unwrap(), "Again");
    lib.insert(doc("other.epub", None, vec![], vec![], None));
    assert_eq!(lib.len(), 2);
}

#[test]
fn load_counts_distinct_identifiers() {
    let failure = LoadFailure { name: "bad.epub".to_string(), reason: "broken".to_string() };
    let report = load_library(vec![
        Ok(doc("a.epub", None, vec![], vec![], None)),
        Err(failure),
        Ok(doc("b.epub", None, vec![], vec![], None)),
        Ok(doc("a.epub", Some("A"), vec![], vec![], None)),
    ]);
    assert_eq!(report.library.len(), 2);
    assert_eq!(report.failures.len(), 1);
    assert_eq!(report.library.title("a.epub").unwrap(), "A");
}

#[test]
fn injected_script_carries_pagination_protocol() {
    for message in [
        "'pagination-next'",
        "'pagination-previous'",
        "'pagination-goto'",
        "'pagination-enable'",
        "'pagination-disable'",
        "'pagination-update'",
        "currentPage: currentPage",
        "totalPages: totalPages()",
        "enabled: paginationEnabled",
        "data.page",
        "'epub-external-link'",
    ] {
        assert!(SCRIPT_BLOCK.contains(message), "missing {}", message);
    }
    assert!(!block().contains("</head>"));
    assert!(!block().contains("<body"));
}

#[test]
fn second_transform_puts_blocks_side_by_side() {
    let head_page = "<html><head><title>T</title></head><body>X</body></html>";
    let twice = transform(transform(head_page.as_bytes().to_vec()));
    let expected = format!("<html><head><title>T</title>{}{}</head><body>X</body></html>", block(), block());
    assert_eq!(String::from_utf8(twice).unwrap(), expected);

    let body_page = "<body class=\"x\">Y</body>";
    let twice = transform(transform(body_page.as_bytes().to_vec()));
    let expected = format!("<body class=\"x\">{}{}Y</body>", block(), block());
    assert_eq!(String::from_utf8(twice).unwrap(), expected);

    let bare = "text";
    let twice = transform(transform(bare.as_bytes().to_vec()));
    assert_eq!(String::from_utf8(twice).unwrap(), format!("{}{}text", block(), block()));
}
