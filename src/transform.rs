//! The content transform applied to HTML resources before they are served:
//! a fixed style block and link-interception script are inserted into the
//! page, which is otherwise left byte for byte as it was.
use vstd::prelude::*;
use vstd::utf8::*;
use vstd::string::*;

verus! {

broadcast use vstd::string::group_string_axioms;

/// Default styling for book pages, with light and dark colour schemes.
pub const STYLE_BLOCK: &'static str = r#"<style>
/* Default styling for EPUB content - applied before EPUB's own CSS */
:root {
    color-scheme: light dark;
}

html, body {
    background-color: #ffffff;
    color: #1a1a1a;
}

a {
    color: #0066cc;
}

a:visited {
    color: #551a8b;
}

a:hover {
    color: #003d7a;
}

@media (prefers-color-scheme: dark) {
    html, body {
        background-color: #1e1e1e;
        color: #e4e4e4;
    }

    a {
        color: #66b3ff;
    }

    a:visited {
        color: #bb86fc;
    }

    a:hover {
        color: #99ccff;
    }
}
</style>"#;

/// Separator placed between the style block and the script.
pub const BLOCK_SEPARATOR: &'static str = "\n";

/// Script that talks to the enclosing frame: it intercepts clicks on links
/// leaving the book's own scheme and reports them as `epub-external-link`,
/// and it paginates the page on `pagination-next`, `pagination-previous`,
/// `pagination-goto`, `pagination-enable` and `pagination-disable`
/// messages, answering each with a `pagination-update` notice.
pub const SCRIPT_BLOCK: &'static str = r#"<script>
//<![CDATA[
(function() {
    'use strict';

    function handleLinkClick(event) {
        const target = event.target.closest('a');
        if (!target || !target.href) return;

        const href = target.href;

        if (isExternalLink(href)) {
            event.preventDefault();
            event.stopPropagation();

            if (window.parent && window.parent !== window) {
                window.parent.postMessage({
                    type: 'epub-external-link',
                    url: href
                }, '*');
            }
        }
    }

    function isExternalLink(href) {
        try {
            const url = new URL(href, window.location.href);
            const protocol = url.protocol.toLowerCase();

            if (protocol === 'epub:') return false;

            return true;
        } catch (e) {
            return false;
        }
    }

    document.addEventListener('click', handleLinkClick, true);

    var paginationEnabled = false;
    var currentPage = 0;

    function pageWidth() {
        return window.innerWidth || document.documentElement.clientWidth || 1;
    }

    function totalPages() {
        if (!paginationEnabled) return 1;
        var width = document.documentElement.scrollWidth || pageWidth();
        return Math.max(1, Math.ceil(width / pageWidth()));
    }

    function notifyPagination() {
        if (window.parent && window.parent !== window) {
            window.parent.postMessage({
                type: 'pagination-update',
                currentPage: currentPage,
                totalPages: totalPages(),
                enabled: paginationEnabled
            }, '*');
        }
    }

    function applyLayout() {
        var root = document.documentElement;
        if (paginationEnabled) {
            root.style.height = '100vh';
            root.style.overflow = 'hidden';
            root.style.columnWidth = pageWidth() + 'px';
            root.style.columnGap = '0px';
        } else {
            root.style.height = '';
            root.style.overflow = '';
            root.style.columnWidth = '';
            root.style.columnGap = '';
        }
    }

    function goToPage(page) {
        if (!paginationEnabled) return;
        var last = totalPages() - 1;
        currentPage = Math.min(Math.max(0, page), last);
        window.scrollTo(currentPage * pageWidth(), 0);
        notifyPagination();
    }

    function handleMessage(event) {
        var data = event.data;
        if (!data || typeof data.type !== 'string') return;
        switch (data.type) {
            case 'pagination-next':
                goToPage(currentPage + 1);
                break;
            case 'pagination-previous':
                goToPage(currentPage - 1);
                break;
            case 'pagination-goto':
                if (typeof data.page === 'number') goToPage(data.page);
                break;
            case 'pagination-enable':
                paginationEnabled = true;
                applyLayout();
                goToPage(currentPage);
                break;
            case 'pagination-disable':
                paginationEnabled = false;
                currentPage = 0;
                applyLayout();
                window.scrollTo(0, 0);
                notifyPagination();
                break;
        }
    }

    window.addEventListener('message', handleMessage, false);
    window.addEventListener('resize', function() {
        if (paginationEnabled) {
            applyLayout();
            goToPage(currentPage);
        }
    }, false);
})();
//]]>
</script>"#;

/// The marker before which the injection goes when present.
pub const HEAD_CLOSE: &'static str = "</head>";

/// The start of the body tag, after whose end the injection goes otherwise.
pub const BODY_OPEN: &'static str = "<body";

/// The character that ends a tag.
pub const TAG_END: &'static str = ">";

/// The bytes inserted into every transformed page.
pub open spec fn injection() -> Seq<u8> {
    STYLE_BLOCK.spec_bytes() + BLOCK_SEPARATOR.spec_bytes() + SCRIPT_BLOCK.spec_bytes()
}

/// `p` occurs in `s` starting at byte offset `i`.
pub open spec fn bytes_at(s: Seq<u8>, p: Seq<u8>, i: int) -> bool {
    0 <= i && i + p.len() <= s.len() && s.subrange(i, i + p.len()) == p
}

/// The first offset at or after `from` at which `p` occurs in `s`.
pub open spec fn first_from(s: Seq<u8>, p: Seq<u8>, from: int) -> Option<int>
    decreases s.len() + 1 - from,
{
    if from < 0 || from + p.len() > s.len() {
        None
    } else if bytes_at(s, p, from) {
        Some(from)
    } else {
        first_from(s, p, from + 1)
    }
}

/// Where the injection goes: before the first `</head>`; failing that, just
/// after the `>` that ends the first `<body` tag; failing both, at the start.
pub open spec fn injection_point(s: Seq<u8>) -> int {
    match first_from(s, HEAD_CLOSE.spec_bytes(), 0) {
        Some(i) => i,
        None => match first_from(s, BODY_OPEN.spec_bytes(), 0) {
            Some(j) => match first_from(s, TAG_END.spec_bytes(), j) {
                Some(k) => k + 1,
                None => 0,
            },
            None => 0,
        },
    }
}

/// The transformed page: valid UTF-8 gets the injection at its injection
/// point; anything else is returned as it is.
pub open spec fn transformed(s: Seq<u8>) -> Seq<u8> {
    if valid_utf8(s) {
        s.take(injection_point(s)) + injection() + s.skip(injection_point(s))
    } else {
        s
    }
}

/// The MIME types whose payloads are transformed.
pub open spec fn is_html_type(mime: Seq<char>) -> bool {
    ||| mime == "text/html"@
    ||| mime == "application/xhtml+xml"@
    ||| mime == "application/xhtml"@
    ||| mime == "text/xhtml"@
}

/// Relies on `std::str::from_utf8`, which accepts exactly the well-formed
/// UTF-8 byte sequences.
#[verifier::external_body]
fn is_utf8(bytes: &[u8]) -> (r: bool)
    ensures
        r == valid_utf8(bytes@),
{
    std::str::from_utf8(bytes).is_ok()
}

/// Tests whether `p` occurs in `s` at byte offset `i`.
fn bytes_match_at(s: &[u8], p: &[u8], i: usize) -> (r: bool)
    ensures
        r == bytes_at(s@, p@, i as int),
{
    let slen = s.len();
    let plen = p.len();
    if i > slen || plen > slen - i {
        return false;
    }
    let mut k: usize = 0;
    while k < plen
        invariant
            i + plen <= slen,
            slen == s@.len(),
            plen == p@.len(),
            k <= plen,
            forall|j: int| 0 <= j < k ==> s@[i + j] == p@[j],
        decreases plen - k,
    {
        if s[i + k] != p[k] {
            assert(s@.subrange(i as int, i + plen)[k as int] != p@[k as int]);
            return false;
        }
        k = k + 1;
    }
    assert(s@.subrange(i as int, i + plen) =~= p@);
    true
}

/// The first offset at or after `from` at which `p` occurs in `s`.
pub fn find_from(s: &[u8], p: &[u8], from: usize) -> (r: Option<usize>)
    ensures
        match r {
            Some(i) => first_from(s@, p@, from as int) == Some(i as int),
            None => first_from(s@, p@, from as int) is None,
        },
{
    let slen = s.len();
    let plen = p.len();
    let mut i: usize = from;
    loop
        invariant
            from <= i,
            slen == s@.len(),
            plen == p@.len(),
            first_from(s@, p@, from as int) == first_from(s@, p@, i as int),
        decreases slen + 1 - i,
    {
        if i > slen || plen > slen - i {
            return None;
        }
        if bytes_match_at(s, p, i) {
            return Some(i);
        }
        assert(plen > 0) by {
            if plen == 0 {
                assert(s@.subrange(i as int, i as int) =~= p@);
            }
        }
        i = i + 1;
    }
}

/// The offset at which the injection goes, as `injection_point` states.
fn injection_offset(s: &[u8]) -> (r: usize)
    ensures
        r as int == injection_point(s@),
{
    let head = HEAD_CLOSE.as_bytes();
    let body = BODY_OPEN.as_bytes();
    let tag = TAG_END.as_bytes();
    let n = s.len();
    match find_from(s, head, 0) {
        Some(i) => i,
        None => match find_from(s, body, 0) {
            Some(j) => match find_from(s, tag, j) {
                Some(k) => {
                    proof {
                        lemma_first_from_bounds(s@, tag@, j as int);
                        lemma_tag_end_bytes();
                        assert(k + tag@.len() <= n);
                    }
                    k + 1
                },
                None => 0,
            },
            None => 0,
        },
    }
}

/// Appends `src[from..to]` to `out`.
fn push_bytes(out: &mut Vec<u8>, src: &[u8], from: usize, to: usize)
    requires
        from <= to <= src@.len(),
    ensures
        final(out)@ == old(out)@ + src@.subrange(from as int, to as int),
{
    let mut i: usize = from;
    while i < to
        invariant
            from <= i <= to <= src@.len(),
            out@ == old(out)@ + src@.subrange(from as int, i as int),
        decreases to - i,
    {
        out.push(src[i]);
        assert(src@.subrange(from as int, i + 1) =~= src@.subrange(from as int, i as int).push(src@[i as int]));
        i = i + 1;
    }
}

/// Inserts the style block and script into an HTML payload: before the first
/// `</head>`, else just after the first `<body ...>` tag, else at the start.
/// A payload that is not valid UTF-8 is returned unchanged.
pub fn transform(html: Vec<u8>) -> (r: Vec<u8>)
    ensures
        r@ == transformed(html@),
        !valid_utf8(html@) ==> r@ == html@,
{
    if !is_utf8(html.as_slice()) {
        return html;
    }
    let p = injection_offset(html.as_slice());
    proof {
        lemma_injection_point_bounds(html@);
    }
    let mut out: Vec<u8> = Vec::new();
    push_bytes(&mut out, html.as_slice(), 0, p);
    let style = STYLE_BLOCK.as_bytes();
    push_bytes(&mut out, style, 0, style.len());
    let sep = BLOCK_SEPARATOR.as_bytes();
    push_bytes(&mut out, sep, 0, sep.len());
    let script = SCRIPT_BLOCK.as_bytes();
    push_bytes(&mut out, script, 0, script.len());
    push_bytes(&mut out, html.as_slice(), p, html.len());
    proof {
        assert(style@.subrange(0, style@.len() as int) =~= style@);
        assert(sep@.subrange(0, sep@.len() as int) =~= sep@);
        assert(script@.subrange(0, script@.len() as int) =~= script@);
        assert(out@ =~= transformed(html@));
    }
    out
}

/// Tests whether a resolved MIME type is one whose payload is transformed.
pub fn is_html_mime(mime: &str) -> (r: bool)
    ensures
        r == is_html_type(mime@),
{
    crate::text::same_text(mime, "text/html")
        || crate::text::same_text(mime, "application/xhtml+xml")
        || crate::text::same_text(mime, "application/xhtml")
        || crate::text::same_text(mime, "text/xhtml")
}

proof fn lemma_first_from_bounds(s: Seq<u8>, p: Seq<u8>, from: int)
    ensures
        first_from(s, p, from) matches Some(i) ==> from <= i && bytes_at(s, p, i),
    decreases s.len() + 1 - from,
{
    if !(from < 0 || from + p.len() > s.len()) && !bytes_at(s, p, from) {
        lemma_first_from_bounds(s, p, from + 1);
    }
}

proof fn lemma_tag_end_bytes()
    ensures
        TAG_END.spec_bytes() == seq![0x3eu8],
{
    reveal_strlit(">");
    assert(TAG_END@ == ">"@);
    assert(TAG_END@ =~= seq!['>']);
    assert(is_ascii(TAG_END));
    assert(TAG_END.spec_bytes() =~= seq![0x3eu8]);
}

proof fn lemma_injection_point_bounds(s: Seq<u8>)
    ensures
        0 <= injection_point(s) <= s.len(),
{
    lemma_first_from_bounds(s, HEAD_CLOSE.spec_bytes(), 0);
    lemma_first_from_bounds(s, BODY_OPEN.spec_bytes(), 0);
    if let Some(j) = first_from(s, BODY_OPEN.spec_bytes(), 0) {
        lemma_first_from_bounds(s, TAG_END.spec_bytes(), j);
        lemma_tag_end_bytes();
    }
}

proof fn lemma_head_close_bytes()
    ensures
        HEAD_CLOSE.spec_bytes().len() == 7,
        HEAD_CLOSE.spec_bytes()[0] == 0x3cu8,
{
    reveal_strlit("</head>");
    assert(HEAD_CLOSE@ == "</head>"@);
    assert(is_ascii(HEAD_CLOSE));
    assert(HEAD_CLOSE.spec_bytes() =~= Seq::new(7, |i: int| HEAD_CLOSE@[i] as u8));
}

proof fn lemma_injection_valid()
    ensures
        valid_utf8(injection()),
        injection().len() > 0,
{
    reveal_strlit("\n");
    assert(BLOCK_SEPARATOR@ == "\n"@);
    assert(is_ascii(BLOCK_SEPARATOR));
    assert(BLOCK_SEPARATOR.spec_bytes() =~= seq![0x0au8]);
    encode_utf8_valid_utf8(STYLE_BLOCK@);
    encode_utf8_valid_utf8(BLOCK_SEPARATOR@);
    encode_utf8_valid_utf8(SCRIPT_BLOCK@);
    valid_utf8_concat(STYLE_BLOCK.spec_bytes(), BLOCK_SEPARATOR.spec_bytes());
    valid_utf8_concat(
        STYLE_BLOCK.spec_bytes() + BLOCK_SEPARATOR.spec_bytes(),
        SCRIPT_BLOCK.spec_bytes(),
    );
}

/// Splitting valid UTF-8 just before an ASCII byte leaves two valid halves.
proof fn lemma_split_before_ascii(s: Seq<u8>, i: int)
    requires
        valid_utf8(s),
        0 <= i < s.len(),
        s[i] < 0x80,
    ensures
        valid_utf8(s.take(i)),
        valid_utf8(s.skip(i)),
{
    is_char_boundary_iff_not_is_continuation_byte(s, i);
    valid_utf8_split(s, i);
    assert(s.take(i) =~= s.subrange(0, i));
    assert(s.skip(i) =~= s.subrange(i, s.len() as int));
}

/// Splitting valid UTF-8 just after an ASCII byte leaves two valid halves.
proof fn lemma_split_after_ascii(s: Seq<u8>, i: int)
    requires
        valid_utf8(s),
        0 <= i < s.len(),
        s[i] < 0x80,
    ensures
        valid_utf8(s.take(i + 1)),
        valid_utf8(s.skip(i + 1)),
{
    lemma_split_before_ascii(s, i);
    let rest = s.skip(i);
    assert(pop_first_scalar(rest) =~= s.skip(i + 1));
    let one = seq![s[i]];
    assert(rest[0] == s[i]);
    assert(length_of_first_scalar(rest) == 1);
    reveal_with_fuel(is_char_boundary, 2);
    assert(is_char_boundary(rest, 1));
    valid_utf8_split(rest, 1);
    assert(rest.subrange(0, 1) =~= one);
    valid_utf8_concat(s.take(i), one);
    assert(s.take(i) + one =~= s.take(i + 1));
}

/// The halves on either side of the injection point are valid UTF-8.
proof fn lemma_injection_point_splits(s: Seq<u8>)
    requires
        valid_utf8(s),
    ensures
        valid_utf8(s.take(injection_point(s))),
        valid_utf8(s.skip(injection_point(s))),
{
    lemma_first_from_bounds(s, HEAD_CLOSE.spec_bytes(), 0);
    lemma_first_from_bounds(s, BODY_OPEN.spec_bytes(), 0);
    lemma_head_close_bytes();
    match first_from(s, HEAD_CLOSE.spec_bytes(), 0) {
        Some(i) => {
            assert(s.subrange(i, i + 7)[0] == s[i]);
            lemma_split_before_ascii(s, i);
        },
        None => match first_from(s, BODY_OPEN.spec_bytes(), 0) {
            Some(j) => {
                lemma_first_from_bounds(s, TAG_END.spec_bytes(), j);
                lemma_tag_end_bytes();
                match first_from(s, TAG_END.spec_bytes(), j) {
                    Some(k) => {
                        assert(s.subrange(k, k + 1)[0] == s[k]);
                        lemma_split_after_ascii(s, k);
                    },
                    None => {
                        assert(s.take(0) =~= Seq::<u8>::empty());
                        assert(s.skip(0) =~= s);
                    },
                }
            },
            None => {
                assert(s.take(0) =~= Seq::<u8>::empty());
                assert(s.skip(0) =~= s);
            },
        },
    }
}

/// Transforming valid UTF-8 gives valid UTF-8, longer by exactly the
/// injected block.
pub proof fn lemma_transformed_valid(s: Seq<u8>)
    requires
        valid_utf8(s),
    ensures
        valid_utf8(transformed(s)),
        transformed(s).len() == s.len() + injection().len(),
{
    let p = injection_point(s);
    lemma_injection_point_bounds(s);
    lemma_injection_point_splits(s);
    lemma_injection_valid();
    valid_utf8_concat(s.take(p), injection());
    valid_utf8_concat(s.take(p) + injection(), s.skip(p));
}

/// The transform is not idempotent: applied to its own output it inserts a
/// second copy of the block, so the second result differs from the first and
/// holds the original bytes plus two blocks.
pub proof fn lemma_transform_twice_injects_twice(s: Seq<u8>)
    requires
        valid_utf8(s),
    ensures
        transformed(transformed(s)).len() == s.len() + 2 * injection().len(),
        transformed(transformed(s)) != transformed(s),
{
    lemma_transformed_valid(s);
    lemma_transformed_valid(transformed(s));
    lemma_injection_valid();
}

} // verus!
