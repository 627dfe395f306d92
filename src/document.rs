//! One parsed container document, held as plain values, and the read-only
//! queries over it: title, spine, spine lookups and cover resolution.
use vstd::prelude::*;
use vstd::string::*;
use crate::text::{has_prefix, has_suffix, occurs_in, starts_with, ends_with, contains};

verus! {

/// The file extension of container documents.
pub const CONTAINER_EXTENSION: &'static str = ".epub";

/// One resource bundled in a container: its manifest id, its internal path
/// and its declared MIME type.
#[derive(Clone, Debug)]
pub struct Resource {
    pub id: String,
    pub path: String,
    pub mime: String,
}

/// One table-of-contents entry and the entries nested under it.
#[derive(Debug)]
pub struct TocItem {
    pub label: String,
    pub content: String,
    pub play_order: usize,
    pub children: Vec<TocItem>,
}

/// A parsed container document.
#[derive(Debug)]
pub struct Document {
    /// The key of the document in a library: its source file name.
    pub identifier: String,
    /// The declared title, if any.
    pub title: Option<String>,
    /// The resource manifest, in the order the container lists it.
    pub resources: Vec<Resource>,
    /// The reading order, as resource ids.
    pub spine: Vec<String>,
    /// The table of contents.
    pub toc: Vec<TocItem>,
    /// The declared cover resource id, if any.
    pub cover_id: Option<String>,
}

/// `id` with the container extension removed from its end, where it has it.
pub open spec fn strip_extension(id: Seq<char>) -> Seq<char> {
    if has_suffix(id, CONTAINER_EXTENSION@) {
        id.subrange(0, id.len() - CONTAINER_EXTENSION@.len())
    } else {
        id
    }
}

/// The title shown for a document: the declared one, else the identifier
/// without its extension.
pub open spec fn title_of(d: Document) -> Seq<char> {
    match d.title {
        Some(t) => t@,
        None => strip_extension(d.identifier@),
    }
}

/// The first position at or after `from` of a resource with the given id.
pub open spec fn first_with_id(rs: Seq<Resource>, id: Seq<char>, from: int) -> Option<int>
    decreases rs.len() - from,
{
    if from < 0 || from >= rs.len() {
        None
    } else if rs[from].id@ == id {
        Some(from)
    } else {
        first_with_id(rs, id, from + 1)
    }
}

/// The first position at or after `from` of a resource with the given path.
pub open spec fn first_with_path(rs: Seq<Resource>, path: Seq<char>, from: int) -> Option<int>
    decreases rs.len() - from,
{
    if from < 0 || from >= rs.len() {
        None
    } else if rs[from].path@ == path {
        Some(from)
    } else {
        first_with_path(rs, path, from + 1)
    }
}

/// The first position at or after `from` whose text is `t`.
pub open spec fn first_text(s: Seq<String>, t: Seq<char>, from: int) -> Option<int>
    decreases s.len() - from,
{
    if from < 0 || from >= s.len() {
        None
    } else if s[from]@ == t {
        Some(from)
    } else {
        first_text(s, t, from + 1)
    }
}

/// The paths of the spine entries whose id names a resource, in spine order;
/// entries with no such resource are left out.
pub open spec fn resolve_spine(rs: Seq<Resource>, ids: Seq<String>) -> Seq<String>
    decreases ids.len(),
{
    if ids.len() == 0 {
        Seq::empty()
    } else {
        let prev = resolve_spine(rs, ids.drop_last());
        match first_with_id(rs, ids.last()@, 0) {
            Some(j) => prev.push(rs[j].path),
            None => prev,
        }
    }
}

/// The document's reading order as internal paths.
pub open spec fn spine_paths(d: Document) -> Seq<String> {
    resolve_spine(d.resources@, d.spine@)
}

/// A MIME type of an image.
pub open spec fn is_image_type(mime: Seq<char>) -> bool {
    has_prefix(mime, "image/"@)
}

/// A path that names a cover, in either of the two spellings looked for.
pub open spec fn names_cover(path: Seq<char>) -> bool {
    occurs_in(path, "cover"@) || occurs_in(path, "Cover"@)
}

/// A resource that can stand in for an HTML cover page.
pub open spec fn is_cover_image(r: Resource) -> bool {
    is_image_type(r.mime@) && names_cover(r.path@)
}

/// The first position at or after `from` of a cover image.
pub open spec fn first_cover_image(rs: Seq<Resource>, from: int) -> Option<int>
    decreases rs.len() - from,
{
    if from < 0 || from >= rs.len() {
        None
    } else if is_cover_image(rs[from]) {
        Some(from)
    } else {
        first_cover_image(rs, from + 1)
    }
}

/// The path of the document's cover: the declared cover resource when it is
/// an image; else the first cover image of the manifest; else the declared
/// cover resource itself. None where no cover is declared or the declared id
/// names no resource.
pub open spec fn cover_path(d: Document) -> Option<Seq<char>> {
    match d.cover_id {
        None => None,
        Some(c) => match first_with_id(d.resources@, c@, 0) {
            None => None,
            Some(j) => if is_image_type(d.resources@[j].mime@) {
                Some(d.resources@[j].path@)
            } else {
                match first_cover_image(d.resources@, 0) {
                    Some(k) => Some(d.resources@[k].path@),
                    None => Some(d.resources@[j].path@),
                }
            },
        },
    }
}

/// The MIME type declared for the resource at `path`.
pub open spec fn mime_of(d: Document, path: Seq<char>) -> Option<Seq<char>> {
    match first_with_path(d.resources@, path, 0) {
        Some(j) => Some(d.resources@[j].mime@),
        None => None,
    }
}

/// Tests whether a file name carries the container extension.
pub fn is_container_name(name: &str) -> (r: bool)
    ensures
        r == has_suffix(name@, CONTAINER_EXTENSION@),
{
    ends_with(name, CONTAINER_EXTENSION)
}

/// `id` without the container extension at its end.
pub fn strip_container_extension(id: &str) -> (r: String)
    ensures
        r@ == strip_extension(id@),
{
    if ends_with(id, CONTAINER_EXTENSION) {
        let n = id.unicode_len();
        let k = CONTAINER_EXTENSION.unicode_len();
        String::from_str(id.substring_char(0, n - k))
    } else {
        String::from_str(id)
    }
}

/// The position of the first resource with the given id.
fn find_by_id(rs: &Vec<Resource>, id: &String) -> (r: Option<usize>)
    ensures
        match r {
            Some(i) => first_with_id(rs@, id@, 0) == Some(i as int),
            None => first_with_id(rs@, id@, 0) is None,
        },
{
    let mut i: usize = 0;
    while i < rs.len()
        invariant
            i <= rs@.len(),
            first_with_id(rs@, id@, 0) == first_with_id(rs@, id@, i as int),
        decreases rs.len() - i,
    {
        if rs[i].id == *id {
            return Some(i);
        }
        i = i + 1;
    }
    None
}

/// The position of the first resource with the given path.
fn find_by_path(rs: &Vec<Resource>, path: &String) -> (r: Option<usize>)
    ensures
        match r {
            Some(i) => first_with_path(rs@, path@, 0) == Some(i as int),
            None => first_with_path(rs@, path@, 0) is None,
        },
{
    let mut i: usize = 0;
    while i < rs.len()
        invariant
            i <= rs@.len(),
            first_with_path(rs@, path@, 0) == first_with_path(rs@, path@, i as int),
        decreases rs.len() - i,
    {
        if rs[i].path == *path {
            return Some(i);
        }
        i = i + 1;
    }
    None
}

/// The position of the first cover image.
fn find_cover_image(rs: &Vec<Resource>) -> (r: Option<usize>)
    ensures
        match r {
            Some(i) => first_cover_image(rs@, 0) == Some(i as int),
            None => first_cover_image(rs@, 0) is None,
        },
{
    let mut i: usize = 0;
    while i < rs.len()
        invariant
            i <= rs@.len(),
            first_cover_image(rs@, 0) == first_cover_image(rs@, i as int),
        decreases rs.len() - i,
    {
        let r = &rs[i];
        if starts_with(r.mime.as_str(), "image/") && (contains(r.path.as_str(), "cover")
            || contains(r.path.as_str(), "Cover")) {
            return Some(i);
        }
        i = i + 1;
    }
    None
}

proof fn lemma_first_with_id_found(rs: Seq<Resource>, id: Seq<char>, from: int)
    ensures
        first_with_id(rs, id, from) matches Some(j) ==> from <= j < rs.len() && rs[j].id@ == id,
    decreases rs.len() - from,
{
    if !(from < 0 || from >= rs.len()) && rs[from].id@ != id {
        lemma_first_with_id_found(rs, id, from + 1);
    }
}

proof fn lemma_first_with_path_found(rs: Seq<Resource>, path: Seq<char>, from: int)
    ensures
        first_with_path(rs, path, from) matches Some(j) ==> from <= j < rs.len() && rs[j].path@
            == path,
    decreases rs.len() - from,
{
    if !(from < 0 || from >= rs.len()) && rs[from].path@ != path {
        lemma_first_with_path_found(rs, path, from + 1);
    }
}

proof fn lemma_first_cover_image_found(rs: Seq<Resource>, from: int)
    ensures
        first_cover_image(rs, from) matches Some(j) ==> from <= j < rs.len() && is_cover_image(
            rs[j],
        ),
    decreases rs.len() - from,
{
    if !(from < 0 || from >= rs.len()) && !is_cover_image(rs[from]) {
        lemma_first_cover_image_found(rs, from + 1);
    }
}

/// The first position at or after `from` whose text is `t` is a position of `t`.
pub proof fn lemma_first_text_found(s: Seq<String>, t: Seq<char>, from: int)
    ensures
        first_text(s, t, from) matches Some(j) ==> from <= j < s.len() && s[j]@ == t,
    decreases s.len() - from,
{
    if !(from < 0 || from >= s.len()) && s[from]@ != t {
        lemma_first_text_found(s, t, from + 1);
    }
}

/// Where `t` occurs at or after `from`, a first position of it is found.
pub proof fn lemma_first_text_exists(s: Seq<String>, t: Seq<char>, from: int, k: int)
    requires
        0 <= from <= k < s.len(),
        s[k]@ == t,
    ensures
        first_text(s, t, from) is Some,
    decreases k - from,
{
    if s[from]@ != t {
        lemma_first_text_exists(s, t, from + 1, k);
    }
}

/// Resolving a spine never lengthens it.
pub proof fn lemma_resolve_spine_len(rs: Seq<Resource>, ids: Seq<String>)
    ensures
        resolve_spine(rs, ids).len() <= ids.len(),
    decreases ids.len(),
{
    if ids.len() > 0 {
        lemma_resolve_spine_len(rs, ids.drop_last());
    }
}

/// No two resources share an internal path.
pub open spec fn unique_paths(rs: Seq<Resource>) -> bool {
    forall|i: int, j: int| 0 <= i < j < rs.len() ==> rs[i].path@ != rs[j].path@
}

/// A document whose declared cover is an HTML page, and which holds an image
/// whose path names a cover, resolves its cover to such an image, never to
/// the page.
pub proof fn lemma_cover_page_resolves_to_image(d: Document, k: int)
    requires
        unique_paths(d.resources@),
        d.cover_id matches Some(c) && first_with_id(d.resources@, c@, 0) matches Some(j)
            && !is_image_type(d.resources@[j].mime@),
        0 <= k < d.resources@.len(),
        is_cover_image(d.resources@[k]),
    ensures
        cover_path(d) matches Some(p) && exists|m: int|
            0 <= m < d.resources@.len() && is_cover_image(d.resources@[m]) && p
                == d.resources@[m].path@,
        cover_path(d) != Some(
            d.resources@[first_with_id(d.resources@, d.cover_id.unwrap()@, 0).unwrap()].path@,
        ),
{
    let rs = d.resources@;
    let j = first_with_id(rs, d.cover_id.unwrap()@, 0).unwrap();
    lemma_first_with_id_found(rs, d.cover_id.unwrap()@, 0);
    lemma_first_cover_image_exists(rs, 0, k);
    lemma_first_cover_image_found(rs, 0);
    let m = first_cover_image(rs, 0).unwrap();
    assert(m != j);
    if m < j {
        assert(rs[m].path@ != rs[j].path@);
    } else {
        assert(rs[j].path@ != rs[m].path@);
    }
}

proof fn lemma_first_cover_image_exists(rs: Seq<Resource>, from: int, k: int)
    requires
        0 <= from <= k < rs.len(),
        is_cover_image(rs[k]),
    ensures
        first_cover_image(rs, from) is Some,
    decreases k - from,
{
    if !is_cover_image(rs[from]) {
        lemma_first_cover_image_exists(rs, from + 1, k);
    }
}

impl Document {
    /// The title shown for this document: the declared title, or the
    /// identifier without its container extension.
    pub fn display_title(&self) -> (r: String)
        ensures
            r@ == title_of(*self),
    {
        match &self.title {
            Some(t) => t.clone(),
            None => strip_container_extension(self.identifier.as_str()),
        }
    }

    /// The reading order as internal paths; spine entries whose id names no
    /// resource are dropped.
    pub fn spine_paths(&self) -> (r: Vec<String>)
        ensures
            r@ == spine_paths(*self),
            r@.len() <= self.spine@.len(),
    {
        let mut out: Vec<String> = Vec::new();
        let mut i: usize = 0;
        while i < self.spine.len()
            invariant
                i <= self.spine@.len(),
                out@ == resolve_spine(self.resources@, self.spine@.take(i as int)),
            decreases self.spine.len() - i,
        {
            proof {
                assert(self.spine@.take(i + 1).drop_last() =~= self.spine@.take(i as int));
            }
            match find_by_id(&self.resources, &self.spine[i]) {
                Some(j) => {
                    proof {
                        lemma_first_with_id_found(self.resources@, self.spine@[i as int]@, 0);
                    }
                    out.push(self.resources[j].path.clone());
                },
                None => {},
            }
            i = i + 1;
        }
        proof {
            assert(self.spine@.take(i as int) =~= self.spine@);
            lemma_resolve_spine_len(self.resources@, self.spine@);
        }
        out
    }

    /// The first position in the resolved reading order whose path is
    /// exactly `path`.
    pub fn spine_index_of(&self, path: &str) -> (r: Option<usize>)
        ensures
            match r {
                Some(i) => first_text(spine_paths(*self), path@, 0) == Some(i as int),
                None => first_text(spine_paths(*self), path@, 0) is None,
            },
    {
        let paths = self.spine_paths();
        let target = String::from_str(path);
        let mut i: usize = 0;
        while i < paths.len()
            invariant
                i <= paths@.len(),
                paths@ == spine_paths(*self),
                target@ == path@,
                first_text(paths@, path@, 0) == first_text(paths@, path@, i as int),
            decreases paths.len() - i,
        {
            if paths[i] == target {
                return Some(i);
            }
            i = i + 1;
        }
        None
    }

    /// The path at `index` in the resolved reading order.
    pub fn spine_item_at(&self, index: usize) -> (r: Option<String>)
        ensures
            match r {
                Some(p) => index < spine_paths(*self).len() && p == spine_paths(*self)[index as int],
                None => index >= spine_paths(*self).len(),
            },
    {
        let paths = self.spine_paths();
        if index < paths.len() {
            Some(paths[index].clone())
        } else {
            None
        }
    }

    /// The MIME type declared for the resource at `path`.
    pub fn mime_for_path(&self, path: &str) -> (r: Option<String>)
        ensures
            match r {
                Some(m) => mime_of(*self, path@) == Some(m@),
                None => mime_of(*self, path@) is None,
            },
    {
        let target = String::from_str(path);
        match find_by_path(&self.resources, &target) {
            Some(j) => {
                proof {
                    lemma_first_with_path_found(self.resources@, path@, 0);
                }
                Some(self.resources[j].mime.clone())
            },
            None => None,
        }
    }

    /// The path of this document's cover, as `cover_path` states.
    pub fn cover_path(&self) -> (r: Option<String>)
        ensures
            match r {
                Some(p) => cover_path(*self) == Some(p@),
                None => cover_path(*self) is None,
            },
    {
        match &self.cover_id {
            None => None,
            Some(c) => match find_by_id(&self.resources, c) {
                None => None,
                Some(j) => {
                    proof {
                        lemma_first_with_id_found(self.resources@, c@, 0);
                    }
                    let declared = &self.resources[j];
                    if starts_with(declared.mime.as_str(), "image/") {
                        Some(declared.path.clone())
                    } else {
                        match find_cover_image(&self.resources) {
                            Some(k) => {
                                proof {
                                    lemma_first_cover_image_found(self.resources@, 0);
                                }
                                Some(self.resources[k].path.clone())
                            },
                            None => Some(declared.path.clone()),
                        }
                    }
                },
            },
        }
    }
}

} // verus!
