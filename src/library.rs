//! The library: loaded documents keyed by identifier, how a load is
//! assembled from per-file outcomes, and the accessors that answer queries
//! by book identifier.
use vstd::prelude::*;
use vstd::string::*;
use crate::document::{
    Document, TocItem, title_of, spine_paths, first_text, cover_path, mime_of,
    lemma_first_text_found, lemma_first_text_exists, lemma_resolve_spine_len,
};
use crate::text::has_suffix;
use crate::document::CONTAINER_EXTENSION;

verus! {

/// The failure of a query that names a book the library does not hold.
#[derive(Debug)]
pub enum LibraryError {
    BookNotFound(String),
}

/// A container file that could not be parsed: its name and the reason given.
#[derive(Clone, Debug)]
pub struct LoadFailure {
    pub name: String,
    pub reason: String,
}

/// What a load produced: the library and the files that failed.
pub struct LoadReport {
    pub library: Library,
    pub failures: Vec<LoadFailure>,
}

/// The loaded documents, at most one per identifier.
pub struct Library {
    books: Vec<Document>,
}

/// The first position at or after `from` of a document with identifier `id`.
pub open spec fn first_book(books: Seq<Document>, id: Seq<char>, from: int) -> Option<int>
    decreases books.len() - from,
{
    if from < 0 || from >= books.len() {
        None
    } else if books[from].identifier@ == id {
        Some(from)
    } else {
        first_book(books, id, from + 1)
    }
}

/// The first document with identifier `id`.
pub open spec fn book_in(books: Seq<Document>, id: Seq<char>) -> Option<Document> {
    match first_book(books, id, 0) {
        Some(i) => Some(books[i]),
        None => None,
    }
}

/// No two documents share an identifier.
pub open spec fn unique_identifiers(books: Seq<Document>) -> bool {
    forall|i: int, j: int|
        0 <= i < j < books.len() ==> books[i].identifier@ != books[j].identifier@
}

/// The document with identifier `id` that the outcomes leave in a library:
/// the last one loaded under that identifier.
pub open spec fn last_loaded(outcomes: Seq<Result<Document, LoadFailure>>, id: Seq<char>) -> Option<
    Document,
>
    decreases outcomes.len(),
{
    if outcomes.len() == 0 {
        None
    } else {
        match outcomes.last() {
            Ok(d) => if d.identifier@ == id {
                Some(d)
            } else {
                last_loaded(outcomes.drop_last(), id)
            },
            Err(_) => last_loaded(outcomes.drop_last(), id),
        }
    }
}

/// How many distinct identifiers the outcomes load documents under.
pub open spec fn loaded_count(outcomes: Seq<Result<Document, LoadFailure>>) -> nat
    decreases outcomes.len(),
{
    if outcomes.len() == 0 {
        0
    } else {
        let prev = loaded_count(outcomes.drop_last());
        match outcomes.last() {
            Ok(d) => if last_loaded(outcomes.drop_last(), d.identifier@) is None {
                prev + 1
            } else {
                prev
            },
            Err(_) => prev,
        }
    }
}

/// The failures among the outcomes, in order.
pub open spec fn failures_of(outcomes: Seq<Result<Document, LoadFailure>>) -> Seq<LoadFailure>
    decreases outcomes.len(),
{
    if outcomes.len() == 0 {
        Seq::empty()
    } else {
        let prev = failures_of(outcomes.drop_last());
        match outcomes.last() {
            Ok(_) => prev,
            Err(f) => prev.push(f),
        }
    }
}

/// The synthetic address of a resource of a book.
pub open spec fn resource_uri(id: Seq<char>, path: Seq<char>) -> Seq<char> {
    "epub://"@ + id + "/"@ + path
}

/// The cover entries of the books, in library order: identifier, title and
/// cover address of each book whose cover resolves.
pub open spec fn covers_of(books: Seq<Document>) -> Seq<(Seq<char>, Seq<char>, Seq<char>)>
    decreases books.len(),
{
    if books.len() == 0 {
        Seq::empty()
    } else {
        let prev = covers_of(books.drop_last());
        let d = books.last();
        match cover_path(d) {
            Some(p) => prev.push((d.identifier@, title_of(d), resource_uri(d.identifier@, p))),
            None => prev,
        }
    }
}

/// The text of a cover entry.
pub open spec fn cover_entry_view(t: (String, String, String)) -> (Seq<char>, Seq<char>, Seq<char>) {
    (t.0@, t.1@, t.2@)
}

/// The error for an unknown book.
pub open spec fn is_book_not_found<T>(r: Result<T, LibraryError>, id: Seq<char>) -> bool {
    r matches Err(LibraryError::BookNotFound(k)) && k@ == id
}

proof fn lemma_first_book_found(books: Seq<Document>, id: Seq<char>, from: int)
    ensures
        first_book(books, id, from) matches Some(j) ==> from <= j < books.len()
            && books[j].identifier@ == id,
    decreases books.len() - from,
{
    if !(from < 0 || from >= books.len()) && books[from].identifier@ != id {
        lemma_first_book_found(books, id, from + 1);
    }
}

proof fn lemma_first_book_at(books: Seq<Document>, id: Seq<char>, from: int, k: int)
    requires
        unique_identifiers(books),
        0 <= from <= k < books.len(),
        books[k].identifier@ == id,
    ensures
        first_book(books, id, from) == Some(k),
    decreases k - from,
{
    if from < k {
        lemma_first_book_at(books, id, from + 1, k);
    }
}

proof fn lemma_first_book_absent(books: Seq<Document>, id: Seq<char>, from: int)
    requires
        0 <= from,
        forall|k: int| 0 <= k < books.len() ==> books[k].identifier@ != id,
    ensures
        first_book(books, id, from) is None,
    decreases books.len() - from,
{
    if from < books.len() {
        lemma_first_book_absent(books, id, from + 1);
    }
}

/// Where a change of the documents touches only those with identifier
/// `key`, every other identifier finds the same document as before.
proof fn lemma_other_books_kept(before: Seq<Document>, after: Seq<Document>, key: Seq<char>)
    requires
        unique_identifiers(before),
        unique_identifiers(after),
        before.len() <= after.len(),
        forall|k: int|
            0 <= k < before.len() && before[k].identifier@ != key ==> after[k] == before[k],
        forall|k: int|
            0 <= k < after.len() && !(0 <= k < before.len() && before[k].identifier@ != key)
                ==> after[k].identifier@ == key,
    ensures
        forall|id: Seq<char>| id != key ==> #[trigger] book_in(after, id) == book_in(before, id),
{
    assert forall|id: Seq<char>| id != key implies #[trigger] book_in(after, id) == book_in(
        before,
        id,
    ) by {
        lemma_first_book_found(before, id, 0);
        lemma_first_book_found(after, id, 0);
        match first_book(before, id, 0) {
            Some(k) => lemma_first_book_at(after, id, 0, k),
            None => {
                if exists|k: int| 0 <= k < after.len() && after[k].identifier@ == id {
                    let k = choose|k: int| 0 <= k < after.len() && after[k].identifier@ == id;
                    lemma_first_book_at(before, id, 0, k);
                } else {
                    lemma_first_book_absent(after, id, 0);
                }
            },
        }
    }
}

impl Library {
    /// The documents held, in the order they were added.
    pub closed spec fn documents(&self) -> Seq<Document> {
        self.books@
    }

    /// Identifiers are unique.
    pub open spec fn wf(&self) -> bool {
        unique_identifiers(self.documents())
    }

    /// The document held under identifier `id`.
    pub open spec fn book(&self, id: Seq<char>) -> Option<Document> {
        book_in(self.documents(), id)
    }

    /// An empty library.
    pub fn new() -> (r: Library)
        ensures
            r.wf(),
            r.documents().len() == 0,
            forall|id: Seq<char>| r.book(id) is None,
    {
        Library { books: Vec::new() }
    }

    /// The number of documents held.
    pub fn len(&self) -> (r: usize)
        ensures
            r == self.documents().len(),
    {
        self.books.len()
    }

    /// The position of the document with identifier `id`.
    fn position(&self, id: &str) -> (r: Option<usize>)
        ensures
            match r {
                Some(i) => first_book(self.documents(), id@, 0) == Some(i as int) && i
                    < self.documents().len(),
                None => first_book(self.documents(), id@, 0) is None,
            },
    {
        let target = String::from_str(id);
        let mut i: usize = 0;
        while i < self.books.len()
            invariant
                i <= self.books@.len(),
                target@ == id@,
                first_book(self.books@, id@, 0) == first_book(self.books@, id@, i as int),
            decreases self.books.len() - i,
        {
            if self.books[i].identifier == target {
                return Some(i);
            }
            i = i + 1;
        }
        None
    }

    /// Adds a document under its identifier, replacing one held under the
    /// same identifier; the library grows by one exactly when it held no
    /// document under that identifier.
    pub fn insert(&mut self, doc: Document)
        requires
            old(self).wf(),
        ensures
            final(self).wf(),
            final(self).book(doc.identifier@) == Some(doc),
            forall|id: Seq<char>|
                id != doc.identifier@ ==> #[trigger] final(self).book(id) == old(self).book(id),
            final(self).documents().len() == old(self).documents().len() + if old(self).book(
                doc.identifier@,
            ) is None {
                1int
            } else {
                0int
            },
    {
        let ghost key = doc.identifier@;
        let ghost before = self.books@;
        match self.position(doc.identifier.as_str()) {
            Some(i) => {
                proof {
                    lemma_first_book_found(before, key, 0);
                }
                self.books[i] = doc;
                proof {
                    let after = self.books@;
                    assert(unique_identifiers(after));
                    lemma_first_book_at(after, key, 0, i as int);
                    lemma_other_books_kept(before, after, key);
                }
            },
            None => {
                self.books.push(doc);
                proof {
                    let after = self.books@;
                    assert forall|k: int| 0 <= k < before.len() implies before[k].identifier@
                        != key by {
                        if before[k].identifier@ == key {
                            lemma_first_book_at(before, key, 0, k);
                        }
                    }
                    assert(unique_identifiers(after));
                    lemma_first_book_at(after, key, 0, before.len() as int);
                    lemma_other_books_kept(before, after, key);
                }
            },
        }
    }

    /// The title of book `book_id`: its declared title, or its identifier
    /// without the container extension.
    pub fn title(&self, book_id: &str) -> (r: Result<String, LibraryError>)
        ensures
            match self.book(book_id@) {
                Some(d) => r matches Ok(t) && t@ == title_of(d),
                None => is_book_not_found(r, book_id@),
            },
    {
        match self.position(book_id) {
            Some(i) => Ok(self.books[i].display_title()),
            None => Err(LibraryError::BookNotFound(String::from_str(book_id))),
        }
    }

    /// The table of contents of book `book_id`, in document order and
    /// nesting.
    pub fn table_of_contents(&self, book_id: &str) -> (r: Result<&Vec<TocItem>, LibraryError>)
        ensures
            match self.book(book_id@) {
                Some(d) => r matches Ok(t) && *t == d.toc,
                None => is_book_not_found(r, book_id@),
            },
    {
        match self.position(book_id) {
            Some(i) => Ok(&self.books[i].toc),
            None => Err(LibraryError::BookNotFound(String::from_str(book_id))),
        }
    }

    /// The reading order of book `book_id` as internal paths; spine entries
    /// whose id names no resource are dropped, so it is never longer than
    /// the declared spine.
    pub fn spine(&self, book_id: &str) -> (r: Result<Vec<String>, LibraryError>)
        ensures
            match self.book(book_id@) {
                Some(d) => r matches Ok(p) && p@ == spine_paths(d) && p@.len() <= d.spine@.len(),
                None => is_book_not_found(r, book_id@),
            },
    {
        match self.position(book_id) {
            Some(i) => Ok(self.books[i].spine_paths()),
            None => Err(LibraryError::BookNotFound(String::from_str(book_id))),
        }
    }

    /// The first position in the reading order of book `book_id` whose path
    /// is exactly `path`.
    pub fn spine_index_of(&self, book_id: &str, path: &str) -> (r: Result<
        Option<usize>,
        LibraryError,
    >)
        ensures
            match self.book(book_id@) {
                Some(d) => r matches Ok(o) && match o {
                    Some(i) => first_text(spine_paths(d), path@, 0) == Some(i as int),
                    None => first_text(spine_paths(d), path@, 0) is None,
                },
                None => is_book_not_found(r, book_id@),
            },
    {
        match self.position(book_id) {
            Some(i) => Ok(self.books[i].spine_index_of(path)),
            None => Err(LibraryError::BookNotFound(String::from_str(book_id))),
        }
    }

    /// The path at `index` in the reading order of book `book_id`.
    pub fn spine_item_at(&self, book_id: &str, index: usize) -> (r: Result<
        Option<String>,
        LibraryError,
    >)
        ensures
            match self.book(book_id@) {
                Some(d) => r matches Ok(o) && match o {
                    Some(p) => index < spine_paths(d).len() && p == spine_paths(d)[index as int],
                    None => index >= spine_paths(d).len(),
                },
                None => is_book_not_found(r, book_id@),
            },
    {
        match self.position(book_id) {
            Some(i) => Ok(self.books[i].spine_item_at(index)),
            None => Err(LibraryError::BookNotFound(String::from_str(book_id))),
        }
    }

    /// The MIME type declared for the resource at `path` in book `book_id`;
    /// None where the book or the path is unknown.
    pub fn resource_mime(&self, book_id: &str, path: &str) -> (r: Option<String>)
        ensures
            match self.book(book_id@) {
                Some(d) => match r {
                    Some(m) => mime_of(d, path@) == Some(m@),
                    None => mime_of(d, path@) is None,
                },
                None => r is None,
            },
    {
        match self.position(book_id) {
            Some(i) => self.books[i].mime_for_path(path),
            None => None,
        }
    }

    /// For each book whose cover resolves, in library order: its identifier,
    /// its title and the address of its cover.
    pub fn all_book_covers(&self) -> (r: Vec<(String, String, String)>)
        ensures
            r@.map_values(|t: (String, String, String)| cover_entry_view(t)) == covers_of(
                self.documents(),
            ),
    {
        let mut out: Vec<(String, String, String)> = Vec::new();
        let mut i: usize = 0;
        while i < self.books.len()
            invariant
                i <= self.books@.len(),
                out@.map_values(|t: (String, String, String)| cover_entry_view(t)) == covers_of(
                    self.books@.take(i as int),
                ),
            decreases self.books.len() - i,
        {
            let d = &self.books[i];
            proof {
                assert(self.books@.take(i + 1).drop_last() =~= self.books@.take(i as int));
            }
            match d.cover_path() {
                Some(p) => {
                    let mut uri = String::from_str("epub://");
                    uri.append(d.identifier.as_str());
                    uri.append("/");
                    uri.append(p.as_str());
                    let entry = (d.identifier.clone(), d.display_title(), uri);
                    let ghost prev = out@;
                    out.push(entry);
                    proof {
                        assert(out@.map_values(|t: (String, String, String)| cover_entry_view(t))
                            =~= prev.map_values(
                            |t: (String, String, String)| cover_entry_view(t),
                        ).push(cover_entry_view(entry)));
                    }
                },
                None => {},
            }
            i = i + 1;
        }
        proof {
            assert(self.books@.take(i as int) =~= self.books@);
        }
        out
    }
}

} // verus!

verus! {

/// Assembles a library from the outcome of parsing each container file, in
/// scan order: each parsed document is added under its identifier (a later
/// one replacing an earlier one with the same identifier) and each failure
/// is recorded. The load itself never fails.
pub fn load_library(outcomes: Vec<Result<Document, LoadFailure>>) -> (r: LoadReport)
    ensures
        r.library.wf(),
        forall|id: Seq<char>| #[trigger] r.library.book(id) == last_loaded(outcomes@, id),
        r.failures@ == failures_of(outcomes@),
        r.library.documents().len() == loaded_count(outcomes@),
{
    let ghost all = outcomes@;
    let n = outcomes.len();
    let mut rest = outcomes;
    let mut library = Library::new();
    let mut failures: Vec<LoadFailure> = Vec::new();
    let mut i: usize = 0;
    while rest.len() > 0
        invariant
            i <= all.len(),
            all.len() == n,
            rest@ == all.skip(i as int),
            library.wf(),
            forall|id: Seq<char>| #[trigger] library.book(id) == last_loaded(all.take(i as int), id),
            failures@ == failures_of(all.take(i as int)),
            library.documents().len() == loaded_count(all.take(i as int)),
        decreases rest.len(),
    {
        let outcome = rest.remove(0);
        proof {
            assert(all.take(i + 1).drop_last() =~= all.take(i as int));
            assert(all.take(i + 1).last() == all[i as int]);
            assert(rest@ =~= all.skip(i + 1));
        }
        match outcome {
            Ok(doc) => {
                library.insert(doc);
            },
            Err(f) => {
                failures.push(f);
            },
        }
        i = i + 1;
    }
    proof {
        assert(all.take(i as int) =~= all);
    }
    LoadReport { library, failures }
}

} // verus!

verus! {

/// A held book's title is never empty where its declared title, if any, is
/// not empty and its identifier is more than the container extension alone.
pub proof fn lemma_title_not_empty(lib: &Library, id: Seq<char>)
    requires
        lib.book(id) is Some,
        lib.book(id).unwrap().title matches Some(t) ==> t@.len() > 0,
        id.len() > 0,
        id != CONTAINER_EXTENSION@,
    ensures
        title_of(lib.book(id).unwrap()).len() > 0,
{
    lemma_first_book_found(lib.documents(), id, 0);
    let d = lib.book(id).unwrap();
    assert(d.identifier@ == id);
    if d.title is None && has_suffix(id, CONTAINER_EXTENSION@) {
        if id.len() == CONTAINER_EXTENSION@.len() {
            assert(id =~= id.subrange(0, id.len() as int));
        }
    }
}

/// For any path of the reading order of a held book, the spine lookup finds
/// a position, and the reading order holds that path at that position.
pub proof fn lemma_spine_index_round_trip(lib: &Library, id: Seq<char>, path: Seq<char>)
    requires
        lib.book(id) matches Some(d) && exists|k: int|
            0 <= k < spine_paths(d).len() && #[trigger] spine_paths(d)[k]@ == path,
    ensures
        lib.book(id) matches Some(d) && first_text(spine_paths(d), path, 0) matches Some(i) && 0
            <= i < spine_paths(d).len() && spine_paths(d)[i]@ == path,
{
    let d = lib.book(id).unwrap();
    let k = choose|k: int| 0 <= k < spine_paths(d).len() && #[trigger] spine_paths(d)[k]@ == path;
    lemma_first_text_exists(spine_paths(d), path, 0, k);
    lemma_first_text_found(spine_paths(d), path, 0);
}

/// The reading order of a held book is never longer than its declared spine.
pub proof fn lemma_spine_not_longer(lib: &Library, id: Seq<char>)
    requires
        lib.book(id) is Some,
    ensures
        spine_paths(lib.book(id).unwrap()).len() <= lib.book(id).unwrap().spine@.len(),
{
    let d = lib.book(id).unwrap();
    lemma_resolve_spine_len(d.resources@, d.spine@);
}

} // verus!
