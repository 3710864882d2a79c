//! The mirrored items: catalog repositories and the documents of the
//! documentation holder, with the keys and freshness signals the differ uses.

use vstd::prelude::*;
use core::cmp::Ordering;
use crate::differ::MirrorItem;
use crate::text::{chars_of, compare_text, lemma_text_order, push_range, text_lt};

verus! {

/// Name of the catalog item whose files are mirrored as separate documents.
pub const DOCS_REPO_NAME: &'static str = "blog-posts";

/// A catalog item (a repository), identified by its numeric id.
#[derive(Clone, Debug)]
pub struct Repo {
    pub id: i64,
    pub name: String,
    pub url: String,
    pub html_url: String,
    pub description: String,
    /// Time of the last push, in microseconds since the Unix epoch.
    pub pushed_at: i64,
    /// The resolved primary documentation file, when there is one.
    pub readme: Option<String>,
}

/// A cached document.
#[derive(Clone, Debug)]
pub struct BlogPost {
    pub id: i32,
    pub name: String,
    pub alphanumeric_name: String,
    pub sha: String,
    pub description: String,
    pub content: String,
}

/// One entry of a remote directory listing.
#[derive(Clone, Debug)]
pub struct FileMetadata {
    pub sha: String,
    pub name: String,
    pub path: String,
}

/// A document as the differ compares it: keyed by display name, with the
/// content hash as its freshness signal. A remote entry knows its path, a
/// cached entry its generated id.
#[derive(Debug)]
pub struct DocumentEntry {
    pub name: String,
    pub sha: String,
    /// Path in the documentation holder; empty for a cached entry.
    pub path: String,
    /// Generated cache id; `None` for a remote entry.
    pub id: Option<i32>,
}

impl Repo {
    /// Whether this is the documentation holder.
    pub fn is_docs_holder(&self) -> (r: bool)
        ensures
            r == (self.name@ == DOCS_REPO_NAME@),
    {
        match compare_text(self.name.as_str(), DOCS_REPO_NAME) {
            Ordering::Equal => true,
            _ => false,
        }
    }
}

impl MirrorItem for Repo {
    type Key = i64;

    open spec fn key(self) -> i64 {
        self.id
    }

    open spec fn key_lt(a: i64, b: i64) -> bool {
        a < b
    }

    open spec fn supersedes(self, cached: Self) -> bool {
        self.pushed_at > cached.pushed_at
    }

    open spec fn always_resync(self) -> bool {
        self.name@ == DOCS_REPO_NAME@
    }

    proof fn lemma_key_order() {
    }

    proof fn lemma_supersedes_irreflexive(x: Self) {
    }

    fn compare_keys(&self, other: &Self) -> (r: Ordering) {
        if self.id < other.id {
            Ordering::Less
        } else if self.id > other.id {
            Ordering::Greater
        } else {
            Ordering::Equal
        }
    }

    fn is_fresher_than(&self, cached: &Self) -> (r: bool) {
        self.pushed_at > cached.pushed_at
    }

    fn needs_resync(&self) -> (r: bool) {
        self.is_docs_holder()
    }
}

impl MirrorItem for DocumentEntry {
    type Key = Seq<char>;

    open spec fn key(self) -> Seq<char> {
        self.name@
    }

    open spec fn key_lt(a: Seq<char>, b: Seq<char>) -> bool {
        text_lt(a, b)
    }

    open spec fn supersedes(self, cached: Self) -> bool {
        self.sha@ != cached.sha@
    }

    open spec fn always_resync(self) -> bool {
        false
    }

    proof fn lemma_key_order() {
        lemma_text_order();
    }

    proof fn lemma_supersedes_irreflexive(x: Self) {
    }

    fn compare_keys(&self, other: &Self) -> (r: Ordering) {
        compare_text(self.name.as_str(), other.name.as_str())
    }

    fn is_fresher_than(&self, cached: &Self) -> (r: bool) {
        match compare_text(self.sha.as_str(), cached.sha.as_str()) {
            Ordering::Equal => false,
            _ => true,
        }
    }

    fn needs_resync(&self) -> (r: bool) {
        false
    }
}

/// `s` ends with the documentation extension `.md`.
pub open spec fn ends_with_md(s: Seq<char>) -> bool {
    s.len() >= 3 && s[s.len() - 3] == '.' && s[s.len() - 2] == 'm' && s[s.len() - 1] == 'd'
}

/// A file name with a trailing `.md` removed.
pub open spec fn strip_md(s: Seq<char>) -> Seq<char> {
    if ends_with_md(s) {
        s.take(s.len() - 3)
    } else {
        s
    }
}

/// Whether `path` names a documentation file (it ends in `.md`).
pub fn is_markdown_path(path: &str) -> (r: bool)
    ensures
        r == ends_with_md(path@),
{
    let c = chars_of(path);
    let n = c.len();
    n >= 3 && c[n - 3] == '.' && c[n - 2] == 'm' && c[n - 1] == 'd'
}

/// The display name of a document file: its name without a trailing `.md`.
pub fn display_name(file_name: &str) -> (r: String)
    ensures
        r@ == strip_md(file_name@),
{
    let c = chars_of(file_name);
    let n = c.len();
    let end = if n >= 3 && c[n - 3] == '.' && c[n - 2] == 'm' && c[n - 1] == 'd' {
        n - 3
    } else {
        n
    };
    let mut r = String::new();
    push_range(&mut r, &c, 0, end);
    proof {
        assert(c@.subrange(0, n as int) == c@);
    }
    r
}

/// The differ's view of a remote file.
pub open spec fn is_remote_entry_of(e: DocumentEntry, f: FileMetadata) -> bool {
    &&& e.name@ == strip_md(f.name@)
    &&& e.sha == f.sha
    &&& e.path == f.path
    &&& e.id is None
}

/// The differ's view of a cached document.
pub open spec fn is_cached_entry_of(e: DocumentEntry, p: BlogPost) -> bool {
    &&& e.name == p.name
    &&& e.sha == p.sha
    &&& e.path@.len() == 0
    &&& e.id == Some(p.id)
}

/// The documentation files of a remote listing (paths ending in `.md`), as
/// differ entries named by their display names, in listing order.
pub fn markdown_entries(listing: Vec<FileMetadata>) -> (r: Vec<DocumentEntry>)
    ensures
        r@.len() == listing@.filter(|f: FileMetadata| ends_with_md(f.path@)).len(),
        forall|i: int| 0 <= i < r@.len() ==> is_remote_entry_of(
            #[trigger] r@[i],
            listing@.filter(|f: FileMetadata| ends_with_md(f.path@))[i],
        ),
{
    let ghost pred = |f: FileMetadata| ends_with_md(f.path@);
    let mut out: Vec<DocumentEntry> = Vec::new();
    for f in it: listing.into_iter()
        invariant
            it.seq() == listing@,
            pred == (|f: FileMetadata| ends_with_md(f.path@)),
            out@.len() == listing@.take(it.index()).filter(pred).len(),
            forall|i: int| 0 <= i < out@.len() ==> is_remote_entry_of(
                #[trigger] out@[i],
                listing@.take(it.index()).filter(pred)[i],
            ),
    {
        proof {
            assert(listing@.take(it.index() + 1) == listing@.take(it.index()).push(f));
            listing@.take(it.index()).lemma_filter_push(f, pred);
        }
        if is_markdown_path(f.path.as_str()) {
            let name = display_name(f.name.as_str());
            out.push(DocumentEntry { name, sha: f.sha, path: f.path, id: None });
        }
    }
    proof {
        assert(listing@.take(listing@.len() as int) == listing@);
    }
    out
}

/// The differ's entries for the cached documents, in order.
pub fn cached_entries(posts: &Vec<BlogPost>) -> (r: Vec<DocumentEntry>)
    ensures
        r@.len() == posts@.len(),
        forall|i: int| 0 <= i < r@.len() ==> is_cached_entry_of(#[trigger] r@[i], posts@[i]),
{
    let mut out: Vec<DocumentEntry> = Vec::new();
    let mut i: usize = 0;
    while i < posts.len()
        invariant
            i <= posts@.len(),
            out@.len() == i,
            forall|j: int| 0 <= j < i ==> is_cached_entry_of(#[trigger] out@[j], posts@[j]),
        decreases posts@.len() - i,
    {
        let p = &posts[i];
        out.push(DocumentEntry { name: p.name.clone(), sha: p.sha.clone(), path: String::new(), id: Some(p.id) });
        i = i + 1;
    }
    out
}

} // verus!
