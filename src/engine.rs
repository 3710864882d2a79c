//! The decisions of a refresh cycle: which writes a change set asks for, and
//! what a resolved document becomes in the cache.

use vstd::prelude::*;
use crate::catalog::{DocumentEntry, Repo, DOCS_REPO_NAME};
use crate::content::{body_of, split_summary_and_body, summary_of};
use crate::differ::{ChangeKind, ChangeRecord};
use crate::text::{get_url_safe_name, slug_of};

verus! {

proof fn lemma_filter_map_push<A, B>(s: Seq<A>, x: A, p: spec_fn(A) -> bool, f: spec_fn(A) -> B)
    ensures
        s.push(x).filter(p).map_values(f) == if p(x) {
            s.filter(p).map_values(f).push(f(x))
        } else {
            s.filter(p).map_values(f)
        },
{
    s.lemma_filter_push(x, p);
    if p(x) {
        assert(s.filter(p).push(x).map_values(f) =~= s.filter(p).map_values(f).push(f(x)));
    }
}

/// An upsert of a catalog item other than the documentation holder.
pub open spec fn is_repo_upsert(c: ChangeRecord<Repo>) -> bool {
    c.kind == ChangeKind::Upsert && c.item.name@ != DOCS_REPO_NAME@
}

/// An upsert of the documentation holder.
pub open spec fn is_holder_upsert(c: ChangeRecord<Repo>) -> bool {
    c.kind == ChangeKind::Upsert && c.item.name@ == DOCS_REPO_NAME@
}

/// A delete of a catalog item.
pub open spec fn is_repo_delete(c: ChangeRecord<Repo>) -> bool {
    c.kind == ChangeKind::Delete
}

/// The catalog-level work of a cycle.
pub struct CatalogPlan {
    /// Items to write, each after its primary documentation file is resolved.
    pub upserts: Vec<Repo>,
    /// Documentation holders whose documents are to be re-diffed.
    pub holders: Vec<Repo>,
    /// Ids of the items to remove.
    pub deletes: Vec<i64>,
}

/// Sorts catalog change records into the work they ask for, keeping their
/// order within each kind of work; `NoChange` records ask for none.
pub fn plan_catalog(changes: Vec<ChangeRecord<Repo>>) -> (r: CatalogPlan)
    ensures
        r.upserts@ == changes@.filter(|c: ChangeRecord<Repo>| is_repo_upsert(c)).map_values(
            |c: ChangeRecord<Repo>| c.item,
        ),
        r.holders@ == changes@.filter(|c: ChangeRecord<Repo>| is_holder_upsert(c)).map_values(
            |c: ChangeRecord<Repo>| c.item,
        ),
        r.deletes@ == changes@.filter(|c: ChangeRecord<Repo>| is_repo_delete(c)).map_values(
            |c: ChangeRecord<Repo>| c.item.id,
        ),
{
    let ghost pu = |c: ChangeRecord<Repo>| is_repo_upsert(c);
    let ghost ph = |c: ChangeRecord<Repo>| is_holder_upsert(c);
    let ghost pd = |c: ChangeRecord<Repo>| is_repo_delete(c);
    let ghost item = |c: ChangeRecord<Repo>| c.item;
    let ghost id = |c: ChangeRecord<Repo>| c.item.id;
    let mut upserts: Vec<Repo> = Vec::new();
    let mut holders: Vec<Repo> = Vec::new();
    let mut deletes: Vec<i64> = Vec::new();
    for c in it: changes.into_iter()
        invariant
            it.seq() == changes@,
            pu == (|c: ChangeRecord<Repo>| is_repo_upsert(c)),
            ph == (|c: ChangeRecord<Repo>| is_holder_upsert(c)),
            pd == (|c: ChangeRecord<Repo>| is_repo_delete(c)),
            item == (|c: ChangeRecord<Repo>| c.item),
            id == (|c: ChangeRecord<Repo>| c.item.id),
            upserts@ == changes@.take(it.index()).filter(pu).map_values(item),
            holders@ == changes@.take(it.index()).filter(ph).map_values(item),
            deletes@ == changes@.take(it.index()).filter(pd).map_values(id),
    {
        proof {
            let pre = changes@.take(it.index());
            assert(changes@.take(it.index() + 1) == pre.push(c));
            lemma_filter_map_push(pre, c, pu, item);
            lemma_filter_map_push(pre, c, ph, item);
            lemma_filter_map_push(pre, c, pd, id);
        }
        match c.kind {
            ChangeKind::Upsert => {
                if c.item.is_docs_holder() {
                    holders.push(c.item);
                } else {
                    upserts.push(c.item);
                }
            },
            ChangeKind::Delete => {
                deletes.push(c.item.id);
            },
            ChangeKind::NoChange => {},
        }
    }
    proof {
        assert(changes@.take(changes@.len() as int) == changes@);
    }
    CatalogPlan { upserts, holders, deletes }
}

/// A document upsert.
pub open spec fn is_document_upsert(c: ChangeRecord<DocumentEntry>) -> bool {
    c.kind == ChangeKind::Upsert
}

/// A delete of a cached document (one with a cache id).
pub open spec fn is_document_delete(c: ChangeRecord<DocumentEntry>) -> bool {
    c.kind == ChangeKind::Delete && c.item.id is Some
}

/// The document-level work of a cycle.
pub struct DocumentPlan {
    /// Remote documents whose content is to be fetched and written.
    pub fetches: Vec<DocumentEntry>,
    /// Cache ids of the documents to remove.
    pub deletes: Vec<i32>,
}

/// Sorts document change records into the work they ask for, keeping their
/// order within each kind of work.
pub fn plan_documents(changes: Vec<ChangeRecord<DocumentEntry>>) -> (r: DocumentPlan)
    ensures
        r.fetches@ == changes@.filter(|c: ChangeRecord<DocumentEntry>| is_document_upsert(c)).map_values(
            |c: ChangeRecord<DocumentEntry>| c.item,
        ),
        r.deletes@ == changes@.filter(|c: ChangeRecord<DocumentEntry>| is_document_delete(c)).map_values(
            |c: ChangeRecord<DocumentEntry>| c.item.id->0,
        ),
{
    let ghost pu = |c: ChangeRecord<DocumentEntry>| is_document_upsert(c);
    let ghost pd = |c: ChangeRecord<DocumentEntry>| is_document_delete(c);
    let ghost item = |c: ChangeRecord<DocumentEntry>| c.item;
    let ghost id = |c: ChangeRecord<DocumentEntry>| c.item.id->0;
    let mut fetches: Vec<DocumentEntry> = Vec::new();
    let mut deletes: Vec<i32> = Vec::new();
    for c in it: changes.into_iter()
        invariant
            it.seq() == changes@,
            pu == (|c: ChangeRecord<DocumentEntry>| is_document_upsert(c)),
            pd == (|c: ChangeRecord<DocumentEntry>| is_document_delete(c)),
            item == (|c: ChangeRecord<DocumentEntry>| c.item),
            id == (|c: ChangeRecord<DocumentEntry>| c.item.id->0),
            fetches@ == changes@.take(it.index()).filter(pu).map_values(item),
            deletes@ == changes@.take(it.index()).filter(pd).map_values(id),
    {
        proof {
            let pre = changes@.take(it.index());
            assert(changes@.take(it.index() + 1) == pre.push(c));
            lemma_filter_map_push(pre, c, pu, item);
            lemma_filter_map_push(pre, c, pd, id);
        }
        match c.kind {
            ChangeKind::Upsert => {
                fetches.push(c.item);
            },
            ChangeKind::Delete => {
                match c.item.id {
                    Some(i) => deletes.push(i),
                    None => {},
                }
            },
            ChangeKind::NoChange => {},
        }
    }
    proof {
        assert(changes@.take(changes@.len() as int) == changes@);
    }
    DocumentPlan { fetches, deletes }
}

/// The cache row written for an upserted document.
#[derive(Debug)]
pub struct DocumentUpsert {
    pub name: String,
    pub alphanumeric_name: String,
    pub sha: String,
    pub description: String,
    pub content: String,
}

/// The row for a remote document and its resolved text: keyed by the slug of
/// its display name, with the text's summary as description and its body as
/// content. A document whose text could not be resolved gets an empty
/// description and content.
pub fn document_upsert(entry: DocumentEntry, text: Option<String>) -> (r: DocumentUpsert)
    ensures
        r.name == entry.name,
        r.alphanumeric_name@ == slug_of(entry.name@),
        r.sha == entry.sha,
        match text {
            Some(t) => r.description@ == summary_of(t@) && r.content@ == body_of(t@),
            None => r.description@.len() == 0 && r.content@.len() == 0,
        },
{
    let alphanumeric_name = get_url_safe_name(entry.name.as_str());
    let (description, content) = match text {
        Some(t) => split_summary_and_body(t.as_str()),
        None => (String::new(), String::new()),
    };
    DocumentUpsert { name: entry.name, alphanumeric_name, sha: entry.sha, description, content }
}

} // verus!
