use catalog_mirror::catalog::{cached_entries, markdown_entries};
use catalog_mirror::differ::diff;
use catalog_mirror::engine::{plan_catalog, plan_documents};
use catalog_mirror::persist::{effective_changes, sync_changes};
use catalog_mirror::{BlogPost, ChangeKind, ChangeRecord, DocumentEntry, FileMetadata, Repo};

fn repo(id: i64, name: &str, pushed_at: i64) -> Repo {
    Repo {
        id,
        name: name.to_string(),
        url: format!("https://api.example/{}", name),
        html_url: format!("https://example/{}", name),
        description: format!("about {}", name),
        pushed_at,
        readme: None,
    }
}

fn summary(records: &[ChangeRecord<Repo>]) -> Vec<(i64, ChangeKind)> {
    records.iter().map(|r| (r.item.id, r.kind)).collect()
}

#[test]
fn merge_join_classifies_overlapping_keys() {
    let cache = vec![repo(5, "e", 10), repo(1, "a", 10), repo(2, "b", 10)];
    let remote = vec![repo(3, "c", 10), repo(5, "e", 20), repo(2, "b", 10)];
    let out = diff(cache, remote);
    assert_eq!(
        summary(&out),
        vec![
            (1, ChangeKind::Delete),
            (2, ChangeKind::NoChange),
            (3, ChangeKind::Upsert),
            (5, ChangeKind::Upsert),
        ]
    );
    assert_eq!(out[3].item.pushed_at, 20);
}

#[test]
fn merge_join_handles_empty_sides() {
    let out = diff(Vec::new(), vec![repo(2, "b", 1), repo(1, "a", 1)]);
    assert_eq!(summary(&out), vec![(1, ChangeKind::Upsert), (2, ChangeKind::Upsert)]);
    let out = diff(vec![repo(2, "b", 1), repo(1, "a", 1)], Vec::new());
    assert_eq!(summary(&out), vec![(1, ChangeKind::Delete), (2, ChangeKind::Delete)]);
    let out: Vec<ChangeRecord<Repo>> = diff(Vec::new(), Vec::new());
    assert!(out.is_empty());
}

#[test]
fn older_remote_timestamp_is_no_change() {
    let out = diff(vec![repo(7, "g", 50)], vec![repo(7, "g", 40)]);
    assert_eq!(summary(&out), vec![(7, ChangeKind::NoChange)]);
}

#[test]
fn effective_changes_drop_no_change() {
    let cache = vec![repo(1, "a", 10), repo(2, "b", 10)];
    let remote = vec![repo(2, "b", 10), repo(3, "c", 10)];
    let out = effective_changes(diff(cache, remote));
    assert_eq!(summary(&out), vec![(1, ChangeKind::Delete), (3, ChangeKind::Upsert)]);
}

#[test]
fn second_cycle_with_unchanged_remote_is_empty() {
    let cache = vec![repo(1, "a", 10), repo(2, "b", 10), repo(4, "d", 10)];
    let remote = vec![repo(2, "b", 30), repo(3, "c", 10), repo(4, "d", 10)];
    let first = sync_changes(cache.clone(), remote.clone()).unwrap();
    assert_eq!(first.len(), 3);
    // apply the first change set to the cache
    let mut refreshed: Vec<Repo> = cache.clone();
    for rec in first {
        refreshed.retain(|r| r.id != rec.item.id);
        if rec.kind == ChangeKind::Upsert {
            refreshed.push(rec.item);
        }
    }
    let mut keys: Vec<i64> = refreshed.iter().map(|r| r.id).collect();
    keys.sort();
    assert_eq!(keys, vec![2, 3, 4]);
    let second = sync_changes(refreshed, remote).unwrap();
    assert!(second.is_empty());
}

#[test]
fn convergence_leaves_remote_keys() {
    let cache = vec![repo(10, "j", 1), repo(11, "k", 1), repo(12, "l", 1)];
    let remote = vec![repo(11, "k", 2), repo(13, "m", 1)];
    let out = sync_changes(cache.clone(), remote).unwrap();
    let mut state: Vec<i64> = cache.iter().map(|r| r.id).collect();
    for rec in out {
        state.retain(|id| *id != rec.item.id);
        if rec.kind == ChangeKind::Upsert {
            state.push(rec.item.id);
        }
    }
    state.sort();
    assert_eq!(state, vec![11, 13]);
}

#[test]
fn duplicate_keys_are_refused() {
    assert!(sync_changes(vec![repo(1, "a", 1), repo(1, "b", 1)], Vec::new()).is_none());
    assert!(sync_changes(Vec::new(), vec![repo(2, "a", 1), repo(2, "a", 1)]).is_none());
    assert!(sync_changes(vec![repo(1, "a", 1)], vec![repo(1, "a", 1)]).is_some());
}

#[test]
fn documentation_holder_is_always_upserted() {
    let cache = vec![repo(1, "blog-posts", 100), repo(2, "tool", 100)];
    let remote = vec![repo(1, "blog-posts", 100), repo(2, "tool", 100)];
    let out = diff(cache, remote);
    assert_eq!(summary(&out), vec![(1, ChangeKind::Upsert), (2, ChangeKind::NoChange)]);
    let plan = plan_catalog(out);
    assert_eq!(plan.holders.len(), 1);
    assert_eq!(plan.holders[0].name, "blog-posts");
    assert!(plan.upserts.is_empty());
    assert!(plan.deletes.is_empty());
}

fn file(name: &str, sha: &str) -> FileMetadata {
    FileMetadata { sha: sha.to_string(), name: name.to_string(), path: name.to_string() }
}

fn post(id: i32, name: &str, sha: &str) -> BlogPost {
    BlogPost {
        id,
        name: name.to_string(),
        alphanumeric_name: name.chars().filter(|c| c.is_ascii_alphanumeric()).collect(),
        sha: sha.to_string(),
        description: String::new(),
        content: String::new(),
    }
}

#[test]
fn nested_documents_diff_by_content_hash() {
    // only the documents changed; the holder itself is unchanged
    let listing = vec![
        file("Home.md", "h1"),
        file("b-post.md", "new"),
        file("c-post.md", "c1"),
        file("notes.txt", "t1"),
    ];
    let posts = vec![post(1, "Home", "h1"), post(2, "b-post", "old"), post(3, "a-post", "a1")];
    let remote = markdown_entries(listing);
    assert_eq!(remote.len(), 3);
    let cache = cached_entries(&posts);
    let out = diff(cache, remote);
    let got: Vec<(String, ChangeKind)> = out.iter().map(|r| (r.item.name.clone(), r.kind)).collect();
    assert_eq!(
        got,
        vec![
            ("Home".to_string(), ChangeKind::NoChange),
            ("a-post".to_string(), ChangeKind::Delete),
            ("b-post".to_string(), ChangeKind::Upsert),
            ("c-post".to_string(), ChangeKind::Upsert),
        ]
    );
    let plan = plan_documents(out);
    let fetched: Vec<&str> = plan.fetches.iter().map(|e| e.path.as_str()).collect();
    assert_eq!(fetched, vec!["b-post.md", "c-post.md"]);
    assert_eq!(plan.deletes, vec![3]);
}

#[test]
fn markdown_entries_strip_extension_and_keep_order() {
    let entries = markdown_entries(vec![file("z.md", "1"), file("a.txt", "2"), file("m.md", "3")]);
    let names: Vec<&str> = entries.iter().map(|e| e.name.as_str()).collect();
    assert_eq!(names, vec!["z", "m"]);
    assert_eq!(entries[1].sha, "3");
    assert_eq!(entries[1].path, "m.md");
    assert_eq!(entries[1].id, None);
}

#[test]
fn cached_entries_carry_ids() {
    let entries = cached_entries(&vec![post(9, "x", "s")]);
    assert_eq!(entries.len(), 1);
    assert_eq!(entries[0].id, Some(9));
    assert_eq!(entries[0].name, "x");
    assert_eq!(entries[0].path, "");
}

#[test]
fn document_with_same_hash_is_no_change() {
    let e = |sha: &str, id: Option<i32>| DocumentEntry {
        name: "p".to_string(),
        sha: sha.to_string(),
        path: String::new(),
        id,
    };
    let out = diff(vec![e("s1", Some(1))], vec![e("s1", None)]);
    assert_eq!(out[0].kind, ChangeKind::NoChange);
    let out = diff(vec![e("s1", Some(1))], vec![e("s0", None)]);
    assert_eq!(out[0].kind, ChangeKind::Upsert);
}

#[test]
fn catalog_plan_splits_work() {
    let out = diff(
        vec![repo(1, "a", 1), repo(2, "b", 1), repo(3, "blog-posts", 1)],
        vec![repo(2, "b", 5), repo(3, "blog-posts", 1), repo(4, "d", 1)],
    );
    let plan = plan_catalog(out);
    let ups: Vec<i64> = plan.upserts.iter().map(|r| r.id).collect();
    assert_eq!(ups, vec![2, 4]);
    assert_eq!(plan.holders.len(), 1);
    assert_eq!(plan.deletes, vec![1]);
}

#[test]
fn forced_resync_when_only_documents_changed() {
    // the holder's own timestamp is unchanged
    let catalog = effective_changes(diff(
        vec![repo(1, "blog-posts", 500), repo(2, "tool", 500)],
        vec![repo(1, "blog-posts", 500), repo(2, "tool", 500)],
    ));
    assert_eq!(summary(&catalog), vec![(1, ChangeKind::Upsert)]);
    let plan = plan_catalog(catalog);
    assert_eq!(plan.holders.len(), 1);
    // its documents are diffed again and the changed one is picked up
    let docs = sync_changes(
        cached_entries(&vec![post(1, "Home", "h1"), post(2, "post", "p1")]),
        markdown_entries(vec![file("Home.md", "h1"), file("post.md", "p2")]),
    )
    .unwrap();
    let got: Vec<(String, ChangeKind)> = docs.iter().map(|r| (r.item.name.clone(), r.kind)).collect();
    assert_eq!(got, vec![("post".to_string(), ChangeKind::Upsert)]);
}
