use catalog_mirror::catalog::{display_name, is_markdown_path, DocumentEntry};
use catalog_mirror::content::remove_newlines;
use catalog_mirror::engine::document_upsert;
use catalog_mirror::text::compare_text;
use catalog_mirror::{decode_file_content, get_url_safe_name, split_summary_and_body, SyncError};
use std::cmp::Ordering;

#[test]
fn summary_and_body_are_split() {
    let (summary, body) = split_summary_and_body("///desc one\nline1\n///desc two\nline2");
    assert_eq!(summary, "desc one desc two");
    assert_eq!(body, "line1\nline2");
}

#[test]
fn text_without_sigil_is_all_body() {
    let text = "first line\n\n  // not a sigil\nlast\n";
    let (summary, body) = split_summary_and_body(text);
    assert_eq!(summary, "");
    assert_eq!(body, text);
}

#[test]
fn empty_text_gives_empty_parts() {
    let (summary, body) = split_summary_and_body("");
    assert_eq!(summary, "");
    assert_eq!(body, "");
}

#[test]
fn sigil_only_lines() {
    let (summary, body) = split_summary_and_body("///\n///a\n//b");
    assert_eq!(summary, " a");
    assert_eq!(body, "//b");
}

#[test]
fn slug_keeps_ascii_letters_and_digits() {
    assert_eq!(get_url_safe_name("My Repo! 2.0"), "MyRepo20");
    assert_eq!(get_url_safe_name("tree-iterators-rs"), "treeiteratorsrs");
    assert_eq!(get_url_safe_name("é-ü"), "");
    assert_eq!(get_url_safe_name(""), "");
}

#[test]
fn md_extension_is_stripped() {
    assert_eq!(display_name("Home.md"), "Home");
    assert_eq!(display_name("notes.txt"), "notes.txt");
    assert_eq!(display_name(".md"), "");
    assert!(is_markdown_path("a/b.md"));
    assert!(!is_markdown_path("b.mdx"));
    assert!(!is_markdown_path("md"));
}

#[test]
fn base64_content_is_decoded() {
    assert_eq!(decode_file_content("aGVs\nbG8=\n").unwrap(), "hello");
    assert_eq!(decode_file_content("").unwrap(), "");
}

#[test]
fn invalid_utf8_becomes_replacement_character() {
    assert_eq!(decode_file_content("/w==").unwrap(), "\u{FFFD}");
}

#[test]
fn malformed_base64_is_a_decode_error() {
    assert_eq!(decode_file_content("@@@@"), Err(SyncError::Decode));
    assert_eq!(decode_file_content("aGVsbG8"), Err(SyncError::Decode));
}

#[test]
fn newlines_are_removed() {
    assert_eq!(remove_newlines("a\nb\n\nc"), "abc");
}

#[test]
fn texts_compare_lexicographically() {
    assert_eq!(compare_text("a", "b"), Ordering::Less);
    assert_eq!(compare_text("ab", "a"), Ordering::Greater);
    assert_eq!(compare_text("abc", "abc"), Ordering::Equal);
    assert_eq!(compare_text("", "a"), Ordering::Less);
    assert_eq!(compare_text("Z", "a"), Ordering::Less);
}

#[test]
fn resolved_document_row() {
    let entry = DocumentEntry {
        name: "My Post".to_string(),
        sha: "abc".to_string(),
        path: "My Post.md".to_string(),
        id: None,
    };
    let row = document_upsert(entry, Some("///intro\n# Title\ntext".to_string()));
    assert_eq!(row.name, "My Post");
    assert_eq!(row.alphanumeric_name, "MyPost");
    assert_eq!(row.sha, "abc");
    assert_eq!(row.description, "intro");
    assert_eq!(row.content, "# Title\ntext");
}

#[test]
fn unresolved_document_row_is_empty() {
    let entry = DocumentEntry { name: "x".to_string(), sha: "s".to_string(), path: "x.md".to_string(), id: None };
    let row = document_upsert(entry, None);
    assert_eq!(row.description, "");
    assert_eq!(row.content, "");
    assert_eq!(row.alphanumeric_name, "x");
}
