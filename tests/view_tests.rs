use catalog_mirror::fetch::{catalog_url, directory_url, file_url};
use catalog_mirror::views::{BlogPostDTO, RepoDTO};
use catalog_mirror::{BlogPost, Repo};

fn repo(name: &str, readme: Option<&str>) -> Repo {
    Repo {
        id: 42,
        name: name.to_string(),
        url: "u".to_string(),
        html_url: "https://example/src".to_string(),
        description: "d".to_string(),
        pushed_at: 0,
        readme: readme.map(|s| s.to_string()),
    }
}

#[test]
fn repo_view_renders_readme_and_links() {
    let v = RepoDTO::from_repo(repo("tree-iterators-rs", Some("# Title")));
    assert_eq!(v.id, 42);
    assert_eq!(v.url_safe_name, "treeiteratorsrs");
    assert_eq!(v.readme.as_deref(), Some("<h1>Title</h1>\n"));
    assert_eq!(v.additional_nav_elements.len(), 2);
    assert_eq!(v.additional_nav_elements[0].display_text, "Source Code");
    assert_eq!(v.additional_nav_elements[0].href, "https://example/src");
    assert_eq!(v.additional_nav_elements[1].display_text, "Crates.io");
    assert_eq!(v.additional_nav_elements[1].href, "https://crates.io/crates/tree_iterators_rs");
}

#[test]
fn repo_view_without_registry_page() {
    let v = RepoDTO::from_repo(repo("My Tool", None));
    assert_eq!(v.readme, None);
    assert_eq!(v.additional_nav_elements.len(), 1);
    assert_eq!(v.url_safe_name, "MyTool");
    let v = RepoDTO::from_repo(repo("json-formatter", None));
    assert_eq!(v.additional_nav_elements[1].href, "https://crates.io/crates/toy-json-formatter");
}

#[test]
fn post_view_renders_body() {
    let p = BlogPost {
        id: 3,
        name: "Hello World".to_string(),
        alphanumeric_name: "HelloWorld".to_string(),
        sha: "s".to_string(),
        description: "intro".to_string(),
        content: "*hi*".to_string(),
    };
    let v = BlogPostDTO::from_post(p);
    assert_eq!(v.content, "<p><em>hi</em></p>\n");
    assert_eq!(v.url_safe_name, "HelloWorld");
    assert_eq!(v.description, "intro");
}

#[test]
fn remote_addresses() {
    assert_eq!(catalog_url(), "https://api.github.com/users/mr-adult/repos");
    assert_eq!(directory_url("blog-posts"), "https://api.github.com/repos/mr-adult/blog-posts/contents/");
    assert_eq!(
        file_url("tool", "README.md"),
        "https://api.github.com/repos/mr-adult/tool/contents/README.md"
    );
}

#[test]
fn listing_order_is_by_description_descending() {
    let p = |id: i32, d: &str| BlogPost {
        id,
        name: format!("n{}", id),
        alphanumeric_name: format!("n{}", id),
        sha: String::new(),
        description: d.to_string(),
        content: String::new(),
    };
    let ordered = catalog_mirror::views::order_posts_for_listing(vec![
        p(1, "2023-01 a"),
        p(2, "2024-05 b"),
        p(3, "2023-01 a"),
        p(4, ""),
        p(5, "2023-09 c"),
    ]);
    let ids: Vec<i32> = ordered.iter().map(|x| x.id).collect();
    assert_eq!(ids, vec![2, 5, 1, 3, 4]);
}
