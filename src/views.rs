//! What the serving layer shows of cached items: markdown rendered to HTML,
//! URL-safe names and navigation links.

use vstd::prelude::*;
use core::cmp::Ordering;
use crate::catalog::{BlogPost, Repo};
use crate::text::{compare_text, get_url_safe_name, lemma_text_order, slug_of, text_lt};

verus! {

/// The HTML that markdown `md` renders to, with no extensions enabled.
pub uninterp spec fn markdown_html(md: Seq<char>) -> Seq<char>;

/// Relies on pulldown-cmark's `Parser::new_ext` (no options) and
/// `html::push_html`: renders markdown text to HTML.
#[verifier::external_body]
fn parse_md_to_html(md: &str) -> (r: String)
    ensures
        r@ == markdown_html(md@),
{
    let parser = pulldown_cmark::Parser::new_ext(md, pulldown_cmark::Options::empty());
    let mut html_output = String::new();
    pulldown_cmark::html::push_html(&mut html_output, parser);
    html_output
}

/// A link shown in the navigation bar of an item's page.
#[derive(Debug)]
pub struct NavBarElement {
    pub display_text: String,
    pub href: String,
}

/// A catalog item as served.
#[derive(Debug)]
pub struct RepoDTO {
    pub id: i64,
    pub name: String,
    pub url: String,
    pub html_url: String,
    pub description: String,
    /// The primary documentation file, rendered to HTML.
    pub readme: Option<String>,
    pub url_safe_name: String,
    pub additional_nav_elements: Vec<NavBarElement>,
}

/// A document as served.
#[derive(Debug)]
pub struct BlogPostDTO {
    pub id: i32,
    pub name: String,
    pub alphanumeric_name: String,
    pub sha: String,
    pub description: String,
    /// The body, rendered to HTML.
    pub content: String,
    pub url_safe_name: String,
}

/// The package-registry page of a catalog item that is published there.
pub open spec fn crates_io_link(name: Seq<char>) -> Option<Seq<char>> {
    if name == "tree-iterators-rs"@ {
        Some("https://crates.io/crates/tree_iterators_rs"@)
    } else if name == "json-formatter"@ {
        Some("https://crates.io/crates/toy-json-formatter"@)
    } else {
        None
    }
}

fn crates_io_page(name: &str) -> (r: Option<String>)
    ensures
        match crates_io_link(name@) {
            Some(l) => r is Some && r->0@ == l,
            None => r is None,
        },
{
    match compare_text(name, "tree-iterators-rs") {
        Ordering::Equal => {
            return Some(String::from_str("https://crates.io/crates/tree_iterators_rs"));
        },
        _ => {},
    }
    match compare_text(name, "json-formatter") {
        Ordering::Equal => Some(String::from_str("https://crates.io/crates/toy-json-formatter")),
        _ => None,
    }
}

impl RepoDTO {
    /// The served form of a catalog item: its fields, its URL-safe name, its
    /// documentation rendered to HTML, a link to its source and, for an item
    /// published on the package registry, a link to its page there.
    pub fn from_repo(value: Repo) -> (r: RepoDTO)
        ensures
            r.id == value.id,
            r.name == value.name,
            r.url == value.url,
            r.html_url == value.html_url,
            r.description == value.description,
            r.url_safe_name@ == slug_of(value.name@),
            match value.readme {
                Some(md) => r.readme is Some && r.readme->0@ == markdown_html(md@),
                None => r.readme is None,
            },
            r.additional_nav_elements@.len() == if crates_io_link(value.name@) is Some {
                2int
            } else {
                1int
            },
            r.additional_nav_elements@[0].display_text@ == "Source Code"@,
            r.additional_nav_elements@[0].href == value.html_url,
            crates_io_link(value.name@) is Some ==> r.additional_nav_elements@[1].display_text@
                == "Crates.io"@ && r.additional_nav_elements@[1].href@ == crates_io_link(
                value.name@,
            )->0,
    {
        let mut nav: Vec<NavBarElement> = Vec::new();
        nav.push(
            NavBarElement { display_text: String::from_str("Source Code"), href: value.html_url.clone() },
        );
        match crates_io_page(value.name.as_str()) {
            Some(href) => {
                nav.push(NavBarElement { display_text: String::from_str("Crates.io"), href });
            },
            None => {},
        }
        let url_safe_name = get_url_safe_name(value.name.as_str());
        let readme = match &value.readme {
            Some(md) => Some(parse_md_to_html(md.as_str())),
            None => None,
        };
        RepoDTO {
            id: value.id,
            name: value.name,
            url: value.url,
            html_url: value.html_url,
            description: value.description,
            readme,
            url_safe_name,
            additional_nav_elements: nav,
        }
    }
}

impl BlogPostDTO {
    /// The served form of a document: its fields, its URL-safe name and its
    /// body rendered to HTML.
    pub fn from_post(value: BlogPost) -> (r: BlogPostDTO)
        ensures
            r.id == value.id,
            r.name == value.name,
            r.alphanumeric_name == value.alphanumeric_name,
            r.sha == value.sha,
            r.description == value.description,
            r.content@ == markdown_html(value.content@),
            r.url_safe_name@ == slug_of(value.name@),
    {
        let url_safe_name = get_url_safe_name(value.name.as_str());
        let content = parse_md_to_html(value.content.as_str());
        BlogPostDTO {
            id: value.id,
            name: value.name,
            alphanumeric_name: value.alphanumeric_name,
            sha: value.sha,
            description: value.description,
            content,
            url_safe_name,
        }
    }
}

/// The documents of a listing, ordered by description, greatest first.
/// Documents with equal descriptions keep their relative order.
pub fn order_posts_for_listing(posts: Vec<BlogPost>) -> (r: Vec<BlogPost>)
    ensures
        r@.to_multiset() == posts@.to_multiset(),
        forall|i: int, j: int|
            0 <= i < j < r@.len() ==> !text_lt((#[trigger] r@[i]).description@, (#[trigger] r@[j]).description@),
{
    let mut out: Vec<BlogPost> = Vec::new();
    proof {
        assert(posts@.take(0) =~= Seq::<BlogPost>::empty());
    }
    for x in it: posts.into_iter()
        invariant
            it.seq() == posts@,
            out@.to_multiset() == posts@.take(it.index()).to_multiset(),
            forall|i: int, j: int|
                0 <= i < j < out@.len() ==> !text_lt((#[trigger] out@[i]).description@, (#[trigger] out@[j]).description@),
    {
        proof {
            lemma_text_order();
            assert(posts@.take(it.index() + 1) == posts@.take(it.index()).push(x));
        }
        let mut p: usize = 0;
        while p < out.len()
            invariant
                p <= out@.len(),
                forall|i: int| 0 <= i < p ==> !text_lt((#[trigger] out@[i]).description@, x.description@),
            ensures
                p <= out@.len(),
                forall|i: int| 0 <= i < p ==> !text_lt((#[trigger] out@[i]).description@, x.description@),
                p < out@.len() ==> text_lt(out@[p as int].description@, x.description@),
            decreases out@.len() - p,
        {
            match compare_text(out[p].description.as_str(), x.description.as_str()) {
                Ordering::Less => break,
                _ => {},
            }
            p = p + 1;
        }
        let ghost before = out@;
        out.insert(p, x);
        proof {
            assert(out@ == before.insert(p as int, x));
            vstd::seq_lib::to_multiset_insert(before, p as int, x);
            vstd::seq_lib::to_multiset_build(posts@.take(it.index()), x);
            assert forall|i: int, j: int| 0 <= i < j < out@.len() implies !text_lt(
                (#[trigger] out@[i]).description@,
                (#[trigger] out@[j]).description@,
            ) by {
                if j < p {
                } else if j == p {
                } else if i < p {
                    assert(out@[j] == before[j - 1]);
                } else if i == p {
                    let y = before[j - 1];
                    if j - 1 > p {
                        assert(!text_lt(before[p as int].description@, y.description@));
                    }
                    if text_lt(x.description@, y.description@) {
                        assert(text_lt(before[p as int].description@, y.description@));
                    }
                } else {
                    assert(out@[i] == before[i - 1]);
                    assert(out@[j] == before[j - 1]);
                }
            }
        }
    }
    proof {
        assert(posts@.take(posts@.len() as int) == posts@);
    }
    out
}

} // verus!
