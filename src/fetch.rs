//! Addresses of the remote catalog API.

use vstd::prelude::*;

verus! {

/// Root of the remote API.
pub const API_ROOT: &'static str = "https://api.github.com/";

/// Owner of the mirrored catalog.
pub const OWNER: &'static str = "mr-adult";

/// Primary documentation file of a catalog item.
pub const README_PATH: &'static str = "README.md";

/// Seconds a remote call may take.
pub const FETCH_TIMEOUT_SECS: u64 = 5;

/// How many per-item remote calls or cache writes a cycle runs at once.
pub const MAX_CONCURRENT_REQUESTS: usize = 8;

/// Address of the catalog listing: `{root}users/{owner}/repos`.
pub fn catalog_url() -> (r: String)
    ensures
        r@ == API_ROOT@ + "users/"@ + OWNER@ + "/repos"@,
{
    let mut r = String::from_str(API_ROOT);
    r.append("users/");
    r.append(OWNER);
    r.append("/repos");
    r
}

/// Address of the root directory listing of catalog item `repo`:
/// `{root}repos/{owner}/{repo}/contents/`.
pub fn directory_url(repo: &str) -> (r: String)
    ensures
        r@ == API_ROOT@ + "repos/"@ + OWNER@ + "/"@ + repo@ + "/contents/"@,
{
    let mut r = String::from_str(API_ROOT);
    r.append("repos/");
    r.append(OWNER);
    r.append("/");
    r.append(repo);
    r.append("/contents/");
    r
}

/// Address of file `path` of catalog item `repo`:
/// `{root}repos/{owner}/{repo}/contents/{path}`.
pub fn file_url(repo: &str, path: &str) -> (r: String)
    ensures
        r@ == API_ROOT@ + "repos/"@ + OWNER@ + "/"@ + repo@ + "/contents/"@ + path@,
{
    let mut r = directory_url(repo);
    r.append(path);
    r
}

} // verus!
