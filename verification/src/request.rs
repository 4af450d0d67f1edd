//! What the request surface decides before a request goes out: the URL that
//! a task's path stands for.

use vstd::prelude::*;
use vstd::string::*;

verus! {

/// Whether `path` is absolute: it begins with the scheme of a web address,
/// `http://` or `https://`.
pub open spec fn is_absolute(path: Seq<char>) -> bool {
    "http://"@.is_prefix_of(path) || "https://"@.is_prefix_of(path)
}

/// The URL that is requested for `path`: the path itself if it is absolute,
/// and else the host with the path behind it.
pub open spec fn url_of(host: Seq<char>, path: Seq<char>) -> Seq<char> {
    if is_absolute(path) {
        path
    } else {
        host + path
    }
}

/// Whether `s` begins with `prefix`.
pub fn starts_with(s: &str, prefix: &str) -> (begins: bool)
    ensures
        begins == prefix@.is_prefix_of(s@),
{
    let n: usize = prefix.unicode_len();
    if n > s.unicode_len() {
        return false;
    }
    let mut i: usize = 0;
    while i < n
        invariant
            i <= n,
            n == prefix@.len(),
            n <= s@.len(),
            forall|j: int| 0 <= j < i ==> s@[j] == prefix@[j],
        decreases n - i,
    {
        if s.get_char(i) != prefix.get_char(i) {
            proof {
                assert(s@.subrange(0, n as int)[i as int] != prefix@[i as int]);
            }
            return false;
        }
        i = i + 1;
    }
    proof {
        assert(prefix@ =~= s@.subrange(0, n as int));
    }
    true
}

/// The URL that is requested for `path` by a user whose base URL is `host`.
pub fn request_url(host: &str, path: &str) -> (url: String)
    ensures
        url@ == url_of(host@, path@),
{
    if starts_with(path, "http://") || starts_with(path, "https://") {
        path.to_owned()
    } else {
        host.to_owned().concat(path)
    }
}

} // verus!
