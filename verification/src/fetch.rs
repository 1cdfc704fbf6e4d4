//! Which images are fetched over the network.

use vstd::prelude::*;
use crate::text::{chars_of, lower_seq, lower_string, starts_with, lit, has_at};
use crate::cache::{dir, hex16, hex_digits, key, fnv_parts, parts_bytes, path_joined};
use std::path::PathBuf;

verus! {

/// Whether a URL names something to go and fetch: `http` or `https`, in
/// any case. `data:` and `file:` URLs, and anything else exotic, are left to
/// render as alt text rather than handed to an HTTP client.
pub fn is_remote(url: &str) -> (r: bool)
    ensures
        r == (starts_with(lower_seq(url@), "http://"@) || starts_with(lower_seq(url@), "https://"@)),
{
    let v = chars_of(url);
    let lower = chars_of(lower_string(&v, 0, v.len()).as_str());
    proof {
        assert(v@.subrange(0, v@.len() as int) =~= v@);
        assert(lower@.subrange(0, lower@.len() as int) =~= lower@);
    }
    let n = lower.len();
    has_at(&lower, 0, n, &lit("http://")) || has_at(&lower, 0, n, &lit("https://"))
}

} // verus!

verus! {

/// The name a URL's download is filed under: its cache key in hex, with no
/// extension, since what the bytes are is decided by looking at them.
pub open spec fn image_name(url: &str) -> Seq<char> {
    hex_digits(fnv_parts(parts_bytes(seq![url])) as nat, 16)
}

/// Where a URL's download lives, whether or not it has happened yet.
pub fn cache_path(url: &str) -> (r: Option<PathBuf>)
    ensures
        r matches Some(p) ==> exists|c: PathBuf| p == path_joined(
            path_joined(#[trigger] path_joined(c, "mdroll"@), "images"@),
            image_name(url),
        ),
{
    let d = match dir("images") {
        Some(d) => d,
        None => return None,
    };
    let ghost c = choose|c: PathBuf| d == path_joined(#[trigger] path_joined(c, "mdroll"@), "images"@);
    let parts: [&str; 1] = [url];
    let k = key(&parts);
    proof {
        assert(parts@ =~= seq![url]);
    }
    let name = hex16(k);
    let r = crate::cache::join(&d, name.as_str());
    proof {
        assert(name@ == image_name(url));
        assert(r == path_joined(d, image_name(url)));
        assert(r == path_joined(path_joined(path_joined(c, "mdroll"@), "images"@), image_name(url)));
    }
    Some(r)
}

} // verus!
