//! Where diagrams rendered by the mermaid CLI are kept: one PNG per
//! diagram and palette, named by a hash of both.

use vstd::prelude::*;
use crate::cache::{dir, hex16, hex_digits, key, fnv_parts, parts_bytes, path_joined};
use crate::text::push_str;
use std::path::PathBuf;

verus! {

/// The directory rendered diagrams are kept in.
pub fn cache_dir() -> (r: Option<PathBuf>)
    ensures
        r matches Some(p) ==> exists|d: PathBuf| p == path_joined(#[trigger] path_joined(d, "mdroll"@), "mermaid"@),
{
    dir("mermaid")
}

/// The palette a diagram is drawn in.
pub open spec fn palette(dark: bool) -> Seq<char> {
    if dark { "dark"@ } else { "default"@ }
}

/// The file a diagram is kept in: the hash of its code and palette in hex,
/// then the palette, as a PNG.
pub open spec fn diagram_name(code: &str, dark: bool) -> Seq<char> {
    hex_digits(
        fnv_parts(seq![vstd::utf8::encode_utf8(code@), vstd::utf8::encode_utf8(palette(dark))]) as nat,
        16,
    ) + "-"@ + palette(dark) + ".png"@
}

/// The file name for `code` drawn in the dark or the light palette.
pub fn cache_name(code: &str, dark: bool) -> (r: String)
    ensures
        r@ == diagram_name(code, dark),
{
    let theme = if dark { "dark" } else { "default" };
    let parts: [&str; 2] = [code, theme];
    let k = key(&parts);
    proof {
        assert(parts@ =~= seq![code, theme]);
        assert(parts_bytes(parts@) =~= seq![vstd::utf8::encode_utf8(code@), vstd::utf8::encode_utf8(palette(dark))]);
    }
    let mut name = hex16(k);
    push_str(&mut name, "-");
    push_str(&mut name, theme);
    push_str(&mut name, ".png");
    name
}

/// Where the render of `code` in the given palette is kept, whether or not
/// it has been made yet.
pub fn cache_path(code: &str, dark: bool) -> (r: Option<PathBuf>)
    ensures
        r matches Some(p) ==> exists|c: PathBuf| p == path_joined(
            path_joined(#[trigger] path_joined(c, "mdroll"@), "mermaid"@),
            diagram_name(code, dark),
        ),
{
    let d = match cache_dir() {
        Some(d) => d,
        None => return None,
    };
    let ghost c = choose|c: PathBuf| d == path_joined(#[trigger] path_joined(c, "mdroll"@), "mermaid"@);
    let name = cache_name(code, dark);
    let r = crate::cache::join(&d, name.as_str());
    proof {
        assert(name@ == diagram_name(code, dark));
        assert(r == path_joined(d, diagram_name(code, dark)));
        assert(r == path_joined(path_joined(path_joined(c, "mdroll"@), "mermaid"@), diagram_name(code, dark)));
    }
    Some(r)
}

} // verus!
