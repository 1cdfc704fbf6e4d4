//! Keys for what is kept between runs.
//!
//! Two things are cached on disk: diagrams rendered by `mmdc`, and images
//! fetched over the network. Each is filed under a key computed here; where
//! the cache lives and keeping it private are the caller's business.

use vstd::prelude::*;
use std::path::PathBuf;
use crate::text::{push_char, push_str};

verus! {

/// The FNV-1a offset basis.
pub const FNV_OFFSET: u64 = 0xcbf2_9ce4_8422_2325;

/// The FNV-1a prime.
pub const FNV_PRIME: u64 = 0x0000_0100_0000_01b3;

/// One FNV-1a step: fold in a byte, then multiply, wrapping.
pub open spec fn fnv_step(h: u64, b: u8) -> u64 {
    vstd::wrapping::u64_specs::wrapping_mul(h ^ (b as u64), FNV_PRIME)
}

/// FNV-1a over a run of bytes, from the state `h`.
pub open spec fn fnv_bytes(h: u64, bs: Seq<u8>) -> u64
    decreases bs.len(),
{
    if bs.len() == 0 {
        h
    } else {
        fnv_step(fnv_bytes(h, bs.drop_last()), bs.last())
    }
}

/// FNV-1a over the parts' bytes, with the byte `0xff` after each part, so
/// that `["ab", "c"]` and `["a", "bc"]` hash differently.
pub open spec fn fnv_parts(parts: Seq<Seq<u8>>) -> u64
    decreases parts.len(),
{
    if parts.len() == 0 {
        FNV_OFFSET
    } else {
        fnv_step(fnv_bytes(fnv_parts(parts.drop_last()), parts.last()), 0xffu8)
    }
}

/// The bytes of each part.
pub open spec fn parts_bytes(parts: Seq<&str>) -> Seq<Seq<u8>> {
    Seq::new(parts.len(), |i: int| vstd::utf8::encode_utf8(parts[i]@))
}

/// The cache key of `parts`: FNV-1a over their bytes, a separator after
/// each. It only has to be stable across runs of the same binary, which is
/// what a hasher seeded per process does not promise.
pub fn key(parts: &[&str]) -> (r: u64)
    ensures
        r == fnv_parts(parts_bytes(parts@)),
{
    let mut h: u64 = FNV_OFFSET;
    let mut i: usize = 0;
    while i < parts.len()
        invariant
            i <= parts@.len(),
            h == fnv_parts(parts_bytes(parts@.take(i as int))),
        decreases parts@.len() - i,
    {
        let bytes = parts[i].as_bytes();
        let ghost start = h;
        let mut j: usize = 0;
        while j < bytes.len()
            invariant
                j <= bytes@.len(),
                bytes@ == vstd::utf8::encode_utf8(parts@[i as int]@),
                h == fnv_bytes(start, bytes@.take(j as int)),
            decreases bytes@.len() - j,
        {
            proof {
                assert(bytes@.take(j + 1).drop_last() =~= bytes@.take(j as int));
            }
            h = (h ^ (bytes[j] as u64)).wrapping_mul(FNV_PRIME);
            j = j + 1;
        }
        h = (h ^ 0xff).wrapping_mul(FNV_PRIME);
        proof {
            assert(bytes@.take(j as int) =~= bytes@);
            assert(parts_bytes(parts@.take(i + 1)).drop_last() =~= parts_bytes(parts@.take(i as int)));
            assert(parts_bytes(parts@.take(i + 1)).last() == bytes@);
        }
        i = i + 1;
    }
    proof {
        assert(parts@.take(i as int) =~= parts@);
    }
    h
}

} // verus!

verus! {

/// What `PathBuf::join` gives for a base path and a relative name.
pub uninterp spec fn path_joined(base: PathBuf, name: Seq<char>) -> PathBuf;

/// `PathBuf::join` with a relative name.
#[verifier::external_body]
pub(crate) fn join(base: &PathBuf, name: &str) -> (r: PathBuf)
    ensures
        r == path_joined(*base, name@),
{
    base.join(name)
}

/// `dirs::cache_dir`: where the platform keeps caches for this user. It is
/// read from the environment, so nothing is said of what comes back.
#[verifier::external_body]
fn user_cache_dir() -> (r: Option<PathBuf>) {
    dirs::cache_dir()
}

/// The directory a kind of cached file lives in, `mdroll/<kind>` under the
/// platform's cache directory, when there is one.
pub fn dir(kind: &str) -> (r: Option<PathBuf>)
    ensures
        r matches Some(p) ==> exists|d: PathBuf| p == path_joined(#[trigger] path_joined(d, "mdroll"@), kind@),
{
    match user_cache_dir() {
        Some(d) => {
            let base = join(&d, "mdroll");
            Some(join(&base, kind))
        },
        None => None,
    }
}

/// The lowercase hex digit for `d`, below sixteen.
pub open spec fn hex_char(d: nat) -> char {
    if d < 10 { ((d + 48) as u8) as char } else { ((d + 87) as u8) as char }
}

/// The last `n` hex digits of `v`, most significant first, zero-padded.
pub open spec fn hex_digits(v: nat, n: nat) -> Seq<char>
    decreases n,
{
    if n == 0 {
        Seq::empty()
    } else {
        hex_digits(v / 16, (n - 1) as nat).push(hex_char(v % 16))
    }
}

fn push_hex(out: &mut String, v: u64, n: usize)
    ensures
        final(out)@ == old(out)@ + hex_digits(v as nat, n as nat),
    decreases n,
{
    if n == 0 {
        proof {
            assert(old(out)@ + Seq::<char>::empty() =~= old(out)@);
        }
        return;
    }
    push_hex(out, v / 16, n - 1);
    let d: u8 = (v % 16) as u8;
    let c: char = if d < 10 { (d + 48) as char } else { (d + 87) as char };
    push_char(out, c);
    proof {
        assert(out@ =~= old(out)@ + hex_digits(v as nat, n as nat));
    }
}

/// `v` as sixteen lowercase hex digits, `{:016x}`.
pub fn hex16(v: u64) -> (r: String)
    ensures
        r@ == hex_digits(v as nat, 16),
{
    let mut out = String::new();
    push_hex(&mut out, v, 16);
    proof {
        assert(Seq::<char>::empty() + hex_digits(v as nat, 16) =~= hex_digits(v as nat, 16));
    }
    out
}

} // verus!
