//! Inline images, via the Kitty graphics protocol: what the terminal said
//! when it was asked what it can do.
//!
//! The terminal is asked with escape sequences and answers on standard
//! input; reading that reply is the caller's business. What is here is the
//! reading of the reply once it has arrived.

use vstd::prelude::*;
use crate::text::{trim, trim_range};
use crate::html::parse_u32;
use std::collections::HashMap;
use crate::text::{dec, push_str, push_decimal};
use crate::clipboard::{base64_standard, encode_base64};

verus! {

#[derive(Debug, Clone, Copy, PartialEq, Eq, Structural)]
pub enum Protocol {
    Kitty,
    /// No graphics protocol.
    Off,
}

impl Protocol {
    pub fn available(self) -> (r: bool)
        ensures
            r == (self != Protocol::Off),
    {
        match self {
            Protocol::Kitty => true,
            Protocol::Off => false,
        }
    }
}

/// Pixels per character cell: what turns an image's pixel size into rows.
#[derive(Debug, Clone, Copy, PartialEq, Eq, Structural)]
pub struct CellSize {
    pub w: u16,
    pub h: u16,
}

impl Default for CellSize {
    /// A plausible 8x16 cell, used when the terminal will not tell.
    fn default() -> (r: CellSize)
        ensures
            r.w == 8 && r.h == 16,
    {
        CellSize { w: 8, h: 16 }
    }
}

/// What the terminal said when it was asked what it can do.
#[derive(Debug, Clone, Copy, Default, PartialEq, Eq, Structural)]
pub struct Probe {
    /// `None` when there was no way to ask.
    pub protocol: Option<Protocol>,
    /// Pixels per cell, when the terminal was willing to say.
    pub cell: Option<CellSize>,
}

/// Whether `w` occurs in `s` at `i`.
pub open spec fn bytes_at(s: Seq<u8>, i: int, w: Seq<u8>) -> bool {
    0 <= i && i + w.len() <= s.len() && s.subrange(i, i + w.len()) == w
}

/// The first occurrence of `w` in `s`.
pub open spec fn first_bytes(s: Seq<u8>, w: Seq<u8>) -> Option<int> {
    if exists|i: int| bytes_at(s, i, w) {
        Some(choose|i: int| bytes_at(s, i, w) && forall|j: int| 0 <= j < i ==> !bytes_at(s, j, w))
    } else {
        None
    }
}

/// The first position at or after `from` holding `b`, if any.
fn find_byte(s: &[u8], from: usize, b: u8) -> (r: Option<usize>)
    requires
        from <= s@.len(),
    ensures
        match r {
            Some(i) => from <= i < s@.len() && s@[i as int] == b && forall|j: int|
                from <= j < i ==> s@[j] != b,
            None => forall|j: int| from <= j < s@.len() ==> s@[j] != b,
        },
{
    let mut i = from;
    while i < s.len()
        invariant
            from <= i <= s@.len(),
            forall|j: int| from <= j < i ==> s@[j] != b,
        decreases s@.len() - i,
    {
        if s[i] == b {
            return Some(i);
        }
        i = i + 1;
    }
    None
}

/// The first occurrence of `w` in `s`.
fn find_bytes(s: &[u8], w: &[u8]) -> (r: Option<usize>)
    requires
        w@.len() > 0,
    ensures
        match r {
            Some(i) => bytes_at(s@, i as int, w@) && forall|j: int| 0 <= j < i ==> !bytes_at(s@, j, w@),
            None => forall|j: int| !bytes_at(s@, j, w@),
        },
{
    let n = s.len();
    let m = w.len();
    if m > n {
        return None;
    }
    let mut i: usize = 0;
    while i <= n - m
        invariant
            m == w@.len(),
            n == s@.len(),
            m <= n,
            m > 0,
            forall|j: int| 0 <= j < i ==> !bytes_at(s@, j, w@),
        decreases n - m + 1 - i,
    {
        let mut k: usize = 0;
        while k < m && s[i + k] == w[k]
            invariant
                k <= m,
                i + m <= n,
                m == w@.len(),
                n == s@.len(),
                forall|t: int| 0 <= t < k ==> s@[i + t] == w@[t],
            decreases m - k,
        {
            k = k + 1;
        }
        if k == m {
            proof {
                assert(s@.subrange(i as int, i + m) =~= w@);
            }
            return Some(i);
        }
        proof {
            assert(s@.subrange(i as int, i + m)[k as int] != w@[k as int]);
        }
        i = i + 1;
    }
    None
}

/// Whether `needle` occurs in `haystack`.
pub fn contains(haystack: &[u8], needle: &[u8]) -> (r: bool)
    requires
        needle@.len() > 0,
    ensures
        r == exists|i: int| bytes_at(haystack@, i, needle@),
{
    match find_bytes(haystack, needle) {
        Some(i) => true,
        None => false,
    }
}

/// `ESC [ ?`: how a Device Attributes reply begins.
pub open spec fn da_start() -> Seq<u8> {
    seq![0x1bu8, 0x5bu8, 0x3fu8]
}

/// Whether a Device Attributes reply, `ESC [ ? ... c`, has arrived in full:
/// a `c` somewhere after the first `ESC [ ?`.
pub open spec fn da_seen(reply: Seq<u8>) -> bool {
    exists|i: int, j: int|
        bytes_at(reply, i, da_start()) && (forall|k: int| 0 <= k < i ==> !bytes_at(reply, k, da_start()))
            && i + 3 <= j < reply.len() && reply[j] == 0x63u8
}

/// Whether a Device Attributes reply has arrived in full. The reply to that
/// question comes last, so once it is here there is nothing to wait for.
pub fn device_attributes_seen(reply: &[u8]) -> (r: bool)
    ensures
        r == da_seen(reply@),
{
    let start: [u8; 3] = [0x1b, 0x5b, 0x3f];
    proof {
        assert(start@ =~= da_start());
    }
    match find_bytes(reply, &start) {
        None => false,
        Some(at) => {
            let n = reply.len();
            proof {
                assert(at + 3 <= n);
            }
            match find_byte(reply, at + 3, 0x63) {
                Some(j) => true,
                None => {
                    proof {
                        if da_seen(reply@) {
                            let (i, j) = choose|i: int, j: int|
                                bytes_at(reply@, i, da_start()) && (forall|k: int|
                                    0 <= k < i ==> !bytes_at(reply@, k, da_start())) && i + 3 <= j
                                    < reply@.len() && reply@[j] == 0x63u8;
                            if i < at {
                                assert(!bytes_at(reply@, i, da_start()));
                            } else if at < i {
                                assert(!bytes_at(reply@, at as int, da_start()));
                            }
                        }
                    }
                    false
                },
            }
        },
    }
}

/// `str::from_utf8`, keeping the characters.
///
/// Trusted: per the standard library's documentation, `from_utf8` succeeds
/// exactly when the bytes are valid UTF-8, and the string it gives holds
/// the characters those bytes encode.
#[verifier::external_body]
fn utf8_chars(bytes: &[u8]) -> (r: Option<Vec<char>>)
    ensures
        match r {
            Some(cs) => vstd::utf8::valid_utf8(bytes@) && cs@ == vstd::utf8::decode_utf8(bytes@),
            None => !vstd::utf8::valid_utf8(bytes@),
        },
{
    std::str::from_utf8(bytes).ok().map(|s| s.chars().collect())
}

/// `u16::from_str`: an optional `+`, then at least one digit, with a value
/// that fits.
pub open spec fn parse_u16(s: Seq<char>) -> Option<u16> {
    match parse_u32(s, 10) {
        Some(v) if v <= u16::MAX => Some(v as u16),
        _ => None,
    }
}

/// `ESC [ 6 ;`: how a reply to `CSI 16 t` begins.
pub open spec fn cell_start() -> Seq<u8> {
    seq![0x1bu8, 0x5bu8, 0x36u8, 0x3bu8]
}

/// The cell size in a `CSI 16 t` reply, `ESC [ 6 ; h ; w t`, read from the
/// first `ESC [ 6 ;` up to the next `t`: the text between must be UTF-8,
/// its part before the first `;` the height and the rest the width, each a
/// whole number once trimmed, and neither zero.
pub open spec fn cell_size_of(reply: Seq<u8>) -> Option<CellSize> {
    match first_bytes(reply, cell_start()) {
        None => None,
        Some(at) => {
            let rest = reply.subrange(at + 4, reply.len() as int);
            if exists|e: int| 0 <= e < rest.len() && rest[e] == 0x74u8 {
                let end = choose|e: int|
                    0 <= e < rest.len() && rest[e] == 0x74u8 && forall|k: int|
                        0 <= k < e ==> rest[k] != 0x74u8;
                let body = rest.take(end);
                if !vstd::utf8::valid_utf8(body) {
                    None
                } else {
                    let cs = vstd::utf8::decode_utf8(body);
                    let semi = crate::text::index_of(cs, ';');
                    if semi >= cs.len() {
                        None
                    } else {
                        match (
                            parse_u16(trim(cs.take(semi))),
                            parse_u16(trim(cs.subrange(semi + 1, cs.len() as int))),
                        ) {
                            (Some(h), Some(w)) => if h > 0 && w > 0 {
                                Some(CellSize { w, h })
                            } else {
                                None
                            },
                            _ => None,
                        }
                    }
                }
            } else {
                None
            }
        },
    }
}

/// `u16::from_str` on the trimmed `v[lo..hi]`.
fn parse_u16_trimmed(v: &Vec<char>, lo: usize, hi: usize) -> (r: Option<u16>)
    requires
        lo <= hi <= v@.len(),
    ensures
        r == parse_u16(trim(v@.subrange(lo as int, hi as int))),
{
    let (a, b) = trim_range(v, lo, hi);
    match crate::html::parse_u32_at(v, a, b, 10) {
        Some(x) => if x <= 65535 {
            Some(x as u16)
        } else {
            None
        },
        None => None,
    }
}

/// The cell size out of a `CSI 16 t` reply, which reads `ESC [ 6 ; h ; w t`.
/// A terminal that will not say, or says zero, is not guessed at.
pub fn parse_cell_size(reply: &[u8]) -> (r: Option<CellSize>)
    ensures
        r == cell_size_of(reply@),
{
    let start: [u8; 4] = [0x1b, 0x5b, 0x36, 0x3b];
    proof {
        assert(start@ =~= cell_start());
    }
    let at = match find_bytes(reply, &start) {
        None => {
            proof {
                assert(!exists|i: int| bytes_at(reply@, i, cell_start()));
            }
            return None;
        },
        Some(at) => at,
    };
    let ghost s = reply@;
    proof {
        let f = first_bytes(s, cell_start());
        assert(bytes_at(s, at as int, cell_start()));
        let c = choose|i: int| bytes_at(s, i, cell_start()) && forall|j: int| 0 <= j < i ==> !bytes_at(s, j, cell_start());
        assert(bytes_at(s, c, cell_start()));
        if c < at {
            assert(!bytes_at(s, c, cell_start()));
        } else if at < c {
            assert(!bytes_at(s, at as int, cell_start()));
        }
        assert(f == Some(at as int));
    }
    let ghost rest = s.subrange(at + 4, s.len() as int);
    let n = reply.len();
    proof {
        assert(at + 4 <= n);
    }
    let end = match find_byte(reply, at + 4, 0x74) {
        None => {
            proof {
                assert forall|e: int| 0 <= e < rest.len() implies rest[e] != 0x74u8 by {
                    assert(rest[e] == s[at + 4 + e]);
                }
            }
            return None;
        },
        Some(e) => e,
    };
    proof {
        let e = end - (at + 4);
        assert(rest[e] == 0x74u8);
        let c = choose|e: int| 0 <= e < rest.len() && rest[e] == 0x74u8 && forall|k: int| 0 <= k < e ==> rest[k] != 0x74u8;
        if c < e {
            assert(rest[c] == s[at + 4 + c]);
        } else if e < c {
            assert(rest[e] == s[at + 4 + e]);
        }
        assert(c == e);
    }
    let body = &reply[at + 4..end];
    proof {
        assert(body@ =~= rest.take(end - (at + 4)));
    }
    let cs = match utf8_chars(body) {
        None => return None,
        Some(cs) => cs,
    };
    let m = cs.len();
    let semi = crate::text::find_char(&cs, 0, m, ';');
    proof {
        assert(cs@.subrange(0, m as int) =~= cs@);
    }
    if semi >= m {
        return None;
    }
    proof {
        assert(cs@.take(semi as int) =~= cs@.subrange(0, semi as int));
    }
    let h = parse_u16_trimmed(&cs, 0, semi);
    let w = parse_u16_trimmed(&cs, semi + 1, m);
    match (h, w) {
        (Some(h), Some(w)) => if h > 0 && w > 0 {
            Some(CellSize { w, h })
        } else {
            None
        },
        _ => None,
    }
}

} // verus!

verus! {

/// Which cache a live kitty image id belongs to.
#[derive(Debug, Clone, PartialEq, Eq)]
pub enum Origin {
    Image(usize),
    Text(String),
}

/// An image the terminal holds: its kitty id and the cells it was sized for.
#[derive(Debug, Clone, Copy, PartialEq, Eq, Structural)]
pub struct Entry {
    pub kitty_id: u32,
    pub cols: u16,
    pub rows: u16,
}

/// Base64 is sent in pieces of at most this many characters.
pub const CHUNK: usize = 4096;

/// Where images live, what the terminal already holds, and what is placed
/// on screen this frame and was the last.
pub struct ImageStore {
    pub protocol: Protocol,
    pub cell: CellSize,
    pub sources: HashMap<usize, String>,
    pub uploaded: HashMap<usize, Entry>,
    /// Rasterized headings, by what they were drawn from.
    pub text: Vec<(String, u32)>,
    /// What each live kitty id came from.
    pub origin: HashMap<u32, Origin>,
    pub placed_now: Vec<u32>,
    pub placed_before: Vec<u32>,
    pub next_id: u32,
}

/// The base64 text cut into pieces of `n` characters, the last one shorter.
pub open spec fn chunks_of(s: Seq<char>, n: nat) -> Seq<Seq<char>>
    decreases s.len(),
{
    if s.len() == 0 || n == 0 {
        Seq::empty()
    } else if s.len() <= n {
        seq![s]
    } else {
        seq![s.take(n as int)] + chunks_of(s.skip(n as int), n)
    }
}

/// Piece `i` of a transmission: the first carries the action, format and
/// id; each says whether more follow.
pub open spec fn tx_piece(id: u32, cs: Seq<Seq<char>>, i: int) -> Seq<char> {
    piece_text(id, i == 0, i + 1 < cs.len(), cs[i])
}

/// One piece of a transmission holding `chunk`.
pub open spec fn piece_text(id: u32, first: bool, more: bool, chunk: Seq<char>) -> Seq<char> {
    let m = if more { "1"@ } else { "0"@ };
    if first {
        "\x1b_Ga=t,f=100,i="@ + dec(id as nat) + ",q=2,m="@ + m + ";"@ + chunk + "\x1b\\"@
    } else {
        "\x1b_Gm="@ + m + ";"@ + chunk + "\x1b\\"@
    }
}

fn push_piece(out: &mut String, id: u32, first: bool, more: bool, chunk: &str)
    ensures
        final(out)@ == old(out)@ + piece_text(id, first, more, chunk@),
{
    if first {
        push_str(out, "\x1b_Ga=t,f=100,i=");
        push_decimal(out, id as usize);
        push_str(out, ",q=2,m=");
    } else {
        push_str(out, "\x1b_Gm=");
    }
    push_str(out, if more { "1" } else { "0" });
    push_str(out, ";");
    push_str(out, chunk);
    push_str(out, "\x1b\\");
    proof {
        assert(out@ =~= old(out)@ + piece_text(id, first, more, chunk@));
    }
}

/// The pieces from `i` on.
pub open spec fn tx_from(id: u32, cs: Seq<Seq<char>>, i: nat) -> Seq<char>
    decreases cs.len() - i,
{
    if i >= cs.len() {
        Seq::empty()
    } else {
        tx_piece(id, cs, i as int) + tx_from(id, cs, i + 1)
    }
}

/// What sending a PNG under `id` writes.
pub open spec fn transmission(id: u32, png: Seq<u8>) -> Seq<char> {
    tx_from(id, chunks_of(base64_standard(png), CHUNK as nat), 0)
}

/// Sends image data under `kitty_id` without displaying it: the PNG in
/// base64, in pieces of at most `CHUNK` characters.
pub fn transmit(out: &mut String, kitty_id: u32, png: &[u8])
    requires
        png@.len() <= usize::MAX / 2,
    ensures
        final(out)@ == old(out)@ + transmission(kitty_id, png@),
{
    let encoded = encode_base64(png);
    let v = crate::text::chars_of(encoded.as_str());
    let ghost all = v@;
    let ghost cs = chunks_of(all, CHUNK as nat);
    let mut at: usize = 0;
    let mut i: usize = 0;
    let ghost start = out@;
    proof {
        assert(all.skip(0) =~= all);
        assert(out@ =~= start + Seq::<char>::empty());
    }
    while at < v.len()
        invariant
            at <= v@.len(),
            all == v@,
            cs == chunks_of(all, CHUNK as nat),
            chunks_of(all.skip(at as int), CHUNK as nat) == cs.skip(i as int),
            i <= cs.len(),
            i <= at,
            out@ + tx_from(kitty_id, cs, i as nat) == start + tx_from(kitty_id, cs, 0),
        decreases v@.len() - at,
    {
        let end = if v.len() - at > CHUNK { at + CHUNK } else { v.len() };
        let chunk = crate::text::string_of(&v, at, end);
        let ghost rest = all.skip(at as int);
        proof {
            assert(rest.len() > 0);
            assert(cs.skip(i as int).len() > 0);
            assert(i < cs.len());
            assert(cs.skip(i as int)[0] == cs[i as int]);
            if rest.len() <= CHUNK {
                assert(chunk@ =~= rest);
            } else {
                assert(chunk@ =~= rest.take(CHUNK as int));
            }
            assert(chunk@ == cs[i as int]);
        }
        let more = end < v.len();
        proof {
            if rest.len() > CHUNK {
                assert(rest.skip(CHUNK as int).len() > 0);
                assert(chunks_of(rest.skip(CHUNK as int), CHUNK as nat).len() > 0);
                assert(chunks_of(rest, CHUNK as nat).len() >= 2);
                assert(more);
            } else {
                assert(chunks_of(rest, CHUNK as nat).len() == 1);
                assert(!more);
            }
            assert(more == (i + 1 < cs.len()));
        }
        push_piece(out, kitty_id, i == 0, more, chunk.as_str());
        proof {
            assert(cs.skip(i as int).drop_first() =~= cs.skip(i + 1));
            if rest.len() > CHUNK {
                assert(all.skip(end as int) =~= rest.skip(CHUNK as int));
            } else {
                assert(all.skip(end as int) =~= Seq::<char>::empty());
                assert(cs.skip(i + 1) =~= Seq::<Seq<char>>::empty());
            }
        }
        at = end;
        i = i + 1;
    }
    proof {
        assert(all.skip(at as int) =~= Seq::<char>::empty());
        assert(cs.skip(i as int).len() == 0);
        assert(i >= cs.len());
        assert(tx_from(kitty_id, cs, i as nat) =~= Seq::<char>::empty());
        assert(out@ + Seq::<char>::empty() =~= out@);
    }
}

} // verus!

verus! {

/// Deleting the placement `id` and, with it, the image's claim on its data.
pub open spec fn del_seq(id: u32) -> Seq<char> {
    "\x1b_Ga=d,d=i,i="@ + dec(id as nat) + ",p="@ + dec(id as nat) + "\x1b\\"@
}

/// The ids placed last frame that are not placed this frame, in order.
pub open spec fn gone(before: Seq<u32>, now: Seq<u32>) -> Seq<u32>
    decreases before.len(),
{
    if before.len() == 0 {
        Seq::empty()
    } else if now.contains(before.last()) {
        gone(before.drop_last(), now)
    } else {
        gone(before.drop_last(), now).push(before.last())
    }
}

/// What a frame's end deletes is exactly what was placed in the frame
/// before and not in this one: a picture still on screen is never deleted,
/// and one that left the screen always is.
pub proof fn lemma_frame_deletes_what_left(before: Seq<u32>, now: Seq<u32>, k: u32)
    ensures
        gone(before, now).contains(k) <==> (before.contains(k) && !now.contains(k)),
    decreases before.len(),
{
    if before.len() > 0 {
        lemma_frame_deletes_what_left(before.drop_last(), now, k);
        let g = gone(before.drop_last(), now);
        if before.contains(k) && !now.contains(k) {
            let i = choose|i: int| 0 <= i < before.len() && before[i] == k;
            if i < before.len() - 1 {
                assert(before.drop_last()[i] == k);
            }
        }
        if before.drop_last().contains(k) {
            let i = choose|i: int| 0 <= i < before.drop_last().len() && before.drop_last()[i] == k;
            assert(before[i] == k);
        }
        if !now.contains(before.last()) {
            assert(g.push(before.last())[g.len() as int] == before.last());
            if g.push(before.last()).contains(k) {
                let i = choose|i: int| 0 <= i < g.push(before.last()).len() && g.push(before.last())[i] == k;
                if i < g.len() {
                    assert(g[i] == k);
                }
            }
            if g.contains(k) {
                let i = choose|i: int| 0 <= i < g.len() && g[i] == k;
                assert(g.push(before.last())[i] == k);
            }
        }
    }
}

/// The deletions for the ids, in order.
pub open spec fn deletions(ids: Seq<u32>) -> Seq<char>
    decreases ids.len(),
{
    if ids.len() == 0 {
        Seq::empty()
    } else {
        deletions(ids.drop_last()) + del_seq(ids.last())
    }
}

/// Where the heading bitmap keyed `k` sits in the text cache.
pub open spec fn text_find(t: Seq<(String, u32)>, k: Seq<char>) -> Option<int>
    decreases t.len(),
{
    if t.len() == 0 {
        None
    } else if t[0].0@ == k {
        Some(0)
    } else {
        match text_find(t.drop_first(), k) {
            Some(j) => Some(j + 1),
            None => None,
        }
    }
}

/// The caches once placement `id` is retired: its origin is forgotten, and
/// so is the upload or bitmap it came from, but only where that cache still
/// points at this very id (a resize may have sent the image again under a
/// new one).
pub open spec fn retire(
    up: Map<usize, Entry>,
    org: Map<u32, Origin>,
    txt: Seq<(String, u32)>,
    id: u32,
) -> (Map<usize, Entry>, Map<u32, Origin>, Seq<(String, u32)>) {
    let org2 = org.remove(id);
    if !org.contains_key(id) {
        (up, org2, txt)
    } else {
        match org[id] {
            Origin::Image(img) => if up.contains_key(img) && up[img].kitty_id == id {
                (up.remove(img), org2, txt)
            } else {
                (up, org2, txt)
            },
            Origin::Text(k) => match text_find(txt, k@) {
                Some(j) => if txt[j].1 == id { (up, org2, txt.remove(j)) } else { (up, org2, txt) },
                None => (up, org2, txt),
            },
        }
    }
}

/// The caches once each of `ids` is retired in turn.
pub open spec fn retire_all(
    up: Map<usize, Entry>,
    org: Map<u32, Origin>,
    txt: Seq<(String, u32)>,
    ids: Seq<u32>,
) -> (Map<usize, Entry>, Map<u32, Origin>, Seq<(String, u32)>)
    decreases ids.len(),
{
    if ids.len() == 0 {
        (up, org, txt)
    } else {
        let c = retire_all(up, org, txt, ids.drop_last());
        retire(c.0, c.1, c.2, ids.last())
    }
}

/// Placing image `kitty` at the cursor, `cols` wide and `visible` rows
/// high, cropped `y` pixels from the top, `w` by `h` pixels; the cursor does
/// not move and the terminal does not answer.
pub open spec fn place_seq(kitty: u32, cols: u16, visible: u16, y: u32, w: u32, h: u32) -> Seq<char> {
    "\x1b_Ga=p,i="@ + dec(kitty as nat) + ",p="@ + dec(kitty as nat) + ",c="@ + dec(cols as nat) + ",r="@
        + dec(visible as nat) + ",x=0,y="@ + dec(y as nat) + ",w="@ + dec(w as nat) + ",h="@ + dec(h as nat)
        + ",C=1,q=2\x1b\\"@
}

/// The id after `n`: the next one, skipping zero when it wraps.
pub open spec fn after(n: u32) -> u32 {
    if n == u32::MAX { 1 } else { (n + 1) as u32 }
}

/// `placed` with `id` added if it is not there yet.
pub open spec fn with_id(placed: Seq<u32>, id: u32) -> Seq<u32> {
    if placed.contains(id) { placed } else { placed.push(id) }
}

fn add_placed(placed: &mut Vec<u32>, id: u32)
    ensures
        final(placed)@ == with_id(old(placed)@, id),
{
    let mut i: usize = 0;
    while i < placed.len()
        invariant
            i <= placed@.len(),
            forall|j: int| 0 <= j < i ==> placed@[j] != id,
        decreases placed@.len() - i,
    {
        if placed[i] == id {
            proof {
                assert(placed@.contains(id));
            }
            return;
        }
        i = i + 1;
    }
    proof {
        assert(!placed@.contains(id));
    }
    placed.push(id);
}

fn push_deletion(out: &mut String, id: u32)
    ensures
        final(out)@ == old(out)@ + del_seq(id),
{
    push_str(out, "\x1b_Ga=d,d=i,i=");
    push_decimal(out, id as usize);
    push_str(out, ",p=");
    push_decimal(out, id as usize);
    push_str(out, "\x1b\\");
    proof {
        assert(out@ =~= old(out)@ + del_seq(id));
    }
}

fn find_text(t: &Vec<(String, u32)>, k: &str) -> (r: Option<usize>)
    ensures
        match r {
            Some(j) => text_find(t@, k@) == Some(j as int) && j < t@.len(),
            None => text_find(t@, k@) is None,
        },
{
    let mut i: usize = 0;
    proof {
        assert(t@.skip(0) =~= t@);
    }
    while i < t.len()
        invariant
            i <= t@.len(),
            forall|j: int| 0 <= j < i ==> t@[j].0@ != k@,
            text_find(t@, k@) == (match text_find(t@.skip(i as int), k@) {
                Some(j) => Some(j + i),
                None => None,
            }),
        decreases t@.len() - i,
    {
        proof {
            assert(t@.skip(i as int)[0] == t@[i as int]);
            assert(t@.skip(i as int).drop_first() =~= t@.skip(i + 1));
        }
        if crate::text::str_eq(t[i].0.as_str(), k) {
            return Some(i);
        }
        i = i + 1;
    }
    proof {
        assert(t@.skip(i as int) =~= Seq::<(String, u32)>::empty());
    }
    None
}

impl ImageStore {
    pub fn new(protocol: Protocol, cell: CellSize) -> (r: ImageStore)
        ensures
            r.protocol == protocol,
            r.cell == cell,
            r.sources@ == Map::<usize, String>::empty(),
            r.uploaded@ == Map::<usize, Entry>::empty(),
            r.text@.len() == 0,
            r.origin@ == Map::<u32, Origin>::empty(),
            r.placed_now@.len() == 0,
            r.placed_before@.len() == 0,
            r.next_id == 1,
    {
        ImageStore {
            protocol,
            cell,
            sources: HashMap::new(),
            uploaded: HashMap::new(),
            text: Vec::new(),
            origin: HashMap::new(),
            placed_now: Vec::new(),
            placed_before: Vec::new(),
            next_id: 1,
        }
    }

    /// A store that never draws.
    pub fn disabled() -> (r: ImageStore)
        ensures
            r.protocol == Protocol::Off,
            r.cell == (CellSize { w: 8, h: 16 }),
            r.uploaded@ == Map::<usize, Entry>::empty(),
            r.placed_now@.len() == 0,
            r.placed_before@.len() == 0,
    {
        ImageStore::new(Protocol::Off, CellSize { w: 8, h: 16 })
    }

    /// Registers where image `id` lives. A different file than before
    /// throws the old upload away.
    pub fn register(&mut self, id: usize, path: String)
        ensures
            ({
                let same = old(self).sources@.contains_key(id) && old(self).sources@[id]@ == path@;
                &&& final(self).sources@ == (if same { old(self).sources@ } else { old(self).sources@.insert(id, path) })
                &&& final(self).uploaded@ == (if same { old(self).uploaded@ } else { old(self).uploaded@.remove(id) })
            }),
            final(self).protocol == old(self).protocol,
            final(self).cell == old(self).cell,
            final(self).text == old(self).text,
            final(self).origin@ == old(self).origin@,
            final(self).placed_now == old(self).placed_now,
            final(self).placed_before == old(self).placed_before,
            final(self).next_id == old(self).next_id,
    {
        broadcast use vstd::std_specs::hash::group_hash_axioms;
        let same = match self.sources.get(&id) {
            Some(p) => crate::text::str_eq(p.as_str(), path.as_str()),
            None => false,
        };
        if !same {
            self.uploaded.remove(&id);
            self.sources.insert(id, path);
        }
    }

    /// Forgets what the terminal holds, keeping where images come from: an
    /// editor may have had the screen since, so everything is sent again.
    pub fn invalidate_uploads(&mut self)
        ensures
            final(self).uploaded@ == Map::<usize, Entry>::empty(),
            final(self).text@.len() == 0,
            final(self).origin@ == Map::<u32, Origin>::empty(),
            final(self).placed_now@.len() == 0,
            final(self).placed_before@.len() == 0,
            final(self).sources@ == old(self).sources@,
            final(self).protocol == old(self).protocol,
            final(self).cell == old(self).cell,
            final(self).next_id == old(self).next_id,
    {
        broadcast use vstd::std_specs::hash::group_hash_axioms;
        self.uploaded.clear();
        self.text = Vec::new();
        self.origin.clear();
        self.placed_now = Vec::new();
        self.placed_before = Vec::new();
    }

    /// Forgets every image.
    pub fn forget_all(&mut self)
        ensures
            final(self).sources@ == Map::<usize, String>::empty(),
            final(self).uploaded@ == Map::<usize, Entry>::empty(),
            final(self).text@.len() == 0,
            final(self).origin@ == Map::<u32, Origin>::empty(),
            final(self).placed_now@.len() == 0,
            final(self).placed_before@.len() == 0,
            final(self).protocol == old(self).protocol,
            final(self).cell == old(self).cell,
            final(self).next_id == old(self).next_id,
    {
        broadcast use vstd::std_specs::hash::group_hash_axioms;
        self.sources.clear();
        self.uploaded.clear();
        self.invalidate_uploads();
    }

    /// Starts a frame: what was placed becomes what was placed last time.
    /// Nothing is written; placements are replaced in place as the frame is
    /// drawn.
    pub fn begin_frame(&mut self)
        ensures
            final(self).placed_before == old(self).placed_now,
            final(self).placed_now@.len() == 0,
            final(self).sources == old(self).sources,
            final(self).uploaded == old(self).uploaded,
            final(self).text == old(self).text,
            final(self).origin == old(self).origin,
            final(self).protocol == old(self).protocol,
            final(self).cell == old(self).cell,
            final(self).next_id == old(self).next_id,
    {
        let mut now: Vec<u32> = Vec::new();
        std::mem::swap(&mut now, &mut self.placed_now);
        self.placed_before = now;
    }

    /// Ends a frame: each placement that was on screen last frame and is not
    /// now is deleted, and its upload or bitmap forgotten, since the terminal
    /// may free data no placement refers to. Without graphics nothing
    /// happens.
    pub fn end_frame(&mut self, out: &mut String)
        ensures
            !(old(self).protocol != Protocol::Off) ==> final(out)@ == old(out)@ && final(self).uploaded@ == old(self).uploaded@
                && final(self).origin@ == old(self).origin@ && final(self).text@ == old(self).text@,
            (old(self).protocol != Protocol::Off) ==> ({
                let ids = gone(old(self).placed_before@, old(self).placed_now@);
                let c = retire_all(old(self).uploaded@, old(self).origin@, old(self).text@, ids);
                &&& final(out)@ == old(out)@ + deletions(ids)
                &&& final(self).uploaded@ == c.0
                &&& final(self).origin@ == c.1
                &&& final(self).text@ == c.2
            }),
            final(self).sources@ == old(self).sources@,
            final(self).placed_now == old(self).placed_now,
            final(self).placed_before == old(self).placed_before,
            final(self).protocol == old(self).protocol,
            final(self).cell == old(self).cell,
            final(self).next_id == old(self).next_id,
    {
        broadcast use vstd::std_specs::hash::group_hash_axioms;
        if !self.protocol.available() {
            return;
        }
        let ghost before = self.placed_before@;
        let ghost now = self.placed_now@;
        let ghost up0 = self.uploaded@;
        let ghost org0 = self.origin@;
        let ghost txt0 = self.text@;
        let ghost start = out@;
        let mut i: usize = 0;
        proof {
            assert(before.take(0) =~= Seq::<u32>::empty());
        }
        while i < self.placed_before.len()
            invariant
                i <= before.len(),
                before == self.placed_before@,
                now == self.placed_now@,
                out@ == start + deletions(gone(before.take(i as int), now)),
                (self.uploaded@, self.origin@, self.text@) == retire_all(up0, org0, txt0, gone(before.take(i as int), now)),
                self.sources@ == old(self).sources@,
                self.placed_now == old(self).placed_now,
                self.placed_before == old(self).placed_before,
                self.protocol == old(self).protocol,
                self.cell == old(self).cell,
                self.next_id == old(self).next_id,
            decreases before.len() - i,
        {
            let id = self.placed_before[i];
            proof {
                assert(before.take(i + 1).drop_last() =~= before.take(i as int));
                assert(before.take(i + 1).last() == id);
            }
            let mut placed = false;
            let mut j: usize = 0;
            while j < self.placed_now.len()
                invariant
                    j <= now.len(),
                    now == self.placed_now@,
                    placed == (exists|k: int| 0 <= k < j && now[k] == id),
                decreases now.len() - j,
            {
                if self.placed_now[j] == id {
                    placed = true;
                }
                j = j + 1;
            }
            proof {
                if placed {
                    let k = choose|k: int| 0 <= k < j && now[k] == id;
                    assert(now.contains(id));
                } else {
                    assert(!now.contains(id));
                }
            }
            if !placed {
                push_deletion(out, id);
                self.retire_one(id);
                proof {
                    let g = gone(before.take(i as int), now);
                    assert(gone(before.take(i + 1), now) == g.push(id));
                    assert(g.push(id).drop_last() =~= g);
                    assert(deletions(g.push(id)) == deletions(g) + del_seq(id));
                }
            }
            i = i + 1;
        }
        proof {
            assert(before.take(i as int) =~= before);
        }
    }

    fn retire_one(&mut self, id: u32)
        ensures
            (final(self).uploaded@, final(self).origin@, final(self).text@) == retire(old(self).uploaded@, old(self).origin@, old(self).text@, id),
            final(self).sources@ == old(self).sources@,
            final(self).placed_now == old(self).placed_now,
            final(self).placed_before == old(self).placed_before,
            final(self).protocol == old(self).protocol,
            final(self).cell == old(self).cell,
            final(self).next_id == old(self).next_id,
    {
        broadcast use vstd::std_specs::hash::group_hash_axioms;
        match self.origin.remove(&id) {
            Some(Origin::Image(image)) => {
                let current = match self.uploaded.get(&image) {
                    Some(e) => e.kitty_id == id,
                    None => false,
                };
                if current {
                    self.uploaded.remove(&image);
                }
            },
            Some(Origin::Text(key)) => {
                match find_text(&self.text, key.as_str()) {
                    Some(j) => {
                        if self.text[j].1 == id {
                            self.text.remove(j);
                        }
                    },
                    None => {},
                }
            },
            None => {},
        }
    }
}


/// What `place` writes once image `kitty` is on the terminal: the visible
/// rows of it, the top `skip` rows cropped off.
pub open spec fn placement(cell: CellSize, kitty: u32, cols: u16, skip: u16, visible: u16) -> Seq<char> {
    place_seq(
        kitty,
        cols,
        visible,
        (skip * cell.h) as u32,
        (cols * cell.w) as u32,
        (visible * cell.h) as u32,
    )
}

/// `n` cells of `px` pixels each.
fn cells_px(n: u16, px: u16) -> (r: u32)
    ensures
        r == n * px,
{
    assert(n * px <= u32::MAX) by (nonlinear_arith)
        requires
            n <= u16::MAX,
            px <= u16::MAX,
    ;
    n as u32 * px as u32
}

fn push_placement(out: &mut String, cell: CellSize, kitty: u32, cols: u16, skip: u16, visible: u16)
    ensures
        final(out)@ == old(out)@ + placement(cell, kitty, cols, skip, visible),
{
    let y: u32 = cells_px(skip, cell.h);
    let h: u32 = cells_px(visible, cell.h);
    let w: u32 = cells_px(cols, cell.w);
    push_str(out, "\x1b_Ga=p,i=");
    push_decimal(out, kitty as usize);
    push_str(out, ",p=");
    push_decimal(out, kitty as usize);
    push_str(out, ",c=");
    push_decimal(out, cols as usize);
    push_str(out, ",r=");
    push_decimal(out, visible as usize);
    push_str(out, ",x=0,y=");
    push_decimal(out, y as usize);
    push_str(out, ",w=");
    push_decimal(out, w as usize);
    push_str(out, ",h=");
    push_decimal(out, h as usize);
    push_str(out, ",C=1,q=2\x1b\\");
    proof {
        assert(out@ =~= old(out)@ + placement(cell, kitty, cols, skip, visible));
    }
}

impl ImageStore {
    /// Uploads image `id` at the pixel size of `cols` by `rows` cells, unless
    /// it is already there at that size. `encode` reads and re-encodes the
    /// file as a PNG of a given pixel size, `None` when it cannot.
    fn upload<F: Fn(String, (u32, u32)) -> Option<Vec<u8>>>(
        &mut self,
        out: &mut String,
        id: usize,
        cols: u16,
        rows: u16,
        encode: &F,
    ) -> (r: Option<u32>)
        requires
            forall|p: String, t: (u32, u32)| #[trigger] encode.requires((p, t)),
        ensures
            final(self).sources@ == old(self).sources@,
            final(self).text == old(self).text,
            final(self).placed_now == old(self).placed_now,
            final(self).placed_before == old(self).placed_before,
            final(self).protocol == old(self).protocol,
            final(self).cell == old(self).cell,
            old(self).uploaded@.contains_key(id) && old(self).uploaded@[id].cols == cols && old(self).uploaded@[id].rows == rows
                ==> r == Some(old(self).uploaded@[id].kitty_id) && final(out)@ == old(out)@
                && final(self).uploaded@ == old(self).uploaded@ && final(self).origin@ == old(self).origin@
                && final(self).next_id == old(self).next_id,
            !(old(self).uploaded@.contains_key(id) && old(self).uploaded@[id].cols == cols && old(self).uploaded@[id].rows == rows)
                ==> match r {
                None => final(out)@ == old(out)@ && final(self).uploaded@ == old(self).uploaded@
                    && final(self).origin@ == old(self).origin@ && final(self).next_id == old(self).next_id,
                Some(k) => {
                    &&& old(self).sources@.contains_key(id)
                    &&& k == old(self).next_id
                    &&& final(self).next_id == after(old(self).next_id)
                    &&& final(self).uploaded@ == old(self).uploaded@.insert(id, Entry { kitty_id: k, cols, rows })
                    &&& final(self).origin@ == old(self).origin@.insert(k, Origin::Image(id))
                    &&& exists|png: Seq<u8>| final(out)@ == old(out)@ + #[trigger] transmission(k, png)
                },
            },
    {
        broadcast use vstd::std_specs::hash::group_hash_axioms;
        match self.uploaded.get(&id) {
            Some(e) => {
                if e.cols == cols && e.rows == rows {
                    return Some(e.kitty_id);
                }
            },
            None => {},
        }
        let path = match self.sources.get(&id) {
            Some(p) => p.clone(),
            None => return None,
        };
        let target: (u32, u32) = (cells_px(cols, self.cell.w), cells_px(rows, self.cell.h));
        let png = match encode(path, target) {
            Some(png) => png,
            None => return None,
        };
        if png.len() > usize::MAX / 2 {
            return None;
        }
        let kitty_id = self.next_id;
        self.next_id = if self.next_id == u32::MAX { 1 } else { self.next_id + 1 };
        transmit(out, kitty_id, png.as_slice());
        self.origin.insert(kitty_id, Origin::Image(id));
        self.uploaded.insert(id, Entry { kitty_id, cols, rows });
        Some(kitty_id)
    }

    /// Places image `id` at the cursor, `cols` by `rows` cells, with the top
    /// `skip_rows` cropped off and `visible_rows` shown, uploading it first
    /// if the terminal does not hold it at that size. Returns whether it was
    /// placed; without graphics, or with nothing visible, nothing happens.
    pub fn place<F: Fn(String, (u32, u32)) -> Option<Vec<u8>>>(
        &mut self,
        out: &mut String,
        id: usize,
        cols: u16,
        rows: u16,
        skip_rows: u16,
        visible_rows: u16,
        encode: &F,
    ) -> (r: bool)
        requires
            forall|p: String, t: (u32, u32)| #[trigger] encode.requires((p, t)),
        ensures
            final(self).sources@ == old(self).sources@,
            final(self).text == old(self).text,
            final(self).placed_before == old(self).placed_before,
            final(self).protocol == old(self).protocol,
            final(self).cell == old(self).cell,
            (old(self).protocol == Protocol::Off || visible_rows == 0) ==> !r && final(out)@ == old(out)@
                && final(self).uploaded@ == old(self).uploaded@ && final(self).origin@ == old(self).origin@
                && final(self).placed_now == old(self).placed_now && final(self).next_id == old(self).next_id,
            (old(self).protocol != Protocol::Off && visible_rows > 0 && old(self).uploaded@.contains_key(id)
                && old(self).uploaded@[id].cols == cols && old(self).uploaded@[id].rows == rows) ==> {
                let k = old(self).uploaded@[id].kitty_id;
                &&& r
                &&& final(out)@ == old(out)@ + placement(old(self).cell, k, cols, skip_rows, visible_rows)
                &&& final(self).placed_now@ == with_id(old(self).placed_now@, k)
                &&& final(self).uploaded@ == old(self).uploaded@
                &&& final(self).origin@ == old(self).origin@
                &&& final(self).next_id == old(self).next_id
            },
            !r ==> final(out)@ == old(out)@ && final(self).uploaded@ == old(self).uploaded@
                && final(self).origin@ == old(self).origin@ && final(self).placed_now == old(self).placed_now
                && final(self).next_id == old(self).next_id,
            (!old(self).sources@.contains_key(id) && !(old(self).uploaded@.contains_key(id)
                && old(self).uploaded@[id].cols == cols && old(self).uploaded@[id].rows == rows)) ==> !r,
            r ==> old(self).protocol != Protocol::Off && visible_rows > 0 && final(self).uploaded@.contains_key(id)
                && final(self).uploaded@[id].cols == cols && final(self).uploaded@[id].rows == rows
                && final(self).placed_now@ == with_id(old(self).placed_now@, final(self).uploaded@[id].kitty_id),
    {
        broadcast use vstd::std_specs::hash::group_hash_axioms;
        if !self.protocol.available() || visible_rows == 0 {
            return false;
        }
        let kitty_id = match self.upload(out, id, cols, rows, encode) {
            Some(k) => k,
            None => return false,
        };
        push_placement(out, self.cell, kitty_id, cols, skip_rows, visible_rows);
        add_placed(&mut self.placed_now, kitty_id);
        true
    }
}

} // verus!
