//! Telling SVG apart from bitmaps by content.

use vstd::prelude::*;
use crate::graphics::bytes_at;

verus! {

/// How much of a file is looked at: enough to get past an XML declaration,
/// a doctype, and a comment or two.
pub const SNIFF_LEN: usize = 4096;

/// The bytes of `<svg`.
pub open spec fn svg_tag() -> Seq<u8> {
    seq![0x3cu8, 0x73u8, 0x76u8, 0x67u8]
}

/// The part of `data` that is looked at.
pub open spec fn sniffed_head(data: Seq<u8>) -> Seq<u8> {
    if data.len() < SNIFF_LEN {
        data
    } else {
        data.take(SNIFF_LEN as int)
    }
}

/// Whether `<svg` occurs within the first `SNIFF_LEN` bytes.
pub open spec fn svg_sniffed(data: Seq<u8>) -> bool {
    exists|i: int| #[trigger] bytes_at(sniffed_head(data), i, svg_tag())
}

/// Whether this data looks like SVG: `<svg` near its start. Sniffed from
/// the content rather than taken from the file name, because a badge URL
/// often has no extension at all. The marker is ASCII, so it is found in the
/// bytes exactly where it would be found in their text.
pub fn looks_like_svg(data: &[u8]) -> (r: bool)
    ensures
        r == svg_sniffed(data@),
{
    let n = if data.len() < SNIFF_LEN { data.len() } else { SNIFF_LEN };
    let ghost head = sniffed_head(data@);
    proof {
        assert(head.len() == n);
        assert(forall|k: int| 0 <= k < n ==> head[k] == data@[k]);
    }
    let mut i: usize = 0;
    while n >= 4 && i <= n - 4
        invariant
            n <= SNIFF_LEN,
            n <= data@.len(),
            head == sniffed_head(data@),
            head.len() == n,
            forall|k: int| 0 <= k < n ==> head[k] == data@[k],
            forall|j: int| 0 <= j < i ==> !bytes_at(head, j, svg_tag()),
        decreases n - i,
    {
        if data[i] == 0x3c && data[i + 1] == 0x73 && data[i + 2] == 0x76 && data[i + 3] == 0x67 {
            proof {
                assert(head.subrange(i as int, i + 4) =~= svg_tag());
                assert(bytes_at(head, i as int, svg_tag()));
            }
            return true;
        }
        proof {
            let w = svg_tag();
            if head.subrange(i as int, i + 4) == w {
                assert(head.subrange(i as int, i + 4)[0] == w[0]);
                assert(head.subrange(i as int, i + 4)[1] == w[1]);
                assert(head.subrange(i as int, i + 4)[2] == w[2]);
                assert(head.subrange(i as int, i + 4)[3] == w[3]);
            }
        }
        i = i + 1;
    }
    proof {
        assert forall|j: int| !bytes_at(head, j, svg_tag()) by {
            if 0 <= j < i {
            } else if j >= i {
                assert(n < 4 || j + 4 > n);
            }
        }
    }
    false
}

} // verus!
