//! Where yanked text went.

use vstd::prelude::*;
use base64::Engine;

verus! {

#[derive(Debug, Clone, Copy, PartialEq, Eq, Structural)]
pub enum Route {
    /// The local clipboard.
    System,
    /// An OSC 52 sequence, which the terminal at the far end of a connection
    /// picks up.
    Osc52,
}

impl Route {
    pub fn label(self) -> (r: &'static str)
        ensures
            r@ == (match self {
                Route::System => "clipboard"@,
                Route::Osc52 => "clipboard (OSC 52)"@,
            }),
    {
        match self {
            Route::System => "clipboard",
            Route::Osc52 => "clipboard (OSC 52)",
        }
    }
}

} // verus!

verus! {

/// The character of the standard base64 alphabet for a six-bit value.
pub open spec fn b64_char(v: int) -> char {
    if v < 26 {
        (65 + v) as char
    } else if v < 52 {
        (97 + v - 26) as char
    } else if v < 62 {
        (48 + v - 52) as char
    } else if v == 62 {
        '+'
    } else {
        '/'
    }
}

/// Base64 in the standard alphabet with `=` padding (RFC 4648), what
/// `base64::engine::general_purpose::STANDARD.encode` gives: each three
/// bytes become four characters, a last one or two bytes two or three
/// characters padded to four.
pub open spec fn base64_standard(bytes: Seq<u8>) -> Seq<char>
    decreases bytes.len(),
{
    if bytes.len() == 0 {
        Seq::empty()
    } else if bytes.len() == 1 {
        let a = bytes[0] as int;
        seq![b64_char(a / 4), b64_char((a % 4) * 16), '=', '=']
    } else if bytes.len() == 2 {
        let (a, b) = (bytes[0] as int, bytes[1] as int);
        seq![b64_char(a / 4), b64_char((a % 4) * 16 + b / 16), b64_char((b % 16) * 4), '=']
    } else {
        let (a, b, c) = (bytes[0] as int, bytes[1] as int, bytes[2] as int);
        seq![b64_char(a / 4), b64_char((a % 4) * 16 + b / 16), b64_char((b % 16) * 4 + c / 64), b64_char(c % 64)]
            + base64_standard(bytes.skip(3))
    }
}

/// `STANDARD.encode` of the bytes: trusted to be their standard base64. It
/// panics when the length of the encoding overflows a `usize`, which no
/// slice that fits in memory reaches.
#[verifier::external_body]
pub(crate) fn encode_base64(bytes: &[u8]) -> (r: String)
    requires
        bytes@.len() <= usize::MAX / 2,
    ensures
        r@ == base64_standard(bytes@),
{
    base64::engine::general_purpose::STANDARD.encode(bytes)
}

/// The OSC 52 sequence that asks the terminal to set the clipboard to
/// `text`: the text's UTF-8 bytes in base64, in the `ESC ] 52 ; c ;` ...
/// `BEL` envelope.
pub fn osc52(text: &str) -> (r: String)
    requires
        vstd::utf8::encode_utf8(text@).len() <= usize::MAX / 2,
    ensures
        r@ == "\x1b]52;c;"@ + base64_standard(vstd::utf8::encode_utf8(text@)) + "\x07"@,
{
    let mut out = String::new();
    crate::text::push_str(&mut out, "\x1b]52;c;");
    let encoded = encode_base64(text.as_bytes());
    crate::text::push_str(&mut out, encoded.as_str());
    crate::text::push_str(&mut out, "\x07");
    proof {
        assert(Seq::<char>::empty() + "\x1b]52;c;"@ =~= "\x1b]52;c;"@);
    }
    out
}

} // verus!
