//! Theme colors and the pieces a theme file is written in.
//!
//! A color is written `#rrggbb`, `#rgb`, a 0-255 palette index, or the name
//! of one of the sixteen ANSI colors. [`color_toml`] writes a color back in a
//! form [`parse_color`] reads, and reading it gives the same color again.

use vstd::prelude::*;
use crate::ir::{Color, Style};
use crate::html::{parse_u32, parse_u32_at};
use crate::text::{
    chars_of, byte_len, byte_offsets, trim, trim_range, string_of, lower, lower_char, eq_at, push_char,
    push_str, lemma_byte_len_prefix, is_ws,
};

verus! {

/// Why a color could not be read.
#[derive(Debug, Clone, PartialEq, Eq)]
pub enum ColorError {
    /// `#` followed by three or six characters that are not hex digits.
    BadHex,
    /// `#` followed by neither three nor six bytes; carries the trimmed text.
    BadLength(String),
    /// Not a hex color, a palette index or a color name; carries the trimmed
    /// text.
    Unknown(String),
}

/// A [`ColorError`] as character sequences.
pub enum ColorErr {
    BadHex,
    BadLength(Seq<char>),
    Unknown(Seq<char>),
}

pub open spec fn color_err_v(e: ColorError) -> ColorErr {
    match e {
        ColorError::BadHex => ColorErr::BadHex,
        ColorError::BadLength(s) => ColorErr::BadLength(s@),
        ColorError::Unknown(s) => ColorErr::Unknown(s@),
    }
}

pub open spec fn color_result_v(r: Result<Color, ColorError>) -> Result<Color, ColorErr> {
    match r {
        Ok(c) => Ok(c),
        Err(e) => Err(color_err_v(e)),
    }
}

/// The color a name stands for, once lowercased with `-` and `_` removed.
/// `white` is the dim `Grey` and `brightwhite` the bright `White`, as in
/// the ANSI palette.
pub open spec fn named_color(k: Seq<char>) -> Option<Color> {
    if k == "black"@ {
        Some(Color::Black)
    } else if k == "red"@ {
        Some(Color::DarkRed)
    } else if k == "green"@ {
        Some(Color::DarkGreen)
    } else if k == "yellow"@ {
        Some(Color::DarkYellow)
    } else if k == "blue"@ {
        Some(Color::DarkBlue)
    } else if k == "magenta"@ || k == "purple"@ {
        Some(Color::DarkMagenta)
    } else if k == "cyan"@ {
        Some(Color::DarkCyan)
    } else if k == "white"@ || k == "grey"@ || k == "gray"@ {
        Some(Color::Grey)
    } else if k == "brightblack"@ || k == "darkgrey"@ || k == "darkgray"@ {
        Some(Color::DarkGrey)
    } else if k == "brightred"@ {
        Some(Color::Red)
    } else if k == "brightgreen"@ {
        Some(Color::Green)
    } else if k == "brightyellow"@ {
        Some(Color::Yellow)
    } else if k == "brightblue"@ {
        Some(Color::Blue)
    } else if k == "brightmagenta"@ {
        Some(Color::Magenta)
    } else if k == "brightcyan"@ {
        Some(Color::Cyan)
    } else if k == "brightwhite"@ {
        Some(Color::White)
    } else if k == "reset"@ || k == "default"@ || k == "none"@ {
        Some(Color::Reset)
    } else {
        None
    }
}

/// `s` lowercased, with `-` and `_` removed.
pub open spec fn squeeze(s: Seq<char>) -> Seq<char>
    decreases s.len(),
{
    if s.len() == 0 {
        Seq::empty()
    } else {
        let rest = squeeze(s.drop_last());
        let c = s.last();
        if c == '-' || c == '_' {
            rest
        } else {
            rest.push(lower(c))
        }
    }
}

/// The color `#rgb` spells, from the value of its three hex digits.
pub open spec fn short_rgb(v: nat) -> Color {
    Color::Rgb {
        r: ((v / 256) % 16 * 17) as u8,
        g: ((v / 16) % 16 * 17) as u8,
        b: (v % 16 * 17) as u8,
    }
}

/// The color `#rrggbb` spells, from the value of its six hex digits.
pub open spec fn long_rgb(v: nat) -> Color {
    Color::Rgb { r: ((v / 65536) % 256) as u8, g: ((v / 256) % 256) as u8, b: (v % 256) as u8 }
}

/// The value of the hex digits after a `#`: digits only, no sign.
pub open spec fn hex_digits_value(hex: Seq<char>) -> Option<u32> {
    if hex.len() > 0 && hex[0] == '+' { None } else { parse_u32(hex, 16) }
}

/// What [`parse_color`] makes of `s`.
pub open spec fn color_parse(s: Seq<char>) -> Result<Color, ColorErr> {
    let t = trim(s);
    if t.len() >= 1 && t[0] == '#' {
        let hex = t.drop_first();
        if byte_len(hex) == 3 {
            match hex_digits_value(hex) {
                Some(v) => Ok(short_rgb(v as nat)),
                None => Err(ColorErr::BadHex),
            }
        } else if byte_len(hex) == 6 {
            match hex_digits_value(hex) {
                Some(v) => Ok(long_rgb(v as nat)),
                None => Err(ColorErr::BadHex),
            }
        } else {
            Err(ColorErr::BadLength(t))
        }
    } else {
        match parse_u32(t, 10) {
            Some(v) if v <= 255 => Ok(Color::AnsiValue(v as u8)),
            _ => match named_color(squeeze(t)) {
                Some(c) => Ok(c),
                None => Err(ColorErr::Unknown(t)),
            },
        }
    }
}

fn named_color_exec(k: &Vec<char>) -> (r: Option<Color>)
    ensures
        r == named_color(k@),
{
    let n = k.len();
    proof {
        assert(k@.subrange(0, n as int) =~= k@);
    }
    if eq_at(k, 0, n, "black") {
        Some(Color::Black)
    } else if eq_at(k, 0, n, "red") {
        Some(Color::DarkRed)
    } else if eq_at(k, 0, n, "green") {
        Some(Color::DarkGreen)
    } else if eq_at(k, 0, n, "yellow") {
        Some(Color::DarkYellow)
    } else if eq_at(k, 0, n, "blue") {
        Some(Color::DarkBlue)
    } else if eq_at(k, 0, n, "magenta") || eq_at(k, 0, n, "purple") {
        Some(Color::DarkMagenta)
    } else if eq_at(k, 0, n, "cyan") {
        Some(Color::DarkCyan)
    } else if eq_at(k, 0, n, "white") || eq_at(k, 0, n, "grey") || eq_at(k, 0, n, "gray") {
        Some(Color::Grey)
    } else if eq_at(k, 0, n, "brightblack") || eq_at(k, 0, n, "darkgrey") || eq_at(
        k,
        0,
        n,
        "darkgray",
    ) {
        Some(Color::DarkGrey)
    } else if eq_at(k, 0, n, "brightred") {
        Some(Color::Red)
    } else if eq_at(k, 0, n, "brightgreen") {
        Some(Color::Green)
    } else if eq_at(k, 0, n, "brightyellow") {
        Some(Color::Yellow)
    } else if eq_at(k, 0, n, "brightblue") {
        Some(Color::Blue)
    } else if eq_at(k, 0, n, "brightmagenta") {
        Some(Color::Magenta)
    } else if eq_at(k, 0, n, "brightcyan") {
        Some(Color::Cyan)
    } else if eq_at(k, 0, n, "brightwhite") {
        Some(Color::White)
    } else if eq_at(k, 0, n, "reset") || eq_at(k, 0, n, "default") || eq_at(k, 0, n, "none") {
        Some(Color::Reset)
    } else {
        None
    }
}

/// `v[lo..hi]` squeezed.
fn squeeze_exec(v: &Vec<char>, lo: usize, hi: usize) -> (r: Vec<char>)
    requires
        lo <= hi <= v@.len(),
    ensures
        r@ == squeeze(v@.subrange(lo as int, hi as int)),
{
    let mut out: Vec<char> = Vec::new();
    let mut i = lo;
    proof {
        assert(v@.subrange(lo as int, lo as int) =~= Seq::<char>::empty());
    }
    while i < hi
        invariant
            lo <= i <= hi <= v@.len(),
            out@ == squeeze(v@.subrange(lo as int, i as int)),
        decreases hi - i,
    {
        proof {
            assert(v@.subrange(lo as int, i + 1).drop_last() =~= v@.subrange(lo as int, i as int));
        }
        let c = v[i];
        if c != '-' && c != '_' {
            out.push(lower_char(c));
        }
        i = i + 1;
    }
    out
}

/// Parses `#rrggbb`, `#rgb`, a 0-255 palette index, or a named ANSI color,
/// ignoring surrounding whitespace and, in a name, case, `-` and `_`.
pub fn parse_color(s: &str) -> (r: Result<Color, ColorError>)
    ensures
        color_result_v(r) == color_parse(s@),
{
    let v = chars_of(s);
    let offs = byte_offsets(s, &v);
    let (a, b) = trim_range(&v, 0, v.len());
    proof {
        assert(v@.subrange(0, v@.len() as int) =~= v@);
    }
    let ghost t = v@.subrange(a as int, b as int);
    if a < b && v[a] == '#' {
        let h = a + 1;
        proof {
            assert(t.drop_first() =~= v@.subrange(h as int, b as int));
            lemma_byte_len_prefix(v@.take(b as int), h as int);
            assert(v@.take(b as int).take(h as int) =~= v@.take(h as int));
            assert(v@.take(b as int).subrange(h as int, b as int) =~= v@.subrange(h as int, b as int));
            lemma_byte_len_prefix(v@, b as int);
            assert(offs@[b as int] >= offs@[h as int]);
        }
        let nbytes = offs[b] - offs[h];
        if nbytes == 3 {
            if v[h] == '+' {
                return Err(ColorError::BadHex);
            }
            match parse_u32_at(&v, h, b, 16) {
                Some(x) => Ok(Color::Rgb {
                    r: ((x / 256) % 16 * 17) as u8,
                    g: ((x / 16) % 16 * 17) as u8,
                    b: (x % 16 * 17) as u8,
                }),
                None => Err(ColorError::BadHex),
            }
        } else if nbytes == 6 {
            if v[h] == '+' {
                return Err(ColorError::BadHex);
            }
            match parse_u32_at(&v, h, b, 16) {
                Some(x) => Ok(Color::Rgb {
                    r: ((x / 65536) % 256) as u8,
                    g: ((x / 256) % 256) as u8,
                    b: (x % 256) as u8,
                }),
                None => Err(ColorError::BadHex),
            }
        } else {
            Err(ColorError::BadLength(string_of(&v, a, b)))
        }
    } else {
        match parse_u32_at(&v, a, b, 10) {
            Some(x) if x <= 255 => Ok(Color::AnsiValue(x as u8)),
            _ => {
                let k = squeeze_exec(&v, a, b);
                match named_color_exec(&k) {
                    Some(c) => Ok(c),
                    None => Err(ColorError::Unknown(string_of(&v, a, b))),
                }
            },
        }
    }
}

// ---------------------------------------------------------------------------
// Writing colors back
// ---------------------------------------------------------------------------

/// The lowercase hex digit for `d`.
pub open spec fn hex_char(d: nat) -> char {
    if d < 10 {
        (48 + d) as char
    } else {
        (87 + d) as char
    }
}

/// The decimal digit for `d`.
pub open spec fn dec_char(d: nat) -> char {
    (48 + d) as char
}

/// `n` in decimal, without leading zeros.
pub open spec fn dec_text(n: u8) -> Seq<char> {
    if n < 10 {
        seq![dec_char(n as nat)]
    } else if n < 100 {
        seq![dec_char((n / 10) as nat), dec_char((n % 10) as nat)]
    } else {
        seq![dec_char((n / 100) as nat), dec_char(((n / 10) % 10) as nat), dec_char((n % 10) as nat)]
    }
}

/// How [`color_toml`] writes `c`.
pub open spec fn color_text(c: Color) -> Seq<char> {
    match c {
        Color::Rgb { r, g, b } => seq![
            '#',
            hex_char((r / 16) as nat),
            hex_char((r % 16) as nat),
            hex_char((g / 16) as nat),
            hex_char((g % 16) as nat),
            hex_char((b / 16) as nat),
            hex_char((b % 16) as nat),
        ],
        Color::AnsiValue(n) => dec_text(n),
        Color::Black => "black"@,
        Color::DarkRed => "red"@,
        Color::DarkGreen => "green"@,
        Color::DarkYellow => "yellow"@,
        Color::DarkBlue => "blue"@,
        Color::DarkMagenta => "magenta"@,
        Color::DarkCyan => "cyan"@,
        Color::Grey => "white"@,
        Color::DarkGrey => "brightblack"@,
        Color::Red => "brightred"@,
        Color::Green => "brightgreen"@,
        Color::Yellow => "brightyellow"@,
        Color::Blue => "brightblue"@,
        Color::Magenta => "brightmagenta"@,
        Color::Cyan => "brightcyan"@,
        Color::White => "brightwhite"@,
        Color::Reset => "reset"@,
    }
}

fn hex_digit(d: u8) -> (r: char)
    requires
        d < 16,
    ensures
        r == hex_char(d as nat),
{
    if d < 10 {
        (48u8 + d) as char
    } else {
        (87u8 + d) as char
    }
}

fn dec_digit(d: u8) -> (r: char)
    requires
        d < 10,
    ensures
        r == dec_char(d as nat),
{
    (48u8 + d) as char
}

/// Writes a color back in a form [`parse_color`] reads: `#rrggbb` in
/// lowercase, a palette index in decimal, or the name the parser maps to
/// that color.
pub fn color_toml(c: Color) -> (r: String)
    ensures
        r@ == color_text(c),
{
    let mut out = String::new();
    match c {
        Color::Rgb { r, g, b } => {
            push_char(&mut out, '#');
            push_char(&mut out, hex_digit(r / 16));
            push_char(&mut out, hex_digit(r % 16));
            push_char(&mut out, hex_digit(g / 16));
            push_char(&mut out, hex_digit(g % 16));
            push_char(&mut out, hex_digit(b / 16));
            push_char(&mut out, hex_digit(b % 16));
            proof {
                assert(out@ =~= color_text(c));
            }
        },
        Color::AnsiValue(n) => {
            if n >= 100 {
                push_char(&mut out, dec_digit(n / 100));
                push_char(&mut out, dec_digit((n / 10) % 10));
            } else if n >= 10 {
                push_char(&mut out, dec_digit(n / 10));
            }
            push_char(&mut out, dec_digit(n % 10));
            proof {
                assert(out@ =~= color_text(c));
            }
        },
        Color::Black => push_str(&mut out, "black"),
        Color::DarkRed => push_str(&mut out, "red"),
        Color::DarkGreen => push_str(&mut out, "green"),
        Color::DarkYellow => push_str(&mut out, "yellow"),
        Color::DarkBlue => push_str(&mut out, "blue"),
        Color::DarkMagenta => push_str(&mut out, "magenta"),
        Color::DarkCyan => push_str(&mut out, "cyan"),
        Color::Grey => push_str(&mut out, "white"),
        Color::DarkGrey => push_str(&mut out, "brightblack"),
        Color::Red => push_str(&mut out, "brightred"),
        Color::Green => push_str(&mut out, "brightgreen"),
        Color::Yellow => push_str(&mut out, "brightyellow"),
        Color::Blue => push_str(&mut out, "brightblue"),
        Color::Magenta => push_str(&mut out, "brightmagenta"),
        Color::Cyan => push_str(&mut out, "brightcyan"),
        Color::White => push_str(&mut out, "brightwhite"),
        Color::Reset => push_str(&mut out, "reset"),
    }
    proof {
        assert(Seq::<char>::empty() + color_text(c) =~= color_text(c));
    }
    out
}

} // verus!

verus! {

proof fn lemma_trim_id(s: Seq<char>)
    requires
        s.len() > 0,
        !is_ws(s[0]),
        !is_ws(s.last()),
    ensures
        trim(s) == s,
{
}

proof fn lemma_squeeze_letters(s: Seq<char>)
    requires
        forall|i: int| 0 <= i < s.len() ==> 'a' <= #[trigger] s[i] && s[i] <= 'z',
    ensures
        squeeze(s) == s,
    decreases s.len(),
{
    if s.len() > 0 {
        lemma_squeeze_letters(s.drop_last());
        assert(squeeze(s) =~= s);
    }
}

proof fn lemma_digits_letters(s: Seq<char>)
    requires
        s.len() > 0,
        'a' <= s.last() && s.last() <= 'z',
    ensures
        parse_u32(s, 10) is None,
{
    if s[0] == '+' {
        assert(s.drop_first().last() == s.last());
    }
}

/// A name made of lowercase letters reads back as the color it names.
proof fn lemma_named_round_trip(s: Seq<char>, c: Color)
    requires
        s.len() > 0,
        forall|i: int| 0 <= i < s.len() ==> 'a' <= #[trigger] s[i] && s[i] <= 'z',
        named_color(s) == Some(c),
    ensures
        color_parse(s) == Ok::<Color, ColorErr>(c),
{
    assert('a' <= s[0] && s[0] <= 'z');
    assert('a' <= s[s.len() - 1] && s[s.len() - 1] <= 'z');
    lemma_trim_id(s);
    lemma_digits_letters(s);
    lemma_squeeze_letters(s);
}

proof fn lemma_hex_char(d: nat)
    requires
        d < 16,
    ensures
        crate::html::digit_value(hex_char(d), 16) == Some(d),
        hex_char(d) as u32 <= 0x7f,
        !is_ws(hex_char(d)),
        hex_char(d) != '+',
{
    if d < 10 {
        assert(hex_char(d) as u32 == 48 + d);
    } else {
        assert(hex_char(d) as u32 == 87 + d);
    }
}

proof fn lemma_dec_char(d: nat)
    requires
        d < 10,
    ensures
        crate::html::digit_value(dec_char(d), 10) == Some(d),
        !is_ws(dec_char(d)),
        dec_char(d) != '+',
        dec_char(d) != '#',
{
    assert(dec_char(d) as u32 == 48 + d);
}

proof fn lemma_six_hex(a: nat, b: nat, c: nat, d: nat, e: nat, f: nat)
    requires
        a < 16,
        b < 16,
        c < 16,
        d < 16,
        e < 16,
        f < 16,
    ensures
        ({
            let v = ((((a * 16 + b) * 16 + c) * 16 + d) * 16 + e) * 16 + f;
            &&& v <= u32::MAX
            &&& (v / 65536) % 256 == a * 16 + b
            &&& (v / 256) % 256 == c * 16 + d
            &&& v % 256 == e * 16 + f
        }),
{
    let v = ((((a * 16 + b) * 16 + c) * 16 + d) * 16 + e) * 16 + f;
    assert(v == (a * 16 + b) * 65536 + (c * 16 + d) * 256 + (e * 16 + f)) by (nonlinear_arith)
        requires
            v == ((((a * 16 + b) * 16 + c) * 16 + d) * 16 + e) * 16 + f,
    ;
    assert(v <= u32::MAX) by (nonlinear_arith)
        requires
            v == (a * 16 + b) * 65536 + (c * 16 + d) * 256 + (e * 16 + f),
            a < 16,
            b < 16,
            c < 16,
            d < 16,
            e < 16,
            f < 16,
    ;
    let hi = a * 16 + b;
    let mid = c * 16 + d;
    let lo = e * 16 + f;
    assert(hi < 256 && mid < 256 && lo < 256) by (nonlinear_arith)
        requires
            a < 16,
            b < 16,
            c < 16,
            d < 16,
            e < 16,
            f < 16,
            hi == a * 16 + b,
            mid == c * 16 + d,
            lo == e * 16 + f,
    ;
    assert(v / 65536 == hi && (v / 256) % 256 == mid && v % 256 == lo) by (nonlinear_arith)
        requires
            v == hi * 65536 + mid * 256 + lo,
            hi < 256,
            mid < 256,
            lo < 256,
    ;
}

#[verifier::rlimit(100)]
#[verifier::spinoff_prover]
proof fn lemma_rgb_round_trip(r: u8, g: u8, b: u8)
    ensures
        color_parse(color_text(Color::Rgb { r, g, b })) == Ok::<Color, ColorErr>(Color::Rgb { r, g, b }),
{
    let c = Color::Rgb { r, g, b };
    let s = color_text(c);
    let (a1, a2, b1, b2, c1, c2) = (
        (r / 16) as nat,
        (r % 16) as nat,
        (g / 16) as nat,
        (g % 16) as nat,
        (b / 16) as nat,
        (b % 16) as nat,
    );
    lemma_hex_char(a1);
    lemma_hex_char(a2);
    lemma_hex_char(b1);
    lemma_hex_char(b2);
    lemma_hex_char(c1);
    lemma_hex_char(c2);
    lemma_trim_id(s);
    let hex = s.drop_first();
    assert(hex =~= seq![hex_char(a1), hex_char(a2), hex_char(b1), hex_char(b2), hex_char(c1), hex_char(c2)]);
    reveal_with_fuel(byte_len, 7);
    assert(byte_len(hex) == 6);
    reveal_with_fuel(crate::html::digits_value, 7);
    lemma_six_hex(a1, a2, b1, b2, c1, c2);
}

#[verifier::rlimit(100)]
#[verifier::spinoff_prover]
proof fn lemma_ansi_round_trip(n: u8)
    ensures
        color_parse(color_text(Color::AnsiValue(n))) == Ok::<Color, ColorErr>(Color::AnsiValue(n)),
{
    let s = color_text(Color::AnsiValue(n));
    if n < 10 {
        lemma_dec_char(n as nat);
    } else if n < 100 {
        lemma_dec_char((n / 10) as nat);
        lemma_dec_char((n % 10) as nat);
    } else {
        lemma_dec_char((n / 100) as nat);
        lemma_dec_char(((n / 10) % 10) as nat);
        lemma_dec_char((n % 10) as nat);
    }
    lemma_trim_id(s);
    reveal_with_fuel(crate::html::digits_value, 4);
}

#[verifier::rlimit(100)]
#[verifier::spinoff_prover]
proof fn lemma_name_round_trip(c: Color)
    requires
        !(c is Rgb),
        !(c is AnsiValue),
    ensures
        color_parse(color_text(c)) == Ok::<Color, ColorErr>(c),
{
    reveal_strlit("black");
    reveal_strlit("red");
    reveal_strlit("green");
    reveal_strlit("yellow");
    reveal_strlit("blue");
    reveal_strlit("magenta");
    reveal_strlit("purple");
    reveal_strlit("cyan");
    reveal_strlit("white");
    reveal_strlit("grey");
    reveal_strlit("gray");
    reveal_strlit("brightblack");
    reveal_strlit("darkgrey");
    reveal_strlit("darkgray");
    reveal_strlit("brightred");
    reveal_strlit("brightgreen");
    reveal_strlit("brightyellow");
    reveal_strlit("brightblue");
    reveal_strlit("brightmagenta");
    reveal_strlit("brightcyan");
    reveal_strlit("brightwhite");
    reveal_strlit("reset");
    reveal_strlit("default");
    reveal_strlit("none");
    lemma_named_round_trip(color_text(c), c);
}

/// A color written by [`color_toml`] reads back as itself through
/// [`parse_color`]: every variant, including the two named pairs that are
/// off by a shade (`white` is `Grey` and `brightwhite` is `White`).
pub proof fn lemma_color_round_trip(c: Color)
    ensures
        color_parse(color_text(c)) == Ok::<Color, ColorErr>(c),
{
    match c {
        Color::Rgb { r, g, b } => lemma_rgb_round_trip(r, g, b),
        Color::AnsiValue(n) => lemma_ansi_round_trip(n),
        _ => lemma_name_round_trip(c),
    }
}

/// The name a colour word is an alias of: `purple` of `magenta`, `grey`
/// and `gray` of `white`, `darkgrey` and `darkgray` of `brightblack`,
/// `default` and `none` of `reset`; any other word is its own name.
pub open spec fn canonical_color_name(k: Seq<char>) -> Seq<char> {
    if k == "purple"@ {
        "magenta"@
    } else if k == "grey"@ || k == "gray"@ {
        "white"@
    } else if k == "darkgrey"@ || k == "darkgray"@ {
        "brightblack"@
    } else if k == "default"@ || k == "none"@ {
        "reset"@
    } else {
        k
    }
}

/// An alias names exactly the colour its canonical name does, and every
/// alias names a colour.
pub proof fn law_color_aliases_agree(k: Seq<char>)
    ensures
        named_color(k) == named_color(canonical_color_name(k)),
        canonical_color_name(k) != k ==> named_color(k) is Some,
{
    lemma_color_words();
    lemma_magenta_color();
    lemma_white_color();
    lemma_brightblack_color();
    lemma_reset_color();
}

/// The colour words, spelled out for the prover.
proof fn lemma_color_words()
    ensures
        "black"@.len() == 5 && "black"@[0] == 'b',
        "red"@.len() == 3 && "red"@[0] == 'r',
        "green"@.len() == 5 && "green"@[0] == 'g',
        "yellow"@.len() == 6 && "yellow"@[0] == 'y',
        "blue"@.len() == 4 && "blue"@[0] == 'b',
        "magenta"@.len() == 7 && "magenta"@[0] == 'm',
        "purple"@.len() == 6 && "purple"@[0] == 'p',
        "cyan"@.len() == 4 && "cyan"@[0] == 'c',
        "white"@.len() == 5 && "white"@[0] == 'w',
        "grey"@.len() == 4 && "grey"@[0] == 'g',
        "gray"@.len() == 4 && "gray"@[0] == 'g',
        "brightblack"@.len() == 11 && "brightblack"@[0] == 'b',
        "darkgrey"@.len() == 8 && "darkgrey"@[0] == 'd',
        "darkgray"@.len() == 8 && "darkgray"@[0] == 'd',
        "brightred"@.len() == 9 && "brightred"@[0] == 'b',
        "brightgreen"@.len() == 11 && "brightgreen"@[0] == 'b',
        "brightyellow"@.len() == 12 && "brightyellow"@[0] == 'b',
        "brightblue"@.len() == 10 && "brightblue"@[0] == 'b',
        "brightmagenta"@.len() == 13 && "brightmagenta"@[0] == 'b',
        "brightcyan"@.len() == 10 && "brightcyan"@[0] == 'b',
        "brightwhite"@.len() == 11 && "brightwhite"@[0] == 'b',
        "reset"@.len() == 5 && "reset"@[0] == 'r',
        "default"@.len() == 7 && "default"@[0] == 'd',
        "none"@.len() == 4 && "none"@[0] == 'n',
{
    reveal_strlit("black");
    reveal_strlit("red");
    reveal_strlit("green");
    reveal_strlit("yellow");
    reveal_strlit("blue");
    reveal_strlit("magenta");
    reveal_strlit("purple");
    reveal_strlit("cyan");
    reveal_strlit("white");
    reveal_strlit("grey");
    reveal_strlit("gray");
    reveal_strlit("brightblack");
    reveal_strlit("darkgrey");
    reveal_strlit("darkgray");
    reveal_strlit("brightred");
    reveal_strlit("brightgreen");
    reveal_strlit("brightyellow");
    reveal_strlit("brightblue");
    reveal_strlit("brightmagenta");
    reveal_strlit("brightcyan");
    reveal_strlit("brightwhite");
    reveal_strlit("reset");
    reveal_strlit("default");
    reveal_strlit("none");
}

proof fn lemma_magenta_color()
    ensures
        named_color("magenta"@) == Some(Color::DarkMagenta),
{
    lemma_color_words();
}

proof fn lemma_white_color()
    ensures
        named_color("white"@) == Some(Color::Grey),
{
    lemma_color_words();
}

proof fn lemma_brightblack_color()
    ensures
        named_color("brightblack"@) == Some(Color::DarkGrey),
{
    lemma_color_words();
}

proof fn lemma_reset_color()
    ensures
        named_color("reset"@) == Some(Color::Reset),
{
    lemma_color_words();
}


} // verus!

verus! {

/// A partial style as written in a theme: `{ fg = "#8be9fd", underline = true }`.
#[derive(Debug, Clone, Default)]
pub struct StyleSpec {
    pub fg: Option<String>,
    pub bg: Option<String>,
    pub bold: bool,
    pub italic: bool,
    pub underline: bool,
    pub strikethrough: bool,
    pub dim: bool,
    pub reverse: bool,
}

/// A heading decoration as written: `border = true`, `border = false`, or
/// `border = "#6272a4"`.
#[derive(Debug, Clone)]
pub enum DecorSpec {
    /// Draw it, or do not. Drawn without a color of its own, it takes the
    /// heading's, dimmed.
    On(bool),
    Color(String),
}

/// A heading's style, plus the two decorations only a heading has.
#[derive(Debug, Clone, Default)]
pub struct HeadingSpec {
    pub fg: Option<String>,
    pub bg: Option<String>,
    pub bold: bool,
    pub italic: bool,
    pub underline: bool,
    pub strikethrough: bool,
    pub dim: bool,
    pub reverse: bool,
    /// A rule under the heading.
    pub border: Option<DecorSpec>,
    /// A bar down its left side.
    pub bar: Option<DecorSpec>,
}

/// A decoration that is drawn, and the color to draw it in; `None` means
/// the heading's own color, dimmed.
#[derive(Debug, Clone, Copy, PartialEq, Eq, Structural)]
pub struct Decoration {
    pub color: Option<Color>,
}

/// An optional color field, parsed.
pub open spec fn opt_color(s: Option<String>) -> Result<Option<Color>, ColorErr> {
    match s {
        None => Ok(None),
        Some(t) => match color_parse(t@) {
            Ok(c) => Ok(Some(c)),
            Err(e) => Err(e),
        },
    }
}

/// The style a spec resolves to: its colors parsed, the foreground first.
pub open spec fn resolved(spec: StyleSpec) -> Result<Style, ColorErr> {
    match opt_color(spec.fg) {
        Err(e) => Err(e),
        Ok(fg) => match opt_color(spec.bg) {
            Err(e) => Err(e),
            Ok(bg) => Ok(
                Style {
                    fg,
                    bg,
                    bold: spec.bold,
                    italic: spec.italic,
                    underline: spec.underline,
                    strikethrough: spec.strikethrough,
                    dim: spec.dim,
                    reverse: spec.reverse,
                },
            ),
        },
    }
}

fn parse_opt_color(s: &Option<String>) -> (r: Result<Option<Color>, ColorError>)
    ensures
        match r {
            Ok(c) => opt_color(*s) == Ok::<Option<Color>, ColorErr>(c),
            Err(e) => opt_color(*s) == Err::<Option<Color>, ColorErr>(color_err_v(e)),
        },
{
    match s {
        None => Ok(None),
        Some(t) => match parse_color(t.as_str()) {
            Ok(c) => Ok(Some(c)),
            Err(e) => Err(e),
        },
    }
}

impl StyleSpec {
    /// The style this spec describes, or the first color that does not parse.
    pub fn resolve(&self) -> (r: Result<Style, ColorError>)
        ensures
            match r {
                Ok(st) => resolved(*self) == Ok::<Style, ColorErr>(st),
                Err(e) => resolved(*self) == Err::<Style, ColorErr>(color_err_v(e)),
            },
    {
        let fg = match parse_opt_color(&self.fg) {
            Ok(c) => c,
            Err(e) => return Err(e),
        };
        let bg = match parse_opt_color(&self.bg) {
            Ok(c) => c,
            Err(e) => return Err(e),
        };
        Ok(
            Style {
                fg,
                bg,
                bold: self.bold,
                italic: self.italic,
                underline: self.underline,
                strikethrough: self.strikethrough,
                dim: self.dim,
                reverse: self.reverse,
            },
        )
    }
}

fn clone_opt(s: &Option<String>) -> (r: Option<String>)
    ensures
        r == *s,
{
    match s {
        Some(t) => Some(t.clone()),
        None => None,
    }
}

impl HeadingSpec {
    /// The style part of a heading spec.
    pub fn style(&self) -> (r: StyleSpec)
        ensures
            r.fg == self.fg,
            r.bg == self.bg,
            r.bold == self.bold,
            r.italic == self.italic,
            r.underline == self.underline,
            r.strikethrough == self.strikethrough,
            r.dim == self.dim,
            r.reverse == self.reverse,
    {
        StyleSpec {
            fg: clone_opt(&self.fg),
            bg: clone_opt(&self.bg),
            bold: self.bold,
            italic: self.italic,
            underline: self.underline,
            strikethrough: self.strikethrough,
            dim: self.dim,
            reverse: self.reverse,
        }
    }
}

/// What a decoration spec makes of the current decoration: nothing written
/// keeps it, `false` removes it, `true` draws it in the heading's color, and
/// a color draws it in that color.
pub open spec fn decorated(spec: Option<DecorSpec>, current: Option<Decoration>) -> Result<
    Option<Decoration>,
    ColorErr,
> {
    match spec {
        None => Ok(current),
        Some(DecorSpec::On(false)) => Ok(None),
        Some(DecorSpec::On(true)) => Ok(Some(Decoration { color: None })),
        Some(DecorSpec::Color(s)) => match color_parse(s@) {
            Ok(c) => Ok(Some(Decoration { color: Some(c) })),
            Err(e) => Err(e),
        },
    }
}

/// Applies a decoration spec to the current decoration.
pub fn decoration(spec: Option<&DecorSpec>, current: Option<Decoration>) -> (r: Result<
    Option<Decoration>,
    ColorError,
>)
    ensures
        match r {
            Ok(d) => decorated(
                match spec {
                    Some(x) => Some(*x),
                    None => None,
                },
                current,
            ) == Ok::<Option<Decoration>, ColorErr>(d),
            Err(e) => decorated(
                match spec {
                    Some(x) => Some(*x),
                    None => None,
                },
                current,
            ) == Err::<Option<Decoration>, ColorErr>(color_err_v(e)),
        },
{
    match spec {
        None => Ok(current),
        Some(DecorSpec::On(false)) => Ok(None),
        Some(DecorSpec::On(true)) => Ok(Some(Decoration { color: None })),
        Some(DecorSpec::Color(s)) => match parse_color(s.as_str()) {
            Ok(c) => Ok(Some(Decoration { color: Some(c) })),
            Err(e) => Err(e),
        },
    }
}

} // verus!

verus! {

/// The resolved palette handed to the parser and the renderer.
#[derive(Debug, Clone, PartialEq)]
pub struct Theme {
    pub name: String,
    pub foreground: Option<Color>,
    pub background: Option<Color>,
    pub syntect_theme: String,
    pub headings: [Style; 6],
    /// A rule under each heading level, or `None` where none is drawn.
    pub heading_border: [Option<Decoration>; 6],
    /// A bar down the left of each heading level.
    pub heading_bar: [Option<Decoration>; 6],
    pub link: Style,
    pub code: Style,
    pub emph: Style,
    pub strong: Style,
    pub strikethrough: Style,
    pub footnote: Style,
    pub quote_bar: Style,
    pub quote: Style,
    pub rule: Style,
    pub list_marker: Style,
    pub task_done: Style,
    pub task_todo: Style,
    pub code_fence: Style,
    pub table_border: Style,
    pub table_header: Style,
    pub alerts: [Style; 5],
    pub status: Style,
    pub toast: Style,
    pub cursor: Style,
    pub search_match: Style,
    pub search_current: Style,
    pub hint: Style,
    pub dim: Style,
}

/// The theme used when none is named.
pub const DEFAULT_THEME: &'static str = "terminal";

/// A style with only the given attributes set.
pub open spec fn attrs(bold: bool, italic: bool, underline: bool, strike: bool, dim: bool, reverse: bool) -> Style {
    Style {
        fg: None,
        bg: None,
        bold,
        italic,
        underline,
        strikethrough: strike,
        dim,
        reverse,
    }
}

fn attrs_exec(bold: bool, italic: bool, underline: bool, strike: bool, dim: bool, reverse: bool) -> (r: Style)
    ensures
        r == attrs(bold, italic, underline, strike, dim, reverse),
{
    Style { fg: None, bg: None, bold, italic, underline, strikethrough: strike, dim, reverse }
}

/// The `terminal` fallback: no colours of its own, so the terminal's show.
pub open spec fn default_theme_ok(t: Theme) -> bool {
    let plain = attrs(false, false, false, false, false, false);
    let bold = attrs(true, false, false, false, false, false);
    let rev = attrs(false, false, false, false, false, true);
    &&& t.name@ == DEFAULT_THEME@
    &&& t.foreground is None
    &&& t.background is None
    &&& t.syntect_theme@ == "base16-ocean.dark"@
    &&& t.headings@ == seq![bold, bold, bold, bold, bold, bold]
    &&& t.heading_border@ == seq![
        Some(Decoration { color: None }),
        Some(Decoration { color: None }),
        None,
        None,
        None,
        None,
    ]
    &&& t.heading_bar@ == seq![None::<Decoration>, None, None, None, None, None]
    &&& t.link == attrs(false, false, true, false, false, false)
    &&& t.code == plain
    &&& t.emph == attrs(false, true, false, false, false, false)
    &&& t.strong == bold
    &&& t.strikethrough == attrs(false, false, false, true, false, false)
    &&& t.footnote == plain
    &&& t.quote_bar == plain
    &&& t.quote == attrs(false, true, false, false, false, false)
    &&& t.rule == plain
    &&& t.list_marker == plain
    &&& t.task_done == plain
    &&& t.task_todo == plain
    &&& t.code_fence == attrs(false, false, false, false, true, false)
    &&& t.table_border == plain
    &&& t.table_header == bold
    &&& t.alerts@ == seq![bold, bold, bold, bold, bold]
    &&& t.status == rev
    &&& t.toast == rev
    &&& t.cursor == rev
    &&& t.search_match == rev
    &&& t.search_current == attrs(true, false, false, false, false, true)
    &&& t.hint == attrs(true, false, false, false, false, true)
    &&& t.dim == attrs(false, false, false, false, true, false)
}

impl Default for Theme {
    /// The `terminal` fallback: no background, inheriting whatever the
    /// terminal already uses. Only the two levels drawn large carry a rule,
    /// the pair GitHub borders.
    fn default() -> (r: Theme)
        ensures
            default_theme_ok(r),
    {
        let plain = attrs_exec(false, false, false, false, false, false);
        let bold = attrs_exec(true, false, false, false, false, false);
        let rev = attrs_exec(false, false, false, false, false, true);
        let t = Theme {
            name: DEFAULT_THEME.to_owned(),
            foreground: None,
            background: None,
            syntect_theme: "base16-ocean.dark".to_owned(),
            headings: [bold, bold, bold, bold, bold, bold],
            heading_border: [
                Some(Decoration { color: None }),
                Some(Decoration { color: None }),
                None,
                None,
                None,
                None,
            ],
            heading_bar: [None, None, None, None, None, None],
            link: attrs_exec(false, false, true, false, false, false),
            code: plain,
            emph: attrs_exec(false, true, false, false, false, false),
            strong: bold,
            strikethrough: attrs_exec(false, false, false, true, false, false),
            footnote: plain,
            quote_bar: plain,
            quote: attrs_exec(false, true, false, false, false, false),
            rule: plain,
            list_marker: plain,
            task_done: plain,
            task_todo: plain,
            code_fence: attrs_exec(false, false, false, false, true, false),
            table_border: plain,
            table_header: bold,
            alerts: [bold, bold, bold, bold, bold],
            status: rev,
            toast: rev,
            cursor: rev,
            search_match: rev,
            search_current: attrs_exec(true, false, false, false, false, true),
            hint: attrs_exec(true, false, false, false, false, true),
            dim: attrs_exec(false, false, false, false, true, false),
        };
        proof {
            assert(t.headings@ =~= seq![bold, bold, bold, bold, bold, bold]);
            assert(t.heading_border@ =~= seq![
                Some(Decoration { color: None }),
                Some(Decoration { color: None }),
                None,
                None,
                None,
                None,
            ]);
            assert(t.heading_bar@ =~= seq![None::<Decoration>, None, None, None, None, None]);
            assert(t.alerts@ =~= seq![bold, bold, bold, bold, bold]);
        }
        t
    }
}

impl Theme {
    /// The style of a heading level, clamped to 1-6.
    pub fn heading(&self, level: u8) -> (r: Style)
        ensures
            r == self.headings@[(if level < 1 { 1 } else if level > 6 { 6 } else { level as int }) - 1],
    {
        let l = if level < 1 { 1 } else if level > 6 { 6 } else { level };
        self.headings[(l - 1) as usize]
    }

    /// The base style for body text; no foreground means the terminal's.
    pub fn body(&self) -> (r: Style)
        ensures
            r == (Style { fg: self.foreground, bg: self.background, ..Style::plain_spec() }),
    {
        Style { fg: self.foreground, bg: self.background, ..Style::plain() }
    }
}

} // verus!

verus! {

/// A theme file with its TOML already read: each section as its keys and
/// what they say, in the file's order.
#[derive(Debug, Clone, Default)]
pub struct ThemeFile {
    pub name: Option<String>,
    pub foreground: Option<String>,
    pub background: Option<String>,
    /// `[code] syntect_theme`, when it is a string.
    pub syntect_theme: Option<String>,
    /// `[code] fence`, when it is a style table.
    pub fence: Option<StyleSpec>,
    pub heading: Vec<(String, HeadingSpec)>,
    pub inline: Vec<(String, StyleSpec)>,
    pub block: Vec<(String, StyleSpec)>,
    pub table: Vec<(String, StyleSpec)>,
    pub alert: Vec<(String, StyleSpec)>,
    pub ui: Vec<(String, StyleSpec)>,
}

/// What the first entry called `k` in `m` says.
pub open spec fn find_spec<T>(m: Seq<(String, T)>, k: Seq<char>) -> Option<T>
    decreases m.len(),
{
    if m.len() == 0 {
        None
    } else if m[0].0@ == k {
        Some(m[0].1)
    } else {
        find_spec(m.drop_first(), k)
    }
}

fn find_entry<'a, T>(m: &'a Vec<(String, T)>, k: &str) -> (r: Option<&'a T>)
    ensures
        match r {
            Some(x) => find_spec(m@, k@) == Some(*x),
            None => find_spec(m@, k@) is None,
        },
{
    let mut i: usize = 0;
    proof {
        assert(m@.skip(0) =~= m@);
    }
    while i < m.len()
        invariant
            i <= m@.len(),
            find_spec(m@, k@) == find_spec(m@.skip(i as int), k@),
        decreases m@.len() - i,
    {
        proof {
            assert(m@.skip(i as int)[0] == m@[i as int]);
            assert(m@.skip(i as int).drop_first() =~= m@.skip(i + 1));
        }
        if crate::text::str_eq(m[i].0.as_str(), k) {
            return Some(&m[i].1);
        }
        i = i + 1;
    }
    proof {
        assert(m@.skip(i as int) =~= Seq::<(String, T)>::empty());
    }
    None
}

/// The error of a result, if it is one.
pub open spec fn err_of<T>(r: Result<T, ColorErr>) -> Option<ColorErr> {
    match r {
        Ok(_) => None,
        Err(e) => Some(e),
    }
}

/// The first of two errors.
pub open spec fn first_of(a: Option<ColorErr>, b: Option<ColorErr>) -> Option<ColorErr> {
    if a is Some {
        a
    } else {
        b
    }
}

/// The style part of a heading spec.
pub open spec fn heading_style(h: HeadingSpec) -> StyleSpec {
    StyleSpec {
        fg: h.fg,
        bg: h.bg,
        bold: h.bold,
        italic: h.italic,
        underline: h.underline,
        strikethrough: h.strikethrough,
        dim: h.dim,
        reverse: h.reverse,
    }
}

/// The error in an optional style, if any.
pub open spec fn style_err(s: Option<StyleSpec>) -> Option<ColorErr> {
    match s {
        Some(x) => err_of(resolved(x)),
        None => None,
    }
}

/// The error in a heading's spec: its style, then its border, then its bar.
pub open spec fn heading_err(h: Option<HeadingSpec>) -> Option<ColorErr> {
    match h {
        None => None,
        Some(h) => first_of(
            err_of(resolved(heading_style(h))),
            first_of(err_of(decorated(h.border, None)), err_of(decorated(h.bar, None))),
        ),
    }
}

/// `fallback`, with the style `spec` resolves to laid over it.
pub open spec fn patch_with(fallback: Style, spec: Option<StyleSpec>) -> Style {
    match spec {
        Some(s) => match resolved(s) {
            Ok(st) => crate::ir::patched(fallback, st),
            Err(_) => fallback,
        },
        None => fallback,
    }
}

/// A decoration as a heading spec leaves it.
pub open spec fn decor_with(current: Option<Decoration>, spec: Option<DecorSpec>) -> Option<Decoration> {
    match decorated(spec, current) {
        Ok(d) => d,
        Err(_) => current,
    }
}

/// The heading keys, `h1` to `h6`.
pub open spec fn heading_key(i: int) -> Seq<char> {
    if i == 0 {
        "h1"@
    } else if i == 1 {
        "h2"@
    } else if i == 2 {
        "h3"@
    } else if i == 3 {
        "h4"@
    } else if i == 4 {
        "h5"@
    } else {
        "h6"@
    }
}

/// The alert keys, in the order of a theme's alert styles.
pub open spec fn alert_key(i: int) -> Seq<char> {
    if i == 0 {
        "note"@
    } else if i == 1 {
        "tip"@
    } else if i == 2 {
        "important"@
    } else if i == 3 {
        "warning"@
    } else {
        "caution"@
    }
}

/// The spec of heading level `i + 1` in a theme file.
pub open spec fn heading_spec(f: ThemeFile, i: int) -> Option<HeadingSpec> {
    find_spec(f.heading@, heading_key(i))
}

/// The style spec of heading level `i + 1`.
pub open spec fn heading_style_spec(f: ThemeFile, i: int) -> Option<StyleSpec> {
    match heading_spec(f, i) {
        Some(h) => Some(heading_style(h)),
        None => None,
    }
}

/// The heading styles of levels 1 to `n`: level 1 over bold, each level
/// after that over the one before, so a theme giving only some levels
/// still styles the deeper ones.
pub open spec fn heading_styles(f: ThemeFile, n: nat) -> Seq<Style>
    decreases n,
{
    if n == 0 {
        Seq::empty()
    } else {
        let prev = heading_styles(f, (n - 1) as nat);
        let fallback = if n == 1 {
            attrs(true, false, false, false, false, false)
        } else {
            prev.last()
        };
        prev.push(patch_with(fallback, heading_style_spec(f, n - 1)))
    }
}

/// The errors among heading levels `i` to 6, first first.
pub open spec fn headings_err(f: ThemeFile, i: nat) -> Option<ColorErr>
    decreases 6 - i,
{
    if i >= 6 {
        None
    } else {
        first_of(heading_err(heading_spec(f, i as int)), headings_err(f, i + 1))
    }
}

/// The errors among the alert styles `i` to 5, first first.
pub open spec fn alerts_err(f: ThemeFile, i: nat) -> Option<ColorErr>
    decreases 5 - i,
{
    if i >= 5 {
        None
    } else {
        first_of(style_err(find_spec(f.alert@, alert_key(i as int))), alerts_err(f, i + 1))
    }
}

/// The first color among the foreground, background and code fence that
/// does not parse.
pub open spec fn base_err(f: ThemeFile) -> Option<ColorErr> {
    first_of(err_of(opt_color(f.foreground)), first_of(err_of(opt_color(f.background)), style_err(f.fence)))
}

/// The first inline style that does not parse.
pub open spec fn inline_err(f: ThemeFile) -> Option<ColorErr> {
    first_of(style_err(find_spec(f.inline@, "link"@)), first_of(style_err(find_spec(f.inline@, "code"@)), first_of(style_err(find_spec(f.inline@, "emph"@)), first_of(style_err(find_spec(f.inline@, "strong"@)), first_of(style_err(find_spec(f.inline@, "strikethrough"@)), style_err(find_spec(f.inline@, "footnote"@)))))))
}

/// The first block style that does not parse.
pub open spec fn block_err(f: ThemeFile) -> Option<ColorErr> {
    first_of(style_err(find_spec(f.block@, "quote_bar"@)), first_of(style_err(find_spec(f.block@, "quote"@)), first_of(style_err(find_spec(f.block@, "rule"@)), first_of(style_err(find_spec(f.block@, "list_marker"@)), first_of(style_err(find_spec(f.block@, "task_done"@)), style_err(find_spec(f.block@, "task_todo"@)))))))
}

/// The first table style that does not parse.
pub open spec fn table_err(f: ThemeFile) -> Option<ColorErr> {
    first_of(style_err(find_spec(f.table@, "border"@)), style_err(find_spec(f.table@, "header"@)))
}

/// The first inline, block or table style that does not parse.
pub open spec fn sections_err(f: ThemeFile) -> Option<ColorErr> {
    first_of(inline_err(f), first_of(block_err(f), table_err(f)))
}

/// The first interface style that does not parse.
pub open spec fn ui_err(f: ThemeFile) -> Option<ColorErr> {
    first_of(style_err(find_spec(f.ui@, "status"@)), first_of(style_err(find_spec(f.ui@, "toast"@)), first_of(style_err(find_spec(f.ui@, "cursor"@)), first_of(style_err(find_spec(f.ui@, "search_match"@)), first_of(style_err(find_spec(f.ui@, "search_current"@)), first_of(style_err(find_spec(f.ui@, "hint"@)), style_err(find_spec(f.ui@, "dim"@))))))))
}

/// The first color in a theme file that does not parse, in the order the
/// file is applied: foreground, background, code fence, each heading level
/// (style, border, bar), then the inline, block, table, alert and interface
/// styles.
pub open spec fn theme_errors(f: ThemeFile) -> Option<ColorErr> {
    first_of(base_err(f), first_of(headings_err(f, 0), first_of(sections_err(f), first_of(alerts_err(f, 0), ui_err(f)))))
}

/// What a theme file makes of the defaults, when every color in it parses.
pub open spec fn theme_fields_ok(f: ThemeFile, t: Theme) -> bool {
    let plain = attrs(false, false, false, false, false, false);
    let bold = attrs(true, false, false, false, false, false);
    let rev = attrs(false, false, false, false, false, true);
    let d = Theme::default_borders();
    &&& t.name@ == (match f.name {
        Some(n) => n@,
        None => DEFAULT_THEME@,
    })
    &&& Ok::<Option<Color>, ColorErr>(t.foreground) == opt_color(f.foreground)
    &&& Ok::<Option<Color>, ColorErr>(t.background) == opt_color(f.background)
    &&& t.syntect_theme@ == (match f.syntect_theme {
        Some(s) => s@,
        None => "base16-ocean.dark"@,
    })
    &&& t.code_fence == patch_with(attrs(false, false, false, false, true, false), f.fence)
    &&& t.headings@ == heading_styles(f, 6)
    &&& forall|i: int| 0 <= i < 6 ==> #[trigger] t.heading_border@[i] == decor_with(d[i], border_spec(f, i))
    &&& forall|i: int| 0 <= i < 6 ==> #[trigger] t.heading_bar@[i] == decor_with(None, bar_spec(f, i))
    &&& t.link == patch_with(attrs(false, false, true, false, false, false), find_spec(f.inline@, "link"@))
    &&& t.code == patch_with(plain, find_spec(f.inline@, "code"@))
    &&& t.emph == patch_with(attrs(false, true, false, false, false, false), find_spec(f.inline@, "emph"@))
    &&& t.strong == patch_with(bold, find_spec(f.inline@, "strong"@))
    &&& t.strikethrough == patch_with(attrs(false, false, false, true, false, false), find_spec(f.inline@, "strikethrough"@))
    &&& t.footnote == patch_with(plain, find_spec(f.inline@, "footnote"@))
    &&& t.quote_bar == patch_with(plain, find_spec(f.block@, "quote_bar"@))
    &&& t.quote == patch_with(attrs(false, true, false, false, false, false), find_spec(f.block@, "quote"@))
    &&& t.rule == patch_with(plain, find_spec(f.block@, "rule"@))
    &&& t.list_marker == patch_with(plain, find_spec(f.block@, "list_marker"@))
    &&& t.task_done == patch_with(plain, find_spec(f.block@, "task_done"@))
    &&& t.task_todo == patch_with(plain, find_spec(f.block@, "task_todo"@))
    &&& t.table_border == patch_with(plain, find_spec(f.table@, "border"@))
    &&& t.table_header == patch_with(bold, find_spec(f.table@, "header"@))
    &&& t.status == patch_with(rev, find_spec(f.ui@, "status"@))
    &&& t.toast == patch_with(rev, find_spec(f.ui@, "toast"@))
    &&& t.cursor == patch_with(rev, find_spec(f.ui@, "cursor"@))
    &&& t.search_match == patch_with(rev, find_spec(f.ui@, "search_match"@))
    &&& t.search_current == patch_with(attrs(true, false, false, false, false, true), find_spec(f.ui@, "search_current"@))
    &&& t.hint == patch_with(attrs(true, false, false, false, false, true), find_spec(f.ui@, "hint"@))
    &&& t.dim == patch_with(attrs(false, false, false, false, true, false), find_spec(f.ui@, "dim"@))
    &&& forall|i: int| 0 <= i < 5 ==> #[trigger] t.alerts@[i] == patch_with(bold, find_spec(f.alert@, alert_key(i)))
}

impl Theme {
    /// The rules under each heading level in the default theme.
    pub open spec fn default_borders() -> Seq<Option<Decoration>> {
        seq![Some(Decoration { color: None }), Some(Decoration { color: None }), None, None, None, None]
    }
}

/// `fallback` with `spec` laid over it, or the spec's error.
fn take(m: &Vec<(String, StyleSpec)>, key: &str, fallback: Style) -> (r: Result<Style, ColorError>)
    ensures
        match r {
            Ok(st) => style_err(find_spec(m@, key@)) is None && st == patch_with(fallback, find_spec(m@, key@)),
            Err(e) => style_err(find_spec(m@, key@)) == Some(color_err_v(e)),
        },
{
    match find_entry(m, key) {
        Some(spec) => match spec.resolve() {
            Ok(st) => Ok(fallback.patch(st)),
            Err(e) => Err(e),
        },
        None => Ok(fallback),
    }
}

/// `fallback` with an optional spec laid over it, or the spec's error.
fn take_opt(spec: &Option<StyleSpec>, fallback: Style) -> (r: Result<Style, ColorError>)
    ensures
        match r {
            Ok(st) => style_err(*spec) is None && st == patch_with(fallback, *spec),
            Err(e) => style_err(*spec) == Some(color_err_v(e)),
        },
{
    match spec {
        Some(s) => match s.resolve() {
            Ok(st) => Ok(fallback.patch(st)),
            Err(e) => Err(e),
        },
        None => Ok(fallback),
    }
}


/// The inline styles (link, code, emphasis, strong, strikethrough,
/// footnote) a theme file lays over the defaults.
fn inline_styles(file: &ThemeFile) -> (r: Result<(Style, Style, Style, Style, Style, Style), ColorError>)
    ensures
        match r {
            Ok(v) => {
                &&& inline_err(*file) is None
                &&& v.0 == patch_with(attrs(false, false, true, false, false, false), find_spec(file.inline@, "link"@))
                &&& v.1 == patch_with(attrs(false, false, false, false, false, false), find_spec(file.inline@, "code"@))
                &&& v.2 == patch_with(attrs(false, true, false, false, false, false), find_spec(file.inline@, "emph"@))
                &&& v.3 == patch_with(attrs(true, false, false, false, false, false), find_spec(file.inline@, "strong"@))
                &&& v.4 == patch_with(attrs(false, false, false, true, false, false), find_spec(file.inline@, "strikethrough"@))
                &&& v.5 == patch_with(attrs(false, false, false, false, false, false), find_spec(file.inline@, "footnote"@))
            },
            Err(e) => inline_err(*file) == Some(color_err_v(e)),
        },
{
    let m = &file.inline;
    let link = match take(m, "link", attrs_exec(false, false, true, false, false, false)) {
        Ok(s) => s,
        Err(e) => return Err(e),
    };
    let code = match take(m, "code", attrs_exec(false, false, false, false, false, false)) {
        Ok(s) => s,
        Err(e) => return Err(e),
    };
    let emph = match take(m, "emph", attrs_exec(false, true, false, false, false, false)) {
        Ok(s) => s,
        Err(e) => return Err(e),
    };
    let strong = match take(m, "strong", attrs_exec(true, false, false, false, false, false)) {
        Ok(s) => s,
        Err(e) => return Err(e),
    };
    let strike = match take(m, "strikethrough", attrs_exec(false, false, false, true, false, false)) {
        Ok(s) => s,
        Err(e) => return Err(e),
    };
    let footnote = match take(m, "footnote", attrs_exec(false, false, false, false, false, false)) {
        Ok(s) => s,
        Err(e) => return Err(e),
    };
    Ok((link, code, emph, strong, strike, footnote))
}


/// The block styles (quote bar, quote, rule, list marker, done and open
/// tasks) a theme file lays over the defaults.
fn block_styles(file: &ThemeFile) -> (r: Result<(Style, Style, Style, Style, Style, Style), ColorError>)
    ensures
        match r {
            Ok(v) => {
                &&& block_err(*file) is None
                &&& v.0 == patch_with(attrs(false, false, false, false, false, false), find_spec(file.block@, "quote_bar"@))
                &&& v.1 == patch_with(attrs(false, true, false, false, false, false), find_spec(file.block@, "quote"@))
                &&& v.2 == patch_with(attrs(false, false, false, false, false, false), find_spec(file.block@, "rule"@))
                &&& v.3 == patch_with(attrs(false, false, false, false, false, false), find_spec(file.block@, "list_marker"@))
                &&& v.4 == patch_with(attrs(false, false, false, false, false, false), find_spec(file.block@, "task_done"@))
                &&& v.5 == patch_with(attrs(false, false, false, false, false, false), find_spec(file.block@, "task_todo"@))
            },
            Err(e) => block_err(*file) == Some(color_err_v(e)),
        },
{
    let m = &file.block;
    let quote_bar = match take(m, "quote_bar", attrs_exec(false, false, false, false, false, false)) {
        Ok(s) => s,
        Err(e) => return Err(e),
    };
    let quote = match take(m, "quote", attrs_exec(false, true, false, false, false, false)) {
        Ok(s) => s,
        Err(e) => return Err(e),
    };
    let rule = match take(m, "rule", attrs_exec(false, false, false, false, false, false)) {
        Ok(s) => s,
        Err(e) => return Err(e),
    };
    let marker = match take(m, "list_marker", attrs_exec(false, false, false, false, false, false)) {
        Ok(s) => s,
        Err(e) => return Err(e),
    };
    let done = match take(m, "task_done", attrs_exec(false, false, false, false, false, false)) {
        Ok(s) => s,
        Err(e) => return Err(e),
    };
    let todo = match take(m, "task_todo", attrs_exec(false, false, false, false, false, false)) {
        Ok(s) => s,
        Err(e) => return Err(e),
    };
    Ok((quote_bar, quote, rule, marker, done, todo))
}

/// The table styles (border, header) a theme file lays over the defaults.
fn table_styles(file: &ThemeFile) -> (r: Result<(Style, Style), ColorError>)
    ensures
        match r {
            Ok(v) => {
                &&& table_err(*file) is None
                &&& v.0 == patch_with(attrs(false, false, false, false, false, false), find_spec(file.table@, "border"@))
                &&& v.1 == patch_with(attrs(true, false, false, false, false, false), find_spec(file.table@, "header"@))
            },
            Err(e) => table_err(*file) == Some(color_err_v(e)),
        },
{
    let m = &file.table;
    let border = match take(m, "border", attrs_exec(false, false, false, false, false, false)) {
        Ok(s) => s,
        Err(e) => return Err(e),
    };
    let header = match take(m, "header", attrs_exec(true, false, false, false, false, false)) {
        Ok(s) => s,
        Err(e) => return Err(e),
    };
    Ok((border, header))
}

/// The interface styles (status, toast, cursor, search match, current
/// match, hint, dim) a theme file lays over the defaults.
fn ui_styles(file: &ThemeFile) -> (r: Result<(Style, Style, Style, Style, Style, Style, Style), ColorError>)
    ensures
        match r {
            Ok(v) => {
                &&& ui_err(*file) is None
                &&& v.0 == patch_with(attrs(false, false, false, false, false, true), find_spec(file.ui@, "status"@))
                &&& v.1 == patch_with(attrs(false, false, false, false, false, true), find_spec(file.ui@, "toast"@))
                &&& v.2 == patch_with(attrs(false, false, false, false, false, true), find_spec(file.ui@, "cursor"@))
                &&& v.3 == patch_with(attrs(false, false, false, false, false, true), find_spec(file.ui@, "search_match"@))
                &&& v.4 == patch_with(attrs(true, false, false, false, false, true), find_spec(file.ui@, "search_current"@))
                &&& v.5 == patch_with(attrs(true, false, false, false, false, true), find_spec(file.ui@, "hint"@))
                &&& v.6 == patch_with(attrs(false, false, false, false, true, false), find_spec(file.ui@, "dim"@))
            },
            Err(e) => ui_err(*file) == Some(color_err_v(e)),
        },
{
    let m = &file.ui;
    let status = match take(m, "status", attrs_exec(false, false, false, false, false, true)) {
        Ok(s) => s,
        Err(e) => return Err(e),
    };
    let toast = match take(m, "toast", attrs_exec(false, false, false, false, false, true)) {
        Ok(s) => s,
        Err(e) => return Err(e),
    };
    let cursor = match take(m, "cursor", attrs_exec(false, false, false, false, false, true)) {
        Ok(s) => s,
        Err(e) => return Err(e),
    };
    let found = match take(m, "search_match", attrs_exec(false, false, false, false, false, true)) {
        Ok(s) => s,
        Err(e) => return Err(e),
    };
    let current = match take(m, "search_current", attrs_exec(true, false, false, false, false, true)) {
        Ok(s) => s,
        Err(e) => return Err(e),
    };
    let hint = match take(m, "hint", attrs_exec(true, false, false, false, false, true)) {
        Ok(s) => s,
        Err(e) => return Err(e),
    };
    let dim = match take(m, "dim", attrs_exec(false, false, false, false, true, false)) {
        Ok(s) => s,
        Err(e) => return Err(e),
    };
    Ok((status, toast, cursor, found, current, hint, dim))
}

/// The alert styles (note, tip, important, warning, caution) a theme file
/// lays over the defaults.
fn alert_styles(file: &ThemeFile) -> (r: Result<[Style; 5], ColorError>)
    ensures
        match r {
            Ok(v) => {
                &&& alerts_err(*file, 0) is None
                &&& forall|i: int| 0 <= i < 5 ==> #[trigger] v@[i] == patch_with(attrs(true, false, false, false, false, false), find_spec(file.alert@, alert_key(i)))
            },
            Err(e) => alerts_err(*file, 0) == Some(color_err_v(e)),
        },
{
    let m = &file.alert;
    proof {
        reveal_with_fuel(alerts_err, 6);
    }
    let note = match take(m, "note", attrs_exec(true, false, false, false, false, false)) {
        Ok(s) => s,
        Err(e) => return Err(e),
    };
    let tip = match take(m, "tip", attrs_exec(true, false, false, false, false, false)) {
        Ok(s) => s,
        Err(e) => return Err(e),
    };
    let important = match take(m, "important", attrs_exec(true, false, false, false, false, false)) {
        Ok(s) => s,
        Err(e) => return Err(e),
    };
    let warning = match take(m, "warning", attrs_exec(true, false, false, false, false, false)) {
        Ok(s) => s,
        Err(e) => return Err(e),
    };
    let caution = match take(m, "caution", attrs_exec(true, false, false, false, false, false)) {
        Ok(s) => s,
        Err(e) => return Err(e),
    };
    let v = [note, tip, important, warning, caution];
    proof {
        assert(v@ =~= seq![note, tip, important, warning, caution]);
        assert forall|i: int| 0 <= i < 5 implies #[trigger] v@[i] == patch_with(attrs(true, false, false, false, false, false), find_spec(file.alert@, alert_key(i))) by {
            if i == 0 {
            } else if i == 1 {
            } else if i == 2 {
            } else if i == 3 {
            } else {
            }
        }
    }
    Ok(v)
}

/// The foreground, background and code fence a theme file sets.
fn base_styles(file: &ThemeFile) -> (r: Result<(Option<Color>, Option<Color>, Style), ColorError>)
    ensures
        match r {
            Ok(v) => {
                &&& base_err(*file) is None
                &&& opt_color(file.foreground) == Ok::<Option<Color>, ColorErr>(v.0)
                &&& opt_color(file.background) == Ok::<Option<Color>, ColorErr>(v.1)
                &&& v.2 == patch_with(attrs(false, false, false, false, true, false), file.fence)
            },
            Err(e) => base_err(*file) == Some(color_err_v(e)),
        },
{
    let fg = match parse_opt_color(&file.foreground) {
        Ok(c) => c,
        Err(e) => return Err(e),
    };
    let bg = match parse_opt_color(&file.background) {
        Ok(c) => c,
        Err(e) => return Err(e),
    };
    let fence = match take_opt(&file.fence, attrs_exec(false, false, false, false, true, false)) {
        Ok(s) => s,
        Err(e) => return Err(e),
    };
    Ok((fg, bg, fence))
}


/// The rule a theme file writes for heading level `i + 1`, if any.
pub open spec fn border_spec(f: ThemeFile, i: int) -> Option<DecorSpec> {
    match heading_spec(f, i) {
        Some(h) => h.border,
        None => None,
    }
}

/// The bar a theme file writes for heading level `i + 1`, if any.
pub open spec fn bar_spec(f: ThemeFile, i: int) -> Option<DecorSpec> {
    match heading_spec(f, i) {
        Some(h) => h.bar,
        None => None,
    }
}

fn heading_key_exec(i: usize) -> (r: &'static str)
    requires
        i < 6,
    ensures
        r@ == heading_key(i as int),
{
    if i == 0 {
        "h1"
    } else if i == 1 {
        "h2"
    } else if i == 2 {
        "h3"
    } else if i == 3 {
        "h4"
    } else if i == 4 {
        "h5"
    } else {
        "h6"
    }
}

/// Heading level `i + 1`: its style laid over `fallback`, its rule over
/// `border`, and its bar over none.
fn heading_level(file: &ThemeFile, i: usize, fallback: Style, border: Option<Decoration>) -> (r: Result<
    (Style, Option<Decoration>, Option<Decoration>),
    ColorError,
>)
    requires
        i < 6,
    ensures
        match r {
            Ok(v) => {
                &&& heading_err(heading_spec(*file, i as int)) is None
                &&& v.0 == patch_with(fallback, heading_style_spec(*file, i as int))
                &&& v.1 == decor_with(border, border_spec(*file, i as int))
                &&& v.2 == decor_with(None, bar_spec(*file, i as int))
            },
            Err(e) => heading_err(heading_spec(*file, i as int)) == Some(color_err_v(e)),
        },
{
    match find_entry(&file.heading, heading_key_exec(i)) {
        None => Ok((fallback, border, None)),
        Some(h) => {
            let spec = h.style();
            proof {
                assert(spec == heading_style(*h));
            }
            let st = match spec.resolve() {
                Ok(s) => s,
                Err(e) => return Err(e),
            };
            let b = match decoration(h.border.as_ref(), border) {
                Ok(d) => d,
                Err(e) => return Err(e),
            };
            let bar = match decoration(h.bar.as_ref(), None) {
                Ok(d) => d,
                Err(e) => return Err(e),
            };
            Ok((fallback.patch(st), b, bar))
        },
    }
}

/// The six heading levels: each style over the level before it (level 1
/// over bold), each rule over the default rules, each bar over none.
#[verifier::rlimit(60)]
#[verifier::spinoff_prover]
fn heading_levels(file: &ThemeFile) -> (r: Result<
    ([Style; 6], [Option<Decoration>; 6], [Option<Decoration>; 6]),
    ColorError,
>)
    ensures
        match r {
            Ok(v) => {
                &&& headings_err(*file, 0) is None
                &&& v.0@ == heading_styles(*file, 6)
                &&& forall|i: int| 0 <= i < 6 ==> #[trigger] v.1@[i] == decor_with(Theme::default_borders()[i], border_spec(*file, i))
                &&& forall|i: int| 0 <= i < 6 ==> #[trigger] v.2@[i] == decor_with(None, bar_spec(*file, i))
            },
            Err(e) => headings_err(*file, 0) == Some(color_err_v(e)),
        },
{
    proof {
        reveal_with_fuel(headings_err, 7);
        reveal_with_fuel(heading_styles, 7);
    }
    let drawn = Some(Decoration { color: None });
    let (s1, b1, r1) = match heading_level(file, 0, attrs_exec(true, false, false, false, false, false), drawn) {
        Ok(v) => v,
        Err(e) => return Err(e),
    };
    let (s2, b2, r2) = match heading_level(file, 1, s1, drawn) {
        Ok(v) => v,
        Err(e) => return Err(e),
    };
    let (s3, b3, r3) = match heading_level(file, 2, s2, None) {
        Ok(v) => v,
        Err(e) => return Err(e),
    };
    let (s4, b4, r4) = match heading_level(file, 3, s3, None) {
        Ok(v) => v,
        Err(e) => return Err(e),
    };
    let (s5, b5, r5) = match heading_level(file, 4, s4, None) {
        Ok(v) => v,
        Err(e) => return Err(e),
    };
    let (s6, b6, r6) = match heading_level(file, 5, s5, None) {
        Ok(v) => v,
        Err(e) => return Err(e),
    };
    let styles = [s1, s2, s3, s4, s5, s6];
    let borders = [b1, b2, b3, b4, b5, b6];
    let bars = [r1, r2, r3, r4, r5, r6];
    proof {
        assert(styles@ =~= seq![s1, s2, s3, s4, s5, s6]);
        assert(borders@ =~= seq![b1, b2, b3, b4, b5, b6]);
        assert(bars@ =~= seq![r1, r2, r3, r4, r5, r6]);
        let h = heading_styles(*file, 6);
        assert(heading_styles(*file, 1) =~= seq![s1]);
        assert(heading_styles(*file, 2) =~= seq![s1, s2]);
        assert(heading_styles(*file, 3) =~= seq![s1, s2, s3]);
        assert(heading_styles(*file, 4) =~= seq![s1, s2, s3, s4]);
        assert(heading_styles(*file, 5) =~= seq![s1, s2, s3, s4, s5]);
        assert(h =~= styles@);
        assert forall|i: int| 0 <= i < 6 implies #[trigger] borders@[i] == decor_with(Theme::default_borders()[i], border_spec(*file, i)) by {
            if i == 0 {
            } else if i == 1 {
            } else if i == 2 {
            } else if i == 3 {
            } else if i == 4 {
            } else {
            }
        }
        assert forall|i: int| 0 <= i < 6 implies #[trigger] bars@[i] == decor_with(None, bar_spec(*file, i)) by {
            if i == 0 {
            } else if i == 1 {
            } else if i == 2 {
            } else if i == 3 {
            } else if i == 4 {
            } else {
            }
        }
    }
    Ok((styles, borders, bars))
}


impl Theme {
    /// The theme a theme file describes: the defaults, with what the file
    /// says laid over them, or the first color in it that does not parse.
    pub fn from_file(file: &ThemeFile) -> (r: Result<Theme, ColorError>)
        ensures
            match r {
                Ok(t) => theme_errors(*file) is None && theme_fields_ok(*file, t),
                Err(e) => theme_errors(*file) == Some(color_err_v(e)),
            },
    {
        let name = match &file.name {
            Some(n) => n.clone(),
            None => DEFAULT_THEME.to_owned(),
        };
        let (foreground, background, code_fence) = match base_styles(file) {
            Ok(v) => v,
            Err(e) => return Err(e),
        };
        let syntect_theme = match &file.syntect_theme {
            Some(s) => s.clone(),
            None => "base16-ocean.dark".to_owned(),
        };
        let (headings, heading_border, heading_bar) = match heading_levels(file) {
            Ok(v) => v,
            Err(e) => return Err(e),
        };
        let (link, code, emph, strong, strikethrough, footnote) = match inline_styles(file) {
            Ok(v) => v,
            Err(e) => return Err(e),
        };
        let (quote_bar, quote, rule, list_marker, task_done, task_todo) = match block_styles(file) {
            Ok(v) => v,
            Err(e) => return Err(e),
        };
        let (table_border, table_header) = match table_styles(file) {
            Ok(v) => v,
            Err(e) => return Err(e),
        };
        let alerts = match alert_styles(file) {
            Ok(v) => v,
            Err(e) => return Err(e),
        };
        let (status, toast, cursor, search_match, search_current, hint, dim) = match ui_styles(file) {
            Ok(v) => v,
            Err(e) => return Err(e),
        };
        Ok(
            Theme {
                name,
                foreground,
                background,
                syntect_theme,
                headings,
                heading_border,
                heading_bar,
                link,
                code,
                emph,
                strong,
                strikethrough,
                footnote,
                quote_bar,
                quote,
                rule,
                list_marker,
                task_done,
                task_todo,
                code_fence,
                table_border,
                table_header,
                alerts,
                status,
                toast,
                cursor,
                search_match,
                search_current,
                hint,
                dim,
            },
        )
    }
}


/// A theme file that says nothing describes the default theme, and reads
/// without error: the levels drawn large keep their rule, no level grows a
/// bar, and every style is the default's.
pub proof fn lemma_empty_file_is_default(f: ThemeFile, t: Theme)
    requires
        f.name is None,
        f.foreground is None,
        f.background is None,
        f.syntect_theme is None,
        f.fence is None,
        f.heading@.len() == 0,
        f.inline@.len() == 0,
        f.block@.len() == 0,
        f.table@.len() == 0,
        f.alert@.len() == 0,
        f.ui@.len() == 0,
        theme_fields_ok(f, t),
    ensures
        theme_errors(f) is None,
        default_theme_ok(t),
{
    reveal_with_fuel(heading_styles, 7);
    reveal_with_fuel(headings_err, 7);
    reveal_with_fuel(alerts_err, 6);
    let bold = attrs(true, false, false, false, false, false);
    assert(heading_styles(f, 6) =~= seq![bold, bold, bold, bold, bold, bold]);
    assert(t.heading_border@ =~= Theme::default_borders());
    assert(t.heading_bar@ =~= seq![None::<Decoration>, None, None, None, None, None]);
    assert(t.alerts@ =~= seq![bold, bold, bold, bold, bold]);
}

} // verus!
