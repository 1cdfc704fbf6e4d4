use base64::engine::general_purpose::STANDARD;
use base64::Engine;
use mdroll::clipboard::{osc52, Route};

#[test]
fn osc52_wraps_base64_in_the_right_envelope() {
    assert_eq!(osc52("hi"), "\x1b]52;c;aGk=\x07");
}

#[test]
fn osc52_handles_multibyte_text() {
    let seq = osc52("日本語");
    assert!(seq.starts_with("\x1b]52;c;"));
    assert!(seq.ends_with('\x07'));
    let payload = seq.trim_start_matches("\x1b]52;c;").trim_end_matches('\x07');
    assert_eq!(String::from_utf8(STANDARD.decode(payload).unwrap()).unwrap(), "日本語");
}

#[test]
fn the_route_names_where_the_text_went() {
    assert_eq!(Route::System.label(), "clipboard");
    assert_eq!(Route::Osc52.label(), "clipboard (OSC 52)");
    assert_eq!(osc52(""), "\x1b]52;c;\x07");
}
