use mdroll::cache::key;
use mdroll::fetch::is_remote;
use mdroll::svg::looks_like_svg;

#[test]
fn the_key_is_stable_and_separates_its_parts() {
    assert_eq!(key(&["ab", "c"]), key(&["ab", "c"]));
    assert_ne!(key(&["ab", "c"]), key(&["a", "bc"]));
}

#[test]
fn the_key_is_fnv_1a_with_a_separator() {
    // No parts: the offset basis.
    assert_eq!(key(&[]), 0xcbf2_9ce4_8422_2325);
    // One empty part: just the separator byte.
    assert_eq!(key(&[""]), (0xcbf2_9ce4_8422_2325u64 ^ 0xff).wrapping_mul(0x0000_0100_0000_01b3));
}

#[test]
fn only_http_urls_are_fetched() {
    assert!(is_remote("https://example.com/a.png"));
    assert!(is_remote("HTTP://example.com/a.png"));
    assert!(!is_remote("data:image/png;base64,AAAA"));
    assert!(!is_remote("file:///tmp/a.png"));
    assert!(!is_remote("./local.png"));
}

#[test]
fn an_xml_declaration_does_not_hide_the_svg_tag() {
    let data = br#"<?xml version="1.0" encoding="UTF-8"?>
<!-- a comment -->
<svg xmlns="http://www.w3.org/2000/svg" width="10" height="10"></svg>"#;
    assert!(looks_like_svg(data));
    assert!(!looks_like_svg(b"\x89PNG\r\n\x1a\n"));
}

#[test]
fn only_the_start_of_a_file_is_sniffed() {
    let mut data = vec![b' '; 5000];
    data.extend_from_slice(b"<svg>");
    assert!(!looks_like_svg(&data));
    let mut data = vec![b' '; 4092];
    data.extend_from_slice(b"<svg>");
    assert!(looks_like_svg(&data));
}

#[test]
fn each_kind_gets_its_own_directory() {
    let Some(images) = mdroll::cache::dir("images") else {
        return;
    };
    assert_ne!(Some(images), mdroll::cache::dir("mermaid"));
}
