use mdroll::width::{expand_tabs, WidthCalc};

const NARROW: WidthCalc = WidthCalc {
    ambiguous_wide: false,
};
const WIDE: WidthCalc = WidthCalc {
    ambiguous_wide: true,
};

#[test]
fn ascii_is_one_column() {
    assert_eq!(NARROW.str("hello"), 5);
}

#[test]
fn kana_and_kanji_are_two_columns() {
    assert_eq!(NARROW.str("日本語"), 6);
    assert_eq!(NARROW.str("こんにちは"), 10);
}

#[test]
fn ambiguous_width_follows_the_setting() {
    assert_eq!(NARROW.str("─→"), 2);
    assert_eq!(WIDE.str("─→"), 4);
}

#[test]
fn combining_marks_are_zero_width() {
    assert_eq!(NARROW.str("が"), 2);
    assert_eq!(NARROW.str("か\u{3099}"), 2);
}

#[test]
fn truncate_never_splits_a_wide_character() {
    assert_eq!(NARROW.truncate("日本語", 3), ("日".into(), 2));
    assert_eq!(NARROW.truncate("日本語", 4), ("日本".into(), 4));
}

#[test]
fn slice_columns_on_ascii() {
    assert_eq!(NARROW.slice_columns("abcdef", 2, 3), "cde");
}

#[test]
fn slice_columns_replaces_a_straddling_wide_char_with_a_space() {
    assert_eq!(NARROW.slice_columns("日本語", 1, 4), " 本 ");
}

#[test]
fn slice_columns_result_is_exactly_the_window_width() {
    for start in 0..8 {
        for len in 0..8 {
            let s = NARROW.slice_columns("あiうeお", start, len);
            let full = NARROW.str("あiうeお");
            let expected = len.min(full.saturating_sub(start));
            assert_eq!(NARROW.str(&s), expected, "start={start} len={len}");
        }
    }
}

#[test]
fn slice_columns_past_the_end_is_empty() {
    assert_eq!(NARROW.slice_columns("abc", 10, 5), "");
}

#[test]
fn tabs_expand_to_the_next_stop() {
    assert_eq!(expand_tabs("\tx"), "    x");
    assert_eq!(expand_tabs("ab\tx"), "ab  x");
    assert_eq!(expand_tabs("abcd\tx"), "abcd    x");
}

#[test]
fn a_tab_stop_is_counted_in_columns_not_characters() {
    assert_eq!(expand_tabs("日\tx"), "日  x");
    assert_eq!(NARROW.str(&expand_tabs("日\tx")), NARROW.str("abcd") + 1);
    assert_eq!(expand_tabs("か\u{3099}\tx"), "か\u{3099}  x");
}

#[test]
fn control_characters_measure_zero_and_ascii_one() {
    assert_eq!(NARROW.ch('\u{7}'), 0);
    assert_eq!(NARROW.ch('a'), 1);
    assert!(NARROW.is_wide('日'));
    assert!(!NARROW.is_wide('a'));
    assert_eq!(NARROW.truncate("abc", 0), (String::new(), 0));
}
