use mdroll::width::WidthCalc;
use mdroll::wrap::{
    break_points, break_points_from, forbidden_at_line_end, forbidden_at_line_start,
    hard_wrap_ranges, wrap_ranges, wrap_ranges_at,
};

const CALC: WidthCalc = WidthCalc {
    ambiguous_wide: false,
};

fn wrap(text: &str, limit: usize) -> Vec<String> {
    wrap_ranges(text, limit, &CALC)
        .into_iter()
        .map(|(s, e)| text[s..e].trim_end().to_string())
        .collect()
}

#[test]
fn short_text_is_one_line() {
    assert_eq!(wrap("hello", 20), vec!["hello"]);
}

#[test]
fn latin_breaks_at_spaces() {
    assert_eq!(
        wrap("the quick brown fox", 10),
        vec!["the quick", "brown fox"]
    );
}

#[test]
fn japanese_breaks_between_characters() {
    let lines = wrap("吾輩は猫である。名前はまだ無い。", 12);
    assert!(lines.len() > 1);
    for line in &lines {
        assert!(CALC.str(line) <= 12, "{line:?} is too wide");
    }
}

#[test]
fn no_line_begins_with_a_forbidden_character() {
    let text = "これはテストです。次の文が続きます。終わり。";
    for limit in 4..30 {
        for line in wrap(text, limit) {
            if let Some(c) = line.chars().next() {
                assert!(
                    !forbidden_at_line_start(c),
                    "limit={limit} line={line:?} starts with {c:?}"
                );
            }
        }
    }
}

#[test]
fn no_line_ends_with_an_opening_bracket() {
    let text = "説明は（ここに書いてあります）ので確認してください。";
    for limit in 4..30 {
        for line in wrap(text, limit) {
            if let Some(c) = line.chars().last() {
                assert!(
                    !forbidden_at_line_end(c),
                    "limit={limit} line={line:?} ends with {c:?}"
                );
            }
        }
    }
}

#[test]
fn kinsoku_pulls_the_period_up_rather_than_stranding_it() {
    let lines = wrap("日本語。", 6);
    assert_eq!(lines, vec!["日本", "語。"]);
}

#[test]
fn kinsoku_holds_even_when_the_break_has_to_be_forced() {
    assert_eq!(
        wrap("aaaaaaaaaaaa。つづく", 12),
        vec!["aaaaaaaaaaa", "a。つづく"]
    );
    assert_eq!(
        wrap("bbbbbbbbbbbb）あと", 12),
        vec!["bbbbbbbbbbb", "b）あと"]
    );
}

#[test]
fn a_forced_break_never_strands_a_clinging_character() {
    for text in [
        "aaaaaaaaaaaa。つづく",
        "xxxxxxxxxxxx」おわり",
        "説明は（ここに書いてあります）ので確認してください。",
        "aaaaaaaaaaaaaaaaaaaaaaaa、",
    ] {
        for limit in 4..30 {
            for line in wrap(text, limit) {
                if let Some(c) = line.chars().next() {
                    assert!(
                        !forbidden_at_line_start(c),
                        "limit={limit} line={line:?} starts with {c:?}"
                    );
                }
                if let Some(c) = line.chars().last() {
                    assert!(
                        !forbidden_at_line_end(c),
                        "limit={limit} line={line:?} ends with {c:?}"
                    );
                }
            }
        }
    }
}

#[test]
fn an_overlong_unbreakable_token_is_split_rather_than_overflowing() {
    let lines = wrap("aaaaaaaaaaaaaaaaaaaa", 5);
    assert!(lines.iter().all(|l| l.len() <= 5));
    assert_eq!(lines.concat(), "aaaaaaaaaaaaaaaaaaaa");
}

#[test]
fn wrapping_never_loses_or_duplicates_text() {
    let text = "Rust の unicode-linebreak は UAX #14 を実装しています。これは重要です。";
    for limit in 2..40 {
        let joined: String = wrap_ranges(text, limit, &CALC)
            .into_iter()
            .map(|(s, e)| &text[s..e])
            .collect();
        assert_eq!(joined, text, "limit={limit}");
    }
}

#[test]
fn every_wrapped_line_fits_the_limit() {
    let text = "混在した text と日本語が入っている段落です。URL は https://example.com/very/long/path など。";
    for limit in 8..40 {
        for line in wrap(text, limit) {
            assert!(CALC.str(&line) <= limit, "limit={limit} line={line:?}");
        }
    }
}

#[test]
fn break_points_come_from_uax14_less_the_ends() {
    // "Hello world!" offers a break before "world" (6) and the mandatory one
    // at its end (12), which is not a break within the text.
    assert_eq!(break_points("Hello world!"), vec![6]);
    assert_eq!(break_points(""), Vec::<usize>::new());
}

#[test]
fn kinsoku_removes_a_break_before_a_closing_mark() {
    // Byte 3 is before "。" (line start forbidden), byte 6 is after it.
    assert_eq!(break_points_from("あ。い", &vec![0, 3, 6, 9]), vec![6]);
    // Not a character boundary: inside "あ".
    assert_eq!(break_points_from("あい", &vec![1, 3]), vec![3]);
}

#[test]
fn given_breaks_are_used_last_first() {
    let r = wrap_ranges_at("aaaa bbbb cccc", 10, &CALC, &vec![5, 10]);
    assert_eq!(r, vec![(0, 10), (10, 14)]);
}

#[test]
fn empty_text_is_one_empty_range() {
    assert_eq!(wrap_ranges("", 10, &CALC), vec![(0, 0)]);
    assert_eq!(hard_wrap_ranges("", 10, &CALC), vec![(0, 0)]);
}

#[test]
fn code_is_chopped_at_the_column_limit() {
    let text = "let a = 1; let b = 2;";
    let r = hard_wrap_ranges(text, 8, &CALC);
    assert_eq!(r, vec![(0, 8), (8, 16), (16, 21)]);
    let r = hard_wrap_ranges("日本語", 3, &CALC);
    assert_eq!(r, vec![(0, 3), (3, 6), (6, 9)]);
}

#[test]
fn a_zero_limit_counts_as_one_column() {
    assert_eq!(hard_wrap_ranges("ab", 0, &CALC), vec![(0, 1), (1, 2)]);
}

use mdroll::ir::{LinkId, Span, Style};
use mdroll::wrap::{slice_spans, slice_spans_columns, spans_text, trim_trailing, wrap_spans};

#[test]
fn slice_spans_respects_span_boundaries() {
    let spans = vec![
        Span::plain("hello "),
        Span::new(
            "world",
            Style {
                bold: true,
                ..Style::plain()
            },
        ),
    ];
    let got = slice_spans(&spans, 3, 8);
    assert_eq!(got.len(), 2);
    assert_eq!(got[0].text, "lo ");
    assert_eq!(got[1].text, "wo");
    assert!(got[1].style.bold);
}

#[test]
fn wrap_spans_keeps_styles_across_the_break() {
    let spans = vec![
        Span::plain("plain text "),
        Span::new(
            "bold text here",
            Style {
                bold: true,
                ..Style::plain()
            },
        ),
    ];
    let rows = wrap_spans(&spans, 12, &CALC);
    assert!(rows.len() > 1);
    let bold_chars: usize = rows
        .iter()
        .flatten()
        .filter(|s| s.style.bold)
        .map(|s| s.text.chars().count())
        .sum();
    assert_eq!(bold_chars, "bold text here".chars().count() - 1);
}

#[test]
fn empty_input_yields_one_empty_row() {
    assert_eq!(wrap_spans(&[], 10, &CALC).len(), 1);
}

#[test]
fn horizontal_offset_slices_by_display_column() {
    let spans = vec![Span::plain("ab"), Span::plain("日本"), Span::plain("cd")];
    let got = slice_spans_columns(&spans, 1, 4, &CALC);
    // "b", then "日" whole, then the first column of "本" as a space.
    assert_eq!(spans_text(&got), "b日 ");
    assert_eq!(got.len(), 1, "plain pieces are joined");
    let got = slice_spans_columns(&spans, 3, 2, &CALC);
    assert_eq!(spans_text(&got), "  ");
    assert!(slice_spans_columns(&spans, 0, 0, &CALC).is_empty());
}

#[test]
fn pieces_with_different_links_stay_apart() {
    let spans = vec![
        Span::plain("ab").with_link(Some(LinkId(1))),
        Span::plain("cd").with_link(Some(LinkId(2))),
    ];
    let got = slice_spans_columns(&spans, 0, 10, &CALC);
    assert_eq!(got.len(), 2);
    assert_eq!(got[1].link, Some(LinkId(2)));
}

#[test]
fn trailing_spaces_are_trimmed_across_spans() {
    let spans = vec![Span::plain("abc "), Span::plain("   ")];
    let got = trim_trailing(spans);
    assert_eq!(got.len(), 1);
    assert_eq!(got[0].text, "abc");
    assert!(trim_trailing(vec![Span::plain("  ")]).is_empty());
}
