use mdroll::frontmatter::parse;

fn parsed(text: &str) -> Vec<(String, String)> {
    parse(text).expect("understood")
}

#[test]
fn scalars_keep_their_order() {
    let got = parsed("---\ntitle: Use PostgreSQL\nstatus: accepted\n---\n");
    assert_eq!(
        got,
        [
            ("title".into(), "Use PostgreSQL".into()),
            ("status".into(), "accepted".into()),
        ]
    );
}

#[test]
fn quotes_come_off() {
    let got = parsed("title: \"Use PostgreSQL\"\nauthor: 'Ada'\n");
    assert_eq!(got[0].1, "Use PostgreSQL");
    assert_eq!(got[1].1, "Ada");
}

#[test]
fn a_colon_in_the_value_is_part_of_the_value() {
    let got = parsed("link: https://example.com/a\n");
    assert_eq!(got[0].1, "https://example.com/a");
}

#[test]
fn both_spellings_of_a_sequence_flatten_the_same_way() {
    let flow = parsed("tags: [db, storage]\n");
    let block = parsed("tags:\n  - db\n  - storage\n");
    assert_eq!(flow[0].1, "db, storage");
    assert_eq!(block, flow);
}

#[test]
fn comments_and_blank_lines_are_skipped() {
    let got = parsed("# a note\n\nstatus: draft\n");
    assert_eq!(got, [("status".into(), "draft".into())]);
}

#[test]
fn a_trailing_hash_stays_in_the_value() {
    let got = parsed("title: C# in 2026\n");
    assert_eq!(got[0].1, "C# in 2026");
}

#[test]
fn an_empty_value_is_kept_as_an_empty_cell() {
    let got = parsed("deciders:\nstatus: draft\n");
    assert_eq!(got[0], ("deciders".into(), String::new()));
    assert_eq!(got.len(), 2, "the next key is not swallowed");
}

#[test]
fn what_is_not_understood_is_declined_rather_than_guessed() {
    assert!(parse("owner:\n  name: Ada\n").is_none());
    assert!(parse("body: |\n  two\n  lines\n").is_none());
    assert!(parse("body: >\n  folded\n").is_none());
    assert!(parse("owner: {name: Ada}\n").is_none());
    assert!(parse("base: &anchor value\n").is_none());
    assert!(parse("just a line\n").is_none());
    assert!(parse("---\n---\n").is_none());
}

#[test]
fn empty_flow_items_are_dropped_and_quotes_come_off_them() {
    let got = parsed("tags: [\"a\", , 'b',]\n");
    assert_eq!(got[0].1, "a, b");
}

#[test]
fn an_indented_first_line_is_declined() {
    assert!(parse("  key: value\n").is_none());
    assert!(parse(": value\n").is_none());
}
