use lifespeed::frontmatter::{parse_frontmatter, strip_quotes};

fn owned(items: &[&str]) -> Vec<String> {
    items.iter().map(|s| s.to_string()).collect()
}

#[test]
fn reads_title_date_and_tags() {
    let doc = "---\ntitle: \"My Day\"\ndate: 2024-01-02\ntags: [a, 'b c', \"d\"]\n---\n\n# Heading\nBody text here.\n";
    let (title, date, tags, excerpt) = parse_frontmatter(doc);
    assert_eq!(title, "My Day");
    assert_eq!(date, "2024-01-02");
    assert_eq!(tags, owned(&["a", "b c", "d"]));
    assert_eq!(excerpt, "Body text here.");
}

#[test]
fn document_without_frontmatter_is_all_body() {
    let (title, date, tags, excerpt) = parse_frontmatter("  Hello world \n");
    assert_eq!(title, "");
    assert_eq!(date, "");
    assert!(tags.is_empty());
    assert_eq!(excerpt, "Hello world");
}

#[test]
fn empty_document() {
    let (title, date, tags, excerpt) = parse_frontmatter("");
    assert_eq!(title, "");
    assert_eq!(date, "");
    assert!(tags.is_empty());
    assert_eq!(excerpt, "");
}

#[test]
fn opening_marker_without_closing_is_body() {
    let doc = "---\ntitle: x\nno end";
    let (title, date, tags, excerpt) = parse_frontmatter(doc);
    assert_eq!(title, "");
    assert_eq!(date, "");
    assert!(tags.is_empty());
    assert_eq!(excerpt, "---\ntitle: x\nno end");
}

#[test]
fn closing_marker_right_after_opening_gives_empty_block() {
    let (title, date, tags, excerpt) = parse_frontmatter("---\n---\nBody");
    assert_eq!(title, "");
    assert_eq!(date, "");
    assert!(tags.is_empty());
    assert_eq!(excerpt, "Body");
}

#[test]
fn character_after_opening_marker_is_skipped() {
    let (title, _, _, excerpt) = parse_frontmatter("---xtitle: a\n---\nrest");
    assert_eq!(title, "a");
    assert_eq!(excerpt, "rest");
    let (title, _, _, excerpt) = parse_frontmatter("---\u{e9}title: b\n---\nrest");
    assert_eq!(title, "b");
    assert_eq!(excerpt, "rest");
}

#[test]
fn closing_marker_need_not_end_its_line() {
    let (title, _, _, excerpt) = parse_frontmatter("---\ntitle: a\n----tail\nBody");
    assert_eq!(title, "a");
    assert_eq!(excerpt, "-tail\nBody");
}

#[test]
fn later_line_replaces_earlier() {
    let doc = "---\ntitle: first\ndate: d1\ntitle: second\n---\n";
    let (title, date, _, _) = parse_frontmatter(doc);
    assert_eq!(title, "second");
    assert_eq!(date, "d1");
}

#[test]
fn value_may_hold_a_colon() {
    let (title, date, _, _) = parse_frontmatter("---\ntitle: a: b\ndate: 2024-01-02T10:30:00\n---\n");
    assert_eq!(title, "a: b");
    assert_eq!(date, "2024-01-02T10:30:00");
}

#[test]
fn keys_and_values_are_trimmed() {
    let doc = "---\n   title  :   'x y'  \n\tdate\t:\t2020\t\n---\n";
    let (title, date, _, _) = parse_frontmatter(doc);
    assert_eq!(title, "x y");
    assert_eq!(date, "2020");
}

#[test]
fn unicode_whitespace_is_trimmed() {
    let doc = "---\ntitle:\u{3000}x\u{a0}\n---\n\u{2003}body\u{2028}";
    let (title, _, _, excerpt) = parse_frontmatter(doc);
    assert_eq!(title, "x");
    assert_eq!(excerpt, "body");
}

#[test]
fn unknown_keys_and_lines_without_colon_are_skipped() {
    let doc = "---\nauthor: me\njust a line\nTitle: upper\n: none\ntitle: t\n---\n";
    let (title, date, tags, _) = parse_frontmatter(doc);
    assert_eq!(title, "t");
    assert_eq!(date, "");
    assert!(tags.is_empty());
}

#[test]
fn tags_need_brackets() {
    let (_, _, tags, _) = parse_frontmatter("---\ntags: a, b\n---\n");
    assert!(tags.is_empty());
    let (_, _, tags, _) = parse_frontmatter("---\ntags: [a, b]\ntags: c\n---\n");
    assert_eq!(tags, owned(&["a", "b"]));
    let (_, _, tags, _) = parse_frontmatter("---\ntags: [a, b]\ntags: []\n---\n");
    assert!(tags.is_empty());
    let (_, _, tags, _) = parse_frontmatter("---\ntags: [\n---\n");
    assert!(tags.is_empty());
}

#[test]
fn empty_tags_are_left_out() {
    let (_, _, tags, _) = parse_frontmatter("---\ntags: [a, , \"\", b,]\n---\n");
    assert_eq!(tags, owned(&["a", "b"]));
}

#[test]
fn tags_are_trimmed_then_unquoted() {
    let (_, _, tags, _) = parse_frontmatter("---\ntags: [ \" a \" , 'b', c d ,\"e']\n---\n");
    assert_eq!(tags, owned(&[" a ", "b", "c d", "\"e'"]));
}

#[test]
fn carriage_returns_are_whitespace() {
    let doc = "---\r\ntitle: x\r\ndate: y\r\n---\r\nBody\r\n";
    let (title, date, _, excerpt) = parse_frontmatter(doc);
    assert_eq!(title, "x");
    assert_eq!(date, "y");
    assert_eq!(excerpt, "Body");
}

#[test]
fn heading_line_is_left_out_of_excerpt() {
    let (_, _, _, excerpt) = parse_frontmatter("# Title\nfirst\nsecond");
    assert_eq!(excerpt, "first\nsecond");
    let (_, _, _, excerpt) = parse_frontmatter("# Title only");
    assert_eq!(excerpt, "");
    let (_, _, _, excerpt) = parse_frontmatter(" # not first");
    assert_eq!(excerpt, "# not first");
    let (_, _, _, excerpt) = parse_frontmatter("---\nx: y\n---\n\n\n## H\n# next\n");
    assert_eq!(excerpt, "# next");
}

#[test]
fn excerpt_holds_at_most_300_characters() {
    let body = "a".repeat(400);
    let (_, _, _, excerpt) = parse_frontmatter(&body);
    assert_eq!(excerpt, "a".repeat(300));
    let body = "\u{e9}".repeat(301);
    let (_, _, _, excerpt) = parse_frontmatter(&body);
    assert_eq!(excerpt.chars().count(), 300);
    assert_eq!(excerpt, "\u{e9}".repeat(300));
    let body = "b".repeat(300);
    let (_, _, _, excerpt) = parse_frontmatter(&body);
    assert_eq!(excerpt, body);
}

#[test]
fn excerpt_is_cut_before_it_is_trimmed() {
    let body = format!("{} {}", "a".repeat(299), "bbb");
    let (_, _, _, excerpt) = parse_frontmatter(&body);
    assert_eq!(excerpt, "a".repeat(299));
    let body = format!("\n\n{}", "c".repeat(400));
    let (_, _, _, excerpt) = parse_frontmatter(&body);
    assert_eq!(excerpt, "c".repeat(298));
}

#[test]
fn strip_quotes_removes_one_matching_pair() {
    assert_eq!(strip_quotes("\"a\""), "a");
    assert_eq!(strip_quotes("'a b'"), "a b");
    assert_eq!(strip_quotes("\"\"a\"\""), "\"a\"");
    assert_eq!(strip_quotes("\"\""), "");
    assert_eq!(strip_quotes("''"), "");
    assert_eq!(strip_quotes("'\u{e9}\u{4e2d}'"), "\u{e9}\u{4e2d}");
}

#[test]
fn strip_quotes_keeps_other_strings() {
    assert_eq!(strip_quotes(""), "");
    assert_eq!(strip_quotes("a"), "a");
    assert_eq!(strip_quotes("\"a'"), "\"a'");
    assert_eq!(strip_quotes("'a\""), "'a\"");
    assert_eq!(strip_quotes("\"a"), "\"a");
    assert_eq!(strip_quotes("a'"), "a'");
    assert_eq!(strip_quotes("\""), "\"");
    assert_eq!(strip_quotes("'"), "'");
    assert_eq!(strip_quotes(" \"a\""), " \"a\"");
}

#[test]
fn lone_quote_value_is_kept() {
    let (title, _, tags, _) = parse_frontmatter("---\ntitle: \"\ntags: [', x]\n---\n");
    assert_eq!(title, "\"");
    assert_eq!(tags, owned(&["'", "x"]));
}
