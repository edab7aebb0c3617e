//! The text-markup utilities: wildcard line matching, cursor extraction,
//! and the turbofish edit built on top of them.

use method_resolution::ide::add_turbo_fish;
use method_resolution::text::{
    add_cursor, extract_offset, extract_range, extract_range_or_offset, insert_text, lines_match,
    try_extract_offset, RangeOrOffset, TextRange,
};

#[test]
fn lines_match_works() {
    assert!(lines_match("a b", "a b"));
    assert!(lines_match("a[..]b", "a b"));
    assert!(lines_match("a[..]", "a b"));
    assert!(lines_match("[..]", "a b"));
    assert!(lines_match("[..]b", "a b"));

    assert!(!lines_match("[..]b", "c"));
    assert!(!lines_match("b", "c"));
    assert!(!lines_match("b", "cb"));
}

#[test]
fn lines_match_normalizes_backslashes() {
    assert!(lines_match(r"a\\b", "a/b"));
    assert!(lines_match(r"a\b", "a/b"));
    assert!(lines_match("a/b", r"a\\b"));
}

#[test]
fn lines_match_is_greedy_left_to_right() {
    // The first part must sit at the very start.
    assert!(!lines_match("a[..]", "xa"));
    // Whatever follows the last part only passes under a trailing wildcard.
    assert!(!lines_match("a[..]b", "a x b y"));
    assert!(lines_match("a[..]b[..]", "a x b y"));
}

#[test]
fn add_turbo_fish_function() {
    let (offset, text) = extract_offset(
        r#"
fn make<T>() -> T {}
fn main() {
    make<|>();
}
"#,
    );
    let edit = add_turbo_fish(false, true, 1, offset, true).expect("the assist applies");
    let result = insert_text(&text, edit.offset, &edit.snippet);
    assert_eq!(
        result,
        r#"
fn make<T>() -> T {}
fn main() {
    make::<${0:_}>();
}
"#
    );
}

#[test]
fn add_turbo_fish_method() {
    let (offset, text) = extract_offset(
        r#"
struct S;
impl S {
    fn make<T>(&self) -> T {}
}
fn main() {
    S.make<|>();
}
"#,
    );
    let edit = add_turbo_fish(false, true, 1, offset, true).expect("the assist applies");
    let result = insert_text(&text, edit.offset, &edit.snippet);
    assert_eq!(
        result,
        r#"
struct S;
impl S {
    fn make<T>(&self) -> T {}
}
fn main() {
    S.make::<${0:_}>();
}
"#
    );
}

#[test]
fn add_turbo_fish_one_fish_is_enough() {
    let (offset, _text) = extract_offset(
        r#"
fn make<T>() -> T {}
fn main() {
    make<|>::<()>();
}
"#,
    );
    // The name is already followed by `::`.
    assert!(add_turbo_fish(true, true, 1, offset, true).is_none());
}

#[test]
fn add_turbo_fish_non_generic() {
    let (offset, _text) = extract_offset(
        r#"
fn make() -> () {}
fn main() {
    make<|>();
}
"#,
    );
    assert!(add_turbo_fish(false, true, 0, offset, true).is_none());
}

#[test]
fn add_turbo_fish_without_snippet_support() {
    let edit = add_turbo_fish(false, true, 2, 7, false).expect("the assist applies");
    assert_eq!(edit.offset, 7);
    assert_eq!(edit.snippet, "::<_>");
}

#[test]
fn extract_offset_removes_the_marker() {
    let (offset, text) = extract_offset("ab<|>cd");
    assert_eq!(offset, 2);
    assert_eq!(text, "abcd");
    assert!(try_extract_offset("no marker").is_none());
}

#[test]
fn extract_range_takes_the_first_two_markers() {
    let (range, text) = extract_range("a<|>bc<|>d");
    assert_eq!(range, TextRange { start: 1, end: 3 });
    assert_eq!(text, "abcd");
}

#[test]
fn extract_range_or_offset_picks_by_marker_count() {
    let (sel, text) = extract_range_or_offset("a<|>b");
    assert!(matches!(sel, RangeOrOffset::Offset(1)));
    assert_eq!(text, "ab");
    let (sel2, text2) = extract_range_or_offset("a<|>b<|>c");
    assert!(matches!(sel2, RangeOrOffset::Range(TextRange { start: 1, end: 2 })));
    assert_eq!(text2, "abc");
    let range: TextRange = TextRange::from(sel2);
    assert_eq!(range, TextRange { start: 1, end: 2 });
    let collapsed: TextRange = TextRange::from(sel);
    assert_eq!(collapsed, TextRange { start: 1, end: 1 });
}

#[test]
fn add_cursor_inserts_the_marker() {
    assert_eq!(add_cursor("abcd", 2), "ab<|>cd");
    let (offset, text) = extract_offset("x<|>y");
    assert_eq!(add_cursor(&text, offset), "x<|>y");
}

#[test]
fn extract_ranges_strips_tags_and_sorts() {
    let (ranges, text) =
        method_resolution::text::extract_ranges("<r>ab</r>c<r>d</r>", "r");
    assert_eq!(text, "abcd");
    assert_eq!(
        ranges,
        vec![TextRange { start: 0, end: 2 }, TextRange { start: 3, end: 4 }]
    );
}

#[test]
fn extract_ranges_handles_nesting() {
    let (ranges, text) =
        method_resolution::text::extract_ranges("<r>a<r>b</r>c</r>", "r");
    assert_eq!(text, "abc");
    // The outer range closes last but sorts first.
    assert_eq!(
        ranges,
        vec![TextRange { start: 0, end: 3 }, TextRange { start: 1, end: 2 }]
    );
}

#[test]
fn extract_ranges_without_tags_keeps_the_text() {
    let (ranges, text) = method_resolution::text::extract_ranges("plain", "tag");
    assert!(ranges.is_empty());
    assert_eq!(text, "plain");
}
