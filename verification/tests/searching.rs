use jumprope::JumpRope;
use regex::Regex;
use rope_benches::containers::crop_rope::CropRope;
use rope_benches::containers::plain_text::PlainText;
use rope_benches::containers::ropey_rope::RopeyRope;
use rope_benches::executor::seeded;
use rope_benches::rope::Rope;
use rope_benches::search::{offset_of_byte, search_lines, search_text};
use rope_benches::text::PositionUnit;
use text_buffer::Buffer;

fn pattern() -> Regex {
    Regex::new(r"foo(bar|baz)fob").unwrap()
}

fn searches<R: Rope>(text: &str) -> (usize, usize) {
    let r: R = seeded(text);
    (r.line_search(&pattern()), r.full_search(&pattern()))
}

#[test]
fn offsets_of_bytes() {
    assert_eq!(offset_of_byte("héllo", 3, PositionUnit::Byte), 3);
    assert_eq!(offset_of_byte("héllo", 3, PositionUnit::Codepoint), 2);
    assert_eq!(offset_of_byte("héllo", 0, PositionUnit::Codepoint), 0);
    assert_eq!(offset_of_byte("héllo", 6, PositionUnit::Codepoint), 5);
}

#[test]
fn text_search_finds_the_first_match() {
    let re = pattern();
    assert_eq!(search_text(&re, "xx foobazfob foobarfob", PositionUnit::Byte), 3);
    assert_eq!(search_text(&re, "é foobazfob", PositionUnit::Byte), 3);
    assert_eq!(search_text(&re, "é foobazfob", PositionUnit::Codepoint), 2);
    assert_eq!(search_text(&re, "foobarfob", PositionUnit::Codepoint), 0);
}

#[test]
fn text_search_without_match_gives_the_length() {
    let re = pattern();
    assert_eq!(search_text(&re, "é foobaz fob", PositionUnit::Byte), 13);
    assert_eq!(search_text(&re, "é foobaz fob", PositionUnit::Codepoint), 12);
    assert_eq!(search_text(&re, "", PositionUnit::Codepoint), 0);
}

#[test]
fn line_search_adds_up_the_lines_before_the_match() {
    let re = pattern();
    let lines = vec!["é\n".to_string(), "ab\n".to_string(), "x foobarfob\n".to_string()];
    assert_eq!(search_lines(&re, &lines, PositionUnit::Codepoint), 7);
    assert_eq!(search_lines(&re, &lines, PositionUnit::Byte), 8);
    let lines = vec!["é\n".to_string(), "foo".to_string(), "barfob".to_string()];
    assert_eq!(search_lines(&re, &lines, PositionUnit::Codepoint), 11);
    assert_eq!(search_lines(&re, &lines, PositionUnit::Byte), 12);
    assert_eq!(search_lines(&re, &Vec::new(), PositionUnit::Byte), 0);
}

#[test]
fn containers_find_a_match_in_a_later_line() {
    let text = "héllo\nabc foobazfob\nend\n";
    assert_eq!(searches::<JumpRope>(text), (10, 10));
    assert_eq!(searches::<RopeyRope>(text), (10, 10));
    assert_eq!(searches::<Buffer>(text), (10, 10));
    assert_eq!(searches::<CropRope>(text), (11, 11));
    assert_eq!(searches::<PlainText<false>>(text), (10, 10));
    assert_eq!(searches::<PlainText<true>>(text), (11, 11));
}

#[test]
fn containers_report_their_length_without_a_match() {
    let text = "héllo\nabc foobaz\nfob\r\nend";
    assert_eq!(searches::<JumpRope>(text), (25, 25));
    assert_eq!(searches::<RopeyRope>(text), (25, 25));
    assert_eq!(searches::<Buffer>(text), (25, 25));
    assert_eq!(searches::<CropRope>(text), (26, 26));
    assert_eq!(searches::<RopeyRope>(""), (0, 0));
    assert_eq!(searches::<CropRope>(""), (0, 0));
}

#[test]
fn a_match_across_lines_is_found_by_the_full_search_only() {
    let re = Regex::new(r"(?s)foo..fob").unwrap();
    let text = "ab\nfoo\n\nfob";
    let ropey: RopeyRope = seeded(text);
    assert_eq!(ropey.full_search(&re), 3);
    assert_eq!(ropey.line_search(&re), 11);
    let crop: CropRope = seeded(text);
    assert_eq!(crop.full_search(&re), 3);
    assert_eq!(crop.line_search(&re), 11);
    let jump: JumpRope = seeded(text);
    assert_eq!(jump.line_search(&re), 3);
    let buffer: Buffer = seeded(text);
    assert_eq!(buffer.line_search(&re), 3);
}

#[test]
fn cursor_search_counts_bytes() {
    let re = regex_cursor::engines::meta::Regex::new(r"foo(bar|baz)fob").unwrap();
    let r: RopeyRope = seeded("héllo\nabc foobazfob\nend\n");
    assert_eq!(r.line_search_cursor(&re), 11);
    let r: RopeyRope = seeded("héllo\nabc foobaz\nfob");
    assert_eq!(r.line_search_cursor(&re), 21);
    let r: RopeyRope = seeded("");
    assert_eq!(r.line_search_cursor(&re), 0);
}
