use rope_benches::text::{apply_edit, measure_of, split_at_offset, stretch, PositionUnit};
use rope_benches::trace::{Patch, Trace, Transaction};

fn patch(position: usize, delete_length: usize, insert_text: &str) -> Patch {
    Patch { position, delete_length, insert_text: insert_text.to_string() }
}

fn trace(start: &str, end: &str, txns: Vec<Vec<Patch>>, unit: PositionUnit) -> Trace {
    Trace {
        start_content: start.to_string(),
        end_content: end.to_string(),
        transactions: txns.into_iter().map(|patches| Transaction { patches }).collect(),
        position_unit: unit,
    }
}

#[test]
fn measures_in_both_units() {
    assert_eq!(measure_of("héllo", PositionUnit::Codepoint), 5);
    assert_eq!(measure_of("héllo", PositionUnit::Byte), 6);
    assert_eq!(measure_of("", PositionUnit::Byte), 0);
    assert_eq!(measure_of("🌎", PositionUnit::Byte), 4);
    assert_eq!(measure_of("🌎", PositionUnit::Codepoint), 1);
}

#[test]
fn splits_at_offsets() {
    assert_eq!(split_at_offset("héllo", PositionUnit::Codepoint, 2), Some(("hé", "llo")));
    assert_eq!(split_at_offset("héllo", PositionUnit::Byte, 3), Some(("hé", "llo")));
    assert_eq!(split_at_offset("héllo", PositionUnit::Byte, 2), None);
    assert_eq!(split_at_offset("héllo", PositionUnit::Byte, 6), Some(("héllo", "")));
    assert_eq!(split_at_offset("héllo", PositionUnit::Byte, 7), None);
    assert_eq!(split_at_offset("héllo", PositionUnit::Codepoint, 5), Some(("héllo", "")));
    assert_eq!(split_at_offset("héllo", PositionUnit::Codepoint, 6), None);
    assert_eq!(split_at_offset("", PositionUnit::Codepoint, 0), Some(("", "")));
}

#[test]
fn edits_delete_then_insert() {
    let cp = PositionUnit::Codepoint;
    assert_eq!(apply_edit("hello world", cp, 5, 6, "!"), Some("hello!".to_string()));
    assert_eq!(apply_edit("hello", cp, 5, 0, " you"), Some("hello you".to_string()));
    assert_eq!(apply_edit("hello", cp, 0, 5, ""), Some(String::new()));
    assert_eq!(apply_edit("hello", cp, 2, 0, ""), Some("hello".to_string()));
    assert_eq!(apply_edit("hello", cp, 6, 0, "x"), None);
    assert_eq!(apply_edit("hello", cp, 3, 3, "x"), None);
    assert_eq!(apply_edit("hello", cp, usize::MAX, 2, "x"), None);
}

#[test]
fn edits_in_bytes_keep_to_character_boundaries() {
    let b = PositionUnit::Byte;
    assert_eq!(apply_edit("aéb", b, 1, 2, "e"), Some("aeb".to_string()));
    assert_eq!(apply_edit("aéb", b, 3, 0, "x"), Some("aéxb".to_string()));
    assert_eq!(apply_edit("aéb", b, 2, 0, "x"), None);
    assert_eq!(apply_edit("aéb", b, 1, 1, ""), None);
    assert_eq!(apply_edit("aéb", b, 4, 0, "!"), Some("aéb!".to_string()));
    assert_eq!(apply_edit("aéb", b, 5, 0, "!"), None);
    assert_eq!(apply_edit("aéb", PositionUnit::Codepoint, 1, 1, ""), Some("ab".to_string()));
}

#[test]
fn patches_apply_to_text() {
    let p = patch(1, 2, "XY");
    assert_eq!(p.apply_to("abcd", PositionUnit::Codepoint), Some("aXYd".to_string()));
    assert_eq!(p.apply_to("ab", PositionUnit::Codepoint), None);
}

#[test]
fn well_formed_traces_are_valid() {
    let t = trace(
        "",
        "hello world",
        vec![vec![patch(0, 0, "hello")], vec![patch(5, 0, " word"), patch(9, 0, "l")]],
        PositionUnit::Codepoint,
    );
    assert!(t.is_valid());
    assert_eq!(t.len(), 3);
    assert!(!t.is_empty());
}

#[test]
fn traces_with_a_wrong_end_are_invalid() {
    let t = trace("", "hullo", vec![vec![patch(0, 0, "hello")]], PositionUnit::Codepoint);
    assert!(!t.is_valid());
}

#[test]
fn traces_that_leave_the_text_are_invalid() {
    let t = trace("abc", "abc", vec![vec![patch(4, 0, "")]], PositionUnit::Codepoint);
    assert!(!t.is_valid());
    let t = trace("abc", "ab", vec![vec![patch(2, 2, "")]], PositionUnit::Codepoint);
    assert!(!t.is_valid());
    let t = trace("abc", "ab", vec![vec![patch(2, 1, "")]], PositionUnit::Codepoint);
    assert!(t.is_valid());
}

#[test]
fn validity_depends_on_the_unit() {
    let patches = vec![vec![patch(0, 0, "é"), patch(1, 0, "x")]];
    assert!(trace("", "éx", patches.clone(), PositionUnit::Codepoint).is_valid());
    assert!(!trace("", "éx", patches, PositionUnit::Byte).is_valid());
    let patches = vec![vec![patch(0, 0, "é"), patch(2, 0, "x")]];
    assert!(trace("", "éx", patches, PositionUnit::Byte).is_valid());
}

#[test]
fn empty_traces() {
    let t = trace("same", "same", vec![vec![], vec![]], PositionUnit::Byte);
    assert!(t.is_empty());
    assert_eq!(t.len(), 0);
    assert!(t.is_valid());
    let t = trace("", "", vec![], PositionUnit::Codepoint);
    assert!(t.is_empty());
    assert!(t.is_valid());
    let t = trace("", "a", vec![vec![], vec![patch(0, 0, "a")]], PositionUnit::Codepoint);
    assert!(!t.is_empty());
}

#[test]
fn plain_texts_and_ascii() {
    let ascii = vec![vec![patch(0, 0, "ab"), patch(1, 1, "")]];
    let accented = vec![vec![patch(0, 0, "é")]];
    assert!(trace("", "a", ascii.clone(), PositionUnit::Byte).has_plain_texts());
    assert!(trace("", "a", ascii.clone(), PositionUnit::Byte).is_ascii());
    assert!(trace("", "é", accented.clone(), PositionUnit::Codepoint).has_plain_texts());
    assert!(!trace("", "é", accented.clone(), PositionUnit::Byte).has_plain_texts());
    assert!(!trace("", "é", accented, PositionUnit::Codepoint).is_ascii());
    assert!(!trace("é", "éa", ascii, PositionUnit::Codepoint).is_ascii());
}

#[test]
fn ascii_traces_can_be_read_in_either_unit() {
    let t = trace("", "a", vec![vec![patch(0, 0, "ab"), patch(1, 1, "")]], PositionUnit::Codepoint);
    assert!(t.is_valid());
    let in_bytes = t.with_unit(PositionUnit::Byte).unwrap();
    assert_eq!(in_bytes.position_unit, PositionUnit::Byte);
    assert!(in_bytes.is_valid());
    let back = in_bytes.with_unit(PositionUnit::Codepoint).unwrap();
    assert_eq!(back.position_unit, PositionUnit::Codepoint);
    assert_eq!(back.end_content, "a");
}

#[test]
fn other_traces_keep_their_unit() {
    let t = trace("", "éx", vec![vec![patch(0, 0, "é"), patch(1, 0, "x")]], PositionUnit::Codepoint);
    let same = t.clone().with_unit(PositionUnit::Codepoint).unwrap();
    assert_eq!(same, t);
    let refused = t.clone().with_unit(PositionUnit::Byte).unwrap_err();
    assert_eq!(refused, t);
}

#[test]
fn stretches_text_to_size() {
    assert_eq!(stretch("abc", 8), "abcabcab");
    assert_eq!(stretch("abc", 3), "abc");
    assert_eq!(stretch("abc", 2), "ab");
    assert_eq!(stretch("abc", 0), "");
    assert_eq!(stretch("é", 6), "ééé");
    assert_eq!(stretch("aé", 4), "aéa");
}
