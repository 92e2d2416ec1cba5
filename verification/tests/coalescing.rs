use rope_benches::coalesce::{coalesce, coalesce_ops, flatten, Op};
use rope_benches::text::{apply_edit, PositionUnit};
use rope_benches::trace::{Patch, Trace, Transaction};

fn patch(position: usize, delete_length: usize, insert_text: &str) -> Patch {
    Patch { position, delete_length, insert_text: insert_text.to_string() }
}

fn trace(start: &str, end: &str, patches: Vec<Patch>) -> Trace {
    Trace {
        start_content: start.to_string(),
        end_content: end.to_string(),
        transactions: vec![Transaction { patches }],
        position_unit: PositionUnit::Codepoint,
    }
}

fn run(ops: &[Op], start: &str, unit: PositionUnit) -> String {
    let mut doc = start.to_string();
    for op in ops {
        doc = match op {
            Op::Insert(pos, text) => apply_edit(&doc, unit, *pos, 0, text).unwrap(),
            Op::Delete(pos, len) => apply_edit(&doc, unit, *pos, *len, "").unwrap(),
        };
    }
    doc
}

#[test]
fn adjacent_insertions_merge() {
    let t = trace("", "abcd", vec![patch(0, 0, "ab"), patch(2, 0, "cd")]);
    assert!(t.is_valid());
    assert_eq!(
        flatten(&t),
        vec![Op::Insert(0, "ab".to_string()), Op::Insert(2, "cd".to_string())]
    );
    assert_eq!(coalesce(&t), vec![Op::Insert(0, "abcd".to_string())]);
    assert_eq!(run(&flatten(&t), "", PositionUnit::Codepoint), "abcd");
    assert_eq!(run(&coalesce(&t), "", PositionUnit::Codepoint), "abcd");
}

#[test]
fn deletions_at_one_position_merge() {
    let t = trace("0123456789", "01234", vec![patch(5, 2, ""), patch(5, 3, "")]);
    assert!(t.is_valid());
    assert_eq!(flatten(&t), vec![Op::Delete(5, 2), Op::Delete(5, 3)]);
    assert_eq!(coalesce(&t), vec![Op::Delete(5, 5)]);
    assert_eq!(run(&coalesce(&t), "0123456789", PositionUnit::Codepoint), "01234");
}

#[test]
fn backspaces_merge() {
    let t = trace("0123456789", "0123489", vec![patch(7, 1, ""), patch(6, 1, ""), patch(5, 1, "")]);
    assert!(t.is_valid());
    assert_eq!(coalesce(&t), vec![Op::Delete(5, 3)]);
}

#[test]
fn recoalescing_can_merge_deletions_again() {
    let ops = vec![Op::Delete(10, 2), Op::Delete(7, 1), Op::Delete(7, 2)];
    let once = coalesce_ops(&ops);
    assert_eq!(once, vec![Op::Delete(10, 2), Op::Delete(7, 3)]);
    assert_eq!(coalesce_ops(&once), vec![Op::Delete(7, 5)]);
}

#[test]
fn operations_of_a_patch_delete_first() {
    let t = trace("abc", "aXc", vec![patch(1, 1, "X"), patch(0, 0, ""), patch(3, 0, "")]);
    assert!(t.is_valid());
    assert_eq!(flatten(&t), vec![Op::Delete(1, 1), Op::Insert(1, "X".to_string())]);
    assert_eq!(coalesce(&t), vec![Op::Delete(1, 1), Op::Insert(1, "X".to_string())]);
    assert!(coalesce(&t).len() > t.len() - 2);
}

#[test]
fn a_replacing_patch_counts_for_two_operations() {
    let t = trace("a", "x", vec![patch(0, 1, "x")]);
    assert!(t.is_valid());
    assert_eq!(t.len(), 1);
    assert_eq!(coalesce(&t).len(), 2);
    assert_eq!(run(&coalesce(&t), "a", PositionUnit::Codepoint), "x");
}

#[test]
fn distant_operations_stay_apart() {
    let t = trace(
        "0123456789",
        "a01b245",
        vec![patch(0, 0, "a"), patch(3, 0, "b"), patch(5, 1, ""), patch(7, 3, ""), patch(7, 1, "")],
    );
    assert!(t.is_valid());
    assert_eq!(
        coalesce(&t),
        vec![
            Op::Insert(0, "a".to_string()),
            Op::Insert(3, "b".to_string()),
            Op::Delete(5, 1),
            Op::Delete(7, 4),
        ]
    );
    assert_eq!(run(&coalesce(&t), "0123456789", PositionUnit::Codepoint), "a01b245");
}

#[test]
fn insertions_merge_by_characters_not_bytes() {
    let t = trace("", "éàü", vec![patch(0, 0, "é"), patch(1, 0, "à"), patch(2, 0, "ü")]);
    assert!(t.is_valid());
    assert_eq!(coalesce(&t), vec![Op::Insert(0, "éàü".to_string())]);
    assert_eq!(run(&coalesce(&t), "", PositionUnit::Codepoint), "éàü");
}

#[test]
fn in_bytes_merged_insertions_of_wider_text_go_astray() {
    let t = Trace {
        start_content: String::new(),
        end_content: "éxa".to_string(),
        transactions: vec![Transaction { patches: vec![patch(0, 0, "éa"), patch(2, 0, "x")] }],
        position_unit: PositionUnit::Byte,
    };
    assert!(t.is_valid());
    assert!(!t.has_plain_texts());
    assert_eq!(run(&flatten(&t), "", PositionUnit::Byte), "éxa");
    assert_eq!(coalesce(&t), vec![Op::Insert(0, "éax".to_string())]);
    assert_eq!(run(&coalesce(&t), "", PositionUnit::Byte), "éax");
}

#[test]
fn coalescing_never_adds_operations() {
    let t = trace(
        "",
        "abXYcd",
        vec![
            patch(0, 0, "a"),
            patch(1, 0, "b"),
            patch(2, 0, "c"),
            patch(3, 0, "d"),
            patch(2, 0, "X"),
            patch(3, 0, "Y"),
        ],
    );
    assert!(t.is_valid());
    let merged = coalesce(&t);
    assert_eq!(merged, vec![Op::Insert(0, "abcd".to_string()), Op::Insert(2, "XY".to_string())]);
    assert!(merged.len() <= flatten(&t).len());
    assert!(merged.len() <= t.len());
    assert_eq!(run(&merged, "", PositionUnit::Codepoint), "abXYcd");
}

#[test]
fn recoalescing_insertions_changes_nothing() {
    let ops = vec![
        Op::Insert(0, "ab".to_string()),
        Op::Insert(2, "cd".to_string()),
        Op::Insert(1, "x".to_string()),
        Op::Insert(2, "y".to_string()),
        Op::Insert(9, "z".to_string()),
    ];
    let once = coalesce_ops(&ops);
    assert_eq!(
        once,
        vec![
            Op::Insert(0, "abcd".to_string()),
            Op::Insert(1, "xy".to_string()),
            Op::Insert(9, "z".to_string()),
        ]
    );
    assert_eq!(coalesce_ops(&once), once);
}

#[test]
fn recoalescing_settled_operations_changes_nothing() {
    let t = trace("0123456789", "01234", vec![patch(5, 2, ""), patch(5, 3, "")]);
    let once = coalesce(&t);
    assert_eq!(coalesce_ops(&once), once);
    let mixed = vec![Op::Delete(3, 1), Op::Insert(3, "a".to_string()), Op::Delete(3, 1)];
    assert_eq!(coalesce_ops(&mixed), mixed);
    assert_eq!(coalesce_ops(&Vec::new()), Vec::new());
}

#[test]
fn deletions_too_long_to_add_up_stay_apart() {
    let ops = vec![Op::Delete(0, usize::MAX), Op::Delete(0, 1)];
    assert_eq!(coalesce_ops(&ops), ops);
    let ops = vec![Op::Insert(usize::MAX, "a".to_string()), Op::Insert(0, "b".to_string())];
    assert_eq!(coalesce_ops(&ops), ops);
    let ops = vec![Op::Delete(5, 1), Op::Delete(usize::MAX, 6)];
    assert_eq!(coalesce_ops(&ops), ops);
}

#[test]
fn operations_as_patches() {
    assert_eq!(Op::Insert(3, "ab".to_string()).as_patch(), patch(3, 0, "ab"));
    assert_eq!(Op::Delete(3, 2).as_patch(), patch(3, 2, ""));
}

#[test]
fn recoalescing_through_a_trace_of_one_patch_each() {
    let t = trace(
        "",
        "abXYcd",
        vec![
            patch(0, 0, "a"),
            patch(1, 0, "b"),
            patch(2, 0, "c"),
            patch(3, 0, "d"),
            patch(2, 0, "X"),
            patch(3, 0, "Y"),
        ],
    );
    let once = coalesce(&t);
    let again = trace("", "abXYcd", once.iter().map(|op| op.as_patch()).collect());
    assert!(again.is_valid());
    assert_eq!(flatten(&again), once);
    assert_eq!(coalesce(&again), once);
}
