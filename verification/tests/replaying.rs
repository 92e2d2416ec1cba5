use jumprope::JumpRope;
use rope_benches::coalesce::{coalesce, flatten, Op};
use rope_benches::containers::crop_rope::CropRope;
use rope_benches::containers::plain_text::PlainText;
use rope_benches::containers::ropey_rope::RopeyRope;
use rope_benches::executor::{
    build_from_edits, overhead_bytes, run_coalesced, run_ops, run_patches, run_trace, seeded,
    ReplayError,
};
use rope_benches::rope::{edit_unit, Rope};
use rope_benches::text::PositionUnit;
use rope_benches::trace::{Patch, Trace, Transaction};
use text_buffer::Buffer;

fn patch(position: usize, delete_length: usize, insert_text: &str) -> Patch {
    Patch { position, delete_length, insert_text: insert_text.to_string() }
}

fn trace(start: &str, end: &str, txns: Vec<Vec<Patch>>, unit: PositionUnit) -> Trace {
    Trace {
        start_content: start.to_string(),
        end_content: end.to_string(),
        transactions: txns.into_iter().map(|patches| Transaction { patches }).collect(),
        position_unit: unit,
    }
}

fn session(unit: PositionUnit) -> Trace {
    trace(
        "",
        "Hello, world!",
        vec![
            vec![patch(0, 0, "H"), patch(1, 0, "e"), patch(2, 0, "l"), patch(3, 0, "lo")],
            vec![patch(5, 0, " wrld")],
            vec![patch(7, 0, "o"), patch(5, 0, ","), patch(12, 0, "?!")],
            vec![patch(12, 1, "")],
            vec![patch(0, 1, "h"), patch(0, 1, "H")],
        ],
        unit,
    )
}

fn accented() -> Trace {
    trace(
        "né",
        "naïve café",
        vec![vec![patch(1, 1, "aïve"), patch(5, 0, " caf"), patch(9, 0, "é")]],
        PositionUnit::Codepoint,
    )
}

fn check_replay<R: Rope>(t: &Trace) {
    assert!(t.is_valid());
    let r: R = run_trace(t).ok().unwrap();
    assert_eq!(Rope::to_string(&r), t.end_content);
    assert_eq!(r.get_string(), t.end_content.as_str());
    assert_eq!(r.char_len(), t.end_content.chars().count());
    assert_eq!(r.byte_len(), t.end_content.len());
    assert!(t.has_plain_texts());
    let merged: R = run_coalesced(t).ok().unwrap();
    assert_eq!(Rope::to_string(&merged), t.end_content);
    let flat: R = run_ops(&flatten(t), &t.start_content);
    assert_eq!(Rope::to_string(&flat), t.end_content);
}

#[test]
fn units_of_the_containers() {
    assert_eq!(edit_unit::<JumpRope>(), PositionUnit::Codepoint);
    assert_eq!(edit_unit::<RopeyRope>(), PositionUnit::Codepoint);
    assert_eq!(edit_unit::<Buffer>(), PositionUnit::Codepoint);
    assert_eq!(edit_unit::<CropRope>(), PositionUnit::Byte);
    assert!(CropRope::EDITS_USE_BYTE_OFFSETS);
    assert!(!JumpRope::EDITS_USE_BYTE_OFFSETS);
    assert_eq!(JumpRope::NAME, "JumpRope");
    assert_eq!(RopeyRope::NAME, "Ropey");
    assert_eq!(CropRope::NAME, "Crop");
    assert_eq!(Buffer::NAME, "Buffer");
}

#[test]
fn replay_on_jumprope() {
    check_replay::<JumpRope>(&session(PositionUnit::Codepoint));
    check_replay::<JumpRope>(&accented());
}

#[test]
fn replay_on_ropey() {
    check_replay::<RopeyRope>(&session(PositionUnit::Codepoint));
    check_replay::<RopeyRope>(&accented());
}

#[test]
fn replay_on_buffer() {
    check_replay::<Buffer>(&session(PositionUnit::Codepoint));
    check_replay::<Buffer>(&accented());
}

#[test]
fn replay_on_crop() {
    check_replay::<CropRope>(&session(PositionUnit::Byte));
    let t = trace(
        "né",
        "naïve café",
        vec![vec![patch(1, 2, "aïve"), patch(6, 0, " caf"), patch(10, 0, "é")]],
        PositionUnit::Byte,
    );
    assert!(t.is_valid());
    let r: CropRope = run_trace(&t).ok().unwrap();
    assert_eq!(Rope::to_string(&r), "naïve café");
    assert_eq!(r.char_len(), 10);
    assert_eq!(r.byte_len(), 12);
}

#[test]
fn replay_on_plain_text() {
    check_replay::<PlainText<false>>(&session(PositionUnit::Codepoint));
    check_replay::<PlainText<false>>(&accented());
    check_replay::<PlainText<true>>(&session(PositionUnit::Byte));
    let t = trace(
        "né",
        "naïve café",
        vec![vec![patch(1, 2, "aïve"), patch(6, 0, " caf"), patch(10, 0, "é")]],
        PositionUnit::Byte,
    );
    assert!(t.is_valid());
    let r: PlainText<true> = run_trace(&t).ok().unwrap();
    assert_eq!(r.text, "naïve café");
    assert_eq!(r.char_len(), 10);
    assert_eq!(r.byte_len(), 12);
    assert_eq!(edit_unit::<PlainText<true>>(), PositionUnit::Byte);
    assert_eq!(PlainText::<false>::unit(), PositionUnit::Codepoint);
    assert!(matches!(run_trace::<PlainText<false>>(&t), Err(ReplayError::UnitMismatch)));
}

#[test]
fn a_trace_in_another_unit_is_refused() {
    let in_bytes = session(PositionUnit::Byte);
    assert!(matches!(run_trace::<JumpRope>(&in_bytes), Err(ReplayError::UnitMismatch)));
    assert!(matches!(run_coalesced::<Buffer>(&in_bytes), Err(ReplayError::UnitMismatch)));
    assert!(matches!(run_trace::<RopeyRope>(&in_bytes), Err(ReplayError::UnitMismatch)));
    assert!(matches!(
        build_from_edits::<RopeyRope>(&in_bytes, 100),
        Err(ReplayError::UnitMismatch)
    ));
    let in_codepoints = session(PositionUnit::Codepoint);
    assert!(matches!(run_trace::<CropRope>(&in_codepoints), Err(ReplayError::UnitMismatch)));
    let converted = in_codepoints.with_unit(PositionUnit::Byte).unwrap();
    let r: CropRope = run_trace(&converted).ok().unwrap();
    assert_eq!(Rope::to_string(&r), "Hello, world!");
}

#[test]
fn coalescing_shortens_the_session() {
    let t = session(PositionUnit::Codepoint);
    assert_eq!(flatten(&t).len(), 13);
    assert_eq!(
        coalesce(&t),
        vec![
            Op::Insert(0, "Hello wrld".to_string()),
            Op::Insert(7, "o".to_string()),
            Op::Insert(5, ",".to_string()),
            Op::Insert(12, "?!".to_string()),
            Op::Delete(12, 1),
            Op::Delete(0, 1),
            Op::Insert(0, "h".to_string()),
            Op::Delete(0, 1),
            Op::Insert(0, "H".to_string()),
        ]
    );
}

#[test]
fn patches_run_on_a_seeded_container() {
    let mut r: JumpRope = seeded("tail");
    assert_eq!(Rope::to_string(&r), "tail");
    run_patches(&mut r, &session(PositionUnit::Codepoint));
    assert_eq!(Rope::to_string(&r), "Hello, world!tail");
    let b: Buffer = seeded("héllo");
    assert_eq!(b.char_len(), 5);
    assert_eq!(b.byte_len(), 6);
    let e: CropRope = seeded("");
    assert_eq!(e.byte_len(), 0);
}

#[test]
fn building_from_edits_repeats_the_end_content() {
    let t = session(PositionUnit::Codepoint);
    let r: JumpRope = build_from_edits(&t, 40).ok().unwrap();
    assert_eq!(Rope::to_string(&r), "Hello, world!".repeat(3));
    let r: RopeyRope = build_from_edits(&t, 12).ok().unwrap();
    assert_eq!(Rope::to_string(&r), "");
    let r: Buffer = build_from_edits(&t, 13).ok().unwrap();
    assert_eq!(Rope::to_string(&r), "Hello, world!");
    let r: CropRope = build_from_edits(&session(PositionUnit::Byte), 26).ok().unwrap();
    assert_eq!(Rope::to_string(&r), "Hello, world!Hello, world!");
}

#[test]
fn edits_through_the_contract() {
    fn check<R: Rope>() {
        let mut r: R = seeded("hello world");
        r.edit_at(5, 6, "!");
        assert_eq!(Rope::to_string(&r), "hello!");
        r.edit_at(0, 0, "");
        assert_eq!(Rope::to_string(&r), "hello!");
        r.edit_at(0, 5, "");
        assert_eq!(Rope::to_string(&r), "!");
        r.edit_at(1, 0, "?");
        assert_eq!(Rope::to_string(&r), "!?");
        r.del_at(0, 2);
        assert_eq!(r.char_len(), 0);
        let fresh = R::new();
        assert_eq!(fresh.to_string(), "");
    }
    check::<JumpRope>();
    check::<RopeyRope>();
    check::<CropRope>();
    check::<Buffer>();
    check::<PlainText<true>>();
    check::<PlainText<false>>();
}

#[test]
fn the_gap_buffer_reads_across_its_gap() {
    let mut b: Buffer = seeded("hello world");
    b.insert_at(5, ",");
    assert_eq!(b.get_string(), "hello, world");
    assert_eq!(Rope::to_string(&b), "hello, world");
    b.del_at(0, 7);
    assert_eq!(b.get_string(), "world");
}

#[test]
fn overhead_in_bytes() {
    assert_eq!(overhead_bytes(1500, 1000), 500);
    assert_eq!(overhead_bytes(7, 7), 0);
}
