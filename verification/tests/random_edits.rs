use jumprope::JumpRope;
use rand::rngs::SmallRng;
use rand::SeedableRng;
use rope_benches::containers::crop_rope::CropRope;
use rope_benches::containers::ropey_rope::RopeyRope;
use rope_benches::executor::seeded;
use rope_benches::random::{gen_strings, random_ascii_string, random_string, utf8_width, CHARS};
use rope_benches::rope::Rope;
use rope_benches::workloads::{
    append, delete_drawn, ins_random, insert_drawn, move_gap, stable_ins_del,
};
use text_buffer::Buffer;

#[test]
fn ascii_strings_have_the_length_asked_for() {
    let mut rng = SmallRng::seed_from_u64(123);
    for len in [0, 1, 2, 17, 300] {
        let s = random_ascii_string(&mut rng, len);
        assert_eq!(s.len(), len);
        assert!(s.chars().all(|c| CHARS.contains(c)));
    }
}

#[test]
fn the_character_set() {
    assert_eq!(CHARS.len(), 83);
    assert!(CHARS.is_ascii());
    assert!(CHARS.starts_with(" ABC"));
    assert!(CHARS.ends_with("?,./"));
}

#[test]
fn strings_reach_the_length_in_bytes() {
    let mut rng = SmallRng::seed_from_u64(123);
    for len in [0, 1, 2, 3, 50, 1000] {
        let s = random_string(&mut rng, len);
        assert!(s.len() >= len);
        assert!(s.len() < len + 3);
        assert!(s.chars().all(|c| (c as u32) < 0xD7FF));
    }
    assert_eq!(random_string(&mut rng, 0), "");
}

#[test]
fn widths_in_utf8() {
    assert_eq!(utf8_width('a'), 1);
    assert_eq!(utf8_width('\u{7f}'), 1);
    assert_eq!(utf8_width('\u{80}'), 2);
    assert_eq!(utf8_width('é'), 2);
    assert_eq!(utf8_width('\u{7ff}'), 2);
    assert_eq!(utf8_width('\u{800}'), 3);
    assert_eq!(utf8_width('€'), 3);
    assert_eq!(utf8_width('\u{ffff}'), 3);
    assert_eq!(utf8_width('\u{10000}'), 4);
    assert_eq!(utf8_width('🌎'), 4);
}

#[test]
fn a_hundred_short_strings() {
    let mut rng = SmallRng::seed_from_u64(123);
    let strings = gen_strings(&mut rng);
    assert_eq!(strings.len(), 100);
    assert!(strings.iter().all(|s| s.len() == 1 || s.len() == 2));
    assert!(strings.iter().all(|s| s.chars().all(|c| CHARS.contains(c))));
    assert!(strings.iter().any(|s| s.len() == 1));
    assert!(strings.iter().any(|s| s.len() == 2));
}

#[test]
fn appending_and_removing_words() {
    fn check<R: Rope>() {
        let mut r: R = seeded("");
        let mut len = 0;
        append(&mut r, &mut len, 3);
        assert_eq!(r.to_string(), "");
        assert_eq!(len, 10);
        let mut r: R = seeded("0123456789abcde");
        let mut len = 15;
        append(&mut r, &mut len, 2);
        assert_eq!(r.to_string(), "abcderopesropes");
        assert_eq!(len, 20);
    }
    check::<JumpRope>();
    check::<RopeyRope>();
    check::<CropRope>();
    check::<Buffer>();
}

#[test]
fn moving_the_gap_keeps_the_text() {
    fn check<R: Rope>() {
        let mut r: R = seeded("hello world");
        let mut forward = true;
        move_gap(&mut r, 11, &mut forward);
        assert!(!forward);
        assert_eq!(r.to_string(), "hello world");
        move_gap(&mut r, 11, &mut forward);
        assert!(forward);
        assert_eq!(r.to_string(), "hello world");
        assert_eq!(r.byte_len(), 11);
    }
    check::<JumpRope>();
    check::<RopeyRope>();
    check::<CropRope>();
    check::<Buffer>();
}

#[test]
fn drawn_edits() {
    fn check<R: Rope>() {
        let mut r: R = seeded("0123456789");
        let mut len = 10;
        insert_drawn(&mut r, &mut len, 4, "ab");
        assert_eq!(r.to_string(), "0123ab456789");
        assert_eq!(len, 12);
        delete_drawn(&mut r, &mut len, 2, 3);
        assert_eq!(r.to_string(), "01b456789");
        assert_eq!(len, 9);
        delete_drawn(&mut r, &mut len, 7, 9);
        assert_eq!(r.to_string(), "01b4567");
        assert_eq!(len, 7);
        delete_drawn(&mut r, &mut len, 7, 4);
        assert_eq!(r.to_string(), "01b4567");
        assert_eq!(len, 7);
        insert_drawn(&mut r, &mut len, 7, "!");
        assert_eq!(r.to_string(), "01b4567!");
        assert_eq!(len, 8);
    }
    check::<JumpRope>();
    check::<RopeyRope>();
    check::<CropRope>();
    check::<Buffer>();
}

#[test]
fn random_insertions_grow_the_text() {
    fn check<R: Rope>() {
        let mut rng = SmallRng::seed_from_u64(123);
        let strings = gen_strings(&mut rng);
        let mut r = R::new();
        let mut len = 0;
        for _ in 0..200 {
            let before = len;
            ins_random(&mut r, &mut rng, &strings, &mut len);
            assert!(len == before + 1 || len == before + 2);
            assert_eq!(r.char_len(), len);
        }
        assert!(r.to_string().chars().all(|c| CHARS.contains(c)));
    }
    check::<JumpRope>();
    check::<RopeyRope>();
    check::<CropRope>();
    check::<Buffer>();
}

#[test]
fn edits_keep_the_text_near_the_target() {
    fn check<R: Rope>() {
        let mut rng = SmallRng::seed_from_u64(123);
        let strings = gen_strings(&mut rng);
        let target = 50;
        let mut r: R = seeded(&random_ascii_string(&mut rng, target));
        let mut len = target;
        for _ in 0..500 {
            let before = len;
            stable_ins_del(&mut r, &mut rng, &strings, &mut len, target);
            if before <= target {
                assert!(len == before + 1 || len == before + 2);
            } else {
                assert!(len <= before && before - len <= 9);
            }
            assert!(len <= target + 2 && len + 9 > target);
            assert_eq!(r.char_len(), len);
        }
    }
    check::<JumpRope>();
    check::<RopeyRope>();
    check::<CropRope>();
    check::<Buffer>();
}
