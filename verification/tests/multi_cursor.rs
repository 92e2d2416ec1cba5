use jumprope::JumpRope;
use rope_benches::containers::crop_rope::CropRope;
use rope_benches::containers::plain_text::PlainText;
use rope_benches::containers::ropey_rope::RopeyRope;
use rope_benches::cursors::{
    alternating_applicable, is_even, mc_naive, mc_smart, sequential_applicable,
};
use rope_benches::rope::Rope;
use text_buffer::Buffer;

fn filled<R: Rope>(size: usize) -> R {
    let mut r = R::new();
    r.insert_at(0, &"a".repeat(size));
    r
}

fn sequential_pass<R: Rope>(params: (usize, usize, usize, usize)) -> String {
    let mut r: R = filled(params.0);
    assert!(sequential_applicable(&params));
    let before = r.byte_len();
    mc_naive(&mut r, &params);
    assert_eq!(r.byte_len(), before);
    assert_eq!(r.char_len(), params.0);
    r.to_string()
}

fn alternating_pass<R: Rope>(params: (usize, usize, usize, usize)) -> String {
    let mut r: R = filled(params.0);
    assert!(alternating_applicable(&params));
    let before = r.byte_len();
    mc_smart(&mut r, &params);
    assert_eq!(r.byte_len(), before);
    assert_eq!(r.char_len(), params.0);
    r.to_string()
}

fn odd_rounds_text() -> String {
    format!("bbbaaaaabbbaaab{}", "a".repeat(25))
}

fn even_rounds_text() -> String {
    format!("baaaaabbaaaaabb{}", "a".repeat(25))
}

#[test]
fn sequential_restores_length_jumprope() {
    assert_eq!(sequential_pass::<JumpRope>((40, 4, 5, 3)), odd_rounds_text());
}

#[test]
fn sequential_restores_length_ropey() {
    assert_eq!(sequential_pass::<RopeyRope>((40, 4, 5, 3)), odd_rounds_text());
}

#[test]
fn sequential_restores_length_crop() {
    assert_eq!(sequential_pass::<CropRope>((40, 4, 5, 3)), odd_rounds_text());
}

#[test]
fn sequential_restores_length_buffer() {
    assert_eq!(sequential_pass::<Buffer>((40, 4, 5, 3)), odd_rounds_text());
}

#[test]
fn alternating_restores_length_jumprope() {
    assert_eq!(alternating_pass::<JumpRope>((40, 4, 5, 3)), odd_rounds_text());
}

#[test]
fn alternating_restores_length_ropey() {
    assert_eq!(alternating_pass::<RopeyRope>((40, 4, 5, 3)), odd_rounds_text());
}

#[test]
fn alternating_restores_length_crop() {
    assert_eq!(alternating_pass::<CropRope>((40, 4, 5, 3)), odd_rounds_text());
}

#[test]
fn alternating_restores_length_buffer() {
    assert_eq!(alternating_pass::<Buffer>((40, 4, 5, 3)), odd_rounds_text());
}

#[test]
fn both_orders_restore_length_plain_text() {
    assert_eq!(sequential_pass::<PlainText<false>>((40, 4, 5, 3)), odd_rounds_text());
    assert_eq!(sequential_pass::<PlainText<true>>((40, 4, 5, 3)), odd_rounds_text());
    assert_eq!(alternating_pass::<PlainText<false>>((40, 4, 5, 3)), odd_rounds_text());
    assert_eq!(alternating_pass::<PlainText<true>>((40, 4, 5, 2)), even_rounds_text());
}

#[test]
fn both_orders_agree_on_other_parameters() {
    for params in [(100, 7, 3, 5), (64, 2, 1, 1), (30, 3, 15, 9), (12, 5, 3, 1)] {
        assert_eq!(
            sequential_pass::<PlainText<false>>(params),
            sequential_pass::<JumpRope>(params)
        );
        assert_eq!(
            alternating_pass::<PlainText<true>>(params),
            sequential_pass::<PlainText<true>>(params)
        );
        assert_eq!(alternating_pass::<Buffer>(params), sequential_pass::<CropRope>(params));
    }
    for params in [(100, 7, 3, 4), (64, 0, 1, 2), (30, 1, 1000, 8)] {
        assert_eq!(
            alternating_pass::<PlainText<false>>(params),
            alternating_pass::<RopeyRope>(params)
        );
    }
}

#[test]
fn one_cursor_or_none_in_even_rounds() {
    assert_eq!(alternating_pass::<JumpRope>((5, 0, 3, 2)), "aaaaa");
    assert_eq!(alternating_pass::<JumpRope>((5, 1, 3, 2)), "baaaa");
}

#[test]
fn alternating_even_rounds_delete_from_the_front() {
    assert_eq!(alternating_pass::<JumpRope>((40, 4, 5, 2)), even_rounds_text());
    assert_eq!(alternating_pass::<CropRope>((40, 4, 5, 2)), even_rounds_text());
    assert_eq!(alternating_pass::<Buffer>((40, 4, 5, 2)), even_rounds_text());
    assert_eq!(alternating_pass::<RopeyRope>((40, 4, 5, 2)), even_rounds_text());
}

#[test]
fn passes_repeat_on_one_container() {
    let params = (40, 4, 5, 3);
    let mut r: JumpRope = filled(40);
    for _ in 0..5 {
        mc_naive(&mut r, &params);
        assert_eq!(r.byte_len(), 40);
        mc_smart(&mut r, &params);
        assert_eq!(r.byte_len(), 40);
    }
}

#[test]
fn parameters_are_checked() {
    assert!(sequential_applicable(&(40, 4, 5, 3)));
    assert!(sequential_applicable(&(15, 4, 5, 3)));
    assert!(!sequential_applicable(&(14, 4, 5, 3)));
    assert!(!sequential_applicable(&(40, 1, 5, 3)));
    assert!(!sequential_applicable(&(40, 4, 0, 3)));
    assert!(!sequential_applicable(&(40, 4, 5, 0)));
    assert!(!sequential_applicable(&(40, usize::MAX, 5, 3)));
    assert!(alternating_applicable(&(40, 4, 5, 2)));
    assert!(alternating_applicable(&(40, 0, 5, 2)));
    assert!(!alternating_applicable(&(0, 4, 0, 2)));
    assert!(alternating_applicable(&(1, 4, 0, 2)));
    assert!(!alternating_applicable(&(40, 1, 5, 3)));
    assert!(!alternating_applicable(&(40, 4, 5, 0)));
    assert!(!alternating_applicable(&(40, 4, usize::MAX, 2)));
}

#[test]
fn evenness() {
    assert!(is_even(0));
    assert!(!is_even(1));
    assert!(is_even(10));
}
