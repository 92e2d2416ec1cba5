//! Random text for synthetic edits, drawn from a generator that the caller
//! has seeded.

use rand::rngs::SmallRng;
use rand::Rng;
use vstd::prelude::*;
use vstd::string::*;
use crate::text::lemma_encode_concat;
use vstd::utf8::{encode_scalar, encode_utf8, is_ascii_chars, is_scalar};

verus! {

#[verifier::external_type_specification]
#[verifier::external_body]
pub struct ExSmallRng(SmallRng);

/// `Rng::gen_range` on the range from `low` up to `high`: some number of
/// that range. It panics where the range is empty.
#[verifier::external_body]
pub(crate) fn random_in(rng: &mut SmallRng, low: usize, high: usize) -> (n: usize)
    requires
        low < high,
    ensures
        low <= n < high,
{
    rng.gen_range(low..high)
}

/// `String::push` appends one character.
pub assume_specification[ String::push ](s: &mut String, ch: char)
    ensures
        final(s)@ == old(s)@.push(ch),
;

/// `char::from_u32` gives the character with the given number, and `None`
/// where the number is no Unicode scalar value.
pub assume_specification[ char::from_u32 ](i: u32) -> (c: Option<char>)
    ensures
        is_scalar(i) ==> c == Some(i as char),
        !is_scalar(i) ==> c is None,
;

/// The characters that random ASCII strings are made of.
pub const CHARS: &'static str =
    " ABCDEFGHIJKLMNOPQRSTUVWXYZabcdefghijklmnopqrstuvwxyz0123456789!@#$%^&*()[]{}<>?,./";

/// A string of `len` characters, each drawn from [`CHARS`].
pub fn random_ascii_string(rng: &mut SmallRng, len: usize) -> (s: String)
    ensures
        s@.len() == len,
        forall|i: int| 0 <= i < len ==> CHARS@.contains(#[trigger] s@[i]),
        is_ascii_chars(s@),
{
    proof {
        reveal_strlit(
            " ABCDEFGHIJKLMNOPQRSTUVWXYZabcdefghijklmnopqrstuvwxyz0123456789!@#$%^&*()[]{}<>?,./",
        );
    }
    let mut s = String::new();
    let mut done: usize = 0;
    while done < len
        invariant
            0 <= done <= len,
            CHARS@.len() == 83,
            s@.len() == done,
            forall|i: int| 0 <= i < done ==> CHARS@.contains(#[trigger] s@[i]),
            is_ascii_chars(s@),
            is_ascii_chars(CHARS@),
        decreases len - done,
    {
        let pick: usize = random_in(rng, 0, 83);
        s.push(CHARS.get_char(pick));
        done += 1;
    }
    s
}

/// The number of bytes that `c` takes in UTF-8.
pub fn utf8_width(c: char) -> (width: usize)
    ensures
        width == encode_scalar(c as u32).len(),
        1 <= width <= 4,
{
    let code: u32 = c as u32;
    if code < 0x80 {
        1
    } else if code < 0x800 {
        2
    } else if code < 0x10000 {
        3
    } else {
        4
    }
}

/// A string of characters below U+D7FF, drawn one after another until the
/// string is at least `len` bytes long.
pub fn random_string(rng: &mut SmallRng, len: usize) -> (s: String)
    ensures
        len <= encode_utf8(s@).len() < len + 3,
        forall|i: int| 0 <= i < s@.len() ==> (#[trigger] s@[i]) as u32 <= 0xD7FE,
{
    let mut s = String::new();
    let mut missing: usize = len;
    while missing > 0
        invariant
            missing <= len,
            missing > 0 ==> encode_utf8(s@).len() + missing == len,
            missing == 0 ==> len <= encode_utf8(s@).len() < len + 3,
            forall|i: int| 0 <= i < s@.len() ==> (#[trigger] s@[i]) as u32 <= 0xD7FE,
        decreases missing,
    {
        let code: usize = random_in(rng, 0, 0xD7FF);
        match char::from_u32(code as u32) {
            Some(chr) => {
                let width: usize = utf8_width(chr);
                proof {
                    lemma_encode_concat(s@, seq![chr]);
                    assert(s@.push(chr) =~= s@ + seq![chr]);
                    assert(seq![chr].drop_first() =~= Seq::<char>::empty());
                    assert(encode_utf8(seq![chr]) =~= encode_scalar(chr as u32)) by {
                        reveal_with_fuel(encode_utf8, 2);
                    }
                }
                s.push(chr);
                missing = if width >= missing {
                    0
                } else {
                    missing - width
                };
            },
            None => {},
        }
    }
    s
}

/// A hundred strings of one or two characters, each drawn from [`CHARS`].
pub fn gen_strings(rng: &mut SmallRng) -> (strings: Vec<String>)
    ensures
        strings.len() == 100,
        forall|k: int|
            0 <= k < 100 ==> {
                &&& 1 <= (#[trigger] strings[k])@.len() <= 2
                &&& is_ascii_chars(strings[k]@)
                &&& forall|i: int|
                    0 <= i < strings[k]@.len() ==> CHARS@.contains(#[trigger] strings[k]@[i])
            },
{
    let mut strings = Vec::<String>::new();
    let mut done: usize = 0;
    while done < 100
        invariant
            0 <= done <= 100,
            strings.len() == done,
            forall|k: int|
                0 <= k < done ==> {
                    &&& 1 <= (#[trigger] strings[k])@.len() <= 2
                    &&& is_ascii_chars(strings[k]@)
                    &&& forall|i: int|
                        0 <= i < strings[k]@.len() ==> CHARS@.contains(#[trigger] strings[k]@[i])
                },
        decreases 100 - done,
    {
        let len: usize = random_in(rng, 1, 3);
        strings.push(random_ascii_string(rng, len));
        done += 1;
    }
    strings
}

} // verus!
