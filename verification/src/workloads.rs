//! Synthetic edits at the ends of a text and at random places in it.

use crate::random::random_in;
use crate::rope::{unit_of, Rope};
use crate::text::{
    cut, lemma_plain_edits, lemma_plain_offset, lemma_repeated_end, plain_offsets, repeated,
    splice,
};
use rand::rngs::SmallRng;
use vstd::prelude::*;
use vstd::string::*;

verus! {

/// The text that [`append`] adds again and again.
pub open spec fn ropes() -> Seq<char> {
    seq!['r', 'o', 'p', 'e', 's']
}

/// Adds the word "ropes" `count` times at offset `len`, the end of the
/// text, and then takes as many words away from the front. `len` follows
/// the insertions and goes back by one word.
pub fn append<R: Rope>(r: &mut R, len: &mut usize, count: usize)
    requires
        *old(len) == old(r).text().len(),
        plain_offsets(old(r).text(), unit_of::<R>()),
        count >= 1,
        *old(len) + 5 * count <= usize::MAX,
    ensures
        final(r).text() == (old(r).text() + repeated(ropes(), count as nat)).skip(5 * count),
        *final(len) == *old(len) + 5 * (count - 1),
        plain_offsets(final(r).text(), unit_of::<R>()),
{
    let text = "ropes";
    let ghost unit = unit_of::<R>();
    let ghost start = r.text();
    proof {
        reveal_strlit("ropes");
        assert(text@ =~= ropes());
        assert(start + repeated(ropes(), 0) =~= start);
    }
    let width: usize = 5;
    let mut i: usize = 0;
    while i < count
        invariant
            0 <= i <= count,
            width == 5,
            text@ == ropes(),
            unit == unit_of::<R>(),
            plain_offsets(start, unit),
            start.len() + 5 * count <= usize::MAX,
            *len == start.len() + 5 * i,
            r.text() == start + repeated(ropes(), i as nat),
            plain_offsets(r.text(), unit),
        decreases count - i,
    {
        proof {
            lemma_repeated_end(ropes(), i as nat);
            assert(ropes().len() == 5);
            assert(repeated(ropes(), i as nat).len() == 5 * i);
            lemma_plain_offset(r.text(), unit, *len as int);
            lemma_plain_edits(r.text(), unit, *len as int, *len as int, ropes());
            assert(splice(r.text(), *len as int, ropes()) =~= start + (repeated(ropes(), i as nat)
                + ropes()));
        }
        r.insert_at(*len, text);
        *len += width;
        i += 1;
    }
    *len -= width;
    let ghost grown = r.text();
    let mut j: usize = 0;
    proof {
        lemma_repeated_end(ropes(), count as nat);
        assert(ropes().len() == 5);
        assert(repeated(ropes(), count as nat).len() == 5 * count);
        assert(grown.skip(0) =~= grown);
    }
    while j < count
        invariant
            0 <= j <= count,
            width == 5,
            unit == unit_of::<R>(),
            grown.len() == start.len() + 5 * count,
            r.text() == grown.skip(5 * j),
            plain_offsets(grown, unit),
            plain_offsets(r.text(), unit),
        decreases count - j,
    {
        proof {
            lemma_plain_offset(r.text(), unit, 0);
            lemma_plain_offset(r.text(), unit, 5);
            lemma_plain_edits(r.text(), unit, 0, 5, Seq::empty());
            assert(cut(r.text(), 0, 5) =~= grown.skip(5 * (j + 1)));
        }
        r.del_at(0, width);
        j += 1;
    }
}

/// Moves the place of the last edit from one end of the text to the middle
/// and back: inserts one character and deletes it again, at half of `len`
/// when `forward` is set and at the start otherwise, and turns `forward`
/// round. The text stays as it is.
pub fn move_gap<R: Rope>(container: &mut R, len: usize, forward: &mut bool)
    requires
        len <= old(container).text().len(),
        plain_offsets(old(container).text(), unit_of::<R>()),
    ensures
        final(container).text() == old(container).text(),
        *final(forward) == !*old(forward),
{
    let ghost unit = unit_of::<R>();
    let ghost start = container.text();
    let at: usize = if *forward {
        len / 2
    } else {
        0
    };
    proof {
        reveal_strlit("b");
        lemma_plain_offset(start, unit, at as int);
        lemma_plain_edits(start, unit, at as int, at as int, "b"@);
        let grown = splice(start, at as int, "b"@);
        lemma_plain_offset(grown, unit, at as int);
        lemma_plain_offset(grown, unit, at + 1);
        assert(cut(grown, at as int, at + 1) =~= start);
    }
    container.insert_at(at, "b");
    container.del_at(at, 1);
    *forward = !*forward;
}

/// Inserts `text` at offset `pos` and adds its length to `len`, the length
/// of the text in the container.
pub fn insert_drawn<R: Rope>(r: &mut R, len: &mut usize, pos: usize, text: &str)
    requires
        *old(len) == old(r).text().len(),
        pos <= *old(len),
        plain_offsets(old(r).text(), unit_of::<R>()),
        plain_offsets(text@, unit_of::<R>()),
        *old(len) + text@.len() <= usize::MAX,
    ensures
        final(r).text() == splice(old(r).text(), pos as int, text@),
        *final(len) == *old(len) + text@.len(),
        plain_offsets(final(r).text(), unit_of::<R>()),
{
    proof {
        lemma_plain_offset(r.text(), unit_of::<R>(), pos as int);
        lemma_plain_edits(r.text(), unit_of::<R>(), pos as int, pos as int, text@);
    }
    r.insert_at(pos, text);
    *len += text.unicode_len();
}

/// Deletes at offset `pos` as many characters as `draw` says, or as many
/// as follow `pos` where those are fewer, and takes their number off `len`,
/// the length of the text in the container.
pub fn delete_drawn<R: Rope>(r: &mut R, len: &mut usize, pos: usize, draw: usize)
    requires
        *old(len) == old(r).text().len(),
        pos <= *old(len),
        plain_offsets(old(r).text(), unit_of::<R>()),
    ensures
        final(r).text() == cut(
            old(r).text(),
            pos as int,
            pos + vstd::math::min(draw as int, *old(len) - pos),
        ),
        *final(len) == *old(len) - vstd::math::min(draw as int, *old(len) - pos),
        plain_offsets(final(r).text(), unit_of::<R>()),
{
    let dlen: usize = if draw < *len - pos {
        draw
    } else {
        *len - pos
    };
    proof {
        lemma_plain_offset(r.text(), unit_of::<R>(), pos as int);
        lemma_plain_offset(r.text(), unit_of::<R>(), pos + dlen);
        lemma_plain_edits(r.text(), unit_of::<R>(), pos as int, pos + dlen, Seq::empty());
    }
    *len -= dlen;
    r.del_at(pos, dlen);
}

/// One step of the random insertions: one of `strings`, at a random offset.
pub fn ins_random<R: Rope>(r: &mut R, rng: &mut SmallRng, strings: &Vec<String>, len: &mut usize)
    requires
        *old(len) == old(r).text().len(),
        plain_offsets(old(r).text(), unit_of::<R>()),
        strings.len() > 0,
        *old(len) < usize::MAX,
        forall|k: int|
            0 <= k < strings.len() ==> plain_offsets((#[trigger] strings[k])@, unit_of::<R>())
                && *old(len) + strings[k]@.len() <= usize::MAX,
    ensures
        exists|pos: int, k: int|
            0 <= pos <= *old(len) && 0 <= k < strings.len() && final(r).text()
                == #[trigger] splice(old(r).text(), pos, strings[k]@) && *final(len) == *old(len)
                + strings[k]@.len(),
        *final(len) == final(r).text().len(),
        plain_offsets(final(r).text(), unit_of::<R>()),
{
    let pos: usize = random_in(rng, 0, *len + 1);
    let pick: usize = random_in(rng, 0, strings.len());
    insert_drawn(r, len, pos, strings[pick].as_str());
}

/// One step of the edits that keep a text near `target_length`: a random
/// insertion while the text is no longer than that, a random deletion of up
/// to nine characters once it is.
pub fn stable_ins_del<R: Rope>(
    r: &mut R,
    rng: &mut SmallRng,
    strings: &Vec<String>,
    len: &mut usize,
    target_length: usize,
)
    requires
        *old(len) == old(r).text().len(),
        plain_offsets(old(r).text(), unit_of::<R>()),
        strings.len() > 0,
        target_length < usize::MAX,
        forall|k: int|
            0 <= k < strings.len() ==> plain_offsets((#[trigger] strings[k])@, unit_of::<R>())
                && target_length + strings[k]@.len() <= usize::MAX,
    ensures
        *old(len) <= target_length ==> exists|pos: int, k: int|
            0 <= pos <= *old(len) && 0 <= k < strings.len() && final(r).text()
                == #[trigger] splice(old(r).text(), pos, strings[k]@),
        *old(len) > target_length ==> exists|pos: int, n: int|
            0 <= pos < *old(len) && 0 <= n <= 9 && pos + n <= *old(len) && final(r).text()
                == #[trigger] cut(old(r).text(), pos, pos + n),
        *final(len) == final(r).text().len(),
        plain_offsets(final(r).text(), unit_of::<R>()),
{
    if *len <= target_length {
        let pos: usize = random_in(rng, 0, *len + 1);
        let pick: usize = random_in(rng, 0, strings.len());
        insert_drawn(r, len, pos, strings[pick].as_str());
    } else {
        let pos: usize = random_in(rng, 0, *len);
        let draw: usize = random_in(rng, 0, 10);
        let ghost n = vstd::math::min(draw as int, *len - pos);
        delete_drawn(r, len, pos, draw);
        assert(r.text() == cut(old(r).text(), pos as int, pos + n));
    }
}

} // verus!
