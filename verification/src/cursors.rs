//! Synthetic edits by many cursors: every cursor inserts one character per
//! round, in one of two orders, and one deletion then takes as much out again.

use crate::cursors_proofs::{
    ascending, descending, turning, lemma_ascending_step, lemma_cut_restores_len, lemma_descending_step,
    lemma_layout_ascii, lemma_layout_blank, lemma_mul_le, lemma_mul_sum, lemma_spread_len,
};
use crate::rope::{unit_of, Rope};
use crate::text::{cut, lemma_plain_offset, plain_offsets, splice};
use vstd::prelude::*;
use vstd::utf8::{encode_utf8, is_ascii_chars};

verus! {

/// The text that a cursor inserts in a round.
pub open spec fn marker() -> Seq<char> {
    seq!['b']
}

/// Where cursor `i` inserts in round `round` when the cursors of every
/// round go in ascending order: the cursors before it have each inserted
/// `round + 1` characters, and it has inserted `round` itself.
pub open spec fn sequential_offset(i: nat, step: nat, round: nat) -> nat {
    i * (step + (round + 1)) + round
}

/// Where the `i`-th insertion of round `round` goes when the order of the
/// cursors turns round after every round: ascending in even rounds,
/// descending in odd ones, where the cursors before the one that inserts
/// have inserted `round` characters each.
pub open spec fn alternating_offset(cursors: nat, i: nat, step: nat, round: nat) -> nat {
    if round % 2 == 0 {
        sequential_offset(i, step, round)
    } else {
        ((cursors - 1 - i) * (step + round) + round) as nat
    }
}

/// `doc`, the text at the start of round `round`, after the first `done`
/// insertions of that round in ascending order.
pub open spec fn sequential_round(doc: Seq<char>, step: nat, round: nat, done: nat) -> Seq<char>
    decreases done,
{
    if done == 0 {
        doc
    } else {
        splice(
            sequential_round(doc, step, round, (done - 1) as nat),
            sequential_offset((done - 1) as nat, step, round) as int,
            marker(),
        )
    }
}

/// `doc` after `rounds` rounds of insertions by `cursors` cursors, each
/// round in ascending order.
pub open spec fn sequential_phase(doc: Seq<char>, cursors: nat, step: nat, rounds: nat) -> Seq<
    char,
>
    decreases rounds,
{
    if rounds == 0 {
        doc
    } else {
        sequential_round(
            sequential_phase(doc, cursors, step, (rounds - 1) as nat),
            step,
            (rounds - 1) as nat,
            cursors,
        )
    }
}

/// `doc`, the text at the start of round `round`, after the first `done`
/// insertions of that round in the order of that round.
pub open spec fn alternating_round(
    doc: Seq<char>,
    cursors: nat,
    step: nat,
    round: nat,
    done: nat,
) -> Seq<char>
    decreases done,
{
    if done == 0 {
        doc
    } else {
        splice(
            alternating_round(doc, cursors, step, round, (done - 1) as nat),
            alternating_offset(cursors, (done - 1) as nat, step, round) as int,
            marker(),
        )
    }
}

/// `doc` after `rounds` rounds of insertions by `cursors` cursors, the
/// order turning round after every round.
pub open spec fn alternating_phase(doc: Seq<char>, cursors: nat, step: nat, rounds: nat) -> Seq<
    char,
>
    decreases rounds,
{
    if rounds == 0 {
        doc
    } else {
        alternating_round(
            alternating_phase(doc, cursors, step, (rounds - 1) as nat),
            cursors,
            step,
            (rounds - 1) as nat,
            cursors,
        )
    }
}

/// `n` times the character that the cursors insert.
pub open spec fn run(n: nat) -> Seq<char> {
    Seq::new(n, |i: int| 'b')
}

/// `doc` with a run of inserted characters at each cursor: cursor `m`
/// stands `m * step` characters into `doc` and has `runs[m]` characters
/// before it.
pub open spec fn layout(doc: Seq<char>, step: nat, runs: Seq<nat>) -> Seq<char>
    decreases runs.len(),
{
    if runs.len() == 0 {
        doc
    } else {
        let at = (runs.len() - 1) * step;
        layout(doc.take(at), step, runs.drop_last()) + run(runs.last()) + doc.skip(at)
    }
}

/// `doc` after every one of `cursors` cursors, `step` characters apart, has
/// inserted `rounds` characters where it stands.
pub open spec fn spread(doc: Seq<char>, step: nat, cursors: nat, rounds: nat) -> Seq<char> {
    layout(doc, step, Seq::new(cursors, |m: int| rounds))
}

/// Whether `x` is even.
pub fn is_even(x: usize) -> (even: bool)
    ensures
        even == (x % 2 == 0),
{
    x % 2 == 0
}

/// The parameters suit the sequential workload on a text of `len`
/// characters: the last cursor stands within the text, the deletion starts
/// within it, and the grown text has a length that fits a `usize`.
pub open spec fn sequential_fits(len: nat, cursors: nat, step: nat, width: nat) -> bool {
    &&& cursors >= 2
    &&& step >= 1
    &&& width >= 1
    &&& (cursors - 1) * step <= len
    &&& len + cursors * width <= usize::MAX
}

/// Where the deletion of the sequential workload starts: one character
/// before the last cursor's place in the text before the insertions.
pub open spec fn sequential_cut(cursors: nat, step: nat) -> int {
    (cursors - 1) * step - 1
}

/// The text that the sequential workload leaves of `doc`.
pub open spec fn sequential_result(doc: Seq<char>, cursors: nat, step: nat, width: nat) -> Seq<
    char,
> {
    cut(
        spread(doc, step, cursors, width),
        sequential_cut(cursors, step),
        sequential_cut(cursors, step) + cursors * width,
    )
}

/// Runs the sequential workload on a container whose text is `params.0`
/// characters long: `params.3` rounds in which each of `params.1` cursors,
/// `params.2` characters apart, inserts one character, in ascending order;
/// then one deletion of as many characters as were inserted.
pub fn mc_naive<R: Rope>(container: &mut R, params: &(usize, usize, usize, usize))
    requires
        old(container).text().len() == params.0,
        plain_offsets(old(container).text(), unit_of::<R>()),
        sequential_fits(params.0 as nat, params.1 as nat, params.2 as nat, params.3 as nat),
    ensures
        final(container).text() == sequential_result(
            old(container).text(),
            params.1 as nat,
            params.2 as nat,
            params.3 as nat,
        ),
        final(container).text().len() == old(container).text().len(),
        is_ascii_chars(old(container).text()) ==> encode_utf8(final(container).text()).len()
            == encode_utf8(old(container).text()).len(),
        plain_offsets(final(container).text(), unit_of::<R>()),
{
    let cursors: usize = params.1;
    let step: usize = params.2;
    let width: usize = params.3;
    let text = "b";
    let ghost start = container.text();
    let ghost unit = unit_of::<R>();
    proof {
        reveal_strlit("b");
        assert(text@ =~= marker());
        lemma_layout_blank(start, step as nat, ascending(cursors as nat, 0, 0));
        lemma_mul_le(cursors as int, 0, width as int);
    }
    let mut mc: usize = 0;
    while mc < width
        invariant
            mc <= width,
            cursors == params.1,
            step == params.2,
            width == params.3,
            start.len() == params.0,
            sequential_fits(params.0 as nat, cursors as nat, step as nat, width as nat),
            unit == unit_of::<R>(),
            text@ == marker(),
            plain_offsets(start, unit),
            container.text() == layout(start, step as nat, ascending(cursors as nat, mc as nat, 0)),
        decreases width - mc,
    {
        let mut i: usize = 0;
        while i < cursors
            invariant
                mc < width,
                i <= cursors,
                cursors == params.1,
                step == params.2,
                width == params.3,
                start.len() == params.0,
                sequential_fits(params.0 as nat, cursors as nat, step as nat, width as nat),
                unit == unit_of::<R>(),
                text@ == marker(),
                plain_offsets(start, unit),
                container.text() == layout(
                    start,
                    step as nat,
                    ascending(cursors as nat, mc as nat, i as nat),
                ),
            decreases cursors - i,
        {
            proof {
                lemma_ascending_step(start, step as nat, cursors as nat, mc as nat, i as nat);
                lemma_mul_le(cursors as int, mc + 1, width as int);
                lemma_mul_le(step as int, 1, cursors - 1);
                lemma_mul_le(width as int, 1, cursors as int);
                if unit != crate::text::PositionUnit::Codepoint {
                    lemma_layout_ascii(
                        start,
                        step as nat,
                        ascending(cursors as nat, mc as nat, i as nat),
                    );
                }
                lemma_plain_offset(
                    container.text(),
                    unit,
                    sequential_offset(i as nat, step as nat, mc as nat) as int,
                );
                assert(i * (step + (mc + 1)) <= sequential_offset(
                    i as nat,
                    step as nat,
                    mc as nat,
                ));
            }
            let idx: usize = i * (step + (mc + 1)) + mc;
            container.insert_at(idx, text);
            i += 1;
        }
        proof {
            assert(ascending(cursors as nat, mc as nat, cursors as nat) =~= ascending(
                cursors as nat,
                (mc + 1) as nat,
                0,
            ));
        }
        mc += 1;
    }
    proof {
        assert(ascending(cursors as nat, width as nat, 0) =~= Seq::new(
            cursors as nat,
            |m: int| width as nat,
        ));
        lemma_spread_len(start, step as nat, cursors as nat, width as nat);
        lemma_mul_le(step as int, 1, cursors - 1);
        lemma_mul_le(width as int, 1, cursors as int);
        lemma_cut_restores_len(
            start,
            step as nat,
            cursors as nat,
            width as nat,
            sequential_cut(cursors as nat, step as nat),
        );
        lemma_mul_le(cursors - 1, step as int, step + width);
        lemma_mul_sum(cursors - 1, step as int, width as int);
        lemma_mul_sum(cursors - 1, width as int, 0);
        if unit != crate::text::PositionUnit::Codepoint {
            lemma_layout_ascii(start, step as nat, Seq::new(cursors as nat, |m: int| width as nat));
        }
        lemma_plain_offset(container.text(), unit, sequential_cut(cursors as nat, step as nat));
        lemma_plain_offset(
            container.text(),
            unit,
            sequential_cut(cursors as nat, step as nat) + cursors * width,
        );
    }
    let idx: usize = (cursors - 1) * (step + width) + (width - 1);
    let del_len: usize = cursors * width;
    container.del_at(idx - del_len, del_len);
}

/// Whether the parameters suit the sequential workload on a text of
/// `params.0` characters.
pub fn sequential_applicable(params: &(usize, usize, usize, usize)) -> (ok: bool)
    ensures
        ok == sequential_fits(params.0 as nat, params.1 as nat, params.2 as nat, params.3 as nat),
{
    let size: usize = params.0;
    let cursors: usize = params.1;
    let step: usize = params.2;
    let width: usize = params.3;
    if cursors < 2 || step < 1 || width < 1 {
        return false;
    }
    let reach = (cursors - 1).checked_mul(step);
    let grown = match cursors.checked_mul(width) {
        Some(inserted) => size.checked_add(inserted),
        None => None,
    };
    match (reach, grown) {
        (Some(reach), Some(_)) => reach <= size,
        _ => false,
    }
}

/// Whether the parameters suit the alternating workload on a text of
/// `params.0` characters.
pub fn alternating_applicable(params: &(usize, usize, usize, usize)) -> (ok: bool)
    ensures
        ok == alternating_fits(params.0 as nat, params.1 as nat, params.2 as nat, params.3 as nat),
{
    let size: usize = params.0;
    let cursors: usize = params.1;
    let step: usize = params.2;
    let width: usize = params.3;
    if width < 1 || step.checked_add(width).is_none() {
        return false;
    }
    if cursors > 0 {
        match (cursors - 1).checked_mul(step) {
            Some(reach) => {
                if reach > size {
                    return false;
                }
            },
            None => {
                return false;
            },
        }
    }
    let grown = match cursors.checked_mul(width) {
        Some(inserted) => size.checked_add(inserted),
        None => None,
    };
    if grown.is_none() {
        return false;
    }
    if is_even(width) {
        width - 1 <= size
    } else {
        cursors >= 2 && step >= 1
    }
}

/// The parameters suit the alternating workload on a text of `len`
/// characters: the last cursor stands within the text, the deletion lies
/// within the grown text, and the lengths fit a `usize`.
pub open spec fn alternating_fits(len: nat, cursors: nat, step: nat, width: nat) -> bool {
    &&& width >= 1
    &&& cursors > 0 ==> (cursors - 1) * step <= len
    &&& len + cursors * width <= usize::MAX
    &&& step + width <= usize::MAX
    &&& if width % 2 == 0 {
        width - 1 <= len
    } else {
        cursors >= 2 && step >= 1
    }
}

/// Where the deletion of the alternating workload starts: after an even
/// number of rounds behind all but one of the first cursor's characters,
/// after an odd number where the sequential workload deletes.
pub open spec fn alternating_cut(cursors: nat, step: nat, width: nat) -> int {
    if width % 2 == 0 {
        width - 1
    } else {
        sequential_cut(cursors, step)
    }
}

/// The text that the alternating workload leaves of `doc`.
pub open spec fn alternating_result(doc: Seq<char>, cursors: nat, step: nat, width: nat) -> Seq<
    char,
> {
    cut(
        spread(doc, step, cursors, width),
        alternating_cut(cursors, step, width),
        alternating_cut(cursors, step, width) + cursors * width,
    )
}

/// Runs the alternating workload on a container whose text is `params.0`
/// characters long: `params.3` rounds in which each of `params.1` cursors,
/// `params.2` characters apart, inserts one character, in ascending order
/// in even rounds and in descending order in odd ones; then one deletion of
/// as many characters as were inserted.
pub fn mc_smart<R: Rope>(container: &mut R, params: &(usize, usize, usize, usize))
    requires
        old(container).text().len() == params.0,
        plain_offsets(old(container).text(), unit_of::<R>()),
        alternating_fits(params.0 as nat, params.1 as nat, params.2 as nat, params.3 as nat),
    ensures
        final(container).text() == alternating_result(
            old(container).text(),
            params.1 as nat,
            params.2 as nat,
            params.3 as nat,
        ),
        final(container).text().len() == old(container).text().len(),
        is_ascii_chars(old(container).text()) ==> encode_utf8(final(container).text()).len()
            == encode_utf8(old(container).text()).len(),
        plain_offsets(final(container).text(), unit_of::<R>()),
{
    let cursors: usize = params.1;
    let step: usize = params.2;
    let width: usize = params.3;
    let text = "b";
    let ghost start = container.text();
    let ghost unit = unit_of::<R>();
    proof {
        reveal_strlit("b");
        assert(text@ =~= marker());
        if cursors > 0 {
            lemma_layout_blank(start, step as nat, Seq::new(cursors as nat, |m: int| 0nat));
        }
        lemma_mul_le(cursors as int, 0, width as int);
    }
    let mut mc: usize = 0;
    while mc < width
        invariant
            mc <= width,
            cursors == params.1,
            step == params.2,
            width == params.3,
            start.len() == params.0,
            alternating_fits(params.0 as nat, cursors as nat, step as nat, width as nat),
            unit == unit_of::<R>(),
            text@ == marker(),
            plain_offsets(start, unit),
            container.text() == spread(start, step as nat, cursors as nat, mc as nat),
        decreases width - mc,
    {
        let mut i: usize = 0;
        proof {
            assert(turning(cursors as nat, mc as nat, 0) =~= Seq::new(
                cursors as nat,
                |m: int| mc as nat,
            ));
        }
        while i < cursors
            invariant
                mc < width,
                i <= cursors,
                cursors == params.1,
                step == params.2,
                width == params.3,
                start.len() == params.0,
                alternating_fits(params.0 as nat, cursors as nat, step as nat, width as nat),
                unit == unit_of::<R>(),
                text@ == marker(),
                plain_offsets(start, unit),
                container.text() == layout(
                    start,
                    step as nat,
                    turning(cursors as nat, mc as nat, i as nat),
                ),
            decreases cursors - i,
        {
            proof {
                if mc % 2 == 0 {
                    lemma_ascending_step(start, step as nat, cursors as nat, mc as nat, i as nat);
                } else {
                    lemma_descending_step(start, step as nat, cursors as nat, mc as nat, i as nat);
                    assert(turning(cursors as nat, mc as nat, (i + 1) as nat) == descending(
                        cursors as nat,
                        mc as nat,
                        (i + 1) as nat,
                    ));
                }
                lemma_mul_le(cursors as int, mc + 1, width as int);
                if unit != crate::text::PositionUnit::Codepoint {
                    lemma_layout_ascii(
                        start,
                        step as nat,
                        turning(cursors as nat, mc as nat, i as nat),
                    );
                }
                lemma_plain_offset(
                    container.text(),
                    unit,
                    alternating_offset(cursors as nat, i as nat, step as nat, mc as nat) as int,
                );
            }
            let idx: usize = if is_even(mc) {
                assert(i * (step + (mc + 1)) <= sequential_offset(
                    i as nat,
                    step as nat,
                    mc as nat,
                ));
                i * (step + (mc + 1)) + mc
            } else {
                let j: usize = cursors - 1 - i;
                assert(j * (step + mc) <= alternating_offset(
                    cursors as nat,
                    i as nat,
                    step as nat,
                    mc as nat,
                ));
                j * (step + mc) + mc
            };
            container.insert_at(idx, text);
            i += 1;
        }
        proof {
            assert(turning(cursors as nat, mc as nat, cursors as nat) =~= Seq::new(
                cursors as nat,
                |m: int| (mc + 1) as nat,
            ));
        }
        mc += 1;
    }
    proof {
        lemma_spread_len(start, step as nat, cursors as nat, width as nat);
        if width % 2 == 1 {
            lemma_mul_le(step as int, 1, cursors - 1);
            lemma_mul_le(cursors - 1, step as int, step + width);
            lemma_mul_sum(cursors - 1, step as int, width as int);
            lemma_mul_sum(cursors - 1, width as int, 0);
        }
        lemma_cut_restores_len(
            start,
            step as nat,
            cursors as nat,
            width as nat,
            alternating_cut(cursors as nat, step as nat, width as nat),
        );
        if unit != crate::text::PositionUnit::Codepoint {
            lemma_layout_ascii(start, step as nat, Seq::new(cursors as nat, |m: int| width as nat));
        }
        lemma_plain_offset(
            container.text(),
            unit,
            alternating_cut(cursors as nat, step as nat, width as nat),
        );
        lemma_plain_offset(
            container.text(),
            unit,
            alternating_cut(cursors as nat, step as nat, width as nat) + cursors * width,
        );
    }
    if is_even(width) {
        let idx: usize = width - 1;
        container.del_at(idx, cursors * width);
    } else {
        let idx: usize = (cursors - 1) * (step + width) + (width - 1);
        let len: usize = cursors * width;
        container.del_at(idx - len, len);
    }
}

} // verus!
