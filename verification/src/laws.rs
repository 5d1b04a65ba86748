//! Laws of whole write sequences, stated over the buffer's model.
//!
//! [`step_text`] and [`step_truncated`] restate, as spec functions,
//! exactly what `TruncatingFmtBuffer::write_str` ensures of one write;
//! [`run_text`] and [`run_truncated`] fold them over a whole sequence
//! of fragments. The proof functions below are the buffer's laws: what
//! holds of any such sequence.

use vstd::prelude::*;
use vstd::utf8::{encode_scalar, encode_utf8, is_ascii_chars, is_ascii_chars_concat};
use crate::encoding::{fit_count, lemma_fit_count_ascii, lemma_fit_count_fits,
    lemma_fit_count_full, lemma_fit_count_le_len, lemma_fit_count_maximal,
    lemma_scalar_width_bounds, lemma_utf8_len_concat, utf8_len};

verus! {

/// The text after writing fragment `s` to a buffer of capacity `cap`
/// that already holds `text`: the longest prefix of `s` that still
/// fits is appended.
pub open spec fn step_text(text: Seq<char>, s: Seq<char>, cap: int) -> Seq<char> {
    text + s.take(fit_count(s, cap - utf8_len(text)) as int)
}

/// The truncation flag after that same write: sticky, and set exactly
/// when the fragment did not fit in full.
pub open spec fn step_truncated(truncated: bool, text: Seq<char>, s: Seq<char>, cap: int) -> bool {
    truncated || utf8_len(s) > cap - utf8_len(text)
}

/// The concatenation of a sequence of fragments.
pub open spec fn concat_all(frags: Seq<Seq<char>>) -> Seq<char>
    decreases frags.len(),
{
    if frags.len() == 0 {
        Seq::empty()
    } else {
        concat_all(frags.drop_last()) + frags.last()
    }
}

/// The text an initially empty buffer of capacity `cap` holds after
/// writing every fragment in order.
pub open spec fn run_text(frags: Seq<Seq<char>>, cap: int) -> Seq<char>
    decreases frags.len(),
{
    if frags.len() == 0 {
        Seq::empty()
    } else {
        step_text(run_text(frags.drop_last(), cap), frags.last(), cap)
    }
}

/// The truncation flag of that same buffer after those writes.
pub open spec fn run_truncated(frags: Seq<Seq<char>>, cap: int) -> bool
    decreases frags.len(),
{
    if frags.len() == 0 {
        false
    } else {
        step_truncated(
            run_truncated(frags.drop_last(), cap),
            run_text(frags.drop_last(), cap),
            frags.last(),
            cap,
        )
    }
}

/// Law: a write sequence whose total byte length fits in the capacity
/// is accumulated in full — the final text is the exact concatenation
/// of the fragments and nothing is marked truncated.
pub proof fn lemma_all_fits(frags: Seq<Seq<char>>, cap: int)
    requires
        cap >= 0,
        utf8_len(concat_all(frags)) <= cap,
    ensures
        run_text(frags, cap) == concat_all(frags),
        !run_truncated(frags, cap),
    decreases frags.len(),
{
    if frags.len() > 0 {
        lemma_utf8_len_concat(concat_all(frags.drop_last()), frags.last());
        lemma_all_fits(frags.drop_last(), cap);
        let t = concat_all(frags.drop_last());
        lemma_fit_count_full(frags.last(), cap - utf8_len(t));
        assert(frags.last().take(frags.last().len() as int) =~= frags.last());
    }
}

/// Law: whatever is written, the buffer never holds more than `cap`
/// bytes of text.
pub proof fn lemma_used_bounded(frags: Seq<Seq<char>>, cap: int)
    requires
        cap >= 0,
    ensures
        utf8_len(run_text(frags, cap)) <= cap,
    decreases frags.len(),
{
    if frags.len() > 0 {
        lemma_used_bounded(frags.drop_last(), cap);
        let t = run_text(frags.drop_last(), cap);
        let s = frags.last();
        lemma_fit_count_fits(s, cap - utf8_len(t));
        lemma_utf8_len_concat(t, s.take(fit_count(s, cap - utf8_len(t)) as int));
    }
}

/// Law: a run that never truncated has accumulated every fragment in
/// full, so its total byte length fits in the capacity.
pub proof fn lemma_no_truncation_is_complete(frags: Seq<Seq<char>>, cap: int)
    requires
        cap >= 0,
        !run_truncated(frags, cap),
    ensures
        run_text(frags, cap) == concat_all(frags),
        utf8_len(concat_all(frags)) <= cap,
    decreases frags.len(),
{
    if frags.len() > 0 {
        lemma_no_truncation_is_complete(frags.drop_last(), cap);
        let t = concat_all(frags.drop_last());
        let s = frags.last();
        lemma_fit_count_full(s, cap - utf8_len(t));
        assert(s.take(s.len() as int) =~= s);
        lemma_utf8_len_concat(t, s);
    }
}

/// Law: a write sequence whose total byte length exceeds the capacity
/// ends truncated, with at most `cap` bytes of text accumulated.
pub proof fn lemma_overflow_truncates(frags: Seq<Seq<char>>, cap: int)
    requires
        cap >= 0,
        utf8_len(concat_all(frags)) > cap,
    ensures
        run_truncated(frags, cap),
        utf8_len(run_text(frags, cap)) <= cap,
{
    lemma_used_bounded(frags, cap);
    if !run_truncated(frags, cap) {
        lemma_no_truncation_is_complete(frags, cap);
    }
}

/// Law: a fragment whose byte length exactly equals the free capacity
/// fills the buffer to the brim without marking it truncated.
pub proof fn lemma_exact_fit(text: Seq<char>, truncated: bool, s: Seq<char>, cap: int)
    requires
        utf8_len(text) + utf8_len(s) == cap,
    ensures
        step_text(text, s, cap) == text + s,
        utf8_len(step_text(text, s, cap)) == cap,
        step_truncated(truncated, text, s, cap) == truncated,
{
    lemma_fit_count_full(s, cap - utf8_len(text));
    assert(s.take(s.len() as int) =~= s);
    lemma_utf8_len_concat(text, s);
}

/// Law: once the buffer is full, any non-empty write copies nothing
/// and marks the buffer truncated.
pub proof fn lemma_full_buffer_write(text: Seq<char>, truncated: bool, s: Seq<char>, cap: int)
    requires
        utf8_len(text) == cap,
        s.len() > 0,
    ensures
        step_text(text, s, cap) == text,
        step_truncated(truncated, text, s, cap),
{
    lemma_scalar_width_bounds(s[0]);
    assert(encode_utf8(s) == encode_scalar(s[0] as u32) + encode_utf8(s.drop_first()));
    assert(s.take(0) =~= Seq::<char>::empty());
    assert(text + Seq::<char>::empty() =~= text);
}

/// Law: a write never splits a character. What a write commits fits in
/// the capacity, and any longer prefix of the fragment — in particular
/// the one extended by the character that straddles the boundary —
/// would not.
pub proof fn lemma_truncation_is_maximal(text: Seq<char>, s: Seq<char>, cap: int)
    requires
        utf8_len(text) <= cap,
    ensures
        utf8_len(step_text(text, s, cap)) <= cap,
        forall|k: int|
            fit_count(s, cap - utf8_len(text)) < k <= s.len() ==> utf8_len(text) + utf8_len(
                s.take(k),
            ) > cap,
{
    let room = cap - utf8_len(text);
    let f = fit_count(s, room) as int;
    lemma_fit_count_fits(s, room);
    lemma_fit_count_le_len(s, room);
    lemma_utf8_len_concat(text, s.take(f));
    assert forall|k: int| f < k <= s.len() implies utf8_len(text) + utf8_len(s.take(k))
        > cap by {
        if utf8_len(s.take(k)) <= room {
            lemma_fit_count_maximal(s, room, k);
        }
    }
}

/// Law: for all-ASCII write sequences the accumulated text is the
/// concatenation of the fragments cut to the capacity — in particular
/// always a prefix of that concatenation.
pub proof fn lemma_ascii_run_is_prefix(frags: Seq<Seq<char>>, cap: int)
    requires
        cap >= 0,
        forall|i: int| 0 <= i < frags.len() ==> is_ascii_chars(#[trigger] frags[i]),
    ensures
        run_text(frags, cap) == if concat_all(frags).len() <= cap {
            concat_all(frags)
        } else {
            concat_all(frags).take(cap)
        },
        run_text(frags, cap).is_prefix_of(concat_all(frags)),
    decreases frags.len(),
{
    if frags.len() == 0 {
        assert(run_text(frags, cap).is_prefix_of(concat_all(frags)));
    } else {
        assert(forall|i: int|
            0 <= i < frags.drop_last().len() ==> is_ascii_chars(#[trigger] frags.drop_last()[i]));
        lemma_ascii_run_is_prefix(frags.drop_last(), cap);
        let c = concat_all(frags.drop_last());
        let s = frags.last();
        let t = run_text(frags.drop_last(), cap);
        lemma_ascii_concat_all(frags);
        is_ascii_chars_concat(concat_all(frags), c, s);
        lemma_ascii_utf8_len_all(c, s, t);
        lemma_fit_count_ascii(s, cap - utf8_len(t));
        let f = fit_count(s, cap - utf8_len(t)) as int;
        if c.len() <= cap {
            assert(t + s.take(f) =~= (c + s).take(c.len() as int + f));
            if c.len() + s.len() > cap {
                assert(run_text(frags, cap) == concat_all(frags).take(cap));
            } else {
                assert(t + s.take(f) =~= c + s);
            }
        } else {
            assert(t == c.take(cap));
            assert(f == 0);
            assert(t + s.take(0) =~= t);
            assert(c.take(cap) =~= (c + s).take(cap));
        }
        assert(run_text(frags, cap).is_prefix_of(concat_all(frags))) by {
            let all = concat_all(frags);
            if all.len() > cap {
                assert(all.take(cap).is_prefix_of(all));
            }
        }
    }
}

/// The concatenation of ASCII fragments is ASCII.
proof fn lemma_ascii_concat_all(frags: Seq<Seq<char>>)
    requires
        forall|i: int| 0 <= i < frags.len() ==> is_ascii_chars(#[trigger] frags[i]),
    ensures
        is_ascii_chars(concat_all(frags)),
    decreases frags.len(),
{
    if frags.len() > 0 {
        assert(forall|i: int|
            0 <= i < frags.drop_last().len() ==> is_ascii_chars(#[trigger] frags.drop_last()[i]));
        lemma_ascii_concat_all(frags.drop_last());
        is_ascii_chars_concat(
            concat_all(frags.drop_last()) + frags.last(),
            concat_all(frags.drop_last()),
            frags.last(),
        );
    }
}

/// Byte lengths coincide with character counts for the ASCII pieces
/// that the prefix law manipulates.
proof fn lemma_ascii_utf8_len_all(c: Seq<char>, s: Seq<char>, t: Seq<char>)
    requires
        is_ascii_chars(c),
        is_ascii_chars(s),
        t.is_prefix_of(c),
    ensures
        utf8_len(c) == c.len(),
        utf8_len(s) == s.len(),
        utf8_len(t) == t.len(),
{
    crate::encoding::lemma_ascii_utf8_len(c);
    crate::encoding::lemma_ascii_utf8_len(s);
    assert(is_ascii_chars(t)) by {
        assert(forall|i: int| 0 <= i < t.len() ==> t[i] == c[i]);
    }
    crate::encoding::lemma_ascii_utf8_len(t);
}

} // verus!
