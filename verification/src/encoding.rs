//! Byte-length accounting for UTF-8 text.
//!
//! The buffer's capacity is measured in bytes while its content is a
//! sequence of characters, so everything here revolves around the byte
//! length of a character sequence under UTF-8 ([`utf8_len`]) and the
//! longest prefix of a fragment whose encoding fits in a given number
//! of free bytes ([`fit_count`]).

use vstd::prelude::*;
use vstd::utf8::{char_is_scalar, encode_scalar, encode_utf8, is_ascii_chars,
    is_ascii_chars_encode_utf8};

verus! {

/// Number of bytes (1 to 4) in the UTF-8 encoding of one character.
pub open spec fn scalar_width(c: char) -> nat {
    encode_scalar(c as u32).len()
}

/// Number of bytes in the UTF-8 encoding of a character sequence.
pub open spec fn utf8_len(s: Seq<char>) -> nat {
    encode_utf8(s).len()
}

/// How many leading characters of `s` fit in `room` free bytes:
/// characters are taken greedily from the front while their encoded
/// widths still fit, which yields the longest prefix of `s` whose byte
/// length is at most `room`.
pub open spec fn fit_count(s: Seq<char>, room: int) -> nat
    decreases s.len(),
{
    if s.len() == 0 {
        0
    } else if scalar_width(s[0]) <= room {
        1 + fit_count(s.drop_first(), room - scalar_width(s[0]))
    } else {
        0
    }
}

/// Every character encodes to between 1 and 4 bytes.
pub proof fn lemma_scalar_width_bounds(c: char)
    ensures
        1 <= scalar_width(c) <= 4,
{
}

/// UTF-8 encoding distributes over concatenation of character sequences.
pub proof fn lemma_encode_utf8_concat(a: Seq<char>, b: Seq<char>)
    ensures
        encode_utf8(a + b) == encode_utf8(a) + encode_utf8(b),
    decreases a.len(),
{
    if a.len() == 0 {
        assert(a + b =~= b);
        assert(encode_utf8(a) + encode_utf8(b) =~= encode_utf8(b));
    } else {
        assert((a + b).drop_first() =~= a.drop_first() + b);
        lemma_encode_utf8_concat(a.drop_first(), b);
        assert(encode_utf8(a + b) =~= encode_utf8(a) + encode_utf8(b));
    }
}

/// The byte length of a concatenation is the sum of the byte lengths.
pub proof fn lemma_utf8_len_concat(a: Seq<char>, b: Seq<char>)
    ensures
        utf8_len(a + b) == utf8_len(a) + utf8_len(b),
{
    lemma_encode_utf8_concat(a, b);
}

/// The byte length of a one-character sequence is that character's width.
pub proof fn lemma_utf8_len_singleton(c: char)
    ensures
        utf8_len(seq![c]) == scalar_width(c),
{
    assert(seq![c].drop_first() =~= Seq::<char>::empty());
    assert(encode_utf8(seq![c].drop_first()) =~= Seq::<u8>::empty());
    assert(encode_utf8(seq![c]) =~= encode_scalar(c as u32));
}

/// Extending a prefix by one character adds that character's width.
pub proof fn lemma_utf8_len_take_succ(s: Seq<char>, k: int)
    requires
        0 <= k < s.len(),
    ensures
        utf8_len(s.take(k + 1)) == utf8_len(s.take(k)) + scalar_width(s[k]),
{
    assert(s.take(k + 1) =~= s.take(k) + seq![s[k]]);
    lemma_utf8_len_concat(s.take(k), seq![s[k]]);
    lemma_utf8_len_singleton(s[k]);
}

/// The fitting prefix never counts more characters than the fragment has.
pub proof fn lemma_fit_count_le_len(s: Seq<char>, room: int)
    ensures
        fit_count(s, room) <= s.len(),
    decreases s.len(),
{
    if s.len() != 0 && scalar_width(s[0]) <= room {
        lemma_fit_count_le_len(s.drop_first(), room - scalar_width(s[0]));
    }
}

/// The fitting prefix indeed fits: its byte length is at most `room`.
pub proof fn lemma_fit_count_fits(s: Seq<char>, room: int)
    requires
        room >= 0,
    ensures
        utf8_len(s.take(fit_count(s, room) as int)) <= room,
    decreases s.len(),
{
    if s.len() == 0 {
        assert(s.take(0) =~= Seq::<char>::empty());
    } else {
        let w = scalar_width(s[0]) as int;
        if w <= room {
            lemma_fit_count_le_len(s.drop_first(), room - w);
            lemma_fit_count_fits(s.drop_first(), room - w);
            let f = fit_count(s.drop_first(), room - w) as int;
            assert(s.take(1 + f) =~= seq![s[0]] + s.drop_first().take(f));
            lemma_utf8_len_concat(seq![s[0]], s.drop_first().take(f));
            lemma_utf8_len_singleton(s[0]);
        } else {
            assert(s.take(0) =~= Seq::<char>::empty());
        }
    }
}

/// A fragment whose whole byte length fits is taken in full.
pub proof fn lemma_fit_count_full(s: Seq<char>, room: int)
    requires
        utf8_len(s) <= room,
    ensures
        fit_count(s, room) == s.len(),
    decreases s.len(),
{
    if s.len() != 0 {
        assert(encode_utf8(s) == encode_scalar(s[0] as u32) + encode_utf8(s.drop_first()));
        lemma_fit_count_full(s.drop_first(), room - scalar_width(s[0]));
    }
}

/// No longer prefix fits: any prefix of at most `room` bytes has at
/// most `fit_count(s, room)` characters.
pub proof fn lemma_fit_count_maximal(s: Seq<char>, room: int, k: int)
    requires
        0 <= k <= s.len(),
        utf8_len(s.take(k)) <= room,
    ensures
        k <= fit_count(s, room),
    decreases k,
{
    if k > 0 {
        assert(s.take(k) =~= seq![s[0]] + s.drop_first().take(k - 1));
        lemma_utf8_len_concat(seq![s[0]], s.drop_first().take(k - 1));
        lemma_utf8_len_singleton(s[0]);
        lemma_fit_count_maximal(s.drop_first(), room - scalar_width(s[0]), k - 1);
    }
}

/// An ASCII character encodes to a single byte.
pub proof fn lemma_ascii_scalar_width(c: char)
    requires
        '\0' <= c <= '\u{7f}',
    ensures
        scalar_width(c) == 1,
{
    let s = seq![c];
    assert(is_ascii_chars(s));
    is_ascii_chars_encode_utf8(s);
    lemma_utf8_len_singleton(c);
}

/// An ASCII sequence's byte length is its character count.
pub proof fn lemma_ascii_utf8_len(s: Seq<char>)
    requires
        is_ascii_chars(s),
    ensures
        utf8_len(s) == s.len(),
{
    is_ascii_chars_encode_utf8(s);
}

/// For ASCII fragments the fitting prefix is exactly `min(len, room)`.
pub proof fn lemma_fit_count_ascii(s: Seq<char>, room: int)
    requires
        is_ascii_chars(s),
    ensures
        fit_count(s, room) == if room < 0 {
            0nat
        } else if s.len() <= room {
            s.len()
        } else {
            room as nat
        },
    decreases s.len(),
{
    if s.len() != 0 {
        lemma_ascii_scalar_width(s[0]);
        assert(is_ascii_chars(s.drop_first()));
        if 1 <= room {
            lemma_fit_count_ascii(s.drop_first(), room - 1);
        }
    }
}

/// Number of bytes (1 to 4) that `c` occupies in UTF-8.
pub fn char_width(c: char) -> (w: usize)
    ensures
        w as nat == scalar_width(c),
{
    proof {
        char_is_scalar(c);
    }
    let u: u32 = c as u32;
    if u < 0x80 {
        1
    } else if u < 0x800 {
        2
    } else if u < 0x10000 {
        3
    } else {
        4
    }
}

} // verus!
