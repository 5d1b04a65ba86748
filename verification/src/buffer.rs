//! The truncating buffer itself.

use vstd::prelude::*;
use vstd::string::{StrSliceExecFns, StringExecFns};
use crate::encoding::{char_width, fit_count, lemma_fit_count_full, lemma_utf8_len_concat,
    lemma_utf8_len_take_succ, utf8_len};

verus! {

/// A text buffer with a fixed byte capacity `N`.
///
/// Writes accumulate text until the capacity is reached; a fragment
/// that does not fit in full is cut at the last character that does,
/// and the sticky `truncated` flag records that content was dropped.
pub struct TruncatingFmtBuffer<const N: usize> {
    content: String,
    truncated: bool,
}

impl<const N: usize> TruncatingFmtBuffer<N> {
    /// The accumulated text, as a sequence of characters.
    pub closed spec fn text(&self) -> Seq<char> {
        self.content@
    }

    /// Whether any write so far failed to fit in full.
    pub closed spec fn is_truncated(&self) -> bool {
        self.truncated
    }

    /// Bytes of the capacity occupied by the accumulated text.
    pub open spec fn used(&self) -> nat {
        utf8_len(self.text())
    }

    /// The accumulated text always fits in the capacity.
    pub open spec fn wf(&self) -> bool {
        self.used() <= N
    }

    /// An empty buffer: nothing accumulated, nothing truncated.
    pub fn new() -> (r: Self)
        ensures
            r.wf(),
            r.text() == Seq::<char>::empty(),
            r.used() == 0,
            !r.is_truncated(),
    {
        TruncatingFmtBuffer { content: String::new(), truncated: false }
    }

    /// Appends as much of `s` as still fits, cut at a character
    /// boundary, and records truncation when anything was dropped.
    ///
    /// The call itself always succeeds: loss of content is reported
    /// only through the sticky truncation flag.
    pub fn write_str(&mut self, s: &str) -> (r: Result<(), ()>)
        requires
            old(self).wf(),
        ensures
            final(self).wf(),
            r is Ok,
            final(self).text() == old(self).text() + s@.take(
                fit_count(s@, N - old(self).used()) as int,
            ),
            final(self).used() == old(self).used() + utf8_len(
                s@.take(fit_count(s@, N - old(self).used()) as int),
            ),
            final(self).is_truncated() == (old(self).is_truncated() || utf8_len(s@) > N - old(
                self,
            ).used()),
            old(self).used() <= final(self).used() <= N,
            old(self).is_truncated() ==> final(self).is_truncated(),
            utf8_len(s@) <= N - old(self).used() ==> final(self).text() == old(self).text() + s@,
    {
        let used: usize = self.content.as_str().len();
        proof {
            assert(used == utf8_len(self.content@));
        }
        let remaining: usize = N - used;
        let n: usize = s.unicode_len();
        let mut k: usize = 0;
        let mut cut: usize = 0;
        proof {
            assert(s@.skip(0) =~= s@);
            assert(s@.take(0) =~= Seq::<char>::empty());
        }
        loop
            invariant
                self.content@ == old(self).text(),
                self.truncated == old(self).is_truncated(),
                used == utf8_len(old(self).text()),
                used + remaining == N,
                n == s@.len(),
                k <= n,
                cut <= remaining,
                cut == utf8_len(s@.take(k as int)),
                fit_count(s@, remaining as int) == k + fit_count(
                    s@.skip(k as int),
                    remaining - cut,
                ),
            ensures
                self.content@ == old(self).text(),
                self.truncated == old(self).is_truncated(),
                k <= n == s@.len(),
                cut <= remaining,
                used + remaining == N,
                used == utf8_len(old(self).text()),
                cut == utf8_len(s@.take(k as int)),
                k == fit_count(s@, remaining as int),
            decreases n - k,
        {
            if k >= n {
                proof {
                    assert(s@.skip(k as int) =~= Seq::<char>::empty());
                }
                break;
            }
            let c = s.get_char(k);
            let w = char_width(c);
            proof {
                assert(s@.skip(k as int)[0] == s@[k as int]);
            }
            if w > remaining - cut {
                break;
            }
            proof {
                assert(s@.skip(k as int).drop_first() =~= s@.skip(k as int + 1));
                lemma_utf8_len_take_succ(s@, k as int);
            }
            cut = cut + w;
            k = k + 1;
        }
        if k == n {
            proof {
                assert(s@.take(n as int) =~= s@);
                lemma_utf8_len_concat(self.content@, s@);
            }
            self.content.append(s);
        } else {
            proof {
                if utf8_len(s@) <= remaining {
                    lemma_fit_count_full(s@, remaining as int);
                }
                lemma_utf8_len_concat(self.content@, s@.take(k as int));
            }
            self.truncated = true;
            let prefix = s.substring_char(0, k);
            self.content.append(prefix);
        }
        Ok(())
    }

    /// The accumulated text so far and whether any of the written
    /// content was dropped. Reads the buffer without changing it.
    pub fn as_str(&mut self) -> (r: (&str, bool))
        ensures
            *final(self) == *old(self),
            r.0@ == old(self).text(),
            r.1 == old(self).is_truncated(),
    {
        (self.content.as_str(), self.truncated)
    }
}

} // verus!
