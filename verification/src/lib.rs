//! A lazy, zero-copy string splitter.
//!
//! A [`StrSplit`] holds the still-unscanned suffix of a source text and a
//! delimiter-matching strategy; each pull of [`StrSplit::next`] yields the
//! text before the next delimiter occurrence as a borrowed view into the
//! source, and advances past the occurrence. The [`Delimiter`] trait is the
//! strategy: a literal substring (`&str`) or a single character (`char`).
//!
//! Matching is modelled over characters and the splitter slices at
//! character boundaries, so a segment never splits a multi-byte character.
//! The range that [`Delimiter::find_next`] reports is a pair of byte
//! offsets into the text, `end - start` being the matched span's byte
//! length; [`Delimiter::find_next_chars`] reports the same occurrence as
//! character positions, and is what the splitter slices with. An empty
//! delimiter pattern is excluded by precondition: it would match at every
//! position and the scan would never advance.
use vstd::prelude::*;

pub mod laws;
pub mod matchers;
pub mod offsets;
pub mod search;

verus! {

use crate::offsets::{byte_len, byte_offset_of, lemma_encode_utf8_concat};
use crate::search::{
    first_hit,
    lemma_first_hit_from_some,
    lemma_segments_nonempty,
    prefix_to_char,
    segments_of,
};

/// A strategy for locating the next occurrence of a delimiter in a text.
pub trait Delimiter {
    /// The sequence of characters this delimiter matches.
    spec fn delim(&self) -> Seq<char>;

    /// Reports the first occurrence of the delimiter in `slice` as a
    /// half-open range of character positions, or `None` when the delimiter
    /// does not occur in `slice` at all. This is the matching engine:
    /// [`StrSplit`] slices the text at these positions.
    fn find_next_chars(&self, slice: &str) -> (r: Option<(usize, usize)>)
        requires
            self.delim().len() > 0,
        ensures
            match r {
                Some(range) => {
                    &&& first_hit(slice@, self.delim()) == Some(range.0 as int)
                    &&& range.1 == range.0 + self.delim().len()
                },
                None => first_hit(slice@, self.delim()) is None,
            },
    ;

    /// Reports the first occurrence of the delimiter in `slice` as a
    /// half-open range of byte offsets, or `None` when the delimiter does
    /// not occur in `slice` at all. Both offsets fall on character
    /// boundaries: they are the encoded byte lengths of the text before
    /// the match and of the text up to the match's end, so `end - start`
    /// is the matched span's byte length.
    fn find_next(&self, slice: &str) -> (r: Option<(usize, usize)>)
        requires
            self.delim().len() > 0,
        ensures
            match (r, first_hit(slice@, self.delim())) {
                (Some(range), Some(j)) => {
                    &&& range.0 == byte_len(slice@.subrange(0, j))
                    &&& range.1 == byte_len(slice@.subrange(0, j + self.delim().len()))
                    &&& range.1 == range.0 + byte_len(self.delim())
                },
                (None, None) => true,
                _ => false,
            },
    {
        match self.find_next_chars(slice) {
            Some((char_start, char_end)) => {
                proof {
                    lemma_first_hit_from_some(slice@, self.delim(), 0, char_start as int);
                }
                let byte_start: usize = byte_offset_of(slice, char_start);
                let byte_end: usize = byte_offset_of(slice, char_end);
                proof {
                    let j = char_start as int;
                    let e = char_end as int;
                    assert(slice@.subrange(0, e) =~= slice@.subrange(0, j) + slice@.subrange(
                        j,
                        e,
                    ));
                    lemma_encode_utf8_concat(slice@.subrange(0, j), slice@.subrange(j, e));
                }
                Some((byte_start, byte_end))
            },
            None => None,
        }
    }
}

/// A lazy splitting iterator: the unscanned suffix of the source text
/// (`None` once exhausted) together with the delimiter strategy.
#[derive(Debug)]
pub struct StrSplit<'haystack, D> {
    remainder: Option<&'haystack str>,
    delimiter: D,
}

impl<'haystack, D: Delimiter> StrSplit<'haystack, D> {
    /// The sequence of characters the splitter's delimiter matches.
    pub closed spec fn delim(&self) -> Seq<char> {
        self.delimiter.delim()
    }

    /// Well-formed: the delimiter pattern is non-empty.
    pub closed spec fn wf(&self) -> bool {
        self.delim().len() > 0
    }

    /// The splitter has yielded its final segment.
    pub closed spec fn exhausted(&self) -> bool {
        self.remainder is None
    }

    /// The segments still to be yielded, in order.
    pub closed spec fn pending(&self) -> Seq<Seq<char>> {
        match self.remainder {
            Some(rem) => segments_of(rem@, self.delim()),
            None => Seq::empty(),
        }
    }

    /// A splitter still has segments to yield exactly until it is exhausted;
    /// in particular a fresh splitter, not yet exhausted, always yields.
    pub proof fn lemma_pending_empty_iff_exhausted(self)
        requires
            self.wf(),
        ensures
            self.pending().len() == 0 <==> self.exhausted(),
    {
        if let Some(rem) = self.remainder {
            lemma_segments_nonempty(rem@, self.delim());
        }
    }

    /// Constructs a splitter over the whole of `haystack`. The delimiter
    /// pattern must be non-empty. The new splitter is not exhausted, so its
    /// first pull always yields a segment, also for an empty `haystack`.
    pub fn new(haystack: &'haystack str, delimiter: D) -> (r: Self)
        requires
            delimiter.delim().len() > 0,
        ensures
            r.wf(),
            !r.exhausted(),
            r.delim() == delimiter.delim(),
            r.pending() == segments_of(haystack@, delimiter.delim()),
    {
        StrSplit { remainder: Some(haystack), delimiter }
    }

    /// Yields the next segment as a borrowed view into the source text, or
    /// `None` once every segment has been yielded. The first pull after
    /// construction always yields, and the segments come in order: each
    /// pull yields the first pending segment and leaves the rest pending.
    pub fn next(&mut self) -> (r: Option<&'haystack str>)
        requires
            old(self).wf(),
        ensures
            final(self).wf(),
            final(self).delim() == old(self).delim(),
            !old(self).exhausted() ==> r is Some,
            match r {
                Some(seg) => {
                    &&& !old(self).exhausted()
                    &&& old(self).pending().len() >= 1
                    &&& seg@ == old(self).pending()[0]
                    &&& final(self).pending() == old(self).pending().drop_first()
                },
                None => {
                    &&& old(self).exhausted()
                    &&& *final(self) == *old(self)
                },
            },
    {
        match self.remainder {
            None => None,
            Some(rem) => {
                let ghost d = self.delim();
                match self.delimiter.find_next_chars(rem) {
                    Some((hit_start, hit_end)) => {
                        proof {
                            lemma_first_hit_from_some(rem@, d, 0, hit_start as int);
                        }
                        let n: usize = rem.unicode_len();
                        let prefix: &'haystack str = rem.substring_char(0, hit_start);
                        let rest: &'haystack str = rem.substring_char(hit_end, n);
                        self.remainder = Some(rest);
                        proof {
                            assert(self.pending() =~~= segments_of(rem@, d).drop_first());
                        }
                        Some(prefix)
                    },
                    None => {
                        self.remainder = None;
                        proof {
                            assert(self.pending() =~~= segments_of(rem@, d).drop_first());
                        }
                        Some(rem)
                    },
                }
            },
        }
    }

    /// Pulls every remaining segment into a vector, in order, leaving the
    /// splitter exhausted.
    pub fn collect_remaining(&mut self) -> (segs: Vec<&'haystack str>)
        requires
            old(self).wf(),
        ensures
            final(self).wf(),
            final(self).exhausted(),
            final(self).delim() == old(self).delim(),
            segs.deep_view() == old(self).pending(),
    {
        let mut out: Vec<&'haystack str> = Vec::new();
        proof {
            assert(out.deep_view() + self.pending() =~~= old(self).pending());
        }
        loop
            invariant
                self.wf(),
                self.delim() == old(self).delim(),
                out.deep_view() + self.pending() == old(self).pending(),
            ensures
                self.wf(),
                self.delim() == old(self).delim(),
                self.exhausted(),
                out.deep_view() + self.pending() == old(self).pending(),
            decreases self.pending().len(),
        {
            match self.next() {
                Some(seg) => {
                    out.push(seg);
                    proof {
                        assert(out.deep_view() + self.pending() =~~= old(self).pending());
                    }
                },
                None => {
                    break;
                },
            }
        }
        proof {
            self.lemma_pending_empty_iff_exhausted();
            assert(out.deep_view() =~~= old(self).pending());
        }
        out
    }
}

/// The borrowed view of `s` up to (not including) the first occurrence of
/// the character `c`, or the whole of `s` when `c` does not occur in it.
pub fn prefix_until_char<'a>(s: &'a str, c: char) -> (r: &'a str)
    ensures
        r@ == prefix_to_char(s@, c),
{
    let mut split: StrSplit<'a, char> = StrSplit::new(s, c);
    match split.next() {
        Some(seg) => {
            proof {
                if let Some(i) = first_hit(s@, seq![c]) {
                    lemma_first_hit_from_some(s@, seq![c], 0, i);
                }
            }
            seg
        },
        None => {
            proof {
                assert(false);
            }
            s
        },
    }
}

} // verus!
