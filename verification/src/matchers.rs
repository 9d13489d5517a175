//! The two delimiter-matching strategies: a literal substring and a single
//! character. Both scan by character position, so a reported range never
//! splits a multi-byte character.
use vstd::prelude::*;

verus! {

use crate::Delimiter;
use crate::search::{
    lemma_first_hit_from_absent,
    lemma_first_hit_from_found,
    lemma_single_char_match,
    match_at,
};

/// Whether `pat` occurs in `slice` starting at character position `i`.
fn occurs_at(slice: &str, pat: &str, i: usize) -> (b: bool)
    requires
        i + pat@.len() <= slice@.len(),
        slice@.len() <= usize::MAX,
    ensures
        b == match_at(slice@, pat@, i as int),
{
    let m: usize = pat.unicode_len();
    let mut j: usize = 0;
    while j < m
        invariant
            j <= m,
            m == pat@.len(),
            i + m <= slice@.len() <= usize::MAX,
            forall|t: int| 0 <= t < j ==> slice@[i + t] == pat@[t],
        decreases m - j,
    {
        if slice.get_char(i + j) != pat.get_char(j) {
            proof {
                assert(slice@.subrange(i as int, i + m) != pat@) by {
                    assert(slice@.subrange(i as int, i + m)[j as int] == slice@[i + j]);
                }
            }
            return false;
        }
        j += 1;
    }
    proof {
        assert(slice@.subrange(i as int, i + m) =~= pat@);
    }
    true
}

impl<'pattern> Delimiter for &'pattern str {
    /// A literal substring matches its own sequence of characters.
    open spec fn delim(&self) -> Seq<char> {
        (*self)@
    }

    /// Finds the first occurrence of the pattern as a contiguous run of
    /// characters, scanning left to right.
    fn find_next_chars(&self, slice: &str) -> (r: Option<(usize, usize)>) {
        let n: usize = slice.unicode_len();
        let m: usize = self.unicode_len();
        let ghost d = self.delim();
        if m > n {
            proof {
                lemma_first_hit_from_absent(slice@, d, 0);
            }
            return None;
        }
        let mut i: usize = 0;
        while i <= n - m
            invariant
                0 < m <= n,
                n == slice@.len(),
                m == d.len(),
                d == self.delim(),
                i <= n - m + 1,
                forall|k: int| 0 <= k < i ==> !match_at(slice@, d, k),
            decreases n - m - i + 1,
        {
            if occurs_at(slice, *self, i) {
                proof {
                    lemma_first_hit_from_found(slice@, d, 0, i as int);
                }
                return Some((i, i + m));
            }
            i += 1;
        }
        proof {
            assert forall|k: int| 0 <= k implies !match_at(slice@, d, k) by {
                if k < i {
                } else {
                    assert(k + m > n);
                }
            }
            lemma_first_hit_from_absent(slice@, d, 0);
        }
        None
    }
}

impl Delimiter for char {
    /// A single character matches the one-character sequence holding it.
    open spec fn delim(&self) -> Seq<char> {
        seq![*self]
    }

    /// Finds the first character equal to the target, scanning character by
    /// character; the reported range is one character wide.
    fn find_next_chars(&self, slice: &str) -> (r: Option<(usize, usize)>) {
        let n: usize = slice.unicode_len();
        let ghost d = self.delim();
        let mut i: usize = 0;
        while i < n
            invariant
                n == slice@.len(),
                i <= n,
                d == self.delim(),
                forall|k: int| 0 <= k < i ==> slice@[k] != d[0],
            decreases n - i,
        {
            if slice.get_char(i) == *self {
                proof {
                    assert(d =~= seq![d[0]]);
                    lemma_single_char_match(slice@, d[0], i as int);
                    assert forall|k: int| 0 <= k < i implies !match_at(slice@, d, k) by {
                        lemma_single_char_match(slice@, d[0], k);
                    }
                    lemma_first_hit_from_found(slice@, d, 0, i as int);
                }
                return Some((i, i + 1));
            }
            i += 1;
        }
        proof {
            assert(d =~= seq![d[0]]);
            assert forall|k: int| 0 <= k implies !match_at(slice@, d, k) by {
                lemma_single_char_match(slice@, d[0], k);
            }
            lemma_first_hit_from_absent(slice@, d, 0);
        }
        None
    }
}

} // verus!
