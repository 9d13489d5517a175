//! The mathematical model of delimiter matching: where a pattern occurs in a
//! text, where it occurs first, and the sequence of segments that splitting
//! at every occurrence produces.
//!
//! Texts are modelled as sequences of characters, and all positions are
//! character positions. An empty pattern is excluded throughout (every
//! position would match it), which the public operations state as a
//! precondition.
use vstd::prelude::*;

verus! {

/// The pattern `d` occurs in `text` starting at position `i`.
pub open spec fn match_at(text: Seq<char>, d: Seq<char>, i: int) -> bool {
    &&& 0 <= i
    &&& i + d.len() <= text.len()
    &&& text.subrange(i, i + d.len()) == d
}

/// The first position at or after `i` where `d` occurs in `text`, if any.
pub open spec fn first_hit_from(text: Seq<char>, d: Seq<char>, i: int) -> Option<int>
    decreases text.len() - i when 0 < d.len()
{
    if i + d.len() > text.len() {
        None
    } else if match_at(text, d, i) {
        Some(i)
    } else {
        first_hit_from(text, d, i + 1)
    }
}

/// The first position where `d` occurs in `text`, if any.
pub open spec fn first_hit(text: Seq<char>, d: Seq<char>) -> Option<int> {
    first_hit_from(text, d, 0)
}

/// When the scan from `i` reports a hit, it is a real occurrence and no
/// earlier position at or after `i` is one.
pub proof fn lemma_first_hit_from_some(text: Seq<char>, d: Seq<char>, i: int, j: int)
    requires
        0 < d.len(),
        first_hit_from(text, d, i) == Some(j),
    ensures
        i <= j,
        match_at(text, d, j),
        forall|k: int| i <= k < j ==> !match_at(text, d, k),
    decreases text.len() - i,
{
    if i + d.len() > text.len() {
    } else if match_at(text, d, i) {
    } else {
        lemma_first_hit_from_some(text, d, i + 1, j);
    }
}

/// An occurrence at `j` with none between `i` and `j` makes `j` the first
/// hit of the scan from `i`.
pub proof fn lemma_first_hit_from_found(text: Seq<char>, d: Seq<char>, i: int, j: int)
    requires
        0 < d.len(),
        i <= j,
        match_at(text, d, j),
        forall|k: int| i <= k < j ==> !match_at(text, d, k),
    ensures
        first_hit_from(text, d, i) == Some(j),
    decreases j - i
{
    if i == j {
    } else {
        lemma_first_hit_from_found(text, d, i + 1, j);
    }
}

/// No occurrence at or after `i` makes the scan from `i` report no hit.
pub proof fn lemma_first_hit_from_absent(text: Seq<char>, d: Seq<char>, i: int)
    requires
        0 < d.len(),
        forall|k: int| i <= k ==> !match_at(text, d, k),
    ensures
        first_hit_from(text, d, i) is None,
    decreases text.len() - i,
{
    if i + d.len() > text.len() {
    } else {
        lemma_first_hit_from_absent(text, d, i + 1);
    }
}

/// A single character occurs at `i` exactly when the character at `i` is it.
pub proof fn lemma_single_char_match(text: Seq<char>, c: char, i: int)
    ensures
        match_at(text, seq![c], i) <==> (0 <= i < text.len() && text[i] == c),
{
    if 0 <= i < text.len() {
        if text[i] == c {
            assert(text.subrange(i, i + 1) =~= seq![c]);
        }
        if match_at(text, seq![c], i) {
            assert(text.subrange(i, i + 1)[0] == text[i]);
        }
    }
}

/// The segments that splitting `text` at every occurrence of `d` yields, in
/// order: the text before the first occurrence, then the segments of the
/// text after it; the whole text when `d` does not occur.
pub open spec fn segments_of(text: Seq<char>, d: Seq<char>) -> Seq<Seq<char>>
    decreases text.len() when 0 < d.len() via segments_of_decreases
{
    match first_hit(text, d) {
        None => seq![text],
        Some(i) => seq![text.subrange(0, i)] + segments_of(
            text.subrange(i + d.len(), text.len() as int),
            d,
        ),
    }
}

#[via_fn]
proof fn segments_of_decreases(text: Seq<char>, d: Seq<char>) {
    if 0 < d.len() {
        if let Some(i) = first_hit(text, d) {
            lemma_first_hit_from_some(text, d, 0, i);
        }
    }
}

/// The text before the first occurrence of the character `c`, or the whole
/// text when `c` does not occur in it.
pub open spec fn prefix_to_char(text: Seq<char>, c: char) -> Seq<char> {
    match first_hit(text, seq![c]) {
        None => text,
        Some(i) => text.subrange(0, i),
    }
}

/// Splitting yields at least one segment, whatever the text.
pub proof fn lemma_segments_nonempty(text: Seq<char>, d: Seq<char>)
    requires
        0 < d.len(),
    ensures
        segments_of(text, d).len() >= 1,
{
    if let Some(i) = first_hit(text, d) {
        lemma_first_hit_from_some(text, d, 0, i);
    }
}

} // verus!
