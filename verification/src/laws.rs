//! The laws of splitting, stated over the model of `search` and proved for
//! every text and every non-empty delimiter pattern.
use vstd::prelude::*;

verus! {

use crate::search::{
    first_hit,
    lemma_first_hit_from_some,
    lemma_segments_nonempty,
    match_at,
    segments_of,
};

/// The number of non-overlapping occurrences of `d` found while scanning
/// `text` left to right, always advancing past a found occurrence.
pub open spec fn hit_count(text: Seq<char>, d: Seq<char>) -> nat
    decreases text.len() when 0 < d.len() via hit_count_decreases
{
    match first_hit(text, d) {
        None => 0,
        Some(i) => 1 + hit_count(text.subrange(i + d.len(), text.len() as int), d),
    }
}

#[via_fn]
proof fn hit_count_decreases(text: Seq<char>, d: Seq<char>) {
    if 0 < d.len() {
        if let Some(i) = first_hit(text, d) {
            lemma_first_hit_from_some(text, d, 0, i);
        }
    }
}

/// Splitting yields exactly one segment more than the number of
/// non-overlapping occurrences of the delimiter found in the scan.
pub proof fn lemma_segment_count(text: Seq<char>, d: Seq<char>)
    requires
        0 < d.len(),
    ensures
        segments_of(text, d).len() == hit_count(text, d) + 1,
    decreases text.len(),
{
    if let Some(i) = first_hit(text, d) {
        lemma_first_hit_from_some(text, d, 0, i);
        lemma_segment_count(text.subrange(i + d.len(), text.len() as int), d);
    }
}

/// The concatenation of the segments `segs` with `d` re-inserted between
/// consecutive segments, in order.
pub open spec fn joined_with(segs: Seq<Seq<char>>, d: Seq<char>) -> Seq<char>
    decreases segs.len(),
{
    if segs.len() == 0 {
        Seq::empty()
    } else if segs.len() == 1 {
        segs[0]
    } else {
        segs[0] + d + joined_with(segs.drop_first(), d)
    }
}

/// Round trip: joining the segments of `text` with the delimiter pattern
/// re-inserted between consecutive segments reconstructs `text` exactly.
pub proof fn lemma_round_trip(text: Seq<char>, d: Seq<char>)
    requires
        0 < d.len(),
    ensures
        joined_with(segments_of(text, d), d) == text,
    decreases text.len(),
{
    match first_hit(text, d) {
        None => {},
        Some(i) => {
            lemma_first_hit_from_some(text, d, 0, i);
            let rest = text.subrange(i + d.len(), text.len() as int);
            lemma_round_trip(rest, d);
            lemma_segments_nonempty(rest, d);
            assert(segments_of(text, d).drop_first() =~= segments_of(rest, d));
            assert(text =~= text.subrange(0, i) + d + rest);
        },
    }
}

/// The start positions of the non-overlapping occurrences of `d` that the
/// left-to-right scan of `text` finds, as absolute positions in `text`.
pub open spec fn hit_starts(text: Seq<char>, d: Seq<char>) -> Seq<int>
    decreases text.len() when 0 < d.len() via hit_starts_decreases
{
    match first_hit(text, d) {
        None => Seq::empty(),
        Some(i) => seq![i] + hit_starts(text.subrange(i + d.len(), text.len() as int), d)
            .map_values(|p: int| p + i + d.len()),
    }
}

#[via_fn]
proof fn hit_starts_decreases(text: Seq<char>, d: Seq<char>) {
    if 0 < d.len() {
        if let Some(i) = first_hit(text, d) {
            lemma_first_hit_from_some(text, d, 0, i);
        }
    }
}

/// The scan records one start position per occurrence it finds.
pub proof fn lemma_hit_starts_count(text: Seq<char>, d: Seq<char>)
    requires
        0 < d.len(),
    ensures
        hit_starts(text, d).len() == hit_count(text, d),
    decreases text.len(),
{
    if let Some(i) = first_hit(text, d) {
        lemma_first_hit_from_some(text, d, 0, i);
        lemma_hit_starts_count(text.subrange(i + d.len(), text.len() as int), d);
    }
}

/// An occurrence within the suffix of `text` that starts at `off` is an
/// occurrence within `text`, shifted by `off`.
proof fn lemma_match_in_suffix(text: Seq<char>, d: Seq<char>, off: int, p: int)
    requires
        0 <= off <= text.len(),
        match_at(text.subrange(off, text.len() as int), d, p),
    ensures
        match_at(text, d, off + p),
{
    let rest = text.subrange(off, text.len() as int);
    assert(text.subrange(off + p, off + p + d.len()) =~= rest.subrange(p, p + d.len()));
}

/// The scan's occurrences are real, non-overlapping, and strictly left to
/// right: every recorded start position is an occurrence of the delimiter,
/// and each occurrence starts at or after the end of the one before it.
pub proof fn lemma_hits_ordered(text: Seq<char>, d: Seq<char>)
    requires
        0 < d.len(),
    ensures
        forall|k: int|
            0 <= k < hit_starts(text, d).len() ==> match_at(
                text,
                d,
                #[trigger] hit_starts(text, d)[k],
            ),
        forall|k: int|
            0 <= k < hit_starts(text, d).len() - 1 ==> #[trigger] hit_starts(text, d)[k]
                + d.len() <= hit_starts(text, d)[k + 1],
    decreases text.len(),
{
    if let Some(i) = first_hit(text, d) {
        lemma_first_hit_from_some(text, d, 0, i);
        let rest = text.subrange(i + d.len(), text.len() as int);
        lemma_hits_ordered(rest, d);
        let tail = hit_starts(rest, d);
        let starts = hit_starts(text, d);
        assert forall|k: int| 0 <= k < starts.len() implies match_at(text, d, starts[k]) by {
            if k == 0 {
            } else {
                assert(starts[k] == tail[k - 1] + i + d.len());
                lemma_match_in_suffix(text, d, i + d.len(), tail[k - 1]);
            }
        }
        assert forall|k: int| 0 <= k < starts.len() - 1 implies #[trigger] starts[k] + d.len()
            <= starts[k + 1] by {
            if k == 0 {
                assert(starts[1] == tail[0] + i + d.len());
            } else {
                assert(starts[k] == tail[k - 1] + i + d.len());
                assert(starts[k + 1] == tail[k] + i + d.len());
            }
        }
    }
}

} // verus!
