//! Buffer scanning: counting, replacing and splitting without copies.

use crate::seqs::{
    copy_range, count_of, count_symbol, matches_at, occurs_at, ranges_within, replace,
    replace_all, same_ranges, split, split_indices, split_ranges,
};
use crate::text::chars_of;
use vstd::prelude::*;

verus! {

/// Counts the characters of `s` equal to `target`.
pub fn count_char_occurrences(s: &str, target: char) -> (n: usize)
    ensures
        n == count_of(s@, target),
{
    let chars = chars_of(s);
    count_symbol(chars.as_slice(), target)
}

/// Replaces every occurrence of `target` in `buffer` by `replacement`,
/// scanning left to right and resuming after each replacement. An empty
/// target leaves the buffer as it is.
pub fn replace_bytes(buffer: &mut Vec<u8>, target: &[u8], replacement: &[u8])
    ensures
        final(buffer)@ == replace_all(old(buffer)@, target@, replacement@),
{
    let replaced = replace(buffer.as_slice(), target, replacement);
    *buffer = replaced;
}

/// Cuts `buffer` at every occurrence of `delimiter` and returns the ranges of
/// the pieces: one more than there are cuts, each inside the buffer.
pub fn split_buffer_inxeses(buffer: &[u8], delimiter: &[u8]) -> (out: Vec<(usize, usize)>)
    ensures
        same_ranges(out@, split_ranges(buffer@, delimiter@)),
        ranges_within(out@, buffer@.len() as int),
        out@.len() >= 1,
{
    split_indices(buffer, delimiter)
}

/// Cuts `buffer` at every occurrence of `delimiter` and returns copies of
/// the pieces.
pub fn split_buffer(buffer: &[u8], delimiter: &[u8]) -> (out: Vec<Vec<u8>>)
    ensures
        out.deep_view() == split(buffer@, delimiter@),
{
    let ranges = split_indices(buffer, delimiter);
    let mut out: Vec<Vec<u8>> = Vec::new();
    let mut k: usize = 0;
    while k < ranges.len()
        invariant
            k <= ranges@.len(),
            same_ranges(ranges@, split_ranges(buffer@, delimiter@)),
            ranges_within(ranges@, buffer@.len() as int),
            out@.len() == k,
            forall|j: int|
                0 <= j < k ==> (#[trigger] out@[j])@ == split(buffer@, delimiter@)[j],
        decreases ranges.len() - k,
    {
        let (a, b) = ranges[k];
        let piece = copy_range(buffer, a, b);
        out.push(piece);
        k += 1;
    }
    assert forall|j: int| 0 <= j < out@.len() implies #[trigger] out.deep_view()[j] == split(
        buffer@,
        delimiter@,
    )[j] by {
        assert(out@[j].deep_view() =~= out@[j]@);
    }
    assert(out.deep_view() =~= split(buffer@, delimiter@));
    out
}

/// The positions at or after `from` where `pat` stands in `s`, ascending.
/// An empty `pat` stands nowhere.
pub open spec fn occurrences_from<T>(s: Seq<T>, pat: Seq<T>, from: int) -> Seq<int>
    decreases s.len() - from + 1,
{
    if from < 0 || pat.len() == 0 || from + pat.len() > s.len() {
        Seq::empty()
    } else if occurs_at(s, pat, from) {
        seq![from] + occurrences_from(s, pat, from + 1)
    } else {
        occurrences_from(s, pat, from + 1)
    }
}

/// All positions where `pat` stands in `s`.
pub open spec fn occurrences<T>(s: Seq<T>, pat: Seq<T>) -> Seq<int> {
    occurrences_from(s, pat, 0)
}

/// `positions` holds the same numbers as `model`.
pub open spec fn same_positions(positions: Seq<usize>, model: Seq<int>) -> bool {
    &&& positions.len() == model.len()
    &&& forall|k: int| 0 <= k < positions.len() ==> #[trigger] positions[k] == model[k]
}

/// Every position where `pattern` stands in `buffer`, ascending; occurrences
/// may overlap. Each lies where the pattern still fits.
pub fn find_all(buffer: &[u8], pattern: &[u8]) -> (out: Vec<usize>)
    ensures
        same_positions(out@, occurrences(buffer@, pattern@)),
        forall|k: int| 0 <= k < out@.len() ==> #[trigger] out@[k] + pattern@.len() <= buffer@.len(),
        forall|k: int, l: int| 0 <= k < l < out@.len() ==> out@[k] < out@[l],
{
    let mut out: Vec<usize> = Vec::new();
    if pattern.len() == 0 || pattern.len() > buffer.len() {
        return out;
    }
    let limit: usize = buffer.len() - pattern.len();
    let ghost all = occurrences(buffer@, pattern@);
    let mut i: usize = 0;
    loop
        invariant
            i <= limit,
            limit == buffer@.len() - pattern@.len(),
            pattern@.len() > 0,
            all == occurrences(buffer@, pattern@),
            all.len() == out@.len() + occurrences_from(buffer@, pattern@, i as int).len(),
            forall|k: int| 0 <= k < out@.len() ==> #[trigger] out@[k] == all[k],
            forall|k: int|
                0 <= k < occurrences_from(buffer@, pattern@, i as int).len() ==> all[out@.len()
                    + k] == #[trigger] occurrences_from(buffer@, pattern@, i as int)[k],
            forall|k: int| 0 <= k < out@.len() ==> #[trigger] out@[k] < i,
            forall|k: int, l: int| 0 <= k < l < out@.len() ==> out@[k] < out@[l],
        decreases limit - i,
    {
        let ghost here = occurrences_from(buffer@, pattern@, i as int);
        let ghost rest = occurrences_from(buffer@, pattern@, i + 1);
        if matches_at(buffer, pattern, i) {
            assert(here == seq![i as int] + rest);
            assert(here[0] == i);
            assert forall|k: int| 0 <= k < rest.len() implies all[out@.len() + 1 + k]
                == #[trigger] rest[k] by {
                assert(here[k + 1] == rest[k]);
            }
            out.push(i);
        } else {
            assert(here == rest);
        }
        if i == limit {
            assert(rest =~= Seq::<int>::empty());
            return out;
        }
        i += 1;
    }
}

} // verus!
