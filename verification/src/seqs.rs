//! Searching, splitting and replacing in sequences of symbols.
//!
//! The specifications are generic over the element type; the executable
//! functions work on slices of any [`Symbol`] (bytes and characters).

use vstd::prelude::*;

verus! {

/// An element that can be compared for equality in executable code.
pub trait Symbol: Copy + Sized {
    /// Whether the two elements are equal.
    fn same(&self, other: &Self) -> (r: bool)
        ensures
            r == (*self == *other),
    ;
}

impl Symbol for u8 {
    fn same(&self, other: &Self) -> (r: bool) {
        *self == *other
    }
}

impl Symbol for char {
    fn same(&self, other: &Self) -> (r: bool) {
        *self == *other
    }
}

/// `pat` stands in `s` at position `i`.
pub open spec fn occurs_at<T>(s: Seq<T>, pat: Seq<T>, i: int) -> bool {
    &&& 0 <= i
    &&& i + pat.len() <= s.len()
    &&& s.subrange(i, i + pat.len()) =~= pat
}

/// The least position at or after `from` where `pat` stands in `s`, or -1.
pub open spec fn find_from<T>(s: Seq<T>, pat: Seq<T>, from: int) -> int
    decreases s.len() - from + 1,
{
    if from < 0 || from + pat.len() > s.len() {
        -1
    } else if occurs_at(s, pat, from) {
        from
    } else {
        find_from(s, pat, from + 1)
    }
}

/// `pat` stands somewhere in `s`.
pub open spec fn contains<T>(s: Seq<T>, pat: Seq<T>) -> bool {
    find_from(s, pat, 0) >= 0
}

/// `s` begins with `pat`.
pub open spec fn starts_with<T>(s: Seq<T>, pat: Seq<T>) -> bool {
    occurs_at(s, pat, 0)
}

/// The half-open index ranges of the pieces that `s` from `from` on falls
/// into when it is cut at every occurrence of `pat`, scanning left to right
/// and resuming after each occurrence. An empty `pat` cuts nowhere.
pub open spec fn split_ranges_from<T>(s: Seq<T>, pat: Seq<T>, from: int) -> Seq<(int, int)>
    decreases s.len() - from,
{
    let i = find_from(s, pat, from);
    if pat.len() == 0 || i < from || i + pat.len() > s.len() {
        seq![(from, s.len() as int)]
    } else {
        seq![(from, i)] + split_ranges_from(s, pat, i + pat.len())
    }
}

/// The ranges of the pieces of the whole of `s`.
pub open spec fn split_ranges<T>(s: Seq<T>, pat: Seq<T>) -> Seq<(int, int)> {
    split_ranges_from(s, pat, 0)
}

/// The pieces of `s` that `ranges` cut out.
pub open spec fn pieces<T>(s: Seq<T>, ranges: Seq<(int, int)>) -> Seq<Seq<T>> {
    ranges.map_values(|r: (int, int)| s.subrange(r.0, r.1))
}

/// `s` cut at every occurrence of `pat`.
pub open spec fn split<T>(s: Seq<T>, pat: Seq<T>) -> Seq<Seq<T>> {
    pieces(s, split_ranges(s, pat))
}

/// `s` cut at the first occurrence of `pat`.
pub open spec fn split_once<T>(s: Seq<T>, pat: Seq<T>) -> Option<(Seq<T>, Seq<T>)> {
    let i = find_from(s, pat, 0);
    if i < 0 {
        None
    } else {
        Some((s.subrange(0, i), s.subrange(i + pat.len(), s.len() as int)))
    }
}

/// `s` from `from` on, with every occurrence of `pat` replaced by `rep`,
/// scanning left to right and resuming after each occurrence. An empty `pat`
/// replaces nothing.
pub open spec fn replace_from<T>(s: Seq<T>, pat: Seq<T>, rep: Seq<T>, from: int) -> Seq<T>
    decreases s.len() - from,
{
    let i = find_from(s, pat, from);
    if pat.len() == 0 || i < from || i + pat.len() > s.len() {
        s.subrange(from, s.len() as int)
    } else {
        s.subrange(from, i) + rep + replace_from(s, pat, rep, i + pat.len())
    }
}

/// `s` with every occurrence of `pat` replaced by `rep`.
pub open spec fn replace_all<T>(s: Seq<T>, pat: Seq<T>, rep: Seq<T>) -> Seq<T> {
    replace_from(s, pat, rep, 0)
}

/// The pieces of `s` that the ranges of `ranges` cut out.
pub open spec fn cut<T>(s: Seq<T>, ranges: Seq<(usize, usize)>) -> Seq<Seq<T>> {
    Seq::new(ranges.len(), |k: int| s.subrange(ranges[k].0 as int, ranges[k].1 as int))
}

/// The number of elements of `s` equal to `target`.
pub open spec fn count_of<T>(s: Seq<T>, target: T) -> nat
    decreases s.len(),
{
    if s.len() == 0 {
        0
    } else {
        count_of(s.drop_last(), target) + if s.last() == target {
            1nat
        } else {
            0nat
        }
    }
}

/// `ranges` holds the same index pairs as `model`.
pub open spec fn same_ranges(ranges: Seq<(usize, usize)>, model: Seq<(int, int)>) -> bool {
    &&& ranges.len() == model.len()
    &&& forall|k: int|
        0 <= k < ranges.len() ==> (#[trigger] ranges[k]).0 == model[k].0 && ranges[k].1
            == model[k].1
}

/// Every range lies inside a sequence of length `len`.
pub open spec fn ranges_within(ranges: Seq<(usize, usize)>, len: int) -> bool {
    forall|k: int| 0 <= k < ranges.len() ==> (#[trigger] ranges[k]).0 <= ranges[k].1 <= len
}

/// A found position is a true occurrence, and none lies before it.
pub proof fn lemma_find_from<T>(s: Seq<T>, pat: Seq<T>, from: int)
    requires
        0 <= from,
    ensures
        find_from(s, pat, from) == -1 || (from <= find_from(s, pat, from) && occurs_at(
            s,
            pat,
            find_from(s, pat, from),
        )),
        forall|j: int|
            from <= j && (j < find_from(s, pat, from) || find_from(s, pat, from) == -1)
                ==> !occurs_at(s, pat, j),
    decreases s.len() - from + 1,
{
    if from + pat.len() > s.len() {
    } else if occurs_at(s, pat, from) {
    } else {
        lemma_find_from(s, pat, from + 1);
    }
}

/// Whether `pat` stands in `s` at position `i`.
pub fn matches_at<T: Symbol>(s: &[T], pat: &[T], i: usize) -> (r: bool)
    ensures
        r == occurs_at(s@, pat@, i as int),
{
    if pat.len() > s.len() || i > s.len() - pat.len() {
        return false;
    }
    let mut k: usize = 0;
    while k < pat.len()
        invariant
            k <= pat.len(),
            i + pat.len() <= s.len(),
            forall|j: int| 0 <= j < k ==> s@[i + j] == pat@[j],
        decreases pat.len() - k,
    {
        if !s[i + k].same(&pat[k]) {
            assert(s@.subrange(i as int, i + pat.len())[k as int] == s@[i + k]);
            return false;
        }
        k += 1;
    }
    assert(s@.subrange(i as int, i + pat.len()) =~= pat@);
    true
}

/// The first position at or after `from` where `pat` stands in `s`.
pub fn find<T: Symbol>(s: &[T], pat: &[T], from: usize) -> (r: Option<usize>)
    ensures
        match r {
            Some(i) => from <= i && i + pat@.len() <= s@.len() && find_from(
                s@,
                pat@,
                from as int,
            ) == i,
            None => find_from(s@, pat@, from as int) == -1,
        },
{
    if pat.len() > s.len() || from > s.len() - pat.len() {
        return None;
    }
    let limit: usize = s.len() - pat.len();
    let mut i: usize = from;
    loop
        invariant
            from <= i <= limit,
            limit == s.len() - pat.len(),
            find_from(s@, pat@, from as int) == find_from(s@, pat@, i as int),
        decreases limit - i,
    {
        if matches_at(s, pat, i) {
            return Some(i);
        }
        if i == limit {
            assert(find_from(s@, pat@, i + 1) == -1);
            return None;
        }
        i += 1;
    }
}

/// Cuts `s` at every occurrence of `pat` and returns the ranges of the pieces.
pub fn split_indices<T: Symbol>(s: &[T], pat: &[T]) -> (out: Vec<(usize, usize)>)
    ensures
        same_ranges(out@, split_ranges(s@, pat@)),
        ranges_within(out@, s@.len() as int),
        out@.len() >= 1,
{
    let mut out: Vec<(usize, usize)> = Vec::new();
    let mut start: usize = 0;
    if pat.len() == 0 {
        out.push((0, s.len()));
        return out;
    }
    loop
        invariant
            pat.len() > 0,
            start <= s.len(),
            ranges_within(out@, s@.len() as int),
            split_ranges(s@, pat@).len() == out@.len() + split_ranges_from(
                s@,
                pat@,
                start as int,
            ).len(),
            forall|k: int|
                0 <= k < out@.len() ==> (#[trigger] out@[k]).0 == split_ranges(s@, pat@)[k].0
                    && out@[k].1 == split_ranges(s@, pat@)[k].1,
            forall|k: int|
                0 <= k < split_ranges_from(s@, pat@, start as int).len() ==> split_ranges(
                    s@,
                    pat@,
                )[out@.len() + k] == #[trigger] split_ranges_from(s@, pat@, start as int)[k],
        decreases s.len() - start,
    {
        proof {
            lemma_find_from(s@, pat@, start as int);
        }
        match find(s, pat, start) {
            Some(i) => {
                let ghost rest = split_ranges_from(s@, pat@, i + pat.len());
                let ghost here = split_ranges_from(s@, pat@, start as int);
                assert(here == seq![(start as int, i as int)] + rest);
                assert(here[0] == (start as int, i as int));
                assert forall|k: int| 0 <= k < rest.len() implies split_ranges(s@, pat@)[out@.len()
                    + 1 + k] == #[trigger] rest[k] by {
                    assert(here[k + 1] == rest[k]);
                }
                out.push((start, i));
                start = i + pat.len();
            },
            None => {
                let ghost here = split_ranges_from(s@, pat@, start as int);
                assert(here == seq![(start as int, s@.len() as int)]);
                assert(here[0] == (start as int, s@.len() as int));
                out.push((start, s.len()));
                return out;
            },
        }
    }
}

/// Cuts `s` at the first occurrence of `pat` and returns the two ranges.
pub fn split_once_indices<T: Symbol>(s: &[T], pat: &[T]) -> (r: Option<
    ((usize, usize), (usize, usize)),
>)
    ensures
        match r {
            Some((a, b)) => {
                &&& a.0 == 0 && a.1 <= b.0 && b.0 <= b.1 && b.1 == s@.len()
                &&& split_once(s@, pat@) == Some(
                    (s@.subrange(a.0 as int, a.1 as int), s@.subrange(b.0 as int, b.1 as int)),
                )
            },
            None => split_once(s@, pat@) is None,
        },
{
    proof {
        lemma_find_from(s@, pat@, 0);
    }
    let n = s.len();
    match find(s, pat, 0) {
        Some(i) => Some(((0, i), (i + pat.len(), n))),
        None => None,
    }
}

/// Replaces every occurrence of `pat` in `s` by `rep`.
pub fn replace<T: Symbol>(s: &[T], pat: &[T], rep: &[T]) -> (out: Vec<T>)
    ensures
        out@ == replace_all(s@, pat@, rep@),
{
    let mut out: Vec<T> = Vec::new();
    let mut start: usize = 0;
    if pat.len() == 0 {
        append_range(&mut out, s, 0, s.len());
        assert(s@.subrange(0, s@.len() as int) =~= s@);
        return out;
    }
    loop
        invariant
            pat.len() > 0,
            start <= s.len(),
            replace_all(s@, pat@, rep@) == out@ + replace_from(s@, pat@, rep@, start as int),
        decreases s.len() - start,
    {
        proof {
            lemma_find_from(s@, pat@, start as int);
        }
        match find(s, pat, start) {
            Some(i) => {
                let ghost before = out@;
                let ghost rest = replace_from(s@, pat@, rep@, i + pat.len());
                append_range(&mut out, s, start, i);
                append_range(&mut out, rep, 0, rep.len());
                assert(rep@.subrange(0, rep@.len() as int) =~= rep@);
                assert(out@ + rest =~= before + (s@.subrange(start as int, i as int) + rep@
                    + rest));
                start = i + pat.len();
            },
            None => {
                append_range(&mut out, s, start, s.len());
                return out;
            },
        }
    }
}

/// Appends `src[from..to]` to `out`.
pub fn append_range<T: Copy>(out: &mut Vec<T>, src: &[T], from: usize, to: usize)
    requires
        from <= to <= src@.len(),
    ensures
        final(out)@ == old(out)@ + src@.subrange(from as int, to as int),
{
    let mut i: usize = from;
    while i < to
        invariant
            from <= i <= to <= src@.len(),
            out@ == old(out)@ + src@.subrange(from as int, i as int),
        decreases to - i,
    {
        out.push(src[i]);
        assert(src@.subrange(from as int, i + 1) =~= src@.subrange(from as int, i as int).push(
            src@[i as int],
        ));
        i += 1;
    }
    assert(old(out)@ + src@.subrange(from as int, from as int) =~= old(out)@);
}

/// A copy of `src[from..to]`.
pub fn copy_range<T: Copy>(src: &[T], from: usize, to: usize) -> (out: Vec<T>)
    requires
        from <= to <= src@.len(),
    ensures
        out@ == src@.subrange(from as int, to as int),
{
    let mut out: Vec<T> = Vec::new();
    append_range(&mut out, src, from, to);
    out
}

/// Whether the two slices hold the same elements.
pub fn same_seq<T: Symbol>(a: &[T], b: &[T]) -> (r: bool)
    ensures
        r == (a@ == b@),
{
    if a.len() != b.len() {
        return false;
    }
    let r = matches_at(a, b, 0);
    assert(a@.subrange(0, a@.len() as int) =~= a@);
    r
}

/// Counts the elements of `s` equal to `target`.
pub fn count_symbol<T: Symbol>(s: &[T], target: T) -> (n: usize)
    ensures
        n == count_of(s@, target),
{
    let mut n: usize = 0;
    let mut i: usize = 0;
    while i < s.len()
        invariant
            i <= s.len(),
            n <= i,
            n == count_of(s@.take(i as int), target),
        decreases s.len() - i,
    {
        assert(s@.take(i + 1).drop_last() =~= s@.take(i as int));
        if s[i].same(&target) {
            n += 1;
        }
        i += 1;
    }
    assert(s@.take(s@.len() as int) =~= s@);
    n
}

/// The pieces one after the other, with `sep` between each two.
pub open spec fn join<T>(pieces: Seq<Seq<T>>, sep: Seq<T>) -> Seq<T>
    decreases pieces.len(),
{
    if pieces.len() == 0 {
        Seq::empty()
    } else if pieces.len() == 1 {
        pieces[0]
    } else {
        pieces[0] + sep + join(pieces.drop_first(), sep)
    }
}

/// Replacing is cutting and joining: `s` from `from` on with every `pat`
/// replaced by `rep` is the pieces of `s` joined with `rep`. Joined with
/// `pat` itself they give back `s`.
pub proof fn lemma_split_join<T>(s: Seq<T>, pat: Seq<T>, rep: Seq<T>, from: int)
    requires
        0 <= from <= s.len(),
    ensures
        split_ranges_from(s, pat, from).len() >= 1,
        join(pieces(s, split_ranges_from(s, pat, from)), rep) == replace_from(s, pat, rep, from),
        join(pieces(s, split_ranges_from(s, pat, from)), pat) == s.subrange(from, s.len() as int),
    decreases s.len() - from,
{
    lemma_find_from(s, pat, from);
    let i = find_from(s, pat, from);
    let ranges = split_ranges_from(s, pat, from);
    if pat.len() == 0 || i < from || i + pat.len() > s.len() {
        assert(pieces(s, ranges)[0] == s.subrange(from, s.len() as int));
    } else {
        let rest = split_ranges_from(s, pat, i + pat.len());
        lemma_split_join(s, pat, rep, i + pat.len());
        assert(ranges =~= seq![(from, i)] + rest);
        assert(pieces(s, ranges).drop_first() =~= pieces(s, rest));
        assert(pieces(s, ranges)[0] == s.subrange(from, i));
        assert(s.subrange(i, i + pat.len()) =~= pat);
        assert(s.subrange(from, i) + pat + s.subrange(i + pat.len(), s.len() as int)
            =~= s.subrange(from, s.len() as int));
    }
}

} // verus!
