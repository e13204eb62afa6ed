//! Exhaustive search: every window of a buffer that a pattern matches.

use crate::listing::{kept_below, lemma_kept_all, lemma_kept_below, offsets_below};
use crate::pattern::{element_matches, pattern_matches, Pattern, WILDCARD};
use rayon::iter::ParallelIterator;
use rayon::slice::ParallelSlice;
use vstd::prelude::*;

verus! {

/// The error of a search with a pattern that has no elements.
#[derive(Debug, Clone, Copy, PartialEq, Eq)]
pub struct InvalidPattern;

/// How many windows of length `n` a buffer of length `len` has.
pub open spec fn window_count(len: nat, n: nat) -> nat {
    if 1 <= n <= len {
        (len - n + 1) as nat
    } else {
        0
    }
}

/// The window of length `n` that begins at offset `i` of `buf`.
pub open spec fn window_at(buf: Seq<u8>, i: int, n: nat) -> Seq<u8> {
    buf.subrange(i, i + n)
}

/// Every window of length `n` of `buf`, by ascending offset.
pub open spec fn all_windows(buf: Seq<u8>, n: nat) -> Seq<Seq<u8>> {
    Seq::new(window_count(buf.len(), n), |i: int| window_at(buf, i, n))
}

/// Whether `i` is the offset of a window of `buf` that `pattern` matches.
pub open spec fn is_match_at(buf: Seq<u8>, pattern: Seq<u8>, i: int) -> bool {
    &&& 0 <= i < window_count(buf.len(), pattern.len())
    &&& pattern_matches(pattern, window_at(buf, i, pattern.len()))
}

/// The offsets of the windows of `buf` that `pattern` matches, ascending.
pub open spec fn match_offsets(buf: Seq<u8>, pattern: Seq<u8>) -> Seq<int> {
    kept_below(
        window_count(buf.len(), pattern.len()),
        |i: int| is_match_at(buf, pattern, i),
    )
}

/// The bytes of each slice of `windows`, in order.
pub open spec fn window_views(windows: Seq<&[u8]>) -> Seq<Seq<u8>> {
    windows.map_values(|w: &[u8]| w@)
}

/// Runs `rayon`'s `par_windows(size).filter(..).collect()` on `buf`
/// (`ParallelSlice::par_windows`, `ParallelIterator::filter`,
/// `ParallelIterator::collect` into a `Vec`). `par_windows` gives the
/// windows of length `size` by ascending offset and panics on the size
/// zero, `filter` keeps those that `Pattern::matches` accepts, and
/// `collect` keeps their order.
#[verifier::external_body]
fn par_matching_windows<'a>(buf: &'a [u8], pattern: &Pattern, size: usize) -> (kept: Vec<
    &'a [u8],
>)
    requires
        size >= 1,
        size == pattern@.len(),
    ensures
        window_views(kept@) == all_windows(buf@, size as nat).filter(
            |w: Seq<u8>| pattern_matches(pattern@, w),
        ),
{
    buf.par_windows(size).filter(|&window| pattern.matches(window)).collect()
}

/// The windows of `buf` that `pattern` matches, by ascending offset.
pub open spec fn matching_windows(buf: Seq<u8>, pattern: Seq<u8>) -> Seq<Seq<u8>> {
    match_offsets(buf, pattern).map_values(|i: int| window_at(buf, i, pattern.len()))
}

/// Filtering the first `k` windows by the pattern keeps the windows at the
/// offsets that filtering the first `k` offsets keeps.
proof fn lemma_filter_windows_by_offset(buf: Seq<u8>, pattern: Seq<u8>, k: nat)
    requires
        k <= window_count(buf.len(), pattern.len()),
    ensures
        Seq::new(k, |i: int| window_at(buf, i, pattern.len())).filter(
            |w: Seq<u8>| pattern_matches(pattern, w),
        ) == kept_below(k, |i: int| is_match_at(buf, pattern, i)).map_values(
            |i: int| window_at(buf, i, pattern.len()),
        ),
    decreases k,
{
    reveal(Seq::filter);
    let n = pattern.len();
    let keep_window = |w: Seq<u8>| pattern_matches(pattern, w);
    let keep_offset = |i: int| is_match_at(buf, pattern, i);
    let to_window = |i: int| window_at(buf, i, n);
    let windows = Seq::new(k, to_window);
    let offsets = offsets_below(k);
    if k > 0 {
        let fewer = (k - 1) as nat;
        lemma_filter_windows_by_offset(buf, pattern, fewer);
        assert(windows.drop_last() == Seq::new(fewer, to_window));
        assert(offsets.drop_last() == offsets_below(fewer));
        assert(windows.last() == window_at(buf, k - 1, n));
        assert(offsets.last() == k - 1);
        assert(keep_offset(k - 1) == keep_window(windows.last()));
        assert(windows.filter(keep_window) == offsets.filter(keep_offset).map_values(to_window));
    } else {
        assert(windows.filter(keep_window) == offsets.filter(keep_offset).map_values(to_window));
    }
}

/// Finds every window of `buf` that `pattern` matches.
///
/// The windows borrow from `buf` and come by ascending offset. A pattern
/// longer than the buffer matches nowhere. A pattern without elements is
/// refused.
pub fn find_pattern<'a>(buf: &'a [u8], pattern: &Pattern) -> (found: Result<
    Vec<&'a [u8]>,
    InvalidPattern,
>)
    ensures
        found is Err <==> pattern@.len() == 0,
        found matches Ok(windows) ==> {
            &&& window_views(windows@) == matching_windows(buf@, pattern@)
            &&& windows@.len() == match_offsets(buf@, pattern@).len()
            &&& forall|k: int|
                0 <= k < windows@.len() ==> (#[trigger] windows@[k])@ == window_at(
                    buf@,
                    match_offsets(buf@, pattern@)[k],
                    pattern@.len(),
                )
            &&& forall|k: int|
                0 <= k < windows@.len() ==> (#[trigger] windows@[k])@.len() == pattern@.len()
            &&& forall|k: int|
                0 <= k < windows@.len() ==> pattern_matches(pattern@, (#[trigger] windows@[k])@)
            &&& pattern@.len() > buf@.len() ==> windows@.len() == 0
        },
{
    let size = pattern.len();
    if size == 0 {
        return Err(InvalidPattern);
    }
    let windows = par_matching_windows(buf, pattern, size);
    proof {
        let count = window_count(buf@.len(), pattern@.len());
        lemma_filter_windows_by_offset(buf@, pattern@, count);
        lemma_match_offsets(buf@, pattern@);
        let views = window_views(windows@);
        let offsets = match_offsets(buf@, pattern@);
        assert(views == matching_windows(buf@, pattern@));
        assert(views.len() == windows@.len());
        assert forall|k: int| 0 <= k < windows@.len() implies (#[trigger] windows@[k])@
            == window_at(buf@, offsets[k], pattern@.len()) by {
            assert(views[k] == windows@[k]@);
        }
    }
    Ok(windows)
}

/// What the listing of matching offsets holds: only offsets at which the
/// pattern matches, each of them, and in strictly ascending order.
pub proof fn lemma_match_offsets(buf: Seq<u8>, pattern: Seq<u8>)
    ensures
        forall|k: int|
            0 <= k < match_offsets(buf, pattern).len() ==> is_match_at(
                buf,
                pattern,
                #[trigger] match_offsets(buf, pattern)[k],
            ),
        forall|i: int|
            is_match_at(buf, pattern, i) ==> #[trigger] match_offsets(buf, pattern).contains(i),
        forall|j: int, k: int|
            0 <= j < k < match_offsets(buf, pattern).len() ==> match_offsets(buf, pattern)[j]
                < match_offsets(buf, pattern)[k],
        match_offsets(buf, pattern).len() <= window_count(buf.len(), pattern.len()),
{
    lemma_kept_below(
        window_count(buf.len(), pattern.len()),
        |i: int| is_match_at(buf, pattern, i),
    );
}

/// Whether no element of `pattern` is a wildcard.
pub open spec fn has_no_wildcard(pattern: Seq<u8>) -> bool {
    forall|j: int| 0 <= j < pattern.len() ==> #[trigger] pattern[j] != WILDCARD
}

/// Whether every element of `pattern` is a wildcard.
pub open spec fn is_all_wildcards(pattern: Seq<u8>) -> bool {
    forall|j: int| 0 <= j < pattern.len() ==> #[trigger] pattern[j] == WILDCARD
}

/// Whether the bytes of `needle` stand in `buf` from offset `i` on.
pub open spec fn occurs_at(buf: Seq<u8>, needle: Seq<u8>, i: int) -> bool {
    &&& 0 <= i
    &&& i + needle.len() <= buf.len()
    &&& buf.subrange(i, i + needle.len()) == needle
}

/// A pattern without wildcards is found exactly where its bytes occur in
/// the buffer: the search is then a search for a substring.
pub proof fn lemma_literal_pattern_finds_occurrences(buf: Seq<u8>, pattern: Seq<u8>)
    requires
        pattern.len() >= 1,
        has_no_wildcard(pattern),
    ensures
        forall|i: int| #[trigger]
            match_offsets(buf, pattern).contains(i) <==> occurs_at(buf, pattern, i),
{
    lemma_match_offsets(buf, pattern);
    let offsets = match_offsets(buf, pattern);
    assert forall|i: int| is_match_at(buf, pattern, i) <==> occurs_at(buf, pattern, i) by {
        let window = window_at(buf, i, pattern.len());
        if is_match_at(buf, pattern, i) {
            assert forall|j: int| 0 <= j < pattern.len() implies window[j] == pattern[j] by {
                assert(element_matches(pattern[j], window[j]));
            }
            assert(window =~= pattern);
        }
    }
    assert forall|i: int| #[trigger] offsets.contains(i) implies is_match_at(buf, pattern, i) by {
        let k = choose|k: int| 0 <= k < offsets.len() && offsets[k] == i;
        assert(is_match_at(buf, pattern, offsets[k]));
    }
}

/// A pattern of wildcards alone matches every window of its length: in a
/// buffer that is no shorter than the pattern the matching offsets are all
/// those from zero to the difference of the two lengths.
pub proof fn lemma_wildcards_match_every_window(buf: Seq<u8>, pattern: Seq<u8>)
    requires
        1 <= pattern.len() <= buf.len(),
        is_all_wildcards(pattern),
    ensures
        match_offsets(buf, pattern) == offsets_below((buf.len() - pattern.len() + 1) as nat),
        match_offsets(buf, pattern).len() == buf.len() - pattern.len() + 1,
{
    lemma_kept_all(
        window_count(buf.len(), pattern.len()),
        |i: int| is_match_at(buf, pattern, i),
    );
}

} // verus!
