//! The pattern type and the predicate that tests one window against it.

use rayon::iter::{IndexedParallelIterator, IntoParallelRefIterator, ParallelIterator};
use vstd::prelude::*;
use vstd::slice::slice_to_vec;

verus! {

/// The pattern byte that stands for "any byte".
pub const WILDCARD: u8 = 0x00;

/// Whether the pattern byte `p` accepts the buffer byte `b`.
pub open spec fn element_matches(p: u8, b: u8) -> bool {
    p == WILDCARD || p == b
}

/// Whether `window` has the length of `pattern` and every one of its bytes
/// is accepted by the pattern byte at the same position.
pub open spec fn pattern_matches(pattern: Seq<u8>, window: Seq<u8>) -> bool {
    &&& window.len() == pattern.len()
    &&& forall|i: int| 0 <= i < pattern.len() ==> element_matches(pattern[i], #[trigger] window[i])
}

/// A byte pattern in which every zero byte is a wildcard.
///
/// Its view is the sequence of its elements as raw bytes. A pattern may be
/// empty; a search refuses such a pattern.
pub struct Pattern {
    buf: Vec<u8>,
}

impl View for Pattern {
    type V = Seq<u8>;

    closed spec fn view(&self) -> Seq<u8> {
        self.buf@
    }
}

/// Tests one pattern byte against one buffer byte.
pub fn byte_matches(p: u8, b: u8) -> (accepted: bool)
    ensures
        accepted == element_matches(p, b),
{
    p == WILDCARD || p == b
}

/// Runs `rayon`'s `par_iter().zip(..).all(..)` over the two slices
/// (`IntoParallelRefIterator::par_iter`, `IndexedParallelIterator::zip`,
/// `ParallelIterator::all`). `zip` pairs the bytes at the positions that
/// both slices have, and `all` is `true` exactly when `byte_matches`
/// accepts every pair.
#[verifier::external_body]
fn par_all_accepted(pattern: &[u8], window: &[u8]) -> (all: bool)
    ensures
        all == (forall|i: int|
            0 <= i < pattern@.len() && i < window@.len() ==> element_matches(
                pattern@[i],
                #[trigger] window@[i],
            )),
{
    pattern.par_iter().zip(window.par_iter()).all(|(&p, &b)| byte_matches(p, b))
}

impl From<&[u8]> for Pattern {
    /// Wraps a copy of the bytes of `buf` as they are: every zero byte
    /// among them is a wildcard.
    fn from(buf: &[u8]) -> (pattern: Pattern)
        ensures
            pattern@ == buf@,
    {
        Pattern { buf: slice_to_vec(buf) }
    }
}

/// What `from` returns is stated by its own `ensures`, over the view: a
/// pattern holds a `Vec`, which no spec term can build.
impl vstd::std_specs::convert::FromSpecImpl<&[u8]> for Pattern {
    open spec fn obeys_from_spec() -> bool {
        false
    }

    open spec fn from_spec(buf: &[u8]) -> Pattern {
        arbitrary()
    }
}

impl Pattern {
    /// Wraps the bytes of `buf` as they are.
    pub(crate) fn from_vec(buf: Vec<u8>) -> (pattern: Pattern)
        ensures
            pattern@ == buf@,
    {
        Pattern { buf }
    }

    /// The number of elements of the pattern.
    pub fn len(&self) -> (n: usize)
        ensures
            n == self@.len(),
    {
        self.buf.len()
    }

    /// Whether the pattern has no elements.
    pub fn is_empty(&self) -> (empty: bool)
        ensures
            empty == (self@.len() == 0),
    {
        self.buf.len() == 0
    }

    /// The elements of the pattern as raw bytes, zero for each wildcard.
    pub fn as_bytes(&self) -> (bytes: &[u8])
        ensures
            bytes@ == self@,
    {
        self.buf.as_slice()
    }

    /// Tests whether the pattern matches a window of its own length.
    pub fn matches(&self, buf: &[u8]) -> (matched: bool)
        requires
            buf@.len() == self@.len(),
        ensures
            matched == pattern_matches(self@, buf@),
    {
        par_all_accepted(self.buf.as_slice(), buf)
    }
}

} // verus!
