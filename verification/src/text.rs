//! The textual notation of patterns: tokens separated by whitespace, each
//! either `?` for a wildcard or the hexadecimal value of one byte.

use crate::listing::{kept_below, lemma_kept_below, lemma_kept_none_between, lemma_kept_step};
use crate::pattern::{Pattern, WILDCARD};
use subslice_index::subslice_index;
use vstd::prelude::*;
use vstd::slice::slice_subrange;
use vstd::string::StringSliceAdditionalSpecFns;

verus! {

/// The byte `?`, which writes a wildcard.
pub const QUESTION_MARK: u8 = 0x3F;

/// The byte `+`, which may lead a hexadecimal token.
pub const PLUS_SIGN: u8 = 0x2B;

/// The byte `0`.
pub const DIGIT_ZERO: u8 = 0x30;

/// The byte `9`.
pub const DIGIT_NINE: u8 = 0x39;

/// The byte `A`.
pub const UPPER_A: u8 = 0x41;

/// The byte `F`.
pub const UPPER_F: u8 = 0x46;

/// The byte `a`.
pub const LOWER_A: u8 = 0x61;

/// The byte `f`.
pub const LOWER_F: u8 = 0x66;

/// Whether `b` is one of the five ASCII whitespace bytes: space, tab,
/// line feed, form feed or carriage return.
pub open spec fn is_space(b: u8) -> bool {
    b == 0x20 || b == 0x09 || b == 0x0A || b == 0x0C || b == 0x0D
}

/// The value of `b` read as a hexadecimal digit of either case.
pub open spec fn hex_digit(b: u8) -> Option<u8> {
    if DIGIT_ZERO <= b <= DIGIT_NINE {
        Some((b - DIGIT_ZERO) as u8)
    } else if LOWER_A <= b <= LOWER_F {
        Some((b - LOWER_A + 10) as u8)
    } else if UPPER_A <= b <= UPPER_F {
        Some((b - UPPER_A + 10) as u8)
    } else {
        None
    }
}

/// Whether every byte of `digits` is a hexadecimal digit.
pub open spec fn all_hex_digits(digits: Seq<u8>) -> bool {
    forall|i: int| 0 <= i < digits.len() ==> hex_digit(#[trigger] digits[i]) is Some
}

/// The number that `digits` writes in base sixteen, most significant digit
/// first. A byte that is no digit counts as zero.
pub open spec fn digits_value(digits: Seq<u8>) -> nat
    decreases digits.len(),
{
    if digits.len() == 0 {
        0
    } else {
        let low: nat = match hex_digit(digits.last()) {
            Some(d) => d as nat,
            None => 0,
        };
        16 * digits_value(digits.drop_last()) + low
    }
}

/// The digits of a hexadecimal token: the token without its leading `+`,
/// if it has one.
pub open spec fn token_digits(token: Seq<u8>) -> Seq<u8> {
    if token.len() > 0 && token[0] == PLUS_SIGN {
        token.skip(1)
    } else {
        token
    }
}

/// The byte that a hexadecimal token writes: an optional `+`, then one or
/// more hexadecimal digits whose value is at most 255.
pub open spec fn hex_token_value(token: Seq<u8>) -> Option<u8> {
    let digits = token_digits(token);
    if digits.len() >= 1 && all_hex_digits(digits) && digits_value(digits) <= 0xFF {
        Some(digits_value(digits) as u8)
    } else {
        None
    }
}

/// The pattern element that a token writes: the wildcard for `?`, else the
/// byte of a hexadecimal token. `None` for any other token, among them a
/// token of two or more question marks.
pub open spec fn token_value(token: Seq<u8>) -> Option<u8> {
    if token == seq![QUESTION_MARK] {
        Some(WILDCARD)
    } else {
        hex_token_value(token)
    }
}

/// Whether a token begins at offset `i` of `text`: a byte that is no
/// whitespace, at the beginning of the text or behind whitespace.
pub open spec fn is_token_start(text: Seq<u8>, i: int) -> bool {
    &&& 0 <= i < text.len()
    &&& !is_space(text[i])
    &&& (i == 0 || is_space(text[i - 1]))
}

/// The first offset from `i` on that holds whitespace, or the length of the
/// text if none does: where a token that holds offset `i` ends.
pub open spec fn token_end(text: Seq<u8>, i: int) -> int
    decreases text.len() - i,
{
    if 0 <= i < text.len() && !is_space(text[i]) {
        token_end(text, i + 1)
    } else {
        i
    }
}

/// The token that begins at offset `i` of `text`.
pub open spec fn token_at(text: Seq<u8>, i: int) -> Seq<u8> {
    text.subrange(i, token_end(text, i))
}

/// Whether the token that begins at offset `i` writes a pattern element.
pub open spec fn token_is_valid(text: Seq<u8>, i: int) -> bool {
    token_value(token_at(text, i)) is Some
}

/// The pattern element that the token at offset `i` writes.
pub open spec fn element_at(text: Seq<u8>, i: int) -> u8 {
    token_value(token_at(text, i)).unwrap()
}

/// The offsets at which the tokens of `text` begin, ascending.
pub open spec fn token_starts(text: Seq<u8>) -> Seq<int> {
    kept_below(text.len(), |i: int| is_token_start(text, i))
}

/// Whether every token of `text` writes a pattern element.
pub open spec fn all_tokens_valid(text: Seq<u8>) -> bool {
    forall|i: int| #[trigger] is_token_start(text, i) ==> token_is_valid(text, i)
}

/// Whether `at` is where the first token of `text` begins that writes no
/// pattern element.
pub open spec fn is_first_invalid_token(text: Seq<u8>, at: int) -> bool {
    &&& is_token_start(text, at)
    &&& !token_is_valid(text, at)
    &&& forall|i: int| 0 <= i < at && #[trigger] is_token_start(text, i) ==> token_is_valid(text, i)
}

/// The pattern elements that the tokens of `text` write, in order.
pub open spec fn token_values(text: Seq<u8>) -> Seq<u8> {
    token_starts(text).map_values(|i: int| element_at(text, i))
}

/// What parsing `text` gives: the elements of all its tokens, or the offset
/// at which the first token begins that writes none.
pub open spec fn parse_text(text: Seq<u8>) -> Result<Seq<u8>, int> {
    if all_tokens_valid(text) {
        Ok(token_values(text))
    } else {
        Err(choose|at: int| is_first_invalid_token(text, at))
    }
}

/// Tests a byte for ASCII whitespace.
pub fn is_space_byte(b: u8) -> (space: bool)
    ensures
        space == is_space(b),
{
    b == 0x20 || b == 0x09 || b == 0x0A || b == 0x0C || b == 0x0D
}

/// Reads one hexadecimal digit.
pub fn hex_digit_value(b: u8) -> (value: Option<u8>)
    ensures
        value == hex_digit(b),
{
    if DIGIT_ZERO <= b && b <= DIGIT_NINE {
        Some(b - DIGIT_ZERO)
    } else if LOWER_A <= b && b <= LOWER_F {
        Some(b - LOWER_A + 10)
    } else if UPPER_A <= b && b <= UPPER_F {
        Some(b - UPPER_A + 10)
    } else {
        None
    }
}

/// A number written with more digits is no smaller than the number that a
/// prefix of those digits writes.
pub proof fn lemma_prefix_value(digits: Seq<u8>, k: int)
    requires
        0 <= k <= digits.len(),
    ensures
        digits_value(digits.take(k)) <= digits_value(digits),
    decreases digits.len() - k,
{
    if k < digits.len() {
        lemma_prefix_value(digits, k + 1);
        assert(digits.take(k + 1).drop_last() == digits.take(k));
    } else {
        assert(digits.take(k) == digits);
    }
}

/// Reads a hexadecimal token.
pub fn parse_hex_token(token: &[u8]) -> (value: Option<u8>)
    ensures
        value == hex_token_value(token@),
{
    let start: usize = if token.len() > 0 && token[0] == PLUS_SIGN {
        1
    } else {
        0
    };
    let ghost digits = token_digits(token@);
    assert(digits == token@.skip(start as int));
    if start == token.len() {
        return None;
    }
    let mut value: u8 = 0;
    let mut i: usize = start;
    while i < token.len()
        invariant
            start <= i <= token@.len(),
            digits == token@.skip(start as int),
            digits == token_digits(token@),
            all_hex_digits(digits.take(i - start)),
            value == digits_value(digits.take(i - start)),
        decreases token@.len() - i,
    {
        let ghost read = digits.take(i - start);
        let ghost next = digits.take(i + 1 - start);
        assert(next.drop_last() == read);
        assert(next.last() == token@[i as int]);
        assert(digits[i - start] == token@[i as int]);
        match hex_digit_value(token[i]) {
            None => {
                assert(!all_hex_digits(digits));
                return None;
            },
            Some(d) => {
                assert(digits_value(next) == 16 * value + d);
                if value >= 16 {
                    proof {
                        lemma_prefix_value(digits, i + 1 - start);
                    }
                    return None;
                }
                value = value * 16 + d;
                assert forall|j: int| 0 <= j < next.len() implies hex_digit(
                    #[trigger] next[j],
                ) is Some by {
                    if j < read.len() {
                        assert(next[j] == read[j]);
                    }
                }
            },
        }
        i += 1;
    }
    assert(digits.take(i - start) == digits);
    Some(value)
}

/// Reads one token of the notation.
pub fn parse_token(token: &[u8]) -> (value: Option<u8>)
    ensures
        value == token_value(token@),
{
    if token.len() == 1 && token[0] == QUESTION_MARK {
        assert(token@ == seq![QUESTION_MARK]);
        Some(WILDCARD)
    } else {
        assert(token@ != seq![QUESTION_MARK]) by {
            if token@ == seq![QUESTION_MARK] {
                assert(seq![QUESTION_MARK].len() == 1);
                assert(seq![QUESTION_MARK][0] == QUESTION_MARK);
            }
        }
        parse_hex_token(token)
    }
}

/// Asks `subslice_index::subslice_index` where in `text` its part from
/// `start` up to `end` begins. The function measures how far the first byte
/// of the part lies behind the first byte of the text, which is `start`.
#[verifier::external_body]
fn token_offset(text: &[u8], start: usize, end: usize) -> (offset: usize)
    requires
        start < end <= text@.len(),
    ensures
        offset == start,
{
    subslice_index(text, &text[start..end])
}

/// Where the token from `i` ends: not before `i`, behind bytes without
/// whitespace only, and at whitespace or at the end of the text.
pub proof fn lemma_token_end_bounds(text: Seq<u8>, i: int)
    requires
        0 <= i <= text.len(),
    ensures
        i <= token_end(text, i) <= text.len(),
        forall|j: int| i <= j < token_end(text, i) ==> !is_space(#[trigger] text[j]),
        token_end(text, i) == text.len() || is_space(text[token_end(text, i)]),
    decreases text.len() - i,
{
    if i < text.len() && !is_space(text[i]) {
        lemma_token_end_bounds(text, i + 1);
    }
}

/// A run of bytes without whitespace that stops at whitespace or at the end
/// of the text is where the token from `start` ends.
pub proof fn lemma_token_end_of_run(text: Seq<u8>, start: int, end: int)
    requires
        0 <= start <= end <= text.len(),
        forall|j: int| start <= j < end ==> !is_space(#[trigger] text[j]),
        end == text.len() || is_space(text[end]),
    ensures
        token_end(text, start) == end,
    decreases end - start,
{
    if start < end {
        lemma_token_end_of_run(text, start + 1, end);
    }
}

/// The first invalid token begins at one offset only, and that offset is
/// what parsing gives.
pub proof fn lemma_first_invalid_token_unique(text: Seq<u8>, at: int)
    requires
        is_first_invalid_token(text, at),
    ensures
        !all_tokens_valid(text),
        parse_text(text) == Err::<Seq<u8>, int>(at),
{
    let chosen = choose|at: int| is_first_invalid_token(text, at);
    assert(is_first_invalid_token(text, chosen));
    if chosen < at {
        assert(is_token_start(text, chosen));
    } else if at < chosen {
        assert(is_token_start(text, at));
    }
}

impl Pattern {
    /// Parses the textual notation of a pattern.
    ///
    /// The tokens of `text` are its longest runs of bytes without ASCII
    /// whitespace. Each must write a pattern element: `?` a wildcard, a
    /// hexadecimal token its byte. The elements make the pattern, in order.
    /// Where a token writes none, parsing stops at the first such token and
    /// gives the offset in `text` at which that token begins.
    pub fn parse(text: &[u8]) -> (parsed: Result<Pattern, usize>)
        ensures
            parsed is Ok <==> all_tokens_valid(text@),
            parsed matches Ok(pattern) ==> pattern@ == token_values(text@),
            parsed matches Err(at) ==> is_first_invalid_token(text@, at as int),
            match parsed {
                Ok(pattern) => parse_text(text@) == Ok::<Seq<u8>, int>(pattern@),
                Err(at) => parse_text(text@) == Err::<Seq<u8>, int>(at as int),
            },
    {
        let n = text.len();
        let ghost starts = |i: int| is_token_start(text@, i);
        let ghost element = |i: int| element_at(text@, i);
        let mut buf: Vec<u8> = Vec::new();
        let mut i: usize = 0;
        proof {
            lemma_kept_below(0, starts);
        }
        while i < n
            invariant
                i <= n == text@.len(),
                starts == |i: int| is_token_start(text@, i),
                element == |i: int| element_at(text@, i),
                i == 0 || i == n || is_space(text@[i - 1]) || is_space(text@[i as int]),
                forall|s: int|
                    0 <= s < i && #[trigger] is_token_start(text@, s) ==> token_is_valid(text@, s),
                buf@ == kept_below(i as nat, starts).map_values(element),
            decreases n - i,
        {
            if is_space_byte(text[i]) {
                proof {
                    assert(!starts(i as int));
                    lemma_kept_step(i as nat, starts);
                }
                i += 1;
            } else {
                let start = i;
                let mut end = i + 1;
                while end < n && !is_space_byte(text[end])
                    invariant
                        start < end <= n == text@.len(),
                        forall|j: int| start <= j < end ==> !is_space(#[trigger] text@[j]),
                    decreases n - end,
                {
                    end += 1;
                }
                let token = slice_subrange(text, start, end);
                proof {
                    lemma_token_end_of_run(text@, start as int, end as int);
                    assert(token@ == token_at(text@, start as int));
                    assert(is_token_start(text@, start as int));
                }
                match parse_token(token) {
                    None => {
                        proof {
                            lemma_first_invalid_token_unique(text@, start as int);
                        }
                        return Err(token_offset(text, start, end));
                    },
                    Some(byte) => {
                        proof {
                            let before = kept_below(start as nat, starts);
                            assert(starts(start as int));
                            lemma_kept_step(start as nat, starts);
                            assert forall|j: int| start + 1 <= j < end implies !#[trigger] starts(
                                j,
                            ) by {
                                assert(!is_space(text@[j - 1]));
                            }
                            lemma_kept_none_between((start + 1) as nat, end as nat, starts);
                            assert(kept_below(end as nat, starts) == before.push(start as int));
                            assert(element(start as int) == byte);
                            assert(before.push(start as int).map_values(element)
                                == before.map_values(element).push(byte));
                            assert forall|s: int|
                                0 <= s < end && #[trigger] is_token_start(
                                    text@,
                                    s,
                                ) implies token_is_valid(text@, s) by {
                                if s > start {
                                    assert(!is_space(text@[s - 1]));
                                }
                            }
                        }
                        buf.push(byte);
                        i = end;
                    },
                }
            }
        }
        assert(all_tokens_valid(text@));
        Ok(Pattern::from_vec(buf))
    }
}

impl core::str::FromStr for Pattern {
    type Err = usize;

    /// Parses the textual notation of a pattern from the bytes of a
    /// string, as `Pattern::parse` does. The offset of an error counts
    /// bytes of the string.
    fn from_str(text: &str) -> (parsed: Result<Pattern, usize>)
        ensures
            parsed is Ok <==> all_tokens_valid(text.spec_bytes()),
            parsed matches Ok(pattern) ==> pattern@ == token_values(text.spec_bytes()),
            parsed matches Err(at) ==> is_first_invalid_token(text.spec_bytes(), at as int),
            match parsed {
                Ok(pattern) => parse_text(text.spec_bytes()) == Ok::<Seq<u8>, int>(pattern@),
                Err(at) => parse_text(text.spec_bytes()) == Err::<Seq<u8>, int>(at as int),
            },
    {
        Pattern::parse(text.as_bytes())
    }
}

} // verus!
