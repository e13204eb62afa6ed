//! The offset of a parse error as a place in the text: where the bytes of
//! the offending token first occur.

use crate::search::occurs_at;
use crate::text::{
    digits_value, hex_digit, hex_token_value, is_first_invalid_token, is_space, is_token_start,
    lemma_prefix_value, lemma_token_end_bounds, token_at, token_digits, token_end, token_is_valid,
    token_value, PLUS_SIGN, QUESTION_MARK,
};
use vstd::prelude::*;

verus! {

/// Where the run of bytes without whitespace that holds offset `i` begins.
pub open spec fn token_begin(text: Seq<u8>, i: int) -> int
    decreases i,
{
    if 0 < i <= text.len() && !is_space(text[i - 1]) {
        token_begin(text, i - 1)
    } else {
        i
    }
}

/// A byte that is no whitespace belongs to the token that begins where its
/// run begins.
proof fn lemma_token_begin(text: Seq<u8>, i: int)
    requires
        0 <= i < text.len(),
        !is_space(text[i]),
    ensures
        0 <= token_begin(text, i) <= i,
        is_token_start(text, token_begin(text, i)),
        forall|j: int| token_begin(text, i) <= j <= i ==> !is_space(#[trigger] text[j]),
    decreases i,
{
    if 0 < i && !is_space(text[i - 1]) {
        lemma_token_begin(text, i - 1);
    }
}

/// A number written with more digits is no smaller than the number that the
/// last of those digits write.
proof fn lemma_suffix_value(digits: Seq<u8>, k: int)
    requires
        0 <= k <= digits.len(),
    ensures
        digits_value(digits.skip(k)) <= digits_value(digits),
    decreases digits.len(),
{
    if k < digits.len() {
        lemma_suffix_value(digits.drop_last(), k);
        assert(digits.skip(k).drop_last() == digits.drop_last().skip(k));
        assert(digits.skip(k).last() == digits.last());
    } else {
        assert(digits.skip(k).len() == 0);
    }
}

/// Every part of a valid token is a valid token itself, but for the lone
/// `+` that leads a hexadecimal token.
pub proof fn lemma_part_of_valid_token(token: Seq<u8>, from: int, to: int)
    requires
        token_value(token) is Some,
        0 <= from < to <= token.len(),
        token.subrange(from, to) != seq![PLUS_SIGN],
    ensures
        token_value(token.subrange(from, to)) is Some,
{
    let part = token.subrange(from, to);
    if token == seq![QUESTION_MARK] {
        assert(seq![QUESTION_MARK].len() == 1);
        assert(part =~= token);
    } else {
        let digits = token_digits(token);
        let lead: int = if token[0] == PLUS_SIGN {
            1
        } else {
            0
        };
        assert(digits == token.skip(lead));
        assert(hex_token_value(token) is Some);
        if lead == 1 && from == 0 {
            assert(part[0] == PLUS_SIGN);
            if part.len() == 1 {
                assert(part =~= seq![PLUS_SIGN]);
            }
            assert(part != seq![QUESTION_MARK]) by {
                assert(seq![QUESTION_MARK][0] == QUESTION_MARK);
            }
            let part_digits = token_digits(part);
            assert(part_digits == part.skip(1));
            assert(part_digits =~= digits.take(to - 1));
            assert forall|j: int| 0 <= j < part_digits.len() implies hex_digit(
                #[trigger] part_digits[j],
            ) is Some by {
                assert(part_digits[j] == digits[j]);
            }
            lemma_prefix_value(digits, to - 1);
        } else {
            let shorter = digits.take(to - lead);
            assert(part =~= shorter.skip(from - lead));
            assert forall|j: int| 0 <= j < part.len() implies hex_digit(
                #[trigger] part[j],
            ) is Some by {
                assert(part[j] == digits[from - lead + j]);
            }
            assert(hex_digit(part[0]) is Some);
            assert(part != seq![QUESTION_MARK]) by {
                assert(seq![QUESTION_MARK][0] == QUESTION_MARK);
            }
            assert(token_digits(part) == part);
            lemma_prefix_value(digits, to - lead);
            lemma_suffix_value(shorter, from - lead);
        }
    }
}

/// The offset of a parse error is the first place in the text at which the
/// bytes of the offending token occur, unless that token is a lone `+`:
/// only such a token can stand earlier in the text inside a valid one.
pub proof fn lemma_error_offset_is_first_occurrence(text: Seq<u8>, at: int)
    requires
        is_first_invalid_token(text, at),
        token_at(text, at) != seq![PLUS_SIGN],
    ensures
        occurs_at(text, token_at(text, at), at),
        forall|q: int| 0 <= q < at ==> !#[trigger] occurs_at(text, token_at(text, at), q),
{
    let token = token_at(text, at);
    lemma_token_end_bounds(text, at);
    assert(token.len() >= 1);
    assert forall|q: int| 0 <= q < at implies !#[trigger] occurs_at(text, token, q) by {
        if occurs_at(text, token, q) {
            let found = text.subrange(q, q + token.len());
            assert forall|j: int| q <= j < q + token.len() implies !is_space(
                #[trigger] text[j],
            ) by {
                assert(found[j - q] == token[j - q]);
                assert(token[j - q] == text[at + (j - q)]);
            }
            lemma_token_begin(text, q);
            let begin = token_begin(text, q);
            lemma_token_end_bounds(text, begin);
            let end = token_end(text, begin);
            assert(end >= q + token.len()) by {
                if end < q + token.len() {
                    assert(!is_space(text[end]));
                }
            }
            assert(token_is_valid(text, begin));
            let whole = token_at(text, begin);
            assert(whole.subrange(q - begin, q - begin + token.len()) =~= found);
            lemma_part_of_valid_token(whole, q - begin, q - begin + token.len());
            assert(false);
        }
    }
}

} // verus!
