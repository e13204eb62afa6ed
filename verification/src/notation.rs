//! The text form of a pattern, and the proof that parsing it gives the
//! pattern back.

use crate::listing::{
    lemma_kept_agree, lemma_kept_below, lemma_kept_none_between, lemma_kept_step,
};
use crate::pattern::WILDCARD;
use crate::search::match_offsets;
use crate::text::{
    all_hex_digits, all_tokens_valid, digits_value, element_at, hex_digit, is_space,
    is_token_start, lemma_token_end_bounds, lemma_token_end_of_run, parse_text, token_at,
    token_digits, token_end, token_is_valid, token_starts, token_value, token_values, DIGIT_ZERO,
    QUESTION_MARK, UPPER_A,
};
use vstd::prelude::*;

verus! {

/// The byte that separates the tokens of a text form: one space.
pub const SEPARATOR: u8 = 0x20;

/// The upper-case hexadecimal digit that writes `d`, a number below sixteen.
pub open spec fn digit_byte(d: int) -> u8 {
    if d < 10 {
        (DIGIT_ZERO + d) as u8
    } else {
        (UPPER_A + d - 10) as u8
    }
}

/// The token that writes the pattern element `b`: `?` for the wildcard,
/// else the two hexadecimal digits of the byte.
pub open spec fn token_of(b: u8) -> Seq<u8> {
    if b == WILDCARD {
        seq![QUESTION_MARK]
    } else {
        seq![digit_byte(b as int / 16), digit_byte(b as int % 16)]
    }
}

/// The text form of a pattern: the tokens of its elements, in order, with
/// one space between two of them.
pub open spec fn text_form(elements: Seq<u8>) -> Seq<u8>
    decreases elements.len(),
{
    if elements.len() == 0 {
        Seq::empty()
    } else if elements.len() == 1 {
        token_of(elements[0])
    } else {
        text_form(elements.drop_last()) + seq![SEPARATOR] + token_of(elements.last())
    }
}

/// The token of an element holds no whitespace and writes that element.
proof fn lemma_token_of(b: u8)
    ensures
        token_of(b).len() >= 1,
        forall|j: int| 0 <= j < token_of(b).len() ==> !is_space(#[trigger] token_of(b)[j]),
        token_value(token_of(b)) == Some(b),
{
    let token = token_of(b);
    if b == WILDCARD {
        assert(token == seq![QUESTION_MARK]);
    } else {
        let high = b as int / 16;
        let low = b as int % 16;
        assert(token.len() == 2);
        assert(seq![QUESTION_MARK].len() == 1);
        assert(token != seq![QUESTION_MARK]);
        assert(token[0] == digit_byte(high));
        assert(token[1] == digit_byte(low));
        assert(hex_digit(digit_byte(high)) == Some(high as u8));
        assert(hex_digit(digit_byte(low)) == Some(low as u8));
        assert(token_digits(token) == token);
        assert(all_hex_digits(token));
        assert(token.drop_last() =~= seq![digit_byte(high)]);
        assert(token.drop_last().drop_last() =~= Seq::<u8>::empty());
        reveal_with_fuel(digits_value, 3);
        assert(digits_value(token) == 16 * high + low);
    }
}

/// Appending whitespace and one more token to a text whose tokens are all
/// valid adds the element of that token to its elements.
proof fn lemma_append_token(text: Seq<u8>, gap: Seq<u8>, token: Seq<u8>, b: u8)
    requires
        all_tokens_valid(text),
        forall|j: int| 0 <= j < gap.len() ==> is_space(#[trigger] gap[j]),
        text.len() == 0 || gap.len() >= 1,
        token.len() >= 1,
        forall|j: int| 0 <= j < token.len() ==> !is_space(#[trigger] token[j]),
        token_value(token) == Some(b),
    ensures
        all_tokens_valid(text + gap + token),
        token_values(text + gap + token) == token_values(text).push(b),
{
    let longer = text + gap + token;
    let start = text.len() + gap.len();
    let starts = |i: int| is_token_start(text, i);
    let longer_starts = |i: int| is_token_start(longer, i);
    assert forall|i: int| 0 <= i < text.len() implies #[trigger] longer_starts(i) == starts(
        i,
    ) by {
        assert(longer[i] == text[i]);
        if i > 0 {
            assert(longer[i - 1] == text[i - 1]);
        }
    }
    lemma_kept_agree(text.len(), longer_starts, starts);
    assert forall|i: int| text.len() <= i < start implies !#[trigger] longer_starts(i) by {
        assert(longer[i] == gap[i - text.len()]);
    }
    lemma_kept_none_between(text.len(), start as nat, longer_starts);
    assert(longer_starts(start as int)) by {
        assert(longer[start as int] == token[0]);
        if start > 0 {
            assert(longer[start - 1] == gap[gap.len() - 1]);
        }
    }
    lemma_kept_step(start as nat, longer_starts);
    assert forall|i: int| start + 1 <= i < longer.len() implies !#[trigger] longer_starts(i) by {
        assert(longer[i - 1] == token[i - 1 - start]);
    }
    lemma_kept_none_between((start + 1) as nat, longer.len(), longer_starts);
    assert(token_starts(longer) == token_starts(text).push(start as int));

    assert(token_at(longer, start as int) == token) by {
        assert forall|j: int| start <= j < longer.len() implies !is_space(
            #[trigger] longer[j],
        ) by {
            assert(longer[j] == token[j - start]);
        }
        lemma_token_end_of_run(longer, start as int, longer.len() as int);
        assert(longer.subrange(start as int, longer.len() as int) =~= token);
    }
    assert forall|i: int| #[trigger] is_token_start(text, i) implies token_at(longer, i)
        == token_at(text, i) by {
        lemma_token_end_bounds(text, i);
        let end = token_end(text, i);
        assert forall|j: int| i <= j < end implies !is_space(#[trigger] longer[j]) by {
            assert(longer[j] == text[j]);
        }
        if end < text.len() {
            assert(longer[end] == text[end]);
        } else if end < longer.len() {
            if gap.len() > 0 {
                assert(longer[end] == gap[0]);
            }
        }
        lemma_token_end_of_run(longer, i, end);
        assert(longer.subrange(i, end) =~= text.subrange(i, end));
    }
    assert forall|i: int| #[trigger] is_token_start(longer, i) implies token_is_valid(
        longer,
        i,
    ) by {
        if i < text.len() {
            assert(longer_starts(i) == starts(i));
            assert(is_token_start(text, i));
        } else if i < start {
            assert(!longer_starts(i));
        } else if i > start {
            assert(!longer_starts(i));
        }
    }
    lemma_kept_below(text.len(), starts);
    let old_starts = token_starts(text);
    assert(token_values(longer) =~= token_values(text).push(b)) by {
        assert forall|k: int| 0 <= k < old_starts.len() implies element_at(longer, old_starts[k])
            == element_at(text, old_starts[k]) by {
            assert(starts(old_starts[k]));
        }
    }
}

/// Parsing the text form of a pattern gives the elements of that pattern:
/// a pattern parsed from the text form and a pattern made of the raw bytes,
/// zero for each wildcard, are the same sequence of elements, so they match
/// at the same offsets of every buffer.
pub proof fn lemma_text_form_round_trip(elements: Seq<u8>)
    ensures
        all_tokens_valid(text_form(elements)),
        token_values(text_form(elements)) == elements,
        parse_text(text_form(elements)) == Ok::<Seq<u8>, int>(elements),
        forall|buf: Seq<u8>| #[trigger]
            match_offsets(buf, token_values(text_form(elements))) == match_offsets(buf, elements),
    decreases elements.len(),
{
    let text = text_form(elements);
    if elements.len() == 0 {
        lemma_kept_below(0, |i: int| is_token_start(text, i));
        assert(token_values(text) =~= elements);
    } else {
        let shorter = elements.drop_last();
        let token = token_of(elements.last());
        let gap: Seq<u8> = if elements.len() == 1 {
            Seq::empty()
        } else {
            seq![SEPARATOR]
        };
        lemma_text_form_round_trip(shorter);
        lemma_token_of(elements.last());
        if elements.len() == 1 {
            assert(text_form(shorter).len() == 0);
        }
        lemma_append_token(text_form(shorter), gap, token, elements.last());
        assert(text =~= text_form(shorter) + gap + token);
        assert(shorter.push(elements.last()) =~= elements);
    }
}

} // verus!
