use memscan::text::{hex_digit_value, is_space_byte, parse_hex_token, parse_token};
use memscan::{find_pattern, Pattern};
use std::str::FromStr;

fn parsed(text: &str) -> Vec<u8> {
    Pattern::from_str(text).unwrap().as_bytes().to_vec()
}

fn error_at(text: &str) -> Option<usize> {
    Pattern::from_str(text).err()
}

#[test]
fn parses_hex_tokens_and_wildcards() {
    assert_eq!(parsed("01 02 ?"), vec![1, 2, 0]);
    assert_eq!(parsed("e8 ? ? ? ? 48 8b d8"), vec![0xe8, 0, 0, 0, 0, 0x48, 0x8b, 0xd8]);
    assert_eq!(parsed("AA"), vec![0xAA]);
    assert_eq!(parsed("?"), vec![0]);
    assert_eq!(parsed("00"), vec![0]);
}

#[test]
fn hex_is_case_insensitive() {
    assert_eq!(parsed("ab AB aB Ab"), vec![0xab, 0xab, 0xab, 0xab]);
    assert_eq!(parsed("fF"), vec![255]);
}

#[test]
fn tokens_need_not_have_two_digits() {
    assert_eq!(parsed("1 f 0 000 00ff 0000000000000000000000A"), vec![1, 15, 0, 0, 255, 10]);
    assert_eq!(parsed("+1F +0 +ff"), vec![0x1f, 0, 255]);
}

#[test]
fn empty_and_blank_text_give_the_empty_pattern() {
    assert_eq!(parsed(""), Vec::<u8>::new());
    assert_eq!(parsed("   "), Vec::<u8>::new());
    assert_eq!(parsed("\t\n\r\x0c "), Vec::<u8>::new());
    assert!(Pattern::from_str("").unwrap().is_empty());
}

#[test]
fn any_ascii_whitespace_separates_tokens() {
    assert_eq!(parsed("01\t02\n03\r04\x0c05  06"), vec![1, 2, 3, 4, 5, 6]);
    assert_eq!(parsed("  01   ?  "), vec![1, 0]);
    assert_eq!(parsed("\n?\n"), vec![0]);
}

#[test]
fn error_offset_points_at_the_bad_token() {
    assert_eq!(error_at("AA ? ZZ"), Some(5));
    assert_eq!(error_at("ZZ"), Some(0));
    assert_eq!(error_at("  ZZ"), Some(2));
    assert_eq!(error_at("AA\t\n ZZ"), Some(5));
    assert_eq!(error_at("01 02 03 04 0G 05"), Some(12));
}

#[test]
fn doubled_question_mark_is_no_token() {
    assert_eq!(error_at("AA ?? ZZ"), Some(3));
    assert_eq!(error_at("??"), Some(0));
    assert_eq!(error_at("?A"), Some(0));
}

#[test]
fn first_bad_token_wins() {
    assert_eq!(error_at("01 XX 02 YY"), Some(3));
    assert_eq!(error_at("XX 01 YY"), Some(0));
    assert_eq!(error_at("01 02 100 ZZ"), Some(6));
}

#[test]
fn error_offset_is_where_the_token_begins_not_where_its_text_first_occurs() {
    assert_eq!(error_at("+1 +"), Some(3));
    assert_eq!(error_at("+A +B +"), Some(6));
}

#[test]
fn error_offset_is_the_first_occurrence_of_other_bad_tokens() {
    let texts = [
        "ZZ 01 ZZ",
        "01 ZZ 02 ZZ",
        "0F F0 F00 F0",
        "? ?? ?",
        "+1 +2 ++ +",
        "12 123 1234",
        "a b c d e f g",
        "\t1G\n1G",
    ];
    for text in texts {
        let at = error_at(text).unwrap();
        let token = text[at..].split_ascii_whitespace().next().unwrap();
        assert_ne!(token, "+");
        assert_eq!(text.find(token), Some(at), "text {:?}", text);
    }
}

#[test]
fn out_of_range_and_malformed_numbers_are_errors() {
    assert_eq!(error_at("100"), Some(0));
    assert_eq!(error_at("FFF"), Some(0));
    assert_eq!(error_at("1FFFFFFFFFFFFFFFFFFFFFFFFFFFFFFFF"), Some(0));
    assert_eq!(error_at("-1"), Some(0));
    assert_eq!(error_at("+"), Some(0));
    assert_eq!(error_at("-"), Some(0));
    assert_eq!(error_at("++1"), Some(0));
    assert_eq!(error_at("+-1"), Some(0));
    assert_eq!(error_at("1+"), Some(0));
    assert_eq!(error_at("0x10"), Some(0));
    assert_eq!(error_at("1_0"), Some(0));
    assert_eq!(error_at("10h"), Some(0));
    assert_eq!(error_at("G"), Some(0));
    assert_eq!(error_at("g"), Some(0));
    assert_eq!(error_at("@"), Some(0));
    assert_eq!(error_at("`"), Some(0));
    assert_eq!(error_at("/"), Some(0));
    assert_eq!(error_at(":"), Some(0));
}

#[test]
fn offsets_count_bytes_of_the_text() {
    // U+00E9 takes two bytes, U+00A0 (no ASCII whitespace) two as well.
    assert_eq!(error_at("\u{e9}"), Some(0));
    assert_eq!(error_at("01 \u{e9}"), Some(3));
    assert_eq!(error_at("01\u{a0}02"), Some(0));
    assert_eq!(error_at("01 02\u{a0}03"), Some(3));
}

#[test]
fn vertical_tab_is_no_separator() {
    assert_eq!(error_at("01\x0b02"), Some(0));
    assert_eq!(error_at("01 \x0b 02"), Some(3));
}

#[test]
fn parse_on_bytes_agrees_with_from_str() {
    for text in ["01 02 ?", "AA ? ZZ", "", " 7f\t80 ", "+1 +", "e8 ? ? ? ? 48"] {
        let from_bytes = Pattern::parse(text.as_bytes());
        let from_text = Pattern::from_str(text);
        match (from_bytes, from_text) {
            (Ok(a), Ok(b)) => assert_eq!(a.as_bytes(), b.as_bytes()),
            (Err(a), Err(b)) => assert_eq!(a, b),
            _ => panic!("the two parsers disagree on {:?}", text),
        }
    }
}

#[test]
fn parse_takes_bytes_that_are_no_text() {
    assert_eq!(Pattern::parse(&[0x30, 0x31, 0x20, 0xff, 0xfe]).err(), Some(3));
    assert_eq!(Pattern::parse(&[0x00]).err(), Some(0));
    assert_eq!(Pattern::parse(&[0x3f, 0x0a, 0x46, 0x66]).unwrap().as_bytes(), &[0, 0xff][..]);
}

#[test]
fn str_parse_goes_through_from_str() {
    let pattern: Pattern = "0a ? 0b".parse().unwrap();
    assert_eq!(pattern.as_bytes(), &[10, 0, 11][..]);
    let error: Result<Pattern, usize> = "0a ? 0z".parse();
    assert_eq!(error.err(), Some(5));
}

#[test]
fn text_and_raw_bytes_match_alike() {
    let cases: [(&str, &[u8]); 5] = [
        ("01 02 ?", &[1, 2, 0]),
        ("? 03", &[0, 3]),
        ("FF ? ? 10", &[255, 0, 0, 16]),
        ("?", &[0]),
        ("05", &[5]),
    ];
    let buffers: [&[u8]; 4] = [
        &[1, 2, 3, 4, 3, 2, 1, 2, 3],
        &[255, 9, 9, 16, 5, 3, 3, 1, 2, 0],
        &[],
        &[5, 5, 5, 5, 0, 3],
    ];
    for (text, raw) in cases {
        let from_text = Pattern::from_str(text).unwrap();
        let from_raw = Pattern::from(raw);
        assert_eq!(from_text.as_bytes(), from_raw.as_bytes());
        for buf in buffers {
            assert_eq!(
                find_pattern(buf, &from_text).unwrap(),
                find_pattern(buf, &from_raw).unwrap()
            );
        }
    }
}

#[test]
fn text_form_of_every_byte_parses_back() {
    for b in 0..=255u8 {
        let token = if b == 0 { String::from("?") } else { format!("{:02X}", b) };
        assert_eq!(parsed(&token), vec![b]);
        let text = format!("{} {} {}", token, token, token);
        assert_eq!(parsed(&text), vec![b, b, b]);
    }
    let all: Vec<u8> = (0..=255u8).collect();
    let text: Vec<String> = all
        .iter()
        .map(|&b| if b == 0 { String::from("?") } else { format!("{:02X}", b) })
        .collect();
    assert_eq!(parsed(&text.join(" ")), all);
}

#[test]
fn hex_tokens_agree_with_the_standard_parser() {
    let alphabet = b"0189afAFgG+-? _x";
    let mut tokens: Vec<Vec<u8>> = Vec::new();
    for &a in alphabet.iter() {
        tokens.push(vec![a]);
        for &b in alphabet.iter() {
            tokens.push(vec![a, b]);
            for &c in alphabet.iter() {
                tokens.push(vec![a, b, c]);
                for &d in alphabet.iter() {
                    tokens.push(vec![a, b, c, d]);
                }
            }
        }
    }
    for token in tokens {
        let text = std::str::from_utf8(&token).unwrap();
        let expected = u8::from_str_radix(text, 16).ok();
        assert_eq!(parse_hex_token(&token), expected, "token {:?}", text);
    }
    assert_eq!(parse_hex_token(b""), None);
}

#[test]
fn parse_hex_token_values() {
    assert_eq!(parse_hex_token(b"00"), Some(0));
    assert_eq!(parse_hex_token(b"7f"), Some(127));
    assert_eq!(parse_hex_token(b"80"), Some(128));
    assert_eq!(parse_hex_token(b"FF"), Some(255));
    assert_eq!(parse_hex_token(b"100"), None);
    assert_eq!(parse_hex_token(b"0FF"), Some(255));
    assert_eq!(parse_hex_token(b"+c"), Some(12));
    assert_eq!(parse_hex_token(b"?"), None);
}

#[test]
fn parse_token_values() {
    assert_eq!(parse_token(b"?"), Some(0));
    assert_eq!(parse_token(b"3F"), Some(0x3f));
    assert_eq!(parse_token(b"??"), None);
    assert_eq!(parse_token(b""), None);
    assert_eq!(parse_token(b"zz"), None);
}

#[test]
fn hex_digit_values() {
    for b in 0..=255u8 {
        let expected = (b as char).to_digit(16).map(|d| d as u8);
        assert_eq!(hex_digit_value(b), expected);
    }
    assert_eq!(hex_digit_value(b'0'), Some(0));
    assert_eq!(hex_digit_value(b'9'), Some(9));
    assert_eq!(hex_digit_value(b'a'), Some(10));
    assert_eq!(hex_digit_value(b'F'), Some(15));
}

#[test]
fn whitespace_bytes() {
    for b in 0..=255u8 {
        assert_eq!(is_space_byte(b), b.is_ascii_whitespace());
    }
}
