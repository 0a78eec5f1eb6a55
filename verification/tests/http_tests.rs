use lib::either::Either;
use lib::http::{
    alpha_p, char_p, cr_p, crlf_p, ctl_p, digit_p, dq_p, hex_p, ht_p, is_ctl, is_digit,
    is_end_of_head, is_ht, is_listed_separator_byte, is_seperator, is_sp, is_text, lf_p,
    lo_alpha_p, lws_p, qd_text_p, quoted_pair_p, quoted_string_p, sp_p, text_p, token_p,
    up_alpha_p,
};
use lib::parser::{ParseResult, Parser};

fn found<T>(r: ParseResult<'_, T>) -> (T, Vec<u8>) {
    match r {
        ParseResult::Found { subject, rest } => (subject, rest.to_vec()),
        ParseResult::Missed { .. } => panic!("expected a find"),
    }
}

fn missed<T>(r: ParseResult<'_, T>) -> Vec<u8> {
    match r {
        ParseResult::Found { .. } => panic!("expected a miss"),
        ParseResult::Missed { rest } => rest.to_vec(),
    }
}

#[test]
fn digit_predicate() {
    assert!(is_digit(b'0'));
    assert!(is_digit(b'9'));
    assert!(!is_digit(b'/'));
    assert!(!is_digit(b':'));
}

#[test]
fn ctl_predicate() {
    assert!(is_ctl(0));
    assert!(is_ctl(31));
    assert!(is_ctl(127));
    assert!(!is_ctl(32));
    assert!(!is_ctl(126));
}

#[test]
fn sp_and_ht_predicates() {
    assert!(is_sp(32));
    assert!(!is_sp(9));
    // This module's `is_ht` accepts byte 32, as the grammar module it comes from does.
    assert!(is_ht(32));
    assert!(!is_ht(9));
}

#[test]
fn text_predicate() {
    assert!(is_text(b'a'));
    assert!(is_text(b' '));
    assert!(is_text(200));
    assert!(!is_text(b'\t'));
    assert!(!is_text(127));
}

#[test]
fn separator_predicate() {
    for &u in b"()<>@,;:\\\"/[]?={} " {
        assert!(is_seperator(u), "{} should be a separator", u);
    }
    for &u in b"()<>@,;:\\\"/[]?={}" {
        assert!(is_listed_separator_byte(u));
    }
    assert!(!is_listed_separator_byte(b' '));
    assert!(!is_seperator(b'a'));
    assert!(!is_seperator(b'-'));
    assert!(!is_seperator(b'\t'));
}

#[test]
fn single_byte_parsers() {
    assert_eq!(found(char_p().parse(b"\x7fz")).0, 127);
    assert_eq!(missed(char_p().parse(&[128u8, 1])), vec![128u8, 1]);
    assert_eq!(found(up_alpha_p().parse(b"Qq")).0, b'Q');
    assert_eq!(missed(up_alpha_p().parse(b"qQ")), b"qQ".to_vec());
    assert_eq!(found(lo_alpha_p().parse(b"qQ")).0, b'q');
    assert_eq!(found(alpha_p().parse(b"Zz")).0, b'Z');
    assert_eq!(found(alpha_p().parse(b"zZ")).0, b'z');
    assert_eq!(missed(alpha_p().parse(b"1a")), b"1a".to_vec());
    assert_eq!(found(digit_p().parse(b"7a")).0, b'7');
    assert_eq!(found(ctl_p().parse(b"\x01")).0, 1);
    assert_eq!(found(cr_p().parse(b"\r\n")).0, 13);
    assert_eq!(found(lf_p().parse(b"\n")).0, 10);
    assert_eq!(found(sp_p().parse(b" x")).0, 32);
    assert_eq!(found(ht_p().parse(b"\tx")).0, 9);
    assert_eq!(missed(ht_p().parse(b" x")), b" x".to_vec());
    assert_eq!(found(dq_p().parse(b"\"")).0, 34);
    assert_eq!(found(text_p().parse(b" ")).0, 32);
    assert_eq!(missed(text_p().parse(b"\r")), b"\r".to_vec());
    assert_eq!(found(hex_p().parse(b"f")).0, b'f');
    assert_eq!(found(hex_p().parse(b"C")).0, b'C');
    assert_eq!(missed(hex_p().parse(b"g")), b"g".to_vec());
    assert_eq!(found(qd_text_p().parse(b"\\")).0, b'\\');
    assert_eq!(missed(qd_text_p().parse(b"\"")), b"\"".to_vec());
}

#[test]
fn crlf_found() {
    let (pair, rest) = found(crlf_p().parse(b"\r\nHost"));
    assert_eq!(pair, (13, 10));
    assert_eq!(rest, b"Host".to_vec());
}

#[test]
fn crlf_cr_without_lf_leaves_input_after_cr() {
    assert_eq!(missed(crlf_p().parse(b"\rX")), b"X".to_vec());
    assert_eq!(missed(crlf_p().parse(b"X")), b"X".to_vec());
}

#[test]
fn lws_blanks() {
    let (v, rest) = found(lws_p().parse(b" \t x"));
    assert_eq!(v, Either::Left(vec![Either::Left(32), Either::Right(9), Either::Left(32)]));
    assert_eq!(rest, b"x".to_vec());
}

#[test]
fn lws_folded_line() {
    let (v, rest) = found(lws_p().parse(b"\r\n\tvalue"));
    assert_eq!(v, Either::Right(((13, 10), vec![Either::Right(9)])));
    assert_eq!(rest, b"value".to_vec());
}

#[test]
fn lws_crlf_without_blanks_misses_after_crlf() {
    assert_eq!(missed(lws_p().parse(b"\r\nHost")), b"Host".to_vec());
    assert_eq!(missed(lws_p().parse(b"Host")), b"Host".to_vec());
}

#[test]
fn token_stops_at_separator() {
    let (t, rest) = found(token_p().parse(b"Content-Length: 5"));
    assert_eq!(t, b"Content-Length".to_vec());
    assert_eq!(rest, b": 5".to_vec());
}

#[test]
fn token_may_be_empty() {
    let (t, rest) = found(token_p().parse(b"(x)"));
    assert!(t.is_empty());
    assert_eq!(rest, b"(x)".to_vec());
}

#[test]
fn token_takes_tab() {
    let (t, rest) = found(token_p().parse(b"a\tb c"));
    assert_eq!(t, b"a\tb".to_vec());
    assert_eq!(rest, b" c".to_vec());
}

#[test]
fn quoted_pair_found() {
    let (c, rest) = found(quoted_pair_p().parse(b"\\\"x"));
    assert_eq!(c, b'"');
    assert_eq!(rest, b"x".to_vec());
}

#[test]
fn quoted_pair_non_char_misses_after_backslash() {
    assert_eq!(missed(quoted_pair_p().parse(&[b'\\', 200, b'x'])), vec![200u8, b'x']);
    assert_eq!(missed(quoted_pair_p().parse(b"ab")), b"ab".to_vec());
}

#[test]
fn quoted_string_found() {
    let (s, rest) = found(quoted_string_p().parse(b"\"hello world\"; q=1"));
    assert_eq!(s, b"hello world".to_vec());
    assert_eq!(rest, b"; q=1".to_vec());
}

#[test]
fn quoted_string_empty() {
    let (s, rest) = found(quoted_string_p().parse(b"\"\""));
    assert!(s.is_empty());
    assert!(rest.is_empty());
}

#[test]
fn quoted_string_keeps_backslash_as_text() {
    let (s, rest) = found(quoted_string_p().parse(b"\"a\\\"b\""));
    assert_eq!(s, b"a\\".to_vec());
    assert_eq!(rest, b"b\"".to_vec());
}

#[test]
fn quoted_string_unterminated_misses_at_first_non_text() {
    assert_eq!(missed(quoted_string_p().parse(b"\"abc\r\n")), b"\r\n".to_vec());
    assert_eq!(missed(quoted_string_p().parse(b"\"abc")), Vec::<u8>::new());
    assert_eq!(missed(quoted_string_p().parse(b"abc\"")), b"abc\"".to_vec());
}

#[test]
fn end_of_head_line() {
    assert!(is_end_of_head(b"\r\n"));
    assert!(!is_end_of_head(b"Host: x\r\n"));
    assert!(!is_end_of_head(b"\n"));
    assert!(!is_end_of_head(b""));
}

fn rest_of<T>(r: ParseResult<'_, T>) -> Vec<u8> {
    match r {
        ParseResult::Found { rest, .. } => rest.to_vec(),
        ParseResult::Missed { rest } => rest.to_vec(),
    }
}

#[test]
fn every_outcome_leaves_a_suffix() {
    let inputs: [&[u8]; 6] = [b"", b"\r\n \tx", b"\"a b\"c", b"Host: h", b"\\\x01", b"\r"];
    for input in inputs.iter() {
        let input: &[u8] = input;
        assert!(input.ends_with(&rest_of(lws_p().parse(input))));
        assert!(input.ends_with(&rest_of(token_p().parse(input))));
        assert!(input.ends_with(&rest_of(quoted_string_p().parse(input))));
        assert!(input.ends_with(&rest_of(quoted_pair_p().parse(input))));
        assert!(input.ends_with(&rest_of(crlf_p().parse(input))));
        assert!(input.ends_with(&rest_of(alpha_p().parse(input))));
    }
}
