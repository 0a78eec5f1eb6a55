use lib::either::Either;
use lib::http::primatives::{
    is_ctl, is_digit, is_ht, is_seperator, is_sp, is_text, AlphaP, CTextP, CharP, Crlf, CrlfP,
    CrP, CtlP, DigitP, DqP, HexP, HtP, LfP, LoAlphaP, LwsP, QdTextP, QuotedPairP, QuotedStringP,
    SpP, TextP, TokenP, UpAlphaP,
};
use lib::parser::{ParseResult, Parser};

fn found<T>(r: ParseResult<'_, T>) -> (T, Vec<u8>) {
    match r {
        ParseResult::Found { subject, rest } => (subject, rest.to_vec()),
        ParseResult::Missed { .. } => panic!("expected a find"),
    }
}

fn missed<T>(r: ParseResult<'_, T>) -> Vec<u8> {
    match r {
        ParseResult::Found { .. } => panic!("expected a miss"),
        ParseResult::Missed { rest } => rest.to_vec(),
    }
}

#[test]
fn predicates() {
    assert!(is_digit(b'5'));
    assert!(!is_digit(b'a'));
    assert!(is_ctl(10));
    assert!(!is_ctl(b'a'));
    assert!(is_sp(b' '));
    assert!(is_ht(b'\t'));
    assert!(!is_ht(b' '));
    assert!(is_text(b'~'));
    assert!(!is_text(0));
    assert!(is_seperator(b'\t'));
    assert!(is_seperator(b'{'));
    assert!(!is_seperator(b'x'));
}

#[test]
fn one_byte_parsers() {
    assert_eq!(found(CharP.parse(b"a")).0, b'a');
    assert_eq!(missed(CharP.parse(&[200u8])), vec![200u8]);
    assert_eq!(found(UpAlphaP.parse(b"A")).0, b'A');
    assert_eq!(missed(UpAlphaP.parse(b"a")), b"a".to_vec());
    assert_eq!(found(LoAlphaP.parse(b"z")).0, b'z');
    assert_eq!(found(AlphaP.parse(b"m")).0, b'm');
    assert_eq!(found(AlphaP.parse(b"M")).0, b'M');
    assert_eq!(missed(AlphaP.parse(b"@")), b"@".to_vec());
    assert_eq!(found(DigitP.parse(b"0")).0, b'0');
    assert_eq!(found(CtlP.parse(&[127u8])).0, 127);
    assert_eq!(found(CrP.parse(b"\r")).0, 13);
    assert_eq!(found(LfP.parse(b"\n")).0, 10);
    assert_eq!(found(SpP.parse(b" ")).0, 32);
    assert_eq!(found(HtP.parse(b"\t")).0, 9);
    assert_eq!(found(DqP.parse(b"\"")).0, 34);
    assert_eq!(found(TextP.parse(b"x")).0, b'x');
    assert_eq!(found(HexP.parse(b"a")).0, b'a');
    assert_eq!(found(QdTextP.parse(b"a")).0, b'a');
    assert_eq!(missed(QdTextP.parse(b"\"")), b"\"".to_vec());
    assert_eq!(found(CTextP.parse(b"a")).0, b'a');
    assert_eq!(missed(CTextP.parse(b"(")), b"(".to_vec());
    assert_eq!(missed(CTextP.parse(b")")), b")".to_vec());
}

#[test]
fn crlf_gives_crlf() {
    let (c, rest) = found(CrlfP.parse(b"\r\nx"));
    assert_eq!(c, Crlf);
    assert_eq!(rest, b"x".to_vec());
    assert_eq!(missed(CrlfP.parse(b"\rx")), b"x".to_vec());
}

#[test]
fn lws_blanks_as_bytes() {
    let (v, rest) = found(LwsP.parse(b"\t x"));
    assert_eq!(v, Either::Left(b"\t ".to_vec()));
    assert_eq!(rest, b"x".to_vec());
}

#[test]
fn lws_folded_line_as_bytes() {
    let (v, rest) = found(LwsP.parse(b"\r\n  x"));
    assert_eq!(v, Either::Right((Crlf, b"  ".to_vec())));
    assert_eq!(rest, b"x".to_vec());
    assert_eq!(missed(LwsP.parse(b"\r\nx")), b"x".to_vec());
}

#[test]
fn token_stops_at_tab() {
    let (t, rest) = found(TokenP.parse(b"gzip\tdeflate"));
    assert_eq!(t, b"gzip".to_vec());
    assert_eq!(rest, b"\tdeflate".to_vec());
}

#[test]
fn quoted_pair_and_string() {
    let (c, rest) = found(QuotedPairP.parse(b"\\ny"));
    assert_eq!(c, b'n');
    assert_eq!(rest, b"y".to_vec());
    let (s, rest) = found(QuotedStringP.parse(b"\"x y\"z"));
    assert_eq!(s, b"x y".to_vec());
    assert_eq!(rest, b"z".to_vec());
    assert_eq!(missed(QuotedStringP.parse(b"\"x\ty\"")), b"\ty\"".to_vec());
}
