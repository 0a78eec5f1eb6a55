use lib::either::Either;
use lib::parser::{
    AndParser, AsciiUppercase, CharParser, Mapper, MatchParser, ParseResult, Parser, RangeParser,
    Second, SpanParser, TermParser, Unify,
};
use lib::http::{AsciiChar, Digit};

fn found<T>(r: ParseResult<'_, T>) -> (T, Vec<u8>) {
    match r {
        ParseResult::Found { subject, rest } => (subject, rest.to_vec()),
        ParseResult::Missed { .. } => panic!("expected a find"),
    }
}

fn missed<T>(r: ParseResult<'_, T>) -> Vec<u8> {
    match r {
        ParseResult::Found { .. } => panic!("expected a miss"),
        ParseResult::Missed { rest } => rest.to_vec(),
    }
}

#[test]
fn unify_gives_left_value() {
    assert_eq!(Either::<u8, u8>::Left(3).unify(), 3);
}

#[test]
fn unify_gives_right_value() {
    assert_eq!(Either::<u8, u8>::Right(7).unify(), 7);
}

#[test]
fn match_parser_takes_one_matching_byte() {
    let (b, rest) = found(MatchParser::new(Digit).parse(b"42"));
    assert_eq!(b, b'4');
    assert_eq!(rest, b"2".to_vec());
}

#[test]
fn match_parser_misses_on_other_byte_and_keeps_input() {
    assert_eq!(missed(MatchParser::new(Digit).parse(b"x1")), b"x1".to_vec());
}

#[test]
fn match_parser_misses_on_empty_input() {
    assert_eq!(missed(MatchParser::new(AsciiChar).parse(b"")), Vec::<u8>::new());
}

#[test]
fn term_parser_finds_its_term() {
    let (t, rest) = found(TermParser::new(b"hello").parse(b"hello world!"));
    assert_eq!(t, b"hello");
    assert_eq!(rest, b" world!".to_vec());
}

#[test]
fn term_parser_misses_and_keeps_input() {
    assert_eq!(missed(TermParser::new(b"hello").parse(b"help me")), b"help me".to_vec());
}

#[test]
fn term_parser_misses_on_short_input() {
    assert_eq!(missed(TermParser::new(b"hello").parse(b"hell")), b"hell".to_vec());
}

#[test]
fn empty_term_always_found() {
    let (t, rest) = found(TermParser::new(b"").parse(b"abc"));
    assert_eq!(t, b"");
    assert_eq!(rest, b"abc".to_vec());
}

#[test]
fn char_parser_takes_exact_byte() {
    let (b, rest) = found(CharParser::new(b'(').parse(b"(x"));
    assert_eq!(b, b'(');
    assert_eq!(rest, b"x".to_vec());
    assert_eq!(missed(CharParser::new(b'(').parse(b")x")), b")x".to_vec());
}

#[test]
fn range_parser_takes_byte_in_range() {
    let (b, _) = found(RangeParser::new(b'A'..=b'Z').parse(b"Zz"));
    assert_eq!(b, b'Z');
    assert_eq!(missed(RangeParser::new(b'A'..=b'Z').parse(b"zZ")), b"zZ".to_vec());
}

#[test]
fn and_parser_finds_both_in_turn() {
    let p = MatchParser::new(Digit).and(MatchParser::new(Digit));
    let ((a, b), rest) = found(p.parse(b"123"));
    assert_eq!((a, b), (b'1', b'2'));
    assert_eq!(rest, b"3".to_vec());
}

#[test]
fn and_parser_miss_of_second_leaves_input_after_first() {
    let p: AndParser<_, _> = MatchParser::new(Digit).and(MatchParser::new(Digit));
    assert_eq!(missed(p.parse(b"1x")), b"x".to_vec());
}

#[test]
fn and_parser_miss_of_first_keeps_input() {
    let p = MatchParser::new(Digit).and(MatchParser::new(Digit));
    assert_eq!(missed(p.parse(b"x1")), b"x1".to_vec());
}

#[test]
fn or_parser_prefers_left() {
    let p = MatchParser::new(Digit).or(MatchParser::new(AsciiChar));
    let (e, _) = found(p.parse(b"5"));
    assert_eq!(e, Either::Left(b'5'));
}

#[test]
fn or_parser_falls_back_to_right() {
    let p = MatchParser::new(Digit).or(MatchParser::new(AsciiChar));
    let (e, rest) = found(p.parse(b"ab"));
    assert_eq!(e, Either::Right(b'a'));
    assert_eq!(rest, b"b".to_vec());
}

#[test]
fn or_parser_misses_when_both_miss() {
    let p = MatchParser::new(Digit).or(MatchParser::new(Digit));
    assert_eq!(missed(p.parse(b"ab")), b"ab".to_vec());
}

#[test]
fn map_parser_applies_mapper() {
    let p = MatchParser::new(Digit).or(MatchParser::new(AsciiChar)).map(Unify);
    let (b, _) = found(p.parse(b"q"));
    assert_eq!(b, b'q');
}

#[test]
fn map_parser_second_of_pair() {
    let p = CharParser::new(b'\\').and(MatchParser::new(AsciiChar)).map(Second);
    let (b, rest) = found(p.parse(b"\\nx"));
    assert_eq!(b, b'n');
    assert_eq!(rest, b"x".to_vec());
}

#[test]
fn span_is_greedy() {
    let (items, rest) = found(MatchParser::new(Digit).span().parse(b"2024-01"));
    assert_eq!(items, b"2024".to_vec());
    assert_eq!(rest, b"-01".to_vec());
}

#[test]
fn span_with_min_zero_finds_nothing() {
    let (items, rest) = found(MatchParser::new(Digit).span().parse(b"abc"));
    assert!(items.is_empty());
    assert_eq!(rest, b"abc".to_vec());
}

#[test]
fn span_stops_at_max() {
    let p: SpanParser<_> = MatchParser::new(Digit).bounded_span(0, 2);
    let (items, rest) = found(p.parse(b"12345"));
    assert_eq!(items, b"12".to_vec());
    assert_eq!(rest, b"345".to_vec());
}

#[test]
fn span_below_min_misses_keeping_input() {
    let p = MatchParser::new(Digit).bounded_span(3, 5);
    assert_eq!(missed(p.parse(b"12ab")), b"12ab".to_vec());
}

#[test]
fn span_at_min_finds() {
    let p = MatchParser::new(Digit).bounded_span(3, 5);
    let (items, rest) = found(p.parse(b"123ab"));
    assert_eq!(items, b"123".to_vec());
    assert_eq!(rest, b"ab".to_vec());
}

#[test]
fn boxed_parser_parses_like_inner() {
    let p = Box::new(MatchParser::new(Digit));
    let (b, _) = found(p.parse(b"7"));
    assert_eq!(b, b'7');
}

#[test]
fn parse_result_map_keeps_rest() {
    let r: ParseResult<'_, u8> = ParseResult::Found { subject: 2, rest: b"xy" };
    let (v, rest) = found(r.map(|x| x * 10));
    assert_eq!(v, 20);
    assert_eq!(rest, b"xy".to_vec());
    let m: ParseResult<'_, u8> = ParseResult::Missed { rest: b"z" };
    assert_eq!(missed(m.map(|x| x * 10)), b"z".to_vec());
}

#[test]
fn parse_result_and_then_chains() {
    let r: ParseResult<'_, u8> = ParseResult::Found { subject: 1, rest: b"ab" };
    let (v, rest) = found(r.and_then(|x, rest| ParseResult::Found { subject: (x, rest.len()), rest: &rest[1..] }));
    assert_eq!(v, (1, 2));
    assert_eq!(rest, b"b".to_vec());
    let m: ParseResult<'_, u8> = ParseResult::Missed { rest: b"q" };
    let out: ParseResult<'_, u8> = m.and_then(|x, rest| ParseResult::Found { subject: x, rest });
    assert_eq!(missed(out), b"q".to_vec());
}

#[test]
fn parse_result_or_else_tags_sides() {
    let r: ParseResult<'_, u8> = ParseResult::Found { subject: 1, rest: b"" };
    let (v, _) = found(r.or_else(|| -> ParseResult<'_, u16> { ParseResult::Missed { rest: b"" } }));
    assert_eq!(v, Either::Left(1));
    let m: ParseResult<'_, u8> = ParseResult::Missed { rest: b"abc" };
    let (v, rest) = found(m.or_else(|| -> ParseResult<'_, u16> { ParseResult::Found { subject: 9, rest: b"c" } }));
    assert_eq!(v, Either::Right(9));
    assert_eq!(rest, b"c".to_vec());
    let m: ParseResult<'_, u8> = ParseResult::Missed { rest: b"abc" };
    let out = m.or_else(|| -> ParseResult<'_, u16> { ParseResult::Missed { rest: b"bc" } });
    assert_eq!(missed(out), b"bc".to_vec());
}

#[test]
fn ascii_uppercase_maps_letters_only() {
    let input: &[u8] = b"hello, World 9!";
    assert_eq!(AsciiUppercase.apply(input), b"HELLO, WORLD 9!".to_vec());
}

#[test]
fn hello_term_mapped_to_uppercase() {
    let p = TermParser::new(b"hello").map(AsciiUppercase);
    let (v, rest) = found(p.parse(b"hello world!"));
    assert_eq!(v, b"HELLO".to_vec());
    assert_eq!(rest, b" world!".to_vec());
}
