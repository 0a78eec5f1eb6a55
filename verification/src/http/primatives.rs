//! The basic rules of the HTTP/1.1 grammar as parser types, one type per rule.
use crate::either::Either;
use crate::http::{
    crlf_outcome, is_blank, quoted_pair_outcome, quoted_string_outcome,
    spec_is_ctl, spec_is_digit, spec_is_hex, spec_is_qd_text, spec_is_sp, spec_is_text,
    is_listed_separator, is_listed_separator_byte, AsciiChar, HexDigit,
};
use crate::parser::{
    byte_outcome, leading, lemma_leading_is_longest, lemma_leading_of_run, lemma_one_byte_front,
    lemma_span_of_bytes, one_byte, ByteClass,
    CharParser, Enclosed, MatchParser, Mapper, Outcome, ParseResult, Parser, RangeParser, Second,
    SpanParser, Unify,
};
use vstd::prelude::*;

verus! {

// ---------------------------------------------------------------------------
// Byte predicates
// ---------------------------------------------------------------------------

/// `HT`: the horizontal tab byte.
pub open spec fn spec_is_ht(u: u8) -> bool {
    u == 9
}

/// A separator: `SP`, `HT`, or one of the separators listed by name.
pub open spec fn spec_is_seperator(u: u8) -> bool {
    spec_is_sp(u) || spec_is_ht(u) || is_listed_separator(u)
}

/// `ctext`: a `TEXT` byte other than a parenthesis.
pub open spec fn spec_is_ctext(u: u8) -> bool {
    spec_is_text(u) && u != 40 && u != 41
}

/// Tells whether `u` is a decimal digit.
pub fn is_digit(u: u8) -> (r: bool)
    ensures
        r == spec_is_digit(u),
{
    (48..=57).contains(&u)
}

/// Tells whether `u` is a control byte.
pub fn is_ctl(u: u8) -> (r: bool)
    ensures
        r == spec_is_ctl(u),
{
    (0..=31).contains(&u) || u == 127
}

/// Tells whether `u` is the space byte.
pub fn is_sp(u: u8) -> (r: bool)
    ensures
        r == spec_is_sp(u),
{
    u == 32
}

/// Tells whether `u` is the horizontal tab byte.
pub fn is_ht(u: u8) -> (r: bool)
    ensures
        r == spec_is_ht(u),
{
    u == 9
}

/// Tells whether `u` is a `TEXT` byte.
pub fn is_text(u: u8) -> (r: bool)
    ensures
        r == spec_is_text(u),
{
    !is_ctl(u) || is_sp(u)
}

/// Tells whether `u` is a separator.
pub fn is_seperator(u: u8) -> (r: bool)
    ensures
        r == spec_is_seperator(u),
{
    is_sp(u) || is_ht(u) || is_listed_separator_byte(u)
}

// ---------------------------------------------------------------------------
// Byte classes
// ---------------------------------------------------------------------------

/// Decimal digits.
pub struct DigitByte;

impl ByteClass for DigitByte {
    open spec fn spec_matches(&self, u: u8) -> bool {
        spec_is_digit(u)
    }

    fn matches(&self, u: u8) -> (r: bool) {
        is_digit(u)
    }
}

/// Control bytes.
pub struct CtlByte;

impl ByteClass for CtlByte {
    open spec fn spec_matches(&self, u: u8) -> bool {
        spec_is_ctl(u)
    }

    fn matches(&self, u: u8) -> (r: bool) {
        is_ctl(u)
    }
}

/// The space byte.
pub struct SpByte;

impl ByteClass for SpByte {
    open spec fn spec_matches(&self, u: u8) -> bool {
        spec_is_sp(u)
    }

    fn matches(&self, u: u8) -> (r: bool) {
        is_sp(u)
    }
}

/// The horizontal tab byte.
pub struct HtByte;

impl ByteClass for HtByte {
    open spec fn spec_matches(&self, u: u8) -> bool {
        spec_is_ht(u)
    }

    fn matches(&self, u: u8) -> (r: bool) {
        is_ht(u)
    }
}

/// `TEXT` bytes.
pub struct TextByte;

impl ByteClass for TextByte {
    open spec fn spec_matches(&self, u: u8) -> bool {
        spec_is_text(u)
    }

    fn matches(&self, u: u8) -> (r: bool) {
        is_text(u)
    }
}

/// Bytes that are not separators.
pub struct TokenByte;

impl ByteClass for TokenByte {
    open spec fn spec_matches(&self, u: u8) -> bool {
        !spec_is_seperator(u)
    }

    fn matches(&self, u: u8) -> (r: bool) {
        !is_seperator(u)
    }
}

/// `qdtext` bytes.
pub struct QdTextByte;

impl ByteClass for QdTextByte {
    open spec fn spec_matches(&self, u: u8) -> bool {
        spec_is_qd_text(u)
    }

    fn matches(&self, u: u8) -> (r: bool) {
        is_text(u) && u != 34
    }
}

/// `ctext` bytes.
pub struct CTextByte;

impl ByteClass for CTextByte {
    open spec fn spec_matches(&self, u: u8) -> bool {
        spec_is_ctext(u)
    }

    fn matches(&self, u: u8) -> (r: bool) {
        is_text(u) && !(u == 40 || u == 41)
    }
}

// ---------------------------------------------------------------------------
// Parsers of one byte
// ---------------------------------------------------------------------------

/// `CHAR`: one byte below 128.
pub struct CharP;

impl Parser for CharP {
    type Out = u8;

    open spec fn spec_parse(&self, input: Seq<u8>) -> Outcome<u8> {
        one_byte(input, |u: u8| u < 128)
    }

    proof fn lemma_rest_is_suffix(&self, input: Seq<u8>) {
    }

    fn parse<'i>(&self, input: &'i [u8]) -> (r: ParseResult<'i, u8>) {
        MatchParser::new(AsciiChar).parse(input)
    }
}

/// `UPALPHA`: one byte `A` to `Z`.
pub struct UpAlphaP;

impl Parser for UpAlphaP {
    type Out = u8;

    open spec fn spec_parse(&self, input: Seq<u8>) -> Outcome<u8> {
        one_byte(input, |u: u8| 65 <= u && u <= 90)
    }

    proof fn lemma_rest_is_suffix(&self, input: Seq<u8>) {
    }

    fn parse<'i>(&self, input: &'i [u8]) -> (r: ParseResult<'i, u8>) {
        RangeParser::new(65..=90).parse(input)
    }
}

/// `LOALPHA`: one byte `a` to `z`.
pub struct LoAlphaP;

impl Parser for LoAlphaP {
    type Out = u8;

    open spec fn spec_parse(&self, input: Seq<u8>) -> Outcome<u8> {
        one_byte(input, |u: u8| 97 <= u && u <= 122)
    }

    proof fn lemma_rest_is_suffix(&self, input: Seq<u8>) {
    }

    fn parse<'i>(&self, input: &'i [u8]) -> (r: ParseResult<'i, u8>) {
        RangeParser::new(97..=122).parse(input)
    }
}

/// `ALPHA`: one ASCII letter, either case.
pub struct AlphaP;

impl Parser for AlphaP {
    type Out = u8;

    open spec fn spec_parse(&self, input: Seq<u8>) -> Outcome<u8> {
        one_byte(input, |u: u8| (65 <= u && u <= 90) || (97 <= u && u <= 122))
    }

    proof fn lemma_rest_is_suffix(&self, input: Seq<u8>) {
    }

    fn parse<'i>(&self, input: &'i [u8]) -> (r: ParseResult<'i, u8>) {
        UpAlphaP.or(LoAlphaP).map(Unify).parse(input)
    }
}

/// `DIGIT`: one decimal digit.
pub struct DigitP;

impl Parser for DigitP {
    type Out = u8;

    open spec fn spec_parse(&self, input: Seq<u8>) -> Outcome<u8> {
        one_byte(input, |u: u8| spec_is_digit(u))
    }

    proof fn lemma_rest_is_suffix(&self, input: Seq<u8>) {
    }

    fn parse<'i>(&self, input: &'i [u8]) -> (r: ParseResult<'i, u8>) {
        MatchParser::new(DigitByte).parse(input)
    }
}

/// `CTL`: one control byte.
pub struct CtlP;

impl Parser for CtlP {
    type Out = u8;

    open spec fn spec_parse(&self, input: Seq<u8>) -> Outcome<u8> {
        one_byte(input, |u: u8| spec_is_ctl(u))
    }

    proof fn lemma_rest_is_suffix(&self, input: Seq<u8>) {
    }

    fn parse<'i>(&self, input: &'i [u8]) -> (r: ParseResult<'i, u8>) {
        MatchParser::new(CtlByte).parse(input)
    }
}

/// `CR`: the carriage return byte, 13.
pub struct CrP;

impl Parser for CrP {
    type Out = u8;

    open spec fn spec_parse(&self, input: Seq<u8>) -> Outcome<u8> {
        one_byte(input, |u: u8| u == 13)
    }

    proof fn lemma_rest_is_suffix(&self, input: Seq<u8>) {
    }

    fn parse<'i>(&self, input: &'i [u8]) -> (r: ParseResult<'i, u8>) {
        CharParser::new(13).parse(input)
    }
}

/// `LF`: the line feed byte, 10.
pub struct LfP;

impl Parser for LfP {
    type Out = u8;

    open spec fn spec_parse(&self, input: Seq<u8>) -> Outcome<u8> {
        one_byte(input, |u: u8| u == 10)
    }

    proof fn lemma_rest_is_suffix(&self, input: Seq<u8>) {
    }

    fn parse<'i>(&self, input: &'i [u8]) -> (r: ParseResult<'i, u8>) {
        CharParser::new(10).parse(input)
    }
}

/// `SP`: the space byte, 32.
pub struct SpP;

impl Parser for SpP {
    type Out = u8;

    open spec fn spec_parse(&self, input: Seq<u8>) -> Outcome<u8> {
        one_byte(input, |u: u8| spec_is_sp(u))
    }

    proof fn lemma_rest_is_suffix(&self, input: Seq<u8>) {
    }

    fn parse<'i>(&self, input: &'i [u8]) -> (r: ParseResult<'i, u8>) {
        MatchParser::new(SpByte).parse(input)
    }
}

/// `HT`: the horizontal tab byte, 9.
pub struct HtP;

impl Parser for HtP {
    type Out = u8;

    open spec fn spec_parse(&self, input: Seq<u8>) -> Outcome<u8> {
        one_byte(input, |u: u8| spec_is_ht(u))
    }

    proof fn lemma_rest_is_suffix(&self, input: Seq<u8>) {
    }

    fn parse<'i>(&self, input: &'i [u8]) -> (r: ParseResult<'i, u8>) {
        MatchParser::new(HtByte).parse(input)
    }
}

/// The double quote byte, 34.
pub struct DqP;

impl Parser for DqP {
    type Out = u8;

    open spec fn spec_parse(&self, input: Seq<u8>) -> Outcome<u8> {
        one_byte(input, |u: u8| u == 34)
    }

    proof fn lemma_rest_is_suffix(&self, input: Seq<u8>) {
    }

    fn parse<'i>(&self, input: &'i [u8]) -> (r: ParseResult<'i, u8>) {
        CharParser::new(34).parse(input)
    }
}

/// `TEXT`: one byte that is not a control byte, or the space.
pub struct TextP;

impl Parser for TextP {
    type Out = u8;

    open spec fn spec_parse(&self, input: Seq<u8>) -> Outcome<u8> {
        one_byte(input, |u: u8| spec_is_text(u))
    }

    proof fn lemma_rest_is_suffix(&self, input: Seq<u8>) {
    }

    fn parse<'i>(&self, input: &'i [u8]) -> (r: ParseResult<'i, u8>) {
        MatchParser::new(TextByte).parse(input)
    }
}

/// `HEX`: one hexadecimal digit, either case.
pub struct HexP;

impl Parser for HexP {
    type Out = u8;

    open spec fn spec_parse(&self, input: Seq<u8>) -> Outcome<u8> {
        one_byte(input, |u: u8| spec_is_hex(u))
    }

    proof fn lemma_rest_is_suffix(&self, input: Seq<u8>) {
    }

    fn parse<'i>(&self, input: &'i [u8]) -> (r: ParseResult<'i, u8>) {
        MatchParser::new(HexDigit).parse(input)
    }
}

/// `qdtext`: one `TEXT` byte other than the double quote.
pub struct QdTextP;

impl Parser for QdTextP {
    type Out = u8;

    open spec fn spec_parse(&self, input: Seq<u8>) -> Outcome<u8> {
        one_byte(input, |u: u8| spec_is_qd_text(u))
    }

    proof fn lemma_rest_is_suffix(&self, input: Seq<u8>) {
    }

    fn parse<'i>(&self, input: &'i [u8]) -> (r: ParseResult<'i, u8>) {
        MatchParser::new(QdTextByte).parse(input)
    }
}

/// `ctext`: one `TEXT` byte other than a parenthesis.
pub struct CTextP;

impl Parser for CTextP {
    type Out = u8;

    open spec fn spec_parse(&self, input: Seq<u8>) -> Outcome<u8> {
        one_byte(input, |u: u8| spec_is_ctext(u))
    }

    proof fn lemma_rest_is_suffix(&self, input: Seq<u8>) {
    }

    fn parse<'i>(&self, input: &'i [u8]) -> (r: ParseResult<'i, u8>) {
        MatchParser::new(CTextByte).parse(input)
    }
}


// ---------------------------------------------------------------------------
// Parsers of several bytes
// ---------------------------------------------------------------------------

/// A line break, `CR LF`, once it has been read.
#[derive(Debug, PartialEq, Eq)]
pub struct Crlf;

impl DeepView for Crlf {
    type V = Crlf;

    open spec fn deep_view(&self) -> Crlf {
        Crlf
    }
}

/// Gives `Crlf` whatever it is applied to.
pub struct ToCrlf;

impl<T: DeepView> Mapper<T> for ToCrlf {
    type Out = Crlf;

    open spec fn spec_apply(&self, x: T::V) -> Crlf {
        Crlf
    }

    fn apply(&self, x: T) -> (y: Crlf) {
        Crlf
    }
}

/// `CRLF`: a carriage return followed by a line feed, giving `Crlf`. A CR not
/// followed by LF is a miss that leaves the input after the CR.
pub struct CrlfP;

impl Parser for CrlfP {
    type Out = Crlf;

    open spec fn spec_parse(&self, input: Seq<u8>) -> Outcome<Crlf> {
        match crlf_outcome(input) {
            Outcome::Found { rest, .. } => Outcome::Found { subject: Crlf, rest },
            Outcome::Missed { rest } => Outcome::Missed { rest },
        }
    }

    proof fn lemma_rest_is_suffix(&self, input: Seq<u8>) {
    }

    fn parse<'i>(&self, input: &'i [u8]) -> (r: ParseResult<'i, Crlf>) {
        proof {
            if input@.len() >= 2 {
                assert(input@.skip(1).skip(1) =~= input@.skip(2));
            }
        }
        CrP.and(LfP).map(ToCrlf).parse(input)
    }
}

/// What `LwsP` gives: the leading blanks on the left when there are any; else
/// `Crlf` and the blanks after it on the right.
pub open spec fn lws_bytes_outcome(input: Seq<u8>) -> Outcome<Either<Seq<u8>, (Crlf, Seq<u8>)>> {
    let n = leading(input, |u: u8| is_blank(u));
    if n >= 1 {
        Outcome::Found { subject: Either::Left(input.take(n as int)), rest: input.skip(n as int) }
    } else {
        match crlf_outcome(input) {
            Outcome::Found { rest, .. } => {
                let m = leading(rest, |u: u8| is_blank(u));
                if m >= 1 {
                    Outcome::Found {
                        subject: Either::Right((Crlf, rest.take(m as int))),
                        rest: rest.skip(m as int),
                    }
                } else {
                    Outcome::Missed { rest }
                }
            },
            Outcome::Missed { rest } => Outcome::Missed { rest },
        }
    }
}

/// A span of at least one blank, over a parser of one blank that gives the byte.
proof fn lemma_blank_bytes_span<P: Parser<Out = u8>>(span: SpanParser<P>, input: Seq<u8>)
    requires
        forall|s: Seq<u8>| #[trigger]
            span.parser.spec_parse(s) == byte_outcome(s, |u: u8| is_blank(u), |u: u8| u),
        span.min == 1,
        span.max == usize::MAX,
        input.len() <= usize::MAX,
    ensures
        span.spec_parse(input) == (if leading(input, |u: u8| is_blank(u)) >= 1 {
            Outcome::Found {
                subject: input.take(leading(input, |u: u8| is_blank(u)) as int),
                rest: input.skip(leading(input, |u: u8| is_blank(u)) as int),
            }
        } else {
            Outcome::Missed { rest: input }
        }),
{
    let pred = |u: u8| is_blank(u);
    let f = |u: u8| u;
    lemma_span_of_bytes(span, pred, f, input, usize::MAX as nat);
    lemma_leading_is_longest(input, pred);
    let n = leading(input, pred);
    assert(Seq::new(n, |i: int| f(input[i])) =~= input.take(n as int));
}

/// `LWS`: linear white space, `[CRLF] 1*( SP | HT )`.
pub struct LwsP;

impl Parser for LwsP {
    type Out = Either<Vec<u8>, (Crlf, Vec<u8>)>;

    open spec fn spec_parse(&self, input: Seq<u8>) -> Outcome<Either<Seq<u8>, (Crlf, Seq<u8>)>> {
        lws_bytes_outcome(input)
    }

    proof fn lemma_rest_is_suffix(&self, input: Seq<u8>) {
        let pred = |u: u8| is_blank(u);
        lemma_leading_is_longest(input, pred);
        if let Outcome::Found { rest, .. } = crlf_outcome(input) {
            lemma_leading_is_longest(rest, pred);
            if rest.len() > 0 {
                assert(rest.skip(leading(rest, pred) as int) =~= input.skip(
                    input.len() - (rest.len() - leading(rest, pred)),
                ));
            }
        }
    }

    fn parse<'i>(&self, input: &'i [u8]) -> (r: ParseResult<
        'i,
        Either<Vec<u8>, (Crlf, Vec<u8>)>,
    >) {
        let p = SpP.or(HtP).map(Unify).bounded_span(1, usize::MAX).or(
            CrlfP.and(SpP.or(HtP).map(Unify).bounded_span(1, usize::MAX)),
        );
        let _ = input.len();
        proof {
            assert forall|s: Seq<u8>| #[trigger]
                p.a.parser.spec_parse(s) == byte_outcome(s, |u: u8| is_blank(u), |u: u8| u) by {}
            assert forall|s: Seq<u8>| #[trigger]
                p.b.b.parser.spec_parse(s) == byte_outcome(s, |u: u8| is_blank(u), |u: u8| u) by {}
            lemma_blank_bytes_span(p.a, input@);
            if let Outcome::Found { rest, .. } = crlf_outcome(input@) {
                lemma_blank_bytes_span(p.b.b, rest);
            }
        }
        p.parse(input)
    }
}

/// What `TokenP` gives: the longest prefix of bytes that are not separators,
/// possibly empty, and the input after it.
pub open spec fn token_bytes_outcome(input: Seq<u8>) -> Outcome<Seq<u8>> {
    let n = leading(input, |u: u8| !spec_is_seperator(u));
    Outcome::Found { subject: input.take(n as int), rest: input.skip(n as int) }
}

/// `token`: the longest run of bytes that are not separators.
pub struct TokenP;

impl Parser for TokenP {
    type Out = Vec<u8>;

    open spec fn spec_parse(&self, input: Seq<u8>) -> Outcome<Seq<u8>> {
        token_bytes_outcome(input)
    }

    proof fn lemma_rest_is_suffix(&self, input: Seq<u8>) {
        lemma_leading_is_longest(input, |u: u8| !spec_is_seperator(u));
    }

    fn parse<'i>(&self, input: &'i [u8]) -> (r: ParseResult<'i, Vec<u8>>) {
        let p = MatchParser::new(TokenByte).span();
        let _ = input.len();
        proof {
            let pred = |u: u8| !spec_is_seperator(u);
            let f = |u: u8| u;
            assert forall|s: Seq<u8>| #[trigger] p.parser.spec_parse(s) == byte_outcome(s, pred, f) by {}
            lemma_span_of_bytes(p, pred, f, input@, usize::MAX as nat);
            lemma_leading_is_longest(input@, pred);
            let n = leading(input@, pred);
            assert(Seq::new(n, |i: int| f(input@[i])) =~= input@.take(n as int));
        }
        p.parse(input)
    }
}

/// `quoted-pair`: a backslash and the `CHAR` it escapes, giving that `CHAR`.
pub struct QuotedPairP;

impl Parser for QuotedPairP {
    type Out = u8;

    open spec fn spec_parse(&self, input: Seq<u8>) -> Outcome<u8> {
        quoted_pair_outcome(input)
    }

    proof fn lemma_rest_is_suffix(&self, input: Seq<u8>) {
        if input.len() >= 2 {
            assert(input.skip(2) =~= input.skip(input.len() - (input.len() - 2)));
        }
    }

    fn parse<'i>(&self, input: &'i [u8]) -> (r: ParseResult<'i, u8>) {
        proof {
            if input@.len() >= 2 {
                assert(input@.skip(1).skip(1) =~= input@.skip(2));
            }
        }
        CharParser::new(92).and(CharP).map(Second).parse(input)
    }
}

/// `quoted-string`: `( <"> *(qdtext | quoted-pair ) <"> )`, giving the bytes
/// between the quotes.
pub struct QuotedStringP;

impl Parser for QuotedStringP {
    type Out = Vec<u8>;

    open spec fn spec_parse(&self, input: Seq<u8>) -> Outcome<Seq<u8>> {
        quoted_string_outcome(input)
    }

    proof fn lemma_rest_is_suffix(&self, input: Seq<u8>) {
        if input.len() >= 1 && input[0] == 34 {
            let body = input.skip(1);
            lemma_leading_is_longest(body, |u: u8| spec_is_qd_text(u));
            let n = leading(body, |u: u8| spec_is_qd_text(u));
            let after = body.skip(n as int);
            assert(after =~= input.skip(input.len() - after.len()));
            if after.len() >= 1 {
                assert(after.skip(1) =~= input.skip(input.len() - (after.len() - 1)));
            }
        }
    }

    fn parse<'i>(&self, input: &'i [u8]) -> (r: ParseResult<'i, Vec<u8>>) {
        let p = DqP.and(QdTextP.or(QuotedPairP).map(Unify).span()).and(DqP).map(Enclosed);
        let _ = input.len();
        proof {
            let pred = |u: u8| spec_is_qd_text(u);
            let f = |u: u8| u;
            let span = p.parser.a.b;
            assert forall|s: Seq<u8>| #[trigger] span.parser.spec_parse(s) == byte_outcome(s, pred, f) by {}
            if input@.len() >= 1 && input@[0] == 34 {
                let body = input@.skip(1);
                lemma_span_of_bytes(span, pred, f, body, usize::MAX as nat);
                lemma_leading_is_longest(body, pred);
                let n = leading(body, pred);
                assert(Seq::new(n, |i: int| f(body[i])) =~= body.take(n as int));
            }
        }
        p.parse(input)
    }
}


// ---------------------------------------------------------------------------
// Laws
// ---------------------------------------------------------------------------

/// Linear white space reads back: a nonempty run of spaces (32) and tabs (9),
/// followed by anything that does not start with one, is found as that run on
/// the left, and after CR LF as `Crlf` and that run on the right; what follows
/// the run is left.
pub proof fn lemma_lws_p_roundtrip(run: Seq<u8>, after: Seq<u8>)
    requires
        run.len() >= 1,
        forall|i: int| 0 <= i < run.len() ==> (#[trigger] run[i] == 32 || run[i] == 9),
        after.len() > 0 ==> after[0] != 32 && after[0] != 9,
    ensures
        LwsP.spec_parse(run + after) == (Outcome::Found {
            subject: Either::<Seq<u8>, (Crlf, Seq<u8>)>::Left(run),
            rest: after,
        }),
        LwsP.spec_parse(seq![13u8, 10u8] + run + after) == (Outcome::Found {
            subject: Either::<Seq<u8>, (Crlf, Seq<u8>)>::Right((Crlf, run)),
            rest: after,
        }),
{
    let pred = |u: u8| is_blank(u);
    assert forall|i: int| 0 <= i < run.len() implies #[trigger] pred(run[i]) by {}
    lemma_leading_of_run(run, after, pred);
    assert((run + after).take(run.len() as int) =~= run);
    assert((run + after).skip(run.len() as int) =~= after);
    let folded = seq![13u8, 10u8] + run + after;
    assert(folded[0] == 13u8);
    assert(folded[1] == 10u8);
    assert(folded.skip(2) =~= run + after);
    assert(leading(folded, pred) == 0);
}

/// A token holds no separator: none of its bytes is the space (32), the tab (9)
/// or one of `( ) < > @ , ; : \ " / [ ] ? = { }`; what it leaves is empty or
/// starts with one of them; and it and what it leaves make up the input.
pub proof fn lemma_token_p_stops_at_separator(input: Seq<u8>)
    ensures
        TokenP.spec_parse(input) matches Outcome::Found { subject, rest } && subject + rest
            == input && (forall|i: int| 0 <= i < subject.len() ==> !(#[trigger] subject[i] == 32
            || subject[i] == 9 || subject[i] == 40 || subject[i] == 41 || subject[i] == 60
            || subject[i] == 62 || subject[i] == 64 || subject[i] == 44 || subject[i] == 59
            || subject[i] == 58 || subject[i] == 92 || subject[i] == 34 || subject[i] == 47
            || subject[i] == 91 || subject[i] == 93 || subject[i] == 63 || subject[i] == 61
            || subject[i] == 123 || subject[i] == 125)) && (rest.len() > 0 ==> (rest[0] == 32
            || rest[0] == 9
            || rest[0] == 40
            || rest[0] == 41
            || rest[0] == 60
            || rest[0] == 62
            || rest[0] == 64
            || rest[0] == 44
            || rest[0] == 59
            || rest[0] == 58
            || rest[0] == 92
            || rest[0] == 34
            || rest[0] == 47
            || rest[0] == 91
            || rest[0] == 93
            || rest[0] == 63
            || rest[0] == 61
            || rest[0] == 123
            || rest[0] == 125)),
{
    let pred = |u: u8| !spec_is_seperator(u);
    lemma_leading_is_longest(input, pred);
    let n = leading(input, pred);
    assert(input.take(n as int) + input.skip(n as int) =~= input);
    let subject = input.take(n as int);
    let rest = input.skip(n as int);
    assert forall|i: int| 0 <= i < subject.len() implies !spec_is_seperator(#[trigger] subject[i]) by {
        assert(pred(input[i]));
    }
    if rest.len() > 0 {
        assert(rest[0] == input[n as int]);
        assert(spec_is_seperator(rest[0]));
    }
}

/// One byte `u`, then anything: `HexP` finds `u` exactly when it is `0` to `9`
/// (48 to 57), `a` to `f` (97 to 102) or `A` to `F` (65 to 70), leaving what
/// follows; else it misses with the input whole.
pub proof fn lemma_hex_p_front(u: u8, after: Seq<u8>)
    ensures
        HexP.spec_parse(seq![u] + after) == (if (48 <= u && u <= 57) || (97 <= u && u <= 102) || (
        65 <= u && u <= 70) {
            Outcome::Found { subject: u, rest: after }
        } else {
            Outcome::Missed { rest: seq![u] + after }
        }),
{
    lemma_one_byte_front(|v: u8| spec_is_hex(v), u, after);
}

/// One byte `u`, then anything: `DigitP` finds `u` exactly when it is `0` to `9`
/// (48 to 57); `CtlP` when it is 0 to 31 or 127; `TextP` when it is 32 or more
/// but not 127; `QdTextP` when `TextP` does and it is not the double quote (34);
/// `CTextP` when `TextP` does and it is no parenthesis (40, 41); `HtP` when it
/// is the tab (9); `SpP` when it is the space (32). Each leaves what follows on
/// a find and the input whole on a miss.
pub proof fn lemma_one_byte_parsers_front(u: u8, after: Seq<u8>)
    ensures
        DigitP.spec_parse(seq![u] + after) == (if 48 <= u && u <= 57 {
            Outcome::Found { subject: u, rest: after }
        } else {
            Outcome::Missed { rest: seq![u] + after }
        }),
        CtlP.spec_parse(seq![u] + after) == (if u <= 31 || u == 127 {
            Outcome::Found { subject: u, rest: after }
        } else {
            Outcome::Missed { rest: seq![u] + after }
        }),
        TextP.spec_parse(seq![u] + after) == (if 32 <= u && u != 127 {
            Outcome::Found { subject: u, rest: after }
        } else {
            Outcome::Missed { rest: seq![u] + after }
        }),
        QdTextP.spec_parse(seq![u] + after) == (if 32 <= u && u != 127 && u != 34 {
            Outcome::Found { subject: u, rest: after }
        } else {
            Outcome::Missed { rest: seq![u] + after }
        }),
        CTextP.spec_parse(seq![u] + after) == (if 32 <= u && u != 127 && u != 40 && u != 41 {
            Outcome::Found { subject: u, rest: after }
        } else {
            Outcome::Missed { rest: seq![u] + after }
        }),
        HtP.spec_parse(seq![u] + after) == (if u == 9 {
            Outcome::Found { subject: u, rest: after }
        } else {
            Outcome::Missed { rest: seq![u] + after }
        }),
        SpP.spec_parse(seq![u] + after) == (if u == 32 {
            Outcome::Found { subject: u, rest: after }
        } else {
            Outcome::Missed { rest: seq![u] + after }
        }),
{
    lemma_one_byte_front(|v: u8| spec_is_digit(v), u, after);
    lemma_one_byte_front(|v: u8| spec_is_ctl(v), u, after);
    lemma_one_byte_front(|v: u8| spec_is_text(v), u, after);
    lemma_one_byte_front(|v: u8| spec_is_qd_text(v), u, after);
    lemma_one_byte_front(|v: u8| spec_is_ctext(v), u, after);
    lemma_one_byte_front(|v: u8| spec_is_ht(v), u, after);
    lemma_one_byte_front(|v: u8| spec_is_sp(v), u, after);
}

} // verus!
