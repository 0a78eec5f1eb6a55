//! Basic rules of the HTTP/1.1 grammar (RFC 2616, section 2.2), as parsers.
use crate::either::Either;
use crate::parser::{
    byte_outcome, lemma_leading_is_longest, lemma_leading_of_run, lemma_span_of_bytes, leading, lemma_one_byte_front, one_byte, ByteClass,
    Enclosed, MatchParser, Outcome, Parser, Second, SpanParser, Unify,
};
use vstd::prelude::*;

pub mod primatives;

verus! {

// ---------------------------------------------------------------------------
// Byte predicates
// ---------------------------------------------------------------------------

/// `DIGIT`: an ASCII decimal digit, `0` (48) to `9` (57).
pub open spec fn spec_is_digit(u: u8) -> bool {
    48 <= u && u <= 57
}

/// `CTL`: an ASCII control byte, 0 to 31 or DEL.
pub open spec fn spec_is_ctl(u: u8) -> bool {
    u <= 31 || u == 127
}

/// `SP`: the space byte.
pub open spec fn spec_is_sp(u: u8) -> bool {
    u == 32
}

/// The byte that `is_ht` of this module accepts: the space byte, 32 (the
/// parser `ht_p` itself takes the tab byte, 9).
pub open spec fn spec_is_ht(u: u8) -> bool {
    u == 32
}

/// `TEXT`: any byte that is not a control byte, or the space byte.
pub open spec fn spec_is_text(u: u8) -> bool {
    !spec_is_ctl(u) || spec_is_sp(u)
}

/// The separator bytes that the grammar lists by name:
/// `( ) < > @ , ; : \ " / [ ] ? = { }`.
pub open spec fn is_listed_separator(u: u8) -> bool {
    u == 40  // (
        || u == 41  // )
        || u == 60  // <
        || u == 62  // >
        || u == 64  // @
        || u == 44  // ,
        || u == 59  // ;
        || u == 58  // :
        || u == 92  // \
        || u == 34  // "
        || u == 47  // /
        || u == 91  // [
        || u == 93  // ]
        || u == 63  // ?
        || u == 61  // =
        || u == 123  // {
        || u == 125  // }
}

/// Tells whether `u` is one of the separators the grammar lists by name
/// (the bytes of `()<>@,;:\"/[]?={}`).
pub fn is_listed_separator_byte(u: u8) -> (r: bool)
    ensures
        r == is_listed_separator(u),
{
    u == 40  // (
        || u == 41  // )
        || u == 60  // <
        || u == 62  // >
        || u == 64  // @
        || u == 44  // ,
        || u == 59  // ;
        || u == 58  // :
        || u == 92  // \
        || u == 34  // "
        || u == 47  // /
        || u == 91  // [
        || u == 93  // ]
        || u == 63  // ?
        || u == 61  // =
        || u == 123  // {
        || u == 125  // }
}

/// A separator, as this module's `is_seperator` tells them apart.
pub open spec fn spec_is_seperator(u: u8) -> bool {
    spec_is_sp(u) || spec_is_ht(u) || is_listed_separator(u)
}

/// `HEX`: a hexadecimal digit, either case: a decimal digit, `a` (97) to `f`
/// (102), or `A` (65) to `F` (70).
pub open spec fn spec_is_hex(u: u8) -> bool {
    spec_is_digit(u) || (97 <= u && u <= 102) || (65 <= u && u <= 70)
}

/// `qdtext`: a `TEXT` byte other than the double quote (34).
pub open spec fn spec_is_qd_text(u: u8) -> bool {
    spec_is_text(u) && u != 34
}

/// Tells whether `u` is a decimal digit.
pub fn is_digit(u: u8) -> (r: bool)
    ensures
        r == spec_is_digit(u),
{
    (48..=57).contains(&u)
}

/// Tells whether `u` is a control byte.
pub fn is_ctl(u: u8) -> (r: bool)
    ensures
        r == spec_is_ctl(u),
{
    (0..=31).contains(&u) || u == 127
}

/// Tells whether `u` is the space byte.
pub fn is_sp(u: u8) -> (r: bool)
    ensures
        r == spec_is_sp(u),
{
    u == 32
}

/// Tells whether `u` is byte 32, as this module's separators count it.
pub fn is_ht(u: u8) -> (r: bool)
    ensures
        r == spec_is_ht(u),
{
    u == 32
}

/// Tells whether `u` is a `TEXT` byte.
pub fn is_text(u: u8) -> (r: bool)
    ensures
        r == spec_is_text(u),
{
    !is_ctl(u) || is_sp(u)
}

/// Tells whether `u` is a separator.
pub fn is_seperator(u: u8) -> (r: bool)
    ensures
        r == spec_is_seperator(u),
{
    is_sp(u) || is_ht(u) || is_listed_separator_byte(u)
}

// ---------------------------------------------------------------------------
// Byte classes
// ---------------------------------------------------------------------------

/// Bytes below 128.
pub struct AsciiChar;

impl ByteClass for AsciiChar {
    open spec fn spec_matches(&self, u: u8) -> bool {
        u < 128
    }

    fn matches(&self, u: u8) -> (r: bool) {
        u < 128
    }
}

/// `A` (65) to `Z` (90).
pub struct UpAlpha;

impl ByteClass for UpAlpha {
    open spec fn spec_matches(&self, u: u8) -> bool {
        65 <= u && u <= 90
    }

    fn matches(&self, u: u8) -> (r: bool) {
        (65..=90).contains(&u)
    }
}

/// `a` (97) to `z` (122).
pub struct LoAlpha;

impl ByteClass for LoAlpha {
    open spec fn spec_matches(&self, u: u8) -> bool {
        97 <= u && u <= 122
    }

    fn matches(&self, u: u8) -> (r: bool) {
        (97..=122).contains(&u)
    }
}

/// Decimal digits.
pub struct Digit;

impl ByteClass for Digit {
    open spec fn spec_matches(&self, u: u8) -> bool {
        spec_is_digit(u)
    }

    fn matches(&self, u: u8) -> (r: bool) {
        is_digit(u)
    }
}

/// Control bytes.
pub struct Control;

impl ByteClass for Control {
    open spec fn spec_matches(&self, u: u8) -> bool {
        spec_is_ctl(u)
    }

    fn matches(&self, u: u8) -> (r: bool) {
        is_ctl(u)
    }
}

/// The one byte `expected`.
pub struct Exactly {
    pub expected: u8,
}

impl ByteClass for Exactly {
    open spec fn spec_matches(&self, u: u8) -> bool {
        u == self.expected
    }

    fn matches(&self, u: u8) -> (r: bool) {
        u == self.expected
    }
}

/// The space byte.
pub struct Space;

impl ByteClass for Space {
    open spec fn spec_matches(&self, u: u8) -> bool {
        spec_is_sp(u)
    }

    fn matches(&self, u: u8) -> (r: bool) {
        is_sp(u)
    }
}

/// `TEXT` bytes.
pub struct Text;

impl ByteClass for Text {
    open spec fn spec_matches(&self, u: u8) -> bool {
        spec_is_text(u)
    }

    fn matches(&self, u: u8) -> (r: bool) {
        is_text(u)
    }
}

/// Hexadecimal digits.
pub struct HexDigit;

impl ByteClass for HexDigit {
    open spec fn spec_matches(&self, u: u8) -> bool {
        spec_is_hex(u)
    }

    fn matches(&self, u: u8) -> (r: bool) {
        is_digit(u) || (97..=102).contains(&u) || (65..=70).contains(&u)
    }
}

/// Bytes that are not separators.
pub struct TokenByte;

impl ByteClass for TokenByte {
    open spec fn spec_matches(&self, u: u8) -> bool {
        !spec_is_seperator(u)
    }

    fn matches(&self, u: u8) -> (r: bool) {
        !is_seperator(u)
    }
}

/// `qdtext` bytes.
pub struct QdText;

impl ByteClass for QdText {
    open spec fn spec_matches(&self, u: u8) -> bool {
        spec_is_qd_text(u)
    }

    fn matches(&self, u: u8) -> (r: bool) {
        is_text(u) && u != 34
    }
}


// ---------------------------------------------------------------------------
// Parsers
// ---------------------------------------------------------------------------

/// `CHAR`: one byte below 128.
pub fn char_p() -> (p: impl Parser<Out = u8>)
    ensures
        forall|input: Seq<u8>| #[trigger] p.spec_parse(input) == one_byte(input, |u: u8| u < 128),
{
    MatchParser::new(AsciiChar)
}

/// `UPALPHA`: one byte `A` to `Z`.
pub fn up_alpha_p() -> (p: impl Parser<Out = u8>)
    ensures
        forall|input: Seq<u8>| #[trigger]
            p.spec_parse(input) == one_byte(input, |u: u8| 65 <= u && u <= 90),
{
    MatchParser::new(UpAlpha)
}

/// `LOALPHA`: one byte `a` to `z`.
pub fn lo_alpha_p() -> (p: impl Parser<Out = u8>)
    ensures
        forall|input: Seq<u8>| #[trigger]
            p.spec_parse(input) == one_byte(input, |u: u8| 97 <= u && u <= 122),
{
    MatchParser::new(LoAlpha)
}

/// `ALPHA`: one ASCII letter, either case.
pub fn alpha_p() -> (p: impl Parser<Out = u8>)
    ensures
        forall|input: Seq<u8>| #[trigger]
            p.spec_parse(input) == one_byte(
                input,
                |u: u8| (65 <= u && u <= 90) || (97 <= u && u <= 122),
            ),
{
    let p = up_alpha_p().or(lo_alpha_p()).map(Unify);
    assert forall|input: Seq<u8>| #[trigger]
        p.spec_parse(input) == one_byte(
            input,
            |u: u8| (65 <= u && u <= 90) || (97 <= u && u <= 122),
        ) by {
        let _ = p.parser.a.spec_parse(input);
        let _ = p.parser.b.spec_parse(input);
    }
    p
}

/// `DIGIT`: one decimal digit.
pub fn digit_p() -> (p: impl Parser<Out = u8>)
    ensures
        forall|input: Seq<u8>| #[trigger]
            p.spec_parse(input) == one_byte(input, |u: u8| spec_is_digit(u)),
        forall|u: u8, after: Seq<u8>| #[trigger]
            p.spec_parse(seq![u] + after) == (if 48 <= u && u <= 57 {
                Outcome::Found { subject: u, rest: after }
            } else {
                Outcome::Missed { rest: seq![u] + after }
            }),
{
    let p = MatchParser::new(Digit);
    assert forall|u: u8, after: Seq<u8>| #[trigger]
        p.spec_parse(seq![u] + after) == (if 48 <= u && u <= 57 {
            Outcome::Found { subject: u, rest: after }
        } else {
            Outcome::Missed { rest: seq![u] + after }
        }) by {
        lemma_one_byte_front(|v: u8| p.matcher.spec_matches(v), u, after);
    }
    p
}

/// `CTL`: one control byte.
pub fn ctl_p() -> (p: impl Parser<Out = u8>)
    ensures
        forall|input: Seq<u8>| #[trigger]
            p.spec_parse(input) == one_byte(input, |u: u8| spec_is_ctl(u)),
        forall|u: u8, after: Seq<u8>| #[trigger]
            p.spec_parse(seq![u] + after) == (if u <= 31 || u == 127 {
                Outcome::Found { subject: u, rest: after }
            } else {
                Outcome::Missed { rest: seq![u] + after }
            }),
{
    let p = MatchParser::new(Control);
    assert forall|u: u8, after: Seq<u8>| #[trigger]
        p.spec_parse(seq![u] + after) == (if u <= 31 || u == 127 {
            Outcome::Found { subject: u, rest: after }
        } else {
            Outcome::Missed { rest: seq![u] + after }
        }) by {
        lemma_one_byte_front(|v: u8| p.matcher.spec_matches(v), u, after);
    }
    p
}

/// `CR`: the carriage return byte, 13.
pub fn cr_p() -> (p: impl Parser<Out = u8>)
    ensures
        forall|input: Seq<u8>| #[trigger] p.spec_parse(input) == one_byte(input, |u: u8| u == 13),
{
    MatchParser::new(Exactly { expected: 13 })
}

/// `LF`: the line feed byte, 10.
pub fn lf_p() -> (p: impl Parser<Out = u8>)
    ensures
        forall|input: Seq<u8>| #[trigger] p.spec_parse(input) == one_byte(input, |u: u8| u == 10),
{
    MatchParser::new(Exactly { expected: 10 })
}

/// `SP`: the space byte, 32.
pub fn sp_p() -> (p: impl Parser<Out = u8>)
    ensures
        forall|input: Seq<u8>| #[trigger]
            p.spec_parse(input) == one_byte(input, |u: u8| spec_is_sp(u)),
{
    MatchParser::new(Space)
}

/// `HT`: the horizontal tab byte, 9.
pub fn ht_p() -> (p: impl Parser<Out = u8>)
    ensures
        forall|input: Seq<u8>| #[trigger] p.spec_parse(input) == one_byte(input, |u: u8| u == 9),
{
    MatchParser::new(Exactly { expected: 9 })
}

/// The double quote byte, 34.
pub fn dq_p() -> (p: impl Parser<Out = u8>)
    ensures
        forall|input: Seq<u8>| #[trigger] p.spec_parse(input) == one_byte(input, |u: u8| u == 34),
{
    MatchParser::new(Exactly { expected: 34 })
}

/// `TEXT`: one byte that is not a control byte, or the space.
pub fn text_p() -> (p: impl Parser<Out = u8>)
    ensures
        forall|input: Seq<u8>| #[trigger]
            p.spec_parse(input) == one_byte(input, |u: u8| spec_is_text(u)),
        forall|u: u8, after: Seq<u8>| #[trigger]
            p.spec_parse(seq![u] + after) == (if 32 <= u && u != 127 {
                Outcome::Found { subject: u, rest: after }
            } else {
                Outcome::Missed { rest: seq![u] + after }
            }),
{
    let p = MatchParser::new(Text);
    assert forall|u: u8, after: Seq<u8>| #[trigger]
        p.spec_parse(seq![u] + after) == (if 32 <= u && u != 127 {
            Outcome::Found { subject: u, rest: after }
        } else {
            Outcome::Missed { rest: seq![u] + after }
        }) by {
        lemma_one_byte_front(|v: u8| p.matcher.spec_matches(v), u, after);
    }
    p
}

/// `HEX`: one hexadecimal digit, either case.
pub fn hex_p() -> (p: impl Parser<Out = u8>)
    ensures
        forall|input: Seq<u8>| #[trigger]
            p.spec_parse(input) == one_byte(input, |u: u8| spec_is_hex(u)),
        forall|u: u8, after: Seq<u8>| #[trigger]
            p.spec_parse(seq![u] + after) == (if (48 <= u && u <= 57) || (97 <= u && u <= 102) || (65 <= u && u <= 70) {
                Outcome::Found { subject: u, rest: after }
            } else {
                Outcome::Missed { rest: seq![u] + after }
            }),
{
    let p = MatchParser::new(HexDigit);
    assert forall|u: u8, after: Seq<u8>| #[trigger]
        p.spec_parse(seq![u] + after) == (if (48 <= u && u <= 57) || (97 <= u && u <= 102) || (65 <= u && u <= 70) {
            Outcome::Found { subject: u, rest: after }
        } else {
            Outcome::Missed { rest: seq![u] + after }
        }) by {
        lemma_one_byte_front(|v: u8| p.matcher.spec_matches(v), u, after);
    }
    p
}

/// `qdtext`: one `TEXT` byte other than the double quote.
pub fn qd_text_p() -> (p: impl Parser<Out = u8>)
    ensures
        forall|input: Seq<u8>| #[trigger]
            p.spec_parse(input) == one_byte(input, |u: u8| spec_is_qd_text(u)),
        forall|u: u8, after: Seq<u8>| #[trigger]
            p.spec_parse(seq![u] + after) == (if 32 <= u && u != 127 && u != 34 {
                Outcome::Found { subject: u, rest: after }
            } else {
                Outcome::Missed { rest: seq![u] + after }
            }),
{
    let p = MatchParser::new(QdText);
    assert forall|u: u8, after: Seq<u8>| #[trigger]
        p.spec_parse(seq![u] + after) == (if 32 <= u && u != 127 && u != 34 {
            Outcome::Found { subject: u, rest: after }
        } else {
            Outcome::Missed { rest: seq![u] + after }
        }) by {
        lemma_one_byte_front(|v: u8| p.matcher.spec_matches(v), u, after);
    }
    p
}


/// What `crlf_p` gives: the pair CR LF when the input starts with it. A CR not
/// followed by LF is a miss that leaves the input after the CR.
pub open spec fn crlf_outcome(input: Seq<u8>) -> Outcome<(u8, u8)> {
    if input.len() >= 2 && input[0] == 13 && input[1] == 10 {
        Outcome::Found { subject: (13u8, 10u8), rest: input.skip(2) }
    } else if input.len() >= 1 && input[0] == 13 {
        Outcome::Missed { rest: input.skip(1) }
    } else {
        Outcome::Missed { rest: input }
    }
}

/// `CRLF`: a carriage return followed by a line feed.
pub fn crlf_p() -> (p: impl Parser<Out = (u8, u8)>)
    ensures
        forall|input: Seq<u8>| #[trigger] p.spec_parse(input) == crlf_outcome(input),
{
    let p = cr_p().and(lf_p());
    assert forall|input: Seq<u8>| #[trigger] p.spec_parse(input) == crlf_outcome(input) by {
        let _ = p.a.spec_parse(input);
        let _ = p.b.spec_parse(input.skip(1));
        if input.len() >= 2 {
            assert(input.skip(1).skip(1) =~= input.skip(2));
        }
    }
    p
}

/// What `token_p` gives on an input that a slice can hold: the longest prefix
/// of bytes that are not separators, possibly empty, and the input after it.
pub open spec fn token_outcome(input: Seq<u8>) -> Outcome<Seq<u8>> {
    let n = leading(input, |u: u8| !spec_is_seperator(u));
    Outcome::Found { subject: input.take(n as int), rest: input.skip(n as int) }
}

/// `token`: the longest run of bytes that are not separators.
pub fn token_p() -> (p: impl Parser<Out = Vec<u8>>)
    ensures
        forall|input: Seq<u8>|
            input.len() <= usize::MAX ==> #[trigger] p.spec_parse(input) == token_outcome(input),
{
    let p = MatchParser::new(TokenByte).span();
    let ghost pred: spec_fn(u8) -> bool = |u: u8| !spec_is_seperator(u);
    let ghost f: spec_fn(u8) -> u8 = |u: u8| u;
    assert forall|s: Seq<u8>| #[trigger] p.parser.spec_parse(s) == byte_outcome(s, pred, f) by {}
    assert forall|input: Seq<u8>|
        input.len() <= usize::MAX implies #[trigger] p.spec_parse(input) == token_outcome(input) by {
        lemma_span_of_bytes(p, pred, f, input, usize::MAX as nat);
        lemma_leading_is_longest(input, pred);
        let n = leading(input, pred);
        assert(Seq::new(n, |i: int| f(input[i])) =~= input.take(n as int));
    }
    p
}

/// What `quoted_pair_p` gives: the byte after a backslash when that byte is
/// below 128. A backslash followed by anything else is a miss that leaves the
/// input after the backslash.
pub open spec fn quoted_pair_outcome(input: Seq<u8>) -> Outcome<u8> {
    if input.len() >= 1 && input[0] == 92 {
        if input.len() >= 2 && input[1] < 128 {
            Outcome::Found { subject: input[1], rest: input.skip(2) }
        } else {
            Outcome::Missed { rest: input.skip(1) }
        }
    } else {
        Outcome::Missed { rest: input }
    }
}

/// `quoted-pair`: a backslash and the `CHAR` it escapes, giving that `CHAR`.
pub fn quoted_pair_p() -> (p: impl Parser<Out = u8>)
    ensures
        forall|input: Seq<u8>| #[trigger] p.spec_parse(input) == quoted_pair_outcome(input),
{
    let p = MatchParser::new(Exactly { expected: 92 }).and(char_p()).map(Second);
    assert forall|input: Seq<u8>| #[trigger] p.spec_parse(input) == quoted_pair_outcome(input) by {
        let _ = p.parser.b.spec_parse(input.skip(1));
        if input.len() >= 2 {
            assert(input.skip(1).skip(1) =~= input.skip(2));
        }
    }
    p
}


/// A space or a horizontal tab.
pub open spec fn is_blank(u: u8) -> bool {
    u == 32 || u == 9
}

/// A blank as `SP | HT` gives it: a space on the left, a tab on the right.
pub open spec fn tag_blank(u: u8) -> Either<u8, u8> {
    if u == 32 {
        Either::Left(u)
    } else {
        Either::Right(u)
    }
}

/// What `1*( SP | HT )` gives on an input that a slice can hold: every leading
/// blank, tagged, when there is at least one.
pub open spec fn blanks_outcome(input: Seq<u8>) -> Outcome<Seq<Either<u8, u8>>> {
    let n = leading(input, |u: u8| is_blank(u));
    if n >= 1 {
        Outcome::Found {
            subject: Seq::new(n, |i: int| tag_blank(input[i])),
            rest: input.skip(n as int),
        }
    } else {
        Outcome::Missed { rest: input }
    }
}

/// What `lws_p` gives on an input that a slice can hold: leading blanks on the
/// left; else a CRLF followed by blanks on the right.
pub open spec fn lws_outcome(input: Seq<u8>) -> Outcome<
    Either<Seq<Either<u8, u8>>, ((u8, u8), Seq<Either<u8, u8>>)>,
> {
    match blanks_outcome(input) {
        Outcome::Found { subject, rest } => Outcome::Found { subject: Either::Left(subject), rest },
        Outcome::Missed { .. } => match crlf_outcome(input) {
            Outcome::Found { subject: crlf, rest } => match blanks_outcome(rest) {
                Outcome::Found { subject, rest: after } => Outcome::Found {
                    subject: Either::Right((crlf, subject)),
                    rest: after,
                },
                Outcome::Missed { rest: after } => Outcome::Missed { rest: after },
            },
            Outcome::Missed { rest } => Outcome::Missed { rest },
        },
    }
}

/// A span of at least one blank, over a parser of one blank.
proof fn lemma_blank_span<P: Parser<Out = Either<u8, u8>>>(span: SpanParser<P>, input: Seq<u8>)
    requires
        forall|s: Seq<u8>| #[trigger]
            span.parser.spec_parse(s) == byte_outcome(
                s,
                |u: u8| is_blank(u),
                |u: u8| tag_blank(u),
            ),
        span.min == 1,
        span.max == usize::MAX,
        input.len() <= usize::MAX,
    ensures
        span.spec_parse(input) == blanks_outcome(input),
{
    let pred = |u: u8| is_blank(u);
    let f = |u: u8| tag_blank(u);
    lemma_span_of_bytes(span, pred, f, input, usize::MAX as nat);
    lemma_leading_is_longest(input, pred);
    let n = leading(input, pred);
    assert(Seq::new(n, |i: int| f(input[i])) =~= Seq::new(n, |i: int| tag_blank(input[i])));
}

/// `LWS`: linear white space, `[CRLF] 1*( SP | HT )`.
pub fn lws_p() -> (p: impl Parser<
    Out = Either<Vec<Either<u8, u8>>, ((u8, u8), Vec<Either<u8, u8>>)>,
>)
    ensures
        forall|input: Seq<u8>|
            input.len() <= usize::MAX ==> #[trigger] p.spec_parse(input) == lws_outcome(input),
{
    let p = sp_p().or(ht_p()).bounded_span(1, usize::MAX).or(
        crlf_p().and(sp_p().or(ht_p()).bounded_span(1, usize::MAX)),
    );
    assert forall|s: Seq<u8>| #[trigger]
        p.a.parser.spec_parse(s) == byte_outcome(
            s,
            |u: u8| is_blank(u),
            |u: u8| tag_blank(u),
        ) by {
        let _ = p.a.parser.a.spec_parse(s);
        let _ = p.a.parser.b.spec_parse(s);
    }
    assert forall|s: Seq<u8>| #[trigger]
        p.b.b.parser.spec_parse(s) == byte_outcome(
            s,
            |u: u8| is_blank(u),
            |u: u8| tag_blank(u),
        ) by {
        let _ = p.b.b.parser.a.spec_parse(s);
        let _ = p.b.b.parser.b.spec_parse(s);
    }
    assert forall|input: Seq<u8>|
        input.len() <= usize::MAX implies #[trigger] p.spec_parse(input) == lws_outcome(input) by {
        lemma_blank_span(p.a, input);
        let _ = p.b.a.spec_parse(input);
        if let Outcome::Found { rest, .. } = crlf_outcome(input) {
            lemma_blank_span(p.b.b, rest);
        }
    }
    p
}

/// What `quoted_string_p` gives: the `qdtext` bytes between a double quote and
/// the next byte that is not `qdtext`, when that byte is a double quote too.
/// Where it is not, the miss leaves the input from that byte on.
pub open spec fn quoted_string_outcome(input: Seq<u8>) -> Outcome<Seq<u8>> {
    if input.len() >= 1 && input[0] == 34 {
        let body = input.skip(1);
        let n = leading(body, |u: u8| spec_is_qd_text(u));
        let after = body.skip(n as int);
        if after.len() >= 1 && after[0] == 34 {
            Outcome::Found { subject: body.take(n as int), rest: after.skip(1) }
        } else {
            Outcome::Missed { rest: after }
        }
    } else {
        Outcome::Missed { rest: input }
    }
}

/// `quoted-string`: `( <"> *(qdtext | quoted-pair ) <"> )`, giving the bytes
/// between the quotes.
pub fn quoted_string_p() -> (p: impl Parser<Out = Vec<u8>>)
    ensures
        forall|input: Seq<u8>|
            input.len() <= usize::MAX ==> #[trigger] p.spec_parse(input)
                == quoted_string_outcome(input),
{
    let p = dq_p().and(qd_text_p().or(quoted_pair_p()).map(Unify).span()).and(dq_p()).map(
        Enclosed,
    );
    let ghost pred: spec_fn(u8) -> bool = |u: u8| spec_is_qd_text(u);
    let ghost f: spec_fn(u8) -> u8 = |u: u8| u;
    let ghost span = p.parser.a.b;
    assert forall|s: Seq<u8>| #[trigger] span.parser.spec_parse(s) == byte_outcome(s, pred, f) by {
        let _ = span.parser.parser.a.spec_parse(s);
        let _ = span.parser.parser.b.spec_parse(s);
    }
    assert forall|input: Seq<u8>|
        input.len() <= usize::MAX implies #[trigger] p.spec_parse(input)
            == quoted_string_outcome(input) by {
        let _ = p.parser.a.a.spec_parse(input);
        if input.len() >= 1 && input[0] == 34 {
            let body = input.skip(1);
            lemma_span_of_bytes(span, pred, f, body, usize::MAX as nat);
            lemma_leading_is_longest(body, pred);
            let n = leading(body, pred);
            assert(Seq::new(n, |i: int| f(body[i])) =~= body.take(n as int));
            let _ = p.parser.b.spec_parse(body.skip(n as int));
        }
    }
    p
}


// ---------------------------------------------------------------------------
// Laws
// ---------------------------------------------------------------------------

/// A token is the longest separator-free prefix: it and what it leaves make up
/// the input, it holds no separator, and what it leaves is empty or starts with
/// a separator.
pub proof fn lemma_token_is_longest(input: Seq<u8>)
    ensures
        token_outcome(input) matches Outcome::Found { subject, rest } ==> {
            &&& subject + rest == input
            &&& forall|i: int| 0 <= i < subject.len() ==> !spec_is_seperator(#[trigger] subject[i])
            &&& rest.len() > 0 ==> spec_is_seperator(rest[0])
        },
{
    let pred = |u: u8| !spec_is_seperator(u);
    lemma_leading_is_longest(input, pred);
    let n = leading(input, pred);
    assert(input.take(n as int) + input.skip(n as int) =~= input);
    assert forall|i: int| 0 <= i < n implies !spec_is_seperator(#[trigger] input.take(n as int)[i]) by {
        assert(pred(input[i]));
    }
}

/// A run of non-separator bytes followed by a separator, or by nothing, reads
/// back as a token with what follows it left over.
pub proof fn lemma_token_roundtrip(token: Seq<u8>, after: Seq<u8>)
    requires
        forall|i: int| 0 <= i < token.len() ==> !spec_is_seperator(#[trigger] token[i]),
        after.len() > 0 ==> spec_is_seperator(after[0]),
    ensures
        token_outcome(token + after) == (Outcome::Found { subject: token, rest: after }),
{
    let pred = |u: u8| !spec_is_seperator(u);
    lemma_leading_of_run(token, after, pred);
    assert((token + after).take(token.len() as int) =~= token);
    assert((token + after).skip(token.len() as int) =~= after);
}

/// A `CHAR` written as a quoted pair reads back as that `CHAR`.
pub proof fn lemma_quoted_pair_roundtrip(c: u8, after: Seq<u8>)
    requires
        c < 128,
    ensures
        quoted_pair_outcome(seq![92u8, c] + after) == (Outcome::Found { subject: c, rest: after }),
{
    assert((seq![92u8, c] + after).skip(2) =~= after);
}

/// `qdtext` bytes between two double quotes read back as a quoted string whose
/// body is those bytes, with what follows the closing quote left over.
pub proof fn lemma_quoted_string_roundtrip(body: Seq<u8>, after: Seq<u8>)
    requires
        forall|i: int| 0 <= i < body.len() ==> spec_is_qd_text(#[trigger] body[i]),
    ensures
        quoted_string_outcome(seq![34u8] + body + seq![34u8] + after) == (Outcome::Found {
            subject: body,
            rest: after,
        }),
{
    let input = seq![34u8] + body + seq![34u8] + after;
    let tail = input.skip(1);
    assert(tail =~= body + (seq![34u8] + after));
    let pred = |u: u8| spec_is_qd_text(u);
    lemma_leading_of_run(body, seq![34u8] + after, pred);
    assert(tail.take(body.len() as int) =~= body);
    assert(tail.skip(body.len() as int) =~= seq![34u8] + after);
    assert((seq![34u8] + after).skip(1) =~= after);
}

/// Blanks read back as linear white space, with or without a CRLF before them,
/// leaving what follows them when that does not start with a blank.
pub proof fn lemma_lws_roundtrip(blanks: Seq<u8>, after: Seq<u8>)
    requires
        blanks.len() >= 1,
        forall|i: int| 0 <= i < blanks.len() ==> is_blank(#[trigger] blanks[i]),
        after.len() > 0 ==> !is_blank(after[0]),
    ensures
        lws_outcome(blanks + after) matches Outcome::Found { subject: Either::Left(found), rest }
            && found.len() == blanks.len() && rest == after,
        lws_outcome(seq![13u8, 10u8] + blanks + after) matches Outcome::Found {
            subject: Either::Right((crlf, found)),
            rest,
        } && crlf == (13u8, 10u8) && found.len() == blanks.len() && rest == after,
{
    let pred = |u: u8| is_blank(u);
    lemma_leading_of_run(blanks, after, pred);
    assert((blanks + after).skip(blanks.len() as int) =~= after);
    let input = seq![13u8, 10u8] + blanks + after;
    assert(leading(input, pred) == 0);
    assert(input.skip(2) =~= blanks + after);
}


/// Tells whether a line read from a request is the empty line, `CR LF`, that
/// ends the request head.
pub fn is_end_of_head(line: &[u8]) -> (r: bool)
    ensures
        r == (line@ == seq![13u8, 10u8]),
{
    let r = line.len() == 2 && line[0] == 13 && line[1] == 10;
    proof {
        if r {
            assert(line@ =~= seq![13u8, 10u8]);
        }
    }
    r
}


/// The byte classes of the grammar, byte by byte: `DIGIT` is `0` to `9`; `HEX`
/// adds `a` to `f` and `A` to `F`; `CTL` is 0 to 31 and 127; `TEXT` is every
/// byte from 32 on but 127; `qdtext` is `TEXT` without the double quote; blanks
/// are the space and the tab.
pub proof fn lemma_byte_classes(u: u8)
    ensures
        spec_is_digit(u) <==> 48 <= u && u <= 57,
        spec_is_hex(u) <==> ((48 <= u && u <= 57) || (97 <= u && u <= 102) || (65 <= u && u <= 70)),
        spec_is_ctl(u) <==> (u <= 31 || u == 127),
        spec_is_sp(u) <==> u == 32,
        spec_is_text(u) <==> (32 <= u && u != 127),
        spec_is_qd_text(u) <==> (32 <= u && u != 127 && u != 34),
        is_blank(u) <==> (u == 32 || u == 9),
{
}


/// A token of this module holds no separator: none of its bytes is the space
/// (32) or one of `( ) < > @ , ; : \ " / [ ] ? = { }`; what it leaves is empty or
/// starts with one of them; and it and what it leaves make up the input.
pub proof fn lemma_token_outcome_stops_at_separator(input: Seq<u8>)
    ensures
        token_outcome(input) matches Outcome::Found { subject, rest } && subject + rest == input
            && (forall|i: int|
            0 <= i < subject.len() ==> !(#[trigger] subject[i] == 32 || subject[i] == 40
                || subject[i] == 41 || subject[i] == 60 || subject[i] == 62 || subject[i] == 64
                || subject[i] == 44 || subject[i] == 59 || subject[i] == 58 || subject[i] == 92
                || subject[i] == 34 || subject[i] == 47 || subject[i] == 91 || subject[i] == 93
                || subject[i] == 63 || subject[i] == 61 || subject[i] == 123 || subject[i] == 125))
            && (rest.len() > 0 ==> (rest[0] == 32 || rest[0] == 40 || rest[0] == 41 || rest[0]
            == 60 || rest[0] == 62 || rest[0] == 64 || rest[0] == 44 || rest[0] == 59 || rest[0]
            == 58 || rest[0] == 92 || rest[0] == 34 || rest[0] == 47 || rest[0] == 91 || rest[0]
            == 93 || rest[0] == 63 || rest[0] == 61 || rest[0] == 123 || rest[0] == 125)),
{
    let pred = |u: u8| !spec_is_seperator(u);
    lemma_leading_is_longest(input, pred);
    let n = leading(input, pred);
    assert(input.take(n as int) + input.skip(n as int) =~= input);
    let subject = input.take(n as int);
    let rest = input.skip(n as int);
    assert forall|i: int| 0 <= i < subject.len() implies !spec_is_seperator(#[trigger] subject[i]) by {
        assert(pred(input[i]));
    }
    if rest.len() > 0 {
        assert(rest[0] == input[n as int]);
        assert(spec_is_seperator(rest[0]));
    }
}

/// Linear white space reads back byte by byte: a nonempty run of spaces (32)
/// and tabs (9), followed by anything that does not start with one, is found
/// on the left as the run with each space tagged left and each tab tagged
/// right; after CR LF it is found on the right with the pair (13, 10); what
/// follows the run is left.
pub proof fn lemma_lws_outcome_tags(run: Seq<u8>, after: Seq<u8>)
    requires
        run.len() >= 1,
        forall|i: int| 0 <= i < run.len() ==> (#[trigger] run[i] == 32 || run[i] == 9),
        after.len() > 0 ==> after[0] != 32 && after[0] != 9,
    ensures
        ({
            let tags = Seq::new(
                run.len(),
                |i: int| if run[i] == 32 { Either::Left(32u8) } else { Either::Right(9u8) },
            );
            &&& lws_outcome(run + after) == (Outcome::Found {
                subject: Either::<Seq<Either<u8, u8>>, ((u8, u8), Seq<Either<u8, u8>>)>::Left(tags),
                rest: after,
            })
            &&& lws_outcome(seq![13u8, 10u8] + run + after) == (Outcome::Found {
                subject: Either::<Seq<Either<u8, u8>>, ((u8, u8), Seq<Either<u8, u8>>)>::Right(
                    ((13u8, 10u8), tags),
                ),
                rest: after,
            })
        }),
{
    let pred = |u: u8| is_blank(u);
    assert forall|i: int| 0 <= i < run.len() implies #[trigger] pred(run[i]) by {}
    lemma_leading_of_run(run, after, pred);
    let input = run + after;
    assert(input.skip(run.len() as int) =~= after);
    let tags = Seq::new(
        run.len(),
        |i: int| if run[i] == 32 { Either::Left(32u8) } else { Either::Right(9u8) },
    );
    assert(Seq::new(run.len(), |i: int| tag_blank(input[i])) =~= tags);
    let folded = seq![13u8, 10u8] + run + after;
    assert(folded[0] == 13u8);
    assert(folded[1] == 10u8);
    assert(folded.skip(2) =~= input);
    assert(leading(folded, pred) == 0);
}

} // verus!
