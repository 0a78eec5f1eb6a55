//! Parser combinators over byte slices.
//!
//! A parser looks at the front of its input and either finds something there,
//! giving back what it found and the input that follows it, or misses.
use crate::either::{unified, Either};
use vstd::prelude::*;
use vstd::slice::slice_subrange;

verus! {

/// What a parse gives, over mathematical values: what was found together
/// with the input left after it, or a miss together with the input it leaves.
pub enum Outcome<V> {
    Found { subject: V, rest: Seq<u8> },
    Missed { rest: Seq<u8> },
}

impl<V> Outcome<V> {
    /// The input an outcome leaves, found or not.
    pub open spec fn rest(self) -> Seq<u8> {
        match self {
            Outcome::Found { rest, .. } => rest,
            Outcome::Missed { rest } => rest,
        }
    }
}

/// `rest` is what is left of `input` once some prefix of it has been taken.
pub open spec fn is_suffix_of(rest: Seq<u8>, input: Seq<u8>) -> bool {
    rest.len() <= input.len() && rest =~= input.skip(input.len() - rest.len())
}

/// The result of running a parser on `&'i [u8]`.
#[derive(PartialEq, Eq)]
pub enum ParseResult<'i, T> {
    Found { subject: T, rest: &'i [u8] },
    Missed { rest: &'i [u8] },
}

impl<'i, T: DeepView> View for ParseResult<'i, T> {
    type V = Outcome<T::V>;

    open spec fn view(&self) -> Outcome<T::V> {
        match self {
            ParseResult::Found { subject, rest } => Outcome::Found {
                subject: subject.deep_view(),
                rest: rest@,
            },
            ParseResult::Missed { rest } => Outcome::Missed { rest: rest@ },
        }
    }
}

impl<'i, T> ParseResult<'i, T> {
    /// Applies `op` to what was found; a miss stays a miss. The rest is kept.
    pub fn map<U, F>(self, op: F) -> (r: ParseResult<'i, U>) where F: FnOnce(T) -> U
        requires
            self matches ParseResult::Found { subject, .. } ==> call_requires(op, (subject,)),
        ensures
            match self {
                ParseResult::Found { subject, rest } => r matches ParseResult::Found {
                    subject: u,
                    rest: r_rest,
                } && r_rest == rest && call_ensures(op, (subject,), u),
                ParseResult::Missed { rest } => r matches ParseResult::Missed { rest: r_rest }
                    && r_rest == rest,
            },
    {
        match self {
            Self::Found { subject, rest } => ParseResult::Found { subject: op(subject), rest },
            Self::Missed { rest } => ParseResult::Missed { rest },
        }
    }

    /// Goes on with `op` from what was found and the rest after it; a miss stays a miss.
    pub fn and_then<U, F>(self, op: F) -> (r: ParseResult<'i, U>) where
        F: FnOnce(T, &'i [u8]) -> ParseResult<'i, U>,

        requires
            self matches ParseResult::Found { subject, rest } ==> call_requires(
                op,
                (subject, rest),
            ),
        ensures
            match self {
                ParseResult::Found { subject, rest } => call_ensures(op, (subject, rest), r),
                ParseResult::Missed { rest } => r matches ParseResult::Missed { rest: r_rest }
                    && r_rest == rest,
            },
    {
        match self {
            Self::Found { subject, rest } => op(subject, rest),
            Self::Missed { rest } => ParseResult::Missed { rest },
        }
    }

    /// Keeps what was found as the left alternative; on a miss, runs `op` and
    /// gives its result as the right alternative.
    pub fn or_else<U, F>(self, op: F) -> (r: ParseResult<'i, Either<T, U>>) where
        F: FnOnce() -> ParseResult<'i, U>,

        requires
            self is Missed ==> call_requires(op, ()),
        ensures
            match self {
                ParseResult::Found { subject, rest } => r == ParseResult::Found {
                    subject: Either::<T, U>::Left(subject),
                    rest,
                },
                ParseResult::Missed { .. } => match r {
                    ParseResult::Found { subject, rest } => subject matches Either::Right(u)
                        && call_ensures(op, (), ParseResult::Found { subject: u, rest }),
                    ParseResult::Missed { rest } => exists|o: ParseResult<'i, U>|
                        #![trigger call_ensures(op, (), o)]
                        (o matches ParseResult::Missed { rest: o_rest } && o_rest == rest)
                            && call_ensures(op, (), o),
                },
            },
    {
        match self {
            Self::Found { subject, rest } => ParseResult::Found { subject: Either::Left(subject), rest },
            Self::Missed { .. } => op().map(|u: U| -> (e: Either<T, U>)
                ensures
                    e == Either::<T, U>::Right(u),
                { Either::Right(u) }),
        }
    }
}


/// A parser of byte input whose outcome on every input is stated by `spec_parse`.
pub trait Parser: Sized {
    /// What the parser gives when it finds something.
    type Out: DeepView;

    /// The outcome of parsing `input`.
    spec fn spec_parse(&self, input: Seq<u8>) -> Outcome<<Self::Out as DeepView>::V>;

    /// A parser only ever takes a prefix of its input: what any outcome leaves
    /// is a suffix of the input.
    proof fn lemma_rest_is_suffix(&self, input: Seq<u8>)
        ensures
            is_suffix_of(self.spec_parse(input).rest(), input),
    ;

    /// Parses the front of `input`.
    fn parse<'i>(&self, input: &'i [u8]) -> (r: ParseResult<'i, Self::Out>)
        ensures
            r@ == self.spec_parse(input@),
    ;

    /// This parser, with `op` applied to what it finds.
    fn map<M: Mapper<Self::Out>>(self, op: M) -> (p: MapParser<Self, M>)
        ensures
            p.parser == self,
            p.op == op,
    {
        MapParser { parser: self, op }
    }

    /// This parser, or `b` where this one misses.
    fn or<P>(self, b: P) -> (p: OrParser<Self, P>)
        ensures
            p.a == self,
            p.b == b,
    {
        OrParser { a: self, b }
    }

    /// This parser followed by `b`.
    fn and<P>(self, b: P) -> (p: AndParser<Self, P>)
        ensures
            p.a == self,
            p.b == b,
    {
        AndParser { a: self, b }
    }

    /// Any number of repetitions of this parser, taken greedily.
    fn span(self) -> (p: SpanParser<Self>)
        ensures
            p.parser == self,
            p.min == 0,
            p.max == usize::MAX,
    {
        self.bounded_span(0, usize::MAX)
    }

    /// Between `min` and `max` repetitions of this parser, taken greedily.
    fn bounded_span(self, min: usize, max: usize) -> (p: SpanParser<Self>)
        ensures
            p.parser == self,
            p.min == min,
            p.max == max,
    {
        SpanParser { parser: self, min, max }
    }
}

/// A set of bytes, with a test for membership.
pub trait ByteClass {
    /// Whether `u` belongs to the class.
    spec fn spec_matches(&self, u: u8) -> bool;

    /// Tells whether `u` belongs to the class.
    fn matches(&self, u: u8) -> (r: bool)
        ensures
            r == self.spec_matches(u),
    ;
}

/// A function applied to what a parser finds.
pub trait Mapper<In: DeepView> {
    /// What the function gives.
    type Out: DeepView;

    /// The function, over mathematical values.
    spec fn spec_apply(&self, x: In::V) -> <Self::Out as DeepView>::V;

    /// Applies the function.
    fn apply(&self, x: In) -> (y: Self::Out)
        ensures
            y.deep_view() == self.spec_apply(x.deep_view()),
    ;
}

/// Greedy repetition of `parser`, between `min` and `max` times.
pub struct SpanParser<P> {
    pub parser: P,
    pub min: usize,
    pub max: usize,
}

/// `a` followed by `b`.
pub struct AndParser<A, B> {
    pub a: A,
    pub b: B,
}

/// `a`, or `b` where `a` misses.
pub struct OrParser<A, B> {
    pub a: A,
    pub b: B,
}

/// `parser` with `op` applied to what it finds.
pub struct MapParser<P, M> {
    pub parser: P,
    pub op: M,
}

/// Takes exactly `term` from the front of the input.
pub struct TermParser<'t> {
    pub term: &'t [u8],
}

/// `term` is the beginning of `input`.
pub open spec fn starts_with(input: Seq<u8>, term: Seq<u8>) -> bool {
    term.len() <= input.len() && input.take(term.len() as int) =~= term
}

/// Tells whether `term` is the beginning of `input`.
fn bytes_start_with(input: &[u8], term: &[u8]) -> (b: bool)
    ensures
        b == starts_with(input@, term@),
{
    if input.len() < term.len() {
        return false;
    }
    let mut i: usize = 0;
    while i < term.len()
        invariant
            term@.len() <= input@.len(),
            i <= term@.len(),
            forall|j: int| 0 <= j < i ==> input@[j] == term@[j],
        decreases term@.len() - i,
    {
        if input[i] != term[i] {
            assert(input@.take(term@.len() as int)[i as int] != term@[i as int]);
            return false;
        }
        i = i + 1;
    }
    true
}

impl<'t> TermParser<'t> {
    /// A parser of exactly `term`.
    pub fn new(term: &'t [u8]) -> (p: Self)
        ensures
            p.term == term,
    {
        Self { term }
    }
}

impl<'t> Parser for TermParser<'t> {
    type Out = &'t [u8];

    open spec fn spec_parse(&self, input: Seq<u8>) -> Outcome<Seq<u8>> {
        if starts_with(input, self.term@) {
            Outcome::Found { subject: self.term@, rest: input.skip(self.term@.len() as int) }
        } else {
            Outcome::Missed { rest: input }
        }
    }

    proof fn lemma_rest_is_suffix(&self, input: Seq<u8>) {
    }

    fn parse<'i>(&self, input: &'i [u8]) -> (r: ParseResult<'i, &'t [u8]>) {
        if bytes_start_with(input, self.term) {
            proof {
                assert(self.term.deep_view() =~= self.term@);
            }
            ParseResult::Found {
                subject: self.term,
                rest: slice_subrange(input, self.term.len(), input.len()),
            }
        } else {
            ParseResult::Missed { rest: input }
        }
    }
}

/// Takes one byte of the class `matcher` from the front of the input.
pub struct MatchParser<C> {
    pub matcher: C,
}

impl<C: ByteClass> MatchParser<C> {
    /// A parser of one byte of the class `matcher`.
    pub fn new(matcher: C) -> (p: Self)
        ensures
            p.matcher == matcher,
    {
        Self { matcher }
    }
}

/// The outcome of taking one byte that satisfies `pred` from the front of `input`.
pub open spec fn one_byte(input: Seq<u8>, pred: spec_fn(u8) -> bool) -> Outcome<u8> {
    if input.len() > 0 && pred(input[0]) {
        Outcome::Found { subject: input[0], rest: input.skip(1) }
    } else {
        Outcome::Missed { rest: input }
    }
}

impl<C: ByteClass> Parser for MatchParser<C> {
    type Out = u8;

    open spec fn spec_parse(&self, input: Seq<u8>) -> Outcome<u8> {
        one_byte(input, |u: u8| self.matcher.spec_matches(u))
    }

    proof fn lemma_rest_is_suffix(&self, input: Seq<u8>) {
    }

    fn parse<'i>(&self, input: &'i [u8]) -> (r: ParseResult<'i, u8>) {
        match input.first() {
            Some(a) => {
                let a = *a;
                if self.matcher.matches(a) {
                    ParseResult::Found { subject: a, rest: slice_subrange(input, 1, input.len()) }
                } else {
                    ParseResult::Missed { rest: input }
                }
            },
            None => ParseResult::Missed { rest: input },
        }
    }
}


impl<P: Parser, M: Mapper<P::Out>> Parser for MapParser<P, M> {
    type Out = M::Out;

    open spec fn spec_parse(&self, input: Seq<u8>) -> Outcome<<M::Out as DeepView>::V> {
        match self.parser.spec_parse(input) {
            Outcome::Found { subject, rest } => Outcome::Found {
                subject: self.op.spec_apply(subject),
                rest,
            },
            Outcome::Missed { rest } => Outcome::Missed { rest },
        }
    }

    proof fn lemma_rest_is_suffix(&self, input: Seq<u8>) {
        self.parser.lemma_rest_is_suffix(input);
    }

    fn parse<'i>(&self, input: &'i [u8]) -> (r: ParseResult<'i, M::Out>) {
        let f = |x: P::Out| -> (y: M::Out)
            ensures
                y.deep_view() == self.op.spec_apply(x.deep_view()),
            {
                self.op.apply(x)
            };
        self.parser.parse(input).map(f)
    }
}

impl<A: Parser, B: Parser> Parser for OrParser<A, B> {
    type Out = Either<A::Out, B::Out>;

    open spec fn spec_parse(&self, input: Seq<u8>) -> Outcome<
        Either<<A::Out as DeepView>::V, <B::Out as DeepView>::V>,
    > {
        match self.a.spec_parse(input) {
            Outcome::Found { subject, rest } => Outcome::Found { subject: Either::Left(subject), rest },
            Outcome::Missed { .. } => match self.b.spec_parse(input) {
                Outcome::Found { subject, rest } => Outcome::Found {
                    subject: Either::Right(subject),
                    rest,
                },
                Outcome::Missed { rest } => Outcome::Missed { rest },
            },
        }
    }

    proof fn lemma_rest_is_suffix(&self, input: Seq<u8>) {
        self.a.lemma_rest_is_suffix(input);
        self.b.lemma_rest_is_suffix(input);
    }

    fn parse<'i>(&self, input: &'i [u8]) -> (r: ParseResult<'i, Either<A::Out, B::Out>>) {
        let otherwise = || -> (o: ParseResult<'i, B::Out>)
            ensures
                o@ == self.b.spec_parse(input@),
            {
                self.b.parse(input)
            };
        self.a.parse(input).or_else(otherwise)
    }
}

impl<A: Parser, B: Parser> Parser for AndParser<A, B> {
    type Out = (A::Out, B::Out);

    open spec fn spec_parse(&self, input: Seq<u8>) -> Outcome<
        (<A::Out as DeepView>::V, <B::Out as DeepView>::V),
    > {
        match self.a.spec_parse(input) {
            Outcome::Found { subject: x, rest } => match self.b.spec_parse(rest) {
                Outcome::Found { subject: y, rest: after } => Outcome::Found {
                    subject: (x, y),
                    rest: after,
                },
                Outcome::Missed { rest: after } => Outcome::Missed { rest: after },
            },
            Outcome::Missed { rest } => Outcome::Missed { rest },
        }
    }

    proof fn lemma_rest_is_suffix(&self, input: Seq<u8>) {
        self.a.lemma_rest_is_suffix(input);
        if let Outcome::Found { rest, .. } = self.a.spec_parse(input) {
            self.b.lemma_rest_is_suffix(rest);
        }
    }

    fn parse<'i>(&self, input: &'i [u8]) -> (r: ParseResult<'i, (A::Out, B::Out)>) {
        let next = |x: A::Out, x_rest: &'i [u8]| -> (o: ParseResult<'i, (A::Out, B::Out)>)
            ensures
                o@ == (match self.b.spec_parse(x_rest@) {
                    Outcome::Found { subject: y, rest: after } => Outcome::Found {
                        subject: (x.deep_view(), y),
                        rest: after,
                    },
                    Outcome::Missed { rest: after } => Outcome::Missed { rest: after },
                }),
            {
                let pair_with = |y: B::Out| -> (pair: (A::Out, B::Out))
                    ensures
                        pair == (x, y),
                    {
                        (x, y)
                    };
                self.b.parse(x_rest).map(pair_with)
            };
        self.a.parse(input).and_then(next)
    }
}


impl<P: Parser> SpanParser<P> {
    /// The items a greedy run of `self.parser` takes from the front of `input`
    /// when it may take at most `budget` of them, and the input left after them.
    pub open spec fn run(&self, input: Seq<u8>, budget: nat) -> (
        Seq<<P::Out as DeepView>::V>,
        Seq<u8>,
    )
        decreases budget,
    {
        if budget == 0 {
            (Seq::empty(), input)
        } else {
            match self.parser.spec_parse(input) {
                Outcome::Found { subject, rest } => {
                    let (items, left) = self.run(rest, (budget - 1) as nat);
                    (seq![subject] + items, left)
                },
                Outcome::Missed { .. } => (Seq::empty(), input),
            }
        }
    }

    /// A greedy run leaves a suffix of its input and takes at most `budget` items.
    pub proof fn lemma_run_bounds(&self, input: Seq<u8>, budget: nat)
        ensures
            is_suffix_of(self.run(input, budget).1, input),
            self.run(input, budget).0.len() <= budget,
        decreases budget,
    {
        if budget > 0 {
            self.parser.lemma_rest_is_suffix(input);
            if let Outcome::Found { rest, .. } = self.parser.spec_parse(input) {
                self.lemma_run_bounds(rest, (budget - 1) as nat);
            }
        }
    }
}

impl<P: Parser> Parser for SpanParser<P> {
    type Out = Vec<P::Out>;

    open spec fn spec_parse(&self, input: Seq<u8>) -> Outcome<Seq<<P::Out as DeepView>::V>> {
        let (items, left) = self.run(input, self.max as nat);
        if items.len() >= self.min {
            Outcome::Found { subject: items, rest: left }
        } else {
            Outcome::Missed { rest: input }
        }
    }

    proof fn lemma_rest_is_suffix(&self, input: Seq<u8>) {
        self.lemma_run_bounds(input, self.max as nat);
    }

    fn parse<'i>(&self, input: &'i [u8]) -> (r: ParseResult<'i, Vec<P::Out>>) {
        let mut result: Vec<P::Out> = Vec::new();
        let mut rest = input;

        loop
            invariant
                result@.len() <= self.max,
                ({
                    let (items, left) = self.run(rest@, (self.max - result@.len()) as nat);
                    self.run(input@, self.max as nat) == (result.deep_view() + items, left)
                }),
            ensures
                self.run(input@, self.max as nat) == (result.deep_view(), rest@),
            decreases self.max - result@.len(),
        {
            if result.len() >= self.max {
                assert(result.deep_view() + Seq::empty() =~= result.deep_view());
                break;
            }
            match self.parser.parse(rest) {
                ParseResult::Found { subject, rest: new_rest } => {
                    let ghost before = result.deep_view();
                    let ghost item = subject.deep_view();
                    result.push(subject);
                    proof {
                        assert(result.deep_view() =~= before.push(item));
                        let (items, _) = self.run(new_rest@, (self.max - result@.len()) as nat);
                        assert(before + (seq![item] + items) =~= result.deep_view() + items);
                    }
                    rest = new_rest;
                },
                ParseResult::Missed { .. } => {
                    assert(result.deep_view() + Seq::empty() =~= result.deep_view());
                    break;
                },
            }
        }

        if result.len() >= self.min {
            ParseResult::Found { subject: result, rest }
        } else {
            ParseResult::Missed { rest: input }
        }
    }
}

impl<P: Parser> Parser for Box<P> {
    type Out = P::Out;

    open spec fn spec_parse(&self, input: Seq<u8>) -> Outcome<<P::Out as DeepView>::V> {
        (**self).spec_parse(input)
    }

    proof fn lemma_rest_is_suffix(&self, input: Seq<u8>) {
        (**self).lemma_rest_is_suffix(input);
    }

    fn parse<'i>(&self, input: &'i [u8]) -> (r: ParseResult<'i, P::Out>) {
        (**self).parse(input)
    }
}


/// The outcome of taking one byte that satisfies `pred` from the front of
/// `input` and giving `f` of it.
pub open spec fn byte_outcome<V>(input: Seq<u8>, pred: spec_fn(u8) -> bool, f: spec_fn(u8) -> V) -> Outcome<V> {
    if input.len() > 0 && pred(input[0]) {
        Outcome::Found { subject: f(input[0]), rest: input.skip(1) }
    } else {
        Outcome::Missed { rest: input }
    }
}

/// The number of bytes at the front of `input` that satisfy `pred`, up to the
/// first one that does not.
pub open spec fn leading(input: Seq<u8>, pred: spec_fn(u8) -> bool) -> nat
    decreases input.len(),
{
    if input.len() > 0 && pred(input[0]) {
        1 + leading(input.skip(1), pred)
    } else {
        0
    }
}

/// `leading` counts the longest prefix of `input` whose bytes all satisfy `pred`:
/// each byte before it does, and the byte at it, if there is one, does not.
pub proof fn lemma_leading_is_longest(input: Seq<u8>, pred: spec_fn(u8) -> bool)
    ensures
        leading(input, pred) <= input.len(),
        forall|i: int| 0 <= i < leading(input, pred) ==> #[trigger] pred(input[i]),
        leading(input, pred) < input.len() ==> !pred(input[leading(input, pred) as int]),
    decreases input.len(),
{
    if input.len() > 0 && pred(input[0]) {
        let tail = input.skip(1);
        lemma_leading_is_longest(tail, pred);
        assert forall|i: int| 0 <= i < leading(input, pred) implies #[trigger] pred(input[i]) by {
            if i > 0 {
                assert(input[i] == tail[i - 1]);
            }
        }
        if leading(input, pred) < input.len() {
            assert(input[leading(input, pred) as int] == tail[leading(tail, pred) as int]);
        }
    }
}

/// A greedy run of a parser that takes one byte satisfying `pred` and gives
/// `f` of it takes the leading bytes that satisfy `pred`, as many as the budget
/// allows, and gives `f` of each.
pub proof fn lemma_span_of_bytes<P: Parser>(
    span: SpanParser<P>,
    pred: spec_fn(u8) -> bool,
    f: spec_fn(u8) -> <P::Out as DeepView>::V,
    input: Seq<u8>,
    budget: nat,
)
    requires
        forall|s: Seq<u8>| #[trigger] span.parser.spec_parse(s) == byte_outcome(s, pred, f),
    ensures
        ({
            let k = if leading(input, pred) <= budget {
                leading(input, pred)
            } else {
                budget
            };
            span.run(input, budget) == (Seq::new(k, |i: int| f(input[i])), input.skip(k as int))
        }),
    decreases budget,
{
    let _ = span.parser.spec_parse(input);
    if budget > 0 && input.len() > 0 && pred(input[0]) {
        let tail = input.skip(1);
        lemma_span_of_bytes(span, pred, f, tail, (budget - 1) as nat);
        lemma_leading_is_longest(tail, pred);
        let k = if leading(input, pred) <= budget {
            leading(input, pred)
        } else {
            budget
        };
        let k1 = if leading(tail, pred) <= (budget - 1) as nat {
            leading(tail, pred)
        } else {
            (budget - 1) as nat
        };
        assert(k == k1 + 1);
        assert forall|i: int| 0 < i < k implies tail[i - 1] == input[i] by {}
        assert(seq![f(input[0])] + Seq::new(k1, |i: int| f(tail[i])) =~= Seq::new(
            k,
            |i: int| f(input[i]),
        ));
        assert(tail.skip(k1 as int) =~= input.skip(k as int));
    } else {
        assert(input.skip(0) =~= input);
        assert(Seq::new(0, |i: int| f(input[i])) =~= Seq::<<P::Out as DeepView>::V>::empty());
    }
}


/// Takes exactly the byte `expected` from the front of the input.
pub struct CharParser {
    pub expected: u8,
}

impl CharParser {
    /// A parser of exactly the byte `expected`.
    pub fn new(expected: u8) -> (p: Self)
        ensures
            p.expected == expected,
    {
        Self { expected }
    }
}

impl Parser for CharParser {
    type Out = u8;

    open spec fn spec_parse(&self, input: Seq<u8>) -> Outcome<u8> {
        one_byte(input, |u: u8| u == self.expected)
    }

    proof fn lemma_rest_is_suffix(&self, input: Seq<u8>) {
    }

    fn parse<'i>(&self, input: &'i [u8]) -> (r: ParseResult<'i, u8>) {
        if input.len() > 0 && input[0] == self.expected {
            ParseResult::Found { subject: input[0], rest: slice_subrange(input, 1, input.len()) }
        } else {
            ParseResult::Missed { rest: input }
        }
    }
}

/// Takes one byte within the inclusive range `range` from the front of the input.
pub struct RangeParser {
    pub range: core::ops::RangeInclusive<u8>,
}

impl RangeParser {
    /// A parser of one byte within `range`.
    pub fn new(range: core::ops::RangeInclusive<u8>) -> (p: Self)
        ensures
            p.range == range,
    {
        Self { range }
    }

    /// Whether `u` lies within the parser's range.
    pub open spec fn in_range(&self, u: u8) -> bool {
        self.range@.start <= u && if self.range@.exhausted {
            u < self.range@.end
        } else {
            u <= self.range@.end
        }
    }
}

impl Parser for RangeParser {
    type Out = u8;

    open spec fn spec_parse(&self, input: Seq<u8>) -> Outcome<u8> {
        one_byte(input, |u: u8| self.in_range(u))
    }

    proof fn lemma_rest_is_suffix(&self, input: Seq<u8>) {
    }

    fn parse<'i>(&self, input: &'i [u8]) -> (r: ParseResult<'i, u8>) {
        if input.len() > 0 && self.range.contains(&input[0]) {
            ParseResult::Found { subject: input[0], rest: slice_subrange(input, 1, input.len()) }
        } else {
            ParseResult::Missed { rest: input }
        }
    }
}


/// Gives the value an `Either` of one type holds, whichever side it is on.
pub struct Unify;

impl<T: DeepView> Mapper<Either<T, T>> for Unify {
    type Out = T;

    open spec fn spec_apply(&self, x: Either<T::V, T::V>) -> T::V {
        unified(x)
    }

    fn apply(&self, x: Either<T, T>) -> (y: T) {
        x.unify()
    }
}

/// Gives the second part of a pair.
pub struct Second;

impl<A: DeepView, B: DeepView> Mapper<(A, B)> for Second {
    type Out = B;

    open spec fn spec_apply(&self, x: (A::V, B::V)) -> B::V {
        x.1
    }

    fn apply(&self, x: (A, B)) -> (y: B) {
        let (_, b) = x;
        b
    }
}

/// Gives what stands between an opening and a closing part: the body of
/// `((open, body), close)`.
pub struct Enclosed;

impl<A: DeepView, B: DeepView, C: DeepView> Mapper<((A, B), C)> for Enclosed {
    type Out = B;

    open spec fn spec_apply(&self, x: ((A::V, B::V), C::V)) -> B::V {
        x.0.1
    }

    fn apply(&self, x: ((A, B), C)) -> (y: B) {
        let ((_, b), _) = x;
        b
    }
}


/// A greedy run stops early only where the parser misses: when it takes fewer
/// items than its budget, the parser misses on what the run leaves.
pub proof fn lemma_run_stops_at_miss<P: Parser>(span: SpanParser<P>, input: Seq<u8>, budget: nat)
    ensures
        span.run(input, budget).0.len() < budget ==> span.parser.spec_parse(
            span.run(input, budget).1,
        ) is Missed,
    decreases budget,
{
    if budget > 0 {
        if let Outcome::Found { rest, .. } = span.parser.spec_parse(input) {
            lemma_run_stops_at_miss(span, rest, (budget - 1) as nat);
        }
    }
}

/// What a span finds holds between `min` and `max` items; it holds fewer than
/// `max` only where the repeated parser misses on the input left after them; and
/// a span with `min == 0` always finds.
pub proof fn lemma_span_is_greedy<P: Parser>(span: SpanParser<P>, input: Seq<u8>)
    ensures
        span.spec_parse(input) matches Outcome::Found { subject, rest } ==> {
            &&& span.min <= subject.len() <= span.max
            &&& subject.len() < span.max ==> span.parser.spec_parse(rest) is Missed
        },
        span.spec_parse(input) matches Outcome::Missed { rest } ==> rest == input,
        span.min == 0 ==> span.spec_parse(input) is Found,
{
    span.lemma_run_bounds(input, span.max as nat);
    lemma_run_stops_at_miss(span, input, span.max as nat);
}

/// A term parser finds its term at the front of any input that starts with it,
/// and leaves what follows.
pub proof fn lemma_term_finds_prefix<'t>(p: TermParser<'t>, after: Seq<u8>)
    ensures
        p.spec_parse(p.term@ + after) == (Outcome::Found { subject: p.term@, rest: after }),
{
    let input = p.term@ + after;
    assert(input.take(p.term@.len() as int) =~= p.term@);
    assert(input.skip(p.term@.len() as int) =~= after);
}

/// A term parser misses, leaving its input whole, on an input that does not start
/// with its term.
pub proof fn lemma_term_misses_otherwise<'t>(p: TermParser<'t>, input: Seq<u8>)
    requires
        !starts_with(input, p.term@),
    ensures
        p.spec_parse(input) == (Outcome::Missed::<Seq<u8>> { rest: input }),
{
}

/// A term parser compares its term with the input byte for byte: it finds only
/// where every byte of the term stands at the same place at the front of the
/// input, then gives the term and leaves what follows it; where the input is
/// shorter than the term, or differs from it at some place, it misses and leaves
/// the input whole.
pub proof fn lemma_term_parser_compares_bytes<'t>(p: TermParser<'t>, input: Seq<u8>)
    ensures
        p.spec_parse(input) is Found ==> {
            &&& p.term@.len() <= input.len()
            &&& forall|j: int| 0 <= j < p.term@.len() ==> #[trigger] input[j] == p.term@[j]
        },
        p.spec_parse(input) matches Outcome::Found { subject, rest } ==> subject == p.term@
            && rest == input.skip(p.term@.len() as int),
        (p.term@.len() > input.len() || exists|j: int|
            0 <= j < p.term@.len() && #[trigger] input[j] != p.term@[j]) ==> p.spec_parse(input)
            == (Outcome::Missed::<Seq<u8>> { rest: input }),
{
    let term = p.term@;
    if starts_with(input, term) {
        assert forall|j: int| 0 <= j < term.len() implies #[trigger] input[j] == term[j] by {
            assert(input.take(term.len() as int)[j] == input[j]);
        }
    }
}

/// Taking one byte from the front of `u` followed by `after` finds `u`, leaving
/// `after`, exactly when `u` satisfies `pred`; else it leaves the input whole.
pub proof fn lemma_one_byte_front(pred: spec_fn(u8) -> bool, u: u8, after: Seq<u8>)
    ensures
        one_byte(seq![u] + after, pred) == (if pred(u) {
            Outcome::Found { subject: u, rest: after }
        } else {
            Outcome::Missed { rest: seq![u] + after }
        }),
{
    assert((seq![u] + after)[0] == u);
    assert((seq![u] + after).skip(1) =~= after);
}

/// `leading` counts exactly a run of bytes that satisfy `pred` when a byte that
/// does not follows it.
pub proof fn lemma_leading_of_run(run: Seq<u8>, after: Seq<u8>, pred: spec_fn(u8) -> bool)
    requires
        forall|i: int| 0 <= i < run.len() ==> #[trigger] pred(run[i]),
        after.len() > 0 ==> !pred(after[0]),
    ensures
        leading(run + after, pred) == run.len(),
    decreases run.len(),
{
    let input = run + after;
    if run.len() > 0 {
        let tail = run.skip(1);
        assert forall|i: int| 0 <= i < tail.len() implies #[trigger] pred(tail[i]) by {
            assert(tail[i] == run[i + 1]);
        }
        lemma_leading_of_run(tail, after, pred);
        assert(input.skip(1) =~= tail + after);
        assert(pred(run[0]));
    } else {
        assert(input =~= after);
    }
}


/// `u` with a lower-case ASCII letter turned into its upper-case form.
pub open spec fn ascii_upper(u: u8) -> u8 {
    if 97 <= u && u <= 122 {
        (u - 32) as u8
    } else {
        u
    }
}

/// Copies a byte slice, turning lower-case ASCII letters into upper case.
pub struct AsciiUppercase;

impl<'a> Mapper<&'a [u8]> for AsciiUppercase {
    type Out = Vec<u8>;

    open spec fn spec_apply(&self, x: Seq<u8>) -> Seq<u8> {
        x.map_values(|u: u8| ascii_upper(u))
    }

    fn apply(&self, x: &'a [u8]) -> (y: Vec<u8>) {
        let mut out: Vec<u8> = Vec::new();
        let mut i: usize = 0;
        while i < x.len()
            invariant
                i <= x@.len(),
                out@ =~= x@.take(i as int).map_values(|u: u8| ascii_upper(u)),
            decreases x@.len() - i,
        {
            let u = x[i];
            let v = if 97 <= u && u <= 122 {
                u - 32
            } else {
                u
            };
            out.push(v);
            i = i + 1;
            assert(x@.take(i as int) =~= x@.take(i - 1).push(u));
        }
        proof {
            assert(x@.take(i as int) =~= x@);
            assert(out.deep_view() =~= out@);
            assert(x.deep_view() =~= x@);
        }
        out
    }
}

} // verus!
