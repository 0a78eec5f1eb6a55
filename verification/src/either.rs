//! A plain sum of two values.
use vstd::prelude::*;

verus! {

/// One of two values: the left alternative or the right one.
#[derive(Debug, PartialEq, Eq)]
pub enum Either<A, B> {
    Left(A),
    Right(B),
}

impl<A: DeepView, B: DeepView> DeepView for Either<A, B> {
    type V = Either<A::V, B::V>;

    open spec fn deep_view(&self) -> Either<A::V, B::V> {
        match self {
            Either::Left(a) => Either::Left(a.deep_view()),
            Either::Right(b) => Either::Right(b.deep_view()),
        }
    }
}

/// The value an `Either` of one type holds, whichever side it is on.
pub open spec fn unified<A>(e: Either<A, A>) -> A {
    match e {
        Either::Left(a) => a,
        Either::Right(a) => a,
    }
}

impl<A> Either<A, A> {
    /// Gives back the value held, whichever side it is on.
    pub fn unify(self) -> (a: A)
        ensures
            a == unified(self),
    {
        match self {
            Self::Left(a) => a,
            Self::Right(a) => a,
        }
    }
}

} // verus!
