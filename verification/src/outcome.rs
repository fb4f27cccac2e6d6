//! The ways in which a source text is refused, and results that carry them.

use vstd::prelude::*;

verus! {

/// What a statement asks for at a place where the parser looks at the token.
#[derive(Clone, Copy, Debug, PartialEq, Eq)]
pub enum Expected {
    /// The name of a declaration: an identifier.
    Name,
    /// The value of a declaration: a literal.
    Value,
    /// The argument of a `print` call: a literal.
    Argument,
}

/// Why a source text cannot be compiled. Each of them ends the work:
/// nothing is recovered and no partial result is given. None of them says
/// where in the source the fault lies.
#[derive(Clone, Copy, Debug, PartialEq, Eq)]
pub enum CompileError {
    /// A run of digits writes a number above `i32::MAX`.
    MalformedInteger,
    /// A token of another kind stands where a declaration or a `print` call
    /// asks for what is named.
    UnexpectedToken(Expected),
    /// The tokens end where a declaration or a `print` call asks for what is
    /// named.
    TruncatedInput(Expected),
}

/// `head` followed by what `rest` holds; the failure of `rest`, if it is one.
pub open spec fn prepend<T>(head: Seq<T>, rest: Result<Seq<T>, CompileError>) -> Result<
    Seq<T>,
    CompileError,
> {
    match rest {
        Ok(tail) => Ok(head + tail),
        Err(e) => Err(e),
    }
}

/// The two results one after the other; the failure of the first that failed.
pub open spec fn join<T>(
    first: Result<Seq<T>, CompileError>,
    second: Result<Seq<T>, CompileError>,
) -> Result<Seq<T>, CompileError> {
    match first {
        Ok(head) => prepend(head, second),
        Err(e) => Err(e),
    }
}

/// The result that holds `item` and nothing else.
pub open spec fn only<T>(item: T) -> Result<Seq<T>, CompileError> {
    Ok(seq![item])
}

/// The result that holds nothing.
pub open spec fn nothing<T>() -> Result<Seq<T>, CompileError> {
    Ok(Seq::empty())
}

/// A result seen through the view of what it holds.
pub open spec fn result_view<T: DeepView>(r: Result<T, CompileError>) -> Result<
    T::V,
    CompileError,
> {
    match r {
        Ok(value) => Ok(value.deep_view()),
        Err(e) => Err(e),
    }
}

/// Prepending nothing changes nothing, and prepending twice is prepending
/// the two heads at once.
pub proof fn lemma_prepend<T>(a: Seq<T>, b: Seq<T>, rest: Result<Seq<T>, CompileError>)
    ensures
        prepend(Seq::<T>::empty(), rest) == rest,
        prepend(a, prepend(b, rest)) == prepend(a + b, rest),
{
    match rest {
        Ok(tail) => {
            assert(a + (b + tail) =~= (a + b) + tail);
        },
        Err(_) => {},
    }
}

} // verus!
