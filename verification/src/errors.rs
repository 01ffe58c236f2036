//! A short-circuiting hybrid of `Result` and `Option`.

use core::convert::Infallible;
use core::ops::ControlFlow;
use vstd::prelude::*;

verus! {

/// A value that is either present, failed, or absent, combining the two
/// short-circuiting outcomes of `Result` and `Option` in one type.
pub enum OptionalResult<Value, E> {
    /// The operation produced a value.
    Present(Value),
    /// The operation failed.
    Failure(E),
    /// The operation produced nothing, and did not fail.
    Absent,
}

impl<Value, E> From<Result<Value, E>> for OptionalResult<Value, E> {
    fn from(value: Result<Value, E>) -> Self {
        match value {
            Ok(v) => OptionalResult::Present(v),
            Err(e) => OptionalResult::Failure(e),
        }
    }
}

impl<Value, E> vstd::std_specs::convert::FromSpecImpl<Result<Value, E>> for OptionalResult<Value, E> {
    open spec fn obeys_from_spec() -> bool {
        true
    }

    open spec fn from_spec(value: Result<Value, E>) -> Self {
        match value {
            Ok(v) => OptionalResult::Present(v),
            Err(e) => OptionalResult::Failure(e),
        }
    }
}

impl<Value, E> From<Option<Value>> for OptionalResult<Value, E> {
    fn from(value: Option<Value>) -> Self {
        match value {
            Option::None => OptionalResult::Absent,
            Option::Some(v) => OptionalResult::Present(v),
        }
    }
}

impl<Value, E> vstd::std_specs::convert::FromSpecImpl<Option<Value>> for OptionalResult<Value, E> {
    open spec fn obeys_from_spec() -> bool {
        true
    }

    open spec fn from_spec(value: Option<Value>) -> Self {
        match value {
            Option::None => OptionalResult::Absent,
            Option::Some(v) => OptionalResult::Present(v),
        }
    }
}

impl<Value, E> From<Option<Result<Value, E>>> for OptionalResult<Value, E> {
    fn from(value: Option<Result<Value, E>>) -> Self {
        match value {
            Option::None => OptionalResult::Absent,
            Option::Some(Ok(v)) => OptionalResult::Present(v),
            Option::Some(Err(e)) => OptionalResult::Failure(e),
        }
    }
}

impl<Value, E> vstd::std_specs::convert::FromSpecImpl<Option<Result<Value, E>>> for OptionalResult<Value, E> {
    open spec fn obeys_from_spec() -> bool {
        true
    }

    open spec fn from_spec(value: Option<Result<Value, E>>) -> Self {
        match value {
            Option::None => OptionalResult::Absent,
            Option::Some(Ok(v)) => OptionalResult::Present(v),
            Option::Some(Err(e)) => OptionalResult::Failure(e),
        }
    }
}

impl<Value, E> From<Result<Option<Value>, E>> for OptionalResult<Value, E> {
    fn from(value: Result<Option<Value>, E>) -> Self {
        match value {
            Ok(Option::None) => OptionalResult::Absent,
            Ok(Option::Some(v)) => OptionalResult::Present(v),
            Err(e) => OptionalResult::Failure(e),
        }
    }
}

impl<Value, E> vstd::std_specs::convert::FromSpecImpl<Result<Option<Value>, E>> for OptionalResult<Value, E> {
    open spec fn obeys_from_spec() -> bool {
        true
    }

    open spec fn from_spec(value: Result<Option<Value>, E>) -> Self {
        match value {
            Ok(Option::None) => OptionalResult::Absent,
            Ok(Option::Some(v)) => OptionalResult::Present(v),
            Err(e) => OptionalResult::Failure(e),
        }
    }
}

impl<Value, E> OptionalResult<Value, E> {
    /// Decomposes the hybrid as the short-circuiting operator would: a
    /// present value continues the computation, a failure or an absence
    /// breaks out, carried as the residual.
    pub fn branch(self) -> (cf: ControlFlow<OptionalResult<Infallible, E>, Value>)
        ensures
            cf == (match self {
                OptionalResult::Present(v) => ControlFlow::<
                    OptionalResult<Infallible, E>,
                    Value,
                >::Continue(v),
                OptionalResult::Failure(e) => ControlFlow::Break(OptionalResult::Failure(e)),
                OptionalResult::Absent => ControlFlow::Break(OptionalResult::Absent),
            }),
    {
        match self {
            OptionalResult::Present(v) => ControlFlow::Continue(v),
            OptionalResult::Failure(e) => ControlFlow::Break(OptionalResult::Failure(e)),
            OptionalResult::Absent => ControlFlow::Break(OptionalResult::Absent),
        }
    }

    /// Wraps the output of a completed computation, as resuming from the
    /// short-circuiting operator would.
    pub fn from_output(value: Value) -> (r: Self)
        ensures
            r == OptionalResult::<Value, E>::Present(value),
    {
        OptionalResult::Present(value)
    }

    /// Rebuilds the outcome that a short-circuit carried out of [`Self::branch`].
    /// A residual never holds a present value, which its value type
    /// (`Infallible`, the empty type) also rules out.
    pub fn from_residual(residual: OptionalResult<Infallible, E>) -> (r: Self)
        requires
            !(residual is Present),
        ensures
            r == (match residual {
                OptionalResult::Failure(e) => OptionalResult::<Value, E>::Failure(e),
                _ => OptionalResult::<Value, E>::Absent,
            }),
    {
        match residual {
            OptionalResult::Present(_) => vstd::pervasive::unreached(),
            OptionalResult::Failure(e) => OptionalResult::Failure(e),
            OptionalResult::Absent => OptionalResult::Absent,
        }
    }

    /// Rebuilds the outcome that a short-circuit out of a `Result` carried.
    /// A residual never holds an `Ok` value, which its value type
    /// (`Infallible`, the empty type) also rules out.
    pub fn from_result_residual(residual: Result<Infallible, E>) -> (r: Self)
        requires
            !(residual is Ok),
        ensures
            r == (match residual {
                Err(e) => OptionalResult::<Value, E>::Failure(e),
                _ => OptionalResult::<Value, E>::Absent,
            }),
    {
        match residual {
            Ok(_) => vstd::pervasive::unreached(),
            Err(e) => OptionalResult::Failure(e),
        }
    }

    /// Rebuilds the outcome that a short-circuit out of an `Option` carried:
    /// always the absence.  A residual never holds a `Some` value, which its
    /// value type (`Infallible`, the empty type) also rules out.
    pub fn from_option_residual(residual: Option<Infallible>) -> (r: Self)
        requires
            !(residual is Some),
        ensures
            r == OptionalResult::<Value, E>::Absent,
    {
        match residual {
            Option::Some(_) => vstd::pervasive::unreached(),
            Option::None => OptionalResult::Absent,
        }
    }
}

} // verus!
