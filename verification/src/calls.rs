//! Calls that keep a record of their outcome.
//!
//! What an outside function hands back may rest on the machine, so that no formula
//! gives it. That a value is what such a function handed back can still be said:
//! `call_ensures` relates the function, its arguments and its result. These functions
//! make a call and say so.
use vstd::prelude::*;

verus! {

/// Calls `f` without arguments.
pub(crate) fn outcome<R, F: Fn() -> R>(f: F) -> (r: R)
    requires
        call_requires(f, ()),
    ensures
        call_ensures(f, (), r),
{
    f()
}

/// Calls `f` on `a`.
pub(crate) fn outcome_of<A, R, F: Fn(A) -> R>(f: F, a: A) -> (r: R)
    requires
        call_requires(f, (a,)),
    ensures
        call_ensures(f, (a,), r),
{
    f(a)
}

/// Calls `f` on `a` and `b`.
pub(crate) fn outcome_of_two<A, B, R, F: Fn(A, B) -> R>(f: F, a: A, b: B) -> (r: R)
    requires
        call_requires(f, (a, b)),
    ensures
        call_ensures(f, (a, b), r),
{
    f(a, b)
}

/// Calls `f` on `a`, `b` and `c`.
pub(crate) fn outcome_of_three<A, B, C, R, F: Fn(A, B, C) -> R>(f: F, a: A, b: B, c: C) -> (r: R)
    requires
        call_requires(f, (a, b, c)),
    ensures
        call_ensures(f, (a, b, c), r),
{
    f(a, b, c)
}

} // verus!
