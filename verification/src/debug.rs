//! Showing a struct through a formatter of std, one call at a time.
use crate::calls::{outcome_of, outcome_of_three, outcome_of_two};
use std::fmt;
use vstd::prelude::*;

verus! {

/// The type [`std::fmt::Formatter`], carried through as it is.
#[verifier::external_type_specification]
#[verifier::external_body]
pub struct ExFormatter<'a>(fmt::Formatter<'a>);

/// The type [`std::fmt::Error`], carried through as it is.
#[verifier::external_type_specification]
#[verifier::external_body]
pub struct ExFmtError(fmt::Error);

/// The type [`std::fmt::DebugStruct`], carried through as it is.
#[verifier::external_type_specification]
#[verifier::external_body]
pub struct ExDebugStruct<'a, 'b: 'a>(fmt::DebugStruct<'a, 'b>);

/// [`std::fmt::Formatter::debug_struct`]. Nothing is said of what the formatter
/// writes.
#[verifier::external_body]
fn debug_struct<'a, 'b>(
    f: &'b mut fmt::Formatter<'a>,
    name: &str,
) -> fmt::DebugStruct<'b, 'a> {
    f.debug_struct(name)
}

/// [`std::fmt::DebugStruct::field`]. Nothing is said of what the formatter writes.
#[verifier::external_body]
fn debug_field<E: fmt::Debug>(
    out: &mut fmt::DebugStruct<'_, '_>,
    name: &str,
    value: &E,
) {
    out.field(name, value);
}

/// [`std::fmt::DebugStruct::finish`]. Nothing is said of what the formatter writes.
#[verifier::external_body]
fn debug_finish(out: &mut fmt::DebugStruct<'_, '_>) -> fmt::Result {
    out.finish()
}

/// `out` is what the formatter behind `f` begins a struct of this name with.
pub closed spec fn begins<'a, 'b>(
    f: &'b mut fmt::Formatter<'a>,
    name: &str,
    out: fmt::DebugStruct<'b, 'a>,
) -> bool {
    call_ensures(debug_struct, (f, name), out)
}

/// A field of this name and value is written behind `out`.
pub closed spec fn writes<E: fmt::Debug>(
    out: &mut fmt::DebugStruct<'_, '_>,
    name: &str,
    value: &E,
) -> bool {
    call_ensures(debug_field::<E>, (out, name, value), ())
}

/// The struct behind `out` is ended with this result.
pub closed spec fn ends(
    out: &mut fmt::DebugStruct<'_, '_>,
    result: fmt::Result,
) -> bool {
    call_ensures(debug_finish, (out,), result)
}

/// Begins a struct of this name.
pub(crate) fn begin<'a, 'b>(f: &'b mut fmt::Formatter<'a>, name: &str) -> (out: fmt::DebugStruct<
    'b,
    'a,
>)
    ensures
        exists|g: &mut fmt::Formatter<'a>| #[trigger]
            begins(g, name, out) && *g == *old(f) && *final(g) == *final(f),
{
    let out = outcome_of_two(debug_struct, f, name);
    proof {
        let g = choose|g: &mut fmt::Formatter<'a>| #[trigger]
            call_ensures(debug_struct, (g, name), out) && *g == *old(f) && *final(g) == *final(f);
        assert(begins(g, name, out));
    }
    out
}

/// Writes a field of this name and value.
pub(crate) fn write_field<E: fmt::Debug>(
    out: &mut fmt::DebugStruct<'_, '_>,
    name: &str,
    value: &E,
)
    ensures
        exists|o: &mut fmt::DebugStruct<'_, '_>| #[trigger]
            writes(o, name, value) && *o == *old(out) && *final(o) == *final(out),
{
    outcome_of_three(debug_field::<E>, out, name, value);
    proof {
        let o = choose|o: &mut fmt::DebugStruct<'_, '_>| #[trigger]
            call_ensures(debug_field::<E>, (o, name, value), ()) && *o == *old(out) && *final(o)
                == *out;
        assert(writes(o, name, value));
    }
}

/// Ends a struct.
pub(crate) fn end(out: &mut fmt::DebugStruct<'_, '_>) -> (result: fmt::Result)
    ensures
        exists|o: &mut fmt::DebugStruct<'_, '_>| #[trigger]
            ends(o, result) && *o == *old(out),
{
    let result = outcome_of(debug_finish, out);
    proof {
        let o = choose|o: &mut fmt::DebugStruct<'_, '_>| #[trigger]
            call_ensures(debug_finish, (o,), result) && *o == *old(out);
        assert(ends(o, result));
    }
    result
}

/// What is said to be begun, written or ended came of the call that does it.
proof fn law_shown_is_called<'a, 'b, E: fmt::Debug>(
    f: &'b mut fmt::Formatter<'a>,
    name: &str,
    out: fmt::DebugStruct<'b, 'a>,
    behind: &mut fmt::DebugStruct<'_, '_>,
    value: &E,
    result: fmt::Result,
)
    ensures
        begins(f, name, out) ==> call_ensures(debug_struct, (f, name), out),
        writes(behind, name, value) ==> call_ensures(debug_field::<E>, (behind, name, value), ()),
        ends(behind, result) ==> call_ensures(debug_finish, (behind,), result),
{
}

} // verus!
