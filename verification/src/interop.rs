//! Errors handed back to the scripting runtime.

use vstd::prelude::*;
use bevy_mod_scripting_bindings::InteropError;

verus! {

/// The scripting runtime's error type.
#[verifier::external_type_specification]
#[verifier::external_body]
pub struct ExInteropError(InteropError);

/// The standard I/O error type, which carries a message.
#[verifier::external_type_specification]
#[verifier::external_body]
pub struct ExIoError(std::io::Error);

/// The text an I/O error of kind `Other` displays: `Some(t)` when the error
/// is of kind `Other` and its `Display` gives `t`, `None` for another kind.
pub uninterp spec fn other_io_error_text(e: std::io::Error) -> Option<Seq<char>>;

/// The text an external scripting-runtime error carries: `Some(t)` when the
/// error is the variant `External` around an I/O error of kind `Other` that
/// displays `t`, `None` otherwise.
pub uninterp spec fn external_error_text(e: InteropError) -> Option<Seq<char>>;

/// Calls `std::io::Error::other`. The claim: the result is of kind `Other`
/// and displays `message` (a custom error displays the error it holds, and
/// a `String` displays itself).
#[verifier::external_body]
fn io_error_other(message: String) -> (r: std::io::Error)
    ensures
        other_io_error_text(r) == Some(message@),
{
    std::io::Error::other(message)
}

/// Calls `InteropError::external` of `bevy_mod_scripting_bindings`, which
/// builds the variant `External` around `error`. The claim: when `error` is
/// of kind `Other`, the result is `External` and carries the text `error`
/// displays.
#[verifier::external_body]
fn external_interop_error(error: std::io::Error) -> (r: InteropError)
    ensures
        other_io_error_text(error) is Some ==> external_error_text(r) == other_io_error_text(error),
{
    InteropError::external(error)
}

/// An external scripting-runtime error, wrapping an I/O error of kind
/// `Other`, that carries exactly `message`.
pub fn interop_error(message: String) -> (r: InteropError)
    ensures
        external_error_text(r) == Some(message@),
{
    external_interop_error(io_error_other(message))
}

} // verus!
