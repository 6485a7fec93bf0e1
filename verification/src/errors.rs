//! The error taxonomy of the library.

use vstd::prelude::*;

verus! {

/// Every failure a stack or call stack operation can report.
///
/// Construction-time failures: [`Error::ProgramAlreadyExists`],
/// [`Error::IncorrectNetworkDomain`], [`Error::NoFunctions`] and
/// [`Error::MalformedProgram`].  Resolution failures name the missing
/// resource kind.  [`Error::NoMoreRequests`] is the call stack underflow.
/// [`Error::CallDepthExceeded`] and [`Error::TooManyCalls`] bound the
/// static call-graph accounting.
#[derive(Clone, Copy, Debug, PartialEq, Eq, Structural)]
pub enum Error {
    /// The process already holds a program with this identifier.
    ProgramAlreadyExists,
    /// The program identifier's network-level domain is not this network's.
    IncorrectNetworkDomain,
    /// The program declares no functions.
    NoFunctions,
    /// The program breaks a well-formedness rule, so its canonical
    /// serialized forms cannot be produced or do not read back.
    MalformedProgram,
    /// No external stack is linked under the given program identifier.
    UnknownExternalProgram,
    /// The stack's own program was requested as an external program.
    SelfReferentialExternal,
    /// The function is not declared in the program.
    UnknownFunction,
    /// The record type is not declared in the resolved program.
    UnknownRecord,
    /// No register types were stored under the given name.
    UnknownRegisterTypes,
    /// No proving key is cached for the function.
    ProvingKeyNotFound,
    /// No verifying key is cached for the function.
    VerifyingKeyNotFound,
    /// A request was popped or peeked from an empty call stack.
    NoMoreRequests,
    /// Call-graph accounting ran out of recursion fuel; the import or
    /// call graph is deeper than any acyclic graph of this size can be.
    CallDepthExceeded,
    /// The static number of calls does not fit in a machine word.
    TooManyCalls,
}

} // verus!
