//! Program-execution layer of a zero-knowledge virtual machine.
//!
//! The library loads a compiled program (a bundle of named functions,
//! closures and record types), links it against the programs it imports,
//! and drives calls into it through the phases that end in a succinct
//! proof of correct execution.  The two central types are [`stack::Stack`],
//! the linked and key-cached representation of one loaded program, and
//! [`call_stack::CallStack`], the phase state machine that threads pending
//! requests through the five execution modes.

pub mod errors;
pub mod ident;
pub mod bytes;
pub mod call_stack;
pub mod program;
pub mod stack;
pub mod text;
