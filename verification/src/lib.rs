//! An interpreter for a minimal eight-instruction tape-machine language.
//!
//! The crate has two parts, consumed in sequence: a single-pass
//! lexer/optimizer ([`bf_lexer`]) that turns source text into an instruction
//! sequence with resolved loop jump targets and folded compound
//! instructions, and a virtual machine ([`bf_vm`]) that executes such a
//! sequence against a bounded, wrapping memory tape.

pub mod bf_lexer;
pub mod bf_vm;
pub mod traits;
