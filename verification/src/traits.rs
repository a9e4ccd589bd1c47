//! Interfaces of the two components: the lexer and the virtual machine,
//! together with their result types.

use vstd::prelude::*;

verus! {

/// A failure of lexing. Positions count only recognized command characters
/// (the filtered instruction stream), starting at zero.
#[derive(Clone, Copy, Debug, PartialEq, Eq, Structural)]
pub enum LexError {
    /// A `[` was never closed; the payload is its filtered position.
    UnmatchedOpenBracket(usize),
    /// A `]` had no `[` to match; the payload is its filtered position.
    UnmatchedCloseBracket(usize),
}

/// The outcome of lexing: an instruction sequence, or a terminal error.
#[derive(Debug)]
pub enum LexResult<T> {
    Success(T),
    Error(LexError),
}

/// A lexer: turns source text into a program of type `T`.
pub trait Lexer<T> {
    /// What `parse` promises of its result, stated over the source text's
    /// view.
    spec fn parse_ens(input: Seq<char>, r: LexResult<T>) -> bool;

    fn parse(input_string: String) -> (r: LexResult<T>)
        ensures
            Self::parse_ens(input_string@, r),
    ;
}

/// A failure of execution. Every error is terminal: the run stops at the
/// failing instruction.
#[derive(Clone, Copy, Debug, PartialEq, Eq, Structural)]
pub enum VMError {
    /// The data pointer would leave the tape.
    TapeBoundsError,
    /// The input source is exhausted.
    IOError,
}

/// The outcome of a run: completion, or a terminal error.
#[derive(Clone, Copy, Debug, PartialEq, Eq, Structural)]
pub enum VMResult {
    Success,
    Error(VMError),
}

/// A virtual machine: executes a program of instructions of type `T`,
/// reading bytes from `input` and appending bytes to `output`, for at most
/// `fuel` instructions per call. A result of `None` means the budget ran
/// out with the program still going: the caller decides whether to call
/// again, which is where a host injects cancellation or step limits.
pub trait VM<T> {
    /// What `run` requires of the machine and the program.
    spec fn run_req(&self, data: Seq<T>, input: Seq<u8>) -> bool;

    /// What `run` promises: how the machine after the call, the output and
    /// the result relate to the machine and output before it.
    spec fn run_ens(
        &self,
        post: &Self,
        data: Seq<T>,
        input: Seq<u8>,
        out_pre: Seq<u8>,
        out_post: Seq<u8>,
        fuel: u64,
        r: Option<VMResult>,
    ) -> bool;

    fn run(&mut self, data: Vec<T>, input: &Vec<u8>, output: &mut Vec<u8>, fuel: u64) -> (r:
        Option<VMResult>)
        requires
            old(self).run_req(data@, input@),
        ensures
            old(self).run_ens(final(self), data@, input@, old(output)@, final(output)@, fuel, r),
    ;
}

} // verus!
