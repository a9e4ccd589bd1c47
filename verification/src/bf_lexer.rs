//! The lexer/optimizer: turns source text into an instruction sequence with
//! resolved loop jump targets, folding runs of equal commands and rewriting
//! three common loop patterns into compound instructions.

use vstd::prelude::*;
use vstd::std_specs::iter::IteratorSpec;

use crate::traits::LexError;
use crate::traits::LexResult;
use crate::traits::Lexer;

verus! {

broadcast use vstd::string::axiom_spec_iter;


/// One instruction of the tape machine.
///
/// Counts of pointer moves and cell arithmetic are at least 1. The targets
/// of `LoopOpen` and `LoopClose` are indices into the instruction sequence:
/// after lexing, each of the pair stores the index of the other.
/// `SetCell` and `AddToOffset` are introduced by the optimizer only.
#[derive(Clone, Copy, Debug, PartialEq, Eq, Structural)]
pub enum BFTokenType {
    /// `>`: advance the data pointer by the count.
    MovePtrForward(usize),
    /// `<`: retreat the data pointer by the count.
    MovePtrBackward(usize),
    /// `+`: add the count to the current cell, modulo 256.
    AddCell(usize),
    /// `-`: subtract the count from the current cell, modulo 256.
    SubCell(usize),
    /// `.`: emit the current cell as one byte.
    Output,
    /// `,`: store one input byte into the current cell.
    Input,
    /// `[`: jump to the matching `LoopClose` if the current cell is 0.
    LoopOpen(usize),
    /// `]`: jump to the matching `LoopOpen` if the current cell is not 0.
    LoopClose(usize),
    /// Assign the value to the current cell.
    SetCell(i8),
    /// Add the current cell to the cell at the given offset, then zero the
    /// current cell.
    AddToOffset(isize),
}

/// An instruction together with its position: the index it occupies in the
/// instruction sequence, plus one.
#[derive(Clone, Copy, Debug, PartialEq, Eq, Structural)]
pub struct BFToken {
    pub token_type: BFTokenType,
    pub pos: usize,
}

/// The mathematical counterpart of [`BFTokenType`], with unbounded
/// operands. Contracts and proofs speak of instruction sequences through
/// this type.
pub enum Instr {
    MovePtrForward(nat),
    MovePtrBackward(nat),
    AddCell(nat),
    SubCell(nat),
    Output,
    Input,
    LoopOpen(nat),
    LoopClose(nat),
    SetCell(int),
    AddToOffset(int),
}

/// The instruction a token denotes.
pub open spec fn instr_of(t: BFTokenType) -> Instr {
    match t {
        BFTokenType::MovePtrForward(x) => Instr::MovePtrForward(x as nat),
        BFTokenType::MovePtrBackward(x) => Instr::MovePtrBackward(x as nat),
        BFTokenType::AddCell(x) => Instr::AddCell(x as nat),
        BFTokenType::SubCell(x) => Instr::SubCell(x as nat),
        BFTokenType::Output => Instr::Output,
        BFTokenType::Input => Instr::Input,
        BFTokenType::LoopOpen(t) => Instr::LoopOpen(t as nat),
        BFTokenType::LoopClose(t) => Instr::LoopClose(t as nat),
        BFTokenType::SetCell(v) => Instr::SetCell(v as int),
        BFTokenType::AddToOffset(k) => Instr::AddToOffset(k as int),
    }
}

/// The instruction sequence a token sequence denotes.
pub open spec fn instrs_of(v: Seq<BFToken>) -> Seq<Instr> {
    v.map_values(|t: BFToken| instr_of(t.token_type))
}

/// The single-pass lexer/optimizer.
pub struct BFLexer {}

/// The state of the lexer after some prefix of the source: the instructions
/// emitted so far, the stack of still-open loops (the instruction index each
/// `[` occupies, and its filtered position), and the filtered position
/// itself: how many recognized command characters have been consumed.
#[verifier::ext_equal]
pub struct LexState {
    pub tokens: Seq<Instr>,
    pub stack: Seq<(nat, nat)>,
    pub fpos: nat,
}

pub open spec fn init_state() -> LexState {
    LexState { tokens: Seq::empty(), stack: Seq::empty(), fpos: 0 }
}

/// Either the lexer state after one more character, or the filtered
/// position of an unmatched `]`.
pub enum CharStep {
    Cont(LexState),
    Fail(nat),
}

/// Whether two instructions are runs of the same command, so that
/// run-length folding applies.
pub open spec fn same_run_kind(prev: Instr, fresh: Instr) -> bool {
    match (prev, fresh) {
        (Instr::MovePtrForward(_), Instr::MovePtrForward(_)) => true,
        (Instr::MovePtrBackward(_), Instr::MovePtrBackward(_)) => true,
        (Instr::AddCell(_), Instr::AddCell(_)) => true,
        (Instr::SubCell(_), Instr::SubCell(_)) => true,
        _ => false,
    }
}

/// The instruction with its count raised by one.
pub open spec fn bump(prev: Instr) -> Instr {
    match prev {
        Instr::MovePtrForward(x) => Instr::MovePtrForward(x + 1),
        Instr::MovePtrBackward(x) => Instr::MovePtrBackward(x + 1),
        Instr::AddCell(x) => Instr::AddCell(x + 1),
        Instr::SubCell(x) => Instr::SubCell(x + 1),
        _ => prev,
    }
}

/// Emit a pointer-move or cell-arithmetic command: when the immediately
/// preceding emitted instruction is a run of the same command, the two fold
/// into one instruction whose count is the sum.
pub open spec fn push_folded(tokens: Seq<Instr>, fresh: Instr) -> Seq<Instr> {
    if tokens.len() > 0 && same_run_kind(tokens.last(), fresh) {
        tokens.drop_last().push(bump(tokens.last()))
    } else {
        tokens.push(fresh)
    }
}

pub open spec fn is_cell_arith(t: Instr) -> bool {
    match t {
        Instr::AddCell(_) => true,
        Instr::SubCell(_) => true,
        _ => false,
    }
}

/// The copy/move loop shape: the four instructions emitted since the open
/// bracket are a subtract at the source, a pointer move, an add of equal
/// amount at the destination, and the opposite pointer move of equal
/// magnitude. The magnitude must fit a signed offset.
pub open spec fn copy_pattern(tokens: Seq<Instr>) -> bool {
    let n = tokens.len() as int;
    match (tokens[n - 4], tokens[n - 3], tokens[n - 2], tokens[n - 1]) {
        (
            Instr::SubCell(b),
            Instr::MovePtrForward(x),
            Instr::AddCell(a),
            Instr::MovePtrBackward(y),
        ) => a == b && x == y && x <= isize::MAX,
        (
            Instr::SubCell(b),
            Instr::MovePtrBackward(x),
            Instr::AddCell(a),
            Instr::MovePtrForward(y),
        ) => a == b && x == y && x <= isize::MAX,
        _ => false,
    }
}

/// The signed offset of the destination cell of a copy loop.
pub open spec fn copy_offset(tokens: Seq<Instr>) -> int {
    let n = tokens.len() as int;
    match tokens[n - 3] {
        Instr::MovePtrForward(x) => x as int,
        Instr::MovePtrBackward(x) => -(x as int),
        _ => 0,
    }
}

/// Close the loop whose `[` stands (unresolved) at index `oi`: delete an
/// empty loop entirely, rewrite a zero-set loop `[-]`/`[+]` to
/// `SetCell(0)`, rewrite a copy loop `[->+<]`/`[-<+>]` to `AddToOffset`,
/// and otherwise emit the `]` and resolve the two jump targets to each
/// other.
pub open spec fn close_loop(tokens: Seq<Instr>, oi: nat) -> Seq<Instr> {
    let n = tokens.len();
    if oi + 1 == n {
        tokens.drop_last()
    } else if oi + 2 == n && is_cell_arith(tokens.last()) {
        tokens.take(n as int - 2).push(Instr::SetCell(0))
    } else if oi + 5 == n && copy_pattern(tokens) {
        tokens.take(n as int - 5).push(Instr::AddToOffset(copy_offset(tokens)))
    } else {
        tokens.update(oi as int, Instr::LoopOpen(n)).push(Instr::LoopClose(oi))
    }
}

/// One character of lexing. Characters outside the eight command symbols
/// are ignored. Opaque: [`lemma_lex_char_inv`] states its effect on the
/// stack and the filtered position.
#[verifier::opaque]
pub open spec fn lex_char(st: LexState, c: char) -> CharStep {
    if c == '>' {
        CharStep::Cont(
            LexState {
                tokens: push_folded(st.tokens, Instr::MovePtrForward(1)),
                stack: st.stack,
                fpos: st.fpos + 1,
            },
        )
    } else if c == '<' {
        CharStep::Cont(
            LexState {
                tokens: push_folded(st.tokens, Instr::MovePtrBackward(1)),
                stack: st.stack,
                fpos: st.fpos + 1,
            },
        )
    } else if c == '+' {
        CharStep::Cont(
            LexState {
                tokens: push_folded(st.tokens, Instr::AddCell(1)),
                stack: st.stack,
                fpos: st.fpos + 1,
            },
        )
    } else if c == '-' {
        CharStep::Cont(
            LexState {
                tokens: push_folded(st.tokens, Instr::SubCell(1)),
                stack: st.stack,
                fpos: st.fpos + 1,
            },
        )
    } else if c == '.' {
        CharStep::Cont(
            LexState { tokens: st.tokens.push(Instr::Output), stack: st.stack, fpos: st.fpos + 1 },
        )
    } else if c == ',' {
        CharStep::Cont(
            LexState { tokens: st.tokens.push(Instr::Input), stack: st.stack, fpos: st.fpos + 1 },
        )
    } else if c == '[' {
        CharStep::Cont(
            LexState {
                tokens: st.tokens.push(Instr::LoopOpen(0)),
                stack: st.stack.push((st.tokens.len(), st.fpos)),
                fpos: st.fpos + 1,
            },
        )
    } else if c == ']' {
        if st.stack.len() == 0 {
            CharStep::Fail(st.fpos)
        } else {
            CharStep::Cont(
                LexState {
                    tokens: close_loop(st.tokens, st.stack.last().0),
                    stack: st.stack.drop_last(),
                    fpos: st.fpos + 1,
                },
            )
        }
    } else {
        CharStep::Cont(st)
    }
}

/// The result of lexing: an instruction sequence, or the filtered position
/// of the offending bracket.
pub enum LexOutcome {
    Tokens(Seq<Instr>),
    FailOpen(nat),
    FailClose(nat),
}

/// Lexing the remaining source from a given state. An unmatched `]` fails
/// at once; `[`s still open at the end of the source fail with the position
/// of the earliest one.
pub open spec fn lex_from(s: Seq<char>, st: LexState) -> LexOutcome
    decreases s.len(),
{
    if s.len() == 0 {
        if st.stack.len() == 0 {
            LexOutcome::Tokens(st.tokens)
        } else {
            LexOutcome::FailOpen(st.stack[0].1)
        }
    } else {
        match lex_char(st, s[0]) {
            CharStep::Cont(st2) => lex_from(s.drop_first(), st2),
            CharStep::Fail(p) => LexOutcome::FailClose(p),
        }
    }
}

/// What lexing the given source text produces.
pub open spec fn lex_spec(s: Seq<char>) -> LexOutcome {
    lex_from(s, init_state())
}

/// The count of a run instruction; other instructions count as zero.
pub open spec fn run_count(t: Instr) -> nat {
    match t {
        Instr::MovePtrForward(x) => x,
        Instr::MovePtrBackward(x) => x,
        Instr::AddCell(x) => x,
        Instr::SubCell(x) => x,
        _ => 0,
    }
}

/// Every run count is at most `b`. One recognized character raises one
/// count by at most one, so the filtered position is such a bound.
pub open spec fn counts_bounded(tokens: Seq<Instr>, b: nat) -> bool {
    forall|i: int| 0 <= i < tokens.len() ==> run_count(#[trigger] tokens[i]) <= b
}

/// Index `i` is the instruction index of some entry of the open-loop stack.
pub open spec fn on_stack(stack: Seq<(nat, nat)>, i: nat) -> bool {
    exists|k: int| 0 <= k < stack.len() && (#[trigger] stack[k]).0 == i
}

/// The open-loop stack holds strictly increasing instruction indices, each
/// of an unresolved `LoopOpen` placeholder.
pub open spec fn stack_ok(tokens: Seq<Instr>, stack: Seq<(nat, nat)>) -> bool {
    &&& forall|k: int|
        0 <= k < stack.len() ==> (#[trigger] stack[k]).0 < tokens.len() && tokens[stack[k].0 as int]
            == Instr::LoopOpen(0)
    &&& forall|k: int, l: int|
        0 <= k < l < stack.len() ==> (#[trigger] stack[k]).0 < (#[trigger] stack[l]).0
}

/// Every bracket instruction is sound: a `LoopOpen` is either still on the
/// stack (and a placeholder) or resolved to a matching later `LoopClose`;
/// every `LoopClose` is resolved to a matching earlier `LoopOpen`.
pub open spec fn links_ok(tokens: Seq<Instr>, stack: Seq<(nat, nat)>) -> bool {
    forall|i: int|
        0 <= i < tokens.len() ==> match #[trigger] tokens[i] {
            Instr::LoopOpen(t) => on_stack(stack, i as nat) || (i < t && t < tokens.len()
                && tokens[t as int] == Instr::LoopClose(i as nat)),
            Instr::LoopClose(u) => u < i && tokens[u as int] == Instr::LoopOpen(i as nat),
            _ => true,
        }
}

/// The lexer state's invariant, maintained by every character.
#[verifier::opaque]
pub open spec fn lex_inv(st: LexState) -> bool {
    &&& stack_ok(st.tokens, st.stack)
    &&& links_ok(st.tokens, st.stack)
    &&& counts_bounded(st.tokens, st.fpos)
    &&& st.tokens.len() <= st.fpos
}

/// Every `LoopOpen`'s target is the index of its matching `LoopClose` and
/// vice versa.
pub open spec fn brackets_matched(prog: Seq<Instr>) -> bool {
    forall|i: int|
        0 <= i < prog.len() ==> match #[trigger] prog[i] {
            Instr::LoopOpen(t) => i < t && t < prog.len() && prog[t as int] == Instr::LoopClose(
                i as nat,
            ),
            Instr::LoopClose(u) => u < i && prog[u as int] == Instr::LoopOpen(i as nat),
            _ => true,
        }
}

/// Every jump target lands inside the program. Implied by
/// [`brackets_matched`]; all the virtual machine itself needs.
pub open spec fn targets_ok(prog: Seq<Instr>) -> bool {
    forall|i: int|
        0 <= i < prog.len() ==> match #[trigger] prog[i] {
            Instr::LoopOpen(t) => t < prog.len(),
            Instr::LoopClose(t) => t < prog.len(),
            _ => true,
        }
}

pub proof fn lemma_matched_implies_targets_ok(prog: Seq<Instr>)
    requires
        brackets_matched(prog),
    ensures
        targets_ok(prog),
{
}

/// One character of lexing preserves the invariant, and moves the filtered
/// position by at most one.
pub proof fn lemma_lex_char_inv(st: LexState, c: char)
    requires
        lex_inv(st),
    ensures
        match lex_char(st, c) {
            CharStep::Cont(st2) => lex_inv(st2) && st.fpos <= st2.fpos <= st.fpos + 1 && st2.fpos
                == if is_command(c) {
                    st.fpos + 1
                } else {
                    st.fpos
                } && st2.stack == if c == '[' {
                    st.stack.push((st.tokens.len(), st.fpos))
                } else if c == ']' {
                    st.stack.drop_last()
                } else {
                    st.stack
                },
            CharStep::Fail(p) => c == ']' && p == st.fpos && st.stack.len() == 0,
        },
{
    reveal(lex_char);
    reveal(lex_inv);
    if c == '>' || c == '<' || c == '+' || c == '-' {
        let fresh = if c == '>' {
            Instr::MovePtrForward(1)
        } else if c == '<' {
            Instr::MovePtrBackward(1)
        } else if c == '+' {
            Instr::AddCell(1)
        } else {
            Instr::SubCell(1)
        };
        let toks = push_folded(st.tokens, fresh);
        let n = st.tokens.len() as int;
        if st.tokens.len() > 0 && same_run_kind(st.tokens.last(), fresh) {
            // the folded-away last instruction is a run, not a bracket, so
            // no stack entry and no resolved bracket refers to its index
            assert forall|k: int| 0 <= k < st.stack.len() implies (#[trigger] st.stack[k]).0 < n
                - 1 by {
                assert(st.tokens[st.stack[k].0 as int] == Instr::LoopOpen(0));
            }
            assert(stack_ok(toks, st.stack));
            assert forall|i: int| 0 <= i < toks.len() implies match #[trigger] toks[i] {
                Instr::LoopOpen(t) => on_stack(st.stack, i as nat) || (i < t && t < toks.len()
                    && toks[t as int] == Instr::LoopClose(i as nat)),
                Instr::LoopClose(u) => u < i && toks[u as int] == Instr::LoopOpen(i as nat),
                _ => true,
            } by {
                if i < n - 1 {
                    assert(toks[i] == st.tokens[i]);
                    match st.tokens[i] {
                        Instr::LoopOpen(t) => {
                            if !on_stack(st.stack, i as nat) {
                                assert(st.tokens[t as int] == Instr::LoopClose(i as nat));
                                assert(t != n - 1);
                                assert(toks[t as int] == Instr::LoopClose(i as nat));
                            }
                        },
                        Instr::LoopClose(u) => {
                            assert(st.tokens[u as int] == Instr::LoopOpen(i as nat));
                            assert(u != n - 1);
                            assert(toks[u as int] == Instr::LoopOpen(i as nat));
                        },
                        _ => {},
                    }
                }
            }
            assert(links_ok(toks, st.stack));
            assert(counts_bounded(toks, st.fpos + 1));
        } else {
            assert(stack_ok(toks, st.stack));
            assert forall|i: int| 0 <= i < toks.len() implies match #[trigger] toks[i] {
                Instr::LoopOpen(t) => on_stack(st.stack, i as nat) || (i < t && t < toks.len()
                    && toks[t as int] == Instr::LoopClose(i as nat)),
                Instr::LoopClose(u) => u < i && toks[u as int] == Instr::LoopOpen(i as nat),
                _ => true,
            } by {
                if i < n {
                    assert(toks[i] == st.tokens[i]);
                }
            }
            assert(links_ok(toks, st.stack));
            assert(counts_bounded(toks, st.fpos + 1));
        }
    } else if c == '.' || c == ',' {
        let toks = if c == '.' {
            st.tokens.push(Instr::Output)
        } else {
            st.tokens.push(Instr::Input)
        };
        let n = st.tokens.len() as int;
        assert forall|i: int| 0 <= i < toks.len() implies match #[trigger] toks[i] {
            Instr::LoopOpen(t) => on_stack(st.stack, i as nat) || (i < t && t < toks.len()
                && toks[t as int] == Instr::LoopClose(i as nat)),
            Instr::LoopClose(u) => u < i && toks[u as int] == Instr::LoopOpen(i as nat),
            _ => true,
        } by {
            if i < n {
                assert(toks[i] == st.tokens[i]);
            }
        }
        assert(links_ok(toks, st.stack));
        assert(counts_bounded(toks, st.fpos + 1));
    } else if c == '[' {
        let toks = st.tokens.push(Instr::LoopOpen(0));
        let stk = st.stack.push((st.tokens.len(), st.fpos));
        let n = st.tokens.len() as int;
        assert forall|k: int| 0 <= k < stk.len() implies (#[trigger] stk[k]).0 < toks.len()
            && toks[stk[k].0 as int] == Instr::LoopOpen(0) by {
            if k < st.stack.len() {
                assert(stk[k] == st.stack[k]);
                assert(toks[st.stack[k].0 as int] == st.tokens[st.stack[k].0 as int]);
            }
        }
        assert(stack_ok(toks, stk));
        assert forall|i: int| 0 <= i < toks.len() implies match #[trigger] toks[i] {
            Instr::LoopOpen(t) => on_stack(stk, i as nat) || (i < t && t < toks.len()
                && toks[t as int] == Instr::LoopClose(i as nat)),
            Instr::LoopClose(u) => u < i && toks[u as int] == Instr::LoopOpen(i as nat),
            _ => true,
        } by {
            if i < n {
                assert(toks[i] == st.tokens[i]);
                match st.tokens[i] {
                    Instr::LoopOpen(t) => {
                        if on_stack(st.stack, i as nat) {
                            let k = choose|k: int|
                                0 <= k < st.stack.len() && (#[trigger] st.stack[k]).0 == i as nat;
                            assert(stk[k].0 == i as nat);
                            assert(on_stack(stk, i as nat));
                        }
                    },
                    _ => {},
                }
            } else {
                assert(toks[i] == Instr::LoopOpen(0));
                assert(stk[stk.len() - 1].0 == i as nat);
                assert(on_stack(stk, i as nat));
            }
        }
        assert(links_ok(toks, stk));
        assert(counts_bounded(toks, st.fpos + 1));
    } else if c == ']' {
        if st.stack.len() > 0 {
            lemma_close_loop_inv(st);
        }
    }
}

/// Closing a loop preserves the invariant.
proof fn lemma_close_loop_inv(st: LexState)
    requires
        lex_inv(st),
        st.stack.len() > 0,
    ensures
        ({
            let st2 = LexState {
                tokens: close_loop(st.tokens, st.stack.last().0),
                stack: st.stack.drop_last(),
                fpos: st.fpos + 1,
            };
            lex_inv(st2)
        }),
{
    reveal(lex_inv);
    let oi = st.stack.last().0;
    let n = st.tokens.len();
    let stk = st.stack.drop_last();
    let toks = close_loop(st.tokens, oi);
    let top: int = st.stack.len() - 1;
    assert(st.stack[top].0 == oi);
    assert(oi < n && st.tokens[oi as int] == Instr::LoopOpen(0));
    // the top of the stack has the largest index of all entries
    assert forall|k: int| 0 <= k < stk.len() implies (#[trigger] stk[k]).0 < oi by {
        assert(st.stack[k].0 < st.stack[top].0);
    }
    if oi + 1 == n {
        // empty loop: the popped placeholder is the last instruction
        assert forall|i: int| 0 <= i < toks.len() implies match #[trigger] toks[i] {
            Instr::LoopOpen(t) => on_stack(stk, i as nat) || (i < t && t < toks.len()
                && toks[t as int] == Instr::LoopClose(i as nat)),
            Instr::LoopClose(u) => u < i && toks[u as int] == Instr::LoopOpen(i as nat),
            _ => true,
        } by {
            assert(toks[i] == st.tokens[i]);
            match st.tokens[i] {
                Instr::LoopOpen(t) => {
                    if on_stack(st.stack, i as nat) {
                        let k = choose|k: int|
                            0 <= k < st.stack.len() && (#[trigger] st.stack[k]).0 == i as nat;
                        if k == top {
                            assert(false);
                        } else {
                            assert(stk[k].0 == i as nat);
                            assert(on_stack(stk, i as nat));
                        }
                    } else {
                        assert(st.tokens[t as int] == Instr::LoopClose(i as nat));
                        assert(t != oi);
                        assert(toks[t as int] == Instr::LoopClose(i as nat));
                    }
                },
                Instr::LoopClose(u) => {
                    assert(st.tokens[u as int] == Instr::LoopOpen(i as nat));
                    if u == oi {
                        assert(st.tokens[oi as int] == Instr::LoopOpen(0));
                        assert(i as nat == 0nat);
                        assert(false);
                    }
                    assert(toks[u as int] == Instr::LoopOpen(i as nat));
                },
                _ => {},
            }
        }
        assert(stack_ok(toks, stk));
        assert(links_ok(toks, stk));
        assert(counts_bounded(toks, st.fpos + 1));
    } else if oi + 2 == n && is_cell_arith(st.tokens.last()) {
        lemma_close_rewrite_inv(st, 2, Instr::SetCell(0));
    } else if oi + 5 == n && copy_pattern(st.tokens) {
        lemma_close_rewrite_inv(st, 5, Instr::AddToOffset(copy_offset(st.tokens)));
    } else {
        // ordinary close: resolve the pair of jump targets
        let resolved = st.tokens.update(oi as int, Instr::LoopOpen(n)).push(Instr::LoopClose(oi));
        assert(toks == resolved);
        assert forall|k: int| 0 <= k < stk.len() implies (#[trigger] stk[k]).0 < toks.len()
            && toks[stk[k].0 as int] == Instr::LoopOpen(0) by {
            assert(stk[k] == st.stack[k]);
            assert(st.stack[k].0 < oi);
            assert(toks[st.stack[k].0 as int] == st.tokens[st.stack[k].0 as int]);
        }
        assert(stack_ok(toks, stk));
        assert forall|i: int| 0 <= i < toks.len() implies match #[trigger] toks[i] {
            Instr::LoopOpen(t) => on_stack(stk, i as nat) || (i < t && t < toks.len()
                && toks[t as int] == Instr::LoopClose(i as nat)),
            Instr::LoopClose(u) => u < i && toks[u as int] == Instr::LoopOpen(i as nat),
            _ => true,
        } by {
            if i == oi {
                assert(toks[i] == Instr::LoopOpen(n));
                assert(toks[n as int] == Instr::LoopClose(oi));
            } else if i == n {
                assert(toks[i] == Instr::LoopClose(oi));
                assert(toks[oi as int] == Instr::LoopOpen(n));
            } else if i < n {
                assert(toks[i] == st.tokens[i]);
                match st.tokens[i] {
                    Instr::LoopOpen(t) => {
                        if on_stack(st.stack, i as nat) {
                            let k = choose|k: int|
                                0 <= k < st.stack.len() && (#[trigger] st.stack[k]).0 == i as nat;
                            if k == top {
                                assert(i == oi);
                                assert(false);
                            } else {
                                assert(stk[k].0 == i as nat);
                                assert(on_stack(stk, i as nat));
                            }
                        } else {
                            assert(st.tokens[t as int] == Instr::LoopClose(i as nat));
                            assert(t != oi);
                            assert(toks[t as int] == Instr::LoopClose(i as nat));
                        }
                    },
                    Instr::LoopClose(u) => {
                        assert(st.tokens[u as int] == Instr::LoopOpen(i as nat));
                        if u == oi {
                            assert(st.tokens[oi as int] == Instr::LoopOpen(0));
                            assert(i as nat == 0nat);
                            assert(false);
                        }
                        assert(toks[u as int] == Instr::LoopOpen(i as nat));
                    },
                    _ => {},
                }
            }
        }
        assert(links_ok(toks, stk));
        assert(counts_bounded(toks, st.fpos + 1));
    }
}

/// A peephole rewrite at loop close: the popped span (the placeholder open
/// and `d - 1` run instructions behind it) is replaced by one compound
/// instruction that is not a bracket and not a run. The invariant survives.
proof fn lemma_close_rewrite_inv(st: LexState, d: nat, repl: Instr)
    requires
        lex_inv(st),
        st.stack.len() > 0,
        st.stack.last().0 + d == st.tokens.len(),
        2 <= d,
        forall|j: int|
            st.tokens.len() - d < j < st.tokens.len() ==> !(#[trigger] st.tokens[j]
                matches Instr::LoopOpen(_)) && !(st.tokens[j] matches Instr::LoopClose(_)),
        !(repl matches Instr::LoopOpen(_)),
        !(repl matches Instr::LoopClose(_)),
        run_count(repl) == 0,
    ensures
        ({
            let toks = st.tokens.take(st.tokens.len() - d).push(repl);
            let stk = st.stack.drop_last();
            &&& stack_ok(toks, stk)
            &&& links_ok(toks, stk)
            &&& counts_bounded(toks, st.fpos + 1)
            &&& toks.len() <= st.fpos + 1
        }),
{
    reveal(lex_inv);
    let oi = st.stack.last().0;
    let n = st.tokens.len();
    let cut = n - d;
    let toks = st.tokens.take(cut as int).push(repl);
    let stk = st.stack.drop_last();
    let top: int = st.stack.len() - 1;
    assert(st.stack[top].0 == oi);
    assert(oi == cut);
    assert(st.tokens[oi as int] == Instr::LoopOpen(0));
    assert forall|k: int| 0 <= k < stk.len() implies (#[trigger] stk[k]).0 < oi by {
        assert(st.stack[k].0 < st.stack[top].0);
    }
    assert forall|k: int| 0 <= k < stk.len() implies (#[trigger] stk[k]).0 < toks.len()
        && toks[stk[k].0 as int] == Instr::LoopOpen(0) by {
        assert(stk[k] == st.stack[k]);
        assert(toks[st.stack[k].0 as int] == st.tokens[st.stack[k].0 as int]);
    }
    assert(stack_ok(toks, stk));
    // nothing surviving refers into the popped span: the span holds no
    // bracket except the unresolved open itself
    assert forall|i: int| 0 <= i < toks.len() implies match #[trigger] toks[i] {
        Instr::LoopOpen(t) => on_stack(stk, i as nat) || (i < t && t < toks.len()
            && toks[t as int] == Instr::LoopClose(i as nat)),
        Instr::LoopClose(u) => u < i && toks[u as int] == Instr::LoopOpen(i as nat),
        _ => true,
    } by {
        if i < cut {
            assert(toks[i] == st.tokens[i]);
            match st.tokens[i] {
                Instr::LoopOpen(t) => {
                    if on_stack(st.stack, i as nat) {
                        let k = choose|k: int|
                            0 <= k < st.stack.len() && (#[trigger] st.stack[k]).0 == i as nat;
                        if k == top {
                            assert(false);
                        } else {
                            assert(stk[k].0 == i as nat);
                            assert(on_stack(stk, i as nat));
                        }
                    } else {
                        assert(st.tokens[t as int] == Instr::LoopClose(i as nat));
                        assert(t != oi);
                        assert(t < cut || t >= n || !(st.tokens[t as int]
                            matches Instr::LoopClose(_)));
                        assert(t < cut);
                        assert(toks[t as int] == Instr::LoopClose(i as nat));
                    }
                },
                Instr::LoopClose(u) => {
                    assert(st.tokens[u as int] == Instr::LoopOpen(i as nat));
                    if u == oi {
                        assert(i == 0 && u < i);
                        assert(false);
                    }
                    assert(u < cut);
                    assert(toks[u as int] == Instr::LoopOpen(i as nat));
                },
                _ => {},
            }
        }
    }
    assert(links_ok(toks, stk));
    assert forall|i: int| 0 <= i < toks.len() implies run_count(#[trigger] toks[i]) <= st.fpos
        + 1 by {
        if i < cut {
            assert(toks[i] == st.tokens[i]);
        }
    }
    assert(counts_bounded(toks, st.fpos + 1));
}

/// Whether a character is one of the eight command symbols.
pub open spec fn is_command(c: char) -> bool {
    c == '>' || c == '<' || c == '+' || c == '-' || c == '.' || c == ',' || c == '[' || c == ']'
}

/// The verdict of a plain bracket scan of the source.
pub enum ScanResult {
    AllMatched,
    UnmatchedOpen(nat),
    UnmatchedClose(nat),
}

/// Scan the source for bracket balance alone, carrying the filtered
/// positions of the `[`s still open. The verdict names the filtered
/// position of the first `]` with nothing to match, or of the earliest `[`
/// that is never matched.
pub open spec fn scan_brackets(s: Seq<char>, opens: Seq<nat>, fpos: nat) -> ScanResult
    decreases s.len(),
{
    if s.len() == 0 {
        if opens.len() == 0 {
            ScanResult::AllMatched
        } else {
            ScanResult::UnmatchedOpen(opens[0])
        }
    } else if s[0] == '[' {
        scan_brackets(s.drop_first(), opens.push(fpos), fpos + 1)
    } else if s[0] == ']' {
        if opens.len() == 0 {
            ScanResult::UnmatchedClose(fpos)
        } else {
            scan_brackets(s.drop_first(), opens.drop_last(), fpos + 1)
        }
    } else if is_command(s[0]) {
        scan_brackets(s.drop_first(), opens, fpos + 1)
    } else {
        scan_brackets(s.drop_first(), opens, fpos)
    }
}

/// The bracket scan of a whole source text.
pub open spec fn bracket_scan(s: Seq<char>) -> ScanResult {
    scan_brackets(s, Seq::empty(), 0)
}

/// The filtered positions of the open-loop stack's entries.
pub open spec fn stack_positions(stack: Seq<(nat, nat)>) -> Seq<nat> {
    stack.map_values(|e: (nat, nat)| e.1)
}

/// The lexer follows the bracket scan: where the scan matches everything,
/// lexing succeeds with mutually matching loop targets; where the scan
/// finds an unmatched bracket, lexing fails with exactly that bracket's
/// filtered position.
proof fn lemma_lex_follows_scan(s: Seq<char>, st: LexState)
    requires
        lex_inv(st),
    ensures
        match scan_brackets(s, stack_positions(st.stack), st.fpos) {
            ScanResult::AllMatched => lex_from(s, st) matches LexOutcome::Tokens(toks)
                && brackets_matched(toks),
            ScanResult::UnmatchedOpen(p) => lex_from(s, st) == LexOutcome::FailOpen(p),
            ScanResult::UnmatchedClose(p) => lex_from(s, st) == LexOutcome::FailClose(p),
        },
    decreases s.len(),
{
    reveal(lex_char);
    reveal(lex_inv);
    let opens = stack_positions(st.stack);
    assert(opens.len() == st.stack.len());
    if s.len() == 0 {
        if st.stack.len() == 0 {
            assert forall|i: int| 0 <= i < st.tokens.len() implies match #[trigger] st.tokens[i] {
                Instr::LoopOpen(t) => i < t && t < st.tokens.len() && st.tokens[t as int]
                    == Instr::LoopClose(i as nat),
                Instr::LoopClose(u) => u < i && st.tokens[u as int] == Instr::LoopOpen(i as nat),
                _ => true,
            } by {
                match st.tokens[i] {
                    Instr::LoopOpen(t) => {
                        assert(!on_stack(st.stack, i as nat));
                    },
                    _ => {},
                }
            }
            assert(brackets_matched(st.tokens));
        } else {
            assert(opens[0] == st.stack[0].1);
        }
    } else {
        let c = s[0];
        lemma_lex_char_inv(st, c);
        match lex_char(st, c) {
            CharStep::Cont(st2) => {
                if c == '[' {
                    assert(stack_positions(st2.stack) =~= opens.push(st.fpos));
                } else if c == ']' {
                    assert(stack_positions(st2.stack) =~= opens.drop_last());
                } else {
                    assert(stack_positions(st2.stack) =~= opens);
                }
                lemma_lex_follows_scan(s.drop_first(), st2);
            },
            CharStep::Fail(_) => {},
        }
    }
}

/// Bracket balance of the source, scanning with a depth counter.
pub open spec fn balanced_from(s: Seq<char>, depth: nat) -> bool
    decreases s.len(),
{
    if s.len() == 0 {
        depth == 0
    } else if s[0] == '[' {
        balanced_from(s.drop_first(), depth + 1)
    } else if s[0] == ']' {
        depth > 0 && balanced_from(s.drop_first(), (depth - 1) as nat)
    } else {
        balanced_from(s.drop_first(), depth)
    }
}

/// Every `[` of the source has its `]` and none is extra.
pub open spec fn balanced(s: Seq<char>) -> bool {
    balanced_from(s, 0)
}

/// The bracket scan matches everything exactly on balanced sources.
proof fn lemma_scan_balance(s: Seq<char>, opens: Seq<nat>, fpos: nat)
    ensures
        (scan_brackets(s, opens, fpos) matches ScanResult::AllMatched) <==> balanced_from(
            s,
            opens.len(),
        ),
    decreases s.len(),
{
    if s.len() == 0 {
    } else if s[0] == '[' {
        lemma_scan_balance(s.drop_first(), opens.push(fpos), fpos + 1);
    } else if s[0] == ']' {
        if opens.len() > 0 {
            lemma_scan_balance(s.drop_first(), opens.drop_last(), fpos + 1);
        }
    } else if is_command(s[0]) {
        lemma_scan_balance(s.drop_first(), opens, fpos + 1);
    } else {
        lemma_scan_balance(s.drop_first(), opens, fpos);
    }
}

/// The empty lexer state satisfies the invariant.
pub proof fn lemma_init_inv()
    ensures
        lex_inv(init_state()),
{
    reveal(lex_inv);
    assert(stack_positions(init_state().stack) =~= Seq::<nat>::empty());
}

/// For every source text whose brackets balance and that holds only
/// recognized command symbols, lexing succeeds, and in the produced
/// instruction sequence every `LoopOpen`'s target is its matching
/// `LoopClose` and vice versa.
pub proof fn lemma_balanced_source_lexes(s: Seq<char>)
    requires
        balanced(s),
        forall|i: int| 0 <= i < s.len() ==> is_command(#[trigger] s[i]),
    ensures
        lex_spec(s) matches LexOutcome::Tokens(toks) && brackets_matched(toks),
{
    lemma_init_inv();
    assert(stack_positions(init_state().stack) =~= Seq::<nat>::empty());
    lemma_scan_balance(s, Seq::empty(), 0);
    lemma_lex_follows_scan(s, init_state());
}

/// For every source text with an unmatched `[` or `]`, lexing fails with
/// the corresponding error, at the offending bracket's position in the
/// filtered instruction stream: [`bracket_scan`] names that bracket — the
/// first `]` with nothing to match, or the earliest `[` never matched.
pub proof fn lemma_unbalanced_source_fails(s: Seq<char>)
    requires
        !balanced(s),
    ensures
        !(bracket_scan(s) matches ScanResult::AllMatched),
        bracket_scan(s) matches ScanResult::UnmatchedClose(p) ==> lex_spec(s)
            == LexOutcome::FailClose(p),
        bracket_scan(s) matches ScanResult::UnmatchedOpen(p) ==> lex_spec(s)
            == LexOutcome::FailOpen(p),
{
    lemma_init_inv();
    assert(stack_positions(init_state().stack) =~= Seq::<nat>::empty());
    lemma_scan_balance(s, Seq::empty(), 0);
    lemma_lex_follows_scan(s, init_state());
}

/// Whenever lexing succeeds — whatever the source — the produced sequence
/// has mutually matching loop targets.
pub proof fn lemma_lex_success_matched(s: Seq<char>)
    ensures
        lex_spec(s) matches LexOutcome::Tokens(toks) ==> brackets_matched(toks),
{
    lemma_init_inv();
    assert(stack_positions(init_state().stack) =~= Seq::<nat>::empty());
    lemma_lex_follows_scan(s, init_state());
}

/// Every token records the index it occupies, plus one.
#[verifier::opaque]
pub open spec fn positions_ok(v: Seq<BFToken>) -> bool {
    forall|j: int| 0 <= j < v.len() ==> (#[trigger] v[j]).pos == j + 1
}

/// The open-loop stack a vector of index pairs denotes.
pub open spec fn stack_view(stack: Seq<(usize, usize)>) -> Seq<(nat, nat)> {
    stack.map_values(|e: (usize, usize)| (e.0 as nat, e.1 as nat))
}

/// The lexer state that the executable lexer's variables denote.
pub open spec fn lexer_view(tokens: Seq<BFToken>, stack: Seq<(usize, usize)>, fpos: usize) -> LexState {
    LexState { tokens: instrs_of(tokens), stack: stack_view(stack), fpos: fpos as nat }
}

pub open spec fn is_run(t: Instr) -> bool {
    match t {
        Instr::MovePtrForward(_) => true,
        Instr::MovePtrBackward(_) => true,
        Instr::AddCell(_) => true,
        Instr::SubCell(_) => true,
        _ => false,
    }
}

/// Unfolding one character of `lex_from`.
proof fn lemma_lex_from_step(s_rem: Seq<char>, st: LexState)
    requires
        s_rem.len() > 0,
    ensures
        match lex_char(st, s_rem[0]) {
            CharStep::Cont(st2) => lex_from(s_rem, st) == lex_from(s_rem.drop_first(), st2),
            CharStep::Fail(p) => lex_from(s_rem, st) == LexOutcome::FailClose(p),
        },
{
}

/// Emit one pointer-move or cell-arithmetic command token, folding it into
/// the preceding token when that is a run of the same command.
fn emit_run(tokens: &mut Vec<BFToken>, fresh: BFTokenType, bound: Ghost<nat>)
    requires
        is_run(instr_of(fresh)),
        run_count(instr_of(fresh)) == 1,
        counts_bounded(instrs_of(old(tokens)@), bound@),
        bound@ + 1 <= usize::MAX,
        old(tokens)@.len() < usize::MAX,
        positions_ok(old(tokens)@),
    ensures
        instrs_of(final(tokens)@) == push_folded(instrs_of(old(tokens)@), instr_of(fresh)),
        positions_ok(final(tokens)@),
{
    proof {
        reveal(positions_ok);
    }
    let ghost pre = tokens@;
    let n = tokens.len();
    let mut folded: Option<BFTokenType> = None;
    if n > 0 {
        let prev = tokens[n - 1].token_type;
        proof {
            assert(instrs_of(pre)[n - 1] == instr_of(prev));
            assert(run_count(instrs_of(pre)[n - 1]) <= bound@);
        }
        match (prev, fresh) {
            (BFTokenType::MovePtrForward(x), BFTokenType::MovePtrForward(_)) => {
                folded = Some(BFTokenType::MovePtrForward(x + 1));
            },
            (BFTokenType::MovePtrBackward(x), BFTokenType::MovePtrBackward(_)) => {
                folded = Some(BFTokenType::MovePtrBackward(x + 1));
            },
            (BFTokenType::AddCell(x), BFTokenType::AddCell(_)) => {
                folded = Some(BFTokenType::AddCell(x + 1));
            },
            (BFTokenType::SubCell(x), BFTokenType::SubCell(_)) => {
                folded = Some(BFTokenType::SubCell(x + 1));
            },
            _ => {},
        }
    }
    match folded {
        Option::Some(t) => {
            let _ = tokens.pop();
            tokens.push(BFToken { token_type: t, pos: n });
            proof {
                assert(instrs_of(pre).last() == instr_of(pre[n - 1].token_type));
                assert(same_run_kind(instrs_of(pre).last(), instr_of(fresh)));
                assert(instr_of(t) == bump(instrs_of(pre).last()));
                assert(instrs_of(tokens@) =~= instrs_of(pre).drop_last().push(
                    bump(instrs_of(pre).last()),
                ));
            }
        },
        Option::None => {
            tokens.push(BFToken { token_type: fresh, pos: n + 1 });
            proof {
                if n > 0 {
                    assert(instrs_of(pre).last() == instr_of(pre[n - 1].token_type));
                    assert(!same_run_kind(instrs_of(pre).last(), instr_of(fresh)));
                }
                assert(instrs_of(tokens@) =~= instrs_of(pre).push(instr_of(fresh)));
            }
        },
    }
}


/// Close the loop whose unresolved `[` stands at index `oi`, applying the
/// peephole rewrites of [`close_loop`].
fn close_bracket(tokens: &mut Vec<BFToken>, oi: usize)
    requires
        oi < old(tokens)@.len(),
        old(tokens)@.len() < usize::MAX,
        positions_ok(old(tokens)@),
    ensures
        instrs_of(final(tokens)@) == close_loop(instrs_of(old(tokens)@), oi as nat),
        positions_ok(final(tokens)@),
{
    proof {
        reveal(positions_ok);
    }
    let ghost pre = instrs_of(tokens@);
    let n = tokens.len();
    let span = n - oi;
    if span == 1 {
        let _ = tokens.pop();
        proof {
            assert(instrs_of(tokens@) =~= pre.drop_last());
        }
    } else {
        let mut rewrite: Option<BFTokenType> = None;
        let mut cut: usize = n;
        if span == 2 {
            proof {
                assert(pre.last() == instr_of(tokens@[n - 1].token_type));
            }
            match tokens[n - 1].token_type {
                BFTokenType::AddCell(_) => {
                    rewrite = Some(BFTokenType::SetCell(0));
                    cut = n - 2;
                },
                BFTokenType::SubCell(_) => {
                    rewrite = Some(BFTokenType::SetCell(0));
                    cut = n - 2;
                },
                _ => {},
            }
        } else if span == 5 {
            let t4 = tokens[n - 4].token_type;
            let t3 = tokens[n - 3].token_type;
            let t2 = tokens[n - 2].token_type;
            let t1 = tokens[n - 1].token_type;
            proof {
                assert(pre[n - 4] == instr_of(t4));
                assert(pre[n - 3] == instr_of(t3));
                assert(pre[n - 2] == instr_of(t2));
                assert(pre[n - 1] == instr_of(t1));
            }
            match (t4, t3, t2, t1) {
                (
                    BFTokenType::SubCell(b),
                    BFTokenType::MovePtrForward(x),
                    BFTokenType::AddCell(a),
                    BFTokenType::MovePtrBackward(y),
                ) => {
                    if a == b && x == y && x <= (isize::MAX as usize) {
                        rewrite = Some(BFTokenType::AddToOffset(x as isize));
                        cut = n - 5;
                        proof {
                            assert(copy_pattern(pre));
                            assert(copy_offset(pre) == x as int);
                        }
                    }
                },
                (
                    BFTokenType::SubCell(b),
                    BFTokenType::MovePtrBackward(x),
                    BFTokenType::AddCell(a),
                    BFTokenType::MovePtrForward(y),
                ) => {
                    if a == b && x == y && x <= (isize::MAX as usize) {
                        rewrite = Some(BFTokenType::AddToOffset(-(x as isize)));
                        cut = n - 5;
                        proof {
                            assert(copy_pattern(pre));
                            assert(copy_offset(pre) == -(x as int));
                        }
                    }
                },
                _ => {},
            }
        }
        match rewrite {
            Option::Some(t) => {
                tokens.truncate(cut);
                tokens.push(BFToken { token_type: t, pos: cut + 1 });
                proof {
                    assert(instrs_of(tokens@) =~= pre.take(cut as int).push(instr_of(t)));
                }
            },
            Option::None => {
                tokens[oi] = BFToken { token_type: BFTokenType::LoopOpen(n), pos: oi + 1 };
                tokens.push(BFToken { token_type: BFTokenType::LoopClose(oi), pos: n + 1 });
                proof {
                    assert(instrs_of(tokens@) =~= pre.update(
                        oi as int,
                        Instr::LoopOpen(pre.len()),
                    ).push(Instr::LoopClose(oi as nat)));
                }
            },
        }
    }
}

/// Lex one character, the head of the remaining source `rem`: exactly what
/// [`lex_char`] says of the state the three variables denote, phrased as
/// one step of [`lex_from`].
fn lex_one_char(
    tokens: &mut Vec<BFToken>,
    loop_stack: &mut Vec<(usize, usize)>,
    fpos: &mut usize,
    c: char,
) -> (err: Option<LexError>)
    requires
        lex_inv(lexer_view(old(tokens)@, old(loop_stack)@, *old(fpos))),
        positions_ok(old(tokens)@),
        *old(fpos) < usize::MAX,
    ensures
        positions_ok(final(tokens)@),
        match err {
            Option::None => {
                &&& lex_inv(lexer_view(final(tokens)@, final(loop_stack)@, *final(fpos)))
                &&& *old(fpos) <= *final(fpos) <= *old(fpos) + 1
                &&& lex_char(lexer_view(old(tokens)@, old(loop_stack)@, *old(fpos)), c)
                    == CharStep::Cont(
                    lexer_view(final(tokens)@, final(loop_stack)@, *final(fpos)),
                )
            },
            Option::Some(e) => lex_char(
                lexer_view(old(tokens)@, old(loop_stack)@, *old(fpos)),
                c,
            ) == CharStep::Fail(*old(fpos) as nat) && e == LexError::UnmatchedCloseBracket(
                *old(fpos),
            ),
        },
{
    let ghost st0 = lexer_view(tokens@, loop_stack@, *fpos);
    proof {
        reveal(lex_char);
        reveal(lex_inv);
        reveal(positions_ok);
        lemma_lex_char_inv(st0, c);
    }
    if c == '>' {
        emit_run(tokens, BFTokenType::MovePtrForward(1), Ghost(st0.fpos));
        *fpos = *fpos + 1;
    } else if c == '<' {
        emit_run(tokens, BFTokenType::MovePtrBackward(1), Ghost(st0.fpos));
        *fpos = *fpos + 1;
    } else if c == '+' {
        emit_run(tokens, BFTokenType::AddCell(1), Ghost(st0.fpos));
        *fpos = *fpos + 1;
    } else if c == '-' {
        emit_run(tokens, BFTokenType::SubCell(1), Ghost(st0.fpos));
        *fpos = *fpos + 1;
    } else if c == '.' {
        let idx = tokens.len();
        tokens.push(BFToken { token_type: BFTokenType::Output, pos: idx + 1 });
        proof {
            assert(instrs_of(tokens@) =~= st0.tokens.push(Instr::Output));
        }
        *fpos = *fpos + 1;
    } else if c == ',' {
        let idx = tokens.len();
        tokens.push(BFToken { token_type: BFTokenType::Input, pos: idx + 1 });
        proof {
            assert(instrs_of(tokens@) =~= st0.tokens.push(Instr::Input));
        }
        *fpos = *fpos + 1;
    } else if c == '[' {
        let idx = tokens.len();
        loop_stack.push((idx, *fpos));
        tokens.push(BFToken { token_type: BFTokenType::LoopOpen(0), pos: idx + 1 });
        proof {
            assert(instrs_of(tokens@) =~= st0.tokens.push(Instr::LoopOpen(0)));
            assert(stack_view(loop_stack@) =~= st0.stack.push((st0.tokens.len(), st0.fpos)));
        }
        *fpos = *fpos + 1;
    } else if c == ']' {
        if loop_stack.len() == 0 {
            proof {
                reveal(lex_char);
                assert(st0.stack.len() == 0);
            }
            return Some(LexError::UnmatchedCloseBracket(*fpos));
        }
        let entry = loop_stack.pop().unwrap();
        let oi = entry.0;
        proof {
            let top: int = st0.stack.len() - 1;
            assert(st0.stack[top] == (oi as nat, entry.1 as nat));
            assert(st0.stack[top].0 < st0.tokens.len());
            assert(stack_view(loop_stack@) =~= st0.stack.drop_last());
        }
        close_bracket(tokens, oi);
        *fpos = *fpos + 1;
    }
    proof {
        reveal(lex_char);
        let st1 = lexer_view(tokens@, loop_stack@, *fpos);
        match lex_char(st0, c) {
            CharStep::Cont(st2) => {
                assert(st1.tokens =~= st2.tokens);
                assert(st1.stack =~= st2.stack);
                assert(st1 == st2);
            },
            CharStep::Fail(_) => {
                assert(false);
            },
        }
    }
    None
}

impl Lexer<Vec<BFToken>> for BFLexer {
    /// Lexing returns exactly what [`lex_spec`] says of the source text:
    /// on success, the instruction sequence it gives, each token carrying
    /// its index plus one; on an unmatched bracket, the corresponding
    /// error, carrying the bracket's filtered position.
    open spec fn parse_ens(input: Seq<char>, r: LexResult<Vec<BFToken>>) -> bool {
        match lex_spec(input) {
            LexOutcome::Tokens(toks) => r matches LexResult::Success(v) && instrs_of(v@) == toks
                && positions_ok(v@),
            LexOutcome::FailOpen(p) => r == LexResult::<Vec<BFToken>>::Error(
                LexError::UnmatchedOpenBracket(p as usize),
            ),
            LexOutcome::FailClose(p) => r == LexResult::<Vec<BFToken>>::Error(
                LexError::UnmatchedCloseBracket(p as usize),
            ),
        }
    }

    fn parse(input_string: String) -> (r: LexResult<Vec<BFToken>>) {
        let ghost s = input_string@;
        let source = input_string.as_str();
        let total: usize = source.unicode_len();
        let mut tokens: Vec<BFToken> = Vec::new();
        let mut loop_stack: Vec<(usize, usize)> = Vec::new();
        let mut fpos: usize = 0;
        let mut it = source.chars();
        proof {
            lemma_init_inv();
            reveal(positions_ok);
            assert(instrs_of(tokens@) =~= Seq::<Instr>::empty());
            assert(stack_view(loop_stack@) =~= Seq::<(nat, nat)>::empty());
            assert(lexer_view(tokens@, loop_stack@, fpos) == init_state());
        }
        loop
            invariant
                s == input_string@,
                total as nat == s.len(),
                it.obeys_prophetic_iter_laws(),
                it.decrease() is Some,
                lex_inv(lexer_view(tokens@, loop_stack@, fpos)),
                positions_ok(tokens@),
                lex_from(s, init_state()) == lex_from(
                    it.remaining(),
                    lexer_view(tokens@, loop_stack@, fpos),
                ),
                fpos + it.remaining().len() <= s.len(),
            ensures
                it.remaining().len() == 0,
                lex_inv(lexer_view(tokens@, loop_stack@, fpos)),
                positions_ok(tokens@),
                lex_from(s, init_state()) == lex_from(
                    it.remaining(),
                    lexer_view(tokens@, loop_stack@, fpos),
                ),
            decreases it.decrease().unwrap(),
        {
            let ghost rem0 = it.remaining();
            let next_c = it.next();
            match next_c {
                Option::None => {
                    break ;
                },
                Option::Some(c) => {
                    let ghost st0 = lexer_view(tokens@, loop_stack@, fpos);
                    proof {
                        lemma_lex_from_step(rem0, st0);
                    }
                    let ghost fpos0 = fpos;
                    let err = lex_one_char(&mut tokens, &mut loop_stack, &mut fpos, c);
                    match err {
                        Option::Some(e) => {
                            proof {
                                assert(lex_from(rem0, st0) == LexOutcome::FailClose(fpos0 as nat));
                            }
                            return LexResult::Error(e);
                        },
                        Option::None => {},
                    }
                },
            }
        }
        proof {
            let stf = lexer_view(tokens@, loop_stack@, fpos);
            assert(lex_from(it.remaining(), stf) == if stf.stack.len() == 0 {
                LexOutcome::Tokens(stf.tokens)
            } else {
                LexOutcome::FailOpen(stf.stack[0].1)
            });
        }
        if loop_stack.len() == 0 {
            LexResult::Success(tokens)
        } else {
            let first = loop_stack[0];
            proof {
                assert(stack_view(loop_stack@)[0] == (first.0 as nat, first.1 as nat));
            }
            LexResult::Error(LexError::UnmatchedOpenBracket(first.1))
        }
    }
}


/// Dead-loop elimination: the source `[]` lexes to the empty instruction
/// sequence — the optimizer strips the pair entirely.
pub proof fn lemma_empty_loop_stripped()
    ensures
        lex_spec(seq!['[', ']']) == LexOutcome::Tokens(Seq::<Instr>::empty()),
{
    reveal(lex_char);
    let s = seq!['[', ']'];
    let st0 = init_state();
    let st1 = LexState { tokens: seq![Instr::LoopOpen(0)], stack: seq![(0nat, 0nat)], fpos: 1nat };
    assert(st0.tokens.push(Instr::LoopOpen(0)) =~= st1.tokens);
    assert(st0.stack.push((st0.tokens.len(), st0.fpos)) =~= st1.stack);
    assert(lex_char(st0, '[') == CharStep::Cont(st1));
    assert(s[0] == '[');
    lemma_lex_from_step(s, st0);
    assert(lex_from(s, st0) == lex_from(s.drop_first(), st1));
    let s2 = s.drop_first();
    assert(s2 =~= seq![']']);
    let st2 = LexState { tokens: Seq::<Instr>::empty(), stack: Seq::<(nat, nat)>::empty(), fpos: 2nat };
    assert(st1.stack.last().0 == 0nat);
    assert(close_loop(st1.tokens, 0nat) =~= st2.tokens);
    assert(st1.stack.drop_last() =~= st2.stack);
    assert(lex_char(st1, ']') == CharStep::Cont(st2));
    lemma_lex_from_step(s2, st1);
    assert(lex_from(s2, st1) == lex_from(s2.drop_first(), st2));
    assert(s2.drop_first().len() == 0);
    assert(lex_from(s2.drop_first(), st2) == LexOutcome::Tokens(st2.tokens));
}

} // verus!
