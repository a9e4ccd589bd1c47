//! The virtual machine: executes an instruction sequence against a bounded,
//! wrapping memory tape, consuming input bytes and producing output bytes.

use vstd::arithmetic::div_mod::lemma_add_mod_noop;
use vstd::arithmetic::div_mod::lemma_mod_add_multiples_vanish;
use vstd::arithmetic::div_mod::lemma_small_mod;
use vstd::arithmetic::div_mod::lemma_sub_mod_noop;
use vstd::prelude::*;

use crate::bf_lexer::instrs_of;
use crate::bf_lexer::targets_ok;
use crate::bf_lexer::BFToken;
use crate::bf_lexer::BFTokenType;
use crate::bf_lexer::Instr;
use crate::traits::VMError;
use crate::traits::VMResult;
use crate::traits::VM;

verus! {

/// The number of cells on the tape.
pub const TAPE_LEN: usize = 60000;

/// Where the data pointer starts: the middle of the tape, so it can move in
/// either direction before running out of room.
pub const START_PTR: usize = 30000;

/// Run-time behaviour toggles, passed explicitly into the machine.
#[derive(Clone, Copy, Debug, PartialEq, Eq, Structural)]
pub struct VMSettings {
    /// When set, a short prompt (`"\n> "`) is written to the output sink
    /// before each input byte is read.
    pub prompt_for_input: bool,
}

impl VMSettings {
    pub fn new() -> (s: VMSettings)
        ensures
            s.prompt_for_input == false,
    {
        VMSettings { prompt_for_input: false }
    }
}

/// The observable state of one moment of execution: the tape, the data
/// pointer, the instruction pointer, how many input bytes are consumed, and
/// everything written to the output sink so far.
#[verifier::ext_equal]
pub struct MachState {
    pub mem: Seq<u8>,
    pub dp: nat,
    pub ip: nat,
    pub inp: nat,
    pub out: Seq<u8>,
}

/// One instruction's outcome: the next state, or a terminal error together
/// with the state at the failure.
pub enum StepResult {
    Next(MachState),
    Halt(VMError, MachState),
}

/// The value `v` modulo 256, as a byte.
pub open spec fn wrap_byte(v: int) -> u8 {
    (v % 256) as u8
}

/// The bytes of the input prompt `"\n> "`.
pub open spec fn prompt_bytes() -> Seq<u8> {
    seq![10u8, 62u8, 32u8]
}

/// One instruction of execution. Cell arithmetic is modulo 256; pointer
/// moves that would leave the tape fail; reading exhausted input fails.
/// Jumps land one past their resolved target, which re-enters the loop body
/// or leaves the loop. Opaque: [`BFVM::step`]'s contract is stated over it.
#[verifier::opaque]
pub open spec fn spec_step(prog: Seq<Instr>, input: Seq<u8>, prompt: bool, st: MachState) -> StepResult {
    if st.ip >= prog.len() {
        StepResult::Next(st)
    } else {
        match prog[st.ip as int] {
            Instr::MovePtrForward(x) => if st.dp + x < TAPE_LEN {
                StepResult::Next(MachState { dp: (st.dp + x) as nat, ip: st.ip + 1, ..st })
            } else {
                StepResult::Halt(VMError::TapeBoundsError, st)
            },
            Instr::MovePtrBackward(x) => if x <= st.dp {
                StepResult::Next(MachState { dp: (st.dp - x) as nat, ip: st.ip + 1, ..st })
            } else {
                StepResult::Halt(VMError::TapeBoundsError, st)
            },
            Instr::AddCell(x) => StepResult::Next(
                MachState {
                    mem: st.mem.update(st.dp as int, wrap_byte(st.mem[st.dp as int] + x)),
                    ip: st.ip + 1,
                    ..st
                },
            ),
            Instr::SubCell(x) => StepResult::Next(
                MachState {
                    mem: st.mem.update(st.dp as int, wrap_byte(st.mem[st.dp as int] - x)),
                    ip: st.ip + 1,
                    ..st
                },
            ),
            Instr::Output => StepResult::Next(
                MachState { out: st.out.push(st.mem[st.dp as int]), ip: st.ip + 1, ..st },
            ),
            Instr::Input => {
                let out2 = if prompt {
                    st.out + prompt_bytes()
                } else {
                    st.out
                };
                if st.inp < input.len() {
                    StepResult::Next(
                        MachState {
                            mem: st.mem.update(st.dp as int, input[st.inp as int]),
                            inp: st.inp + 1,
                            out: out2,
                            ip: st.ip + 1,
                            ..st
                        },
                    )
                } else {
                    StepResult::Halt(VMError::IOError, MachState { out: out2, ..st })
                }
            },
            Instr::LoopOpen(t) => StepResult::Next(
                MachState {
                    ip: if st.mem[st.dp as int] == 0 {
                        t + 1
                    } else {
                        st.ip + 1
                    },
                    ..st
                },
            ),
            Instr::LoopClose(t) => StepResult::Next(
                MachState {
                    ip: if st.mem[st.dp as int] != 0 {
                        t + 1
                    } else {
                        st.ip + 1
                    },
                    ..st
                },
            ),
            Instr::SetCell(v) => StepResult::Next(
                MachState { mem: st.mem.update(st.dp as int, wrap_byte(v)), ip: st.ip + 1, ..st },
            ),
            Instr::AddToOffset(k) => if 0 <= st.dp + k && st.dp + k < TAPE_LEN {
                StepResult::Next(
                    MachState {
                        mem: st.mem.update(
                            st.dp + k,
                            wrap_byte(st.mem[st.dp + k] + st.mem[st.dp as int]),
                        ).update(st.dp as int, 0),
                        ip: st.ip + 1,
                        ..st
                    },
                )
            } else {
                StepResult::Halt(VMError::TapeBoundsError, st)
            },
        }
    }
}

/// The outcome of running for a bounded number of instructions: the final
/// state of a completed run, a terminal error with the state at the
/// failure, or the state reached when the bound ran out first.
pub enum RunResult {
    Done(MachState),
    Fail(VMError, MachState),
    More(MachState),
}

/// Execution from a state for at most `fuel` instructions.
pub open spec fn spec_run(
    prog: Seq<Instr>,
    input: Seq<u8>,
    prompt: bool,
    st: MachState,
    fuel: nat,
) -> RunResult
    decreases fuel,
{
    if st.ip >= prog.len() {
        RunResult::Done(st)
    } else if fuel == 0 {
        RunResult::More(st)
    } else {
        match spec_step(prog, input, prompt, st) {
            StepResult::Next(st2) => spec_run(prog, input, prompt, st2, (fuel - 1) as nat),
            StepResult::Halt(e, st2) => RunResult::Fail(e, st2),
        }
    }
}

/// A completed or failed run keeps its outcome under more fuel.
pub proof fn lemma_spec_run_absorbs(
    prog: Seq<Instr>,
    input: Seq<u8>,
    prompt: bool,
    st: MachState,
    a: nat,
    b: nat,
)
    requires
        a <= b,
        !(spec_run(prog, input, prompt, st, a) matches RunResult::More(_)),
    ensures
        spec_run(prog, input, prompt, st, b) == spec_run(prog, input, prompt, st, a),
    decreases a,
{
    if st.ip >= prog.len() {
    } else {
        match spec_step(prog, input, prompt, st) {
            StepResult::Next(st2) => {
                lemma_spec_run_absorbs(prog, input, prompt, st2, (a - 1) as nat, (b - 1) as nat);
            },
            StepResult::Halt(_, _) => {},
        }
    }
}

/// Running `a + b` instructions is running `a`, then `b` more.
pub proof fn lemma_spec_run_adds(
    prog: Seq<Instr>,
    input: Seq<u8>,
    prompt: bool,
    st: MachState,
    a: nat,
    b: nat,
)
    requires
        spec_run(prog, input, prompt, st, a) matches RunResult::More(_),
    ensures
        spec_run(prog, input, prompt, st, a + b) == spec_run(
            prog,
            input,
            prompt,
            spec_run(prog, input, prompt, st, a)->More_0,
            b,
        ),
    decreases a,
{
    if st.ip >= prog.len() {
    } else if a == 0 {
    } else {
        match spec_step(prog, input, prompt, st) {
            StepResult::Next(st2) => {
                lemma_spec_run_adds(prog, input, prompt, st2, (a - 1) as nat, b);
            },
            StepResult::Halt(_, _) => {},
        }
    }
}

/// The run outcome a result and a final state denote.
pub open spec fn run_outcome(r: Option<VMResult>, m: MachState) -> RunResult {
    match r {
        Option::Some(VMResult::Success) => RunResult::Done(m),
        Option::Some(VMResult::Error(e)) => RunResult::Fail(e, m),
        Option::None => RunResult::More(m),
    }
}

/// The virtual machine: the tape, the data pointer, the instruction
/// pointer, how many input bytes it has consumed, and its settings.
pub struct BFVM {
    pub mem: Vec<u8>,
    pub data_ptr: usize,
    pub inst_ptr: usize,
    pub in_pos: usize,
    pub settings: VMSettings,
}

impl BFVM {
    /// The machine's internal invariant: a full-size tape and a data
    /// pointer on it.
    pub open spec fn wf(self) -> bool {
        &&& self.mem@.len() == TAPE_LEN
        &&& self.data_ptr < TAPE_LEN
    }

    /// The machine state this machine and an output history denote.
    pub open spec fn mach(self, out: Seq<u8>) -> MachState {
        MachState {
            mem: self.mem@,
            dp: self.data_ptr as nat,
            ip: self.inst_ptr as nat,
            inp: self.in_pos as nat,
            out,
        }
    }

    /// A fresh machine: the tape all zero, the data pointer at the
    /// midpoint, nothing executed and nothing read.
    pub fn new(settings: VMSettings) -> (vm: BFVM)
        ensures
            vm.wf(),
            vm.mem@ == Seq::new(TAPE_LEN as nat, |i: int| 0u8),
            vm.data_ptr == START_PTR,
            vm.inst_ptr == 0,
            vm.in_pos == 0,
            vm.settings == settings,
    {
        let mut mem: Vec<u8> = Vec::new();
        let mut i: usize = 0;
        while i < TAPE_LEN
            invariant
                i <= TAPE_LEN,
                mem@.len() == i,
                forall|j: int| 0 <= j < i ==> mem@[j] == 0u8,
            decreases TAPE_LEN - i,
        {
            mem.push(0u8);
            i = i + 1;
        }
        proof {
            assert(mem@ =~= Seq::new(TAPE_LEN as nat, |k: int| 0u8));
        }
        BFVM { mem, data_ptr: START_PTR, inst_ptr: 0, in_pos: 0, settings }
    }
}

impl BFVM {
    /// Interpret the current instruction: exactly one [`spec_step`] of the
    /// denoted machine state, reading from `input` and appending to
    /// `output`. On an error the machine is left at the failing
    /// instruction.
    pub fn step(&mut self, data: &Vec<BFToken>, input: &Vec<u8>, output: &mut Vec<u8>) -> (r:
        VMResult)
        requires
            old(self).wf(),
            (old(self).inst_ptr as nat) < data@.len(),
            targets_ok(instrs_of(data@)),
            old(self).in_pos <= input@.len(),
        ensures
            final(self).wf(),
            final(self).settings == old(self).settings,
            final(self).in_pos <= input@.len(),
            final(self).inst_ptr <= data@.len(),
            match spec_step(
                instrs_of(data@),
                input@,
                old(self).settings.prompt_for_input,
                old(self).mach(old(output)@),
            ) {
                StepResult::Next(m) => r == VMResult::Success && final(self).mach(final(output)@)
                    == m,
                StepResult::Halt(e, m) => r == VMResult::Error(e) && final(self).mach(
                    final(output)@,
                ) == m,
            },
    {
        proof {
            reveal(spec_step);
        }
        let ghost prog = instrs_of(data@);
        let ghost m0 = self.mach(output@);
        // pins the program's length as a usize, so target arithmetic fits
        let _proglen = data.len();
        let tok = data[self.inst_ptr].token_type;
        proof {
            assert(prog[self.inst_ptr as int] == crate::bf_lexer::instr_of(tok));
        }
        match tok {
            BFTokenType::MovePtrForward(x) => {
                if x < TAPE_LEN && self.data_ptr + x < TAPE_LEN {
                    self.data_ptr = self.data_ptr + x;
                    self.inst_ptr = self.inst_ptr + 1;
                    VMResult::Success
                } else {
                    VMResult::Error(VMError::TapeBoundsError)
                }
            },
            BFTokenType::MovePtrBackward(x) => {
                if x <= self.data_ptr {
                    self.data_ptr = self.data_ptr - x;
                    self.inst_ptr = self.inst_ptr + 1;
                    VMResult::Success
                } else {
                    VMResult::Error(VMError::TapeBoundsError)
                }
            },
            BFTokenType::AddCell(x) => {
                let amt: usize = x % 256;
                let cell: u8 = self.mem[self.data_ptr];
                let nv: u8 = (((cell as usize) + amt) % 256) as u8;
                proof {
                    lemma_wrap_add(cell as int, x as int);
                }
                self.mem[self.data_ptr] = nv;
                self.inst_ptr = self.inst_ptr + 1;
                proof {
                    assert(self.mach(output@) =~= MachState {
                        mem: m0.mem.update(m0.dp as int, wrap_byte(m0.mem[m0.dp as int] + x)),
                        ip: m0.ip + 1,
                        ..m0
                    });
                }
                VMResult::Success
            },
            BFTokenType::SubCell(x) => {
                let amt: usize = x % 256;
                let cell: u8 = self.mem[self.data_ptr];
                let nv: u8 = (((cell as usize) + 256 - amt) % 256) as u8;
                proof {
                    lemma_wrap_sub(cell as int, x as int);
                }
                self.mem[self.data_ptr] = nv;
                self.inst_ptr = self.inst_ptr + 1;
                proof {
                    assert(self.mach(output@) =~= MachState {
                        mem: m0.mem.update(m0.dp as int, wrap_byte(m0.mem[m0.dp as int] - x)),
                        ip: m0.ip + 1,
                        ..m0
                    });
                }
                VMResult::Success
            },
            BFTokenType::Output => {
                output.push(self.mem[self.data_ptr]);
                self.inst_ptr = self.inst_ptr + 1;
                VMResult::Success
            },
            BFTokenType::Input => {
                if self.settings.prompt_for_input {
                    output.push(10u8);
                    output.push(62u8);
                    output.push(32u8);
                    proof {
                        assert(output@ =~= m0.out + prompt_bytes());
                    }
                }
                if self.in_pos < input.len() {
                    self.mem[self.data_ptr] = input[self.in_pos];
                    self.in_pos = self.in_pos + 1;
                    self.inst_ptr = self.inst_ptr + 1;
                    VMResult::Success
                } else {
                    VMResult::Error(VMError::IOError)
                }
            },
            BFTokenType::LoopOpen(t) => {
                if self.mem[self.data_ptr] == 0 {
                    self.inst_ptr = t + 1;
                } else {
                    self.inst_ptr = self.inst_ptr + 1;
                }
                VMResult::Success
            },
            BFTokenType::LoopClose(t) => {
                if self.mem[self.data_ptr] != 0 {
                    self.inst_ptr = t + 1;
                } else {
                    self.inst_ptr = self.inst_ptr + 1;
                }
                VMResult::Success
            },
            BFTokenType::SetCell(v) => {
                let nv: u8 = if v >= 0 {
                    v as u8
                } else {
                    ((v as i16) + 256) as u8
                };
                proof {
                    lemma_wrap_small(v as int);
                }
                self.mem[self.data_ptr] = nv;
                self.inst_ptr = self.inst_ptr + 1;
                proof {
                    assert(self.mach(output@) =~= MachState {
                        mem: m0.mem.update(m0.dp as int, wrap_byte(v as int)),
                        ip: m0.ip + 1,
                        ..m0
                    });
                }
                VMResult::Success
            },
            BFTokenType::AddToOffset(k) => {
                let in_range: bool;
                let tgt: usize;
                if k >= 0 {
                    let off = k as usize;
                    if off < TAPE_LEN && self.data_ptr + off < TAPE_LEN {
                        in_range = true;
                        tgt = self.data_ptr + off;
                    } else {
                        in_range = false;
                        tgt = 0;
                    }
                } else {
                    let off = ((0isize - (k + 1)) as usize) + 1;
                    proof {
                        assert(off as int == -(k as int));
                    }
                    if off <= self.data_ptr {
                        in_range = true;
                        tgt = self.data_ptr - off;
                    } else {
                        in_range = false;
                        tgt = 0;
                    }
                }
                if in_range {
                    let cur: u8 = self.mem[self.data_ptr];
                    let dst: u8 = self.mem[tgt];
                    let nv: u8 = (((dst as usize) + (cur as usize)) % 256) as u8;
                    self.mem[tgt] = nv;
                    self.mem[self.data_ptr] = 0;
                    self.inst_ptr = self.inst_ptr + 1;
                    proof {
                        assert(self.mach(output@) =~= MachState {
                            mem: m0.mem.update(
                                m0.dp + k,
                                wrap_byte(m0.mem[m0.dp + k] + m0.mem[m0.dp as int]),
                            ).update(m0.dp as int, 0),
                            ip: m0.ip + 1,
                            ..m0
                        });
                    }
                    VMResult::Success
                } else {
                    VMResult::Error(VMError::TapeBoundsError)
                }
            },
        }
    }
}

/// `(c + x) % 256` can be computed from `x % 256`.
proof fn lemma_wrap_add(c: int, x: int)
    requires
        0 <= c < 256,
        0 <= x,
    ensures
        (c + (x % 256)) % 256 == (c + x) % 256,
        0 <= (c + x % 256) % 256 < 256,
{
    lemma_add_mod_noop(c, x, 256);
    lemma_small_mod(c as nat, 256);
    lemma_small_mod((x % 256) as nat, 256);
    lemma_add_mod_noop(c, x % 256, 256);
}

/// `(c - x) % 256` can be computed from `256 - x % 256`.
proof fn lemma_wrap_sub(c: int, x: int)
    requires
        0 <= c < 256,
        0 <= x,
    ensures
        (c + 256 - (x % 256)) % 256 == (c - x) % 256,
        0 <= (c + 256 - x % 256) % 256 < 256,
{
    lemma_sub_mod_noop(c, x, 256);
    lemma_small_mod(c as nat, 256);
    lemma_small_mod((x % 256) as nat, 256);
    lemma_sub_mod_noop(c, x % 256, 256);
    lemma_mod_add_multiples_vanish(c - x % 256, 256);
}

/// A signed byte modulo 256: itself if it is not negative, else itself
/// plus 256.
proof fn lemma_wrap_small(v: int)
    requires
        -128 <= v < 128,
    ensures
        v >= 0 ==> v % 256 == v,
        v < 0 ==> v % 256 == v + 256,
{
    if v >= 0 {
        lemma_small_mod(v as nat, 256);
    } else {
        lemma_mod_add_multiples_vanish(v, 256);
        lemma_small_mod((v + 256) as nat, 256);
    }
}


impl VM<BFToken> for BFVM {
    /// The machine is well formed, every jump target of the program lands
    /// inside it, and no consumed input is missing.
    open spec fn run_req(&self, data: Seq<BFToken>, input: Seq<u8>) -> bool {
        &&& self.wf()
        &&& targets_ok(instrs_of(data))
        &&& self.in_pos <= input.len()
    }

    /// Running is exactly [`spec_run`] for `fuel` instructions from the
    /// machine state before the call to the one after it: `Some(Success)`
    /// when the program completed, `Some(Error(e))` when it failed with
    /// `e`, `None` when the budget ran out first.
    open spec fn run_ens(
        &self,
        post: &Self,
        data: Seq<BFToken>,
        input: Seq<u8>,
        out_pre: Seq<u8>,
        out_post: Seq<u8>,
        fuel: u64,
        r: Option<VMResult>,
    ) -> bool {
        spec_run(
            instrs_of(data),
            input,
            self.settings.prompt_for_input,
            self.mach(out_pre),
            fuel as nat,
        ) == run_outcome(r, post.mach(out_post))
    }

    fn run(&mut self, data: Vec<BFToken>, input: &Vec<u8>, output: &mut Vec<u8>, fuel: u64) -> (r:
        Option<VMResult>) {
        let ghost prog = instrs_of(data@);
        let ghost inp = input@;
        let ghost pr = self.settings.prompt_for_input;
        let ghost m0 = self.mach(output@);
        let mut k: u64 = 0;
        let mut halted: Option<VMError> = None;
        loop
            invariant_except_break
                halted is None,
                k <= fuel,
                spec_run(prog, inp, pr, m0, k as nat) == (if (self.mach(output@)).ip
                    >= prog.len() {
                    RunResult::Done(self.mach(output@))
                } else {
                    RunResult::More(self.mach(output@))
                }),
            invariant
                self.wf(),
                prog == instrs_of(data@),
                inp == input@,
                targets_ok(prog),
                self.settings.prompt_for_input == pr,
                self.in_pos <= input@.len(),
            ensures
                match halted {
                    Option::Some(e) => spec_run(prog, inp, pr, m0, fuel as nat) == RunResult::Fail(
                        e,
                        self.mach(output@),
                    ),
                    Option::None => spec_run(prog, inp, pr, m0, fuel as nat) == (if (self.mach(
                        output@,
                    )).ip >= prog.len() {
                        RunResult::Done(self.mach(output@))
                    } else {
                        RunResult::More(self.mach(output@))
                    }) && (((self.inst_ptr as nat) >= data@.len()) || k == fuel),
                },
            decreases fuel - k,
        {
            proof {
                assert(prog.len() == data@.len());
            }
            if self.inst_ptr >= data.len() {
                proof {
                    lemma_spec_run_absorbs(prog, inp, pr, m0, k as nat, fuel as nat);
                }
                break ;
            }
            if k == fuel {
                break ;
            }
            let ghost mpre = self.mach(output@);
            let sr = self.step(&data, input, output);
            proof {
                assert(spec_run(prog, inp, pr, m0, k as nat) == RunResult::More(mpre));
                lemma_spec_run_adds(prog, inp, pr, m0, k as nat, 1nat);
            }
            match sr {
                VMResult::Success => {
                    proof {
                        match spec_step(prog, inp, pr, mpre) {
                            StepResult::Next(m2) => {
                                assert(spec_run(prog, inp, pr, mpre, 1nat) == spec_run(
                                    prog,
                                    inp,
                                    pr,
                                    m2,
                                    0nat,
                                ));
                                assert(spec_run(prog, inp, pr, m0, (k as nat) + 1) == spec_run(
                                    prog,
                                    inp,
                                    pr,
                                    m2,
                                    0nat,
                                ));
                            },
                            StepResult::Halt(_, _) => {
                                assert(false);
                            },
                        }
                    }
                    k = k + 1;
                },
                VMResult::Error(e) => {
                    proof {
                        match spec_step(prog, inp, pr, mpre) {
                            StepResult::Halt(e2, m2) => {
                                assert(spec_run(prog, inp, pr, mpre, 1nat) == RunResult::Fail(
                                    e2,
                                    m2,
                                ));
                            },
                            StepResult::Next(_) => {
                                assert(false);
                            },
                        }
                        lemma_spec_run_absorbs(prog, inp, pr, m0, (k + 1) as nat, fuel as nat);
                    }
                    halted = Some(e);
                    break ;
                },
            }
        }
        match halted {
            Option::Some(e) => Some(VMResult::Error(e)),
            Option::None => {
                if self.inst_ptr >= data.len() {
                    Some(VMResult::Success)
                } else {
                    None
                }
            },
        }
    }
}

/// Whether every jump target of the token sequence lands inside it: the
/// executable check of [`targets_ok`], which `run` requires of its program.
/// Every sequence the lexer produces passes it.
pub fn targets_resolved(data: &Vec<BFToken>) -> (r: bool)
    ensures
        r == targets_ok(instrs_of(data@)),
{
    let n = data.len();
    let mut i: usize = 0;
    while i < n
        invariant
            i <= n,
            n == data@.len(),
            forall|j: int|
                0 <= j < i ==> match #[trigger] instrs_of(data@)[j] {
                    Instr::LoopOpen(t) => t < data@.len(),
                    Instr::LoopClose(t) => t < data@.len(),
                    _ => true,
                },
        decreases n - i,
    {
        let bad: bool = match data[i].token_type {
            BFTokenType::LoopOpen(t) => t >= n,
            BFTokenType::LoopClose(t) => t >= n,
            _ => false,
        };
        proof {
            assert(instrs_of(data@)[i as int] == crate::bf_lexer::instr_of(data@[i as int].token_type));
        }
        if bad {
            proof {
                assert(!targets_ok(instrs_of(data@)));
            }
            return false;
        }
        i = i + 1;
    }
    true
}

/// The two instructions an empty loop lexes to before the optimizer
/// deletes it.
pub open spec fn empty_loop_prog() -> Seq<Instr> {
    seq![Instr::LoopOpen(1), Instr::LoopClose(0)]
}

/// An empty loop reached with the current cell zero terminates at once and
/// changes nothing observable: no cell, no pointer, no input, no output —
/// only the instruction pointer moves past it. Deleting it is sound.
pub proof fn lemma_dead_loop_no_effect(
    mem: Seq<u8>,
    dp: nat,
    inp: nat,
    out: Seq<u8>,
    input: Seq<u8>,
    prompt: bool,
)
    requires
        dp < mem.len(),
        mem[dp as int] == 0,
    ensures
        spec_run(
            empty_loop_prog(),
            input,
            prompt,
            MachState { mem, dp, ip: 0, inp, out },
            1,
        ) == RunResult::Done(MachState { mem, dp, ip: 2, inp, out }),
{
    reveal(spec_step);
    let prog = empty_loop_prog();
    let st0 = MachState { mem, dp, ip: 0, inp, out };
    let st2 = MachState { mem, dp, ip: 2, inp, out };
    assert(prog[0] == Instr::LoopOpen(1));
    assert(spec_step(prog, input, prompt, st0) == StepResult::Next(st2));
    assert(spec_run(prog, input, prompt, st0, 1) == spec_run(prog, input, prompt, st2, 0));
}

/// The six instructions of the unoptimized copy loop at offset `k`: what
/// the source `[->+<]` (with `k` pointer moves each way) lexes to when the
/// optimizer leaves it alone, targets resolved.
pub open spec fn copy_loop_prog(k: nat) -> Seq<Instr> {
    seq![
        Instr::LoopOpen(5),
        Instr::SubCell(1),
        Instr::MovePtrForward(k),
        Instr::AddCell(1),
        Instr::MovePtrBackward(k),
        Instr::LoopClose(0),
    ]
}

/// One pass of the copy loop body, entered with the current cell at
/// `c >= 1`: the loop runs to completion, moving the cell's value onto the
/// cell `k` away.
proof fn lemma_copy_loop_body(
    mem: Seq<u8>,
    dp: nat,
    k: nat,
    inp: nat,
    out: Seq<u8>,
    input: Seq<u8>,
    prompt: bool,
    c: u8,
)
    requires
        mem.len() == TAPE_LEN,
        dp + k < TAPE_LEN,
        1 <= k,
        mem[dp as int] == c,
        c >= 1,
    ensures
        exists|fuel: nat|
            spec_run(
                copy_loop_prog(k),
                input,
                prompt,
                MachState { mem, dp, ip: 1, inp, out },
                fuel,
            ) == RunResult::Done(
                MachState {
                    mem: mem.update((dp + k) as int, wrap_byte(mem[(dp + k) as int] + c)).update(dp as int, 0),
                    dp,
                    ip: 6,
                    inp,
                    out,
                },
            ),
    decreases c,
{
    reveal(spec_step);
    let prog = copy_loop_prog(k);
    let w = mem[(dp + k) as int];
    let st1 = MachState { mem, dp, ip: 1, inp, out };
    lemma_small_mod((c - 1) as nat, 256);
    let mem1 = mem.update(dp as int, (c - 1) as u8);
    assert(wrap_byte(c - 1) == (c - 1) as u8);
    let st2 = MachState { mem: mem1, dp, ip: 2, inp, out };
    assert(spec_step(prog, input, prompt, st1) == StepResult::Next(st2));
    let st3 = MachState { mem: mem1, dp: dp + k, ip: 3, inp, out };
    assert(spec_step(prog, input, prompt, st2) == StepResult::Next(st3));
    assert(mem1[(dp + k) as int] == w);
    let mem2 = mem1.update((dp + k) as int, wrap_byte(w + 1));
    let st4 = MachState { mem: mem2, dp: dp + k, ip: 4, inp, out };
    assert(spec_step(prog, input, prompt, st3) == StepResult::Next(st4));
    let st5 = MachState { mem: mem2, dp, ip: 5, inp, out };
    assert(spec_step(prog, input, prompt, st4) == StepResult::Next(st5));
    assert(mem2[dp as int] == (c - 1) as u8);
    if c == 1 {
        let st6 = MachState { mem: mem2, dp, ip: 6, inp, out };
        assert(spec_step(prog, input, prompt, st5) == StepResult::Next(st6));
        assert(spec_run(prog, input, prompt, st1, 5nat) == spec_run(
            prog,
            input,
            prompt,
            st2,
            4nat,
        ));
        assert(spec_run(prog, input, prompt, st2, 4nat) == spec_run(
            prog,
            input,
            prompt,
            st3,
            3nat,
        ));
        assert(spec_run(prog, input, prompt, st3, 3nat) == spec_run(
            prog,
            input,
            prompt,
            st4,
            2nat,
        ));
        assert(spec_run(prog, input, prompt, st4, 2nat) == spec_run(
            prog,
            input,
            prompt,
            st5,
            1nat,
        ));
        assert(spec_run(prog, input, prompt, st5, 1nat) == spec_run(
            prog,
            input,
            prompt,
            st6,
            0nat,
        ));
        assert(spec_run(prog, input, prompt, st6, 0nat) == RunResult::Done(st6));
        assert(mem2 =~= mem.update((dp + k) as int, wrap_byte(w + c)).update(dp as int, 0));
        assert(spec_run(prog, input, prompt, st1, 5nat) == RunResult::Done(
            MachState {
                mem: mem.update((dp + k) as int, wrap_byte(mem[(dp + k) as int] + c)).update(dp as int, 0),
                dp,
                ip: 6,
                inp,
                out,
            },
        ));
    } else {
        let st6 = MachState { mem: mem2, dp, ip: 1, inp, out };
        assert(spec_step(prog, input, prompt, st5) == StepResult::Next(st6));
        assert(mem2[dp as int] == (c - 1) as u8);
        lemma_copy_loop_body(mem2, dp, k, inp, out, input, prompt, (c - 1) as u8);
        let target2 = MachState {
            mem: mem2.update((dp + k) as int, wrap_byte(mem2[(dp + k) as int] + (c - 1))).update(dp as int, 0),
            dp,
            ip: 6,
            inp,
            out,
        };
        let f = choose|f: nat| spec_run(prog, input, prompt, st6, f) == RunResult::Done(target2);
        // the two rounds of wrapping add up to one
        lemma_add_mod_noop(w + 1, c - 1, 256);
        lemma_small_mod((c - 1) as nat, 256);
        assert(mem2[(dp + k) as int] == wrap_byte(w + 1));
        assert((wrap_byte(w + 1) + (c - 1)) % 256 == (w + c) % 256);
        assert(wrap_byte(wrap_byte(w + 1) + (c - 1)) == wrap_byte(w + c));
        assert(target2.mem =~= mem.update((dp + k) as int, wrap_byte(w + c)).update(dp as int, 0));
        assert(spec_run(prog, input, prompt, st1, (5 + f) as nat) == spec_run(
            prog,
            input,
            prompt,
            st2,
            (4 + f) as nat,
        ));
        assert(spec_run(prog, input, prompt, st2, (4 + f) as nat) == spec_run(
            prog,
            input,
            prompt,
            st3,
            (3 + f) as nat,
        ));
        assert(spec_run(prog, input, prompt, st3, (3 + f) as nat) == spec_run(
            prog,
            input,
            prompt,
            st4,
            (2 + f) as nat,
        ));
        assert(spec_run(prog, input, prompt, st4, (2 + f) as nat) == spec_run(
            prog,
            input,
            prompt,
            st5,
            (1 + f) as nat,
        ));
        assert(spec_run(prog, input, prompt, st5, (1 + f) as nat) == spec_run(
            prog,
            input,
            prompt,
            st6,
            f,
        ));
        assert(spec_run(prog, input, prompt, st1, (5 + f) as nat) == RunResult::Done(
            MachState {
                mem: mem.update((dp + k) as int, wrap_byte(mem[(dp + k) as int] + c)).update(dp as int, 0),
                dp,
                ip: 6,
                inp,
                out,
            },
        ));
    }
}

/// Peephole equivalence: from any tape whose current cell holds `v` and
/// whose cell `k` away holds `w`, executing the unoptimized copy loop
/// `[->+<]`-at-`k` to completion and executing the optimizer's single
/// `AddToOffset(k)` leave the identical final tape: the current cell 0, the
/// offset cell `(w + v) % 256`, and nothing else touched.
pub proof fn lemma_copy_loop_equivalence(
    mem: Seq<u8>,
    dp: nat,
    k: nat,
    inp: nat,
    out: Seq<u8>,
    input: Seq<u8>,
    prompt: bool,
)
    requires
        mem.len() == TAPE_LEN,
        dp + k < TAPE_LEN,
        1 <= k,
    ensures
        ({
            let v = mem[dp as int];
            let w = mem[(dp + k) as int];
            let final_mem = mem.update((dp + k) as int, wrap_byte(w + v)).update(dp as int, 0);
            &&& exists|fuel: nat|
                spec_run(
                    copy_loop_prog(k),
                    input,
                    prompt,
                    MachState { mem, dp, ip: 0, inp, out },
                    fuel,
                ) == RunResult::Done(MachState { mem: final_mem, dp, ip: 6, inp, out })
            &&& spec_step(
                seq![Instr::AddToOffset(k as int)],
                input,
                prompt,
                MachState { mem, dp, ip: 0, inp, out },
            ) == StepResult::Next(MachState { mem: final_mem, dp, ip: 1, inp, out })
        }),
{
    reveal(spec_step);
    let prog = copy_loop_prog(k);
    let v = mem[dp as int];
    let w = mem[(dp + k) as int];
    let final_mem = mem.update((dp + k) as int, wrap_byte(w + v)).update(dp as int, 0);
    let st0 = MachState { mem, dp, ip: 0, inp, out };
    lemma_small_mod(w as nat, 256);
    if v == 0 {
        let st6 = MachState { mem, dp, ip: 6, inp, out };
        assert(spec_step(prog, input, prompt, st0) == StepResult::Next(st6));
        assert(spec_run(prog, input, prompt, st0, 1nat) == spec_run(
            prog,
            input,
            prompt,
            st6,
            0nat,
        ));
        assert(final_mem =~= mem);
        assert(spec_run(prog, input, prompt, st0, 1nat) == RunResult::Done(
            MachState { mem: final_mem, dp, ip: 6, inp, out },
        ));
    } else {
        let st1 = MachState { mem, dp, ip: 1, inp, out };
        assert(spec_step(prog, input, prompt, st0) == StepResult::Next(st1));
        lemma_copy_loop_body(mem, dp, k, inp, out, input, prompt, v);
        let target = MachState { mem: final_mem, dp, ip: 6, inp, out };
        let f = choose|f: nat| spec_run(prog, input, prompt, st1, f) == RunResult::Done(target);
        assert(spec_run(prog, input, prompt, st0, (1 + f) as nat) == spec_run(
            prog,
            input,
            prompt,
            st1,
            f,
        ));
        assert(spec_run(prog, input, prompt, st0, (1 + f) as nat) == RunResult::Done(target));
    }
    // the optimizer's single instruction
    let prog2 = seq![Instr::AddToOffset(k as int)];
    assert(prog2[0] == Instr::AddToOffset(k as int));
    assert(spec_step(prog2, input, prompt, st0) == StepResult::Next(
        MachState { mem: final_mem, dp, ip: 1, inp, out },
    ));
}

} // verus!
