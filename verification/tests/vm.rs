use bf_lib::bf_lexer::{BFLexer, BFToken, BFTokenType};
use bf_lib::bf_vm::{targets_resolved, BFVM, VMSettings, START_PTR, TAPE_LEN};
use bf_lib::traits::{LexResult, Lexer, VMError, VMResult, VM};

const FUEL: u64 = 100_000_000;

fn parse_ok(src: &str) -> Vec<BFToken> {
    match BFLexer::parse(String::from(src)) {
        LexResult::Success(tokens) => tokens,
        LexResult::Error(e) => panic!("lexing {:?} failed: {:?}", src, e),
    }
}

fn run_program(src: &str, input: &[u8]) -> (Option<VMResult>, Vec<u8>) {
    let tokens = parse_ok(src);
    assert!(targets_resolved(&tokens));
    let mut vm = BFVM::new(VMSettings::new());
    let input: Vec<u8> = input.to_vec();
    let mut output: Vec<u8> = Vec::new();
    let r = vm.run(tokens, &input, &mut output, FUEL);
    (r, output)
}

#[test]
fn fresh_machine_state() {
    let vm = BFVM::new(VMSettings::new());
    assert_eq!(vm.mem.len(), TAPE_LEN);
    assert!(vm.mem.iter().all(|c| *c == 0));
    assert_eq!(vm.data_ptr, START_PTR);
    assert_eq!(vm.inst_ptr, 0);
    assert_eq!(vm.in_pos, 0);
}

#[test]
fn default_settings_do_not_prompt() {
    let s = VMSettings::new();
    assert!(!s.prompt_for_input);
}

#[test]
fn echo_one_byte() {
    let (r, out) = run_program(",.", &[65]);
    assert_eq!(r, Some(VMResult::Success));
    assert_eq!(out, vec![65]);
}

#[test]
fn hello_world() {
    let src = "++++++++[>++++[>++>+++>+++>+<<<<-]>+>+>->>+[<]<-]>>.>---.+++++++..+++.>>.\
               <-.<.+++.------.--------.>>+.>++.";
    let (r, out) = run_program(src, &[]);
    assert_eq!(r, Some(VMResult::Success));
    assert_eq!(out, b"Hello World!\n".to_vec());
}

#[test]
fn moving_past_the_tape_end_fails() {
    let src = ">".repeat(60001);
    let (r, out) = run_program(&src, &[]);
    assert_eq!(r, Some(VMResult::Error(VMError::TapeBoundsError)));
    assert!(out.is_empty());
}

#[test]
fn moving_before_the_tape_start_fails() {
    let exact = "<".repeat(30000);
    let (r, _) = run_program(&exact, &[]);
    assert_eq!(r, Some(VMResult::Success));
    let too_far = "<".repeat(30001);
    let (r, _) = run_program(&too_far, &[]);
    assert_eq!(r, Some(VMResult::Error(VMError::TapeBoundsError)));
}

#[test]
fn reading_exhausted_input_fails() {
    let (r, out) = run_program(",", &[]);
    assert_eq!(r, Some(VMResult::Error(VMError::IOError)));
    assert!(out.is_empty());
}

#[test]
fn cell_arithmetic_wraps_modulo_256() {
    // 0 - 1 wraps to 255
    let (r, out) = run_program("-.", &[]);
    assert_eq!(r, Some(VMResult::Success));
    assert_eq!(out, vec![255]);
    // a folded run of 300 increments adds 300 % 256 == 44
    let src = format!("{}.", "+".repeat(300));
    let (r, out) = run_program(&src, &[]);
    assert_eq!(r, Some(VMResult::Success));
    assert_eq!(out, vec![44]);
}

#[test]
fn zero_set_loop_clears_any_value() {
    let (r, out) = run_program("+++++[-].", &[]);
    assert_eq!(r, Some(VMResult::Success));
    assert_eq!(out, vec![0]);
}

#[test]
fn copy_loop_moves_the_cell_value() {
    // put 3 in the current cell, move it one cell up, print both cells
    let (r, out) = run_program("+++[->+<].>.", &[]);
    assert_eq!(r, Some(VMResult::Success));
    assert_eq!(out, vec![0, 3]);
}

#[test]
fn copy_loop_adds_to_the_destination() {
    // 2 in the current cell, 5 one up: after the loop the cells hold 0 and 7
    let (r, out) = run_program("++>+++++<[->+<].>.", &[]);
    assert_eq!(r, Some(VMResult::Success));
    assert_eq!(out, vec![0, 7]);
}

#[test]
fn dead_loop_is_unobservable() {
    let (r, out) = run_program("+.[].", &[]);
    assert_eq!(r, Some(VMResult::Success));
    assert_eq!(out, vec![1, 1]);
}

#[test]
fn prompt_is_written_before_input_is_read() {
    let tokens = parse_ok(",.");
    let mut settings = VMSettings::new();
    settings.prompt_for_input = true;
    let mut vm = BFVM::new(settings);
    let input: Vec<u8> = vec![7];
    let mut output: Vec<u8> = Vec::new();
    let r = vm.run(tokens, &input, &mut output, FUEL);
    assert_eq!(r, Some(VMResult::Success));
    assert_eq!(output, vec![b'\n', b'>', b' ', 7]);
}

#[test]
fn exhausted_fuel_reports_more_to_do() {
    // this loop never terminates: the cell alternates between 0 and 1,
    // and the close bracket always sees 1
    let tokens = parse_ok("+[-+]");
    let mut vm = BFVM::new(VMSettings::new());
    let input: Vec<u8> = Vec::new();
    let mut output: Vec<u8> = Vec::new();
    let r = vm.run(tokens, &input, &mut output, 1000);
    assert_eq!(r, None);
}

#[test]
fn run_can_be_resumed_after_fuel_runs_out() {
    let tokens = parse_ok("++++++++++.");
    let mut vm = BFVM::new(VMSettings::new());
    let input: Vec<u8> = Vec::new();
    let mut output: Vec<u8> = Vec::new();
    let mut verdict: Option<VMResult> = None;
    for _ in 0..20 {
        verdict = vm.run(tokens.clone(), &input, &mut output, 1);
        if verdict.is_some() {
            break;
        }
    }
    assert_eq!(verdict, Some(VMResult::Success));
    assert_eq!(output, vec![10]);
}

#[test]
fn targets_resolved_accepts_lexer_output_and_rejects_garbage() {
    assert!(targets_resolved(&parse_ok("[[.,]]")));
    let bogus = vec![BFToken { token_type: BFTokenType::LoopOpen(5), pos: 1 }];
    assert!(!targets_resolved(&bogus));
}

#[test]
fn step_interprets_one_instruction() {
    let tokens = parse_ok("+.");
    let mut vm = BFVM::new(VMSettings::new());
    let input: Vec<u8> = Vec::new();
    let mut output: Vec<u8> = Vec::new();
    let r = vm.step(&tokens, &input, &mut output);
    assert_eq!(r, VMResult::Success);
    assert_eq!(vm.inst_ptr, 1);
    assert_eq!(vm.mem[vm.data_ptr], 1);
    assert!(output.is_empty());
    let r = vm.step(&tokens, &input, &mut output);
    assert_eq!(r, VMResult::Success);
    assert_eq!(output, vec![1]);
}
