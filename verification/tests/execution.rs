use tapevm::machine::ExecError;
use tapevm::machine::Program;

const PLENTY: u64 = 1_000_000;

fn run_to_end(source: &str) -> Vec<u8> {
    let mut prog = Program::load_it_up(source).unwrap();
    let mut out: Vec<u8> = Vec::new();
    prog.run(PLENTY, &mut out).unwrap();
    out
}

#[test]
fn two_increments_emit_code_two() {
    assert_eq!(run_to_end("++."), vec![2]);
}

#[test]
fn decrement_loop_runs_once_and_emits_nothing() {
    let mut prog = Program::load_it_up("+[-]").unwrap();
    let mut out: Vec<u8> = Vec::new();
    assert_eq!(prog.run(PLENTY, &mut out), Ok(()));
    assert!(out.is_empty());
    assert_eq!(prog.cell_value(0), Some(0));
}

#[test]
fn empty_loop_on_zero_cell_terminates_immediately() {
    let mut prog = Program::load_it_up("[]").unwrap();
    let mut out: Vec<u8> = Vec::new();
    assert_eq!(prog.run(PLENTY, &mut out), Ok(()));
    assert!(out.is_empty());
}

#[test]
fn bounded_loop_transfers_three() {
    let mut prog = Program::load_it_up("+++[>+<-]").unwrap();
    let mut out: Vec<u8> = Vec::new();
    assert_eq!(prog.run(PLENTY, &mut out), Ok(()));
    assert!(out.is_empty());
    assert_eq!(prog.cell_value(0), Some(0));
    assert_eq!(prog.cell_value(1), Some(3));
    assert_eq!(prog.memory_len(), 2);
}

#[test]
fn increment_then_decrement_is_a_no_op() {
    assert_eq!(run_to_end("+-."), vec![0]);
}

#[test]
fn increment_then_decrement_round_trips_across_wraparound() {
    // at 255, one more increment wraps to 0, and the decrement returns to 255
    let mut source = String::new();
    for _ in 0..255 {
        source.push('+');
    }
    source.push_str(".+.-.");
    assert_eq!(run_to_end(&source), vec![255, 0, 255]);
}

#[test]
fn decrement_wraps_from_zero_to_max() {
    assert_eq!(run_to_end("-."), vec![255]);
}

#[test]
fn output_is_in_program_order() {
    assert_eq!(run_to_end(".+.++."), vec![0, 1, 3]);
}

#[test]
fn tape_grows_one_cell_per_forward_move() {
    let mut prog = Program::load_it_up(">.>.").unwrap();
    let mut out: Vec<u8> = Vec::new();
    assert_eq!(prog.run(PLENTY, &mut out), Ok(()));
    assert_eq!(out, vec![0, 0]);
    assert_eq!(prog.memory_len(), 3);
}

#[test]
fn fresh_memory_is_empty_until_run() {
    let prog = Program::load_it_up("+").unwrap();
    assert_eq!(prog.memory_len(), 0);
    assert_eq!(prog.cell_value(0), None);
}

#[test]
fn moving_left_of_the_tape_is_an_underflow_error() {
    let mut prog = Program::load_it_up("<").unwrap();
    let mut out: Vec<u8> = Vec::new();
    assert_eq!(prog.run(PLENTY, &mut out), Err(ExecError::PointerUnderflow));
}

#[test]
fn output_emitted_before_an_underflow_remains() {
    let mut prog = Program::load_it_up("+.<").unwrap();
    let mut out: Vec<u8> = Vec::new();
    assert_eq!(prog.run(PLENTY, &mut out), Err(ExecError::PointerUnderflow));
    assert_eq!(out, vec![1]);
}

#[test]
fn an_endless_loop_exhausts_the_step_budget() {
    let mut prog = Program::load_it_up("+[]").unwrap();
    let mut out: Vec<u8> = Vec::new();
    assert_eq!(prog.run(PLENTY, &mut out), Err(ExecError::StepLimit));
}

#[test]
fn a_budget_too_small_for_a_finite_program_is_reported() {
    let mut prog = Program::load_it_up("+++").unwrap();
    let mut out: Vec<u8> = Vec::new();
    assert_eq!(prog.run(2, &mut out), Err(ExecError::StepLimit));
}

#[test]
fn an_empty_program_halts_with_any_budget() {
    let mut prog = Program::load_it_up("").unwrap();
    let mut out: Vec<u8> = Vec::new();
    assert_eq!(prog.run(0, &mut out), Ok(()));
    assert!(out.is_empty());
    assert_eq!(prog.memory_len(), 1);
    assert_eq!(prog.cell_value(0), Some(0));
}

#[test]
fn bounded_loop_takes_exactly_twenty_one_steps() {
    // three increments, then three loop iterations of six steps each
    let mut prog = Program::load_it_up("+++[>+<-]").unwrap();
    let mut out: Vec<u8> = Vec::new();
    assert_eq!(prog.run(21, &mut out), Ok(()));
    let mut prog = Program::load_it_up("+++[>+<-]").unwrap();
    let mut out: Vec<u8> = Vec::new();
    assert_eq!(prog.run(20, &mut out), Err(ExecError::StepLimit));
}
