use tapevm::instruction::Instruction;
use tapevm::machine::Program;
use tapevm::translate::TranslateError;

#[test]
fn simple_symbols_map_one_to_one() {
    let prog = Program::load_it_up("++.").unwrap();
    assert_eq!(prog.instruction_count(), 3);
    assert_eq!(prog.instruction_at(0), Some(Instruction::IncrementCell));
    assert_eq!(prog.instruction_at(1), Some(Instruction::IncrementCell));
    assert_eq!(prog.instruction_at(2), Some(Instruction::EmitCell));
    assert_eq!(prog.instruction_at(3), None);
}

#[test]
fn all_seven_symbols_translate() {
    let prog = Program::load_it_up("><+-.[]").unwrap();
    assert_eq!(prog.instruction_count(), 7);
    assert_eq!(prog.instruction_at(0), Some(Instruction::MovePointerForward));
    assert_eq!(prog.instruction_at(1), Some(Instruction::MovePointerBackward));
    assert_eq!(prog.instruction_at(2), Some(Instruction::IncrementCell));
    assert_eq!(prog.instruction_at(3), Some(Instruction::DecrementCell));
    assert_eq!(prog.instruction_at(4), Some(Instruction::EmitCell));
    assert_eq!(prog.instruction_at(5), Some(Instruction::LoopStart(6)));
    assert_eq!(prog.instruction_at(6), Some(Instruction::LoopEnd(5)));
}

#[test]
fn comment_characters_contribute_nothing() {
    let prog = Program::load_it_up("a + b . c\nhello world!\t").unwrap();
    assert_eq!(prog.instruction_count(), 2);
    assert_eq!(prog.instruction_at(0), Some(Instruction::IncrementCell));
    assert_eq!(prog.instruction_at(1), Some(Instruction::EmitCell));
}

#[test]
fn empty_source_translates_to_nothing() {
    let prog = Program::load_it_up("").unwrap();
    assert_eq!(prog.instruction_count(), 0);
}

#[test]
fn loop_targets_are_fixed_up() {
    let prog = Program::load_it_up("+[-]").unwrap();
    assert_eq!(prog.instruction_count(), 4);
    assert_eq!(prog.instruction_at(0), Some(Instruction::IncrementCell));
    assert_eq!(prog.instruction_at(1), Some(Instruction::LoopStart(3)));
    assert_eq!(prog.instruction_at(2), Some(Instruction::DecrementCell));
    assert_eq!(prog.instruction_at(3), Some(Instruction::LoopEnd(1)));
}

#[test]
fn nested_loops_pair_bijectively() {
    let prog = Program::load_it_up("[[][]]").unwrap();
    assert_eq!(prog.instruction_count(), 6);
    assert_eq!(prog.instruction_at(0), Some(Instruction::LoopStart(5)));
    assert_eq!(prog.instruction_at(1), Some(Instruction::LoopStart(2)));
    assert_eq!(prog.instruction_at(2), Some(Instruction::LoopEnd(1)));
    assert_eq!(prog.instruction_at(3), Some(Instruction::LoopStart(4)));
    assert_eq!(prog.instruction_at(4), Some(Instruction::LoopEnd(3)));
    assert_eq!(prog.instruction_at(5), Some(Instruction::LoopEnd(0)));
}

#[test]
fn deep_nesting_pairs_bijectively() {
    let depth = 50;
    let mut source = String::new();
    for _ in 0..depth {
        source.push('[');
    }
    for _ in 0..depth {
        source.push(']');
    }
    let prog = Program::load_it_up(&source).unwrap();
    assert_eq!(prog.instruction_count(), 2 * depth);
    for d in 0..depth {
        let open = d;
        let close = 2 * depth - 1 - d;
        assert_eq!(prog.instruction_at(open), Some(Instruction::LoopStart(close)));
        assert_eq!(prog.instruction_at(close), Some(Instruction::LoopEnd(open)));
    }
}

#[test]
fn unmatched_close_is_a_structured_error() {
    let r = Program::load_it_up("]");
    assert!(matches!(r, Err(TranslateError::UnmatchedClose { position: 0 })));
}

#[test]
fn unmatched_close_reports_its_position() {
    let r = Program::load_it_up("ab+]");
    assert!(matches!(r, Err(TranslateError::UnmatchedClose { position: 3 })));
    let r = Program::load_it_up("[]]");
    assert!(matches!(r, Err(TranslateError::UnmatchedClose { position: 2 })));
}

#[test]
fn unmatched_open_is_a_structured_error() {
    let r = Program::load_it_up("[");
    assert!(matches!(r, Err(TranslateError::UnmatchedOpen { position: 0 })));
}

#[test]
fn unmatched_open_reports_the_innermost_position() {
    let r = Program::load_it_up("+[[");
    assert!(matches!(r, Err(TranslateError::UnmatchedOpen { position: 2 })));
    let r = Program::load_it_up("[[]");
    assert!(matches!(r, Err(TranslateError::UnmatchedOpen { position: 0 })));
}

#[test]
fn positions_count_characters_not_bytes() {
    let prog = Program::load_it_up("héllo + wörld .").unwrap();
    assert_eq!(prog.instruction_count(), 2);
    let r = Program::load_it_up("áé]");
    assert!(matches!(r, Err(TranslateError::UnmatchedClose { position: 2 })));
}
