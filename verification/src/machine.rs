//! The executor: a program, its tape of wrapping byte cells, and the
//! fetch-decode-execute loop, specified by a small-step machine model.

use vstd::prelude::*;
use vstd::string::StrSliceExecFns;

use crate::instruction::Instruction;
use crate::instruction::matched;
use crate::translate::TranslateError;
use crate::translate::count_symbols;
use crate::translate::lemma_instruction_count;
use crate::translate::lemma_translate_matched;
use crate::translate::lemma_translate_ok_iff;
use crate::translate::scan;
use crate::translate::translate;
use crate::translate::well_nested;

verus! {

/// One cell incremented, wrapping from the byte maximum back to zero.
pub open spec fn inc_cell(v: u8) -> u8 {
    if v == 255 {
        0
    } else {
        (v + 1) as u8
    }
}

/// One cell decremented, wrapping from zero back to the byte maximum.
pub open spec fn dec_cell(v: u8) -> u8 {
    if v == 0 {
        255
    } else {
        (v - 1) as u8
    }
}

/// The executor's whole state between two steps: the instruction pointer, the
/// data pointer, the tape, and the characters emitted so far.
pub ghost struct ExecState {
    pub ip: int,
    pub ptr: int,
    pub mem: Seq<u8>,
    pub out: Seq<u8>,
}

/// The data pointer addresses a cell of the tape.
pub open spec fn pointer_in_bounds(st: ExecState) -> bool {
    0 <= st.ptr < st.mem.len()
}

/// The instruction at `st.ip` would retreat the data pointer below the start
/// of the tape: the one fatal execution error.
pub open spec fn underflows(ops: Seq<Instruction>, st: ExecState) -> bool {
    &&& 0 <= st.ip < ops.len()
    &&& ops[st.ip] is MovePointerBackward
    &&& st.ptr == 0
}

/// One transition of the machine, meaningful when `st.ip` is in range and the
/// step does not underflow. A forward move past the end of the tape grows it
/// by exactly one zero cell; a taken loop branch sets the instruction pointer
/// onto the matching bracket, whose own dispatch then falls through, so
/// control resumes right after it.
pub open spec fn step(ops: Seq<Instruction>, st: ExecState) -> ExecState {
    match ops[st.ip] {
        Instruction::MovePointerForward => ExecState {
            ip: st.ip + 1,
            ptr: st.ptr + 1,
            mem: if st.ptr + 1 == st.mem.len() {
                st.mem.push(0)
            } else {
                st.mem
            },
            out: st.out,
        },
        Instruction::MovePointerBackward => ExecState {
            ip: st.ip + 1,
            ptr: st.ptr - 1,
            mem: st.mem,
            out: st.out,
        },
        Instruction::IncrementCell => ExecState {
            ip: st.ip + 1,
            ptr: st.ptr,
            mem: st.mem.update(st.ptr, inc_cell(st.mem[st.ptr])),
            out: st.out,
        },
        Instruction::DecrementCell => ExecState {
            ip: st.ip + 1,
            ptr: st.ptr,
            mem: st.mem.update(st.ptr, dec_cell(st.mem[st.ptr])),
            out: st.out,
        },
        Instruction::EmitCell => ExecState {
            ip: st.ip + 1,
            ptr: st.ptr,
            mem: st.mem,
            out: st.out.push(st.mem[st.ptr]),
        },
        Instruction::LoopStart(e) => ExecState {
            ip: if st.mem[st.ptr] == 0 {
                e as int
            } else {
                st.ip + 1
            },
            ptr: st.ptr,
            mem: st.mem,
            out: st.out,
        },
        Instruction::LoopEnd(s) => ExecState {
            ip: if st.mem[st.ptr] != 0 {
                s as int
            } else {
                st.ip + 1
            },
            ptr: st.ptr,
            mem: st.mem,
            out: st.out,
        },
    }
}

/// How a run ends: normally, with the instruction pointer past the end of the
/// list; on a data-pointer underflow; or with the step budget exhausted while
/// the machine was still running. Each carries the state at that moment.
pub ghost enum SpecOutcome {
    Halted(ExecState),
    Underflow(ExecState),
    OutOfFuel(ExecState),
}

/// Run the machine from `st` for at most `fuel` steps. Halting and underflow
/// are decided before the budget, so a budget of zero still recognizes an
/// already-halted or immediately-underflowing state.
pub open spec fn run_spec(ops: Seq<Instruction>, st: ExecState, fuel: nat) -> SpecOutcome
    decreases fuel,
{
    if st.ip >= ops.len() {
        SpecOutcome::Halted(st)
    } else if underflows(ops, st) {
        SpecOutcome::Underflow(st)
    } else if fuel == 0 {
        SpecOutcome::OutOfFuel(st)
    } else {
        run_spec(ops, step(ops, st), (fuel - 1) as nat)
    }
}

/// A step made from an in-range, non-underflowing state keeps the data
/// pointer on the tape.
pub proof fn lemma_step_pointer_in_bounds(ops: Seq<Instruction>, st: ExecState)
    requires
        0 <= st.ip < ops.len(),
        !underflows(ops, st),
        pointer_in_bounds(st),
    ensures
        pointer_in_bounds(step(ops, st)),
        step(ops, st).ip >= 0,
{
}

/// Incrementing a cell and then decrementing it are mutual inverses, also
/// across the wraparound boundary.
pub proof fn lemma_cell_roundtrip(v: u8)
    ensures
        dec_cell(inc_cell(v)) == v,
        inc_cell(dec_cell(v)) == v,
{
}

/// Incrementing and then decrementing the same cell, with no pointer motion
/// in between, is a no-op on the tape, the data pointer and the output,
/// including across the wraparound boundary; only the instruction pointer
/// moves past the two instructions.
pub proof fn lemma_increment_decrement_roundtrip(ops: Seq<Instruction>, st: ExecState)
    requires
        pointer_in_bounds(st),
        0 <= st.ip,
        st.ip + 1 < ops.len(),
        ops[st.ip] == Instruction::IncrementCell,
        ops[st.ip + 1] == Instruction::DecrementCell,
    ensures
        step(ops, step(ops, st)).ip == st.ip + 2,
        step(ops, step(ops, st)).ptr == st.ptr,
        step(ops, step(ops, st)).mem == st.mem,
        step(ops, step(ops, st)).out == st.out,
{
    let st1 = step(ops, st);
    assert(st1.mem[st.ptr] == inc_cell(st.mem[st.ptr]));
    lemma_cell_roundtrip(st.mem[st.ptr]);
    assert(step(ops, st1).mem =~= st.mem);
}

/// An execution error: the run stopped before halting normally. Output
/// emitted before the stop remains emitted.
#[derive(Clone, Copy, Debug, PartialEq, Eq, Structural)]
pub enum ExecError {
    /// The data pointer would have moved below the start of the tape.
    PointerUnderflow,
    /// The step budget ran out while the machine was still running.
    StepLimit,
}

/// A translated program together with the executor's persistent pieces: the
/// tape and the data pointer. A freshly loaded program has an empty tape and
/// the pointer at zero; `run` lays down the initial zero cell itself.
pub struct Program {
    operations: Vec<Instruction>,
    pointer: usize,
    memory: Vec<u8>,
}

impl Program {
    /// Translate a source text into a loaded program. Any character outside
    /// the seven meaningful symbols is skipped. On success the program holds
    /// exactly the instruction list of the translation model, an empty tape,
    /// and the data pointer at zero; a `]` with no open `[`, or a `[` never
    /// closed, is reported as a structured error with its source position.
    #[verifier::loop_isolation(false)]
    pub fn load_it_up(input: &str) -> (r: Result<Program, TranslateError>)
        ensures
            match r {
                Ok(prog) => {
                    &&& translate(input@) matches Ok(p)
                    &&& p.1.len() == 0
                    &&& prog.ops() == p.0
                    &&& prog.ptr() == 0
                    &&& prog.mem() == Seq::<u8>::empty()
                    &&& well_nested(input@)
                    &&& matched(prog.ops())
                    &&& prog.ops().len() == count_symbols(input@)
                },
                Err(TranslateError::UnmatchedClose { position }) => {
                    &&& translate(input@) matches Err(p)
                    &&& position == p
                    &&& !well_nested(input@)
                },
                Err(TranslateError::UnmatchedOpen { position }) => {
                    &&& translate(input@) matches Ok(p)
                    &&& p.1.len() > 0
                    &&& position == p.1.last().1
                    &&& !well_nested(input@)
                },
            },
    {
        let ghost s = input@;
        let n = input.unicode_len();
        let mut operations: Vec<Instruction> = Vec::new();
        let mut pending: Vec<(usize, usize)> = Vec::new();
        let mut idx: usize = 0;
        while idx < n
            invariant
                idx <= n,
                scan(s, 0, Seq::empty(), Seq::empty()) == scan(s, idx as int, operations@, pending@),
                forall|k: int| 0 <= k < pending@.len() ==> (#[trigger] pending@[k]).0 < operations@.len(),
            decreases n - idx,
        {
            let c = input.get_char(idx);
            match c {
                '>' => {
                    operations.push(Instruction::MovePointerForward);
                },
                '<' => {
                    operations.push(Instruction::MovePointerBackward);
                },
                '+' => {
                    operations.push(Instruction::IncrementCell);
                },
                '-' => {
                    operations.push(Instruction::DecrementCell);
                },
                '.' => {
                    operations.push(Instruction::EmitCell);
                },
                '[' => {
                    pending.push((operations.len(), idx));
                    operations.push(Instruction::LoopStart(0));
                },
                ']' => {
                    match pending.pop() {
                        None => {
                            proof {
                                lemma_translate_ok_iff(s);
                            }
                            return Err(TranslateError::UnmatchedClose { position: idx });
                        },
                        Some(top) => {
                            let end_pos = operations.len();
                            operations.set(top.0, Instruction::LoopStart(end_pos));
                            operations.push(Instruction::LoopEnd(top.0));
                        },
                    }
                },
                _ => {
                },
            }
            idx = idx + 1;
        }
        proof {
            lemma_translate_ok_iff(s);
        }
        if pending.len() > 0 {
            let top = pending[pending.len() - 1];
            return Err(TranslateError::UnmatchedOpen { position: top.1 });
        }
        proof {
            lemma_translate_matched(s);
            lemma_instruction_count(s);
        }
        Ok(Program { operations, pointer: 0, memory: Vec::new() })
    }

    /// The instruction list.
    pub closed spec fn ops(self) -> Seq<Instruction> {
        self.operations@
    }

    /// How many instructions the loaded program holds.
    pub fn instruction_count(&self) -> (r: usize)
        ensures
            r == self.ops().len(),
    {
        self.operations.len()
    }

    /// The instruction at `index` of the list, if the list reaches that far.
    pub fn instruction_at(&self, index: usize) -> (r: Option<Instruction>)
        ensures
            r == if index < self.ops().len() {
                Some(self.ops()[index as int])
            } else {
                None::<Instruction>
            },
    {
        if index < self.operations.len() {
            Some(self.operations[index])
        } else {
            None
        }
    }

    /// How many cells the tape holds.
    pub fn memory_len(&self) -> (r: usize)
        ensures
            r == self.mem().len(),
    {
        self.memory.len()
    }

    /// The cell at `index` of the tape, if the tape has grown that far.
    pub fn cell_value(&self, index: usize) -> (r: Option<u8>)
        ensures
            r == if index < self.mem().len() {
                Some(self.mem()[index as int])
            } else {
                None::<u8>
            },
    {
        if index < self.memory.len() {
            Some(self.memory[index])
        } else {
            None
        }
    }

    /// The data pointer.
    pub closed spec fn ptr(self) -> int {
        self.pointer as int
    }

    /// The tape.
    pub closed spec fn mem(self) -> Seq<u8> {
        self.memory@
    }

    /// The state a run of this program starts from: one fresh zero cell laid
    /// on top of the tape, the instruction pointer at zero, nothing emitted.
    pub open spec fn start_state(self) -> ExecState {
        ExecState { ip: 0, ptr: self.ptr(), mem: self.mem().push(0u8), out: Seq::empty() }
    }

    /// Run the program to completion, spending at most `fuel` steps.
    /// Every emitted character code is appended to `out` in program order,
    /// also when the run stops early. The result and the final tape and
    /// pointer are exactly those of the machine model run from
    /// `old(self).start_state()`.
    #[verifier::loop_isolation(false)]
    pub fn run(&mut self, fuel: u64, out: &mut Vec<u8>) -> (r: Result<(), ExecError>)
        requires
            pointer_in_bounds(old(self).start_state()),
        ensures
            final(self).ops() == old(self).ops(),
            pointer_in_bounds(final(self).start_state()),
            match run_spec(old(self).ops(), old(self).start_state(), fuel as nat) {
                SpecOutcome::Halted(f) => {
                    &&& r == Ok::<(), ExecError>(())
                    &&& final(out)@ == old(out)@ + f.out
                    &&& final(self).mem() == f.mem
                    &&& final(self).ptr() == f.ptr
                },
                SpecOutcome::Underflow(f) => {
                    &&& r == Err::<(), ExecError>(ExecError::PointerUnderflow)
                    &&& final(out)@ == old(out)@ + f.out
                    &&& final(self).mem() == f.mem
                    &&& final(self).ptr() == f.ptr
                },
                SpecOutcome::OutOfFuel(f) => {
                    &&& r == Err::<(), ExecError>(ExecError::StepLimit)
                    &&& final(out)@ == old(out)@ + f.out
                    &&& final(self).mem() == f.mem
                    &&& final(self).ptr() == f.ptr
                },
            },
    {
        self.memory.push(0);
        let ghost ops = self.operations@;
        let ghost start = ExecState {
            ip: 0,
            ptr: self.pointer as int,
            mem: self.memory@,
            out: Seq::<u8>::empty(),
        };
        let ghost out0 = out@;
        let ghost mut st = start;
        let mut ip: usize = 0;
        let mut steps: u64 = 0;
        while ip < self.operations.len()
            invariant
                self.operations@ == ops,
                st.ip == ip as int,
                st.ptr == self.pointer as int,
                st.mem == self.memory@,
                out@ == out0 + st.out,
                pointer_in_bounds(st),
                steps <= fuel,
                run_spec(ops, start, fuel as nat) == run_spec(ops, st, (fuel - steps) as nat),
            decreases fuel - steps,
        {
            let inst = self.operations[ip];
            let hits_underflow = match inst {
                Instruction::MovePointerBackward => self.pointer == 0,
                _ => false,
            };
            if hits_underflow {
                return Err(ExecError::PointerUnderflow);
            }
            if steps == fuel {
                return Err(ExecError::StepLimit);
            }
            proof {
                lemma_step_pointer_in_bounds(ops, st);
            }
            match inst {
                Instruction::MovePointerForward => {
                    let tape_len = self.memory.len();
                    self.pointer = self.pointer + 1;
                    if self.pointer == tape_len {
                        self.memory.push(0);
                    }
                    ip = ip + 1;
                },
                Instruction::MovePointerBackward => {
                    self.pointer = self.pointer - 1;
                    ip = ip + 1;
                },
                Instruction::IncrementCell => {
                    let v = self.memory[self.pointer];
                    self.memory.set(self.pointer, v.wrapping_add(1));
                    ip = ip + 1;
                },
                Instruction::DecrementCell => {
                    let v = self.memory[self.pointer];
                    self.memory.set(self.pointer, v.wrapping_sub(1));
                    ip = ip + 1;
                },
                Instruction::EmitCell => {
                    out.push(self.memory[self.pointer]);
                    ip = ip + 1;
                },
                Instruction::LoopStart(end_index) => {
                    if self.memory[self.pointer] == 0 {
                        ip = end_index;
                    } else {
                        ip = ip + 1;
                    }
                },
                Instruction::LoopEnd(start_index) => {
                    if self.memory[self.pointer] != 0 {
                        ip = start_index;
                    } else {
                        ip = ip + 1;
                    }
                },
            }
            proof {
                st = step(ops, st);
            }
            steps = steps + 1;
        }
        Ok(())
    }
}

} // verus!
