//! The instruction set and the well-pairedness of loop brackets.

use vstd::prelude::*;

verus! {

/// One operation of the instruction set. The payload of `LoopStart` is the
/// index of its matching `LoopEnd` in the instruction list, and vice versa;
/// a `LoopStart` freshly appended by the translator carries a placeholder
/// payload until its matching `LoopEnd` is found.
#[derive(Clone, Copy, Debug, PartialEq, Eq, Structural)]
pub enum Instruction {
    /// Advance the data pointer by one cell.
    MovePointerForward,
    /// Retreat the data pointer by one cell.
    MovePointerBackward,
    /// Increment the current cell, wrapping at the byte boundary.
    IncrementCell,
    /// Decrement the current cell, wrapping at the byte boundary.
    DecrementCell,
    /// Emit the current cell's value as one character code.
    EmitCell,
    /// Conditional forward jump; payload is the matching `LoopEnd` index.
    LoopStart(usize),
    /// Conditional backward jump; payload is the matching `LoopStart` index.
    LoopEnd(usize),
}

/// Loop pairing is a bijection: every `LoopStart` points at a later `LoopEnd`
/// that points straight back at it, and every `LoopEnd` points at an earlier
/// `LoopStart` that points straight back at it.
pub open spec fn matched(ops: Seq<Instruction>) -> bool {
    &&& forall|i: int|
        0 <= i < ops.len() && (#[trigger] ops[i]) is LoopStart ==> {
            let e = ops[i]->LoopStart_0;
            &&& i < e < ops.len()
            &&& ops[e as int] == Instruction::LoopEnd(i as usize)
        }
    &&& forall|j: int|
        0 <= j < ops.len() && (#[trigger] ops[j]) is LoopEnd ==> {
            let s = ops[j]->LoopEnd_0;
            &&& s < j
            &&& ops[s as int] == Instruction::LoopStart(j as usize)
        }
}

} // verus!
