//! Lowering of a cell reset.

use vstd::prelude::*;
use crate::ir::{FunctionView, Inst, Operand};
use crate::llvm_ir_gen::LLVMBuilder;

verus! {

/// Lowers `Reset { offset }`: store zero in the cell at the tape position
/// plus `offset`.
#[derive(Debug, Clone, Copy)]
pub struct Reset;

/// `f` with the instructions of a reset at `offset` at the position.
pub open spec fn lowered_reset(f: FunctionView, offset: i32) -> FunctionView {
    let a = f.here();
    f.emit(Inst::LoadPos).emit(Inst::Add(Operand::Inst(a as usize), Operand::Const(offset))).emit(
        Inst::CellPtr(Operand::Inst((a + 1) as usize)),
    ).emit(Inst::Store((a + 2) as usize, Operand::Const(0)))
}

impl Reset {
    /// A handle on the lowering of resets; it holds no state.
    pub fn new() -> (r: Self) {
        Reset
    }

    /// Appends the instructions that zero the cell at `offset` from the tape
    /// position.
    pub fn build(&self, out: &mut LLVMBuilder, offset: i32)
        requires
            old(out).sound(),
            old(out)@.writable(),
        ensures
            final(out)@ == lowered_reset(old(out)@, offset),
            old(out)@.grows_here(final(out)@),
            final(out).sound(),
            final(out).counted() == old(out).counted(),
            final(out).loops() == old(out).loops(),
    {
        let current_tape_pos = out.emit(Inst::LoadPos);
        let reset_pos = out.emit(
            Inst::Add(Operand::Inst(current_tape_pos), Operand::Const(offset)),
        );
        let ptr_to_value = out.emit(Inst::CellPtr(Operand::Inst(reset_pos)));
        out.emit(Inst::Store(ptr_to_value, Operand::Const(0)));
    }
}

} // verus!
