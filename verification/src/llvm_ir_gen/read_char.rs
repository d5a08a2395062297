//! Lowering of one byte of input.

use vstd::prelude::*;
use crate::ir::{FunctionView, Inst, Operand};
use crate::llvm_ir_gen::LLVMBuilder;

verus! {

/// Lowers one read: call `getchar` and store what it returns, as it is, in
/// the current cell.
#[derive(Debug, Clone, Copy)]
pub struct ReadChar;

/// `f` with the instructions of one read at the position.
pub open spec fn lowered_read(f: FunctionView) -> FunctionView {
    let a = f.here();
    f.emit(Inst::LoadPos).emit(Inst::CellPtr(Operand::Inst(a as usize))).emit(Inst::GetChar).emit(
        Inst::Store((a + 1) as usize, Operand::Inst((a + 2) as usize)),
    )
}

impl ReadChar {
    /// A handle on the lowering of reads; it holds no state.
    pub fn new() -> (r: Self) {
        ReadChar
    }

    /// Appends the instructions of one read into the current cell.
    pub fn build(&self, out: &mut LLVMBuilder)
        requires
            old(out).sound(),
            old(out)@.writable(),
        ensures
            final(out)@ == lowered_read(old(out)@),
            old(out)@.grows_here(final(out)@),
            final(out).sound(),
            final(out).counted() == old(out).counted(),
            final(out).loops() == old(out).loops(),
    {
        let current_tape_pos = out.emit(Inst::LoadPos);
        let ptr_to_value = out.emit(Inst::CellPtr(Operand::Inst(current_tape_pos)));
        let input = out.emit(Inst::GetChar);
        out.emit(Inst::Store(ptr_to_value, Operand::Inst(input)));
    }
}

} // verus!
