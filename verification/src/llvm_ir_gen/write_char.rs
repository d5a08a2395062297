//! Lowering of one byte of output.

use vstd::prelude::*;
use crate::ir::{FunctionView, Inst, Operand};
use crate::llvm_ir_gen::LLVMBuilder;

verus! {

/// Lowers one write: load the current cell and call `putchar` on it.
#[derive(Debug, Clone, Copy)]
pub struct WriteChar;

/// `f` with the instructions of one write at the position.
pub open spec fn lowered_write(f: FunctionView) -> FunctionView {
    let a = f.here();
    f.emit(Inst::LoadPos).emit(Inst::CellPtr(Operand::Inst(a as usize))).emit(
        Inst::Load((a + 1) as usize),
    ).emit(Inst::PutChar(Operand::Inst((a + 2) as usize)))
}

impl WriteChar {
    /// A handle on the lowering of writes; it holds no state.
    pub fn new() -> (r: Self) {
        WriteChar
    }

    /// Appends the instructions of one write of the current cell.
    pub fn build(&self, out: &mut LLVMBuilder)
        requires
            old(out).sound(),
            old(out)@.writable(),
        ensures
            final(out)@ == lowered_write(old(out)@),
            old(out)@.grows_here(final(out)@),
            final(out).sound(),
            final(out).counted() == old(out).counted(),
            final(out).loops() == old(out).loops(),
    {
        let current_pos = out.emit(Inst::LoadPos);
        let ptr_to_value = out.emit(Inst::CellPtr(Operand::Inst(current_pos)));
        let value = out.emit(Inst::Load(ptr_to_value));
        out.emit(Inst::PutChar(Operand::Inst(value)));
    }
}

} // verus!
