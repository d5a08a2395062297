//! Lowering of a cell modification.

use vstd::prelude::*;
use crate::ir::{FunctionView, Inst, Operand};
use crate::llvm_ir_gen::LLVMBuilder;

verus! {

/// Lowers `Modify(n)`: load the current cell, add `n`, store it back.
#[derive(Debug, Clone, Copy)]
pub struct ModifyBlock;

/// `f` with the instructions of a modification by `n` at the position.
pub open spec fn lowered_modify(f: FunctionView, n: i16) -> FunctionView {
    let a = f.here();
    f.emit(Inst::LoadPos).emit(Inst::CellPtr(Operand::Inst(a as usize))).emit(
        Inst::Load((a + 1) as usize),
    ).emit(Inst::Add(Operand::Inst((a + 2) as usize), Operand::Const(n as i32))).emit(
        Inst::Store((a + 1) as usize, Operand::Inst((a + 3) as usize)),
    )
}

impl ModifyBlock {
    /// A handle on the lowering of modifications; it holds no state.
    pub fn new() -> (r: Self) {
        ModifyBlock
    }

    /// Appends the instructions that add `modify_val` to the current cell.
    pub fn build(&self, out: &mut LLVMBuilder, modify_val: i16)
        requires
            old(out).sound(),
            old(out)@.writable(),
        ensures
            final(out)@ == lowered_modify(old(out)@, modify_val),
            old(out)@.grows_here(final(out)@),
            final(out).sound(),
            final(out).counted() == old(out).counted(),
            final(out).loops() == old(out).loops(),
    {
        let current_tape_pos = out.emit(Inst::LoadPos);
        let ptr_to_value = out.emit(Inst::CellPtr(Operand::Inst(current_tape_pos)));
        let old_value = out.emit(Inst::Load(ptr_to_value));
        let new_value = out.emit(
            Inst::Add(Operand::Inst(old_value), Operand::Const(modify_val as i32)),
        );
        out.emit(Inst::Store(ptr_to_value, Operand::Inst(new_value)));
    }
}

} // verus!
