//! Lowering of a pointer move.

use vstd::prelude::*;
use crate::ir::{FunctionView, Inst, Operand};
use crate::llvm_ir_gen::LLVMBuilder;

verus! {

/// Lowers `Move(n)`: load the tape position, add `n`, store it back.
#[derive(Debug, Clone, Copy)]
pub struct MoveBlock;

/// `f` with the instructions of a move by `n` at the position.
pub open spec fn lowered_move(f: FunctionView, n: i16) -> FunctionView {
    let a = f.here();
    f.emit(Inst::LoadPos).emit(
        Inst::Add(Operand::Const(n as i32), Operand::Inst(a as usize)),
    ).emit(Inst::StorePos(Operand::Inst((a + 1) as usize)))
}

impl MoveBlock {
    /// A handle on the lowering of moves; it holds no state.
    pub fn new() -> (r: Self) {
        MoveBlock
    }

    /// Appends the instructions that add `move_value` to the tape position.
    pub fn build(&self, out: &mut LLVMBuilder, move_value: i16)
        requires
            old(out).sound(),
            old(out)@.writable(),
        ensures
            final(out)@ == lowered_move(old(out)@, move_value),
            old(out)@.grows_here(final(out)@),
            final(out).sound(),
            final(out).counted() == old(out).counted(),
            final(out).loops() == old(out).loops(),
    {
        let current_pos = out.emit(Inst::LoadPos);
        let new_tape_pos = out.emit(
            Inst::Add(Operand::Const(move_value as i32), Operand::Inst(current_pos)),
        );
        out.emit(Inst::StorePos(Operand::Inst(new_tape_pos)));
    }
}

} // verus!
