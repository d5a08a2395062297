//! Lowering of a loop: the control-flow core.

use vstd::prelude::*;
use crate::ir::{label_at, FunctionView, Inst, Operand, Terminator};
use crate::llvm_ir_gen::LLVMBuilder;

verus! {

/// Lowers the head and the tail of a loop. Both test the current cell and
/// branch to the body when it is not zero and past the loop when it is.
#[derive(Debug, Clone, Copy)]
pub struct Loop;

/// `f` with the test of the current cell at the position: the flag is the
/// result of the last of the four instructions.
pub open spec fn cell_test(f: FunctionView) -> FunctionView {
    let a = f.here();
    f.emit(Inst::LoadPos).emit(Inst::CellPtr(Operand::Inst(a as usize))).emit(
        Inst::Load((a + 1) as usize),
    ).emit(Inst::NonZero(Operand::Inst((a + 2) as usize)))
}

/// `f` with the test of the current cell and a branch on it, to `body` when
/// the cell is not zero and to `after` when it is, and the position moved
/// to `next`.
pub open spec fn test_and_branch(f: FunctionView, body: int, after: int, next: int) -> FunctionView {
    cell_test(f).terminate(
        Terminator::CondBr {
            cond: (f.here() + 3) as usize,
            then_block: body as usize,
            else_block: after as usize,
        },
    ).position_at_end(next)
}

/// `f` with a loop opened: two new blocks, the test in the block that was
/// current, and the position at the start of the body.
pub open spec fn loop_started(f: FunctionView) -> FunctionView {
    let body = f.blocks.len() as int;
    let after = body + 1;
    test_and_branch(f.append(label_at(body)).append(label_at(after)), body, after, body)
}

/// `f` with the loop of blocks `body` and `after` closed: the test at the
/// tail of the body, and the position at the start of what follows.
pub open spec fn loop_ended(f: FunctionView, body: int, after: int) -> FunctionView {
    test_and_branch(f, body, after, after)
}

impl Loop {
    /// A handle on the lowering of loops; it holds no state.
    pub fn new() -> (r: Self) {
        Loop
    }

    /// Emits the test of the current cell and the branch on it, and leaves
    /// the position at `next`.
    fn build_test(out: &mut LLVMBuilder, loop_block: usize, cont_block: usize, next: usize)
        requires
            old(out).sound(),
            old(out)@.writable(),
            loop_block < old(out)@.blocks.len(),
            cont_block < old(out)@.blocks.len(),
            next < old(out)@.blocks.len(),
        ensures
            final(out).sound(),
            final(out)@ == test_and_branch(
                old(out)@,
                loop_block as int,
                cont_block as int,
                next as int,
            ),
            final(out)@.blocks.len() == old(out)@.blocks.len(),
            final(out)@.current == next,
            final(out)@.open() == old(out)@.open().remove(old(out)@.current),
            final(out).counted() == old(out).counted(),
            final(out).loops() == old(out).loops(),
    {
        let current_tape_pos = out.emit(Inst::LoadPos);
        let ptr_to_value = out.emit(Inst::CellPtr(Operand::Inst(current_tape_pos)));
        let value = out.emit(Inst::Load(ptr_to_value));
        let flag = out.emit(Inst::NonZero(Operand::Inst(value)));
        out.terminate(
            Terminator::CondBr { cond: flag, then_block: loop_block, else_block: cont_block },
        );
        out.position_at_end(next);
    }

    /// Opens a loop and gives the places of its two blocks, the body first.
    pub fn build_loop_start(&self, out: &mut LLVMBuilder) -> (r: (usize, usize))
        requires
            old(out).wf(),
        ensures
            final(out).wf(),
            final(out)@ == loop_started(old(out)@),
            final(out).loops() == old(out).loops() + 1,
            r.0 == old(out)@.blocks.len(),
            r.1 == old(out)@.blocks.len() + 1,
            final(out)@.blocks.len() == old(out)@.blocks.len() + 2,
            final(out)@.current == r.0,
            final(out)@.open() == old(out)@.open().remove(old(out)@.current).insert(
                r.0 as int,
            ).insert(r.1 as int),
    {
        let ghost before = out@;
        let (loop_block, cont_block) = out.open_loop_blocks();
        Loop::build_test(out, loop_block, cont_block, loop_block);
        proof {
            assert(out@.open() =~= before.open().remove(before.current).insert(
                loop_block as int,
            ).insert(cont_block as int));
        }
        (loop_block, cont_block)
    }

    /// Closes the loop of the blocks `loop_block` and `cont_block`.
    pub fn build_loop_end(&self, out: &mut LLVMBuilder, loop_block: usize, cont_block: usize)
        requires
            old(out).wf(),
            loop_block < old(out)@.blocks.len(),
            cont_block < old(out)@.blocks.len(),
            cont_block != old(out)@.current,
            old(out)@.open().contains(cont_block as int),
        ensures
            final(out).wf(),
            final(out)@ == loop_ended(old(out)@, loop_block as int, cont_block as int),
            final(out).loops() == old(out).loops(),
            final(out)@.blocks.len() == old(out)@.blocks.len(),
            final(out)@.current == cont_block,
            final(out)@.open() == old(out)@.open().remove(old(out)@.current),
    {
        Loop::build_test(out, loop_block, cont_block, cont_block);
    }
}

} // verus!
