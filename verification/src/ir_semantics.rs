//! The meaning of generated code: how the reference machine runs the SSA
//! form.
//!
//! Within a block every instruction gives a value, kept by place; an
//! address is the index of its cell. A branch costs one unit of fuel, so
//! that code that loops forever has no result at any fuel.

use vstd::prelude::*;
use crate::ir::{BlockView, Inst, Operand, Terminator};
use crate::semantics::{wrap, Machine};

verus! {

/// The value of an operand, given the values of the instructions run so far
/// in the block.
pub open spec fn value_of(vals: Seq<int>, o: Operand) -> int {
    match o {
        Operand::Const(c) => c as int,
        Operand::Inst(i) => vals[i as int],
    }
}

/// The machine after one instruction, and the value that the instruction
/// gives; an instruction that gives none is given zero.
pub open spec fn exec_inst(m: Machine, vals: Seq<int>, inst: Inst) -> (Machine, int) {
    match inst {
        Inst::LoadPos => (m, m.pos),
        Inst::StorePos(v) => (
            Machine { tape: m.tape, pos: wrap(value_of(vals, v)), input: m.input, output: m.output },
            0,
        ),
        Inst::CellPtr(i) => (m, value_of(vals, i)),
        Inst::Load(p) => (m, (m.tape)(vals[p as int])),
        Inst::Store(p, v) => (m.store(vals[p as int], value_of(vals, v)), 0),
        Inst::Add(a, b) => (m, wrap(value_of(vals, a) + value_of(vals, b))),
        Inst::Mul(a, b) => (m, wrap(value_of(vals, a) * value_of(vals, b))),
        Inst::NonZero(v) => (
            m,
            if value_of(vals, v) != 0 {
                1
            } else {
                0
            },
        ),
        Inst::GetChar => if m.input.len() > 0 {
            (
                Machine {
                    tape: m.tape,
                    pos: m.pos,
                    input: m.input.drop_first(),
                    output: m.output,
                },
                m.input[0],
            )
        } else {
            (m, -1)
        },
        Inst::PutChar(v) => (
            Machine {
                tape: m.tape,
                pos: m.pos,
                input: m.input,
                output: m.output.push(value_of(vals, v) % 256),
            },
            0,
        ),
    }
}

/// The machine and the values after the instructions `code`, run in order
/// from the machine `m` and the values `vals`.
pub open spec fn exec_list(m: Machine, vals: Seq<int>, code: Seq<Inst>) -> (Machine, Seq<int>)
    decreases code.len(),
{
    if code.len() == 0 {
        (m, vals)
    } else {
        let before = exec_list(m, vals, code.drop_last());
        let step = exec_inst(before.0, before.1, code.last());
        (step.0, before.1.push(step.1))
    }
}

/// The machine in which the function of `blocks` returns, when run from
/// the instruction at place `k` of the block at place `at`, with the values
/// `vals` of the instructions before it, and when it takes no more than
/// `fuel` branches; `None` if it needs more, or runs into a block that is
/// not closed.
pub open spec fn exec_from(
    blocks: Seq<BlockView>,
    at: int,
    k: int,
    m: Machine,
    vals: Seq<int>,
    fuel: nat,
) -> Option<Machine>
    decreases fuel, blocks[at].insts.len() - k,
{
    let block = blocks[at];
    if 0 <= k < block.insts.len() {
        let step = exec_inst(m, vals, block.insts[k]);
        exec_from(blocks, at, k + 1, step.0, vals.push(step.1), fuel)
    } else {
        match block.term {
            None => None,
            Some(Terminator::Ret(_)) => Some(m),
            Some(Terminator::CondBr { cond, then_block, else_block }) => if fuel == 0 {
                None
            } else if vals[cond as int] != 0 {
                exec_from(blocks, then_block as int, 0, m, Seq::empty(), (fuel - 1) as nat)
            } else {
                exec_from(blocks, else_block as int, 0, m, Seq::empty(), (fuel - 1) as nat)
            },
        }
    }
}

/// The compiled function, run from its entry, returns in `end`.
pub open spec fn code_ends_in(blocks: Seq<BlockView>, m: Machine, end: Machine) -> bool {
    exists|fuel: nat| exec_from(blocks, 0, 0, m, Seq::empty(), fuel) == Some(end)
}

} // verus!
