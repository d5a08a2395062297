//! Code generation preserves the meaning of programs: whenever a program
//! ends, the code compiled from it returns, in the same machine.

use vstd::prelude::*;
use crate::balance::{
    lemma_parse_ok_iff_balanced, lemma_parse_round_trip, lemma_parsed_form_blocks,
};
use crate::equivalence::{
    lemma_accumulate_valid, lemma_first_rewrite, lemma_more_fuel, lemma_more_fuel_block,
    lemma_opt_block_shape, lemma_opt_by_block, lemma_optimize_preserves_meaning, lemma_reads_valid,
    lemma_run_valid, lemma_start_valid, lemma_steps_valid, lemma_wrap, lemma_writes_valid, opt,
    opt_block,
};
use crate::ir::{label_at, BlockView, FunctionView, Inst, Operand, Terminator};
use crate::ir_semantics::{code_ends_in, exec_from, exec_inst, exec_list};
use crate::lexer::{lex, Op};
use crate::llvm_ir_gen::loops::{cell_test, loop_ended, loop_started, test_and_branch};
use crate::llvm_ir_gen::modify_block::lowered_modify;
use crate::llvm_ir_gen::move_block::lowered_move;
use crate::llvm_ir_gen::read_char::lowered_read;
use crate::llvm_ir_gen::reset::lowered_reset;
use crate::llvm_ir_gen::write_char::lowered_write;
use crate::llvm_ir_gen::{
    compiled, lowered, lowered_block, lowered_multiply, lowered_op, lowered_ops, lowered_reads,
    lowered_writes, multiply_head, multiply_step, multiply_steps,
};
use crate::optimizations::multiply::{lemma_factors, multiply_rewrite, reach};
use crate::optimizations::reset_val::reset_rewrite;
use crate::parser::{lemma_loop_view, pairs_view, parsed, Block, Program, SpecBlock};
use crate::semantics::{ends_in, run, run_block, wrap, Machine};

verus! {

/// `f` with the instructions `code` appended at the position, in order.
pub open spec fn emit_all(f: FunctionView, code: Seq<Inst>) -> FunctionView
    decreases code.len(),
{
    if code.len() == 0 {
        f
    } else {
        emit_all(f, code.drop_last()).emit(code.last())
    }
}

/// Every block of `small` is there in `big`, with at least the same
/// instructions at the same places, and unchanged if it is closed.
pub open spec fn extends(small: Seq<BlockView>, big: Seq<BlockView>) -> bool {
    &&& small.len() <= big.len()
    &&& forall|i: int|
        0 <= i < small.len() ==> {
            &&& small[i].insts.len() <= (#[trigger] big[i]).insts.len()
            &&& big[i].insts.take(small[i].insts.len() as int) == small[i].insts
            &&& small[i].term is Some ==> big[i] == small[i]
        }
}

/// Whether `g` comes from `f` by code generation at the position: blocks
/// only grow, a block that is closed stays as it is, a block that waits
/// open for its turn stays as it is, and the position stays in its block or
/// moves to a new one and is open.
pub open spec fn steps_to(f: FunctionView, g: FunctionView) -> bool {
    &&& g.writable()
    &&& extends(f.blocks, g.blocks)
    &&& (g.current == f.current || g.current >= f.blocks.len())
    &&& forall|i: int|
        0 <= i < f.blocks.len() && i != f.current && f.blocks[i].term is None ==> #[trigger] g.blocks[i]
            == f.blocks[i]
}

/// No block holds more instructions, and the function no more blocks, than
/// a machine word counts.
pub open spec fn fits(blocks: Seq<BlockView>) -> bool {
    &&& blocks.len() <= usize::MAX
    &&& forall|i: int| 0 <= i < blocks.len() ==> (#[trigger] blocks[i]).insts.len() <= usize::MAX
}

/// Every function extends itself.
pub proof fn lemma_extends_refl(a: Seq<BlockView>)
    ensures
        extends(a, a),
{
    assert forall|i: int| 0 <= i < a.len() implies (#[trigger] a[i]).insts.take(
        a[i].insts.len() as int,
    ) == a[i].insts by {
        assert(a[i].insts.take(a[i].insts.len() as int) =~= a[i].insts);
    }
}

/// What extends an extension extends the function.
pub proof fn lemma_extends_trans(a: Seq<BlockView>, b: Seq<BlockView>, c: Seq<BlockView>)
    requires
        extends(a, b),
        extends(b, c),
    ensures
        extends(a, c),
{
    assert forall|i: int| 0 <= i < a.len() implies {
        &&& a[i].insts.len() <= (#[trigger] c[i]).insts.len()
        &&& c[i].insts.take(a[i].insts.len() as int) == a[i].insts
        &&& a[i].term is Some ==> c[i] == a[i]
    } by {
        let n = a[i].insts.len() as int;
        let k = b[i].insts.len() as int;
        assert(b[i].insts.len() <= c[i].insts.len());
        assert(c[i].insts.take(k) == b[i].insts);
        assert(b[i].insts.take(n) == a[i].insts);
        assert(c[i].insts.take(n) =~= c[i].insts.take(k).take(n));
    }
}

/// Code generation in two steps is code generation.
pub proof fn lemma_steps_trans(f: FunctionView, g: FunctionView, h: FunctionView)
    requires
        f.writable(),
        steps_to(f, g),
        steps_to(g, h),
    ensures
        steps_to(f, h),
{
    lemma_extends_trans(f.blocks, g.blocks, h.blocks);
    assert forall|i: int|
        0 <= i < f.blocks.len() && i != f.current && f.blocks[i].term is None implies #[trigger] h.blocks[i]
        == f.blocks[i] by {
        assert(g.blocks[i] == f.blocks[i]);
    }
}

/// A function stays as it is where nothing is generated.
pub proof fn lemma_steps_refl(f: FunctionView)
    requires
        f.writable(),
    ensures
        steps_to(f, f),
{
    lemma_extends_refl(f.blocks);
}

/// Appending instructions at an open position changes that block only, and
/// only at its end.
pub proof fn lemma_emit_all(f: FunctionView, code: Seq<Inst>)
    requires
        f.writable(),
    ensures
        steps_to(f, emit_all(f, code)),
        emit_all(f, code).current == f.current,
        emit_all(f, code).blocks.len() == f.blocks.len(),
        emit_all(f, code).blocks[f.current].insts == f.blocks[f.current].insts + code,
        emit_all(f, code).here() == f.here() + code.len(),
        forall|i: int|
            0 <= i < f.blocks.len() && i != f.current ==> #[trigger] emit_all(f, code).blocks[i]
                == f.blocks[i],
    decreases code.len(),
{
    let g = emit_all(f, code);
    if code.len() == 0 {
        assert(f.blocks[f.current].insts + code =~= f.blocks[f.current].insts);
        lemma_steps_refl(f);
    } else {
        let head = code.drop_last();
        lemma_emit_all(f, head);
        let mid = emit_all(f, head);
        assert(g == mid.emit(code.last()));
        assert(g.blocks[f.current].insts =~= f.blocks[f.current].insts + code);
        assert forall|i: int| 0 <= i < f.blocks.len() implies {
            &&& f.blocks[i].insts.len() <= (#[trigger] g.blocks[i]).insts.len()
            &&& g.blocks[i].insts.take(f.blocks[i].insts.len() as int) == f.blocks[i].insts
            &&& f.blocks[i].term is Some ==> g.blocks[i] == f.blocks[i]
        } by {
            if i == f.current {
                assert(g.blocks[i].insts.take(f.blocks[i].insts.len() as int)
                    =~= f.blocks[i].insts);
            } else {
                assert(g.blocks[i] == mid.blocks[i]);
                assert(g.blocks[i].insts.take(f.blocks[i].insts.len() as int)
                    =~= f.blocks[i].insts);
            }
        }
    }
}

/// Running a list of instructions in two parts is running it at once.
pub proof fn lemma_exec_list_concat(m: Machine, vals: Seq<int>, a: Seq<Inst>, b: Seq<Inst>)
    ensures
        exec_list(m, vals, a + b) == exec_list(
            exec_list(m, vals, a).0,
            exec_list(m, vals, a).1,
            b,
        ),
        exec_list(m, vals, a).1.len() == vals.len() + a.len(),
    decreases b.len(),
{
    lemma_exec_list_len(m, vals, a);
    if b.len() == 0 {
        assert(a + b =~= a);
    } else {
        lemma_exec_list_concat(m, vals, a, b.drop_last());
        assert((a + b).drop_last() =~= a + b.drop_last());
        assert((a + b).last() == b.last());
    }
}

/// Every instruction run adds one value.
pub proof fn lemma_exec_list_len(m: Machine, vals: Seq<int>, code: Seq<Inst>)
    ensures
        exec_list(m, vals, code).1.len() == vals.len() + code.len(),
        forall|i: int| 0 <= i < vals.len() ==> exec_list(m, vals, code).1[i] == vals[i],
    decreases code.len(),
{
    if code.len() > 0 {
        lemma_exec_list_len(m, vals, code.drop_last());
    }
}

/// Where the instructions `code` stand in a block from place `k` on, the
/// function runs from `k` as it runs from behind them, in the machine and
/// with the values that they leave.
pub proof fn lemma_exec_through(
    blocks: Seq<BlockView>,
    at: int,
    k: int,
    m: Machine,
    vals: Seq<int>,
    code: Seq<Inst>,
    fuel: nat,
)
    requires
        0 <= k,
        k + code.len() <= blocks[at].insts.len(),
        blocks[at].insts.subrange(k, k + code.len()) == code,
    ensures
        exec_from(blocks, at, k, m, vals, fuel) == exec_from(
            blocks,
            at,
            k + code.len(),
            exec_list(m, vals, code).0,
            exec_list(m, vals, code).1,
            fuel,
        ),
    decreases code.len(),
{
    if code.len() > 0 {
        let head = code.drop_last();
        let n = code.len() as int;
        assert(blocks[at].insts.subrange(k, k + n - 1) =~= head);
        lemma_exec_through(blocks, at, k, m, vals, head, fuel);
        let before = exec_list(m, vals, head);
        assert(blocks[at].insts[k + n - 1] == code[n - 1]);
    }
}

/// Appending one more instruction.
pub proof fn lemma_emit_all_push(f: FunctionView, code: Seq<Inst>, inst: Inst)
    ensures
        emit_all(f, code.push(inst)) == emit_all(f, code).emit(inst),
        emit_all(f, Seq::empty()) == f,
{
    assert(code.push(inst).drop_last() =~= code);
}

/// Appending a list of instructions in two parts is appending it at once.
pub proof fn lemma_emit_all_concat(f: FunctionView, a: Seq<Inst>, b: Seq<Inst>)
    ensures
        emit_all(f, a + b) == emit_all(emit_all(f, a), b),
    decreases b.len(),
{
    if b.len() == 0 {
        assert(a + b =~= a);
    } else {
        lemma_emit_all_concat(f, a, b.drop_last());
        assert((a + b).drop_last() =~= a + b.drop_last());
        assert((a + b).last() == b.last());
    }
}

/// Running one more instruction.
pub proof fn lemma_exec_list_push(m: Machine, vals: Seq<int>, code: Seq<Inst>, inst: Inst)
    ensures
        exec_list(m, vals, code.push(inst)) == ({
            let before = exec_list(m, vals, code);
            let step = exec_inst(before.0, before.1, inst);
            (step.0, before.1.push(step.1))
        }),
        exec_list(m, vals, Seq::empty()) == (m, vals),
{
    assert(code.push(inst).drop_last() =~= code);
}

/// The place `a + j` as an instruction names it.
pub open spec fn at(a: int, j: int) -> usize {
    (a + j) as usize
}

/// The instructions of a move by `n`, when they start at place `a`.
pub open spec fn move_code(a: int, n: i16) -> Seq<Inst> {
    seq![
        Inst::LoadPos,
        Inst::Add(Operand::Const(n as i32), Operand::Inst(at(a, 0))),
        Inst::StorePos(Operand::Inst(at(a, 1))),
    ]
}

/// The instructions of a modification by `n`, when they start at place `a`.
pub open spec fn modify_code(a: int, n: i16) -> Seq<Inst> {
    seq![
        Inst::LoadPos,
        Inst::CellPtr(Operand::Inst(at(a, 0))),
        Inst::Load(at(a, 1)),
        Inst::Add(Operand::Inst(at(a, 2)), Operand::Const(n as i32)),
        Inst::Store(at(a, 1), Operand::Inst(at(a, 3))),
    ]
}

/// The instructions of one read, when they start at place `a`.
pub open spec fn read_code(a: int) -> Seq<Inst> {
    seq![
        Inst::LoadPos,
        Inst::CellPtr(Operand::Inst(at(a, 0))),
        Inst::GetChar,
        Inst::Store(at(a, 1), Operand::Inst(at(a, 2))),
    ]
}

/// The instructions of one write, when they start at place `a`.
pub open spec fn write_code(a: int) -> Seq<Inst> {
    seq![
        Inst::LoadPos,
        Inst::CellPtr(Operand::Inst(at(a, 0))),
        Inst::Load(at(a, 1)),
        Inst::PutChar(Operand::Inst(at(a, 2))),
    ]
}

/// The instructions of a reset at `offset`, when they start at place `a`.
pub open spec fn reset_code(a: int, offset: i32) -> Seq<Inst> {
    seq![
        Inst::LoadPos,
        Inst::Add(Operand::Inst(at(a, 0)), Operand::Const(offset)),
        Inst::CellPtr(Operand::Inst(at(a, 1))),
        Inst::Store(at(a, 2), Operand::Const(0)),
    ]
}

/// The code generator appends exactly these instructions for a move.
pub proof fn lemma_move_code(f: FunctionView, n: i16)
    requires
        f.writable(),
    ensures
        lowered_move(f, n) == emit_all(f, move_code(f.here(), n)),
{
    let code = move_code(f.here(), n);
    let e = Seq::<Inst>::empty();
    assert(code =~= e.push(code[0]).push(code[1]).push(code[2]));
    lemma_emit_all_push(f, e, code[0]);
    lemma_emit_all_push(f, e.push(code[0]), code[1]);
    lemma_emit_all_push(f, e.push(code[0]).push(code[1]), code[2]);
    lemma_emit_all(f, e.push(code[0]));
}

/// The code generator appends exactly these instructions for a
/// modification.
pub proof fn lemma_modify_code(f: FunctionView, n: i16)
    requires
        f.writable(),
    ensures
        lowered_modify(f, n) == emit_all(f, modify_code(f.here(), n)),
{
    let code = modify_code(f.here(), n);
    let e = Seq::<Inst>::empty();
    let c1 = e.push(code[0]);
    let c2 = c1.push(code[1]);
    let c3 = c2.push(code[2]);
    let c4 = c3.push(code[3]);
    assert(code =~= c4.push(code[4]));
    lemma_emit_all_push(f, e, code[0]);
    lemma_emit_all_push(f, c1, code[1]);
    lemma_emit_all_push(f, c2, code[2]);
    lemma_emit_all_push(f, c3, code[3]);
    lemma_emit_all_push(f, c4, code[4]);
    lemma_emit_all(f, c1);
    lemma_emit_all(f, c2);
    lemma_emit_all(f, c3);
}

/// The code generator appends exactly these instructions for a read.
pub proof fn lemma_read_code(f: FunctionView)
    requires
        f.writable(),
    ensures
        lowered_read(f) == emit_all(f, read_code(f.here())),
{
    let code = read_code(f.here());
    let e = Seq::<Inst>::empty();
    let c1 = e.push(code[0]);
    let c2 = c1.push(code[1]);
    let c3 = c2.push(code[2]);
    assert(code =~= c3.push(code[3]));
    lemma_emit_all_push(f, e, code[0]);
    lemma_emit_all_push(f, c1, code[1]);
    lemma_emit_all_push(f, c2, code[2]);
    lemma_emit_all_push(f, c3, code[3]);
    lemma_emit_all(f, c1);
    lemma_emit_all(f, c2);
}

/// The code generator appends exactly these instructions for a write.
pub proof fn lemma_write_code(f: FunctionView)
    requires
        f.writable(),
    ensures
        lowered_write(f) == emit_all(f, write_code(f.here())),
{
    let code = write_code(f.here());
    let e = Seq::<Inst>::empty();
    let c1 = e.push(code[0]);
    let c2 = c1.push(code[1]);
    let c3 = c2.push(code[2]);
    assert(code =~= c3.push(code[3]));
    lemma_emit_all_push(f, e, code[0]);
    lemma_emit_all_push(f, c1, code[1]);
    lemma_emit_all_push(f, c2, code[2]);
    lemma_emit_all_push(f, c3, code[3]);
    lemma_emit_all(f, c1);
    lemma_emit_all(f, c2);
}

/// The code generator appends exactly these instructions for a reset.
pub proof fn lemma_reset_code(f: FunctionView, offset: i32)
    requires
        f.writable(),
    ensures
        lowered_reset(f, offset) == emit_all(f, reset_code(f.here(), offset)),
{
    let code = reset_code(f.here(), offset);
    let e = Seq::<Inst>::empty();
    let c1 = e.push(code[0]);
    let c2 = c1.push(code[1]);
    let c3 = c2.push(code[2]);
    assert(code =~= c3.push(code[3]));
    lemma_emit_all_push(f, e, code[0]);
    lemma_emit_all_push(f, c1, code[1]);
    lemma_emit_all_push(f, c2, code[2]);
    lemma_emit_all_push(f, c3, code[3]);
    lemma_emit_all(f, c1);
    lemma_emit_all(f, c2);
}

/// The instructions of a move do what a move does.
pub proof fn lemma_move_runs(m: Machine, vals: Seq<int>, n: i16)
    requires
        m.valid(),
        vals.len() + 3 <= usize::MAX,
    ensures
        exec_list(m, vals, move_code(vals.len() as int, n)).0 == m.step(Op::Move(n)),
{
    let a = vals.len() as int;
    let code = move_code(a, n);
    let e = Seq::<Inst>::empty();
    let c1 = e.push(code[0]);
    let c2 = c1.push(code[1]);
    assert(code =~= c2.push(code[2]));
    lemma_exec_list_push(m, vals, e, code[0]);
    lemma_exec_list_push(m, vals, c1, code[1]);
    lemma_exec_list_push(m, vals, c2, code[2]);
    lemma_wrap(n + m.pos);
    let got = exec_list(m, vals, code).0;
    assert(got.pos == wrap(m.pos + n));
    assert(got =~= m.step(Op::Move(n)));
}

/// The instructions of a modification do what a modification does.
pub proof fn lemma_modify_runs(m: Machine, vals: Seq<int>, n: i16)
    requires
        m.valid(),
        vals.len() + 5 <= usize::MAX,
    ensures
        exec_list(m, vals, modify_code(vals.len() as int, n)).0 == m.step(Op::Modify(n)),
{
    let a = vals.len() as int;
    let code = modify_code(a, n);
    let e = Seq::<Inst>::empty();
    let c1 = e.push(code[0]);
    let c2 = c1.push(code[1]);
    let c3 = c2.push(code[2]);
    let c4 = c3.push(code[3]);
    assert(code =~= c4.push(code[4]));
    lemma_exec_list_push(m, vals, e, code[0]);
    lemma_exec_list_push(m, vals, c1, code[1]);
    lemma_exec_list_push(m, vals, c2, code[2]);
    lemma_exec_list_push(m, vals, c3, code[3]);
    lemma_exec_list_push(m, vals, c4, code[4]);
    lemma_wrap(m.cell() + n);
    let got = exec_list(m, vals, code).0;
    let want = m.step(Op::Modify(n));
    assert(got.tape =~= want.tape);
    assert(got =~= want);
}

/// The instructions of a read do what a read does.
pub proof fn lemma_read_runs(m: Machine, vals: Seq<int>)
    requires
        m.valid(),
        vals.len() + 4 <= usize::MAX,
    ensures
        exec_list(m, vals, read_code(vals.len() as int)).0 == m.read(),
{
    let a = vals.len() as int;
    let code = read_code(a);
    let e = Seq::<Inst>::empty();
    let c1 = e.push(code[0]);
    let c2 = c1.push(code[1]);
    let c3 = c2.push(code[2]);
    assert(code =~= c3.push(code[3]));
    lemma_exec_list_push(m, vals, e, code[0]);
    lemma_exec_list_push(m, vals, c1, code[1]);
    lemma_exec_list_push(m, vals, c2, code[2]);
    lemma_exec_list_push(m, vals, c3, code[3]);
    let got = exec_list(m, vals, code).0;
    let want = m.read();
    assert(got.tape =~= want.tape);
    assert(got =~= want);
}

/// The instructions of a write do what a write does.
pub proof fn lemma_write_runs(m: Machine, vals: Seq<int>)
    requires
        m.valid(),
        vals.len() + 4 <= usize::MAX,
    ensures
        exec_list(m, vals, write_code(vals.len() as int)).0 == m.write(),
{
    let a = vals.len() as int;
    let code = write_code(a);
    let e = Seq::<Inst>::empty();
    let c1 = e.push(code[0]);
    let c2 = c1.push(code[1]);
    let c3 = c2.push(code[2]);
    assert(code =~= c3.push(code[3]));
    lemma_exec_list_push(m, vals, e, code[0]);
    lemma_exec_list_push(m, vals, c1, code[1]);
    lemma_exec_list_push(m, vals, c2, code[2]);
    lemma_exec_list_push(m, vals, c3, code[3]);
    let got = exec_list(m, vals, code).0;
    let want = m.write();
    assert(got =~= want);
}

/// The instructions of a reset do what a reset does.
pub proof fn lemma_reset_runs(m: Machine, vals: Seq<int>, offset: i32)
    requires
        m.valid(),
        vals.len() + 4 <= usize::MAX,
    ensures
        exec_list(m, vals, reset_code(vals.len() as int, offset)).0 == m.reset(offset as int),
{
    let a = vals.len() as int;
    let code = reset_code(a, offset);
    let e = Seq::<Inst>::empty();
    let c1 = e.push(code[0]);
    let c2 = c1.push(code[1]);
    let c3 = c2.push(code[2]);
    assert(code =~= c3.push(code[3]));
    lemma_exec_list_push(m, vals, e, code[0]);
    lemma_exec_list_push(m, vals, c1, code[1]);
    lemma_exec_list_push(m, vals, c2, code[2]);
    lemma_exec_list_push(m, vals, c3, code[3]);
    let got = exec_list(m, vals, code).0;
    let want = m.reset(offset as int);
    assert(got.tape =~= want.tape);
    assert(got =~= want);
}

/// The instructions of `k` reads, when they start at place `a`.
pub open spec fn reads_code(a: int, k: nat) -> Seq<Inst>
    decreases k,
{
    if k == 0 {
        Seq::empty()
    } else {
        reads_code(a, (k - 1) as nat) + read_code(a + 4 * (k - 1))
    }
}

/// The instructions of `k` writes, when they start at place `a`.
pub open spec fn writes_code(a: int, k: nat) -> Seq<Inst>
    decreases k,
{
    if k == 0 {
        Seq::empty()
    } else {
        writes_code(a, (k - 1) as nat) + write_code(a + 4 * (k - 1))
    }
}

/// The instructions of one operation, when they start at place `a`.
pub open spec fn op_code(a: int, op: Op) -> Seq<Inst> {
    match op {
        Op::Move(n) => move_code(a, n),
        Op::Modify(n) => modify_code(a, n),
        Op::Inp(k) => reads_code(a, k as nat),
        Op::Outp(k) => writes_code(a, k as nat),
        Op::LBr => Seq::empty(),
        Op::RBr => Seq::empty(),
    }
}

/// The instructions of a straight-line block, when they start at place `a`.
pub open spec fn ops_code(a: int, ops: Seq<Op>) -> Seq<Inst>
    decreases ops.len(),
{
    if ops.len() == 0 {
        Seq::empty()
    } else {
        let head = ops_code(a, ops.drop_last());
        head + op_code(a + head.len(), ops.last())
    }
}

/// The code generator appends exactly these instructions for `k` reads.
pub proof fn lemma_reads_code(f: FunctionView, k: nat)
    requires
        f.writable(),
    ensures
        lowered_reads(f, k) == emit_all(f, reads_code(f.here(), k)),
        reads_code(f.here(), k).len() == 4 * k,
    decreases k,
{
    if k > 0 {
        let less = (k - 1) as nat;
        lemma_reads_code(f, less);
        let head = reads_code(f.here(), less);
        let g = emit_all(f, head);
        lemma_emit_all(f, head);
        lemma_read_code(g);
        lemma_emit_all_concat(f, head, read_code(g.here()));
    }
}

/// The code generator appends exactly these instructions for `k` writes.
pub proof fn lemma_writes_code(f: FunctionView, k: nat)
    requires
        f.writable(),
    ensures
        lowered_writes(f, k) == emit_all(f, writes_code(f.here(), k)),
        writes_code(f.here(), k).len() == 4 * k,
    decreases k,
{
    if k > 0 {
        let less = (k - 1) as nat;
        lemma_writes_code(f, less);
        let head = writes_code(f.here(), less);
        let g = emit_all(f, head);
        lemma_emit_all(f, head);
        lemma_write_code(g);
        lemma_emit_all_concat(f, head, write_code(g.here()));
    }
}

/// The code generator appends exactly these instructions for an operation.
pub proof fn lemma_op_code(f: FunctionView, op: Op)
    requires
        f.writable(),
    ensures
        lowered_op(f, op) == emit_all(f, op_code(f.here(), op)),
{
    match op {
        Op::Move(n) => lemma_move_code(f, n),
        Op::Modify(n) => lemma_modify_code(f, n),
        Op::Inp(k) => lemma_reads_code(f, k as nat),
        Op::Outp(k) => lemma_writes_code(f, k as nat),
        _ => {},
    }
}

/// The code generator appends exactly these instructions for a
/// straight-line block.
pub proof fn lemma_ops_code(f: FunctionView, ops: Seq<Op>)
    requires
        f.writable(),
    ensures
        lowered_ops(f, ops) == emit_all(f, ops_code(f.here(), ops)),
    decreases ops.len(),
{
    if ops.len() > 0 {
        lemma_ops_code(f, ops.drop_last());
        let head = ops_code(f.here(), ops.drop_last());
        let g = emit_all(f, head);
        lemma_emit_all(f, head);
        lemma_op_code(g, ops.last());
        lemma_emit_all_concat(f, head, op_code(g.here(), ops.last()));
    }
}

/// The instructions of `k` reads do what `k` reads do.
pub proof fn lemma_reads_runs(m: Machine, vals: Seq<int>, k: nat)
    requires
        m.valid(),
        vals.len() + reads_code(vals.len() as int, k).len() <= usize::MAX,
    ensures
        exec_list(m, vals, reads_code(vals.len() as int, k)).0 == m.reads(k),
    decreases k,
{
    let a = vals.len() as int;
    if k > 0 {
        let less = (k - 1) as nat;
        let head = reads_code(a, less);
        let tail = read_code(a + 4 * (k - 1));
        lemma_reads_len(a, less);
        lemma_reads_runs(m, vals, less);
        lemma_reads_valid(m, less);
        lemma_exec_list_concat(m, vals, head, tail);
        let mid = exec_list(m, vals, head);
        lemma_read_runs(mid.0, mid.1);
    }
}

/// `k` reads are four instructions each.
pub proof fn lemma_reads_len(a: int, k: nat)
    ensures
        reads_code(a, k).len() == 4 * k,
    decreases k,
{
    if k > 0 {
        lemma_reads_len(a, (k - 1) as nat);
    }
}

/// `k` writes are four instructions each.
pub proof fn lemma_writes_len(a: int, k: nat)
    ensures
        writes_code(a, k).len() == 4 * k,
    decreases k,
{
    if k > 0 {
        lemma_writes_len(a, (k - 1) as nat);
    }
}

/// The instructions of `k` writes do what `k` writes do.
pub proof fn lemma_writes_runs(m: Machine, vals: Seq<int>, k: nat)
    requires
        m.valid(),
        vals.len() + writes_code(vals.len() as int, k).len() <= usize::MAX,
    ensures
        exec_list(m, vals, writes_code(vals.len() as int, k)).0 == m.writes(k),
    decreases k,
{
    let a = vals.len() as int;
    if k > 0 {
        let less = (k - 1) as nat;
        let head = writes_code(a, less);
        let tail = write_code(a + 4 * (k - 1));
        lemma_writes_len(a, less);
        lemma_writes_runs(m, vals, less);
        lemma_writes_valid(m, less);
        lemma_exec_list_concat(m, vals, head, tail);
        let mid = exec_list(m, vals, head);
        lemma_write_runs(mid.0, mid.1);
    }
}

/// The instructions of an operation do what the operation does.
pub proof fn lemma_op_runs(m: Machine, vals: Seq<int>, op: Op)
    requires
        m.valid(),
        vals.len() + op_code(vals.len() as int, op).len() <= usize::MAX,
    ensures
        exec_list(m, vals, op_code(vals.len() as int, op)).0 == m.step(op),
{
    match op {
        Op::Move(n) => lemma_move_runs(m, vals, n),
        Op::Modify(n) => lemma_modify_runs(m, vals, n),
        Op::Inp(k) => lemma_reads_runs(m, vals, k as nat),
        Op::Outp(k) => lemma_writes_runs(m, vals, k as nat),
        _ => {},
    }
}

/// The instructions of a straight-line block do what the block does.
pub proof fn lemma_ops_runs(m: Machine, vals: Seq<int>, ops: Seq<Op>)
    requires
        m.valid(),
        vals.len() + ops_code(vals.len() as int, ops).len() <= usize::MAX,
    ensures
        exec_list(m, vals, ops_code(vals.len() as int, ops)).0 == m.steps(ops),
    decreases ops.len(),
{
    let a = vals.len() as int;
    if ops.len() > 0 {
        let head = ops_code(a, ops.drop_last());
        let tail = op_code(a + head.len(), ops.last());
        lemma_ops_runs(m, vals, ops.drop_last());
        lemma_steps_valid(m, ops.drop_last());
        lemma_exec_list_concat(m, vals, head, tail);
        let mid = exec_list(m, vals, head);
        lemma_op_runs(mid.0, mid.1, ops.last());
    }
}

/// The instructions of the head of a multiply block, when they start at
/// place `a`.
pub open spec fn head_code(a: int) -> Seq<Inst> {
    seq![Inst::LoadPos, Inst::CellPtr(Operand::Inst(at(a, 0))), Inst::Load(at(a, 1))]
}

/// The instructions of one multiply-accumulate, when the head stands at
/// place `a` and they start at place `b`.
pub open spec fn step_code(a: int, b: int, offset: i32, factor: i32) -> Seq<Inst> {
    seq![
        Inst::Add(Operand::Inst(at(a, 0)), Operand::Const(offset)),
        Inst::CellPtr(Operand::Inst(at(b, 0))),
        Inst::Load(at(b, 1)),
        Inst::Mul(Operand::Inst(at(a, 2)), Operand::Const(factor)),
        Inst::Add(Operand::Inst(at(b, 2)), Operand::Inst(at(b, 3))),
        Inst::Store(at(b, 1), Operand::Inst(at(b, 4))),
    ]
}

/// The instructions of the multiply-accumulates of `pairs`, when the head
/// stands at place `a` and they start at place `b`.
pub open spec fn steps_code(a: int, b: int, pairs: Seq<(int, int)>) -> Seq<Inst>
    decreases pairs.len(),
{
    if pairs.len() == 0 {
        Seq::empty()
    } else {
        let head = steps_code(a, b, pairs.drop_last());
        head + step_code(a, b + head.len(), pairs.last().0 as i32, pairs.last().1 as i32)
    }
}

/// The instructions of a multiply block, when they start at place `a`.
pub open spec fn multiply_code(a: int, pairs: Seq<(int, int)>) -> Seq<Inst> {
    (head_code(a) + steps_code(a, a + 3, pairs)).push(Inst::Store(at(a, 1), Operand::Const(0)))
}

/// Every offset and factor is a 32-bit signed value.
pub open spec fn pairs_fit(pairs: Seq<(int, int)>) -> bool {
    forall|i: int|
        0 <= i < pairs.len() ==> {
            &&& i32::MIN <= (#[trigger] pairs[i]).0 <= i32::MAX
            &&& i32::MIN <= pairs[i].1 <= i32::MAX
        }
}

/// The code generator appends exactly these instructions for the head of
/// a multiply block.
pub proof fn lemma_head_code(f: FunctionView)
    requires
        f.writable(),
    ensures
        multiply_head(f) == emit_all(f, head_code(f.here())),
{
    let code = head_code(f.here());
    let e = Seq::<Inst>::empty();
    let c1 = e.push(code[0]);
    let c2 = c1.push(code[1]);
    assert(code =~= c2.push(code[2]));
    lemma_emit_all_push(f, e, code[0]);
    lemma_emit_all_push(f, c1, code[1]);
    lemma_emit_all_push(f, c2, code[2]);
    lemma_emit_all(f, c1);
}

/// The code generator appends exactly these instructions for one
/// multiply-accumulate.
pub proof fn lemma_step_code(f: FunctionView, a: int, offset: i32, factor: i32)
    requires
        f.writable(),
    ensures
        multiply_step(f, a, offset, factor) == emit_all(f, step_code(a, f.here(), offset, factor)),
{
    let code = step_code(a, f.here(), offset, factor);
    let e = Seq::<Inst>::empty();
    let c1 = e.push(code[0]);
    let c2 = c1.push(code[1]);
    let c3 = c2.push(code[2]);
    let c4 = c3.push(code[3]);
    let c5 = c4.push(code[4]);
    assert(code =~= c5.push(code[5]));
    lemma_emit_all_push(f, e, code[0]);
    lemma_emit_all_push(f, c1, code[1]);
    lemma_emit_all_push(f, c2, code[2]);
    lemma_emit_all_push(f, c3, code[3]);
    lemma_emit_all_push(f, c4, code[4]);
    lemma_emit_all_push(f, c5, code[5]);
    lemma_emit_all(f, c1);
    lemma_emit_all(f, c2);
    lemma_emit_all(f, c3);
    lemma_emit_all(f, c4);
}

/// The code generator appends exactly these instructions for the
/// multiply-accumulates of `pairs`.
pub proof fn lemma_steps_code(f: FunctionView, a: int, pairs: Seq<(int, int)>)
    requires
        f.writable(),
    ensures
        multiply_steps(f, a, pairs) == emit_all(f, steps_code(a, f.here(), pairs)),
        steps_code(a, f.here(), pairs).len() == 6 * pairs.len(),
    decreases pairs.len(),
{
    if pairs.len() > 0 {
        lemma_steps_code(f, a, pairs.drop_last());
        let head = steps_code(a, f.here(), pairs.drop_last());
        let g = emit_all(f, head);
        lemma_emit_all(f, head);
        lemma_step_code(g, a, pairs.last().0 as i32, pairs.last().1 as i32);
        lemma_emit_all_concat(
            f,
            head,
            step_code(a, g.here(), pairs.last().0 as i32, pairs.last().1 as i32),
        );
    }
}

/// The code generator appends exactly these instructions for a multiply
/// block.
pub proof fn lemma_multiply_code(f: FunctionView, pairs: Seq<(int, int)>)
    requires
        f.writable(),
    ensures
        lowered_multiply(f, pairs) == emit_all(f, multiply_code(f.here(), pairs)),
        multiply_code(f.here(), pairs).len() == 6 * pairs.len() + 4,
{
    let a = f.here();
    lemma_head_code(f);
    let g = emit_all(f, head_code(a));
    lemma_emit_all(f, head_code(a));
    lemma_steps_code(g, a, pairs);
    lemma_emit_all_concat(f, head_code(a), steps_code(a, a + 3, pairs));
    lemma_emit_all_push(
        f,
        head_code(a) + steps_code(a, a + 3, pairs),
        Inst::Store(at(a, 1), Operand::Const(0)),
    );
}

/// The multiply-accumulate steps move nothing but cells.
pub proof fn lemma_accumulate_pos(m: Machine, base: int, pairs: Seq<(int, int)>)
    ensures
        m.accumulate(base, pairs).pos == m.pos,
        m.accumulate(base, pairs).input == m.input,
        m.accumulate(base, pairs).output == m.output,
    decreases pairs.len(),
{
    if pairs.len() > 0 {
        lemma_accumulate_pos(m, base, pairs.drop_last());
    }
}

/// The instructions of one multiply-accumulate do what it does.
pub proof fn lemma_step_runs(m: Machine, vals: Seq<int>, a: int, offset: i32, factor: i32)
    requires
        m.valid(),
        0 <= a,
        a + 2 < vals.len(),
        vals[a] == m.pos,
        vals.len() + 6 <= usize::MAX,
    ensures
        exec_list(m, vals, step_code(a, vals.len() as int, offset, factor)).0 == m.store(
            wrap(m.pos + offset),
            (m.tape)(wrap(m.pos + offset)) + wrap(vals[a + 2] * factor),
        ),
{
    let b = vals.len() as int;
    let code = step_code(a, b, offset, factor);
    let e = Seq::<Inst>::empty();
    let c1 = e.push(code[0]);
    let c2 = c1.push(code[1]);
    let c3 = c2.push(code[2]);
    let c4 = c3.push(code[3]);
    let c5 = c4.push(code[4]);
    assert(code =~= c5.push(code[5]));
    lemma_exec_list_push(m, vals, e, code[0]);
    lemma_exec_list_push(m, vals, c1, code[1]);
    lemma_exec_list_push(m, vals, c2, code[2]);
    lemma_exec_list_push(m, vals, c3, code[3]);
    lemma_exec_list_push(m, vals, c4, code[4]);
    lemma_exec_list_push(m, vals, c5, code[5]);
    let cell = wrap(m.pos + offset);
    lemma_wrap((m.tape)(cell) + wrap(vals[a + 2] * factor));
    let got = exec_list(m, vals, code).0;
    let want = m.store(cell, (m.tape)(cell) + wrap(vals[a + 2] * factor));
    assert(got.tape =~= want.tape);
    assert(got =~= want);
}

/// The instructions of the multiply-accumulates of `pairs` do what they do.
pub proof fn lemma_steps_runs(m: Machine, vals: Seq<int>, a: int, pairs: Seq<(int, int)>)
    requires
        m.valid(),
        0 <= a,
        a + 2 < vals.len(),
        vals[a] == m.pos,
        pairs_fit(pairs),
        vals.len() + 6 * pairs.len() <= usize::MAX,
    ensures
        exec_list(m, vals, steps_code(a, vals.len() as int, pairs)).0 == m.accumulate(
            vals[a + 2],
            pairs,
        ),
        steps_code(a, vals.len() as int, pairs).len() == 6 * pairs.len(),
    decreases pairs.len(),
{
    let b = vals.len() as int;
    if pairs.len() > 0 {
        let rest = pairs.drop_last();
        assert(pairs_fit(rest)) by {
            assert forall|i: int| 0 <= i < rest.len() implies {
                &&& i32::MIN <= (#[trigger] rest[i]).0 <= i32::MAX
                &&& i32::MIN <= rest[i].1 <= i32::MAX
            } by {
                assert(rest[i] == pairs[i]);
            }
        }
        lemma_steps_runs(m, vals, a, rest);
        let head = steps_code(a, b, rest);
        let d = pairs.last().0;
        let k = pairs.last().1;
        assert(pairs[pairs.len() - 1] == pairs.last());
        let tail = step_code(a, b + head.len(), d as i32, k as i32);
        lemma_exec_list_concat(m, vals, head, tail);
        lemma_exec_list_len(m, vals, head);
        let mid = exec_list(m, vals, head);
        lemma_accumulate_pos(m, vals[a + 2], rest);
        lemma_accumulate_valid(m, vals[a + 2], rest);
        lemma_step_runs(mid.0, mid.1, a, d as i32, k as i32);
    }
}

/// The instructions of a multiply block do what the block does.
pub proof fn lemma_multiply_runs(m: Machine, vals: Seq<int>, pairs: Seq<(int, int)>)
    requires
        m.valid(),
        pairs_fit(pairs),
        vals.len() + 6 * pairs.len() + 4 <= usize::MAX,
    ensures
        exec_list(m, vals, multiply_code(vals.len() as int, pairs)).0 == m.multiply(pairs),
{
    let a = vals.len() as int;
    let code = head_code(a);
    let e = Seq::<Inst>::empty();
    let c1 = e.push(code[0]);
    let c2 = c1.push(code[1]);
    assert(code =~= c2.push(code[2]));
    lemma_exec_list_push(m, vals, e, code[0]);
    lemma_exec_list_push(m, vals, c1, code[1]);
    lemma_exec_list_push(m, vals, c2, code[2]);
    let first = exec_list(m, vals, code);
    assert(first.0 == m);
    assert(first.1[a] == m.pos);
    assert(first.1[a + 1] == m.pos);
    assert(first.1[a + 2] == m.cell());
    lemma_steps_runs(m, first.1, a, pairs);
    let steps = steps_code(a, a + 3, pairs);
    lemma_exec_list_concat(m, vals, code, steps);
    lemma_exec_list_len(m, first.1, steps);
    let second = exec_list(m, vals, code + steps);
    assert(second.0 == m.accumulate(m.cell(), pairs));
    assert(second.1[a + 1] == m.pos);
    lemma_exec_list_push(m, vals, code + steps, Inst::Store(at(a, 1), Operand::Const(0)));
    lemma_accumulate_pos(m, m.cell(), pairs);
    let got = exec_list(m, vals, multiply_code(a, pairs)).0;
    let want = m.multiply(pairs);
    assert(got.tape =~= want.tape);
    assert(got =~= want);
}

/// The instructions of the test of the current cell, when they start at
/// place `a`.
pub open spec fn test_code(a: int) -> Seq<Inst> {
    seq![
        Inst::LoadPos,
        Inst::CellPtr(Operand::Inst(at(a, 0))),
        Inst::Load(at(a, 1)),
        Inst::NonZero(Operand::Inst(at(a, 2))),
    ]
}

/// The branch that ends a test that starts at place `a`.
pub open spec fn test_branch(a: int, body: int, after: int) -> Terminator {
    Terminator::CondBr { cond: at(a, 3), then_block: body as usize, else_block: after as usize }
}

/// The code generator appends exactly these instructions for the test of
/// the current cell.
pub proof fn lemma_test_code(f: FunctionView)
    requires
        f.writable(),
    ensures
        cell_test(f) == emit_all(f, test_code(f.here())),
{
    let code = test_code(f.here());
    let e = Seq::<Inst>::empty();
    let c1 = e.push(code[0]);
    let c2 = c1.push(code[1]);
    let c3 = c2.push(code[2]);
    assert(code =~= c3.push(code[3]));
    lemma_emit_all_push(f, e, code[0]);
    lemma_emit_all_push(f, c1, code[1]);
    lemma_emit_all_push(f, c2, code[2]);
    lemma_emit_all_push(f, c3, code[3]);
    lemma_emit_all(f, c1);
    lemma_emit_all(f, c2);
}

/// What a test with its branch leaves: the block that was at the position
/// holds the test at its end and is closed by the branch, every other block
/// is as it was, and the position is at `next`.
pub proof fn lemma_test_and_branch(f: FunctionView, body: int, after: int, next: int)
    requires
        f.writable(),
        0 <= next < f.blocks.len(),
        next != f.current,
        f.blocks[next].term is None,
    ensures
        test_and_branch(f, body, after, next).current == next,
        test_and_branch(f, body, after, next).writable(),
        test_and_branch(f, body, after, next).blocks.len() == f.blocks.len(),
        test_and_branch(f, body, after, next).blocks[f.current].insts == f.blocks[f.current].insts
            + test_code(f.here()),
        test_and_branch(f, body, after, next).blocks[f.current].term == Some(
            test_branch(f.here(), body, after),
        ),
        forall|i: int|
            0 <= i < f.blocks.len() && i != f.current ==> #[trigger] test_and_branch(
                f,
                body,
                after,
                next,
            ).blocks[i] == f.blocks[i],
        extends(f.blocks, test_and_branch(f, body, after, next).blocks),
{
    let g = test_and_branch(f, body, after, next);
    let tested = cell_test(f);
    lemma_test_code(f);
    lemma_emit_all(f, test_code(f.here()));
    assert forall|i: int| 0 <= i < f.blocks.len() implies {
        &&& f.blocks[i].insts.len() <= (#[trigger] g.blocks[i]).insts.len()
        &&& g.blocks[i].insts.take(f.blocks[i].insts.len() as int) == f.blocks[i].insts
        &&& f.blocks[i].term is Some ==> g.blocks[i] == f.blocks[i]
    } by {
        if i != f.current {
            assert(g.blocks[i] == tested.blocks[i]);
            assert(tested.blocks[i] == f.blocks[i]);
        }
        assert(g.blocks[i].insts.take(f.blocks[i].insts.len() as int) =~= f.blocks[i].insts);
    }
}

/// What opening a loop leaves: two new empty blocks, the test and its
/// branch in the block that was at the position, and the position at the
/// start of the body.
pub proof fn lemma_loop_started(f: FunctionView)
    requires
        f.writable(),
    ensures
        steps_to(f, loop_started(f)),
        loop_started(f).current == f.blocks.len(),
        loop_started(f).here() == 0,
        loop_started(f).blocks.len() == f.blocks.len() + 2,
        loop_started(f).blocks[f.current].insts == f.blocks[f.current].insts + test_code(
            f.here(),
        ),
        loop_started(f).blocks[f.current].term == Some(
            test_branch(f.here(), f.blocks.len() as int, f.blocks.len() as int + 1),
        ),
        loop_started(f).blocks[f.blocks.len() as int + 1].insts.len() == 0,
        loop_started(f).blocks[f.blocks.len() as int + 1].term is None,
{
    let body = f.blocks.len() as int;
    let after = body + 1;
    let made = f.append(label_at(body)).append(label_at(after));
    let g = loop_started(f);
    lemma_test_and_branch(made, body, after, body);
    assert(made.blocks[f.current] == f.blocks[f.current]);
    assert forall|i: int| 0 <= i < f.blocks.len() implies {
        &&& f.blocks[i].insts.len() <= (#[trigger] g.blocks[i]).insts.len()
        &&& g.blocks[i].insts.take(f.blocks[i].insts.len() as int) == f.blocks[i].insts
        &&& f.blocks[i].term is Some ==> g.blocks[i] == f.blocks[i]
    } by {
        assert(made.blocks[i] == f.blocks[i]);
        if i != f.current {
            assert(g.blocks[i] == made.blocks[i]);
        }
        assert(g.blocks[i].insts.take(f.blocks[i].insts.len() as int) =~= f.blocks[i].insts);
    }
    assert forall|i: int|
        0 <= i < f.blocks.len() && i != f.current && f.blocks[i].term is None implies #[trigger] g.blocks[i]
        == f.blocks[i] by {
        assert(made.blocks[i] == f.blocks[i]);
    }
    assert(g.blocks[after] == made.blocks[after]);
    assert(g.blocks[body] == made.blocks[body]);
}

/// The instructions of a block that is no loop, when they start at place
/// `a`.
pub open spec fn plain_code(a: int, b: SpecBlock) -> Seq<Inst> {
    match b {
        SpecBlock::Simple(ops) => ops_code(a, ops),
        SpecBlock::Reset { offset } => reset_code(a, offset as i32),
        SpecBlock::Multiply { ops } => multiply_code(a, ops),
        SpecBlock::Loop(_) => Seq::empty(),
    }
}

/// The code generator appends exactly these instructions for a block that
/// is no loop.
pub proof fn lemma_plain_code(f: FunctionView, b: SpecBlock)
    requires
        f.writable(),
        !(b is Loop),
    ensures
        lowered_block(f, b) == emit_all(f, plain_code(f.here(), b)),
{
    match b {
        SpecBlock::Simple(ops) => lemma_ops_code(f, ops),
        SpecBlock::Reset { offset } => lemma_reset_code(f, offset as i32),
        SpecBlock::Multiply { ops } => lemma_multiply_code(f, ops),
        SpecBlock::Loop(_) => {},
    }
}

/// Code generation for a block is code generation at the position.
pub proof fn lemma_block_steps(f: FunctionView, b: SpecBlock)
    requires
        f.writable(),
    ensures
        steps_to(f, lowered_block(f, b)),
    decreases b, 1nat,
{
    match b {
        SpecBlock::Loop(body) => {
            lemma_loop_shape(f, body);
        },
        _ => {
            lemma_plain_code(f, b);
            lemma_emit_all(f, plain_code(f.here(), b));
        },
    }
}

/// Code generation for a program is code generation at the position.
pub proof fn lemma_program_steps(f: FunctionView, p: Seq<SpecBlock>)
    requires
        f.writable(),
    ensures
        steps_to(f, lowered(f, p)),
    decreases p, 1nat,
{
    if p.len() == 0 {
        lemma_steps_refl(f);
    } else {
        lemma_program_steps(f, p.drop_last());
        let g = lowered(f, p.drop_last());
        lemma_block_steps(g, p.last());
        lemma_steps_trans(f, g, lowered_block(g, p.last()));
    }
}

/// What the code of a loop looks like: the test and the branch to the two
/// blocks of the loop stand at the end of the block before it and at the
/// end of its body, the body starts its own block, and what follows the
/// loop starts an empty one.
pub proof fn lemma_loop_shape(f: FunctionView, body: Seq<SpecBlock>)
    requires
        f.writable(),
    ensures
        steps_to(f, lowered_block(f, SpecBlock::Loop(body))),
        steps_to(loop_started(f), lowered(loop_started(f), body)),
        extends(
            lowered(loop_started(f), body).blocks,
            lowered_block(f, SpecBlock::Loop(body)).blocks,
        ),
        lowered_block(f, SpecBlock::Loop(body)).current == f.blocks.len() + 1,
        lowered_block(f, SpecBlock::Loop(body)).here() == 0,
        ({
            let tail = lowered(loop_started(f), body);
            let done = lowered_block(f, SpecBlock::Loop(body));
            &&& done.blocks[tail.current].insts == tail.blocks[tail.current].insts + test_code(
                tail.here(),
            )
            &&& done.blocks[tail.current].term == Some(
                test_branch(tail.here(), f.blocks.len() as int, f.blocks.len() as int + 1),
            )
        }),
    decreases SpecBlock::Loop(body), 0nat,
{
    let at_body = f.blocks.len() as int;
    let after = at_body + 1;
    let head = loop_started(f);
    lemma_loop_started(f);
    lemma_program_steps(head, body);
    let tail = lowered(head, body);
    assert(tail.blocks[after] == head.blocks[after]);
    assert(tail.current != after);
    lemma_test_and_branch(tail, at_body, after, after);
    let done = loop_ended(tail, at_body, after);
    assert(done == lowered_block(f, SpecBlock::Loop(body)));
    assert(done.blocks[after] == tail.blocks[after]);
    lemma_extends_trans(f.blocks, head.blocks, tail.blocks);
    lemma_extends_trans(f.blocks, tail.blocks, done.blocks);
    assert forall|i: int|
        0 <= i < f.blocks.len() && i != f.current && f.blocks[i].term is None implies #[trigger] done.blocks[i]
        == f.blocks[i] by {
        assert(head.blocks[i] == f.blocks[i]);
        assert(tail.blocks[i] == head.blocks[i]);
        assert(done.blocks[i] == tail.blocks[i]);
    }
}

/// Every reset offset and every multiply pair of the block is a 32-bit
/// signed value, as in every block that the compiler holds.
pub open spec fn block_fits(b: SpecBlock) -> bool
    decreases b,
{
    match b {
        SpecBlock::Simple(_) => true,
        SpecBlock::Loop(body) => forall|i: int|
            0 <= i < body.len() ==> block_fits(#[trigger] body[i]),
        SpecBlock::Reset { offset } => i32::MIN <= offset <= i32::MAX,
        SpecBlock::Multiply { ops } => pairs_fit(ops),
    }
}

/// Every block of the program fits.
pub open spec fn program_fits(p: Seq<SpecBlock>) -> bool {
    block_fits(SpecBlock::Loop(p))
}

/// A program fits exactly when each of its blocks does.
pub proof fn lemma_program_fits(p: Seq<SpecBlock>)
    ensures
        program_fits(p) <==> forall|i: int| 0 <= i < p.len() ==> block_fits(#[trigger] p[i]),
        p.len() > 0 && program_fits(p) ==> program_fits(p.drop_last()) && block_fits(p.last()),
{
    let b = SpecBlock::Loop(p);
    assert(b->Loop_0 == p);
    if p.len() > 0 && program_fits(p) {
        let head = p.drop_last();
        let c = SpecBlock::Loop(head);
        assert(c->Loop_0 == head);
        assert forall|i: int| 0 <= i < head.len() implies block_fits(#[trigger] head[i]) by {
            assert(head[i] == p[i]);
        }
        assert(block_fits(p[p.len() - 1]));
    }
}

/// Every block that the compiler holds fits.
pub proof fn lemma_block_view_fits(b: Block)
    ensures
        block_fits(b.deep_view()),
    decreases b,
{
    match b {
        Block::Loop(body) => {
            lemma_loop_view(body);
            assert forall|i: int| 0 <= i < body.deep_view().len() implies block_fits(
                #[trigger] body.deep_view()[i],
            ) by {
                lemma_block_view_fits(body@[i]);
            }
        },
        Block::Multiply { ops } => {
            assert(pairs_fit(pairs_view(ops@)));
        },
        _ => {},
    }
}

/// Every program that the compiler holds fits.
pub proof fn lemma_program_view_fits(p: Program)
    ensures
        program_fits(p.deep_view()),
{
    lemma_program_fits(p.deep_view());
    assert forall|i: int| 0 <= i < p.deep_view().len() implies block_fits(
        #[trigger] p.deep_view()[i],
    ) by {
        lemma_block_view_fits(p@[i]);
    }
}

/// The optimizer makes only blocks that fit.
pub proof fn lemma_opt_block_fits(b: SpecBlock)
    requires
        block_fits(b),
    ensures
        block_fits(opt_block(b)),
    decreases b,
{
    lemma_opt_block_shape(b);
    match b {
        SpecBlock::Loop(body) => {
            let inner = SpecBlock::Loop(opt(body));
            lemma_first_rewrite(inner);
            lemma_program_fits(body);
            lemma_program_fits(opt(body));
            lemma_opt_by_block(body);
            assert forall|i: int| 0 <= i < opt(body).len() implies block_fits(
                #[trigger] opt(body)[i],
            ) by {
                assert(block_fits(body[i]));
                lemma_opt_block_fits(body[i]);
            }
            if reset_rewrite(inner) is Some {
            } else if multiply_rewrite(inner) is Some {
                let ops = opt(body)[0]->Simple_0;
                lemma_factors(ops, reach(ops));
            }
        },
        _ => {},
    }
}

/// The optimizer makes only programs that fit.
pub proof fn lemma_opt_fits(p: Seq<SpecBlock>)
    requires
        program_fits(p),
    ensures
        program_fits(opt(p)),
{
    lemma_program_fits(p);
    lemma_program_fits(opt(p));
    lemma_opt_by_block(p);
    assert forall|i: int| 0 <= i < opt(p).len() implies block_fits(#[trigger] opt(p)[i]) by {
        assert(block_fits(p[i]));
        lemma_opt_block_fits(p[i]);
    }
}

/// What the test of the current cell and its branch do: one branch is
/// taken, to the body if the current cell is not zero and past the loop if
/// it is.
pub proof fn lemma_test_runs(
    big: Seq<BlockView>,
    block: int,
    k: int,
    m: Machine,
    vals: Seq<int>,
    body: int,
    after: int,
    rest: nat,
)
    requires
        0 <= k,
        vals.len() == k,
        k + 4 <= usize::MAX,
        0 <= body <= usize::MAX,
        0 <= after <= usize::MAX,
        big[block].insts.len() == k + 4,
        big[block].insts.subrange(k, k + 4) == test_code(k),
        big[block].term == Some(test_branch(k, body, after)),
    ensures
        exec_from(big, block, k, m, vals, rest + 1) == exec_from(
            big,
            if m.cell() != 0 {
                body
            } else {
                after
            },
            0,
            m,
            Seq::empty(),
            rest,
        ),
{
    let code = test_code(k);
    lemma_exec_through(big, block, k, m, vals, code, rest + 1);
    let e = Seq::<Inst>::empty();
    let c1 = e.push(code[0]);
    let c2 = c1.push(code[1]);
    let c3 = c2.push(code[2]);
    assert(code =~= c3.push(code[3]));
    lemma_exec_list_push(m, vals, e, code[0]);
    lemma_exec_list_push(m, vals, c1, code[1]);
    lemma_exec_list_push(m, vals, c2, code[2]);
    lemma_exec_list_push(m, vals, c3, code[3]);
    let after_test = exec_list(m, vals, code);
    assert(after_test.0 == m);
    assert(after_test.1[k + 3] == if m.cell() != 0 {
        1int
    } else {
        0int
    });
}

/// The code of a block runs as the block does: from the place where the
/// code starts, the function runs as it does from the place where the code
/// ends, in the machine that the block leaves, at the cost in branches
/// that the lemma hands out together with the values at that place.
pub proof fn lemma_block_runs(
    f: FunctionView,
    b: SpecBlock,
    big: Seq<BlockView>,
    m: Machine,
    vals: Seq<int>,
    fuel: nat,
) -> (r: (nat, Seq<int>))
    requires
        f.writable(),
        block_fits(b),
        m.valid(),
        vals.len() == f.here(),
        extends(lowered_block(f, b).blocks, big),
        fits(big),
        run_block(b, m, fuel) is Some,
    ensures
        r.1.len() == lowered_block(f, b).here(),
        forall|rest: nat|
            exec_from(big, f.current, f.here(), m, vals, rest + r.0) == #[trigger] exec_from(
                big,
                lowered_block(f, b).current,
                lowered_block(f, b).here(),
                run_block(b, m, fuel)->Some_0,
                r.1,
                rest,
            ),
    decreases fuel, b, 1nat,
{
    let g = lowered_block(f, b);
    let k = f.here();
    let cur = f.current;
    match b {
        SpecBlock::Loop(body) => {
            let at_body = f.blocks.len() as int;
            let after = at_body + 1;
            let head = loop_started(f);
            let tail = lowered(head, body);
            lemma_loop_started(f);
            lemma_loop_shape(f, body);
            lemma_extends_trans(head.blocks, tail.blocks, g.blocks);
            lemma_extends_trans(head.blocks, g.blocks, big);
            assert(big[cur] == head.blocks[cur]);
            assert(big[cur].insts.subrange(k, k + 4) =~= test_code(k));
            assert(big[after].insts.len() >= 0);
            if m.cell() == 0 {
                assert forall|rest: nat|
                    exec_from(big, cur, k, m, vals, rest + 1) == #[trigger] exec_from(
                        big,
                        g.current,
                        g.here(),
                        m,
                        Seq::empty(),
                        rest,
                    ) by {
                    lemma_test_runs(big, cur, k, m, vals, at_body, after, rest);
                }
                (1, Seq::empty())
            } else {
                let cost = lemma_loop_runs(f, body, big, m, fuel);
                let end = run_block(b, m, fuel)->Some_0;
                assert forall|rest: nat|
                    exec_from(big, cur, k, m, vals, rest + (cost + 1)) == #[trigger] exec_from(
                        big,
                        g.current,
                        g.here(),
                        end,
                        Seq::empty(),
                        rest,
                    ) by {
                    lemma_test_runs(big, cur, k, m, vals, at_body, after, rest + cost);
                    assert(exec_from(big, at_body, 0, m, Seq::empty(), rest + cost) == exec_from(
                        big,
                        after,
                        0,
                        end,
                        Seq::empty(),
                        rest,
                    ));
                }
                ((cost + 1) as nat, Seq::empty())
            }
        },
        _ => {
            let code = plain_code(k, b);
            lemma_plain_code(f, b);
            lemma_emit_all(f, code);
            let made = g.blocks[cur].insts;
            assert(made == f.blocks[cur].insts + code);
            assert(big[cur].insts.take(made.len() as int) == made);
            assert forall|j: int| 0 <= j < code.len() implies big[cur].insts.subrange(
                k,
                k + code.len(),
            )[j] == code[j] by {
                assert(big[cur].insts.take(made.len() as int)[k + j] == made[k + j]);
            }
            assert(big[cur].insts.subrange(k, k + code.len()) =~= code);
            lemma_exec_list_len(m, vals, code);
            match b {
                SpecBlock::Simple(ops) => lemma_ops_runs(m, vals, ops),
                SpecBlock::Reset { offset } => lemma_reset_runs(m, vals, offset as i32),
                SpecBlock::Multiply { ops } => {
                    lemma_multiply_code(f, ops);
                    lemma_multiply_runs(m, vals, ops);
                },
                SpecBlock::Loop(_) => {},
            }
            let after_code = exec_list(m, vals, code);
            assert forall|rest: nat|
                exec_from(big, cur, k, m, vals, rest + 0) == #[trigger] exec_from(
                    big,
                    g.current,
                    g.here(),
                    run_block(b, m, fuel)->Some_0,
                    after_code.1,
                    rest,
                ) by {
                lemma_exec_through(big, cur, k, m, vals, code, rest);
            }
            (0, after_code.1)
        },
    }
}

/// The body of a loop that is entered runs, round by round, as the loop
/// does: from the start of the body, the function runs as it does from the
/// start of what follows the loop, in the machine that the loop leaves, at
/// the cost in branches that the lemma hands out.
pub proof fn lemma_loop_runs(
    f: FunctionView,
    body: Seq<SpecBlock>,
    big: Seq<BlockView>,
    m: Machine,
    fuel: nat,
) -> (cost: nat)
    requires
        f.writable(),
        program_fits(body),
        m.valid(),
        m.cell() != 0,
        extends(lowered_block(f, SpecBlock::Loop(body)).blocks, big),
        fits(big),
        run_block(SpecBlock::Loop(body), m, fuel) is Some,
    ensures
        forall|rest: nat|
            exec_from(big, f.blocks.len() as int, 0, m, Seq::empty(), rest + cost)
                == #[trigger] exec_from(
                big,
                f.blocks.len() as int + 1,
                0,
                run_block(SpecBlock::Loop(body), m, fuel)->Some_0,
                Seq::empty(),
                rest,
            ),
    decreases fuel, SpecBlock::Loop(body), 0nat,
{
    let b = SpecBlock::Loop(body);
    let g = lowered_block(f, b);
    let at_body = f.blocks.len() as int;
    let after = at_body + 1;
    let head = loop_started(f);
    let tail = lowered(head, body);
    lemma_loop_started(f);
    lemma_loop_shape(f, body);
    lemma_extends_trans(tail.blocks, g.blocks, big);
    let less = (fuel - 1) as nat;
    let next = run(body, m, less)->Some_0;
    lemma_run_valid(body, m, less);
    let end = run_block(b, m, fuel)->Some_0;
    let through = lemma_program_runs(head, body, big, m, Seq::empty(), less);
    let k = tail.here();
    let cur = tail.current;
    assert(big[cur] == g.blocks[cur]);
    assert(big[cur].insts.subrange(k, k + 4) =~= test_code(k));
    assert(fuel > 0);
    assert(end == run_block(b, next, less)->Some_0);
    assert(big[cur].insts.len() == k + 4);
    assert(through.1.len() == k);
    assert(0 <= cur < big.len());
    assert(after < big.len());
    if next.cell() == 0 {
        assert(end == next);
        assert forall|rest: nat|
            exec_from(big, at_body, 0, m, Seq::empty(), rest + (through.0 + 1))
                == #[trigger] exec_from(big, after, 0, end, Seq::empty(), rest) by {
            lemma_test_runs(big, cur, k, next, through.1, at_body, after, rest);
            assert(exec_from(big, at_body, 0, m, Seq::empty(), (rest + 1) + through.0)
                == exec_from(big, cur, k, next, through.1, (rest + 1) as nat));
        }
        (through.0 + 1) as nat
    } else {
        let again = lemma_loop_runs(f, body, big, next, less);
        assert forall|rest: nat|
            exec_from(big, at_body, 0, m, Seq::empty(), rest + (through.0 + 1 + again))
                == #[trigger] exec_from(big, after, 0, end, Seq::empty(), rest) by {
            lemma_test_runs(big, cur, k, next, through.1, at_body, after, rest + again);
            assert(exec_from(big, at_body, 0, m, Seq::empty(), (rest + again + 1) + through.0)
                == exec_from(big, cur, k, next, through.1, (rest + again + 1) as nat));
            assert(exec_from(big, at_body, 0, next, Seq::empty(), rest + again) == exec_from(
                big,
                after,
                0,
                end,
                Seq::empty(),
                rest,
            ));
        }
        (through.0 + 1 + again) as nat
    }
}

/// The code of a program runs as the program does: from the place where
/// the code starts, the function runs as it does from the place where the
/// code ends, in the machine that the program leaves, at the cost in
/// branches that the lemma hands out together with the values at that
/// place.
pub proof fn lemma_program_runs(
    f: FunctionView,
    p: Seq<SpecBlock>,
    big: Seq<BlockView>,
    m: Machine,
    vals: Seq<int>,
    fuel: nat,
) -> (r: (nat, Seq<int>))
    requires
        f.writable(),
        program_fits(p),
        m.valid(),
        vals.len() == f.here(),
        extends(lowered(f, p).blocks, big),
        fits(big),
        run(p, m, fuel) is Some,
    ensures
        r.1.len() == lowered(f, p).here(),
        forall|rest: nat|
            exec_from(big, f.current, f.here(), m, vals, rest + r.0) == #[trigger] exec_from(
                big,
                lowered(f, p).current,
                lowered(f, p).here(),
                run(p, m, fuel)->Some_0,
                r.1,
                rest,
            ),
    decreases fuel, p, 1nat,
{
    if p.len() == 0 {
        (0, vals)
    } else {
        let head = p.drop_last();
        let mid = lowered(f, head);
        let g = lowered_block(mid, p.last());
        lemma_program_fits(p);
        lemma_program_steps(f, head);
        lemma_block_steps(mid, p.last());
        lemma_extends_trans(mid.blocks, g.blocks, big);
        let first = lemma_program_runs(f, head, big, m, vals, fuel);
        let next = run(head, m, fuel)->Some_0;
        lemma_run_valid(head, m, fuel);
        let second = lemma_block_runs(mid, p.last(), big, next, first.1, fuel);
        let end = run(p, m, fuel)->Some_0;
        assert forall|rest: nat|
            exec_from(big, f.current, f.here(), m, vals, rest + (first.0 + second.0))
                == #[trigger] exec_from(big, g.current, g.here(), end, second.1, rest) by {
            assert(exec_from(big, f.current, f.here(), m, vals, (rest + second.0) + first.0)
                == exec_from(big, mid.current, mid.here(), next, first.1, (rest + second.0) as nat));
            assert(exec_from(big, mid.current, mid.here(), next, first.1, rest + second.0)
                == exec_from(big, g.current, g.here(), end, second.1, rest));
        }
        ((first.0 + second.0) as nat, second.1)
    }
}

/// Compiled code means what the program means: whenever the program ends
/// from a valid machine, the code compiled from it returns in the same
/// machine, with the same tape, position, input left and output written.
pub proof fn lemma_compiled_code_runs(p: Seq<SpecBlock>, m: Machine, end: Machine)
    requires
        program_fits(p),
        fits(compiled(p).blocks),
        m.valid(),
        ends_in(p, m, end),
    ensures
        code_ends_in(compiled(p).blocks, m, end),
{
    let fuel = choose|fuel: nat| run(p, m, fuel) == Some(end);
    let f = FunctionView::entry();
    let g = lowered(f, p);
    let big = compiled(p).blocks;
    lemma_program_steps(f, p);
    assert(extends(g.blocks, big)) by {
        assert forall|i: int| 0 <= i < g.blocks.len() implies {
            &&& g.blocks[i].insts.len() <= (#[trigger] big[i]).insts.len()
            &&& big[i].insts.take(g.blocks[i].insts.len() as int) == g.blocks[i].insts
            &&& g.blocks[i].term is Some ==> big[i] == g.blocks[i]
        } by {
            assert(big[i].insts.take(g.blocks[i].insts.len() as int) =~= g.blocks[i].insts);
        }
    }
    let r = lemma_program_runs(f, p, big, m, Seq::empty(), fuel);
    assert(exec_from(big, 0, 0, m, Seq::empty(), 0 + r.0) == exec_from(
        big,
        g.current,
        g.here(),
        end,
        r.1,
        0,
    ));
    assert(big[g.current].term == Some(Terminator::Ret(0)));
    assert(big[g.current].insts.len() == g.here());
    assert(exec_from(big, 0, 0, m, Seq::empty(), r.0) == Some(end));
}

/// The test of the current cell and its branch cannot run without fuel.
pub proof fn lemma_test_stuck(
    big: Seq<BlockView>,
    block: int,
    k: int,
    m: Machine,
    vals: Seq<int>,
    body: int,
    after: int,
)
    requires
        0 <= k,
        big[block].insts.len() == k + 4,
        big[block].insts.subrange(k, k + 4) == test_code(k),
        big[block].term == Some(test_branch(k, body, after)),
    ensures
        exec_from(big, block, k, m, vals, 0) is None,
{
    lemma_exec_through(big, block, k, m, vals, test_code(k), 0);
}

/// What the code of a block does, the block does: where the function
/// returns when run from the place where the code starts, the block ends,
/// with the fuel that the lemma hands out, and the function returns in the
/// same machine when run from the place where the code ends, in the machine
/// that the block leaves, with the values and the fuel left that the lemma
/// hands out.
pub proof fn lemma_block_back(
    f: FunctionView,
    b: SpecBlock,
    big: Seq<BlockView>,
    m: Machine,
    vals: Seq<int>,
    fuel: nat,
) -> (r: (nat, nat, Seq<int>))
    requires
        f.writable(),
        block_fits(b),
        m.valid(),
        vals.len() == f.here(),
        extends(lowered_block(f, b).blocks, big),
        fits(big),
        exec_from(big, f.current, f.here(), m, vals, fuel) is Some,
    ensures
        run_block(b, m, r.0) is Some,
        r.1 <= fuel,
        r.2.len() == lowered_block(f, b).here(),
        exec_from(
            big,
            lowered_block(f, b).current,
            lowered_block(f, b).here(),
            run_block(b, m, r.0)->Some_0,
            r.2,
            r.1,
        ) == exec_from(big, f.current, f.here(), m, vals, fuel),
    decreases fuel, b, 1nat,
{
    let g = lowered_block(f, b);
    let k = f.here();
    let cur = f.current;
    match b {
        SpecBlock::Loop(body) => {
            let at_body = f.blocks.len() as int;
            let after = at_body + 1;
            let head = loop_started(f);
            let tail = lowered(head, body);
            lemma_loop_started(f);
            lemma_loop_shape(f, body);
            lemma_extends_trans(head.blocks, tail.blocks, g.blocks);
            lemma_extends_trans(head.blocks, g.blocks, big);
            assert(big[cur] == head.blocks[cur]);
            assert(big[cur].insts.subrange(k, k + 4) =~= test_code(k));
            assert(after < big.len());
            if fuel == 0 {
                lemma_test_stuck(big, cur, k, m, vals, at_body, after);
                (0, 0, Seq::empty())
            } else {
                let less = (fuel - 1) as nat;
                lemma_test_runs(big, cur, k, m, vals, at_body, after, less);
                if m.cell() == 0 {
                    (0, less, Seq::empty())
                } else {
                    let through = lemma_loop_back(f, body, big, m, less);
                    (through.0, through.1, Seq::empty())
                }
            }
        },
        _ => {
            let code = plain_code(k, b);
            lemma_plain_code(f, b);
            lemma_emit_all(f, code);
            let made = g.blocks[cur].insts;
            assert(made == f.blocks[cur].insts + code);
            assert(big[cur].insts.take(made.len() as int) == made);
            assert forall|j: int| 0 <= j < code.len() implies big[cur].insts.subrange(
                k,
                k + code.len(),
            )[j] == code[j] by {
                assert(big[cur].insts.take(made.len() as int)[k + j] == made[k + j]);
            }
            assert(big[cur].insts.subrange(k, k + code.len()) =~= code);
            lemma_exec_list_len(m, vals, code);
            match b {
                SpecBlock::Simple(ops) => lemma_ops_runs(m, vals, ops),
                SpecBlock::Reset { offset } => lemma_reset_runs(m, vals, offset as i32),
                SpecBlock::Multiply { ops } => {
                    lemma_multiply_code(f, ops);
                    lemma_multiply_runs(m, vals, ops);
                },
                SpecBlock::Loop(_) => {},
            }
            lemma_exec_through(big, cur, k, m, vals, code, fuel);
            (0, fuel, exec_list(m, vals, code).1)
        },
    }
}

/// What the code of the body of a loop that is entered does, round by
/// round, the loop does: where the function returns when run from the start
/// of the body, the loop ends, with the fuel that the lemma hands out, and
/// the function returns in the same machine when run from the start of what
/// follows the loop, in the machine that the loop leaves, with the fuel
/// left that the lemma hands out.
pub proof fn lemma_loop_back(
    f: FunctionView,
    body: Seq<SpecBlock>,
    big: Seq<BlockView>,
    m: Machine,
    fuel: nat,
) -> (r: (nat, nat))
    requires
        f.writable(),
        program_fits(body),
        m.valid(),
        m.cell() != 0,
        extends(lowered_block(f, SpecBlock::Loop(body)).blocks, big),
        fits(big),
        exec_from(big, f.blocks.len() as int, 0, m, Seq::empty(), fuel) is Some,
    ensures
        run_block(SpecBlock::Loop(body), m, r.0) is Some,
        r.1 <= fuel,
        exec_from(
            big,
            f.blocks.len() as int + 1,
            0,
            run_block(SpecBlock::Loop(body), m, r.0)->Some_0,
            Seq::empty(),
            r.1,
        ) == exec_from(big, f.blocks.len() as int, 0, m, Seq::empty(), fuel),
    decreases fuel, SpecBlock::Loop(body), 0nat,
{
    let b = SpecBlock::Loop(body);
    let g = lowered_block(f, b);
    let at_body = f.blocks.len() as int;
    let after = at_body + 1;
    let head = loop_started(f);
    let tail = lowered(head, body);
    lemma_loop_started(f);
    lemma_loop_shape(f, body);
    lemma_extends_trans(tail.blocks, g.blocks, big);
    let through = lemma_program_back(head, body, big, m, Seq::empty(), fuel);
    let next = run(body, m, through.0)->Some_0;
    lemma_run_valid(body, m, through.0);
    let k = tail.here();
    let cur = tail.current;
    assert(big[cur] == g.blocks[cur]);
    assert(big[cur].insts.subrange(k, k + 4) =~= test_code(k));
    assert(big[cur].insts.len() == k + 4);
    assert(after < big.len());
    if through.1 == 0 {
        lemma_test_stuck(big, cur, k, next, through.2, at_body, after);
        (0, 0)
    } else {
        let less = (through.1 - 1) as nat;
        lemma_test_runs(big, cur, k, next, through.2, at_body, after, less);
        if next.cell() == 0 {
            assert(run_block(b, next, through.0) == Some(next));
            assert(run_block(b, m, through.0 + 1) == Some(next));
            ((through.0 + 1) as nat, less)
        } else {
            let again = lemma_loop_back(f, body, big, next, less);
            let most = if through.0 >= again.0 {
                through.0
            } else {
                again.0
            };
            lemma_more_fuel(body, m, through.0, most);
            lemma_more_fuel_block(b, next, again.0, most);
            assert(run_block(b, m, most + 1) == run_block(b, next, most));
            ((most + 1) as nat, again.1)
        }
    }
}

/// What the code of a program does, the program does: where the function
/// returns when run from the place where the code starts, the program
/// ends, with the fuel that the lemma hands out, and the function returns
/// in the same machine when run from the place where the code ends, in the
/// machine that the program leaves, with the values and the fuel left that
/// the lemma hands out.
pub proof fn lemma_program_back(
    f: FunctionView,
    p: Seq<SpecBlock>,
    big: Seq<BlockView>,
    m: Machine,
    vals: Seq<int>,
    fuel: nat,
) -> (r: (nat, nat, Seq<int>))
    requires
        f.writable(),
        program_fits(p),
        m.valid(),
        vals.len() == f.here(),
        extends(lowered(f, p).blocks, big),
        fits(big),
        exec_from(big, f.current, f.here(), m, vals, fuel) is Some,
    ensures
        run(p, m, r.0) is Some,
        r.1 <= fuel,
        r.2.len() == lowered(f, p).here(),
        exec_from(
            big,
            lowered(f, p).current,
            lowered(f, p).here(),
            run(p, m, r.0)->Some_0,
            r.2,
            r.1,
        ) == exec_from(big, f.current, f.here(), m, vals, fuel),
    decreases fuel, p, 1nat,
{
    if p.len() == 0 {
        (0, fuel, vals)
    } else {
        let head = p.drop_last();
        let mid = lowered(f, head);
        let g = lowered_block(mid, p.last());
        lemma_program_fits(p);
        lemma_program_steps(f, head);
        lemma_block_steps(mid, p.last());
        lemma_extends_trans(mid.blocks, g.blocks, big);
        let first = lemma_program_back(f, head, big, m, vals, fuel);
        let next = run(head, m, first.0)->Some_0;
        lemma_run_valid(head, m, first.0);
        let second = lemma_block_back(mid, p.last(), big, next, first.2, first.1);
        let most = if first.0 >= second.0 {
            first.0
        } else {
            second.0
        };
        lemma_more_fuel(head, m, first.0, most);
        lemma_more_fuel_block(p.last(), next, second.0, most);
        (most, second.1, second.2)
    }
}

/// Compiled code does only what the program does: whenever the code
/// compiled from a program returns, from a valid machine, the program ends
/// in the same machine. Code compiled from a program that never ends never
/// returns.
pub proof fn lemma_compiled_code_back(p: Seq<SpecBlock>, m: Machine, end: Machine)
    requires
        program_fits(p),
        fits(compiled(p).blocks),
        m.valid(),
        code_ends_in(compiled(p).blocks, m, end),
    ensures
        ends_in(p, m, end),
{
    let big = compiled(p).blocks;
    let fuel = choose|fuel: nat| exec_from(big, 0, 0, m, Seq::empty(), fuel) == Some(end);
    let f = FunctionView::entry();
    let g = lowered(f, p);
    lemma_program_steps(f, p);
    assert(extends(g.blocks, big)) by {
        assert forall|i: int| 0 <= i < g.blocks.len() implies {
            &&& g.blocks[i].insts.len() <= (#[trigger] big[i]).insts.len()
            &&& big[i].insts.take(g.blocks[i].insts.len() as int) == g.blocks[i].insts
            &&& g.blocks[i].term is Some ==> big[i] == g.blocks[i]
        } by {
            assert(big[i].insts.take(g.blocks[i].insts.len() as int) =~= g.blocks[i].insts);
        }
    }
    let r = lemma_program_back(f, p, big, m, Seq::empty(), fuel);
    assert(big[g.current].term == Some(Terminator::Ret(0)));
    assert(big[g.current].insts.len() == g.here());
    assert(run(p, m, r.0) == Some(end));
}

/// Compiled code means what the program means: from a valid machine, the
/// code compiled from a program returns in a machine exactly when the
/// program ends in that machine.
pub proof fn lemma_compiled_meaning(p: Seq<SpecBlock>, m: Machine, end: Machine)
    requires
        program_fits(p),
        fits(compiled(p).blocks),
        m.valid(),
    ensures
        code_ends_in(compiled(p).blocks, m, end) <==> ends_in(p, m, end),
{
    if ends_in(p, m, end) {
        lemma_compiled_code_runs(p, m, end);
    }
    if code_ends_in(compiled(p).blocks, m, end) {
        lemma_compiled_code_back(p, m, end);
    }
}

/// The whole compiler preserves meaning: from a valid machine, the code
/// compiled from the optimized form of a program that fits returns in a
/// machine exactly when the program ends in that machine.
pub proof fn lemma_optimized_code_meaning(p: Seq<SpecBlock>, m: Machine, end: Machine)
    requires
        program_fits(p),
        fits(compiled(opt(p)).blocks),
        m.valid(),
    ensures
        code_ends_in(compiled(opt(p)).blocks, m, end) <==> ends_in(p, m, end),
{
    lemma_optimize_preserves_meaning(p, m, end);
    lemma_opt_fits(p);
    lemma_compiled_meaning(opt(p), m, end);
}

/// A block in the form that the parser gives fits.
pub proof fn lemma_parsed_block_fits(b: SpecBlock)
    requires
        b.parsed_form(),
    ensures
        block_fits(b),
    decreases b,
{
    match b {
        SpecBlock::Loop(body) => {
            lemma_parsed_form_blocks(body);
            assert forall|i: int| 0 <= i < body.len() implies block_fits(#[trigger] body[i]) by {
                assert(body[i].parsed_form());
                lemma_parsed_block_fits(body[i]);
            }
        },
        _ => {},
    }
}

/// From source text to code: for any source text that parses and any
/// input, the code compiled from the optimized program returns exactly
/// when the parsed program ends, and with the same output and the same
/// final tape.
pub proof fn lemma_source_to_code(text: Seq<char>, input: Seq<int>, end: Machine)
    requires
        parsed(lex(text)) is Ok,
        fits(compiled(opt(parsed(lex(text))->Ok_0)).blocks),
    ensures
        code_ends_in(compiled(opt(parsed(lex(text))->Ok_0)).blocks, Machine::start(input), end)
            <==> ends_in(parsed(lex(text))->Ok_0, Machine::start(input), end),
{
    let p = parsed(lex(text))->Ok_0;
    lemma_parse_ok_iff_balanced(lex(text));
    lemma_parse_round_trip(lex(text));
    lemma_parsed_block_fits(SpecBlock::Loop(p));
    lemma_start_valid(input);
    lemma_optimized_code_meaning(p, Machine::start(input), end);
}

} // verus!
