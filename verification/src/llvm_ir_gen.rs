//! Code generation: the optimized program tree to the SSA form.
//!
//! The body of the program goes into the entry block of one function. Every
//! loop gets two fresh blocks, one for its body and one for what follows; the
//! test of the current cell stands before the loop and at the end of its
//! body. The function ends with `return 0`.

pub mod loops;
pub mod modify_block;
pub mod move_block;
pub mod read_char;
pub mod reset;
pub mod write_char;
pub mod emit;

use vstd::prelude::*;
use crate::ir::{
    inst_ok, label_at, lemma_append, lemma_emit, lemma_grows_leads, lemma_labels_differ,
    lemma_leads_refl, lemma_leads_trans, lemma_terminate, term_ok, BlockView, FunctionView, Inst,
    IrBlock, Label, Operand, Terminator,
};
use crate::lexer::Op;
use crate::llvm_ir_gen::loops::{loop_ended, loop_started, Loop};
use crate::llvm_ir_gen::modify_block::{lowered_modify, ModifyBlock};
use crate::llvm_ir_gen::move_block::{lowered_move, MoveBlock};
use crate::llvm_ir_gen::read_char::{lowered_read, ReadChar};
use crate::llvm_ir_gen::reset::{lowered_reset, Reset};
use crate::llvm_ir_gen::write_char::{lowered_write, WriteChar};
use crate::ir_semantics::code_ends_in;
use crate::lowering::{fits, lemma_compiled_meaning, lemma_program_view_fits};
use crate::parser::{lemma_loop_view, pairs_view, Block, Program, SpecBlock};
use crate::semantics::{ends_in, Machine};

verus! {

/// `f` with `k` reads at the position, one after the other.
pub open spec fn lowered_reads(f: FunctionView, k: nat) -> FunctionView
    decreases k,
{
    if k == 0 {
        f
    } else {
        lowered_read(lowered_reads(f, (k - 1) as nat))
    }
}

/// `f` with `k` writes at the position, one after the other.
pub open spec fn lowered_writes(f: FunctionView, k: nat) -> FunctionView
    decreases k,
{
    if k == 0 {
        f
    } else {
        lowered_write(lowered_writes(f, (k - 1) as nat))
    }
}

/// `f` with one operation lowered at the position. A bracket inside a
/// straight-line block gives no instruction.
pub open spec fn lowered_op(f: FunctionView, op: Op) -> FunctionView {
    match op {
        Op::Move(n) => lowered_move(f, n),
        Op::Modify(n) => lowered_modify(f, n),
        Op::Inp(k) => lowered_reads(f, k as nat),
        Op::Outp(k) => lowered_writes(f, k as nat),
        Op::LBr => f,
        Op::RBr => f,
    }
}

/// `f` with the operations lowered at the position, in order.
pub open spec fn lowered_ops(f: FunctionView, ops: Seq<Op>) -> FunctionView
    decreases ops.len(),
{
    if ops.len() == 0 {
        f
    } else {
        lowered_op(lowered_ops(f, ops.drop_last()), ops.last())
    }
}

/// `f` with the head of a multiply block at the position: the base cell's
/// address is the result of the second instruction and its value that of
/// the third.
pub open spec fn multiply_head(f: FunctionView) -> FunctionView {
    let a = f.here();
    f.emit(Inst::LoadPos).emit(Inst::CellPtr(Operand::Inst(a as usize))).emit(
        Inst::Load((a + 1) as usize),
    )
}

/// `f` with one multiply-accumulate at the position: the cell at `offset`
/// from the tape position, loaded at place `a`, grows by the base value, at
/// place `a + 2`, times `factor`.
pub open spec fn multiply_step(f: FunctionView, a: int, offset: i32, factor: i32) -> FunctionView {
    let b = f.here();
    f.emit(Inst::Add(Operand::Inst(a as usize), Operand::Const(offset))).emit(
        Inst::CellPtr(Operand::Inst(b as usize)),
    ).emit(Inst::Load((b + 1) as usize)).emit(
        Inst::Mul(Operand::Inst((a + 2) as usize), Operand::Const(factor)),
    ).emit(Inst::Add(Operand::Inst((b + 2) as usize), Operand::Inst((b + 3) as usize))).emit(
        Inst::Store((b + 1) as usize, Operand::Inst((b + 4) as usize)),
    )
}

/// `f` with one multiply-accumulate for each pair, in order.
pub open spec fn multiply_steps(f: FunctionView, a: int, ops: Seq<(int, int)>) -> FunctionView
    decreases ops.len(),
{
    if ops.len() == 0 {
        f
    } else {
        multiply_step(
            multiply_steps(f, a, ops.drop_last()),
            a,
            ops.last().0 as i32,
            ops.last().1 as i32,
        )
    }
}

/// `f` with a multiply block lowered at the position: the head, the steps,
/// and zero stored in the base cell.
pub open spec fn lowered_multiply(f: FunctionView, ops: Seq<(int, int)>) -> FunctionView {
    let a = f.here();
    multiply_steps(multiply_head(f), a, ops).emit(
        Inst::Store((a + 1) as usize, Operand::Const(0)),
    )
}

/// `f` with one block of the program lowered at the position.
pub open spec fn lowered_block(f: FunctionView, block: SpecBlock) -> FunctionView
    decreases block,
{
    match block {
        SpecBlock::Simple(ops) => lowered_ops(f, ops),
        SpecBlock::Loop(body) => loop_ended(
            lowered(loop_started(f), body),
            f.blocks.len() as int,
            f.blocks.len() as int + 1,
        ),
        SpecBlock::Reset { offset } => lowered_reset(f, offset as i32),
        SpecBlock::Multiply { ops } => lowered_multiply(f, ops),
    }
}

/// `f` with the blocks of a program lowered at the position, in order.
pub open spec fn lowered(f: FunctionView, p: Seq<SpecBlock>) -> FunctionView
    decreases p,
{
    if p.len() == 0 {
        f
    } else {
        lowered_block(lowered(f, p.drop_last()), p.last())
    }
}

/// The function that a program compiles to: its body lowered into the entry
/// block, and `return 0` at the end.
pub open spec fn compiled(p: Seq<SpecBlock>) -> FunctionView {
    lowered(FunctionView::entry(), p).terminate(Terminator::Ret(0))
}

/// The function under construction and the position at which instructions
/// are added, together with the counter that names the blocks of loops.
pub struct LLVMBuilder {
    blocks: Vec<IrBlock>,
    current: usize,
    loop_id: usize,
}

impl View for LLVMBuilder {
    type V = FunctionView;

    closed spec fn view(&self) -> FunctionView {
        FunctionView { blocks: self.blocks.deep_view(), current: self.current as int }
    }
}

impl LLVMBuilder {
    /// The function is sound.
    pub closed spec fn sound(&self) -> bool {
        self@.sound()
    }

    /// Besides the entry block there are the two blocks of each loop, and
    /// the counter stands at the number of loops opened so far.
    pub closed spec fn counted(&self) -> bool {
        &&& self.blocks@.len() % 2 == 1
        &&& self.loop_id == (self.blocks@.len() - 1) / 2
    }

    /// The builder between two constructs of the program.
    pub open spec fn wf(&self) -> bool {
        &&& self.sound()
        &&& self@.writable()
        &&& self.counted()
    }

    /// The number of loops opened so far.
    pub closed spec fn loops(&self) -> int {
        self.loop_id as int
    }

    /// What `sound` and `wf` say of the function.
    pub proof fn lemma_wf(&self)
        ensures
            self.sound() == self@.sound(),
            self.counted() <==> self@.blocks.len() == 2 * self.loops() + 1,
            self.wf() <==> self@.wf() && self.counted(),
    {
        assert(self.blocks.deep_view().len() == self.blocks@.len());
    }

    /// A builder positioned at the end of the empty entry block.
    pub fn new() -> (r: LLVMBuilder)
        ensures
            r.wf(),
            r@ == FunctionView::entry(),
            r.loops() == 0,
    {
        let mut blocks: Vec<IrBlock> = Vec::new();
        blocks.push(IrBlock { label: Label::Entry, insts: Vec::new(), term: None });
        let r = LLVMBuilder { blocks, current: 0, loop_id: 0 };
        assert(r@.blocks =~= FunctionView::entry().blocks);
        r
    }

    /// Appends `inst` to the block at the position and gives the place that
    /// names its result.
    pub(crate) fn emit(&mut self, inst: Inst) -> (at: usize)
        requires
            old(self).sound(),
            old(self)@.writable(),
            inst_ok(old(self)@.blocks[old(self)@.current].insts, inst),
        ensures
            final(self).sound(),
            final(self)@ == old(self)@.emit(inst),
            final(self).loops() == old(self).loops(),
            final(self).counted() == old(self).counted(),
            old(self)@.grows_here(final(self)@),
            at == old(self)@.here(),
    {
        let ghost before = self@;
        let at = self.blocks[self.current].insts.len();
        self.blocks[self.current].insts.push(inst);
        proof {
            let after = self@;
            let want = before.emit(inst);
            assert(after.blocks.len() == want.blocks.len());
            assert forall|i: int| 0 <= i < after.blocks.len() implies after.blocks[i]
                == want.blocks[i] by {
                assert(after.blocks[i] == self.blocks@[i].deep_view());
                assert(before.blocks[i] == old(self).blocks@[i].deep_view());
            }
            assert(after.blocks =~= want.blocks);
            lemma_emit(before, inst);
        }
        at
    }

    /// Closes the block at the position with `t`.
    pub(crate) fn terminate(&mut self, t: Terminator)
        requires
            old(self).sound(),
            old(self)@.writable(),
            term_ok(old(self)@.blocks[old(self)@.current].insts, t, old(self)@.blocks.len() as int),
        ensures
            final(self).sound(),
            final(self)@ == old(self)@.terminate(t),
            final(self).loops() == old(self).loops(),
            final(self).counted() == old(self).counted(),
            final(self)@.open() == old(self)@.open().remove(old(self)@.current),
    {
        let ghost before = self@;
        self.blocks[self.current].term = Some(t);
        proof {
            let after = self@;
            let want = before.terminate(t);
            assert forall|i: int| 0 <= i < after.blocks.len() implies after.blocks[i]
                == want.blocks[i] by {
                assert(after.blocks[i] == self.blocks@[i].deep_view());
                assert(before.blocks[i] == old(self).blocks@[i].deep_view());
            }
            assert(after.blocks =~= want.blocks);
            lemma_terminate(before, t);
        }
    }

    /// Adds an empty block with the label of its place at the end of the
    /// function and gives that place. The position stays where it is.
    fn append_basic_block(&mut self, label: Label) -> (at: usize)
        requires
            old(self).sound(),
            label == label_at(old(self)@.blocks.len() as int),
        ensures
            final(self).sound(),
            final(self)@ == old(self)@.append(label),
            final(self).loops() == old(self).loops(),
            at == old(self)@.blocks.len(),
    {
        let ghost before = self@;
        let at = self.blocks.len();
        self.blocks.push(IrBlock { label, insts: Vec::new(), term: None });
        proof {
            let after = self@;
            let want = before.append(label);
            assert forall|i: int| 0 <= i < after.blocks.len() implies after.blocks[i]
                == want.blocks[i] by {
                assert(after.blocks[i] == self.blocks@[i].deep_view());
                if i < before.blocks.len() {
                    assert(before.blocks[i] == old(self).blocks@[i].deep_view());
                }
            }
            assert(after.blocks =~= want.blocks);
            lemma_append(before, label);
        }
        at
    }

    /// Makes the two blocks of a new loop, its body and what follows it, and
    /// gives their places. The position stays where it is.
    pub(crate) fn open_loop_blocks(&mut self) -> (r: (usize, usize))
        requires
            old(self).sound(),
            old(self).counted(),
        ensures
            final(self).sound(),
            final(self).counted(),
            final(self).loops() == old(self).loops() + 1,
            r.0 == old(self)@.blocks.len(),
            r.1 == old(self)@.blocks.len() + 1,
            final(self)@ == old(self)@.append(label_at(r.0 as int)).append(label_at(r.1 as int)),
            final(self)@.open() == old(self)@.open().insert(r.0 as int).insert(r.1 as int),
            final(self)@.writable() == old(self)@.writable(),
            final(self)@.here() == old(self)@.here(),
    {
        let ghost before = self@;
        let made = self.blocks.len();
        assert(self.loop_id == (made - 1) / 2);
        let curr_loop_id = self.loop_id + 1;
        self.loop_id = curr_loop_id;
        proof {
            lemma_append(before, Label::Loop(curr_loop_id));
            lemma_append(before.append(Label::Loop(curr_loop_id)), Label::Cont(curr_loop_id));
        }
        let loop_block = self.append_basic_block(Label::Loop(curr_loop_id));
        let cont_block = self.append_basic_block(Label::Cont(curr_loop_id));
        (loop_block, cont_block)
    }

    /// Moves the position to the end of `block`.
    pub(crate) fn position_at_end(&mut self, block: usize)
        requires
            old(self).sound(),
            block < old(self)@.blocks.len(),
        ensures
            final(self).sound(),
            final(self)@ == old(self)@.position_at_end(block as int),
            final(self).loops() == old(self).loops(),
            final(self).counted() == old(self).counted(),
    {
        self.current = block;
    }

    /// Lowers one operation of a straight-line block.
    pub fn compile_instruction(&mut self, i: &Op)
        requires
            old(self).wf(),
        ensures
            final(self).wf(),
            final(self)@ == lowered_op(old(self)@, *i),
            old(self)@.grows_here(final(self)@),
            final(self).loops() == old(self).loops(),
    {
        let ghost start = self@;
        match i {
            Op::Move(x) => {
                MoveBlock::new().build(self, *x);
            },
            Op::Modify(x) => {
                ModifyBlock::new().build(self, *x);
            },
            Op::Inp(x) => {
                let reader = ReadChar::new();
                let mut done: u16 = 0;
                while done < *x
                    invariant
                        done <= *x,
                        self.wf(),
                        self@ == lowered_reads(start, done as nat),
                        start.grows_here(self@),
                        self.loops() == old(self).loops(),
                    decreases *x - done,
                {
                    reader.build(self);
                    done += 1;
                }
            },
            Op::Outp(x) => {
                let writer = WriteChar::new();
                let mut done: u16 = 0;
                while done < *x
                    invariant
                        done <= *x,
                        self.wf(),
                        self@ == lowered_writes(start, done as nat),
                        start.grows_here(self@),
                        self.loops() == old(self).loops(),
                    decreases *x - done,
                {
                    writer.build(self);
                    done += 1;
                }
            },
            _ => {},
        }
    }

    /// Lowers the operations of a straight-line block, in order.
    pub fn compile_instructions(&mut self, instrs: &Vec<Op>)
        requires
            old(self).wf(),
        ensures
            final(self).wf(),
            final(self)@ == lowered_ops(old(self)@, instrs@),
            old(self)@.grows_here(final(self)@),
            final(self).loops() == old(self).loops(),
    {
        let ghost start = self@;
        let n = instrs.len();
        let mut k: usize = 0;
        while k < n
            invariant
                n == instrs@.len(),
                k <= n,
                self.wf(),
                self@ == lowered_ops(start, instrs@.take(k as int)),
                start.grows_here(self@),
                self.loops() == old(self).loops(),
            decreases n - k,
        {
            proof {
                assert(instrs@.take(k + 1).drop_last() == instrs@.take(k as int));
            }
            self.compile_instruction(&instrs[k]);
            k += 1;
        }
        proof {
            assert(instrs@.take(n as int) == instrs@);
        }
    }

    /// Lowers a multiply block: the base value is read once, each pair adds
    /// the base value times its factor to its cell, and the base cell is
    /// zeroed at the end.
    pub fn build_multiply(&mut self, ops: &Vec<(i32, i32)>)
        requires
            old(self).wf(),
        ensures
            final(self).wf(),
            final(self)@ == lowered_multiply(old(self)@, pairs_view(ops@)),
            old(self)@.grows_here(final(self)@),
            final(self).loops() == old(self).loops(),
    {
        let ghost start = self@;
        let current_tape_pos = self.emit(Inst::LoadPos);
        let ptr_to_base_value = self.emit(Inst::CellPtr(Operand::Inst(current_tape_pos)));
        let base_value = self.emit(Inst::Load(ptr_to_base_value));
        let ghost head = self@;
        let n = ops.len();
        let mut k: usize = 0;
        while k < n
            invariant
                n == ops@.len(),
                k <= n,
                self.wf(),
                head == multiply_head(start),
                current_tape_pos == start.here(),
                ptr_to_base_value == start.here() + 1,
                base_value == start.here() + 2,
                self@ == multiply_steps(head, start.here(), pairs_view(ops@).take(k as int)),
                start.grows_here(self@),
                self@.here() >= start.here() + 3,
                self@.blocks[self@.current].insts[current_tape_pos as int] is LoadPos,
                self@.blocks[self@.current].insts[ptr_to_base_value as int] is CellPtr,
                self@.blocks[self@.current].insts[base_value as int] is Load,
                self.loops() == old(self).loops(),
            decreases n - k,
        {
            proof {
                assert(pairs_view(ops@).take(k + 1).drop_last() == pairs_view(ops@).take(k as int));
                assert(pairs_view(ops@).take(k + 1).last() == (
                    ops@[k as int].0 as int,
                    ops@[k as int].1 as int,
                ));
            }
            let (diff, multiply_val) = ops[k];
            let modification_pos = self.emit(
                Inst::Add(Operand::Inst(current_tape_pos), Operand::Const(diff)),
            );
            let ptr_to_value = self.emit(Inst::CellPtr(Operand::Inst(modification_pos)));
            let value = self.emit(Inst::Load(ptr_to_value));
            let multipled = self.emit(
                Inst::Mul(Operand::Inst(base_value), Operand::Const(multiply_val)),
            );
            let new_value = self.emit(Inst::Add(Operand::Inst(value), Operand::Inst(multipled)));
            self.emit(Inst::Store(ptr_to_value, Operand::Inst(new_value)));
            k += 1;
        }
        proof {
            assert(pairs_view(ops@).take(n as int) == pairs_view(ops@));
        }
        self.emit(Inst::Store(ptr_to_base_value, Operand::Const(0)));
    }

    /// Lowers one block of the program.
    pub fn compile_block(&mut self, block: &Block)
        requires
            old(self).wf(),
        ensures
            final(self).wf(),
            final(self)@ == lowered_block(old(self)@, block.deep_view()),
            old(self)@.leads_to(final(self)@),
        decreases block, 0nat,
    {
        let ghost start = self@;
        proof {
            self.lemma_wf();
        }
        match block {
            Block::Simple(instrs) => {
                self.compile_instructions(instrs);
                proof {
                    lemma_grows_leads(start, self@);
                }
            },
            Block::Loop(program) => {
                proof {
                    lemma_loop_view(*program);
                }
                self.compile_loop(program);
            },
            Block::Reset { offset } => {
                Reset::new().build(self, *offset);
                proof {
                    lemma_grows_leads(start, self@);
                }
            },
            Block::Multiply { ops } => {
                self.build_multiply(ops);
                proof {
                    lemma_grows_leads(start, self@);
                }
            },
        }
    }

    /// Lowers a loop: the head, the body, the tail.
    pub fn compile_loop(&mut self, program: &Program)
        requires
            old(self).wf(),
        ensures
            final(self).wf(),
            final(self)@ == loop_ended(
                lowered(loop_started(old(self)@), program.deep_view()),
                old(self)@.blocks.len() as int,
                old(self)@.blocks.len() as int + 1,
            ),
            old(self)@.leads_to(final(self)@),
        decreases program, 1nat,
    {
        let ghost start = self@;
        let looping = Loop::new();
        let (loop_block, cont_block) = looping.build_loop_start(self);
        let ghost head = self@;
        self.compile(program);
        let ghost tail = self@;
        looping.build_loop_end(self, loop_block, cont_block);
        proof {
            self.lemma_wf();
            assert(self@.open() =~= start.open().remove(start.current).insert(self@.current));
        }
    }

    /// Lowers a program, block after block.
    pub fn compile(&mut self, program: &Program)
        requires
            old(self).wf(),
        ensures
            final(self).wf(),
            final(self)@ == lowered(old(self)@, program.deep_view()),
            old(self)@.leads_to(final(self)@),
        decreases program, 0nat,
    {
        let ghost start = self@;
        proof {
            self.lemma_wf();
            lemma_leads_refl(start);
        }
        let n = program.len();
        let mut k: usize = 0;
        while k < n
            invariant
                n == program@.len(),
                k <= n,
                self.wf(),
                start.wf(),
                self@ == lowered(start, program.deep_view().take(k as int)),
                start.leads_to(self@),
            decreases n - k,
        {
            proof {
                assert(program.deep_view().take(k + 1).drop_last() == program.deep_view().take(
                    k as int,
                ));
                assert(program.deep_view().take(k + 1).last() == program@[k as int].deep_view());
            }
            let ghost before = self@;
            self.compile_block(&program[k]);
            proof {
                lemma_leads_trans(start, before, self@);
            }
            k += 1;
        }
        proof {
            assert(program.deep_view().take(n as int) == program.deep_view());
        }
    }

    /// Ends the function with `return 0` and hands out the module.
    pub fn finalize(self) -> (m: IrModule)
        requires
            self.wf(),
        ensures
            m@ == self@.terminate(Terminator::Ret(0)).blocks,
            self@.open() == set![self@.current] ==> complete(m@),
    {
        let ghost before = self@;
        let mut builder = self;
        builder.terminate(Terminator::Ret(0));
        let made = builder.blocks.len();
        proof {
            builder.lemma_wf();
            let done = builder@;
            if before.open() == set![before.current] {
                assert forall|i: int| 0 <= i < done.blocks.len() implies (
                #[trigger] done.blocks[i]).term is Some by {
                    if done.blocks[i].term is None {
                        assert(done.open().contains(i));
                        assert(before.open().remove(before.current).contains(i));
                    }
                }
                assert forall|i: int, j: int| 0 <= i < j < done.blocks.len() implies (
                #[trigger] done.blocks[i]).label != (#[trigger] done.blocks[j]).label by {
                    lemma_labels_differ(i, j);
                }
            }
        }
        IrModule { blocks: builder.blocks }
    }
}

/// What holds of the blocks of a finished function: every block is closed
/// by its one terminator and is in order, the blocks carry the labels of
/// their places, and no label occurs twice.
pub open spec fn complete(blocks: Seq<BlockView>) -> bool {
    &&& blocks.len() >= 1
    &&& forall|i: int| 0 <= i < blocks.len() ==> (#[trigger] blocks[i]).term is Some
    &&& forall|i: int| 0 <= i < blocks.len() ==> (#[trigger] blocks[i]).ok(blocks.len() as int)
    &&& forall|i: int| 0 <= i < blocks.len() ==> (#[trigger] blocks[i]).label == label_at(i)
    &&& forall|i: int, j: int|
        0 <= i < j < blocks.len() ==> (#[trigger] blocks[i]).label != (#[trigger] blocks[j]).label
}

/// A compiled program: the blocks of its one function, by order of
/// creation. Around it stand the tape of `TAPE_LEN` cells, all zero at the
/// start, the tape position, zero at the start, and the declarations of
/// `getchar`, `putchar` and `calloc`.
#[derive(Debug, PartialEq, Eq)]
pub struct IrModule {
    pub blocks: Vec<IrBlock>,
}

impl View for IrModule {
    type V = Seq<BlockView>;

    open spec fn view(&self) -> Seq<BlockView> {
        self.blocks.deep_view()
    }
}

/// Compiles a program: its body goes into the entry block of the one
/// function, each loop into two blocks of its own, and the function returns
/// zero. Every block of the result ends in exactly one terminator, and no
/// two blocks carry the same label. The code means what the program means:
/// from any valid machine it returns in a machine exactly when the program
/// ends in that machine.
pub fn compile(program: Program) -> (m: IrModule)
    ensures
        m@ == compiled(program.deep_view()).blocks,
        complete(m@),
        fits(m@),
        forall|from: Machine, end: Machine|
            from.valid() ==> (#[trigger] code_ends_in(m@, from, end) <==> ends_in(
                program.deep_view(),
                from,
                end,
            )),
{
    let mut llvm_builder = LLVMBuilder::new();
    proof {
        llvm_builder.lemma_wf();
        assert(llvm_builder@.open() =~= set![0int]);
    }
    llvm_builder.compile(&program);
    proof {
        assert(llvm_builder@.open() =~= set![llvm_builder@.current]);
    }
    let m = llvm_builder.finalize();
    proof {
        lemma_module_fits(&m);
        lemma_program_view_fits(program);
        assert forall|from: Machine, end: Machine| from.valid() implies (#[trigger] code_ends_in(
            m@,
            from,
            end,
        ) <==> ends_in(program.deep_view(), from, end)) by {
            lemma_compiled_meaning(program.deep_view(), from, end);
        }
    }
    m
}

/// A module that is there holds no more blocks, and no block more
/// instructions, than a machine word counts.
pub proof fn lemma_module_fits(m: &IrModule)
    ensures
        fits(m@),
{
    broadcast use vstd::std_specs::vec::axiom_spec_len;

    assert(m.blocks.len() == m.blocks@.len());
    assert forall|i: int| 0 <= i < m@.len() implies (#[trigger] m@[i]).insts.len()
        <= usize::MAX by {
        assert(m@[i] == m.blocks@[i].deep_view());
        assert(m.blocks@[i].insts.len() == m.blocks@[i].insts@.len());
    }
}

} // verus!
