//! The typed SSA form that the code generator emits.
//!
//! The generated program has one global tape of 32-bit cells, one global
//! 32-bit tape position and a single function made of basic blocks. An
//! instruction is named by its place in its block, and reads only results
//! of earlier instructions of the same block, so every use is dominated by
//! its definition.

use vstd::prelude::*;

verus! {

/// The number of cells of the tape.
pub const TAPE_LEN: u32 = 30_000;

/// The name of a basic block. The blocks of the `n`-th loop opened are
/// `Loop(n)`, its body, and `Cont(n)`, what follows it.
#[derive(Debug, Clone, Copy, PartialEq, Eq, Structural)]
pub enum Label {
    Entry,
    Loop(usize),
    Cont(usize),
}

/// A 32-bit value that an instruction reads: a constant, or the result of
/// the instruction at the given place of the same block.
#[derive(Debug, Clone, Copy, PartialEq, Eq, Structural)]
pub enum Operand {
    Const(i32),
    Inst(usize),
}

/// One instruction. Its result, if it has one, is named by its place in the
/// block.
#[derive(Debug, Clone, Copy, PartialEq, Eq, Structural)]
pub enum Inst {
    /// Load the tape position.
    LoadPos,
    /// Store to the tape position.
    StorePos(Operand),
    /// The address of the cell with the given index.
    CellPtr(Operand),
    /// Load the cell at the address that the named instruction made.
    Load(usize),
    /// Store to the cell at the address that the named instruction made.
    Store(usize, Operand),
    /// Wrapping 32-bit sum.
    Add(Operand, Operand),
    /// Wrapping 32-bit product.
    Mul(Operand, Operand),
    /// Whether the value differs from zero.
    NonZero(Operand),
    /// Call `getchar`; the result is what it returns.
    GetChar,
    /// Call `putchar` on the value.
    PutChar(Operand),
}

/// The instruction that ends a basic block.
#[derive(Debug, Clone, Copy, PartialEq, Eq, Structural)]
pub enum Terminator {
    /// Go to `then_block` when the flag that the named instruction made is
    /// set, to `else_block` otherwise. Blocks are named by their place in the
    /// function.
    CondBr { cond: usize, then_block: usize, else_block: usize },
    /// Return the value from the function.
    Ret(i32),
}

/// A basic block: straight-line instructions and, once it is closed, the
/// terminator.
#[derive(Debug, PartialEq, Eq)]
pub struct IrBlock {
    pub label: Label,
    pub insts: Vec<Inst>,
    pub term: Option<Terminator>,
}

/// The mathematical value of a `IrBlock`.
pub struct BlockView {
    pub label: Label,
    pub insts: Seq<Inst>,
    pub term: Option<Terminator>,
}

impl DeepView for IrBlock {
    type V = BlockView;

    open spec fn deep_view(&self) -> BlockView {
        BlockView { label: self.label, insts: self.insts@, term: self.term }
    }
}

/// Whether the instruction at place `i` gives a 32-bit value.
pub open spec fn gives_int(insts: Seq<Inst>, i: int) -> bool {
    0 <= i < insts.len() && (insts[i] is LoadPos || insts[i] is Load || insts[i] is Add
        || insts[i] is Mul || insts[i] is GetChar)
}

/// Whether the instruction at place `i` gives a cell address.
pub open spec fn gives_ptr(insts: Seq<Inst>, i: int) -> bool {
    0 <= i < insts.len() && insts[i] is CellPtr
}

/// Whether the instruction at place `i` gives a flag.
pub open spec fn gives_flag(insts: Seq<Inst>, i: int) -> bool {
    0 <= i < insts.len() && insts[i] is NonZero
}

/// Whether `o` can be read after `insts`.
pub open spec fn operand_ok(insts: Seq<Inst>, o: Operand) -> bool {
    match o {
        Operand::Const(_) => true,
        Operand::Inst(i) => gives_int(insts, i as int),
    }
}

/// Whether `inst` can follow `insts`: everything that it reads is the result,
/// of the right kind, of one of them.
pub open spec fn inst_ok(insts: Seq<Inst>, inst: Inst) -> bool {
    match inst {
        Inst::LoadPos => true,
        Inst::StorePos(v) => operand_ok(insts, v),
        Inst::CellPtr(i) => operand_ok(insts, i),
        Inst::Load(p) => gives_ptr(insts, p as int),
        Inst::Store(p, v) => gives_ptr(insts, p as int) && operand_ok(insts, v),
        Inst::Add(a, b) => operand_ok(insts, a) && operand_ok(insts, b),
        Inst::Mul(a, b) => operand_ok(insts, a) && operand_ok(insts, b),
        Inst::NonZero(v) => operand_ok(insts, v),
        Inst::GetChar => true,
        Inst::PutChar(v) => operand_ok(insts, v),
    }
}

/// Whether `t` can end a block of `insts` in a function of `blocks` blocks.
pub open spec fn term_ok(insts: Seq<Inst>, t: Terminator, blocks: int) -> bool {
    match t {
        Terminator::CondBr { cond, then_block, else_block } => {
            &&& gives_flag(insts, cond as int)
            &&& then_block < blocks
            &&& else_block < blocks
        },
        Terminator::Ret(_) => true,
    }
}

/// The label that the block at place `i` of a function carries: the entry
/// block comes first, then the two blocks of each loop in the order in which
/// the loops were opened.
pub open spec fn label_at(i: int) -> Label {
    if i <= 0 {
        Label::Entry
    } else if i % 2 == 1 {
        Label::Loop(((i + 1) / 2) as usize)
    } else {
        Label::Cont((i / 2) as usize)
    }
}

impl BlockView {
    /// Every instruction reads only results of earlier ones, of the right
    /// kind, and the terminator, if there is one, reads a flag of this block
    /// and names blocks of the function.
    pub open spec fn ok(self, blocks: int) -> bool {
        &&& forall|i: int|
            0 <= i < self.insts.len() ==> inst_ok(self.insts.take(i), #[trigger] self.insts[i])
        &&& self.term matches Some(t) ==> term_ok(self.insts, t, blocks)
    }
}

/// A function under construction: its blocks, by order of creation, and the
/// block that instructions currently go to.
pub struct FunctionView {
    pub blocks: Seq<BlockView>,
    pub current: int,
}

impl FunctionView {
    /// The function with only its entry block, still open.
    pub open spec fn entry() -> FunctionView {
        FunctionView {
            blocks: seq![BlockView { label: Label::Entry, insts: Seq::empty(), term: None }],
            current: 0,
        }
    }

    /// The place that the next instruction gets in the current block.
    pub open spec fn here(self) -> int {
        self.blocks[self.current].insts.len() as int
    }

    /// `inst` appended to the current block.
    pub open spec fn emit(self, inst: Inst) -> FunctionView {
        let b = self.blocks[self.current];
        FunctionView {
            blocks: self.blocks.update(
                self.current,
                BlockView { label: b.label, insts: b.insts.push(inst), term: b.term },
            ),
            current: self.current,
        }
    }

    /// The current block closed by `t`.
    pub open spec fn terminate(self, t: Terminator) -> FunctionView {
        let b = self.blocks[self.current];
        FunctionView {
            blocks: self.blocks.update(
                self.current,
                BlockView { label: b.label, insts: b.insts, term: Some(t) },
            ),
            current: self.current,
        }
    }

    /// A new empty block at the end of the function.
    pub open spec fn append(self, label: Label) -> FunctionView {
        FunctionView {
            blocks: self.blocks.push(BlockView { label, insts: Seq::empty(), term: None }),
            current: self.current,
        }
    }

    /// Instructions go to `block` from now on.
    pub open spec fn position_at_end(self, block: int) -> FunctionView {
        FunctionView { blocks: self.blocks, current: block }
    }

    /// The places of the blocks that are not closed yet.
    pub open spec fn open(self) -> Set<int> {
        Set::new(|i: int| 0 <= i < self.blocks.len() && self.blocks[i].term is None)
    }

    /// What holds of a function at every moment: the position names a block,
    /// the blocks carry the labels of their places and every block is in
    /// order.
    pub open spec fn sound(self) -> bool {
        &&& 0 <= self.current < self.blocks.len()
        &&& forall|i: int|
            0 <= i < self.blocks.len() ==> (#[trigger] self.blocks[i]).label == label_at(i)
        &&& forall|i: int|
            0 <= i < self.blocks.len() ==> (#[trigger] self.blocks[i]).ok(self.blocks.len() as int)
    }

    /// Whether the block at the position is still open.
    pub open spec fn writable(self) -> bool {
        0 <= self.current < self.blocks.len() && self.blocks[self.current].term is None
    }

    /// What holds of a function between two constructs of the program: it is
    /// sound, the block at the position is open, and besides the entry block
    /// there are the two blocks of each loop opened so far.
    pub open spec fn wf(self) -> bool {
        &&& self.sound()
        &&& self.writable()
        &&& self.blocks.len() % 2 == 1
    }

    /// Whether `after` comes from `self` by instructions added at the
    /// position only: same blocks otherwise, same position, still open.
    pub open spec fn grows_here(self, after: FunctionView) -> bool {
        &&& after.sound()
        &&& after.writable()
        &&& after.current == self.current
        &&& after.blocks.len() == self.blocks.len()
        &&& after.open() == self.open()
    }

    /// Whether `after` comes from `self` by lowering constructs at the
    /// position: the position stays or moves to a new block, and of the
    /// blocks that were open or were made on the way only the one at the
    /// position is left open in place of the one that was.
    pub open spec fn leads_to(self, after: FunctionView) -> bool {
        &&& after.wf()
        &&& after.blocks.len() >= self.blocks.len()
        &&& (after.current == self.current || after.current >= self.blocks.len())
        &&& after.open() == self.open().remove(self.current).insert(after.current)
    }
}

/// Appending an instruction that reads only what the open block at the
/// position already gives keeps the function sound and closes no block.
pub proof fn lemma_emit(f: FunctionView, inst: Inst)
    requires
        f.sound(),
        f.writable(),
        inst_ok(f.blocks[f.current].insts, inst),
    ensures
        f.emit(inst).sound(),
        f.emit(inst).writable(),
        f.emit(inst).open() == f.open(),
        f.emit(inst).blocks.len() == f.blocks.len(),
        f.emit(inst).current == f.current,
        f.emit(inst).here() == f.here() + 1,
        f.emit(inst).blocks[f.current].insts == f.blocks[f.current].insts.push(inst),
{
    let g = f.emit(inst);
    let n = f.blocks.len() as int;
    assert forall|i: int| 0 <= i < g.blocks.len() implies (#[trigger] g.blocks[i]).ok(n) by {
        if i == f.current {
            let old_insts = f.blocks[i].insts;
            let new_insts = g.blocks[i].insts;
            assert(f.blocks[i].ok(n));
            assert forall|k: int| 0 <= k < new_insts.len() implies inst_ok(
                new_insts.take(k),
                #[trigger] new_insts[k],
            ) by {
                if k < old_insts.len() {
                    assert(new_insts.take(k) == old_insts.take(k));
                    assert(new_insts[k] == old_insts[k]);
                } else {
                    assert(new_insts.take(k) == old_insts);
                }
            }
        } else {
            assert(g.blocks[i] == f.blocks[i]);
        }
    }
    assert forall|i: int| 0 <= i < g.blocks.len() implies (#[trigger] g.blocks[i]).label
        == label_at(i) by {
        assert(f.blocks[i].label == label_at(i));
    }
    assert(g.open() =~= f.open());
}

/// Closing the open block at the position keeps the function sound; that
/// block is open no longer.
pub proof fn lemma_terminate(f: FunctionView, t: Terminator)
    requires
        f.sound(),
        f.writable(),
        term_ok(f.blocks[f.current].insts, t, f.blocks.len() as int),
    ensures
        f.terminate(t).sound(),
        f.terminate(t).open() == f.open().remove(f.current),
        f.terminate(t).blocks.len() == f.blocks.len(),
        f.terminate(t).current == f.current,
{
    let g = f.terminate(t);
    let n = f.blocks.len() as int;
    assert forall|i: int| 0 <= i < g.blocks.len() implies (#[trigger] g.blocks[i]).ok(n) by {
        assert(f.blocks[i].ok(n));
        if i != f.current {
            assert(g.blocks[i] == f.blocks[i]);
        }
    }
    assert forall|i: int| 0 <= i < g.blocks.len() implies (#[trigger] g.blocks[i]).label
        == label_at(i) by {
        assert(f.blocks[i].label == label_at(i));
    }
    assert(g.open() =~= f.open().remove(f.current));
}

/// A new block with the label of its place keeps the function sound; the
/// new block is open.
pub proof fn lemma_append(f: FunctionView, label: Label)
    requires
        f.sound(),
        label == label_at(f.blocks.len() as int),
    ensures
        f.append(label).sound(),
        f.append(label).writable() == f.writable(),
        f.append(label).open() == f.open().insert(f.blocks.len() as int),
        f.append(label).blocks.len() == f.blocks.len() + 1,
        f.append(label).current == f.current,
        f.append(label).here() == f.here(),
{
    let g = f.append(label);
    let n = g.blocks.len() as int;
    assert forall|i: int| 0 <= i < g.blocks.len() implies (#[trigger] g.blocks[i]).ok(n) by {
        if i < f.blocks.len() {
            assert(g.blocks[i] == f.blocks[i]);
            assert(f.blocks[i].ok(n - 1));
        }
    }
    assert forall|i: int| 0 <= i < g.blocks.len() implies (#[trigger] g.blocks[i]).label
        == label_at(i) by {
        if i < f.blocks.len() {
            assert(g.blocks[i] == f.blocks[i]);
        }
    }
    assert(g.open() =~= f.open().insert(f.blocks.len() as int));
}

/// Instructions added at the position of a function in order between two
/// constructs lead to a function in order between two constructs.
pub proof fn lemma_grows_leads(f: FunctionView, g: FunctionView)
    requires
        f.wf(),
        f.grows_here(g),
    ensures
        f.leads_to(g),
{
    assert(g.open() =~= f.open().remove(f.current).insert(g.current));
}

/// Lowering constructs one after the other leads where lowering them at
/// once does.
pub proof fn lemma_leads_trans(f: FunctionView, g: FunctionView, h: FunctionView)
    requires
        f.wf(),
        f.leads_to(g),
        g.leads_to(h),
    ensures
        f.leads_to(h),
{
    assert(h.open() =~= f.open().remove(f.current).insert(h.current));
}

/// A function in order between two constructs leads to itself.
pub proof fn lemma_leads_refl(f: FunctionView)
    requires
        f.wf(),
    ensures
        f.leads_to(f),
{
    assert(f.open() =~= f.open().remove(f.current).insert(f.current));
}

/// The labels of two different places differ, as long as the places fit in
/// a machine word.
pub proof fn lemma_labels_differ(i: int, j: int)
    requires
        0 <= i < j <= usize::MAX,
    ensures
        label_at(i) != label_at(j),
{
}

} // verus!
