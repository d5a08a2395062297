//! The pass manager: the registered rewrites, tried bottom-up on every block.

use vstd::prelude::*;
use crate::optimizations::base::Optimization;
use crate::optimizations::multiply::multiply_rewrite;
use crate::optimizations::reset_val::reset_rewrite;
use crate::optimizations::{MultiplyOpt, ResetValOpt};
use crate::equivalence::lemma_optimize_preserves_meaning;
use crate::parser::{lemma_loop_view, Block, Program, SpecBlock};
use crate::semantics::{ends_in, Machine};

verus! {

/// One of the rewrites that the optimizer can hold.
#[derive(Debug, Clone, Copy)]
pub enum Pass {
    ResetVal(ResetValOpt),
    Multiply(MultiplyOpt),
}

impl Optimization for Pass {
    open spec fn rewrite(&self, block: SpecBlock) -> Option<SpecBlock> {
        match self {
            Pass::ResetVal(_) => reset_rewrite(block),
            Pass::Multiply(_) => multiply_rewrite(block),
        }
    }

    fn apply(&self, block: &Block) -> (r: Option<Block>) {
        match self {
            Pass::ResetVal(opt) => opt.apply(block),
            Pass::Multiply(opt) => opt.apply(block),
        }
    }
}

/// The passes that ship, in the order in which they are tried: the specific
/// rewrite before the general one.
pub open spec fn standard_passes() -> Seq<Pass> {
    seq![Pass::ResetVal(ResetValOpt), Pass::Multiply(MultiplyOpt)]
}

/// The replacement that the first accepting pass from `from` on gives for
/// `block`; `block` itself when every pass declines.
pub open spec fn first_rewrite(passes: Seq<Pass>, from: int, block: SpecBlock) -> SpecBlock
    decreases passes.len() - from,
{
    if from < 0 || from >= passes.len() {
        block
    } else {
        match passes[from].rewrite(block) {
            Some(replacement) => replacement,
            None => first_rewrite(passes, from + 1, block),
        }
    }
}

/// What the optimizer makes of one block: the blocks of a loop's body are
/// optimized first, then the passes are tried once on the block itself.
pub open spec fn optimized_block(passes: Seq<Pass>, block: SpecBlock) -> SpecBlock
    decreases block,
{
    match block {
        SpecBlock::Loop(body) => first_rewrite(
            passes,
            0,
            SpecBlock::Loop(optimized(passes, body)),
        ),
        _ => first_rewrite(passes, 0, block),
    }
}

/// What the optimizer makes of a program: each block optimized, in place.
pub open spec fn optimized(passes: Seq<Pass>, p: Seq<SpecBlock>) -> Seq<SpecBlock>
    decreases p,
{
    Seq::new(
        p.len(),
        |i: int|
            if 0 <= i < p.len() {
                optimized_block(passes, p[i])
            } else {
                SpecBlock::Simple(Seq::empty())
            },
    )
}

/// The pass manager.
pub struct Optimizer {
    opts: Vec<Pass>,
}

impl View for Optimizer {
    type V = Seq<Pass>;

    closed spec fn view(&self) -> Seq<Pass> {
        self.opts@
    }
}

impl Optimizer {
    /// The optimizer with the passes that ship, in their order.
    pub fn new() -> (r: Self)
        ensures
            r@ == standard_passes(),
    {
        let mut opts: Vec<Pass> = Vec::new();
        opts.push(Pass::ResetVal(ResetValOpt));
        opts.push(Pass::Multiply(MultiplyOpt));
        assert(opts@ =~= standard_passes());
        Optimizer { opts }
    }

    /// Optimizes one block: the blocks of a loop's body first, then the block
    /// itself, by the first pass that accepts it.
    pub fn optimize_block(&self, block: Block) -> (r: Block)
        ensures
            r.deep_view() == optimized_block(self@, block.deep_view()),
        decreases block,
    {
        let whole: Ghost<Block> = Ghost(block);
        // first, optimize subblocks
        let on_child = |b: Block| -> (o: Block)
            requires
                decreases_to!(whole@ => b),
            ensures
                o.deep_view() == optimized_block(self@, b.deep_view()),
            {
                self.optimize_block(b)
            };
        let mapped = block.map_loop(on_child);
        proof {
            match whole@ {
                Block::Loop(body) => {
                    let out = mapped->Loop_0;
                    lemma_loop_view(body);
                    lemma_loop_view(out);
                    let inner = optimized(self@, body.deep_view());
                    assert forall|i: int| 0 <= i < inner.len() implies out.deep_view()[i]
                        == inner[i] by {
                        assert(call_ensures(on_child, (body@[i],), out@[i]));
                        assert(out.deep_view()[i] == out@[i].deep_view());
                        assert(body.deep_view()[i] == body@[i].deep_view());
                    }
                    assert(out.deep_view() =~= inner);
                },
                _ => {
                    assert(mapped == whole@);
                },
            }
        }
        // then optimize the block itself
        let n = self.opts.len();
        let mut i: usize = 0;
        while i < n
            invariant
                n == self@.len(),
                i <= n,
                whole@ == block,
                first_rewrite(self@, i as int, mapped.deep_view()) == optimized_block(
                    self@,
                    whole@.deep_view(),
                ),
            decreases n - i,
        {
            if let Some(rewritten) = self.opts[i].apply(&mapped) {
                assert(self@[i as int].rewrite(mapped.deep_view()) == Some(rewritten.deep_view()));
                return rewritten;
            }
            assert(self@[i as int].rewrite(mapped.deep_view()) is None);
            i += 1;
        }
        mapped
    }

    /// Optimizes every block of a program, bottom-up, in one pass over the
    /// tree. With the passes that ship the program keeps its meaning: from
    /// any valid machine the result ends in a machine exactly when the
    /// program does.
    pub fn optimize(&self, p: Program) -> (r: Program)
        ensures
            r.deep_view() == optimized(self@, p.deep_view()),
            self@ == standard_passes() ==> forall|from: Machine, end: Machine|
                from.valid() ==> (#[trigger] ends_in(r.deep_view(), from, end) <==> ends_in(
                    p.deep_view(),
                    from,
                    end,
                )),
    {
        let ghost blocks = p@;
        let mut out: Program = Vec::new();
        for block in it: p
            invariant
                it.seq() == blocks,
                out@.len() == it.index(),
                forall|i: int|
                    0 <= i < out@.len() ==> (#[trigger] out@[i]).deep_view() == optimized_block(
                        self@,
                        blocks[i].deep_view(),
                    ),
        {
            let done = self.optimize_block(block);
            out.push(done);
        }
        assert(out.deep_view() =~= optimized(self@, p.deep_view()));
        proof {
            if self@ == standard_passes() {
                assert forall|from: Machine, end: Machine| from.valid() implies (#[trigger] ends_in(
                    out.deep_view(),
                    from,
                    end,
                ) <==> ends_in(p.deep_view(), from, end)) by {
                    lemma_optimize_preserves_meaning(p.deep_view(), from, end);
                }
            }
        }
        out
    }
}

} // verus!
