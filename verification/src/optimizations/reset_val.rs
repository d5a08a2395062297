//! The loop that counts the current cell down to zero becomes a reset.

use vstd::prelude::*;
use crate::lexer::Op;
use crate::optimizations::base::Optimization;
use crate::parser::{Block, SpecBlock};

verus! {

/// Rewrites the loop whose whole body is one decrement to a reset of the
/// current cell.
#[derive(Debug, Clone, Copy)]
pub struct ResetValOpt;

/// The one loop that `ResetValOpt` rewrites: a single decrement in brackets.
pub open spec fn countdown_loop() -> SpecBlock {
    SpecBlock::Loop(seq![SpecBlock::Simple(seq![Op::Modify(-1i16)])])
}

/// What `ResetValOpt` makes of a block.
pub open spec fn reset_rewrite(block: SpecBlock) -> Option<SpecBlock> {
    if block == countdown_loop() {
        Some(SpecBlock::Reset { offset: 0 })
    } else {
        None
    }
}

impl Optimization for ResetValOpt {
    open spec fn rewrite(&self, block: SpecBlock) -> Option<SpecBlock> {
        reset_rewrite(block)
    }

    fn apply(&self, block: &Block) -> (r: Option<Block>) {
        let Block::Loop(subblocks) = block else {
            return None;
        };
        if subblocks.len() != 1 {
            assert(block.deep_view()->Loop_0.len() != 1);
            return None;
        }
        assert(block.deep_view()->Loop_0[0] == subblocks@[0].deep_view());
        let Block::Simple(ops) = &subblocks[0] else {
            return None;
        };
        if ops.len() == 1 {
            if let Op::Modify(-1) = ops[0] {
                assert(ops@ =~= seq![Op::Modify(-1i16)]);
                assert(block.deep_view()->Loop_0 =~= seq![SpecBlock::Simple(ops@)]);
                return Some(Block::Reset { offset: 0 });
            }
        }
        assert(ops@ != seq![Op::Modify(-1i16)]) by {
            if ops@ == seq![Op::Modify(-1i16)] {
                assert(ops@.len() == 1);
                assert(ops@[0] == Op::Modify(-1i16));
            }
        }
        None
    }
}

} // verus!
