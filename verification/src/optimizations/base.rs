//! What a rewrite is.

use vstd::prelude::*;
use crate::parser::{Block, SpecBlock};

verus! {

/// A pattern rewrite on one block: a replacement, or `None` to decline.
/// The input is never changed.
pub trait Optimization {
    /// The rewrite as a function of the block's value.
    spec fn rewrite(&self, block: SpecBlock) -> Option<SpecBlock>;

    fn apply(&self, prog: &Block) -> (r: Option<Block>)
        ensures
            r is Some <==> self.rewrite(prog.deep_view()) is Some,
            r matches Some(b) ==> self.rewrite(prog.deep_view()) == Some(b.deep_view()),
    ;
}

} // verus!
