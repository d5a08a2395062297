//! A balanced linear loop becomes straight-line multiply-accumulate.
//!
//! A loop whose body only moves and modifies, returns the pointer to where
//! it started and takes exactly one from the cell it tests runs as often as
//! that cell says. Every other cell it touches grows by its per-round change
//! times that count, and the tested cell ends at zero.

use vstd::prelude::*;
use crate::lexer::Op;
use crate::optimizations::base::Optimization;
use crate::parser::{pairs_view, Block, SpecBlock};

verus! {

/// Rewrites a balanced linear loop to a multiply block.
#[derive(Debug, Clone, Copy)]
pub struct MultiplyOpt;

/// The farthest that a loop body may reach from its base cell, to either
/// side, and still be rewritten.
pub const MAX_REACH: i64 = 32767;

/// What an operation adds to the tape position.
pub open spec fn move_of(op: Op) -> int {
    match op {
        Op::Move(x) => x as int,
        _ => 0,
    }
}

/// The distance that an operation moves, whatever the direction.
pub open spec fn span_of(op: Op) -> int {
    if move_of(op) < 0 {
        -move_of(op)
    } else {
        move_of(op)
    }
}

/// Where the pointer stands after `ops`, counted from where it started.
pub open spec fn net_move(ops: Seq<Op>) -> int
    decreases ops.len(),
{
    if ops.len() == 0 {
        0
    } else {
        net_move(ops.drop_last()) + move_of(ops.last())
    }
}

/// The sum of the distances moved: no cell farther than this from the base
/// is visited.
pub open spec fn reach(ops: Seq<Op>) -> int
    decreases ops.len(),
{
    if ops.len() == 0 {
        0
    } else {
        reach(ops.drop_last()) + span_of(ops.last())
    }
}

/// What the last operation of `ops` adds to the cell at offset `d`.
pub open spec fn last_change(ops: Seq<Op>, d: int) -> int
    recommends
        ops.len() > 0,
{
    match ops.last() {
        Op::Modify(x) => if net_move(ops.drop_last()) == d {
            x as int
        } else {
            0
        },
        _ => 0,
    }
}

/// What one run of `ops` adds to the cell at offset `d` from the base.
pub open spec fn delta(ops: Seq<Op>, d: int) -> int
    decreases ops.len(),
{
    if ops.len() == 0 {
        0
    } else {
        delta(ops.drop_last(), d) + last_change(ops, d)
    }
}

/// Every operation is a move or a modify.
pub open spec fn plain(ops: Seq<Op>) -> bool {
    forall|i: int| 0 <= i < ops.len() ==> (#[trigger] ops[i] is Move || ops[i] is Modify)
}

/// The body of a loop that `MultiplyOpt` rewrites.
pub open spec fn linear(ops: Seq<Op>) -> bool {
    &&& plain(ops)
    &&& net_move(ops) == 0
    &&& delta(ops, 0) == -1
    &&& forall|d: int| d < 0 ==> #[trigger] delta(ops, d) == 0
    &&& reach(ops) <= MAX_REACH
    &&& forall|d: int| 0 < d ==> i32::MIN <= #[trigger] delta(ops, d) <= i32::MAX
}

/// The pairs `(d, delta(ops, d))` for the offsets `d` from 1 to `upto` whose
/// cell changes, by rising offset.
pub open spec fn factors(ops: Seq<Op>, upto: int) -> Seq<(int, int)>
    decreases upto,
{
    if upto <= 0 {
        Seq::empty()
    } else if delta(ops, upto) != 0 {
        factors(ops, upto - 1).push((upto, delta(ops, upto)))
    } else {
        factors(ops, upto - 1)
    }
}

/// What `MultiplyOpt` makes of a block.
pub open spec fn multiply_rewrite(block: SpecBlock) -> Option<SpecBlock> {
    match block {
        SpecBlock::Loop(body) => if body.len() == 1 {
            match body[0] {
                SpecBlock::Simple(ops) => if linear(ops) {
                    Some(SpecBlock::Multiply { ops: factors(ops, reach(ops)) })
                } else {
                    None
                },
                _ => None,
            }
        } else {
            None
        },
        _ => None,
    }
}

/// A prefix reaches no farther than the whole, and the pointer never
/// stands farther from the base than the reach.
pub proof fn lemma_reach(ops: Seq<Op>, k: int)
    requires
        0 <= k <= ops.len(),
    ensures
        0 <= reach(ops.take(k)) <= reach(ops),
        -reach(ops.take(k)) <= net_move(ops.take(k)) <= reach(ops.take(k)),
    decreases ops.len(),
{
    if k == ops.len() {
        assert(ops.take(k) == ops);
        if ops.len() > 0 {
            lemma_reach(ops.drop_last(), k - 1);
            assert(ops.drop_last().take(k - 1) == ops.drop_last());
        }
    } else {
        lemma_reach(ops.drop_last(), k);
        assert(ops.drop_last().take(k) == ops.take(k));
    }
}

/// A cell beyond the reach is not changed.
pub proof fn lemma_delta_beyond_reach(ops: Seq<Op>, d: int)
    requires
        d < -reach(ops) || reach(ops) < d,
    ensures
        delta(ops, d) == 0,
    decreases ops.len(),
{
    if ops.len() > 0 {
        let head = ops.drop_last();
        lemma_reach(ops, ops.len() - 1);
        assert(ops.take(ops.len() - 1) == head);
        lemma_delta_beyond_reach(head, d);
    }
}

/// Every cell changes by no more than the largest payload times the length.
pub proof fn lemma_delta_bound(ops: Seq<Op>, d: int)
    ensures
        -32768 * ops.len() <= delta(ops, d) <= 32768 * ops.len(),
    decreases ops.len(),
{
    if ops.len() > 0 {
        lemma_delta_bound(ops.drop_last(), d);
    }
}

/// The pairs hold offsets from 1 to `upto` only, none twice, and no factor
/// zero.
pub proof fn lemma_factors(ops: Seq<Op>, upto: int)
    ensures
        factors(ops, upto).len() <= if upto < 0 {
            0
        } else {
            upto
        },
        forall|i: int|
            0 <= i < factors(ops, upto).len() ==> {
                &&& 0 < (#[trigger] factors(ops, upto)[i]).0 <= upto
                &&& factors(ops, upto)[i].1 == delta(ops, factors(ops, upto)[i].0)
                &&& factors(ops, upto)[i].1 != 0
            },
        forall|i: int, j: int|
            0 <= i < j < factors(ops, upto).len() ==> (#[trigger] factors(ops, upto)[i]).0 < (
            #[trigger] factors(ops, upto)[j]).0,
    decreases upto,
{
    if upto > 0 {
        lemma_factors(ops, upto - 1);
    }
}

impl Optimization for MultiplyOpt {
    open spec fn rewrite(&self, block: SpecBlock) -> Option<SpecBlock> {
        multiply_rewrite(block)
    }

    fn apply(&self, block: &Block) -> (r: Option<Block>) {
        let Block::Loop(subblocks) = block else {
            return None;
        };
        if subblocks.len() != 1 {
            assert(block.deep_view()->Loop_0.len() != 1);
            return None;
        }
        assert(block.deep_view()->Loop_0[0] == subblocks@[0].deep_view());
        let Block::Simple(ops) = &subblocks[0] else {
            return None;
        };
        assert(block.deep_view()->Loop_0[0] == SpecBlock::Simple(ops@));
        assert(multiply_rewrite(block.deep_view()) is Some ==> linear(ops@));
        let n = ops.len();

        // The net movement and the reach; a body that holds anything but
        // moves and modifies, or reaches too far, is not rewritten.
        let mut sum_of_moves: i64 = 0;
        let mut max_cell_distance: i64 = 0;
        let mut i: usize = 0;
        while i < n
            invariant
                multiply_rewrite(block.deep_view()) is Some ==> linear(ops@),
                n == ops@.len(),
                i <= n,
                plain(ops@.take(i as int)),
                sum_of_moves == net_move(ops@.take(i as int)),
                max_cell_distance == reach(ops@.take(i as int)),
                0 <= max_cell_distance <= MAX_REACH,
                -max_cell_distance <= sum_of_moves <= max_cell_distance,
            decreases n - i,
        {
            proof {
                assert(ops@.take(i + 1).drop_last() == ops@.take(i as int));
                lemma_reach(ops@, i + 1);
            }
            match ops[i] {
                Op::Move(x) => {
                    sum_of_moves = sum_of_moves + x as i64;
                    max_cell_distance = max_cell_distance + if x < 0 {
                        -(x as i64)
                    } else {
                        x as i64
                    };
                    if max_cell_distance > MAX_REACH {
                        return None;
                    }
                },
                Op::Modify(_) => {},
                _ => {
                    assert(!(ops@[i as int] is Move || ops@[i as int] is Modify));
                    return None;
                },
            }
            proof {
                let now = ops@.take(i + 1);
                assert forall|j: int| 0 <= j < now.len() implies (#[trigger] now[j] is Move
                    || now[j] is Modify) by {
                    if j < i {
                        assert(now[j] == ops@.take(i as int)[j]);
                    }
                }
            }
            i += 1;
        }
        proof {
            assert(ops@.take(n as int) == ops@);
        }
        if sum_of_moves != 0 {
            return None;
        }
        // A dense buffer of what one run adds to each cell within reach,
        // the base cell in the middle.

        let base: usize = max_cell_distance as usize;
        let size: usize = 2 * base + 1;
        let mut init: Vec<i128> = Vec::new();
        while init.len() < size
            invariant
                multiply_rewrite(block.deep_view()) is Some ==> linear(ops@),
                init@.len() <= size,
                forall|j: int| 0 <= j < init@.len() ==> init@[j] == 0,
            decreases size - init@.len(),
        {
            init.push(0);
        }
        let mut pos: usize = base;
        i = 0;
        while i < n
            invariant
                multiply_rewrite(block.deep_view()) is Some ==> linear(ops@),
                n == ops@.len(),
                i <= n,
                plain(ops@),
                base == reach(ops@),
                base <= MAX_REACH,
                size == 2 * base + 1,
                init@.len() == size,
                pos == base + net_move(ops@.take(i as int)),
                forall|j: int|
                    0 <= j < size ==> #[trigger] init@[j] == delta(ops@.take(i as int), j - base),
            decreases n - i,
        {
            proof {
                assert(ops@.take(i + 1).drop_last() == ops@.take(i as int));
                lemma_reach(ops@, i as int);
                lemma_reach(ops@, i + 1);
            }
            match ops[i] {
                Op::Move(x) => {
                    pos = (pos as i64 + x as i64) as usize;
                },
                Op::Modify(x) => {
                    proof {
                        lemma_delta_bound(ops@.take(i as int), pos - base);
                    }
                    let changed = init[pos] + x as i128;
                    init.set(pos, changed);
                },
                _ => {},
            }
            i += 1;
        }
        proof {
            assert(ops@.take(n as int) == ops@);
        }
        if init[base] != -1 {
            return None;
        }
        // No cell to the left of the base may change.

        let mut j: usize = 0;
        while j < base
            invariant
                multiply_rewrite(block.deep_view()) is Some ==> linear(ops@),
                j <= base,
                size == 2 * base + 1,
                init@.len() == size,
                forall|k: int| 0 <= k < size ==> #[trigger] init@[k] == delta(ops@, k - base),
                forall|d: int| -base <= d < j - base ==> #[trigger] delta(ops@, d) == 0,
            decreases base - j,
        {
            if init[j] != 0 {
                assert(delta(ops@, j - base) != 0);
                return None;
            }
            proof {
                assert forall|d: int| -base <= d < j + 1 - base implies #[trigger] delta(
                    ops@,
                    d,
                ) == 0 by {
                    if d == j - base {
                        assert(init@[j as int] == delta(ops@, j - base));
                    }
                }
            }
            j += 1;
        }
        // The cells to the right that change, each with its factor.

        let mut out: Vec<(i32, i32)> = Vec::new();
        let mut d: usize = 0;
        while d < base
            invariant
                multiply_rewrite(block.deep_view()) is Some ==> linear(ops@),
                d <= base,
                base <= MAX_REACH,
                size == 2 * base + 1,
                init@.len() == size,
                forall|k: int| 0 <= k < size ==> #[trigger] init@[k] == delta(ops@, k - base),
                pairs_view(out@) == factors(ops@, d as int),
                forall|e: int| 0 < e <= d ==> i32::MIN <= #[trigger] delta(ops@, e) <= i32::MAX,
            decreases base - d,
        {
            d += 1;
            let factor = init[base + d];
            assert(factor == delta(ops@, d as int));
            if factor != 0 {
                if factor < i32::MIN as i128 || factor > i32::MAX as i128 {
                    return None;
                }
                let ghost before = out@;
                out.push((d as i32, factor as i32));
                assert(pairs_view(out@) =~= pairs_view(before).push((d as int, factor as int)));
            }
        }
        proof {
            assert forall|e: int| e < 0 implies #[trigger] delta(ops@, e) == 0 by {
                if e < -base {
                    lemma_delta_beyond_reach(ops@, e);
                }
            }
            assert forall|e: int| 0 < e implies i32::MIN <= #[trigger] delta(ops@, e)
                <= i32::MAX by {
                if e > base {
                    lemma_delta_beyond_reach(ops@, e);
                }
            }
            assert(linear(ops@));
        }
        Some(Block::Multiply { ops: out })
    }
}

} // verus!
