//! Bracket balance of a token stream, and what the parser makes of it.

use vstd::prelude::*;
use crate::lexer::Op;
use crate::parser::{
    flatten, flatten_block, parsed, parsed_form, place, run, start, step, well_formed,
    ParseError, SpecBlock,
};

verus! {

/// What one token adds to the nesting depth.
pub open spec fn depth_of(t: Op) -> int {
    match t {
        Op::LBr => 1,
        Op::RBr => -1,
        _ => 0,
    }
}

/// Opening brackets minus closing brackets.
pub open spec fn depth(tokens: Seq<Op>) -> int
    decreases tokens.len(),
{
    if tokens.len() == 0 {
        0
    } else {
        depth(tokens.drop_last()) + depth_of(tokens.last())
    }
}

/// Some prefix closes more loops than it opens.
pub open spec fn closes_early(tokens: Seq<Op>) -> bool {
    exists|k: int| 0 <= k <= tokens.len() && #[trigger] depth(tokens.take(k)) < 0
}

/// Every closing bracket has its opening bracket before it, and every loop
/// is closed at the end.
pub open spec fn balanced(tokens: Seq<Op>) -> bool {
    !closes_early(tokens) && depth(tokens) == 0
}

/// The tokens taken so far, read back from the parser's stack: each program
/// above the outermost one stands behind the bracket that opened it.
pub open spec fn unwind(stack: Seq<Seq<SpecBlock>>) -> Seq<Op>
    decreases stack.len(),
{
    if stack.len() == 0 {
        Seq::empty()
    } else if stack.len() == 1 {
        flatten(stack[0])
    } else {
        unwind(stack.drop_last()) + seq![Op::LBr] + flatten(stack.last())
    }
}

/// Every program on the stack is well formed and in the parser's form.
pub open spec fn stack_ok(stack: Seq<Seq<SpecBlock>>) -> bool {
    forall|i: int|
        0 <= i < stack.len() ==> well_formed(#[trigger] stack[i]) && parsed_form(stack[i])
}

/// A program is well formed exactly when each of its blocks is.
pub proof fn lemma_well_formed_blocks(p: Seq<SpecBlock>)
    ensures
        well_formed(p) <==> forall|i: int| 0 <= i < p.len() ==> (#[trigger] p[i]).well_formed(),
{
    let b = SpecBlock::Loop(p);
    assert(b->Loop_0 == p);
}

/// A program is in the parser's form exactly when each of its blocks is and
/// no two straight-line blocks stand side by side.
pub proof fn lemma_parsed_form_blocks(p: Seq<SpecBlock>)
    ensures
        parsed_form(p) <==> {
            &&& forall|i: int| 0 <= i < p.len() ==> (#[trigger] p[i]).parsed_form()
            &&& forall|i: int|
                0 <= i < p.len() - 1 ==> !(#[trigger] p[i] is Simple && p[i + 1] is Simple)
        },
{
    let b = SpecBlock::Loop(p);
    assert(b->Loop_0 == p);
}

/// Flattening goes block by block.
pub proof fn lemma_flatten_push(p: Seq<SpecBlock>, b: SpecBlock)
    ensures
        flatten(p.push(b)) == flatten(p) + flatten_block(b),
{
    assert(p.push(b).drop_last() == p);
}

/// Placing a plain operation appends it to the flattened program.
pub proof fn lemma_place_flatten(p: Seq<SpecBlock>, t: Op)
    ensures
        flatten(place(p, t)) == flatten(p).push(t),
{
    let q = place(p, t);
    reveal_with_fuel(flatten, 2);
    if p.len() > 0 && p.last() is Simple {
        let ops = p.last()->Simple_0;
        lemma_flatten_push(p.drop_last(), SpecBlock::Simple(ops.push(t)));
        assert(p.last() == SpecBlock::Simple(ops));
        assert(flatten(p) == flatten(p.drop_last()) + ops);
        assert(flatten(q) == flatten(p.drop_last()) + ops.push(t));
        assert(flatten(q) =~= flatten(p).push(t));
    } else {
        lemma_flatten_push(p, SpecBlock::Simple(seq![t]));
        assert(flatten(q) =~= flatten(p).push(t));
    }
}

/// Placing a plain operation keeps the program well formed.
pub proof fn lemma_place_well_formed(p: Seq<SpecBlock>, t: Op)
    requires
        !(t is LBr || t is RBr),
        well_formed(p),
    ensures
        well_formed(place(p, t)),
{
    let q = place(p, t);
    lemma_well_formed_blocks(p);
    lemma_well_formed_blocks(q);
    assert forall|i: int| 0 <= i < q.len() implies (#[trigger] q[i]).well_formed() by {
        if i < q.len() - 1 {
            assert(q[i] == p[i]);
            assert(p[i].well_formed());
        } else if p.len() > 0 && p.last() is Simple {
            assert(p[i].well_formed());
            let ops = p.last()->Simple_0;
            assert(q[i] == SpecBlock::Simple(ops.push(t)));
            assert forall|j: int| 0 <= j < ops.push(t).len() implies !(#[trigger] ops.push(
                t,
            )[j] is LBr || ops.push(t)[j] is RBr) by {
                if j < ops.len() {
                    assert(ops.push(t)[j] == ops[j]);
                }
            }
        } else {
            assert(q[i] == SpecBlock::Simple(seq![t]));
        }
    }
}

/// Placing a plain operation keeps the program in the parser's form.
pub proof fn lemma_place_parsed_form(p: Seq<SpecBlock>, t: Op)
    requires
        parsed_form(p),
    ensures
        parsed_form(place(p, t)),
{
    let q = place(p, t);
    lemma_parsed_form_blocks(p);
    lemma_parsed_form_blocks(q);
    assert forall|i: int| 0 <= i < q.len() implies (#[trigger] q[i]).parsed_form() by {
        if i < q.len() - 1 {
            assert(q[i] == p[i]);
            assert(p[i].parsed_form());
        }
    }
    assert forall|i: int| 0 <= i < q.len() - 1 implies !(#[trigger] q[i] is Simple && q[i
        + 1] is Simple) by {
        if p.len() > 0 && p.last() is Simple {
            assert(q[i] == p[i]);
            assert(!(p[i] is Simple && p[i + 1] is Simple));
        } else if i < p.len() - 1 {
            assert(q[i] == p[i]);
            assert(q[i + 1] == p[i + 1]);
            assert(!(p[i] is Simple && p[i + 1] is Simple));
        } else {
            assert(q[i] == p.last());
        }
    }
}

/// Closing a loop keeps the program below well formed and in the parser's
/// form, and appends the bracketed body to its flattening.
pub proof fn lemma_close(p: Seq<SpecBlock>, body: Seq<SpecBlock>)
    requires
        well_formed(p),
        parsed_form(p),
        well_formed(body),
        parsed_form(body),
    ensures
        flatten(p.push(SpecBlock::Loop(body))) == flatten(p) + seq![Op::LBr] + flatten(body)
            + seq![Op::RBr],
        well_formed(p.push(SpecBlock::Loop(body))),
        parsed_form(p.push(SpecBlock::Loop(body))),
{
    let q = p.push(SpecBlock::Loop(body));
    reveal_with_fuel(flatten, 2);
    lemma_well_formed_blocks(p);
    lemma_well_formed_blocks(q);
    lemma_parsed_form_blocks(p);
    lemma_parsed_form_blocks(q);
    lemma_flatten_push(p, SpecBlock::Loop(body));
    assert(flatten(q) =~= flatten(p) + seq![Op::LBr] + flatten(body) + seq![Op::RBr]);
    assert forall|i: int| 0 <= i < q.len() implies (#[trigger] q[i]).well_formed() by {
        if i < p.len() {
            assert(q[i] == p[i]);
        }
    }
    assert forall|i: int| 0 <= i < q.len() implies (#[trigger] q[i]).parsed_form() by {
        if i < p.len() {
            assert(q[i] == p[i]);
        }
    }
    assert forall|i: int| 0 <= i < q.len() - 1 implies !(#[trigger] q[i] is Simple && q[i
        + 1] is Simple) by {
        if i < p.len() - 1 {
            assert(q[i] == p[i]);
            assert(q[i + 1] == p[i + 1]);
            assert(!(p[i] is Simple && p[i + 1] is Simple));
        }
    }
}

/// A stream closes early exactly when it does so before its last token or
/// its own depth is negative.
pub proof fn lemma_closes_early_push(tokens: Seq<Op>, t: Op)
    ensures
        closes_early(tokens.push(t)) <==> closes_early(tokens) || depth(tokens.push(t)) < 0,
{
    let more = tokens.push(t);
    assert(more.take(more.len() as int) == more);
    if closes_early(tokens) {
        let k = choose|k: int| 0 <= k <= tokens.len() && #[trigger] depth(tokens.take(k)) < 0;
        assert(more.take(k) == tokens.take(k));
    }
    if closes_early(more) {
        let k = choose|k: int| 0 <= k <= more.len() && #[trigger] depth(more.take(k)) < 0;
        if k <= tokens.len() {
            assert(more.take(k) == tokens.take(k));
        }
    }
}

/// What holds of the parser's state after any token stream: without an error
/// the stack reads back as the tokens taken, its height is their depth plus
/// one and no prefix closed early; the only error met on the way is an early
/// close, and it is met exactly when a prefix closes early.
pub proof fn lemma_run(tokens: Seq<Op>)
    ensures
        run(tokens).stack.len() >= 1,
        run(tokens).err is None ==> {
            &&& !closes_early(tokens)
            &&& run(tokens).stack.len() == depth(tokens) + 1
            &&& unwind(run(tokens).stack) == tokens
            &&& stack_ok(run(tokens).stack)
        },
        run(tokens).err is Some ==> {
            &&& run(tokens).err == Some(ParseError::UnbalancedClose)
            &&& closes_early(tokens)
        },
    decreases tokens.len(),
{
    if tokens.len() == 0 {
        assert(unwind(start().stack) =~= tokens);
        assert(start().stack[0] =~= Seq::<SpecBlock>::empty());
        if closes_early(tokens) {
            let k = choose|k: int| 0 <= k <= tokens.len() && #[trigger] depth(tokens.take(k)) < 0;
            assert(tokens.take(k) =~= tokens);
        }
    } else {
        let head = tokens.drop_last();
        let t = tokens.last();
        lemma_run(head);
        assert(head.push(t) == tokens);
        lemma_closes_early_push(head, t);
        let s = run(head);
        let s2 = step(s, t);
        if s.err is None {
            let top = s.stack.last();
            assert(well_formed(top) && parsed_form(top));
            match t {
                Op::LBr => {
                    assert(s2.stack.drop_last() == s.stack);
                    assert(unwind(s2.stack) =~= tokens);
                    assert forall|i: int| 0 <= i < s2.stack.len() implies well_formed(
                        #[trigger] s2.stack[i],
                    ) && parsed_form(s2.stack[i]) by {
                        if i < s.stack.len() {
                            assert(s2.stack[i] == s.stack[i]);
                        }
                    }
                },
                Op::RBr => {
                    if s.stack.len() > 1 {
                        let below = s.stack.drop_last();
                        let under = below.last();
                        assert(under == s.stack[s.stack.len() - 2]);
                        assert(well_formed(under) && parsed_form(under));
                        lemma_close(under, top);
                        let closed = under.push(SpecBlock::Loop(top));
                        assert(s2.stack == below.drop_last().push(closed));
                        assert(s2.stack.drop_last() == below.drop_last());
                        if below.len() == 1 {
                            assert(unwind(below) == flatten(under));
                            assert(unwind(s2.stack) == flatten(closed));
                        } else {
                            assert(unwind(below) == unwind(below.drop_last()) + seq![Op::LBr]
                                + flatten(under));
                            assert(unwind(s2.stack) == unwind(below.drop_last()) + seq![Op::LBr]
                                + flatten(closed));
                        }
                        assert(unwind(s.stack) == unwind(below) + seq![Op::LBr] + flatten(top));
                        assert(unwind(s2.stack) =~= tokens);
                        assert forall|i: int| 0 <= i < s2.stack.len() implies well_formed(
                            #[trigger] s2.stack[i],
                        ) && parsed_form(s2.stack[i]) by {
                            if i < s2.stack.len() - 1 {
                                assert(s2.stack[i] == s.stack[i]);
                            }
                        }
                    }
                },
                _ => {
                    lemma_place_flatten(top, t);
                    lemma_place_well_formed(top, t);
                    lemma_place_parsed_form(top, t);
                    let placed = place(top, t);
                    assert(s2.stack == s.stack.drop_last().push(placed));
                    assert(s2.stack.drop_last() == s.stack.drop_last());
                    assert(unwind(s2.stack) =~= tokens);
                    assert forall|i: int| 0 <= i < s2.stack.len() implies well_formed(
                        #[trigger] s2.stack[i],
                    ) && parsed_form(s2.stack[i]) by {
                        if i < s2.stack.len() - 1 {
                            assert(s2.stack[i] == s.stack[i]);
                        }
                    }
                },
            }
        }
    }
}

/// Parsing a balanced token stream succeeds, and flattening the program
/// gives the tokens back. The program is well formed and in the parser's
/// form.
pub proof fn lemma_parse_round_trip(tokens: Seq<Op>)
    requires
        balanced(tokens),
    ensures
        parsed(tokens) is Ok,
        flatten(parsed(tokens)->Ok_0) == tokens,
        well_formed(parsed(tokens)->Ok_0),
        parsed_form(parsed(tokens)->Ok_0),
{
    lemma_run(tokens);
}

/// Parsing a token stream that is not balanced fails: with an early close
/// where some prefix closes more loops than it opens, with an unclosed loop
/// otherwise.
pub proof fn lemma_parse_rejects_unbalanced(tokens: Seq<Op>)
    requires
        !balanced(tokens),
    ensures
        parsed(tokens) is Err,
        parsed(tokens)->Err_0 == if closes_early(tokens) {
            ParseError::UnbalancedClose
        } else {
            ParseError::UnclosedLoop
        },
{
    lemma_run(tokens);
}

/// Parsing succeeds on the balanced streams and on no others.
pub proof fn lemma_parse_ok_iff_balanced(tokens: Seq<Op>)
    ensures
        parsed(tokens) is Ok <==> balanced(tokens),
{
    lemma_run(tokens);
}

} // verus!
