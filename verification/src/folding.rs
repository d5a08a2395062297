//! What holds of the lexer's output, and the text that an output stands for.

use vstd::prelude::*;
use crate::lexer::{lex, lex_onto, squashed, Op};

verus! {

/// No two neighbours are reducible operations of one tag.
pub open spec fn folded(ops: Seq<Op>) -> bool {
    forall|i: int|
        0 <= i < ops.len() - 1 ==> !((#[trigger] ops[i]).reducible() && ops[i].same_tag(ops[i + 1]))
}

/// No reducible operation has payload zero.
pub open spec fn nonzero(ops: Seq<Op>) -> bool {
    forall|i: int| 0 <= i < ops.len() ==> ((#[trigger] ops[i]).reducible() ==> ops[i].payload() != 0)
}

/// Whether a character is one of the eight instructions.
pub open spec fn is_source(c: char) -> bool {
    Op::of_char(c) is Some
}

/// The instructions of a text, in order, without the comments.
pub open spec fn source_only(text: Seq<char>) -> Seq<char>
    decreases text.len(),
{
    if text.len() == 0 {
        Seq::empty()
    } else if is_source(text.last()) {
        source_only(text.drop_last()).push(text.last())
    } else {
        source_only(text.drop_last())
    }
}

/// `k` times the character `c`.
pub open spec fn run_of(c: char, k: int) -> Seq<char> {
    Seq::new(
        if k < 0 {
            0nat
        } else {
            k as nat
        },
        |i: int| c,
    )
}

/// The source text of one operation, its run written out.
pub open spec fn expanded(op: Op) -> Seq<char> {
    match op {
        Op::Modify(x) => if x >= 0 {
            run_of('+', x as int)
        } else {
            run_of('-', -(x as int))
        },
        Op::Move(x) => if x >= 0 {
            run_of('>', x as int)
        } else {
            run_of('<', -(x as int))
        },
        Op::Outp(x) => run_of('.', x as int),
        Op::Inp(x) => run_of(',', x as int),
        Op::LBr => seq!['['],
        Op::RBr => seq![']'],
    }
}

/// The source text of a sequence of operations, runs written out.
pub open spec fn rendered(ops: Seq<Op>) -> Seq<char>
    decreases ops.len(),
{
    if ops.len() == 0 {
        Seq::empty()
    } else {
        rendered(ops.drop_last()) + expanded(ops.last())
    }
}

/// One step of the fold keeps the output folded.
pub proof fn lemma_squashed_folded(acc: Seq<Op>, next: Op)
    requires
        folded(acc),
    ensures
        folded(squashed(acc, next)),
{
    let out = squashed(acc, next);
    assert forall|i: int| 0 <= i < out.len() - 1 implies !((#[trigger] out[i]).reducible()
        && out[i].same_tag(out[i + 1])) by {
        if acc.len() > 0 && acc.last().reducible() && acc.last().same_tag(next) {
            assert(out[i] == acc[i]);
            assert(!(acc[i].reducible() && acc[i].same_tag(acc[i + 1])));
        } else if i < acc.len() - 1 {
            assert(out[i] == acc[i]);
            assert(out[i + 1] == acc[i + 1]);
            assert(!(acc[i].reducible() && acc[i].same_tag(acc[i + 1])));
        }
    }
}

/// Folding more text onto a folded output gives a folded output.
pub proof fn lemma_lex_onto_folded(acc: Seq<Op>, text: Seq<char>)
    requires
        folded(acc),
    ensures
        folded(lex_onto(acc, text)),
    decreases text.len(),
{
    if text.len() > 0 {
        lemma_lex_onto_folded(acc, text.drop_last());
        match Op::of_char(text.last()) {
            Some(op) => lemma_squashed_folded(lex_onto(acc, text.drop_last()), op),
            None => {},
        }
    }
}

/// The output of the lexer holds no pair of adjacent reducible operations
/// with the same tag, whatever the input.
pub proof fn lemma_lex_folded(text: Seq<char>)
    ensures
        folded(lex(text)),
{
    lemma_lex_onto_folded(Seq::empty(), text);
}

/// The lexer sees only the instructions of a text.
pub proof fn lemma_lex_onto_source_only(acc: Seq<Op>, text: Seq<char>)
    ensures
        lex_onto(acc, text) == lex_onto(acc, source_only(text)),
    decreases text.len(),
{
    if text.len() > 0 {
        lemma_lex_onto_source_only(acc, text.drop_last());
        if is_source(text.last()) {
            let kept = source_only(text.drop_last()).push(text.last());
            assert(kept.drop_last() == source_only(text.drop_last()));
        }
    }
}

/// The output of the lexer depends only on the subsequence of instruction
/// characters of the input: two texts with the same instructions in the
/// same order lex to the same output.
pub proof fn lemma_lex_ignores_comments(a: Seq<char>, b: Seq<char>)
    requires
        source_only(a) == source_only(b),
    ensures
        lex(a) == lex(b),
{
    lemma_lex_onto_source_only(Seq::empty(), a);
    lemma_lex_onto_source_only(Seq::empty(), b);
}

/// Folding a text in two parts is folding it at once.
pub proof fn lemma_lex_onto_concat(acc: Seq<Op>, s: Seq<char>, t: Seq<char>)
    ensures
        lex_onto(acc, s + t) == lex_onto(lex_onto(acc, s), t),
    decreases t.len(),
{
    if t.len() == 0 {
        assert(s + t == s);
    } else {
        lemma_lex_onto_concat(acc, s, t.drop_last());
        assert((s + t).drop_last() == s + t.drop_last());
    }
}

/// The operation that `k` units `unit` fold to, where `unit` is what one
/// instruction character stands for.
pub open spec fn scaled(unit: Op, k: int) -> Op {
    match unit {
        Op::Modify(x) => if x >= 0 {
            Op::Modify(k as i16)
        } else {
            Op::Modify((-k) as i16)
        },
        Op::Move(x) => if x >= 0 {
            Op::Move(k as i16)
        } else {
            Op::Move((-k) as i16)
        },
        Op::Outp(_) => Op::Outp(k as u16),
        Op::Inp(_) => Op::Inp(k as u16),
        _ => unit,
    }
}

/// The longest run of `unit` that folds without wrapping.
pub open spec fn longest(unit: Op) -> int {
    match unit {
        Op::Modify(x) => if x >= 0 {
            32767
        } else {
            32768
        },
        Op::Move(x) => if x >= 0 {
            32767
        } else {
            32768
        },
        _ => 65535,
    }
}

/// A run of one reducible instruction, after an output that does not end
/// in an operation of its tag, folds to one operation with the run's length.
pub proof fn lemma_run_folds(acc: Seq<Op>, c: char, k: int)
    requires
        Op::of_char(c) is Some,
        Op::of_char(c)->Some_0.reducible(),
        1 <= k <= longest(Op::of_char(c)->Some_0),
        acc.len() == 0 || !(acc.last().reducible() && acc.last().same_tag(Op::of_char(c)->Some_0)),
    ensures
        lex_onto(acc, run_of(c, k)) == acc.push(scaled(Op::of_char(c)->Some_0, k)),
    decreases k,
{
    let unit = Op::of_char(c)->Some_0;
    let text = run_of(c, k);
    assert(text.last() == c);
    assert(text.drop_last() =~= run_of(c, k - 1));
    if k == 1 {
        assert(lex_onto(acc, run_of(c, 0)) == acc);
        assert(squashed(acc, unit) == acc.push(unit));
        assert(scaled(unit, 1) == unit);
    } else {
        lemma_run_folds(acc, c, k - 1);
        let before = acc.push(scaled(unit, k - 1));
        assert(before.last() == scaled(unit, k - 1));
        assert(before.drop_last() == acc);
        assert(scaled(unit, k - 1).merged(unit) == scaled(unit, k));
    }
}

/// The text of one operation, after an output that does not end in a
/// reducible operation of its tag, folds to that operation.
pub proof fn lemma_expanded_folds(acc: Seq<Op>, op: Op)
    requires
        op.reducible() ==> op.payload() != 0,
        acc.len() == 0 || !(acc.last().reducible() && acc.last().same_tag(op)),
    ensures
        lex_onto(acc, expanded(op)) == acc.push(op),
{
    match op {
        Op::Modify(x) => {
            if x >= 0 {
                lemma_run_folds(acc, '+', x as int);
            } else {
                lemma_run_folds(acc, '-', -(x as int));
            }
        },
        Op::Move(x) => {
            if x >= 0 {
                lemma_run_folds(acc, '>', x as int);
            } else {
                lemma_run_folds(acc, '<', -(x as int));
            }
        },
        Op::Outp(x) => {
            lemma_run_folds(acc, '.', x as int);
        },
        Op::Inp(x) => {
            lemma_run_folds(acc, ',', x as int);
        },
        Op::LBr => {
            let text = seq!['['];
            assert(text.drop_last() =~= Seq::<char>::empty());
            assert(lex_onto(acc, text.drop_last()) == acc);
        },
        Op::RBr => {
            let text = seq![']'];
            assert(text.drop_last() =~= Seq::<char>::empty());
            assert(lex_onto(acc, text.drop_last()) == acc);
        },
    }
}

/// Lexing the text of a folded output without zero payloads gives that
/// output back.
pub proof fn lemma_lex_rendered(ops: Seq<Op>)
    requires
        folded(ops),
        nonzero(ops),
    ensures
        lex(rendered(ops)) == ops,
    decreases ops.len(),
{
    if ops.len() == 0 {
        assert(lex(rendered(ops)) =~= ops);
    } else {
        let head = ops.drop_last();
        assert forall|i: int| 0 <= i < head.len() - 1 implies !((#[trigger] head[i]).reducible()
            && head[i].same_tag(head[i + 1])) by {
            assert(head[i] == ops[i]);
            assert(head[i + 1] == ops[i + 1]);
        }
        assert forall|i: int| 0 <= i < head.len() && (#[trigger] head[i]).reducible() implies head[i].payload()
            != 0 by {
            assert(head[i] == ops[i]);
        }
        lemma_lex_rendered(head);
        lemma_lex_onto_concat(Seq::empty(), rendered(head), expanded(ops.last()));
        if head.len() > 0 {
            let i = head.len() - 1;
            assert(!(ops[i].reducible() && ops[i].same_tag(ops[i + 1])));
            assert(head.last() == ops[i]);
        }
        assert(ops[ops.len() - 1].reducible() ==> ops[ops.len() - 1].payload() != 0);
        lemma_expanded_folds(head, ops.last());
        assert(head.push(ops.last()) =~= ops);
    }
}

/// Lexing is idempotent through the text: lexing the rendering of what a
/// text lexes to gives the same output again, as long as no run of the
/// output has cancelled or wrapped to payload zero. Such an operation has
/// no text, so the rendering loses it.
pub proof fn lemma_lex_idempotent(text: Seq<char>)
    requires
        nonzero(lex(text)),
    ensures
        lex(rendered(lex(text))) == lex(text),
{
    lemma_lex_folded(text);
    lemma_lex_rendered(lex(text));
}

/// Whether an operation has any text: a reducible operation with payload
/// zero has none.
pub open spec fn visible(op: Op) -> bool {
    !op.reducible() || op.payload() != 0
}

/// The number of operations that have text.
pub open spec fn count_visible(ops: Seq<Op>) -> nat
    decreases ops.len(),
{
    if ops.len() == 0 {
        0
    } else if visible(ops.last()) {
        count_visible(ops.drop_last()) + 1
    } else {
        count_visible(ops.drop_last())
    }
}

/// There are no more operations with text than operations, and fewer if
/// one has none.
pub proof fn lemma_count_visible(ops: Seq<Op>)
    ensures
        count_visible(ops) <= ops.len(),
        !nonzero(ops) ==> count_visible(ops) < ops.len(),
    decreases ops.len(),
{
    if ops.len() > 0 {
        let head = ops.drop_last();
        lemma_count_visible(head);
        if !nonzero(ops) && visible(ops.last()) {
            assert(!nonzero(head)) by {
                if nonzero(head) {
                    assert forall|i: int| 0 <= i < ops.len() && (#[trigger] ops[i]).reducible() implies ops[i].payload()
                        != 0 by {
                        if i < head.len() {
                            assert(head[i] == ops[i]);
                        }
                    }
                }
            }
        }
    }
}

/// A run of one instruction adds one operation at most, and none where the
/// output already ends in a reducible operation of its kind.
pub proof fn lemma_run_adds_one(acc: Seq<Op>, c: char, k: int)
    requires
        Op::of_char(c) is Some,
        k >= 1,
    ensures
        lex_onto(acc, run_of(c, k)).len() <= acc.len() + if Op::of_char(c)->Some_0.reducible() {
            1int
        } else {
            k
        },
        lex_onto(acc, run_of(c, k)).len() >= 1,
        lex_onto(acc, run_of(c, k)).last().same_tag(Op::of_char(c)->Some_0),
    decreases k,
{
    let text = run_of(c, k);
    assert(text.last() == c);
    assert(text.drop_last() =~= run_of(c, k - 1));
    if k == 1 {
        assert(lex_onto(acc, run_of(c, 0)) == acc);
    } else {
        lemma_run_adds_one(acc, c, k - 1);
    }
}

/// Lexing the text of any operations gives no more operations than have
/// text.
pub proof fn lemma_lex_rendered_len(ops: Seq<Op>)
    ensures
        lex(rendered(ops)).len() <= count_visible(ops),
    decreases ops.len(),
{
    if ops.len() > 0 {
        let head = ops.drop_last();
        lemma_lex_rendered_len(head);
        lemma_lex_onto_concat(Seq::empty(), rendered(head), expanded(ops.last()));
        let before = lex(rendered(head));
        match ops.last() {
            Op::Modify(x) => {
                if x > 0 {
                    lemma_run_adds_one(before, '+', x as int);
                } else if x < 0 {
                    lemma_run_adds_one(before, '-', -(x as int));
                } else {
                    assert(lex_onto(before, run_of('+', 0)) == before);
                }
            },
            Op::Move(x) => {
                if x > 0 {
                    lemma_run_adds_one(before, '>', x as int);
                } else if x < 0 {
                    lemma_run_adds_one(before, '<', -(x as int));
                } else {
                    assert(lex_onto(before, run_of('>', 0)) == before);
                }
            },
            Op::Outp(x) => {
                if x > 0 {
                    lemma_run_adds_one(before, '.', x as int);
                } else {
                    assert(lex_onto(before, run_of('.', 0)) == before);
                }
            },
            Op::Inp(x) => {
                if x > 0 {
                    lemma_run_adds_one(before, ',', x as int);
                } else {
                    assert(lex_onto(before, run_of(',', 0)) == before);
                }
            },
            Op::LBr => {
                assert(seq!['['] =~= run_of('[', 1));
                lemma_run_adds_one(before, '[', 1);
            },
            Op::RBr => {
                assert(seq![']'] =~= run_of(']', 1));
                lemma_run_adds_one(before, ']', 1);
            },
        }
    }
}

/// An output with an operation of payload zero does not come back from its
/// text: that operation has no text, so lexing the text gives fewer
/// operations. These are the only outputs that lexing their rendering
/// does not reproduce.
pub proof fn lemma_zero_payload_is_lost(ops: Seq<Op>)
    requires
        !nonzero(ops),
    ensures
        lex(rendered(ops)) != ops,
{
    lemma_lex_rendered_len(ops);
    lemma_count_visible(ops);
}

/// Appends `k` times the one character of `piece` to `out`.
fn push_run(out: &mut String, piece: &str, c: char, k: u32)
    requires
        piece@ == seq![c],
    ensures
        final(out)@ == old(out)@ + run_of(c, k as int),
{
    let mut done: u32 = 0;
    assert(out@ =~= old(out)@ + run_of(c, 0));
    while done < k
        invariant
            done <= k,
            piece@ == seq![c],
            out@ == old(out)@ + run_of(c, done as int),
        decreases k - done,
    {
        let ghost before = out@;
        out.append(piece);
        done += 1;
        assert(out@ =~= old(out)@ + run_of(c, done as int));
    }
}

/// The source text of a sequence of operations, with every run written
/// out: `Modify(3)` gives `+++`, `Move(-2)` gives `<<`.
pub fn render(ops: &Vec<Op>) -> (r: String)
    ensures
        r@ == rendered(ops@),
{
    let mut out = String::new();
    let n = ops.len();
    let mut i: usize = 0;
    proof {
        reveal_strlit("+");
        reveal_strlit("-");
        reveal_strlit(">");
        reveal_strlit("<");
        reveal_strlit(".");
        reveal_strlit(",");
        reveal_strlit("[");
        reveal_strlit("]");
    }
    while i < n
        invariant
            n == ops@.len(),
            i <= n,
            out@ == rendered(ops@.take(i as int)),
            "+"@ == seq!['+'],
            "-"@ == seq!['-'],
            ">"@ == seq!['>'],
            "<"@ == seq!['<'],
            "."@ == seq!['.'],
            ","@ == seq![','],
            "["@ == seq!['['],
            "]"@ == seq![']'],
        decreases n - i,
    {
        proof {
            assert(ops@.take(i + 1).drop_last() == ops@.take(i as int));
        }
        match ops[i] {
            Op::Modify(x) => {
                if x >= 0 {
                    push_run(&mut out, "+", '+', x as u32);
                } else {
                    push_run(&mut out, "-", '-', (-(x as i32)) as u32);
                }
            },
            Op::Move(x) => {
                if x >= 0 {
                    push_run(&mut out, ">", '>', x as u32);
                } else {
                    push_run(&mut out, "<", '<', (-(x as i32)) as u32);
                }
            },
            Op::Outp(x) => {
                push_run(&mut out, ".", '.', x as u32);
            },
            Op::Inp(x) => {
                push_run(&mut out, ",", ',', x as u32);
            },
            Op::LBr => {
                out.append("[");
            },
            Op::RBr => {
                out.append("]");
            },
        }
        i += 1;
    }
    proof {
        assert(ops@.take(n as int) == ops@);
    }
    out
}

} // verus!
