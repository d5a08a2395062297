//! The optimizer preserves the meaning of programs.

use vstd::prelude::*;
use crate::lexer::Op;
use crate::optimizations::multiply::{
    delta, factors, lemma_delta_beyond_reach, lemma_reach, linear, multiply_rewrite, net_move, plain,
    reach, MAX_REACH,
};
use crate::optimizations::reset_val::{countdown_loop, reset_rewrite};
use crate::optimizer::{first_rewrite, optimized, optimized_block, standard_passes};
use crate::optimizations::base::Optimization;
use crate::balance::lemma_well_formed_blocks;
use crate::optimizations::multiply::lemma_factors;
use crate::lexer::lex;
use crate::parser::{parsed, well_formed, SpecBlock};
use crate::semantics::{ends_in, run, run_block, wrap, Machine};

verus! {

/// A value and what it wraps to differ by a whole multiple of the modulus,
/// which the lemma hands out, and what it wraps to is a 32-bit signed value.
pub proof fn lemma_wrap_witness(x: int) -> (k: int)
    ensures
        x == wrap(x) + 0x1_0000_0000 * k,
        -0x8000_0000 <= wrap(x) < 0x8000_0000,
{
    reveal(wrap);
    vstd::arithmetic::div_mod::lemma_fundamental_div_mod(x, 0x1_0000_0000);
    let r = x % 0x1_0000_0000;
    if r >= 0x8000_0000 {
        x / 0x1_0000_0000 + 1
    } else {
        x / 0x1_0000_0000
    }
}

/// The one 32-bit signed value that differs from `x` by a whole multiple of
/// the modulus is what `x` wraps to.
pub proof fn lemma_wrap_unique(x: int, y: int, k: int)
    requires
        x == y + 0x1_0000_0000 * k,
        -0x8000_0000 <= y < 0x8000_0000,
    ensures
        wrap(x) == y,
{
    reveal(wrap);
    vstd::arithmetic::div_mod::lemma_mod_multiples_vanish(k, y, 0x1_0000_0000);
    if y >= 0 {
        vstd::arithmetic::div_mod::lemma_small_mod(y as nat, 0x1_0000_0000);
    } else {
        vstd::arithmetic::div_mod::lemma_mod_multiples_vanish(1, y, 0x1_0000_0000);
        vstd::arithmetic::div_mod::lemma_small_mod((y + 0x1_0000_0000) as nat, 0x1_0000_0000);
    }
}

/// Wrapping gives a 32-bit signed value and leaves such a value alone.
pub proof fn lemma_wrap(x: int)
    ensures
        -0x8000_0000 <= wrap(x) < 0x8000_0000,
        -0x8000_0000 <= x < 0x8000_0000 ==> wrap(x) == x,
        wrap(wrap(x)) == wrap(x),
        wrap(x) == x ==> -0x8000_0000 <= x < 0x8000_0000,
{
    let k = lemma_wrap_witness(x);
    if -0x8000_0000 <= x < 0x8000_0000 {
        lemma_wrap_unique(x, x, 0);
    }
    lemma_wrap_unique(wrap(x), wrap(x), 0);
}

/// Wrapping a summand first changes nothing.
pub proof fn lemma_wrap_add(a: int, b: int)
    ensures
        wrap(wrap(a) + b) == wrap(a + b),
        wrap(a + wrap(b)) == wrap(a + b),
{
    let ka = lemma_wrap_witness(a);
    let kb = lemma_wrap_witness(b);
    let k = lemma_wrap_witness(a + b);
    lemma_wrap_unique(wrap(a) + b, wrap(a + b), k - ka);
    lemma_wrap_unique(a + wrap(b), wrap(a + b), k - kb);
}

/// Whole multiples of the modulus vanish.
pub proof fn lemma_wrap_period(x: int, k: int)
    ensures
        wrap(x + 0x1_0000_0000 * k) == wrap(x),
{
    let j = lemma_wrap_witness(x);
    lemma_wrap_unique(x + 0x1_0000_0000 * k, wrap(x), j + k);
}

/// The cell at a 32-bit offset from a position lies at that offset.
pub proof fn lemma_offset_of_cell(pos: int, c: int)
    requires
        -0x8000_0000 <= c < 0x8000_0000,
    ensures
        wrap(wrap(pos + c) - pos) == c,
{
    let k = lemma_wrap_witness(pos + c);
    lemma_wrap_unique(wrap(pos + c) - pos, c, -k);
}

/// A cell lies at its offset from a position.
pub proof fn lemma_cell_of_offset(pos: int, q: int)
    requires
        wrap(q) == q,
    ensures
        wrap(pos + wrap(q - pos)) == q,
{
    let k = lemma_wrap_witness(q - pos);
    lemma_wrap(q);
    lemma_wrap_unique(pos + wrap(q - pos), q, -k);
}

/// More fuel changes no result.
pub proof fn lemma_more_fuel_block(block: SpecBlock, m: Machine, fuel: nat, more: nat)
    requires
        run_block(block, m, fuel) is Some,
        fuel <= more,
    ensures
        run_block(block, m, more) == run_block(block, m, fuel),
    decreases fuel, block,
{
    match block {
        SpecBlock::Loop(body) => {
            if m.cell() != 0 {
                lemma_more_fuel(body, m, (fuel - 1) as nat, (more - 1) as nat);
                let next = run(body, m, (fuel - 1) as nat)->Some_0;
                lemma_more_fuel_block(block, next, (fuel - 1) as nat, (more - 1) as nat);
            }
        },
        _ => {},
    }
}

/// More fuel changes no result.
pub proof fn lemma_more_fuel(p: Seq<SpecBlock>, m: Machine, fuel: nat, more: nat)
    requires
        run(p, m, fuel) is Some,
        fuel <= more,
    ensures
        run(p, m, more) == run(p, m, fuel),
    decreases fuel, p,
{
    if p.len() > 0 {
        lemma_more_fuel(p.drop_last(), m, fuel, more);
        let next = run(p.drop_last(), m, fuel)->Some_0;
        lemma_more_fuel_block(p.last(), next, fuel, more);
    }
}

/// The machine in which a plain body has run `n` times from `m` and the
/// position has come back: every cell has grown by `n` times what one run
/// adds to it.
pub open spec fn shifted(m: Machine, ops: Seq<Op>, n: int) -> Machine {
    Machine {
        tape: |q: int|
            if wrap(q) == q {
                wrap((m.tape)(q) + n * delta(ops, wrap(q - m.pos)))
            } else {
                (m.tape)(q)
            },
        pos: m.pos,
        input: m.input,
        output: m.output,
    }
}

/// A prefix of a plain body is plain.
pub proof fn lemma_plain_head(ops: Seq<Op>)
    requires
        plain(ops),
        ops.len() > 0,
    ensures
        plain(ops.drop_last()),
        ops.last() is Move || ops.last() is Modify,
{
    let head = ops.drop_last();
    assert forall|i: int| 0 <= i < head.len() implies (#[trigger] head[i] is Move
        || head[i] is Modify) by {
        assert(head[i] == ops[i]);
    }
    assert(ops[ops.len() - 1] is Move || ops[ops.len() - 1] is Modify);
}

/// What a plain body does to a machine: the position moves by the net
/// movement, each cell grows by what the body adds at its offset, and
/// nothing is read or written.
pub proof fn lemma_plain_steps(m: Machine, ops: Seq<Op>)
    requires
        m.valid(),
        plain(ops),
        reach(ops) <= MAX_REACH,
    ensures
        m.steps(ops).pos == wrap(m.pos + net_move(ops)),
        m.steps(ops).tape == shifted(m, ops, 1).tape,
        m.steps(ops).input == m.input,
        m.steps(ops).output == m.output,
        m.steps(ops).valid(),
    decreases ops.len(),
{
    let want = shifted(m, ops, 1).tape;
    if ops.len() == 0 {
        lemma_wrap(m.pos);
        assert forall|q: int| (m.steps(ops).tape)(q) == #[trigger] want(q) by {
            assert(wrap((m.tape)(q)) == (m.tape)(q));
        }
        assert(m.steps(ops).tape =~= want);
    } else {
        let head = ops.drop_last();
        lemma_plain_head(ops);
        lemma_reach(ops, ops.len() - 1);
        assert(ops.take(ops.len() - 1) == head);
        lemma_plain_steps(m, head);
        let mh = m.steps(head);
        let c = net_move(head);
        match ops.last() {
            Op::Move(x) => {
                lemma_wrap_add(m.pos + c, x as int);
                lemma_wrap(mh.pos + x);
                assert forall|q: int| (m.steps(ops).tape)(q) == #[trigger] want(q) by {
                    assert(delta(ops, wrap(q - m.pos)) == delta(head, wrap(q - m.pos)));
                }
                assert(m.steps(ops).tape =~= want);
            },
            Op::Modify(x) => {
                let p = mh.pos;
                lemma_wrap(m.pos + c);
                lemma_offset_of_cell(m.pos, c);
                assert forall|q: int| (m.steps(ops).tape)(q) == #[trigger] want(q) by {
                    if q == p {
                        assert(delta(ops, c) == delta(head, c) + x);
                        lemma_wrap_add((m.tape)(q) + delta(head, c), x as int);
                    } else {
                        if wrap(q) == q {
                            lemma_cell_of_offset(m.pos, q);
                            assert(delta(ops, wrap(q - m.pos)) == delta(head, wrap(q - m.pos)));
                        }
                    }
                }
                assert(m.steps(ops).tape =~= want);
                assert forall|q: int| wrap(#[trigger] (m.steps(ops).tape)(q)) == (m.steps(
                    ops,
                ).tape)(q) by {
                    if q == p {
                        lemma_wrap((mh.tape)(p) + x);
                    }
                }
            },
            _ => {},
        }
    }
}

/// How often a loop runs that takes one from the cell it tests, when that
/// cell holds `b`: `b` itself, or, from a negative `b`, down through the
/// wrap to zero.
pub open spec fn rounds(b: int) -> int {
    if b >= 0 {
        b
    } else {
        b + 0x1_0000_0000
    }
}

/// The loop of one straight-line block.
pub open spec fn simple_loop(ops: Seq<Op>) -> SpecBlock {
    SpecBlock::Loop(seq![SpecBlock::Simple(ops)])
}

/// A machine in which a plain body has run some rounds is valid.
pub proof fn lemma_shifted_valid(m: Machine, ops: Seq<Op>, n: int)
    requires
        m.valid(),
    ensures
        shifted(m, ops, n).valid(),
{
    let s = shifted(m, ops, n);
    assert forall|q: int| wrap(#[trigger] (s.tape)(q)) == (s.tape)(q) by {
        if wrap(q) == q {
            lemma_wrap((m.tape)(q) + n * delta(ops, wrap(q - m.pos)));
        } else {
            assert(wrap((m.tape)(q)) == (m.tape)(q));
        }
    }
}

/// No round at all changes nothing.
pub proof fn lemma_shifted_zero(m: Machine, ops: Seq<Op>)
    requires
        m.valid(),
    ensures
        shifted(m, ops, 0) == m,
{
    let s = shifted(m, ops, 0);
    assert forall|q: int| #[trigger] (s.tape)(q) == (m.tape)(q) by {
        assert(wrap((m.tape)(q)) == (m.tape)(q));
        assert(0 * delta(ops, wrap(q - m.pos)) == 0);
    }
    assert(s.tape =~= m.tape);
    assert(s =~= m);
}

/// One more run of a body that comes back to where it started is one more
/// round.
pub proof fn lemma_shifted_step(m: Machine, ops: Seq<Op>, n: int)
    requires
        m.valid(),
        plain(ops),
        reach(ops) <= MAX_REACH,
        net_move(ops) == 0,
    ensures
        shifted(m, ops, n).steps(ops) == shifted(m, ops, n + 1),
{
    let s = shifted(m, ops, n);
    lemma_shifted_valid(m, ops, n);
    lemma_plain_steps(s, ops);
    let got = s.steps(ops);
    let want = shifted(m, ops, n + 1);
    lemma_wrap(m.pos);
    assert(got.pos == want.pos);
    assert forall|q: int| #[trigger] (got.tape)(q) == (want.tape)(q) by {
        assert((got.tape)(q) == (shifted(s, ops, 1).tape)(q));
        if wrap(q) == q {
            let d = delta(ops, wrap(q - m.pos));
            let t = (m.tape)(q);
            assert(1 * d == d);
            assert((n + 1) * d == n * d + d) by (nonlinear_arith);
            lemma_wrap_add(t + n * d, d);
        }
    }
    assert(got.tape =~= want.tape);
    assert(got =~= want);
}

/// A value below the modulus wraps to zero only if it is zero.
pub proof fn lemma_wrap_zero(v: int)
    requires
        0 <= v < 0x1_0000_0000,
    ensures
        wrap(v) == 0 <==> v == 0,
{
    let k = lemma_wrap_witness(v);
    lemma_wrap(0);
}

/// The cell that a linear loop tests holds, after `n` rounds, what is left
/// of the rounds to go.
pub proof fn lemma_shifted_cell(m: Machine, ops: Seq<Op>, n: int)
    requires
        m.valid(),
        delta(ops, 0) == -1,
    ensures
        shifted(m, ops, n).cell() == wrap(rounds(m.cell()) - n),
{
    lemma_wrap(0);
    lemma_wrap(m.pos);
    assert(wrap(m.pos - m.pos) == 0);
    let b = m.cell();
    assert(n * delta(ops, 0) == -n);
    if b >= 0 {
    } else {
        lemma_wrap_period(b - n, 1);
    }
}

/// A linear loop, after `n` of its rounds, ends after the rounds that are
/// left, in the machine of all rounds.
pub proof fn lemma_linear_loop_from(m: Machine, ops: Seq<Op>, n: int)
    requires
        m.valid(),
        linear(ops),
        0 <= n <= rounds(m.cell()),
    ensures
        run_block(simple_loop(ops), shifted(m, ops, n), (rounds(m.cell()) - n) as nat) == Some(
            shifted(m, ops, rounds(m.cell())),
        ),
    decreases rounds(m.cell()) - n,
{
    let u = rounds(m.cell());
    let s = shifted(m, ops, n);
    lemma_shifted_cell(m, ops, n);
    lemma_wrap(m.cell());
    assert(wrap(m.cell()) == m.cell());
    lemma_wrap_zero(u - n);
    reveal_with_fuel(run, 3);
    reveal_with_fuel(run_block, 3);
    if n < u {
        let fuel = (u - n - 1) as nat;
        let body = seq![SpecBlock::Simple(ops)];
        assert(body.drop_last() =~= Seq::<SpecBlock>::empty());
        assert(body.last() == SpecBlock::Simple(ops));
        assert(run(body.drop_last(), s, fuel) == Some(s));
        assert(run(body, s, fuel) == Some(s.steps(ops)));
        lemma_shifted_step(m, ops, n);
        lemma_linear_loop_from(m, ops, n + 1);
    }
}

/// The closed form of the multiply-accumulate steps of a body: the cell at
/// each offset from 1 to `upto` grows by the base value times what the body
/// adds there.
pub open spec fn accumulated(m: Machine, base: int, ops: Seq<Op>, upto: int) -> Machine {
    Machine {
        tape: |q: int|
            if wrap(q) == q && 1 <= wrap(q - m.pos) <= upto {
                wrap((m.tape)(q) + base * delta(ops, wrap(q - m.pos)))
            } else {
                (m.tape)(q)
            },
        pos: m.pos,
        input: m.input,
        output: m.output,
    }
}

/// The multiply-accumulate steps of a body have their closed form.
pub proof fn lemma_accumulate(m: Machine, base: int, ops: Seq<Op>, upto: int)
    requires
        m.valid(),
        upto <= MAX_REACH,
    ensures
        m.accumulate(base, factors(ops, upto)) == accumulated(m, base, ops, upto),
    decreases upto,
{
    let want = accumulated(m, base, ops, upto);
    if upto <= 0 {
        let got = m.accumulate(base, factors(ops, upto));
        assert(got.tape =~= want.tape);
        assert(got =~= want);
    } else {
        lemma_accumulate(m, base, ops, upto - 1);
        let before = accumulated(m, base, ops, upto - 1);
        let d = delta(ops, upto);
        let at = wrap(m.pos + upto);
        lemma_wrap(m.pos + upto);
        lemma_offset_of_cell(m.pos, upto);
        if d != 0 {
            let pairs = factors(ops, upto);
            assert(pairs.drop_last() == factors(ops, upto - 1));
            assert(pairs.last() == (upto, d));
            let got = m.accumulate(base, pairs);
            assert(got == before.store(at, (before.tape)(at) + wrap(base * d)));
            assert forall|q: int| #[trigger] (got.tape)(q) == (want.tape)(q) by {
                if q == at {
                    lemma_wrap_add((m.tape)(q), base * d);
                } else if wrap(q) == q {
                    lemma_cell_of_offset(m.pos, q);
                }
            }
            assert(got.tape =~= want.tape);
            assert(got =~= want);
        } else {
            assert forall|q: int| #[trigger] (before.tape)(q) == (want.tape)(q) by {
                if q == at {
                    assert(base * d == 0) by (nonlinear_arith)
                        requires
                            d == 0,
                    ;
                    assert(wrap((m.tape)(q)) == (m.tape)(q));
                } else if wrap(q) == q {
                    lemma_cell_of_offset(m.pos, q);
                }
            }
            assert(before.tape =~= want.tape);
            assert(before =~= want);
        }
    }
}

/// The multiply block of a linear body leaves the machine that all rounds
/// of the loop leave.
pub proof fn lemma_multiply_is_all_rounds(m: Machine, ops: Seq<Op>)
    requires
        m.valid(),
        linear(ops),
    ensures
        m.multiply(factors(ops, reach(ops))) == shifted(m, ops, rounds(m.cell())),
{
    let b = m.cell();
    let u = rounds(b);
    let far = reach(ops);
    lemma_reach(ops, 0);
    lemma_accumulate(m, b, ops, far);
    let got = m.multiply(factors(ops, far));
    let want = shifted(m, ops, u);
    lemma_wrap(0);
    lemma_wrap(m.pos);
    lemma_wrap(b);
    assert(wrap(b) == b);
    assert forall|q: int| #[trigger] (got.tape)(q) == (want.tape)(q) by {
        let t = (m.tape)(q);
        assert(wrap(t) == t);
        if wrap(q) == q {
            let c = wrap(q - m.pos);
            let d = delta(ops, c);
            lemma_cell_of_offset(m.pos, q);
            if q == m.pos {
                assert(c == 0);
                assert(u * d == -u);
                if b >= 0 {
                } else {
                    lemma_wrap_period(b - u, 1);
                }
            } else if 1 <= c <= far {
                if b >= 0 {
                } else {
                    assert(u * d == b * d + 0x1_0000_0000 * d) by (nonlinear_arith)
                        requires
                            u == b + 0x1_0000_0000,
                    ;
                    lemma_wrap_period(t + b * d, d);
                }
            } else {
                if c > far {
                    lemma_delta_beyond_reach(ops, c);
                }
                assert(d == 0);
                assert(u * d == 0) by (nonlinear_arith)
                    requires
                        d == 0,
                ;
            }
        }
    }
    assert(got.tape =~= want.tape);
    assert(got =~= want);
}

/// A linear loop ends, from any valid machine, in the machine that its
/// multiply block leaves.
pub proof fn lemma_linear_loop(m: Machine, ops: Seq<Op>)
    requires
        m.valid(),
        linear(ops),
    ensures
        run_block(simple_loop(ops), m, rounds(m.cell()) as nat) == Some(
            m.multiply(factors(ops, reach(ops))),
        ),
{
    lemma_wrap(m.cell());
    assert(wrap(m.cell()) == m.cell());
    lemma_shifted_zero(m, ops);
    lemma_linear_loop_from(m, ops, 0);
    lemma_multiply_is_all_rounds(m, ops);
}

/// Storing keeps a machine valid.
pub proof fn lemma_store_valid(m: Machine, at: int, v: int)
    requires
        m.valid(),
    ensures
        m.store(at, v).valid(),
{
    let s = m.store(at, v);
    assert forall|q: int| wrap(#[trigger] (s.tape)(q)) == (s.tape)(q) by {
        if q == at {
            lemma_wrap(v);
        } else {
            assert(wrap((m.tape)(q)) == (m.tape)(q));
        }
    }
}

/// Reading keeps a machine valid.
pub proof fn lemma_reads_valid(m: Machine, k: nat)
    requires
        m.valid(),
    ensures
        m.reads(k).valid(),
    decreases k,
{
    if k > 0 {
        lemma_reads_valid(m, (k - 1) as nat);
        let before = m.reads((k - 1) as nat);
        if before.input.len() > 0 {
            lemma_store_valid(before, before.pos, before.input[0]);
            assert(before.read().tape == before.store(before.pos, before.input[0]).tape);
        } else {
            lemma_store_valid(before, before.pos, -1);
        }
    }
}

/// Writing keeps a machine valid.
pub proof fn lemma_writes_valid(m: Machine, k: nat)
    requires
        m.valid(),
    ensures
        m.writes(k).valid(),
    decreases k,
{
    if k > 0 {
        lemma_writes_valid(m, (k - 1) as nat);
    }
}

/// A straight-line block keeps a machine valid.
pub proof fn lemma_steps_valid(m: Machine, ops: Seq<Op>)
    requires
        m.valid(),
    ensures
        m.steps(ops).valid(),
    decreases ops.len(),
{
    if ops.len() > 0 {
        lemma_steps_valid(m, ops.drop_last());
        let before = m.steps(ops.drop_last());
        match ops.last() {
            Op::Modify(n) => lemma_store_valid(before, before.pos, before.cell() + n),
            Op::Move(n) => lemma_wrap(before.pos + n),
            Op::Inp(k) => lemma_reads_valid(before, k as nat),
            Op::Outp(k) => lemma_writes_valid(before, k as nat),
            _ => {},
        }
    }
}

/// The multiply-accumulate steps keep a machine valid.
pub proof fn lemma_accumulate_valid(m: Machine, base: int, ops: Seq<(int, int)>)
    requires
        m.valid(),
    ensures
        m.accumulate(base, ops).valid(),
    decreases ops.len(),
{
    if ops.len() > 0 {
        lemma_accumulate_valid(m, base, ops.drop_last());
        let before = m.accumulate(base, ops.drop_last());
        let at = wrap(before.pos + ops.last().0);
        lemma_store_valid(before, at, (before.tape)(at) + wrap(base * ops.last().1));
    }
}

/// A block that ends leaves a valid machine valid.
pub proof fn lemma_run_block_valid(block: SpecBlock, m: Machine, fuel: nat)
    requires
        m.valid(),
        run_block(block, m, fuel) is Some,
    ensures
        run_block(block, m, fuel)->Some_0.valid(),
    decreases fuel, block,
{
    match block {
        SpecBlock::Simple(ops) => lemma_steps_valid(m, ops),
        SpecBlock::Loop(body) => {
            if m.cell() != 0 {
                lemma_run_valid(body, m, (fuel - 1) as nat);
                let next = run(body, m, (fuel - 1) as nat)->Some_0;
                lemma_run_block_valid(block, next, (fuel - 1) as nat);
            }
        },
        SpecBlock::Reset { offset } => lemma_store_valid(m, wrap(m.pos + offset), 0),
        SpecBlock::Multiply { ops } => {
            lemma_accumulate_valid(m, m.cell(), ops);
            lemma_store_valid(m.accumulate(m.cell(), ops), m.pos, 0);
        },
    }
}

/// A program that ends leaves a valid machine valid.
pub proof fn lemma_run_valid(p: Seq<SpecBlock>, m: Machine, fuel: nat)
    requires
        m.valid(),
        run(p, m, fuel) is Some,
    ensures
        run(p, m, fuel)->Some_0.valid(),
    decreases fuel, p,
{
    if p.len() > 0 {
        lemma_run_valid(p.drop_last(), m, fuel);
        let next = run(p.drop_last(), m, fuel)->Some_0;
        lemma_run_block_valid(p.last(), next, fuel);
    }
}

/// The body of the countdown loop is linear and gives no pair.
pub proof fn lemma_countdown_linear()
    ensures
        linear(seq![Op::Modify(-1i16)]),
        factors(seq![Op::Modify(-1i16)], reach(seq![Op::Modify(-1i16)])) == Seq::<
            (int, int),
        >::empty(),
        countdown_loop() == simple_loop(seq![Op::Modify(-1i16)]),
{
    let ops = seq![Op::Modify(-1i16)];
    assert(ops.drop_last() =~= Seq::<Op>::empty());
    assert(ops.last() == Op::Modify(-1i16));
    reveal_with_fuel(delta, 3);
    reveal_with_fuel(net_move, 3);
    reveal_with_fuel(reach, 3);
    assert(net_move(ops.drop_last()) == 0);
    assert(reach(ops) == 0);
    assert(net_move(ops) == 0);
    assert(delta(ops, 0) == -1);
    assert forall|d: int| d != 0 implies #[trigger] delta(ops, d) == 0 by {
        assert(delta(ops.drop_last(), d) == 0);
    }
}

/// A reset of the current cell is a multiply block without pairs.
pub proof fn lemma_reset_is_empty_multiply(m: Machine)
    requires
        m.valid(),
    ensures
        m.reset(0) == m.multiply(Seq::<(int, int)>::empty()),
{
    lemma_wrap(m.pos);
    assert(wrap(m.pos + 0) == m.pos);
}

/// What the shipped passes make of a block.
pub open spec fn opt_block(block: SpecBlock) -> SpecBlock {
    optimized_block(standard_passes(), block)
}

/// What the shipped passes make of a program.
pub open spec fn opt(p: Seq<SpecBlock>) -> Seq<SpecBlock> {
    optimized(standard_passes(), p)
}

/// With the shipped passes, the first rewrite that accepts is the reset,
/// then the multiply; a block that neither accepts stays.
pub proof fn lemma_first_rewrite(block: SpecBlock)
    ensures
        first_rewrite(standard_passes(), 0, block) == if reset_rewrite(block) is Some {
            reset_rewrite(block)->Some_0
        } else if multiply_rewrite(block) is Some {
            multiply_rewrite(block)->Some_0
        } else {
            block
        },
{
    reveal_with_fuel(first_rewrite, 4);
    let passes = standard_passes();
    assert(passes.len() == 2);
    assert(passes[0].rewrite(block) == reset_rewrite(block));
    assert(passes[1].rewrite(block) == multiply_rewrite(block));
}

/// The optimizer changes a block only where it stands for a loop: a block
/// that is no loop stays, and a loop becomes a reset, a multiply block or a
/// loop again.
pub proof fn lemma_opt_block_shape(block: SpecBlock)
    ensures
        !(block is Loop) ==> opt_block(block) == block,
        block matches SpecBlock::Loop(body) ==> opt_block(block) == first_rewrite(
            standard_passes(),
            0,
            SpecBlock::Loop(opt(body)),
        ),
        block is Loop ==> !(opt_block(block) is Simple),
{
    match block {
        SpecBlock::Loop(body) => {
            lemma_first_rewrite(SpecBlock::Loop(opt(body)));
        },
        _ => {
            lemma_first_rewrite(block);
        },
    }
}

/// The optimizer works block by block.
pub proof fn lemma_opt_by_block(p: Seq<SpecBlock>)
    ensures
        opt(p).len() == p.len(),
        forall|i: int| 0 <= i < p.len() ==> #[trigger] opt(p)[i] == opt_block(p[i]),
        p.len() > 0 ==> opt(p).drop_last() == opt(p.drop_last()),
        p.len() > 0 ==> opt(p).last() == opt_block(p.last()),
{
    if p.len() > 0 {
        let head = p.drop_last();
        assert forall|i: int| 0 <= i < head.len() implies opt(p).drop_last()[i] == opt(head)[i] by {
            assert(head[i] == p[i]);
        }
        assert(opt(p).drop_last() =~= opt(head));
    }
}

/// A body that is one straight-line block after optimization was that
/// block before.
pub proof fn lemma_opt_simple_body(body: Seq<SpecBlock>, ops: Seq<Op>)
    requires
        opt(body) == seq![SpecBlock::Simple(ops)],
    ensures
        body == seq![SpecBlock::Simple(ops)],
{
    lemma_opt_by_block(body);
    assert(body.len() == 1);
    assert(opt(body)[0] == opt_block(body[0]));
    lemma_opt_block_shape(body[0]);
    assert(body[0] == SpecBlock::Simple(ops));
    assert(body =~= seq![SpecBlock::Simple(ops)]);
}

/// Whether the optimizer rewrites the loop of `body` to straight-line
/// code, and the body of the loop if it does.
pub proof fn lemma_rewritten_loop(body: Seq<SpecBlock>) -> (ops: Seq<Op>)
    requires
        opt_block(SpecBlock::Loop(body)) != SpecBlock::Loop(opt(body)),
    ensures
        body == seq![SpecBlock::Simple(ops)],
        linear(ops),
        forall|m: Machine|
            m.valid() ==> #[trigger] run_block(opt_block(SpecBlock::Loop(body)), m, 0) == Some(
                m.multiply(factors(ops, reach(ops))),
            ),
{
    let inner = SpecBlock::Loop(opt(body));
    lemma_opt_block_shape(SpecBlock::Loop(body));
    lemma_first_rewrite(inner);
    if reset_rewrite(inner) is Some {
        let ops = seq![Op::Modify(-1i16)];
        lemma_countdown_linear();
        assert(inner == countdown_loop());
        assert(opt(body) == seq![SpecBlock::Simple(ops)]);
        lemma_opt_simple_body(body, ops);
        assert forall|m: Machine| m.valid() implies #[trigger] run_block(
            opt_block(SpecBlock::Loop(body)),
            m,
            0,
        ) == Some(m.multiply(factors(ops, reach(ops)))) by {
            lemma_reset_is_empty_multiply(m);
        }
        ops
    } else {
        assert(multiply_rewrite(inner) is Some);
        let ops = opt(body)[0]->Simple_0;
        assert(opt(body) =~= seq![SpecBlock::Simple(ops)]);
        lemma_opt_simple_body(body, ops);
        ops
    }
}

/// The optimizer makes a reset of the countdown loop, wherever it stands,
/// and of no other loop.
pub proof fn lemma_reset_only_from_countdown(block: SpecBlock)
    requires
        block is Loop,
    ensures
        opt_block(block) is Reset <==> block == countdown_loop(),
        block == countdown_loop() ==> opt_block(block) == (SpecBlock::Reset { offset: 0 }),
{
    let body = block->Loop_0;
    let inner = SpecBlock::Loop(opt(body));
    lemma_opt_block_shape(block);
    lemma_first_rewrite(inner);
    let ops = seq![Op::Modify(-1i16)];
    if block == countdown_loop() {
        lemma_opt_by_block(body);
        lemma_opt_block_shape(body[0]);
        assert(opt(body) =~= body);
    }
    if opt_block(block) is Reset {
        assert(inner == countdown_loop());
        assert(opt(body) == seq![SpecBlock::Simple(ops)]);
        lemma_opt_simple_body(body, ops);
    }
}

/// The optimizer keeps programs well formed: no straight-line block gets
/// empty, and a multiply block names neither offset zero nor factor zero.
pub proof fn lemma_opt_block_well_formed(block: SpecBlock)
    requires
        block.well_formed(),
    ensures
        opt_block(block).well_formed(),
    decreases block,
{
    lemma_opt_block_shape(block);
    match block {
        SpecBlock::Loop(body) => {
            let inner = SpecBlock::Loop(opt(body));
            lemma_first_rewrite(inner);
            lemma_well_formed_blocks(body);
            lemma_well_formed_blocks(opt(body));
            lemma_opt_by_block(body);
            assert forall|i: int| 0 <= i < opt(body).len() implies (#[trigger] opt(
                body,
            )[i]).well_formed() by {
                assert(body[i].well_formed());
                lemma_opt_block_well_formed(body[i]);
            }
            assert(inner.well_formed());
            if reset_rewrite(inner) is Some {
            } else if multiply_rewrite(inner) is Some {
                let ops = opt(body)[0]->Simple_0;
                lemma_factors(ops, reach(ops));
            }
        },
        _ => {},
    }
}

/// The optimizer keeps programs well formed.
pub proof fn lemma_opt_well_formed(p: Seq<SpecBlock>)
    requires
        well_formed(p),
    ensures
        well_formed(opt(p)),
{
    lemma_well_formed_blocks(p);
    lemma_well_formed_blocks(opt(p));
    lemma_opt_by_block(p);
    assert forall|i: int| 0 <= i < opt(p).len() implies (#[trigger] opt(p)[i]).well_formed() by {
        assert(p[i].well_formed());
        lemma_opt_block_well_formed(p[i]);
    }
}

/// What a program does, its optimized form does with the same fuel.
pub proof fn lemma_forward_block(block: SpecBlock, m: Machine, fuel: nat)
    requires
        m.valid(),
        run_block(block, m, fuel) is Some,
    ensures
        run_block(opt_block(block), m, fuel) == run_block(block, m, fuel),
    decreases fuel, block,
{
    lemma_opt_block_shape(block);
    match block {
        SpecBlock::Loop(body) => {
            if opt_block(block) != SpecBlock::Loop(opt(body)) {
                let ops = lemma_rewritten_loop(body);
                lemma_linear_loop(m, ops);
                let enough = rounds(m.cell()) as nat;
                let most = if fuel >= enough {
                    fuel
                } else {
                    enough
                };
                lemma_more_fuel_block(block, m, fuel, most);
                lemma_more_fuel_block(block, m, enough, most);
                assert(run_block(opt_block(block), m, 0) == Some(
                    m.multiply(factors(ops, reach(ops))),
                ));
                assert(run_block(opt_block(block), m, fuel) == run_block(opt_block(block), m, 0));
            } else if m.cell() != 0 {
                let less = (fuel - 1) as nat;
                lemma_forward(body, m, less);
                lemma_run_valid(body, m, less);
                let next = run(body, m, less)->Some_0;
                lemma_forward_block(block, next, less);
            }
        },
        _ => {},
    }
}

/// What a program does, its optimized form does with the same fuel.
pub proof fn lemma_forward(p: Seq<SpecBlock>, m: Machine, fuel: nat)
    requires
        m.valid(),
        run(p, m, fuel) is Some,
    ensures
        run(opt(p), m, fuel) == run(p, m, fuel),
    decreases fuel, p,
{
    lemma_opt_by_block(p);
    if p.len() > 0 {
        lemma_forward(p.drop_last(), m, fuel);
        lemma_run_valid(p.drop_last(), m, fuel);
        let next = run(p.drop_last(), m, fuel)->Some_0;
        lemma_forward_block(p.last(), next, fuel);
    } else {
        assert(opt(p) =~= p);
    }
}

/// What the optimized form of a block does, the block does with the fuel
/// that the lemma hands out.
pub proof fn lemma_backward_block(block: SpecBlock, m: Machine, fuel: nat) -> (enough: nat)
    requires
        m.valid(),
        run_block(opt_block(block), m, fuel) is Some,
    ensures
        run_block(block, m, enough) == run_block(opt_block(block), m, fuel),
    decreases fuel, block,
{
    lemma_opt_block_shape(block);
    match block {
        SpecBlock::Loop(body) => {
            if opt_block(block) != SpecBlock::Loop(opt(body)) {
                let ops = lemma_rewritten_loop(body);
                lemma_linear_loop(m, ops);
                assert(run_block(opt_block(block), m, 0) == Some(
                    m.multiply(factors(ops, reach(ops))),
                ));
                assert(run_block(opt_block(block), m, fuel) == run_block(opt_block(block), m, 0));
                rounds(m.cell()) as nat
            } else if m.cell() != 0 {
                let less = (fuel - 1) as nat;
                let first = lemma_backward(body, m, less);
                lemma_run_valid(opt(body), m, less);
                let next = run(opt(body), m, less)->Some_0;
                let rest = lemma_backward_block(block, next, less);
                let most = if first >= rest {
                    first
                } else {
                    rest
                };
                lemma_more_fuel(body, m, first, most);
                lemma_more_fuel_block(block, next, rest, most);
                most + 1
            } else {
                0
            }
        },
        _ => fuel,
    }
}

/// What the optimized form of a program does, the program does with the
/// fuel that the lemma hands out.
pub proof fn lemma_backward(p: Seq<SpecBlock>, m: Machine, fuel: nat) -> (enough: nat)
    requires
        m.valid(),
        run(opt(p), m, fuel) is Some,
    ensures
        run(p, m, enough) == run(opt(p), m, fuel),
    decreases fuel, p,
{
    lemma_opt_by_block(p);
    if p.len() > 0 {
        let first = lemma_backward(p.drop_last(), m, fuel);
        lemma_run_valid(opt(p.drop_last()), m, fuel);
        let next = run(opt(p.drop_last()), m, fuel)->Some_0;
        let rest = lemma_backward_block(p.last(), next, fuel);
        let most = if first >= rest {
            first
        } else {
            rest
        };
        lemma_more_fuel(p.drop_last(), m, first, most);
        lemma_more_fuel_block(p.last(), next, rest, most);
        most
    } else {
        assert(opt(p) =~= p);
        fuel
    }
}

/// The optimizer preserves meaning: from any valid machine, a program ends
/// in a machine exactly when its optimized form ends in that machine, with
/// the same tape, position, input left and output written.
pub proof fn lemma_optimize_preserves_meaning(p: Seq<SpecBlock>, m: Machine, end: Machine)
    requires
        m.valid(),
    ensures
        ends_in(p, m, end) <==> ends_in(opt(p), m, end),
{
    if ends_in(p, m, end) {
        let fuel = choose|fuel: nat| run(p, m, fuel) == Some(end);
        lemma_forward(p, m, fuel);
    }
    if ends_in(opt(p), m, end) {
        let fuel = choose|fuel: nat| run(opt(p), m, fuel) == Some(end);
        let enough = lemma_backward(p, m, fuel);
    }
}

/// The machine before the first instruction is valid, whatever the input.
pub proof fn lemma_start_valid(input: Seq<int>)
    ensures
        Machine::start(input).valid(),
{
    lemma_wrap(0);
}

/// For any source text that parses and any input, the optimized program,
/// run from the start, ends exactly when the parsed program does, and with
/// the same output and the same final tape.
pub proof fn lemma_compiled_meaning(text: Seq<char>, input: Seq<int>, end: Machine)
    requires
        parsed(lex(text)) is Ok,
    ensures
        ends_in(parsed(lex(text))->Ok_0, Machine::start(input), end) <==> ends_in(
            opt(parsed(lex(text))->Ok_0),
            Machine::start(input),
            end,
        ),
{
    lemma_start_valid(input);
    lemma_optimize_preserves_meaning(parsed(lex(text))->Ok_0, Machine::start(input), end);
}

} // verus!
