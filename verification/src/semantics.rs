//! The meaning of a program: a reference machine in ghost code.
//!
//! The machine has an unbounded tape of 32-bit signed cells, a 32-bit signed
//! tape position, the input not yet read and the output written so far.
//! Arithmetic wraps at 32 bits. A read at the end of the input stores `-1`.
//! Nothing here is executable: the machine says what generated code has to
//! do, and what a rewrite has to preserve.

use vstd::prelude::*;
use crate::lexer::Op;
use crate::parser::SpecBlock;

verus! {

/// The 32-bit signed integer that `x` wraps to.
#[verifier::opaque]
pub open spec fn wrap(x: int) -> int {
    let r = x % 0x1_0000_0000;
    if r >= 0x8000_0000 {
        r - 0x1_0000_0000
    } else {
        r
    }
}

/// The state of the machine.
#[verifier::ext_equal]
pub struct Machine {
    /// The value of every cell.
    pub tape: spec_fn(int) -> int,
    /// The tape position.
    pub pos: int,
    /// The bytes of input not yet read.
    pub input: Seq<int>,
    /// The bytes written so far.
    pub output: Seq<int>,
}

impl Machine {
    /// All cells zero, the position zero, nothing written.
    pub open spec fn start(input: Seq<int>) -> Machine {
        Machine { tape: |q: int| 0int, pos: 0, input, output: Seq::empty() }
    }

    /// The position and every cell hold 32-bit signed values.
    pub open spec fn valid(self) -> bool {
        &&& wrap(self.pos) == self.pos
        &&& forall|q: int| wrap(#[trigger] (self.tape)(q)) == (self.tape)(q)
    }

    /// The value of the current cell.
    pub open spec fn cell(self) -> int {
        (self.tape)(self.pos)
    }

    /// The machine with `v`, wrapped, stored in the cell at `at`.
    pub open spec fn store(self, at: int, v: int) -> Machine {
        Machine {
            tape: |q: int|
                if q == at {
                    wrap(v)
                } else {
                    (self.tape)(q)
                },
            pos: self.pos,
            input: self.input,
            output: self.output,
        }
    }

    /// One read: the next byte of input goes to the current cell; at the
    /// end of the input the cell gets `-1`.
    pub open spec fn read(self) -> Machine {
        if self.input.len() > 0 {
            Machine {
                tape: self.store(self.pos, self.input[0]).tape,
                pos: self.pos,
                input: self.input.drop_first(),
                output: self.output,
            }
        } else {
            self.store(self.pos, -1)
        }
    }

    /// One write: the low byte of the current cell goes to the output.
    pub open spec fn write(self) -> Machine {
        Machine {
            tape: self.tape,
            pos: self.pos,
            input: self.input,
            output: self.output.push(self.cell() % 256),
        }
    }

    /// `k` reads, one after the other.
    pub open spec fn reads(self, k: nat) -> Machine
        decreases k,
    {
        if k == 0 {
            self
        } else {
            self.reads((k - 1) as nat).read()
        }
    }

    /// `k` writes, one after the other.
    pub open spec fn writes(self, k: nat) -> Machine
        decreases k,
    {
        if k == 0 {
            self
        } else {
            self.writes((k - 1) as nat).write()
        }
    }

    /// The machine after one operation of a straight-line block. A bracket
    /// there does nothing.
    pub open spec fn step(self, op: Op) -> Machine {
        match op {
            Op::Modify(n) => self.store(self.pos, self.cell() + n),
            Op::Move(n) => Machine {
                tape: self.tape,
                pos: wrap(self.pos + n),
                input: self.input,
                output: self.output,
            },
            Op::Inp(k) => self.reads(k as nat),
            Op::Outp(k) => self.writes(k as nat),
            Op::LBr => self,
            Op::RBr => self,
        }
    }

    /// The machine after the operations of a straight-line block.
    pub open spec fn steps(self, ops: Seq<Op>) -> Machine
        decreases ops.len(),
    {
        if ops.len() == 0 {
            self
        } else {
            self.steps(ops.drop_last()).step(ops.last())
        }
    }

    /// The machine after a reset at `offset`.
    pub open spec fn reset(self, offset: int) -> Machine {
        self.store(wrap(self.pos + offset), 0)
    }

    /// The machine after the multiply-accumulate steps `ops` with the base
    /// value `base`, in order.
    pub open spec fn accumulate(self, base: int, ops: Seq<(int, int)>) -> Machine
        decreases ops.len(),
    {
        if ops.len() == 0 {
            self
        } else {
            let m = self.accumulate(base, ops.drop_last());
            let at = wrap(m.pos + ops.last().0);
            m.store(at, (m.tape)(at) + wrap(base * ops.last().1))
        }
    }

    /// The machine after a multiply block.
    pub open spec fn multiply(self, ops: Seq<(int, int)>) -> Machine {
        self.accumulate(self.cell(), ops).store(self.pos, 0)
    }
}

/// The machine after `block`, started in `m`, if the block ends within
/// `fuel` nested loop rounds; `None` if it needs more.
pub open spec fn run_block(block: SpecBlock, m: Machine, fuel: nat) -> Option<Machine>
    decreases fuel, block,
{
    match block {
        SpecBlock::Simple(ops) => Some(m.steps(ops)),
        SpecBlock::Loop(body) => if m.cell() == 0 {
            Some(m)
        } else if fuel == 0 {
            None
        } else {
            match run(body, m, (fuel - 1) as nat) {
                Some(next) => run_block(block, next, (fuel - 1) as nat),
                None => None,
            }
        },
        SpecBlock::Reset { offset } => Some(m.reset(offset)),
        SpecBlock::Multiply { ops } => Some(m.multiply(ops)),
    }
}

/// The machine after the program `p`, started in `m`, if it ends within
/// `fuel` nested loop rounds; `None` if it needs more.
pub open spec fn run(p: Seq<SpecBlock>, m: Machine, fuel: nat) -> Option<Machine>
    decreases fuel, p,
{
    if p.len() == 0 {
        Some(m)
    } else {
        match run(p.drop_last(), m, fuel) {
            Some(next) => run_block(p.last(), next, fuel),
            None => None,
        }
    }
}

/// The program `p`, started in `m`, ends in `end`.
pub open spec fn ends_in(p: Seq<SpecBlock>, m: Machine, end: Machine) -> bool {
    exists|fuel: nat| run(p, m, fuel) == Some(end)
}

} // verus!
