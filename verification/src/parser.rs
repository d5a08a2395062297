//! Parsing: the flat operation stream to a tree of blocks.
//!
//! The parser keeps a stack of partially built programs. An opening bracket
//! pushes an empty program; a closing bracket pops the top program and
//! appends it, as a loop, to the program below; any other operation goes to
//! the last straight-line block of the top program.

use vstd::prelude::*;
use crate::lexer::Op;
use crate::balance::{balanced, closes_early, lemma_run};

verus! {

/// A node of the program tree.
#[derive(Debug, PartialEq, Eq)]
pub enum Block {
    /// Straight-line operations, none of them a bracket.
    Simple(Vec<Op>),
    /// A nested program, run while the current cell is not zero.
    Loop(Program),
    /// Zero the cell at the tape position plus `offset`.
    Reset { offset: i32 },
    /// For each `(offset, factor)`, add the current cell times `factor` to the
    /// cell at the tape position plus `offset`; then zero the current cell.
    Multiply { ops: Vec<(i32, i32)> },
}

/// An ordered sequence of blocks.
pub type Program = Vec<Block>;

/// Why a token stream is no program.
#[derive(Debug, Clone, Copy, PartialEq, Eq, Structural)]
pub enum ParseError {
    /// The input ended inside a loop.
    UnclosedLoop,
    /// A closing bracket came with no loop open.
    UnbalancedClose,
}

impl ParseError {
    /// The text of the message for each error.
    pub open spec fn text(self) -> Seq<char> {
        match self {
            ParseError::UnclosedLoop => "Parsing finalized before clearing parsing stack."@,
            ParseError::UnbalancedClose => "Closing bracket without an open loop."@,
        }
    }

    /// The message to show for the error.
    pub fn message(&self) -> (r: String)
        ensures
            r@ == self.text(),
    {
        match self {
            ParseError::UnclosedLoop => String::from_str(
                "Parsing finalized before clearing parsing stack.",
            ),
            ParseError::UnbalancedClose => String::from_str(
                "Closing bracket without an open loop.",
            ),
        }
    }
}

/// The mathematical value of a `Block`.
pub enum SpecBlock {
    Simple(Seq<Op>),
    Loop(Seq<SpecBlock>),
    Reset { offset: int },
    Multiply { ops: Seq<(int, int)> },
}

impl DeepView for Block {
    type V = SpecBlock;

    open spec fn deep_view(&self) -> SpecBlock
        decreases self,
    {
        match self {
            Block::Simple(ops) => SpecBlock::Simple(ops@),
            Block::Loop(body) => SpecBlock::Loop(
                Seq::new(
                    body@.len(),
                    |i: int|
                        if 0 <= i < body@.len() {
                            body@[i].deep_view()
                        } else {
                            SpecBlock::Simple(Seq::empty())
                        },
                ),
            ),
            Block::Reset { offset } => SpecBlock::Reset { offset: *offset as int },
            Block::Multiply { ops } => SpecBlock::Multiply { ops: pairs_view(ops@) },
        }
    }
}

/// The pairs of a multiply block as mathematical integers.
pub open spec fn pairs_view(ops: Seq<(i32, i32)>) -> Seq<(int, int)> {
    Seq::new(ops.len(), |i: int| (ops[i].0 as int, ops[i].1 as int))
}

/// The value of a loop is the loop of its body's value.
pub proof fn lemma_loop_view(body: Program)
    ensures
        Block::Loop(body).deep_view() == SpecBlock::Loop(body.deep_view()),
{
    assert(Block::Loop(body).deep_view()->Loop_0 =~= body.deep_view());
}

impl SpecBlock {
    /// What holds of every block that the parser or the optimizer makes: a
    /// straight-line block is not empty and holds no bracket, a multiply
    /// block names neither offset zero nor factor zero, and the blocks of a
    /// loop's body are well formed in turn.
    pub open spec fn well_formed(self) -> bool
        decreases self,
    {
        match self {
            SpecBlock::Simple(ops) => ops.len() > 0 && forall|i: int|
                0 <= i < ops.len() ==> !(#[trigger] ops[i] is LBr || ops[i] is RBr),
            SpecBlock::Loop(body) => forall|i: int|
                0 <= i < body.len() ==> (#[trigger] body[i]).well_formed(),
            SpecBlock::Reset { .. } => true,
            SpecBlock::Multiply { ops } => forall|i: int|
                0 <= i < ops.len() ==> (#[trigger] ops[i]).0 != 0 && ops[i].1 != 0,
        }
    }

    /// Whether the block is one that the parser makes: straight-line or a
    /// loop of such blocks, with no two straight-line blocks side by side.
    pub open spec fn parsed_form(self) -> bool
        decreases self,
    {
        match self {
            SpecBlock::Simple(_) => true,
            SpecBlock::Loop(body) => {
                &&& forall|i: int| 0 <= i < body.len() ==> (#[trigger] body[i]).parsed_form()
                &&& forall|i: int|
                    0 <= i < body.len() - 1 ==> !(#[trigger] body[i] is Simple && body[i + 1] is Simple)
            },
            _ => false,
        }
    }
}

/// Every block of `p` is well formed.
pub open spec fn well_formed(p: Seq<SpecBlock>) -> bool {
    SpecBlock::Loop(p).well_formed()
}

/// `p` is in the form that the parser gives.
pub open spec fn parsed_form(p: Seq<SpecBlock>) -> bool {
    SpecBlock::Loop(p).parsed_form()
}

/// The operations that a block came from: a loop is its body in brackets.
/// A block that only the optimizer makes has no operations of its own here.
pub open spec fn flatten_block(b: SpecBlock) -> Seq<Op>
    decreases b,
{
    match b {
        SpecBlock::Simple(ops) => ops,
        SpecBlock::Loop(body) => seq![Op::LBr] + flatten(body) + seq![Op::RBr],
        _ => Seq::empty(),
    }
}

/// The operations that a program came from, block after block.
pub open spec fn flatten(p: Seq<SpecBlock>) -> Seq<Op>
    decreases p,
{
    if p.len() == 0 {
        Seq::empty()
    } else {
        flatten(p.drop_last()) + flatten_block(p.last())
    }
}

/// The state of the parser: the stack of programs under construction, the
/// innermost last, and the first error met.
pub struct ParseState {
    pub stack: Seq<Seq<SpecBlock>>,
    pub err: Option<ParseError>,
}

/// `p` with the operation `t` added to its last block when that one is
/// straight-line, and in a new straight-line block otherwise.
pub open spec fn place(p: Seq<SpecBlock>, t: Op) -> Seq<SpecBlock> {
    if p.len() > 0 && p.last() is Simple {
        p.drop_last().push(SpecBlock::Simple(p.last()->Simple_0.push(t)))
    } else {
        p.push(SpecBlock::Simple(seq![t]))
    }
}

/// The parser's state before the first token.
pub open spec fn start() -> ParseState {
    ParseState { stack: seq![Seq::empty()], err: None }
}

/// The parser's state after one more token. Once an error is met the state
/// no longer changes.
pub open spec fn step(s: ParseState, t: Op) -> ParseState {
    if s.err is Some {
        s
    } else {
        match t {
            Op::LBr => ParseState { stack: s.stack.push(Seq::empty()), err: None },
            Op::RBr => if s.stack.len() <= 1 {
                ParseState { stack: s.stack, err: Some(ParseError::UnbalancedClose) }
            } else {
                let body = s.stack.last();
                let below = s.stack.drop_last();
                ParseState {
                    stack: below.drop_last().push(below.last().push(SpecBlock::Loop(body))),
                    err: None,
                }
            },
            _ => ParseState {
                stack: s.stack.drop_last().push(place(s.stack.last(), t)),
                err: None,
            },
        }
    }
}

/// The parser's state after all of `tokens`.
pub open spec fn run(tokens: Seq<Op>) -> ParseState
    decreases tokens.len(),
{
    if tokens.len() == 0 {
        start()
    } else {
        step(run(tokens.drop_last()), tokens.last())
    }
}

/// What the parser answers in state `s` at the end of the input.
pub open spec fn finish(s: ParseState) -> Result<Seq<SpecBlock>, ParseError> {
    match s.err {
        Some(e) => Err(e),
        None => if s.stack.len() == 1 {
            Ok(s.stack[0])
        } else {
            Err(ParseError::UnclosedLoop)
        },
    }
}

/// What parsing `tokens` gives.
pub open spec fn parsed(tokens: Seq<Op>) -> Result<Seq<SpecBlock>, ParseError> {
    finish(run(tokens))
}

impl Block {
    /// A straight-line block without operations, for the parser to fill.
    pub fn empty() -> (r: Block)
        ensures
            r.deep_view() == SpecBlock::Simple(Seq::empty()),
    {
        Block::Simple(Vec::new())
    }

    /// A loop with `f` applied to each block of its body, in order; any
    /// other block unchanged.
    pub fn map_loop<F: Fn(Block) -> Block>(self, f: F) -> (r: Block)
        requires
            self matches Block::Loop(body) ==> forall|i: int|
                0 <= i < body@.len() ==> call_requires(f, (#[trigger] body@[i],)),
        ensures
            !(self is Loop) ==> r == self,
            self matches Block::Loop(body) ==> {
                &&& r matches Block::Loop(out)
                &&& out@.len() == body@.len()
                &&& forall|i: int|
                    0 <= i < body@.len() ==> call_ensures(f, (body@[i],), #[trigger] out@[i])
            },
    {
        match self {
            Block::Loop(body) => {
                let ghost blocks = body@;
                let mut out: Vec<Block> = Vec::new();
                for b in it: body
                    invariant
                        it.seq() == blocks,
                        out@.len() == it.index(),
                        forall|i: int|
                            0 <= i < blocks.len() ==> call_requires(f, (#[trigger] blocks[i],)),
                        forall|i: int|
                            0 <= i < out@.len() ==> call_ensures(f, (blocks[i],), #[trigger] out@[i]),
                {
                    let mapped = f(b);
                    out.push(mapped);
                }
                Block::Loop(out)
            },
            other => other,
        }
    }

    /// Whether the block is a loop.
    pub fn is_loop(&self) -> (r: bool)
        ensures
            r == (self is Loop),
            r == (self.deep_view() is Loop),
    {
        match self {
            Block::Loop(_) => true,
            _ => false,
        }
    }
}

/// The parser at work: the stack of programs under construction and the
/// first error met.
pub struct ProgramBuilder {
    parsing_stack: Vec<Program>,
    err: Option<ParseError>,
}

impl View for ProgramBuilder {
    type V = ParseState;

    closed spec fn view(&self) -> ParseState {
        ParseState { stack: self.parsing_stack.deep_view(), err: self.err }
    }
}

impl ProgramBuilder {
    /// The outermost program is always on the stack.
    pub open spec fn wf(&self) -> bool {
        self@.stack.len() >= 1
    }

    /// The parser before the first token: one empty program on the stack.
    pub fn new() -> (r: ProgramBuilder)
        ensures
            r.wf(),
            r@ == start(),
    {
        let mut parsing_stack: Vec<Program> = Vec::new();
        parsing_stack.push(Vec::new());
        let r = ProgramBuilder { parsing_stack, err: None };
        assert(r@.stack =~~= start().stack);
        r
    }

    /// Takes one token. After an error nothing changes any more.
    pub fn add(&mut self, operation: Op)
        requires
            old(self).wf(),
        ensures
            final(self).wf(),
            final(self)@ == step(old(self)@, operation),
    {
        if self.err.is_some() {
            return ;
        }
        match operation {
            Op::LBr => self.start_loop(),
            Op::RBr => self.finish_loop(),
            t => self.add_to_latest_block(t),
        }
    }

    /// Appends an operation that is no bracket to the innermost program.
    pub fn add_to_latest_block(&mut self, t: Op)
        requires
            old(self).wf(),
            old(self)@.err is None,
            !(t is LBr || t is RBr),
        ensures
            final(self).wf(),
            final(self)@ == step(old(self)@, t),
    {
        let ghost before = self@;
        let mut top = self.parsing_stack.pop().unwrap();
        let ghost top_before = top.deep_view();
        assert(top_before == before.stack.last());
        let ghost below = self.parsing_stack.deep_view();
        assert(below =~= before.stack.drop_last());
        match top.pop() {
            Some(Block::Simple(ops)) => {
                let mut ops = ops;
                ops.push(t);
                top.push(Block::Simple(ops));
            },
            Some(other) => {
                top.push(other);
                let mut ops = Vec::new();
                ops.push(t);
                top.push(Block::Simple(ops));
            },
            None => {
                let mut ops = Vec::new();
                ops.push(t);
                top.push(Block::Simple(ops));
            },
        }
        assert(top.deep_view() =~= place(top_before, t));
        self.parsing_stack.push(top);
        assert(self@.stack =~= step(before, t).stack);
    }

    /// Closes the innermost loop, or records that there is none to close.
    pub fn finish_loop(&mut self)
        requires
            old(self).wf(),
            old(self)@.err is None,
        ensures
            final(self).wf(),
            final(self)@ == step(old(self)@, Op::RBr),
    {
        let ghost before = self@;
        if self.parsing_stack.len() <= 1 {
            self.err = Some(ParseError::UnbalancedClose);
            return ;
        }
        let finished_loop: Program = self.parsing_stack.pop().unwrap();
        let mut below = self.parsing_stack.pop().unwrap();
        proof {
            lemma_loop_view(finished_loop);
        }
        let ghost below_before = below.deep_view();
        below.push(Block::Loop(finished_loop));
        assert(below.deep_view() =~= below_before.push(SpecBlock::Loop(before.stack.last())));
        self.parsing_stack.push(below);
        assert(self@.stack =~= step(before, Op::RBr).stack);
    }

    /// Opens a loop.
    pub fn start_loop(&mut self)
        requires
            old(self).wf(),
            old(self)@.err is None,
        ensures
            final(self).wf(),
            final(self)@ == step(old(self)@, Op::LBr),
    {
        let ghost before = self@;
        self.parsing_stack.push(Vec::new());
        assert(self@.stack =~~= step(before, Op::LBr).stack);
    }

    /// The program, when the input ended outside every loop and no error was
    /// met; the error otherwise.
    pub fn finalize(self) -> (r: Result<Program, ParseError>)
        requires
            self.wf(),
        ensures
            match r {
                Ok(p) => finish(self@) == Ok::<Seq<SpecBlock>, ParseError>(p.deep_view()),
                Err(e) => finish(self@) == Err::<Seq<SpecBlock>, ParseError>(e),
            },
    {
        let mut builder = self;
        if let Some(err) = builder.err {
            return Err(err);
        }
        if builder.parsing_stack.len() == 1 {
            let p = builder.parsing_stack.pop().unwrap();
            Ok(p)
        } else {
            Err(ParseError::UnclosedLoop)
        }
    }
}

/// Parses a token stream into a program: the program whose flattening is
/// the token stream, when the brackets are balanced; the first structural
/// error otherwise.
pub fn parse(tokens: Vec<Op>) -> (r: Result<Program, ParseError>)
    ensures
        match r {
            Ok(p) => parsed(tokens@) == Ok::<Seq<SpecBlock>, ParseError>(p.deep_view()),
            Err(e) => parsed(tokens@) == Err::<Seq<SpecBlock>, ParseError>(e),
        },
        r is Ok <==> balanced(tokens@),
        r matches Ok(p) ==> {
            &&& flatten(p.deep_view()) == tokens@
            &&& well_formed(p.deep_view())
            &&& parsed_form(p.deep_view())
        },
        r matches Err(e) ==> e == if closes_early(tokens@) {
            ParseError::UnbalancedClose
        } else {
            ParseError::UnclosedLoop
        },
{
    let mut builder = ProgramBuilder::new();
    let n = tokens.len();
    let mut i: usize = 0;
    while i < n
        invariant
            n == tokens@.len(),
            i <= n,
            builder.wf(),
            builder@ == run(tokens@.take(i as int)),
        decreases n - i,
    {
        proof {
            assert(tokens@.take(i + 1).drop_last() == tokens@.take(i as int));
        }
        builder.add(tokens[i]);
        i += 1;
    }
    proof {
        assert(tokens@.take(n as int) == tokens@);
        lemma_run(tokens@);
    }
    builder.finalize()
}

} // verus!
