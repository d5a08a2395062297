//! Lexing: source characters to run-length folded operations.
//!
//! Every character that is not one of the eight instructions is a comment
//! and is dropped. Adjacent reducible operations of one kind are folded into
//! a single operation whose payload is their wrapped sum.

use vstd::prelude::*;
use crate::folding::{folded, lemma_lex_folded};

verus! {

/// One operation of the tape machine, as the lexer produces it.
#[derive(Clone, Copy, Debug, PartialEq, Eq, Structural)]
pub enum Op {
    /// Add the payload to the current cell.
    Modify(i16),
    /// Add the payload to the tape position.
    Move(i16),
    /// Emit the current cell payload-many times.
    Outp(u16),
    /// Read into the current cell payload-many times.
    Inp(u16),
    /// Loop open.
    LBr,
    /// Loop close.
    RBr,
}

impl Op {
    /// Whether adjacent operations of this kind merge by summing payloads.
    pub open spec fn reducible(self) -> bool {
        self is Modify || self is Move || self is Outp || self is Inp
    }

    /// Whether two operations carry the same tag, whatever their payloads.
    pub open spec fn same_tag(self, other: Op) -> bool {
        match (self, other) {
            (Op::Modify(_), Op::Modify(_)) => true,
            (Op::Move(_), Op::Move(_)) => true,
            (Op::Outp(_), Op::Outp(_)) => true,
            (Op::Inp(_), Op::Inp(_)) => true,
            (Op::LBr, Op::LBr) => true,
            (Op::RBr, Op::RBr) => true,
            _ => false,
        }
    }

    /// The payload as a mathematical integer; a bracket counts as one.
    pub open spec fn payload(self) -> int {
        match self {
            Op::Modify(x) => x as int,
            Op::Move(x) => x as int,
            Op::Outp(x) => x as int,
            Op::Inp(x) => x as int,
            Op::LBr => 1,
            Op::RBr => 1,
        }
    }

    /// The operation that a source character stands for; `None` for a comment.
    pub open spec fn of_char(c: char) -> Option<Op> {
        if c == '+' {
            Some(Op::Modify(1))
        } else if c == '-' {
            Some(Op::Modify(-1i16))
        } else if c == '>' {
            Some(Op::Move(1))
        } else if c == '<' {
            Some(Op::Move(-1i16))
        } else if c == '[' {
            Some(Op::LBr)
        } else if c == ']' {
            Some(Op::RBr)
        } else if c == ',' {
            Some(Op::Inp(1))
        } else if c == '.' {
            Some(Op::Outp(1))
        } else {
            None
        }
    }

    /// The operation of `self`'s kind that stands for `self` followed by
    /// `next`: payloads add and wrap at their width. Meant for two reducible
    /// operations of one tag; any other pair gives `self` back.
    pub open spec fn merged(self, next: Op) -> Op {
        match (self, next) {
            (Op::Modify(x), Op::Modify(y)) => Op::Modify(x.wrapping_add(y)),
            (Op::Move(x), Op::Move(y)) => Op::Move(x.wrapping_add(y)),
            (Op::Outp(x), Op::Outp(y)) => Op::Outp(x.wrapping_add(y)),
            (Op::Inp(x), Op::Inp(y)) => Op::Inp(x.wrapping_add(y)),
            _ => self,
        }
    }

    /// Whether adjacent operations of this kind merge: true of the four
    /// kinds that carry a payload.
    pub fn is_reducible(&self) -> (r: bool)
        ensures
            r == self.reducible(),
    {
        match self {
            Op::Modify(_) => true,
            Op::Move(_) => true,
            Op::Outp(_) => true,
            Op::Inp(_) => true,
            _ => false,
        }
    }

    /// Whether the two operations carry the same tag.
    pub fn is_same_operation(&self, other: &Op) -> (r: bool)
        ensures
            r == self.same_tag(*other),
    {
        match (self, other) {
            (Op::Modify(_), Op::Modify(_)) => true,
            (Op::Move(_), Op::Move(_)) => true,
            (Op::Outp(_), Op::Outp(_)) => true,
            (Op::Inp(_), Op::Inp(_)) => true,
            (Op::LBr, Op::LBr) => true,
            (Op::RBr, Op::RBr) => true,
            _ => false,
        }
    }

    /// The payload in sixteen signed bits. A count above `i16::MAX` is
    /// reinterpreted, bit for bit; a bracket counts as one.
    pub fn get_val(&self) -> (r: i16)
        ensures
            r == match *self {
                Op::Modify(x) => x,
                Op::Move(x) => x,
                Op::Outp(x) => x as i16,
                Op::Inp(x) => x as i16,
                Op::LBr => 1i16,
                Op::RBr => 1i16,
            },
            (self is Modify || self is Move) ==> r == self.payload(),
            (self is Outp || self is Inp) && self.payload() <= i16::MAX ==> r == self.payload(),
    {
        match self {
            Op::Modify(x) => *x,
            Op::Move(x) => *x,
            Op::Outp(x) => #[verifier::truncate] (*x as i16),
            Op::Inp(x) => #[verifier::truncate] (*x as i16),
            Op::LBr => 1,
            Op::RBr => 1,
        }
    }

    /// Whether the operation opens or closes a loop.
    pub fn is_brace(&self) -> (r: bool)
        ensures
            r == (self is LBr || self is RBr),
    {
        match self {
            Op::LBr | Op::RBr => true,
            _ => false,
        }
    }

    /// The operation that a source character stands for; `None` for a
    /// comment.
    pub fn from_char(c: char) -> (r: Option<Op>)
        ensures
            r == Op::of_char(c),
    {
        match c {
            '+' => Some(Op::Modify(1)),
            '-' => Some(Op::Modify(-1)),
            '>' => Some(Op::Move(1)),
            '<' => Some(Op::Move(-1)),
            '[' => Some(Op::LBr),
            ']' => Some(Op::RBr),
            ',' => Some(Op::Inp(1)),
            '.' => Some(Op::Outp(1)),
            _ => None,
        }
    }
}

/// One step of the fold: `next` merges into the last operation of `acc` when
/// that one is reducible and of the same tag, and is appended otherwise.
pub open spec fn squashed(acc: Seq<Op>, next: Op) -> Seq<Op> {
    if acc.len() > 0 && acc.last().reducible() && acc.last().same_tag(next) {
        acc.drop_last().push(acc.last().merged(next))
    } else {
        acc.push(next)
    }
}

/// The fold of `squashed` over the operations of `text`, left to right,
/// starting from `acc`. Comments are skipped.
pub open spec fn lex_onto(acc: Seq<Op>, text: Seq<char>) -> Seq<Op>
    decreases text.len(),
{
    if text.len() == 0 {
        acc
    } else {
        let before = lex_onto(acc, text.drop_last());
        match Op::of_char(text.last()) {
            Some(op) => squashed(before, op),
            None => before,
        }
    }
}

/// What lexing a source text gives.
pub open spec fn lex(text: Seq<char>) -> Seq<Op> {
    lex_onto(Seq::empty(), text)
}

/// One step of the fold: merges `next_token` into the last operation when
/// that one is reducible and of the same tag, and appends it otherwise.
pub fn squash(vec: Vec<Op>, next_token: Op) -> (r: Vec<Op>)
    ensures
        r@ == squashed(vec@, next_token),
{
    let ghost before = vec@;
    let mut vec = vec;
    let n = vec.len();
    if n == 0 {
        vec.push(next_token);
        return vec;
    }
    let token = vec[n - 1];
    if !token.is_reducible() {
        vec.push(next_token);
        return vec;
    }
    if !token.is_same_operation(&next_token) {
        vec.push(next_token);
        return vec;
    }
    let merged = match (token, next_token) {
        (Op::Move(x), Op::Move(y)) => Op::Move(x.wrapping_add(y)),
        (Op::Modify(x), Op::Modify(y)) => Op::Modify(x.wrapping_add(y)),
        (Op::Outp(x), Op::Outp(y)) => Op::Outp(x.wrapping_add(y)),
        (Op::Inp(x), Op::Inp(y)) => Op::Inp(x.wrapping_add(y)),
        _ => token,
    };
    vec.set(n - 1, merged);
    assert(vec@ =~= squashed(before, next_token));
    vec
}

/// Lexes a source text: comments are dropped and runs are folded, so that
/// no two neighbours of the output are reducible operations of one tag.
pub fn parse(program: &String) -> (r: Vec<Op>)
    ensures
        r@ == lex(program@),
        folded(r@),
{
    let mut acc: Vec<Op> = Vec::new();
    for c in it: program.as_str().chars()
        invariant
            it.seq() == program@,
            acc@ == lex(program@.take(it.index() as int)),
    {
        proof {
            let i = it.index() as int;
            assert(program@.take(i + 1).drop_last() == program@.take(i));
        }
        acc = match Op::from_char(c) {
            Some(op) => squash(acc, op),
            None => acc,
        };
    }
    proof {
        assert(program@.take(program@.len() as int) == program@);
        lemma_lex_folded(program@);
    }
    acc
}

} // verus!
