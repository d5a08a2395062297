//! An ahead-of-time compiler for an eight-instruction tape-machine language.
//!
//! A source text is lexed into run-length folded operations, parsed into a
//! tree of blocks, optimized by pattern rewrites on loops, and compiled to a
//! typed SSA form, which LLVM turns into a relocatable object.
//!
//! The meaning of programs and of generated code is given by a reference
//! machine, and both the optimizer and the code generator are proved to
//! preserve it.

pub mod args;
pub mod lexer;
pub mod folding;
pub mod parser;
pub mod balance;
pub mod optimizations;
pub mod optimizer;
pub mod ir;
pub mod llvm_ir_gen;
pub mod semantics;
pub mod equivalence;
pub mod ir_semantics;
pub mod lowering;
