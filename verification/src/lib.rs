//! A just-in-time compiler for Brainfuck that targets x86-64.
//!
//! Source text is parsed into a [`brainfuck::Program`], turned into a linked
//! intermediate representation ([`ir::IrCode`]), optimised by peephole
//! rewrites ([`optimizer`]) and compiled to machine code
//! ([`compiler::Brainfuck`]) with the instruction encoder of [`assembler`].
//!
//! Two interpreters give the programs their meaning: [`interpreter`] runs a
//! program as it was parsed, [`ir_interpreter`] runs a chain of the
//! intermediate representation, whose meaning [`semantics`] defines.
//! [`soundness`] proves that optimisation keeps the meaning, and
//! [`encodings`] lists the bytes of every instruction for a choice of
//! registers.
pub mod assembler;
pub mod brackets;
pub mod brainfuck;
pub mod compiler;
pub mod encodings;
pub mod interpreter;
pub mod ir;
pub mod ir_interpreter;
pub mod labels;
pub mod optimizer;
pub mod semantics;
pub mod soundness;
