//! What a chain of operations of the intermediate representation means.
//!
//! The meaning is given by a machine like that of the reference
//! interpreter. It runs over the operations on the chain in their order;
//! a jump finds its partner by the nesting of the jumps on the chain, as
//! the compiler does. The machine stops where an operation uses a cell
//! that is not on the tape, or would move the data pointer below zero or
//! beyond what an index can hold.
use crate::brackets::{match_end, match_start};
use crate::interpreter::{Machine, Status};
use crate::ir::{ir_bracket_kind, ir_brackets, IrOp};
use crate::optimizer::{wrap_add, wrap_sub};
use vstd::prelude::*;

verus! {

/// Whether the data pointer is on the tape.
pub open spec fn on_tape(m: Machine, offset: int) -> bool {
    0 <= m.pointer + offset < m.tape.len()
}

/// What the machine can do with an operation that is no jump.
pub open spec fn plain_status(op: IrOp, input: Seq<u8>, m: Machine) -> Status {
    match op {
        IrOp::Noop(_) => Status::Running,
        IrOp::Right(_, n) => if m.pointer + n > usize::MAX {
            Status::PointerOutOfRange
        } else {
            Status::Running
        },
        IrOp::Left(_, n) => if m.pointer - n < 0 {
            Status::PointerOutOfRange
        } else {
            Status::Running
        },
        IrOp::Read(_) => if m.consumed >= input.len() {
            Status::NeedsInput
        } else if !on_tape(m, 0) {
            Status::PointerOutOfRange
        } else {
            Status::Running
        },
        IrOp::MulCopy(_, offset, _) => if on_tape(m, 0) && on_tape(m, offset as int) {
            Status::Running
        } else {
            Status::PointerOutOfRange
        },
        _ => if on_tape(m, 0) {
            Status::Running
        } else {
            Status::PointerOutOfRange
        },
    }
}

/// What an operation that is no jump does to the machine, but for the
/// position in the code.
pub open spec fn apply(op: IrOp, input: Seq<u8>, m: Machine) -> Machine {
    match op {
        IrOp::Right(_, n) => Machine { pointer: m.pointer + n, ..m },
        IrOp::Left(_, n) => Machine { pointer: m.pointer - n, ..m },
        IrOp::Add(_, n) => Machine {
            tape: m.tape.update(m.pointer, wrap_add(m.tape[m.pointer], n)),
            ..m
        },
        IrOp::Sub(_, n) => Machine {
            tape: m.tape.update(m.pointer, wrap_sub(m.tape[m.pointer], n)),
            ..m
        },
        IrOp::SetIndirect(_, c) => Machine { tape: m.tape.update(m.pointer, c), ..m },
        IrOp::MulCopy(_, offset, factor) => Machine {
            tape: m.tape.update(
                m.pointer + offset,
                ((m.tape[m.pointer + offset] + m.tape[m.pointer] * factor) % 256) as u8,
            ).update(m.pointer, 0),
            ..m
        },
        IrOp::Write(_) => Machine { output: m.output.push(m.tape[m.pointer]), ..m },
        IrOp::Read(_) => Machine {
            tape: m.tape.update(m.pointer, input[m.consumed]),
            consumed: m.consumed + 1,
            ..m
        },
        _ => m,
    }
}

/// What the machine can do next.
pub open spec fn ir_status(code: Seq<IrOp>, input: Seq<u8>, m: Machine) -> Status {
    if !(0 <= m.pc < code.len()) {
        Status::Halted
    } else if ir_bracket_kind(code[m.pc]) != 0 {
        if on_tape(m, 0) {
            Status::Running
        } else {
            Status::PointerOutOfRange
        }
    } else {
        plain_status(code[m.pc], input, m)
    }
}

/// The machine after its next operation. A jump on zero leads behind its
/// partner if the cell is zero; a jump on not zero leads back to its
/// partner if the cell is not zero.
pub open spec fn ir_step(code: Seq<IrOp>, input: Seq<u8>, m: Machine) -> Machine {
    match code[m.pc] {
        IrOp::JumpIfZero(_, _) => if m.tape[m.pointer] == 0 {
            Machine { pc: match_end(ir_brackets(code), m.pc) + 1, ..m }
        } else {
            Machine { pc: m.pc + 1, ..m }
        },
        IrOp::JumpIfNotZero(_, _) => if m.tape[m.pointer] != 0 {
            Machine { pc: match_start(ir_brackets(code), m.pc), ..m }
        } else {
            Machine { pc: m.pc + 1, ..m }
        },
        op => Machine { pc: m.pc + 1, ..apply(op, input, m) },
    }
}

/// The machine after up to `n` operations: it stops early where it cannot
/// go on.
pub open spec fn ir_run(code: Seq<IrOp>, input: Seq<u8>, m: Machine, n: nat) -> Machine
    decreases n,
{
    if n == 0 || ir_status(code, input, m) != Status::Running {
        m
    } else {
        ir_run(code, input, ir_step(code, input, m), (n - 1) as nat)
    }
}

/// The machine at the start of a run: at the first operation, with the data
/// pointer on the first cell of a tape of zeros, nothing read and nothing
/// written.
pub open spec fn initial(cells: nat) -> Machine {
    Machine {
        pc: 0,
        pointer: 0,
        tape: Seq::new(cells, |i: int| 0u8),
        consumed: 0,
        output: Seq::empty(),
    }
}

/// Two machines differ in the position in the code at most.
pub open spec fn same_data(a: Machine, b: Machine) -> bool {
    &&& a.pointer == b.pointer
    &&& a.tape == b.tape
    &&& a.consumed == b.consumed
    &&& a.output == b.output
}

/// Running `a` operations and then `b` more is running `a + b`.
pub proof fn lemma_ir_run_split(code: Seq<IrOp>, input: Seq<u8>, m: Machine, a: nat, b: nat)
    ensures
        ir_run(code, input, ir_run(code, input, m, a), b) == ir_run(code, input, m, a + b),
    decreases a,
{
    if a == 0 {
    } else if ir_status(code, input, m) != Status::Running {
        lemma_ir_run_stopped(code, input, m, b);
    } else {
        lemma_ir_run_split(code, input, ir_step(code, input, m), (a - 1) as nat, b);
    }
}

/// A machine that has stopped stays as it is.
pub proof fn lemma_ir_run_stopped(code: Seq<IrOp>, input: Seq<u8>, m: Machine, n: nat)
    requires
        ir_status(code, input, m) != Status::Running,
    ensures
        ir_run(code, input, m, n) == m,
{
    if n > 0 {
    }
}

} // verus!
