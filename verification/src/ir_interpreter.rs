//! An interpreter for chains of the intermediate representation. It runs
//! the machine that gives the representation its meaning.
use crate::brackets::{
    balanced, depth, has_match_end, has_match_start, is_bracket_word, is_match_end,
    is_match_start, lemma_balanced_has_match_end, lemma_balanced_has_match_start,
    lemma_match_end_unique, lemma_match_start_unique, match_end, match_start,
};
use crate::brainfuck::MAX_MEMORY;
use crate::interpreter::{Machine, Status};
use crate::ir::{ir_bracket_kind, ir_brackets, IrOp};
use crate::semantics::{ir_run, ir_status, ir_step, lemma_ir_run_split};
use vstd::prelude::*;

verus! {

/// The position of the jump on not zero that belongs to the jump on zero at
/// `start`.
pub fn find_jump_end(code: &Vec<IrOp>, start: usize) -> (pos: usize)
    requires
        has_match_end(ir_brackets(code@), start as int),
    ensures
        is_match_end(ir_brackets(code@), start as int, pos as int),
{
    let ghost b = ir_brackets(code@);
    let ghost end = match_end(b, start as int);
    let mut pos: usize = start;
    let mut level: i128 = 0;
    loop
        invariant
            b == ir_brackets(code@),
            is_match_end(b, start as int, end),
            start <= pos <= end,
            level == depth(b, pos as int) - depth(b, start as int),
            -(pos - start) <= level <= pos - start,
            forall|k: int| start < k <= pos ==> #[trigger] depth(b, k) != depth(b, start as int),
        decreases end - pos,
    {
        assert(depth(b, pos + 1) == depth(b, pos as int) + b[pos as int]);
        match code[pos] {
            IrOp::JumpIfZero(_, _) => {
                level += 1;
            },
            IrOp::JumpIfNotZero(_, _) => {
                level -= 1;
            },
            _ => {},
        }
        assert(level == depth(b, pos + 1) - depth(b, start as int));
        if level == 0 {
            return pos;
        }
        assert(pos < end < code.len());
        pos += 1;
    }
}

/// The position of the jump on zero that belongs to the jump on not zero at
/// `end`.
pub fn find_jump_start(code: &Vec<IrOp>, end: usize) -> (pos: usize)
    requires
        has_match_start(ir_brackets(code@), end as int),
    ensures
        is_match_start(ir_brackets(code@), end as int, pos as int),
{
    let ghost b = ir_brackets(code@);
    let ghost start = match_start(b, end as int);
    let mut pos: usize = end;
    let mut level: i128 = 0;
    loop
        invariant
            b == ir_brackets(code@),
            is_match_start(b, end as int, start),
            start <= pos <= end,
            level == depth(b, pos + 1) - depth(b, end + 1),
            -(end - pos) <= level <= end - pos,
            forall|k: int| pos < k <= end ==> #[trigger] depth(b, k) != depth(b, end + 1),
        decreases pos - start,
    {
        assert(depth(b, pos + 1) == depth(b, pos as int) + b[pos as int]);
        match code[pos] {
            IrOp::JumpIfZero(_, _) => {
                level -= 1;
            },
            IrOp::JumpIfNotZero(_, _) => {
                level += 1;
            },
            _ => {},
        }
        assert(level == depth(b, pos as int) - depth(b, end + 1));
        if level == 0 {
            return pos;
        }
        assert(pos > start);
        pos -= 1;
    }
}

/// An interpreter for a chain of operations, with the bytes it may read
/// and the bytes it has written.
pub struct IrInterpreter {
    /// The operations of the chain, in order.
    pub code: Vec<IrOp>,
    pub program_counter: usize,
    pub memory_pointer: usize,
    pub memory: [u8; MAX_MEMORY],
    /// The input, of which the first `input_position` bytes are taken.
    pub input: Vec<u8>,
    pub input_position: usize,
    pub output: Vec<u8>,
}

impl View for IrInterpreter {
    type V = Machine;

    open spec fn view(&self) -> Machine {
        Machine {
            pc: self.program_counter as int,
            pointer: self.memory_pointer as int,
            tape: self.memory@,
            consumed: self.input_position as int,
            output: self.output@,
        }
    }
}

impl IrInterpreter {
    /// An interpreter at the start of `code`, with a tape of zeros.
    pub fn new(code: Vec<IrOp>, input: Vec<u8>) -> (vm: Self)
        ensures
            vm.code@ == code@,
            vm.input@ == input@,
            vm@ == crate::semantics::initial(MAX_MEMORY as nat),
    {
        let vm = IrInterpreter {
            code,
            program_counter: 0,
            memory_pointer: 0,
            memory: [0u8;MAX_MEMORY],
            input,
            input_position: 0,
            output: Vec::new(),
        };
        assert(vm@.tape =~= Seq::new(MAX_MEMORY as nat, |i: int| 0u8));
        vm
    }

    /// The cell at `address`.
    pub fn memory_at(&self, address: usize) -> (value: u8)
        requires
            address < MAX_MEMORY,
        ensures
            value == self@.tape[address as int],
    {
        self.memory[address]
    }

    /// Whether every jump of the code has its partner.
    pub fn is_balanced(&self) -> (ok: bool)
        ensures
            ok == balanced(ir_brackets(self.code@)),
    {
        let ghost b = ir_brackets(self.code@);
        let mut level: usize = 0;
        let mut pos: usize = 0;
        while pos < self.code.len()
            invariant
                b == ir_brackets(self.code@),
                pos <= self.code.len(),
                level == depth(b, pos as int),
                level <= pos,
                forall|k: int| 0 <= k <= pos ==> depth(b, k) >= 0,
            decreases self.code.len() - pos,
        {
            assert(depth(b, pos + 1) == depth(b, pos as int) + b[pos as int]);
            match self.code[pos] {
                IrOp::JumpIfZero(_, _) => {
                    level += 1;
                },
                IrOp::JumpIfNotZero(_, _) => {
                    if level == 0 {
                        assert(depth(b, pos + 1) < 0);
                        return false;
                    }
                    level -= 1;
                },
                _ => {},
            }
            pos += 1;
        }
        level == 0
    }

    /// What the interpreter can do next.
    pub fn status(&self) -> (st: Status)
        ensures
            st == ir_status(self.code@, self.input@, self@),
    {
        if self.program_counter >= self.code.len() {
            return Status::Halted;
        }
        let on_tape: bool = self.memory_pointer < MAX_MEMORY;
        match self.code[self.program_counter] {
            IrOp::Noop(_) => Status::Running,
            IrOp::Right(_, n) => if n as usize > usize::MAX - self.memory_pointer {
                Status::PointerOutOfRange
            } else {
                Status::Running
            },
            IrOp::Left(_, n) => if n as usize > self.memory_pointer {
                Status::PointerOutOfRange
            } else {
                Status::Running
            },
            IrOp::Read(_) => if self.input_position >= self.input.len() {
                Status::NeedsInput
            } else if !on_tape {
                Status::PointerOutOfRange
            } else {
                Status::Running
            },
            IrOp::MulCopy(_, offset, _) => {
                if !on_tape {
                    Status::PointerOutOfRange
                } else {
                    let target: i64 = self.memory_pointer as i64 + offset as i64;
                    if 0 <= target && target < MAX_MEMORY as i64 {
                        Status::Running
                    } else {
                        Status::PointerOutOfRange
                    }
                }
            },
            _ => if on_tape {
                Status::Running
            } else {
                Status::PointerOutOfRange
            },
        }
    }

    /// Carries out the next operation, if there is one that can be carried
    /// out, and says what the interpreter could do before the call.
    pub fn step(&mut self) -> (st: Status)
        requires
            balanced(ir_brackets(old(self).code@)),
        ensures
            final(self).code@ == old(self).code@,
            final(self).input@ == old(self).input@,
            st == ir_status(old(self).code@, old(self).input@, old(self)@),
            st == Status::Running ==> final(self)@ == ir_step(
                old(self).code@,
                old(self).input@,
                old(self)@,
            ),
            st != Status::Running ==> final(self)@ == old(self)@,
    {
        let st = self.status();
        match st {
            Status::Running => {},
            _ => {
                return st;
            },
        }
        let ghost b = ir_brackets(self.code@);
        let pc: usize = self.program_counter;
        let length: usize = self.code.len();
        let pointer: usize = self.memory_pointer;
        proof {
            assert(pc < length);
            assert(b[pc as int] == ir_bracket_kind(self.code@[pc as int]));
            assert(is_bracket_word(b));
        }
        match self.code[pc] {
            IrOp::Noop(_) => {
                self.program_counter = pc + 1;
            },
            IrOp::Right(_, n) => {
                self.memory_pointer = pointer + n as usize;
                self.program_counter = pc + 1;
            },
            IrOp::Left(_, n) => {
                self.memory_pointer = pointer - n as usize;
                self.program_counter = pc + 1;
            },
            IrOp::Add(_, n) => {
                let value: u8 = self.memory[pointer];
                self.memory[pointer] = ((value as u16 + n as u16) % 256) as u8;
                self.program_counter = pc + 1;
            },
            IrOp::Sub(_, n) => {
                let value: u8 = self.memory[pointer];
                self.memory[pointer] = ((value as u16 + 256 - n as u16) % 256) as u8;
                self.program_counter = pc + 1;
            },
            IrOp::SetIndirect(_, c) => {
                self.memory[pointer] = c;
                self.program_counter = pc + 1;
            },
            IrOp::MulCopy(_, offset, factor) => {
                let target: usize = (pointer as i64 + offset as i64) as usize;
                let source: u32 = self.memory[pointer] as u32;
                let scale: u32 = factor as u32;
                assert(source * scale <= 65025) by (nonlinear_arith)
                    requires
                        source <= 255,
                        scale <= 255,
                ;
                let sum: u32 = self.memory[target] as u32 + source * scale;
                self.memory[target] = (sum % 256) as u8;
                self.memory[pointer] = 0;
                self.program_counter = pc + 1;
            },
            IrOp::Write(_) => {
                let value: u8 = self.memory[pointer];
                self.output.push(value);
                self.program_counter = pc + 1;
            },
            IrOp::Read(_) => {
                let available: usize = self.input.len();
                let value: u8 = self.input[self.input_position];
                assert(self.input_position < available);
                self.input_position += 1;
                self.memory[pointer] = value;
                self.program_counter = pc + 1;
            },
            IrOp::JumpIfZero(_, _) => {
                if self.memory[pointer] == 0 {
                    proof {
                        lemma_balanced_has_match_end(b, pc as int);
                    }
                    let end = find_jump_end(&self.code, pc);
                    proof {
                        lemma_match_end_unique(b, pc as int, end as int, match_end(b, pc as int));
                    }
                    self.program_counter = end + 1;
                } else {
                    self.program_counter = pc + 1;
                }
            },
            IrOp::JumpIfNotZero(_, _) => {
                if self.memory[pointer] != 0 {
                    proof {
                        lemma_balanced_has_match_start(b, pc as int);
                    }
                    let begin = find_jump_start(&self.code, pc);
                    proof {
                        lemma_match_start_unique(
                            b,
                            pc as int,
                            begin as int,
                            match_start(b, pc as int),
                        );
                    }
                    self.program_counter = begin;
                } else {
                    self.program_counter = pc + 1;
                }
            },
        }
        st
    }

    /// Carries out up to `max_steps` operations and says what the
    /// interpreter can do then. It stops early where it cannot go on: at
    /// the end of the code, at a read without input, and where the data
    /// pointer leaves its range.
    pub fn run(&mut self, max_steps: u64) -> (st: Status)
        requires
            balanced(ir_brackets(old(self).code@)),
        ensures
            final(self).code@ == old(self).code@,
            final(self).input@ == old(self).input@,
            st == ir_status(final(self).code@, final(self).input@, final(self)@),
            exists|n: nat|
                n <= max_steps && final(self)@ == ir_run(
                    old(self).code@,
                    old(self).input@,
                    old(self)@,
                    n,
                ) && (st == Status::Running ==> n == max_steps),
    {
        let mut left: u64 = max_steps;
        let ghost code = self.code@;
        let ghost input = self.input@;
        let ghost start = self@;
        loop
            invariant
                self.code@ == old(self).code@,
                self.input@ == old(self).input@,
                code == self.code@,
                input == self.input@,
                start == old(self)@,
                balanced(ir_brackets(code)),
                left <= max_steps,
                self@ == ir_run(code, input, start, (max_steps - left) as nat),
            decreases left,
        {
            if left == 0 {
                return self.status();
            }
            let st = self.step();
            proof {
                lemma_ir_run_split(code, input, start, (max_steps - left) as nat, 1);
                reveal_with_fuel(ir_run, 2);
            }
            match st {
                Status::Running => {},
                _ => {
                    return st;
                },
            }
            left -= 1;
        }
    }
}

} // verus!
