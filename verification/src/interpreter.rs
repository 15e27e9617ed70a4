//! A reference interpreter: runs a program operation by operation on a tape
//! of bytes, with its input and output held in memory.
use crate::brackets::{
    is_bracket_word, lemma_balanced_has_match_end, lemma_balanced_has_match_start,
    lemma_match_end_unique, lemma_match_start_unique, match_end, match_start,
};
use crate::brainfuck::{bracket_kind, brackets_of, Op, Program, MAX_MEMORY};
use vstd::prelude::*;

verus! {

/// The state of a run: the position in the program, the data pointer, the
/// tape, the number of input bytes taken and the output so far.
pub struct Machine {
    pub pc: int,
    pub pointer: int,
    pub tape: Seq<u8>,
    pub consumed: int,
    pub output: Seq<u8>,
}

/// What a machine can do next.
#[derive(Clone, Copy, Debug, PartialEq, Eq, Structural)]
pub enum Status {
    /// The next operation can be carried out.
    Running,
    /// The program has come to its end.
    Halted,
    /// The next operation reads a byte and the input has none left.
    NeedsInput,
    /// The next operation would use a cell that is not on the tape, or move
    /// the data pointer below zero or beyond what an index can hold.
    PointerOutOfRange,
}

/// The byte that follows `x`, modulo 256.
pub open spec fn successor(x: u8) -> u8 {
    if x == 255 {
        0
    } else {
        (x + 1) as u8
    }
}

/// The byte in front of `x`, modulo 256.
pub open spec fn predecessor(x: u8) -> u8 {
    if x == 0 {
        255
    } else {
        (x - 1) as u8
    }
}

/// What the machine can do next.
pub open spec fn status(program: Seq<Op>, input: Seq<u8>, m: Machine) -> Status {
    if !(0 <= m.pc < program.len()) {
        Status::Halted
    } else {
        match program[m.pc] {
            Op::IncrementPtr => if m.pointer >= usize::MAX {
                Status::PointerOutOfRange
            } else {
                Status::Running
            },
            Op::DecrementPtr => if m.pointer <= 0 {
                Status::PointerOutOfRange
            } else {
                Status::Running
            },
            Op::ReadByte => if m.consumed >= input.len() {
                Status::NeedsInput
            } else if !(0 <= m.pointer < m.tape.len()) {
                Status::PointerOutOfRange
            } else {
                Status::Running
            },
            _ => if !(0 <= m.pointer < m.tape.len()) {
                Status::PointerOutOfRange
            } else {
                Status::Running
            },
        }
    }
}

/// The machine after its next operation. An opening bracket leads behind
/// its closing bracket if the cell is zero; a closing bracket leads back to
/// its opening bracket if the cell is not zero.
pub open spec fn step(program: Seq<Op>, input: Seq<u8>, m: Machine) -> Machine {
    let next = Machine { pc: m.pc + 1, ..m };
    match program[m.pc] {
        Op::IncrementPtr => Machine { pointer: m.pointer + 1, ..next },
        Op::DecrementPtr => Machine { pointer: m.pointer - 1, ..next },
        Op::IncrementMemory => Machine {
            tape: m.tape.update(m.pointer, successor(m.tape[m.pointer])),
            ..next
        },
        Op::DecrementMemory => Machine {
            tape: m.tape.update(m.pointer, predecessor(m.tape[m.pointer])),
            ..next
        },
        Op::ReadByte => Machine {
            tape: m.tape.update(m.pointer, input[m.consumed]),
            consumed: m.consumed + 1,
            ..next
        },
        Op::WriteByte => Machine { output: m.output.push(m.tape[m.pointer]), ..next },
        Op::JumpForward => if m.tape[m.pointer] == 0 {
            Machine { pc: match_end(brackets_of(program), m.pc) + 1, ..m }
        } else {
            next
        },
        Op::JumpBackward => if m.tape[m.pointer] != 0 {
            Machine { pc: match_start(brackets_of(program), m.pc), ..m }
        } else {
            next
        },
    }
}

/// The machine after up to `n` operations: it stops early where it cannot
/// go on.
pub open spec fn run(program: Seq<Op>, input: Seq<u8>, m: Machine, n: nat) -> Machine
    decreases n,
{
    if n == 0 || status(program, input, m) != Status::Running {
        m
    } else {
        run(program, input, step(program, input, m), (n - 1) as nat)
    }
}

/// Running `a` operations and then `b` more is running `a + b`.
pub proof fn lemma_run_split(program: Seq<Op>, input: Seq<u8>, m: Machine, a: nat, b: nat)
    ensures
        run(program, input, run(program, input, m, a), b) == run(program, input, m, a + b),
    decreases a,
{
    if a == 0 {
    } else if status(program, input, m) != Status::Running {
        assert(run(program, input, m, b) == m);
    } else {
        lemma_run_split(program, input, step(program, input, m), (a - 1) as nat, b);
    }
}

/// An interpreter for a program, with the bytes it may read and the bytes
/// it has written.
pub struct Interpreter<'a> {
    pub program_counter: usize,
    pub memory_pointer: usize,
    pub program: &'a Program,
    pub memory: [u8; MAX_MEMORY],
    /// The input, of which the first `input_position` bytes are taken.
    pub input: Vec<u8>,
    pub input_position: usize,
    pub output: Vec<u8>,
}

impl<'a> View for Interpreter<'a> {
    type V = Machine;

    open spec fn view(&self) -> Machine {
        Machine {
            pc: self.program_counter as int,
            pointer: self.memory_pointer as int,
            tape: self.memory@,
            consumed: self.input_position as int,
            output: self.output@,
        }
    }
}

impl<'a> Interpreter<'a> {
    /// An interpreter at the start of `program`, with a tape of zeros.
    pub fn new(program: &'a Program, input: Vec<u8>) -> (vm: Self)
        ensures
            vm.program == program,
            vm.input@ == input@,
            vm@ == (Machine {
                pc: 0,
                pointer: 0,
                tape: Seq::new(MAX_MEMORY as nat, |i: int| 0u8),
                consumed: 0,
                output: Seq::empty(),
            }),
    {
        let vm = Interpreter {
            program_counter: 0,
            memory_pointer: 0,
            program,
            memory: [0u8;MAX_MEMORY],
            input,
            input_position: 0,
            output: Vec::new(),
        };
        assert(vm@.tape =~= Seq::new(MAX_MEMORY as nat, |i: int| 0u8));
        vm
    }

    /// The cell at `address`.
    pub fn memory_at(&self, address: usize) -> (value: u8)
        requires
            address < MAX_MEMORY,
        ensures
            value == self@.tape[address as int],
    {
        self.memory[address]
    }

    /// What the interpreter can do next.
    pub fn status(&self) -> (st: Status)
        ensures
            st == status(self.program@, self.input@, self@),
    {
        if self.program_counter >= self.program.instructions.len() {
            return Status::Halted;
        }
        match self.program.instructions[self.program_counter] {
            Op::IncrementPtr => if self.memory_pointer == usize::MAX {
                Status::PointerOutOfRange
            } else {
                Status::Running
            },
            Op::DecrementPtr => if self.memory_pointer == 0 {
                Status::PointerOutOfRange
            } else {
                Status::Running
            },
            Op::ReadByte => if self.input_position >= self.input.len() {
                Status::NeedsInput
            } else if self.memory_pointer >= MAX_MEMORY {
                Status::PointerOutOfRange
            } else {
                Status::Running
            },
            _ => if self.memory_pointer >= MAX_MEMORY {
                Status::PointerOutOfRange
            } else {
                Status::Running
            },
        }
    }

    /// Carries out the next operation, if there is one that can be carried
    /// out, and says what the interpreter could do before the call.
    pub fn step(&mut self) -> (st: Status)
        requires
            old(self).program.well_nested(),
        ensures
            final(self).program == old(self).program,
            final(self).input@ == old(self).input@,
            st == status(old(self).program@, old(self).input@, old(self)@),
            st == Status::Running ==> final(self)@ == step(
                old(self).program@,
                old(self).input@,
                old(self)@,
            ),
            st != Status::Running ==> final(self)@ == old(self)@,
    {
        let st = self.status();
        match st {
            Status::Running => {},
            _ => {
                return st;
            },
        }
        let ghost b = self.program.brackets();
        let pc: usize = self.program_counter;
        let length: usize = self.program.instructions.len();
        proof {
            assert(pc < length);
            assert(b[pc as int] == bracket_kind(self.program@[pc as int]));
            assert(is_bracket_word(b));
        }
        match self.program.instructions[pc] {
            Op::IncrementPtr => {
                self.memory_pointer += 1;
                self.program_counter = pc + 1;
            },
            Op::DecrementPtr => {
                self.memory_pointer -= 1;
                self.program_counter = pc + 1;
            },
            Op::IncrementMemory => {
                let value: u8 = self.memory[self.memory_pointer];
                self.memory[self.memory_pointer] = if value == 255 {
                    0
                } else {
                    value + 1
                };
                self.program_counter = pc + 1;
            },
            Op::DecrementMemory => {
                let value: u8 = self.memory[self.memory_pointer];
                self.memory[self.memory_pointer] = if value == 0 {
                    255
                } else {
                    value - 1
                };
                self.program_counter = pc + 1;
            },
            Op::ReadByte => {
                let available: usize = self.input.len();
                let value: u8 = self.input[self.input_position];
                assert(self.input_position < available);
                self.input_position += 1;
                self.memory[self.memory_pointer] = value;
                self.program_counter = pc + 1;
            },
            Op::WriteByte => {
                let value: u8 = self.memory[self.memory_pointer];
                self.output.push(value);
                self.program_counter = pc + 1;
            },
            Op::JumpForward => {
                if self.memory[self.memory_pointer] == 0 {
                    proof {
                        lemma_balanced_has_match_end(b, pc as int);
                    }
                    let end = self.program.find_matching_jump_end(pc);
                    proof {
                        lemma_match_end_unique(b, pc as int, end as int, match_end(b, pc as int));
                    }
                    self.program_counter = end + 1;
                } else {
                    self.program_counter = pc + 1;
                }
            },
            Op::JumpBackward => {
                if self.memory[self.memory_pointer] != 0 {
                    proof {
                        lemma_balanced_has_match_start(b, pc as int);
                    }
                    let begin = self.program.find_matching_jump_start(pc);
                    proof {
                        lemma_match_start_unique(
                            b,
                            pc as int,
                            begin as int,
                            match_start(b, pc as int),
                        );
                    }
                    self.program_counter = begin;
                } else {
                    self.program_counter = pc + 1;
                }
            },
        }
        st
    }

    /// Carries out up to `max_steps` operations and says what the
    /// interpreter can do then. It stops early where it cannot go on: at
    /// the end of the program, at a read without input, and where the data
    /// pointer leaves its range.
    pub fn run(&mut self, max_steps: u64) -> (st: Status)
        requires
            old(self).program.well_nested(),
        ensures
            final(self).program == old(self).program,
            final(self).input@ == old(self).input@,
            st == status(final(self).program@, final(self).input@, final(self)@),
            exists|n: nat|
                n <= max_steps && final(self)@ == run(
                    old(self).program@,
                    old(self).input@,
                    old(self)@,
                    n,
                ) && (st == Status::Running ==> n == max_steps),
    {
        let mut left: u64 = max_steps;
        let ghost program = self.program@;
        let ghost input = self.input@;
        let ghost start = self@;
        loop
            invariant
                self.program == old(self).program,
                self.input@ == old(self).input@,
                program == self.program@,
                input == self.input@,
                start == old(self)@,
                self.program.well_nested(),
                left <= max_steps,
                self@ == run(program, input, start, (max_steps - left) as nat),
            decreases left,
        {
            if left == 0 {
                return self.status();
            }
            let ghost before = self@;
            let st = self.step();
            proof {
                lemma_run_split(program, input, start, (max_steps - left) as nat, 1);
                reveal_with_fuel(run, 2);
            }
            match st {
                Status::Running => {},
                _ => {
                    return st;
                },
            }
            left -= 1;
        }
    }

    /// Runs the program until it cannot go on: to its end, to a read
    /// without input, or to where the data pointer leaves its range.
    pub fn interpret(&mut self) -> (st: Status)
        requires
            old(self).program.well_nested(),
        ensures
            final(self).program == old(self).program,
            final(self).input@ == old(self).input@,
            st == status(final(self).program@, final(self).input@, final(self)@),
            exists|n: nat|
                n <= u64::MAX && final(self)@ == run(
                    old(self).program@,
                    old(self).input@,
                    old(self)@,
                    n,
                ) && (st == Status::Running ==> n == u64::MAX),
    {
        self.run(u64::MAX)
    }
}

} // verus!
