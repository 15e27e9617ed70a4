use crate::brackets::{
    balanced, depth, has_match_end, has_match_start, is_match_end, is_match_start, match_end,
    match_start,
};
use vstd::prelude::*;

verus! {

/// Number of cells on the data tape.
pub const MAX_MEMORY: usize = 30000;

/// One of the eight primitive operations of the source language.
#[derive(Clone, Copy, Debug, PartialEq, Eq, Structural)]
pub enum Op {
    IncrementPtr,
    DecrementPtr,
    IncrementMemory,
    DecrementMemory,
    ReadByte,
    WriteByte,
    JumpForward,
    JumpBackward,
}

/// The operation that a source character stands for, if it is one of the
/// eight significant characters.
pub open spec fn op_of_char(c: char) -> Option<Op> {
    if c == '>' {
        Some(Op::IncrementPtr)
    } else if c == '<' {
        Some(Op::DecrementPtr)
    } else if c == '+' {
        Some(Op::IncrementMemory)
    } else if c == '-' {
        Some(Op::DecrementMemory)
    } else if c == '.' {
        Some(Op::WriteByte)
    } else if c == ',' {
        Some(Op::ReadByte)
    } else if c == '[' {
        Some(Op::JumpForward)
    } else if c == ']' {
        Some(Op::JumpBackward)
    } else {
        None
    }
}

impl Op {
    /// Maps a source character to its operation; every character outside
    /// the alphabet gives `None`.
    pub fn from_char(character: char) -> (op: Option<Op>)
        ensures
            op == op_of_char(character),
    {
        match character {
            '>' => Some(Op::IncrementPtr),
            '<' => Some(Op::DecrementPtr),
            '+' => Some(Op::IncrementMemory),
            '-' => Some(Op::DecrementMemory),
            '.' => Some(Op::WriteByte),
            ',' => Some(Op::ReadByte),
            '[' => Some(Op::JumpForward),
            ']' => Some(Op::JumpBackward),
            _ => None,
        }
    }
}


/// Whether a source character is one of the eight significant ones.
pub open spec fn is_symbol(c: char) -> bool {
    op_of_char(c) is Some
}

/// The operations that a source text holds: its significant characters in
/// their order, each as its operation. Everything else is dropped.
pub open spec fn ops_of(source: Seq<char>) -> Seq<Op> {
    source.filter(|c: char| is_symbol(c)).map_values(|c: char| op_of_char(c).unwrap())
}

/// How an operation changes the nesting depth.
pub open spec fn bracket_kind(op: Op) -> int {
    match op {
        Op::JumpForward => 1,
        Op::JumpBackward => -1,
        _ => 0,
    }
}

/// The changes of depth along a sequence of operations.
pub open spec fn brackets_of(ops: Seq<Op>) -> Seq<int> {
    Seq::new(ops.len(), |i: int| bracket_kind(ops[i]))
}

/// Reading one more character appends its operation, if it has one.
pub proof fn lemma_ops_of_push(source: Seq<char>, c: char)
    ensures
        ops_of(source.push(c)) == match op_of_char(c) {
            Some(op) => ops_of(source).push(op),
            None => ops_of(source),
        },
{
    let pred = |c: char| is_symbol(c);
    let f = |c: char| op_of_char(c).unwrap();
    reveal(Seq::filter);
    assert(source.push(c).drop_last() =~= source);
    assert(source.push(c).last() == c);
    if is_symbol(c) {
        assert(source.push(c).filter(pred) == source.filter(pred).push(c));
        assert(source.filter(pred).push(c).map_values(f) =~= source.filter(pred).map_values(
            f,
        ).push(f(c)));
    } else {
        assert(source.push(c).filter(pred) == source.filter(pred));
    }
}

/// A parsed source text.
pub struct Program {
    pub instructions: Vec<Op>,
}

impl View for Program {
    type V = Seq<Op>;

    open spec fn view(&self) -> Seq<Op> {
        self.instructions@
    }
}

impl Program {
    /// The changes of nesting depth along the program.
    pub open spec fn brackets(&self) -> Seq<int> {
        brackets_of(self@)
    }

    /// Whether every bracket of the program has its partner.
    pub open spec fn well_nested(&self) -> bool {
        balanced(self.brackets())
    }

    /// Reads a source text: keeps the significant characters, in order, and
    /// drops the rest.
    pub fn from_string(string: &str) -> (program: Program)
        ensures
            program@ == ops_of(string@),
    {
        let mut ops: Vec<Op> = Vec::new();
        assert(string@.take(0) =~= Seq::<char>::empty());
        assert(ops_of(Seq::<char>::empty()) =~= Seq::<Op>::empty()) by {
            reveal(Seq::filter);
        }
        for c in it: string.chars()
            invariant
                it.seq() == string@,
                ops@ == ops_of(string@.take(it.index())),
        {
            proof {
                let i = it.index();
                lemma_ops_of_push(string@.take(i), c);
                assert(string@.take(i).push(c) =~= string@.take(i + 1));
            }
            match Op::from_char(c) {
                Some(op) => ops.push(op),
                None => {},
            }
        }
        assert(string@.take(string@.len() as int) =~= string@);
        Program { instructions: ops }
    }

    /// Whether every bracket of the program has its partner.
    pub fn is_balanced(&self) -> (ok: bool)
        ensures
            ok == self.well_nested(),
    {
        let ghost b = self.brackets();
        let mut level: usize = 0;
        let mut pos: usize = 0;
        while pos < self.instructions.len()
            invariant
                b == self.brackets(),
                pos <= self.instructions.len(),
                level == depth(b, pos as int),
                level <= pos,
                forall|k: int| 0 <= k <= pos ==> depth(b, k) >= 0,
            decreases self.instructions.len() - pos,
        {
            assert(depth(b, pos + 1) == depth(b, pos as int) + b[pos as int]);
            match self.instructions[pos] {
                Op::JumpForward => {
                    level += 1;
                },
                Op::JumpBackward => {
                    if level == 0 {
                        assert(depth(b, pos + 1) < 0);
                        return false;
                    }
                    level -= 1;
                },
                _ => {},
            }
            pos += 1;
        }
        level == 0
    }

    /// The position of the closing bracket that belongs to the opening
    /// bracket at `jump_start_pos`: the first position from there on behind
    /// which the nesting depth is back to what it was in front of it.
    pub fn find_matching_jump_end(&self, jump_start_pos: usize) -> (pos: usize)
        requires
            has_match_end(self.brackets(), jump_start_pos as int),
        ensures
            is_match_end(self.brackets(), jump_start_pos as int, pos as int),
    {
        let ghost b = self.brackets();
        let ghost end = match_end(b, jump_start_pos as int);
        let mut pos: usize = jump_start_pos;
        let mut level: i128 = 0;
        loop
            invariant
                b == self.brackets(),
                is_match_end(b, jump_start_pos as int, end),
                jump_start_pos <= pos <= end,
                level == depth(b, pos as int) - depth(b, jump_start_pos as int),
                -(pos - jump_start_pos) <= level <= pos - jump_start_pos,
                forall|k: int|
                    jump_start_pos < k <= pos ==> #[trigger] depth(b, k) != depth(
                        b,
                        jump_start_pos as int,
                    ),
            decreases end - pos,
        {
            assert(depth(b, pos + 1) == depth(b, pos as int) + b[pos as int]);
            match self.instructions[pos] {
                Op::JumpForward => {
                    level += 1;
                },
                Op::JumpBackward => {
                    level -= 1;
                },
                _ => {},
            }
            assert(level == depth(b, pos + 1) - depth(b, jump_start_pos as int));
            if level == 0 {
                return pos;
            }
            assert(pos < end < self.instructions.len());
            pos += 1;
        }
    }

    /// The position of the opening bracket that belongs to the closing
    /// bracket at `jump_end_pos`: the last position up to there in front of
    /// which the nesting depth is what it is behind it.
    pub fn find_matching_jump_start(&self, jump_end_pos: usize) -> (pos: usize)
        requires
            has_match_start(self.brackets(), jump_end_pos as int),
        ensures
            is_match_start(self.brackets(), jump_end_pos as int, pos as int),
    {
        let ghost b = self.brackets();
        let ghost start = match_start(b, jump_end_pos as int);
        let mut pos: usize = jump_end_pos;
        let mut level: i128 = 0;
        loop
            invariant
                b == self.brackets(),
                is_match_start(b, jump_end_pos as int, start),
                start <= pos <= jump_end_pos,
                level == depth(b, pos + 1) - depth(b, jump_end_pos + 1),
                -(jump_end_pos - pos) <= level <= jump_end_pos - pos,
                forall|k: int|
                    pos < k <= jump_end_pos ==> #[trigger] depth(b, k) != depth(
                        b,
                        jump_end_pos + 1,
                    ),
            decreases pos - start,
        {
            assert(depth(b, pos + 1) == depth(b, pos as int) + b[pos as int]);
            match self.instructions[pos] {
                Op::JumpForward => {
                    level -= 1;
                },
                Op::JumpBackward => {
                    level += 1;
                },
                _ => {},
            }
            assert(level == depth(b, pos as int) - depth(b, jump_end_pos + 1));
            if level == 0 {
                return pos;
            }
            assert(pos > start);
            pos -= 1;
        }
    }
}

} // verus!
