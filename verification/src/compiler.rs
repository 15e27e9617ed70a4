//! Compilation of the intermediate representation to x86-64 machine code.
//!
//! The code follows the Microsoft x64 calling convention. Three callee
//! saved registers are reserved for the whole run of the compiled program:
//! R14 holds the data pointer, R12 the address of the write callback and
//! R13 the address of the read callback.
//!
//! The code is written in two passes. The first writes the code of every
//! operation and binds labels at the brackets; the jump of an opening
//! bracket cannot know its target yet and is written with a placeholder.
//! The second writes the code of every opening bracket again, with the jump
//! to the label behind its closing bracket.
use crate::assembler::{
    add_bytes, add_indirect_bytes, add_to_mem_offset_bytes, call_bytes, compare_indirect_bytes,
    fits_rel32, je_bytes, jne_bytes, lemma_emit_concat, lemma_le_bytes_step, mov_bytes,
    mov_indirect_bytes, mov_to_memory_bytes, mov_to_reg_bytes, mul_signed_bytes, overwrite,
    pop_bytes, push_bytes, ret_bytes, sub_bytes, sub_indirect_bytes, AsmState, Assembler,
    X64Register,
};
use crate::brackets::{
    balanced, depth, is_bracket_word, is_match_end, lemma_balanced_has_match_end,
    lemma_balanced_has_match_start, lemma_match_end_unique, lemma_match_start_unique,
    lemma_match_symmetric, match_end, match_start,
};
use crate::ir::{
    chain_from, ir_bracket_kind, ir_brackets, lemma_chain_len_bound, IrCode, IrOp,
};
use crate::labels::{close_label, label_name, lemma_labels_differ, open_label, Nesting};
use memmap::MmapMut;
use vstd::prelude::*;

verus! {

/// Holds the address of the write callback.
pub const PUTCHAR_REGISTER: X64Register = X64Register::R12;

/// Holds the address of the read callback.
pub const GETCHAR_REGISTER: X64Register = X64Register::R13;

/// Holds the data pointer.
pub const PTR_REGISTER: X64Register = X64Register::R14;

/// Bytes that the prologue takes from the stack pointer: shadow space for
/// the callbacks and what keeps the stack aligned to 16 bytes.
pub const STACK_RESERVE: u32 = 168;

/// The displacement that an opening bracket's jump holds until its closing
/// bracket is known.
pub const PLACEHOLDER: i32 = 0x00AA_BBCC;

/// The byte that fills the part of the buffer that holds no code: `int3`.
pub const FILLER: u8 = 0xCC;

/// Length of the prologue in bytes.
pub const PROLOGUE_LEN: usize = 44;

/// Length of the epilogue in bytes.
pub const EPILOGUE_LEN: usize = 15;

/// Length of the code of a bracket: a comparison and a jump.
pub const JUMP_LEN: usize = 10;

/// The longest chain whose buffer can be addressed by 32 bit
/// displacements.
pub const MAX_CHAIN_LEN: usize = 134217711;

/// The addresses of the two callbacks that the compiled program calls: one
/// takes a byte in the low byte of RCX and writes it, the other reads a
/// byte and returns it in AL.
#[derive(Clone, Copy, Debug)]
pub struct IoFn {
    pub putchar_ptr: usize,
    pub getchar_ptr: usize,
}

/// A mutable memory map of the `memmap` crate. Nothing is known of what is
/// inside it but through [`mapped_bytes`].
#[verifier::external_type_specification]
#[verifier::external_body]
pub struct ExMmapMut(memmap::MmapMut);

/// The bytes of a memory map, from its start on.
pub uninterp spec fn mapped_bytes(mapping: MmapMut) -> Seq<u8>;

/// Asks the system for an anonymous memory map of `length` bytes that can
/// be read and written, with `MmapMut::map_anon`. The system may give none.
/// A map that it gives has the length asked for.
#[verifier::external_body]
fn map_anon(length: usize) -> (mapping: Option<MmapMut>)
    ensures
        mapping matches Some(m) ==> mapped_bytes(m).len() == length,
{
    MmapMut::map_anon(length).ok()
}

/// The bytes of a memory map as a slice that can be written, by the
/// `DerefMut` of `MmapMut`: the slice holds the bytes of the map, and what
/// is written to it is written to the map.
#[verifier::external_body]
fn bytes_mut(mapping: &mut MmapMut) -> (bytes: &mut [u8])
    ensures
        bytes@ == mapped_bytes(*old(mapping)),
        final(bytes)@ == mapped_bytes(*final(mapping)),
{
    std::ops::DerefMut::deref_mut(mapping)
}

/// A compiled program: a memory map that holds the machine code from its
/// start on and is filled up with `int3`, and the length of the code.
pub struct Brainfuck {
    pub program: MmapMut,
    pub length: usize,
}

/// Saves the registers that the code uses, reserves stack and loads the two
/// callbacks and the base of the tape.
pub open spec fn prologue(io_fn: IoFn, tape: u64) -> Seq<u8> {
    push_bytes(X64Register::RBX) + push_bytes(PUTCHAR_REGISTER) + push_bytes(GETCHAR_REGISTER)
        + push_bytes(PTR_REGISTER) + sub_bytes(X64Register::RSP, STACK_RESERVE) + mov_bytes(
        PUTCHAR_REGISTER,
        io_fn.putchar_ptr as u64,
    ) + mov_bytes(GETCHAR_REGISTER, io_fn.getchar_ptr as u64) + mov_bytes(PTR_REGISTER, tape)
}

/// Gives the stack back, restores the registers and returns.
pub open spec fn epilogue() -> Seq<u8> {
    add_bytes(X64Register::RSP, STACK_RESERVE) + pop_bytes(PTR_REGISTER) + pop_bytes(
        GETCHAR_REGISTER,
    ) + pop_bytes(PUTCHAR_REGISTER) + pop_bytes(X64Register::RBX) + ret_bytes()
}

/// The code of an opening bracket: leave the loop if the cell is zero.
pub open spec fn open_code(rel: int) -> Seq<u8> {
    compare_indirect_bytes(PTR_REGISTER, 0) + je_bytes(rel as i32)
}

/// The code of a closing bracket: go back if the cell is not zero.
pub open spec fn close_code(rel: int) -> Seq<u8> {
    compare_indirect_bytes(PTR_REGISTER, 0) + jne_bytes(rel as i32)
}

/// The code of `cell[offset] += cell[0] * factor`.
pub open spec fn mul_copy_code(offset: i8, factor: u8) -> Seq<u8> {
    mov_to_reg_bytes(X64Register::RAX, PTR_REGISTER) + (if factor != 1 {
        mov_bytes(X64Register::RBX, factor as u64) + mul_signed_bytes(X64Register::RBX)
    } else {
        Seq::empty()
    }) + add_to_mem_offset_bytes(PTR_REGISTER, X64Register::RAX, offset)
}

/// The code of an operation that is no bracket.
pub open spec fn plain_code(op: IrOp) -> Seq<u8> {
    match op {
        IrOp::Noop(_) => Seq::empty(),
        IrOp::Right(_, n) => add_bytes(PTR_REGISTER, n as u32),
        IrOp::Left(_, n) => sub_bytes(PTR_REGISTER, n as u32),
        IrOp::Add(_, n) => add_indirect_bytes(PTR_REGISTER, n),
        IrOp::Sub(_, n) => sub_indirect_bytes(PTR_REGISTER, n),
        IrOp::SetIndirect(_, n) => mov_indirect_bytes(PTR_REGISTER, n),
        IrOp::MulCopy(_, offset, factor) => mul_copy_code(offset, factor),
        IrOp::Write(_) => mov_to_reg_bytes(X64Register::RCX, PTR_REGISTER) + call_bytes(
            PUTCHAR_REGISTER,
        ),
        IrOp::Read(_) => call_bytes(GETCHAR_REGISTER) + mov_to_memory_bytes(
            PTR_REGISTER,
            X64Register::RAX,
        ),
        IrOp::JumpIfZero(_, _) => Seq::empty(),
        IrOp::JumpIfNotZero(_, _) => Seq::empty(),
    }
}

/// The number of bytes that the code of an operation takes.
pub open spec fn op_size(op: IrOp) -> nat {
    match op {
        IrOp::JumpIfZero(_, _) => JUMP_LEN as nat,
        IrOp::JumpIfNotZero(_, _) => JUMP_LEN as nat,
        _ => plain_code(op).len(),
    }
}

/// The position in the code at which the code of the `k`th operation
/// starts. With `k` the number of operations it is the place of the
/// epilogue.
pub open spec fn offset_of(chain: Seq<IrOp>, k: int) -> int
    decreases k,
{
    if k <= 0 {
        PROLOGUE_LEN as int
    } else {
        offset_of(chain, k - 1) + op_size(chain[k - 1])
    }
}

/// The code of the `k`th operation of a chain. An opening bracket jumps
/// behind the code of its closing bracket, and a closing bracket jumps to
/// the code of its opening bracket; a displacement counts from the end of
/// the jump.
pub open spec fn op_code(chain: Seq<IrOp>, k: int) -> Seq<u8> {
    match chain[k] {
        IrOp::JumpIfZero(_, _) => open_code(
            offset_of(chain, match_end(ir_brackets(chain), k) + 1) - offset_of(chain, k + 1),
        ),
        IrOp::JumpIfNotZero(_, _) => close_code(
            offset_of(chain, match_start(ir_brackets(chain), k)) - offset_of(chain, k + 1),
        ),
        op => plain_code(op),
    }
}

/// The code of the first `n` operations of a chain.
pub open spec fn body_code(chain: Seq<IrOp>, n: int) -> Seq<u8>
    decreases n,
{
    if n <= 0 {
        Seq::empty()
    } else {
        body_code(chain, n - 1) + op_code(chain, n - 1)
    }
}

/// The machine code of a chain of operations: prologue, the code of each
/// operation in order, and epilogue.
pub open spec fn machine_code(chain: Seq<IrOp>, io_fn: IoFn, tape: u64) -> Seq<u8> {
    prologue(io_fn, tape) + body_code(chain, chain.len() as int) + epilogue()
}

/// The size of the buffer that is allocated for a chain of `n` operations.
pub open spec fn buffer_size(n: nat) -> nat {
    256 + n * 16
}

/// A buffer of `size` bytes that holds `code` from its start on and `int3`
/// behind it.
pub open spec fn image(size: nat, code: Seq<u8>) -> Seq<u8> {
    overwrite(blank(size), 0, code)
}

/// `artifact` is what the compiler makes of a chain of operations: the
/// machine code of the chain at the start of a buffer of `256 + 16 * n`
/// bytes for `n` operations, `int3` in the rest of it, and the length of the
/// code.
pub open spec fn compiled(chain: Seq<IrOp>, io_fn: IoFn, tape: u64, artifact: Brainfuck) -> bool {
    &&& artifact.bytes() == image(buffer_size(chain.len()), machine_code(chain, io_fn, tape))
    &&& artifact.length == machine_code(chain, io_fn, tape).len()
}

/// The compiler is deterministic: what it makes of the same chain of
/// operations, the same callbacks and the same tape is the same, byte for
/// byte. Nodes that are not on the chain have no part in it.
pub proof fn lemma_compile_deterministic(
    first: IrCode,
    second: IrCode,
    io_fn: IoFn,
    tape: u64,
    x: Brainfuck,
    y: Brainfuck,
)
    requires
        first.reachable() == second.reachable(),
        compiled(first.reachable(), io_fn, tape, x),
        compiled(second.reachable(), io_fn, tape, y),
    ensures
        x.bytes() == y.bytes(),
        x.length == y.length,
{
}

/// A buffer of `size` bytes that holds no code.
pub open spec fn blank(size: nat) -> Seq<u8> {
    Seq::new(size, |i: int| FILLER)
}

impl Brainfuck {
    /// The bytes of the memory map.
    pub open spec fn bytes(&self) -> Seq<u8> {
        mapped_bytes(self.program)
    }

    /// An artifact with a memory map of `size` bytes that holds no code
    /// yet: every byte of it is `int3`. There is none where the system
    /// gives no memory.
    pub fn new(size: usize) -> (brainfuck: Option<Brainfuck>)
        ensures
            brainfuck matches Some(b) ==> b.bytes() == blank(size as nat) && b.length == 0,
    {
        // whether there is a map is for the system to say; what becomes of
        // its answer is for `from_mapping` to say
        let mapping = map_anon(size);
        Brainfuck::from_mapping(mapping)
    }

    /// An artifact with the given memory map, which holds no code yet:
    /// every byte of it is made `int3`.
    pub fn fill(binary: MmapMut) -> (brainfuck: Brainfuck)
        ensures
            brainfuck.bytes() == blank(mapped_bytes(binary).len()),
            brainfuck.length == 0,
    {
        let mut binary = binary;
        let ghost size = mapped_bytes(binary).len();
        let bytes = bytes_mut(&mut binary);
        let total: usize = bytes.len();
        let mut i: usize = 0;
        while i < total
            invariant
                total == size,
                bytes@.len() == size,
                i <= total,
                final(bytes)@ == mapped_bytes(after_borrow(binary)),
                forall|k: int| 0 <= k < i ==> bytes@[k] == FILLER,
            decreases total - i,
        {
            bytes[i] = FILLER;
            i += 1;
        }
        assert(bytes@ =~= blank(size));
        Brainfuck { program: binary, length: 0 }
    }
}


/// The sizes of the pieces of code that do not depend on their operands.
pub proof fn lemma_code_sizes()
    ensures
        forall|io_fn: IoFn, tape: u64| (#[trigger] prologue(io_fn, tape)).len() == PROLOGUE_LEN,
        epilogue().len() == EPILOGUE_LEN,
        forall|rel: int| (#[trigger] open_code(rel)).len() == JUMP_LEN,
        forall|rel: int| (#[trigger] close_code(rel)).len() == JUMP_LEN,
        compare_indirect_bytes(PTR_REGISTER, 0).len() == 4,
{
    assert forall|io_fn: IoFn, tape: u64| (#[trigger] prologue(io_fn, tape)).len()
        == PROLOGUE_LEN by {
        lemma_le_bytes_step(STACK_RESERVE as nat, 4);
        lemma_le_bytes_step(io_fn.putchar_ptr as u64 as nat, 8);
        lemma_le_bytes_step(io_fn.getchar_ptr as u64 as nat, 8);
        lemma_le_bytes_step(tape as nat, 8);
    }
    lemma_le_bytes_step(STACK_RESERVE as nat, 4);
    assert forall|rel: int| (#[trigger] open_code(rel)).len() == JUMP_LEN by {
        lemma_le_bytes_step(crate::assembler::twos_complement32(rel as i32 as int), 4);
    }
    assert forall|rel: int| (#[trigger] close_code(rel)).len() == JUMP_LEN by {
        lemma_le_bytes_step(crate::assembler::twos_complement32(rel as i32 as int), 4);
    }
}

/// The number of bytes that the code of an operation takes.
pub fn encoded_size(op: &IrOp) -> (n: usize)
    ensures
        n == op_size(*op),
        n <= 22,
{
    match op {
        IrOp::Noop(_) => 0,
        IrOp::Right(_, n) => {
            proof {
                lemma_le_bytes_step(*n as u32 as nat, 4);
            }
            7
        },
        IrOp::Left(_, n) => {
            proof {
                lemma_le_bytes_step(*n as u32 as nat, 4);
            }
            7
        },
        IrOp::Add(_, _) => 4,
        IrOp::Sub(_, _) => 4,
        IrOp::SetIndirect(_, _) => 4,
        IrOp::MulCopy(_, _, factor) => {
            proof {
                lemma_le_bytes_step(*factor as u64 as nat, 8);
            }
            if *factor != 1 {
                22
            } else {
                8
            }
        },
        IrOp::Write(_) => 7,
        IrOp::Read(_) => 6,
        IrOp::JumpIfZero(_, _) => JUMP_LEN,
        IrOp::JumpIfNotZero(_, _) => JUMP_LEN,
    }
}

/// Writes the prologue.
fn emit_prologue(assembler: &mut Assembler, io_fn: IoFn, tape: u64)
    requires
        old(assembler)@.fits(PROLOGUE_LEN as nat),
    ensures
        final(final(assembler).data)@ == final(old(assembler).data)@,
        final(assembler)@ == old(assembler)@.emit(prologue(io_fn, tape)),
{
    let ghost s = assembler@;
    proof {
        lemma_code_sizes();
        lemma_le_bytes_step(STACK_RESERVE as nat, 4);
        lemma_le_bytes_step(io_fn.putchar_ptr as u64 as nat, 8);
        lemma_le_bytes_step(io_fn.getchar_ptr as u64 as nat, 8);
        lemma_le_bytes_step(tape as nat, 8);
    }
    let ghost head1 = push_bytes(X64Register::RBX);
    let ghost head2 = head1 + push_bytes(PUTCHAR_REGISTER);
    let ghost head3 = head2 + push_bytes(GETCHAR_REGISTER);
    let ghost head4 = head3 + push_bytes(PTR_REGISTER);
    let ghost head5 = head4 + sub_bytes(X64Register::RSP, STACK_RESERVE);
    let ghost head6 = head5 + mov_bytes(PUTCHAR_REGISTER, io_fn.putchar_ptr as u64);
    let ghost head7 = head6 + mov_bytes(GETCHAR_REGISTER, io_fn.getchar_ptr as u64);
    let ghost head8 = head7 + mov_bytes(PTR_REGISTER, tape);
    assembler.push(X64Register::RBX);
    assembler.push(PUTCHAR_REGISTER);
    proof {
        lemma_emit_concat(s, head1, push_bytes(PUTCHAR_REGISTER));
    }
    assembler.push(GETCHAR_REGISTER);
    proof {
        lemma_emit_concat(s, head2, push_bytes(GETCHAR_REGISTER));
    }
    assembler.push(PTR_REGISTER);
    proof {
        lemma_emit_concat(s, head3, push_bytes(PTR_REGISTER));
    }
    assembler.sub(X64Register::RSP, STACK_RESERVE);
    proof {
        lemma_emit_concat(s, head4, sub_bytes(X64Register::RSP, STACK_RESERVE));
    }
    assembler.mov(PUTCHAR_REGISTER, io_fn.putchar_ptr as u64);
    proof {
        lemma_emit_concat(s, head5, mov_bytes(PUTCHAR_REGISTER, io_fn.putchar_ptr as u64));
    }
    assembler.mov(GETCHAR_REGISTER, io_fn.getchar_ptr as u64);
    proof {
        lemma_emit_concat(s, head6, mov_bytes(GETCHAR_REGISTER, io_fn.getchar_ptr as u64));
    }
    assembler.mov(PTR_REGISTER, tape);
    proof {
        lemma_emit_concat(s, head7, mov_bytes(PTR_REGISTER, tape));
    }
}

/// Writes the epilogue.
fn emit_epilogue(assembler: &mut Assembler)
    requires
        old(assembler)@.fits(EPILOGUE_LEN as nat),
    ensures
        final(final(assembler).data)@ == final(old(assembler).data)@,
        final(assembler)@ == old(assembler)@.emit(epilogue()),
{
    let ghost s = assembler@;
    proof {
        lemma_code_sizes();
        lemma_le_bytes_step(STACK_RESERVE as nat, 4);
    }
    let ghost head1 = add_bytes(X64Register::RSP, STACK_RESERVE);
    let ghost head2 = head1 + pop_bytes(PTR_REGISTER);
    let ghost head3 = head2 + pop_bytes(GETCHAR_REGISTER);
    let ghost head4 = head3 + pop_bytes(PUTCHAR_REGISTER);
    let ghost head5 = head4 + pop_bytes(X64Register::RBX);
    assembler.add(X64Register::RSP, STACK_RESERVE);
    assembler.pop(PTR_REGISTER);
    proof {
        lemma_emit_concat(s, head1, pop_bytes(PTR_REGISTER));
    }
    assembler.pop(GETCHAR_REGISTER);
    proof {
        lemma_emit_concat(s, head2, pop_bytes(GETCHAR_REGISTER));
    }
    assembler.pop(PUTCHAR_REGISTER);
    proof {
        lemma_emit_concat(s, head3, pop_bytes(PUTCHAR_REGISTER));
    }
    assembler.pop(X64Register::RBX);
    proof {
        lemma_emit_concat(s, head4, pop_bytes(X64Register::RBX));
    }
    assembler.ret();
    proof {
        lemma_emit_concat(s, head5, ret_bytes());
    }
}

/// Writes the code of an operation that is no bracket.
fn emit_plain(assembler: &mut Assembler, op: &IrOp)
    requires
        old(assembler)@.fits(plain_code(*op).len()),
        ir_bracket_kind(*op) == 0,
    ensures
        final(final(assembler).data)@ == final(old(assembler).data)@,
        final(assembler)@ == old(assembler)@.emit(plain_code(*op)),
{
    let ghost s = assembler@;
    match op {
        IrOp::Noop(_) => {
            assert(s.emit(plain_code(*op)).bytes =~= s.bytes);
        },
        IrOp::Right(_, data) => {
            proof {
                lemma_le_bytes_step(*data as u32 as nat, 4);
            }
            assembler.add(PTR_REGISTER, *data as u32)
        },
        IrOp::Left(_, data) => {
            proof {
                lemma_le_bytes_step(*data as u32 as nat, 4);
            }
            assembler.sub(PTR_REGISTER, *data as u32)
        },
        IrOp::Add(_, data) => assembler.add_indirect(PTR_REGISTER, *data),
        IrOp::Sub(_, data) => assembler.sub_indirect(PTR_REGISTER, *data),
        IrOp::SetIndirect(_, data) => assembler.mov_indirect(PTR_REGISTER, *data),
        IrOp::MulCopy(_, offset, factor) => {
            proof {
                lemma_le_bytes_step(*factor as u64 as nat, 8);
            }
            let ghost head1 = mov_to_reg_bytes(X64Register::RAX, PTR_REGISTER);
            let ghost tail = add_to_mem_offset_bytes(PTR_REGISTER, X64Register::RAX, *offset);
            assembler.mov_to_reg(X64Register::RAX, PTR_REGISTER);
            if *factor != 1 {
                let ghost m1 = mov_bytes(X64Register::RBX, *factor as u64);
                let ghost m2 = mul_signed_bytes(X64Register::RBX);
                assembler.mov(X64Register::RBX, *factor as u64);
                assembler.mul_signed(X64Register::RBX);
                assembler.add_to_mem_offset(PTR_REGISTER, X64Register::RAX, *offset);
                proof {
                    lemma_emit_concat(s.emit(head1), m1, m2);
                    lemma_emit_concat(s, head1, m1 + m2);
                    lemma_emit_concat(s, head1 + (m1 + m2), tail);
                }
            } else {
                assembler.add_to_mem_offset(PTR_REGISTER, X64Register::RAX, *offset);
                proof {
                    assert(head1 + Seq::<u8>::empty() =~= head1);
                    lemma_emit_concat(s, head1, tail);
                }
            }
        },
        IrOp::Write(_) => {
            assembler.mov_to_reg(X64Register::RCX, PTR_REGISTER);
            assembler.call(PUTCHAR_REGISTER);
            proof {
                lemma_emit_concat(
                    s,
                    mov_to_reg_bytes(X64Register::RCX, PTR_REGISTER),
                    call_bytes(PUTCHAR_REGISTER),
                );
            }
        },
        IrOp::Read(_) => {
            assembler.call(GETCHAR_REGISTER);
            assembler.mov_to_memory(PTR_REGISTER, X64Register::RAX);
            proof {
                lemma_emit_concat(
                    s,
                    call_bytes(GETCHAR_REGISTER),
                    mov_to_memory_bytes(PTR_REGISTER, X64Register::RAX),
                );
            }
        },
        IrOp::JumpIfZero(_, _) => {},
        IrOp::JumpIfNotZero(_, _) => {},
    }
}

/// Writes the comparison of the current cell with zero.
fn test_cell(assembler: &mut Assembler)
    requires
        old(assembler)@.fits(4),
    ensures
        final(final(assembler).data)@ == final(old(assembler).data)@,
        final(assembler)@ == old(assembler)@.emit(compare_indirect_bytes(PTR_REGISTER, 0)),
        compare_indirect_bytes(PTR_REGISTER, 0).len() == 4,
{
    assembler.cmp_indirect(PTR_REGISTER, 0);
}

/// Writes the code of an opening bracket with a placeholder for the
/// displacement.
fn emit_open(assembler: &mut Assembler)
    requires
        old(assembler)@.fits(JUMP_LEN as nat),
    ensures
        final(final(assembler).data)@ == final(old(assembler).data)@,
        final(assembler)@ == old(assembler)@.emit(open_code(PLACEHOLDER as int)),
{
    let ghost s = assembler@;
    test_cell(assembler);
    assembler.je(PLACEHOLDER);
    proof {
        lemma_emit_concat(s, compare_indirect_bytes(PTR_REGISTER, 0), je_bytes(PLACEHOLDER));
    }
}

/// The part of a buffer that holds the code of the `j`th operation.
spec fn segment(bytes: Seq<u8>, chain: Seq<IrOp>, j: int) -> Seq<u8> {
    bytes.subrange(offset_of(chain, j), offset_of(chain, j + 1))
}

/// The code of the `j`th operation while the jumps of the opening brackets
/// from position `resolved` on are not resolved yet: these hold the
/// placeholder.
spec fn partial_code(chain: Seq<IrOp>, j: int, resolved: int) -> Seq<u8> {
    if chain[j] is JumpIfZero && j >= resolved {
        open_code(PLACEHOLDER as int)
    } else {
        op_code(chain, j)
    }
}

/// The first `k` operations are written, and the jumps of the opening
/// brackets in front of `resolved` are resolved.
spec fn written(bytes: Seq<u8>, chain: Seq<IrOp>, k: int, resolved: int) -> bool {
    forall|j: int|
        0 <= j < k ==> #[trigger] segment(bytes, chain, j) == partial_code(chain, j, resolved)
}

/// What the label table holds of the opening bracket at `j` once the first
/// `k` operations are written: the place of its code, and the place behind
/// the code of its closing bracket if that is written.
spec fn labelled_at(labels: Map<Seq<char>, usize>, chain: Seq<IrOp>, j: int, k: int) -> bool {
    let b = ir_brackets(chain);
    &&& labels.contains_key(open_label(b, j))
    &&& labels[open_label(b, j)] == offset_of(chain, j)
    &&& match_end(b, j) < k ==> labels.contains_key(close_label(b, j)) && labels[close_label(b, j)]
        == offset_of(chain, match_end(b, j) + 1)
}

/// The label table holds the labels of the brackets among the first `k`
/// operations.
spec fn labelled(labels: Map<Seq<char>, usize>, chain: Seq<IrOp>, k: int) -> bool {
    forall|j: int|
        0 <= j < k && chain[j] is JumpIfZero ==> #[trigger] labelled_at(labels, chain, j, k)
}

/// The code of an operation has the size that `op_size` gives.
pub proof fn lemma_op_code_len(chain: Seq<IrOp>, k: int)
    requires
        0 <= k < chain.len(),
    ensures
        op_code(chain, k).len() == op_size(chain[k]),
        offset_of(chain, k + 1) == offset_of(chain, k) + op_size(chain[k]),
{
    lemma_code_sizes();
}

/// Code offsets grow with the position.
pub proof fn lemma_offset_monotone(chain: Seq<IrOp>, i: int, j: int)
    requires
        0 <= i <= j,
    ensures
        PROLOGUE_LEN <= offset_of(chain, i) <= offset_of(chain, j),
    decreases j,
{
    if i < j {
        lemma_offset_monotone(chain, i, j - 1);
    } else if i > 0 {
        lemma_offset_monotone(chain, i - 1, i - 1);
    }
}

/// The kinds of brackets are a bracket word.
pub proof fn lemma_ir_brackets_word(chain: Seq<IrOp>)
    ensures
        is_bracket_word(ir_brackets(chain)),
        ir_brackets(chain).len() == chain.len(),
{
}

/// If each operation's code stands in its segment, the segments together
/// hold the code of the body.
proof fn lemma_segments_concat(bytes: Seq<u8>, chain: Seq<IrOp>, n: int)
    requires
        0 <= n <= chain.len(),
        offset_of(chain, n) <= bytes.len(),
        forall|j: int| 0 <= j < n ==> #[trigger] segment(bytes, chain, j) == op_code(chain, j),
    ensures
        bytes.subrange(PROLOGUE_LEN as int, offset_of(chain, n)) == body_code(chain, n),
    decreases n,
{
    if n > 0 {
        lemma_offset_monotone(chain, 0, n - 1);
        lemma_offset_monotone(chain, n - 1, n);
        lemma_segments_concat(bytes, chain, n - 1);
        assert(segment(bytes, chain, n - 1) == op_code(chain, n - 1));
        assert(bytes.subrange(PROLOGUE_LEN as int, offset_of(chain, n)) =~= bytes.subrange(
            PROLOGUE_LEN as int,
            offset_of(chain, n - 1),
        ) + segment(bytes, chain, n - 1));
    } else {
        assert(bytes.subrange(PROLOGUE_LEN as int, offset_of(chain, n)) =~= Seq::<u8>::empty());
    }
}

/// An opening bracket does not match a position that holds no closing
/// bracket.
proof fn lemma_match_end_is_close(chain: Seq<IrOp>, j: int)
    requires
        balanced(ir_brackets(chain)),
        0 <= j < chain.len(),
        chain[j] is JumpIfZero,
    ensures
        j < match_end(ir_brackets(chain), j) < chain.len(),
        chain[match_end(ir_brackets(chain), j)] is JumpIfNotZero,
        is_match_end(ir_brackets(chain), j, match_end(ir_brackets(chain), j)),
{
    let b = ir_brackets(chain);
    lemma_ir_brackets_word(chain);
    lemma_balanced_has_match_end(b, j);
}

/// What is written stays written where the buffer is changed behind the
/// code only.
proof fn lemma_written_frame(
    bytes: Seq<u8>,
    bytes2: Seq<u8>,
    chain: Seq<IrOp>,
    k: int,
    resolved: int,
)
    requires
        0 <= k <= chain.len(),
        written(bytes, chain, k, resolved),
        bytes.len() == bytes2.len(),
        offset_of(chain, k) <= bytes.len(),
        forall|i: int| PROLOGUE_LEN <= i < offset_of(chain, k) ==> bytes2[i] == bytes[i],
    ensures
        written(bytes2, chain, k, resolved),
{
    assert forall|j: int| 0 <= j < k implies #[trigger] segment(bytes2, chain, j) == partial_code(
        chain,
        j,
        resolved,
    ) by {
        lemma_offset_monotone(chain, 0, j);
        lemma_offset_monotone(chain, j + 1, k);
        lemma_op_code_len(chain, j);
        assert(segment(bytes2, chain, j) =~= segment(bytes, chain, j));
    }
}

/// Writing the code of an operation that is no bracket keeps what was
/// written and the labels.
proof fn lemma_first_pass_plain(s: AsmState, chain: Seq<IrOp>, k: int)
    requires
        0 <= k < chain.len(),
        balanced(ir_brackets(chain)),
        ir_bracket_kind(chain[k]) == 0,
        s.cursor == offset_of(chain, k),
        written(s.bytes, chain, k, 0),
        labelled(s.labels, chain, k),
        offset_of(chain, k + 1) <= s.bytes.len(),
    ensures
        written(s.emit(plain_code(chain[k])).bytes, chain, k + 1, 0),
        labelled(s.labels, chain, k + 1),
{
    let b = ir_brackets(chain);
    let bytes2 = s.emit(plain_code(chain[k])).bytes;
    lemma_op_code_len(chain, k);
    lemma_offset_monotone(chain, 0, k);
    assert forall|j: int| 0 <= j < k + 1 implies #[trigger] segment(bytes2, chain, j)
        == partial_code(chain, j, 0) by {
        if j < k {
            lemma_offset_monotone(chain, 0, j);
            lemma_offset_monotone(chain, j + 1, k);
            lemma_op_code_len(chain, j);
            assert(segment(s.bytes, chain, j) == partial_code(chain, j, 0));
            assert(segment(bytes2, chain, j) =~= segment(s.bytes, chain, j));
        } else {
            assert(segment(bytes2, chain, k) =~= plain_code(chain[k]));
        }
    }
    assert forall|j: int| 0 <= j < k + 1 && chain[j] is JumpIfZero implies #[trigger] labelled_at(
        s.labels,
        chain,
        j,
        k + 1,
    ) by {
        assert(labelled_at(s.labels, chain, j, k));
        lemma_match_end_is_close(chain, j);
    }
}

/// Binding the label of an opening bracket and writing its code with the
/// placeholder keeps what was written and the labels of the other
/// brackets.
proof fn lemma_first_pass_open(s: AsmState, chain: Seq<IrOp>, k: int)
    requires
        0 <= k < chain.len(),
        balanced(ir_brackets(chain)),
        chain[k] is JumpIfZero,
        s.cursor == offset_of(chain, k),
        written(s.bytes, chain, k, 0),
        labelled(s.labels, chain, k),
        offset_of(chain, k + 1) <= s.bytes.len() <= usize::MAX,
    ensures
        written(
            s.bind(open_label(ir_brackets(chain), k)).emit(open_code(PLACEHOLDER as int)).bytes,
            chain,
            k + 1,
            0,
        ),
        labelled(s.bind(open_label(ir_brackets(chain), k)).labels, chain, k + 1),
{
    let b = ir_brackets(chain);
    let s2 = s.bind(open_label(b, k)).emit(open_code(PLACEHOLDER as int));
    let bytes2 = s2.bytes;
    lemma_op_code_len(chain, k);
    lemma_code_sizes();
    lemma_offset_monotone(chain, 0, k);
    lemma_match_end_is_close(chain, k);
    assert forall|j: int| 0 <= j < k + 1 implies #[trigger] segment(bytes2, chain, j)
        == partial_code(chain, j, 0) by {
        if j < k {
            lemma_offset_monotone(chain, 0, j);
            lemma_offset_monotone(chain, j + 1, k);
            lemma_op_code_len(chain, j);
            assert(segment(s.bytes, chain, j) == partial_code(chain, j, 0));
            assert(segment(bytes2, chain, j) =~= segment(s.bytes, chain, j));
        } else {
            assert(segment(bytes2, chain, k) =~= open_code(PLACEHOLDER as int));
        }
    }
    let labels2 = s.bind(open_label(b, k)).labels;
    assert(labels2 == s.labels.insert(open_label(b, k), offset_of(chain, k) as usize));
    assert(b[k] == 1);
    assert forall|j: int| 0 <= j < k + 1 && chain[j] is JumpIfZero implies #[trigger] labelled_at(
        labels2,
        chain,
        j,
        k + 1,
    ) by {
        assert(b[j] == 1);
        if j < k {
            assert(labelled_at(s.labels, chain, j, k));
            lemma_match_end_is_close(chain, j);
            lemma_labels_differ(b, k, j);
        }
    }
}

/// Writing the code of a closing bracket, with the jump back to the label
/// of its opening bracket, and binding its own label keeps what was
/// written and the labels of the other brackets.
proof fn lemma_first_pass_close(s: AsmState, chain: Seq<IrOp>, k: int)
    requires
        0 <= k < chain.len(),
        balanced(ir_brackets(chain)),
        chain[k] is JumpIfNotZero,
        s.cursor == offset_of(chain, k),
        written(s.bytes, chain, k, 0),
        labelled(s.labels, chain, k),
        offset_of(chain, k + 1) <= s.bytes.len() <= i32::MAX,
    ensures
        ({
            let b = ir_brackets(chain);
            let o = match_start(b, k);
            let tested = s.emit(compare_indirect_bytes(PTR_REGISTER, 0));
            let target = s.labels[open_label(b, o)] as int;
            let closed = tested.emit(jne_bytes(tested.displacement_to(target) as i32));
            &&& 0 <= o < k
            &&& s.labels.contains_key(open_label(b, o))
            &&& fits_rel32(tested.displacement_to(target))
            &&& closed.cursor == offset_of(chain, k + 1)
            &&& written(closed.bytes, chain, k + 1, 0)
            &&& labelled(closed.bind(close_label(b, o)).labels, chain, k + 1)
        }),
{
    let b = ir_brackets(chain);
    lemma_ir_brackets_word(chain);
    lemma_code_sizes();
    lemma_op_code_len(chain, k);
    lemma_balanced_has_match_start(b, k);
    let o = match_start(b, k);
    lemma_match_symmetric(b, o, k);
    lemma_match_end_is_close(chain, o);
    lemma_match_end_unique(b, o, k, match_end(b, o));
    assert(labelled_at(s.labels, chain, o, k));
    lemma_offset_monotone(chain, 0, o);
    lemma_offset_monotone(chain, o, k);
    lemma_offset_monotone(chain, 0, k);
    let tested = s.emit(compare_indirect_bytes(PTR_REGISTER, 0));
    let target = s.labels[open_label(b, o)] as int;
    let rel = tested.displacement_to(target);
    assert(rel == offset_of(chain, o) - offset_of(chain, k + 1));
    let closed = tested.emit(jne_bytes(rel as i32));
    lemma_emit_concat(s, compare_indirect_bytes(PTR_REGISTER, 0), jne_bytes(rel as i32));
    assert(closed == s.emit(close_code(rel)));
    let bytes2 = closed.bytes;
    assert forall|j: int| 0 <= j < k + 1 implies #[trigger] segment(bytes2, chain, j)
        == partial_code(chain, j, 0) by {
        if j < k {
            lemma_offset_monotone(chain, 0, j);
            lemma_offset_monotone(chain, j + 1, k);
            lemma_op_code_len(chain, j);
            assert(segment(s.bytes, chain, j) == partial_code(chain, j, 0));
            assert(segment(bytes2, chain, j) =~= segment(s.bytes, chain, j));
        } else {
            assert(segment(bytes2, chain, k) =~= close_code(rel));
        }
    }
    let labels2 = closed.bind(close_label(b, o)).labels;
    assert(labels2 == s.labels.insert(close_label(b, o), offset_of(chain, k + 1) as usize));
    assert(b[o] == 1);
    assert forall|j: int| 0 <= j < k + 1 && chain[j] is JumpIfZero implies #[trigger] labelled_at(
        labels2,
        chain,
        j,
        k + 1,
    ) by {
        assert(b[j] == 1);
        assert(labelled_at(s.labels, chain, j, k));
        lemma_match_end_is_close(chain, j);
        lemma_labels_differ(b, j, o);
        if j != o && match_end(b, j) == k {
            lemma_match_symmetric(b, j, k);
            lemma_match_start_unique(b, k, j, o);
        }
    }
}

/// Writing the code of an opening bracket again, now with the jump to the
/// label of its closing bracket, resolves its jump and keeps what else was
/// written.
proof fn lemma_resolve_open(s: AsmState, chain: Seq<IrOp>, j: int)
    requires
        0 <= j < chain.len(),
        balanced(ir_brackets(chain)),
        chain[j] is JumpIfZero,
        written(s.bytes, chain, chain.len() as int, j),
        labelled(s.labels, chain, chain.len() as int),
        offset_of(chain, chain.len() as int) <= s.bytes.len() <= i32::MAX,
    ensures
        ({
            let b = ir_brackets(chain);
            let at = s.labels[open_label(b, j)];
            let tested = (AsmState { cursor: at as int, ..s }).emit(
                compare_indirect_bytes(PTR_REGISTER, 0),
            );
            let target = s.labels[close_label(b, j)] as int;
            let resolved = tested.emit(je_bytes(tested.displacement_to(target) as i32));
            &&& s.labels.contains_key(open_label(b, j))
            &&& s.labels.contains_key(close_label(b, j))
            &&& (AsmState { cursor: at as int, ..s }).fits(JUMP_LEN as nat)
            &&& fits_rel32(tested.displacement_to(target))
            &&& written(resolved.bytes, chain, chain.len() as int, j + 1)
            &&& resolved.bytes.len() == s.bytes.len()
            &&& forall|i: int|
                0 <= i < PROLOGUE_LEN || offset_of(chain, chain.len() as int) <= i
                    < s.bytes.len() ==> resolved.bytes[i] == s.bytes[i]
        }),
{
    let b = ir_brackets(chain);
    let n = chain.len() as int;
    lemma_code_sizes();
    lemma_op_code_len(chain, j);
    lemma_match_end_is_close(chain, j);
    assert(labelled_at(s.labels, chain, j, n));
    lemma_offset_monotone(chain, 0, j);
    lemma_offset_monotone(chain, j + 1, n);
    lemma_offset_monotone(chain, match_end(b, j) + 1, n);
    lemma_offset_monotone(chain, 0, match_end(b, j) + 1);
    let at = s.labels[open_label(b, j)];
    let start = AsmState { cursor: at as int, ..s };
    let tested = start.emit(compare_indirect_bytes(PTR_REGISTER, 0));
    let target = s.labels[close_label(b, j)] as int;
    let rel = tested.displacement_to(target);
    assert(rel == offset_of(chain, match_end(b, j) + 1) - offset_of(chain, j + 1));
    let resolved = tested.emit(je_bytes(rel as i32));
    lemma_emit_concat(start, compare_indirect_bytes(PTR_REGISTER, 0), je_bytes(rel as i32));
    assert(resolved == start.emit(open_code(rel)));
    let bytes2 = resolved.bytes;
    assert forall|i: int| 0 <= i < n implies #[trigger] segment(bytes2, chain, i) == partial_code(
        chain,
        i,
        j + 1,
    ) by {
        assert(segment(s.bytes, chain, i) == partial_code(chain, i, j));
        if i == j {
            assert(segment(bytes2, chain, j) =~= open_code(rel));
        } else {
            lemma_offset_monotone(chain, 0, i);
            lemma_op_code_len(chain, i);
            lemma_offset_monotone(chain, i + 1, n);
            if i < j {
                lemma_offset_monotone(chain, i + 1, j);
            } else {
                lemma_offset_monotone(chain, j + 1, i);
            }
            assert(segment(bytes2, chain, i) =~= segment(s.bytes, chain, i));
        }
    }
}

/// Going past an operation that is no opening bracket resolves nothing and
/// leaves nothing unresolved.
proof fn lemma_resolve_other(bytes: Seq<u8>, chain: Seq<IrOp>, j: int)
    requires
        0 <= j < chain.len(),
        !(chain[j] is JumpIfZero),
        written(bytes, chain, chain.len() as int, j),
    ensures
        written(bytes, chain, chain.len() as int, j + 1),
{
    assert forall|i: int| 0 <= i < chain.len() implies #[trigger] segment(bytes, chain, i)
        == partial_code(chain, i, j + 1) by {
        assert(segment(bytes, chain, i) == partial_code(chain, i, j));
    }
}

/// The chain from a node on is the node and the chain from its successor
/// on.
proof fn lemma_chain_unfold(ops: Seq<IrOp>, chain: Seq<int>, idx: int, k: int)
    requires
        crate::ir::links_forward(ops),
        0 <= idx < ops.len(),
        0 <= k <= chain.len(),
        chain_from(ops, idx) == chain.skip(k),
    ensures
        k < chain.len(),
        chain[k] == idx,
        match ops[idx].link() {
            Some(t) => chain_from(ops, t as int) == chain.skip(k + 1) && k + 1 < chain.len(),
            None => k + 1 == chain.len(),
        },
{
    let rest = chain_from(ops, idx);
    assert(rest.len() >= 1);
    assert(chain.skip(k).len() == chain.len() - k);
    assert(rest[0] == idx);
    assert(chain.skip(k)[0] == chain[k]);
    match ops[idx].link() {
        Some(t) => {
            assert(rest == seq![idx] + chain_from(ops, t as int));
            assert(chain.skip(k + 1) =~= chain.skip(k).skip(1));
            assert(rest.skip(1) =~= chain_from(ops, t as int));
            assert(chain_from(ops, t as int).len() >= 1);
        },
        None => {
            assert(rest.len() == 1);
        },
    }
}

/// The first pass: writes the code of every operation on the chain, in
/// order. The code of an opening bracket is written with a placeholder for
/// its jump, and a label is bound at the code of every opening bracket and
/// behind the code of every closing bracket.
fn emit_operations(code: &IrCode, assembler: &mut Assembler)
    requires
        code.wf(),
        balanced(ir_brackets(code.reachable())),
        old(assembler)@.cursor == PROLOGUE_LEN,
        offset_of(code.reachable(), code.reachable().len() as int) <= old(assembler)@.bytes.len(),
        old(assembler)@.bytes.len() <= i32::MAX,
    ensures
        final(final(assembler).data)@ == final(old(assembler).data)@,
        final(assembler)@.cursor == offset_of(code.reachable(), code.reachable().len() as int),
        final(assembler)@.bytes.len() == old(assembler)@.bytes.len(),
        written(final(assembler)@.bytes, code.reachable(), code.reachable().len() as int, 0),
        labelled(final(assembler)@.labels, code.reachable(), code.reachable().len() as int),
        forall|i: int|
            0 <= i < PROLOGUE_LEN || final(assembler)@.cursor <= i < old(assembler)@.bytes.len()
                ==> final(assembler)@.bytes[i] == old(assembler)@.bytes[i],
{
    let ghost ops = code@;
    let ghost chain = code.chain();
    let ghost rops = code.reachable();
    let ghost b = ir_brackets(rops);
    let ghost n = rops.len() as int;
    let ghost mut k: int = 0;
    let mut nesting = Nesting::new();
    let total: usize = code.ops.len();
    let mut idx: usize = 0;
    proof {
        assert(chain.skip(0) =~= chain);
        nesting.lemma_new_tracks(b);
        lemma_ir_brackets_word(rops);
        lemma_chain_len_bound(ops, 0);
    }
    while idx < total
        invariant
            ops == code@,
            chain == code.chain(),
            rops == code.reachable(),
            b == ir_brackets(rops),
            n == rops.len(),
            n == chain.len(),
            n <= total,
            total == ops.len(),
            code.wf(),
            balanced(b),
            is_bracket_word(b),
            0 <= k <= n,
            idx < total ==> chain_from(ops, idx as int) == chain.skip(k),
            idx >= total ==> k == n,
            nesting.tracks(b, k),
            final(assembler.data)@ == final(old(assembler).data)@,
            assembler@.cursor == offset_of(rops, k),
            assembler@.bytes.len() == old(assembler)@.bytes.len(),
            offset_of(rops, n) <= assembler@.bytes.len() <= i32::MAX,
            written(assembler@.bytes, rops, k, 0),
            labelled(assembler@.labels, rops, k),
            forall|i: int|
                0 <= i < PROLOGUE_LEN || assembler@.cursor <= i < old(assembler)@.bytes.len()
                    ==> assembler@.bytes[i] == old(assembler)@.bytes[i],
        decreases n - k, total - idx,
    {
        let op = &code.ops[idx];
        let ghost s = assembler@;
        proof {
            lemma_chain_unfold(ops, chain, idx as int, k);
            assert(rops[k] == ops[idx as int]);
            assert(b[k] == ir_bracket_kind(rops[k]));
            lemma_op_code_len(rops, k);
            lemma_offset_monotone(rops, k + 1, n);
            lemma_offset_monotone(rops, 0, k);
            lemma_code_sizes();
        }
        match op {
            IrOp::JumpIfZero(_, _) => {
                let key = nesting.enter(Ghost(b), Ghost(k));
                proof {
                    lemma_first_pass_open(s, rops, k);
                }
                assembler.label(label_name(true, key.0, key.1));
                emit_open(assembler);
            },
            IrOp::JumpIfNotZero(_, _) => {
                let key = nesting.leave(Ghost(b), Ghost(k));
                proof {
                    lemma_first_pass_close(s, rops, k);
                }
                test_cell(assembler);
                assembler.jne_label(label_name(true, key.0, key.1));
                assembler.label(label_name(false, key.0, key.1));
            },
            _ => {
                proof {
                    nesting.lemma_pass(b, k);
                    lemma_first_pass_plain(s, rops, k);
                }
                emit_plain(assembler, op);
            },
        }
        proof {
            k = k + 1;
        }
        idx =
        match op.next() {
            Some(t) => t,
            None => total,
        };
    }
}

/// The second pass: writes the code of every opening bracket again, with
/// the jump to the label that the first pass has bound behind the code of
/// its closing bracket.
fn resolve_jumps(code: &IrCode, assembler: &mut Assembler)
    requires
        code.wf(),
        balanced(ir_brackets(code.reachable())),
        offset_of(code.reachable(), code.reachable().len() as int) <= old(assembler)@.bytes.len(),
        old(assembler)@.bytes.len() <= i32::MAX,
        written(old(assembler)@.bytes, code.reachable(), code.reachable().len() as int, 0),
        labelled(old(assembler)@.labels, code.reachable(), code.reachable().len() as int),
    ensures
        final(final(assembler).data)@ == final(old(assembler).data)@,
        final(assembler)@.bytes.len() == old(assembler)@.bytes.len(),
        final(assembler)@.bytes.subrange(
            PROLOGUE_LEN as int,
            offset_of(code.reachable(), code.reachable().len() as int),
        ) == body_code(code.reachable(), code.reachable().len() as int),
        forall|i: int|
            0 <= i < PROLOGUE_LEN || offset_of(code.reachable(), code.reachable().len() as int)
                <= i < old(assembler)@.bytes.len() ==> final(assembler)@.bytes[i] == old(
                assembler,
            )@.bytes[i],
{
    let ghost ops = code@;
    let ghost chain = code.chain();
    let ghost rops = code.reachable();
    let ghost b = ir_brackets(rops);
    let ghost n = rops.len() as int;
    let ghost mut k: int = 0;
    let mut nesting = Nesting::new();
    let total: usize = code.ops.len();
    let mut idx: usize = 0;
    proof {
        assert(chain.skip(0) =~= chain);
        nesting.lemma_new_tracks(b);
        lemma_ir_brackets_word(rops);
        lemma_chain_len_bound(ops, 0);
    }
    while idx < total
        invariant
            ops == code@,
            chain == code.chain(),
            rops == code.reachable(),
            b == ir_brackets(rops),
            n == rops.len(),
            n == chain.len(),
            n <= total,
            total == ops.len(),
            code.wf(),
            balanced(b),
            is_bracket_word(b),
            0 <= k <= n,
            idx < total ==> chain_from(ops, idx as int) == chain.skip(k),
            idx >= total ==> k == n,
            nesting.tracks(b, k),
            final(assembler.data)@ == final(old(assembler).data)@,
            assembler@.bytes.len() == old(assembler)@.bytes.len(),
            assembler@.labels == old(assembler)@.labels,
            offset_of(rops, n) <= assembler@.bytes.len() <= i32::MAX,
            written(assembler@.bytes, rops, n, k),
            labelled(assembler@.labels, rops, n),
            forall|i: int|
                0 <= i < PROLOGUE_LEN || offset_of(rops, n) <= i < old(assembler)@.bytes.len()
                    ==> assembler@.bytes[i] == old(assembler)@.bytes[i],
        decreases n - k, total - idx,
    {
        let op = &code.ops[idx];
        let ghost s = assembler@;
        proof {
            lemma_chain_unfold(ops, chain, idx as int, k);
            assert(rops[k] == ops[idx as int]);
            assert(b[k] == ir_bracket_kind(rops[k]));
            lemma_code_sizes();
        }
        match op {
            IrOp::JumpIfZero(_, _) => {
                let key = nesting.enter(Ghost(b), Ghost(k));
                proof {
                    lemma_resolve_open(s, rops, k);
                }
                let open_name = label_name(true, key.0, key.1);
                let at: usize = *assembler.labels.get(open_name.as_str()).unwrap();
                assembler.addr = at;
                test_cell(assembler);
                assembler.je_label(label_name(false, key.0, key.1));
            },
            IrOp::JumpIfNotZero(_, _) => {
                let _ = nesting.leave(Ghost(b), Ghost(k));
                proof {
                    lemma_resolve_other(s.bytes, rops, k);
                }
            },
            _ => {
                proof {
                    nesting.lemma_pass(b, k);
                    lemma_resolve_other(s.bytes, rops, k);
                }
            },
        }
        proof {
            k = k + 1;
        }
        idx =
        match op.next() {
            Some(t) => t,
            None => total,
        };
    }
    proof {
        assert forall|j: int| 0 <= j < n implies #[trigger] segment(assembler@.bytes, rops, j)
            == op_code(rops, j) by {
            assert(segment(assembler@.bytes, rops, j) == partial_code(rops, j, n));
        }
        lemma_segments_concat(assembler@.bytes, rops, n);
    }
}

impl IrCode {
    /// What `compile` asks of the chain: its links lead forward, its
    /// brackets are balanced, its code fits into the buffer that is
    /// allocated for it, and that buffer is small enough for every jump to
    /// be encoded.
    pub open spec fn compilable(&self) -> bool {
        &&& self.wf()
        &&& balanced(ir_brackets(self.reachable()))
        &&& offset_of(self.reachable(), self.reachable().len() as int) + EPILOGUE_LEN
            <= buffer_size(self.reachable().len())
        &&& buffer_size(self.reachable().len()) <= i32::MAX
    }

    /// Whether the chain can be compiled.
    pub fn is_compilable(&self) -> (ok: bool)
        ensures
            ok == self.compilable(),
    {
        if !self.is_wf() {
            return false;
        }
        let length = self.len();
        if length > MAX_CHAIN_LEN {
            return false;
        }
        let ghost ops = self@;
        let ghost chain = self.chain();
        let ghost rops = self.reachable();
        let ghost b = ir_brackets(rops);
        let ghost n = rops.len() as int;
        let ghost mut k: int = 0;
        let total: usize = self.ops.len();
        let mut idx: usize = 0;
        let mut level: usize = 0;
        let mut size: usize = PROLOGUE_LEN;
        proof {
            assert(chain.skip(0) =~= chain);
        }
        while idx < total
            invariant
                ops == self@,
                chain == self.chain(),
                rops == self.reachable(),
                b == ir_brackets(rops),
                n == rops.len(),
                n == chain.len(),
                n == length,
                length <= MAX_CHAIN_LEN,
                total == ops.len(),
                self.wf(),
                0 <= k <= n,
                idx < total ==> chain_from(ops, idx as int) == chain.skip(k),
                idx >= total ==> k == n,
                size == offset_of(rops, k),
                size <= PROLOGUE_LEN + 22 * k,
                level == depth(b, k),
                level <= k,
                forall|m: int| 0 <= m <= k ==> depth(b, m) >= 0,
            decreases n - k, total - idx,
        {
            let op = &self.ops[idx];
            proof {
                lemma_chain_unfold(ops, chain, idx as int, k);
                assert(rops[k] == ops[idx as int]);
                lemma_op_code_len(rops, k);
                assert(depth(b, k + 1) == depth(b, k) + b[k]);
            }
            match op {
                IrOp::JumpIfZero(_, _) => {
                    level += 1;
                },
                IrOp::JumpIfNotZero(_, _) => {
                    if level == 0 {
                        assert(depth(b, k + 1) < 0);
                        return false;
                    }
                    level -= 1;
                },
                _ => {},
            }
            size += encoded_size(op);
            proof {
                k = k + 1;
            }
            idx =
            match op.next() {
                Some(t) => t,
                None => total,
            };
        }
        level == 0 && size + EPILOGUE_LEN <= 256 + length * 16
    }

    /// Compiles the chain to machine code that calls the callbacks of
    /// `io_fn` for input and output and works on the tape at address
    /// `tape`. The code stands at the start of a memory map of
    /// `256 + 16 * n` bytes for a chain of `n` operations; the rest of the
    /// map holds `int3`. There is no artifact where the system gives no
    /// memory.
    pub fn compile(&mut self, io_fn: IoFn, tape: u64) -> (brainfuck: Option<Brainfuck>)
        requires
            old(self).compilable(),
        ensures
            final(self)@ == old(self)@,
            brainfuck matches Some(b) ==> compiled(old(self).reachable(), io_fn, tape, b),
    {
        let length = self.len();
        let blank = Brainfuck::new(256 + length * 16);
        self.compile_given(io_fn, tape, blank)
    }

    /// Compiles the chain into the artifact that was made for it, if one
    /// was made: there is a compiled artifact exactly if there is one to
    /// compile into.
    pub fn compile_given(&mut self, io_fn: IoFn, tape: u64, brainfuck: Option<Brainfuck>) -> (done:
        Option<Brainfuck>)
        requires
            old(self).compilable(),
            brainfuck matches Some(b) ==> b.bytes() == blank(
                buffer_size(old(self).reachable().len()),
            ),
        ensures
            final(self)@ == old(self)@,
            match brainfuck {
                Some(_) => done matches Some(d) && compiled(
                    old(self).reachable(),
                    io_fn,
                    tape,
                    d,
                ),
                None => done is None,
            },
    {
        match brainfuck {
            Some(blank) => Some(self.compile_into(io_fn, tape, blank)),
            None => None,
        }
    }

    /// Compiles the chain into an artifact that holds no code yet and has
    /// a memory map of `256 + 16 * n` bytes for a chain of `n` operations.
    pub fn compile_into(&mut self, io_fn: IoFn, tape: u64, brainfuck: Brainfuck) -> (done:
        Brainfuck)
        requires
            old(self).compilable(),
            brainfuck.bytes() == blank(buffer_size(old(self).reachable().len())),
        ensures
            final(self)@ == old(self)@,
            compiled(old(self).reachable(), io_fn, tape, done),
    {
        let mut brainfuck = brainfuck;
        let ghost rops = self.reachable();
        let ghost code = machine_code(rops, io_fn, tape);
        let ghost blank = brainfuck.bytes();
        let mut assembler = Assembler::new(bytes_mut(&mut brainfuck.program));
        proof {
            lemma_code_sizes();
            lemma_offset_monotone(rops, 0, rops.len() as int);
        }
        emit_prologue(&mut assembler, io_fn, tape);
        let ghost after_prologue = assembler@;
        emit_operations(self, &mut assembler);
        let ghost after_operations = assembler@;
        emit_epilogue(&mut assembler);
        let ghost after_epilogue = assembler@;
        // the cursor is moved back by the second pass
        let code_len = assembler.addr;
        proof {
            lemma_written_frame(
                after_operations.bytes,
                after_epilogue.bytes,
                rops,
                rops.len() as int,
                0,
            );
        }
        resolve_jumps(self, &mut assembler);
        proof {
            let body = body_code(rops, rops.len() as int);
            let end = after_operations.cursor;
            assert(assembler@.bytes.subrange(PROLOGUE_LEN as int, end) == body);
            assert(body.len() == end - PROLOGUE_LEN);
            assert(code.len() == end + EPILOGUE_LEN);
            assert forall|i: int| 0 <= i < blank.len() implies assembler@.bytes[i] == image(
                blank.len(),
                code,
            )[i] by {
                if i < PROLOGUE_LEN {
                    assert(assembler@.bytes[i] == after_prologue.bytes[i]);
                } else if i < end {
                    assert(assembler@.bytes.subrange(PROLOGUE_LEN as int, end)[i - PROLOGUE_LEN]
                        == assembler@.bytes[i]);
                } else {
                    assert(assembler@.bytes[i] == after_epilogue.bytes[i]);
                }
            }
            assert(assembler@.bytes =~= image(blank.len(), code));
        }
        brainfuck.length = code_len;
        brainfuck
    }
}

impl Brainfuck {
    /// The artifact for what the system has answered to the request for a
    /// memory map: none where it gave no map, else an artifact with that
    /// map, which holds no code yet and of which every byte is made `int3`.
    pub fn from_mapping(mapping: Option<MmapMut>) -> (brainfuck: Option<Brainfuck>)
        ensures
            match mapping {
                Some(m) => brainfuck matches Some(b) && b.bytes() == blank(mapped_bytes(m).len())
                    && b.length == 0,
                None => brainfuck is None,
            },
    {
        match mapping {
            Some(binary) => Some(Brainfuck::fill(binary)),
            None => None,
        }
    }
}

} // verus!
