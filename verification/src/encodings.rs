//! The encodings of every instruction for the registers RAX, RBX, R8, R12,
//! R13 and R14, byte by byte.
//!
//! Each statement holds the bytes in full, so that the specification
//! functions of [`crate::assembler`] can be held against the listing of an
//! assembler or a disassembler. The encoder knows one form of each
//! instruction: `add rax, imm32` and `sub rax, imm32` are encoded with
//! ModR/M like those of the other registers, where an assembler would pick
//! the shorter form that is special to RAX.
use crate::assembler::{
    add_bytes, add_indirect_bytes, add_to_mem_offset_bytes, call_bytes, compare_indirect_bytes,
    je_bytes, jne_bytes, le_bytes, mov_bytes, mov_indirect_bytes, mov_to_memory_bytes,
    mov_to_reg_bytes, mul_signed_bytes, pop_bytes, push_bytes, ret_bytes, sub_bytes,
    sub_indirect_bytes, twos_complement8, X64Register,
};
use vstd::prelude::*;

verus! {

/// `mov reg, imm64`: REX.W, `B8+r`, and the immediate with its low byte first.
pub proof fn lemma_mov_encodings(imm: u64)
    ensures
        mov_bytes(X64Register::RAX, imm) == seq![0x48u8, 0xB8] + le_bytes(imm as nat, 8),
        mov_bytes(X64Register::RBX, imm) == seq![0x48u8, 0xBB] + le_bytes(imm as nat, 8),
        mov_bytes(X64Register::R8, imm) == seq![0x49u8, 0xB8] + le_bytes(imm as nat, 8),
        mov_bytes(X64Register::R12, imm) == seq![0x49u8, 0xBC] + le_bytes(imm as nat, 8),
        mov_bytes(X64Register::R13, imm) == seq![0x49u8, 0xBD] + le_bytes(imm as nat, 8),
        mov_bytes(X64Register::R14, imm) == seq![0x49u8, 0xBE] + le_bytes(imm as nat, 8),
{
}

/// `add reg, imm32`: REX.W, `81 /0`, and the immediate with its low byte first.
pub proof fn lemma_add_encodings(imm: u32)
    ensures
        add_bytes(X64Register::RAX, imm) == seq![0x48u8, 0x81, 0xC0] + le_bytes(imm as nat, 4),
        add_bytes(X64Register::RBX, imm) == seq![0x48u8, 0x81, 0xC3] + le_bytes(imm as nat, 4),
        add_bytes(X64Register::R8, imm) == seq![0x49u8, 0x81, 0xC0] + le_bytes(imm as nat, 4),
        add_bytes(X64Register::R12, imm) == seq![0x49u8, 0x81, 0xC4] + le_bytes(imm as nat, 4),
        add_bytes(X64Register::R13, imm) == seq![0x49u8, 0x81, 0xC5] + le_bytes(imm as nat, 4),
        add_bytes(X64Register::R14, imm) == seq![0x49u8, 0x81, 0xC6] + le_bytes(imm as nat, 4),
{
}

/// `sub reg, imm32`: REX.W, `81 /5`, and the immediate with its low byte first.
pub proof fn lemma_sub_encodings(imm: u32)
    ensures
        sub_bytes(X64Register::RAX, imm) == seq![0x48u8, 0x81, 0xE8] + le_bytes(imm as nat, 4),
        sub_bytes(X64Register::RBX, imm) == seq![0x48u8, 0x81, 0xEB] + le_bytes(imm as nat, 4),
        sub_bytes(X64Register::R8, imm) == seq![0x49u8, 0x81, 0xE8] + le_bytes(imm as nat, 4),
        sub_bytes(X64Register::R12, imm) == seq![0x49u8, 0x81, 0xEC] + le_bytes(imm as nat, 4),
        sub_bytes(X64Register::R13, imm) == seq![0x49u8, 0x81, 0xED] + le_bytes(imm as nat, 4),
        sub_bytes(X64Register::R14, imm) == seq![0x49u8, 0x81, 0xEE] + le_bytes(imm as nat, 4),
{
}

/// `add byte ptr [reg], imm8`: `80 /0 ib`.
pub proof fn lemma_add_indirect_encodings(imm: u8)
    ensures
        add_indirect_bytes(X64Register::RAX, imm) == seq![0x80u8, 0x00, imm],
        add_indirect_bytes(X64Register::RBX, imm) == seq![0x80u8, 0x03, imm],
        add_indirect_bytes(X64Register::R8, imm) == seq![0x41u8, 0x80, 0x00, imm],
        add_indirect_bytes(X64Register::R12, imm) == seq![0x41u8, 0x80, 0x04, 0x24, imm],
        add_indirect_bytes(X64Register::R13, imm) == seq![0x41u8, 0x80, 0x45, 0x00, imm],
        add_indirect_bytes(X64Register::R14, imm) == seq![0x41u8, 0x80, 0x06, imm],
{
}

/// `sub byte ptr [reg], imm8`: `80 /5 ib`.
pub proof fn lemma_sub_indirect_encodings(imm: u8)
    ensures
        sub_indirect_bytes(X64Register::RAX, imm) == seq![0x80u8, 0x28, imm],
        sub_indirect_bytes(X64Register::RBX, imm) == seq![0x80u8, 0x2B, imm],
        sub_indirect_bytes(X64Register::R8, imm) == seq![0x41u8, 0x80, 0x28, imm],
        sub_indirect_bytes(X64Register::R12, imm) == seq![0x41u8, 0x80, 0x2C, 0x24, imm],
        sub_indirect_bytes(X64Register::R13, imm) == seq![0x41u8, 0x80, 0x6D, 0x00, imm],
        sub_indirect_bytes(X64Register::R14, imm) == seq![0x41u8, 0x80, 0x2E, imm],
{
}

/// `cmp byte ptr [reg], imm8`: `80 /7 ib`.
pub proof fn lemma_compare_indirect_encodings(imm: u8)
    ensures
        compare_indirect_bytes(X64Register::RAX, imm) == seq![0x80u8, 0x38, imm],
        compare_indirect_bytes(X64Register::RBX, imm) == seq![0x80u8, 0x3B, imm],
        compare_indirect_bytes(X64Register::R8, imm) == seq![0x41u8, 0x80, 0x38, imm],
        compare_indirect_bytes(X64Register::R12, imm) == seq![0x41u8, 0x80, 0x3C, 0x24, imm],
        compare_indirect_bytes(X64Register::R13, imm) == seq![0x41u8, 0x80, 0x7D, 0x00, imm],
        compare_indirect_bytes(X64Register::R14, imm) == seq![0x41u8, 0x80, 0x3E, imm],
{
}

/// `mov byte ptr [reg], imm8`: `C6 /0 ib`.
pub proof fn lemma_mov_indirect_encodings(imm: u8)
    ensures
        mov_indirect_bytes(X64Register::RAX, imm) == seq![0xC6u8, 0x00, imm],
        mov_indirect_bytes(X64Register::RBX, imm) == seq![0xC6u8, 0x03, imm],
        mov_indirect_bytes(X64Register::R8, imm) == seq![0x41u8, 0xC6, 0x00, imm],
        mov_indirect_bytes(X64Register::R12, imm) == seq![0x41u8, 0xC6, 0x04, 0x24, imm],
        mov_indirect_bytes(X64Register::R13, imm) == seq![0x41u8, 0xC6, 0x45, 0x00, imm],
        mov_indirect_bytes(X64Register::R14, imm) == seq![0x41u8, 0xC6, 0x06, imm],
{
}

/// `movzx reg, byte ptr [rax]`: REX.W, `0F B6 /r`.
pub proof fn lemma_mov_to_reg_from_rax_encodings()
    ensures
        mov_to_reg_bytes(X64Register::RAX, X64Register::RAX) == seq![0x48u8, 0x0F, 0xB6, 0x00],
        mov_to_reg_bytes(X64Register::RBX, X64Register::RAX) == seq![0x48u8, 0x0F, 0xB6, 0x18],
        mov_to_reg_bytes(X64Register::R8, X64Register::RAX) == seq![0x4Cu8, 0x0F, 0xB6, 0x00],
        mov_to_reg_bytes(X64Register::R12, X64Register::RAX) == seq![0x4Cu8, 0x0F, 0xB6, 0x20],
        mov_to_reg_bytes(X64Register::R13, X64Register::RAX) == seq![0x4Cu8, 0x0F, 0xB6, 0x28],
        mov_to_reg_bytes(X64Register::R14, X64Register::RAX) == seq![0x4Cu8, 0x0F, 0xB6, 0x30],
{
}

/// `movzx reg, byte ptr [rbx]`: REX.W, `0F B6 /r`.
pub proof fn lemma_mov_to_reg_from_rbx_encodings()
    ensures
        mov_to_reg_bytes(X64Register::RAX, X64Register::RBX) == seq![0x48u8, 0x0F, 0xB6, 0x03],
        mov_to_reg_bytes(X64Register::RBX, X64Register::RBX) == seq![0x48u8, 0x0F, 0xB6, 0x1B],
        mov_to_reg_bytes(X64Register::R8, X64Register::RBX) == seq![0x4Cu8, 0x0F, 0xB6, 0x03],
        mov_to_reg_bytes(X64Register::R12, X64Register::RBX) == seq![0x4Cu8, 0x0F, 0xB6, 0x23],
        mov_to_reg_bytes(X64Register::R13, X64Register::RBX) == seq![0x4Cu8, 0x0F, 0xB6, 0x2B],
        mov_to_reg_bytes(X64Register::R14, X64Register::RBX) == seq![0x4Cu8, 0x0F, 0xB6, 0x33],
{
}

/// `movzx reg, byte ptr [r8]`: REX.W, `0F B6 /r`.
pub proof fn lemma_mov_to_reg_from_r8_encodings()
    ensures
        mov_to_reg_bytes(X64Register::RAX, X64Register::R8) == seq![0x49u8, 0x0F, 0xB6, 0x00],
        mov_to_reg_bytes(X64Register::RBX, X64Register::R8) == seq![0x49u8, 0x0F, 0xB6, 0x18],
        mov_to_reg_bytes(X64Register::R8, X64Register::R8) == seq![0x4Du8, 0x0F, 0xB6, 0x00],
        mov_to_reg_bytes(X64Register::R12, X64Register::R8) == seq![0x4Du8, 0x0F, 0xB6, 0x20],
        mov_to_reg_bytes(X64Register::R13, X64Register::R8) == seq![0x4Du8, 0x0F, 0xB6, 0x28],
        mov_to_reg_bytes(X64Register::R14, X64Register::R8) == seq![0x4Du8, 0x0F, 0xB6, 0x30],
{
}

/// `movzx reg, byte ptr [r12]`: REX.W, `0F B6 /r`.
pub proof fn lemma_mov_to_reg_from_r12_encodings()
    ensures
        mov_to_reg_bytes(X64Register::RAX, X64Register::R12) == seq![
            0x49u8, 0x0F, 0xB6, 0x04, 0x24,
        ],
        mov_to_reg_bytes(X64Register::RBX, X64Register::R12) == seq![
            0x49u8, 0x0F, 0xB6, 0x1C, 0x24,
        ],
        mov_to_reg_bytes(X64Register::R8, X64Register::R12) == seq![0x4Du8, 0x0F, 0xB6, 0x04, 0x24],
        mov_to_reg_bytes(X64Register::R12, X64Register::R12) == seq![
            0x4Du8, 0x0F, 0xB6, 0x24, 0x24,
        ],
        mov_to_reg_bytes(X64Register::R13, X64Register::R12) == seq![
            0x4Du8, 0x0F, 0xB6, 0x2C, 0x24,
        ],
        mov_to_reg_bytes(X64Register::R14, X64Register::R12) == seq![
            0x4Du8, 0x0F, 0xB6, 0x34, 0x24,
        ],
{
}

/// `movzx reg, byte ptr [r13]`: REX.W, `0F B6 /r`.
pub proof fn lemma_mov_to_reg_from_r13_encodings()
    ensures
        mov_to_reg_bytes(X64Register::RAX, X64Register::R13) == seq![
            0x49u8, 0x0F, 0xB6, 0x45, 0x00,
        ],
        mov_to_reg_bytes(X64Register::RBX, X64Register::R13) == seq![
            0x49u8, 0x0F, 0xB6, 0x5D, 0x00,
        ],
        mov_to_reg_bytes(X64Register::R8, X64Register::R13) == seq![0x4Du8, 0x0F, 0xB6, 0x45, 0x00],
        mov_to_reg_bytes(X64Register::R12, X64Register::R13) == seq![
            0x4Du8, 0x0F, 0xB6, 0x65, 0x00,
        ],
        mov_to_reg_bytes(X64Register::R13, X64Register::R13) == seq![
            0x4Du8, 0x0F, 0xB6, 0x6D, 0x00,
        ],
        mov_to_reg_bytes(X64Register::R14, X64Register::R13) == seq![
            0x4Du8, 0x0F, 0xB6, 0x75, 0x00,
        ],
{
}

/// `movzx reg, byte ptr [r14]`: REX.W, `0F B6 /r`.
pub proof fn lemma_mov_to_reg_from_r14_encodings()
    ensures
        mov_to_reg_bytes(X64Register::RAX, X64Register::R14) == seq![0x49u8, 0x0F, 0xB6, 0x06],
        mov_to_reg_bytes(X64Register::RBX, X64Register::R14) == seq![0x49u8, 0x0F, 0xB6, 0x1E],
        mov_to_reg_bytes(X64Register::R8, X64Register::R14) == seq![0x4Du8, 0x0F, 0xB6, 0x06],
        mov_to_reg_bytes(X64Register::R12, X64Register::R14) == seq![0x4Du8, 0x0F, 0xB6, 0x26],
        mov_to_reg_bytes(X64Register::R13, X64Register::R14) == seq![0x4Du8, 0x0F, 0xB6, 0x2E],
        mov_to_reg_bytes(X64Register::R14, X64Register::R14) == seq![0x4Du8, 0x0F, 0xB6, 0x36],
{
}

/// `mov byte ptr [rax], reg`: `88 /r`.
pub proof fn lemma_mov_to_memory_at_rax_encodings()
    ensures
        mov_to_memory_bytes(X64Register::RAX, X64Register::RAX) == seq![0x88u8, 0x00],
        mov_to_memory_bytes(X64Register::RAX, X64Register::RBX) == seq![0x88u8, 0x18],
        mov_to_memory_bytes(X64Register::RAX, X64Register::R8) == seq![0x44u8, 0x88, 0x00],
        mov_to_memory_bytes(X64Register::RAX, X64Register::R12) == seq![0x44u8, 0x88, 0x20],
        mov_to_memory_bytes(X64Register::RAX, X64Register::R13) == seq![0x44u8, 0x88, 0x28],
        mov_to_memory_bytes(X64Register::RAX, X64Register::R14) == seq![0x44u8, 0x88, 0x30],
{
}

/// `mov byte ptr [rbx], reg`: `88 /r`.
pub proof fn lemma_mov_to_memory_at_rbx_encodings()
    ensures
        mov_to_memory_bytes(X64Register::RBX, X64Register::RAX) == seq![0x88u8, 0x03],
        mov_to_memory_bytes(X64Register::RBX, X64Register::RBX) == seq![0x88u8, 0x1B],
        mov_to_memory_bytes(X64Register::RBX, X64Register::R8) == seq![0x44u8, 0x88, 0x03],
        mov_to_memory_bytes(X64Register::RBX, X64Register::R12) == seq![0x44u8, 0x88, 0x23],
        mov_to_memory_bytes(X64Register::RBX, X64Register::R13) == seq![0x44u8, 0x88, 0x2B],
        mov_to_memory_bytes(X64Register::RBX, X64Register::R14) == seq![0x44u8, 0x88, 0x33],
{
}

/// `mov byte ptr [r8], reg`: `88 /r`.
pub proof fn lemma_mov_to_memory_at_r8_encodings()
    ensures
        mov_to_memory_bytes(X64Register::R8, X64Register::RAX) == seq![0x41u8, 0x88, 0x00],
        mov_to_memory_bytes(X64Register::R8, X64Register::RBX) == seq![0x41u8, 0x88, 0x18],
        mov_to_memory_bytes(X64Register::R8, X64Register::R8) == seq![0x45u8, 0x88, 0x00],
        mov_to_memory_bytes(X64Register::R8, X64Register::R12) == seq![0x45u8, 0x88, 0x20],
        mov_to_memory_bytes(X64Register::R8, X64Register::R13) == seq![0x45u8, 0x88, 0x28],
        mov_to_memory_bytes(X64Register::R8, X64Register::R14) == seq![0x45u8, 0x88, 0x30],
{
}

/// `mov byte ptr [r12], reg`: `88 /r`.
pub proof fn lemma_mov_to_memory_at_r12_encodings()
    ensures
        mov_to_memory_bytes(X64Register::R12, X64Register::RAX) == seq![0x41u8, 0x88, 0x04, 0x24],
        mov_to_memory_bytes(X64Register::R12, X64Register::RBX) == seq![0x41u8, 0x88, 0x1C, 0x24],
        mov_to_memory_bytes(X64Register::R12, X64Register::R8) == seq![0x45u8, 0x88, 0x04, 0x24],
        mov_to_memory_bytes(X64Register::R12, X64Register::R12) == seq![0x45u8, 0x88, 0x24, 0x24],
        mov_to_memory_bytes(X64Register::R12, X64Register::R13) == seq![0x45u8, 0x88, 0x2C, 0x24],
        mov_to_memory_bytes(X64Register::R12, X64Register::R14) == seq![0x45u8, 0x88, 0x34, 0x24],
{
}

/// `mov byte ptr [r13], reg`: `88 /r`.
pub proof fn lemma_mov_to_memory_at_r13_encodings()
    ensures
        mov_to_memory_bytes(X64Register::R13, X64Register::RAX) == seq![0x41u8, 0x88, 0x45, 0x00],
        mov_to_memory_bytes(X64Register::R13, X64Register::RBX) == seq![0x41u8, 0x88, 0x5D, 0x00],
        mov_to_memory_bytes(X64Register::R13, X64Register::R8) == seq![0x45u8, 0x88, 0x45, 0x00],
        mov_to_memory_bytes(X64Register::R13, X64Register::R12) == seq![0x45u8, 0x88, 0x65, 0x00],
        mov_to_memory_bytes(X64Register::R13, X64Register::R13) == seq![0x45u8, 0x88, 0x6D, 0x00],
        mov_to_memory_bytes(X64Register::R13, X64Register::R14) == seq![0x45u8, 0x88, 0x75, 0x00],
{
}

/// `mov byte ptr [r14], reg`: `88 /r`.
pub proof fn lemma_mov_to_memory_at_r14_encodings()
    ensures
        mov_to_memory_bytes(X64Register::R14, X64Register::RAX) == seq![0x41u8, 0x88, 0x06],
        mov_to_memory_bytes(X64Register::R14, X64Register::RBX) == seq![0x41u8, 0x88, 0x1E],
        mov_to_memory_bytes(X64Register::R14, X64Register::R8) == seq![0x45u8, 0x88, 0x06],
        mov_to_memory_bytes(X64Register::R14, X64Register::R12) == seq![0x45u8, 0x88, 0x26],
        mov_to_memory_bytes(X64Register::R14, X64Register::R13) == seq![0x45u8, 0x88, 0x2E],
        mov_to_memory_bytes(X64Register::R14, X64Register::R14) == seq![0x45u8, 0x88, 0x36],
{
}

/// `add byte ptr [rax + disp8], reg`: `00 /r`.
pub proof fn lemma_add_to_mem_offset_at_rax_encodings(offset: i8)
    ensures
        add_to_mem_offset_bytes(X64Register::RAX, X64Register::RAX, offset) == seq![
            0x00u8, 0x40, twos_complement8(offset as int),
        ],
        add_to_mem_offset_bytes(X64Register::RAX, X64Register::RBX, offset) == seq![
            0x00u8, 0x58, twos_complement8(offset as int),
        ],
        add_to_mem_offset_bytes(X64Register::RAX, X64Register::R8, offset) == seq![
            0x44u8, 0x00, 0x40, twos_complement8(offset as int),
        ],
        add_to_mem_offset_bytes(X64Register::RAX, X64Register::R12, offset) == seq![
            0x44u8, 0x00, 0x60, twos_complement8(offset as int),
        ],
        add_to_mem_offset_bytes(X64Register::RAX, X64Register::R13, offset) == seq![
            0x44u8, 0x00, 0x68, twos_complement8(offset as int),
        ],
        add_to_mem_offset_bytes(X64Register::RAX, X64Register::R14, offset) == seq![
            0x44u8, 0x00, 0x70, twos_complement8(offset as int),
        ],
{
}

/// `add byte ptr [rbx + disp8], reg`: `00 /r`.
pub proof fn lemma_add_to_mem_offset_at_rbx_encodings(offset: i8)
    ensures
        add_to_mem_offset_bytes(X64Register::RBX, X64Register::RAX, offset) == seq![
            0x00u8, 0x43, twos_complement8(offset as int),
        ],
        add_to_mem_offset_bytes(X64Register::RBX, X64Register::RBX, offset) == seq![
            0x00u8, 0x5B, twos_complement8(offset as int),
        ],
        add_to_mem_offset_bytes(X64Register::RBX, X64Register::R8, offset) == seq![
            0x44u8, 0x00, 0x43, twos_complement8(offset as int),
        ],
        add_to_mem_offset_bytes(X64Register::RBX, X64Register::R12, offset) == seq![
            0x44u8, 0x00, 0x63, twos_complement8(offset as int),
        ],
        add_to_mem_offset_bytes(X64Register::RBX, X64Register::R13, offset) == seq![
            0x44u8, 0x00, 0x6B, twos_complement8(offset as int),
        ],
        add_to_mem_offset_bytes(X64Register::RBX, X64Register::R14, offset) == seq![
            0x44u8, 0x00, 0x73, twos_complement8(offset as int),
        ],
{
}

/// `add byte ptr [r8 + disp8], reg`: `00 /r`.
pub proof fn lemma_add_to_mem_offset_at_r8_encodings(offset: i8)
    ensures
        add_to_mem_offset_bytes(X64Register::R8, X64Register::RAX, offset) == seq![
            0x41u8, 0x00, 0x40, twos_complement8(offset as int),
        ],
        add_to_mem_offset_bytes(X64Register::R8, X64Register::RBX, offset) == seq![
            0x41u8, 0x00, 0x58, twos_complement8(offset as int),
        ],
        add_to_mem_offset_bytes(X64Register::R8, X64Register::R8, offset) == seq![
            0x45u8, 0x00, 0x40, twos_complement8(offset as int),
        ],
        add_to_mem_offset_bytes(X64Register::R8, X64Register::R12, offset) == seq![
            0x45u8, 0x00, 0x60, twos_complement8(offset as int),
        ],
        add_to_mem_offset_bytes(X64Register::R8, X64Register::R13, offset) == seq![
            0x45u8, 0x00, 0x68, twos_complement8(offset as int),
        ],
        add_to_mem_offset_bytes(X64Register::R8, X64Register::R14, offset) == seq![
            0x45u8, 0x00, 0x70, twos_complement8(offset as int),
        ],
{
}

/// `add byte ptr [r12 + disp8], reg`: `00 /r`.
pub proof fn lemma_add_to_mem_offset_at_r12_encodings(offset: i8)
    ensures
        add_to_mem_offset_bytes(X64Register::R12, X64Register::RAX, offset) == seq![
            0x41u8, 0x00, 0x44, 0x24, twos_complement8(offset as int),
        ],
        add_to_mem_offset_bytes(X64Register::R12, X64Register::RBX, offset) == seq![
            0x41u8, 0x00, 0x5C, 0x24, twos_complement8(offset as int),
        ],
        add_to_mem_offset_bytes(X64Register::R12, X64Register::R8, offset) == seq![
            0x45u8, 0x00, 0x44, 0x24, twos_complement8(offset as int),
        ],
        add_to_mem_offset_bytes(X64Register::R12, X64Register::R12, offset) == seq![
            0x45u8, 0x00, 0x64, 0x24, twos_complement8(offset as int),
        ],
        add_to_mem_offset_bytes(X64Register::R12, X64Register::R13, offset) == seq![
            0x45u8, 0x00, 0x6C, 0x24, twos_complement8(offset as int),
        ],
        add_to_mem_offset_bytes(X64Register::R12, X64Register::R14, offset) == seq![
            0x45u8, 0x00, 0x74, 0x24, twos_complement8(offset as int),
        ],
{
}

/// `add byte ptr [r13 + disp8], reg`: `00 /r`.
pub proof fn lemma_add_to_mem_offset_at_r13_encodings(offset: i8)
    ensures
        add_to_mem_offset_bytes(X64Register::R13, X64Register::RAX, offset) == seq![
            0x41u8, 0x00, 0x45, twos_complement8(offset as int),
        ],
        add_to_mem_offset_bytes(X64Register::R13, X64Register::RBX, offset) == seq![
            0x41u8, 0x00, 0x5D, twos_complement8(offset as int),
        ],
        add_to_mem_offset_bytes(X64Register::R13, X64Register::R8, offset) == seq![
            0x45u8, 0x00, 0x45, twos_complement8(offset as int),
        ],
        add_to_mem_offset_bytes(X64Register::R13, X64Register::R12, offset) == seq![
            0x45u8, 0x00, 0x65, twos_complement8(offset as int),
        ],
        add_to_mem_offset_bytes(X64Register::R13, X64Register::R13, offset) == seq![
            0x45u8, 0x00, 0x6D, twos_complement8(offset as int),
        ],
        add_to_mem_offset_bytes(X64Register::R13, X64Register::R14, offset) == seq![
            0x45u8, 0x00, 0x75, twos_complement8(offset as int),
        ],
{
}

/// `add byte ptr [r14 + disp8], reg`: `00 /r`.
pub proof fn lemma_add_to_mem_offset_at_r14_encodings(offset: i8)
    ensures
        add_to_mem_offset_bytes(X64Register::R14, X64Register::RAX, offset) == seq![
            0x41u8, 0x00, 0x46, twos_complement8(offset as int),
        ],
        add_to_mem_offset_bytes(X64Register::R14, X64Register::RBX, offset) == seq![
            0x41u8, 0x00, 0x5E, twos_complement8(offset as int),
        ],
        add_to_mem_offset_bytes(X64Register::R14, X64Register::R8, offset) == seq![
            0x45u8, 0x00, 0x46, twos_complement8(offset as int),
        ],
        add_to_mem_offset_bytes(X64Register::R14, X64Register::R12, offset) == seq![
            0x45u8, 0x00, 0x66, twos_complement8(offset as int),
        ],
        add_to_mem_offset_bytes(X64Register::R14, X64Register::R13, offset) == seq![
            0x45u8, 0x00, 0x6E, twos_complement8(offset as int),
        ],
        add_to_mem_offset_bytes(X64Register::R14, X64Register::R14, offset) == seq![
            0x45u8, 0x00, 0x76, twos_complement8(offset as int),
        ],
{
}

/// `imul rax, reg`: REX.W, `0F AF /r`.
pub proof fn lemma_mul_signed_encodings()
    ensures
        mul_signed_bytes(X64Register::RAX) == seq![0x48u8, 0x0F, 0xAF, 0xC0],
        mul_signed_bytes(X64Register::RBX) == seq![0x48u8, 0x0F, 0xAF, 0xC3],
        mul_signed_bytes(X64Register::R8) == seq![0x49u8, 0x0F, 0xAF, 0xC0],
        mul_signed_bytes(X64Register::R12) == seq![0x49u8, 0x0F, 0xAF, 0xC4],
        mul_signed_bytes(X64Register::R13) == seq![0x49u8, 0x0F, 0xAF, 0xC5],
        mul_signed_bytes(X64Register::R14) == seq![0x49u8, 0x0F, 0xAF, 0xC6],
{
}

/// `call reg`: `FF /2`.
pub proof fn lemma_call_encodings()
    ensures
        call_bytes(X64Register::RAX) == seq![0xFFu8, 0xD0],
        call_bytes(X64Register::RBX) == seq![0xFFu8, 0xD3],
        call_bytes(X64Register::R8) == seq![0x41u8, 0xFF, 0xD0],
        call_bytes(X64Register::R12) == seq![0x41u8, 0xFF, 0xD4],
        call_bytes(X64Register::R13) == seq![0x41u8, 0xFF, 0xD5],
        call_bytes(X64Register::R14) == seq![0x41u8, 0xFF, 0xD6],
{
}

/// `push reg`: `50+r`.
pub proof fn lemma_push_encodings()
    ensures
        push_bytes(X64Register::RAX) == seq![0x50u8],
        push_bytes(X64Register::RBX) == seq![0x53u8],
        push_bytes(X64Register::R8) == seq![0x41u8, 0x50],
        push_bytes(X64Register::R12) == seq![0x41u8, 0x54],
        push_bytes(X64Register::R13) == seq![0x41u8, 0x55],
        push_bytes(X64Register::R14) == seq![0x41u8, 0x56],
{
}

/// `pop reg`: `58+r`.
pub proof fn lemma_pop_encodings()
    ensures
        pop_bytes(X64Register::RAX) == seq![0x58u8],
        pop_bytes(X64Register::RBX) == seq![0x5Bu8],
        pop_bytes(X64Register::R8) == seq![0x41u8, 0x58],
        pop_bytes(X64Register::R12) == seq![0x41u8, 0x5C],
        pop_bytes(X64Register::R13) == seq![0x41u8, 0x5D],
        pop_bytes(X64Register::R14) == seq![0x41u8, 0x5E],
{
}

/// The bytes of an immediate come with the lowest first.
pub proof fn lemma_le_bytes_examples()
    ensures
        le_bytes(0xDEAD_BEEF_DEAD_BEEF, 8) == seq![
            0xEFu8,
            0xBE,
            0xAD,
            0xDE,
            0xEF,
            0xBE,
            0xAD,
            0xDE,
        ],
        le_bytes(0xABCD, 4) == seq![0xCDu8, 0xAB, 0x00, 0x00],
        le_bytes(0x0A0A_0B0B, 4) == seq![0x0Bu8, 0x0B, 0x0A, 0x0A],
{
    reveal_with_fuel(le_bytes, 9);
}

/// `mov rax, 0xDEADBEEFDEADBEEF` and `mov r12, 0xDEADBEEFDEADBEEF`.
pub proof fn lemma_mov_examples()
    ensures
        mov_bytes(X64Register::RAX, 0xDEAD_BEEF_DEAD_BEEF) == seq![
            0x48u8,
            0xB8,
            0xEF,
            0xBE,
            0xAD,
            0xDE,
            0xEF,
            0xBE,
            0xAD,
            0xDE,
        ],
        mov_bytes(X64Register::R12, 0xDEAD_BEEF_DEAD_BEEF) == seq![
            0x49u8,
            0xBC,
            0xEF,
            0xBE,
            0xAD,
            0xDE,
            0xEF,
            0xBE,
            0xAD,
            0xDE,
        ],
{
    lemma_le_bytes_examples();
}

/// `add rdx, 0xABCD`.
pub proof fn lemma_add_example()
    ensures
        add_bytes(X64Register::RDX, 0xABCD) == seq![0x48u8, 0x81, 0xC2, 0xCD, 0xAB, 0x00, 0x00],
{
    lemma_le_bytes_examples();
}

/// `je rel32` and `jne rel32`: `0F 84` and `0F 85`, and the displacement in
/// two's complement with its low byte first.
pub proof fn lemma_jump_examples()
    ensures
        je_bytes(0x0A0A_0B0B) == seq![0x0Fu8, 0x84, 0x0B, 0x0B, 0x0A, 0x0A],
        jne_bytes(0x0A0A_0B0B) == seq![0x0Fu8, 0x85, 0x0B, 0x0B, 0x0A, 0x0A],
        je_bytes(-1i32) == seq![0x0Fu8, 0x84, 0xFF, 0xFF, 0xFF, 0xFF],
        jne_bytes(-16i32) == seq![0x0Fu8, 0x85, 0xF0, 0xFF, 0xFF, 0xFF],
{
    reveal_with_fuel(le_bytes, 5);
}

/// `ret`.
pub proof fn lemma_ret_encoding()
    ensures
        ret_bytes() == seq![0xC3u8],
{
}

} // verus!
