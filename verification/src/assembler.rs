//! Encoder for the handful of x86-64 instructions that the compiler emits.
//!
//! Every instruction has a specification function that gives its bytes and
//! an executable method on [`Assembler`] that writes exactly those bytes at
//! the cursor.
use vstd::hash_map::StringHashMap;
use vstd::prelude::*;

verus! {

/// The sixteen general purpose registers, in encoding order.
#[allow(dead_code)]
#[derive(Copy, Clone, Debug, PartialEq, Eq, Structural)]
pub enum X64Register {
    RAX,
    RCX,
    RDX,
    RBX,
    RSP,
    RBP,
    RSI,
    RDI,
    R8,
    R9,
    R10,
    R11,
    R12,
    R13,
    R14,
    R15,
}

impl X64Register {
    /// The register's four bit number.
    pub open spec fn index(self) -> nat {
        match self {
            X64Register::RAX => 0,
            X64Register::RCX => 1,
            X64Register::RDX => 2,
            X64Register::RBX => 3,
            X64Register::RSP => 4,
            X64Register::RBP => 5,
            X64Register::RSI => 6,
            X64Register::RDI => 7,
            X64Register::R8 => 8,
            X64Register::R9 => 9,
            X64Register::R10 => 10,
            X64Register::R11 => 11,
            X64Register::R12 => 12,
            X64Register::R13 => 13,
            X64Register::R14 => 14,
            X64Register::R15 => 15,
        }
    }

    /// Whether the register needs a REX extension bit (R8 to R15).
    pub open spec fn extended(self) -> bool {
        self.index() >= 8
    }

    /// The three bits of the register number that fit into ModR/M, SIB or
    /// the opcode byte.
    pub open spec fn low3(self) -> nat {
        self.index() % 8
    }

    /// Whether the register needs a REX extension bit.
    pub fn is_extended(self) -> (e: bool)
        ensures
            e == self.extended(),
    {
        match self {
            X64Register::R8
            | X64Register::R9
            | X64Register::R10
            | X64Register::R11
            | X64Register::R12
            | X64Register::R13
            | X64Register::R14
            | X64Register::R15 => true,
            _ => false,
        }
    }

    /// The low three bits of the register number.
    pub fn to_u8(self) -> (n: u8)
        ensures
            n == self.low3(),
    {
        match self {
            X64Register::RAX | X64Register::R8 => 0,
            X64Register::RCX | X64Register::R9 => 1,
            X64Register::RDX | X64Register::R10 => 2,
            X64Register::RBX | X64Register::R11 => 3,
            X64Register::RSP | X64Register::R12 => 4,
            X64Register::RBP | X64Register::R13 => 5,
            X64Register::RSI | X64Register::R14 => 6,
            X64Register::RDI | X64Register::R15 => 7,
        }
    }
}

/// A REX prefix: `0100WRXB` with X clear.
pub open spec fn rex(w: bool, r: bool, b: bool) -> u8 {
    (0x40 + (if w { 8int } else { 0 }) + (if r { 4int } else { 0 }) + (if b { 1int } else { 0 })) as u8
}

/// A ModR/M byte: `mode` in bits 7..6, `reg` in bits 5..3, `rm` in bits 2..0.
pub open spec fn modrm(mode: nat, reg: nat, rm: nat) -> u8
    recommends
        mode < 4,
        reg < 8,
        rm < 8,
{
    (mode * 64 + reg * 8 + rm) as u8
}

/// A SIB byte: `scale` in bits 7..6, `index` in bits 5..3, `base` in bits
/// 2..0. Index 4 stands for "no index".
pub open spec fn sib(scale: nat, index: nat, base: nat) -> u8
    recommends
        scale < 4,
        index < 8,
        base < 8,
{
    (scale * 64 + index * 8 + base) as u8
}

/// The `n` low bytes of `value`, least significant first.
pub open spec fn le_bytes(value: nat, n: nat) -> Seq<u8>
    decreases n,
{
    if n == 0 {
        Seq::empty()
    } else {
        seq![(value % 256) as u8] + le_bytes(value / 256, (n - 1) as nat)
    }
}

/// The unsigned 32 bit pattern of a signed displacement (two's complement).
pub open spec fn twos_complement32(rel: int) -> nat
    recommends
        -0x8000_0000 <= rel < 0x8000_0000,
{
    if rel >= 0 {
        rel as nat
    } else {
        (rel + 0x1_0000_0000) as nat
    }
}

/// The unsigned 8 bit pattern of a signed displacement (two's complement).
pub open spec fn twos_complement8(rel: int) -> u8
    recommends
        -128 <= rel < 128,
{
    if rel >= 0 {
        rel as u8
    } else {
        (rel + 256) as u8
    }
}

/// The prefix of an instruction whose operands are 8 bits wide: a REX byte
/// only if one of the two extension bits is needed.
pub open spec fn optional_rex(r: bool, b: bool) -> Seq<u8> {
    if r || b {
        seq![rex(false, r, b)]
    } else {
        Seq::empty()
    }
}

/// ModR/M and what follows it for the operand `[base]`.
///
/// RSP and R12 need a SIB byte, and RBP and R13 need an explicit zero
/// displacement; the other registers are addressed by ModR/M alone.
pub open spec fn mem_operand(reg: nat, base: X64Register) -> Seq<u8>
    recommends
        reg < 8,
{
    if base.low3() == 4 {
        seq![modrm(0, reg, 4), sib(0, 4, 4)]
    } else if base.low3() == 5 {
        seq![modrm(1, reg, 5), 0u8]
    } else {
        seq![modrm(0, reg, base.low3())]
    }
}

/// ModR/M and what follows it for the operand `[base + disp8]`.
pub open spec fn mem_operand_disp8(reg: nat, base: X64Register, disp: int) -> Seq<u8>
    recommends
        reg < 8,
        -128 <= disp < 128,
{
    if base.low3() == 4 {
        seq![modrm(1, reg, 4), sib(0, 4, 4), twos_complement8(disp)]
    } else {
        seq![modrm(1, reg, base.low3()), twos_complement8(disp)]
    }
}

/// `mov reg, imm64`
pub open spec fn mov_bytes(reg: X64Register, imm: u64) -> Seq<u8> {
    seq![rex(true, false, reg.extended()), (0xB8 + reg.low3()) as u8] + le_bytes(imm as nat, 8)
}

/// `add reg, imm32` (`ext` 0) and `sub reg, imm32` (`ext` 5).
pub open spec fn alu_imm32_bytes(ext: nat, reg: X64Register, imm: u32) -> Seq<u8>
    recommends
        ext < 8,
{
    seq![rex(true, false, reg.extended()), 0x81u8, modrm(3, ext, reg.low3())] + le_bytes(
        imm as nat,
        4,
    )
}

/// `add reg, imm32`
pub open spec fn add_bytes(reg: X64Register, imm: u32) -> Seq<u8> {
    alu_imm32_bytes(0, reg, imm)
}

/// `sub reg, imm32`
pub open spec fn sub_bytes(reg: X64Register, imm: u32) -> Seq<u8> {
    alu_imm32_bytes(5, reg, imm)
}

/// An instruction of opcode `0x80` on `byte ptr [memory]` with an 8 bit
/// immediate; `ext` selects the operation (0 add, 5 sub, 7 compare).
pub open spec fn alu_indirect_bytes(ext: nat, memory: X64Register, imm: u8) -> Seq<u8>
    recommends
        ext < 8,
{
    optional_rex(false, memory.extended()) + seq![0x80u8] + mem_operand(ext, memory) + seq![imm]
}

/// `add byte ptr [memory], imm8`
pub open spec fn add_indirect_bytes(memory: X64Register, imm: u8) -> Seq<u8> {
    alu_indirect_bytes(0, memory, imm)
}

/// `sub byte ptr [memory], imm8`
pub open spec fn sub_indirect_bytes(memory: X64Register, imm: u8) -> Seq<u8> {
    alu_indirect_bytes(5, memory, imm)
}

/// `cmp byte ptr [memory], imm8`
pub open spec fn compare_indirect_bytes(memory: X64Register, imm: u8) -> Seq<u8> {
    alu_indirect_bytes(7, memory, imm)
}

/// `mov byte ptr [memory], imm8`
pub open spec fn mov_indirect_bytes(memory: X64Register, imm: u8) -> Seq<u8> {
    optional_rex(false, memory.extended()) + seq![0xC6u8] + mem_operand(0, memory) + seq![imm]
}

/// `movzx to, byte ptr [from_memory]`
pub open spec fn mov_to_reg_bytes(to: X64Register, from_memory: X64Register) -> Seq<u8> {
    seq![rex(true, to.extended(), from_memory.extended()), 0x0Fu8, 0xB6u8] + mem_operand(
        to.low3(),
        from_memory,
    )
}

/// `mov byte ptr [to_memory], from_reg` (the low byte of `from_reg`)
pub open spec fn mov_to_memory_bytes(to_memory: X64Register, from_reg: X64Register) -> Seq<u8> {
    optional_rex(from_reg.extended(), to_memory.extended()) + seq![0x88u8] + mem_operand(
        from_reg.low3(),
        to_memory,
    )
}

/// `add byte ptr [memory + offset], reg` (the low byte of `reg`)
pub open spec fn add_to_mem_offset_bytes(memory: X64Register, reg: X64Register, offset: i8) -> Seq<
    u8,
> {
    optional_rex(reg.extended(), memory.extended()) + seq![0x00u8] + mem_operand_disp8(
        reg.low3(),
        memory,
        offset as int,
    )
}

/// `imul rax, reg`
pub open spec fn mul_signed_bytes(reg: X64Register) -> Seq<u8> {
    seq![rex(true, false, reg.extended()), 0x0Fu8, 0xAFu8, modrm(3, 0, reg.low3())]
}

/// `je rel32`
pub open spec fn je_bytes(relative_addr: i32) -> Seq<u8> {
    seq![0x0Fu8, 0x84u8] + le_bytes(twos_complement32(relative_addr as int), 4)
}

/// `jne rel32`
pub open spec fn jne_bytes(relative_addr: i32) -> Seq<u8> {
    seq![0x0Fu8, 0x85u8] + le_bytes(twos_complement32(relative_addr as int), 4)
}

/// `call reg`
pub open spec fn call_bytes(reg: X64Register) -> Seq<u8> {
    optional_rex(false, reg.extended()) + seq![0xFFu8, modrm(3, 2, reg.low3())]
}

/// `push reg`
pub open spec fn push_bytes(reg: X64Register) -> Seq<u8> {
    optional_rex(false, reg.extended()) + seq![(0x50 + reg.low3()) as u8]
}

/// `pop reg`
pub open spec fn pop_bytes(reg: X64Register) -> Seq<u8> {
    optional_rex(false, reg.extended()) + seq![(0x58 + reg.low3()) as u8]
}

/// `ret`
pub open spec fn ret_bytes() -> Seq<u8> {
    seq![0xC3u8]
}

/// `s` with `b` written over it from position `at` on.
pub open spec fn overwrite(s: Seq<u8>, at: int, b: Seq<u8>) -> Seq<u8>
    recommends
        0 <= at,
        at + b.len() <= s.len(),
{
    Seq::new(
        s.len(),
        |i: int|
            if at <= i < at + b.len() {
                b[i - at]
            } else {
                s[i]
            },
    )
}

/// What an [`Assembler`] stands for: the output buffer, the position of the
/// next byte and the label table.
pub struct AsmState {
    pub bytes: Seq<u8>,
    pub cursor: int,
    pub labels: Map<Seq<char>, usize>,
}

impl AsmState {
    /// Room for `n` more bytes at the cursor.
    pub open spec fn fits(self, n: nat) -> bool {
        0 <= self.cursor && self.cursor + n <= self.bytes.len()
    }

    /// The state after `b` was written at the cursor.
    pub open spec fn emit(self, b: Seq<u8>) -> AsmState {
        AsmState {
            bytes: overwrite(self.bytes, self.cursor, b),
            cursor: self.cursor + b.len(),
            labels: self.labels,
        }
    }

    /// The state after the cursor was recorded under `name`.
    pub open spec fn bind(self, name: Seq<char>) -> AsmState
        recommends
            0 <= self.cursor <= usize::MAX,
    {
        AsmState { labels: self.labels.insert(name, self.cursor as usize), ..self }
    }

    /// The displacement of a six byte jump instruction that stands at the
    /// cursor and targets `target`.
    pub open spec fn displacement_to(self, target: int) -> int {
        target - (self.cursor + 6)
    }
}

/// Whether a displacement can be encoded in 32 bits.
pub open spec fn fits_rel32(rel: int) -> bool {
    -0x8000_0000 <= rel < 0x8000_0000
}

/// The displacement of a six byte jump at `source` that targets `target`.
pub fn displacement(target: usize, source: usize) -> (rel: i32)
    requires
        fits_rel32(target - (source + 6)),
    ensures
        rel == target - (source + 6),
{
    (target as i128 - (source as i128 + 6)) as i32
}

/// Writing `a` and then `b` is writing their concatenation.
pub proof fn lemma_emit_concat(s: AsmState, a: Seq<u8>, b: Seq<u8>)
    requires
        s.fits(a.len() + b.len()),
    ensures
        s.emit(a).emit(b) == s.emit(a + b),
{
    assert(s.emit(a).emit(b).bytes =~= s.emit(a + b).bytes);
}

/// Writes instructions into a caller supplied buffer.
pub struct Assembler<'a> {
    pub data: &'a mut [u8],
    pub addr: usize,
    pub labels: StringHashMap<usize>,
}

impl<'a> View for Assembler<'a> {
    type V = AsmState;

    open spec fn view(&self) -> AsmState {
        AsmState { bytes: self.data@, cursor: self.addr as int, labels: self.labels@ }
    }
}


impl<'a> Assembler<'a> {
    /// An assembler that writes from the start of `data`, with no labels.
    pub fn new(data: &'a mut [u8]) -> (assembler: Self)
        ensures
            assembler@ == (AsmState { bytes: old(data)@, cursor: 0, labels: Map::empty() }),
            final(data)@ == final(assembler.data)@,
    {
        Assembler { data, addr: 0, labels: StringHashMap::new() }
    }

    /// Writes one byte at the cursor and moves the cursor behind it.
    fn put(&mut self, value: u8)
        requires
            old(self)@.fits(1),
        ensures
            final(final(self).data)@ == final(old(self).data)@,
            final(self)@ == old(self)@.emit(seq![value]),
    {
        self.data[self.addr] = value;
        self.addr += 1;
        assert(self@.bytes =~= old(self)@.emit(seq![value]).bytes);
    }

    /// Writes a 32 bit immediate, lowest byte first.
    fn imm32(&mut self, imm: u32)
        requires
            old(self)@.fits(4),
        ensures
            final(final(self).data)@ == final(old(self).data)@,
            final(self)@ == old(self)@.emit(le_bytes(imm as nat, 4)),
    {
        let mut rest: u32 = imm;
        let mut i: usize = 0;
        proof {
            lemma_le_bytes_step(imm as nat, 4);
        }
        while i < 4
            invariant
                i <= 4,
                old(self)@.fits(4),
                final(self.data)@ == final(old(self).data)@,
                self@.cursor == old(self)@.cursor + i,
                self@.labels == old(self)@.labels,
                self@.bytes.len() == old(self)@.bytes.len(),
                forall|k: int|
                    0 <= k < self@.bytes.len() && !(old(self)@.cursor <= k < old(self)@.cursor
                        + 4) ==> self@.bytes[k] == old(self)@.bytes[k],
                forall|k: int|
                    0 <= k < i ==> self@.bytes[old(self)@.cursor + k] == #[trigger] le_bytes(
                        imm as nat,
                        4,
                    )[k],
                le_bytes(imm as nat, 4).len() == 4,
                le_bytes(imm as nat, 4).skip(i as int) == le_bytes(rest as nat, (4 - i) as nat),
            decreases 4 - i,
        {
            proof {
                lemma_le_bytes_step(rest as nat, (4 - i) as nat);
                assert(le_bytes(imm as nat, 4).skip(i as int)[0] == le_bytes(imm as nat, 4)[
                    i as int
                ]);
                assert(le_bytes(imm as nat, 4).skip(i as int).skip(1) =~= le_bytes(
                    imm as nat,
                    4,
                ).skip(i + 1));
            }
            self.put((rest % 256) as u8);
            rest = rest / 256;
            i += 1;
        }
        assert(self@.bytes =~= old(self)@.emit(le_bytes(imm as nat, 4)).bytes);
    }

    /// Writes a 64 bit immediate, lowest byte first.
    fn imm64(&mut self, imm: u64)
        requires
            old(self)@.fits(8),
        ensures
            final(final(self).data)@ == final(old(self).data)@,
            final(self)@ == old(self)@.emit(le_bytes(imm as nat, 8)),
    {
        let mut rest: u64 = imm;
        let mut i: usize = 0;
        proof {
            lemma_le_bytes_step(imm as nat, 8);
        }
        while i < 8
            invariant
                i <= 8,
                old(self)@.fits(8),
                final(self.data)@ == final(old(self).data)@,
                self@.cursor == old(self)@.cursor + i,
                self@.labels == old(self)@.labels,
                self@.bytes.len() == old(self)@.bytes.len(),
                forall|k: int|
                    0 <= k < self@.bytes.len() && !(old(self)@.cursor <= k < old(self)@.cursor
                        + 8) ==> self@.bytes[k] == old(self)@.bytes[k],
                forall|k: int|
                    0 <= k < i ==> self@.bytes[old(self)@.cursor + k] == #[trigger] le_bytes(
                        imm as nat,
                        8,
                    )[k],
                le_bytes(imm as nat, 8).len() == 8,
                le_bytes(imm as nat, 8).skip(i as int) == le_bytes(rest as nat, (8 - i) as nat),
            decreases 8 - i,
        {
            proof {
                lemma_le_bytes_step(rest as nat, (8 - i) as nat);
                assert(le_bytes(imm as nat, 8).skip(i as int)[0] == le_bytes(imm as nat, 8)[
                    i as int
                ]);
                assert(le_bytes(imm as nat, 8).skip(i as int).skip(1) =~= le_bytes(
                    imm as nat,
                    8,
                ).skip(i + 1));
            }
            self.put((rest % 256) as u8);
            rest = rest / 256;
            i += 1;
        }
        assert(self@.bytes =~= old(self)@.emit(le_bytes(imm as nat, 8)).bytes);
    }

    /// Writes a ModR/M byte.
    fn mod_rm(&mut self, reg_opcode: u8, mode: u8, rm: u8)
        requires
            old(self)@.fits(1),
            mode < 4,
            reg_opcode < 8,
            rm < 8,
        ensures
            final(final(self).data)@ == final(old(self).data)@,
            final(self)@ == old(self)@.emit(seq![modrm(mode as nat, reg_opcode as nat, rm as nat)]),
    {
        let value: u8 = mode * 64 + reg_opcode * 8 + rm;
        self.put(value);
    }

    /// Writes a SIB byte.
    fn sib(&mut self, base: u8, scale: u8, index: u8)
        requires
            old(self)@.fits(1),
            scale < 4,
            index < 8,
            base < 8,
        ensures
            final(final(self).data)@ == final(old(self).data)@,
            final(self)@ == old(self)@.emit(seq![sib(scale as nat, index as nat, base as nat)]),
    {
        let value: u8 = scale * 64 + index * 8 + base;
        self.put(value);
    }

    /// Writes a REX prefix with the given bits.
    fn rex(&mut self, w: bool, r: bool, b: bool)
        requires
            old(self)@.fits(1),
        ensures
            final(final(self).data)@ == final(old(self).data)@,
            final(self)@ == old(self)@.emit(seq![rex(w, r, b)]),
    {
        let mut value: u8 = 0x40;
        if w {
            value += 8;
        }
        if r {
            value += 4;
        }
        if b {
            value += 1;
        }
        self.put(value);
    }

    /// Writes a REX prefix if one of the two extension bits is set.
    fn rex_if_needed(&mut self, r: bool, b: bool)
        requires
            old(self)@.fits(optional_rex(r, b).len()),
        ensures
            final(final(self).data)@ == final(old(self).data)@,
            final(self)@ == old(self)@.emit(optional_rex(r, b)),
    {
        if r || b {
            self.rex(false, r, b);
        } else {
            assert(self@.bytes =~= old(self)@.emit(optional_rex(r, b)).bytes);
        }
    }

    /// Writes ModR/M, and SIB or displacement where the base asks for it,
    /// for the operand `[base]`.
    fn memory_operand(&mut self, reg: u8, base: X64Register)
        requires
            old(self)@.fits(mem_operand(reg as nat, base).len()),
            reg < 8,
        ensures
            final(final(self).data)@ == final(old(self).data)@,
            final(self)@ == old(self)@.emit(mem_operand(reg as nat, base)),
    {
        let low: u8 = base.to_u8();
        if low == 4 {
            self.mod_rm(reg, 0b00, 4);
            self.sib(4, 0, 4);
        } else if low == 5 {
            self.mod_rm(reg, 0b01, 0b101);
            self.put(0x00);
        } else {
            self.mod_rm(reg, 0b00, low);
        }
        assert(self@.bytes =~= old(self)@.emit(mem_operand(reg as nat, base)).bytes);
    }

    /* instructions */
    /// `mov reg, imm64`
    pub fn mov(&mut self, reg: X64Register, imm: u64)
        requires
            old(self)@.fits(10),
        ensures
            final(final(self).data)@ == final(old(self).data)@,
            final(self)@ == old(self)@.emit(mov_bytes(reg, imm)),
            mov_bytes(reg, imm).len() == 10,
    {
        proof {
            lemma_le_bytes_step(imm as nat, 8);
        }
        self.rex(true, false, reg.is_extended());
        self.put(0xB8 + reg.to_u8());
        self.imm64(imm);
        assert(self@.bytes =~= old(self)@.emit(mov_bytes(reg, imm)).bytes);
    }

    /// `add reg, imm32` for extension 0, `sub reg, imm32` for extension 5.
    fn op_81(&mut self, opcode: u8, reg: X64Register, imm: u32)
        requires
            old(self)@.fits(7),
            opcode < 8,
        ensures
            final(final(self).data)@ == final(old(self).data)@,
            final(self)@ == old(self)@.emit(alu_imm32_bytes(opcode as nat, reg, imm)),
            alu_imm32_bytes(opcode as nat, reg, imm).len() == 7,
    {
        proof {
            lemma_le_bytes_step(imm as nat, 4);
        }
        self.rex(true, false, reg.is_extended());
        self.put(0x81);
        self.mod_rm(opcode, 0b11, reg.to_u8());
        self.imm32(imm);
        assert(self@.bytes =~= old(self)@.emit(alu_imm32_bytes(opcode as nat, reg, imm)).bytes);
    }

    /// `add reg, imm32`
    pub fn add(&mut self, reg: X64Register, imm: u32)
        requires
            old(self)@.fits(7),
        ensures
            final(final(self).data)@ == final(old(self).data)@,
            final(self)@ == old(self)@.emit(add_bytes(reg, imm)),
            add_bytes(reg, imm).len() == 7,
    {
        self.op_81(0, reg, imm);
    }

    /// `sub reg, imm32`
    pub fn sub(&mut self, reg: X64Register, imm: u32)
        requires
            old(self)@.fits(7),
        ensures
            final(final(self).data)@ == final(old(self).data)@,
            final(self)@ == old(self)@.emit(sub_bytes(reg, imm)),
            sub_bytes(reg, imm).len() == 7,
    {
        self.op_81(5, reg, imm);
    }

    /// An instruction of opcode `0x80` on `byte ptr [memory]`; `opcode` is
    /// the opcode extension that selects the operation.
    fn op_80(&mut self, opcode: u8, memory: X64Register, imm: u8)
        requires
            old(self)@.fits(alu_indirect_bytes(opcode as nat, memory, imm).len()),
            opcode < 8,
        ensures
            final(final(self).data)@ == final(old(self).data)@,
            final(self)@ == old(self)@.emit(alu_indirect_bytes(opcode as nat, memory, imm)),
    {
        self.rex_if_needed(false, memory.is_extended());
        self.put(0x80);
        self.memory_operand(opcode, memory);
        self.put(imm);
        assert(self@.bytes =~= old(self)@.emit(
            alu_indirect_bytes(opcode as nat, memory, imm),
        ).bytes);
    }

    /// `add byte ptr [memory], imm8`
    pub fn add_indirect(&mut self, memory: X64Register, imm: u8)
        requires
            old(self)@.fits(add_indirect_bytes(memory, imm).len()),
        ensures
            final(final(self).data)@ == final(old(self).data)@,
            final(self)@ == old(self)@.emit(add_indirect_bytes(memory, imm)),
    {
        self.op_80(0, memory, imm);
    }

    /// `sub byte ptr [memory], imm8`
    pub fn sub_indirect(&mut self, memory: X64Register, imm: u8)
        requires
            old(self)@.fits(sub_indirect_bytes(memory, imm).len()),
        ensures
            final(final(self).data)@ == final(old(self).data)@,
            final(self)@ == old(self)@.emit(sub_indirect_bytes(memory, imm)),
    {
        self.op_80(5, memory, imm);
    }

    /// `cmp byte ptr [memory], imm8`
    pub fn cmp_indirect(&mut self, memory: X64Register, imm: u8)
        requires
            old(self)@.fits(compare_indirect_bytes(memory, imm).len()),
        ensures
            final(final(self).data)@ == final(old(self).data)@,
            final(self)@ == old(self)@.emit(compare_indirect_bytes(memory, imm)),
    {
        self.op_80(7, memory, imm);
    }

    /// `mov byte ptr [memory], imm8`
    pub fn mov_indirect(&mut self, memory: X64Register, imm: u8)
        requires
            old(self)@.fits(mov_indirect_bytes(memory, imm).len()),
        ensures
            final(final(self).data)@ == final(old(self).data)@,
            final(self)@ == old(self)@.emit(mov_indirect_bytes(memory, imm)),
    {
        self.rex_if_needed(false, memory.is_extended());
        self.put(0xC6);
        self.memory_operand(0, memory);
        self.put(imm);
        assert(self@.bytes =~= old(self)@.emit(mov_indirect_bytes(memory, imm)).bytes);
    }

    /// `movzx to, byte ptr [from_memory]`
    pub fn mov_to_reg(&mut self, to: X64Register, from_memory: X64Register)
        requires
            old(self)@.fits(mov_to_reg_bytes(to, from_memory).len()),
        ensures
            final(final(self).data)@ == final(old(self).data)@,
            final(self)@ == old(self)@.emit(mov_to_reg_bytes(to, from_memory)),
    {
        self.rex(true, to.is_extended(), from_memory.is_extended());
        self.put(0x0F);
        self.put(0xB6);
        self.memory_operand(to.to_u8(), from_memory);
        assert(self@.bytes =~= old(self)@.emit(mov_to_reg_bytes(to, from_memory)).bytes);
    }

    /// `mov byte ptr [to_memory], from_reg`
    pub fn mov_to_memory(&mut self, to_memory: X64Register, from_reg: X64Register)
        requires
            old(self)@.fits(mov_to_memory_bytes(to_memory, from_reg).len()),
        ensures
            final(final(self).data)@ == final(old(self).data)@,
            final(self)@ == old(self)@.emit(mov_to_memory_bytes(to_memory, from_reg)),
    {
        self.rex_if_needed(from_reg.is_extended(), to_memory.is_extended());
        self.put(0x88);
        self.memory_operand(from_reg.to_u8(), to_memory);
        assert(self@.bytes =~= old(self)@.emit(mov_to_memory_bytes(to_memory, from_reg)).bytes);
    }

    /// `add byte ptr [memory + offset], reg`
    pub fn add_to_mem_offset(&mut self, memory: X64Register, reg: X64Register, offset: i8)
        requires
            old(self)@.fits(add_to_mem_offset_bytes(memory, reg, offset).len()),
        ensures
            final(final(self).data)@ == final(old(self).data)@,
            final(self)@ == old(self)@.emit(add_to_mem_offset_bytes(memory, reg, offset)),
    {
        self.rex_if_needed(reg.is_extended(), memory.is_extended());
        self.put(0x00);
        let low: u8 = memory.to_u8();
        self.mod_rm(reg.to_u8(), 0b01, low);
        if low == 4 {
            self.sib(4, 0, 4);
        }
        let disp: u8 = if offset >= 0 {
            offset as u8
        } else {
            (offset as i16 + 256) as u8
        };
        self.put(disp);
        assert(self@.bytes =~= old(self)@.emit(
            add_to_mem_offset_bytes(memory, reg, offset),
        ).bytes);
    }

    /// `imul rax, reg`
    pub fn mul_signed(&mut self, reg: X64Register)
        requires
            old(self)@.fits(4),
        ensures
            final(final(self).data)@ == final(old(self).data)@,
            final(self)@ == old(self)@.emit(mul_signed_bytes(reg)),
            mul_signed_bytes(reg).len() == 4,
    {
        self.rex(true, false, reg.is_extended());
        self.put(0x0F);
        self.put(0xAF);
        self.mod_rm(0, 0b11, reg.to_u8());
        assert(self@.bytes =~= old(self)@.emit(mul_signed_bytes(reg)).bytes);
    }

    /// A jump on condition `opcode` (`0x84` equal, `0x85` not equal) with a
    /// 32 bit displacement.
    fn jump(&mut self, opcode: u8, relative_addr: i32)
        requires
            old(self)@.fits(6),
        ensures
            final(final(self).data)@ == final(old(self).data)@,
            final(self)@ == old(self)@.emit(
                seq![0x0Fu8, opcode] + le_bytes(twos_complement32(relative_addr as int), 4),
            ),
    {
        let imm: u32 = if relative_addr >= 0 {
            relative_addr as u32
        } else {
            (relative_addr as i64 + 0x1_0000_0000) as u32
        };
        proof {
            lemma_le_bytes_step(imm as nat, 4);
        }
        self.put(0x0f);
        self.put(opcode);
        self.imm32(imm);
        assert(self@.bytes =~= old(self)@.emit(
            seq![0x0Fu8, opcode] + le_bytes(twos_complement32(relative_addr as int), 4),
        ).bytes);
    }

    /// `je rel32`
    pub fn je(&mut self, relative_addr: i32)
        requires
            old(self)@.fits(6),
        ensures
            final(final(self).data)@ == final(old(self).data)@,
            final(self)@ == old(self)@.emit(je_bytes(relative_addr)),
            je_bytes(relative_addr).len() == 6,
    {
        proof {
            lemma_le_bytes_step(twos_complement32(relative_addr as int), 4);
        }
        self.jump(0x84, relative_addr);
    }

    /// `jne rel32`
    pub fn jne(&mut self, relative_addr: i32)
        requires
            old(self)@.fits(6),
        ensures
            final(final(self).data)@ == final(old(self).data)@,
            final(self)@ == old(self)@.emit(jne_bytes(relative_addr)),
            jne_bytes(relative_addr).len() == 6,
    {
        proof {
            lemma_le_bytes_step(twos_complement32(relative_addr as int), 4);
        }
        self.jump(0x85, relative_addr);
    }

    /// `jne rel32` to the position recorded under `label`.
    pub fn jne_label(&mut self, label: String)
        requires
            old(self)@.fits(6),
            old(self)@.labels.contains_key(label@),
            fits_rel32(old(self)@.displacement_to(old(self)@.labels[label@] as int)),
        ensures
            final(final(self).data)@ == final(old(self).data)@,
            final(self)@ == old(self)@.emit(
                jne_bytes(old(self)@.displacement_to(old(self)@.labels[label@] as int) as i32),
            ),
    {
        let label_addr: usize = *self.labels.get(label.as_str()).unwrap();
        let relative_addr: i32 = displacement(label_addr, self.addr);
        self.jne(relative_addr);
    }

    /// `je rel32` to the position recorded under `label`.
    pub fn je_label(&mut self, label: String)
        requires
            old(self)@.fits(6),
            old(self)@.labels.contains_key(label@),
            fits_rel32(old(self)@.displacement_to(old(self)@.labels[label@] as int)),
        ensures
            final(final(self).data)@ == final(old(self).data)@,
            final(self)@ == old(self)@.emit(
                je_bytes(old(self)@.displacement_to(old(self)@.labels[label@] as int) as i32),
            ),
    {
        let label_addr: usize = *self.labels.get(label.as_str()).unwrap();
        let relative_addr: i32 = displacement(label_addr, self.addr);
        self.je(relative_addr);
    }

    /// Records the cursor under `label`, replacing an earlier entry of
    /// that name.
    pub fn label(&mut self, label: String)
        ensures
            final(final(self).data)@ == final(old(self).data)@,
            final(self)@ == old(self)@.bind(label@),
    {
        self.labels.insert(label, self.addr);
        assert(self@.labels =~= old(self)@.bind(label@).labels);
    }

    /// `call reg`
    pub fn call(&mut self, reg: X64Register)
        requires
            old(self)@.fits(call_bytes(reg).len()),
        ensures
            final(final(self).data)@ == final(old(self).data)@,
            final(self)@ == old(self)@.emit(call_bytes(reg)),
    {
        self.rex_if_needed(false, reg.is_extended());
        self.put(0xff);
        self.mod_rm(2, 0b11, reg.to_u8());
        assert(self@.bytes =~= old(self)@.emit(call_bytes(reg)).bytes);
    }

    /// `push reg`
    pub fn push(&mut self, reg: X64Register)
        requires
            old(self)@.fits(push_bytes(reg).len()),
        ensures
            final(final(self).data)@ == final(old(self).data)@,
            final(self)@ == old(self)@.emit(push_bytes(reg)),
    {
        self.rex_if_needed(false, reg.is_extended());
        self.put(0x50 + reg.to_u8());
        assert(self@.bytes =~= old(self)@.emit(push_bytes(reg)).bytes);
    }

    /// `pop reg`
    pub fn pop(&mut self, reg: X64Register)
        requires
            old(self)@.fits(pop_bytes(reg).len()),
        ensures
            final(final(self).data)@ == final(old(self).data)@,
            final(self)@ == old(self)@.emit(pop_bytes(reg)),
    {
        self.rex_if_needed(false, reg.is_extended());
        self.put(0x58 + reg.to_u8());
        assert(self@.bytes =~= old(self)@.emit(pop_bytes(reg)).bytes);
    }

    /// `ret`
    pub fn ret(&mut self)
        requires
            old(self)@.fits(1),
        ensures
            final(final(self).data)@ == final(old(self).data)@,
            final(self)@ == old(self)@.emit(ret_bytes()),
    {
        self.put(0xC3);
    }
}

/// `le_bytes` has the length asked for, and its first byte is the lowest.
pub proof fn lemma_le_bytes_step(value: nat, n: nat)
    ensures
        le_bytes(value, n).len() == n,
        n > 0 ==> le_bytes(value, n)[0] == (value % 256) as u8,
        n > 0 ==> le_bytes(value, n).skip(1) == le_bytes(value / 256, (n - 1) as nat),
    decreases n,
{
    if n > 0 {
        lemma_le_bytes_step(value / 256, (n - 1) as nat);
        assert(le_bytes(value, n).skip(1) =~= le_bytes(value / 256, (n - 1) as nat));
    }
}

} // verus!
