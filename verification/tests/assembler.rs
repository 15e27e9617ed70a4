use bfjit::assembler::{Assembler, X64Register};

#[test]
fn mov() {
    let mut data = [0u8; 32];
    let mut assembler = Assembler::new(&mut data);

    // 48 b8 ef be ad de ef be ad de    movabs rax,0xdeadbeefdeadbeef
    assembler.mov(X64Register::RAX, 0xdead_beef_dead_beef);
    assert_eq!(assembler.data[..10], [0x48, 0xb8, 0xef, 0xbe, 0xad, 0xde, 0xef, 0xbe, 0xad, 0xde]);
    assembler.addr = 0;

    // 48 bb ef be ad de ef be ad de    movabs rbx,0xdeadbeefdeadbeef
    assembler.mov(X64Register::RBX, 0xdead_beef_dead_beef);
    assert_eq!(assembler.data[..10], [0x48, 0xbb, 0xef, 0xbe, 0xad, 0xde, 0xef, 0xbe, 0xad, 0xde]);
    assembler.addr = 0;

    // 49 bc ef be ad de ef be ad de    movabs r12,0xdeadbeefdeadbeef
    assembler.mov(X64Register::R12, 0xdead_beef_dead_beef);
    assert_eq!(assembler.data[..10], [0x49, 0xbc, 0xef, 0xbe, 0xad, 0xde, 0xef, 0xbe, 0xad, 0xde]);
    assembler.addr = 0;
}

#[test]
fn add() {
    let mut data = [0u8; 32];
    let mut assembler = Assembler::new(&mut data);

    // 48 81 c2 cd ab 00 00    add    rdx,0xabcd
    assembler.add(X64Register::RDX, 0xabcd);
    assert_eq!(assembler.data[..7], [0x48, 0x81, 0xc2, 0xcd, 0xab, 0x00, 0x00]);
    assembler.addr = 0;

    // 49 81 c4 cd ab 00 00    add    r12,0xabcd
    assembler.add(X64Register::R12, 0xabcd);
    assert_eq!(assembler.data[..7], [0x49, 0x81, 0xc4, 0xcd, 0xab, 0x00, 0x00]);
    assembler.addr = 0;
}

#[test]
fn sub() {
    let mut data = [0u8; 32];
    let mut assembler = Assembler::new(&mut data);

    // 48 81 ea cd ab 00 00    sub    rdx,0xabcd
    assembler.sub(X64Register::RDX, 0xabcd);
    assert_eq!(assembler.data[..7], [0x48, 0x81, 0xea, 0xcd, 0xab, 0x00, 0x00]);
    assembler.addr = 0;

    // 49 81 ec cd ab 00 00    sub    r12,0xabcd
    assembler.sub(X64Register::R12, 0xabcd);
    assert_eq!(assembler.data[..7], [0x49, 0x81, 0xec, 0xcd, 0xab, 0x00, 0x00]);
    assembler.addr = 0;
}

#[test]
fn add_indirect() {
    let mut data = [0u8; 32];
    let mut assembler = Assembler::new(&mut data);

    // 80 02 ab                add    BYTE PTR [rdx],0xab
    assembler.add_indirect(X64Register::RDX, 0xab);
    assert_eq!(assembler.data[..3], [0x80, 0x02, 0xab]);
    assembler.addr = 0;

    // 41 80 00 ab             add    BYTE PTR [r8],0xab
    assembler.add_indirect(X64Register::R8, 0xab);
    assert_eq!(assembler.data[..4], [0x41, 0x80, 0x00, 0xab]);
    assembler.addr = 0;

    // 41 80 04 24 ab          add    BYTE PTR [r12],0xab
    assembler.add_indirect(X64Register::R12, 0xab);
    assert_eq!(assembler.data[..5], [0x41, 0x80, 0x04, 0x24, 0xab]);
    assembler.addr = 0;

    // 41 80 45 00 ab          add    BYTE PTR [r13+0x0],0xab
    assembler.add_indirect(X64Register::R13, 0xab);
    assert_eq!(assembler.data[..5], [0x41, 0x80, 0x45, 0x00, 0xab]);
    assembler.addr = 0;

    // 41 80 06 ab             add    BYTE PTR [r14],0xab
    assembler.add_indirect(X64Register::R14, 0xab);
    assert_eq!(assembler.data[..4], [0x41, 0x80, 0x06, 0xab]);
    assembler.addr = 0;
}


#[test]
fn sub_indirect() {
    let mut data = [0u8; 32];
    let mut assembler = Assembler::new(&mut data);

    // 80 2a ab                sub    BYTE PTR [rdx],0xab
    assembler.sub_indirect(X64Register::RDX, 0xab);
    assert_eq!(assembler.data[..3], [0x80, 0x2a, 0xab]);
    assembler.addr = 0;

    // 41 80 28 ab             sub    BYTE PTR [r8],0xab
    assembler.sub_indirect(X64Register::R8, 0xab);
    assert_eq!(assembler.data[..4], [0x41, 0x80, 0x28, 0xab]);
    assembler.addr = 0;

    // 41 80 2c 24 ab          sub    BYTE PTR [r12],0xab
    assembler.sub_indirect(X64Register::R12, 0xab);
    assert_eq!(assembler.data[..5], [0x41, 0x80, 0x2c, 0x24, 0xab]);
    assembler.addr = 0;

    // 41 80 6d 00 ab          sub    BYTE PTR [r13+0x0],0xab
    assembler.sub_indirect(X64Register::R13, 0xab);
    assert_eq!(assembler.data[..5], [0x41, 0x80, 0x6d, 0x00, 0xab]);
    assembler.addr = 0;

    // 41 80 2e ab             sub    BYTE PTR [r14],0xab
    assembler.sub_indirect(X64Register::R14, 0xab);
    assert_eq!(assembler.data[..4], [0x41, 0x80, 0x2e, 0xab]);
    assembler.addr = 0;
}

#[test]
fn cmp_indirect() {
    let mut data = [0u8; 32];
    let mut assembler = Assembler::new(&mut data);

    // 80 3a ab                cmp    BYTE PTR [rdx],0xab
    assembler.cmp_indirect(X64Register::RDX, 0xab);
    assert_eq!(assembler.data[..3], [0x80, 0x3a, 0xab]);
    assembler.addr = 0;

    // 41 80 38 ab             cmp    BYTE PTR [r8],0xab
    assembler.cmp_indirect(X64Register::R8, 0xab);
    assert_eq!(assembler.data[..4], [0x41, 0x80, 0x38, 0xab]);
    assembler.addr = 0;

    // 41 80 3c 24 ab          cmp    BYTE PTR [r12],0xab
    assembler.cmp_indirect(X64Register::R12, 0xab);
    assert_eq!(assembler.data[..5], [0x41, 0x80, 0x3c, 0x24, 0xab]);
    assembler.addr = 0;

    // 41 80 7d 00 ab          cmp    BYTE PTR [r13+0x0],0xab
    assembler.cmp_indirect(X64Register::R13, 0xab);
    assert_eq!(assembler.data[..5], [0x41, 0x80, 0x7d, 0x00, 0xab]);
    assembler.addr = 0;

    // 41 80 3e ab             cmp    BYTE PTR [r14],0xab
    assembler.cmp_indirect(X64Register::R14, 0xab);
    assert_eq!(assembler.data[..4], [0x41, 0x80, 0x3e, 0xab]);
    assembler.addr = 0;
}

#[test]
fn mov_to_reg() {
    let mut data = [0u8; 32];
    let mut assembler = Assembler::new(&mut data);

    // 49 0f b6 01             movzx  rax,BYTE PTR [r9]
    assembler.mov_to_reg(X64Register::RAX, X64Register::R9);
    assert_eq!(assembler.data[..4], [0x49, 0x0f, 0xb6, 0x01]);
    assembler.addr = 0;

    // 48 0f b6 03             movzx  rax,BYTE PTR [rbx]
    assembler.mov_to_reg(X64Register::RAX, X64Register::RBX);
    assert_eq!(assembler.data[..4], [0x48, 0x0f, 0xb6, 0x03]);
    assembler.addr = 0;

    // 4d 0f b6 08             movzx  r9,BYTE PTR [r8]
    assembler.mov_to_reg(X64Register::R9, X64Register::R8);
    assert_eq!(assembler.data[..4], [0x4d, 0x0f, 0xb6, 0x08]);
    assembler.addr = 0;

    // 49 0f b6 04 24          movzx  rax,BYTE PTR [r12]
    assembler.mov_to_reg(X64Register::RAX, X64Register::R12);
    assert_eq!(assembler.data[..5], [0x49, 0x0f, 0xb6, 0x04, 0x24]);
    assembler.addr = 0;

    // 4d 0f b6 20             movzx  r12,BYTE PTR [r8]
    assembler.mov_to_reg(X64Register::R12, X64Register::R8);
    assert_eq!(assembler.data[..4], [0x4d, 0x0f, 0xb6, 0x20]);
    assembler.addr = 0;

    // 49 0f b6 45 00          movzx  rax,BYTE PTR [r13+0x0]
    assembler.mov_to_reg(X64Register::RAX, X64Register::R13);
    assert_eq!(assembler.data[..5], [0x49, 0x0f, 0xb6, 0x45, 0x00]);
    assembler.addr = 0;

    // 4c 0f b6 2a             movzx  r13,BYTE PTR [rdx]
    assembler.mov_to_reg(X64Register::R13, X64Register::RDX);
    assert_eq!(assembler.data[..4], [0x4c, 0x0f, 0xb6, 0x2a]);
    assembler.addr = 0;
}

#[test]
fn mov_to_memory() {
    let mut data = [0u8; 32];
    let mut assembler = Assembler::new(&mut data);

    // 88 03                   mov    BYTE PTR [rbx],al
    assembler.mov_to_memory(X64Register::RBX, X64Register::RAX);
    assert_eq!(assembler.data[..2], [0x88, 0x03]);
    assembler.addr = 0;

    // 41 88 00                mov    BYTE PTR [r8],al
    assembler.mov_to_memory(X64Register::R8, X64Register::RAX);
    assert_eq!(assembler.data[..3], [0x41, 0x88, 0x00]);
    assembler.addr = 0;

    // 41 88 04 24             mov    BYTE PTR [r12],al
    assembler.mov_to_memory(X64Register::R12, X64Register::RAX);
    assert_eq!(assembler.data[..4], [0x41, 0x88, 0x04, 0x24]);
    assembler.addr = 0;

    // 41 88 45 00             mov    BYTE PTR [r13+0x0],al
    assembler.mov_to_memory(X64Register::R13, X64Register::RAX);
    assert_eq!(assembler.data[..4], [0x41, 0x88, 0x45, 0x00]);
    assembler.addr = 0;

    // 44 88 03                mov    BYTE PTR [rbx],r8b
    assembler.mov_to_memory(X64Register::RBX, X64Register::R8);
    assert_eq!(assembler.data[..3], [0x44, 0x88, 0x03]);
    assembler.addr = 0;

    // 45 88 04 24             mov    BYTE PTR [r12],r8b
    assembler.mov_to_memory(X64Register::R12, X64Register::R8);
    assert_eq!(assembler.data[..4], [0x45, 0x88, 0x04, 0x24]);
    assembler.addr = 0;

    // 45 88 45 00             mov    BYTE PTR [r13+0x0],r8b
    assembler.mov_to_memory(X64Register::R13, X64Register::R8);
    assert_eq!(assembler.data[..4], [0x45, 0x88, 0x45, 0x00]);
    assembler.addr = 0;
}

#[test]
fn je() {
    let mut data = [0u8; 32];
    let mut assembler = Assembler::new(&mut data);

    assembler.je(0x0A0A_0B0B);
    assert_eq!(assembler.data[..6], [0x0f, 0x84, 0x0b, 0x0b, 0x0a, 0x0a]);
}

#[test]
fn jne() {
    let mut data = [0u8; 32];
    let mut assembler = Assembler::new(&mut data);

    assembler.jne(0x0A0A_0B0B);
    assert_eq!(assembler.data[..6], [0x0f, 0x85, 0x0b, 0x0b, 0x0a, 0x0a]);
}

#[test]
fn call() {
    let mut data = [0u8; 32];
    let mut assembler = Assembler::new(&mut data);

    // ff d3                   call   rbx
    assembler.call(X64Register::RBX);
    assert_eq!(assembler.data[..2], [0xff, 0xd3]);
    assembler.addr = 0;

    // 41 ff d4                call   r12
    assembler.call(X64Register::R12);
    assert_eq!(assembler.data[..3], [0x41, 0xff, 0xd4]);
    assembler.addr = 0;
}


#[test]
fn ret() {
    let mut data = [0u8; 32];
    let mut assembler = Assembler::new(&mut data);

    assembler.ret();
    assert_eq!(assembler.data[..1], [0xc3]);
}

#[test]
fn mov_indirect() {
    let mut data = [0u8; 32];
    let mut assembler = Assembler::new(&mut data);

    // c6 03 ab                mov    BYTE PTR [rbx],0xab
    assembler.mov_indirect(X64Register::RBX, 0xab);
    assert_eq!(assembler.data[..3], [0xc6, 0x03, 0xab]);
    assembler.addr = 0;

    // 41 c6 04 24 ab          mov    BYTE PTR [r12],0xab
    assembler.mov_indirect(X64Register::R12, 0xab);
    assert_eq!(assembler.data[..5], [0x41, 0xc6, 0x04, 0x24, 0xab]);
    assembler.addr = 0;

    // 41 c6 45 00 ab          mov    BYTE PTR [r13+0x0],0xab
    assembler.mov_indirect(X64Register::R13, 0xab);
    assert_eq!(assembler.data[..5], [0x41, 0xc6, 0x45, 0x00, 0xab]);
    assembler.addr = 0;

    // 41 c6 06 ab             mov    BYTE PTR [r14],0xab
    assembler.mov_indirect(X64Register::R14, 0xab);
    assert_eq!(assembler.data[..4], [0x41, 0xc6, 0x06, 0xab]);
}

#[test]
fn stack_pointer_and_base_pointer_are_addressed_like_r12_and_r13() {
    let mut data = [0u8; 32];
    let mut assembler = Assembler::new(&mut data);

    // 80 04 24 ab             add    BYTE PTR [rsp],0xab
    assembler.add_indirect(X64Register::RSP, 0xab);
    assert_eq!(assembler.data[..4], [0x80, 0x04, 0x24, 0xab]);
    assembler.addr = 0;

    // 80 45 00 ab             add    BYTE PTR [rbp+0x0],0xab
    assembler.add_indirect(X64Register::RBP, 0xab);
    assert_eq!(assembler.data[..4], [0x80, 0x45, 0x00, 0xab]);
    assembler.addr = 0;

    // 48 0f b6 04 24          movzx  rax,BYTE PTR [rsp]
    assembler.mov_to_reg(X64Register::RAX, X64Register::RSP);
    assert_eq!(assembler.data[..5], [0x48, 0x0f, 0xb6, 0x04, 0x24]);
    assembler.addr = 0;

    // 88 45 00                mov    BYTE PTR [rbp+0x0],al
    assembler.mov_to_memory(X64Register::RBP, X64Register::RAX);
    assert_eq!(assembler.data[..3], [0x88, 0x45, 0x00]);
}

#[test]
fn push_and_pop() {
    let mut data = [0u8; 32];
    let mut assembler = Assembler::new(&mut data);

    assembler.push(X64Register::RBX);
    assembler.push(X64Register::R12);
    assembler.push(X64Register::R15);
    assembler.pop(X64Register::R14);
    assembler.pop(X64Register::RAX);
    assert_eq!(assembler.addr, 8);
    assert_eq!(assembler.data[..8], [0x53, 0x41, 0x54, 0x41, 0x57, 0x41, 0x5e, 0x58]);
}

#[test]
fn mul_signed() {
    let mut data = [0u8; 32];
    let mut assembler = Assembler::new(&mut data);

    // 48 0f af c3             imul   rax,rbx
    assembler.mul_signed(X64Register::RBX);
    assert_eq!(assembler.data[..4], [0x48, 0x0f, 0xaf, 0xc3]);
    assembler.addr = 0;

    // 49 0f af c1             imul   rax,r9
    assembler.mul_signed(X64Register::R9);
    assert_eq!(assembler.data[..4], [0x49, 0x0f, 0xaf, 0xc1]);
}

#[test]
fn add_to_mem_offset() {
    let mut data = [0u8; 32];
    let mut assembler = Assembler::new(&mut data);

    // 41 00 46 02             add    BYTE PTR [r14+0x2],al
    assembler.add_to_mem_offset(X64Register::R14, X64Register::RAX, 2);
    assert_eq!(assembler.data[..4], [0x41, 0x00, 0x46, 0x02]);
    assembler.addr = 0;

    // 00 43 ff                add    BYTE PTR [rbx-0x1],al
    assembler.add_to_mem_offset(X64Register::RBX, X64Register::RAX, -1);
    assert_eq!(assembler.data[..3], [0x00, 0x43, 0xff]);
    assembler.addr = 0;

    // 41 00 44 24 80          add    BYTE PTR [r12-0x80],al
    assembler.add_to_mem_offset(X64Register::R12, X64Register::RAX, -128);
    assert_eq!(assembler.data[..5], [0x41, 0x00, 0x44, 0x24, 0x80]);
    assembler.addr = 0;

    // 45 00 45 7f             add    BYTE PTR [r13+0x7f],r8b
    assembler.add_to_mem_offset(X64Register::R13, X64Register::R8, 127);
    assert_eq!(assembler.data[..4], [0x45, 0x00, 0x45, 0x7f]);
}

#[test]
fn negative_displacements_are_in_twos_complement() {
    let mut data = [0u8; 32];
    let mut assembler = Assembler::new(&mut data);

    assembler.je(-1);
    assert_eq!(assembler.data[..6], [0x0f, 0x84, 0xff, 0xff, 0xff, 0xff]);
    assembler.jne(-0x8000_0000);
    assert_eq!(assembler.data[6..12], [0x0f, 0x85, 0x00, 0x00, 0x00, 0x80]);
    assembler.je(0x7fff_ffff);
    assert_eq!(assembler.data[12..18], [0x0f, 0x84, 0xff, 0xff, 0xff, 0x7f]);
    assert_eq!(assembler.addr, 18);
}

#[test]
fn instructions_follow_one_another() {
    let mut data = [0xCCu8; 16];
    let mut assembler = Assembler::new(&mut data);

    assembler.ret();
    assembler.call(X64Register::RBX);
    assembler.ret();
    assert_eq!(assembler.addr, 4);
    assert_eq!(assembler.data[..5], [0xc3, 0xff, 0xd3, 0xc3, 0xcc]);
}

#[test]
fn a_jump_to_a_label_counts_from_its_own_end() {
    let mut data = [0u8; 64];
    let mut assembler = Assembler::new(&mut data);

    assembler.ret();
    assembler.label(String::from("start"));
    assembler.ret();
    assembler.ret();
    // at 3: target 1 - (3 + 6) = -8
    assembler.jne_label(String::from("start"));
    assert_eq!(assembler.data[3..9], [0x0f, 0x85, 0xf8, 0xff, 0xff, 0xff]);
    assert_eq!(assembler.addr, 9);
    // at 9: target 1 - (9 + 6) = -14
    assembler.je_label(String::from("start"));
    assert_eq!(assembler.data[9..15], [0x0f, 0x84, 0xf2, 0xff, 0xff, 0xff]);

    assembler.addr = 40;
    assembler.label(String::from("far"));
    assembler.addr = 15;
    // at 15: target 40 - (15 + 6) = 19
    assembler.je_label(String::from("far"));
    assert_eq!(assembler.data[15..21], [0x0f, 0x84, 0x13, 0x00, 0x00, 0x00]);
}

#[test]
fn a_label_can_be_bound_again() {
    let mut data = [0u8; 64];
    let mut assembler = Assembler::new(&mut data);

    assembler.label(String::from("here"));
    assembler.addr = 10;
    assembler.label(String::from("here"));
    assembler.addr = 20;
    // target 10 - (20 + 6) = -16
    assembler.jne_label(String::from("here"));
    assert_eq!(assembler.data[20..26], [0x0f, 0x85, 0xf0, 0xff, 0xff, 0xff]);
}

#[test]
fn registers_know_their_encoding() {
    assert_eq!(X64Register::RAX.to_u8(), 0);
    assert_eq!(X64Register::RDI.to_u8(), 7);
    assert_eq!(X64Register::R8.to_u8(), 0);
    assert_eq!(X64Register::R12.to_u8(), 4);
    assert_eq!(X64Register::R13.to_u8(), 5);
    assert_eq!(X64Register::R15.to_u8(), 7);
    assert!(!X64Register::RAX.is_extended());
    assert!(!X64Register::RDI.is_extended());
    assert!(X64Register::R8.is_extended());
    assert!(X64Register::R15.is_extended());
}
