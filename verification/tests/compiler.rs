use bfjit::brainfuck::Program;
use bfjit::compiler::{Brainfuck, IoFn};
use bfjit::interpreter::Status;
use bfjit::ir::{IrCode, IrOp};
use bfjit::ir_interpreter::IrInterpreter;

const PUTCHAR: usize = 0x1122_3344_5566_7788;
const GETCHAR: usize = 0x99AA_BBCC_DDEE_FF00;
const TAPE: u64 = 0x0102_0304_0506_0708;

fn io_fn() -> IoFn {
    IoFn { putchar_ptr: PUTCHAR, getchar_ptr: GETCHAR }
}

fn prologue() -> Vec<u8> {
    vec![
        0x53, // push rbx
        0x41, 0x54, // push r12
        0x41, 0x55, // push r13
        0x41, 0x56, // push r14
        0x48, 0x81, 0xEC, 0xA8, 0x00, 0x00, 0x00, // sub rsp, 168
        0x49, 0xBC, 0x88, 0x77, 0x66, 0x55, 0x44, 0x33, 0x22, 0x11, // mov r12, putchar
        0x49, 0xBD, 0x00, 0xFF, 0xEE, 0xDD, 0xCC, 0xBB, 0xAA, 0x99, // mov r13, getchar
        0x49, 0xBE, 0x08, 0x07, 0x06, 0x05, 0x04, 0x03, 0x02, 0x01, // mov r14, tape
    ]
}

fn epilogue() -> Vec<u8> {
    vec![
        0x48, 0x81, 0xC4, 0xA8, 0x00, 0x00, 0x00, // add rsp, 168
        0x41, 0x5E, // pop r14
        0x41, 0x5D, // pop r13
        0x41, 0x5C, // pop r12
        0x5B, // pop rbx
        0xC3, // ret
    ]
}

fn expect_image(artifact: &Brainfuck, chain_len: usize, body: &[u8]) {
    let mut code = prologue();
    code.extend_from_slice(body);
    code.extend(epilogue());
    assert_eq!(artifact.length, code.len());
    assert_eq!(artifact.program.len(), 256 + 16 * chain_len);
    assert_eq!(&artifact.program[..code.len()], &code[..]);
    assert!(artifact.program[code.len()..].iter().all(|b| *b == 0xCC));
}

/// Runs the chain that was compiled and gives what it wrote.
fn execute(ir_code: &IrCode) -> Vec<u8> {
    let mut vm = IrInterpreter::new(ir_code.to_vec(), Vec::new());
    assert!(vm.is_balanced());
    assert_eq!(vm.run(u64::MAX), Status::Halted);
    vm.output
}

#[test]
fn does_not_crash() {
    let mut ir_code = IrCode { ops: vec![IrOp::Noop(None)] };
    let brainfuck = ir_code.compile(io_fn(), TAPE).expect("cannot allocate memory");
    assert_eq!(brainfuck.length, 59);

    execute(&ir_code);
}

#[test]
fn copy_multiplied() {
    let op1 = IrOp::SetIndirect(Some(1), 7);
    let op2 = IrOp::MulCopy(Some(2), 2, 11);
    let op3 = IrOp::Right(Some(3), 2);
    let op4 = IrOp::Write(None);

    let mut ir_code = IrCode { ops: vec![op1, op2, op3, op4] };
    let brainfuck = ir_code.compile(io_fn(), TAPE).expect("cannot allocate memory");
    assert_eq!(brainfuck.length, 59 + 4 + 22 + 7 + 7);

    let output = execute(&ir_code);

    assert_eq!(output[0], b'M');
}

#[test]
fn can_run_pi_bf() {
    let pi_program = Program::from_string(PI_PROGRAM);
    let mut ir_code = IrCode::new(&pi_program);
    let brainfuck = ir_code.compile(io_fn(), TAPE).expect("cannot allocate memory");
    assert!(brainfuck.length <= brainfuck.program.len());

    let output = execute(&ir_code);

    assert_eq!(output[0], b'3');
    assert_eq!(output[1], b'.');
    assert_eq!(output[2], b'1');
    assert_eq!(output[3], b'4');
    assert_eq!(output[4], b'0');
    assert_eq!(output[5], b'7');
    assert_eq!(output[6], b'0');
    assert_eq!(output[7], b'4');
    assert_eq!(output[8], b'5');
    assert_eq!(output[9], b'5');
    assert_eq!(output[10], b'2');
    assert_eq!(output[11], b'8');
    assert_eq!(output[12], b'2');
    assert_eq!(output[13], b'8');
    assert_eq!(output[14], b'8');
    assert_eq!(output[15], b'5');
}

#[test]
fn new_artifact_is_filled_with_int3() {
    let artifact = Brainfuck::new(300).expect("cannot allocate memory");
    assert_eq!(artifact.length, 0);
    assert_eq!(artifact.program.len(), 300);
    assert!(artifact.program.iter().all(|b| *b == 0xCC));
}

#[test]
fn fill_overwrites_the_whole_map() {
    let mut binary = memmap::MmapMut::map_anon(64).expect("cannot allocate memory");
    binary[3] = 7;
    let artifact = Brainfuck::fill(binary);
    assert_eq!(artifact.length, 0);
    assert_eq!(artifact.program.len(), 64);
    assert!(artifact.program.iter().all(|b| *b == 0xCC));
}

#[test]
fn compile_into_writes_over_the_filler() {
    let mut ir_code = IrCode { ops: vec![IrOp::Add(None, 2)] };
    let blank = Brainfuck::new(256 + 16).expect("cannot allocate memory");
    let artifact = ir_code.compile_into(io_fn(), TAPE, blank);
    expect_image(&artifact, 1, &[0x41, 0x80, 0x06, 0x02]);
}

#[test]
fn compiles_a_single_noop() {
    let mut ir_code = IrCode { ops: vec![IrOp::Noop(None)] };
    assert!(ir_code.is_compilable());
    let artifact = ir_code.compile(io_fn(), TAPE).expect("cannot allocate memory");
    expect_image(&artifact, 1, &[]);
    assert_eq!(artifact.length, 59);
    assert_eq!(artifact.program.len(), 272);
}

#[test]
fn compiles_an_empty_chain() {
    let mut ir_code = IrCode { ops: vec![] };
    assert!(ir_code.is_compilable());
    let artifact = ir_code.compile(io_fn(), TAPE).expect("cannot allocate memory");
    expect_image(&artifact, 0, &[]);
}

#[test]
fn compiles_copy_multiplied() {
    let op1 = IrOp::SetIndirect(Some(1), 7);
    let op2 = IrOp::MulCopy(Some(2), 2, 11);
    let op3 = IrOp::Right(Some(3), 2);
    let op4 = IrOp::Write(None);

    let mut ir_code = IrCode { ops: vec![op1, op2, op3, op4] };
    assert!(ir_code.is_compilable());
    let artifact = ir_code.compile(io_fn(), TAPE).expect("cannot allocate memory");
    expect_image(
        &artifact,
        4,
        &[
            0x41, 0xC6, 0x06, 0x07, // mov byte ptr [r14], 7
            0x49, 0x0F, 0xB6, 0x06, // movzx rax, byte ptr [r14]
            0x48, 0xBB, 0x0B, 0x00, 0x00, 0x00, 0x00, 0x00, 0x00, 0x00, // mov rbx, 11
            0x48, 0x0F, 0xAF, 0xC3, // imul rax, rbx
            0x41, 0x00, 0x46, 0x02, // add byte ptr [r14 + 2], al
            0x49, 0x81, 0xC6, 0x02, 0x00, 0x00, 0x00, // add r14, 2
            0x49, 0x0F, 0xB6, 0x0E, // movzx rcx, byte ptr [r14]
            0x41, 0xFF, 0xD4, // call r12
        ],
    );
}

#[test]
fn a_copy_with_factor_one_does_not_multiply() {
    let mut ir_code = IrCode { ops: vec![IrOp::MulCopy(None, -3, 1)] };
    let artifact = ir_code.compile(io_fn(), TAPE).expect("cannot allocate memory");
    expect_image(
        &artifact,
        1,
        &[
            0x49, 0x0F, 0xB6, 0x06, // movzx rax, byte ptr [r14]
            0x41, 0x00, 0x46, 0xFD, // add byte ptr [r14 - 3], al
        ],
    );
}

#[test]
fn compiles_every_plain_operation() {
    let mut ir_code = IrCode {
        ops: vec![
            IrOp::Right(Some(1), 200),
            IrOp::Left(Some(2), 3),
            IrOp::Add(Some(3), 0xAB),
            IrOp::Sub(Some(4), 0x12),
            IrOp::Read(Some(5)),
            IrOp::Noop(None),
        ],
    };
    let artifact = ir_code.compile(io_fn(), TAPE).expect("cannot allocate memory");
    expect_image(
        &artifact,
        6,
        &[
            0x49, 0x81, 0xC6, 0xC8, 0x00, 0x00, 0x00, // add r14, 200
            0x49, 0x81, 0xEE, 0x03, 0x00, 0x00, 0x00, // sub r14, 3
            0x41, 0x80, 0x06, 0xAB, // add byte ptr [r14], 0xab
            0x41, 0x80, 0x2E, 0x12, // sub byte ptr [r14], 0x12
            0x41, 0xFF, 0xD5, // call r13
            0x41, 0x88, 0x06, // mov byte ptr [r14], al
        ],
    );
}

#[test]
fn a_loop_jumps_behind_its_end_and_back_to_its_start() {
    let mut ir_code = IrCode::new(&Program::from_string(",[.-]"));
    assert!(ir_code.is_compilable());
    let artifact = ir_code.compile(io_fn(), TAPE).expect("cannot allocate memory");
    expect_image(
        &artifact,
        5,
        &[
            0x41, 0xFF, 0xD5, // 44: call r13
            0x41, 0x88, 0x06, // 47: mov byte ptr [r14], al
            0x41, 0x80, 0x3E, 0x00, // 50: cmp byte ptr [r14], 0
            0x0F, 0x84, 0x15, 0x00, 0x00, 0x00, // 54: je 81
            0x49, 0x0F, 0xB6, 0x0E, // 60: movzx rcx, byte ptr [r14]
            0x41, 0xFF, 0xD4, // 64: call r12
            0x41, 0x80, 0x2E, 0x01, // 67: sub byte ptr [r14], 1
            0x41, 0x80, 0x3E, 0x00, // 71: cmp byte ptr [r14], 0
            0x0F, 0x85, 0xE1, 0xFF, 0xFF, 0xFF, // 75: jne 50
        ],
    );
}

#[test]
fn nested_loops_are_paired_by_depth() {
    let mut ir_code = IrCode::new(&Program::from_string("[[-]+]"));
    let artifact = ir_code.compile(io_fn(), TAPE).expect("cannot allocate memory");
    expect_image(
        &artifact,
        6,
        &[
            0x41, 0x80, 0x3E, 0x00, // 44: cmp byte ptr [r14], 0
            0x0F, 0x84, 0x26, 0x00, 0x00, 0x00, // 48: je 92
            0x41, 0x80, 0x3E, 0x00, // 54: cmp byte ptr [r14], 0
            0x0F, 0x84, 0x0E, 0x00, 0x00, 0x00, // 58: je 78
            0x41, 0x80, 0x2E, 0x01, // 64: sub byte ptr [r14], 1
            0x41, 0x80, 0x3E, 0x00, // 68: cmp byte ptr [r14], 0
            0x0F, 0x85, 0xE8, 0xFF, 0xFF, 0xFF, // 72: jne 54
            0x41, 0x80, 0x06, 0x01, // 78: add byte ptr [r14], 1
            0x41, 0x80, 0x3E, 0x00, // 82: cmp byte ptr [r14], 0
            0x0F, 0x85, 0xD0, 0xFF, 0xFF, 0xFF, // 86: jne 44
        ],
    );
}

#[test]
fn loops_one_after_another_are_paired_each_with_its_own() {
    let mut ir_code = IrCode::new(&Program::from_string("[][]"));
    let artifact = ir_code.compile(io_fn(), TAPE).expect("cannot allocate memory");
    expect_image(
        &artifact,
        4,
        &[
            0x41, 0x80, 0x3E, 0x00, // 44
            0x0F, 0x84, 0x0A, 0x00, 0x00, 0x00, // 48: je 64
            0x41, 0x80, 0x3E, 0x00, // 54
            0x0F, 0x85, 0xEC, 0xFF, 0xFF, 0xFF, // 58: jne 44
            0x41, 0x80, 0x3E, 0x00, // 64
            0x0F, 0x84, 0x0A, 0x00, 0x00, 0x00, // 68: je 84
            0x41, 0x80, 0x3E, 0x00, // 74
            0x0F, 0x85, 0xEC, 0xFF, 0xFF, 0xFF, // 78: jne 64
        ],
    );
}

#[test]
fn only_the_chain_is_compiled() {
    let mut ir_code = IrCode::new(&Program::from_string("+[-]+++++"));
    ir_code.optimize();
    assert_eq!(ir_code.len(), 1);
    let artifact = ir_code.compile(io_fn(), TAPE).expect("cannot allocate memory");
    expect_image(&artifact, 1, &[0x41, 0xC6, 0x06, 0x05]);
}

#[test]
fn compiling_twice_gives_the_same_bytes() {
    let mut first = IrCode::new(&Program::from_string("++[>+.<-],"));
    first.optimize();
    let mut second = IrCode::new(&Program::from_string("++[>+.<-],"));
    second.optimize();
    let x = first.compile(io_fn(), TAPE).expect("cannot allocate memory");
    let y = second.compile(io_fn(), TAPE).expect("cannot allocate memory");
    assert_eq!(x.program[..], y.program[..]);
    assert_eq!(x.length, y.length);
    let z = first.compile(io_fn(), TAPE).expect("cannot allocate memory");
    assert_eq!(x.program[..], z.program[..]);
}

#[test]
fn compile_leaves_the_code_as_it_is() {
    let mut ir_code = IrCode::new(&Program::from_string("+>[-]"));
    let before = ir_code.ops.clone();
    assert!(ir_code.compile(io_fn(), TAPE).is_some());
    assert_eq!(ir_code.ops, before);
}

#[test]
fn unbalanced_chains_are_not_compilable() {
    let ir_code = IrCode { ops: vec![IrOp::JumpIfNotZero(None, None)] };
    assert!(!ir_code.is_compilable());
    let ir_code = IrCode { ops: vec![IrOp::JumpIfZero(None, None)] };
    assert!(!ir_code.is_compilable());
    let ir_code =
        IrCode { ops: vec![IrOp::JumpIfNotZero(Some(1), None), IrOp::JumpIfZero(None, None)] };
    assert!(!ir_code.is_compilable());
    let ir_code =
        IrCode { ops: vec![IrOp::JumpIfZero(Some(1), None), IrOp::JumpIfNotZero(None, None)] };
    assert!(ir_code.is_compilable());
}

#[test]
fn backward_links_are_not_compilable() {
    let ir_code = IrCode { ops: vec![IrOp::Noop(Some(0))] };
    assert!(!ir_code.is_compilable());
    let ir_code = IrCode { ops: vec![IrOp::Noop(Some(1))] };
    assert!(!ir_code.is_compilable());
    let ir_code = IrCode { ops: vec![IrOp::Noop(Some(1)), IrOp::Add(Some(0), 1)] };
    assert!(!ir_code.is_compilable());
}

fn copies(n: usize) -> IrCode {
    let mut ops = Vec::new();
    for i in 0..n {
        let next = if i + 1 == n { None } else { Some(i + 1) };
        ops.push(IrOp::MulCopy(next, 1, 2));
    }
    IrCode { ops }
}

#[test]
fn code_that_outgrows_its_buffer_is_not_compilable() {
    // 59 + 22 * 32 = 763 <= 256 + 16 * 32 = 768
    let mut fits = copies(32);
    assert!(fits.is_compilable());
    let artifact = fits.compile(io_fn(), TAPE).expect("cannot allocate memory");
    assert_eq!(artifact.length, 763);
    assert_eq!(artifact.program.len(), 768);
    // 59 + 22 * 33 = 785 > 256 + 16 * 33 = 784
    assert!(!copies(33).is_compilable());
}

const PI_PROGRAM: &str = ">  +++++ +++++ +++++
[<+>>>>>>>>++++++++++<<<<<<<-]>+++++[<+++++++++>-]+>>>>>>+[<<+++[>>[-<]<[>]<-]>>
[>+>]<[<]>]>[[->>>>+<<<<]>>>+++>-]<[<<<<]<<<<<<<<+[->>>>>>>>>>>>[<+[->>>>+<<<<]>
>>>>]<<<<[>>>>>[<<<<+>>>>-]<<<<<-[<<++++++++++>>-]>>>[<<[<+<<+>>>-]<[>+<-]<++<<+
>>>>>>-]<<[-]<<-<[->>+<-[>>>]>[[<+>-]>+>>]<<<<<]>[-]>+<<<-[>>+<<-]<]<<<<+>>>>>>>
>[-]>[<<<+>>>-]<<++++++++++<[->>+<-[>>>]>[[<+>-]>+>>]<<<<<]>[-]>+>[<<+<+>>>-]<<<
<+<+>>[-[-[-[-[-[-[-[-[-<->[-<+<->>]]]]]]]]]]<[+++++[<<<++++++++<++++++++>>>>-]<
<<<+<->>>>[>+<<<+++++++++<->>>-]<<<<<[>>+<<-]+<[->-<]>[>>.<<<<[+.[-]]>>-]>[>>.<<
-]>[-]>[-]>>>[>>[<<<<<<<<+>>>>>>>>-]<<-]]>>[-]<<<[-]<<<<<<<<]++++++++++.";

#[test]
fn compiles_the_pi_program() {
    let program = Program::from_string(PI_PROGRAM);
    let mut ir_code = IrCode::new(&program);
    let plain_len = ir_code.len();
    assert_eq!(plain_len, program.instructions.len());
    assert!(ir_code.is_compilable());
    let plain = ir_code.compile(io_fn(), TAPE).expect("cannot allocate memory");
    assert_eq!(plain.program.len(), 256 + 16 * plain_len);
    assert_eq!(&plain.program[..44], &prologue()[..]);
    assert_eq!(&plain.program[plain.length - 15..plain.length], &epilogue()[..]);
    // no placeholder is left behind
    let placeholder = [0x0F, 0x84, 0xCC, 0xBB, 0xAA, 0x00];
    assert!(!plain.program.windows(6).any(|w| w == placeholder));

    ir_code.optimize();
    assert!(ir_code.len() < plain_len);
    assert!(ir_code.is_compilable());
    let optimized = ir_code.compile(io_fn(), TAPE).expect("cannot allocate memory");
    assert!(optimized.length < plain.length);
    assert!(!optimized.program.windows(6).any(|w| w == placeholder));
}

#[test]
fn loops_nest_as_deep_as_the_program_asks() {
    let mut source = String::new();
    for _ in 0..5000 {
        source.push('[');
    }
    for _ in 0..5000 {
        source.push(']');
    }
    let mut ir_code = IrCode::new(&Program::from_string(&source));
    assert!(ir_code.is_compilable());
    let artifact = ir_code.compile(io_fn(), TAPE).expect("cannot allocate memory");
    assert_eq!(artifact.length, 59 + 10 * 10000);
    // the outermost loop jumps behind the last closing bracket
    assert_eq!(artifact.program[48..54], [0x0F, 0x84, 0x96, 0x86, 0x01, 0x00]);
    // the innermost loop jumps behind its own closing bracket, ten bytes on
    let innermost = 44 + 10 * 4999;
    assert_eq!(
        artifact.program[innermost + 4..innermost + 10],
        [0x0F, 0x84, 0x0A, 0x00, 0x00, 0x00]
    );
    // the last closing bracket jumps back to the start of the code
    let last = 44 + 10 * 9999;
    assert_eq!(artifact.program[last + 4..last + 10], [0x0F, 0x85, 0x60, 0x79, 0xFE, 0xFF]);
}

#[test]
fn many_loops_of_one_depth_are_told_apart() {
    let mut source = String::new();
    for _ in 0..300 {
        source.push_str("[]");
    }
    let mut ir_code = IrCode::new(&Program::from_string(&source));
    let artifact = ir_code.compile(io_fn(), TAPE).expect("cannot allocate memory");
    for i in 0..300 {
        let open = 44 + 20 * i;
        assert_eq!(artifact.program[open + 4..open + 10], [0x0F, 0x84, 0x0A, 0x00, 0x00, 0x00]);
        assert_eq!(artifact.program[open + 14..open + 20], [0x0F, 0x85, 0xEC, 0xFF, 0xFF, 0xFF]);
    }
}

#[test]
fn no_map_gives_no_artifact() {
    assert!(Brainfuck::from_mapping(None).is_none());
}

#[test]
fn a_map_gives_an_artifact_filled_with_int3() {
    let mut binary = memmap::MmapMut::map_anon(48).expect("cannot allocate memory");
    binary[0] = 1;
    binary[47] = 2;
    let artifact = Brainfuck::from_mapping(Some(binary)).expect("a map was given");
    assert_eq!(artifact.length, 0);
    assert_eq!(artifact.program.len(), 48);
    assert!(artifact.program.iter().all(|b| *b == 0xCC));
}

#[test]
fn nothing_is_compiled_where_no_artifact_was_made() {
    let mut ir_code = IrCode { ops: vec![IrOp::Add(None, 2)] };
    assert!(ir_code.compile_given(io_fn(), TAPE, None).is_none());
    assert_eq!(ir_code.ops, vec![IrOp::Add(None, 2)]);
}

#[test]
fn an_artifact_that_was_made_is_compiled_into() {
    let mut ir_code = IrCode { ops: vec![IrOp::Sub(None, 3)] };
    let blank = Brainfuck::new(256 + 16);
    assert!(blank.is_some());
    let artifact = ir_code.compile_given(io_fn(), TAPE, blank).expect("an artifact was given");
    expect_image(&artifact, 1, &[0x41, 0x80, 0x2E, 0x03]);
}
