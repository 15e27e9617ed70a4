use bfjit::brainfuck::Program;
use bfjit::interpreter::{Interpreter, Status};
use bfjit::ir::{IrCode, IrOp};
use bfjit::ir_interpreter::{find_jump_end, find_jump_start, IrInterpreter};

fn optimized(source: &str) -> IrCode {
    let mut ir_code = IrCode::new(&Program::from_string(source));
    ir_code.optimize();
    ir_code
}

fn run_source(source: &str, input: &[u8]) -> Interpreter<'static> {
    let program: &'static Program = Box::leak(Box::new(Program::from_string(source)));
    let mut vm = Interpreter::new(program, input.to_vec());
    assert_eq!(vm.interpret(), Status::Halted);
    vm
}

fn run_chain(ir_code: &IrCode, input: &[u8]) -> (IrInterpreter, Status) {
    let mut vm = IrInterpreter::new(ir_code.to_vec(), input.to_vec());
    assert!(vm.is_balanced());
    let status = vm.run(u64::MAX);
    (vm, status)
}

#[test]
fn to_vec_gives_the_chain() {
    let ir_code = optimized("+++>++");
    assert_eq!(
        ir_code.to_vec(),
        vec![IrOp::Add(Some(3), 3), IrOp::Right(Some(4), 1), IrOp::Add(None, 2)]
    );
    assert!(IrCode { ops: vec![] }.to_vec().is_empty());
}

#[test]
fn one_add_of_three_leaves_three_in_the_first_cell() {
    let ir_code = optimized("+++");
    assert_eq!(ir_code.to_vec(), vec![IrOp::Add(None, 3)]);
    let (vm, status) = run_chain(&ir_code, b"");
    assert_eq!(status, Status::Halted);
    assert_eq!(vm.memory_at(0), 3);
    assert_eq!(vm.memory_at(1), 0);
}

#[test]
fn fused_runs_leave_the_tape_of_the_source() {
    let ir_code = optimized("+++>++");
    let (vm, status) = run_chain(&ir_code, b"");
    assert_eq!(status, Status::Halted);
    assert_eq!(&vm.memory[..4], &[3, 2, 0, 0]);
    assert_eq!(vm.memory_pointer, 1);
}

#[test]
fn input_is_stored_cell_by_cell() {
    let ir_code = optimized(",>,>,");
    let (vm, status) = run_chain(&ir_code, b"abc");
    assert_eq!(status, Status::Halted);
    assert_eq!(&vm.memory[..4], &[97, 98, 99, 0]);
    assert_eq!(vm.input_position, 3);
}

#[test]
fn a_store_of_a_constant_overwrites_the_cell() {
    let ir_code = optimized("+++[-]+++++.");
    assert_eq!(ir_code.to_vec(), vec![IrOp::SetIndirect(Some(11), 5), IrOp::Write(None)]);
    let (vm, _) = run_chain(&ir_code, b"");
    assert_eq!(vm.memory_at(0), 5);
    assert_eq!(vm.output, vec![5]);
}

#[test]
fn a_copy_multiplies_the_source_cell() {
    let op1 = IrOp::SetIndirect(Some(1), 7);
    let op2 = IrOp::MulCopy(Some(2), 2, 11);
    let op3 = IrOp::Right(Some(3), 2);
    let op4 = IrOp::Write(None);

    let ir_code = IrCode { ops: vec![op1, op2, op3, op4] };
    let (vm, status) = run_chain(&ir_code, b"");
    assert_eq!(status, Status::Halted);
    assert_eq!(vm.output[0], b'M');
    assert_eq!(vm.memory_at(0), 0);
    assert_eq!(vm.memory_at(2), 77);
}

#[test]
fn a_copy_adds_to_what_the_cell_holds_modulo_256() {
    let ir_code = IrCode {
        ops: vec![
            IrOp::SetIndirect(Some(1), 200),
            IrOp::Right(Some(2), 1),
            IrOp::SetIndirect(Some(3), 100),
            IrOp::MulCopy(None, -1, 3),
        ],
    };
    let (vm, status) = run_chain(&ir_code, b"");
    assert_eq!(status, Status::Halted);
    // 200 + 100 * 3 = 500 = 244 modulo 256
    assert_eq!(vm.memory_at(0), 244);
    assert_eq!(vm.memory_at(1), 0);
}

#[test]
fn a_copy_beyond_the_tape_stops_the_run() {
    let ir_code = IrCode { ops: vec![IrOp::MulCopy(None, -1, 3)] };
    let (vm, status) = run_chain(&ir_code, b"");
    assert_eq!(status, Status::PointerOutOfRange);
    assert_eq!(vm.program_counter, 0);
}

#[test]
fn moves_below_zero_stop_the_run() {
    let ir_code = IrCode { ops: vec![IrOp::Right(Some(1), 3), IrOp::Left(None, 4)] };
    let (vm, status) = run_chain(&ir_code, b"");
    assert_eq!(status, Status::PointerOutOfRange);
    assert_eq!(vm.memory_pointer, 3);
    assert_eq!(vm.program_counter, 1);
}

#[test]
fn a_read_without_input_stops_the_run() {
    let ir_code = optimized("+,.");
    let mut vm = IrInterpreter::new(ir_code.to_vec(), Vec::new());
    assert_eq!(vm.run(u64::MAX), Status::NeedsInput);
    vm.input.push(b'q');
    assert_eq!(vm.run(u64::MAX), Status::Halted);
    assert_eq!(vm.output, vec![b'q']);
}

#[test]
fn jumps_find_their_partners_on_the_chain() {
    let code = optimized("+[>+[-.]<-]").to_vec();
    assert_eq!(
        code,
        vec![
            IrOp::Add(Some(1), 1),
            IrOp::JumpIfZero(Some(2), Some(11)),
            IrOp::Right(Some(3), 1),
            IrOp::Add(Some(4), 1),
            IrOp::JumpIfZero(Some(5), Some(8)),
            IrOp::Sub(Some(6), 1),
            IrOp::Write(Some(7)),
            IrOp::JumpIfNotZero(Some(8), Some(4)),
            IrOp::Left(Some(9), 1),
            IrOp::Sub(Some(10), 1),
            IrOp::JumpIfNotZero(None, Some(1)),
        ]
    );
    assert_eq!(find_jump_end(&code, 1), 10);
    assert_eq!(find_jump_end(&code, 4), 7);
    assert_eq!(find_jump_start(&code, 10), 1);
    assert_eq!(find_jump_start(&code, 7), 4);
}

#[test]
fn step_follows_the_jumps() {
    let mut vm = IrInterpreter::new(optimized("[+]>+[>+<-]").to_vec(), Vec::new());
    // SetIndirect(0), Right(1), Add(1), JumpIfZero, Right, Add, Left, Sub, JumpIfNotZero
    assert_eq!(vm.code.len(), 9);
    assert_eq!(vm.run(3), Status::Running);
    assert_eq!(vm.program_counter, 3);
    assert_eq!(vm.step(), Status::Running);
    assert_eq!(vm.program_counter, 4);
    assert_eq!(vm.run(4), Status::Running);
    assert_eq!(vm.program_counter, 8);
    assert_eq!(vm.memory_at(1), 0);
    assert_eq!(vm.step(), Status::Running);
    assert_eq!(vm.program_counter, 9);
    assert_eq!(vm.step(), Status::Halted);
    assert_eq!(vm.memory_at(2), 1);
}

fn same_meaning(source: &str, input: &[u8]) {
    let reference = run_source(source, input);
    let plain = IrCode::new(&Program::from_string(source));
    let (vm, status) = run_chain(&plain, input);
    assert_eq!(status, Status::Halted);
    assert_eq!(vm.output, reference.output);
    assert_eq!(vm.memory[..], reference.memory[..]);
    let (vm, status) = run_chain(&optimized(source), input);
    assert_eq!(status, Status::Halted);
    assert_eq!(vm.output, reference.output);
    assert_eq!(vm.memory[..], reference.memory[..]);
    assert_eq!(vm.memory_pointer, reference.memory_pointer);
    assert_eq!(vm.input_position, reference.input_position);
}

#[test]
fn optimisation_keeps_the_output() {
    same_meaning("+++", b"");
    same_meaning("+++>++", b"");
    same_meaning("[-]", b"");
    same_meaning("+[-]+++++", b"");
    same_meaning(",>,>,", b"abc");
    same_meaning("++++++++[->+++++++<]>.", b"");
    same_meaning("+++-->---++>--+++>++---", b"");
    same_meaning(">>>><<+<<>>>+<<>>>+>><<<", b"");
    same_meaning("-[+]>--[-]>,[.,]", b"hello\0");
    same_meaning(",[.[-],]", b"abc\0");
    same_meaning("++>+++++[<+>-]++++++++[<++++++>-]<.", b"");
}

const PI_PROGRAM: &str = ">  +++++ +++++ +++++
[<+>>>>>>>>++++++++++<<<<<<<-]>+++++[<+++++++++>-]+>>>>>>+[<<+++[>>[-<]<[>]<-]>>
[>+>]<[<]>]>[[->>>>+<<<<]>>>+++>-]<[<<<<]<<<<<<<<+[->>>>>>>>>>>>[<+[->>>>+<<<<]>
>>>>]<<<<[>>>>>[<<<<+>>>>-]<<<<<-[<<++++++++++>>-]>>>[<<[<+<<+>>>-]<[>+<-]<++<<+
>>>>>>-]<<[-]<<-<[->>+<-[>>>]>[[<+>-]>+>>]<<<<<]>[-]>+<<<-[>>+<<-]<]<<<<+>>>>>>>
>[-]>[<<<+>>>-]<<++++++++++<[->>+<-[>>>]>[[<+>-]>+>>]<<<<<]>[-]>+>[<<+<+>>>-]<<<
<+<+>>[-[-[-[-[-[-[-[-[-<->[-<+<->>]]]]]]]]]]<[+++++[<<<++++++++<++++++++>>>>-]<
<<<+<->>>>[>+<<<+++++++++<->>>-]<<<<<[>>+<<-]+<[->-<]>[>>.<<<<[+.[-]]>>-]>[>>.<<
-]>[-]>[-]>>>[>>[<<<<<<<<+>>>>>>>>-]<<-]]>>[-]<<<[-]<<<<<<<<]++++++++++.";

#[test]
fn the_optimised_pi_program_prints_the_same_digits() {
    let ir_code = optimized(PI_PROGRAM);
    let (vm, status) = run_chain(&ir_code, b"");
    assert_eq!(status, Status::Halted);
    assert_eq!(&vm.output[..16], b"3.14070455282885");
    let reference = run_source(PI_PROGRAM, b"");
    assert_eq!(vm.output, reference.output);
    assert_eq!(vm.memory[..], reference.memory[..]);
}

#[test]
fn a_fused_move_of_256_cells_is_no_move() {
    let mut source = String::from("+");
    for _ in 0..256 {
        source.push('>');
    }
    source.push('.');
    let reference = run_source(&source, b"");
    assert_eq!(reference.output, vec![0]);
    let ir_code = optimized(&source);
    assert_eq!(
        ir_code.to_vec(),
        vec![IrOp::Add(Some(1), 1), IrOp::Right(Some(257), 0), IrOp::Write(None)]
    );
    let (vm, _) = run_chain(&ir_code, b"");
    assert_eq!(vm.output, vec![1]);
}
