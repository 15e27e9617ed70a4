use bfjit::brainfuck::Program;
use bfjit::ir::{IrCode, IrOp};

#[test]
fn iter() {
    let ir_code = IrCode::new(&Program::from_string("+-<>.,"));
    let mut iter = ir_code.iter();

    assert!(matches!(iter.next(), Some(IrOp::Add(_, 1))));
    assert!(matches!(iter.next(), Some(IrOp::Sub(_, 1))));
    assert!(matches!(iter.next(), Some(IrOp::Left(_, 1))));
    assert!(matches!(iter.next(), Some(IrOp::Right(_, 1))));
    assert!(matches!(iter.next(), Some(IrOp::Write(_))));
    assert!(matches!(iter.next(), Some(IrOp::Read(_))));
    assert!(matches!(iter.next(), None));
}

#[test]
fn len() {
    let mut ir_code = IrCode::new(&Program::from_string("+++>+"));

    assert_eq!(ir_code.len(), 5);
    ir_code.optimize();
    assert_eq!(ir_code.len(), 3);
}

#[test]
fn optimizes_tail_instructions() {
    let mut ir_code = IrCode::new(&Program::from_string("+++"));
    ir_code.optimize();
    let mut iter = ir_code.iter();

    assert!(matches!(iter.next(), Some(IrOp::Add(_, 3))));
    assert!(matches!(iter.next(), None));
}

#[test]
fn optimizes_consecutive_adds() {
    let mut ir_code = IrCode::new(&Program::from_string("+++>++"));
    ir_code.optimize();
    let mut iter = ir_code.iter();

    assert!(matches!(iter.next(), Some(IrOp::Add(_, 3))));
    assert!(matches!(iter.next(), Some(IrOp::Right(_, 1))));
    assert!(matches!(iter.next(), Some(IrOp::Add(_, 2))));
    assert!(matches!(iter.next(), None));
}

#[test]
fn optimizes_consecutive_mixed_adds() {
    let mut ir_code = IrCode::new(&Program::from_string("+++-->---++>--+++>++---"));
    ir_code.optimize();
    let mut iter = ir_code.iter();

    assert!(matches!(iter.next(), Some(IrOp::Add(_, 1))));
    assert!(matches!(iter.next(), Some(IrOp::Right(_, 1))));
    assert!(matches!(iter.next(), Some(IrOp::Sub(_, 1))));
    assert!(matches!(iter.next(), Some(IrOp::Right(_, 1))));
    assert!(matches!(iter.next(), Some(IrOp::Add(_, 1))));
    assert!(matches!(iter.next(), Some(IrOp::Right(_, 1))));
    assert!(matches!(iter.next(), Some(IrOp::Sub(_, 1))));
    assert!(matches!(iter.next(), None));
}

#[test]
fn optimizes_consecutive_mixed_lefts_rights() {
    let mut ir_code = IrCode::new(&Program::from_string(">>><<+<<<>>+<<>>>+>><<<"));
    ir_code.optimize();
    let mut iter = ir_code.iter();

    assert!(matches!(iter.next(), Some(IrOp::Right(_, 1))));
    assert!(matches!(iter.next(), Some(IrOp::Add(_, 1))));
    assert!(matches!(iter.next(), Some(IrOp::Left(_, 1))));
    assert!(matches!(iter.next(), Some(IrOp::Add(_, 1))));
    assert!(matches!(iter.next(), Some(IrOp::Right(_, 1))));
    assert!(matches!(iter.next(), Some(IrOp::Add(_, 1))));
    assert!(matches!(iter.next(), Some(IrOp::Left(_, 1))));
    assert!(matches!(iter.next(), None));
}

#[test]
fn optimizes_consecutive_subtractions() {
    let mut ir_code = IrCode::new(&Program::from_string("--->-"));
    ir_code.optimize();
    let mut iter = ir_code.iter();

    assert!(matches!(iter.next(), Some(IrOp::Sub(_, 3))));
    assert!(matches!(iter.next(), Some(IrOp::Right(_, 1))));
    assert!(matches!(iter.next(), Some(IrOp::Sub(_, 1))));
    assert!(matches!(iter.next(), None));
}

#[test]
fn optimizes_consecutive_lefts_rights() {
    let mut ir_code = IrCode::new(&Program::from_string(">>+>>>-<<<<+"));

    ir_code.optimize();
    let mut iter = ir_code.iter();

    assert!(matches!(iter.next(), Some(IrOp::Right(_, 2))));
    assert!(matches!(iter.next(), Some(IrOp::Add(_, 1))));
    assert!(matches!(iter.next(), Some(IrOp::Right(_, 3))));
    assert!(matches!(iter.next(), Some(IrOp::Sub(_, 1))));
    assert!(matches!(iter.next(), Some(IrOp::Left(_, 4))));
    assert!(matches!(iter.next(), Some(IrOp::Add(_, 1))));
    assert!(matches!(iter.next(), None));
}

#[test]
fn optimizes_clear_loops() {
    let mut ir_code = IrCode::new(&Program::from_string("[-]>[+]>"));

    ir_code.optimize();
    let mut iter = ir_code.iter();

    assert!(matches!(iter.next(), Some(IrOp::SetIndirect(_, 0))));
    assert!(matches!(iter.next(), Some(IrOp::Right(_, 1))));
    assert!(matches!(iter.next(), Some(IrOp::SetIndirect(_, 0))));
    assert!(matches!(iter.next(), Some(IrOp::Right(_, 1))));
    assert!(matches!(iter.next(), None));
}

#[test]
fn optimizes_adds_following_preceding_clear_loops() {
    let mut ir_code = IrCode::new(&Program::from_string("+[-]+++++>-[+]----"));

    ir_code.optimize();
    let mut iter = ir_code.iter();

    assert!(matches!(iter.next(), Some(IrOp::SetIndirect(_, 5))));
    assert!(matches!(iter.next(), Some(IrOp::Right(_, 1))));
    assert!(matches!(iter.next(), Some(IrOp::SetIndirect(_, 252))));
    assert!(matches!(iter.next(), None));
}

#[test]
fn optimizes_consecutive_sets() {
    let mut ir_code = IrCode::new(&Program::from_string("+[-]+++++-[+]----"));

    ir_code.optimize();
    let mut iter = ir_code.iter();

    assert_eq!(ir_code.len(), 1);

    assert!(matches!(iter.next(), Some(IrOp::SetIndirect(_, 252))));
    assert!(matches!(iter.next(), None));
}
