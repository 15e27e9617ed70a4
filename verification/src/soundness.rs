//! The proof that optimisation keeps the meaning of a program.
//!
//! A rewrite replaces two or three operations on the chain by one. A run of
//! the chain before the rewrite is matched, step by step, by a run of the
//! chain after it; the matching is carried from one rewrite to a pass, from
//! a pass to any number of passes, and from the chain that the builder
//! makes back to the program.
use crate::brackets::{
    balanced, depth, is_bracket_word, is_level_window, is_match_end,
    lemma_balanced_has_match_end, lemma_balanced_has_match_start, lemma_match_end_unique,
    lemma_match_start_unique, lemma_match_symmetric, lemma_spliced_balanced, lemma_spliced_match,
    match_end, match_start, moved, spliced,
};
use crate::brainfuck::{bracket_kind, brackets_of, Op};
use crate::interpreter::{run, status, step, Machine, Status};
use crate::ir::{
    ir_bracket_kind, ir_brackets, ir_node, ir_of, lemma_reachable_frame, lemma_reachable_unfold,
    links_forward, reachable_from, IrOp,
};
use crate::optimizer::{
    fuse_pair, fuse_triple, lemma_fuse_pair_link, lemma_fuse_triple_link, lemma_pass_from_frame,
    lemma_replacement_shape, pass_from, passes, replacement, wrap_add, wrap_sub,
};
use crate::semantics::{
    apply, initial, ir_run, ir_status, ir_step, lemma_ir_run_split, lemma_ir_run_stopped, on_tape,
    plain_status, same_data,
};
use vstd::prelude::*;

verus! {

/// The code with the `w` operations from `lo` on replaced by `r`.
spec fn splice(code: Seq<IrOp>, lo: int, w: int, r: IrOp) -> Seq<IrOp> {
    code.subrange(0, lo).push(r) + code.subrange(lo + w, code.len() as int)
}

/// The machine at the place in the new code that stands for its place in
/// the old code.
spec fn relocate(m: Machine, lo: int, w: int) -> Machine {
    Machine { pc: moved(m.pc, lo, w), ..m }
}

/// Whether the fusion of two moves of the data pointer is the move that
/// the two make together: their sum, or their difference, is not changed
/// by being taken modulo 256 or by being read as a signed byte.
pub open spec fn exact_pair(first: IrOp, second: IrOp) -> bool {
    match (first, second) {
        (IrOp::Right(_, x), IrOp::Right(_, y)) => x + y <= 255,
        (IrOp::Left(_, x), IrOp::Left(_, y)) => x + y <= 255,
        (IrOp::Right(_, x), IrOp::Left(_, y)) => -128 <= x - y <= 127,
        (IrOp::Left(_, x), IrOp::Right(_, y)) => -128 <= y - x <= 127,
        _ => true,
    }
}

/// `r` takes the place of the `w` operations from `lo` on by one of the
/// rules of the optimiser, and does what they do.
spec fn is_window(code: Seq<IrOp>, lo: int, w: int, r: IrOp) -> bool {
    &&& 0 <= lo
    &&& lo + w <= code.len()
    &&& if w == 2 {
        fuse_pair(code[lo], code[lo + 1]) == Some(r) && exact_pair(code[lo], code[lo + 1])
    } else {
        w == 3 && fuse_triple(code[lo], code[lo + 1], code[lo + 2]) == Some(r)
    }
}

/// A sum modulo 256 is the sum, less 256 if it does not fit, and a
/// difference modulo 256 is the difference, with 256 more if it is
/// negative.
pub proof fn lemma_wrap_cases(x: u8, y: u8)
    ensures
        wrap_add(x, y) == if x + y >= 256 {
            x + y - 256
        } else {
            x + y
        },
        wrap_sub(x, y) == if x >= y {
            x - y
        } else {
            x - y + 256
        },
{
}

/// Sums and differences modulo 256 can be taken in any order.
pub proof fn lemma_wrap_arithmetic(t: u8, x: u8, y: u8)
    ensures
        wrap_add(wrap_add(t, x), y) == wrap_add(t, wrap_add(x, y)),
        wrap_sub(wrap_sub(t, x), y) == wrap_sub(t, wrap_add(x, y)),
        wrap_add(wrap_sub(t, x), y) == wrap_add(t, wrap_sub(y, x)),
        wrap_add(wrap_sub(t, x), y) == wrap_sub(t, wrap_sub(x, y)),
        wrap_sub(wrap_add(t, x), y) == wrap_add(t, wrap_sub(x, y)),
        wrap_sub(wrap_add(t, x), y) == wrap_sub(t, wrap_sub(y, x)),
{
    lemma_wrap_cases(t, x);
    lemma_wrap_cases(x, y);
    lemma_wrap_cases(y, x);
    lemma_wrap_cases(wrap_add(t, x), y);
    lemma_wrap_cases(wrap_sub(t, x), y);
    lemma_wrap_cases(t, wrap_add(x, y));
    lemma_wrap_cases(t, wrap_sub(x, y));
    lemma_wrap_cases(t, wrap_sub(y, x));
}

/// The fusion of two nodes is no jump and is made of no jump.
pub proof fn lemma_fuse_pair_plain(a: IrOp, b: IrOp, r: IrOp)
    requires
        fuse_pair(a, b) == Some(r),
    ensures
        ir_bracket_kind(a) == 0,
        ir_bracket_kind(b) == 0,
        ir_bracket_kind(r) == 0,
{
}

/// What holds of two operations and their fusion on a machine: if the two
/// can be carried out one after the other, the fusion can be carried out
/// and leaves the machine as they do.
spec fn does_both(a: IrOp, b: IrOp, r: IrOp, input: Seq<u8>, m: Machine) -> bool {
    plain_status(a, input, m) == Status::Running && plain_status(b, input, apply(a, input, m))
        == Status::Running ==> plain_status(r, input, m) == Status::Running && apply(r, input, m)
        == apply(b, input, apply(a, input, m))
}

/// What is fused with an addition does what the two do.
proof fn lemma_fuse_after_add(a: IrOp, b: IrOp, r: IrOp, input: Seq<u8>, m: Machine)
    requires
        fuse_pair(a, b) == Some(r),
        a is Add,
    ensures
        does_both(a, b, r, input, m),
{
    let x = a->Add_1;
    if on_tape(m, 0) {
        let t = m.tape[m.pointer];
        match b {
            IrOp::Add(_, y) => {
                lemma_wrap_arithmetic(t, x, y);
                assert(apply(r, input, m).tape =~= apply(b, input, apply(a, input, m)).tape);
            },
            IrOp::Sub(_, y) => {
                lemma_wrap_arithmetic(t, x, y);
                assert(apply(r, input, m).tape =~= apply(b, input, apply(a, input, m)).tape);
            },
            IrOp::SetIndirect(_, c) => {
                assert(apply(r, input, m).tape =~= apply(b, input, apply(a, input, m)).tape);
            },
            _ => {},
        }
    }
}

/// What is fused with a subtraction does what the two do.
proof fn lemma_fuse_after_sub(a: IrOp, b: IrOp, r: IrOp, input: Seq<u8>, m: Machine)
    requires
        fuse_pair(a, b) == Some(r),
        a is Sub,
    ensures
        does_both(a, b, r, input, m),
{
    let x = a->Sub_1;
    if on_tape(m, 0) {
        let t = m.tape[m.pointer];
        match b {
            IrOp::Add(_, y) => {
                lemma_wrap_arithmetic(t, x, y);
                assert(apply(r, input, m).tape =~= apply(b, input, apply(a, input, m)).tape);
            },
            IrOp::Sub(_, y) => {
                lemma_wrap_arithmetic(t, x, y);
                assert(apply(r, input, m).tape =~= apply(b, input, apply(a, input, m)).tape);
            },
            IrOp::SetIndirect(_, c) => {
                assert(apply(r, input, m).tape =~= apply(b, input, apply(a, input, m)).tape);
            },
            _ => {},
        }
    }
}

/// What is fused with a store of a constant does what the two do.
proof fn lemma_fuse_after_set(a: IrOp, b: IrOp, r: IrOp, input: Seq<u8>, m: Machine)
    requires
        fuse_pair(a, b) == Some(r),
        a is SetIndirect,
    ensures
        does_both(a, b, r, input, m),
{
    if on_tape(m, 0) {
        assert(apply(r, input, m).tape =~= apply(b, input, apply(a, input, m)).tape);
    }
}

/// An exact fusion of two moves of the data pointer does what the two do.
proof fn lemma_fuse_after_move(a: IrOp, b: IrOp, r: IrOp, input: Seq<u8>, m: Machine)
    requires
        fuse_pair(a, b) == Some(r),
        a is Right || a is Left,
        exact_pair(a, b),
    ensures
        does_both(a, b, r, input, m),
{
    match (a, b) {
        (IrOp::Right(_, x), IrOp::Right(_, y)) => {
            lemma_wrap_cases(x, y);
        },
        (IrOp::Left(_, x), IrOp::Left(_, y)) => {
            lemma_wrap_cases(x, y);
        },
        (IrOp::Right(_, x), IrOp::Left(_, y)) => {
            lemma_wrap_cases(x, y);
            lemma_wrap_cases(y, x);
        },
        (IrOp::Left(_, x), IrOp::Right(_, y)) => {
            lemma_wrap_cases(x, y);
            lemma_wrap_cases(y, x);
        },
        _ => {},
    }
}

/// A fusion does what its two operations do one after the other.
proof fn lemma_fuse_pair_sound(a: IrOp, b: IrOp, r: IrOp, input: Seq<u8>, m: Machine)
    requires
        fuse_pair(a, b) == Some(r),
        exact_pair(a, b),
    ensures
        does_both(a, b, r, input, m),
{
    match a {
        IrOp::Add(_, _) => lemma_fuse_after_add(a, b, r, input, m),
        IrOp::Sub(_, _) => lemma_fuse_after_sub(a, b, r, input, m),
        IrOp::SetIndirect(_, _) => lemma_fuse_after_set(a, b, r, input, m),
        IrOp::Right(_, _) => lemma_fuse_after_move(a, b, r, input, m),
        IrOp::Left(_, _) => lemma_fuse_after_move(a, b, r, input, m),
        _ => {
        },
    }
}

/// A clear loop is a jump on zero, a change by one and a jump on not zero,
/// and its replacement stores zero.
pub proof fn lemma_fuse_triple_shape(a: IrOp, b: IrOp, c: IrOp, r: IrOp)
    requires
        fuse_triple(a, b, c) == Some(r),
    ensures
        a is JumpIfZero,
        c is JumpIfNotZero,
        (b matches IrOp::Sub(_, n) && n == 1) || (b matches IrOp::Add(_, n) && n == 1),
        r matches IrOp::SetIndirect(_, v) && v == 0,
{
}

/// What is replaced closes all that it opens, and the brackets of the new
/// code are those of the old code with the replaced part taken out.
proof fn lemma_window_level(code: Seq<IrOp>, lo: int, w: int, r: IrOp)
    requires
        is_window(code, lo, w, r),
    ensures
        w == 2 || w == 3,
        is_bracket_word(ir_brackets(code)),
        is_level_window(ir_brackets(code), lo, w),
        ir_brackets(splice(code, lo, w, r)) == spliced(ir_brackets(code), lo, w),
        splice(code, lo, w, r).len() == code.len() - (w - 1),
        ir_bracket_kind(r) == 0,
        w == 2 ==> ir_brackets(code)[lo] == 0 && ir_brackets(code)[lo + 1] == 0,
        w == 3 ==> is_match_end(ir_brackets(code), lo, lo + 2) && ir_brackets(code)[lo] == 1
            && ir_brackets(code)[lo + 1] == 0 && ir_brackets(code)[lo + 2] == -1,
        splice(code, lo, w, r)[lo] == r,
{
    let b = ir_brackets(code);
    let code2 = splice(code, lo, w, r);
    if w == 2 {
        lemma_fuse_pair_plain(code[lo], code[lo + 1], r);
    } else {
        lemma_fuse_triple_shape(code[lo], code[lo + 1], code[lo + 2], r);
    }
    assert(depth(b, lo + 1) == depth(b, lo) + b[lo]);
    assert(depth(b, lo + 2) == depth(b, lo + 1) + b[lo + 1]);
    if w == 3 {
        assert(depth(b, lo + 3) == depth(b, lo + 2) + b[lo + 2]);
    }
    assert(ir_brackets(code2) =~= spliced(b, lo, w));
}

/// An operation outside of the replaced part is found in the new code
/// where its place has moved to.
proof fn lemma_splice_index(code: Seq<IrOp>, lo: int, w: int, r: IrOp, p: int)
    requires
        0 <= lo,
        1 <= w,
        lo + w <= code.len(),
        0 <= p < lo || lo + w <= p < code.len(),
    ensures
        splice(code, lo, w, r)[moved(p, lo, w)] == code[p],
        0 <= moved(p, lo, w) < splice(code, lo, w, r).len(),
{
}

/// A jump on zero outside of the replaced part leads to the same place in
/// the old and in the new code.
proof fn lemma_jump_forward_outside(code: Seq<IrOp>, lo: int, w: int, r: IrOp, pc: int)
    requires
        balanced(ir_brackets(code)),
        is_window(code, lo, w, r),
        0 <= pc < lo || lo + w <= pc < code.len(),
        code[pc] is JumpIfZero,
    ensures
        match_end(ir_brackets(splice(code, lo, w, r)), moved(pc, lo, w)) + 1 == moved(
            match_end(ir_brackets(code), pc) + 1,
            lo,
            w,
        ),
        match_end(ir_brackets(code), pc) + 1 <= lo || match_end(ir_brackets(code), pc) + 1 >= lo
            + w,
        0 <= match_end(ir_brackets(code), pc),
{
    let b = ir_brackets(code);
    let b2 = ir_brackets(splice(code, lo, w, r));
    lemma_window_level(code, lo, w, r);
    lemma_spliced_balanced(b, lo, w);
    lemma_balanced_has_match_end(b, pc);
    let j = match_end(b, pc);
    if lo <= j < lo + w {
        // only the closing bracket of a clear loop stands in a replaced
        // part, and it belongs to the loop
        lemma_match_symmetric(b, pc, j);
        lemma_match_symmetric(b, lo, lo + 2);
        lemma_match_start_unique(b, j, pc, lo);
    }
    lemma_spliced_match(b, lo, w, pc, j);
    lemma_splice_index(code, lo, w, r, pc);
    assert(b2[moved(pc, lo, w)] == 1);
    lemma_balanced_has_match_end(b2, moved(pc, lo, w));
    lemma_match_end_unique(b2, moved(pc, lo, w), moved(j, lo, w), match_end(b2, moved(pc, lo, w)));
}

/// A jump on not zero outside of the replaced part leads to the same place
/// in the old and in the new code.
proof fn lemma_jump_backward_outside(code: Seq<IrOp>, lo: int, w: int, r: IrOp, pc: int)
    requires
        balanced(ir_brackets(code)),
        is_window(code, lo, w, r),
        0 <= pc < lo || lo + w <= pc < code.len(),
        code[pc] is JumpIfNotZero,
    ensures
        match_start(ir_brackets(splice(code, lo, w, r)), moved(pc, lo, w)) == moved(
            match_start(ir_brackets(code), pc),
            lo,
            w,
        ),
        match_start(ir_brackets(code), pc) < lo || match_start(ir_brackets(code), pc) >= lo + w,
        0 <= match_start(ir_brackets(code), pc),
{
    let b = ir_brackets(code);
    let b2 = ir_brackets(splice(code, lo, w, r));
    lemma_window_level(code, lo, w, r);
    lemma_spliced_balanced(b, lo, w);
    lemma_balanced_has_match_start(b, pc);
    let o = match_start(b, pc);
    lemma_match_symmetric(b, o, pc);
    if lo <= o < lo + w {
        lemma_match_end_unique(b, lo, pc, lo + 2);
    }
    lemma_spliced_match(b, lo, w, o, pc);
    lemma_match_symmetric(b2, moved(o, lo, w), moved(pc, lo, w));
    lemma_splice_index(code, lo, w, r, pc);
    assert(b2[moved(pc, lo, w)] == -1);
    lemma_balanced_has_match_start(b2, moved(pc, lo, w));
    lemma_match_start_unique(
        b2,
        moved(pc, lo, w),
        moved(o, lo, w),
        match_start(b2, moved(pc, lo, w)),
    );
}

/// One operation outside of the replaced part does the same in the old and
/// in the new code.
proof fn lemma_step_outside(code: Seq<IrOp>, lo: int, w: int, r: IrOp, input: Seq<u8>, m: Machine)
    requires
        balanced(ir_brackets(code)),
        is_window(code, lo, w, r),
        0 <= m.pc < lo || lo + w <= m.pc,
        ir_status(code, input, m) == Status::Running,
    ensures
        ir_status(splice(code, lo, w, r), input, relocate(m, lo, w)) == Status::Running,
        ir_step(splice(code, lo, w, r), input, relocate(m, lo, w)) == relocate(
            ir_step(code, input, m),
            lo,
            w,
        ),
        0 <= ir_step(code, input, m).pc,
        ir_step(code, input, m).pc <= lo || ir_step(code, input, m).pc >= lo + w,
{
    let pc = m.pc;
    lemma_splice_index(code, lo, w, r, pc);
    match code[pc] {
        IrOp::JumpIfZero(_, _) => {
            lemma_jump_forward_outside(code, lo, w, r, pc);
        },
        IrOp::JumpIfNotZero(_, _) => {
            lemma_jump_backward_outside(code, lo, w, r, pc);
        },
        op => {
            lemma_apply_ignores_pc(op, input, m, moved(pc, lo, w));
            lemma_apply_ignores_pc(op, input, m, pc + 1);
        },
    }
}



/// What an operation that is no jump does, and whether it can be carried
/// out, does not depend on the position in the code.
pub proof fn lemma_apply_ignores_pc(op: IrOp, input: Seq<u8>, m: Machine, pc: int)
    ensures
        plain_status(op, input, Machine { pc, ..m }) == plain_status(op, input, m),
        apply(op, input, Machine { pc, ..m }) == (Machine { pc, ..apply(op, input, m) }),
        apply(op, input, m).pc == m.pc,
        plain_status(op, input, m) != Status::Halted,
{
}

/// The number of rounds that a clear loop makes for a cell: the cell's
/// value if each round takes one from it, and what it lacks to 256 if each
/// round adds one.
spec fn rounds(body: IrOp, value: u8) -> nat {
    if body is Sub || value == 0 {
        value as nat
    } else {
        (256 - value) as nat
    }
}

/// A clear loop leaves zero in the current cell and changes nothing else.
/// It takes some operations to do so, at least one.
proof fn lemma_clear_loop_runs(
    code: Seq<IrOp>,
    lo: int,
    r: IrOp,
    input: Seq<u8>,
    m: Machine,
    n: nat,
) -> (k: nat)
    requires
        balanced(ir_brackets(code)),
        is_window(code, lo, 3, r),
        m.pc == lo,
        ir_status(code, input, m) == Status::Running,
        ir_status(code, input, ir_run(code, input, m, n)) == Status::Halted,
    ensures
        1 <= k <= n,
        ir_run(code, input, m, k) == (Machine {
            pc: lo + 3,
            tape: m.tape.update(m.pointer, 0),
            ..m
        }),
    decreases rounds(code[lo + 1], m.tape[m.pointer]),
{
    let b = ir_brackets(code);
    lemma_window_level(code, lo, 3, r);
    lemma_fuse_triple_shape(code[lo], code[lo + 1], code[lo + 2], r);
    lemma_balanced_has_match_end(b, lo);
    lemma_match_end_unique(b, lo, lo + 2, match_end(b, lo));
    lemma_match_symmetric(b, lo, lo + 2);
    lemma_balanced_has_match_start(b, lo + 2);
    lemma_match_start_unique(b, lo + 2, lo, match_start(b, lo + 2));
    let v = m.tape[m.pointer];
    let done = Machine { pc: lo + 3, tape: m.tape.update(m.pointer, 0), ..m };
    let m1 = ir_step(code, input, m);
    assert(n >= 1);
    assert(ir_run(code, input, m, n) == ir_run(code, input, m1, (n - 1) as nat));
    if v == 0 {
        assert(m.tape.update(m.pointer, 0) =~= m.tape);
        assert(m1 == done);
        assert(ir_run(code, input, m, 1) == m1) by {
            reveal_with_fuel(ir_run, 2);
        }
        1
    } else {
        assert(m1 == Machine { pc: lo + 1, ..m });
        assert(ir_status(code, input, m1) == Status::Running);
        assert(n >= 2);
        let m2 = ir_step(code, input, m1);
        assert(ir_run(code, input, m1, (n - 1) as nat) == ir_run(
            code,
            input,
            m2,
            (n - 2) as nat,
        ));
        lemma_wrap_cases(v, 1);
        let v2 = m2.tape[m.pointer];
        assert(m2.pc == lo + 2);
        assert(ir_status(code, input, m2) == Status::Running);
        assert(n >= 3);
        let m3 = ir_step(code, input, m2);
        assert(ir_run(code, input, m2, (n - 2) as nat) == ir_run(
            code,
            input,
            m3,
            (n - 3) as nat,
        ));
        assert(ir_run(code, input, m, 3) == m3) by {
            reveal_with_fuel(ir_run, 4);
        }
        if v2 == 0 {
            assert(m3.tape =~= done.tape);
            assert(m3 == done);
            3
        } else {
            assert(m3.pc == lo);
            assert(m3.tape[m3.pointer] == v2);
            assert(rounds(code[lo + 1], v2) < rounds(code[lo + 1], v));
            let k = lemma_clear_loop_runs(code, lo, r, input, m3, (n - 3) as nat);
            lemma_ir_run_split(code, input, m, 3, k);
            assert(m3.tape.update(m3.pointer, 0) =~= m.tape.update(m.pointer, 0));
            (k + 3) as nat
        }
    }
}

/// A run of the old code that comes to the end of the code is matched by a
/// run of the new code: it takes no more operations and leaves the machine
/// in the same state, at the place in the new code that stands for the
/// place in the old code.
proof fn lemma_splice_run(
    code: Seq<IrOp>,
    lo: int,
    w: int,
    r: IrOp,
    input: Seq<u8>,
    m: Machine,
    n: nat,
) -> (n2: nat)
    requires
        balanced(ir_brackets(code)),
        is_window(code, lo, w, r),
        0 <= m.pc,
        m.pc <= lo || m.pc >= lo + w,
        ir_status(code, input, ir_run(code, input, m, n)) == Status::Halted,
    ensures
        n2 <= n,
        ir_run(splice(code, lo, w, r), input, relocate(m, lo, w), n2) == relocate(
            ir_run(code, input, m, n),
            lo,
            w,
        ),
        ir_status(
            splice(code, lo, w, r),
            input,
            relocate(ir_run(code, input, m, n), lo, w),
        ) == Status::Halted,
    decreases n,
{
    let code2 = splice(code, lo, w, r);
    let m_new = relocate(m, lo, w);
    lemma_window_level(code, lo, w, r);
    if ir_status(code, input, m) != Status::Running {
        lemma_ir_run_stopped(code, input, m, n);
        if 0 <= m.pc < code.len() {
            lemma_apply_ignores_pc(code[m.pc], input, m, m.pc);
        }
        assert(m.pc >= code.len());
        0
    } else {
        assert(n >= 1);
        let m1 = ir_step(code, input, m);
        assert(ir_run(code, input, m, n) == ir_run(code, input, m1, (n - 1) as nat));
        if m.pc != lo {
            lemma_step_outside(code, lo, w, r, input, m);
            let rest = lemma_splice_run(code, lo, w, r, input, m1, (n - 1) as nat);
            assert(ir_run(code2, input, m_new, rest + 1) == ir_run(
                code2,
                input,
                relocate(m1, lo, w),
                rest,
            ));
            rest + 1
        } else if w == 2 {
            let a = code[lo];
            let b = code[lo + 1];
            lemma_fuse_pair_plain(a, b, r);
            lemma_fuse_pair_sound(a, b, r, input, m);
            assert(m1 == Machine { pc: lo + 1, ..apply(a, input, m) });
            // the run does not end inside the code, so the second operation
            // is carried out as well
            lemma_apply_ignores_pc(a, input, m, lo + 1);
            lemma_apply_ignores_pc(b, input, m1, lo + 1);
            if ir_status(code, input, m1) != Status::Running {
                lemma_ir_run_stopped(code, input, m1, (n - 1) as nat);
            }
            assert(ir_status(code, input, m1) == Status::Running);
            assert(n >= 2);
            let m2 = ir_step(code, input, m1);
            assert(ir_run(code, input, m1, (n - 1) as nat) == ir_run(
                code,
                input,
                m2,
                (n - 2) as nat,
            ));
            lemma_apply_ignores_pc(b, input, apply(a, input, m), lo + 1);
            lemma_apply_ignores_pc(r, input, m, m_new.pc);
            assert(m2 == Machine { pc: lo + 2, ..apply(b, input, apply(a, input, m)) });
            assert(plain_status(r, input, m_new) == Status::Running);
            assert(ir_step(code2, input, m_new) == relocate(m2, lo, w));
            let rest = lemma_splice_run(code, lo, w, r, input, m2, (n - 2) as nat);
            assert(ir_run(code2, input, m_new, rest + 1) == ir_run(
                code2,
                input,
                relocate(m2, lo, w),
                rest,
            ));
            rest + 1
        } else {
            lemma_fuse_triple_shape(code[lo], code[lo + 1], code[lo + 2], r);
            let k = lemma_clear_loop_runs(code, lo, r, input, m, n);
            let done = ir_run(code, input, m, k);
            lemma_ir_run_split(code, input, m, k, (n - k) as nat);
            assert(ir_status(code2, input, m_new) == Status::Running && ir_step(
                code2,
                input,
                m_new,
            ) == relocate(done, lo, w));
            let rest = lemma_splice_run(code, lo, w, r, input, done, (n - k) as nat);
            assert(ir_run(code2, input, m_new, rest + 1) == ir_run(
                code2,
                input,
                relocate(done, lo, w),
                rest,
            ));
            rest + 1
        }
    }
}


/// Whether following the links from `i` leads to `idx`.
spec fn reaches(ops: Seq<IrOp>, i: int, idx: int) -> bool
    decreases idx - i,
{
    if i == idx {
        true
    } else if 0 <= i < idx && i < ops.len() {
        match ops[i].link() {
            Some(j) => i < j <= idx && reaches(ops, j as int, idx),
            None => false,
        }
    } else {
        false
    }
}

/// The operations that are met from `i` on before `idx` when the links are
/// followed.
spec fn lead(ops: Seq<IrOp>, i: int, idx: int) -> Seq<IrOp>
    decreases idx - i,
{
    if 0 <= i < idx && i < ops.len() {
        match ops[i].link() {
            Some(j) => if i < j <= idx {
                seq![ops[i]] + lead(ops, j as int, idx)
            } else {
                seq![ops[i]]
            },
            None => seq![ops[i]],
        }
    } else {
        Seq::empty()
    }
}

/// If the links lead from `i` to `idx`, the operations from `i` on are
/// those before `idx` and those from `idx` on.
proof fn lemma_lead_splits(ops: Seq<IrOp>, i: int, idx: int)
    requires
        links_forward(ops),
        0 <= i,
        0 <= idx < ops.len(),
        reaches(ops, i, idx),
    ensures
        reachable_from(ops, i) == lead(ops, i, idx) + reachable_from(ops, idx),
    decreases idx - i,
{
    if i == idx {
        assert(lead(ops, i, idx) + reachable_from(ops, idx) =~= reachable_from(ops, idx));
    } else {
        let j = ops[i].link().unwrap();
        lemma_reachable_unfold(ops, i);
        lemma_lead_splits(ops, j as int, idx);
        assert(seq![ops[i]] + (lead(ops, j as int, idx) + reachable_from(ops, idx)) =~= (seq![
            ops[i],
        ] + lead(ops, j as int, idx)) + reachable_from(ops, idx));
    }
}

/// What leads to `idx` depends on the nodes in front of `idx` only.
proof fn lemma_lead_frame(a: Seq<IrOp>, b: Seq<IrOp>, i: int, idx: int)
    requires
        a.len() == b.len(),
        forall|k: int| 0 <= k < idx && k < a.len() ==> a[k] == b[k],
    ensures
        lead(a, i, idx) == lead(b, i, idx),
        reaches(a, i, idx) == reaches(b, i, idx),
    decreases idx - i,
{
    if 0 <= i < idx && i < a.len() {
        match a[i].link() {
            Some(j) => {
                if i < j <= idx {
                    lemma_lead_frame(a, b, j as int, idx);
                }
            },
            None => {},
        }
    }
}

/// If the links lead to a node, they lead on to its successor.
proof fn lemma_lead_extends(ops: Seq<IrOp>, i: int, idx: int, n: usize)
    requires
        links_forward(ops),
        0 <= i,
        0 <= idx < ops.len(),
        reaches(ops, i, idx),
        ops[idx].link() == Some(n),
    ensures
        reaches(ops, i, n as int),
        lead(ops, i, n as int) == lead(ops, i, idx).push(ops[idx]),
    decreases idx - i,
{
    assert(idx < n < ops.len());
    assert(reaches(ops, n as int, n as int));
    if i == idx {
        assert(reaches(ops, idx, n as int));
        assert(lead(ops, n as int, n as int) =~= Seq::<IrOp>::empty());
        assert(lead(ops, idx, n as int) =~= Seq::<IrOp>::empty().push(ops[idx]));
        assert(lead(ops, idx, idx) =~= Seq::<IrOp>::empty());
    } else {
        let j = ops[i].link().unwrap();
        assert(i < j <= idx);
        lemma_lead_extends(ops, j as int, idx, n);
        assert(reaches(ops, i, n as int));
        assert(seq![ops[i]] + lead(ops, j as int, idx).push(ops[idx]) =~= (seq![ops[i]] + lead(
            ops,
            j as int,
            idx,
        )).push(ops[idx]));
    }
}

/// Whether the rewrite at `idx`, if it fuses two moves of the data
/// pointer, gives the move that the two make together.
pub open spec fn exact_at(ops: Seq<IrOp>, idx: int) -> bool {
    match ops[idx].link() {
        None => true,
        Some(m) => {
            let triple = match ops[m as int].link() {
                Some(t) => fuse_triple(ops[idx], ops[m as int], ops[t as int]),
                None => None,
            };
            triple is Some || exact_pair(ops[idx], ops[m as int])
        },
    }
}

/// Whether every rewrite of one pass from `idx` on is exact.
pub open spec fn pass_exact_from(ops: Seq<IrOp>, idx: int) -> bool
    decreases ops.len() - idx,
{
    if 0 <= idx < ops.len() {
        let r = replacement(ops, idx);
        exact_at(ops, idx) && match r.link() {
            Some(n) => if idx < n < ops.len() {
                pass_exact_from(ops.update(idx, r), n as int)
            } else {
                true
            },
            None => true,
        }
    } else {
        true
    }
}

/// Whether every rewrite of the first `n` passes is exact.
pub open spec fn passes_exact(ops: Seq<IrOp>, n: nat) -> bool
    decreases n,
{
    if n == 0 {
        true
    } else {
        passes_exact(ops, (n - 1) as nat) && pass_exact_from(passes(ops, (n - 1) as nat), 0)
    }
}

/// A run comes to the end of the code within `n` operations.
pub open spec fn halts_within(code: Seq<IrOp>, input: Seq<u8>, m: Machine, n: nat) -> bool {
    ir_status(code, input, ir_run(code, input, m, n)) == Status::Halted
}

/// One rewrite replaces a part of the chain by one operation as
/// `is_window` says, or changes nothing.
proof fn lemma_rewrite_is_splice(ops: Seq<IrOp>, idx: int) -> (w: int)
    requires
        links_forward(ops),
        0 <= idx < ops.len(),
        reaches(ops, 0, idx),
        exact_at(ops, idx),
    ensures
        1 <= w <= 3,
        w == 1 ==> replacement(ops, idx) == ops[idx],
        w > 1 ==> is_window(
            reachable_from(ops, 0),
            lead(ops, 0, idx).len() as int,
            w,
            replacement(ops, idx),
        ) && reachable_from(ops.update(idx, replacement(ops, idx)), 0) == splice(
            reachable_from(ops, 0),
            lead(ops, 0, idx).len() as int,
            w,
            replacement(ops, idx),
        ),
{
    let r = replacement(ops, idx);
    let ops2 = ops.update(idx, r);
    let code = reachable_from(ops, 0);
    let front = lead(ops, 0, idx);
    let k = front.len() as int;
    lemma_replacement_shape(ops, idx);
    lemma_lead_splits(ops, 0, idx);
    lemma_reachable_unfold(ops, idx);
    if r == ops[idx] {
        1
    } else {
        let m = ops[idx].link().unwrap();
        assert(idx < m < ops.len());
        lemma_reachable_unfold(ops, m as int);
        let triple = match ops[m as int].link() {
            Some(t) => fuse_triple(ops[idx], ops[m as int], ops[t as int]),
            None => None,
        };
        lemma_lead_frame(ops, ops2, 0, idx);
        lemma_lead_splits(ops2, 0, idx);
        lemma_reachable_unfold(ops2, idx);
        assert(ops2[idx] == r);
        if triple is Some {
            let t = ops[m as int].link().unwrap();
            assert(m < t < ops.len());
            lemma_reachable_unfold(ops, t as int);
            lemma_fuse_triple_link(ops[idx], ops[m as int], ops[t as int]);
            let tail = match ops[t as int].link() {
                Some(far) => reachable_from(ops, far as int),
                None => Seq::<IrOp>::empty(),
            };
            match ops[t as int].link() {
                Some(far) => {
                    lemma_reachable_frame(ops2, ops, far as int);
                },
                None => {},
            }
            assert(code =~= front + seq![ops[idx], ops[m as int], ops[t as int]] + tail);
            assert(reachable_from(ops2, 0) =~= front + seq![r] + tail);
            assert(code[k] == ops[idx]);
            assert(code[k + 1] == ops[m as int]);
            assert(code[k + 2] == ops[t as int]);
            assert(reachable_from(ops2, 0) =~= splice(code, k, 3, r));
            3
        } else {
            lemma_fuse_pair_link(ops[idx], ops[m as int]);
            let tail = match ops[m as int].link() {
                Some(far) => reachable_from(ops, far as int),
                None => Seq::<IrOp>::empty(),
            };
            match ops[m as int].link() {
                Some(far) => {
                    lemma_reachable_frame(ops2, ops, far as int);
                },
                None => {},
            }
            assert(code =~= front + seq![ops[idx], ops[m as int]] + tail);
            assert(reachable_from(ops2, 0) =~= front + seq![r] + tail);
            assert(code[k] == ops[idx]);
            assert(code[k + 1] == ops[m as int]);
            assert(reachable_from(ops2, 0) =~= splice(code, k, 2, r));
            2
        }
    }
}


/// One pass from `idx` on keeps what a run that comes to the end of the
/// code leaves behind, if every rewrite of the pass is exact.
proof fn lemma_pass_from_run(
    ops: Seq<IrOp>,
    idx: int,
    input: Seq<u8>,
    m: Machine,
    n: nat,
) -> (n2: nat)
    requires
        links_forward(ops),
        0 <= idx < ops.len(),
        reaches(ops, 0, idx),
        balanced(ir_brackets(reachable_from(ops, 0))),
        pass_exact_from(ops, idx),
        m.pc == 0,
        halts_within(reachable_from(ops, 0), input, m, n),
    ensures
        n2 <= n,
        balanced(ir_brackets(reachable_from(pass_from(ops, idx), 0))),
        halts_within(reachable_from(pass_from(ops, idx), 0), input, m, n2),
        same_data(
            ir_run(reachable_from(pass_from(ops, idx), 0), input, m, n2),
            ir_run(reachable_from(ops, 0), input, m, n),
        ),
    decreases ops.len() - idx,
{
    let r = replacement(ops, idx);
    let ops2 = ops.update(idx, r);
    let code = reachable_from(ops, 0);
    let code2 = reachable_from(ops2, 0);
    lemma_replacement_shape(ops, idx);
    let w = lemma_rewrite_is_splice(ops, idx);
    let mut n1: nat = n;
    if w == 1 {
        assert(ops2 =~= ops);
    } else {
        let k = lead(ops, 0, idx).len() as int;
        lemma_window_level(code, k, w, r);
        lemma_spliced_balanced(ir_brackets(code), k, w);
        n1 = lemma_splice_run(code, k, w, r, input, m, n);
        assert(relocate(m, k, w) == m);
    }
    assert(ops2[idx] == r);
    match r.link() {
        Some(far) => {
            assert(idx < far < ops.len());
            lemma_lead_frame(ops, ops2, 0, idx);
            lemma_lead_extends(ops2, 0, idx, far);
            lemma_pass_from_run(ops2, far as int, input, m, n1)
        },
        None => n1,
    }
}

/// Passes keep what a run that comes to the end of the code leaves behind,
/// if every rewrite of theirs is exact.
proof fn lemma_passes_run(ops: Seq<IrOp>, count: nat, input: Seq<u8>, m: Machine, n: nat) -> (n2:
    nat)
    requires
        links_forward(ops),
        balanced(ir_brackets(reachable_from(ops, 0))),
        passes_exact(ops, count),
        m.pc == 0,
        halts_within(reachable_from(ops, 0), input, m, n),
    ensures
        n2 <= n,
        links_forward(passes(ops, count)),
        balanced(ir_brackets(reachable_from(passes(ops, count), 0))),
        halts_within(reachable_from(passes(ops, count), 0), input, m, n2),
        same_data(
            ir_run(reachable_from(passes(ops, count), 0), input, m, n2),
            ir_run(reachable_from(ops, 0), input, m, n),
        ),
    decreases count,
{
    if count == 0 {
        n
    } else {
        let n1 = lemma_passes_run(ops, (count - 1) as nat, input, m, n);
        let before = passes(ops, (count - 1) as nat);
        lemma_pass_from_frame(before, 0);
        if before.len() == 0 {
            n1
        } else {
            lemma_pass_from_run(before, 0, input, m, n1)
        }
    }
}

/// The chain of a freshly built representation holds every node, in the
/// order of the vector.
pub proof fn lemma_identity_chain(program: Seq<Op>, i: int)
    requires
        0 <= i <= program.len(),
        program.len() <= usize::MAX,
    ensures
        reachable_from(ir_of(program), i) == ir_of(program).skip(i),
        links_forward(ir_of(program)),
    decreases program.len() - i,
{
    let ops = ir_of(program);
    assert forall|k: int| 0 <= k < ops.len() implies match (#[trigger] ops[k]).link() {
        Some(j) => k < j < ops.len(),
        None => true,
    } by {
        assert(ops[k] == ir_node(program, k));
    }
    if i < program.len() {
        lemma_identity_chain(program, i + 1);
        lemma_reachable_unfold(ops, i);
        assert(ops[i] == ir_node(program, i));
        if i + 1 == program.len() {
            assert(ops.skip(i) =~= seq![ops[i]]);
        } else {
            assert(ops[i].link() == Some((i + 1) as usize));
            assert(ops.skip(i) =~= seq![ops[i]] + ops.skip(i + 1));
        }
    } else {
        assert(reachable_from(ops, i) =~= Seq::<IrOp>::empty());
        assert(ops.skip(i) =~= Seq::<IrOp>::empty());
    }
}

/// The representation that the builder makes of a program runs as the
/// program does in the reference interpreter.
pub proof fn lemma_builder_run(program: Seq<Op>, input: Seq<u8>, m: Machine, n: nat)
    requires
        balanced(brackets_of(program)),
        program.len() <= usize::MAX,
    ensures
        ir_run(ir_of(program), input, m, n) == run(program, input, m, n),
        ir_status(ir_of(program), input, m) == status(program, input, m),
        ir_brackets(ir_of(program)) == brackets_of(program),
    decreases n,
{
    let code = ir_of(program);
    assert(ir_brackets(code) =~= brackets_of(program)) by {
        assert forall|i: int| 0 <= i < program.len() implies ir_bracket_kind(code[i])
            == bracket_kind(program[i]) by {
            assert(code[i] == ir_node(program, i));
        }
    }
    if 0 <= m.pc < program.len() {
        assert(code[m.pc] == ir_node(program, m.pc));
    }
    assert(ir_status(code, input, m) == status(program, input, m));
    if status(program, input, m) == Status::Running && n > 0 {
        assert(ir_step(code, input, m) == step(program, input, m)) by {
            lemma_wrap_cases(m.tape[m.pointer], 1);
        }
        lemma_builder_run(program, input, step(program, input, m), (n - 1) as nat);
    }
}

/// Optimisation keeps the meaning of a program. If the reference
/// interpreter comes to the end of the program, the machine of the
/// intermediate representation comes to the end of the optimised chain, in
/// no more operations, and has then read and written the same bytes and
/// left the same tape and data pointer. This holds after any number of
/// passes, provided that no pass has fused two moves of the data pointer
/// whose sum or difference it could not hold in a byte.
pub proof fn lemma_optimization_keeps_meaning(
    program: Seq<Op>,
    input: Seq<u8>,
    cells: nat,
    steps: nat,
    count: nat,
) -> (steps2: nat)
    requires
        balanced(brackets_of(program)),
        program.len() <= usize::MAX,
        status(program, input, run(program, input, initial(cells), steps)) == Status::Halted,
        passes_exact(ir_of(program), count),
    ensures
        steps2 <= steps,
        halts_within(
            reachable_from(passes(ir_of(program), count), 0),
            input,
            initial(cells),
            steps2,
        ),
        same_data(
            ir_run(
                reachable_from(passes(ir_of(program), count), 0),
                input,
                initial(cells),
                steps2,
            ),
            run(program, input, initial(cells), steps),
        ),
{
    let ops = ir_of(program);
    lemma_identity_chain(program, 0);
    assert(ops.skip(0) =~= ops);
    lemma_builder_run(program, input, initial(cells), steps);
    lemma_builder_run(program, input, run(program, input, initial(cells), steps), 0);
    lemma_passes_run(ops, count, input, initial(cells), steps)
}

} // verus!
