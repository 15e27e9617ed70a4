use bfjit::brainfuck::{Op, Program};

#[test]
fn from_char_knows_the_eight_symbols() {
    assert_eq!(Op::from_char('>'), Some(Op::IncrementPtr));
    assert_eq!(Op::from_char('<'), Some(Op::DecrementPtr));
    assert_eq!(Op::from_char('+'), Some(Op::IncrementMemory));
    assert_eq!(Op::from_char('-'), Some(Op::DecrementMemory));
    assert_eq!(Op::from_char('.'), Some(Op::WriteByte));
    assert_eq!(Op::from_char(','), Some(Op::ReadByte));
    assert_eq!(Op::from_char('['), Some(Op::JumpForward));
    assert_eq!(Op::from_char(']'), Some(Op::JumpBackward));
    assert_eq!(Op::from_char('a'), None);
    assert_eq!(Op::from_char(' '), None);
    assert_eq!(Op::from_char('\n'), None);
    assert_eq!(Op::from_char('é'), None);
}

#[test]
fn from_string_keeps_the_symbols_in_order() {
    let program = Program::from_string("a+b-c<d>e.f,g[h]i");
    assert_eq!(
        program.instructions,
        vec![
            Op::IncrementMemory,
            Op::DecrementMemory,
            Op::DecrementPtr,
            Op::IncrementPtr,
            Op::WriteByte,
            Op::ReadByte,
            Op::JumpForward,
            Op::JumpBackward,
        ]
    );
}

#[test]
fn from_string_drops_everything_else() {
    assert!(Program::from_string("").instructions.is_empty());
    assert!(Program::from_string("hello world\n\t 0123 {}()").instructions.is_empty());
    let program = Program::from_string("žluťoučký + kůň\r\n– ] 日本語");
    assert_eq!(program.instructions, vec![Op::IncrementMemory, Op::JumpBackward]);
}

#[test]
fn from_string_does_not_ask_for_balance() {
    let program = Program::from_string("]][");
    assert_eq!(program.instructions.len(), 3);
    assert!(!program.is_balanced());
}

#[test]
fn is_balanced_tells_balanced_programs() {
    assert!(Program::from_string("").is_balanced());
    assert!(Program::from_string("+-").is_balanced());
    assert!(Program::from_string("[]").is_balanced());
    assert!(Program::from_string("[[][]]+[-]").is_balanced());
    assert!(!Program::from_string("[").is_balanced());
    assert!(!Program::from_string("]").is_balanced());
    assert!(!Program::from_string("][").is_balanced());
    assert!(!Program::from_string("[[]").is_balanced());
    assert!(!Program::from_string("[]]").is_balanced());
    assert!(!Program::from_string("[]][").is_balanced());
}

#[test]
fn find_matching_jump_end_finds_the_closing_bracket() {
    let program = Program::from_string("[+[-]>[[.],]]+[]");
    assert_eq!(program.find_matching_jump_end(0), 12);
    assert_eq!(program.find_matching_jump_end(2), 4);
    assert_eq!(program.find_matching_jump_end(6), 11);
    assert_eq!(program.find_matching_jump_end(7), 9);
    assert_eq!(program.find_matching_jump_end(14), 15);
}

#[test]
fn find_matching_jump_start_finds_the_opening_bracket() {
    let program = Program::from_string("[+[-]>[[.],]]+[]");
    assert_eq!(program.find_matching_jump_start(12), 0);
    assert_eq!(program.find_matching_jump_start(4), 2);
    assert_eq!(program.find_matching_jump_start(11), 6);
    assert_eq!(program.find_matching_jump_start(9), 7);
    assert_eq!(program.find_matching_jump_start(15), 14);
}

#[test]
fn a_scan_from_no_bracket_ends_where_it_starts() {
    let program = Program::from_string("+[-]");
    assert_eq!(program.find_matching_jump_end(0), 0);
    assert_eq!(program.find_matching_jump_end(2), 2);
    assert_eq!(program.find_matching_jump_start(0), 0);
    assert_eq!(program.find_matching_jump_start(2), 2);
}
