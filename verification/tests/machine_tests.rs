use vmregex::codegen::{Instruction, Pc};
use vmregex::machine::{Machine, MatchError};

fn chars(s: &str) -> Vec<char> {
    s.chars().collect()
}

#[test]
fn machine_concat() {
    let machine = Machine::new(vec![
        Instruction::Char('a'),
        Instruction::Char('b'),
        Instruction::Char('c'),
        Instruction::Match,
    ]);
    assert!(machine.is_match(&chars("abc")).unwrap());
    assert!(!machine.is_match(&chars("")).unwrap());
}

#[test]
fn machine_or() {
    // ab(cd|ef|g)h
    let machine = Machine::new(vec![
        /*     : 0 */ Instruction::Char('a'),
        /*     : 1 */ Instruction::Char('b'),
        /*     : 2 */ Instruction::Split(Pc(3), Pc(6)), // L1, L2
        /* L1  : 3 */ Instruction::Char('c'),
        /*     : 4 */ Instruction::Char('d'),
        /*     : 5 */ Instruction::Jmp(Pc(11)), // L3
        /* L2  : 6 */ Instruction::Split(Pc(7), Pc(10)), // L4, L5
        /* L4  : 7 */ Instruction::Char('e'),
        /*     : 8 */ Instruction::Char('f'),
        /*     : 9 */ Instruction::Jmp(Pc(11)), // L6
        /* L5  :10 */ Instruction::Char('g'),
        /* L6,3:11 */ Instruction::Char('h'),
        /*     :12 */ Instruction::Match,
    ]);
    assert!(machine.is_match(&chars("abcdh")).unwrap());
    assert!(machine.is_match(&chars("abgh")).unwrap());
    assert!(!machine.is_match(&chars("abh")).unwrap());
    assert!(!machine.is_match(&chars("")).unwrap());
}

#[test]
fn machine_question() {
    // a?b
    let machine = Machine::new(vec![
        /*   :0 */ Instruction::Split(Pc(1), Pc(2)),
        /* L1:1 */ Instruction::Char('a'),
        /* L2:2 */ Instruction::Char('b'),
        /*   :3 */ Instruction::Match,
    ]);
    assert!(machine.is_match(&chars("b")).unwrap());
    assert!(machine.is_match(&chars("ab")).unwrap());
    assert!(!machine.is_match(&chars("aab")).unwrap());
    assert!(!machine.is_match(&chars("xc")).unwrap());
    assert!(!machine.is_match(&chars("")).unwrap());
}

#[test]
fn machine_star() {
    // a*b
    let machine = Machine::new(vec![
        /* L1:0 */ Instruction::Split(Pc(1), Pc(3)), // L2, L3
        /* L2:1 */ Instruction::Char('a'),
        /*   :2 */ Instruction::Jmp(Pc(0)), // L1
        /* L3:3 */ Instruction::Char('b'),
        /*   :4 */ Instruction::Match,
    ]);
    assert!(machine.is_match(&chars("b")).unwrap());
    assert!(machine.is_match(&chars("ab")).unwrap());
    assert!(machine.is_match(&chars("aab")).unwrap());
    assert!(!machine.is_match(&chars("xb")).unwrap());
    assert!(!machine.is_match(&chars("")).unwrap());
}

#[test]
fn machine_plus() {
    // a+b
    let machine = Machine::new(vec![
        /* L1:0 */ Instruction::Char('a'),
        /*   :1 */ Instruction::Split(Pc(0), Pc(2)), // L1, L2
        /* L2:2 */ Instruction::Char('b'),
        /*   :3 */ Instruction::Match,
    ]);
    assert!(machine.is_match(&chars("ab")).unwrap());
    assert!(machine.is_match(&chars("aab")).unwrap());
    assert!(machine.is_match(&chars("aaab")).unwrap());
    assert!(!machine.is_match(&chars("b")).unwrap());
    assert!(!machine.is_match(&chars("xb")).unwrap());
    assert!(!machine.is_match(&chars("")).unwrap());
}

#[test]
fn machine_dot() {
    // .
    let machine = Machine::new(vec![
        /*   :0 */ Instruction::AnyByte,
        /*   :1 */ Instruction::Match,
    ]);
    assert!(machine.is_match(&chars("a")).unwrap());
    assert!(machine.is_match(&chars("b")).unwrap());
    assert!(machine.is_match(&chars("abc")).unwrap());
    assert!(!machine.is_match(&chars("")).unwrap());

    // a.b
    let machine = Machine::new(vec![
        /*   :0 */ Instruction::Char('a'),
        /*   :1 */ Instruction::AnyByte,
        /*   :2 */ Instruction::Char('b'),
        /*   :3 */ Instruction::Match,
    ]);
    assert!(machine.is_match(&chars("axb")).unwrap());
    assert!(machine.is_match(&chars("ayb")).unwrap());
    assert!(!machine.is_match(&chars("ab")).unwrap());
    assert!(!machine.is_match(&chars("")).unwrap());
}

#[test]
fn malformed_program_aborts() {
    // A jump target outside the program is the machine's only way to fail:
    // it reports the missing instruction instead of a verdict.
    let machine = Machine::new(vec![Instruction::Jmp(Pc(5))]);
    assert_eq!(
        machine.is_match(&chars("a")),
        Err(MatchError::InstructionNotFound)
    );

    // An empty program has no instruction at the entry point either.
    let machine = Machine::new(vec![]);
    assert_eq!(
        machine.is_match(&chars("")),
        Err(MatchError::InstructionNotFound)
    );
}

#[test]
fn unconsumed_suffix_accepted() {
    // Match fires without requiring the whole text to have been consumed.
    let machine = Machine::new(vec![Instruction::Char('a'), Instruction::Match]);
    assert!(machine.is_match(&chars("a")).unwrap());
    assert!(machine.is_match(&chars("abcdef")).unwrap());
    assert!(!machine.is_match(&chars("x")).unwrap());
}
