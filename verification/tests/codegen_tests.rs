use vmregex::codegen::{generate_code, Instruction, Pc};
use vmregex::parser::Ast;

#[test]
fn codegen_concat() {
    let ast = Ast::Concat(vec![Ast::Char('a'), Ast::Char('b'), Ast::Char('c')]);
    assert_eq!(
        generate_code(ast).unwrap(),
        vec![
            Instruction::Char('a'),
            Instruction::Char('b'),
            Instruction::Char('c'),
            Instruction::Match,
        ]
    );
}

#[test]
fn codegen_or() {
    // a|b
    let ast = Ast::Or(Ast::Char('a').into(), Ast::Char('b').into());
    assert_eq!(
        generate_code(ast).unwrap(),
        vec![
            /*   :0 */ Instruction::Split(Pc(1), Pc(3)), // L1, L2
            /* L1:1 */ Instruction::Char('a'),
            /*   :2 */ Instruction::Jmp(Pc(4)), // L3
            /* L2:3 */ Instruction::Char('b'),
            /* L3:4 */ Instruction::Match,
        ]
    );

    // ab(cd|ef|g)h
    let ast = Ast::Concat(vec![
        Ast::Char('a'),
        Ast::Char('b'),
        Ast::Or(
            Ast::Concat(vec![Ast::Char('c'), Ast::Char('d')]).into(),
            Ast::Or(
                Ast::Concat(vec![Ast::Char('e'), Ast::Char('f')]).into(),
                Ast::Char('g').into(),
            )
            .into(),
        ),
        Ast::Char('h'),
    ]);
    assert_eq!(
        generate_code(ast).unwrap(),
        vec![
            /*     : 0 */ Instruction::Char('a'),
            /*     : 1 */ Instruction::Char('b'),
            /*     : 2 */ Instruction::Split(Pc(3), Pc(6)), // L1, L2
            /* L1  : 3 */ Instruction::Char('c'),
            /*     : 4 */ Instruction::Char('d'),
            /*     : 5 */ Instruction::Jmp(Pc(11)), // L3
            /* L2  : 6 */ Instruction::Split(Pc(7), Pc(10)), // L4, L5
            /* L4  : 7 */ Instruction::Char('e'),
            /*     : 8 */ Instruction::Char('f'),
            /*     : 9 */ Instruction::Jmp(Pc(11)), // L6
            /* L5  :10 */ Instruction::Char('g'),
            /* L6,3:11 */ Instruction::Char('h'),
            /*     :12 */ Instruction::Match,
        ]
    );
}

#[test]
fn codegen_question() {
    // a?b
    let ast = Ast::Concat(vec![Ast::Question(Ast::Char('a').into()), Ast::Char('b')]);
    assert_eq!(
        generate_code(ast).unwrap(),
        vec![
            /*   :0 */ Instruction::Split(Pc(1), Pc(2)),
            /* L1:1 */ Instruction::Char('a'),
            /* L2:2 */ Instruction::Char('b'),
            /*   :3 */ Instruction::Match,
        ]
    );
}

#[test]
fn codegen_star() {
    // a*b
    let ast = Ast::Concat(vec![Ast::Star(Ast::Char('a').into()), Ast::Char('b')]);
    assert_eq!(
        generate_code(ast).unwrap(),
        vec![
            /* L1:0 */ Instruction::Split(Pc(1), Pc(3)), // L2, L3
            /* L2:1 */ Instruction::Char('a'),
            /*   :2 */ Instruction::Jmp(Pc(0)), // L1
            /* L3:3 */ Instruction::Char('b'),
            /*   :4 */ Instruction::Match,
        ]
    );
}

#[test]
fn codegen_plus() {
    // a+b
    let ast = Ast::Concat(vec![Ast::Plus(Ast::Char('a').into()), Ast::Char('b')]);
    assert_eq!(
        generate_code(ast).unwrap(),
        vec![
            /* L1:0 */ Instruction::Char('a'),
            /*   :1 */ Instruction::Split(Pc(0), Pc(2)), // L1, L2
            /* L2:2 */ Instruction::Char('b'),
            /*   :3 */ Instruction::Match,
        ]
    );
}

#[test]
fn codegen_dot() {
    // .
    let ast = Ast::Dot;
    assert_eq!(
        generate_code(ast).unwrap(),
        vec![Instruction::AnyByte, Instruction::Match]
    );

    // a.b
    let ast = Ast::Concat(vec![Ast::Char('a'), Ast::Dot, Ast::Char('b')]);
    assert_eq!(
        generate_code(ast).unwrap(),
        vec![
            Instruction::Char('a'),
            Instruction::AnyByte,
            Instruction::Char('b'),
            Instruction::Match,
        ]
    );
}
