use vmregex::parser::{parse, Ast, ParseError};

#[test]
fn concat_or() {
    // Concat operation
    let ast = Ast::Concat(vec![Ast::Char('a'), Ast::Char('b'), Ast::Char('c')]);
    assert_eq!(parse("abc").unwrap(), ast);

    // Or operation
    let ast = Ast::Or(
        Ast::Char('a').into(),
        Ast::Or(Ast::Char('b').into(), Ast::Char('c').into()).into(),
    );
    assert_eq!(parse("a|b|c").unwrap(), ast);

    let ast = Ast::Or(
        Ast::Concat(vec![Ast::Char('x'), Ast::Char('y'), Ast::Char('z')]).into(),
        Ast::Or(Ast::Char('b').into(), Ast::Char('c').into()).into(),
    );
    assert_eq!(parse("xyz|b|c").unwrap(), ast);

    // Error
    assert_eq!(parse("|b"), Err(ParseError::MissingOperand));
    assert_eq!(parse("a|"), Err(ParseError::MissingOperand));
    assert_eq!(parse("|"), Err(ParseError::MissingOperand));

    // Empty expression
    assert_eq!(parse(""), Err(ParseError::Empty));
}

#[test]
fn parenthesis() {
    let ast = Ast::Concat(vec![
        Ast::Char('a'),
        Ast::Char('b'),
        Ast::Or(
            Ast::Concat(vec![Ast::Char('c'), Ast::Char('d')]).into(),
            Ast::Concat(vec![Ast::Char('e'), Ast::Char('f')]).into(),
        ),
    ]);
    assert_eq!(parse("ab(cd|ef)").unwrap(), ast);

    // Error
    assert_eq!(parse("(ab"), Err(ParseError::UnclosedParenthesis));
    assert_eq!(parse("ab)"), Err(ParseError::UnexpectedParenthesis));
    assert_eq!(parse("("), Err(ParseError::UnclosedParenthesis));
    assert_eq!(parse(")"), Err(ParseError::UnexpectedParenthesis));

    // Empty expression
    assert_eq!(parse("()"), Err(ParseError::Empty));
}

#[test]
fn escape() {
    let ast = Ast::Char('+');
    assert_eq!(parse(r"\+").unwrap(), ast);

    let ast = Ast::Concat(vec![Ast::Char('*'), Ast::Char('b'), Ast::Char('?')]);
    assert_eq!(parse(r"\*b\?").unwrap(), ast);

    let ast = Ast::Concat(vec![Ast::Char('\\'), Ast::Char('\\'), Ast::Char('\\')]);
    assert_eq!(parse(r"\\\\\\").unwrap(), ast);

    // Error
    assert_eq!(parse(r"\a"), Err(ParseError::InvalidEscape('a')));
    assert_eq!(parse(r"a\bc"), Err(ParseError::InvalidEscape('b')));
}

#[test]
fn parser_question() {
    let ast = Ast::Question(Ast::Char('a').into());
    assert_eq!(parse("a?").unwrap(), ast);
    let ast = Ast::Concat(vec![Ast::Question(Ast::Char('a').into()), Ast::Char('b')]);
    assert_eq!(parse("a?b").unwrap(), ast);

    let ast = Ast::Concat(vec![
        Ast::Char('a'),
        Ast::Question(Ast::Concat(vec![Ast::Char('b'), Ast::Char('c')]).into()),
        Ast::Char('d'),
        Ast::Char('e'),
    ]);
    assert_eq!(parse("a(bc)?de").unwrap(), ast);

    // Error
    assert_eq!(parse("?"), Err(ParseError::MissingOperand));
    assert_eq!(parse("?abc"), Err(ParseError::MissingOperand));
}

#[test]
fn wildcard_node() {
    // An unescaped dot parses to the wildcard node, not to a literal.
    let ast = Ast::Concat(vec![Ast::Char('a'), Ast::Dot, Ast::Char('b')]);
    assert_eq!(parse("a.b").unwrap(), ast);
    assert_eq!(parse(".").unwrap(), Ast::Dot);
}

#[test]
fn dangling_escape() {
    // A pattern ending in a bare backslash has no operand for the escape.
    assert_eq!(parse("a\\"), Err(ParseError::MissingOperand));
    assert_eq!(parse("\\"), Err(ParseError::MissingOperand));
}

#[test]
fn empty_group_is_skipped() {
    // An empty group emits nothing and the outer level is restored.
    let ast = Ast::Concat(vec![Ast::Char('x'), Ast::Char('y')]);
    assert_eq!(parse("x()y").unwrap(), ast);
}
