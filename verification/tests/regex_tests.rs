use vmregex::parser::ParseError;
use vmregex::{Regex, SyntaxError};

#[test]
fn literal_pattern_matches_itself() {
    // A pattern without metacharacters matches itself, and also matches
    // itself followed by anything: the engine accepts once the pattern is
    // consumed, whatever text remains.
    let re = Regex::new("abc").unwrap();
    assert!(re.is_match("abc").unwrap());
    assert!(re.is_match("abcd").unwrap());
    assert!(!re.is_match("ab").unwrap());
    assert!(!re.is_match("xbc").unwrap());
}

#[test]
fn alternation_round_trip() {
    let re = Regex::new("a|b|c").unwrap();
    assert!(re.is_match("a").unwrap());
    assert!(re.is_match("b").unwrap());
    assert!(re.is_match("c").unwrap());
    assert!(!re.is_match("d").unwrap());
}

#[test]
fn grouping() {
    let re = Regex::new("ab(cd|ef)").unwrap();
    assert!(re.is_match("abcd").unwrap());
    assert!(re.is_match("abef").unwrap());
    assert!(!re.is_match("abgh").unwrap());
}

#[test]
fn quantifiers() {
    let re = Regex::new("a*b").unwrap();
    assert!(!re.is_match("").unwrap());
    assert!(re.is_match("b").unwrap());
    assert!(re.is_match("ab").unwrap());
    assert!(re.is_match("aab").unwrap());
    assert!(!re.is_match("xb").unwrap());

    let re = Regex::new("a+b").unwrap();
    assert!(!re.is_match("b").unwrap());
    assert!(re.is_match("ab").unwrap());
    assert!(re.is_match("aaab").unwrap());

    let re = Regex::new("a?b").unwrap();
    assert!(re.is_match("b").unwrap());
    assert!(re.is_match("ab").unwrap());
    assert!(!re.is_match("aab").unwrap());
}

#[test]
fn wildcard_never_zero_width() {
    let re = Regex::new(".").unwrap();
    assert!(!re.is_match("").unwrap());
    assert!(re.is_match("a").unwrap());

    let re = Regex::new("a.b").unwrap();
    assert!(!re.is_match("ab").unwrap());
    assert!(re.is_match("axb").unwrap());
}

#[test]
fn escaping() {
    let re = Regex::new(r"\+").unwrap();
    assert!(re.is_match("+").unwrap());
    assert!(!re.is_match("a").unwrap());

    assert!(matches!(
        Regex::new(r"\a"),
        Err(SyntaxError::ParseError(ParseError::InvalidEscape('a')))
    ));
}

#[test]
fn parenthesis_balance() {
    assert!(matches!(
        Regex::new("(ab"),
        Err(SyntaxError::ParseError(ParseError::UnclosedParenthesis))
    ));
    assert!(matches!(
        Regex::new("ab)"),
        Err(SyntaxError::ParseError(ParseError::UnexpectedParenthesis))
    ));
    assert!(matches!(
        Regex::new("()"),
        Err(SyntaxError::ParseError(ParseError::Empty))
    ));
}

#[test]
fn repeated_calls_same_verdict() {
    // One compiled pattern gives the same verdict for the same text on
    // every call: there is no hidden state in the machine.
    let re = Regex::new("a*b|c.d").unwrap();
    for text in ["", "b", "aab", "cxd", "cd", "zzz"] {
        let first = re.is_match(text).unwrap();
        for _ in 0..3 {
            assert_eq!(re.is_match(text).unwrap(), first);
        }
    }
}

#[test]
fn nullable_repetition_terminates() {
    // A starred group that can match nothing must not send the search in
    // circles: a path that revisits a program counter without consuming
    // input is cut off, and the verdict still comes back.
    let re = Regex::new("(a?)*").unwrap();
    assert!(re.is_match("").unwrap());
    assert!(re.is_match("b").unwrap());
    assert!(re.is_match("aaa").unwrap());

    let re = Regex::new("(a*)*b").unwrap();
    assert!(re.is_match("b").unwrap());
    assert!(re.is_match("aab").unwrap());
    assert!(!re.is_match("c").unwrap());
}

#[test]
fn compound_pattern() {
    let re = Regex::new("Hel+o (Wo*rld|R.+st)!?").unwrap();
    assert!(re.is_match("Hello World!").unwrap());
    assert!(re.is_match("Helllllo Wrld").unwrap());
    assert!(re.is_match("Hello Rust").unwrap());
    assert!(re.is_match("Helllllo Rxxxxxxst").unwrap());
    assert!(!re.is_match("Heo World!").unwrap());
    assert!(!re.is_match("Hello Rst!").unwrap());
}
