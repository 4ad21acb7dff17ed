//! A small regular-expression engine.
//!
//! A pattern is parsed into an abstract syntax tree ([`parser`]), lowered to
//! a flat instruction sequence with resolved jump targets ([`codegen`]), and
//! run against texts by a backtracking virtual machine ([`machine`]).
//!
//! The engine tests whether the program accepts some prefix of the text: the
//! `Match` instruction fires without requiring the whole text to have been
//! consumed. A caller that wants whole-string matching must make the pattern
//! consume to the end.

use vstd::prelude::*;

pub mod codegen;
pub mod machine;
pub mod parser;

use codegen::{code_len, code_of, GenerateCodeError, InstructionView};
use machine::{outcome_of, prog_wf, search, Machine, MatchError, MatchOutcome};
use parser::{is_metacharacter, parse_result, AstView, ParseError};

verus! {

/// A compiled regular expression: the instruction sequence, ready to be run
/// against any number of texts.
pub struct Regex {
    machine: Machine,
}

impl View for Regex {
    type V = Seq<InstructionView>;

    closed spec fn view(&self) -> Seq<InstructionView> {
        self.machine@
    }
}

/// Everything that can go wrong while compiling a pattern, with the
/// originating cause kept.
#[derive(Debug, PartialEq, Eq)]
pub enum SyntaxError {
    ParseError(ParseError),
    GenerateCodeError(GenerateCodeError),
}

/// The program a pattern compiles to: its code from index zero, then the
/// final `Match`.
pub open spec fn program_of(ast: AstView) -> Seq<InstructionView> {
    code_of(ast, 0).push(InstructionView::Match)
}

/// A generated program is well formed: no consuming instruction stands
/// last, and every jump target lies inside the sequence. Matching against
/// it can therefore never abort.
pub proof fn lemma_generated_wf(ast: AstView)
    ensures
        prog_wf(program_of(ast)),
        program_of(ast).len() == code_len(ast) + 1,
{
    let body = code_of(ast, 0);
    let prog = program_of(ast);
    codegen::lemma_code_of_len(ast, 0);
    codegen::lemma_code_of_targets(ast, 0);
    assert forall|i: int| 0 <= i < prog.len() implies match #[trigger] prog[i] {
        InstructionView::Char(_) => i + 1 < prog.len(),
        InstructionView::AnyByte => i + 1 < prog.len(),
        InstructionView::Match => true,
        InstructionView::Jmp(t) => t < prog.len(),
        InstructionView::Split(a, b) => a < prog.len() && b < prog.len(),
    } by {
        if i < body.len() {
            assert(prog[i] == body[i]);
        } else {
            assert(prog[i] == InstructionView::Match);
        }
    }
}

/// A pattern without metacharacters compiles, and its program accepts every
/// text that begins with the pattern itself: the pattern matches itself, and
/// it matches itself followed by anything, since the engine does not require
/// the whole text to be consumed.
pub proof fn lemma_literal_pattern_accepts_prefix(p: Seq<char>, t: Seq<char>)
    requires
        1 <= p.len(),
        p.len() + 1 <= usize::MAX,
        forall|i: int| 0 <= i < p.len() ==> !is_metacharacter(#[trigger] p[i]),
        p.len() <= t.len(),
        forall|i: int| 0 <= i < p.len() ==> t[i] == #[trigger] p[i],
    ensures
        parse_result(p) is Ok,
        code_len(parse_result(p)->Ok_0) + 1 <= usize::MAX,
        search(
            program_of(parse_result(p)->Ok_0),
            t,
            0,
            0,
            program_of(parse_result(p)->Ok_0).len(),
        ) == MatchOutcome::Matched,
{
    parser::lemma_parse_literal(p);
    let ast = parse_result(p)->Ok_0;
    let body = code_of(ast, 0);
    let prog = program_of(ast);
    codegen::lemma_code_of_len(ast, 0);
    if p.len() == 1 {
        codegen::lemma_code_of_char_node(p[0], 0);
        assert(body == code_of(AstView::Char(p[0]), 0));
        assert(body[0] == InstructionView::Char(p[0]));
        assert(code_len(ast) == 1);
    } else {
        let children = ast->Concat_0;
        codegen::lemma_code_of_unfold(ast, 0);
        codegen::lemma_code_of_literal_seq(children, p, 0);
        assert(body == codegen::code_of_seq(children, 0));
    }
    assert(code_len(ast) == p.len());
    assert forall|k: int| 0 <= k < p.len() implies prog[0 + k] == InstructionView::Char(
        #[trigger] t[0 + k],
    ) by {
        assert(prog[k] == body[k]);
        assert(body[k] == InstructionView::Char(p[k]));
        assert(t[k] == p[k]);
    }
    assert(prog[p.len() as int] == InstructionView::Match);
    machine::lemma_straight_line_match(prog, t, 0, 0, p.len(), prog.len());
}

impl Regex {
    /// Compile a pattern: parse it and lower the tree to instructions.
    /// No partial program is ever returned: each compile-time error is
    /// surfaced as is, a parse error or a counter overflow.
    pub fn new(pattern: &str) -> (r: Result<Self, SyntaxError>)
        ensures
            match r {
                Ok(re) => {
                    &&& parse_result(pattern@) is Ok
                    &&& code_len(parse_result(pattern@)->Ok_0) + 1 <= usize::MAX
                    &&& re@ == program_of(parse_result(pattern@)->Ok_0)
                    &&& prog_wf(re@)
                    &&& re@.len() >= 1
                },
                Err(SyntaxError::ParseError(e)) => parse_result(pattern@) == Err::<
                    AstView,
                    ParseError,
                >(e),
                Err(SyntaxError::GenerateCodeError(e)) => {
                    &&& e == GenerateCodeError::PcOverflow
                    &&& parse_result(pattern@) is Ok
                    &&& code_len(parse_result(pattern@)->Ok_0) + 1 > usize::MAX
                },
            },
    {
        let ast = match parser::parse(pattern) {
            Ok(ast) => ast,
            Err(e) => {
                return Err(SyntaxError::ParseError(e));
            },
        };
        let ghost ast_model = ast@;
        let instructions = match codegen::generate_code(ast) {
            Ok(instructions) => instructions,
            Err(e) => {
                return Err(SyntaxError::GenerateCodeError(e));
            },
        };
        let machine = Machine::new(instructions);
        proof {
            lemma_generated_wf(ast_model);
        }
        Ok(Regex { machine })
    }

    /// Test the text against the compiled pattern: the verdict of the
    /// leftmost-first backtracking search [`search`] from the first
    /// instruction and the first character. A compiled program is well
    /// formed, so the result is never an error.
    pub fn is_match(&self, text: &str) -> (r: Result<bool, MatchError>)
        ensures
            outcome_of(r) == search(self@, text@, 0, 0, self@.len()),
            prog_wf(self@) && self@.len() >= 1 ==> !(r is Err),
    {
        let chars = parser::chars_of(text);
        self.machine.is_match(chars.as_slice())
    }
}

} // verus!
