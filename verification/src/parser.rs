//! Parsing of pattern text into an abstract syntax tree.

use vstd::prelude::*;

verus! {

/// Abstract syntax tree of a pattern.
///
/// Alternation is always binary: `a|b|c` parses to the right-leaning chain
/// `Or(a, Or(b, c))`. A concatenation node is only introduced when two or
/// more siblings stand at one grouping level; a single sibling is hoisted.
#[derive(Debug, PartialEq, Eq)]
pub enum Ast {
    Char(char),
    Concat(Vec<Ast>),
    Or(Box<Ast>, Box<Ast>),
    Question(Box<Ast>),
    Star(Box<Ast>),
    Plus(Box<Ast>),
    Dot,
}

/// Mathematical model of an [`Ast`], with `Seq` in place of `Vec`.
pub enum AstView {
    Char(char),
    Concat(Seq<AstView>),
    Or(Box<AstView>, Box<AstView>),
    Question(Box<AstView>),
    Star(Box<AstView>),
    Plus(Box<AstView>),
    Dot,
}

/// The model of an [`Ast`]: the same tree with `Seq` children.
pub open spec fn ast_view(a: Ast) -> AstView
    decreases a,
{
    match a {
        Ast::Char(c) => AstView::Char(c),
        Ast::Concat(children) => {
            proof {
                assert(decreases_to!(a => a->Concat_0));
                assert(decreases_to!(a->Concat_0 => a->Concat_0@));
            }
            AstView::Concat(asts_view(children@))
        },
        Ast::Or(lhs, rhs) => AstView::Or(Box::new(ast_view(*lhs)), Box::new(ast_view(*rhs))),
        Ast::Question(e) => AstView::Question(Box::new(ast_view(*e))),
        Ast::Star(e) => AstView::Star(Box::new(ast_view(*e))),
        Ast::Plus(e) => AstView::Plus(Box::new(ast_view(*e))),
        Ast::Dot => AstView::Dot,
    }
}

/// The models of a sequence of `Ast` nodes, in order.
pub open spec fn asts_view(s: Seq<Ast>) -> Seq<AstView>
    decreases s,
{
    if s.len() == 0 {
        Seq::empty()
    } else {
        proof {
            assert(decreases_to!(s => s[0]));
        }
        seq![ast_view(s[0])] + asts_view(s.subrange(1, s.len() as int))
    }
}

impl View for Ast {
    type V = AstView;

    open spec fn view(&self) -> AstView {
        ast_view(*self)
    }
}

/// Everything that can go wrong while parsing a pattern.
#[derive(Debug, PartialEq, Eq)]
pub enum ParseError {
    /// A `|` or a quantifier with no operand, or a trailing `|` or `\`.
    MissingOperand,
    /// A `(` that is never closed.
    UnclosedParenthesis,
    /// A `)` with no open group.
    UnexpectedParenthesis,
    /// A `\` followed by a character that may not be escaped.
    InvalidEscape(char),
    /// A pattern with no content at all, `""` or `"()"`.
    Empty,
}

/// The characters that may stand after a `\`.
pub open spec fn is_escapable(c: char) -> bool {
    c == '*' || c == '+' || c == '\\' || c == '?' || c == '(' || c == ')' || c == '|'
}

/// The characters with special meaning when they are not escaped.
pub open spec fn is_metacharacter(c: char) -> bool {
    is_escapable(c) || c == '.'
}

/// The parser's working state: the completed sub-expressions at the current
/// grouping level (`concat`), the completed alternatives at that level
/// (`alts`), one saved `(concat, alts)` pair per open group (`stack`), and
/// whether a `\` is waiting for its operand (`escaping`).
#[verifier::ext_equal]
pub struct ParseCtx {
    pub concat: Seq<AstView>,
    pub alts: Seq<AstView>,
    pub stack: Seq<(Seq<AstView>, Seq<AstView>)>,
    pub escaping: bool,
}

pub open spec fn init_ctx() -> ParseCtx {
    ParseCtx {
        concat: Seq::empty(),
        alts: Seq::empty(),
        stack: Seq::empty(),
        escaping: false,
    }
}

/// A completed grouping level as one node: a single sibling is hoisted,
/// two or more become a concatenation node.
pub open spec fn collapse(concat: Seq<AstView>) -> AstView
    recommends
        concat.len() >= 1,
{
    if concat.len() == 1 {
        concat[0]
    } else {
        AstView::Concat(concat)
    }
}

/// Alternatives folded into a right-leaning chain: `a|b|c` becomes
/// `Or(a, Or(b, c))`.
pub open spec fn or_fold(alts: Seq<AstView>) -> AstView
    recommends
        alts.len() >= 1,
    decreases alts.len(),
{
    if alts.len() <= 1 {
        alts[0]
    } else {
        AstView::Or(Box::new(alts[0]), Box::new(or_fold(alts.subrange(1, alts.len() as int))))
    }
}

/// One character of pattern text applied to the parser state.
pub open spec fn parse_step(ctx: ParseCtx, c: char) -> Result<ParseCtx, ParseError> {
    if ctx.escaping {
        if is_escapable(c) {
            Ok(ParseCtx { concat: ctx.concat.push(AstView::Char(c)), escaping: false, ..ctx })
        } else {
            Err(ParseError::InvalidEscape(c))
        }
    } else if c == '|' {
        if ctx.concat.len() == 0 {
            Err(ParseError::MissingOperand)
        } else {
            Ok(ParseCtx {
                concat: Seq::empty(),
                alts: ctx.alts.push(collapse(ctx.concat)),
                ..ctx
            })
        }
    } else if c == '?' || c == '*' || c == '+' {
        if ctx.concat.len() == 0 {
            Err(ParseError::MissingOperand)
        } else {
            let wrapped = if c == '?' {
                AstView::Question(Box::new(ctx.concat.last()))
            } else if c == '*' {
                AstView::Star(Box::new(ctx.concat.last()))
            } else {
                AstView::Plus(Box::new(ctx.concat.last()))
            };
            Ok(ParseCtx { concat: ctx.concat.drop_last().push(wrapped), ..ctx })
        }
    } else if c == '(' {
        Ok(ParseCtx {
            concat: Seq::empty(),
            alts: Seq::empty(),
            stack: ctx.stack.push((ctx.concat, ctx.alts)),
            ..ctx
        })
    } else if c == ')' {
        if ctx.stack.len() == 0 {
            Err(ParseError::UnexpectedParenthesis)
        } else if ctx.concat.len() == 0 {
            // The group turned out empty: restore the outer level unchanged.
            Ok(ParseCtx {
                concat: ctx.stack.last().0,
                alts: ctx.stack.last().1,
                stack: ctx.stack.drop_last(),
                ..ctx
            })
        } else {
            Ok(ParseCtx {
                concat: ctx.stack.last().0.push(or_fold(ctx.alts.push(collapse(ctx.concat)))),
                alts: ctx.stack.last().1,
                stack: ctx.stack.drop_last(),
                ..ctx
            })
        }
    } else if c == '\\' {
        Ok(ParseCtx { escaping: true, ..ctx })
    } else if c == '.' {
        Ok(ParseCtx { concat: ctx.concat.push(AstView::Dot), ..ctx })
    } else {
        Ok(ParseCtx { concat: ctx.concat.push(AstView::Char(c)), ..ctx })
    }
}

/// The parser state after the first `n` characters of `p`, or the first
/// error raised along the way.
pub open spec fn state_after(p: Seq<char>, n: int) -> Result<ParseCtx, ParseError>
    decreases n,
{
    if n <= 0 {
        Ok(init_ctx())
    } else {
        match state_after(p, n - 1) {
            Ok(ctx) => parse_step(ctx, p[n - 1]),
            Err(e) => Err(e),
        }
    }
}

/// End-of-input: open groups, a dangling `\`, and a trailing `|` are
/// rejected; otherwise the final level folds into the one root node.
pub open spec fn finalize(ctx: ParseCtx) -> Result<AstView, ParseError> {
    if ctx.stack.len() > 0 {
        Err(ParseError::UnclosedParenthesis)
    } else if ctx.escaping {
        Err(ParseError::MissingOperand)
    } else if ctx.concat.len() == 0 {
        if ctx.alts.len() > 0 {
            Err(ParseError::MissingOperand)
        } else {
            Err(ParseError::Empty)
        }
    } else {
        Ok(or_fold(ctx.alts.push(collapse(ctx.concat))))
    }
}

/// What parsing a whole pattern yields.
pub open spec fn parse_result(p: Seq<char>) -> Result<AstView, ParseError> {
    match state_after(p, p.len() as int) {
        Ok(ctx) => finalize(ctx),
        Err(e) => Err(e),
    }
}

/// `asts_view` maps its sequence element by element.
pub proof fn lemma_asts_view(s: Seq<Ast>)
    ensures
        asts_view(s).len() == s.len(),
        forall|i: int| 0 <= i < s.len() ==> asts_view(s)[i] == ast_view(s[i]),
    decreases s.len(),
{
    if s.len() > 0 {
        let rest = s.subrange(1, s.len() as int);
        lemma_asts_view(rest);
        assert forall|i: int| 0 <= i < s.len() implies asts_view(s)[i] == ast_view(s[i]) by {
            if i > 0 {
                assert(asts_view(s)[i] == asts_view(rest)[i - 1]);
                assert(rest[i - 1] == s[i]);
            }
        }
    }
}

pub proof fn lemma_asts_view_push(s: Seq<Ast>, a: Ast)
    ensures
        asts_view(s.push(a)) == asts_view(s).push(ast_view(a)),
{
    lemma_asts_view(s);
    lemma_asts_view(s.push(a));
    assert(asts_view(s.push(a)) =~= asts_view(s).push(ast_view(a)));
}

/// `ast_view`, written out per constructor: the definition, available also
/// where it does not unfold on its own (for one, on a character that comes
/// out of a vector).
pub proof fn lemma_ast_view_unfold(a: Ast)
    ensures
        match a {
            Ast::Char(c) => ast_view(a) == AstView::Char(c),
            Ast::Concat(children) => ast_view(a) == AstView::Concat(asts_view(children@)),
            Ast::Or(lhs, rhs) => ast_view(a) == AstView::Or(
                Box::new(ast_view(*lhs)),
                Box::new(ast_view(*rhs)),
            ),
            Ast::Question(e) => ast_view(a) == AstView::Question(Box::new(ast_view(*e))),
            Ast::Star(e) => ast_view(a) == AstView::Star(Box::new(ast_view(*e))),
            Ast::Plus(e) => ast_view(a) == AstView::Plus(Box::new(ast_view(*e))),
            Ast::Dot => ast_view(a) == AstView::Dot,
        },
{
}

/// A sequence of nodes that spells out `p`: one literal node per character.
#[verifier::inline]
pub open spec fn is_literal_seq(s: Seq<AstView>, p: Seq<char>) -> bool {
    s.len() == p.len() && forall|i: int| 0 <= i < p.len() ==> s[i] == AstView::Char(#[trigger] p[i])
}

/// One ordinary character appended to the concatenation buffer: the step
/// that a character without special meaning always takes.
proof fn lemma_literal_step(ctx: ParseCtx, c: char)
    requires
        !ctx.escaping,
        !is_metacharacter(c),
    ensures
        parse_step(ctx, c) is Ok,
        parse_step(ctx, c)->Ok_0.alts == ctx.alts,
        parse_step(ctx, c)->Ok_0.stack == ctx.stack,
        !parse_step(ctx, c)->Ok_0.escaping,
        parse_step(ctx, c)->Ok_0.concat.len() == ctx.concat.len() + 1,
        parse_step(ctx, c)->Ok_0.concat[ctx.concat.len() as int] == AstView::Char(c),
        forall|i: int|
            0 <= i < ctx.concat.len() ==> parse_step(ctx, c)->Ok_0.concat[i] == #[trigger] ctx.concat[i],
{
}

proof fn lemma_state_after_literal(p: Seq<char>, n: int)
    requires
        0 <= n <= p.len(),
        forall|i: int| 0 <= i < p.len() ==> !is_metacharacter(#[trigger] p[i]),
    ensures
        state_after(p, n) is Ok,
        state_after(p, n)->Ok_0.alts == Seq::<AstView>::empty(),
        state_after(p, n)->Ok_0.stack == Seq::<(Seq<AstView>, Seq<AstView>)>::empty(),
        !state_after(p, n)->Ok_0.escaping,
        is_literal_seq(state_after(p, n)->Ok_0.concat, p.take(n)),
    decreases n,
{
    if n == 0 {
        assert(state_after(p, 0) == Ok::<ParseCtx, ParseError>(init_ctx()));
        assert(p.take(0) =~= Seq::<char>::empty());
    } else {
        lemma_state_after_literal(p, n - 1);
        let ctx = state_after(p, n - 1)->Ok_0;
        let c = p[n - 1];
        assert(!is_metacharacter(c));
        assert(state_after(p, n) == parse_step(ctx, c));
        lemma_literal_step(ctx, c);
        let nc = state_after(p, n)->Ok_0.concat;
        assert(ctx.concat.len() == n - 1);
        assert(nc.len() == n);
        assert forall|i: int| 0 <= i < n implies nc[i] == AstView::Char(
            #[trigger] p.take(n)[i],
        ) by {
            assert(p.take(n)[i] == p[i]);
            if i < n - 1 {
                assert(nc[i] == ctx.concat[i]);
                assert(ctx.concat[i] == AstView::Char(p.take(n - 1)[i]));
                assert(p.take(n - 1)[i] == p[i]);
            } else {
                assert(nc[n - 1] == AstView::Char(c));
            }
        }
    }
}

/// A pattern without metacharacters parses to the plain sequence of its
/// characters: a single literal node, or their concatenation.
pub proof fn lemma_parse_literal(p: Seq<char>)
    requires
        p.len() >= 1,
        forall|i: int| 0 <= i < p.len() ==> !is_metacharacter(#[trigger] p[i]),
    ensures
        parse_result(p) is Ok,
        p.len() == 1 ==> parse_result(p)->Ok_0 == AstView::Char(p[0]),
        p.len() >= 2 ==> parse_result(p)->Ok_0 is Concat && is_literal_seq(
            parse_result(p)->Ok_0->Concat_0,
            p,
        ),
{
    lemma_state_after_literal(p, p.len() as int);
    let ctx = state_after(p, p.len() as int)->Ok_0;
    assert(p.take(p.len() as int) =~= p);
    let folded = collapse(ctx.concat);
    let alts = Seq::<AstView>::empty().push(folded);
    assert(alts.len() == 1);
    assert(or_fold(alts) == alts[0]);
    assert(parse_result(p) == Ok::<AstView, ParseError>(folded));
    if p.len() == 1 {
        assert(ctx.concat[0] == AstView::Char(p[0]));
    }
}

/// Scanning is left to right: the state after `n` characters depends on
/// those `n` characters alone.
pub proof fn lemma_state_after_prefix(p1: Seq<char>, p2: Seq<char>, n: int)
    requires
        0 <= n <= p1.len(),
        n <= p2.len(),
        forall|i: int| 0 <= i < n ==> p1[i] == #[trigger] p2[i],
    ensures
        state_after(p1, n) == state_after(p2, n),
    decreases n,
{
    if n > 0 {
        lemma_state_after_prefix(p1, p2, n - 1);
    }
}

/// An escape whose operand may not be escaped is rejected with exactly that
/// character, wherever in the pattern the escape stands: after any prefix
/// the parser accepts with no escape of its own pending, and before any
/// continuation at all.
pub proof fn lemma_invalid_escape_rejected(u: Seq<char>, c: char, rest: Seq<char>)
    requires
        !is_escapable(c),
        state_after(u, u.len() as int) is Ok,
        !state_after(u, u.len() as int)->Ok_0.escaping,
    ensures
        parse_result(u + seq!['\\', c] + rest) == Err::<AstView, ParseError>(
            ParseError::InvalidEscape(c),
        ),
{
    let p = u + seq!['\\', c] + rest;
    let n = u.len() as int;
    assert(p.len() == n + 2 + rest.len());
    assert forall|i: int| 0 <= i < n implies u[i] == #[trigger] p[i] by {
        assert(p[i] == (u + seq!['\\', c])[i]);
    }
    lemma_state_after_prefix(u, p, n);
    let ctx = state_after(p, n)->Ok_0;
    assert(p[n] == (u + seq!['\\', c])[n]);
    assert(p[n] == '\\');
    assert(state_after(p, n + 1) == parse_step(ctx, p[n]));
    assert(state_after(p, n + 1) == Ok::<ParseCtx, ParseError>(
        ParseCtx { escaping: true, ..ctx },
    ));
    assert(p[n + 1] == (u + seq!['\\', c])[n + 1]);
    assert(p[n + 1] == c);
    assert(state_after(p, n + 2) == parse_step(ParseCtx { escaping: true, ..ctx }, c));
    assert(state_after(p, n + 2) == Err::<ParseCtx, ParseError>(ParseError::InvalidEscape(c)));
    lemma_state_after_err(p, n + 2, p.len() as int);
}

/// An error once raised stays: the parser never recovers.
pub proof fn lemma_state_after_err(p: Seq<char>, n: int, m: int)
    requires
        0 <= n <= m,
        state_after(p, n) is Err,
    ensures
        state_after(p, m) == state_after(p, n),
    decreases m - n,
{
    if m > n {
        lemma_state_after_err(p, n, m - 1);
    }
}

/// Collapse `concat` into a single node and append it to `concat_or` as one
/// finished alternative.
fn append_concat(concat: Vec<Ast>, concat_or: &mut Vec<Ast>)
    requires
        concat@.len() >= 1,
    ensures
        asts_view(final(concat_or)@) == asts_view(old(concat_or)@).push(
            collapse(asts_view(concat@)),
        ),
        final(concat_or)@.len() == old(concat_or)@.len() + 1,
{
    let mut concat = concat;
    proof {
        lemma_asts_view(concat@);
        lemma_asts_view(old(concat_or)@);
    }
    if concat.len() == 1 {
        match concat.pop() {
            Some(c) => {
                proof {
                    lemma_asts_view_push(concat_or@, c);
                }
                concat_or.push(c);
            },
            None => {
                proof {
                    assert(false);
                }
            },
        }
    } else {
        proof {
            lemma_asts_view_push(concat_or@, Ast::Concat(concat));
        }
        concat_or.push(Ast::Concat(concat));
    }
    proof {
        lemma_asts_view(concat_or@);
    }
}

/// Fold the finished alternatives into one right-leaning `Or` chain, the
/// first alternative tried first; `None` when there are no alternatives.
fn or_ast(concat_or: Vec<Ast>) -> (r: Option<Ast>)
    ensures
        match r {
            Option::None => concat_or@.len() == 0,
            Option::Some(ast) => concat_or@.len() >= 1 && ast@ == or_fold(asts_view(concat_or@)),
        },
{
    let ghost orig = concat_or@;
    let ghost n = orig.len() as int;
    let mut rest = concat_or;
    proof {
        lemma_asts_view(orig);
    }
    match rest.pop() {
        None => None,
        Some(first) => {
            let mut ast = first;
            proof {
                assert(asts_view(orig).subrange(n - 1, n) =~= seq![ast_view(orig[n - 1])]);
            }
            while rest.len() > 0
                invariant
                    rest@ == orig.subrange(0, rest@.len() as int),
                    rest@.len() < n,
                    n == orig.len(),
                    ast_view(ast) == or_fold(asts_view(orig).subrange(rest@.len() as int, n)),
                decreases rest@.len(),
            {
                let ghost k = rest@.len() as int;
                match rest.pop() {
                    Some(operand) => {
                        proof {
                            lemma_asts_view(orig);
                            assert(operand == orig[k - 1]);
                            let tail = asts_view(orig).subrange(k, n);
                            let whole = asts_view(orig).subrange(k - 1, n);
                            assert(whole[0] == ast_view(orig[k - 1]));
                            assert(whole.subrange(1, whole.len() as int) =~= tail);
                            assert(rest@ =~= orig.subrange(0, k - 1));
                        }
                        ast = Ast::Or(Box::new(operand), Box::new(ast));
                    },
                    None => {
                        proof {
                            assert(false);
                        }
                    },
                }
            }
            proof {
                assert(asts_view(orig).subrange(0, n) =~= asts_view(orig));
            }
            Some(ast)
        },
    }
}

/// The models of the saved grouping levels, in order.
pub open spec fn levels_view(s: Seq<(Vec<Ast>, Vec<Ast>)>) -> Seq<(Seq<AstView>, Seq<AstView>)> {
    Seq::new(s.len(), |i: int| (asts_view(s[i].0@), asts_view(s[i].1@)))
}

/// The characters of a pattern or text, in order.
pub(crate) fn chars_of(s: &str) -> (r: Vec<char>)
    ensures
        r@ == s@,
{
    let n = s.unicode_len();
    let mut v: Vec<char> = Vec::new();
    let mut i: usize = 0;
    while i < n
        invariant
            i <= n,
            n as nat == s@.len(),
            v@ == s@.subrange(0, i as int),
        decreases n - i,
    {
        v.push(s.get_char(i));
        i = i + 1;
        proof {
            assert(v@ =~= s@.subrange(0, i as int));
        }
    }
    proof {
        assert(v@ =~= s@);
    }
    v
}

/// Parse a pattern into an abstract syntax tree.
///
/// The result is exactly what [`parse_result`] says: the pattern is scanned
/// left to right, each character applied by [`parse_step`], and the end of
/// input settled by [`finalize`]. A pattern ending in a bare `\` is rejected
/// with [`ParseError::MissingOperand`], since the escape has no operand.
pub fn parse(pattern: &str) -> (r: Result<Ast, ParseError>)
    ensures
        match r {
            Ok(ast) => parse_result(pattern@) == Ok::<AstView, ParseError>(ast@),
            Err(e) => parse_result(pattern@) == Err::<AstView, ParseError>(e),
        },
{
    let ghost p = pattern@;
    let chars = chars_of(pattern);
    let mut concat: Vec<Ast> = Vec::new();
    let mut concat_or: Vec<Ast> = Vec::new();
    let mut stack: Vec<(Vec<Ast>, Vec<Ast>)> = Vec::new();
    let mut escaping = false;
    let mut i: usize = 0;
    proof {
        assert(levels_view(stack@) =~= Seq::<(Seq<AstView>, Seq<AstView>)>::empty());
    }
    while i < chars.len()
        invariant
            i <= chars@.len(),
            chars@ == p,
            p == pattern@,
            state_after(p, i as int) == Ok::<ParseCtx, ParseError>(
                ParseCtx {
                    concat: asts_view(concat@),
                    alts: asts_view(concat_or@),
                    stack: levels_view(stack@),
                    escaping: escaping,
                },
            ),
        decreases chars@.len() - i,
    {
        let ghost ctx = ParseCtx {
            concat: asts_view(concat@),
            alts: asts_view(concat_or@),
            stack: levels_view(stack@),
            escaping: escaping,
        };
        let c = chars[i];
        proof {
            assert(state_after(p, i + 1) == parse_step(ctx, p[i as int]));
            lemma_asts_view(concat@);
            lemma_asts_view(concat_or@);
        }
        if escaping {
            if matches!(c, '*' | '+' | '\\' | '?' | '(' | ')' | '|') {
                proof {
                    lemma_asts_view_push(concat@, Ast::Char(c));
                }
                concat.push(Ast::Char(c));
                escaping = false;
            } else {
                proof {
                    lemma_state_after_err(p, i + 1, p.len() as int);
                }
                return Err(ParseError::InvalidEscape(c));
            }
        } else if c == '|' {
            if concat.is_empty() {
                proof {
                    lemma_state_after_err(p, i + 1, p.len() as int);
                }
                return Err(ParseError::MissingOperand);
            }
            append_concat(concat, &mut concat_or);
            concat = Vec::new();
            proof {
                assert(asts_view(concat@) =~= Seq::<AstView>::empty());
            }
        } else if c == '?' || c == '*' || c == '+' {
            match concat.pop() {
                Some(prev) => {
                    let wrapped = if c == '?' {
                        Ast::Question(Box::new(prev))
                    } else if c == '*' {
                        Ast::Star(Box::new(prev))
                    } else {
                        Ast::Plus(Box::new(prev))
                    };
                    proof {
                        lemma_asts_view(concat@);
                        assert(asts_view(concat@) =~= ctx.concat.drop_last());
                        lemma_asts_view_push(concat@, wrapped);
                    }
                    concat.push(wrapped);
                },
                None => {
                    proof {
                        lemma_state_after_err(p, i + 1, p.len() as int);
                    }
                    return Err(ParseError::MissingOperand);
                },
            }
        } else if c == '(' {
            stack.push((concat, concat_or));
            concat = Vec::new();
            concat_or = Vec::new();
            proof {
                assert(asts_view(concat@) =~= Seq::<AstView>::empty());
                assert(asts_view(concat_or@) =~= Seq::<AstView>::empty());
                assert(levels_view(stack@) =~= ctx.stack.push((ctx.concat, ctx.alts)));
            }
        } else if c == ')' {
            match stack.pop() {
                Some((prev_concat, prev_concat_or)) => {
                    proof {
                        assert(levels_view(stack@) =~= ctx.stack.drop_last());
                        assert((asts_view(prev_concat@), asts_view(prev_concat_or@))
                            == ctx.stack.last());
                    }
                    if concat.is_empty() {
                        // An empty group emits nothing: restore the outer level.
                        concat = prev_concat;
                        concat_or = prev_concat_or;
                    } else {
                        append_concat(concat, &mut concat_or);
                        let folded = or_ast(concat_or);
                        concat = prev_concat;
                        concat_or = prev_concat_or;
                        match folded {
                            Some(inner) => {
                                proof {
                                    lemma_asts_view_push(concat@, inner);
                                }
                                concat.push(inner);
                            },
                            None => {
                                proof {
                                    assert(false);
                                }
                            },
                        }
                    }
                },
                None => {
                    proof {
                        lemma_state_after_err(p, i + 1, p.len() as int);
                    }
                    return Err(ParseError::UnexpectedParenthesis);
                },
            }
        } else if c == '\\' {
            escaping = true;
        } else if c == '.' {
            proof {
                lemma_asts_view_push(concat@, Ast::Dot);
            }
            concat.push(Ast::Dot);
        } else {
            proof {
                lemma_ast_view_unfold(Ast::Char(c));
                lemma_asts_view_push(concat@, Ast::Char(c));
            }
            concat.push(Ast::Char(c));
        }
        i = i + 1;
    }

    let ghost ctx = ParseCtx {
        concat: asts_view(concat@),
        alts: asts_view(concat_or@),
        stack: levels_view(stack@),
        escaping: escaping,
    };
    proof {
        assert(parse_result(p) == finalize(ctx));
        lemma_asts_view(concat@);
        lemma_asts_view(concat_or@);
    }
    if !stack.is_empty() {
        return Err(ParseError::UnclosedParenthesis);
    }
    if escaping {
        return Err(ParseError::MissingOperand);
    }
    if concat.is_empty() {
        if !concat_or.is_empty() {
            return Err(ParseError::MissingOperand);
        }
    } else {
        append_concat(concat, &mut concat_or);
    }
    match or_ast(concat_or) {
        Some(ast) => Ok(ast),
        None => Err(ParseError::Empty),
    }
}

} // verus!
