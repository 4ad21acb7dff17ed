//! Lowering of an abstract syntax tree into a flat instruction sequence
//! with resolved jump targets.

use vstd::prelude::*;

use crate::parser::{ast_view, asts_view, Ast, AstView};

verus! {

/// Program counter: an index into the instruction sequence.
#[derive(Debug, Default, Clone, Copy, PartialEq, Eq)]
pub struct Pc(pub usize);

impl Pc {
    /// Checked increment. On overflow the counter is left unchanged and the
    /// caller's error is returned.
    pub fn inc<E, F: Fn() -> E>(&mut self, err: F) -> (r: Result<Self, E>)
        requires
            old(self).0 == usize::MAX ==> call_requires(err, ()),
        ensures
            match r {
                Ok(p) => old(self).0 < usize::MAX && final(self).0 == old(self).0 + 1 && p
                    == *final(self),
                Err(e) => old(self).0 == usize::MAX && *final(self) == *old(self)
                    && call_ensures(err, (), e),
            },
    {
        if let Some(new) = self.0.checked_add(1) {
            self.0 = new;
            Ok(*self)
        } else {
            Err(err())
        }
    }
}

/// Instruction set of the matching machine.
#[derive(Debug, PartialEq, Eq)]
pub enum Instruction {
    /// Consume one input element equal to the character, or fail the path.
    Char(char),
    /// Accept, whatever input remains.
    Match,
    /// Continue at the target, consuming nothing.
    Jmp(Pc),
    /// Try the first target; if that whole path fails, try the second.
    Split(Pc, Pc),
    /// Consume any one input element, or fail the path if none remains.
    AnyByte,
}

/// Model of an instruction: jump targets as unbounded integers.
pub enum InstructionView {
    Char(char),
    Match,
    Jmp(nat),
    Split(nat, nat),
    AnyByte,
}

impl View for Instruction {
    type V = InstructionView;

    open spec fn view(&self) -> InstructionView {
        match self {
            Instruction::Char(c) => InstructionView::Char(*c),
            Instruction::Match => InstructionView::Match,
            Instruction::Jmp(t) => InstructionView::Jmp(t.0 as nat),
            Instruction::Split(a, b) => InstructionView::Split(a.0 as nat, b.0 as nat),
            Instruction::AnyByte => InstructionView::AnyByte,
        }
    }
}

/// The models of an instruction sequence, in order.
pub open spec fn insts_view(s: Seq<Instruction>) -> Seq<InstructionView> {
    Seq::new(s.len(), |i: int| s[i]@)
}

/// The one way code generation can fail.
#[derive(Debug, PartialEq, Eq)]
pub enum GenerateCodeError {
    /// The program counter would not fit in its index type.
    PcOverflow,
}

/// How many instructions the code for a node occupies.
pub open spec fn code_len(a: AstView) -> nat
    decreases a,
{
    match a {
        AstView::Char(_) => 1,
        AstView::Dot => 1,
        AstView::Concat(children) => {
            proof {
                assert(decreases_to!(a => a->Concat_0));
            }
            code_len_seq(children)
        },
        AstView::Or(lhs, rhs) => 2 + code_len(*lhs) + code_len(*rhs),
        AstView::Question(e) => 1 + code_len(*e),
        AstView::Star(e) => 2 + code_len(*e),
        AstView::Plus(e) => 1 + code_len(*e),
    }
}

/// The combined code length of a sequence of sibling nodes.
pub open spec fn code_len_seq(s: Seq<AstView>) -> nat
    decreases s,
{
    if s.len() == 0 {
        0
    } else {
        proof {
            assert(decreases_to!(s => s[0]));
        }
        code_len(s[0]) + code_len_seq(s.subrange(1, s.len() as int))
    }
}

/// The code for a node, laid out starting at instruction index `base`.
///
/// * A literal is one `Char`; the wildcard is one `AnyByte`.
/// * Concatenation is the children's code in order.
/// * `lhs|rhs` is `Split(L1, L2); L1: lhs; Jmp(L3); L2: rhs; L3:`.
/// * `e?` is `Split(L1, L2); L1: e; L2:`.
/// * `e*` is `L1: Split(L2, L3); L2: e; Jmp(L1); L3:`.
/// * `e+` is `L1: e; Split(L1, L2); L2:`.
pub open spec fn code_of(a: AstView, base: nat) -> Seq<InstructionView>
    decreases a,
{
    match a {
        AstView::Char(c) => seq![InstructionView::Char(c)],
        AstView::Dot => seq![InstructionView::AnyByte],
        AstView::Concat(children) => {
            proof {
                assert(decreases_to!(a => a->Concat_0));
            }
            code_of_seq(children, base)
        },
        AstView::Or(lhs, rhs) => seq![
            InstructionView::Split(base + 1, base + 2 + code_len(*lhs)),
        ] + code_of(*lhs, base + 1) + seq![
            InstructionView::Jmp(base + 2 + code_len(*lhs) + code_len(*rhs)),
        ] + code_of(*rhs, base + 2 + code_len(*lhs)),
        AstView::Question(e) => seq![InstructionView::Split(base + 1, base + 1 + code_len(*e))]
            + code_of(*e, base + 1),
        AstView::Star(e) => seq![InstructionView::Split(base + 1, base + 2 + code_len(*e))]
            + code_of(*e, base + 1) + seq![InstructionView::Jmp(base)],
        AstView::Plus(e) => code_of(*e, base) + seq![
            InstructionView::Split(base, base + 1 + code_len(*e)),
        ],
    }
}

/// The code for a sequence of sibling nodes, each laid out after the last.
pub open spec fn code_of_seq(children: Seq<AstView>, base: nat) -> Seq<InstructionView>
    decreases children,
{
    if children.len() == 0 {
        Seq::empty()
    } else {
        proof {
            assert(decreases_to!(children => children[0]));
        }
        code_of(children[0], base) + code_of_seq(
            children.subrange(1, children.len() as int),
            base + code_len(children[0]),
        )
    }
}

/// `code_of` and `code_len`, written out per constructor: the definitions,
/// available also where they do not unfold on their own.
pub proof fn lemma_code_of_unfold(a: AstView, base: nat)
    ensures
        match a {
            AstView::Char(c) => code_of(a, base) == seq![InstructionView::Char(c)] && code_len(a)
                == 1,
            AstView::Dot => code_of(a, base) == seq![InstructionView::AnyByte] && code_len(a) == 1,
            AstView::Concat(children) => code_of(a, base) == code_of_seq(children, base)
                && code_len(a) == code_len_seq(children),
            AstView::Or(lhs, rhs) => code_of(a, base) == seq![
                InstructionView::Split(base + 1, base + 2 + code_len(*lhs)),
            ] + code_of(*lhs, base + 1) + seq![
                InstructionView::Jmp(base + 2 + code_len(*lhs) + code_len(*rhs)),
            ] + code_of(*rhs, base + 2 + code_len(*lhs)) && code_len(a) == 2 + code_len(*lhs)
                + code_len(*rhs),
            AstView::Question(e) => code_of(a, base) == seq![
                InstructionView::Split(base + 1, base + 1 + code_len(*e)),
            ] + code_of(*e, base + 1) && code_len(a) == 1 + code_len(*e),
            AstView::Star(e) => code_of(a, base) == seq![
                InstructionView::Split(base + 1, base + 2 + code_len(*e)),
            ] + code_of(*e, base + 1) + seq![InstructionView::Jmp(base)] && code_len(a) == 2
                + code_len(*e),
            AstView::Plus(e) => code_of(a, base) == code_of(*e, base) + seq![
                InstructionView::Split(base, base + 1 + code_len(*e)),
            ] && code_len(a) == 1 + code_len(*e),
        },
{
}

/// The code for a node occupies exactly `code_len` instructions.
pub proof fn lemma_code_of_len(a: AstView, base: nat)
    ensures
        code_of(a, base).len() == code_len(a),
    decreases a,
{
    match a {
        AstView::Concat(children) => {
            assert(decreases_to!(a => a->Concat_0));
            lemma_code_of_seq_len(children, base);
        },
        AstView::Or(lhs, rhs) => {
            lemma_code_of_len(*lhs, base + 1);
            lemma_code_of_len(*rhs, base + 2 + code_len(*lhs));
        },
        AstView::Question(e) => {
            lemma_code_of_len(*e, base + 1);
        },
        AstView::Star(e) => {
            lemma_code_of_len(*e, base + 1);
        },
        AstView::Plus(e) => {
            lemma_code_of_len(*e, base);
        },
        _ => {},
    }
}

pub proof fn lemma_code_of_seq_len(children: Seq<AstView>, base: nat)
    ensures
        code_of_seq(children, base).len() == code_len_seq(children),
    decreases children,
{
    if children.len() > 0 {
        assert(decreases_to!(children => children[0]));
        lemma_code_of_len(children[0], base);
        lemma_code_of_seq_len(
            children.subrange(1, children.len() as int),
            base + code_len(children[0]),
        );
    }
}

/// Appending one sibling appends its code after the rest.
pub proof fn lemma_code_of_seq_snoc(s: Seq<AstView>, x: AstView, base: nat)
    ensures
        code_len_seq(s.push(x)) == code_len_seq(s) + code_len(x),
        code_of_seq(s.push(x), base) == code_of_seq(s, base) + code_of(
            x,
            base + code_len_seq(s),
        ),
    decreases s.len(),
{
    if s.len() == 0 {
        let one = s.push(x);
        assert(one[0] == x);
        assert(one.subrange(1, 1) =~= Seq::<AstView>::empty());
        assert(code_len_seq(Seq::<AstView>::empty()) == 0);
        assert(code_of_seq(Seq::<AstView>::empty(), base + code_len(x)) =~= Seq::<
            InstructionView,
        >::empty());
        assert(code_of_seq(one, base) =~= code_of(x, base));
    } else {
        let rest = s.subrange(1, s.len() as int);
        assert(s.push(x)[0] == s[0]);
        assert(s.push(x).subrange(1, s.push(x).len() as int) =~= rest.push(x));
        lemma_code_of_seq_snoc(rest, x, base + code_len(s[0]));
        assert(code_of_seq(s.push(x), base) =~= code_of_seq(s, base) + code_of(
            x,
            base + code_len_seq(s),
        ));
    }
}

/// The number of nodes in a tree: the termination measure of the emitter.
pub open spec fn ast_size(a: AstView) -> nat
    decreases a,
{
    match a {
        AstView::Char(_) => 1,
        AstView::Dot => 1,
        AstView::Concat(children) => {
            proof {
                assert(decreases_to!(a => a->Concat_0));
            }
            1 + ast_size_seq(children)
        },
        AstView::Or(lhs, rhs) => 1 + ast_size(*lhs) + ast_size(*rhs),
        AstView::Question(e) => 1 + ast_size(*e),
        AstView::Star(e) => 1 + ast_size(*e),
        AstView::Plus(e) => 1 + ast_size(*e),
    }
}

pub open spec fn ast_size_seq(s: Seq<AstView>) -> nat
    decreases s,
{
    if s.len() == 0 {
        0
    } else {
        proof {
            assert(decreases_to!(s => s[0]));
        }
        ast_size(s[0]) + ast_size_seq(s.subrange(1, s.len() as int))
    }
}

/// `ast_size`, written out per constructor, available also where the
/// definition does not unfold on its own.
pub proof fn lemma_ast_size_unfold(a: AstView)
    ensures
        match a {
            AstView::Char(_) => ast_size(a) == 1,
            AstView::Dot => ast_size(a) == 1,
            AstView::Concat(children) => ast_size(a) == 1 + ast_size_seq(children),
            AstView::Or(lhs, rhs) => ast_size(a) == 1 + ast_size(*lhs) + ast_size(*rhs),
            AstView::Question(e) => ast_size(a) == 1 + ast_size(*e),
            AstView::Star(e) => ast_size(a) == 1 + ast_size(*e),
            AstView::Plus(e) => ast_size(a) == 1 + ast_size(*e),
        },
{
}

/// No node is larger than the sequence of siblings that contains it.
pub proof fn lemma_ast_size_seq_element(s: Seq<AstView>, i: int)
    requires
        0 <= i < s.len(),
    ensures
        ast_size(s[i]) <= ast_size_seq(s),
    decreases s.len(),
{
    if i > 0 {
        let rest = s.subrange(1, s.len() as int);
        lemma_ast_size_seq_element(rest, i - 1);
        assert(rest[i - 1] == s[i]);
    }
}

/// The code length of a sequence splits at any point.
pub proof fn lemma_code_len_seq_split(s: Seq<AstView>, i: int)
    requires
        0 <= i <= s.len(),
    ensures
        code_len_seq(s) == code_len_seq(s.take(i)) + code_len_seq(s.skip(i)),
    decreases i,
{
    if i == 0 {
        assert(s.take(0) =~= Seq::<AstView>::empty());
        assert(s.skip(0) =~= s);
        assert(code_len_seq(Seq::<AstView>::empty()) == 0);
    } else {
        lemma_code_len_seq_split(s, i - 1);
        lemma_code_of_seq_snoc(s.take(i - 1), s[i - 1], 0);
        assert(s.take(i) =~= s.take(i - 1).push(s[i - 1]));
        let tail = s.skip(i - 1);
        assert(tail.len() > 0);
        assert(tail[0] == s[i - 1]);
        assert(tail.subrange(1, tail.len() as int) =~= s.skip(i));
        assert(code_len_seq(tail) == code_len(s[i - 1]) + code_len_seq(s.skip(i)));
    }
}

/// The code for one literal node, spelled out with the character as a
/// parameter: where it is drawn from a sequence, the definitions do not
/// unfold on their own.
pub proof fn lemma_code_of_char_node(c: char, base: nat)
    ensures
        code_len(AstView::Char(c)) == 1,
        code_of(AstView::Char(c), base) == seq![InstructionView::Char(c)],
        seq![InstructionView::Char(c)].len() == 1,
        seq![InstructionView::Char(c)][0] == InstructionView::Char(c),
{
}

/// The code for a sequence of literal nodes: one `Char` instruction per
/// character, in order.
pub proof fn lemma_code_of_literal_seq(s: Seq<AstView>, p: Seq<char>, base: nat)
    requires
        crate::parser::is_literal_seq(s, p),
    ensures
        code_len_seq(s) == p.len(),
        code_of_seq(s, base).len() == p.len(),
        forall|k: int|
            0 <= k < p.len() ==> code_of_seq(s, base)[k] == InstructionView::Char(
                #[trigger] p[k],
            ),
    decreases s.len(),
{
    if s.len() > 0 {
        let head = s[0];
        assert(head == AstView::Char(p[0]));
        lemma_code_of_char_node(p[0], base);
        let rest = s.subrange(1, s.len() as int);
        let prest = p.subrange(1, p.len() as int);
        assert forall|i: int| 0 <= i < prest.len() implies rest[i] == AstView::Char(
            #[trigger] prest[i],
        ) by {
            assert(rest[i] == s[i + 1]);
            assert(prest[i] == p[i + 1]);
        }
        lemma_code_of_literal_seq(rest, prest, base + 1);
        assert(code_of_seq(s, base) == code_of(head, base) + code_of_seq(rest, base + 1));
        assert forall|k: int| 0 <= k < p.len() implies code_of_seq(s, base)[k]
            == InstructionView::Char(#[trigger] p[k]) by {
            if k == 0 {
                assert(code_of_seq(s, base)[0] == code_of(head, base)[0]);
            } else {
                assert(code_of_seq(s, base)[k] == code_of_seq(rest, base + 1)[k - 1]);
                assert(code_of_seq(rest, base + 1)[k - 1] == InstructionView::Char(prest[k - 1]));
                assert(prest[k - 1] == p[k]);
            }
        }
    }
}

/// Every jump or split target in `seg` lies at or before `hi`.
pub open spec fn targets_bounded(seg: Seq<InstructionView>, hi: nat) -> bool {
    forall|k: int|
        0 <= k < seg.len() ==> match #[trigger] seg[k] {
            InstructionView::Jmp(t) => t <= hi,
            InstructionView::Split(a, b) => a <= hi && b <= hi,
            _ => true,
        }
}

pub proof fn lemma_targets_bounded_mono(seg: Seq<InstructionView>, h1: nat, h2: nat)
    requires
        targets_bounded(seg, h1),
        h1 <= h2,
    ensures
        targets_bounded(seg, h2),
{
    assert forall|k: int| 0 <= k < seg.len() implies match #[trigger] seg[k] {
        InstructionView::Jmp(t) => t <= h2,
        InstructionView::Split(a, b) => a <= h2 && b <= h2,
        _ => true,
    } by {
        assert(0 <= k < seg.len());
    }
}

/// Generated code never jumps past its own end: every target lies at or
/// before the first instruction after the node's code.
pub proof fn lemma_code_of_targets(a: AstView, base: nat)
    ensures
        targets_bounded(code_of(a, base), base + code_len(a)),
    decreases a,
{
    lemma_code_of_unfold(a, base);
    match a {
        AstView::Char(_) => {},
        AstView::Dot => {},
        AstView::Concat(children) => {
            assert(decreases_to!(a => a->Concat_0));
            lemma_code_of_seq_targets(children, base);
        },
        AstView::Or(lhs, rhs) => {
            let llen = code_len(*lhs);
            let rlen = code_len(*rhs);
            let hi = base + 2 + llen + rlen;
            lemma_code_of_len(*lhs, base + 1);
            lemma_code_of_len(*rhs, base + 2 + llen);
            lemma_code_of_targets(*lhs, base + 1);
            lemma_targets_bounded_mono(code_of(*lhs, base + 1), base + 1 + llen, hi);
            lemma_code_of_targets(*rhs, base + 2 + llen);
            lemma_targets_bounded_mono(code_of(*rhs, base + 2 + llen), base + 2 + llen + rlen, hi);
            let seg = code_of(a, base);
            assert forall|k: int| 0 <= k < seg.len() implies match #[trigger] seg[k] {
                InstructionView::Jmp(t) => t <= hi,
                InstructionView::Split(x, y) => x <= hi && y <= hi,
                _ => true,
            } by {
                if 1 <= k < 1 + llen {
                    assert(seg[k] == code_of(*lhs, base + 1)[k - 1]);
                } else if 2 + llen <= k {
                    assert(seg[k] == code_of(*rhs, base + 2 + llen)[k - 2 - llen]);
                }
            }
        },
        AstView::Question(e) => {
            let elen = code_len(*e);
            let hi = base + 1 + elen;
            lemma_code_of_len(*e, base + 1);
            lemma_code_of_targets(*e, base + 1);
            let seg = code_of(a, base);
            assert forall|k: int| 0 <= k < seg.len() implies match #[trigger] seg[k] {
                InstructionView::Jmp(t) => t <= hi,
                InstructionView::Split(x, y) => x <= hi && y <= hi,
                _ => true,
            } by {
                if 1 <= k {
                    assert(seg[k] == code_of(*e, base + 1)[k - 1]);
                }
            }
        },
        AstView::Star(e) => {
            let elen = code_len(*e);
            let hi = base + 2 + elen;
            lemma_code_of_len(*e, base + 1);
            lemma_code_of_targets(*e, base + 1);
            lemma_targets_bounded_mono(code_of(*e, base + 1), base + 1 + elen, hi);
            let seg = code_of(a, base);
            assert forall|k: int| 0 <= k < seg.len() implies match #[trigger] seg[k] {
                InstructionView::Jmp(t) => t <= hi,
                InstructionView::Split(x, y) => x <= hi && y <= hi,
                _ => true,
            } by {
                if 1 <= k < 1 + elen {
                    assert(seg[k] == code_of(*e, base + 1)[k - 1]);
                }
            }
        },
        AstView::Plus(e) => {
            let elen = code_len(*e);
            let hi = base + 1 + elen;
            lemma_code_of_len(*e, base);
            lemma_code_of_targets(*e, base);
            lemma_targets_bounded_mono(code_of(*e, base), base + elen, hi);
            let seg = code_of(a, base);
            assert forall|k: int| 0 <= k < seg.len() implies match #[trigger] seg[k] {
                InstructionView::Jmp(t) => t <= hi,
                InstructionView::Split(x, y) => x <= hi && y <= hi,
                _ => true,
            } by {
                if k < elen {
                    assert(seg[k] == code_of(*e, base)[k]);
                }
            }
        },
    }
}

pub proof fn lemma_code_of_seq_targets(children: Seq<AstView>, base: nat)
    ensures
        targets_bounded(code_of_seq(children, base), base + code_len_seq(children)),
    decreases children,
{
    if children.len() > 0 {
        assert(decreases_to!(children => children[0]));
        let head = children[0];
        let rest = children.subrange(1, children.len() as int);
        let hi = base + code_len_seq(children);
        lemma_code_of_len(head, base);
        lemma_code_of_targets(head, base);
        lemma_targets_bounded_mono(code_of(head, base), base + code_len(head), hi);
        lemma_code_of_seq_targets(rest, base + code_len(head));
        lemma_targets_bounded_mono(
            code_of_seq(rest, base + code_len(head)),
            base + code_len(head) + code_len_seq(rest),
            hi,
        );
        let seg = code_of_seq(children, base);
        assert forall|k: int| 0 <= k < seg.len() implies match #[trigger] seg[k] {
            InstructionView::Jmp(t) => t <= hi,
            InstructionView::Split(x, y) => x <= hi && y <= hi,
            _ => true,
        } by {
            if k < code_len(head) {
                assert(seg[k] == code_of(head, base)[k]);
            } else {
                assert(seg[k] == code_of_seq(rest, base + code_len(head))[k - code_len(head)]);
            }
        }
    }
}

pub proof fn lemma_insts_view_push(s: Seq<Instruction>, x: Instruction)
    ensures
        insts_view(s.push(x)) == insts_view(s).push(x@),
{
    assert(insts_view(s.push(x)) =~= insts_view(s).push(x@));
}

pub proof fn lemma_insts_view_update(s: Seq<Instruction>, i: int, x: Instruction)
    requires
        0 <= i < s.len(),
    ensures
        insts_view(s.update(i, x)) == insts_view(s).update(i, x@),
{
    assert(insts_view(s.update(i, x)) =~= insts_view(s).update(i, x@));
}

/// The emitter: a running counter and the instructions emitted so far.
struct CodeGenerator {
    pc: Pc,
    instructions: Vec<Instruction>,
}

/// What one emitting method guarantees: on success the code for `a` stands
/// appended where the counter stood, and the counter equals the new length;
/// the only failure is a counter that would not fit.
spec fn gen_result(
    pre: CodeGenerator,
    post: CodeGenerator,
    a: AstView,
    r: Result<(), GenerateCodeError>,
) -> bool {
    match r {
        Ok(_) => post.wf() && pre.instructions@.len() + code_len(a) <= usize::MAX
            && post.instructions@.len() == pre.instructions@.len() + code_len(a) && insts_view(
            post.instructions@,
        ) == insts_view(pre.instructions@) + code_of(a, pre.instructions@.len()),
        Err(e) => e == GenerateCodeError::PcOverflow && pre.instructions@.len() + code_len(a)
            > usize::MAX,
    }
}

impl CodeGenerator {
    /// The core invariant: the counter always equals the number of
    /// instructions emitted.
    spec fn wf(&self) -> bool {
        self.pc.0 == self.instructions@.len()
    }

    /// Emit one `Char` instruction.
    fn char(&mut self, c: char) -> (r: Result<(), GenerateCodeError>)
        requires
            old(self).wf(),
        ensures
            gen_result(*old(self), *final(self), AstView::Char(c), r),
    {
        let ghost pre = *old(self);
        self.instructions.push(Instruction::Char(c));
        proof {
            lemma_code_of_unfold(AstView::Char(c), pre.instructions@.len());
            lemma_insts_view_push(pre.instructions@, Instruction::Char(c));
            assert(insts_view(pre.instructions@).push(Instruction::Char(c)@) =~= insts_view(
                pre.instructions@,
            ) + code_of(AstView::Char(c), pre.instructions@.len()));
        }
        match self.pc.inc(|| GenerateCodeError::PcOverflow) {
            Ok(_) => Ok(()),
            Err(e) => Err(e),
        }
    }

    /// Lower one node, whatever its kind.
    fn expr(&mut self, ast: &Ast) -> (r: Result<(), GenerateCodeError>)
        requires
            old(self).wf(),
        ensures
            gen_result(*old(self), *final(self), ast@, r),
        decreases ast_size(ast@), 1int,
    {
        proof {
            crate::parser::lemma_ast_view_unfold(*ast);
            lemma_ast_size_unfold(ast@);
        }
        match ast {
            Ast::Char(c) => self.char(*c),
            Ast::Concat(children) => self.concat(children),
            Ast::Or(lhs, rhs) => self.or(lhs, rhs),
            Ast::Question(e) => self.question(e),
            Ast::Star(e) => self.star(e),
            Ast::Plus(e) => self.plus(e),
            Ast::Dot => self.dot(),
        }
    }

    /// Lower a concatenation: each child's code in order, nothing more.
    fn concat(&mut self, concat: &Vec<Ast>) -> (r: Result<(), GenerateCodeError>)
        requires
            old(self).wf(),
        ensures
            gen_result(*old(self), *final(self), AstView::Concat(asts_view(concat@)), r),
        decreases 1 + ast_size_seq(asts_view(concat@)), 0int,
    {
        let ghost pre = *old(self);
        let ghost base = pre.instructions@.len();
        let ghost views = asts_view(concat@);
        proof {
            crate::parser::lemma_asts_view(concat@);
            lemma_code_of_unfold(AstView::Concat(views), base);
        }
        let mut i: usize = 0;
        proof {
            assert(views.take(0) =~= Seq::<AstView>::empty());
            assert(code_of_seq(Seq::<AstView>::empty(), base) =~= Seq::<InstructionView>::empty());
            assert(code_len_seq(Seq::<AstView>::empty()) == 0);
            assert(insts_view(self.instructions@) =~= insts_view(pre.instructions@) + code_of_seq(
                views.take(0),
                base,
            ));
        }
        while i < concat.len()
            invariant
                old(self).wf(),
                pre == *old(self),
                base == pre.instructions@.len(),
                views == asts_view(concat@),
                views.len() == concat@.len(),
                forall|j: int| 0 <= j < concat@.len() ==> views[j] == ast_view(concat@[j]),
                i <= concat@.len(),
                self.wf(),
                self.instructions@.len() == base + code_len_seq(views.take(i as int)),
                insts_view(self.instructions@) == insts_view(pre.instructions@) + code_of_seq(
                    views.take(i as int),
                    base,
                ),
            decreases concat@.len() - i,
        {
            proof {
                assert(decreases_to!(asts_view(concat@) => asts_view(concat@)[i as int]));
                lemma_ast_size_seq_element(views, i as int);
            }
            match self.expr(&concat[i]) {
                Ok(_) => {},
                Err(e) => {
                    proof {
                        lemma_code_len_seq_split(views, i as int);
                        let tail = views.skip(i as int);
                        assert(tail[0] == views[i as int]);
                        assert(tail.subrange(1, tail.len() as int) =~= views.skip(i + 1));
                        assert(code_len_seq(tail) == code_len(views[i as int]) + code_len_seq(
                            views.skip(i + 1),
                        ));
                    }
                    return Err(e);
                },
            }
            proof {
                lemma_code_of_seq_snoc(views.take(i as int), views[i as int], base);
                assert(views.take(i + 1) =~= views.take(i as int).push(views[i as int]));
                assert(insts_view(self.instructions@) =~= insts_view(pre.instructions@)
                    + code_of_seq(views.take(i + 1), base));
            }
            i = i + 1;
        }
        proof {
            assert(views.take(views.len() as int) =~= views);
        }
        Ok(())
    }

    /// Lower an alternation, backpatching the two forward targets:
    ///
    /// ```text
    ///     split L1, L2
    /// L1: lhs code
    ///     jmp L3
    /// L2: rhs code
    /// L3:
    /// ```
    fn or(&mut self, lhs: &Ast, rhs: &Ast) -> (r: Result<(), GenerateCodeError>)
        requires
            old(self).wf(),
        ensures
            gen_result(
                *old(self),
                *final(self),
                AstView::Or(Box::new(lhs@), Box::new(rhs@)),
                r,
            ),
        decreases 1 + ast_size(lhs@) + ast_size(rhs@), 0int,
    {
        let ghost pre = *old(self);
        let ghost base = pre.instructions@.len();
        let ghost or_view = AstView::Or(Box::new(lhs@), Box::new(rhs@));
        let ghost llen = code_len(lhs@);
        let ghost rlen = code_len(rhs@);
        proof {
            lemma_code_of_unfold(or_view, base);
            lemma_code_of_len(lhs@, base + 1);
            lemma_code_of_len(rhs@, base + 2 + llen);
        }

        let split_pc = self.pc;
        let l1 = match self.pc.inc(|| GenerateCodeError::PcOverflow) {
            Ok(p) => p,
            Err(e) => {
                return Err(e);
            },
        };
        let ghost s0 = self.instructions@;
        self.instructions.push(Instruction::Split(l1, Pc(0)));
        proof {
            lemma_insts_view_push(s0, Instruction::Split(l1, Pc(0)));
        }

        match self.expr(lhs) {
            Ok(_) => {},
            Err(e) => {
                return Err(e);
            },
        }

        let jmp_pc = self.pc;
        match self.pc.inc(|| GenerateCodeError::PcOverflow) {
            Ok(_) => {},
            Err(e) => {
                return Err(e);
            },
        }
        let ghost s1 = self.instructions@;
        self.instructions.push(Instruction::Jmp(Pc(0)));
        proof {
            lemma_insts_view_push(s1, Instruction::Jmp(Pc(0)));
        }

        // The second branch starts here: patch the split.
        let l2 = self.pc;
        let ghost s2 = self.instructions@;
        self.instructions[split_pc.0] = Instruction::Split(l1, l2);
        proof {
            lemma_insts_view_update(s2, split_pc.0 as int, Instruction::Split(l1, l2));
        }

        match self.expr(rhs) {
            Ok(_) => {},
            Err(e) => {
                return Err(e);
            },
        }

        // The alternation ends here: patch the jump past the second branch.
        let l3 = self.pc;
        let ghost s3 = self.instructions@;
        self.instructions[jmp_pc.0] = Instruction::Jmp(l3);
        proof {
            lemma_insts_view_update(s3, jmp_pc.0 as int, Instruction::Jmp(l3));
            assert(insts_view(self.instructions@) =~= insts_view(pre.instructions@) + code_of(
                or_view,
                base,
            ));
        }
        Ok(())
    }

    /// Lower `e?`, backpatching the skip target:
    ///
    /// ```text
    ///     split L1, L2
    /// L1: e code
    /// L2:
    /// ```
    fn question(&mut self, e: &Ast) -> (r: Result<(), GenerateCodeError>)
        requires
            old(self).wf(),
        ensures
            gen_result(*old(self), *final(self), AstView::Question(Box::new(e@)), r),
        decreases 1 + ast_size(e@), 0int,
    {
        let ghost pre = *old(self);
        let ghost base = pre.instructions@.len();
        proof {
            lemma_code_of_unfold(AstView::Question(Box::new(e@)), base);
            lemma_code_of_len(e@, base + 1);
        }

        let split_pc = self.pc;
        let l1 = match self.pc.inc(|| GenerateCodeError::PcOverflow) {
            Ok(p) => p,
            Err(e) => {
                return Err(e);
            },
        };
        let ghost s0 = self.instructions@;
        self.instructions.push(Instruction::Split(l1, Pc(0)));
        proof {
            lemma_insts_view_push(s0, Instruction::Split(l1, Pc(0)));
        }

        match self.expr(e) {
            Ok(_) => {},
            Err(e) => {
                return Err(e);
            },
        }

        // The optional part may be skipped: patch the split to land here.
        let l2 = self.pc;
        let ghost s1 = self.instructions@;
        self.instructions[split_pc.0] = Instruction::Split(l1, l2);
        proof {
            lemma_insts_view_update(s1, split_pc.0 as int, Instruction::Split(l1, l2));
            assert(insts_view(self.instructions@) =~= insts_view(pre.instructions@) + code_of(
                AstView::Question(Box::new(e@)),
                base,
            ));
        }
        Ok(())
    }

    /// Lower `e*`, backpatching the exit target:
    ///
    /// ```text
    /// L1: split L2, L3
    /// L2: e code
    ///     jmp L1
    /// L3:
    /// ```
    fn star(&mut self, e: &Ast) -> (r: Result<(), GenerateCodeError>)
        requires
            old(self).wf(),
        ensures
            gen_result(*old(self), *final(self), AstView::Star(Box::new(e@)), r),
        decreases 1 + ast_size(e@), 0int,
    {
        let ghost pre = *old(self);
        let ghost base = pre.instructions@.len();
        proof {
            lemma_code_of_unfold(AstView::Star(Box::new(e@)), base);
            lemma_code_of_len(e@, base + 1);
        }

        let l1 = self.pc;
        let l2 = match self.pc.inc(|| GenerateCodeError::PcOverflow) {
            Ok(p) => p,
            Err(e) => {
                return Err(e);
            },
        };
        let ghost s0 = self.instructions@;
        self.instructions.push(Instruction::Split(l2, Pc(0)));
        proof {
            lemma_insts_view_push(s0, Instruction::Split(l2, Pc(0)));
        }

        match self.expr(e) {
            Ok(_) => {},
            Err(e) => {
                return Err(e);
            },
        }

        match self.pc.inc(|| GenerateCodeError::PcOverflow) {
            Ok(_) => {},
            Err(e) => {
                return Err(e);
            },
        }
        let ghost s1 = self.instructions@;
        self.instructions.push(Instruction::Jmp(l1));
        proof {
            lemma_insts_view_push(s1, Instruction::Jmp(l1));
        }

        // The loop may be left: patch the split to land here.
        let l3 = self.pc;
        let ghost s2 = self.instructions@;
        self.instructions[l1.0] = Instruction::Split(l2, l3);
        proof {
            lemma_insts_view_update(s2, l1.0 as int, Instruction::Split(l2, l3));
            assert(insts_view(self.instructions@) =~= insts_view(pre.instructions@) + code_of(
                AstView::Star(Box::new(e@)),
                base,
            ));
        }
        Ok(())
    }

    /// Lower `e+`: no backpatching, the split is emitted knowing both ends.
    ///
    /// ```text
    /// L1: e code
    ///     split L1, L2
    /// L2:
    /// ```
    fn plus(&mut self, e: &Ast) -> (r: Result<(), GenerateCodeError>)
        requires
            old(self).wf(),
        ensures
            gen_result(*old(self), *final(self), AstView::Plus(Box::new(e@)), r),
        decreases 1 + ast_size(e@), 0int,
    {
        let ghost pre = *old(self);
        let ghost base = pre.instructions@.len();
        proof {
            lemma_code_of_unfold(AstView::Plus(Box::new(e@)), base);
            lemma_code_of_len(e@, base);
        }

        let l1 = self.pc;
        match self.expr(e) {
            Ok(_) => {},
            Err(e) => {
                return Err(e);
            },
        }

        let l2 = match self.pc.inc(|| GenerateCodeError::PcOverflow) {
            Ok(p) => p,
            Err(e) => {
                return Err(e);
            },
        };
        let ghost s0 = self.instructions@;
        self.instructions.push(Instruction::Split(l1, l2));
        proof {
            lemma_insts_view_push(s0, Instruction::Split(l1, l2));
            assert(insts_view(self.instructions@) =~= insts_view(pre.instructions@) + code_of(
                AstView::Plus(Box::new(e@)),
                base,
            ));
        }
        Ok(())
    }

    /// Lower a whole tree and append the final `Match`.
    fn generate_code(self, ast: Ast) -> (r: Result<Vec<Instruction>, GenerateCodeError>)
        requires
            self.wf(),
            self.instructions@.len() == 0,
        ensures
            match r {
                Ok(instrs) => code_len(ast@) + 1 <= usize::MAX && instrs@.len() == code_len(ast@)
                    + 1 && insts_view(instrs@) == code_of(ast@, 0).push(InstructionView::Match),
                Err(e) => e == GenerateCodeError::PcOverflow && code_len(ast@) + 1 > usize::MAX,
            },
    {
        let mut emitter = self;
        match emitter.expr(&ast) {
            Ok(_) => {},
            Err(e) => {
                return Err(e);
            },
        }
        match emitter.pc.inc(|| GenerateCodeError::PcOverflow) {
            Ok(_) => {},
            Err(e) => {
                return Err(e);
            },
        }
        let ghost s0 = emitter.instructions@;
        emitter.instructions.push(Instruction::Match);
        proof {
            lemma_insts_view_push(s0, Instruction::Match);
            assert(insts_view(Seq::<Instruction>::empty()) =~= Seq::<InstructionView>::empty());
            assert(insts_view(emitter.instructions@) =~= code_of(ast@, 0).push(
                InstructionView::Match,
            ));
        }
        Ok(emitter.instructions)
    }

    /// Emit one `AnyByte` instruction for the wildcard.
    fn dot(&mut self) -> (r: Result<(), GenerateCodeError>)
        requires
            old(self).wf(),
        ensures
            gen_result(*old(self), *final(self), AstView::Dot, r),
    {
        let ghost pre = *old(self);
        self.instructions.push(Instruction::AnyByte);
        proof {
            lemma_code_of_unfold(AstView::Dot, pre.instructions@.len());
            lemma_insts_view_push(pre.instructions@, Instruction::AnyByte);
            assert(insts_view(pre.instructions@).push(Instruction::AnyByte@) =~= insts_view(
                pre.instructions@,
            ) + code_of(AstView::Dot, pre.instructions@.len()));
        }
        match self.pc.inc(|| GenerateCodeError::PcOverflow) {
            Ok(_) => Ok(()),
            Err(e) => Err(e),
        }
    }
}

/// Generate the instruction sequence for `ast`: its code laid out from
/// index zero, then the final `Match`. The one failure is a program counter
/// that would not fit its index type.
pub fn generate_code(ast: Ast) -> (r: Result<Vec<Instruction>, GenerateCodeError>)
    ensures
        match r {
            Ok(instrs) => code_len(ast@) + 1 <= usize::MAX && instrs@.len() == code_len(ast@) + 1
                && insts_view(instrs@) == code_of(ast@, 0).push(InstructionView::Match),
            Err(e) => e == GenerateCodeError::PcOverflow && code_len(ast@) + 1 > usize::MAX,
        },
{
    let emitter = CodeGenerator { pc: Pc(0), instructions: Vec::new() };
    emitter.generate_code(ast)
}

} // verus!
