//! The virtual machine that matches a text against an instruction sequence
//! by backtracking.

use vstd::prelude::*;

use crate::codegen::{insts_view, Instruction, InstructionView, Pc};

verus! {

/// Input pointer: an index into the text being matched.
#[derive(Debug, Clone, Copy, PartialEq, Eq)]
struct Sp(usize);

impl Sp {
    /// Checked increment. On overflow the pointer is left unchanged and the
    /// caller's error is returned.
    fn inc<E, F: Fn() -> E>(&mut self, err: F) -> (r: Result<Self, E>)
        requires
            old(self).0 == usize::MAX ==> call_requires(err, ()),
        ensures
            match r {
                Ok(p) => old(self).0 < usize::MAX && final(self).0 == old(self).0 + 1 && p
                    == *final(self),
                Err(e) => old(self).0 == usize::MAX && *final(self) == *old(self)
                    && call_ensures(err, (), e),
            },
    {
        if let Some(new) = self.0.checked_add(1) {
            self.0 = new;
            Ok(*self)
        } else {
            Err(err())
        }
    }
}

/// Everything that can stop a matching attempt outright. An ordinary
/// non-match is a successful `false`, never an error.
#[derive(Debug, PartialEq, Eq)]
pub enum MatchError {
    /// The program counter would not fit its index type.
    PcOverflow,
    /// The input pointer would not fit its index type.
    SpOverflow,
    /// The program counter left the instruction sequence: the program is
    /// malformed. Generated programs never do this.
    InstructionNotFound,
}

/// What one matching attempt comes to.
pub enum MatchOutcome {
    /// Some path reached `Match`.
    Matched,
    /// Every path failed.
    Failed,
    /// The attempt was aborted by an error.
    Aborted(MatchError),
}

/// First branch first: only a failure falls through to the second branch;
/// success and abort stand whatever the second branch would do.
pub open spec fn or_else(x: MatchOutcome, y: MatchOutcome) -> MatchOutcome {
    match x {
        MatchOutcome::Failed => y,
        _ => x,
    }
}

/// The meaning of a program: a depth-first backtracking search over `text`
/// from instruction `pc` and input position `sp`.
///
/// `budget` is the number of instructions the search may still execute
/// without consuming input. A path that takes more non-consuming steps than
/// there are instructions has revisited some program counter at the same
/// input position and can only repeat itself, so it is failed; consuming a
/// character restores the budget. This is what bounds the depth of the
/// search by the length of the text times the size of the program, and it
/// agrees with an unbounded search on every path that does not revisit a
/// state.
pub open spec fn search(
    prog: Seq<InstructionView>,
    text: Seq<char>,
    pc: nat,
    sp: nat,
    budget: nat,
) -> MatchOutcome
    decreases text.len() - sp, budget,
{
    if pc >= prog.len() {
        MatchOutcome::Aborted(MatchError::InstructionNotFound)
    } else {
        match prog[pc as int] {
            InstructionView::Char(c) => if sp < text.len() && text[sp as int] == c {
                search(prog, text, pc + 1, sp + 1, prog.len())
            } else {
                MatchOutcome::Failed
            },
            InstructionView::AnyByte => if sp < text.len() {
                search(prog, text, pc + 1, sp + 1, prog.len())
            } else {
                MatchOutcome::Failed
            },
            InstructionView::Match => MatchOutcome::Matched,
            InstructionView::Jmp(t) => if budget == 0 {
                MatchOutcome::Failed
            } else {
                search(prog, text, t, sp, (budget - 1) as nat)
            },
            InstructionView::Split(a, b) => if budget == 0 {
                MatchOutcome::Failed
            } else {
                or_else(
                    search(prog, text, a, sp, (budget - 1) as nat),
                    search(prog, text, b, sp, (budget - 1) as nat),
                )
            },
        }
    }
}

/// `search`, written out one step, available also where the definition does
/// not unfold on its own.
pub proof fn lemma_search_unfold(
    prog: Seq<InstructionView>,
    text: Seq<char>,
    pc: nat,
    sp: nat,
    budget: nat,
)
    ensures
        search(prog, text, pc, sp, budget) == (if pc >= prog.len() {
            MatchOutcome::Aborted(MatchError::InstructionNotFound)
        } else {
            match prog[pc as int] {
                InstructionView::Char(c) => if sp < text.len() && text[sp as int] == c {
                    search(prog, text, pc + 1, sp + 1, prog.len())
                } else {
                    MatchOutcome::Failed
                },
                InstructionView::AnyByte => if sp < text.len() {
                    search(prog, text, pc + 1, sp + 1, prog.len())
                } else {
                    MatchOutcome::Failed
                },
                InstructionView::Match => MatchOutcome::Matched,
                InstructionView::Jmp(t) => if budget == 0 {
                    MatchOutcome::Failed
                } else {
                    search(prog, text, t, sp, (budget - 1) as nat)
                },
                InstructionView::Split(a, b) => if budget == 0 {
                    MatchOutcome::Failed
                } else {
                    or_else(
                        search(prog, text, a, sp, (budget - 1) as nat),
                        search(prog, text, b, sp, (budget - 1) as nat),
                    )
                },
            }
        }),
{
}

/// A well-formed program: a consuming instruction is never last, and every
/// jump target lies inside the sequence. Generated programs are well formed,
/// and a well-formed program can never abort.
pub open spec fn prog_wf(prog: Seq<InstructionView>) -> bool {
    forall|i: int|
        0 <= i < prog.len() ==> match #[trigger] prog[i] {
            InstructionView::Char(_) => i + 1 < prog.len(),
            InstructionView::AnyByte => i + 1 < prog.len(),
            InstructionView::Match => true,
            InstructionView::Jmp(t) => t < prog.len(),
            InstructionView::Split(a, b) => a < prog.len() && b < prog.len(),
        }
}

/// On a well-formed program the search never aborts: match-time errors are
/// only reachable through manually built, malformed programs.
pub proof fn lemma_wf_no_abort(
    prog: Seq<InstructionView>,
    text: Seq<char>,
    pc: nat,
    sp: nat,
    budget: nat,
)
    requires
        prog_wf(prog),
        pc < prog.len(),
    ensures
        !(search(prog, text, pc, sp, budget) is Aborted),
    decreases text.len() - sp, budget,
{
    match prog[pc as int] {
        InstructionView::Char(c) => {
            if sp < text.len() && text[sp as int] == c {
                lemma_wf_no_abort(prog, text, pc + 1, sp + 1, prog.len());
            }
        },
        InstructionView::AnyByte => {
            if sp < text.len() {
                lemma_wf_no_abort(prog, text, pc + 1, sp + 1, prog.len());
            }
        },
        InstructionView::Match => {},
        InstructionView::Jmp(t) => {
            if budget > 0 {
                lemma_wf_no_abort(prog, text, t, sp, (budget - 1) as nat);
            }
        },
        InstructionView::Split(a, b) => {
            if budget > 0 {
                lemma_wf_no_abort(prog, text, a, sp, (budget - 1) as nat);
                lemma_wf_no_abort(prog, text, b, sp, (budget - 1) as nat);
            }
        },
    }
}

/// One consuming step, spelled out with the character as a parameter: where
/// it is drawn from a sequence, the definition does not unfold on its own.
proof fn lemma_search_char_step(
    prog: Seq<InstructionView>,
    text: Seq<char>,
    pc: nat,
    sp: nat,
    budget: nat,
    c: char,
)
    requires
        pc < prog.len(),
        prog[pc as int] == InstructionView::Char(c),
        sp < text.len(),
        text[sp as int] == c,
    ensures
        search(prog, text, pc, sp, budget) == search(prog, text, pc + 1, sp + 1, prog.len()),
{
}

/// A straight run of `Char` instructions that spell out the next `n` input
/// elements, followed by `Match`, accepts — whatever the budget: consuming
/// steps do not draw on it.
pub proof fn lemma_straight_line_match(
    prog: Seq<InstructionView>,
    text: Seq<char>,
    pc: nat,
    sp: nat,
    n: nat,
    budget: nat,
)
    requires
        pc + n < prog.len(),
        forall|k: int| 0 <= k < n ==> prog[pc + k] == InstructionView::Char(#[trigger] text[sp + k]),
        prog[(pc + n) as int] == InstructionView::Match,
        sp + n <= text.len(),
    ensures
        search(prog, text, pc, sp, budget) == MatchOutcome::Matched,
    decreases n,
{
    if n == 0 {
        assert(search(prog, text, pc, sp, budget) == MatchOutcome::Matched);
    } else {
        assert(prog[pc as int + 0] == InstructionView::Char(text[sp as int + 0]));
        assert(prog[pc as int] == InstructionView::Char(text[sp as int]));
        lemma_search_char_step(prog, text, pc, sp, budget, text[sp as int]);
        assert forall|k: int| 0 <= k < n - 1 implies prog[pc + 1 + k] == InstructionView::Char(
            #[trigger] text[sp + 1 + k],
        ) by {
            assert(prog[pc + (k + 1)] == InstructionView::Char(text[sp + (k + 1)]));
        }
        lemma_straight_line_match(prog, text, pc + 1, sp + 1, (n - 1) as nat, prog.len());
    }
}

/// The outcome that a result of `is_match` stands for.
pub open spec fn outcome_of(r: Result<bool, MatchError>) -> MatchOutcome {
    match r {
        Ok(b) => if b {
            MatchOutcome::Matched
        } else {
            MatchOutcome::Failed
        },
        Err(e) => MatchOutcome::Aborted(e),
    }
}

/// A machine gives one verdict per text: whatever two calls on the same
/// program and the same text return, it is the same result. There is no
/// hidden state: the verdict is a function of program and text alone.
pub proof fn lemma_verdict_repeatable(
    prog: Seq<InstructionView>,
    text: Seq<char>,
    r1: Result<bool, MatchError>,
    r2: Result<bool, MatchError>,
)
    requires
        outcome_of(r1) == search(prog, text, 0, 0, prog.len()),
        outcome_of(r2) == search(prog, text, 0, 0, prog.len()),
    ensures
        r1 == r2,
{
}

/// The virtual machine: the compiled instruction sequence, owned and never
/// changed. Each matching call starts fresh from the first instruction.
#[derive(Debug)]
pub struct Machine {
    instructions: Vec<Instruction>,
}

impl View for Machine {
    type V = Seq<InstructionView>;

    closed spec fn view(&self) -> Seq<InstructionView> {
        insts_view(self.instructions@)
    }
}

impl Machine {
    pub fn new(instructions: Vec<Instruction>) -> (m: Machine)
        ensures
            m@ == insts_view(instructions@),
    {
        Machine { instructions }
    }

    /// Run the program against `text`: `Ok(true)` when some path accepts,
    /// `Ok(false)` when every path fails, and an error only when a malformed
    /// program aborts the attempt.
    pub fn is_match(&self, text: &[char]) -> (r: Result<bool, MatchError>)
        ensures
            outcome_of(r) == search(self@, text@, 0, 0, self@.len()),
            prog_wf(self@) && self@.len() > 0 ==> !(r is Err),
    {
        let budget = self.instructions.len();
        let r = self.is_matching(text, Pc(0), Sp(0), budget);
        proof {
            if prog_wf(self@) && self@.len() > 0 {
                lemma_wf_no_abort(self@, text@, 0, 0, self@.len());
            }
        }
        r
    }

    /// One backtracking attempt from `pc` and `sp`, with `budget`
    /// non-consuming steps left; exactly [`search`], instruction by
    /// instruction. `Split` tries its first target to exhaustion, then its
    /// second: leftmost-first, greedy-preferred order.
    fn is_matching(&self, text: &[char], pc: Pc, sp: Sp, budget: usize) -> (r: Result<
        bool,
        MatchError,
    >)
        ensures
            outcome_of(r) == search(self@, text@, pc.0 as nat, sp.0 as nat, budget as nat),
        decreases text@.len() - sp.0, budget,
    {
        let mut cur_pc = pc;
        let mut cur_sp = sp;
        let mut cur_budget = budget;
        loop
            invariant
                sp.0 <= cur_sp.0,
                cur_sp.0 == sp.0 || cur_sp.0 <= text@.len(),
                cur_sp.0 == sp.0 ==> cur_budget <= budget,
                search(self@, text@, pc.0 as nat, sp.0 as nat, budget as nat) == search(
                    self@,
                    text@,
                    cur_pc.0 as nat,
                    cur_sp.0 as nat,
                    cur_budget as nat,
                ),
            decreases text@.len() - cur_sp.0, cur_budget,
        {
            proof {
                lemma_search_unfold(
                    self@,
                    text@,
                    cur_pc.0 as nat,
                    cur_sp.0 as nat,
                    cur_budget as nat,
                );
            }
            let instruction = if cur_pc.0 < self.instructions.len() {
                &self.instructions[cur_pc.0]
            } else {
                return Err(MatchError::InstructionNotFound);
            };

            match instruction {
                Instruction::Char(c) => {
                    if cur_sp.0 >= text.len() {
                        return Ok(false);
                    }
                    if *c == text[cur_sp.0] {
                        let fresh_budget = self.instructions.len();
                        match cur_pc.inc(|| MatchError::PcOverflow) {
                            Ok(_) => {},
                            Err(e) => {
                                proof {
                                    assert(false);
                                }
                                return Err(e);
                            },
                        }
                        match cur_sp.inc(|| MatchError::SpOverflow) {
                            Ok(_) => {},
                            Err(e) => {
                                proof {
                                    assert(false);
                                }
                                return Err(e);
                            },
                        }
                        cur_budget = fresh_budget;
                    } else {
                        return Ok(false);
                    }
                },
                Instruction::Match => {
                    return Ok(true);
                },
                Instruction::Jmp(new_pc) => {
                    if cur_budget == 0 {
                        return Ok(false);
                    }
                    cur_budget = cur_budget - 1;
                    cur_pc = *new_pc;
                },
                Instruction::Split(l1, l2) => {
                    if cur_budget == 0 {
                        return Ok(false);
                    }
                    let first = match self.is_matching(text, *l1, cur_sp, cur_budget - 1) {
                        Ok(b) => b,
                        Err(e) => {
                            return Err(e);
                        },
                    };
                    if first {
                        return Ok(true);
                    }
                    let second = match self.is_matching(text, *l2, cur_sp, cur_budget - 1) {
                        Ok(b) => b,
                        Err(e) => {
                            return Err(e);
                        },
                    };
                    return Ok(second);
                },
                Instruction::AnyByte => {
                    // The wildcard consumes one element: it never matches at
                    // the end of the input.
                    if cur_sp.0 >= text.len() {
                        return Ok(false);
                    }
                    let fresh_budget = self.instructions.len();
                    // The counter stays below the program length, so the
                    // increment cannot overflow.
                    match cur_pc.inc(|| MatchError::PcOverflow) {
                        Ok(_) => {},
                        Err(e) => {
                            proof {
                                assert(false);
                            }
                            return Err(e);
                        },
                    }
                    // The pointer stays below the text length, so the
                    // increment cannot overflow.
                    match cur_sp.inc(|| MatchError::SpOverflow) {
                        Ok(_) => {},
                        Err(e) => {
                            proof {
                                assert(false);
                            }
                            return Err(e);
                        },
                    }
                    cur_budget = fresh_budget;
                },
            }
        }
    }
}

} // verus!
