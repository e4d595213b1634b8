//! The evaluator: tokens to a reduction, in one pass over two stacks.
//!
//! The operator stack holds the operators and open parentheses whose turn has
//! not come. The operand stack is kept by its height alone: what its values
//! are is for the arithmetic that replays the reduction, and no decision of
//! the evaluator depends on them.

use vstd::prelude::*;
use crate::token::{
    EvalError,
    Token,
    TokenView,
    is_operator,
    precedence,
    precedence_spec,
    token_views,
};
use crate::reduction::{
    Step,
    StepView,
    height,
    lemma_height_bound,
    run,
    runs_to,
    step_views,
};

verus! {

/// The state of an evaluation between two tokens.
pub struct Machine {
    /// Pending operators and open parentheses, the most recent last.
    pub operators: Seq<TokenView>,
    /// The height of the operand stack.
    pub depth: nat,
    /// The steps taken so far.
    pub steps: Seq<StepView>,
}

/// The state in which every evaluation starts: both stacks empty.
pub open spec fn initial() -> Machine {
    Machine { operators: Seq::empty(), depth: 0, steps: Seq::empty() }
}

/// The step that applies a binary operator.
pub open spec fn step_of(operator: TokenView) -> StepView
    recommends
        is_operator(operator),
{
    match operator {
        TokenView::Minus => StepView::Subtract,
        TokenView::Multiply => StepView::Multiply,
        TokenView::Divide => StepView::Divide,
        _ => StepView::Add,
    }
}

/// Applies `operator` to the two topmost operands: two leave, one comes.
pub open spec fn apply(m: Machine, operator: TokenView) -> Result<Machine, EvalError> {
    if m.depth < 2 {
        Err(EvalError::EmptyOperandStack)
    } else {
        Ok(Machine { depth: (m.depth - 1) as nat, steps: m.steps.push(step_of(operator)), ..m })
    }
}

/// The machine without its topmost pending operator.
pub open spec fn popped(m: Machine) -> Machine {
    Machine { operators: m.operators.drop_last(), ..m }
}

/// Applies the pending operators that bind at least as tightly as `rank`,
/// the most recent first, up to the first that binds less or is an open
/// parenthesis.
pub open spec fn unwind(m: Machine, rank: u8) -> Result<Machine, EvalError>
    decreases m.operators.len(),
{
    if m.operators.len() > 0 && is_operator(m.operators.last()) && precedence_spec(
        m.operators.last(),
    ) >= rank {
        match apply(popped(m), m.operators.last()) {
            Ok(next) => unwind(next, rank),
            Err(e) => Err(e),
        }
    } else {
        Ok(m)
    }
}

/// Applies the pending operators down to the most recent open parenthesis,
/// and discards that parenthesis.
pub open spec fn close(m: Machine) -> Result<Machine, EvalError>
    decreases m.operators.len(),
{
    if m.operators.len() == 0 {
        Err(EvalError::UnmatchedRightParen)
    } else if m.operators.last() is LeftParen {
        Ok(popped(m))
    } else {
        match apply(popped(m), m.operators.last()) {
            Ok(next) => close(next),
            Err(e) => Err(e),
        }
    }
}

/// What one token does to the machine.
pub open spec fn feed(m: Machine, token: TokenView) -> Result<Machine, EvalError> {
    match token {
        TokenView::Number(digits) => Ok(
            Machine { depth: m.depth + 1, steps: m.steps.push(StepView::Push(digits)), ..m },
        ),
        TokenView::LeftParen => Ok(Machine { operators: m.operators.push(token), ..m }),
        TokenView::RightParen => close(m),
        _ => match unwind(m, precedence_spec(token)) {
            Ok(next) => Ok(Machine { operators: next.operators.push(token), ..next }),
            Err(e) => Err(e),
        },
    }
}

/// What a run of tokens does to the machine, from left to right, up to the
/// first failure.
pub open spec fn feed_all(m: Machine, tokens: Seq<TokenView>) -> Result<Machine, EvalError>
    decreases tokens.len(),
{
    if tokens.len() == 0 {
        Ok(m)
    } else {
        match feed(m, tokens.first()) {
            Ok(next) => feed_all(next, tokens.drop_first()),
            Err(e) => Err(e),
        }
    }
}

/// Applies every pending operator, the most recent first; an open
/// parenthesis among them was never closed.
pub open spec fn drain(m: Machine) -> Result<Machine, EvalError>
    decreases m.operators.len(),
{
    if m.operators.len() == 0 {
        Ok(m)
    } else if m.operators.last() is LeftParen {
        Err(EvalError::UnmatchedLeftParen)
    } else {
        match apply(popped(m), m.operators.last()) {
            Ok(next) => drain(next),
            Err(e) => Err(e),
        }
    }
}

/// The outcome once nothing is pending: exactly one operand must be left.
pub open spec fn finish(m: Machine) -> Result<Seq<StepView>, EvalError> {
    if m.depth == 0 {
        Err(EvalError::EmptyOperandStack)
    } else if m.depth > 1 {
        Err(EvalError::MalformedResult)
    } else {
        Ok(m.steps)
    }
}

/// The reduction of a token sequence, or the reason why it has none.
pub open spec fn evaluate_spec(tokens: Seq<TokenView>) -> Result<Seq<StepView>, EvalError> {
    match feed_all(initial(), tokens) {
        Ok(fed) => match drain(fed) {
            Ok(drained) => finish(drained),
            Err(e) => Err(e),
        },
        Err(e) => Err(e),
    }
}

/// The operand stack as the evaluator keeps it: its height, and the steps
/// that built it.
pub struct Operands {
    pub depth: usize,
    pub steps: Vec<Step>,
}

impl Operands {
    /// The height agrees with the steps, none of which ran short.
    pub open spec fn well_formed(&self) -> bool {
        height(step_views(self.steps@)) == Some(self.depth as nat)
    }

    /// An empty operand stack.
    pub fn new() -> (operands: Operands)
        ensures
            operands.depth == 0,
            operands.steps@.len() == 0,
            operands.well_formed(),
    {
        let operands = Operands { depth: 0, steps: Vec::new() };
        assert(step_views(operands.steps@) =~= Seq::empty());
        operands
    }

    /// Pushes the literal written with `digits`.
    pub fn push_literal(&mut self, digits: &Vec<char>)
        requires
            old(self).well_formed(),
        ensures
            final(self).well_formed(),
            final(self).depth == old(self).depth + 1,
            step_views(final(self).steps@) == step_views(old(self).steps@).push(
                StepView::Push(digits@),
            ),
    {
        let mut copy: Vec<char> = Vec::new();
        let mut k: usize = 0;
        while k < digits.len()
            invariant
                k <= digits.len(),
                copy@ == digits@.take(k as int),
            decreases digits.len() - k,
        {
            copy.push(digits[k]);
            k = k + 1;
        }
        assert(copy@ =~= digits@);
        proof {
            lemma_height_bound(step_views(self.steps@));
        }
        self.steps.push(Step::Push(copy));
        let taken: usize = self.steps.len();
        assert(self.depth < taken);
        self.depth = self.depth + 1;
        proof {
            let before = step_views(old(self).steps@);
            let after = step_views(self.steps@);
            assert(after =~= before.push(StepView::Push(digits@)));
            assert(after.drop_last() =~= before);
        }
    }
}

/// Applies the binary operator `op` to the two topmost operands.
///
/// Fails, and leaves the stack as it was, where fewer than two operands are
/// there.
pub fn apply_operator(numbers: &mut Operands, op: &Token) -> (result: Result<(), EvalError>)
    requires
        old(numbers).well_formed(),
        is_operator(op@),
    ensures
        final(numbers).well_formed(),
        old(numbers).depth >= 2 ==> {
            &&& result is Ok
            &&& final(numbers).depth == old(numbers).depth - 1
            &&& step_views(final(numbers).steps@) == step_views(old(numbers).steps@).push(
                step_of(op@),
            )
        },
        old(numbers).depth < 2 ==> {
            &&& result == Err::<(), EvalError>(EvalError::EmptyOperandStack)
            &&& final(numbers).depth == old(numbers).depth
            &&& final(numbers).steps@ == old(numbers).steps@
        },
{
    if numbers.depth < 2 {
        return Err(EvalError::EmptyOperandStack);
    }
    let step = match op {
        Token::Minus => Step::Subtract,
        Token::Multiply => Step::Multiply,
        Token::Divide => Step::Divide,
        _ => Step::Add,
    };
    numbers.steps.push(step);
    numbers.depth = numbers.depth - 1;
    proof {
        let before = step_views(old(numbers).steps@);
        let after = step_views(numbers.steps@);
        assert(after =~= before.push(step_of(op@)));
        assert(after.drop_last() =~= before);
    }
    Ok(())
}

/// The views of the pending operators, the most recent last.
pub open spec fn pending_views(operators: Seq<&Token>) -> Seq<TokenView> {
    Seq::new(operators.len(), |i: int| operators[i]@)
}

/// Only operators and open parentheses are ever pending.
pub open spec fn pending_ok(operators: Seq<TokenView>) -> bool {
    forall|k: int|
        0 <= k < operators.len() ==> is_operator(#[trigger] operators[k])
            || operators[k] is LeftParen
}

/// The machine that the evaluator's two stacks stand for.
pub open spec fn machine(operators: Seq<&Token>, numbers: Operands) -> Machine {
    Machine {
        operators: pending_views(operators),
        depth: numbers.depth as nat,
        steps: step_views(numbers.steps@),
    }
}

/// Evaluates `tokens` in one pass from left to right.
///
/// Returns the reduction of the expression: its literals and operators in
/// the order in which the operand stack meets them, which honours
/// precedence, left-to-right grouping of equal precedence, and parentheses.
/// Replaying a returned reduction never runs short of operands and leaves
/// exactly one value, the result; it has at most one step for each token.
/// Every malformed sequence is reported with the first failure met.
#[verifier::loop_isolation(false)]
pub fn evaluate(tokens: &[Token]) -> (result: Result<Vec<Step>, EvalError>)
    ensures
        match result {
            Ok(steps) => {
                &&& evaluate_spec(token_views(tokens@)) == Ok::<Seq<StepView>, EvalError>(
                    step_views(steps@),
                )
                &&& height(step_views(steps@)) == Some(1nat)
                &&& steps@.len() <= tokens@.len()
            },
            Err(e) => evaluate_spec(token_views(tokens@)) == Err::<Seq<StepView>, EvalError>(e),
        },
{
    let mut numbers = Operands::new();
    let mut operators: Vec<&Token> = Vec::new();
    let ghost all = token_views(tokens@);
    let mut i: usize = 0;
    assert(all.skip(0) =~= all);
    assert(pending_views(operators@) =~= Seq::empty());
    assert(step_views(numbers.steps@) =~= Seq::empty());
    while i < tokens.len()
        invariant
            i <= tokens.len(),
            numbers.well_formed(),
            numbers.steps@.len() + operators@.len() <= i,
            pending_ok(pending_views(operators@)),
            feed_all(initial(), all) == feed_all(machine(operators@, numbers), all.skip(i as int)),
        decreases tokens.len() - i,
    {
        let token = &tokens[i];
        let ghost before = machine(operators@, numbers);
        let ghost rest = all.skip(i as int);
        proof {
            assert(rest.first() == token@);
            assert(rest.drop_first() =~= all.skip(i + 1));
        }
        match token {
            Token::Number(digits) => {
                numbers.push_literal(digits);
            },
            Token::LeftParen => {
                operators.push(token);
                assert(pending_views(operators@) =~= before.operators.push(token@));
            },
            Token::RightParen => {
                let mut closed: bool = false;
                while !closed
                    invariant
                        numbers.well_formed(),
                        numbers.steps@.len() + operators@.len() <= i,
                        pending_ok(pending_views(operators@)),
                        !closed ==> close(before) == close(machine(operators@, numbers)),
                        closed ==> close(before) == Ok::<Machine, EvalError>(
                            machine(operators@, numbers),
                        ),
                    decreases operators.len() + (if closed { 0nat } else { 1nat }),
                {
                    let ghost held = operators@;
                    match operators.pop() {
                        None => {
                            return Err(EvalError::UnmatchedRightParen);
                        },
                        Some(top) => {
                            assert(pending_views(operators@) =~= pending_views(held).drop_last());
                            assert(pending_views(held).last() == top@);
                            if let Token::LeftParen = top {
                                closed = true;
                            } else {
                                match apply_operator(&mut numbers, top) {
                                    Ok(()) => {},
                                    Err(e) => {
                                        return Err(e);
                                    },
                                }
                            }
                        },
                    }
                }
            },
            _ => {
                let rank: u8 = precedence(token);
                while operators.len() > 0 && precedence(operators[operators.len() - 1]) >= rank
                    invariant
                        numbers.well_formed(),
                        numbers.steps@.len() + operators@.len() <= i,
                        pending_ok(pending_views(operators@)),
                        unwind(before, rank) == unwind(machine(operators@, numbers), rank),
                    decreases operators.len(),
                {
                    let ghost held = operators@;
                    let top = operators.pop().unwrap();
                    assert(pending_views(operators@) =~= pending_views(held).drop_last());
                    assert(pending_views(held).last() == top@);
                    match apply_operator(&mut numbers, top) {
                        Ok(()) => {},
                        Err(e) => {
                            return Err(e);
                        },
                    }
                }
                let ghost unwound = pending_views(operators@);
                assert(operators@.len() > 0 ==> unwound.last() == operators@.last()@);
                operators.push(token);
                assert(pending_views(operators@) =~= unwound.push(token@));
            },
        }
        i = i + 1;
    }
    let ghost fed = machine(operators@, numbers);
    while operators.len() > 0
        invariant
            numbers.well_formed(),
            numbers.steps@.len() + operators@.len() <= tokens@.len(),
            pending_ok(pending_views(operators@)),
            drain(fed) == drain(machine(operators@, numbers)),
        decreases operators.len(),
    {
        let ghost held = operators@;
        let top = operators.pop().unwrap();
        assert(pending_views(operators@) =~= pending_views(held).drop_last());
        assert(pending_views(held).last() == top@);
        if let Token::LeftParen = top {
            return Err(EvalError::UnmatchedLeftParen);
        }
        match apply_operator(&mut numbers, top) {
            Ok(()) => {},
            Err(e) => {
                return Err(e);
            },
        }
    }
    if numbers.depth == 0 {
        Err(EvalError::EmptyOperandStack)
    } else if numbers.depth > 1 {
        Err(EvalError::MalformedResult)
    } else {
        Ok(numbers.steps)
    }
}

/// Whether `value` is what a run of the reduction of `tokens` can leave
/// under the arithmetic of `literal` and `combine`.
pub open spec fn evaluates_to<V, L: Fn(&Vec<char>) -> V, C: Fn(&Step, V, V) -> V>(
    tokens: Seq<TokenView>,
    value: V,
    literal: &L,
    combine: &C,
) -> bool {
    exists|steps: Seq<Step>|
        evaluate_spec(tokens) == Ok::<Seq<StepView>, EvalError>(step_views(steps))
            && #[trigger] runs_to(steps, seq![value], literal, combine)
}

/// Evaluates `tokens` to a value, for an arithmetic given by the value of a
/// literal and the result of each operator on two operands, the earlier one
/// first.
///
/// Fails exactly where `evaluate` fails, with the same error; otherwise the
/// value is what a run of the reduction leaves.
pub fn evaluate_with<V, L: Fn(&Vec<char>) -> V, C: Fn(&Step, V, V) -> V>(
    tokens: &[Token],
    literal: L,
    combine: C,
) -> (result: Result<V, EvalError>)
    requires
        forall|digits: &Vec<char>| literal.requires((digits,)),
        forall|operator: &Step, a: V, b: V| combine.requires((operator, a, b)),
    ensures
        match result {
            Ok(value) => evaluates_to(token_views(tokens@), value, &literal, &combine),
            Err(e) => evaluate_spec(token_views(tokens@)) == Err::<Seq<StepView>, EvalError>(e),
        },
{
    match evaluate(tokens) {
        Ok(steps) => {
            let ghost reduction = steps@;
            let value = run(steps.as_slice(), literal, combine).unwrap();
            assert(runs_to(reduction, seq![value], &literal, &combine));
            assert(evaluates_to(token_views(tokens@), value, &literal, &combine));
            Ok(value)
        },
        Err(e) => Err(e),
    }
}

} // verus!
