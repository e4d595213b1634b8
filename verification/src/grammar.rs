//! Expressions in the usual infix grammar, and the proof that the evaluator
//! reduces each of them as the grammar groups it.
//!
//! An expression is a literal, a parenthesised expression, or two
//! expressions joined by a binary operator, where `*` and `/` bind tighter
//! than `+` and `-` and operators of equal strength group from the left.

use vstd::prelude::*;
use crate::token::{EvalError, TokenView, is_operator, precedence_spec};
use crate::reduction::{Step, StepView, lemma_run_replays, replay, runs_to, step_views};
use crate::evaluator::{
    Machine,
    apply,
    close,
    drain,
    evaluate_spec,
    evaluates_to,
    feed,
    feed_all,
    initial,
    popped,
    step_of,
    unwind,
};

verus! {

/// A syntax tree of the infix grammar.
pub enum Expr {
    /// A number, written with these digits.
    Literal(Seq<char>),
    /// Two operands joined by a binary operator.
    Binary(TokenView, Box<Expr>, Box<Expr>),
    /// An expression in parentheses.
    Group(Box<Expr>),
}

/// How tightly the outermost construct of an expression binds: the
/// precedence of its operator, or 3 for a literal or a group.
pub open spec fn rank(e: Expr) -> u8 {
    match e {
        Expr::Binary(operator, _, _) => precedence_spec(operator),
        _ => 3,
    }
}

/// The trees that the grammar derives: the left operand of an operator binds
/// at least as tightly as the operator, the right operand strictly
/// tighter.
pub open spec fn is_expression(e: Expr) -> bool
    decreases e,
{
    match e {
        Expr::Literal(_) => true,
        Expr::Group(inner) => is_expression(*inner),
        Expr::Binary(operator, left, right) => {
            &&& is_operator(operator)
            &&& is_expression(*left)
            &&& is_expression(*right)
            &&& rank(*left) >= precedence_spec(operator)
            &&& rank(*right) > precedence_spec(operator)
        },
    }
}

/// The tokens of an expression as it is written.
pub open spec fn infix(e: Expr) -> Seq<TokenView>
    decreases e,
{
    match e {
        Expr::Literal(digits) => seq![TokenView::Number(digits)],
        Expr::Group(inner) => seq![TokenView::LeftParen] + infix(*inner) + seq![
            TokenView::RightParen,
        ],
        Expr::Binary(operator, left, right) => infix(*left) + seq![operator] + infix(*right),
    }
}

/// The reduction of an expression: each operator behind both its operands.
pub open spec fn postfix(e: Expr) -> Seq<StepView>
    decreases e,
{
    match e {
        Expr::Literal(digits) => seq![StepView::Push(digits)],
        Expr::Group(inner) => postfix(*inner),
        Expr::Binary(operator, left, right) => postfix(*left) + postfix(*right) + seq![
            step_of(operator),
        ],
    }
}

/// The value of an expression, for an arithmetic given by the value of a
/// literal and the result of each operator.
pub open spec fn value<V>(
    e: Expr,
    literal: spec_fn(Seq<char>) -> V,
    combine: spec_fn(StepView, V, V) -> V,
) -> V
    decreases e,
{
    match e {
        Expr::Literal(digits) => literal(digits),
        Expr::Group(inner) => value(*inner, literal, combine),
        Expr::Binary(operator, left, right) => combine(
            step_of(operator),
            value(*left, literal, combine),
            value(*right, literal, combine),
        ),
    }
}

/// The operators of an expression that are still pending when its last
/// token has been fed: those along its right edge, outermost first.
pub open spec fn pending(e: Expr) -> Seq<TokenView>
    decreases e,
{
    match e {
        Expr::Binary(operator, _, right) => seq![operator] + pending(*right),
        _ => Seq::empty(),
    }
}

/// The steps that have been taken when the last token of an expression has
/// been fed.
pub open spec fn emitted(e: Expr) -> Seq<StepView>
    decreases e,
{
    match e {
        Expr::Literal(digits) => seq![StepView::Push(digits)],
        Expr::Group(inner) => postfix(*inner),
        Expr::Binary(_, left, right) => postfix(*left) + emitted(*right),
    }
}

/// The steps that apply pending operators, the most recent first.
pub open spec fn applied(operators: Seq<TokenView>) -> Seq<StepView>
    decreases operators.len(),
{
    if operators.len() == 0 {
        Seq::empty()
    } else {
        seq![step_of(operators.last())] + applied(operators.drop_last())
    }
}

/// Nothing pending binds as tightly as `level`: the operator stack is empty,
/// or its top is an open parenthesis or a weaker operator.
pub open spec fn sheltered(operators: Seq<TokenView>, level: u8) -> bool {
    operators.len() == 0 || precedence_spec(operators.last()) < level
}

/// Every one of `operators` is a binary operator that binds at least as
/// tightly as `level`.
pub open spec fn all_bind(operators: Seq<TokenView>, level: u8) -> bool {
    forall|k: int|
        0 <= k < operators.len() ==> is_operator(#[trigger] operators[k]) && precedence_spec(
            operators[k],
        ) >= level
}

/// The machine once the tokens of `e` have been fed to `m`.
pub open spec fn after(m: Machine, e: Expr) -> Machine {
    Machine {
        operators: m.operators + pending(e),
        depth: m.depth + 1 + pending(e).len(),
        steps: m.steps + emitted(e),
    }
}

/// Feeding two runs of tokens one after the other is feeding their
/// concatenation.
pub proof fn lemma_feed_all_concat(m: Machine, first: Seq<TokenView>, second: Seq<TokenView>)
    ensures
        feed_all(m, first + second) == match feed_all(m, first) {
            Ok(next) => feed_all(next, second),
            Err(e) => Err(e),
        },
    decreases first.len(),
{
    if first.len() == 0 {
        assert(first + second =~= second);
    } else {
        assert((first + second).first() == first.first());
        assert((first + second).drop_first() =~= first.drop_first() + second);
        if let Ok(next) = feed(m, first.first()) {
            lemma_feed_all_concat(next, first.drop_first(), second);
        }
    }
}

/// Feeding a single token is one step of the machine.
pub proof fn lemma_feed_one(m: Machine, token: TokenView)
    ensures
        feed_all(m, seq![token]) == feed(m, token),
{
    let one = seq![token];
    assert(one.first() == token);
    assert(one.drop_first() =~= Seq::<TokenView>::empty());
    if let Ok(next) = feed(m, token) {
        assert(feed_all(next, one.drop_first()) == Ok::<Machine, EvalError>(next));
    }
}

/// Applying operators one more recent than the others applies that one
/// last.
proof fn lemma_applied_front(operator: TokenView, operators: Seq<TokenView>)
    ensures
        applied(seq![operator] + operators) == applied(operators) + seq![step_of(operator)],
    decreases operators.len(),
{
    let whole = seq![operator] + operators;
    if operators.len() == 0 {
        assert(whole.drop_last() =~= Seq::<TokenView>::empty());
        assert(whole.last() == operator);
        assert(applied(whole.drop_last()) =~= Seq::<StepView>::empty());
        assert(applied(whole) =~= seq![step_of(operator)]);
        assert(applied(operators) + seq![step_of(operator)] =~= seq![step_of(operator)]);
    } else {
        assert(whole.last() == operators.last());
        assert(whole.drop_last() =~= seq![operator] + operators.drop_last());
        lemma_applied_front(operator, operators.drop_last());
        assert(applied(whole) =~= applied(operators) + seq![step_of(operator)]);
    }
}

/// The operators pending behind an expression bind at least as tightly as
/// the expression itself, which binds at least as tightly as `+`.
proof fn lemma_pending_bind(e: Expr)
    requires
        is_expression(e),
    ensures
        all_bind(pending(e), rank(e)),
        rank(e) >= 1,
    decreases e,
{
    match e {
        Expr::Binary(operator, left, right) => {
            lemma_pending_bind(*right);
            let rest = pending(*right);
            assert forall|k: int| 0 <= k < pending(e).len() implies is_operator(
                #[trigger] pending(e)[k],
            ) && precedence_spec(pending(e)[k]) >= rank(e) by {
                if k > 0 {
                    assert(pending(e)[k] == rest[k - 1]);
                }
            }
        },
        _ => {},
    }
}

/// Once the pending operators of an expression are applied, its whole
/// reduction has been taken.
proof fn lemma_emitted_applied(e: Expr)
    requires
        is_expression(e),
    ensures
        emitted(e) + applied(pending(e)) == postfix(e),
    decreases e,
{
    match e {
        Expr::Binary(operator, left, right) => {
            lemma_emitted_applied(*right);
            lemma_applied_front(operator, pending(*right));
            assert(emitted(e) + applied(pending(e)) =~= postfix(*left) + (emitted(*right)
                + applied(pending(*right))) + seq![step_of(operator)]);
        },
        _ => {
            assert(emitted(e) + applied(pending(e)) =~= postfix(e));
        },
    }
}

/// An operator that arrives applies every pending operator that binds at
/// least as tightly, and stops where the stack is sheltered.
proof fn lemma_unwind_pending(
    m: Machine,
    base: Seq<TokenView>,
    operators: Seq<TokenView>,
    level: u8,
)
    requires
        m.operators == base + operators,
        m.depth >= operators.len() + 1,
        level >= 1,
        sheltered(base, level),
        all_bind(operators, level),
    ensures
        unwind(m, level) == Ok::<Machine, EvalError>(
            Machine {
                operators: base,
                depth: (m.depth - operators.len()) as nat,
                steps: m.steps + applied(operators),
            },
        ),
    decreases operators.len(),
{
    if operators.len() == 0 {
        assert(m.operators =~= base);
        assert(m.steps + applied(operators) =~= m.steps);
    } else {
        let top = operators.last();
        assert(m.operators.last() == top);
        assert(m.operators.drop_last() =~= base + operators.drop_last());
        let next = apply(popped(m), top)->Ok_0;
        lemma_unwind_pending(next, base, operators.drop_last(), level);
        assert(next.steps + applied(operators.drop_last()) =~= m.steps + applied(operators));
    }
}

/// A closing parenthesis applies every operator pending above the open
/// parenthesis, and discards the parenthesis.
proof fn lemma_close_pending(m: Machine, base: Seq<TokenView>, operators: Seq<TokenView>)
    requires
        m.operators == base.push(TokenView::LeftParen) + operators,
        m.depth >= operators.len() + 1,
        all_bind(operators, 1),
    ensures
        close(m) == Ok::<Machine, EvalError>(
            Machine {
                operators: base,
                depth: (m.depth - operators.len()) as nat,
                steps: m.steps + applied(operators),
            },
        ),
    decreases operators.len(),
{
    if operators.len() == 0 {
        assert(m.operators =~= base.push(TokenView::LeftParen));
        assert(m.operators.drop_last() =~= base);
        assert(m.steps + applied(operators) =~= m.steps);
    } else {
        let top = operators.last();
        assert(m.operators.last() == top);
        assert(m.operators.drop_last() =~= base.push(TokenView::LeftParen)
            + operators.drop_last());
        let next = apply(popped(m), top)->Ok_0;
        lemma_close_pending(next, base, operators.drop_last());
        assert(next.steps + applied(operators.drop_last()) =~= m.steps + applied(operators));
    }
}

/// The end of the tokens applies every pending operator.
proof fn lemma_drain_pending(m: Machine)
    requires
        m.depth >= m.operators.len() + 1,
        all_bind(m.operators, 1),
    ensures
        drain(m) == Ok::<Machine, EvalError>(
            Machine {
                operators: Seq::empty(),
                depth: (m.depth - m.operators.len()) as nat,
                steps: m.steps + applied(m.operators),
            },
        ),
    decreases m.operators.len(),
{
    if m.operators.len() == 0 {
        assert(m.operators =~= Seq::empty());
        assert(m.steps + applied(m.operators) =~= m.steps);
    } else {
        let top = m.operators.last();
        let next = apply(popped(m), top)->Ok_0;
        lemma_drain_pending(next);
        assert(next.steps + applied(next.operators) =~= m.steps + applied(m.operators));
    }
}

/// Feeding the tokens of an expression to a machine whose stack is
/// sheltered never fails: it leaves what was pending untouched, one more
/// operand, and the operators of the expression's right edge pending.
pub proof fn lemma_feed_expression(m: Machine, e: Expr)
    requires
        is_expression(e),
        sheltered(m.operators, rank(e)),
    ensures
        feed_all(m, infix(e)) == Ok::<Machine, EvalError>(after(m, e)),
    decreases e,
{
    match e {
        Expr::Literal(digits) => {
            lemma_feed_one(m, TokenView::Number(digits));
            assert(m.operators + pending(e) =~= m.operators);
            assert(m.steps + emitted(e) =~= m.steps.push(StepView::Push(digits)));
        },
        Expr::Group(inner) => {
            let open = seq![TokenView::LeftParen];
            let shut = seq![TokenView::RightParen];
            lemma_feed_all_concat(m, open + infix(*inner), shut);
            lemma_feed_all_concat(m, open, infix(*inner));
            lemma_feed_one(m, TokenView::LeftParen);
            let opened = Machine { operators: m.operators.push(TokenView::LeftParen), ..m };
            lemma_pending_bind(*inner);
            lemma_feed_expression(opened, *inner);
            let inside = after(opened, *inner);
            lemma_feed_one(inside, TokenView::RightParen);
            assert(all_bind(pending(*inner), 1));
            lemma_close_pending(inside, m.operators, pending(*inner));
            lemma_emitted_applied(*inner);
            assert(m.operators + pending(e) =~= m.operators);
            assert(inside.steps + applied(pending(*inner)) =~= m.steps + emitted(e));
        },
        Expr::Binary(operator, left, right) => {
            let level = precedence_spec(operator);
            lemma_feed_all_concat(m, infix(*left) + seq![operator], infix(*right));
            lemma_feed_all_concat(m, infix(*left), seq![operator]);
            lemma_feed_expression(m, *left);
            let first = after(m, *left);
            lemma_feed_one(first, operator);
            lemma_pending_bind(*left);
            assert(all_bind(pending(*left), level));
            lemma_unwind_pending(first, m.operators, pending(*left), level);
            lemma_emitted_applied(*left);
            let joined = Machine {
                operators: m.operators.push(operator),
                depth: m.depth + 1,
                steps: m.steps + postfix(*left),
            };
            assert(first.steps + applied(pending(*left)) =~= m.steps + postfix(*left));
            assert(feed(first, operator) == Ok::<Machine, EvalError>(joined));
            lemma_feed_expression(joined, *right);
            assert(joined.operators + pending(*right) =~= m.operators + pending(e));
            assert(joined.steps + emitted(*right) =~= m.steps + emitted(e));
        },
    }
}

/// The evaluator reduces every expression of the grammar as the grammar
/// groups it: tighter operators first, equal ones from the left, and what
/// stands in parentheses before what surrounds it.
pub proof fn lemma_expression_evaluates(e: Expr)
    requires
        is_expression(e),
    ensures
        evaluate_spec(infix(e)) == Ok::<Seq<StepView>, EvalError>(postfix(e)),
{
    lemma_pending_bind(e);
    lemma_feed_expression(initial(), e);
    let fed = after(initial(), e);
    assert(fed.operators =~= pending(e));
    lemma_drain_pending(fed);
    lemma_emitted_applied(e);
    assert(fed.steps + applied(fed.operators) =~= postfix(e));
}

/// Replaying the reduction of an expression behind other steps puts the
/// value of the expression on top of what those steps left.
pub proof fn lemma_postfix_replays<V>(
    before: Seq<StepView>,
    e: Expr,
    literal: spec_fn(Seq<char>) -> V,
    combine: spec_fn(StepView, V, V) -> V,
)
    requires
        is_expression(e),
    ensures
        replay(before + postfix(e), literal, combine) == replay(before, literal, combine).push(
            value(e, literal, combine),
        ),
    decreases e,
{
    match e {
        Expr::Literal(digits) => {
            let steps = before + postfix(e);
            assert(steps.drop_last() =~= before);
            assert(steps.last() == StepView::Push(digits));
        },
        Expr::Group(inner) => {
            lemma_postfix_replays(before, *inner, literal, combine);
        },
        Expr::Binary(operator, left, right) => {
            let steps = before + postfix(e);
            lemma_postfix_replays(before, *left, literal, combine);
            lemma_postfix_replays(before + postfix(*left), *right, literal, combine);
            assert(steps.drop_last() =~= before + postfix(*left) + postfix(*right));
            assert(steps.last() == step_of(operator));
            let below = replay(steps.drop_last(), literal, combine);
            let base = replay(before, literal, combine);
            assert(below == base.push(value(*left, literal, combine)).push(
                value(*right, literal, combine),
            ));
            assert(below.take(below.len() - 2) =~= base);
            assert(!(step_of(operator) is Push));
        },
    }
}

/// Under any arithmetic, the reduction that the evaluator yields for an
/// expression of the grammar replays to the value of that expression.
pub proof fn lemma_expression_value<V>(
    e: Expr,
    literal: spec_fn(Seq<char>) -> V,
    combine: spec_fn(StepView, V, V) -> V,
)
    requires
        is_expression(e),
    ensures
        evaluate_spec(infix(e)) matches Ok(steps) && replay(steps, literal, combine) == seq![
            value(e, literal, combine),
        ],
{
    lemma_expression_evaluates(e);
    lemma_postfix_replays(Seq::empty(), e, literal, combine);
    assert(Seq::<StepView>::empty() + postfix(e) =~= postfix(e));
    assert(replay(Seq::<StepView>::empty(), literal, combine) =~= Seq::<V>::empty());
    assert(Seq::<V>::empty().push(value(e, literal, combine)) =~= seq![
        value(e, literal, combine),
    ]);
}

/// Whoever evaluates an expression with an arithmetic that computes
/// functions of its arguments gets the value of the expression.
pub proof fn lemma_expression_evaluates_to_value<
    V,
    L: Fn(&Vec<char>) -> V,
    C: Fn(&Step, V, V) -> V,
>(
    e: Expr,
    outcome: V,
    literal: &L,
    combine: &C,
    value_of: spec_fn(Seq<char>) -> V,
    result_of: spec_fn(StepView, V, V) -> V,
)
    requires
        is_expression(e),
        evaluates_to(infix(e), outcome, literal, combine),
        forall|digits: &Vec<char>, v: V| #[trigger]
            literal.ensures((digits,), v) ==> v == value_of(digits@),
        forall|operator: &Step, a: V, b: V, v: V| #[trigger]
            combine.ensures((operator, a, b), v) ==> v == result_of(operator@, a, b),
    ensures
        outcome == value(e, value_of, result_of),
{
    let steps = choose|steps: Seq<Step>|
        evaluate_spec(infix(e)) == Ok::<Seq<StepView>, EvalError>(step_views(steps))
            && #[trigger] runs_to(steps, seq![outcome], literal, combine);
    lemma_expression_value(e, value_of, result_of);
    lemma_run_replays(steps, seq![outcome], literal, combine, value_of, result_of);
    assert(seq![outcome][0] == outcome);
}

} // verus!
