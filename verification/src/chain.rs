//! Chains of additions and subtractions group from the left.
//!
//! For `n0 ± n1 ± ... ± nk` the evaluator yields the reduction of
//! `((n0 ± n1) ± ...) ± nk`, and so, under any arithmetic, the value of the
//! naive fold from left to right.

use vstd::prelude::*;
use crate::token::{EvalError, TokenView};
use crate::reduction::{Step, StepView, replay};
use crate::evaluator::{evaluate_spec, evaluates_to, step_of};
use crate::grammar::{
    Expr,
    infix,
    is_expression,
    lemma_expression_evaluates,
    lemma_expression_evaluates_to_value,
    lemma_expression_value,
    postfix,
    rank,
    value,
};

verus! {

/// What may stand at a position of a chain: a number at an even one, `+`
/// or `-` at an odd one.
pub open spec fn fits(token: TokenView, position: int) -> bool {
    if position % 2 == 0 {
        token is Number
    } else {
        token is Plus || token is Minus
    }
}

/// Numbers at the even positions, `+` or `-` between them, and a number at
/// either end.
pub open spec fn is_additive_chain(tokens: Seq<TokenView>) -> bool {
    &&& tokens.len() % 2 == 1
    &&& forall|k: int| 0 <= k < tokens.len() ==> fits(#[trigger] tokens[k], k)
}

/// The reduction that folds a chain from the left: the first number, then
/// each further number followed at once by the operator before it.
pub open spec fn fold_steps(tokens: Seq<TokenView>) -> Seq<StepView>
    recommends
        is_additive_chain(tokens),
    decreases tokens.len(),
{
    if tokens.len() < 3 {
        seq![StepView::Push(tokens[0]->Number_0)]
    } else {
        fold_steps(tokens.take(tokens.len() - 2)).push(
            StepView::Push(tokens[tokens.len() - 1]->Number_0),
        ).push(step_of(tokens[tokens.len() - 2]))
    }
}

/// The value of a chain folded from the left, for an arithmetic given by
/// the value of a literal and the result of each operator.
pub open spec fn fold_value<V>(
    tokens: Seq<TokenView>,
    literal: spec_fn(Seq<char>) -> V,
    combine: spec_fn(StepView, V, V) -> V,
) -> V
    recommends
        is_additive_chain(tokens),
    decreases tokens.len(),
{
    if tokens.len() < 3 {
        literal(tokens[0]->Number_0)
    } else {
        combine(
            step_of(tokens[tokens.len() - 2]),
            fold_value(tokens.take(tokens.len() - 2), literal, combine),
            literal(tokens[tokens.len() - 1]->Number_0),
        )
    }
}

/// The syntax tree of a chain: every operator has all that stands before it
/// as its left operand.
pub open spec fn chain_tree(tokens: Seq<TokenView>) -> Expr
    recommends
        is_additive_chain(tokens),
    decreases tokens.len(),
{
    if tokens.len() < 3 {
        Expr::Literal(tokens[0]->Number_0)
    } else {
        Expr::Binary(
            tokens[tokens.len() - 2],
            Box::new(chain_tree(tokens.take(tokens.len() - 2))),
            Box::new(Expr::Literal(tokens[tokens.len() - 1]->Number_0)),
        )
    }
}

/// A chain is the infix form of its tree, an expression of the grammar
/// whose reduction and value are the fold from the left.
pub proof fn lemma_chain_tree<V>(
    tokens: Seq<TokenView>,
    literal: spec_fn(Seq<char>) -> V,
    combine: spec_fn(StepView, V, V) -> V,
)
    requires
        is_additive_chain(tokens),
    ensures
        is_expression(chain_tree(tokens)),
        rank(chain_tree(tokens)) >= 1,
        infix(chain_tree(tokens)) == tokens,
        postfix(chain_tree(tokens)) == fold_steps(tokens),
        value(chain_tree(tokens), literal, combine) == fold_value(tokens, literal, combine),
    decreases tokens.len(),
{
    let tree = chain_tree(tokens);
    if tokens.len() < 3 {
        assert(tokens[0] is Number);
        assert(infix(tree) =~= tokens);
    } else {
        let shorter = tokens.take(tokens.len() - 2);
        let operator = tokens[tokens.len() - 2];
        let number = tokens[tokens.len() - 1];
        assert forall|k: int| 0 <= k < shorter.len() implies fits(#[trigger] shorter[k], k) by {
            assert(shorter[k] == tokens[k]);
        }
        assert(fits(operator, tokens.len() - 2) && fits(number, tokens.len() - 1));
        lemma_chain_tree(shorter, literal, combine);
        let last = Expr::Literal(number->Number_0);
        assert(is_expression(last));
        assert(infix(last) =~= seq![number]);
        assert(postfix(last) =~= seq![StepView::Push(number->Number_0)]);
        assert(value(last, literal, combine) == literal(number->Number_0));
        assert(infix(tree) =~= tokens);
        assert(postfix(tree) =~= fold_steps(tokens));
    }
}

/// A chain of additions and subtractions evaluates to the reduction that
/// folds it from the left, and replaying that reduction under any
/// arithmetic leaves the value of the naive left-to-right fold.
pub proof fn lemma_additive_chain_folds_left<V>(
    tokens: Seq<TokenView>,
    literal: spec_fn(Seq<char>) -> V,
    combine: spec_fn(StepView, V, V) -> V,
)
    requires
        is_additive_chain(tokens),
    ensures
        evaluate_spec(tokens) == Ok::<Seq<StepView>, EvalError>(fold_steps(tokens)),
        replay(fold_steps(tokens), literal, combine) == seq![
            fold_value(tokens, literal, combine),
        ],
{
    lemma_chain_tree(tokens, literal, combine);
    lemma_expression_evaluates(chain_tree(tokens));
    lemma_expression_value(chain_tree(tokens), literal, combine);
}

/// Whoever evaluates a chain with an arithmetic that computes functions of
/// its arguments gets the value of the left-to-right fold.
pub proof fn lemma_chain_evaluates_to_fold<V, L: Fn(&Vec<char>) -> V, C: Fn(&Step, V, V) -> V>(
    tokens: Seq<TokenView>,
    outcome: V,
    literal: &L,
    combine: &C,
    value_of: spec_fn(Seq<char>) -> V,
    result_of: spec_fn(StepView, V, V) -> V,
)
    requires
        is_additive_chain(tokens),
        evaluates_to(tokens, outcome, literal, combine),
        forall|digits: &Vec<char>, v: V| #[trigger]
            literal.ensures((digits,), v) ==> v == value_of(digits@),
        forall|operator: &Step, a: V, b: V, v: V| #[trigger]
            combine.ensures((operator, a, b), v) ==> v == result_of(operator@, a, b),
    ensures
        outcome == fold_value(tokens, value_of, result_of),
{
    lemma_chain_tree(tokens, value_of, result_of);
    lemma_expression_evaluates_to_value(
        chain_tree(tokens),
        outcome,
        literal,
        combine,
        value_of,
        result_of,
    );
}

} // verus!
