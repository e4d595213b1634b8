//! Reductions: the flat record of what an evaluation does to its operand
//! stack, step by step.
//!
//! A reduction says, in order, which literal is pushed and which operator is
//! applied to the two topmost operands. Whoever supplies an arithmetic gets
//! the value of the expression by replaying it on a stack of numbers.

use vstd::prelude::*;

verus! {

/// One move on the operand stack.
#[derive(Debug, Clone, PartialEq, Eq)]
pub enum Step {
    /// Push the number that this run of decimal digits denotes.
    Push(Vec<char>),
    /// Pop `b`, pop `a`, push `a + b`.
    Add,
    /// Pop `b`, pop `a`, push `a - b`.
    Subtract,
    /// Pop `b`, pop `a`, push `a * b`.
    Multiply,
    /// Pop `b`, pop `a`, push `a / b`.
    Divide,
}

/// The mathematical value of a [`Step`].
pub enum StepView {
    Push(Seq<char>),
    Add,
    Subtract,
    Multiply,
    Divide,
}

impl View for Step {
    type V = StepView;

    open spec fn view(&self) -> StepView {
        match *self {
            Step::Push(digits) => StepView::Push(digits@),
            Step::Add => StepView::Add,
            Step::Subtract => StepView::Subtract,
            Step::Multiply => StepView::Multiply,
            Step::Divide => StepView::Divide,
        }
    }
}

/// The views of a sequence of steps, in order.
pub open spec fn step_views(steps: Seq<Step>) -> Seq<StepView> {
    Seq::new(steps.len(), |i: int| steps[i]@)
}

/// The height of the operand stack after `steps` have run on an empty stack,
/// or `None` where some step finds fewer than two operands to combine.
pub open spec fn height(steps: Seq<StepView>) -> Option<nat>
    decreases steps.len(),
{
    if steps.len() == 0 {
        Some(0)
    } else {
        match height(steps.drop_last()) {
            None => None,
            Some(below) => match steps.last() {
                StepView::Push(_) => Some(below + 1),
                _ => if below >= 2 {
                    Some((below - 1) as nat)
                } else {
                    None
                },
            },
        }
    }
}

/// A stack is never higher than the number of steps that built it.
pub proof fn lemma_height_bound(steps: Seq<StepView>)
    ensures
        height(steps) matches Some(h) ==> h <= steps.len(),
    decreases steps.len(),
{
    if steps.len() > 0 {
        lemma_height_bound(steps.drop_last());
    }
}

/// The operand stack after `steps` have run on an empty stack, for an
/// arithmetic given by the value of a literal and the result of each
/// operator. A step that finds fewer than two operands leaves the stack as
/// it is.
pub open spec fn replay<V>(
    steps: Seq<StepView>,
    literal: spec_fn(Seq<char>) -> V,
    combine: spec_fn(StepView, V, V) -> V,
) -> Seq<V>
    decreases steps.len(),
{
    if steps.len() == 0 {
        Seq::empty()
    } else {
        let below = replay(steps.drop_last(), literal, combine);
        match steps.last() {
            StepView::Push(digits) => below.push(literal(digits)),
            operator => if below.len() >= 2 {
                let a = below[below.len() - 2];
                let b = below[below.len() - 1];
                below.take(below.len() - 2).push(combine(operator, a, b))
            } else {
                below
            },
        }
    }
}

/// Where no step of a reduction runs short of operands, replaying it leaves
/// as many values as `height` says, whatever the arithmetic.
pub proof fn lemma_replay_height<V>(
    steps: Seq<StepView>,
    literal: spec_fn(Seq<char>) -> V,
    combine: spec_fn(StepView, V, V) -> V,
)
    requires
        height(steps) is Some,
    ensures
        replay(steps, literal, combine).len() == height(steps)->Some_0,
    decreases steps.len(),
{
    if steps.len() > 0 {
        lemma_replay_height(steps.drop_last(), literal, combine);
    }
}

/// Where a reduction never runs short of operands, none of its beginnings
/// does.
pub proof fn lemma_height_prefix(steps: Seq<StepView>, k: int)
    requires
        0 <= k <= steps.len(),
        height(steps) is Some,
    ensures
        height(steps.take(k)) is Some,
    decreases steps.len(),
{
    if k < steps.len() {
        lemma_height_prefix(steps.drop_last(), k);
        assert(steps.drop_last().take(k) =~= steps.take(k));
    } else {
        assert(steps.take(k) =~= steps);
    }
}

/// Whether running `steps` on an empty stack can leave `stack`, where
/// `literal` gives the value of each literal and `combine` the result of each
/// operator on the two topmost operands, the earlier one first.
pub open spec fn runs_to<V, L: Fn(&Vec<char>) -> V, C: Fn(&Step, V, V) -> V>(
    steps: Seq<Step>,
    stack: Seq<V>,
    literal: &L,
    combine: &C,
) -> bool
    decreases steps.len(),
{
    if steps.len() == 0 {
        stack.len() == 0
    } else {
        stack.len() > 0 && match steps.last() {
            Step::Push(digits) => runs_to(steps.drop_last(), stack.drop_last(), literal, combine)
                && literal.ensures((&digits,), stack.last()),
            operator => exists|a: V, b: V|
                runs_to(steps.drop_last(), stack.drop_last().push(a).push(b), literal, combine)
                    && #[trigger] combine.ensures((&operator, a, b), stack.last()),
        }
    }
}

/// Where `literal` and `combine` compute functions of their arguments, a
/// run leaves what replaying under those functions leaves.
pub proof fn lemma_run_replays<V, L: Fn(&Vec<char>) -> V, C: Fn(&Step, V, V) -> V>(
    steps: Seq<Step>,
    stack: Seq<V>,
    literal: &L,
    combine: &C,
    value_of: spec_fn(Seq<char>) -> V,
    result_of: spec_fn(StepView, V, V) -> V,
)
    requires
        runs_to(steps, stack, literal, combine),
        forall|digits: &Vec<char>, v: V| #[trigger]
            literal.ensures((digits,), v) ==> v == value_of(digits@),
        forall|operator: &Step, a: V, b: V, v: V| #[trigger]
            combine.ensures((operator, a, b), v) ==> v == result_of(operator@, a, b),
    ensures
        stack == replay(step_views(steps), value_of, result_of),
    decreases steps.len(),
{
    let views = step_views(steps);
    if steps.len() == 0 {
        assert(stack =~= Seq::empty());
    } else {
        assert(views.drop_last() =~= step_views(steps.drop_last()));
        assert(views.last() == steps.last()@);
        match steps.last() {
            Step::Push(digits) => {
                lemma_run_replays(
                    steps.drop_last(),
                    stack.drop_last(),
                    literal,
                    combine,
                    value_of,
                    result_of,
                );
                assert(literal.ensures((&digits,), stack.last()));
                assert(stack =~= stack.drop_last().push(stack.last()));
            },
            operator => {
                let (a, b) = choose|a: V, b: V|
                    runs_to(steps.drop_last(), stack.drop_last().push(a).push(b), literal, combine)
                        && #[trigger] combine.ensures((&operator, a, b), stack.last());
                let below = stack.drop_last().push(a).push(b);
                lemma_run_replays(steps.drop_last(), below, literal, combine, value_of, result_of);
                assert(below.take(below.len() - 2) =~= stack.drop_last());
                assert(stack =~= stack.drop_last().push(stack.last()));
            },
        }
    }
}

/// Runs a reduction on an operand stack of values of any kind.
///
/// `literal` is called once for each pushed literal, and `combine` once for
/// each operator, with the earlier operand first; the calls come in the
/// order of the steps. Returns the one value that is left, and nothing
/// where a step runs short of operands or where the steps do not leave
/// exactly one value.
pub fn run<V, L: Fn(&Vec<char>) -> V, C: Fn(&Step, V, V) -> V>(
    steps: &[Step],
    literal: L,
    combine: C,
) -> (result: Option<V>)
    requires
        forall|digits: &Vec<char>| literal.requires((digits,)),
        forall|operator: &Step, a: V, b: V| combine.requires((operator, a, b)),
    ensures
        result is Some <==> height(step_views(steps@)) == Some(1nat),
        result matches Some(value) ==> runs_to(steps@, seq![value], &literal, &combine),
{
    let mut stack: Vec<V> = Vec::new();
    let mut i: usize = 0;
    let ghost views = step_views(steps@);
    assert(views.take(0) =~= Seq::empty());
    assert(steps@.take(0) =~= Seq::empty());
    while i < steps.len()
        invariant
            i <= steps.len(),
            views == step_views(steps@),
            height(views.take(i as int)) == Some(stack@.len()),
            runs_to(steps@.take(i as int), stack@, &literal, &combine),
            forall|digits: &Vec<char>| literal.requires((digits,)),
            forall|operator: &Step, a: V, b: V| combine.requires((operator, a, b)),
        decreases steps.len() - i,
    {
        let ghost before = stack@;
        proof {
            assert(views.take(i + 1).drop_last() =~= views.take(i as int));
            assert(steps@.take(i + 1).drop_last() =~= steps@.take(i as int));
            assert(views.take(i + 1).last() == steps@[i as int]@);
            assert(steps@.take(i + 1).last() == steps@[i as int]);
        }
        let step = &steps[i];
        match step {
            Step::Push(digits) => {
                let value = literal(digits);
                stack.push(value);
                assert(stack@.drop_last() =~= before);
            },
            _ => {
                if stack.len() < 2 {
                    proof {
                        if height(views) is Some {
                            lemma_height_prefix(views, i + 1);
                        }
                    }
                    return None;
                }
                let b = stack.pop().unwrap();
                let a = stack.pop().unwrap();
                let ghost below = stack@;
                let value = combine(step, a, b);
                stack.push(value);
                assert(stack@.drop_last() =~= below);
                assert(stack@.drop_last().push(a).push(b) =~= before);
                assert(combine.ensures((step, a, b), stack@.last()));
            },
        }
        i = i + 1;
    }
    assert(views.take(i as int) =~= views);
    assert(steps@.take(i as int) =~= steps@);
    if stack.len() == 1 {
        let ghost whole = stack@;
        let value = stack.pop().unwrap();
        assert(seq![value] =~= whole);
        Some(value)
    } else {
        None
    }
}

} // verus!
