use calculator::evaluator::{apply_operator, evaluate, evaluate_with, Operands};
use calculator::reduction::{run, Step};
use calculator::scanner::{characters, parse_number, tokenize};
use calculator::token::{precedence, EvalError, LexError, Token};

fn number(text: &str) -> Token {
    Token::Number(text.chars().collect())
}

fn push(text: &str) -> Step {
    Step::Push(text.chars().collect())
}

fn value_of(digits: &Vec<char>) -> f64 {
    let text: String = digits.iter().collect();
    text.parse().unwrap()
}

fn result_of(operator: &Step, a: f64, b: f64) -> f64 {
    match operator {
        Step::Add => a + b,
        Step::Subtract => a - b,
        Step::Multiply => a * b,
        _ => a / b,
    }
}

fn compute(input: &str) -> Result<f64, EvalError> {
    let tokens = tokenize(input).unwrap();
    let value = evaluate_with(&tokens, value_of, result_of);
    let steps = evaluate(&tokens);
    match &value {
        Ok(v) => {
            let replayed = run(steps.as_ref().unwrap(), value_of, result_of).unwrap();
            assert!(replayed == *v || (replayed.is_nan() && v.is_nan()));
        }
        Err(e) => assert_eq!(steps, Err(*e)),
    }
    value
}

#[test]
fn tokenize_product_of_two_numbers() {
    assert_eq!(
        tokenize("11 * 11"),
        Ok(vec![number("11"), Token::Multiply, number("11")])
    );
}

#[test]
fn evaluate_product_of_two_numbers() {
    assert_eq!(compute("11 * 11"), Ok(121.0));
}

#[test]
fn evaluate_mixed_precedence_and_grouping() {
    assert_eq!(compute("3 + 4 * 2 / (6 - 5) * 2 + 3"), Ok(22.0));
}

#[test]
fn reduction_of_mixed_precedence_is_exact() {
    let tokens = tokenize("1 + 2 * 3").unwrap();
    assert_eq!(
        evaluate(&tokens),
        Ok(vec![push("1"), push("2"), push("3"), Step::Multiply, Step::Add])
    );
}

#[test]
fn reduction_of_parenthesised_sum_is_exact() {
    let tokens = tokenize("(1 + 2) * 3").unwrap();
    assert_eq!(
        evaluate(&tokens),
        Ok(vec![push("1"), push("2"), Step::Add, push("3"), Step::Multiply])
    );
}

#[test]
fn additive_chain_is_a_left_fold() {
    let tokens = tokenize("10 - 4 - 3 + 2").unwrap();
    assert_eq!(
        evaluate(&tokens),
        Ok(vec![
            push("10"),
            push("4"),
            Step::Subtract,
            push("3"),
            Step::Subtract,
            push("2"),
            Step::Add
        ])
    );
    assert_eq!(compute("10 - 4 - 3 + 2"), Ok(((10.0 - 4.0) - 3.0) + 2.0));
}

#[test]
fn subtraction_takes_the_earlier_operand_first() {
    assert_eq!(compute("2 - 3"), Ok(-1.0));
}

#[test]
fn division_groups_from_the_left() {
    assert_eq!(compute("8 / 4 / 2"), Ok(1.0));
    assert_eq!(compute("8 / (4 / 2)"), Ok(4.0));
}

#[test]
fn equal_precedence_applies_at_once() {
    let tokens = tokenize("6 / 3 * 2").unwrap();
    assert_eq!(
        evaluate(&tokens),
        Ok(vec![push("6"), push("3"), Step::Divide, push("2"), Step::Multiply])
    );
    assert_eq!(compute("6 / 3 * 2"), Ok(4.0));
}

#[test]
fn tokenize_twice_gives_equal_tokens() {
    let input = "3 + 4 * (2 - 1)";
    assert_eq!(tokenize(input), tokenize(input));
    assert_eq!(tokenize("7 & 1"), tokenize("7 & 1"));
}

#[test]
fn unclosed_parenthesis_is_reported() {
    let tokens = tokenize("(1 + 2").unwrap();
    assert_eq!(evaluate(&tokens), Err(EvalError::UnmatchedLeftParen));
    assert_eq!(evaluate(&[Token::LeftParen]), Err(EvalError::UnmatchedLeftParen));
}

#[test]
fn unopened_parenthesis_is_reported() {
    let tokens = tokenize("1 + 2)").unwrap();
    assert_eq!(evaluate(&tokens), Err(EvalError::UnmatchedRightParen));
    assert_eq!(evaluate(&[Token::RightParen]), Err(EvalError::UnmatchedRightParen));
}

#[test]
fn division_by_zero_is_a_value() {
    let result = compute("1 / 0").unwrap();
    assert!(result.is_infinite() && result > 0.0);
    assert!(compute("0 / 0").unwrap().is_nan());
    let negative = compute("(0 - 1) / 0").unwrap();
    assert!(negative.is_infinite() && negative < 0.0);
}

#[test]
fn unexpected_character_is_reported_with_its_position() {
    assert_eq!(tokenize("3 & 4"), Err(LexError::UnexpectedCharacter('&', 2)));
}

#[test]
fn first_unexpected_character_wins() {
    assert_eq!(tokenize("1 ? 2 ! 3"), Err(LexError::UnexpectedCharacter('?', 2)));
}

#[test]
fn decimal_point_is_not_part_of_a_number() {
    assert_eq!(tokenize("1.5"), Err(LexError::UnexpectedCharacter('.', 1)));
}

#[test]
fn position_counts_characters() {
    assert_eq!(tokenize("\u{e9}\u{e9} x"), Err(LexError::UnexpectedCharacter('\u{e9}', 0)));
    assert_eq!(tokenize("1 + \u{e9}"), Err(LexError::UnexpectedCharacter('\u{e9}', 4)));
    assert_eq!(tokenize("(\u{4e2d}"), Err(LexError::UnexpectedCharacter('\u{4e2d}', 1)));
}

#[test]
fn other_whitespace_is_not_skipped() {
    assert_eq!(tokenize("1\t2"), Err(LexError::UnexpectedCharacter('\t', 1)));
    assert_eq!(tokenize("1\n"), Err(LexError::UnexpectedCharacter('\n', 1)));
}

#[test]
fn non_ascii_digits_are_rejected() {
    assert_eq!(tokenize("\u{663}"), Err(LexError::UnexpectedCharacter('\u{663}', 0)));
}

#[test]
fn empty_input_has_no_tokens_and_no_value() {
    assert_eq!(tokenize(""), Ok(vec![]));
    assert_eq!(tokenize("   "), Ok(vec![]));
    assert_eq!(evaluate(&tokenize("").unwrap()), Err(EvalError::EmptyOperandStack));
}

#[test]
fn two_numbers_without_operator_are_malformed() {
    let tokens = tokenize("1 2").unwrap();
    assert_eq!(tokens, vec![number("1"), number("2")]);
    assert_eq!(evaluate(&tokens), Err(EvalError::MalformedResult));
}

#[test]
fn operator_without_operands_is_reported() {
    assert_eq!(evaluate(&tokenize("+ 1").unwrap()), Err(EvalError::EmptyOperandStack));
    assert_eq!(evaluate(&tokenize("1 +").unwrap()), Err(EvalError::EmptyOperandStack));
    assert_eq!(evaluate(&tokenize("1 + * 2").unwrap()), Err(EvalError::EmptyOperandStack));
    assert_eq!(evaluate(&tokenize("()").unwrap()), Err(EvalError::EmptyOperandStack));
    assert_eq!(evaluate(&tokenize("+)").unwrap()), Err(EvalError::EmptyOperandStack));
}

#[test]
fn nested_parentheses_group() {
    assert_eq!(compute("((2))"), Ok(2.0));
    assert_eq!(compute("2 * (3 + (4 - 1)) * 5"), Ok(60.0));
}

#[test]
fn every_symbol_has_its_token() {
    assert_eq!(
        tokenize("+-*/()"),
        Ok(vec![
            Token::Plus,
            Token::Minus,
            Token::Multiply,
            Token::Divide,
            Token::LeftParen,
            Token::RightParen
        ])
    );
}

#[test]
fn digit_run_is_one_token() {
    assert_eq!(tokenize("007"), Ok(vec![number("007")]));
    assert_eq!(tokenize("12 34"), Ok(vec![number("12"), number("34")]));
    let long = "123456789012345678901234567890";
    assert_eq!(tokenize(long), Ok(vec![number(long)]));
    assert_eq!(compute(long), Ok(123456789012345678901234567890.0));
}

#[test]
fn parse_number_stops_behind_the_run() {
    let chars: Vec<char> = "ab123+4".chars().collect();
    assert_eq!(parse_number(&chars, 2), (vec!['1', '2', '3'], 5));
    assert_eq!(parse_number(&chars, 3), (vec!['2', '3'], 5));
    assert_eq!(parse_number(&chars, 6), (vec!['4'], 7));
}

#[test]
fn characters_keeps_every_character() {
    assert_eq!(characters("1 + \u{e9}"), vec!['1', ' ', '+', ' ', '\u{e9}']);
    assert_eq!(characters(""), Vec::<char>::new());
}

#[test]
fn precedence_ranks_the_operators() {
    assert_eq!(precedence(&Token::Plus), 1);
    assert_eq!(precedence(&Token::Minus), 1);
    assert_eq!(precedence(&Token::Multiply), 2);
    assert_eq!(precedence(&Token::Divide), 2);
    assert_eq!(precedence(&Token::LeftParen), 0);
    assert_eq!(precedence(&Token::RightParen), 0);
    assert_eq!(precedence(&number("5")), 0);
}

#[test]
fn apply_operator_takes_two_and_leaves_one() {
    let mut numbers = Operands::new();
    numbers.push_literal(&vec!['7']);
    assert_eq!(apply_operator(&mut numbers, &Token::Minus), Err(EvalError::EmptyOperandStack));
    assert_eq!(numbers.depth, 1);
    assert_eq!(numbers.steps, vec![push("7")]);
    numbers.push_literal(&vec!['2']);
    assert_eq!(numbers.depth, 2);
    assert_eq!(apply_operator(&mut numbers, &Token::Minus), Ok(()));
    assert_eq!(numbers.depth, 1);
    assert_eq!(numbers.steps, vec![push("7"), push("2"), Step::Subtract]);
    assert_eq!(run(&numbers.steps, value_of, result_of), Some(5.0));
}

#[test]
fn each_operator_has_its_step() {
    assert_eq!(compute("7 + 2"), Ok(9.0));
    assert_eq!(compute("7 - 2"), Ok(5.0));
    assert_eq!(compute("7 * 2"), Ok(14.0));
    assert_eq!(compute("7 / 2"), Ok(3.5));
}

#[test]
fn run_calls_in_the_order_of_the_steps() {
    let steps = vec![push("1"), push("2"), push("3"), Step::Multiply, Step::Subtract];
    let text = run(
        &steps,
        |digits: &Vec<char>| digits.iter().collect::<String>(),
        |operator: &Step, a: String, b: String| format!("({} {:?} {})", a, operator, b),
    );
    assert_eq!(text, Some("(1 Subtract (2 Multiply 3))".to_string()));
}

#[test]
fn run_refuses_what_does_not_leave_one_value() {
    assert_eq!(run(&[], value_of, result_of), None);
    assert_eq!(run(&[Step::Add], value_of, result_of), None);
    assert_eq!(run(&[push("1"), Step::Add], value_of, result_of), None);
    assert_eq!(run(&[push("1"), push("2")], value_of, result_of), None);
    assert_eq!(run(&[push("1"), Step::Add, push("2"), push("3")], value_of, result_of), None);
    assert_eq!(run(&[push("4")], value_of, result_of), Some(4.0));
}

#[test]
fn reduction_follows_the_grouping_of_the_grammar() {
    let tokens = tokenize("2 * (3 + 4) - 5 / (1 + 1)").unwrap();
    assert_eq!(
        evaluate(&tokens),
        Ok(vec![
            push("2"),
            push("3"),
            push("4"),
            Step::Add,
            Step::Multiply,
            push("5"),
            push("1"),
            push("1"),
            Step::Add,
            Step::Divide,
            Step::Subtract
        ])
    );
    assert_eq!(compute("2 * (3 + 4) - 5 / (1 + 1)"), Ok(11.5));
}

#[test]
fn tighter_operator_on_the_left_is_applied_first() {
    let tokens = tokenize("2 * 3 + 4").unwrap();
    assert_eq!(
        evaluate(&tokens),
        Ok(vec![push("2"), push("3"), Step::Multiply, push("4"), Step::Add])
    );
    assert_eq!(compute("2 * 3 + 4"), Ok(10.0));
    assert_eq!(compute("2 + 3 * 4"), Ok(14.0));
}

#[test]
fn spaces_do_not_change_the_tokens() {
    assert_eq!(tokenize("1+2"), tokenize(" 1  +   2 "));
    assert_eq!(compute("(1+2)*3"), Ok(9.0));
}

#[test]
fn operators_in_postfix_order_are_accepted_as_they_come() {
    assert_eq!(compute("1 2 +"), Ok(3.0));
}

#[test]
fn evaluate_with_reports_the_errors_of_evaluate() {
    assert_eq!(compute("(1 + 2"), Err(EvalError::UnmatchedLeftParen));
    assert_eq!(compute("1 + 2)"), Err(EvalError::UnmatchedRightParen));
    assert_eq!(compute(""), Err(EvalError::EmptyOperandStack));
    assert_eq!(compute("1 2"), Err(EvalError::MalformedResult));
}

#[test]
fn evaluate_with_takes_any_arithmetic() {
    let tokens = tokenize("1 - (2 - 3) * 4").unwrap();
    let text = evaluate_with(
        &tokens,
        |digits: &Vec<char>| digits.iter().collect::<String>(),
        |operator: &Step, a: String, b: String| format!("[{} {:?} {}]", a, operator, b),
    );
    assert_eq!(text, Ok("[1 Subtract [[2 Subtract 3] Multiply 4]]".to_string()));
}
