//! The scanner: text to tokens.
//!
//! Spaces are skipped, a maximal run of decimal digits becomes one number
//! token, each of `+ - * / ( )` becomes its own token, and the first
//! character outside that alphabet stops the scan with an error.

use vstd::prelude::*;
use crate::token::{LexError, Token, TokenView, token_views};

verus! {

/// An ASCII decimal digit.
pub open spec fn is_digit(c: char) -> bool {
    '0' <= c && c <= '9'
}

/// The token that a single operator or parenthesis character stands for.
pub open spec fn symbol(c: char) -> Option<TokenView> {
    if c == '+' {
        Some(TokenView::Plus)
    } else if c == '-' {
        Some(TokenView::Minus)
    } else if c == '*' {
        Some(TokenView::Multiply)
    } else if c == '/' {
        Some(TokenView::Divide)
    } else if c == '(' {
        Some(TokenView::LeftParen)
    } else if c == ')' {
        Some(TokenView::RightParen)
    } else {
        None
    }
}

/// A character that the scanner accepts.
pub open spec fn in_alphabet(c: char) -> bool {
    is_digit(c) || c == ' ' || symbol(c) is Some
}

/// The position just behind the maximal run of digits that starts at `from`
/// (`from` itself where no digit stands there).
pub open spec fn digit_run_end(s: Seq<char>, from: int) -> int
    decreases s.len() - from,
{
    if 0 <= from < s.len() && is_digit(s[from]) {
        digit_run_end(s, from + 1)
    } else {
        from
    }
}

/// `digit_run_end` delimits a run of digits that cannot be extended.
pub proof fn lemma_digit_run(s: Seq<char>, from: int)
    requires
        0 <= from <= s.len(),
    ensures
        from <= digit_run_end(s, from) <= s.len(),
        forall|k: int| from <= k < digit_run_end(s, from) ==> is_digit(#[trigger] s[k]),
        digit_run_end(s, from) < s.len() ==> !is_digit(s[digit_run_end(s, from)]),
        from < s.len() && is_digit(s[from]) ==> from < digit_run_end(s, from),
    decreases s.len() - from,
{
    if from < s.len() && is_digit(s[from]) {
        lemma_digit_run(s, from + 1);
    }
}

/// Puts `head` in front of the tokens of a successful scan; a failed scan
/// stays as it is.
pub open spec fn prepend(head: Seq<TokenView>, rest: Result<Seq<TokenView>, LexError>) -> Result<
    Seq<TokenView>,
    LexError,
> {
    match rest {
        Ok(tokens) => Ok(head + tokens),
        Err(e) => Err(e),
    }
}

/// What scanning `s` from position `from` to its end yields.
pub open spec fn scan_from(s: Seq<char>, from: int) -> Result<Seq<TokenView>, LexError>
    decreases s.len() - from,
    via scan_from_decreases
{
    if from < 0 || from >= s.len() {
        Ok(Seq::empty())
    } else if is_digit(s[from]) {
        let end = digit_run_end(s, from);
        prepend(seq![TokenView::Number(s.subrange(from, end))], scan_from(s, end))
    } else if s[from] == ' ' {
        scan_from(s, from + 1)
    } else {
        match symbol(s[from]) {
            Some(token) => prepend(seq![token], scan_from(s, from + 1)),
            None => Err(LexError::UnexpectedCharacter(s[from], from as usize)),
        }
    }
}

#[via_fn]
proof fn scan_from_decreases(s: Seq<char>, from: int) {
    if 0 <= from < s.len() && is_digit(s[from]) {
        lemma_digit_run(s, from);
    }
}

/// What scanning the whole of `s` yields.
pub open spec fn scan(s: Seq<char>) -> Result<Seq<TokenView>, LexError> {
    scan_from(s, 0)
}

/// The mathematical value of what `tokenize` returns.
pub open spec fn outcome_view(result: Result<Vec<Token>, LexError>) -> Result<
    Seq<TokenView>,
    LexError,
> {
    match result {
        Ok(tokens) => Ok(token_views(tokens@)),
        Err(e) => Err(e),
    }
}

/// A number token holds a run of digits that is not empty.
pub open spec fn is_numeral(token: TokenView) -> bool {
    token matches TokenView::Number(digits) ==> digits.len() > 0 && forall|k: int|
        0 <= k < digits.len() ==> is_digit(#[trigger] digits[k])
}

/// A scan succeeds exactly when every character is in the alphabet, and
/// fails with the first character that is not, at its position.
pub proof fn lemma_scan_outcome(s: Seq<char>, from: int)
    requires
        0 <= from <= s.len() <= usize::MAX,
    ensures
        match scan_from(s, from) {
            Ok(_) => forall|k: int| from <= k < s.len() ==> in_alphabet(#[trigger] s[k]),
            Err(LexError::UnexpectedCharacter(c, at)) => {
                &&& from <= at < s.len()
                &&& s[at as int] == c
                &&& !in_alphabet(c)
                &&& forall|k: int| from <= k < at ==> in_alphabet(#[trigger] s[k])
            },
        },
    decreases s.len() - from,
{
    if from < s.len() {
        if is_digit(s[from]) {
            lemma_digit_run(s, from);
            lemma_scan_outcome(s, digit_run_end(s, from));
        } else if s[from] == ' ' || symbol(s[from]) is Some {
            lemma_scan_outcome(s, from + 1);
        }
    }
}

/// Every number token of a successful scan is a numeral, and no scan yields
/// more tokens than it read characters.
pub proof fn lemma_scan_tokens(s: Seq<char>, from: int)
    requires
        0 <= from <= s.len(),
    ensures
        scan_from(s, from) matches Ok(tokens) ==> {
            &&& tokens.len() <= s.len() - from
            &&& forall|i: int| 0 <= i < tokens.len() ==> is_numeral(#[trigger] tokens[i])
        },
    decreases s.len() - from,
{
    if from < s.len() {
        if is_digit(s[from]) {
            lemma_digit_run(s, from);
            lemma_scan_tokens(s, digit_run_end(s, from));
        } else if s[from] == ' ' || symbol(s[from]) is Some {
            lemma_scan_tokens(s, from + 1);
        }
    }
}

/// Scanning is a function of the text: whatever two scans of the same
/// characters return has the same value, token for token or error for error.
pub proof fn lemma_tokenize_repeats(
    input: Seq<char>,
    first: Result<Vec<Token>, LexError>,
    second: Result<Vec<Token>, LexError>,
)
    requires
        outcome_view(first) == scan(input),
        outcome_view(second) == scan(input),
    ensures
        outcome_view(first) == outcome_view(second),
        first is Err ==> first == second,
{
}

/// Collects the characters of `input` in order.
pub fn characters(input: &str) -> (chars: Vec<char>)
    ensures
        chars@ == input@,
{
    let mut chars: Vec<char> = Vec::new();
    for c in it: input.chars()
        invariant
            chars@ == it.seq().take(it.index() as int),
            it.seq() == input@,
    {
        chars.push(c);
    }
    chars
}

/// Reads the maximal run of digits that starts at `start`, and returns it
/// with the position just behind it.
pub fn parse_number(chars: &Vec<char>, start: usize) -> (run: (Vec<char>, usize))
    requires
        start < chars.len(),
        is_digit(chars[start as int]),
    ensures
        run.1 == digit_run_end(chars@, start as int),
        start < run.1 <= chars.len(),
        run.0@ == chars@.subrange(start as int, run.1 as int),
        forall|k: int| 0 <= k < run.0.len() ==> is_digit(#[trigger] run.0[k]),
        run.1 < chars.len() ==> !is_digit(chars[run.1 as int]),
{
    let mut number: Vec<char> = Vec::new();
    let mut pos: usize = start;
    proof {
        lemma_digit_run(chars@, start as int);
    }
    while pos < chars.len() && chars[pos] >= '0' && chars[pos] <= '9'
        invariant
            start <= pos <= chars.len(),
            number@ == chars@.subrange(start as int, pos as int),
            digit_run_end(chars@, pos as int) == digit_run_end(chars@, start as int),
        decreases chars.len() - pos,
    {
        number.push(chars[pos]);
        pos = pos + 1;
        assert(number@ =~= chars@.subrange(start as int, pos as int));
    }
    (number, pos)
}

/// Scans `input` into tokens.
///
/// Succeeds exactly when every character is a digit, a space or one of
/// `+ - * / ( )`; otherwise reports the first other character and its
/// position.
pub fn tokenize(input: &str) -> (result: Result<Vec<Token>, LexError>)
    ensures
        outcome_view(result) == scan(input@),
        result is Ok <==> forall|k: int|
            0 <= k < input@.len() ==> in_alphabet(#[trigger] input@[k]),
        result matches Err(LexError::UnexpectedCharacter(c, at)) ==> {
            &&& at < input@.len()
            &&& input@[at as int] == c
            &&& !in_alphabet(c)
            &&& forall|k: int| 0 <= k < at ==> in_alphabet(#[trigger] input@[k])
        },
        result matches Ok(tokens) ==> forall|i: int|
            0 <= i < tokens@.len() ==> is_numeral(#[trigger] tokens@[i]@),
{
    let chars = characters(input);
    let mut tokens: Vec<Token> = Vec::new();
    let mut pos: usize = 0;
    proof {
        assert(token_views(tokens@) =~= Seq::empty());
        if let Ok(all) = scan(chars@) {
            assert(Seq::<TokenView>::empty() + all =~= all);
        }
    }
    while pos < chars.len()
        invariant
            pos <= chars.len(),
            chars@ == input@,
            scan(chars@) == prepend(token_views(tokens@), scan_from(chars@, pos as int)),
        decreases chars.len() - pos,
    {
        let c = chars[pos];
        let ghost before = token_views(tokens@);
        let ghost here = pos as int;
        if c >= '0' && c <= '9' {
            let (digits, end) = parse_number(&chars, pos);
            tokens.push(Token::Number(digits));
            pos = end;
        } else if c == ' ' {
            pos = pos + 1;
        } else {
            let token = match c {
                '+' => Token::Plus,
                '-' => Token::Minus,
                '*' => Token::Multiply,
                '/' => Token::Divide,
                '(' => Token::LeftParen,
                ')' => Token::RightParen,
                _ => {
                    proof {
                        lemma_scan_outcome(chars@, 0);
                    }
                    return Err(LexError::UnexpectedCharacter(c, pos));
                },
            };
            tokens.push(token);
            pos = pos + 1;
        }
        proof {
            if c != ' ' {
                let added = tokens@.last()@;
                assert(token_views(tokens@) =~= before.push(added));
                let rest = scan_from(chars@, pos as int);
                assert(scan_from(chars@, here) == prepend(seq![added], rest));
                if let Ok(tail) = rest {
                    assert(before + (seq![added] + tail) =~= before.push(added) + tail);
                }
            }
        }
    }
    proof {
        lemma_scan_outcome(chars@, 0);
        lemma_scan_tokens(chars@, 0);
        assert(token_views(tokens@) + Seq::<TokenView>::empty() =~= token_views(tokens@));
        assert forall|i: int| 0 <= i < tokens@.len() implies is_numeral(
            #[trigger] tokens@[i]@,
        ) by {
            assert(token_views(tokens@)[i] == tokens@[i]@);
        }
    }
    Ok(tokens)
}

} // verus!
