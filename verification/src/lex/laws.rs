//! What holds of tokenizing, whatever the text.

use crate::lex::simple::{
    decimal_value, digit_value, digits_end, is_blank, is_digit, lemma_digits_end_bounds,
    lemma_digits_end_from, lexed, number_at, symbol_token, tokenize, tokens_from, LexError,
    LexToken,
};
use crate::text::{decimal_text, digit_char};
use vstd::prelude::*;

verus! {

/// Tokenizing is repeatable: two runs of a tokenizer over one text give the
/// same tokens, or the same failure.
pub proof fn lemma_tokenizing_is_repeatable(
    text: Seq<char>,
    first: Result<Vec<LexToken>, LexError>,
    second: Result<Vec<LexToken>, LexError>,
)
    requires
        lexed(first) == tokenize(text),
        lexed(second) == tokenize(text),
    ensures
        lexed(first) == lexed(second),
{
}

/// A text has no more tokens than characters, from any position on.
pub proof fn lemma_tokens_within_text(s: Seq<char>, i: int)
    requires
        0 <= i <= s.len(),
    ensures
        tokens_from(s, i) matches Ok(tokens) ==> tokens.len() <= s.len() - i,
    decreases s.len() - i,
{
    if i < s.len() {
        if is_blank(s[i]) {
            lemma_tokens_within_text(s, i + 1);
        } else if is_digit(s[i]) {
            lemma_digits_end_bounds(s, i);
            lemma_tokens_within_text(s, digits_end(s, i));
        } else {
            lemma_tokens_within_text(s, i + 1);
        }
    }
}

/// Whether a character may stand in a text that tokenizes: a blank, a digit,
/// an operator or a parenthesis.
pub open spec fn is_token_char(c: char) -> bool {
    is_blank(c) || is_digit(c) || symbol_token(c) is Some
}

/// Whether an operator or a parenthesis carries its own character. A number
/// carries none.
pub open spec fn carries_its_character(token: LexToken) -> bool {
    match token {
        LexToken::Num(_) => true,
        LexToken::Add(c) => c == '+',
        LexToken::Subtract(c) => c == '-',
        LexToken::Multi(c) => c == '*',
        LexToken::Div(c) => c == '/',
        LexToken::LeftParen(c) => c == '(',
        LexToken::RightParen(c) => c == ')',
    }
}

/// Every token read from a text, from any position on, carries the character
/// it was read from.
pub proof fn lemma_tokens_carry_their_characters(s: Seq<char>, i: int)
    requires
        0 <= i <= s.len(),
    ensures
        tokens_from(s, i) matches Ok(tokens) ==> forall|k: int|
            0 <= k < tokens.len() ==> carries_its_character(#[trigger] tokens[k]),
    decreases s.len() - i,
{
    if i < s.len() {
        if is_blank(s[i]) {
            lemma_tokens_carry_their_characters(s, i + 1);
        } else if is_digit(s[i]) {
            lemma_digits_end_bounds(s, i);
            lemma_tokens_carry_their_characters(s, digits_end(s, i));
        } else {
            lemma_tokens_carry_their_characters(s, i + 1);
        }
    }
}

/// A text tokenizes from position `i` on if it holds only blanks, digits,
/// operators and parentheses from there on, and each of its numbers is at most
/// `u32::MAX`.
pub proof fn lemma_token_chars_tokenize(s: Seq<char>, i: int)
    requires
        0 <= i <= s.len(),
        forall|k: int| i <= k < s.len() ==> is_token_char(#[trigger] s[k]),
        forall|k: int| i <= k < s.len() && is_digit(#[trigger] s[k]) ==> number_at(s, k) is Ok,
    ensures
        tokens_from(s, i) is Ok,
    decreases s.len() - i,
{
    if i < s.len() {
        assert(is_token_char(s[i]));
        if is_blank(s[i]) {
            lemma_token_chars_tokenize(s, i + 1);
        } else if is_digit(s[i]) {
            lemma_digits_end_bounds(s, i);
            lemma_token_chars_tokenize(s, digits_end(s, i));
        } else {
            lemma_token_chars_tokenize(s, i + 1);
        }
    }
}

/// A text that fails for a character, read from position `i` on, holds that
/// character at the position named, and it is none that may stand in a text.
/// A text that fails for a number holds a digit at the position named, and
/// the run of digits from there denotes more than `u32::MAX`.
pub proof fn lemma_failure_names_its_place(s: Seq<char>, i: int)
    requires
        0 <= i <= s.len() <= usize::MAX,
    ensures
        match tokens_from(s, i) {
            Ok(_) => true,
            Err(LexError::UnexpectedChar(c, at)) => i <= at < s.len() && s[at as int] == c
                && !is_token_char(c),
            Err(LexError::NumberOverflow(at)) => i <= at < s.len() && is_digit(s[at as int])
                && decimal_value(s.subrange(at as int, digits_end(s, at as int))) > u32::MAX,
        },
    decreases s.len() - i,
{
    if i < s.len() {
        if is_blank(s[i]) {
            lemma_failure_names_its_place(s, i + 1);
        } else if is_digit(s[i]) {
            lemma_digits_end_bounds(s, i);
            lemma_failure_names_its_place(s, digits_end(s, i));
        } else {
            lemma_failure_names_its_place(s, i + 1);
        }
    }
}

/// The decimal text of a number holds digits only, at least one, and denotes
/// the number.
pub proof fn lemma_decimal_text_denotes(n: nat)
    ensures
        decimal_text(n).len() > 0,
        forall|k: int| 0 <= k < decimal_text(n).len() ==> is_digit(#[trigger] decimal_text(n)[k]),
        decimal_value(decimal_text(n)) == n,
    decreases n,
{
    let text = decimal_text(n);
    if n < 10 {
        assert(text.drop_last() =~= Seq::<char>::empty());
        assert(decimal_value(text) == decimal_value(text.drop_last()) * 10 + digit_value(
            text.last(),
        ));
    } else {
        lemma_decimal_text_denotes(n / 10);
        assert(text.drop_last() =~= decimal_text(n / 10));
        assert(text.last() == digit_char(n % 10));
        assert(decimal_value(text) == decimal_value(text.drop_last()) * 10 + digit_value(
            text.last(),
        ));
    }
}

/// What is written is read back: the decimal text of a number tokenizes to
/// that number alone.
pub proof fn lemma_number_text_reads_back(n: u32)
    ensures
        tokenize(decimal_text(n as nat)) == Ok::<Seq<LexToken>, LexError>(seq![LexToken::Num(n)]),
{
    let text = decimal_text(n as nat);
    lemma_decimal_text_denotes(n as nat);
    lemma_digits_end_from(text, 0, text.len() as int);
    assert(text.subrange(0, text.len() as int) =~= text);
    assert(is_digit(text[0]));
    assert(number_at(text, 0) == Ok::<(LexToken, int), LexError>(
        (LexToken::Num(n), text.len() as int),
    ));
    assert(tokens_from(text, text.len() as int) == Ok::<Seq<LexToken>, LexError>(Seq::empty()));
    assert(seq![LexToken::Num(n)] + Seq::<LexToken>::empty() =~= seq![LexToken::Num(n)]);
}

} // verus!
