//! Tokens, lexical errors, what it means to tokenize a text, and a tokenizer
//! in one function.

use crate::text::{decimal_text, push_char, push_decimal};
use vstd::prelude::*;

verus! {

/// A lexical unit. An operator or a parenthesis carries the character it was
/// read from.
#[derive(Debug, PartialEq, Eq, Clone, Copy, Structural)]
pub enum LexToken {
    Num(u32),
    Add(char),
    Subtract(char),
    Div(char),
    Multi(char),
    LeftParen(char),
    RightParen(char),
}

impl LexToken {
    /// The token as text: a number in decimal, an operator as its character
    /// between two spaces, a parenthesis as its character.
    pub open spec fn text(self) -> Seq<char> {
        match self {
            LexToken::Num(n) => decimal_text(n as nat),
            LexToken::Add(c) | LexToken::Subtract(c) | LexToken::Div(c) | LexToken::Multi(c) => seq![
                ' ',
                c,
                ' ',
            ],
            LexToken::LeftParen(c) | LexToken::RightParen(c) => seq![c],
        }
    }

    /// The token as text.
    pub fn to_text(&self) -> (text: String)
        ensures
            text@ == self.text(),
    {
        let mut text = String::new();
        match *self {
            LexToken::Num(n) => {
                push_decimal(&mut text, n as usize);
                assert(text@ =~= decimal_text(n as nat));
            },
            LexToken::Add(c) | LexToken::Subtract(c) | LexToken::Div(c) | LexToken::Multi(c) => {
                push_char(&mut text, ' ');
                push_char(&mut text, c);
                push_char(&mut text, ' ');
                assert(text@ =~= seq![' ', c, ' ']);
            },
            LexToken::LeftParen(c) | LexToken::RightParen(c) => {
                push_char(&mut text, c);
                assert(text@ =~= seq![c]);
            },
        }
        text
    }
}

/// Why a text could not be tokenized.
#[derive(Debug, PartialEq, Eq, Clone, Copy, Structural)]
pub enum LexError {
    /// The character at the given position belongs to no token.
    UnexpectedChar(char, usize),
    /// The run of digits that starts at the given position denotes a number
    /// above `u32::MAX`.
    NumberOverflow(usize),
}

/// The characters that separate tokens without forming one: space and tab.
pub open spec fn is_blank(c: char) -> bool {
    c == ' ' || c == '\t'
}

/// The decimal digits.
pub open spec fn is_digit(c: char) -> bool {
    '0' <= c <= '9'
}

/// The value of a decimal digit.
pub open spec fn digit_value(c: char) -> nat
    recommends
        is_digit(c),
{
    (c as u32 - '0' as u32) as nat
}

/// The token that a single operator or parenthesis character forms.
pub open spec fn symbol_token(c: char) -> Option<LexToken> {
    if c == '+' {
        Some(LexToken::Add(c))
    } else if c == '-' {
        Some(LexToken::Subtract(c))
    } else if c == '*' {
        Some(LexToken::Multi(c))
    } else if c == '/' {
        Some(LexToken::Div(c))
    } else if c == '(' {
        Some(LexToken::LeftParen(c))
    } else if c == ')' {
        Some(LexToken::RightParen(c))
    } else {
        None
    }
}

/// The number that a row of decimal digits denotes. Leading zeros add nothing.
pub open spec fn decimal_value(digits: Seq<char>) -> nat
    decreases digits.len(),
{
    if digits.len() == 0 {
        0
    } else {
        decimal_value(digits.drop_last()) * 10 + digit_value(digits.last())
    }
}

/// The first position at or after `i` that holds no digit: where the longest
/// run of digits from `i` ends.
pub open spec fn digits_end(s: Seq<char>, i: int) -> int
    decreases s.len() - i,
{
    if 0 <= i < s.len() && is_digit(s[i]) {
        digits_end(s, i + 1)
    } else {
        i
    }
}

/// Puts one token in front of the tokens that follow it, if there are any.
pub open spec fn prepend(
    token: LexToken,
    rest: Result<Seq<LexToken>, LexError>,
) -> Result<Seq<LexToken>, LexError> {
    match rest {
        Ok(tokens) => Ok(seq![token] + tokens),
        Err(e) => Err(e),
    }
}

/// The number that starts at position `i`, and where it ends: it takes the
/// longest run of digits from `i`. It fails if it denotes more than
/// `u32::MAX`.
pub open spec fn number_at(s: Seq<char>, i: int) -> Result<(LexToken, int), LexError> {
    let end = digits_end(s, i);
    let value = decimal_value(s.subrange(i, end));
    if value > u32::MAX {
        Err(LexError::NumberOverflow(i as usize))
    } else {
        Ok((LexToken::Num(value as u32), end))
    }
}

/// The tokens of `s` from position `i` on, or the first failure met on the way.
///
/// Blanks are skipped. A digit starts a number that takes the longest run of
/// digits. An operator or a parenthesis is a token by itself. Any other
/// character fails.
pub open spec fn tokens_from(s: Seq<char>, i: int) -> Result<Seq<LexToken>, LexError>
    decreases s.len() - i,
{
    if i < 0 || i >= s.len() {
        Ok(Seq::empty())
    } else if is_blank(s[i]) {
        tokens_from(s, i + 1)
    } else if is_digit(s[i]) {
        match number_at(s, i) {
            Ok((number, end)) => {
                proof {
                    lemma_digits_end_bounds(s, i);
                }
                prepend(number, tokens_from(s, end))
            },
            Err(e) => Err(e),
        }
    } else {
        match symbol_token(s[i]) {
            Some(token) => prepend(token, tokens_from(s, i + 1)),
            None => Err(LexError::UnexpectedChar(s[i], i as usize)),
        }
    }
}

/// The tokens of a text, or the first failure met when reading it left to
/// right.
pub open spec fn tokenize(s: Seq<char>) -> Result<Seq<LexToken>, LexError> {
    tokens_from(s, 0)
}

/// What a tokenizer's result says: the view of the tokens, or the error.
pub open spec fn lexed(r: Result<Vec<LexToken>, LexError>) -> Result<Seq<LexToken>, LexError> {
    match r {
        Ok(tokens) => Ok(tokens@),
        Err(e) => Err(e),
    }
}

/// The tokens read so far, followed by what the rest of the text gives.
pub open spec fn extend(
    read: Seq<LexToken>,
    rest: Result<Seq<LexToken>, LexError>,
) -> Result<Seq<LexToken>, LexError> {
    match rest {
        Ok(tokens) => Ok(read + tokens),
        Err(e) => Err(e),
    }
}

/// A run of digits ends at or after its start and within the text, at a
/// character that is no digit; and it ends after its start if it starts at a
/// digit.
pub proof fn lemma_digits_end_bounds(s: Seq<char>, i: int)
    requires
        0 <= i <= s.len(),
    ensures
        i <= digits_end(s, i) <= s.len(),
        i < s.len() && is_digit(s[i]) ==> i < digits_end(s, i),
        digits_end(s, i) < s.len() ==> !is_digit(s[digits_end(s, i)]),
        forall|k: int| i <= k < digits_end(s, i) ==> is_digit(#[trigger] s[k]),
    decreases s.len() - i,
{
    if i < s.len() && is_digit(s[i]) {
        lemma_digits_end_bounds(s, i + 1);
    }
}

/// A run of digits that holds only digits up to `k` ends where the run from
/// `k` ends.
pub proof fn lemma_digits_end_from(s: Seq<char>, i: int, k: int)
    requires
        0 <= i <= k <= s.len(),
        forall|j: int| i <= j < k ==> is_digit(#[trigger] s[j]),
    ensures
        digits_end(s, i) == digits_end(s, k),
    decreases k - i,
{
    if i < k {
        lemma_digits_end_from(s, i + 1, k);
    }
}

/// Reading more digits never makes the number smaller.
pub proof fn lemma_decimal_value_grows(s: Seq<char>, i: int, a: int, b: int)
    requires
        0 <= i <= a <= b <= s.len(),
    ensures
        decimal_value(s.subrange(i, a)) <= decimal_value(s.subrange(i, b)),
    decreases b - a,
{
    if a < b {
        lemma_decimal_value_grows(s, i, a, b - 1);
        assert(s.subrange(i, b).drop_last() =~= s.subrange(i, b - 1));
        assert(decimal_value(s.subrange(i, b)) == decimal_value(s.subrange(i, b - 1)) * 10
            + digit_value(s.subrange(i, b).last()));
    }
}

/// One more digit multiplies the number by ten and adds the digit.
pub proof fn lemma_decimal_value_step(s: Seq<char>, i: int, k: int)
    requires
        0 <= i <= k < s.len(),
    ensures
        decimal_value(s.subrange(i, k + 1)) == decimal_value(s.subrange(i, k)) * 10 + digit_value(
            s[k],
        ),
{
    assert(s.subrange(i, k + 1).drop_last() =~= s.subrange(i, k));
    assert(s.subrange(i, k + 1).last() == s[k]);
}

/// Tokens read before a token and the rest are the tokens read with it and
/// the rest.
pub proof fn lemma_extend_prepend(
    read: Seq<LexToken>,
    token: LexToken,
    rest: Result<Seq<LexToken>, LexError>,
)
    ensures
        extend(read, prepend(token, rest)) == extend(read.push(token), rest),
{
    match rest {
        Ok(tokens) => {
            assert(read + (seq![token] + tokens) =~= read.push(token) + tokens);
        },
        Err(_) => {},
    }
}

/// The value of one decimal digit.
pub fn get_number_from_char(c: char) -> (n: u32)
    requires
        is_digit(c),
    ensures
        n == digit_value(c),
        n <= 9,
{
    c as u32 - '0' as u32
}

/// The characters of a text, in order.
pub fn chars_of(s: &str) -> (v: Vec<char>)
    ensures
        v@ == s@,
{
    let mut v: Vec<char> = Vec::new();
    for c in it: s.chars()
        invariant
            it.seq() == s@,
            v@ == it.seq().take(it.index()),
    {
        v.push(c);
    }
    v
}

/// Tokenizes a text in one pass from left to right.
///
/// Returns the tokens in the order of the text, or the first failure: a
/// character that belongs to no token, or a number above `u32::MAX`.
pub fn lexer(s: &str) -> (r: Result<Vec<LexToken>, LexError>)
    ensures
        lexed(r) == tokenize(s@),
{
    let chars = chars_of(s);
    let n = chars.len();
    let mut tokens: Vec<LexToken> = Vec::new();
    let mut i: usize = 0;
    assert(extend(tokens@, tokens_from(s@, 0)) == tokens_from(s@, 0)) by {
        match tokens_from(s@, 0) {
            Ok(rest) => {
                assert(tokens@ + rest =~= rest);
            },
            Err(_) => {},
        }
    }
    while i < n
        invariant
            chars@ == s@,
            n == chars.len(),
            i <= n,
            tokenize(s@) == extend(tokens@, tokens_from(s@, i as int)),
        decreases n - i,
    {
        let c = chars[i];
        if c == ' ' || c == '\t' {
            i += 1;
        } else if '0' <= c && c <= '9' {
            let start: usize = i;
            let mut value: u32 = 0;
            assert(s@.subrange(start as int, start as int) =~= Seq::empty());
            while i < n && '0' <= chars[i] && chars[i] <= '9'
                invariant
                    chars@ == s@,
                    n == chars.len(),
                    start <= i <= n,
                    start < n,
                    is_digit(s@[start as int]),
                    tokenize(s@) == extend(tokens@, tokens_from(s@, start as int)),
                    forall|k: int| start <= k < i ==> is_digit(#[trigger] s@[k]),
                    value == decimal_value(s@.subrange(start as int, i as int)),
                decreases n - i,
            {
                let digit = get_number_from_char(chars[i]);
                proof {
                    lemma_decimal_value_step(s@, start as int, i as int);
                    lemma_digits_end_from(s@, start as int, i as int + 1);
                    lemma_digits_end_bounds(s@, i as int + 1);
                    lemma_decimal_value_grows(
                        s@,
                        start as int,
                        i as int + 1,
                        digits_end(s@, start as int),
                    );
                }
                if value > (u32::MAX - digit) / 10 {
                    assert(tokens_from(s@, start as int) == Err::<Seq<LexToken>, LexError>(
                        LexError::NumberOverflow(start),
                    ));
                    return Err(LexError::NumberOverflow(start));
                }
                value = value * 10 + digit;
                i += 1;
            }
            proof {
                lemma_digits_end_from(s@, start as int, i as int);
                lemma_extend_prepend(tokens@, LexToken::Num(value), tokens_from(s@, i as int));
            }
            tokens.push(LexToken::Num(value));
        } else {
            let token = match c {
                '+' => LexToken::Add(c),
                '-' => LexToken::Subtract(c),
                '*' => LexToken::Multi(c),
                '/' => LexToken::Div(c),
                '(' => LexToken::LeftParen(c),
                ')' => LexToken::RightParen(c),
                _ => {
                    return Err(LexError::UnexpectedChar(c, i));
                },
            };
            proof {
                lemma_extend_prepend(tokens@, token, tokens_from(s@, i as int + 1));
            }
            tokens.push(token);
            i += 1;
        }
    }
    Ok(tokens)
}

} // verus!
