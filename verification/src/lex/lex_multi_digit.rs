//! A tokenizer as an object: it holds a text, and its tokens once it has read
//! the text.

use crate::lex::simple::{
    chars_of, decimal_value, digits_end, extend, get_number_from_char, is_digit,
    lemma_decimal_value_grows, lemma_decimal_value_step, lemma_digits_end_bounds,
    lemma_digits_end_from, lemma_extend_prepend, number_at, tokenize, tokens_from, LexError,
    LexToken,
};
use vstd::prelude::*;

verus! {

/// A text and the tokens read from it.
#[derive(Debug)]
pub struct Lexer {
    s: String,
    input_chars: Vec<char>,
    tokens: Vec<LexToken>,
}

impl Lexer {
    /// The characters are those of the text.
    #[verifier::type_invariant]
    spec fn well_formed(&self) -> bool {
        self.input_chars@ == self.s@
    }

    /// The text that the lexer holds.
    pub closed spec fn text(&self) -> Seq<char> {
        self.s@
    }

    /// The tokens that the lexer holds.
    pub closed spec fn tokens(&self) -> Seq<LexToken> {
        self.tokens@
    }

    /// A lexer for the text `s`, which holds no tokens yet.
    pub fn new(s: &str) -> (lexer: Lexer)
        ensures
            lexer.text() == s@,
            lexer.tokens() == Seq::<LexToken>::empty(),
    {
        Lexer { s: s.to_owned(), input_chars: chars_of(s), tokens: Vec::new() }
    }

    /// The tokens that the lexer holds: those of its text after a successful
    /// `tokenise`, none before.
    pub fn get_tokens(&self) -> (tokens: &[LexToken])
        ensures
            tokens@ == self.tokens(),
    {
        self.tokens.as_slice()
    }

    /// Reads the number that starts at `pos`: the longest run of digits from
    /// there. Returns its token and the position after it, or
    /// `NumberOverflow(pos)` if it denotes more than `u32::MAX`.
    fn get_number(&self, pos: usize) -> (r: Result<(LexToken, usize), LexError>)
        requires
            pos < self.text().len(),
            is_digit(self.text()[pos as int]),
        ensures
            match number_at(self.text(), pos as int) {
                Ok((number, end)) => r == Ok::<(LexToken, usize), LexError>((number, end as usize))
                    && pos < end <= self.text().len(),
                Err(e) => r == Err::<(LexToken, usize), LexError>(e),
            },
    {
        proof {
            use_type_invariant(self);
        }
        let ghost text = self.s@;
        let n = self.input_chars.len();
        let mut curr_pos: usize = pos;
        let mut value: u32 = 0;
        assert(text.subrange(pos as int, pos as int) =~= Seq::empty());
        while curr_pos < n && '0' <= self.input_chars[curr_pos] && self.input_chars[curr_pos] <= '9'
            invariant
                self.input_chars@ == text,
                self.s@ == text,
                n == text.len(),
                pos <= curr_pos <= n,
                forall|k: int| pos <= k < curr_pos ==> is_digit(#[trigger] text[k]),
                value == decimal_value(text.subrange(pos as int, curr_pos as int)),
            decreases n - curr_pos,
        {
            let digit = get_number_from_char(self.input_chars[curr_pos]);
            proof {
                lemma_decimal_value_step(text, pos as int, curr_pos as int);
                lemma_digits_end_from(text, pos as int, curr_pos as int + 1);
                lemma_digits_end_bounds(text, curr_pos as int + 1);
                lemma_decimal_value_grows(
                    text,
                    pos as int,
                    curr_pos as int + 1,
                    digits_end(text, pos as int),
                );
            }
            if value > (u32::MAX - digit) / 10 {
                return Err(LexError::NumberOverflow(pos));
            }
            value = value * 10 + digit;
            curr_pos += 1;
        }
        proof {
            lemma_digits_end_from(text, pos as int, curr_pos as int);
        }
        Ok((LexToken::Num(value), curr_pos))
    }

    /// Reads the text in one pass from left to right. On success the lexer
    /// holds the tokens of its text, in place of those it held. On failure
    /// it holds what it held.
    pub fn tokenise(&mut self) -> (r: Result<(), LexError>)
        ensures
            final(self).text() == old(self).text(),
            match tokenize(old(self).text()) {
                Ok(tokens) => r is Ok && final(self).tokens() == tokens,
                Err(e) => r == Err::<(), LexError>(e) && final(self).tokens() == old(self).tokens(),
            },
    {
        proof {
            use_type_invariant(&*self);
        }
        let ghost text = self.s@;
        let n = self.input_chars.len();
        let mut tokens: Vec<LexToken> = Vec::new();
        let mut next_pos: usize = 0;
        assert(extend(tokens@, tokens_from(text, 0)) == tokens_from(text, 0)) by {
            match tokens_from(text, 0) {
                Ok(rest) => {
                    assert(tokens@ + rest =~= rest);
                },
                Err(_) => {},
            }
        }
        while next_pos < n
            invariant
                *self == *old(self),
                self.input_chars@ == text,
                self.s@ == text,
                n == text.len(),
                next_pos <= n,
                tokenize(text) == extend(tokens@, tokens_from(text, next_pos as int)),
            decreases n - next_pos,
        {
            let c = self.input_chars[next_pos];
            match c {
                '0'..='9' => {
                    match self.get_number(next_pos) {
                        Ok((number, pos)) => {
                            proof {
                                lemma_extend_prepend(tokens@, number, tokens_from(text, pos as int));
                            }
                            tokens.push(number);
                            next_pos = pos;
                        },
                        Err(e) => {
                            return Err(e);
                        },
                    }
                },
                '+' => {
                    proof {
                        lemma_extend_prepend(tokens@, LexToken::Add(c), tokens_from(text, next_pos + 1));
                    }
                    tokens.push(LexToken::Add('+'));
                    next_pos += 1;
                },
                '-' => {
                    proof {
                        lemma_extend_prepend(tokens@, LexToken::Subtract(c), tokens_from(text, next_pos + 1));
                    }
                    tokens.push(LexToken::Subtract('-'));
                    next_pos += 1;
                },
                '*' => {
                    proof {
                        lemma_extend_prepend(tokens@, LexToken::Multi(c), tokens_from(text, next_pos + 1));
                    }
                    tokens.push(LexToken::Multi('*'));
                    next_pos += 1;
                },
                '/' => {
                    proof {
                        lemma_extend_prepend(tokens@, LexToken::Div(c), tokens_from(text, next_pos + 1));
                    }
                    tokens.push(LexToken::Div('/'));
                    next_pos += 1;
                },
                '(' => {
                    proof {
                        lemma_extend_prepend(tokens@, LexToken::LeftParen(c), tokens_from(text, next_pos + 1));
                    }
                    tokens.push(LexToken::LeftParen('('));
                    next_pos += 1;
                },
                ')' => {
                    proof {
                        lemma_extend_prepend(tokens@, LexToken::RightParen(c), tokens_from(text, next_pos + 1));
                    }
                    tokens.push(LexToken::RightParen(')'));
                    next_pos += 1;
                },
                ' ' | '\t' => {
                    next_pos += 1;
                },
                _ => {
                    return Err(LexError::UnexpectedChar(c, next_pos));
                },
            }
        }
        self.tokens = tokens;
        Ok(())
    }
}

/// Tokenizes a text and returns the lexer that holds its tokens, or the first
/// failure met when reading the text left to right.
pub fn lexer(s: &str) -> (r: Result<Lexer, LexError>)
    ensures
        match tokenize(s@) {
            Ok(tokens) => r is Ok && r->Ok_0.text() == s@ && r->Ok_0.tokens() == tokens,
            Err(e) => r is Err && r->Err_0 == e,
        },
{
    let mut my_lexer = Lexer::new(s);
    match my_lexer.tokenise() {
        Ok(()) => Ok(my_lexer),
        Err(e) => Err(e),
    }
}

} // verus!
