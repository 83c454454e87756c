use vstd::prelude::*;

verus! {

/// A token of the pattern language.
#[derive(Debug, PartialEq, Eq, Clone, Copy)]
pub enum Token {
    /// A character that stands for itself.
    Character(char),
    /// `|`
    AlternateOperator,
    /// `*`
    StarOperator,
    /// `+`
    PlusOperator,
    /// `?`
    QuestionOperator,
    /// `(`
    OpenParenthesis,
    /// `)`
    CloseParenthesis,
    /// The end of the pattern.
    EndOfFile,
}

/// The token that the character `c` stands for.
pub open spec fn token_of(c: char) -> Token {
    if c == '|' {
        Token::AlternateOperator
    } else if c == '*' {
        Token::StarOperator
    } else if c == '+' {
        Token::PlusOperator
    } else if c == '?' {
        Token::QuestionOperator
    } else if c == '(' {
        Token::OpenParenthesis
    } else if c == ')' {
        Token::CloseParenthesis
    } else {
        Token::Character(c)
    }
}

/// The token at position `pos` of `chars`, or the end marker past the end.
pub open spec fn token_at(chars: Seq<char>, pos: int) -> Token {
    if 0 <= pos < chars.len() {
        token_of(chars[pos])
    } else {
        Token::EndOfFile
    }
}

impl From<char> for Token {
    fn from(value: char) -> (r: Self)
        ensures
            r == token_of(value),
    {
        match value {
            '|' => Token::AlternateOperator,
            '*' => Token::StarOperator,
            '+' => Token::PlusOperator,
            '?' => Token::QuestionOperator,
            '(' => Token::OpenParenthesis,
            ')' => Token::CloseParenthesis,
            _ => Token::Character(value),
        }
    }
}

impl vstd::std_specs::convert::FromSpecImpl<char> for Token {
    open spec fn obeys_from_spec() -> bool {
        true
    }

    open spec fn from_spec(v: char) -> Token {
        token_of(v)
    }
}

/// The characters of `s`, in order.
pub fn chars_of(s: &str) -> (r: Vec<char>)
    ensures
        r@ == s@,
{
    let mut out: Vec<char> = Vec::new();
    for c in it: s.chars()
        invariant
            out@ == it.seq().subrange(0, it.index() as int),
            it.seq() == s@,
    {
        out.push(c);
    }
    out
}

/// Splits a pattern into tokens, one character at a time.
#[derive(Debug, PartialEq)]
pub struct Lexer {
    chars: Vec<char>,
    pos: usize,
}

impl Lexer {
    /// The characters of the pattern.
    pub closed spec fn spec_chars(&self) -> Seq<char> {
        self.chars@
    }

    /// How many characters have been consumed.
    pub closed spec fn spec_pos(&self) -> int {
        self.pos as int
    }

    /// The position never passes the end.
    pub open spec fn wf(&self) -> bool {
        0 <= self.spec_pos() <= self.spec_chars().len()
    }

    pub fn new(input: &str) -> (r: Self)
        ensures
            r.spec_chars() == input@,
            r.spec_pos() == 0,
    {
        Lexer { chars: chars_of(input), pos: 0 }
    }

    /// The next token, without consuming it.
    pub fn peek_token(&mut self) -> (r: Token)
        ensures
            *final(self) == *old(self),
            r == token_at(old(self).spec_chars(), old(self).spec_pos()),
    {
        if self.pos < self.chars.len() {
            Token::from(self.chars[self.pos])
        } else {
            Token::EndOfFile
        }
    }

    /// The next token, consumed; past the end, the end marker again.
    pub fn next_token(&mut self) -> (r: Token)
        requires
            old(self).wf(),
        ensures
            final(self).wf(),
            final(self).spec_chars() == old(self).spec_chars(),
            r == token_at(old(self).spec_chars(), old(self).spec_pos()),
            final(self).spec_pos() == if old(self).spec_pos() < old(self).spec_chars().len() {
                old(self).spec_pos() + 1
            } else {
                old(self).spec_pos()
            },
    {
        if self.pos < self.chars.len() {
            let t = Token::from(self.chars[self.pos]);
            self.pos = self.pos + 1;
            t
        } else {
            Token::EndOfFile
        }
    }
}

} // verus!
