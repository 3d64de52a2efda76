use vstd::prelude::*;

verus! {

/// The eight symbols of the language, plus a marker for every other character.
#[derive(Clone, Copy, Debug, PartialEq, Eq, Structural)]
pub enum Token {
    GreaterThan,
    LessThan,
    Plus,
    Minus,
    Dot,
    Comma,
    LBracket,
    RBracket,
    Unknown,
}

/// The classification of a single character.
pub open spec fn token_of(c: char) -> Token {
    if c == '>' {
        Token::GreaterThan
    } else if c == '<' {
        Token::LessThan
    } else if c == '+' {
        Token::Plus
    } else if c == '-' {
        Token::Minus
    } else if c == '.' {
        Token::Dot
    } else if c == ',' {
        Token::Comma
    } else if c == '[' {
        Token::LBracket
    } else if c == ']' {
        Token::RBracket
    } else {
        Token::Unknown
    }
}

/// A character is recognized when it is one of the eight symbols.
pub open spec fn recognized(c: char) -> bool {
    token_of(c) != Token::Unknown
}

/// Classify one character of source text.
pub fn lex(c: char) -> (t: Token)
    ensures
        t == token_of(c),
{
    match c {
        '>' => Token::GreaterThan,
        '<' => Token::LessThan,
        '+' => Token::Plus,
        '-' => Token::Minus,
        '.' => Token::Dot,
        ',' => Token::Comma,
        '[' => Token::LBracket,
        ']' => Token::RBracket,
        _ => Token::Unknown,
    }
}

} // verus!
