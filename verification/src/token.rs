//! The tokens that text is cut into, and the ways tokenizing can fail.
use vstd::prelude::*;

verus! {

/// One lexical unit of the text.
#[derive(Debug, PartialEq)]
pub enum Token {
    /// `{`
    LBrace,
    /// `}`
    RBrace,
    /// `[`
    LBracket,
    /// `]`
    RBracket,
    /// `:`
    Colon,
    /// `,`
    Comma,
    /// The characters between two double quotes, taken as they are.
    StringValue(String),
    /// A number, kept as its decimal numeral: digits with at most one point.
    NumberValue(String),
    /// The keyword `true`.
    True,
    /// The keyword `false`.
    False,
    /// The keyword `null`.
    Null,
    /// The end of the text.
    End,
}

/// A token as a mathematical value: texts are sequences of characters.
pub enum TokenView {
    LBrace,
    RBrace,
    LBracket,
    RBracket,
    Colon,
    Comma,
    StringValue(Seq<char>),
    NumberValue(Seq<char>),
    True,
    False,
    Null,
    End,
}

impl View for Token {
    type V = TokenView;

    open spec fn view(&self) -> TokenView {
        match self {
            Token::LBrace => TokenView::LBrace,
            Token::RBrace => TokenView::RBrace,
            Token::LBracket => TokenView::LBracket,
            Token::RBracket => TokenView::RBracket,
            Token::Colon => TokenView::Colon,
            Token::Comma => TokenView::Comma,
            Token::StringValue(text) => TokenView::StringValue(text@),
            Token::NumberValue(text) => TokenView::NumberValue(text@),
            Token::True => TokenView::True,
            Token::False => TokenView::False,
            Token::Null => TokenView::Null,
            Token::End => TokenView::End,
        }
    }
}

impl Clone for Token {
    fn clone(&self) -> (copy: Token)
        ensures
            copy == *self,
    {
        match self {
            Token::LBrace => Token::LBrace,
            Token::RBrace => Token::RBrace,
            Token::LBracket => Token::LBracket,
            Token::RBracket => Token::RBracket,
            Token::Colon => Token::Colon,
            Token::Comma => Token::Comma,
            Token::StringValue(text) => Token::StringValue(text.clone()),
            Token::NumberValue(text) => Token::NumberValue(text.clone()),
            Token::True => Token::True,
            Token::False => Token::False,
            Token::Null => Token::Null,
            Token::End => Token::End,
        }
    }
}

/// The views of a sequence of tokens, in the same order.
pub open spec fn token_views(tokens: Seq<Token>) -> Seq<TokenView> {
    tokens.map_values(|token: Token| token@)
}

/// Why a text could not be cut into tokens.
#[derive(Debug, Clone, Copy, PartialEq, Eq, Structural)]
pub enum LexError {
    /// A token cannot start with the character found.
    UnexpectedCharacter,
    /// The text ended inside a string.
    UnterminatedString,
    /// A run of digits and points is not a decimal numeral.
    InvalidNumber,
    /// A run of letters is none of the keywords.
    InvalidKeyword,
}

/// The token that a punctuation character stands for.
pub open spec fn punctuation(c: char) -> Option<TokenView> {
    if c == '{' {
        Some(TokenView::LBrace)
    } else if c == '}' {
        Some(TokenView::RBrace)
    } else if c == '[' {
        Some(TokenView::LBracket)
    } else if c == ']' {
        Some(TokenView::RBracket)
    } else if c == ':' {
        Some(TokenView::Colon)
    } else if c == ',' {
        Some(TokenView::Comma)
    } else {
        None
    }
}

/// The token that a keyword stands for. Keywords are matched exactly: case
/// counts.
pub open spec fn keyword(word: Seq<char>) -> Option<TokenView> {
    if word =~= seq!['t', 'r', 'u', 'e'] {
        Some(TokenView::True)
    } else if word =~= seq!['f', 'a', 'l', 's', 'e'] {
        Some(TokenView::False)
    } else if word =~= seq!['n', 'u', 'l', 'l'] {
        Some(TokenView::Null)
    } else {
        None
    }
}

/// A decimal numeral: ASCII digits and at most one point, with at least one
/// digit. These are the runs of digits and points that denote a number.
pub open spec fn is_decimal_numeral(text: Seq<char>) -> bool {
    &&& forall|i: int| 0 <= i < text.len() ==> crate::chars::is_ascii_digit(#[trigger] text[i]) || text[i] == '.'
    &&& forall|i: int, j: int|
        0 <= i < j < text.len() ==> !(#[trigger] text[i] == '.' && #[trigger] text[j] == '.')
    &&& exists|i: int| 0 <= i < text.len() && crate::chars::is_ascii_digit(#[trigger] text[i])
}

/// Looks a punctuation character up.
pub fn char_token(c: char) -> (found: Option<Token>)
    ensures
        found matches Some(token) ==> punctuation(c) == Some(token@),
        found is None ==> punctuation(c) is None,
{
    if c == '{' {
        Some(Token::LBrace)
    } else if c == '}' {
        Some(Token::RBrace)
    } else if c == '[' {
        Some(Token::LBracket)
    } else if c == ']' {
        Some(Token::RBracket)
    } else if c == ':' {
        Some(Token::Colon)
    } else if c == ',' {
        Some(Token::Comma)
    } else {
        None
    }
}

} // verus!
