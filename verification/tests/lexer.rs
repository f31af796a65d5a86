use json_tree::lexer::{tokenize, Lexer};
use json_tree::token::{char_token, LexError, Token};

fn string(text: &str) -> Token {
    Token::StringValue(text.to_string())
}

fn number(numeral: &str) -> Token {
    Token::NumberValue(numeral.to_string())
}

fn value_of(token: &Token) -> f64 {
    match token {
        Token::NumberValue(numeral) => numeral.parse::<f64>().unwrap(),
        other => panic!("not a number: {:?}", other),
    }
}

#[test]
fn test_consume_char() {
    let mut lexer = Lexer::new("{");
    assert_eq!(lexer.consume_char(), Ok(Token::LBrace));
    let mut lexer = Lexer::new("}");
    assert_eq!(lexer.consume_char(), Ok(Token::RBrace));
    let mut lexer = Lexer::new("[");
    assert_eq!(lexer.consume_char(), Ok(Token::LBracket));
    let mut lexer = Lexer::new("]");
    assert_eq!(lexer.consume_char(), Ok(Token::RBracket));
    let mut lexer = Lexer::new(":");
    assert_eq!(lexer.consume_char(), Ok(Token::Colon));
    let mut lexer = Lexer::new(",");
    assert_eq!(lexer.consume_char(), Ok(Token::Comma));
}

#[test]
fn test_consume_string() {
    let mut lexer = Lexer::new(r#""foo""#);
    assert_eq!(lexer.consume_string(), Ok(Token::StringValue("foo".to_string())));
}

#[test]
fn test_consume_number() {
    let mut lexer = Lexer::new("123");
    let token = lexer.consume_number().unwrap();
    assert_eq!(token, Token::NumberValue("123".to_string()));
    assert_eq!(value_of(&token), 123.0);
}

#[test]
fn test_consume_keyword() {
    let mut lexer = Lexer::new("true");
    assert_eq!(lexer.consume_keyword(), Ok(Token::True));
    let mut lexer = Lexer::new("false");
    assert_eq!(lexer.consume_keyword(), Ok(Token::False));
    let mut lexer = Lexer::new("null");
    assert_eq!(lexer.consume_keyword(), Ok(Token::Null));
}

#[test]
fn test_consume_whitespace() {
    let mut lexer = Lexer::new("  \t\n\r");
    lexer.consume_whitespace();
    assert_eq!(lexer.peek(), None);
}

#[test]
fn test_next_token() {
    let input = r#"{"foo": "bar"}"#;
    let mut lexer = Lexer::new(input);
    assert_eq!(lexer.next_token(), Ok(Token::LBrace));
    assert_eq!(lexer.next_token(), Ok(Token::StringValue("foo".to_string())));
    assert_eq!(lexer.next_token(), Ok(Token::Colon));
    assert_eq!(lexer.next_token(), Ok(Token::StringValue("bar".to_string())));
    assert_eq!(lexer.next_token(), Ok(Token::RBrace));
    assert_eq!(lexer.next_token(), Ok(Token::End));
}

#[test]
fn test_tokenize() {
    let mut lexer = Lexer::new(
        r#"
            {
                "foo": "bar",
                "baz": 123,
                "qux": true,
                "quux": false,
                "corge": null,
                "grault": {
                    "garply": "waldo",
                    "fred": 42,
                    "plugh": true,
                    "xyzzy": false,
                    "thud": null,
                    "emptyObject": {},
                    "emptyArray": []
                },
                "emptyObject": {},
                "emptyArray": []
            }
        "#,
    );
    let tokens = lexer.tokenize().unwrap();
    assert_eq!(
        tokens,
        vec![
            Token::LBrace,
            Token::StringValue("foo".to_string()),
            Token::Colon,
            Token::StringValue("bar".to_string()),
            Token::Comma,
            Token::StringValue("baz".to_string()),
            Token::Colon,
            Token::NumberValue("123".to_string()),
            Token::Comma,
            Token::StringValue("qux".to_string()),
            Token::Colon,
            Token::True,
            Token::Comma,
            Token::StringValue("quux".to_string()),
            Token::Colon,
            Token::False,
            Token::Comma,
            Token::StringValue("corge".to_string()),
            Token::Colon,
            Token::Null,
            Token::Comma,
            Token::StringValue("grault".to_string()),
            Token::Colon,
            Token::LBrace,
            Token::StringValue("garply".to_string()),
            Token::Colon,
            Token::StringValue("waldo".to_string()),
            Token::Comma,
            Token::StringValue("fred".to_string()),
            Token::Colon,
            Token::NumberValue("42".to_string()),
            Token::Comma,
            Token::StringValue("plugh".to_string()),
            Token::Colon,
            Token::True,
            Token::Comma,
            Token::StringValue("xyzzy".to_string()),
            Token::Colon,
            Token::False,
            Token::Comma,
            Token::StringValue("thud".to_string()),
            Token::Colon,
            Token::Null,
            Token::Comma,
            Token::StringValue("emptyObject".to_string()),
            Token::Colon,
            Token::LBrace,
            Token::RBrace,
            Token::Comma,
            Token::StringValue("emptyArray".to_string()),
            Token::Colon,
            Token::LBracket,
            Token::RBracket,
            Token::RBrace,
            Token::Comma,
            Token::StringValue("emptyObject".to_string()),
            Token::Colon,
            Token::LBrace,
            Token::RBrace,
            Token::Comma,
            Token::StringValue("emptyArray".to_string()),
            Token::Colon,
            Token::LBracket,
            Token::RBracket,
            Token::RBrace,
            Token::End,
        ]
    );
    assert_eq!(value_of(&tokens[7]), 123.0);
    assert_eq!(value_of(&tokens[30]), 42.0);
    assert_eq!(lexer.peek(), None);
}

#[test]
fn quoted_text_is_one_string_token() {
    assert_eq!(tokenize("\"foo\""), Ok(vec![string("foo"), Token::End]));
    assert_eq!(tokenize("\"\""), Ok(vec![string(""), Token::End]));
    assert_eq!(tokenize("\"a b,{c}: 1 true\""), Ok(vec![string("a b,{c}: 1 true"), Token::End]));
    assert_eq!(tokenize("\"\u{e9}\u{8d8a}\""), Ok(vec![string("\u{e9}\u{8d8a}"), Token::End]));
}

#[test]
fn backslash_is_no_escape() {
    assert_eq!(tokenize(r#""a\""#), Ok(vec![string("a\\"), Token::End]));
    assert_eq!(tokenize(r#""a\"b""#), Err(LexError::InvalidKeyword));
    assert_eq!(tokenize(r#""a\n""#), Ok(vec![string("a\\n"), Token::End]));
}

#[test]
fn numeral_is_one_number_token() {
    assert_eq!(tokenize("123"), Ok(vec![number("123"), Token::End]));
    assert_eq!(tokenize("0"), Ok(vec![number("0"), Token::End]));
    assert_eq!(tokenize("3.14"), Ok(vec![number("3.14"), Token::End]));
    assert_eq!(tokenize("5."), Ok(vec![number("5."), Token::End]));
    assert_eq!(tokenize("007"), Ok(vec![number("007"), Token::End]));
    let tokens = tokenize("3.14 5. 007").unwrap();
    assert_eq!(value_of(&tokens[0]), 3.14);
    assert_eq!(value_of(&tokens[1]), 5.0);
    assert_eq!(value_of(&tokens[2]), 7.0);
}

#[test]
fn number_stops_at_the_first_other_character() {
    assert_eq!(tokenize("12,34"), Ok(vec![number("12"), Token::Comma, number("34"), Token::End]));
    assert_eq!(tokenize("1]"), Ok(vec![number("1"), Token::RBracket, Token::End]));
    assert_eq!(tokenize("1true"), Ok(vec![number("1"), Token::True, Token::End]));
}

#[test]
fn keywords_are_single_tokens() {
    assert_eq!(tokenize("true"), Ok(vec![Token::True, Token::End]));
    assert_eq!(tokenize("false"), Ok(vec![Token::False, Token::End]));
    assert_eq!(tokenize("null"), Ok(vec![Token::Null, Token::End]));
}

#[test]
fn empty_text_is_only_end() {
    assert_eq!(tokenize(""), Ok(vec![Token::End]));
    assert_eq!(tokenize("  \t\n\r"), Ok(vec![Token::End]));
    let mut lexer = Lexer::new("");
    assert_eq!(lexer.next_token(), Ok(Token::End));
    assert_eq!(lexer.next_token(), Ok(Token::End));
}

#[test]
fn white_space_outside_ascii_is_skipped() {
    assert_eq!(
        tokenize("\u{a0}[\u{3000}\u{2003}]\u{85}"),
        Ok(vec![Token::LBracket, Token::RBracket, Token::End])
    );
    assert_eq!(tokenize("\u{b}\u{c}:"), Ok(vec![Token::Colon, Token::End]));
    let mut lexer = Lexer::new("\u{2028}x");
    lexer.consume_whitespace();
    assert_eq!(lexer.peek(), Some('x'));
}

#[test]
fn consume_whitespace_stops_at_the_first_other_character() {
    let mut lexer = Lexer::new(" \t{ }");
    lexer.consume_whitespace();
    assert_eq!(lexer.peek(), Some('{'));
    lexer.consume_whitespace();
    assert_eq!(lexer.peek(), Some('{'));
    let mut lexer = Lexer::new("\u{200b} ");
    lexer.consume_whitespace();
    assert_eq!(lexer.peek(), Some('\u{200b}'));
}

#[test]
fn unexpected_character() {
    assert_eq!(tokenize("@"), Err(LexError::UnexpectedCharacter));
    assert_eq!(tokenize("-1"), Err(LexError::UnexpectedCharacter));
    assert_eq!(tokenize(".5"), Err(LexError::UnexpectedCharacter));
    assert_eq!(tokenize("[1, 'a']"), Err(LexError::UnexpectedCharacter));
    assert_eq!(tokenize("\u{e9}"), Err(LexError::UnexpectedCharacter));
    assert_eq!(tokenize("\u{663}"), Err(LexError::UnexpectedCharacter));
    let mut lexer = Lexer::new("  @");
    assert_eq!(lexer.next_token(), Err(LexError::UnexpectedCharacter));
    assert_eq!(lexer.peek(), Some('@'));
}

#[test]
fn unterminated_string() {
    assert_eq!(tokenize("\"abc"), Err(LexError::UnterminatedString));
    assert_eq!(tokenize("\""), Err(LexError::UnterminatedString));
    assert_eq!(tokenize("{\"foo\": \"bar}"), Err(LexError::UnterminatedString));
    let mut lexer = Lexer::new("\"abc");
    assert_eq!(lexer.consume_string(), Err(LexError::UnterminatedString));
    assert_eq!(lexer.peek(), None);
}

#[test]
fn invalid_number() {
    assert_eq!(tokenize("1.2.3"), Err(LexError::InvalidNumber));
    assert_eq!(tokenize("1.."), Err(LexError::InvalidNumber));
    assert_eq!(tokenize("1\u{663}"), Err(LexError::InvalidNumber));
    assert_eq!(tokenize("2\u{b2}"), Err(LexError::InvalidNumber));
    let mut lexer = Lexer::new("1.2.3,");
    assert_eq!(lexer.next_token(), Err(LexError::InvalidNumber));
    assert_eq!(lexer.peek(), Some(','));
}

#[test]
fn invalid_keyword() {
    assert_eq!(tokenize("True"), Err(LexError::InvalidKeyword));
    assert_eq!(tokenize("nul1"), Err(LexError::InvalidKeyword));
    assert_eq!(tokenize("nulls"), Err(LexError::InvalidKeyword));
    assert_eq!(tokenize("tru"), Err(LexError::InvalidKeyword));
    assert_eq!(tokenize("foo"), Err(LexError::InvalidKeyword));
    assert_eq!(tokenize("tru\u{e9}"), Err(LexError::InvalidKeyword));
    assert_eq!(tokenize("truefalse"), Err(LexError::InvalidKeyword));
    let mut lexer = Lexer::new("nul1");
    assert_eq!(lexer.next_token(), Err(LexError::InvalidKeyword));
    assert_eq!(lexer.peek(), Some('1'));
}

#[test]
fn the_first_failure_ends_tokenizing() {
    assert_eq!(tokenize("[1.2.3, @"), Err(LexError::InvalidNumber));
    assert_eq!(tokenize("[@, 1.2.3"), Err(LexError::UnexpectedCharacter));
}

#[test]
fn consume_char_takes_any_character() {
    let mut lexer = Lexer::new("a,");
    assert_eq!(lexer.consume_char(), Err(LexError::UnexpectedCharacter));
    assert_eq!(lexer.peek(), Some(','));
    assert_eq!(lexer.consume_char(), Ok(Token::Comma));
    assert_eq!(lexer.peek(), None);
    assert_eq!(lexer.consume_char(), Err(LexError::UnexpectedCharacter));
}

#[test]
fn consume_string_needs_no_opening_quote() {
    let mut lexer = Lexer::new("foo\"bar\"");
    assert_eq!(lexer.consume_string(), Ok(string("foo")));
    assert_eq!(lexer.peek(), Some('b'));
    assert_eq!(lexer.consume_string(), Ok(string("bar")));
    assert_eq!(lexer.peek(), None);
    let mut lexer = Lexer::new("\"\"x\"");
    assert_eq!(lexer.consume_string(), Ok(string("")));
    assert_eq!(lexer.peek(), Some('x'));
}

#[test]
fn consume_number_takes_the_whole_run() {
    let mut lexer = Lexer::new(".5 ");
    assert_eq!(lexer.consume_number(), Ok(number(".5")));
    assert_eq!(lexer.peek(), Some(' '));
    let mut lexer = Lexer::new("abc");
    assert_eq!(lexer.consume_number(), Err(LexError::InvalidNumber));
    assert_eq!(lexer.peek(), Some('a'));
    let mut lexer = Lexer::new(".");
    assert_eq!(lexer.consume_number(), Err(LexError::InvalidNumber));
    assert_eq!(lexer.peek(), None);
}

#[test]
fn consume_keyword_takes_the_whole_run() {
    let mut lexer = Lexer::new("null,");
    assert_eq!(lexer.consume_keyword(), Ok(Token::Null));
    assert_eq!(lexer.peek(), Some(','));
    let mut lexer = Lexer::new("1");
    assert_eq!(lexer.consume_keyword(), Err(LexError::InvalidKeyword));
    assert_eq!(lexer.peek(), Some('1'));
}

#[test]
fn tokenize_goes_on_from_the_cursor() {
    let mut lexer = Lexer::new("[1, 2]");
    assert_eq!(lexer.next_token(), Ok(Token::LBracket));
    assert_eq!(lexer.next_token(), Ok(number("1")));
    assert_eq!(
        lexer.tokenize(),
        Ok(vec![Token::Comma, number("2"), Token::RBracket, Token::End])
    );
    assert_eq!(lexer.tokenize(), Ok(vec![Token::End]));
}

#[test]
fn punctuation_table() {
    assert_eq!(char_token('{'), Some(Token::LBrace));
    assert_eq!(char_token('}'), Some(Token::RBrace));
    assert_eq!(char_token('['), Some(Token::LBracket));
    assert_eq!(char_token(']'), Some(Token::RBracket));
    assert_eq!(char_token(':'), Some(Token::Colon));
    assert_eq!(char_token(','), Some(Token::Comma));
    assert_eq!(char_token('"'), None);
    assert_eq!(char_token('('), None);
    assert_eq!(char_token(' '), None);
}

#[test]
fn a_token_and_its_clone_are_equal() {
    for token in [string("foo"), number("1.5"), Token::True, Token::End, Token::LBrace] {
        assert_eq!(token.clone(), token);
    }
}

#[test]
fn tokens_spelled_out_behind_spaces_are_read_back() {
    assert_eq!(
        tokenize(" { , \"foo\" : 1.5 true false null [ ] }"),
        Ok(vec![
            Token::LBrace,
            Token::Comma,
            string("foo"),
            Token::Colon,
            number("1.5"),
            Token::True,
            Token::False,
            Token::Null,
            Token::LBracket,
            Token::RBracket,
            Token::RBrace,
            Token::End,
        ])
    );
}
