use json_tree::node::{Node, SyntaxTree};
use json_tree::parser::{parse, Expected, ParseError, Parser, SyntaxError};
use json_tree::token::{LexError, Token};

fn leaf(kind: SyntaxTree) -> Node {
    Node::new(kind, vec![])
}

fn string(text: &str) -> Node {
    leaf(SyntaxTree::StringLiteral(text.to_string()))
}

fn number(numeral: &str) -> Node {
    leaf(SyntaxTree::NumberLiteral(numeral.to_string()))
}

fn property(key: &str, value: Node) -> Node {
    Node::new(
        SyntaxTree::PropertyAssignment,
        vec![leaf(SyntaxTree::Identifier(key.to_string())), value],
    )
}

fn object(members: Vec<Node>) -> Node {
    Node::new(SyntaxTree::ObjectLiteral, members)
}

fn array(elements: Vec<Node>) -> Node {
    Node::new(SyntaxTree::ArrayLiteral, elements)
}

fn unexpected(expected: Expected, actual: Token) -> SyntaxError {
    SyntaxError::Parse(ParseError::UnexpectedToken { expected, actual })
}

fn parse_or_panic(parser: &mut Parser) -> Node {
    match parser.parse() {
        Ok(node) => node,
        Err(ParseError::UnexpectedToken { expected, actual }) => {
            panic!("Parse error: Unexpected token {:?} for {:?}", actual, expected)
        }
        Err(ParseError::UnexpectedEndOfInput) => panic!("Parse error: Unexpected end of input"),
    }
}

#[test]
fn test_parse_object_literal_success() {
    let input = r#"{"foo": "bar"}"#;
    let mut parser = Parser::new(input).unwrap();
    let node = parser.parse().unwrap();
    assert_eq!(
        node,
        Node::new(
            SyntaxTree::ObjectLiteral,
            vec![Node::new(
                SyntaxTree::PropertyAssignment,
                vec![
                    Node::new(SyntaxTree::Identifier("foo".to_string()), vec![]),
                    Node::new(SyntaxTree::StringLiteral("bar".to_string()), vec![]),
                ],
            ),],
        ),
    );
}

#[test]
#[should_panic(expected = "Parse error: Unexpected token")]
fn test_parse_object_literal_failure() {
    let input = r#"{"foo": "bar""#;
    let mut parser = Parser::new(input).unwrap();
    let node = parse_or_panic(&mut parser);
    assert_ne!(
        node,
        Node::new(
            SyntaxTree::ObjectLiteral,
            vec![Node::new(
                SyntaxTree::PropertyAssignment,
                vec![
                    Node::new(SyntaxTree::Identifier("foo".to_string()), vec![]),
                    Node::new(SyntaxTree::StringLiteral("bar".to_string()), vec![]),
                ],
            ),],
        ),
    );
}

#[test]
fn test_parse_array_literal_success() {
    let input = r#"["foo", "bar"]"#;
    let mut parser = Parser::new(input).unwrap();
    let node = parser.parse().unwrap();
    assert_eq!(
        node,
        Node::new(
            SyntaxTree::ArrayLiteral,
            vec![
                Node::new(SyntaxTree::StringLiteral("foo".to_string()), vec![]),
                Node::new(SyntaxTree::StringLiteral("bar".to_string()), vec![]),
            ],
        ),
    );
}

#[test]
#[should_panic(expected = "Parse error: Unexpected token")]
fn test_parse_array_literal_failure() {
    let input = r#"["foo", "bar""#;
    let mut parser = Parser::new(input).unwrap();
    let node = parse_or_panic(&mut parser);
    assert_ne!(
        node,
        Node::new(
            SyntaxTree::ArrayLiteral,
            vec![
                Node::new(SyntaxTree::StringLiteral("foo".to_string()), vec![]),
                Node::new(SyntaxTree::StringLiteral("bar".to_string()), vec![]),
            ],
        ),
    );
}

#[test]
fn empty_object_and_empty_array() {
    assert_eq!(parse("{}"), Ok(object(vec![])));
    assert_eq!(parse("[]"), Ok(array(vec![])));
    assert_eq!(parse("{}").unwrap().children.len(), 0);
    assert_eq!(parse("[]").unwrap().children.len(), 0);
    assert_eq!(parse("  { \n } "), Ok(object(vec![])));
}

#[test]
fn object_with_one_property() {
    assert_eq!(parse(r#"{"foo": "bar"}"#), Ok(object(vec![property("foo", string("bar"))])));
}

#[test]
fn array_of_two_strings() {
    assert_eq!(parse(r#"["foo", "bar"]"#), Ok(array(vec![string("foo"), string("bar")])));
}

#[test]
fn stray_commas_in_an_object_change_nothing() {
    let plain = parse(r#"{"foo":"bar"}"#);
    assert_eq!(plain, Ok(object(vec![property("foo", string("bar"))])));
    assert_eq!(parse(r#"{,"foo":"bar",,}"#), plain);
    assert_eq!(parse(r#"{,,,"foo":"bar"}"#), plain);
    assert_eq!(parse("{,}"), Ok(object(vec![])));
    assert_eq!(
        parse(r#"{"a": 1 "b": 2}"#),
        Ok(object(vec![property("a", number("1")), property("b", number("2"))]))
    );
    assert_eq!(parse(r#"{"a": 1 "b": 2}"#), parse(r#"{,"a": 1,,, "b": 2,}"#));
}

#[test]
fn stray_commas_in_an_array_change_nothing() {
    let plain = parse(r#"["foo","bar"]"#);
    assert_eq!(plain, Ok(array(vec![string("foo"), string("bar")])));
    assert_eq!(parse(r#"[,"foo",,"bar",,]"#), plain);
    assert_eq!(parse(r#"["foo" "bar"]"#), plain);
    assert_eq!(parse("[,,]"), Ok(array(vec![])));
    assert_eq!(parse("[[,],{,},]"), Ok(array(vec![array(vec![]), object(vec![])])));
}

#[test]
fn commas_are_not_tolerated_inside_a_property() {
    assert_eq!(parse(r#"{"a",: 1}"#), Err(unexpected(Expected::Colon, Token::Comma)));
    assert_eq!(parse(r#"{"a":, 1}"#), Err(unexpected(Expected::Value, Token::Comma)));
}

#[test]
fn truncated_object_is_a_parse_error() {
    assert_eq!(parse(r#"{"foo": "bar""#), Err(unexpected(Expected::Member, Token::End)));
    assert_eq!(parse("{"), Err(unexpected(Expected::Member, Token::End)));
    assert_eq!(parse(r#"{"foo""#), Err(unexpected(Expected::Colon, Token::End)));
    assert_eq!(parse(r#"{"foo":"#), Err(unexpected(Expected::Value, Token::End)));
}

#[test]
fn truncated_array_is_a_parse_error() {
    assert_eq!(parse(r#"["foo", "bar""#), Err(unexpected(Expected::Value, Token::End)));
    assert_eq!(parse("["), Err(unexpected(Expected::Value, Token::End)));
    assert_eq!(parse("[[]"), Err(unexpected(Expected::Value, Token::End)));
}

#[test]
fn a_scalar_is_no_document() {
    assert_eq!(
        parse("\"foo\""),
        Err(unexpected(Expected::Document, Token::StringValue("foo".to_string())))
    );
    assert_eq!(
        parse("42"),
        Err(unexpected(Expected::Document, Token::NumberValue("42".to_string())))
    );
    assert_eq!(parse("true"), Err(unexpected(Expected::Document, Token::True)));
    assert_eq!(parse("false"), Err(unexpected(Expected::Document, Token::False)));
    assert_eq!(parse("null"), Err(unexpected(Expected::Document, Token::Null)));
    assert_eq!(parse(""), Err(unexpected(Expected::Document, Token::End)));
    assert_eq!(parse("}"), Err(unexpected(Expected::Document, Token::RBrace)));
    assert_eq!(parse(","), Err(unexpected(Expected::Document, Token::Comma)));
}

#[test]
fn parsing_twice_gives_equal_trees() {
    let input = r#"{"a": [1, 2, {"b": null}], "c": "d"}"#;
    assert_eq!(parse(input), parse(input));
    assert!(parse(input).is_ok());
    let broken = r#"{"a": [1, 2, {"b": null}], "c" "d"}"#;
    assert_eq!(parse(broken), parse(broken));
    assert!(parse(broken).is_err());
}

#[test]
fn nested_empty_object_and_array() {
    assert_eq!(
        parse(r#"{"a": {}, "b": []}"#),
        Ok(object(vec![property("a", object(vec![])), property("b", array(vec![]))]))
    );
}

#[test]
fn every_kind_of_value() {
    assert_eq!(
        parse(r#"["s", 1.5, true, false, null, {"k": [2]}, []]"#),
        Ok(array(vec![
            string("s"),
            number("1.5"),
            leaf(SyntaxTree::TrueLiteral),
            leaf(SyntaxTree::FalseLiteral),
            leaf(SyntaxTree::NullLiteral),
            object(vec![property("k", array(vec![number("2")]))]),
            array(vec![]),
        ]))
    );
}

#[test]
fn a_number_keeps_its_numeral() {
    let tree = parse("[123, 4.50]").unwrap();
    assert_eq!(tree, array(vec![number("123"), number("4.50")]));
    let values: Vec<f64> = tree
        .children
        .iter()
        .map(|child| match &child.kind {
            SyntaxTree::NumberLiteral(numeral) => numeral.parse::<f64>().unwrap(),
            other => panic!("not a number: {:?}", other),
        })
        .collect();
    assert_eq!(values, vec![123.0, 4.5]);
}

#[test]
fn deep_nesting() {
    let mut text = String::new();
    let mut expected = array(vec![]);
    for _ in 0..200 {
        text.push('[');
    }
    for _ in 0..200 {
        text.push(']');
    }
    for _ in 0..199 {
        expected = array(vec![expected]);
    }
    assert_eq!(parse(&text), Ok(expected));
}

#[test]
fn what_follows_the_document_is_not_read() {
    assert_eq!(parse("{} []"), Ok(object(vec![])));
    assert_eq!(parse("[] }"), Ok(array(vec![])));
}

#[test]
fn a_colon_must_follow_the_key() {
    assert_eq!(
        parse(r#"{"a" "b"}"#),
        Err(unexpected(Expected::Colon, Token::StringValue("b".to_string())))
    );
    assert_eq!(parse(r#"{"a"}"#), Err(unexpected(Expected::Colon, Token::RBrace)));
}

#[test]
fn a_value_must_follow_the_colon() {
    assert_eq!(parse(r#"{"a": }"#), Err(unexpected(Expected::Value, Token::RBrace)));
    assert_eq!(parse(r#"{"a": :}"#), Err(unexpected(Expected::Value, Token::Colon)));
    assert_eq!(parse(r#"{"a": ]}"#), Err(unexpected(Expected::Value, Token::RBracket)));
}

#[test]
fn an_object_holds_only_properties() {
    assert_eq!(
        parse("{1}"),
        Err(unexpected(Expected::Member, Token::NumberValue("1".to_string())))
    );
    assert_eq!(parse("{true: 1}"), Err(unexpected(Expected::Member, Token::True)));
    assert_eq!(parse("{[]}"), Err(unexpected(Expected::Member, Token::LBracket)));
    assert_eq!(parse("{]"), Err(unexpected(Expected::Member, Token::RBracket)));
    assert_eq!(parse("{:}"), Err(unexpected(Expected::Member, Token::Colon)));
}

#[test]
fn an_array_holds_only_values() {
    assert_eq!(parse("[:]"), Err(unexpected(Expected::Value, Token::Colon)));
    assert_eq!(parse("[}"), Err(unexpected(Expected::Value, Token::RBrace)));
    assert_eq!(
        parse(r#"["a": 1]"#),
        Err(unexpected(Expected::Value, Token::Colon))
    );
}

#[test]
fn the_first_error_ends_parsing() {
    assert_eq!(parse("[[:], {1}]"), Err(unexpected(Expected::Value, Token::Colon)));
    assert_eq!(
        parse(r#"{"a": {"b" 1}, "c" 2}"#),
        Err(unexpected(Expected::Colon, Token::NumberValue("1".to_string())))
    );
}

#[test]
fn text_that_is_not_tokens_fails_before_parsing() {
    assert_eq!(parse("[@]"), Err(SyntaxError::Lex(LexError::UnexpectedCharacter)));
    assert_eq!(parse("{\"a\": \"b}"), Err(SyntaxError::Lex(LexError::UnterminatedString)));
    assert_eq!(parse("[1.2.3]"), Err(SyntaxError::Lex(LexError::InvalidNumber)));
    assert_eq!(parse("[True]"), Err(SyntaxError::Lex(LexError::InvalidKeyword)));
    assert_eq!(parse("{:} @"), Err(SyntaxError::Lex(LexError::UnexpectedCharacter)));
    assert_eq!(Parser::new("[@]").err(), Some(LexError::UnexpectedCharacter));
    assert_eq!(Parser::new("\"abc").err(), Some(LexError::UnterminatedString));
}

#[test]
fn tokens_that_run_out() {
    assert_eq!(Parser::from_tokens(vec![]).parse(), Err(ParseError::UnexpectedEndOfInput));
    assert_eq!(
        Parser::from_tokens(vec![Token::LBrace]).parse(),
        Err(ParseError::UnexpectedEndOfInput)
    );
    assert_eq!(
        Parser::from_tokens(vec![Token::LBracket, Token::Comma]).parse(),
        Err(ParseError::UnexpectedEndOfInput)
    );
    assert_eq!(
        Parser::from_tokens(vec![Token::LBrace, Token::StringValue("a".to_string())]).parse(),
        Err(ParseError::UnexpectedEndOfInput)
    );
    assert_eq!(
        Parser::from_tokens(vec![
            Token::LBrace,
            Token::StringValue("a".to_string()),
            Token::Colon
        ])
        .parse(),
        Err(ParseError::UnexpectedEndOfInput)
    );
    assert_eq!(
        Parser::from_tokens(vec![Token::LBrace, Token::RBrace]).parse(),
        Ok(object(vec![]))
    );
}

#[test]
fn literals_are_read_one_token_at_a_time() {
    let mut parser = Parser::from_tokens(vec![
        Token::StringValue("s".to_string()),
        Token::NumberValue("1".to_string()),
        Token::True,
        Token::False,
        Token::Null,
    ]);
    assert_eq!(parser.consume_string(), Ok(string("s")));
    assert_eq!(parser.consume_number(), Ok(number("1")));
    assert_eq!(parser.consume_true(), Ok(leaf(SyntaxTree::TrueLiteral)));
    assert_eq!(parser.consume_false(), Ok(leaf(SyntaxTree::FalseLiteral)));
    assert_eq!(parser.consume_null(), Ok(leaf(SyntaxTree::NullLiteral)));
    assert_eq!(parser.consume_null(), Err(ParseError::UnexpectedEndOfInput));
    assert_eq!(parser.consume_string(), Err(ParseError::UnexpectedEndOfInput));
}

#[test]
fn a_literal_of_another_kind_is_refused_and_stays() {
    let mut parser = Parser::from_tokens(vec![Token::True, Token::Null]);
    assert_eq!(
        parser.consume_string(),
        Err(ParseError::UnexpectedToken { expected: Expected::StringValue, actual: Token::True })
    );
    assert_eq!(
        parser.consume_number(),
        Err(ParseError::UnexpectedToken { expected: Expected::NumberValue, actual: Token::True })
    );
    assert_eq!(
        parser.consume_false(),
        Err(ParseError::UnexpectedToken { expected: Expected::False, actual: Token::True })
    );
    assert_eq!(
        parser.consume_null(),
        Err(ParseError::UnexpectedToken { expected: Expected::Null, actual: Token::True })
    );
    assert_eq!(parser.consume_true(), Ok(leaf(SyntaxTree::TrueLiteral)));
    assert_eq!(
        parser.consume_true(),
        Err(ParseError::UnexpectedToken { expected: Expected::True, actual: Token::Null })
    );
}

#[test]
fn the_parts_of_the_grammar_one_by_one() {
    let mut parser = Parser::new(r#"{"a": 1} [2] "k": [] 5 :"#).unwrap();
    assert_eq!(parser.consume_object_literal(), Ok(object(vec![property("a", number("1"))])));
    assert_eq!(
        parser.consume_object_literal(),
        Err(ParseError::UnexpectedToken { expected: Expected::LBrace, actual: Token::LBracket })
    );
    assert_eq!(parser.consume_array_literal(), Ok(array(vec![number("2")])));
    assert_eq!(
        parser.consume_array_literal(),
        Err(ParseError::UnexpectedToken {
            expected: Expected::LBracket,
            actual: Token::StringValue("k".to_string())
        })
    );
    assert_eq!(parser.consume_property_assignment(), Ok(property("k", array(vec![]))));
    assert_eq!(
        parser.consume_property_assignment(),
        Err(ParseError::UnexpectedToken {
            expected: Expected::StringValue,
            actual: Token::NumberValue("5".to_string())
        })
    );
    assert_eq!(parser.consume_expression(), Ok(number("5")));
    assert_eq!(
        parser.consume_expression(),
        Err(ParseError::UnexpectedToken { expected: Expected::Value, actual: Token::Colon })
    );
}

#[test]
fn a_larger_document() {
    let input = r#"
        {
            "foo": "bar",
            "baz": 123,
            "qux": true,
            "quux": false,
            "corge": null,
            "grault": {
                "garply": "waldo",
                "fred": 42,
                "plugh": true,
                "xyzzy": false,
                "thud": null,
                "emptyObject": {},
                "emptyArray": []
            },
            "emptyObject": {},
            "emptyArray": []
        }
    "#;
    assert_eq!(
        parse(input),
        Ok(object(vec![
            property("foo", string("bar")),
            property("baz", number("123")),
            property("qux", leaf(SyntaxTree::TrueLiteral)),
            property("quux", leaf(SyntaxTree::FalseLiteral)),
            property("corge", leaf(SyntaxTree::NullLiteral)),
            property(
                "grault",
                object(vec![
                    property("garply", string("waldo")),
                    property("fred", number("42")),
                    property("plugh", leaf(SyntaxTree::TrueLiteral)),
                    property("xyzzy", leaf(SyntaxTree::FalseLiteral)),
                    property("thud", leaf(SyntaxTree::NullLiteral)),
                    property("emptyObject", object(vec![])),
                    property("emptyArray", array(vec![])),
                ])
            ),
            property("emptyObject", object(vec![])),
            property("emptyArray", array(vec![])),
        ]))
    );
}

#[test]
fn node_new_keeps_kind_and_children() {
    let node = Node::new(SyntaxTree::ArrayLiteral, vec![leaf(SyntaxTree::End)]);
    assert_eq!(node.kind, SyntaxTree::ArrayLiteral);
    assert_eq!(node.children, vec![leaf(SyntaxTree::End)]);
    assert_ne!(node, array(vec![]));
}

#[test]
fn a_tree_and_its_clone_are_equal() {
    let tree = parse(r#"{"a": [1, {"b": null}, true], "c": "d", "e": {}}"#).unwrap();
    let copy = tree.clone();
    assert_eq!(copy, tree);
    assert_eq!(copy.children.len(), 3);
    assert_eq!(SyntaxTree::Identifier("a".to_string()).clone(), SyntaxTree::Identifier("a".to_string()));
}

#[test]
fn a_text_that_is_cut_off_ends_in_a_refused_end() {
    for text in ["{", "[", "{\"a\"", "{\"a\":", "{\"a\": [", "[1,", "[{\"a\": {"] {
        match parse(text) {
            Err(SyntaxError::Parse(ParseError::UnexpectedToken { actual, .. })) => {
                assert_eq!(actual, Token::End)
            }
            other => panic!("{:?}", other),
        }
    }
}

#[test]
fn a_document_written_out_with_commas_anywhere_is_read_back() {
    let tree = object(vec![
        property("a", array(vec![number("1"), string("x")])),
        property("b", leaf(SyntaxTree::NullLiteral)),
    ]);
    assert_eq!(parse(" { \"a\" : [ 1 \"x\" ] \"b\" : null }"), Ok(object(vec![
        property("a", array(vec![number("1"), string("x")])),
        property("b", leaf(SyntaxTree::NullLiteral)),
    ])));
    assert_eq!(parse(" { , , \"a\" : [ , 1 , , \"x\" , ] , \"b\" : null , , , }"), Ok(tree));
}
