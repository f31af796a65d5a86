//! The parser: recursive descent over the tokens, with one token of
//! lookahead.
//!
//! ```text
//! value    := string | number | "true" | "false" | "null" | object | array
//! object   := "{" members "}"
//! array    := "[" elements "]"
//! property := string ":" value
//! ```
//!
//! Commas are tolerated, not required: between the brackets of an object or an
//! array any number of commas may stand before, between and after the members.
//! A document is an object or an array; what follows it is not read.
//!
//! What the parser does is defined by the spec functions of this module, which
//! read a sequence of tokens from a position. The methods of [`Parser`] are
//! proved to compute them.
use crate::lexer::{ends_with_only_end, lemma_scan_all_ends, lex, tokenize};
use crate::node::{trees, Kind, Node, SyntaxTree, Tree};
use crate::token::{token_views, LexError, Token, TokenView};
use vstd::prelude::*;

verus! {

/// What the grammar wants at the place where a token was refused.
#[derive(Debug, Clone, Copy, PartialEq, Eq, Structural)]
pub enum Expected {
    /// A string.
    StringValue,
    /// A number.
    NumberValue,
    /// The keyword `true`.
    True,
    /// The keyword `false`.
    False,
    /// The keyword `null`.
    Null,
    /// The colon between a key and its value.
    Colon,
    /// The brace that opens an object.
    LBrace,
    /// The bracket that opens an array.
    LBracket,
    /// The first token of a value.
    Value,
    /// Inside an object: a key, a comma or the closing brace.
    Member,
    /// The first token of a document: an opening brace or bracket.
    Document,
}

/// Why a sequence of tokens could not be parsed.
#[derive(Debug, PartialEq)]
pub enum ParseError {
    /// The next token is not what the grammar wants at this place.
    UnexpectedToken { expected: Expected, actual: Token },
    /// The tokens are used up where the grammar wants another one.
    UnexpectedEndOfInput,
}

/// A parse error as a mathematical value.
pub enum ParseErrorView {
    UnexpectedToken { expected: Expected, actual: TokenView },
    UnexpectedEndOfInput,
}

impl View for ParseError {
    type V = ParseErrorView;

    open spec fn view(&self) -> ParseErrorView {
        match self {
            ParseError::UnexpectedToken { expected, actual } => ParseErrorView::UnexpectedToken {
                expected: *expected,
                actual: actual@,
            },
            ParseError::UnexpectedEndOfInput => ParseErrorView::UnexpectedEndOfInput,
        }
    }
}

/// Why a text could not be turned into a tree: it is not made of tokens, or
/// the tokens are not a document.
#[derive(Debug, PartialEq)]
pub enum SyntaxError {
    Lex(LexError),
    Parse(ParseError),
}

/// A syntax error as a mathematical value.
pub enum SyntaxErrorView {
    Lex(LexError),
    Parse(ParseErrorView),
}

impl View for SyntaxError {
    type V = SyntaxErrorView;

    open spec fn view(&self) -> SyntaxErrorView {
        match self {
            SyntaxError::Lex(error) => SyntaxErrorView::Lex(*error),
            SyntaxError::Parse(error) => SyntaxErrorView::Parse(error@),
        }
    }
}

/// The outcome of one parsing step: the tree or the failure, and the position
/// of the cursor afterwards. A token that is refused is not consumed.
pub struct Parsed {
    pub result: Result<Tree, ParseErrorView>,
    pub next: nat,
}

/// The step that refuses the token at `at`, or the end of the tokens.
pub open spec fn refused(expected: Expected, tokens: Seq<TokenView>, at: nat) -> Parsed {
    Parsed {
        result: Err(
            if at < tokens.len() {
                ParseErrorView::UnexpectedToken { expected, actual: tokens[at as int] }
            } else {
                ParseErrorView::UnexpectedEndOfInput
            },
        ),
        next: at,
    }
}

/// The step that takes the one token at `at` as a node without children.
pub open spec fn taken(kind: Kind, at: nat) -> Parsed {
    Parsed { result: Ok(Tree::leaf(kind)), next: at + 1 }
}

/// Reads a string.
pub open spec fn parse_string(tokens: Seq<TokenView>, at: nat) -> Parsed {
    if at < tokens.len() && tokens[at as int] is StringValue {
        taken(Kind::StringLiteral(tokens[at as int]->StringValue_0), at)
    } else {
        refused(Expected::StringValue, tokens, at)
    }
}

/// Reads a number.
pub open spec fn parse_number(tokens: Seq<TokenView>, at: nat) -> Parsed {
    if at < tokens.len() && tokens[at as int] is NumberValue {
        taken(Kind::NumberLiteral(tokens[at as int]->NumberValue_0), at)
    } else {
        refused(Expected::NumberValue, tokens, at)
    }
}

/// Reads `true`.
pub open spec fn parse_true(tokens: Seq<TokenView>, at: nat) -> Parsed {
    if at < tokens.len() && tokens[at as int] is True {
        taken(Kind::TrueLiteral, at)
    } else {
        refused(Expected::True, tokens, at)
    }
}

/// Reads `false`.
pub open spec fn parse_false(tokens: Seq<TokenView>, at: nat) -> Parsed {
    if at < tokens.len() && tokens[at as int] is False {
        taken(Kind::FalseLiteral, at)
    } else {
        refused(Expected::False, tokens, at)
    }
}

/// Reads `null`.
pub open spec fn parse_null(tokens: Seq<TokenView>, at: nat) -> Parsed {
    if at < tokens.len() && tokens[at as int] is Null {
        taken(Kind::NullLiteral, at)
    } else {
        refused(Expected::Null, tokens, at)
    }
}

/// Reads a value: the token at `at` decides which.
pub open spec fn parse_value(tokens: Seq<TokenView>, at: nat) -> Parsed
    decreases tokens.len() - at, 2nat,
{
    if at < tokens.len() {
        match tokens[at as int] {
            TokenView::StringValue(_) => parse_string(tokens, at),
            TokenView::NumberValue(_) => parse_number(tokens, at),
            TokenView::True => parse_true(tokens, at),
            TokenView::False => parse_false(tokens, at),
            TokenView::Null => parse_null(tokens, at),
            TokenView::LBrace => parse_object(tokens, at),
            TokenView::LBracket => parse_array(tokens, at),
            _ => refused(Expected::Value, tokens, at),
        }
    } else {
        refused(Expected::Value, tokens, at)
    }
}

/// Reads an object: the opening brace, then the members up to the closing
/// brace.
pub open spec fn parse_object(tokens: Seq<TokenView>, at: nat) -> Parsed
    decreases tokens.len() - at, 1nat,
{
    if at < tokens.len() && tokens[at as int] is LBrace {
        parse_members(tokens, at + 1, Seq::empty())
    } else {
        refused(Expected::LBrace, tokens, at)
    }
}

/// Reads the rest of an object of which `members` have been read: a closing
/// brace ends it, a comma is passed over, a string starts the next property,
/// and any other token is refused.
pub open spec fn parse_members(tokens: Seq<TokenView>, at: nat, members: Seq<Tree>) -> Parsed
    decreases tokens.len() - at, 3nat,
{
    if at < tokens.len() {
        match tokens[at as int] {
            TokenView::RBrace => Parsed {
                result: Ok(Tree { kind: Kind::ObjectLiteral, children: members }),
                next: at + 1,
            },
            TokenView::Comma => parse_members(tokens, at + 1, members),
            TokenView::StringValue(_) => {
                let property = parse_property(tokens, at);
                // A property that was read has taken tokens: see
                // `lemma_parse_property_advances`.
                if property.result is Ok && at < property.next <= tokens.len() {
                    parse_members(tokens, property.next, members.push(property.result->Ok_0))
                } else {
                    property
                }
            },
            _ => refused(Expected::Member, tokens, at),
        }
    } else {
        refused(Expected::Member, tokens, at)
    }
}

/// Reads a property: the key, the colon and the value.
pub open spec fn parse_property(tokens: Seq<TokenView>, at: nat) -> Parsed
    decreases tokens.len() - at, 0nat,
{
    if at < tokens.len() && tokens[at as int] is StringValue {
        if at + 1 < tokens.len() && tokens[(at + 1) as int] is Colon {
            let value = parse_value(tokens, at + 2);
            Parsed {
                result: match value.result {
                    Ok(tree) => Ok(
                        Tree {
                            kind: Kind::PropertyAssignment,
                            children: seq![
                                Tree::leaf(Kind::Identifier(tokens[at as int]->StringValue_0)),
                                tree,
                            ],
                        },
                    ),
                    Err(error) => Err(error),
                },
                next: value.next,
            }
        } else {
            refused(Expected::Colon, tokens, at + 1)
        }
    } else {
        refused(Expected::StringValue, tokens, at)
    }
}

/// Reads an array: the opening bracket, then the elements up to the closing
/// bracket.
pub open spec fn parse_array(tokens: Seq<TokenView>, at: nat) -> Parsed
    decreases tokens.len() - at, 1nat,
{
    if at < tokens.len() && tokens[at as int] is LBracket {
        parse_elements(tokens, at + 1, Seq::empty())
    } else {
        refused(Expected::LBracket, tokens, at)
    }
}

/// Reads the rest of an array of which `elements` have been read: a closing
/// bracket ends it, a comma is passed over, and anything else must be the
/// next value.
pub open spec fn parse_elements(tokens: Seq<TokenView>, at: nat, elements: Seq<Tree>) -> Parsed
    decreases tokens.len() - at, 3nat,
{
    if at < tokens.len() {
        match tokens[at as int] {
            TokenView::RBracket => Parsed {
                result: Ok(Tree { kind: Kind::ArrayLiteral, children: elements }),
                next: at + 1,
            },
            TokenView::Comma => parse_elements(tokens, at + 1, elements),
            _ => {
                let value = parse_value(tokens, at);
                // A value that was read has taken tokens: see
                // `lemma_parse_value_advances`.
                if value.result is Ok && at < value.next <= tokens.len() {
                    parse_elements(tokens, value.next, elements.push(value.result->Ok_0))
                } else {
                    value
                }
            },
        }
    } else {
        refused(Expected::Value, tokens, at)
    }
}

/// Reads a document: an object or an array. Tokens behind it are not read.
pub open spec fn parse_document(tokens: Seq<TokenView>, at: nat) -> Parsed {
    if at < tokens.len() && tokens[at as int] is LBrace {
        parse_object(tokens, at)
    } else if at < tokens.len() && tokens[at as int] is LBracket {
        parse_array(tokens, at)
    } else {
        refused(Expected::Document, tokens, at)
    }
}

/// The tree of a whole sequence of tokens.
pub open spec fn parse_tokens(tokens: Seq<TokenView>) -> Result<Tree, ParseErrorView> {
    parse_document(tokens, 0).result
}

/// The tree of a text: the text is cut into tokens, and the tokens are read
/// as a document.
pub open spec fn parse_text(text: Seq<char>) -> Result<Tree, SyntaxErrorView> {
    match lex(text) {
        Err(error) => Err(SyntaxErrorView::Lex(error)),
        Ok(tokens) => match parse_tokens(tokens) {
            Ok(tree) => Ok(tree),
            Err(error) => Err(SyntaxErrorView::Parse(error)),
        },
    }
}

/// The view of what a parsing step returned.
pub open spec fn parsed_view(outcome: Result<Node, ParseError>) -> Result<Tree, ParseErrorView> {
    match outcome {
        Ok(node) => Ok(node@),
        Err(error) => Err(error@),
    }
}

/// The view of what parsing a text returned.
pub open spec fn outcome_view(outcome: Result<Node, SyntaxError>) -> Result<Tree, SyntaxErrorView> {
    match outcome {
        Ok(node) => Ok(node@),
        Err(error) => Err(error@),
    }
}

/// A value that was read has taken at least one token, and none past the end.
pub proof fn lemma_parse_value_advances(tokens: Seq<TokenView>, at: nat)
    ensures
        parse_value(tokens, at).result is Ok ==> at < parse_value(tokens, at).next <= tokens.len(),
    decreases tokens.len() - at, 2nat,
{
    if at < tokens.len() {
        match tokens[at as int] {
            TokenView::LBrace => lemma_parse_members_advance(tokens, at + 1, Seq::empty()),
            TokenView::LBracket => lemma_parse_elements_advance(tokens, at + 1, Seq::empty()),
            _ => {},
        }
    }
}

/// A property that was read has taken at least one token, and none past the
/// end.
pub proof fn lemma_parse_property_advances(tokens: Seq<TokenView>, at: nat)
    ensures
        parse_property(tokens, at).result is Ok ==> at < parse_property(tokens, at).next
            <= tokens.len(),
    decreases tokens.len() - at, 0nat,
{
    if at + 1 < tokens.len() {
        lemma_parse_value_advances(tokens, at + 2);
    }
}

/// The rest of an object that was read has taken at least one token, and none
/// past the end.
pub proof fn lemma_parse_members_advance(tokens: Seq<TokenView>, at: nat, members: Seq<Tree>)
    ensures
        parse_members(tokens, at, members).result is Ok ==> at < parse_members(
            tokens,
            at,
            members,
        ).next <= tokens.len(),
    decreases tokens.len() - at, 3nat,
{
    if at < tokens.len() {
        match tokens[at as int] {
            TokenView::Comma => lemma_parse_members_advance(tokens, at + 1, members),
            TokenView::StringValue(_) => {
                let property = parse_property(tokens, at);
                lemma_parse_property_advances(tokens, at);
                if property.result is Ok {
                    lemma_parse_members_advance(
                        tokens,
                        property.next,
                        members.push(property.result->Ok_0),
                    );
                }
            },
            _ => {},
        }
    }
}

/// The rest of an array that was read has taken at least one token, and none
/// past the end.
pub proof fn lemma_parse_elements_advance(tokens: Seq<TokenView>, at: nat, elements: Seq<Tree>)
    ensures
        parse_elements(tokens, at, elements).result is Ok ==> at < parse_elements(
            tokens,
            at,
            elements,
        ).next <= tokens.len(),
    decreases tokens.len() - at, 3nat,
{
    if at < tokens.len() {
        match tokens[at as int] {
            TokenView::RBracket => {},
            TokenView::Comma => lemma_parse_elements_advance(tokens, at + 1, elements),
            _ => {
                let value = parse_value(tokens, at);
                lemma_parse_value_advances(tokens, at);
                if value.result is Ok {
                    lemma_parse_elements_advance(
                        tokens,
                        value.next,
                        elements.push(value.result->Ok_0),
                    );
                }
            },
        }
    }
}

/// A value that was read is a value as the tree's rules have it.
pub proof fn lemma_parse_value_is_value(tokens: Seq<TokenView>, at: nat)
    ensures
        parse_value(tokens, at).result matches Ok(tree) ==> tree.is_value(),
    decreases tokens.len() - at, 2nat,
{
    if at < tokens.len() {
        match tokens[at as int] {
            TokenView::LBrace => lemma_parse_members_is_object(tokens, at + 1, Seq::empty()),
            TokenView::LBracket => lemma_parse_elements_is_array(tokens, at + 1, Seq::empty()),
            _ => {},
        }
    }
}

/// A property that was read is a property as the tree's rules have it.
pub proof fn lemma_parse_property_is_property(tokens: Seq<TokenView>, at: nat)
    ensures
        parse_property(tokens, at).result matches Ok(tree) ==> tree.is_property(),
    decreases tokens.len() - at, 0nat,
{
    if at + 1 < tokens.len() {
        lemma_parse_value_is_value(tokens, at + 2);
    }
}

/// The rest of an object, read behind properties, makes an object of
/// properties.
pub proof fn lemma_parse_members_is_object(tokens: Seq<TokenView>, at: nat, members: Seq<Tree>)
    requires
        forall|i: int| 0 <= i < members.len() ==> (#[trigger] members[i]).is_property(),
    ensures
        parse_members(tokens, at, members).result matches Ok(tree) ==> tree.is_value() && tree.kind
            == Kind::ObjectLiteral,
    decreases tokens.len() - at, 3nat,
{
    if at < tokens.len() {
        match tokens[at as int] {
            TokenView::Comma => lemma_parse_members_is_object(tokens, at + 1, members),
            TokenView::StringValue(_) => {
                let property = parse_property(tokens, at);
                lemma_parse_property_is_property(tokens, at);
                lemma_parse_property_advances(tokens, at);
                if property.result is Ok && at < property.next <= tokens.len() {
                    lemma_parse_members_is_object(
                        tokens,
                        property.next,
                        members.push(property.result->Ok_0),
                    );
                }
            },
            _ => {},
        }
    }
}

/// The rest of an array, read behind values, makes an array of values.
pub proof fn lemma_parse_elements_is_array(tokens: Seq<TokenView>, at: nat, elements: Seq<Tree>)
    requires
        forall|i: int| 0 <= i < elements.len() ==> (#[trigger] elements[i]).is_value(),
    ensures
        parse_elements(tokens, at, elements).result matches Ok(tree) ==> tree.is_value()
            && tree.kind == Kind::ArrayLiteral,
    decreases tokens.len() - at, 3nat,
{
    if at < tokens.len() {
        match tokens[at as int] {
            TokenView::RBracket => {},
            TokenView::Comma => lemma_parse_elements_is_array(tokens, at + 1, elements),
            _ => {
                let value = parse_value(tokens, at);
                lemma_parse_value_is_value(tokens, at);
                lemma_parse_value_advances(tokens, at);
                if value.result is Ok && at < value.next <= tokens.len() {
                    lemma_parse_elements_is_array(
                        tokens,
                        value.next,
                        elements.push(value.result->Ok_0),
                    );
                }
            },
        }
    }
}

/// A document that was read is a document as the tree's rules have it.
pub proof fn lemma_parse_document_is_document(tokens: Seq<TokenView>, at: nat)
    ensures
        parse_document(tokens, at).result matches Ok(tree) ==> tree.is_document(),
{
    if at < tokens.len() {
        lemma_parse_members_is_object(tokens, at + 1, Seq::empty());
        lemma_parse_elements_is_array(tokens, at + 1, Seq::empty());
    }
}

/// Only an opening brace or bracket starts a document: any other first token
/// is refused, a literal too.
pub proof fn lemma_document_starts_with_brace_or_bracket(tokens: Seq<TokenView>)
    requires
        tokens.len() > 0,
        !(tokens[0] is LBrace),
        !(tokens[0] is LBracket),
    ensures
        parse_tokens(tokens) == Err::<Tree, ParseErrorView>(
            ParseErrorView::UnexpectedToken { expected: Expected::Document, actual: tokens[0] },
        ),
{
}

/// Behind tokens that end with the one `End`, reading a value stops before
/// the `End` and never finds the tokens used up.
pub proof fn lemma_parse_value_stops_before_end(tokens: Seq<TokenView>, at: nat)
    requires
        ends_with_only_end(tokens),
        at < tokens.len(),
    ensures
        parse_value(tokens, at).next < tokens.len(),
        parse_value(tokens, at).result != Err::<Tree, ParseErrorView>(
            ParseErrorView::UnexpectedEndOfInput,
        ),
    decreases tokens.len() - at, 2nat,
{
    match tokens[at as int] {
        TokenView::LBrace => lemma_parse_members_stop_before_end(tokens, at + 1, Seq::empty()),
        TokenView::LBracket => lemma_parse_elements_stop_before_end(tokens, at + 1, Seq::empty()),
        _ => {},
    }
}

/// Behind tokens that end with the one `End`, reading a property stops before
/// the `End` and never finds the tokens used up.
pub proof fn lemma_parse_property_stops_before_end(tokens: Seq<TokenView>, at: nat)
    requires
        ends_with_only_end(tokens),
        at < tokens.len(),
    ensures
        parse_property(tokens, at).next < tokens.len(),
        parse_property(tokens, at).result != Err::<Tree, ParseErrorView>(
            ParseErrorView::UnexpectedEndOfInput,
        ),
    decreases tokens.len() - at, 0nat,
{
    if tokens[at as int] is StringValue && tokens[(at + 1) as int] is Colon {
        lemma_parse_value_stops_before_end(tokens, at + 2);
    }
}

/// Behind tokens that end with the one `End`, reading the rest of an object
/// stops before the `End` and never finds the tokens used up.
pub proof fn lemma_parse_members_stop_before_end(
    tokens: Seq<TokenView>,
    at: nat,
    members: Seq<Tree>,
)
    requires
        ends_with_only_end(tokens),
        at < tokens.len(),
    ensures
        parse_members(tokens, at, members).next < tokens.len(),
        parse_members(tokens, at, members).result != Err::<Tree, ParseErrorView>(
            ParseErrorView::UnexpectedEndOfInput,
        ),
    decreases tokens.len() - at, 3nat,
{
    match tokens[at as int] {
        TokenView::Comma => lemma_parse_members_stop_before_end(tokens, at + 1, members),
        TokenView::StringValue(_) => {
            let property = parse_property(tokens, at);
            lemma_parse_property_stops_before_end(tokens, at);
            lemma_parse_property_advances(tokens, at);
            if property.result is Ok {
                lemma_parse_members_stop_before_end(
                    tokens,
                    property.next,
                    members.push(property.result->Ok_0),
                );
            }
        },
        _ => {},
    }
}

/// Behind tokens that end with the one `End`, reading the rest of an array
/// stops before the `End` and never finds the tokens used up.
pub proof fn lemma_parse_elements_stop_before_end(
    tokens: Seq<TokenView>,
    at: nat,
    elements: Seq<Tree>,
)
    requires
        ends_with_only_end(tokens),
        at < tokens.len(),
    ensures
        parse_elements(tokens, at, elements).next < tokens.len(),
        parse_elements(tokens, at, elements).result != Err::<Tree, ParseErrorView>(
            ParseErrorView::UnexpectedEndOfInput,
        ),
    decreases tokens.len() - at, 3nat,
{
    match tokens[at as int] {
        TokenView::RBracket => {},
        TokenView::Comma => lemma_parse_elements_stop_before_end(tokens, at + 1, elements),
        _ => {
            let value = parse_value(tokens, at);
            lemma_parse_value_stops_before_end(tokens, at);
            lemma_parse_value_advances(tokens, at);
            if value.result is Ok {
                lemma_parse_elements_stop_before_end(
                    tokens,
                    value.next,
                    elements.push(value.result->Ok_0),
                );
            }
        },
    }
}

/// The tokens of a text are never used up by the parser: where a text is
/// cut off, the parser finds `End` and refuses it.
pub proof fn lemma_text_never_runs_out(text: Seq<char>)
    ensures
        parse_text(text) != Err::<Tree, SyntaxErrorView>(
            SyntaxErrorView::Parse(ParseErrorView::UnexpectedEndOfInput),
        ),
{
    lemma_scan_all_ends(text, 0);
    if let Ok(tokens) = lex(text) {
        if tokens[0] is LBrace {
            lemma_parse_members_stop_before_end(tokens, 1, Seq::empty());
        } else if tokens[0] is LBracket {
            lemma_parse_elements_stop_before_end(tokens, 1, Seq::empty());
        }
    }
}

/// Parsing is a function of the text: two outcomes of parsing the same text
/// are the same tree, or the same failure.
pub proof fn lemma_parse_is_deterministic(
    text: Seq<char>,
    first: Result<Node, SyntaxError>,
    second: Result<Node, SyntaxError>,
)
    requires
        outcome_view(first) == parse_text(text),
        outcome_view(second) == parse_text(text),
    ensures
        outcome_view(first) == outcome_view(second),
        first matches Ok(one) ==> second matches Ok(other) && one@ == other@,
{
}

/// A parser over one sequence of tokens: the tokens and a cursor.
pub struct Parser {
    tokens: Vec<Token>,
    pos: usize,
}

impl Parser {
    #[verifier::type_invariant]
    spec fn cursor_in_tokens(&self) -> bool {
        self.pos <= self.tokens.len()
    }

    /// The tokens.
    pub closed spec fn tokens(&self) -> Seq<TokenView> {
        token_views(self.tokens@)
    }

    /// The position of the cursor: how many tokens have been consumed.
    pub closed spec fn position(&self) -> nat {
        self.pos as nat
    }

    /// A parser at the start of the tokens of `input`, or the reason why
    /// `input` is not made of tokens.
    pub fn new(input: &str) -> (outcome: Result<Parser, LexError>)
        ensures
            match lex(input@) {
                Ok(tokens) => outcome matches Ok(parser) && parser.tokens() == tokens
                    && parser.position() == 0,
                Err(error) => outcome matches Err(reported) && reported == error,
            },
    {
        match tokenize(input) {
            Ok(tokens) => Ok(Parser { tokens, pos: 0 }),
            Err(error) => Err(error),
        }
    }

    /// A parser at the start of `tokens`.
    pub fn from_tokens(tokens: Vec<Token>) -> (parser: Parser)
        ensures
            parser.tokens() == token_views(tokens@),
            parser.position() == 0,
    {
        Parser { tokens, pos: 0 }
    }

    /// The error for the token under the cursor, which is not consumed.
    fn refuse(&self, expected: Expected) -> (error: ParseError)
        ensures
            Err::<Tree, ParseErrorView>(error@) == refused(
                expected,
                self.tokens(),
                self.position(),
            ).result,
    {
        proof {
            use_type_invariant(self);
        }
        if self.pos < self.tokens.len() {
            ParseError::UnexpectedToken { expected, actual: self.tokens[self.pos].clone() }
        } else {
            ParseError::UnexpectedEndOfInput
        }
    }

    /// Reads a string.
    pub fn consume_string(&mut self) -> (outcome: Result<Node, ParseError>)
        ensures
            final(self).tokens() == old(self).tokens(),
            final(self).position() == parse_string(old(self).tokens(), old(self).position()).next,
            parsed_view(outcome) == parse_string(old(self).tokens(), old(self).position()).result,
    {
        proof {
            use_type_invariant(&*self);
        }
        if self.pos < self.tokens.len() {
            if let Token::StringValue(text) = &self.tokens[self.pos] {
                let node = Node::new(SyntaxTree::StringLiteral(text.clone()), Vec::new());
                self.pos += 1;
                return Ok(node);
            }
        }
        Err(self.refuse(Expected::StringValue))
    }

    /// Reads a number.
    pub fn consume_number(&mut self) -> (outcome: Result<Node, ParseError>)
        ensures
            final(self).tokens() == old(self).tokens(),
            final(self).position() == parse_number(old(self).tokens(), old(self).position()).next,
            parsed_view(outcome) == parse_number(old(self).tokens(), old(self).position()).result,
    {
        proof {
            use_type_invariant(&*self);
        }
        if self.pos < self.tokens.len() {
            if let Token::NumberValue(numeral) = &self.tokens[self.pos] {
                let node = Node::new(SyntaxTree::NumberLiteral(numeral.clone()), Vec::new());
                self.pos += 1;
                return Ok(node);
            }
        }
        Err(self.refuse(Expected::NumberValue))
    }

    /// Reads `true`.
    pub fn consume_true(&mut self) -> (outcome: Result<Node, ParseError>)
        ensures
            final(self).tokens() == old(self).tokens(),
            final(self).position() == parse_true(old(self).tokens(), old(self).position()).next,
            parsed_view(outcome) == parse_true(old(self).tokens(), old(self).position()).result,
    {
        proof {
            use_type_invariant(&*self);
        }
        if self.pos < self.tokens.len() && matches!(self.tokens[self.pos], Token::True) {
            let node = Node::new(SyntaxTree::TrueLiteral, Vec::new());
            self.pos += 1;
            Ok(node)
        } else {
            Err(self.refuse(Expected::True))
        }
    }

    /// Reads `false`.
    pub fn consume_false(&mut self) -> (outcome: Result<Node, ParseError>)
        ensures
            final(self).tokens() == old(self).tokens(),
            final(self).position() == parse_false(old(self).tokens(), old(self).position()).next,
            parsed_view(outcome) == parse_false(old(self).tokens(), old(self).position()).result,
    {
        proof {
            use_type_invariant(&*self);
        }
        if self.pos < self.tokens.len() && matches!(self.tokens[self.pos], Token::False) {
            let node = Node::new(SyntaxTree::FalseLiteral, Vec::new());
            self.pos += 1;
            Ok(node)
        } else {
            Err(self.refuse(Expected::False))
        }
    }

    /// Reads `null`.
    pub fn consume_null(&mut self) -> (outcome: Result<Node, ParseError>)
        ensures
            final(self).tokens() == old(self).tokens(),
            final(self).position() == parse_null(old(self).tokens(), old(self).position()).next,
            parsed_view(outcome) == parse_null(old(self).tokens(), old(self).position()).result,
    {
        proof {
            use_type_invariant(&*self);
        }
        if self.pos < self.tokens.len() && matches!(self.tokens[self.pos], Token::Null) {
            let node = Node::new(SyntaxTree::NullLiteral, Vec::new());
            self.pos += 1;
            Ok(node)
        } else {
            Err(self.refuse(Expected::Null))
        }
    }

    /// Reads an object.
    pub fn consume_object_literal(&mut self) -> (outcome: Result<Node, ParseError>)
        ensures
            final(self).tokens() == old(self).tokens(),
            final(self).position() == parse_object(old(self).tokens(), old(self).position()).next,
            parsed_view(outcome) == parse_object(old(self).tokens(), old(self).position()).result,
        decreases old(self).tokens().len() - old(self).position(), 1nat,
    {
        proof {
            use_type_invariant(&*self);
        }
        if !(self.pos < self.tokens.len() && matches!(self.tokens[self.pos], Token::LBrace)) {
            return Err(self.refuse(Expected::LBrace));
        }
        self.pos += 1;
        let mut members: Vec<Node> = Vec::new();
        assert(trees(members@) =~= Seq::empty());
        loop
            invariant
                self.tokens() == old(self).tokens(),
                old(self).pos < self.pos <= self.tokens.len(),
                parse_members(self.tokens(), self.pos as nat, trees(members@)) == parse_object(
                    old(self).tokens(),
                    old(self).pos as nat,
                ),
            decreases self.tokens.len() - self.pos,
        {
            if self.pos >= self.tokens.len() {
                return Err(self.refuse(Expected::Member));
            }
            if matches!(self.tokens[self.pos], Token::RBrace) {
                self.pos += 1;
                return Ok(Node::new(SyntaxTree::ObjectLiteral, members));
            } else if matches!(self.tokens[self.pos], Token::Comma) {
                self.pos += 1;
            } else if matches!(self.tokens[self.pos], Token::StringValue(_)) {
                proof {
                    lemma_parse_property_advances(self.tokens(), self.pos as nat);
                }
                let ghost before = trees(members@);
                match self.consume_property_assignment() {
                    Ok(member) => {
                        members.push(member);
                        proof {
                            use_type_invariant(&*self);
                            assert(trees(members@) =~= before.push(member@));
                        }
                    },
                    Err(error) => {
                        return Err(error);
                    },
                }
            } else {
                return Err(self.refuse(Expected::Member));
            }
        }
    }

    /// Reads a property.
    pub fn consume_property_assignment(&mut self) -> (outcome: Result<Node, ParseError>)
        ensures
            final(self).tokens() == old(self).tokens(),
            final(self).position() == parse_property(
                old(self).tokens(),
                old(self).position(),
            ).next,
            parsed_view(outcome) == parse_property(old(self).tokens(), old(self).position()).result,
        decreases old(self).tokens().len() - old(self).position(), 0nat,
    {
        proof {
            use_type_invariant(&*self);
        }
        if self.pos >= self.tokens.len() {
            return Err(self.refuse(Expected::StringValue));
        }
        let identifier = match &self.tokens[self.pos] {
            Token::StringValue(name) => Node::new(
                SyntaxTree::Identifier(name.clone()),
                Vec::new(),
            ),
            _ => {
                return Err(self.refuse(Expected::StringValue));
            },
        };
        self.pos += 1;
        if !(self.pos < self.tokens.len() && matches!(self.tokens[self.pos], Token::Colon)) {
            return Err(self.refuse(Expected::Colon));
        }
        self.pos += 1;
        match self.consume_expression() {
            Ok(value) => {
                let ghost pair = seq![identifier@, value@];
                let mut children: Vec<Node> = Vec::new();
                children.push(identifier);
                children.push(value);
                assert(trees(children@) =~= pair);
                Ok(Node::new(SyntaxTree::PropertyAssignment, children))
            },
            Err(error) => Err(error),
        }
    }

    /// Reads an array.
    pub fn consume_array_literal(&mut self) -> (outcome: Result<Node, ParseError>)
        ensures
            final(self).tokens() == old(self).tokens(),
            final(self).position() == parse_array(old(self).tokens(), old(self).position()).next,
            parsed_view(outcome) == parse_array(old(self).tokens(), old(self).position()).result,
        decreases old(self).tokens().len() - old(self).position(), 1nat,
    {
        proof {
            use_type_invariant(&*self);
        }
        if !(self.pos < self.tokens.len() && matches!(self.tokens[self.pos], Token::LBracket)) {
            return Err(self.refuse(Expected::LBracket));
        }
        self.pos += 1;
        let mut elements: Vec<Node> = Vec::new();
        assert(trees(elements@) =~= Seq::empty());
        loop
            invariant
                self.tokens() == old(self).tokens(),
                old(self).pos < self.pos <= self.tokens.len(),
                parse_elements(self.tokens(), self.pos as nat, trees(elements@)) == parse_array(
                    old(self).tokens(),
                    old(self).pos as nat,
                ),
            decreases self.tokens.len() - self.pos,
        {
            if self.pos >= self.tokens.len() {
                return Err(self.refuse(Expected::Value));
            }
            if matches!(self.tokens[self.pos], Token::RBracket) {
                self.pos += 1;
                return Ok(Node::new(SyntaxTree::ArrayLiteral, elements));
            } else if matches!(self.tokens[self.pos], Token::Comma) {
                self.pos += 1;
            } else {
                proof {
                    lemma_parse_value_advances(self.tokens(), self.pos as nat);
                }
                let ghost before = trees(elements@);
                match self.consume_expression() {
                    Ok(element) => {
                        elements.push(element);
                        proof {
                            use_type_invariant(&*self);
                            assert(trees(elements@) =~= before.push(element@));
                        }
                    },
                    Err(error) => {
                        return Err(error);
                    },
                }
            }
        }
    }

    /// Reads a value.
    pub fn consume_expression(&mut self) -> (outcome: Result<Node, ParseError>)
        ensures
            final(self).tokens() == old(self).tokens(),
            final(self).position() == parse_value(old(self).tokens(), old(self).position()).next,
            parsed_view(outcome) == parse_value(old(self).tokens(), old(self).position()).result,
        decreases old(self).tokens().len() - old(self).position(), 2nat,
    {
        proof {
            use_type_invariant(&*self);
        }
        if self.pos >= self.tokens.len() {
            return Err(self.refuse(Expected::Value));
        }
        if matches!(self.tokens[self.pos], Token::StringValue(_)) {
            self.consume_string()
        } else if matches!(self.tokens[self.pos], Token::NumberValue(_)) {
            self.consume_number()
        } else if matches!(self.tokens[self.pos], Token::True) {
            self.consume_true()
        } else if matches!(self.tokens[self.pos], Token::False) {
            self.consume_false()
        } else if matches!(self.tokens[self.pos], Token::Null) {
            self.consume_null()
        } else if matches!(self.tokens[self.pos], Token::LBrace) {
            self.consume_object_literal()
        } else if matches!(self.tokens[self.pos], Token::LBracket) {
            self.consume_array_literal()
        } else {
            Err(self.refuse(Expected::Value))
        }
    }

    /// Reads a document: an object or an array.
    pub fn parse(&mut self) -> (outcome: Result<Node, ParseError>)
        ensures
            final(self).tokens() == old(self).tokens(),
            final(self).position() == parse_document(
                old(self).tokens(),
                old(self).position(),
            ).next,
            parsed_view(outcome) == parse_document(old(self).tokens(), old(self).position()).result,
            outcome matches Ok(node) ==> node@.is_document(),
    {
        proof {
            use_type_invariant(&*self);
            lemma_parse_document_is_document(self.tokens(), self.position());
        }
        if self.pos < self.tokens.len() && matches!(self.tokens[self.pos], Token::LBrace) {
            self.consume_object_literal()
        } else if self.pos < self.tokens.len() && matches!(self.tokens[self.pos], Token::LBracket) {
            self.consume_array_literal()
        } else {
            Err(self.refuse(Expected::Document))
        }
    }
}

/// Turns a text into its tree.
pub fn parse(input: &str) -> (outcome: Result<Node, SyntaxError>)
    ensures
        outcome_view(outcome) == parse_text(input@),
        outcome matches Ok(node) ==> node@.is_document(),
        !(outcome matches Err(SyntaxError::Parse(ParseError::UnexpectedEndOfInput))),
{
    proof {
        lemma_text_never_runs_out(input@);
    }
    match Parser::new(input) {
        Err(error) => Err(SyntaxError::Lex(error)),
        Ok(mut parser) => match parser.parse() {
            Ok(node) => Ok(node),
            Err(error) => Err(SyntaxError::Parse(error)),
        },
    }
}

} // verus!
