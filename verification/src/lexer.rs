//! The tokenizer: one forward pass over the characters of a text.
//!
//! What the tokenizer does is defined by the spec functions of this module,
//! which read a text from a position and say which token starts there and
//! where it ends. The methods of [`Lexer`] are proved to compute them.
use crate::chars::{is_ascii_digit, is_ascii_letter, is_blank, is_digit, is_letter};
use crate::token::{
    char_token, is_decimal_numeral, keyword, punctuation, token_views, LexError, Token, TokenView,
};
use vstd::prelude::*;
use vstd::std_specs::iter::IteratorSpec;

verus! {

/// Where the longest run of characters of one class that starts at `from`
/// ends: the first position at or after `from` that holds a character outside
/// the class, or the end of the text.
pub open spec fn run_end(text: Seq<char>, class: spec_fn(char) -> bool, from: nat) -> nat
    decreases text.len() - from,
{
    if from < text.len() && class(text[from as int]) {
        run_end(text, class, (from + 1) as nat)
    } else {
        from
    }
}

/// The end of the white space that starts at `from`.
pub open spec fn whitespace_end(text: Seq<char>, from: nat) -> nat {
    run_end(text, |c: char| is_blank(c), from)
}

/// The end of the run of digits and points that starts at `from`.
pub open spec fn number_end(text: Seq<char>, from: nat) -> nat {
    run_end(text, |c: char| is_digit(c) || c == '.', from)
}

/// The end of the run of letters that starts at `from`.
pub open spec fn keyword_end(text: Seq<char>, from: nat) -> nat {
    run_end(text, |c: char| is_letter(c), from)
}

/// The position of the first double quote at or after `from`, or the end of
/// the text where there is none.
pub open spec fn string_end(text: Seq<char>, from: nat) -> nat {
    run_end(text, |c: char| c != '"', from)
}

/// The outcome of reading one token: the token or the failure, and the
/// position of the cursor afterwards.
pub struct Scanned {
    pub token: Result<TokenView, LexError>,
    pub next: nat,
}

/// The outcome of reading all tokens: the tokens or the first failure, and
/// the position of the cursor afterwards.
pub struct Lexed {
    pub tokens: Result<Seq<TokenView>, LexError>,
    pub next: nat,
}

/// Reads the character at `from` as punctuation. The character is consumed
/// whether or not it is punctuation.
pub open spec fn scan_punctuation(text: Seq<char>, from: nat) -> Scanned {
    if from < text.len() {
        Scanned {
            token: match punctuation(text[from as int]) {
                Some(token) => Ok(token),
                None => Err(LexError::UnexpectedCharacter),
            },
            next: from + 1,
        }
    } else {
        Scanned { token: Err(LexError::UnexpectedCharacter), next: from }
    }
}

/// Where the content of a string read from `from` starts: behind the opening
/// quote, if there is one.
pub open spec fn string_start(text: Seq<char>, from: nat) -> nat {
    if from < text.len() && text[from as int] == '"' {
        from + 1
    } else {
        from
    }
}

/// Reads a string from `from`: everything up to the next double quote, which
/// is consumed and left out. No character is an escape.
pub open spec fn scan_string(text: Seq<char>, from: nat) -> Scanned {
    let start = string_start(text, from);
    let end = string_end(text, start);
    if end < text.len() {
        Scanned {
            token: Ok(TokenView::StringValue(text.subrange(start as int, end as int))),
            next: end + 1,
        }
    } else {
        Scanned { token: Err(LexError::UnterminatedString), next: end }
    }
}

/// Reads a number from `from`: the whole run of digits and points, which
/// must be a decimal numeral.
pub open spec fn scan_number(text: Seq<char>, from: nat) -> Scanned {
    let end = number_end(text, from);
    let numeral = text.subrange(from as int, end as int);
    Scanned {
        token: if is_decimal_numeral(numeral) {
            Ok(TokenView::NumberValue(numeral))
        } else {
            Err(LexError::InvalidNumber)
        },
        next: end,
    }
}

/// Reads a keyword from `from`: the whole run of letters, which must be one
/// of the keywords.
pub open spec fn scan_keyword(text: Seq<char>, from: nat) -> Scanned {
    let end = keyword_end(text, from);
    Scanned {
        token: match keyword(text.subrange(from as int, end as int)) {
            Some(token) => Ok(token),
            None => Err(LexError::InvalidKeyword),
        },
        next: end,
    }
}

/// Reads the next token from `from`: skips white space, then lets the first
/// character decide the kind of token. At the end of the text the token is
/// `End`. A character that starts no token is not consumed.
pub open spec fn scan_token(text: Seq<char>, from: nat) -> Scanned {
    let start = whitespace_end(text, from);
    if start >= text.len() {
        Scanned { token: Ok(TokenView::End), next: start }
    } else {
        let c = text[start as int];
        if punctuation(c) is Some {
            scan_punctuation(text, start)
        } else if c == '"' {
            scan_string(text, start)
        } else if is_ascii_digit(c) {
            scan_number(text, start)
        } else if is_ascii_letter(c) {
            scan_keyword(text, start)
        } else {
            Scanned { token: Err(LexError::UnexpectedCharacter), next: start }
        }
    }
}

/// Reads tokens from `from` up to and including `End`, or up to the first
/// failure.
pub open spec fn scan_all(text: Seq<char>, from: nat) -> Lexed
    decreases text.len() - from,
    via scan_all_terminates
{
    let first = scan_token(text, from);
    match first.token {
        Err(error) => Lexed { tokens: Err(error), next: first.next },
        Ok(TokenView::End) => Lexed { tokens: Ok(seq![TokenView::End]), next: first.next },
        Ok(token) => {
            let rest = scan_all(text, first.next);
            Lexed {
                tokens: match rest.tokens {
                    Ok(tokens) => Ok(seq![token] + tokens),
                    Err(error) => Err(error),
                },
                next: rest.next,
            }
        },
    }
}

#[via_fn]
proof fn scan_all_terminates(text: Seq<char>, from: nat) {
    lemma_scan_token_advances(text, from);
}

/// The tokens of a whole text.
pub open spec fn lex(text: Seq<char>) -> Result<Seq<TokenView>, LexError> {
    scan_all(text, 0).tokens
}

/// The view of what reading one token returned.
pub open spec fn scanned_view(outcome: Result<Token, LexError>) -> Result<TokenView, LexError> {
    match outcome {
        Ok(token) => Ok(token@),
        Err(error) => Err(error),
    }
}

/// The view of what reading all tokens returned.
pub open spec fn lexed_view(outcome: Result<Vec<Token>, LexError>) -> Result<
    Seq<TokenView>,
    LexError,
> {
    match outcome {
        Ok(tokens) => Ok(token_views(tokens@)),
        Err(error) => Err(error),
    }
}

/// A run ends inside the text, holds only characters of its class, and is
/// followed by a character outside the class or by the end of the text.
pub proof fn lemma_run_end_is_maximal(text: Seq<char>, class: spec_fn(char) -> bool, from: nat)
    requires
        from <= text.len(),
    ensures
        from <= run_end(text, class, from) <= text.len(),
        forall|i: int| from <= i < run_end(text, class, from) ==> class(#[trigger] text[i]),
        run_end(text, class, from) < text.len() ==> !class(text[run_end(text, class, from) as int]),
    decreases text.len() - from,
{
    if from < text.len() && class(text[from as int]) {
        lemma_run_end_is_maximal(text, class, (from + 1) as nat);
    }
}

/// The end of a run is the only position that a run can end at.
pub proof fn lemma_run_end_is_unique(
    text: Seq<char>,
    class: spec_fn(char) -> bool,
    from: nat,
    end: nat,
)
    requires
        from <= end <= text.len(),
        forall|i: int| from <= i < end ==> class(#[trigger] text[i]),
        end < text.len() ==> !class(text[end as int]),
    ensures
        run_end(text, class, from) == end,
    decreases end - from,
{
    if from < end {
        lemma_run_end_is_unique(text, class, (from + 1) as nat, end);
    }
}

/// Reading a token never moves the cursor back nor past the end, and every
/// token but `End` takes at least one character.
pub proof fn lemma_scan_token_advances(text: Seq<char>, from: nat)
    ensures
        from <= scan_token(text, from).next,
        from <= text.len() ==> scan_token(text, from).next <= text.len(),
        scan_token(text, from).token matches Ok(token) ==> token == TokenView::End || from
            < scan_token(text, from).next,
{
    if from <= text.len() {
        lemma_run_end_is_maximal(text, |c: char| is_blank(c), from);
        let start = whitespace_end(text, from);
        if start < text.len() {
            let c = text[start as int];
            if punctuation(c) is Some {
            } else if c == '"' {
                lemma_run_end_is_maximal(text, |c: char| c != '"', (start + 1) as nat);
            } else if is_ascii_digit(c) {
                lemma_run_end_is_maximal(text, |c: char| is_digit(c) || c == '.', start);
            } else if is_ascii_letter(c) {
                lemma_run_end_is_maximal(text, |c: char| is_letter(c), start);
            }
        }
    }
}

/// A tokenizer over one text: the characters and a cursor.
pub struct Lexer {
    chars: Vec<char>,
    pos: usize,
}

impl Lexer {
    #[verifier::type_invariant]
    spec fn cursor_in_text(&self) -> bool {
        self.pos <= self.chars.len()
    }

    /// The text.
    pub closed spec fn source(&self) -> Seq<char> {
        self.chars@
    }

    /// The position of the cursor: how many characters have been consumed.
    pub closed spec fn position(&self) -> nat {
        self.pos as nat
    }

    /// A tokenizer at the start of `input`.
    pub fn new(input: &str) -> (lexer: Lexer)
        ensures
            lexer.source() == input@,
            lexer.position() == 0,
    {
        let mut chars: Vec<char> = Vec::new();
        let mut rest = input.chars();
        proof {
            vstd::string::axiom_spec_iter(input);
        }
        loop
            invariant
                chars@ + rest.remaining() == input@,
                rest.decrease() is Some,
            ensures
                chars@ == input@,
            decreases rest.decrease()->0,
        {
            let ghost before = rest;
            let next = rest.next();
            proof {
                vstd::string::next_postcondition(&before, &rest, next);
            }
            match next {
                Some(c) => {
                    chars.push(c);
                },
                None => {
                    break ;
                },
            }
        }
        Lexer { chars, pos: 0 }
    }

    /// The character under the cursor, if the text has not ended.
    pub fn peek(&self) -> (next: Option<char>)
        ensures
            self.position() <= self.source().len(),
            self.position() < self.source().len() ==> next == Some(
                self.source()[self.position() as int],
            ),
            self.position() == self.source().len() ==> next is None,
    {
        proof {
            use_type_invariant(self);
        }
        if self.pos < self.chars.len() {
            Some(self.chars[self.pos])
        } else {
            None
        }
    }

    /// Consumes one character and reads it as punctuation.
    pub fn consume_char(&mut self) -> (outcome: Result<Token, LexError>)
        ensures
            final(self).source() == old(self).source(),
            final(self).position() == scan_punctuation(
                old(self).source(),
                old(self).position(),
            ).next,
            scanned_view(outcome) == scan_punctuation(
                old(self).source(),
                old(self).position(),
            ).token,
    {
        proof {
            use_type_invariant(&*self);
        }
        if self.pos < self.chars.len() {
            let c = self.chars[self.pos];
            self.pos += 1;
            match char_token(c) {
                Some(token) => Ok(token),
                None => Err(LexError::UnexpectedCharacter),
            }
        } else {
            Err(LexError::UnexpectedCharacter)
        }
    }

    /// Moves the cursor over white space.
    pub fn consume_whitespace(&mut self)
        ensures
            final(self).source() == old(self).source(),
            final(self).position() == whitespace_end(old(self).source(), old(self).position()),
    {
        proof {
            use_type_invariant(&*self);
        }
        while self.pos < self.chars.len() && self.chars[self.pos].is_whitespace()
            invariant
                self.pos <= self.chars.len(),
                self.chars@ == old(self).chars@,
                whitespace_end(self.chars@, self.pos as nat) == whitespace_end(
                    old(self).chars@,
                    old(self).pos as nat,
                ),
            decreases self.chars.len() - self.pos,
        {
            self.pos += 1;
        }
    }

    /// Reads a string: steps over an opening quote if the cursor is on one,
    /// then takes every character up to the closing quote.
    pub fn consume_string(&mut self) -> (outcome: Result<Token, LexError>)
        ensures
            final(self).source() == old(self).source(),
            final(self).position() == scan_string(old(self).source(), old(self).position()).next,
            scanned_view(outcome) == scan_string(old(self).source(), old(self).position()).token,
    {
        proof {
            use_type_invariant(&*self);
        }
        if self.pos < self.chars.len() && self.chars[self.pos] == '"' {
            self.pos += 1;
        }
        let start: usize = self.pos;
        while self.pos < self.chars.len() && self.chars[self.pos] != '"'
            invariant
                start <= self.pos <= self.chars.len(),
                self.chars@ == old(self).chars@,
                string_end(self.chars@, self.pos as nat) == string_end(self.chars@, start as nat),
            decreases self.chars.len() - self.pos,
        {
            self.pos += 1;
        }
        if self.pos < self.chars.len() {
            let text = collect(&self.chars, start, self.pos);
            self.pos += 1;
            Ok(Token::StringValue(text))
        } else {
            Err(LexError::UnterminatedString)
        }
    }

    /// Reads a number: takes the whole run of digits and points.
    pub fn consume_number(&mut self) -> (outcome: Result<Token, LexError>)
        ensures
            final(self).source() == old(self).source(),
            final(self).position() == scan_number(old(self).source(), old(self).position()).next,
            scanned_view(outcome) == scan_number(old(self).source(), old(self).position()).token,
    {
        proof {
            use_type_invariant(&*self);
        }
        let start: usize = self.pos;
        while self.pos < self.chars.len() && (self.chars[self.pos].is_numeric()
            || self.chars[self.pos] == '.')
            invariant
                start <= self.pos <= self.chars.len(),
                self.chars@ == old(self).chars@,
                number_end(self.chars@, self.pos as nat) == number_end(self.chars@, start as nat),
            decreases self.chars.len() - self.pos,
        {
            self.pos += 1;
        }
        if check_numeral(&self.chars, start, self.pos) {
            Ok(Token::NumberValue(collect(&self.chars, start, self.pos)))
        } else {
            Err(LexError::InvalidNumber)
        }
    }

    /// Reads a keyword: takes the whole run of letters.
    pub fn consume_keyword(&mut self) -> (outcome: Result<Token, LexError>)
        ensures
            final(self).source() == old(self).source(),
            final(self).position() == scan_keyword(old(self).source(), old(self).position()).next,
            scanned_view(outcome) == scan_keyword(old(self).source(), old(self).position()).token,
    {
        proof {
            use_type_invariant(&*self);
        }
        let start: usize = self.pos;
        while self.pos < self.chars.len() && self.chars[self.pos].is_alphabetic()
            invariant
                start <= self.pos <= self.chars.len(),
                self.chars@ == old(self).chars@,
                keyword_end(self.chars@, self.pos as nat) == keyword_end(self.chars@, start as nat),
            decreases self.chars.len() - self.pos,
        {
            self.pos += 1;
        }
        match keyword_token(&self.chars, start, self.pos) {
            Some(token) => Ok(token),
            None => Err(LexError::InvalidKeyword),
        }
    }

    /// Reads the next token.
    pub fn next_token(&mut self) -> (outcome: Result<Token, LexError>)
        ensures
            final(self).source() == old(self).source(),
            final(self).position() == scan_token(old(self).source(), old(self).position()).next,
            scanned_view(outcome) == scan_token(old(self).source(), old(self).position()).token,
    {
        self.consume_whitespace();
        match self.peek() {
            None => Ok(Token::End),
            Some(c) => {
                if c == '{' || c == '}' || c == '[' || c == ']' || c == ':' || c == ',' {
                    self.consume_char()
                } else if c == '"' {
                    self.consume_string()
                } else if '0' <= c && c <= '9' {
                    self.consume_number()
                } else if ('a' <= c && c <= 'z') || ('A' <= c && c <= 'Z') {
                    self.consume_keyword()
                } else {
                    Err(LexError::UnexpectedCharacter)
                }
            },
        }
    }

    /// Reads all tokens from the cursor on. On success the tokens end with
    /// `End`, which occurs nowhere else among them, and the whole text has
    /// been consumed.
    pub fn tokenize(&mut self) -> (outcome: Result<Vec<Token>, LexError>)
        ensures
            final(self).source() == old(self).source(),
            final(self).position() == scan_all(old(self).source(), old(self).position()).next,
            lexed_view(outcome) == scan_all(old(self).source(), old(self).position()).tokens,
            outcome matches Ok(tokens) ==> ends_with_only_end(token_views(tokens@)),
            outcome is Ok ==> final(self).position() == final(self).source().len(),
    {
        let mut tokens: Vec<Token> = Vec::new();
        let ghost text = self.chars@;
        let ghost from = self.pos as nat;
        proof {
            use_type_invariant(&*self);
        }
        loop
            invariant
                text == old(self).chars@,
                from == old(self).pos,
                from <= text.len(),
                self.chars@ == text,
                self.pos <= text.len(),
                scan_all(text, from).next == scan_all(text, self.pos as nat).next,
                scan_all(text, from).tokens == match scan_all(text, self.pos as nat).tokens {
                    Ok(rest) => Ok(token_views(tokens@) + rest),
                    Err(error) => Err(error),
                },
            decreases text.len() - self.pos,
        {
            let ghost here = self.pos as nat;
            proof {
                lemma_scan_token_advances(text, here);
                lemma_whitespace_end_is_idempotent(text, here);
            }
            self.consume_whitespace();
            match self.next_token() {
                Err(error) => {
                    return Err(error);
                },
                Ok(token) => {
                    let ghost before = token_views(tokens@);
                    let at_end = matches!(token, Token::End);
                    tokens.push(token);
                    proof {
                        assert(token_views(tokens@) =~= before.push(token@));
                    }
                    if at_end {
                        proof {
                            assert(before + seq![TokenView::End] =~= before.push(TokenView::End));
                            lemma_scan_all_ends(text, from);
                        }
                        return Ok(tokens);
                    }
                    proof {
                        let rest = scan_all(text, self.pos as nat).tokens;
                        if rest is Ok {
                            assert(before + (seq![token@] + rest->Ok_0) =~= before.push(token@)
                                + rest->Ok_0);
                        }
                    }
                },
            }
        }
    }
}

/// The tokens end with `End`, and `End` occurs nowhere else among them.
pub open spec fn ends_with_only_end(tokens: Seq<TokenView>) -> bool {
    &&& tokens.len() > 0
    &&& tokens.last() == TokenView::End
    &&& forall|i: int| 0 <= i < tokens.len() - 1 ==> #[trigger] tokens[i] != TokenView::End
}

/// Tokenizing succeeds only with tokens that end with the one `End`, and
/// then at the end of the text.
pub proof fn lemma_scan_all_ends(text: Seq<char>, from: nat)
    requires
        from <= text.len(),
    ensures
        scan_all(text, from).tokens matches Ok(tokens) ==> ends_with_only_end(tokens) && scan_all(
            text,
            from,
        ).next == text.len(),
    decreases text.len() - from,
{
    lemma_scan_token_advances(text, from);
    lemma_run_end_is_maximal(text, |c: char| is_blank(c), from);
    let first = scan_token(text, from);
    match first.token {
        Err(_) => {},
        Ok(TokenView::End) => {},
        Ok(token) => {
            lemma_scan_all_ends(text, first.next);
        },
    }
}

/// Skipping white space twice is skipping it once.
pub proof fn lemma_whitespace_end_is_idempotent(text: Seq<char>, from: nat)
    requires
        from <= text.len(),
    ensures
        whitespace_end(text, whitespace_end(text, from)) == whitespace_end(text, from),
{
    let class = |c: char| is_blank(c);
    lemma_run_end_is_maximal(text, class, from);
    let end = run_end(text, class, from);
    assert(run_end(text, class, end) == end);
}

/// Copies the characters from `start` up to `end` into a string.
fn collect(chars: &Vec<char>, start: usize, end: usize) -> (text: String)
    requires
        start <= end <= chars.len(),
    ensures
        text@ == chars@.subrange(start as int, end as int),
{
    let mut text = String::new();
    let mut at: usize = start;
    while at < end
        invariant
            start <= at <= end <= chars.len(),
            text@ == chars@.subrange(start as int, at as int),
        decreases end - at,
    {
        text.push(chars[at]);
        at += 1;
        assert(text@ =~= chars@.subrange(start as int, at as int));
    }
    text
}

/// Tells whether the characters from `start` up to `end` are a decimal
/// numeral.
fn check_numeral(chars: &Vec<char>, start: usize, end: usize) -> (valid: bool)
    requires
        start <= end <= chars.len(),
    ensures
        valid == is_decimal_numeral(chars@.subrange(start as int, end as int)),
{
    let ghost numeral = chars@.subrange(start as int, end as int);
    let mut seen_point = false;
    let mut seen_digit = false;
    let ghost mut point: int = 0;
    let ghost mut digit: int = 0;
    let mut at: usize = start;
    while at < end
        invariant
            start <= at <= end <= chars.len(),
            numeral == chars@.subrange(start as int, end as int),
            forall|i: int| 0 <= i < at - start ==> is_ascii_digit(#[trigger] numeral[i]) || numeral[i] == '.',
            seen_point ==> 0 <= point < at - start && numeral[point] == '.',
            seen_point ==> forall|i: int| 0 <= i < at - start && i != point ==> #[trigger] numeral[i] != '.',
            !seen_point ==> forall|i: int| 0 <= i < at - start ==> #[trigger] numeral[i] != '.',
            seen_digit ==> 0 <= digit < at - start && is_ascii_digit(numeral[digit]),
            !seen_digit ==> forall|i: int| 0 <= i < at - start ==> !is_ascii_digit(#[trigger] numeral[i]),
        decreases end - at,
    {
        let c = chars[at];
        assert(c == numeral[at - start]);
        if c == '.' {
            if seen_point {
                assert(numeral[point] == '.' && numeral[at - start] == '.');
                return false;
            }
            seen_point = true;
            proof {
                point = at - start;
            }
        } else if '0' <= c && c <= '9' {
            seen_digit = true;
            proof {
                digit = at - start;
            }
        } else {
            return false;
        }
        at += 1;
    }
    proof {
        if seen_digit {
            assert(is_ascii_digit(numeral[digit]));
        }
    }
    seen_digit
}

/// Looks the characters from `start` up to `end` up among the keywords.
fn keyword_token(chars: &Vec<char>, start: usize, end: usize) -> (found: Option<Token>)
    requires
        start <= end <= chars.len(),
    ensures
        found matches Some(token) ==> keyword(chars@.subrange(start as int, end as int)) == Some(
            token@,
        ),
        found is None ==> keyword(chars@.subrange(start as int, end as int)) is None,
{
    let ghost word = chars@.subrange(start as int, end as int);
    let length: usize = end - start;
    if length == 4 && chars[start] == 't' && chars[start + 1] == 'r' && chars[start + 2] == 'u'
        && chars[start + 3] == 'e' {
        assert(word =~= seq!['t', 'r', 'u', 'e']);
        Some(Token::True)
    } else if length == 5 && chars[start] == 'f' && chars[start + 1] == 'a' && chars[start + 2]
        == 'l' && chars[start + 3] == 's' && chars[start + 4] == 'e' {
        assert(word =~= seq!['f', 'a', 'l', 's', 'e']);
        Some(Token::False)
    } else if length == 4 && chars[start] == 'n' && chars[start + 1] == 'u' && chars[start + 2]
        == 'l' && chars[start + 3] == 'l' {
        assert(word =~= seq!['n', 'u', 'l', 'l']);
        Some(Token::Null)
    } else {
        proof {
            if length == 4 {
                assert(word[0] == chars[start as int] && word[1] == chars[start + 1] && word[2]
                    == chars[start + 2] && word[3] == chars[start + 3]);
            }
            if length == 5 {
                assert(word[0] == chars[start as int] && word[1] == chars[start + 1] && word[2]
                    == chars[start + 2] && word[3] == chars[start + 3] && word[4] == chars[start
                    + 4]);
            }
        }
        None
    }
}

/// Cuts a text into tokens: all of them, ending with `End`, or the first
/// failure.
pub fn tokenize(input: &str) -> (outcome: Result<Vec<Token>, LexError>)
    ensures
        lexed_view(outcome) == lex(input@),
        outcome matches Ok(tokens) ==> ends_with_only_end(token_views(tokens@)),
{
    let mut lexer = Lexer::new(input);
    lexer.tokenize()
}

/// A text without double quotes, put between double quotes, is cut into one
/// string token that holds the text, and `End`.
pub proof fn lemma_quoted_text_is_one_string(content: Seq<char>)
    requires
        forall|i: int| 0 <= i < content.len() ==> content[i] != '"',
    ensures
        lex(seq!['"'] + content + seq!['"']) == Ok::<Seq<TokenView>, LexError>(
            seq![TokenView::StringValue(content), TokenView::End],
        ),
{
    let text = seq!['"'] + content + seq!['"'];
    let close = (content.len() + 1) as nat;
    assert(text.len() == close + 1);
    assert(text[0] == '"');
    assert(text[close as int] == '"');
    assert forall|i: int| 1 <= i < close implies (|c: char| c != '"')(#[trigger] text[i]) by {
        assert(text[i] == content[i - 1]);
    }
    assert(whitespace_end(text, 0) == 0);
    lemma_run_end_is_unique(text, |c: char| c != '"', 1, close);
    assert(text.subrange(1, close as int) =~= content);
    let first = scan_token(text, 0);
    assert(first.token == Ok::<TokenView, LexError>(TokenView::StringValue(content)));
    assert(first.next == close + 1);
    assert(whitespace_end(text, first.next) == first.next);
    assert(scan_all(text, first.next).tokens == Ok::<Seq<TokenView>, LexError>(
        seq![TokenView::End],
    ));
    assert(seq![TokenView::StringValue(content)] + seq![TokenView::End] =~= seq![
        TokenView::StringValue(content),
        TokenView::End,
    ]);
}

/// A decimal numeral that starts with a digit is cut into one number token
/// that holds the numeral, and `End`.
pub proof fn lemma_numeral_is_one_number(numeral: Seq<char>)
    requires
        is_decimal_numeral(numeral),
        is_ascii_digit(numeral[0]),
    ensures
        lex(numeral) == Ok::<Seq<TokenView>, LexError>(
            seq![TokenView::NumberValue(numeral), TokenView::End],
        ),
{
    let end = numeral.len();
    assert(end > 0);
    assert(whitespace_end(numeral, 0) == 0);
    assert forall|i: int| 0 <= i < end implies (|c: char| is_digit(c) || c == '.')(
        #[trigger] numeral[i],
    ) by {
        assert(is_ascii_digit(numeral[i]) || numeral[i] == '.');
    }
    lemma_run_end_is_unique(numeral, |c: char| is_digit(c) || c == '.', 0, end);
    assert(numeral.subrange(0, end as int) =~= numeral);
    let first = scan_token(numeral, 0);
    assert(first.token == Ok::<TokenView, LexError>(TokenView::NumberValue(numeral)));
    assert(first.next == end);
    assert(whitespace_end(numeral, end) == end);
    assert(scan_all(numeral, end).tokens == Ok::<Seq<TokenView>, LexError>(
        seq![TokenView::End],
    ));
    assert(seq![TokenView::NumberValue(numeral)] + seq![TokenView::End] =~= seq![
        TokenView::NumberValue(numeral),
        TokenView::End,
    ]);
}

} // verus!
