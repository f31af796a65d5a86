//! Tokens written out as text.
//!
//! [`written`] spells tokens out one after the other, a space before each.
//! The tokenizer reads them back; so a tree written out in any layout of
//! commas, as text, is parsed to that tree.
use crate::chars::{is_ascii_digit, is_blank, is_digit, is_letter};
use crate::layout::{
    lemma_parse_rendered_document, render_item, render_items, render_value, Layout,
};
use crate::lexer::{lemma_run_end_is_unique, lex, scan_all, scan_token, Scanned};
use crate::node::{Kind, Tree};
use crate::parser::{parse_text, SyntaxErrorView};
use crate::token::{is_decimal_numeral, LexError, TokenView};
use vstd::prelude::*;

verus! {

/// The characters of a token. A string is put between double quotes, a
/// number is its numeral.
pub open spec fn spelling(token: TokenView) -> Seq<char> {
    match token {
        TokenView::LBrace => seq!['{'],
        TokenView::RBrace => seq!['}'],
        TokenView::LBracket => seq!['['],
        TokenView::RBracket => seq![']'],
        TokenView::Colon => seq![':'],
        TokenView::Comma => seq![','],
        TokenView::StringValue(text) => seq!['"'] + text + seq!['"'],
        TokenView::NumberValue(numeral) => numeral,
        TokenView::True => seq!['t', 'r', 'u', 'e'],
        TokenView::False => seq!['f', 'a', 'l', 's', 'e'],
        TokenView::Null => seq!['n', 'u', 'l', 'l'],
        TokenView::End => Seq::empty(),
    }
}

/// The tokens that text can be written for: a string must hold no double
/// quote, a number must be a decimal numeral that starts with a digit, and
/// `End` is not written.
pub open spec fn is_writable(token: TokenView) -> bool {
    match token {
        TokenView::StringValue(text) => forall|i: int| 0 <= i < text.len() ==> text[i] != '"',
        TokenView::NumberValue(numeral) => is_decimal_numeral(numeral) && is_ascii_digit(
            numeral[0],
        ),
        TokenView::End => false,
        _ => true,
    }
}

/// The tokens as text: each token spelled out behind a space.
pub open spec fn written(tokens: Seq<TokenView>) -> Seq<char>
    decreases tokens.len(),
{
    if tokens.len() == 0 {
        Seq::empty()
    } else {
        seq![' '] + spelling(tokens[0]) + written(tokens.drop_first())
    }
}

/// Where a space, the spelling of a token and then a space or the end of the
/// text stand, the tokenizer reads the token and stops behind its spelling.
proof fn lemma_scan_written_token(text: Seq<char>, from: nat, token: TokenView)
    requires
        is_writable(token),
        from + 1 + spelling(token).len() <= text.len(),
        text[from as int] == ' ',
        forall|j: int|
            0 <= j < spelling(token).len() ==> text[from + 1 + j] == #[trigger] spelling(token)[j],
        from + 1 + spelling(token).len() < text.len() ==> text[(from + 1 + spelling(token).len()) as int]
            == ' ',
    ensures
        scan_token(text, from) == (Scanned {
            token: Ok(token),
            next: from + 1 + spelling(token).len(),
        }),
{
    let start = (from + 1) as nat;
    let word = spelling(token);
    let end = (start + word.len()) as nat;
    assert(word.len() > 0);
    assert(text[start + 0int] == word[0]);
    assert forall|i: int| from <= i < start implies (|c: char| is_blank(c))(#[trigger] text[i]) by {}
    lemma_run_end_is_unique(text, |c: char| is_blank(c), from, start);
    match token {
        TokenView::StringValue(content) => {
            let close = (start + 1 + content.len()) as nat;
            assert(text[(start + content.len() + 1) as int] == word[(content.len() + 1) as int]);
            assert forall|i: int| start + 1 <= i < close implies (|c: char| c != '"')(
                #[trigger] text[i],
            ) by {
                assert(text[start + (i - start)] == word[i - start]);
                assert(word[i - start] == content[i - start - 1]);
            }
            lemma_run_end_is_unique(text, |c: char| c != '"', (start + 1) as nat, close);
            assert(text.subrange((start + 1) as int, close as int) =~= content) by {
                assert forall|j: int| 0 <= j < content.len() implies text[start + 1 + j]
                    == content[j] by {
                    assert(text[start + (j + 1)] == word[j + 1]);
                }
            }
        },
        TokenView::NumberValue(numeral) => {
            assert forall|i: int| start <= i < end implies (|c: char| is_digit(c) || c == '.')(
                #[trigger] text[i],
            ) by {
                assert(text[start + (i - start)] == word[i - start]);
                assert(is_ascii_digit(numeral[i - start]) || numeral[i - start] == '.');
            }
            lemma_run_end_is_unique(text, |c: char| is_digit(c) || c == '.', start, end);
            assert(text.subrange(start as int, end as int) =~= numeral) by {
                assert forall|j: int| 0 <= j < numeral.len() implies text[start + j]
                    == numeral[j] by {
                    assert(text[start + j] == word[j]);
                }
            }
        },
        TokenView::True | TokenView::False | TokenView::Null => {
            assert forall|i: int| start <= i < end implies (|c: char| is_letter(c))(
                #[trigger] text[i],
            ) by {
                assert(text[start + (i - start)] == word[i - start]);
            }
            lemma_run_end_is_unique(text, |c: char| is_letter(c), start, end);
            assert(text.subrange(start as int, end as int) =~= word) by {
                assert forall|j: int| 0 <= j < word.len() implies text[start + j] == word[j] by {}
            }
        },
        _ => {},
    }
}

/// Where written tokens make up the rest of a text, the tokenizer reads them
/// and then `End`.
proof fn lemma_scan_written(text: Seq<char>, from: nat, tokens: Seq<TokenView>)
    requires
        from <= text.len(),
        text.subrange(from as int, text.len() as int) == written(tokens),
        forall|i: int| 0 <= i < tokens.len() ==> is_writable(#[trigger] tokens[i]),
    ensures
        scan_all(text, from).tokens == Ok::<Seq<TokenView>, LexError>(
            tokens.push(TokenView::End),
        ),
    decreases tokens.len(),
{
    let suffix = text.subrange(from as int, text.len() as int);
    if tokens.len() == 0 {
        assert(suffix.len() == 0);
        assert(seq![TokenView::End] =~= tokens.push(TokenView::End));
    } else {
        let token = tokens[0];
        let rest = tokens.drop_first();
        let word = spelling(token);
        let tail = written(rest);
        let end = (from + 1 + word.len()) as nat;
        assert(suffix == seq![' '] + word + tail);
        assert(text[from + 0int] == suffix[0]);
        assert forall|j: int| 0 <= j < word.len() implies text[from + 1 + j]
            == #[trigger] word[j] by {
            assert(text[from + (1 + j)] == suffix[1 + j]);
        }
        assert(text.subrange(end as int, text.len() as int) =~= tail) by {
            assert forall|j: int| 0 <= j < tail.len() implies text[end + j] == tail[j] by {
                assert(text[from + (1 + word.len() + j)] == suffix[1 + word.len() + j]);
            }
        }
        if end < text.len() {
            assert(rest.len() > 0);
            assert(tail[0] == ' ');
            assert(text[(from + 1 + word.len()) as int] == suffix[(1 + word.len()) as int]);
        }
        lemma_scan_written_token(text, from, token);
        assert forall|i: int| 0 <= i < rest.len() implies is_writable(#[trigger] rest[i]) by {
            assert(rest[i] == tokens[i + 1]);
        }
        lemma_scan_written(text, end, rest);
        assert(seq![token] + rest.push(TokenView::End) =~= tokens.push(TokenView::End));
    }
}

/// Written tokens are read back: the tokenizer gives the tokens that were
/// written, and `End`.
pub proof fn lemma_written_tokens_are_read_back(tokens: Seq<TokenView>)
    requires
        all_writable(tokens),
    ensures
        lex(written(tokens)) == Ok::<Seq<TokenView>, LexError>(tokens.push(TokenView::End)),
{
    let text = written(tokens);
    assert(text.subrange(0, text.len() as int) =~= text);
    lemma_scan_written(text, 0, tokens);
}

/// The tokens can all be written.
pub open spec fn all_writable(tokens: Seq<TokenView>) -> bool {
    forall|i: int| 0 <= i < tokens.len() ==> is_writable(#[trigger] tokens[i])
}

/// The trees that text can be written for: those whose strings, keys and
/// numbers make writable tokens.
pub open spec fn tree_is_writable(tree: Tree) -> bool
    decreases tree,
{
    &&& match tree.kind {
        Kind::StringLiteral(text) => is_writable(TokenView::StringValue(text)),
        Kind::Identifier(name) => is_writable(TokenView::StringValue(name)),
        Kind::NumberLiteral(numeral) => is_writable(TokenView::NumberValue(numeral)),
        _ => true,
    }
    &&& forall|i: int|
        0 <= i < tree.children.len() ==> tree_is_writable(#[trigger] tree.children[i])
}

/// The tokens of a writable tree can all be written, in any layout.
pub proof fn lemma_rendered_value_is_writable(tree: Tree, layout: Layout)
    requires
        tree_is_writable(tree),
    ensures
        all_writable(render_value(tree, layout)),
    decreases tree, 0nat,
{
    match tree.kind {
        Kind::ObjectLiteral | Kind::ArrayLiteral => {
            lemma_rendered_items_are_writable(tree.children, layout, 0);
        },
        _ => {},
    }
}

/// The tokens of writable children can all be written, in any layout.
pub proof fn lemma_rendered_items_are_writable(items: Seq<Tree>, layout: Layout, from: nat)
    requires
        forall|i: int| 0 <= i < items.len() ==> tree_is_writable(#[trigger] items[i]),
    ensures
        all_writable(render_items(items, layout, from)),
    decreases items, items.len() - from,
{
    if from < items.len() {
        let item = items[from as int];
        let inner = layout.inner[from as int];
        if item.kind == Kind::PropertyAssignment && item.children.len() == 2
            && item.children[0].kind is Identifier {
            assert(tree_is_writable(item.children[0]));
            assert(tree_is_writable(item.children[1]));
            lemma_rendered_value_is_writable(item.children[1], inner);
        } else {
            lemma_rendered_value_is_writable(item, inner);
        }
        assert(all_writable(render_item(item, inner)));
        lemma_rendered_items_are_writable(items, layout, from + 1);
    }
}

/// A writable document written out as text, with commas in any layout, is
/// parsed to the document.
pub proof fn lemma_written_document_is_read_back(tree: Tree, layout: Layout)
    requires
        tree.is_document(),
        tree_is_writable(tree),
    ensures
        parse_text(written(render_value(tree, layout))) == Ok::<Tree, SyntaxErrorView>(tree),
{
    let tokens = render_value(tree, layout);
    lemma_rendered_value_is_writable(tree, layout);
    lemma_written_tokens_are_read_back(tokens);
    assert(tokens.push(TokenView::End) =~= tokens + seq![TokenView::End]);
    lemma_parse_rendered_document(tree, layout, seq![TokenView::End]);
}

/// Commas are tolerated in text: a writable document written out with commas
/// in two ways is parsed to the same tree, the document.
pub proof fn lemma_commas_do_not_matter_in_text(tree: Tree, first: Layout, second: Layout)
    requires
        tree.is_document(),
        tree_is_writable(tree),
    ensures
        parse_text(written(render_value(tree, first))) is Ok,
        parse_text(written(render_value(tree, first))) == parse_text(
            written(render_value(tree, second)),
        ),
{
    lemma_written_document_is_read_back(tree, first);
    lemma_written_document_is_read_back(tree, second);
}

} // verus!
