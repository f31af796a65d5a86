//! Commas in the tokens of a tree.
//!
//! A tree says nothing of the commas that stood between its members. A
//! [`Layout`] says how many stand where, and [`render_value`] writes a tree
//! out with them. Whatever the layout, parsing gives the tree back; and the
//! tokens that the parser reads as a tree are that tree written out in some
//! layout.
use crate::node::{Kind, Tree};
use crate::parser::{
    lemma_parse_property_advances, lemma_parse_value_advances, lemma_parse_value_is_value,
    parse_elements, parse_members, parse_property, parse_tokens, parse_value, ParseErrorView,
    Parsed,
};
use crate::token::TokenView;
use vstd::prelude::*;

verus! {

/// The commas of an object or an array with `n` children: `commas[i]` commas
/// stand before child `i`, `commas[n]` commas behind the last child, and
/// `inner[i]` is the layout of child `i`.
pub struct Layout {
    pub commas: Seq<nat>,
    pub inner: Seq<Layout>,
}

/// So many commas.
pub open spec fn commas(count: nat) -> Seq<TokenView> {
    Seq::new(count, |i: int| TokenView::Comma)
}

/// The token that closes an object, or an array.
pub open spec fn closing(in_object: bool) -> TokenView {
    if in_object {
        TokenView::RBrace
    } else {
        TokenView::RBracket
    }
}

/// The layout of a literal, which has no place for a comma.
pub open spec fn bare() -> Layout {
    Layout { commas: Seq::empty(), inner: Seq::empty() }
}

/// The tokens of a value, with commas as the layout has them.
pub open spec fn render_value(tree: Tree, layout: Layout) -> Seq<TokenView>
    decreases tree, 0nat,
{
    match tree.kind {
        Kind::NullLiteral => seq![TokenView::Null],
        Kind::TrueLiteral => seq![TokenView::True],
        Kind::FalseLiteral => seq![TokenView::False],
        Kind::NumberLiteral(numeral) => seq![TokenView::NumberValue(numeral)],
        Kind::StringLiteral(text) => seq![TokenView::StringValue(text)],
        Kind::ObjectLiteral => seq![TokenView::LBrace] + render_items(tree.children, layout, 0)
            + seq![TokenView::RBrace],
        Kind::ArrayLiteral => seq![TokenView::LBracket] + render_items(tree.children, layout, 0)
            + seq![TokenView::RBracket],
        _ => Seq::empty(),
    }
}

/// The tokens of the children from child `from` on, with the commas before,
/// between and behind them.
pub open spec fn render_items(items: Seq<Tree>, layout: Layout, from: nat) -> Seq<TokenView>
    decreases items, items.len() - from,
{
    if from < items.len() {
        commas(layout.commas[from as int]) + (render_item(
            items[from as int],
            layout.inner[from as int],
        ) + render_items(items, layout, from + 1))
    } else {
        commas(layout.commas[from as int])
    }
}

/// The tokens of one child: of a property the key, the colon and the value,
/// of anything else the value.
pub open spec fn render_item(item: Tree, layout: Layout) -> Seq<TokenView>
    decreases item, 1nat,
{
    if item.kind == Kind::PropertyAssignment && item.children.len() == 2
        && item.children[0].kind is Identifier {
        seq![TokenView::StringValue(item.children[0].kind->Identifier_0), TokenView::Colon]
            + render_value(item.children[1], layout)
    } else {
        render_value(item, layout)
    }
}

/// The tokens `piece` stand in `tokens` from position `at` on.
pub open spec fn occurs_at(tokens: Seq<TokenView>, at: nat, piece: Seq<TokenView>) -> bool {
    &&& at + piece.len() <= tokens.len()
    &&& forall|i: int| 0 <= i < piece.len() ==> tokens[at + i] == #[trigger] piece[i]
}

/// What the parser made of the rest of an object or an array.
pub open spec fn parse_items(
    tokens: Seq<TokenView>,
    at: nat,
    read: Seq<Tree>,
    in_object: bool,
) -> Parsed {
    if in_object {
        parse_members(tokens, at, read)
    } else {
        parse_elements(tokens, at, read)
    }
}

/// Where two pieces stand one behind the other, each of them stands.
proof fn lemma_occurs_split(
    tokens: Seq<TokenView>,
    at: nat,
    head: Seq<TokenView>,
    tail: Seq<TokenView>,
)
    requires
        occurs_at(tokens, at, head + tail),
    ensures
        occurs_at(tokens, at, head),
        occurs_at(tokens, at + head.len(), tail),
{
    let piece = head + tail;
    assert forall|i: int| 0 <= i < head.len() implies tokens[at + i] == #[trigger] head[i] by {
        assert(piece[i] == head[i]);
    }
    assert forall|i: int| 0 <= i < tail.len() implies tokens[at + head.len() + i]
        == #[trigger] tail[i] by {
        assert(piece[head.len() + i] == tail[i]);
    }
}

/// Where one piece stands and another stands behind it, the two stand one
/// behind the other.
proof fn lemma_occurs_join(
    tokens: Seq<TokenView>,
    at: nat,
    head: Seq<TokenView>,
    tail: Seq<TokenView>,
)
    requires
        occurs_at(tokens, at, head),
        occurs_at(tokens, at + head.len(), tail),
    ensures
        occurs_at(tokens, at, head + tail),
{
    let piece = head + tail;
    assert forall|i: int| 0 <= i < piece.len() implies tokens[at + i] == #[trigger] piece[i] by {
        if i < head.len() {
            assert(piece[i] == head[i]);
        } else {
            let j = i - head.len();
            assert(piece[i] == tail[j]);
            assert(tokens[at + head.len() + j] == tail[j]);
        }
    }
}

/// The parser passes over commas between children.
proof fn lemma_commas_are_passed_over(
    tokens: Seq<TokenView>,
    at: nat,
    count: nat,
    read: Seq<Tree>,
)
    requires
        occurs_at(tokens, at, commas(count)),
    ensures
        parse_members(tokens, at, read) == parse_members(tokens, at + count, read),
        parse_elements(tokens, at, read) == parse_elements(tokens, at + count, read),
    decreases count,
{
    if count > 0 {
        assert(tokens[at + 0int] == commas(count)[0]);
        let fewer = (count - 1) as nat;
        assert forall|i: int| 0 <= i < fewer implies tokens[at + 1 + i] == #[trigger] commas(
            fewer,
        )[i] by {
            assert(tokens[at + (i + 1)] == commas(count)[i + 1]);
        }
        lemma_commas_are_passed_over(tokens, at + 1, fewer, read);
    }
}

/// Where the tokens of a value stand, the parser reads the value, and stops
/// behind them.
pub proof fn lemma_parse_rendered_value(
    tokens: Seq<TokenView>,
    at: nat,
    tree: Tree,
    layout: Layout,
)
    requires
        tree.is_value(),
        occurs_at(tokens, at, render_value(tree, layout)),
    ensures
        parse_value(tokens, at) == (Parsed {
            result: Ok(tree),
            next: at + render_value(tree, layout).len(),
        }),
    decreases tree, 0nat,
{
    let piece = render_value(tree, layout);
    match tree.kind {
        Kind::ObjectLiteral => {
            let inner = render_items(tree.children, layout, 0);
            assert(piece =~= seq![TokenView::LBrace] + (inner + seq![TokenView::RBrace]));
            assert(tokens[at + 0int] == piece[0]);
            lemma_occurs_split(tokens, at, seq![TokenView::LBrace], inner + seq![TokenView::RBrace]);
            assert(tree.children.take(0) =~= Seq::empty());
            lemma_parse_rendered_items(tokens, at + 1, tree.children, layout, 0, true);
        },
        Kind::ArrayLiteral => {
            let inner = render_items(tree.children, layout, 0);
            assert(piece =~= seq![TokenView::LBracket] + (inner + seq![TokenView::RBracket]));
            assert(tokens[at + 0int] == piece[0]);
            lemma_occurs_split(
                tokens,
                at,
                seq![TokenView::LBracket],
                inner + seq![TokenView::RBracket],
            );
            assert(tree.children.take(0) =~= Seq::empty());
            lemma_parse_rendered_items(tokens, at + 1, tree.children, layout, 0, false);
        },
        _ => {
            assert(tokens[at + 0int] == piece[0]);
            assert(tree.children =~= Seq::empty());
        },
    }
}

/// Where the tokens of the children from child `from` on stand before the
/// closing token, the parser that has read the children before `from` reads
/// the rest, and stops behind the closing token.
pub proof fn lemma_parse_rendered_items(
    tokens: Seq<TokenView>,
    at: nat,
    items: Seq<Tree>,
    layout: Layout,
    from: nat,
    in_object: bool,
)
    requires
        from <= items.len(),
        forall|i: int|
            0 <= i < items.len() ==> if in_object {
                (#[trigger] items[i]).is_property()
            } else {
                items[i].is_value()
            },
        occurs_at(tokens, at, render_items(items, layout, from) + seq![closing(in_object)]),
    ensures
        in_object ==> parse_members(tokens, at, items.take(from as int)) == (Parsed {
            result: Ok(Tree { kind: Kind::ObjectLiteral, children: items }),
            next: at + render_items(items, layout, from).len() + 1,
        }),
        !in_object ==> parse_elements(tokens, at, items.take(from as int)) == (Parsed {
            result: Ok(Tree { kind: Kind::ArrayLiteral, children: items }),
            next: at + render_items(items, layout, from).len() + 1,
        }),
    decreases items, items.len() - from,
{
    let count = layout.commas[from as int];
    let read = items.take(from as int);
    let piece = render_items(items, layout, from);
    let close = seq![closing(in_object)];
    let here = at + count;
    if from < items.len() {
        let item = items[from as int];
        let inner = layout.inner[from as int];
        let item_piece = render_item(item, inner);
        let rest = render_items(items, layout, from + 1);
        assert(piece + close =~= commas(count) + (item_piece + (rest + close)));
        lemma_occurs_split(tokens, at, commas(count), item_piece + (rest + close));
        lemma_commas_are_passed_over(tokens, at, count, read);
        lemma_occurs_split(tokens, here, item_piece, rest + close);
        assert(items.take(from + 1int) =~= read.push(item));
        if in_object {
            assert(item.is_property());
            let key = item.children[0].kind->Identifier_0;
            let value = item.children[1];
            let value_piece = render_value(value, inner);
            let head = seq![TokenView::StringValue(key), TokenView::Colon];
            assert(item_piece == head + value_piece);
            lemma_occurs_split(tokens, here, head, value_piece);
            assert(tokens[here + 0int] == head[0]);
            assert(tokens[here + 1int] == head[1]);
            lemma_parse_rendered_value(tokens, here + 2, value, inner);
            assert(item.children[0].children =~= Seq::empty());
            assert(item.children =~= seq![Tree::leaf(Kind::Identifier(key)), value]);
            assert(parse_property(tokens, here) == (Parsed {
                result: Ok(item),
                next: here + item_piece.len(),
            }));
            lemma_parse_rendered_items(
                tokens,
                here + item_piece.len(),
                items,
                layout,
                from + 1,
                true,
            );
        } else {
            assert(item.is_value());
            assert(item.kind != Kind::PropertyAssignment);
            lemma_parse_rendered_value(tokens, here, item, inner);
            lemma_parse_value_advances(tokens, here);
            lemma_parse_rendered_items(
                tokens,
                here + item_piece.len(),
                items,
                layout,
                from + 1,
                false,
            );
        }
    } else {
        lemma_occurs_split(tokens, at, commas(count), close);
        lemma_commas_are_passed_over(tokens, at, count, read);
        assert(tokens[here + 0int] == close[0]);
        assert(read =~= items);
    }
}

/// The tokens of the children from `from` on depend only on that part of the
/// layout.
proof fn lemma_render_items_frame(items: Seq<Tree>, first: Layout, second: Layout, from: nat)
    requires
        from <= items.len(),
        forall|i: int| from <= i <= items.len() ==> first.commas[i] == second.commas[i],
        forall|i: int| from <= i < items.len() ==> first.inner[i] == second.inner[i],
    ensures
        render_items(items, first, from) == render_items(items, second, from),
    decreases items.len() - from,
{
    if from < items.len() {
        lemma_render_items_frame(items, first, second, from + 1);
    }
}

/// A layout with one more comma before child `from`.
proof fn lemma_one_more_comma(items: Seq<Tree>, fewer: Layout, from: nat) -> (layout: Layout)
    requires
        from <= items.len(),
        fewer.commas.len() == items.len() + 1,
    ensures
        layout.commas.len() == fewer.commas.len(),
        layout.inner == fewer.inner,
        render_items(items, layout, from) == seq![TokenView::Comma] + render_items(
            items,
            fewer,
            from,
        ),
{
    let count = fewer.commas[from as int];
    let layout = Layout { commas: fewer.commas.update(from as int, count + 1), inner: fewer.inner };
    assert(commas(count + 1) =~= seq![TokenView::Comma] + commas(count));
    if from < items.len() {
        lemma_render_items_frame(items, layout, fewer, from + 1);
        let tail = render_item(items[from as int], fewer.inner[from as int]) + render_items(
            items,
            fewer,
            from + 1,
        );
        assert(commas(count + 1) + tail =~= seq![TokenView::Comma] + (commas(count) + tail));
    }
    layout
}

/// A layout with no comma before child `from`, whose own layout is `inner`.
proof fn lemma_one_more_item(
    items: Seq<Tree>,
    behind: Layout,
    from: nat,
    inner: Layout,
) -> (layout: Layout)
    requires
        from < items.len(),
        behind.commas.len() == items.len() + 1,
        behind.inner.len() == items.len(),
    ensures
        layout.commas.len() == behind.commas.len(),
        layout.inner.len() == behind.inner.len(),
        render_items(items, layout, from) == render_item(items[from as int], inner) + render_items(
            items,
            behind,
            from + 1,
        ),
{
    let layout = Layout {
        commas: behind.commas.update(from as int, 0),
        inner: behind.inner.update(from as int, inner),
    };
    lemma_render_items_frame(items, layout, behind, from + 1);
    let tail = render_item(items[from as int], inner) + render_items(items, behind, from + 1);
    assert(commas(0) + tail =~= tail);
    layout
}

/// The tokens that were read as a value are the value written out in some
/// layout, which is returned.
pub proof fn lemma_parsed_value_is_rendered(tokens: Seq<TokenView>, at: nat) -> (layout: Layout)
    requires
        parse_value(tokens, at).result is Ok,
    ensures
        occurs_at(tokens, at, render_value(parse_value(tokens, at).result->Ok_0, layout)),
        parse_value(tokens, at).next == at + render_value(
            parse_value(tokens, at).result->Ok_0,
            layout,
        ).len(),
    decreases tokens.len() - at, 2nat,
{
    let tree = parse_value(tokens, at).result->Ok_0;
    match tokens[at as int] {
        TokenView::LBrace => {
            let layout = lemma_parsed_items_are_rendered(tokens, at + 1, Seq::empty(), true);
            let open = seq![TokenView::LBrace];
            let behind = render_items(tree.children, layout, 0) + seq![TokenView::RBrace];
            assert(tokens[at + 0int] == open[0]);
            lemma_occurs_join(tokens, at, open, behind);
            assert(render_value(tree, layout) =~= open + behind);
            layout
        },
        TokenView::LBracket => {
            let layout = lemma_parsed_items_are_rendered(tokens, at + 1, Seq::empty(), false);
            let open = seq![TokenView::LBracket];
            let behind = render_items(tree.children, layout, 0) + seq![TokenView::RBracket];
            assert(tokens[at + 0int] == open[0]);
            lemma_occurs_join(tokens, at, open, behind);
            assert(render_value(tree, layout) =~= open + behind);
            layout
        },
        _ => {
            assert(tokens[at + 0int] == render_value(tree, bare())[0]);
            bare()
        },
    }
}

/// The tokens that were read as the rest of an object or an array are the
/// children behind those read before, written out in some layout, which is
/// returned, and the closing token.
pub proof fn lemma_parsed_items_are_rendered(
    tokens: Seq<TokenView>,
    at: nat,
    read: Seq<Tree>,
    in_object: bool,
) -> (layout: Layout)
    requires
        parse_items(tokens, at, read, in_object).result is Ok,
    ensures
        ({
            let parsed = parse_items(tokens, at, read, in_object);
            let tree = parsed.result->Ok_0;
            let piece = render_items(tree.children, layout, read.len());
            &&& tree.kind == if in_object {
                Kind::ObjectLiteral
            } else {
                Kind::ArrayLiteral
            }
            &&& read.len() <= tree.children.len()
            &&& tree.children.take(read.len() as int) == read
            &&& layout.commas.len() == tree.children.len() + 1
            &&& layout.inner.len() == tree.children.len()
            &&& occurs_at(tokens, at, piece + seq![closing(in_object)])
            &&& parsed.next == at + piece.len() + 1
        }),
    decreases tokens.len() - at, 3nat,
{
    let parsed = parse_items(tokens, at, read, in_object);
    let items = parsed.result->Ok_0.children;
    let from = read.len();
    let close = seq![closing(in_object)];
    if tokens[at as int] == closing(in_object) {
        let layout = Layout {
            commas: Seq::new(from + 1, |i: int| 0nat),
            inner: Seq::new(from, |i: int| bare()),
        };
        assert(items.take(from as int) =~= read);
        assert(render_items(items, layout, from) =~= Seq::empty());
        assert(render_items(items, layout, from) + close =~= close);
        assert(tokens[at + 0int] == close[0]);
        layout
    } else if tokens[at as int] is Comma {
        let fewer = lemma_parsed_items_are_rendered(tokens, at + 1, read, in_object);
        let layout = lemma_one_more_comma(items, fewer, from);
        let comma = seq![TokenView::Comma];
        let behind = render_items(items, fewer, from) + close;
        assert(tokens[at + 0int] == comma[0]);
        lemma_occurs_join(tokens, at, comma, behind);
        assert(render_items(items, layout, from) + close =~= comma + behind);
        layout
    } else {
        let item = if in_object {
            parse_property(tokens, at)
        } else {
            parse_value(tokens, at)
        };
        if in_object {
            lemma_parse_property_advances(tokens, at);
        } else {
            lemma_parse_value_advances(tokens, at);
            lemma_parse_value_is_value(tokens, at);
        }
        let child = item.result->Ok_0;
        let inner = if in_object {
            lemma_parsed_value_is_rendered(tokens, at + 2)
        } else {
            lemma_parsed_value_is_rendered(tokens, at)
        };
        let item_piece = render_item(child, inner);
        assert(occurs_at(tokens, at, item_piece) && item.next == at + item_piece.len()) by {
            if in_object {
                let key = tokens[at as int]->StringValue_0;
                let head = seq![TokenView::StringValue(key), TokenView::Colon];
                let value_piece = render_value(child.children[1], inner);
                assert(tokens[at + 0int] == head[0]);
                assert(tokens[at + 1int] == head[1]);
                lemma_occurs_join(tokens, at, head, value_piece);
                assert(item_piece == head + value_piece);
            }
        }
        let behind = lemma_parsed_items_are_rendered(
            tokens,
            item.next,
            read.push(child),
            in_object,
        );
        assert(items.take(from + 1int)[from as int] == child);
        assert(items.take(from as int) =~= read) by {
            assert forall|i: int| 0 <= i < from implies items[i] == read[i] by {
                assert(items.take(from + 1int)[i] == read.push(child)[i]);
            }
        }
        let layout = lemma_one_more_item(items, behind, from, inner);
        let rest = render_items(items, behind, from + 1) + close;
        lemma_occurs_join(tokens, at, item_piece, rest);
        assert(render_items(items, layout, from) + close =~= item_piece + rest);
        layout
    }
}

/// The tokens that were read as a document are the document written out in
/// some layout, which is returned: the parser reads nothing but what
/// [`render_value`] writes.
pub proof fn lemma_parsed_document_is_rendered(tokens: Seq<TokenView>) -> (layout: Layout)
    requires
        parse_tokens(tokens) is Ok,
    ensures
        occurs_at(tokens, 0, render_value(parse_tokens(tokens)->Ok_0, layout)),
{
    lemma_parsed_value_is_rendered(tokens, 0)
}

/// Where the tokens of a document stand first, the parser reads the document,
/// whatever the layout and whatever follows.
pub proof fn lemma_parse_rendered_document(tree: Tree, layout: Layout, rest: Seq<TokenView>)
    requires
        tree.is_document(),
    ensures
        parse_tokens(render_value(tree, layout) + rest) == Ok::<Tree, ParseErrorView>(tree),
{
    let piece = render_value(tree, layout);
    let tokens = piece + rest;
    assert forall|i: int| 0 <= i < piece.len() implies tokens[0 + i] == #[trigger] piece[i] by {}
    lemma_parse_rendered_value(tokens, 0, tree, layout);
}

/// Commas are tolerated: the same tree written out with commas in two ways
/// gives the same result, the tree.
pub proof fn lemma_commas_do_not_matter(
    tree: Tree,
    first: Layout,
    second: Layout,
    rest: Seq<TokenView>,
)
    requires
        tree.is_document(),
    ensures
        parse_tokens(render_value(tree, first) + rest) is Ok,
        parse_tokens(render_value(tree, first) + rest) == parse_tokens(
            render_value(tree, second) + rest,
        ),
{
    lemma_parse_rendered_document(tree, first, rest);
    lemma_parse_rendered_document(tree, second, rest);
}

} // verus!
