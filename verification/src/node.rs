//! The syntax tree.
use vstd::prelude::*;

verus! {

/// What a node of the syntax tree is.
#[derive(Debug, PartialEq)]
pub enum SyntaxTree {
    /// `null`
    NullLiteral,
    /// `true`
    TrueLiteral,
    /// `false`
    FalseLiteral,
    /// A number, kept as its decimal numeral.
    NumberLiteral(String),
    /// A string.
    StringLiteral(String),
    /// The key of a property.
    Identifier(String),
    /// A key and its value: the two children.
    PropertyAssignment,
    /// An object: the children are its properties, in the order of the text.
    ObjectLiteral,
    /// An array: the children are its elements, in the order of the text.
    ArrayLiteral,
    /// The end of the text.
    End,
}

/// The kind of a node as a mathematical value.
pub enum Kind {
    NullLiteral,
    TrueLiteral,
    FalseLiteral,
    NumberLiteral(Seq<char>),
    StringLiteral(Seq<char>),
    Identifier(Seq<char>),
    PropertyAssignment,
    ObjectLiteral,
    ArrayLiteral,
    End,
}

impl View for SyntaxTree {
    type V = Kind;

    open spec fn view(&self) -> Kind {
        match self {
            SyntaxTree::NullLiteral => Kind::NullLiteral,
            SyntaxTree::TrueLiteral => Kind::TrueLiteral,
            SyntaxTree::FalseLiteral => Kind::FalseLiteral,
            SyntaxTree::NumberLiteral(numeral) => Kind::NumberLiteral(numeral@),
            SyntaxTree::StringLiteral(text) => Kind::StringLiteral(text@),
            SyntaxTree::Identifier(name) => Kind::Identifier(name@),
            SyntaxTree::PropertyAssignment => Kind::PropertyAssignment,
            SyntaxTree::ObjectLiteral => Kind::ObjectLiteral,
            SyntaxTree::ArrayLiteral => Kind::ArrayLiteral,
            SyntaxTree::End => Kind::End,
        }
    }
}

impl Clone for SyntaxTree {
    fn clone(&self) -> (copy: SyntaxTree)
        ensures
            copy == *self,
    {
        match self {
            SyntaxTree::NullLiteral => SyntaxTree::NullLiteral,
            SyntaxTree::TrueLiteral => SyntaxTree::TrueLiteral,
            SyntaxTree::FalseLiteral => SyntaxTree::FalseLiteral,
            SyntaxTree::NumberLiteral(numeral) => SyntaxTree::NumberLiteral(numeral.clone()),
            SyntaxTree::StringLiteral(text) => SyntaxTree::StringLiteral(text.clone()),
            SyntaxTree::Identifier(name) => SyntaxTree::Identifier(name.clone()),
            SyntaxTree::PropertyAssignment => SyntaxTree::PropertyAssignment,
            SyntaxTree::ObjectLiteral => SyntaxTree::ObjectLiteral,
            SyntaxTree::ArrayLiteral => SyntaxTree::ArrayLiteral,
            SyntaxTree::End => SyntaxTree::End,
        }
    }
}

/// A node of the syntax tree, which owns its children.
#[derive(Debug, PartialEq)]
pub struct Node {
    pub kind: SyntaxTree,
    pub children: Vec<Node>,
}

/// A syntax tree as a mathematical value.
pub struct Tree {
    pub kind: Kind,
    pub children: Seq<Tree>,
}

impl View for Node {
    type V = Tree;

    open spec fn view(&self) -> Tree
        decreases self,
    {
        Tree { kind: self.kind@, children: trees(self.children@) }
    }
}

/// The views of a sequence of nodes, in the same order.
pub open spec fn trees(nodes: Seq<Node>) -> Seq<Tree>
    decreases nodes,
{
    Seq::new(nodes.len(), |i: int| if 0 <= i < nodes.len() { nodes[i]@ } else { arbitrary() })
}

impl Clone for Node {
    fn clone(&self) -> (copy: Node)
        ensures
            copy@ == self@,
        decreases self,
    {
        let mut children: Vec<Node> = Vec::new();
        let mut done: usize = 0;
        while done < self.children.len()
            invariant
                done <= self.children.len(),
                children@.len() == done,
                forall|i: int| 0 <= i < done ==> (#[trigger] children@[i])@ == self.children@[i]@,
            decreases self.children.len() - done,
        {
            let child = self.children[done].clone();
            children.push(child);
            done += 1;
        }
        assert(trees(children@) =~= trees(self.children@));
        Node { kind: self.kind.clone(), children }
    }
}

impl Tree {
    /// A node without children.
    pub open spec fn leaf(kind: Kind) -> Tree {
        Tree { kind, children: Seq::empty() }
    }

    /// A value: a literal without children, an object whose children are all
    /// properties, or an array whose children are all values.
    pub open spec fn is_value(self) -> bool
        decreases self, 0nat,
    {
        match self.kind {
            Kind::NullLiteral
            | Kind::TrueLiteral
            | Kind::FalseLiteral
            | Kind::NumberLiteral(_)
            | Kind::StringLiteral(_) => self.children.len() == 0,
            Kind::ObjectLiteral => forall|i: int|
                0 <= i < self.children.len() ==> (#[trigger] self.children[i]).is_property(),
            Kind::ArrayLiteral => forall|i: int|
                0 <= i < self.children.len() ==> (#[trigger] self.children[i]).is_value(),
            _ => false,
        }
    }

    /// A property: exactly two children, the key, an identifier without
    /// children, and then the value.
    pub open spec fn is_property(self) -> bool
        decreases self, 1nat,
    {
        &&& self.kind == Kind::PropertyAssignment
        &&& self.children.len() == 2
        &&& self.children[0].kind is Identifier
        &&& self.children[0].children.len() == 0
        &&& self.children[1].is_value()
    }

    /// A document: an object or an array.
    pub open spec fn is_document(self) -> bool {
        &&& self.is_value()
        &&& self.kind == Kind::ObjectLiteral || self.kind == Kind::ArrayLiteral
    }
}

impl Node {
    /// A node of the given kind with the given children.
    pub fn new(kind: SyntaxTree, children: Vec<Node>) -> (node: Node)
        ensures
            node.kind == kind,
            node.children == children,
            node@ == (Tree { kind: kind@, children: trees(children@) }),
            children@.len() == 0 ==> node@ == Tree::leaf(kind@),
    {
        assert(children@.len() == 0 ==> trees(children@) =~= Seq::empty());
        Node { kind, children }
    }
}

} // verus!
