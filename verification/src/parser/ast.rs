//! The abstract syntax tree.
//!
//! A tree has four levels: the program at the root, its functions, their
//! statements, and the integer expressions of each statement. The types
//! here do not enforce that shape; the parser builds nothing else.

use vstd::prelude::*;

verus! {

/// The category of a node, with its payload.
#[derive(Debug)]
pub enum SyntaxNodeType {
    /// The root of a tree.
    Program,
    /// A function, with its name.
    Function(String),
    /// A statement, with the name of its kind.
    Statement(String),
    /// An integer expression, with its value.
    Expression(i64),
}

/// What a [`SyntaxNodeType`] is mathematically.
pub ghost enum SpecNodeType {
    Program,
    Function(Seq<char>),
    Statement(Seq<char>),
    Expression(i64),
}

impl View for SyntaxNodeType {
    type V = SpecNodeType;

    open spec fn view(&self) -> SpecNodeType {
        match self {
            SyntaxNodeType::Program => SpecNodeType::Program,
            SyntaxNodeType::Function(name) => SpecNodeType::Function(name@),
            SyntaxNodeType::Statement(kind) => SpecNodeType::Statement(kind@),
            SyntaxNodeType::Expression(value) => SpecNodeType::Expression(*value),
        }
    }
}

impl PartialEq for SyntaxNodeType {
    /// Two categories are equal where they are the same variant with the
    /// same payload.
    fn eq(&self, other: &SyntaxNodeType) -> (r: bool) {
        match (self, other) {
            (SyntaxNodeType::Program, SyntaxNodeType::Program) => true,
            (SyntaxNodeType::Function(a), SyntaxNodeType::Function(b)) => *a == *b,
            (SyntaxNodeType::Statement(a), SyntaxNodeType::Statement(b)) => *a == *b,
            (SyntaxNodeType::Expression(a), SyntaxNodeType::Expression(b)) => *a == *b,
            _ => false,
        }
    }
}

impl vstd::std_specs::cmp::PartialEqSpecImpl for SyntaxNodeType {
    open spec fn obeys_eq_spec() -> bool {
        true
    }

    open spec fn eq_spec(&self, other: &SyntaxNodeType) -> bool {
        self@ == other@
    }
}

/// A node of the tree. It owns its children, in source order.
#[derive(Debug)]
pub struct ASTNode {
    children: Vec<ASTNode>,
    node_type: SyntaxNodeType,
}

/// What an [`ASTNode`] is mathematically: a category and the sequence of
/// the children's trees.
pub ghost struct SpecNode {
    pub node_type: SpecNodeType,
    pub children: Seq<SpecNode>,
}

impl View for ASTNode {
    type V = SpecNode;

    closed spec fn view(&self) -> SpecNode {
        self.tree()
    }
}

impl ASTNode {
    /// The tree below this node, the node included.
    spec fn tree(&self) -> SpecNode
        decreases self,
    {
        SpecNode {
            node_type: self.node_type@,
            children: Seq::new(
                self.children@.len(),
                |k: int|
                    if 0 <= k < self.children@.len() {
                        self.children@[k].tree()
                    } else {
                        arbitrary()
                    },
            ),
        }
    }

    /// Whether the trees below the two nodes are the same.
    fn same_tree(&self, other: &ASTNode) -> (r: bool)
        ensures
            r == (self@ == other@),
        decreases self,
    {
        if self.node_type != other.node_type {
            return false;
        }
        if self.children.len() != other.children.len() {
            assert(self@.children.len() == self.children@.len());
            assert(other@.children.len() == other.children@.len());
            return false;
        }
        let mut k: usize = 0;
        while k < self.children.len()
            invariant
                k <= self.children.len(),
                self.children.len() == other.children.len(),
                self.node_type@ == other.node_type@,
                forall|j: int| 0 <= j < k ==> self@.children[j] == other@.children[j],
            decreases self.children.len() - k,
        {
            if !self.children[k].same_tree(&other.children[k]) {
                assert(self@.children[k as int] != other@.children[k as int]);
                return false;
            }
            assert(self@.children[k as int] == other@.children[k as int]);
            k += 1;
        }
        assert(self@.children =~= other@.children);
        true
    }

    /// A node of the given category without children.
    pub fn new(node_type: SyntaxNodeType) -> (node: Self)
        ensures
            node@ == (SpecNode { node_type: node_type@, children: Seq::empty() }),
    {
        let node = ASTNode { node_type, children: vec![] };
        assert(node@.children =~= Seq::empty());
        node
    }

    /// Appends `child` after the children that are there.
    pub fn add_child(&mut self, child: ASTNode)
        ensures
            final(self)@ == (SpecNode {
                node_type: old(self)@.node_type,
                children: old(self)@.children.push(child@),
            }),
    {
        self.children.push(child);
        assert(self@.children =~= old(self)@.children.push(child@));
    }

    /// The number of children, reduced modulo 2^32. The node is unchanged.
    pub fn num_child(&mut self) -> (n: u32)
        ensures
            final(self)@ == old(self)@,
            n as int == old(self)@.children.len() % 0x1_0000_0000,
    {
        let len: u64 = self.children.len() as u64;
        assert((len as u32) as u64 == len % 0x1_0000_0000) by (bit_vector);
        #[verifier::truncate]
        (len as u32)
    }
}

impl PartialEq for ASTNode {
    /// Two nodes are equal where they are of the same category and have
    /// equal children in the same order.
    fn eq(&self, other: &ASTNode) -> (r: bool) {
        self.same_tree(other)
    }
}

impl vstd::std_specs::cmp::PartialEqSpecImpl for ASTNode {
    open spec fn obeys_eq_spec() -> bool {
        true
    }

    open spec fn eq_spec(&self, other: &ASTNode) -> bool {
        self@ == other@
    }
}

/// A syntax tree, held by its root. A new tree has a program node there.
#[derive(Debug)]
pub struct AST {
    pub root: ASTNode,
}

impl View for AST {
    type V = SpecNode;

    open spec fn view(&self) -> SpecNode {
        self.root@
    }
}

impl PartialEq for AST {
    /// Two trees are equal where their roots are.
    fn eq(&self, other: &AST) -> (r: bool) {
        self.root == other.root
    }
}

impl vstd::std_specs::cmp::PartialEqSpecImpl for AST {
    open spec fn obeys_eq_spec() -> bool {
        true
    }

    open spec fn eq_spec(&self, other: &AST) -> bool {
        self@ == other@
    }
}

impl AST {
    /// A tree that is a program without functions.
    pub fn new() -> (ast: Self)
        ensures
            ast@ == (SpecNode { node_type: SpecNodeType::Program, children: Seq::empty() }),
    {
        AST { root: ASTNode::new(SyntaxNodeType::Program) }
    }
}

} // verus!
