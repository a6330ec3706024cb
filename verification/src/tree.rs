use vstd::prelude::*;
use crate::types::{lexemes, Lexeme, Token};

verus! {

/// Where a query reads from: a table by its name, or a query in parentheses.
#[derive(Debug, PartialEq, Eq)]
pub enum Source {
    Table(Token),
    Subquery(Box<DqlNode>),
}

/// One binding of a `WITH` clause: a name and the query it stands for.
#[derive(Debug, PartialEq, Eq)]
pub struct Binding {
    pub name: Token,
    pub body: DqlNode,
}

/// A node of the syntax tree of a statement.
#[derive(Debug, PartialEq, Eq)]
pub enum DqlNode {
    Select(Vec<Token>),
    From(Source),
    Join(Source, Box<DqlNode>),
    Where(Vec<Token>),
    GroupBy(Vec<Token>),
    Having(Vec<Token>),
    Union(Vec<DqlNode>),
    UnionAll(Vec<DqlNode>),
    With(Vec<Binding>, Box<DqlNode>),
    Query(Vec<DqlNode>),
}

/// What a `Source` stands for in contracts.
pub enum SourceTree {
    Table(Lexeme),
    Subquery(Box<DqlTree>),
}

/// What a `Binding` stands for in contracts.
pub struct BindingTree {
    pub name: Lexeme,
    pub body: DqlTree,
}

/// What a `DqlNode` stands for in contracts: the same tree over `Lexeme`s.
pub enum DqlTree {
    Select(Seq<Lexeme>),
    From(SourceTree),
    Join(SourceTree, Box<DqlTree>),
    Where(Seq<Lexeme>),
    GroupBy(Seq<Lexeme>),
    Having(Seq<Lexeme>),
    Union(Seq<DqlTree>),
    UnionAll(Seq<DqlTree>),
    With(Seq<BindingTree>, Box<DqlTree>),
    Query(Seq<DqlTree>),
}

/// The tree that `node` stands for.
pub open spec fn tree_of(node: DqlNode) -> DqlTree
    decreases node,
{
    match node {
        DqlNode::Select(columns) => DqlTree::Select(lexemes(columns@)),
        DqlNode::From(source) => DqlTree::From(source_tree_of(source)),
        DqlNode::Join(source, on) => DqlTree::Join(source_tree_of(source), Box::new(tree_of(*on))),
        DqlNode::Where(predicate) => DqlTree::Where(lexemes(predicate@)),
        DqlNode::GroupBy(columns) => DqlTree::GroupBy(lexemes(columns@)),
        DqlNode::Having(predicate) => DqlTree::Having(lexemes(predicate@)),
        DqlNode::Union(branches) => DqlTree::Union(
            Seq::new(branches@.len(), |i: int| if 0 <= i < branches@.len() { tree_of(branches@[i]) } else { arbitrary() }),
        ),
        DqlNode::UnionAll(branches) => DqlTree::UnionAll(
            Seq::new(branches@.len(), |i: int| if 0 <= i < branches@.len() { tree_of(branches@[i]) } else { arbitrary() }),
        ),
        DqlNode::With(bindings, body) => DqlTree::With(
            Seq::new(bindings@.len(), |i: int| if 0 <= i < bindings@.len() { BindingTree { name: bindings@[i].name@, body: tree_of(bindings@[i].body) } } else { arbitrary() }),
            Box::new(tree_of(*body)),
        ),
        DqlNode::Query(clauses) => DqlTree::Query(
            Seq::new(clauses@.len(), |i: int| if 0 <= i < clauses@.len() { tree_of(clauses@[i]) } else { arbitrary() }),
        ),
    }
}

/// The source that `source` stands for.
pub open spec fn source_tree_of(source: Source) -> SourceTree
    decreases source,
{
    match source {
        Source::Table(name) => SourceTree::Table(name@),
        Source::Subquery(query) => SourceTree::Subquery(Box::new(tree_of(*query))),
    }
}

/// The tokens that a tree holds, from left to right.
pub open spec fn leaves(tree: DqlTree) -> Seq<Lexeme>
    decreases tree,
{
    match tree {
        DqlTree::Select(columns) => columns,
        DqlTree::From(source) => source_leaves(source),
        DqlTree::Join(source, on) => source_leaves(source) + leaves(*on),
        DqlTree::Where(predicate) => predicate,
        DqlTree::GroupBy(columns) => columns,
        DqlTree::Having(predicate) => predicate,
        DqlTree::Union(branches) => leaves_of_all(branches),
        DqlTree::UnionAll(branches) => leaves_of_all(branches),
        DqlTree::With(bindings, body) => leaves_of_bindings(bindings) + leaves(*body),
        DqlTree::Query(clauses) => leaves_of_all(clauses),
    }
}

/// The tokens that a source holds, from left to right.
pub open spec fn source_leaves(source: SourceTree) -> Seq<Lexeme>
    decreases source,
{
    match source {
        SourceTree::Table(name) => seq![name],
        SourceTree::Subquery(query) => leaves(*query),
    }
}

/// The tokens that a list of trees holds, from left to right.
pub open spec fn leaves_of_all(trees: Seq<DqlTree>) -> Seq<Lexeme>
    decreases trees,
{
    if trees.len() == 0 {
        Seq::empty()
    } else {
        leaves_of_all(trees.drop_last()) + leaves(trees.last())
    }
}

/// The tokens that a list of bindings holds, from left to right: of each its name,
/// then those of its query.
pub open spec fn leaves_of_bindings(bindings: Seq<BindingTree>) -> Seq<Lexeme>
    decreases bindings,
{
    if bindings.len() == 0 {
        Seq::empty()
    } else {
        leaves_of_bindings(bindings.drop_last()) + seq![bindings.last().name] + leaves(
            bindings.last().body,
        )
    }
}

/// The binding that `binding` stands for.
pub open spec fn binding_tree_of(binding: Binding) -> BindingTree {
    BindingTree { name: binding.name@, body: tree_of(binding.body) }
}

/// The tree of each of a list of nodes.
pub open spec fn trees(nodes: Seq<DqlNode>) -> Seq<DqlTree> {
    Seq::new(nodes.len(), |i: int| tree_of(nodes[i]))
}

/// The binding of each of a list of bindings.
pub open spec fn binding_trees(bindings: Seq<Binding>) -> Seq<BindingTree> {
    Seq::new(bindings.len(), |i: int| binding_tree_of(bindings[i]))
}

/// The tree of a node with a list of children is the node over the trees of the children.
pub proof fn lemma_tree_of_lists(node: DqlNode)
    ensures
        node matches DqlNode::Union(branches) ==> tree_of(node) == DqlTree::Union(trees(branches@)),
        node matches DqlNode::UnionAll(branches) ==> tree_of(node) == DqlTree::UnionAll(
            trees(branches@),
        ),
        node matches DqlNode::Query(clauses) ==> tree_of(node) == DqlTree::Query(trees(clauses@)),
        node matches DqlNode::With(bindings, body) ==> tree_of(node) == DqlTree::With(
            binding_trees(bindings@),
            Box::new(tree_of(*body)),
        ),
{
    match node {
        DqlNode::Union(branches) => {
            assert(tree_of(node)->Union_0 =~= trees(branches@));
        },
        DqlNode::UnionAll(branches) => {
            assert(tree_of(node)->UnionAll_0 =~= trees(branches@));
        },
        DqlNode::Query(clauses) => {
            assert(tree_of(node)->Query_0 =~= trees(clauses@));
        },
        DqlNode::With(bindings, body) => {
            assert(tree_of(node)->With_0 =~= binding_trees(bindings@));
        },
        _ => {},
    }
}

impl View for DqlNode {
    type V = DqlTree;

    open spec fn view(&self) -> DqlTree {
        tree_of(*self)
    }
}

impl View for Source {
    type V = SourceTree;

    open spec fn view(&self) -> SourceTree {
        source_tree_of(*self)
    }
}

impl View for Binding {
    type V = BindingTree;

    open spec fn view(&self) -> BindingTree {
        binding_tree_of(*self)
    }
}

} // verus!
