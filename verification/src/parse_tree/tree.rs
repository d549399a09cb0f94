//! The tree built by the tree generator: leaves are reduced symbols,
//! branches are expanded non-terminals with their children in
//! derivation order.

use vstd::prelude::*;

use crate::grammar::symbol::{SymbolKind, SymbolKindView};

verus! {

/// Mathematical model of a derivation tree over symbols.
pub enum TreeView {
    /// A reduced terminal.
    Leaf(SymbolKindView),
    /// An expanded non-terminal and its children's models, in order.
    Branch(Seq<char>, Seq<TreeView>),
}

/// The model of one tree node.
pub open spec fn tree_view(t: ParseTree<SymbolKind>) -> TreeView
    decreases t, 1nat,
    via tree_view_dec
{
    match t {
        ParseTree::Leaf(k) => TreeView::Leaf(k@),
        ParseTree::Branch { name, children } => TreeView::Branch(name@, tree_views(children@)),
    }
}

/// The models of a sequence of trees, in order.
pub open spec fn tree_views(ts: Seq<ParseTree<SymbolKind>>) -> Seq<TreeView>
    decreases ts, 0nat,
{
    if ts.len() == 0 {
        Seq::empty()
    } else {
        tree_views(ts.drop_last()).push(tree_view(ts.last()))
    }
}

#[via_fn]
proof fn tree_view_dec(t: ParseTree<SymbolKind>) {
    match t {
        ParseTree::Branch { name, children } => {
            assert(decreases_to!(t => children));
            assert(decreases_to!(children => children@));
        },
        _ => {},
    }
}

/// `tree_views` maps each element to its model.
pub proof fn lemma_tree_views(ts: Seq<ParseTree<SymbolKind>>)
    ensures
        tree_views(ts).len() == ts.len(),
        forall|i: int| 0 <= i < ts.len() ==> tree_views(ts)[i] == tree_view(#[trigger] ts[i]),
    decreases ts.len(),
{
    if ts.len() > 0 {
        lemma_tree_views(ts.drop_last());
        assert forall|i: int| 0 <= i < ts.len() implies tree_views(ts)[i] == tree_view(
            #[trigger] ts[i],
        ) by {
            if i < ts.len() - 1 {
                assert(ts.drop_last()[i] == ts[i]);
            } else {
                assert(ts.last() == ts[i]);
            }
        }
    }
}

impl View for ParseTree<SymbolKind> {
    type V = TreeView;

    open spec fn view(&self) -> TreeView {
        tree_view(*self)
    }
}

/// A derivation tree over values of type `T`.
#[derive(Debug)]
pub enum ParseTree<T> {
    /// A reduced terminal.
    Leaf(T),
    /// An expanded non-terminal and the trees of its symbols, in
    /// order.
    Branch { name: String, children: Vec<ParseTree<T>> },
}

impl<T> ParseTree<T> {
    /// A leaf holding `value`.
    pub fn leaf(value: T) -> (r: ParseTree<T>)
        ensures
            r matches ParseTree::Leaf(v) && v == value,
    {
        ParseTree::Leaf(value)
    }

    /// A branch for `name` with the given children.
    pub fn branch(name: String, children: Vec<ParseTree<T>>) -> (r: ParseTree<T>)
        ensures
            r matches ParseTree::Branch { name: n, children: c } && n == name && c == children,
    {
        ParseTree::Branch { name, children }
    }

    /// How many children stand under this node; a leaf counts as one.
    pub fn children_len(&self) -> (r: usize)
        ensures
            self matches ParseTree::Branch { children, .. } ==> r == children@.len(),
            self is Leaf ==> r == 1,
    {
        match self {
            ParseTree::Leaf(_) => 1,
            ParseTree::Branch { children, .. } => children.len(),
        }
    }
}

} // verus!
