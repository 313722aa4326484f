//! The pattern tree.
//!
//! A pattern is a sequence of nodes; a node is a symbol with a quantifier; a
//! group symbol holds a nested pattern. The tree is built once and only read
//! afterwards.

use vstd::prelude::*;
use crate::list::{List, ListModel};
use crate::quantifier::{Quantifier, QuantifierModel};

verus! {

/// What a `RegexSymbol` stands for.
pub ghost enum SymbolModel {
    Any,
    Literal(char),
    Group(Seq<NodeModel>),
    List(ListModel),
}

/// What a `Regex` stands for.
pub ghost struct NodeModel {
    pub symbol: SymbolModel,
    pub quantifier: QuantifierModel,
}

impl SymbolModel {
    /// Every class and quantifier inside the symbol is well formed.
    pub open spec fn wf(self) -> bool
        decreases self,
    {
        match self {
            SymbolModel::Any => true,
            SymbolModel::Literal(_) => true,
            SymbolModel::Group(nodes) => forall|i: int|
                0 <= i < nodes.len() ==> (#[trigger] nodes[i]).wf(),
            SymbolModel::List(list) => list.wf(),
        }
    }
}

impl NodeModel {
    /// Every class and quantifier of the node, at any depth, is well formed.
    pub open spec fn wf(self) -> bool
        decreases self,
    {
        self.quantifier.wf() && self.symbol.wf()
    }
}

/// The symbols of the grammar.
#[derive(Debug, PartialEq, Eq)]
pub enum RegexSymbol {
    /// `.`: any character.
    Any,
    /// The character itself.
    Literal(char),
    /// A parenthesised pattern.
    Group(Vec<Regex>),
    /// A bracket class.
    List(List),
}

/// One node of a pattern: a symbol and how often it repeats.
#[derive(Debug, PartialEq, Eq)]
pub struct Regex {
    pub symbol: RegexSymbol,
    pub quantifier: Quantifier,
}

impl View for RegexSymbol {
    type V = SymbolModel;

    open spec fn view(&self) -> SymbolModel
        decreases self,
    {
        match self {
            RegexSymbol::Any => SymbolModel::Any,
            RegexSymbol::Literal(c) => SymbolModel::Literal(*c),
            RegexSymbol::Group(nodes) => SymbolModel::Group(pattern_view(nodes@)),
            RegexSymbol::List(list) => SymbolModel::List(list@),
        }
    }
}

impl View for Regex {
    type V = NodeModel;

    open spec fn view(&self) -> NodeModel
        decreases self,
    {
        NodeModel { symbol: self.symbol.view(), quantifier: self.quantifier@ }
    }
}

/// The models of the nodes of a pattern, in order.
pub open spec fn pattern_view(nodes: Seq<Regex>) -> Seq<NodeModel>
    decreases nodes,
{
    if nodes.len() == 0 {
        Seq::empty()
    } else {
        pattern_view(nodes.drop_last()).push(nodes.last().view())
    }
}

/// `pattern_view` maps each node to its model.
pub proof fn lemma_pattern_view(nodes: Seq<Regex>)
    ensures
        pattern_view(nodes).len() == nodes.len(),
        forall|i: int| 0 <= i < nodes.len() ==> (#[trigger] pattern_view(nodes)[i]) == nodes[i]@,
    decreases nodes.len(),
{
    if nodes.len() > 0 {
        lemma_pattern_view(nodes.drop_last());
        assert(pattern_view(nodes) == pattern_view(nodes.drop_last()).push(nodes.last().view()));
    } else {
        assert(pattern_view(nodes) == Seq::<NodeModel>::empty());
    }
}

/// Adding a node at the end adds its model at the end.
pub proof fn lemma_pattern_view_push(nodes: Seq<Regex>, node: Regex)
    ensures
        pattern_view(nodes.push(node)) == pattern_view(nodes).push(node@),
{
    assert(nodes.push(node).drop_last() == nodes);
}

impl Regex {
    /// A node for `symbol` that repeats exactly once.
    pub fn new(symbol: RegexSymbol) -> (node: Regex)
        ensures
            node.symbol == symbol,
            node@ == (NodeModel { symbol: symbol@, quantifier: QuantifierModel::once() }),
    {
        Regex { symbol, quantifier: Quantifier::once() }
    }
}

} // verus!
