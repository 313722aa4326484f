//! Which strings a pattern can yield, and which patterns can fail.
//!
//! Generation repeats a node between `low` and `high` times, so the language of
//! a pattern is taken with those bounds: an unbounded quantifier counts as
//! `min ..= min + UNBOUNDED_SPAN`.

use vstd::prelude::*;
use crate::regex::{NodeModel, SymbolModel};

verus! {

/// Whether one occurrence of `symbol` can yield `text`.
pub open spec fn symbol_yields(symbol: SymbolModel, text: Seq<char>) -> bool
    decreases symbol,
{
    match symbol {
        SymbolModel::Any => text.len() == 1,
        SymbolModel::Literal(c) => text == seq![c],
        SymbolModel::Group(nodes) => pattern_yields(nodes, text),
        SymbolModel::List(list) => text.len() == 1 && list.admits(text[0]),
    }
}

/// Whether `node` can yield `text`: the text splits into as many parts as the
/// quantifier admits, each yielded by one occurrence of the symbol.
pub open spec fn node_yields(node: NodeModel, text: Seq<char>) -> bool
    decreases node,
{
    exists|parts: Seq<Seq<char>>|
        {
            &&& node.quantifier.admits(parts.len())
            &&& #[trigger] parts.flatten() == text
            &&& forall|i: int|
                0 <= i < parts.len() ==> symbol_yields(node.symbol, #[trigger] parts[i])
        }
}

/// Whether the pattern `nodes` can yield `text`: the text splits into one part
/// for each node, in order, each yielded by its node.
pub open spec fn pattern_yields(nodes: Seq<NodeModel>, text: Seq<char>) -> bool
    decreases nodes,
{
    exists|parts: Seq<Seq<char>>|
        {
            &&& parts.len() == nodes.len()
            &&& #[trigger] parts.flatten() == text
            &&& forall|i: int|
                0 <= i < nodes.len() ==> node_yields(nodes[i], #[trigger] parts[i])
        }
}

/// Whether generating one occurrence of `symbol` can fail: some class that a
/// draw may reach admits no character.
pub open spec fn symbol_may_fail(symbol: SymbolModel) -> bool
    decreases symbol,
{
    match symbol {
        SymbolModel::Any => false,
        SymbolModel::Literal(_) => false,
        SymbolModel::Group(nodes) => pattern_may_fail(nodes),
        SymbolModel::List(list) => list.exhausted(),
    }
}

/// Whether generating `node` can fail: it may repeat at least once, and an
/// occurrence of its symbol can fail.
pub open spec fn node_may_fail(node: NodeModel) -> bool
    decreases node,
{
    node.quantifier.high() >= 1 && symbol_may_fail(node.symbol)
}

/// Whether generating the pattern `nodes` can fail: one of its nodes can.
pub open spec fn pattern_may_fail(nodes: Seq<NodeModel>) -> bool
    decreases nodes,
{
    exists|i: int| 0 <= i < nodes.len() && node_may_fail(#[trigger] nodes[i])
}

/// Whether generating one occurrence of `symbol` fails whatever is drawn.
pub open spec fn symbol_must_fail(symbol: SymbolModel) -> bool
    decreases symbol,
{
    match symbol {
        SymbolModel::Any => false,
        SymbolModel::Literal(_) => false,
        SymbolModel::Group(nodes) => pattern_must_fail(nodes),
        SymbolModel::List(list) => list.exhausted(),
    }
}

/// Whether generating `node` fails whatever is drawn: it repeats at least
/// once, and every occurrence of its symbol fails.
pub open spec fn node_must_fail(node: NodeModel) -> bool
    decreases node,
{
    node.quantifier.low() >= 1 && symbol_must_fail(node.symbol)
}

/// Whether generating the pattern `nodes` fails whatever is drawn: one of its
/// nodes does.
pub open spec fn pattern_must_fail(nodes: Seq<NodeModel>) -> bool
    decreases nodes,
{
    exists|i: int| 0 <= i < nodes.len() && node_must_fail(#[trigger] nodes[i])
}

/// Parts that the symbol yields, in a number that the quantifier admits, make
/// a text that the node yields.
pub proof fn lemma_node_yields(node: NodeModel, parts: Seq<Seq<char>>)
    requires
        node.quantifier.admits(parts.len()),
        forall|i: int| 0 <= i < parts.len() ==> symbol_yields(node.symbol, #[trigger] parts[i]),
    ensures
        node_yields(node, parts.flatten()),
{
}

/// One part for each node, yielded by that node, make a text that the pattern
/// yields.
pub proof fn lemma_pattern_yields(nodes: Seq<NodeModel>, parts: Seq<Seq<char>>)
    requires
        parts.len() == nodes.len(),
        forall|i: int| 0 <= i < nodes.len() ==> node_yields(nodes[i], #[trigger] parts[i]),
    ensures
        pattern_yields(nodes, parts.flatten()),
{
}

} // verus!
