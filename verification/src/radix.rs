//! The counter as a number in mixed radix.
//!
//! For a pattern made of literals, classes as they stand and groups of such,
//! with every repeat count fixed, the counter-driven generator decodes the
//! counter like a number: each class reads one digit in the base of its size.
//! Such a pattern has a *radix*, the number of strings it can give, and below
//! the radix no two counters give the same string.

use vstd::prelude::*;
use vstd::arithmetic::div_mod::{
    lemma_breakdown, lemma_div_denominator, lemma_fundamental_div_mod,
    lemma_fundamental_div_mod_converse, lemma_mod_mod, lemma_multiply_divide_lt,
};
use vstd::arithmetic::mul::{lemma_mul_is_commutative, lemma_mul_strictly_positive};
use crate::enumerate::{
    list_at, pattern_at, pattern_settled, repeat_at, symbol_at, symbol_settled,
};
use crate::list::lemma_exhausted;
use crate::regex::{NodeModel, SymbolModel};

verus! {

/// Whether `symbol` decodes the counter as a digit or a run of digits: it is a
/// literal, a well-formed class as it stands that lists something, or a group
/// of nodes that do so a fixed number of times.
pub open spec fn symbol_countable(symbol: SymbolModel) -> bool
    decreases symbol,
{
    match symbol {
        SymbolModel::Any => false,
        SymbolModel::Literal(_) => true,
        SymbolModel::Group(nodes) => pattern_countable(nodes),
        SymbolModel::List(list) => list.wf() && !list.complement && list.members.len() > 0,
    }
}

/// Whether every node of the pattern repeats a fixed number of times and has a
/// countable symbol.
pub open spec fn pattern_countable(nodes: Seq<NodeModel>) -> bool
    decreases nodes,
{
    forall|i: int|
        0 <= i < nodes.len() ==> (#[trigger] nodes[i]).quantifier.fixed() && symbol_countable(
            nodes[i].symbol,
        )
}

/// How many strings one occurrence of `symbol` can give.
pub open spec fn symbol_radix(symbol: SymbolModel) -> nat
    decreases symbol, 0nat,
{
    match symbol {
        SymbolModel::Any => 1,
        SymbolModel::Literal(_) => 1,
        SymbolModel::Group(nodes) => pattern_radix(nodes),
        SymbolModel::List(list) => list.members.len(),
    }
}

/// How many strings `count` occurrences of `symbol` can give.
pub open spec fn repeat_radix(symbol: SymbolModel, count: nat) -> nat
    decreases symbol, count,
{
    if count == 0 {
        1
    } else {
        repeat_radix(symbol, (count - 1) as nat) * symbol_radix(symbol)
    }
}

/// How many strings the pattern can give, each node repeating its minimum.
pub open spec fn pattern_radix(nodes: Seq<NodeModel>) -> nat
    decreases nodes, 0nat,
{
    if nodes.len() == 0 {
        1
    } else {
        repeat_radix(nodes.last().symbol, nodes.last().quantifier.min) * pattern_radix(
            nodes.drop_last(),
        )
    }
}

/// How long the string of one occurrence of `symbol` is.
pub open spec fn symbol_width(symbol: SymbolModel) -> nat
    decreases symbol, 0nat,
{
    match symbol {
        SymbolModel::Group(nodes) => pattern_width(nodes),
        _ => 1,
    }
}

/// How long the string of `count` occurrences of `symbol` is.
pub open spec fn repeat_width(symbol: SymbolModel, count: nat) -> nat
    decreases symbol, count,
{
    if count == 0 {
        0
    } else {
        repeat_width(symbol, (count - 1) as nat) + symbol_width(symbol)
    }
}

/// How long the string of the pattern is, each node repeating its minimum.
pub open spec fn pattern_width(nodes: Seq<NodeModel>) -> nat
    decreases nodes, 0nat,
{
    if nodes.len() == 0 {
        0
    } else {
        pattern_width(nodes.drop_last()) + repeat_width(
            nodes.last().symbol,
            nodes.last().quantifier.min,
        )
    }
}

/// The text of a decoding, empty where there is none.
pub open spec fn text_of(decoded: Option<(Seq<char>, nat)>) -> Seq<char> {
    match decoded {
        Some((text, _)) => text,
        None => Seq::empty(),
    }
}

/// Whether `decoded` is a text of `width` characters with `left` as the
/// counter left behind.
pub open spec fn decoded_as(decoded: Option<(Seq<char>, nat)>, width: nat, left: nat) -> bool {
    decoded matches Some((text, index)) && text.len() == width && index == left
}

/// Reading the digit of base `low` and then the digit of base `high` is
/// reading one digit of base `low * high`.
proof fn lemma_two_digits(index: nat, low: nat, high: nat)
    requires
        low >= 1,
        high >= 1,
    ensures
        low * high >= 1,
        (index / low) / high == index / (low * high),
        (index % (low * high)) % low == index % low,
        (index % (low * high)) / low == (index / low) % high,
        index < low * high ==> index / low < high,
        index == low * (index / low) + index % low,
{
    let x = index as int;
    let y = low as int;
    let z = high as int;
    lemma_mul_strictly_positive(y, z);
    lemma_div_denominator(x, y, z);
    lemma_mod_mod(x, y, z);
    lemma_breakdown(x, y, z);
    lemma_mul_is_commutative(y, (x / y) % z);
    lemma_fundamental_div_mod_converse(x % (y * z), y, (x / y) % z, x % y);
    if x < y * z {
        lemma_multiply_divide_lt(x, y, z);
    }
    lemma_fundamental_div_mod(x, y);
}

/// Two texts of equal length with equal texts in front of them are equal, and
/// so are the texts in front.
proof fn lemma_same_parts(a: Seq<char>, b: Seq<char>, c: Seq<char>, d: Seq<char>)
    requires
        a + b == c + d,
        b.len() == d.len(),
    ensures
        a == c,
        b == d,
{
    let whole = a + b;
    assert(a.len() == c.len()) by {
        assert(whole.len() == a.len() + b.len());
        assert((c + d).len() == c.len() + d.len());
    }
    assert(a =~= c) by {
        assert forall|k: int| 0 <= k < a.len() implies a[k] == c[k] by {
            assert(whole[k] == a[k]);
            assert((c + d)[k] == c[k]);
        }
    }
    assert(b =~= d) by {
        assert forall|k: int| 0 <= k < b.len() implies b[k] == d[k] by {
            assert(whole[a.len() + k] == b[k]);
            assert((c + d)[c.len() + k] == d[k]);
        }
    }
}

/// One occurrence of a countable symbol reads the counter as one digit in the
/// base of its radix: it leaves the counter divided by the radix, its text
/// has the symbol's width and depends on the remainder alone, and below the
/// radix no two counters give the same text.
pub proof fn lemma_symbol_decodes(symbol: SymbolModel, index: nat, other: nat)
    requires
        symbol_countable(symbol),
    ensures
        symbol_radix(symbol) >= 1,
        decoded_as(symbol_at(symbol, index), symbol_width(symbol), index / symbol_radix(symbol)),
        text_of(symbol_at(symbol, index)) == text_of(
            symbol_at(symbol, index % symbol_radix(symbol)),
        ),
        index < symbol_radix(symbol) && other < symbol_radix(symbol) && text_of(
            symbol_at(symbol, index),
        ) == text_of(symbol_at(symbol, other)) ==> index == other,
    decreases symbol, 0nat,
{
    match symbol {
        SymbolModel::Any => {},
        SymbolModel::Literal(c) => {},
        SymbolModel::Group(nodes) => {
            lemma_pattern_decodes(nodes, index, other);
        },
        SymbolModel::List(list) => {
            lemma_exhausted(list);
            let size = list.members.len();
            let at = index % size;
            assert(at % size == at) by (nonlinear_arith)
                requires
                    at == index % size,
                    size > 0,
            ;
            assert(list_at(list, index) == Some((list.members[at as int], index / size)));
            assert(list_at(list, at) == Some((list.members[at as int], at / size)));
            if index < size && other < size {
                assert(index % size == index && other % size == other) by (nonlinear_arith)
                    requires
                        index < size,
                        other < size,
                ;
                assert(list_at(list, other) == Some(
                    (list.members[other as int], other / size),
                ));
                if text_of(symbol_at(symbol, index)) == text_of(symbol_at(symbol, other)) {
                    assert(seq![list.members[index as int]][0] == seq![
                        list.members[other as int],
                    ][0]);
                }
            }
        },
    }
}

/// `count` occurrences of a countable symbol read the counter as one digit in
/// the base of their radix: they leave the counter divided by the radix,
/// their text has their width and depends on the remainder alone, and below
/// the radix no two counters give the same text.
pub proof fn lemma_repeat_decodes(symbol: SymbolModel, count: nat, index: nat, other: nat)
    requires
        symbol_countable(symbol),
    ensures
        repeat_radix(symbol, count) >= 1,
        decoded_as(
            repeat_at(symbol, count, index),
            repeat_width(symbol, count),
            index / repeat_radix(symbol, count),
        ),
        text_of(repeat_at(symbol, count, index)) == text_of(
            repeat_at(symbol, count, index % repeat_radix(symbol, count)),
        ),
        index < repeat_radix(symbol, count) && other < repeat_radix(symbol, count) && text_of(
            repeat_at(symbol, count, index),
        ) == text_of(repeat_at(symbol, count, other)) ==> index == other,
    decreases symbol, count,
{
    if count == 0 {
        assert(index % 1 == 0 && index / 1 == index);
    } else {
        let fewer = (count - 1) as nat;
        let low = repeat_radix(symbol, fewer);
        let high = symbol_radix(symbol);
        lemma_repeat_decodes(symbol, fewer, index, other);
        lemma_symbol_decodes(symbol, index / low, other / low);
        lemma_two_digits(index, low, high);
        lemma_two_digits(other, low, high);
        let whole = low * high;
        // The decoding of the remainder, for the third clause.
        lemma_repeat_decodes(symbol, fewer, index % whole, index % low);
        lemma_repeat_decodes(symbol, fewer, index % low, index % low);
        lemma_symbol_decodes(symbol, (index % whole) / low, (index / low) % high);
        lemma_symbol_decodes(symbol, (index / low) % high, (index / low) % high);
        if index < whole && other < whole && text_of(repeat_at(symbol, count, index)) == text_of(
            repeat_at(symbol, count, other),
        ) {
            lemma_repeat_decodes(symbol, fewer, other, index);
            lemma_repeat_decodes(symbol, fewer, index % low, other % low);
            lemma_repeat_decodes(symbol, fewer, other % low, other % low);
            lemma_symbol_decodes(symbol, other / low, index / low);
            lemma_same_parts(
                text_of(symbol_at(symbol, index / low)),
                text_of(repeat_at(symbol, fewer, index)),
                text_of(symbol_at(symbol, other / low)),
                text_of(repeat_at(symbol, fewer, other)),
            );
        }
    }
}

/// A countable pattern reads the counter as one digit in the base of its
/// radix: it leaves the counter divided by the radix, its text has the
/// pattern's width and depends on the remainder alone, and below the radix no
/// two counters give the same text.
pub proof fn lemma_pattern_decodes(nodes: Seq<NodeModel>, index: nat, other: nat)
    requires
        pattern_countable(nodes),
    ensures
        pattern_radix(nodes) >= 1,
        decoded_as(pattern_at(nodes, index), pattern_width(nodes), index / pattern_radix(nodes)),
        text_of(pattern_at(nodes, index)) == text_of(
            pattern_at(nodes, index % pattern_radix(nodes)),
        ),
        index < pattern_radix(nodes) && other < pattern_radix(nodes) && text_of(
            pattern_at(nodes, index),
        ) == text_of(pattern_at(nodes, other)) ==> index == other,
    decreases nodes, 0nat,
{
    if nodes.len() == 0 {
        assert(index % 1 == 0 && index / 1 == index);
    } else {
        let last = nodes.last();
        let rest = nodes.drop_last();
        let count = last.quantifier.min;
        assert(pattern_countable(rest)) by {
            assert forall|i: int| 0 <= i < rest.len() implies (#[trigger] rest[i]).quantifier.fixed()
                && symbol_countable(rest[i].symbol) by {
                assert(rest[i] == nodes[i]);
            }
        }
        let low = repeat_radix(last.symbol, count);
        let high = pattern_radix(rest);
        lemma_repeat_decodes(last.symbol, count, index, other);
        lemma_pattern_decodes(rest, index / low, other / low);
        lemma_two_digits(index, low, high);
        lemma_two_digits(other, low, high);
        let whole = low * high;
        lemma_repeat_decodes(last.symbol, count, index % whole, index % low);
        lemma_repeat_decodes(last.symbol, count, index % low, index % low);
        lemma_pattern_decodes(rest, (index % whole) / low, (index / low) % high);
        lemma_pattern_decodes(rest, (index / low) % high, (index / low) % high);
        if index < whole && other < whole && text_of(pattern_at(nodes, index)) == text_of(
            pattern_at(nodes, other),
        ) {
            lemma_repeat_decodes(last.symbol, count, other, index);
            lemma_repeat_decodes(last.symbol, count, index % low, other % low);
            lemma_repeat_decodes(last.symbol, count, other % low, other % low);
            lemma_pattern_decodes(rest, other / low, index / low);
            lemma_same_parts(
                text_of(pattern_at(rest, index / low)),
                text_of(repeat_at(last.symbol, count, index)),
                text_of(pattern_at(rest, other / low)),
                text_of(repeat_at(last.symbol, count, other)),
            );
        }
    }
}

/// In a countable symbol every repeat count is fixed.
pub proof fn lemma_countable_symbol_settled(symbol: SymbolModel)
    requires
        symbol_countable(symbol),
    ensures
        symbol_settled(symbol),
    decreases symbol,
{
    match symbol {
        SymbolModel::Group(nodes) => {
            lemma_countable_pattern_settled(nodes);
        },
        _ => {},
    }
}

/// In a countable pattern every repeat count is fixed, so the generator gives
/// at each counter the text that `pattern_at` gives.
pub proof fn lemma_countable_pattern_settled(nodes: Seq<NodeModel>)
    requires
        pattern_countable(nodes),
    ensures
        pattern_settled(nodes),
    decreases nodes,
{
    assert forall|i: int| 0 <= i < nodes.len() implies (#[trigger] nodes[i]).quantifier.fixed()
        && symbol_settled(nodes[i].symbol) by {
        lemma_countable_symbol_settled(nodes[i].symbol);
    }
}

} // verus!
