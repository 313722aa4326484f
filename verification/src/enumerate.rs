//! Generation by decoding a counter.
//!
//! The nodes of a pattern are visited from right to left, and so are the
//! repetitions of a node. Each visit reads the low end of the counter and leaves
//! the rest for the visit to its left: a class as it stands takes the counter
//! modulo its size and divides the counter by it; `.` and a negated class offset
//! a base character by the counter and count it down by one; a literal leaves it
//! alone. How often a node repeats does not depend on the counter.

use vstd::prelude::*;
use vstd::arithmetic::div_mod::lemma_div_denominator;
use vstd::arithmetic::mul::lemma_mul_is_commutative;
use vstd::arithmetic::power::{lemma_pow_positive, pow};
use crate::error::GenerationError;
use crate::generate::admitted_from;
use crate::language::{
    lemma_node_yields, lemma_pattern_yields, node_may_fail, node_must_fail, node_yields,
    pattern_may_fail, pattern_must_fail, pattern_yields, symbol_yields,
};
use crate::list::{lemma_exhausted, List, ListModel};
use crate::quantifier::QuantifierModel;
use crate::regex::{lemma_pattern_view, pattern_view, NodeModel, Regex, RegexSymbol, SymbolModel};
use crate::sampler::{Sampler, ThreadSampler};
use crate::scalar::{char_at_ordinal, lemma_ordinal_bijection, scalar_at, SCALAR_COUNT};
use crate::text::{prepend, single};

verus! {

/// Ordinal of the character that `.` and a negated class start from: the space.
pub const BASE_ORDINAL: u32 = 32;

/// The scalar value `index` places after the base character, wrapping around
/// the domain.
pub open spec fn offset_scalar(index: nat) -> char {
    scalar_at((BASE_ORDINAL + index) % (SCALAR_COUNT as int))
}

/// Takes the lowest digit of `*index` in base `radix`: returns the digit and
/// leaves the digits above it.
pub fn consume(index: &mut u64, radix: u64) -> (digit: u64)
    requires
        radix > 0,
    ensures
        digit == *old(index) % radix,
        *final(index) == *old(index) / radix,
        *old(index) == *final(index) * radix + digit,
{
    let whole: u64 = *index;
    proof {
        vstd::arithmetic::div_mod::lemma_fundamental_div_mod(whole as int, radix as int);
        lemma_mul_is_commutative(radix as int, whole as int / radix as int);
    }
    *index = whole / radix;
    whole % radix
}

/// `index` less one, stopping at zero.
pub open spec fn countdown(index: nat) -> nat {
    if index == 0 {
        0
    } else {
        (index - 1) as nat
    }
}

/// What `list` gives at `index`: the character, and the counter it leaves.
/// `None` where the class admits no character.
pub open spec fn list_at(list: ListModel, index: nat) -> Option<(char, nat)> {
    if list.exhausted() {
        None
    } else if list.complement {
        Some((admitted_from(list, offset_scalar(index), SCALAR_COUNT as nat), countdown(index)))
    } else {
        Some(
            (
                list.members[(index % list.members.len()) as int],
                index / list.members.len(),
            ),
        )
    }
}

/// `text` in front of what `rest` holds.
pub open spec fn followed_by(rest: Option<(Seq<char>, nat)>, text: Seq<char>) -> Option<
    (Seq<char>, nat),
> {
    match rest {
        Some((head, index)) => Some((head + text, index)),
        None => None,
    }
}

/// What one occurrence of `symbol` gives at `index`, with every quantifier
/// inside it repeating its minimum.
pub open spec fn symbol_at(symbol: SymbolModel, index: nat) -> Option<(Seq<char>, nat)>
    decreases symbol, 0nat,
{
    match symbol {
        SymbolModel::Any => Some((seq![offset_scalar(index)], countdown(index))),
        SymbolModel::Literal(c) => Some((seq![c], index)),
        SymbolModel::Group(nodes) => pattern_at(nodes, index),
        SymbolModel::List(list) => match list_at(list, index) {
            Some((c, next)) => Some((seq![c], next)),
            None => None,
        },
    }
}

/// What `count` occurrences of `symbol` give at `index`: the rightmost
/// occurrence reads the counter first.
pub open spec fn repeat_at(symbol: SymbolModel, count: nat, index: nat) -> Option<
    (Seq<char>, nat),
>
    decreases symbol, count,
{
    if count == 0 {
        Some((Seq::empty(), index))
    } else {
        match repeat_at(symbol, (count - 1) as nat, index) {
            Some((tail, middle)) => followed_by(symbol_at(symbol, middle), tail),
            None => None,
        }
    }
}

/// What the pattern `nodes` gives at `index`, each node repeating its minimum:
/// the last node reads the counter first.
pub open spec fn pattern_at(nodes: Seq<NodeModel>, index: nat) -> Option<(Seq<char>, nat)>
    decreases nodes, 0nat,
{
    if nodes.len() == 0 {
        Some((Seq::empty(), index))
    } else {
        match repeat_at(nodes.last().symbol, nodes.last().quantifier.min, index) {
            Some((tail, middle)) => followed_by(pattern_at(nodes.drop_last(), middle), tail),
            None => None,
        }
    }
}

/// Whether every quantifier inside `symbol` repeats a fixed number of times.
pub open spec fn symbol_settled(symbol: SymbolModel) -> bool
    decreases symbol,
{
    match symbol {
        SymbolModel::Group(nodes) => pattern_settled(nodes),
        _ => true,
    }
}

/// Whether every quantifier of the pattern, at any depth, repeats a fixed
/// number of times.
pub open spec fn pattern_settled(nodes: Seq<NodeModel>) -> bool
    decreases nodes,
{
    forall|i: int|
        0 <= i < nodes.len() ==> (#[trigger] nodes[i]).quantifier.fixed() && symbol_settled(
            nodes[i].symbol,
        )
}

/// What a generation call came to: the text and the counter left behind, or
/// `None` for an error.
pub open spec fn outcome(r: Result<String, GenerationError>, index: u64) -> Option<
    (Seq<char>, nat),
> {
    match r {
        Ok(text) => Some((text@, index as nat)),
        Err(_) => None,
    }
}

/// The ordinal of `offset_scalar(index)`, computed within `u64`.
proof fn lemma_offset(index: u64)
    ensures
        (index as int % (SCALAR_COUNT as int) + BASE_ORDINAL) % (SCALAR_COUNT as int) == (
        BASE_ORDINAL + index) % (SCALAR_COUNT as int),
        0 <= (BASE_ORDINAL + index) % (SCALAR_COUNT as int) < SCALAR_COUNT,
{
    assert(SCALAR_COUNT == 0x10F800);
    assert(BASE_ORDINAL == 32);
}

/// A literal gives the same text at every index and leaves the counter alone:
/// repeated `count` times it gives `count` copies of itself.
pub proof fn lemma_literal_ignores_index(c: char, count: nat, index: nat)
    ensures
        repeat_at(SymbolModel::Literal(c), count, index) == Some(
            (Seq::new(count, |k: int| c), index),
        ),
        pattern_at(
            seq![
                NodeModel {
                    symbol: SymbolModel::Literal(c),
                    quantifier: QuantifierModel { min: count, max: Some(count) },
                },
            ],
            index,
        ) == Some((Seq::new(count, |k: int| c), index)),
    decreases count,
{
    let symbol = SymbolModel::Literal(c);
    let copies = Seq::new(count, |k: int| c);
    if count > 0 {
        lemma_literal_ignores_index(c, (count - 1) as nat, index);
        let fewer = Seq::new((count - 1) as nat, |k: int| c);
        assert(symbol_at(symbol, index) == Some((seq![c], index)));
        assert(seq![c] + fewer == copies);
    } else {
        assert(copies == Seq::<char>::empty());
    }
    let node = NodeModel { symbol, quantifier: QuantifierModel { min: count, max: Some(count) } };
    let nodes = seq![node];
    assert(nodes.last() == node);
    assert(nodes.drop_last() == Seq::<NodeModel>::empty());
    assert(pattern_at(nodes.drop_last(), index) == Some((Seq::<char>::empty(), index)));
    assert(Seq::<char>::empty() + copies == copies);
}

/// Counting from zero up to the size of a class, a pattern that is this one
/// class, as it stands and repeating once, gives each listed character in the
/// order listed, and no character twice.
pub proof fn lemma_class_enumeration(list: ListModel, index: nat)
    requires
        list.wf(),
        !list.complement,
        index < list.members.len(),
    ensures
        pattern_at(
            seq![NodeModel { symbol: SymbolModel::List(list), quantifier: QuantifierModel::once() }],
            index,
        ) == Some((seq![list.members[index as int]], 0nat)),
        forall|other: nat|
            other < list.members.len() && other != index ==> list.members[other as int]
                != list.members[index as int],
{
    lemma_exhausted(list);
    let symbol = SymbolModel::List(list);
    let node = NodeModel { symbol, quantifier: QuantifierModel::once() };
    let nodes = seq![node];
    let size = list.members.len();
    assert(index % size == index && index / size == 0) by (nonlinear_arith)
        requires
            index < size,
    ;
    assert(list_at(list, index) == Some((list.members[index as int], 0nat)));
    assert(symbol_at(symbol, index) == Some((seq![list.members[index as int]], 0nat)));
    assert(repeat_at(symbol, 0, index) == Some((Seq::<char>::empty(), index)));
    assert(seq![list.members[index as int]] + Seq::<char>::empty() == seq![
        list.members[index as int],
    ]);
    assert(repeat_at(symbol, 1, index) == Some((seq![list.members[index as int]], 0nat)));
    assert(nodes.last() == node);
    assert(nodes.drop_last() == Seq::<NodeModel>::empty());
    assert(pattern_at(nodes.drop_last(), 0) == Some((Seq::<char>::empty(), 0nat)));
    assert(Seq::<char>::empty() + seq![list.members[index as int]] == seq![
        list.members[index as int],
    ]);
}

/// The digit of `index` at `place` in base `size`; place 0 is the least
/// significant.
pub open spec fn digit_at(index: nat, size: nat, place: nat) -> int {
    (index as int / pow(size as int, place)) % (size as int)
}

/// A class as it stands, repeated a fixed number of times, writes the counter
/// in the base of its size, with its listed characters as digits and the
/// most significant digit first; it leaves the counter divided by the size to
/// the power of the count.
pub proof fn lemma_class_digits(list: ListModel, count: nat, index: nat)
    requires
        list.wf(),
        !list.complement,
        list.members.len() > 0,
    ensures
        repeat_at(SymbolModel::List(list), count, index) matches Some((text, left)) && {
            &&& text.len() == count
            &&& left == index as int / pow(list.members.len() as int, count)
            &&& forall|k: int|
                0 <= k < count ==> #[trigger] text[k] == list.members[digit_at(
                    index,
                    list.members.len(),
                    (count - 1 - k) as nat,
                )]
        },
    decreases count,
{
    let symbol = SymbolModel::List(list);
    let size = list.members.len();
    lemma_exhausted(list);
    reveal(pow);
    if count > 0 {
        let fewer = (count - 1) as nat;
        lemma_class_digits(list, fewer, index);
        let pair = repeat_at(symbol, fewer, index)->0;
        let tail = pair.0;
        let middle = pair.1;
        lemma_pow_positive(size as int, fewer);
        let digit = list.members[(middle % size) as int];
        assert(list_at(list, middle) == Some((digit, middle / size)));
        assert(symbol_at(symbol, middle) == Some((seq![digit], middle / size)));
        let text = seq![digit] + tail;
        assert(repeat_at(symbol, count, index) == Some((text, middle / size)));
        assert(middle as int / size as int == index as int / pow(size as int, count)) by {
            lemma_div_denominator(index as int, pow(size as int, fewer), size as int);
            lemma_mul_is_commutative(pow(size as int, fewer), size as int);
        }
        assert forall|k: int| 0 <= k < count implies #[trigger] text[k] == list.members[digit_at(
            index,
            size,
            (count - 1 - k) as nat,
        )] by {
            if k > 0 {
                assert(text[k] == tail[k - 1]);
            }
        }
    }
}

impl List {
    /// The character of the class at `*i`; `*i` is left as the class leaves it.
    /// A class that admits no character gives the error and leaves `*i` alone.
    pub fn generate_inc(&self, i: &mut u64) -> (r: Result<char, GenerationError>)
        ensures
            r is Err <==> self@.exhausted(),
            r is Err ==> *final(i) == *old(i),
            r matches Ok(c) ==> list_at(self@, *old(i) as nat) == Some((c, *final(i) as nat))
                && self@.admits(c),
    {
        let held = self.len();
        proof {
            lemma_exhausted(self@);
        }
        if self.is_complement() {
            let start: u64 = (*i % (SCALAR_COUNT as u64) + BASE_ORDINAL as u64) % (
            SCALAR_COUNT as u64);
            proof {
                lemma_offset(*i);
            }
            match self.pick(start) {
                Ok(c) => {
                    *i = if *i == 0 {
                        0
                    } else {
                        *i - 1
                    };
                    Ok(c)
                },
                Err(e) => Err(e),
            }
        } else {
            if held == 0 {
                return Err(GenerationError::ExhaustedClass);
            }
            let at = consume(i, held as u64);
            Ok(self.get(at as usize))
        }
    }
}

/// A part put in front of the parts flattens to the part in front of the text.
proof fn lemma_flatten_front(part: Seq<char>, parts: Seq<Seq<char>>)
    ensures
        (seq![part] + parts).flatten() == part + parts.flatten(),
{
    let all = seq![part] + parts;
    assert(all.first() == part);
    assert(all.drop_first() == parts);
}

/// Once some number of occurrences fails, every larger number fails.
proof fn lemma_repeat_fails(symbol: SymbolModel, fewer: nat, more: nat, index: nat)
    requires
        fewer <= more,
        repeat_at(symbol, fewer, index) is None,
    ensures
        repeat_at(symbol, more, index) is None,
    decreases more,
{
    if fewer < more {
        lemma_repeat_fails(symbol, fewer, (more - 1) as nat, index);
    }
}

impl Regex {
    /// The string of the node at `*i`, with repeat counts left to the
    /// thread-local generator; `*i` is left as the node leaves it.
    pub fn generate_inc(&self, i: &mut u64) -> (r: Result<String, GenerationError>)
        ensures
            r matches Ok(text) ==> node_yields(self@, text@),
            r is Err ==> node_may_fail(self@),
            node_must_fail(self@) ==> r is Err,
            symbol_settled(self@.symbol) ==> exists|count: nat|
                self@.quantifier.admits(count) && outcome(r, *final(i)) == #[trigger] repeat_at(
                    self@.symbol,
                    count,
                    *old(i) as nat,
                ),
    {
        let mut counts = ThreadSampler::new();
        self.generate_inc_with(i, &mut counts)
    }

    /// The string of the node at `*i`, with repeat counts drawn from `counts`;
    /// `*i` is left as the node leaves it. The node can yield the text. Where
    /// every quantifier inside the symbol is fixed, the text and the counter
    /// are what `repeat_at` gives for the count that was chosen.
    pub fn generate_inc_with<S: Sampler>(&self, i: &mut u64, counts: &mut S) -> (r: Result<
        String,
        GenerationError,
    >)
        ensures
            r matches Ok(text) ==> node_yields(self@, text@),
            r is Err ==> node_may_fail(self@),
            node_must_fail(self@) ==> r is Err,
            symbol_settled(self@.symbol) ==> exists|count: nat|
                self@.quantifier.admits(count) && outcome(r, *final(i)) == #[trigger] repeat_at(
                    self@.symbol,
                    count,
                    *old(i) as nat,
                ),
        decreases self,
    {
        let count = self.quantifier.resolve(counts);
        let ghost first = *i as nat;
        let ghost symbol = self@.symbol;
        let mut out = String::new();
        let ghost mut parts: Seq<Seq<char>> = Seq::empty();
        let mut done: u64 = 0;
        assert(parts.flatten() == Seq::<char>::empty());
        while done < count
            invariant
                done <= count,
                first == *old(i) as nat,
                symbol == self@.symbol,
                self.quantifier@.admits(count as nat),
                parts.len() == done,
                out@ == parts.flatten(),
                forall|k: int| 0 <= k < parts.len() ==> symbol_yields(symbol, #[trigger] parts[k]),
                done > 0 ==> !node_must_fail(self@),
                symbol_settled(symbol) ==> repeat_at(symbol, done as nat, first) == Some(
                    (out@, *i as nat),
                ),
            decreases count - done,
        {
            let ghost before = *i as nat;
            let piece: String;
            match &self.symbol {
                RegexSymbol::Any => {
                    let at: u64 = (*i % (SCALAR_COUNT as u64) + BASE_ORDINAL as u64) % (
                    SCALAR_COUNT as u64);
                    proof {
                        lemma_offset(*i);
                    }
                    piece = single(char_at_ordinal(at as u32));
                    *i = if *i == 0 {
                        0
                    } else {
                        *i - 1
                    };
                },
                RegexSymbol::Literal(c) => {
                    piece = single(*c);
                },
                RegexSymbol::Group(nodes) => {
                    assert(self.symbol->Group_0 == *nodes);
                    match generate_inc_with(nodes.as_slice(), i, counts) {
                        Ok(text) => {
                            piece = text;
                        },
                        Err(e) => {
                            proof {
                                if symbol_settled(symbol) {
                                    assert(repeat_at(symbol, (done + 1) as nat, first) is None);
                                    lemma_repeat_fails(
                                        symbol,
                                        (done + 1) as nat,
                                        count as nat,
                                        first,
                                    );
                                }
                            }
                            return Err(e);
                        },
                    }
                },
                RegexSymbol::List(list) => {
                    match list.generate_inc(i) {
                        Ok(c) => {
                            piece = single(c);
                        },
                        Err(e) => {
                            proof {
                                assert(repeat_at(symbol, (done + 1) as nat, first) is None);
                                lemma_repeat_fails(symbol, (done + 1) as nat, count as nat, first);
                            }
                            return Err(e);
                        },
                    }
                },
            }
            proof {
                assert(symbol_settled(symbol) ==> symbol_at(symbol, before) == Some(
                    (piece@, *i as nat),
                ));
                lemma_flatten_front(piece@, parts);
                parts = seq![piece@] + parts;
            }
            out = prepend(piece, &out);
            done = done + 1;
        }
        proof {
            lemma_node_yields(self@, parts);
        }
        Ok(out)
    }
}

/// The string of the pattern at `*i`, with repeat counts left to the
/// thread-local generator; `*i` is left as the pattern leaves it.
pub fn generate_inc(regexes: &[Regex], i: &mut u64) -> (r: Result<String, GenerationError>)
    ensures
        r matches Ok(text) ==> pattern_yields(pattern_view(regexes@), text@),
        r is Err ==> pattern_may_fail(pattern_view(regexes@)),
        pattern_must_fail(pattern_view(regexes@)) ==> r is Err,
        pattern_settled(pattern_view(regexes@)) ==> outcome(r, *final(i)) == pattern_at(
            pattern_view(regexes@),
            *old(i) as nat,
        ),
{
    let mut counts = ThreadSampler::new();
    generate_inc_with(regexes, i, &mut counts)
}

/// The string of the pattern at `*i`, with repeat counts drawn from `counts`;
/// `*i` is left as the pattern leaves it. The pattern can yield the text. Where
/// every quantifier is fixed, the text and the counter are what `pattern_at`
/// gives.
pub fn generate_inc_with<S: Sampler>(regexes: &[Regex], i: &mut u64, counts: &mut S) -> (r:
    Result<String, GenerationError>)
    ensures
        r matches Ok(text) ==> pattern_yields(pattern_view(regexes@), text@),
        r is Err ==> pattern_may_fail(pattern_view(regexes@)),
        pattern_must_fail(pattern_view(regexes@)) ==> r is Err,
        pattern_settled(pattern_view(regexes@)) ==> outcome(r, *final(i)) == pattern_at(
            pattern_view(regexes@),
            *old(i) as nat,
        ),
    decreases regexes@,
{
    let ghost models = pattern_view(regexes@);
    let ghost first = *i as nat;
    proof {
        lemma_pattern_view(regexes@);
        assert(models.take(models.len() as int) == models);
    }
    let mut out = String::new();
    let ghost mut parts: Seq<Seq<char>> = Seq::empty();
    let mut at: usize = regexes.len();
    assert(parts.flatten() == Seq::<char>::empty());
    while at > 0
        invariant
            at <= regexes.len(),
            first == *old(i) as nat,
            models == pattern_view(regexes@),
            models.len() == regexes.len(),
            forall|k: int| 0 <= k < regexes.len() ==> (#[trigger] models[k]) == regexes@[k]@,
            parts.len() == regexes.len() - at,
            out@ == parts.flatten(),
            forall|k: int|
                0 <= k < parts.len() ==> node_yields(models[at + k], #[trigger] parts[k]),
            forall|k: int| at <= k < regexes.len() ==> !node_must_fail(#[trigger] models[k]),
            pattern_settled(models) ==> pattern_at(models, first) == followed_by(
                pattern_at(models.take(at as int), *i as nat),
                out@,
            ),
        decreases at,
    {
        let ghost before = *i as nat;
        let ghost prefix = models.take(at as int);
        proof {
            assert(models[at - 1] == regexes@[at - 1]@);
            assert(prefix.last() == models[at - 1]);
            assert(prefix.drop_last() == models.take(at - 1));
        }
        match regexes[at - 1].generate_inc_with(i, counts) {
            Ok(text) => {
                proof {
                    lemma_flatten_front(text@, parts);
                    parts = seq![text@] + parts;
                    if pattern_settled(models) {
                        assert(models[at - 1].quantifier.fixed());
                        assert(symbol_settled(models[at - 1].symbol));
                        let rest = pattern_at(models.take(at - 1), *i as nat);
                        assert(pattern_at(prefix, before) == followed_by(rest, text@));
                        assert(followed_by(followed_by(rest, text@), out@) == followed_by(
                            rest,
                            text@ + out@,
                        )) by {
                            match rest {
                                Some(pair) => {
                                    assert((pair.0 + text@) + out@ == pair.0 + (text@ + out@));
                                },
                                None => {},
                            }
                        }
                    }
                }
                out = prepend(text, &out);
            },
            Err(e) => {
                proof {
                    if pattern_settled(models) {
                        assert(models[at - 1].quantifier.fixed());
                        assert(symbol_settled(models[at - 1].symbol));
                        assert(pattern_at(prefix, before) is None);
                    }
                }
                return Err(e);
            },
        }
        at = at - 1;
    }
    proof {
        lemma_pattern_yields(models, parts);
        assert(models.take(0) == Seq::<NodeModel>::empty());
        assert(Seq::<char>::empty() + out@ == out@);
    }
    Ok(out)
}

} // verus!
