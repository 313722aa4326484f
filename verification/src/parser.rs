//! The pattern grammar.
//!
//! A pattern is a sequence of items. An item is an atom with at most one
//! quantifier behind it. An atom is an escaped character (`\x`), a bracket
//! class, a parenthesised pattern, `.`, or any other character, which stands for
//! itself. A quantifier is `+`, `*`, `?` or a brace expression. A `)` closes the
//! innermost open group.

use vstd::prelude::*;
use crate::charclass::{class_at, lemma_class_at, parse_list};
use crate::error::{SyntaxError, SyntaxErrorKind};
use crate::quantifier::{Quantifier, QuantifierModel};
use crate::regex::{
    lemma_pattern_view_push, pattern_view, NodeModel, Regex, RegexSymbol, SymbolModel,
};
use crate::repetitions::{lemma_repetitions_at, parse_repetitions, repetitions_at};
use crate::scalar::lemma_char_in_domain;

verus! {

/// How deep groups may nest.
pub const MAX_DEPTH: u32 = 256;

/// Whether `c` begins a quantifier.
pub open spec fn starts_quantifier(c: char) -> bool {
    c == '+' || c == '*' || c == '?' || c == '{'
}

/// The quantifier written at `at`, and the position after it; where none is
/// written, "once" and `at` itself.
pub open spec fn quantifier_at(text: Seq<char>, at: int) -> Result<
    (QuantifierModel, int),
    SyntaxError,
> {
    if at < 0 || at >= text.len() {
        Ok((QuantifierModel::once(), at))
    } else if text[at] == '+' {
        Ok((QuantifierModel { min: 1, max: None }, at + 1))
    } else if text[at] == '*' {
        Ok((QuantifierModel { min: 0, max: None }, at + 1))
    } else if text[at] == '?' {
        Ok((QuantifierModel { min: 0, max: Some(1) }, at + 1))
    } else if text[at] == '{' {
        repetitions_at(text, at + 1)
    } else {
        Ok((QuantifierModel::once(), at))
    }
}

/// The atom written at `at`, a position within the text and inside `depth`
/// open groups, and the position after it. A backslash that ends the text and
/// a group that would nest deeper than `MAX_DEPTH` are reported at `at`.
pub open spec fn atom_at(text: Seq<char>, at: int, depth: nat) -> Result<
    (SymbolModel, int),
    SyntaxError,
>
    decreases text.len() - at, 0nat,
    when 0 <= at < text.len()
{
    if text[at] == '\\' {
        if at + 1 < text.len() {
            Ok((SymbolModel::Literal(text[at + 1]), at + 2))
        } else {
            Err(SyntaxError { kind: SyntaxErrorKind::DanglingEscape, position: at as usize })
        }
    } else if text[at] == '[' {
        match class_at(text, at + 1) {
            Ok((list, next)) => Ok((SymbolModel::List(list), next)),
            Err(e) => Err(e),
        }
    } else if text[at] == '(' {
        if depth >= MAX_DEPTH {
            Err(SyntaxError { kind: SyntaxErrorKind::NestingTooDeep, position: at as usize })
        } else {
            match items_at(text, at + 1, depth + 1, Seq::empty(), at + 1) {
                Ok((nodes, next)) => Ok((SymbolModel::Group(nodes), next)),
                Err(e) => Err(e),
            }
        }
    } else if text[at] == '.' {
        Ok((SymbolModel::Any, at + 1))
    } else {
        Ok((SymbolModel::Literal(text[at]), at + 1))
    }
}

/// The items written from `at` on, added to `found`, and the position after
/// them. Inside a group (`depth > 0`) the items end with the `)` that closes
/// it; `open` is where the group's body began, and where a group that never
/// closes is reported. Outside any group they end with the text, and a `)` is
/// reported where it stands. A quantifier where an item should begin is
/// reported where it stands: as having nothing to repeat when no item precedes
/// it, else as a second quantifier.
pub open spec fn items_at(
    text: Seq<char>,
    at: int,
    depth: nat,
    found: Seq<NodeModel>,
    open: int,
) -> Result<(Seq<NodeModel>, int), SyntaxError>
    decreases text.len() - at, 1nat,
{
    if at < 0 || at >= text.len() {
        if depth == 0 {
            Ok((found, at))
        } else {
            Err(SyntaxError { kind: SyntaxErrorKind::UnterminatedGroup, position: open as usize })
        }
    } else if text[at] == ')' {
        if depth == 0 {
            Err(
                SyntaxError {
                    kind: SyntaxErrorKind::UnmatchedParenthesis,
                    position: at as usize,
                },
            )
        } else {
            Ok((found, at + 1))
        }
    } else if starts_quantifier(text[at]) {
        Err(
            SyntaxError {
                kind: if found.len() == 0 {
                    SyntaxErrorKind::NothingToRepeat
                } else {
                    SyntaxErrorKind::DuplicateQuantifier
                },
                position: at as usize,
            },
        )
    } else {
        match atom_at(text, at, depth) {
            Ok((symbol, after)) => match quantifier_at(text, after) {
                Ok((quantifier, next)) => {
                    // An atom takes at least one character of the text, so the
                    // test holds on every text; it is there to make the
                    // recursion end.
                    if at < next <= text.len() {
                        items_at(text, next, depth, found.push(NodeModel { symbol, quantifier }), open)
                    } else {
                        Ok((found, at))
                    }
                },
                Err(e) => Err(e),
            },
            Err(e) => Err(e),
        }
    }
}

/// The pattern that `text` spells, or what is wrong with it.
pub open spec fn pattern_of(text: Seq<char>) -> Result<Seq<NodeModel>, SyntaxError> {
    match items_at(text, 0, 0, Seq::empty(), 0) {
        Ok((nodes, _)) => Ok(nodes),
        Err(e) => Err(e),
    }
}

/// Whether every node of `nodes` is well formed.
pub open spec fn pattern_wf(nodes: Seq<NodeModel>) -> bool {
    forall|i: int| 0 <= i < nodes.len() ==> (#[trigger] nodes[i]).wf()
}

/// An atom that parses is well formed and takes at least one character of the
/// text.
pub proof fn lemma_atom_at(text: Seq<char>, at: int, depth: nat)
    requires
        0 <= at < text.len(),
    ensures
        atom_at(text, at, depth) matches Ok((symbol, next)) ==> symbol.wf() && at < next
            <= text.len(),
    decreases text.len() - at, 0nat,
{
    if text[at] == '[' {
        lemma_class_at(text, at + 1);
    } else if text[at] == '(' {
        if depth < MAX_DEPTH {
            lemma_items_at(text, at + 1, depth + 1, Seq::empty(), at + 1);
        }
    }
}

/// Items that parse add well-formed nodes and end within the text; inside a
/// group they take at least the closing parenthesis.
pub proof fn lemma_items_at(
    text: Seq<char>,
    at: int,
    depth: nat,
    found: Seq<NodeModel>,
    open: int,
)
    requires
        0 <= at,
        pattern_wf(found),
    ensures
        items_at(text, at, depth, found, open) matches Ok((nodes, next)) ==> pattern_wf(nodes)
            && at <= next && (at <= text.len() ==> next <= text.len()) && (depth > 0 ==> at
            < next),
    decreases text.len() - at, 1nat,
{
    if at >= text.len() || text[at] == ')' || starts_quantifier(text[at]) {
    } else {
        lemma_atom_at(text, at, depth);
        match atom_at(text, at, depth) {
            Ok((symbol, after)) => {
                lemma_quantifier_at(text, after);
                match quantifier_at(text, after) {
                    Ok((quantifier, next)) => {
                        let node = NodeModel { symbol, quantifier };
                        assert(node.wf());
                        assert(pattern_wf(found.push(node))) by {
                            assert forall|i: int| 0 <= i < found.len() + 1 implies (
                            #[trigger] found.push(node)[i]).wf() by {
                                if i < found.len() {
                                    assert(found.push(node)[i] == found[i]);
                                }
                            }
                        }
                        lemma_items_at(text, next, depth, found.push(node), open);
                    },
                    Err(_) => {},
                }
            },
            Err(_) => {},
        }
    }
}

/// A quantifier that parses has ordered bounds and ends within the text, at or
/// after its start.
pub proof fn lemma_quantifier_at(text: Seq<char>, at: int)
    requires
        0 <= at <= text.len(),
    ensures
        quantifier_at(text, at) matches Ok((model, next)) ==> model.wf() && at <= next
            <= text.len(),
{
    if at < text.len() && text[at] == '{' {
        lemma_repetitions_at(text, at + 1);
    }
}

/// Every pattern that parses is well formed: no class lists a character
/// twice, and no quantifier has its maximum below its minimum.
pub proof fn lemma_parsed_pattern_wf(text: Seq<char>)
    ensures
        pattern_of(text) matches Ok(nodes) ==> pattern_wf(nodes),
{
    lemma_items_at(text, 0, 0, Seq::empty(), 0);
}

/// Parses the quantifier at `*pos`, if one stands there, and moves `*pos` past
/// it.
fn parse_quantifier(chars: &[char], pos: &mut usize) -> (r: Result<Quantifier, SyntaxError>)
    ensures
        match quantifier_at(chars@, *old(pos) as int) {
            Ok((model, next)) => r matches Ok(q) && q@ == model && *final(pos) == next,
            Err(e) => r == Err::<Quantifier, SyntaxError>(e) && *final(pos) == *old(pos),
        },
        *final(pos) >= *old(pos),
{
    let at: usize = *pos;
    if at >= chars.len() {
        return Ok(Quantifier::once());
    }
    let c = chars[at];
    if c == '+' {
        *pos = at + 1;
        Ok(Quantifier::at_least(1))
    } else if c == '*' {
        *pos = at + 1;
        Ok(Quantifier::at_least(0))
    } else if c == '?' {
        *pos = at + 1;
        Ok(Quantifier::optional())
    } else if c == '{' {
        let mut inner: usize = at + 1;
        match parse_repetitions(chars, &mut inner) {
            Ok(q) => {
                *pos = inner;
                Ok(q)
            },
            Err(e) => Err(e),
        }
    } else {
        Ok(Quantifier::once())
    }
}

/// Parses the atom at `*pos`, inside `depth` open groups, and moves `*pos`
/// past it. On a fault `*pos` stays.
fn parse_atom(chars: &[char], pos: &mut usize, depth: u32) -> (r: Result<
    RegexSymbol,
    SyntaxError,
>)
    requires
        *old(pos) < chars.len(),
        depth <= MAX_DEPTH,
    ensures
        match atom_at(chars@, *old(pos) as int, depth as nat) {
            Ok((model, next)) => r matches Ok(symbol) && symbol@ == model && *final(pos) == next,
            Err(e) => r == Err::<RegexSymbol, SyntaxError>(e) && *final(pos) == *old(pos),
        },
        r is Ok ==> *old(pos) < *final(pos) <= chars.len(),
    decreases chars.len() - *old(pos), 0nat,
{
    let at: usize = *pos;
    let c = chars[at];
    if c == '\\' {
        if at + 1 < chars.len() {
            *pos = at + 2;
            proof {
                lemma_char_in_domain(chars@[at + 1]);
            }
            Ok(RegexSymbol::Literal(chars[at + 1]))
        } else {
            Err(SyntaxError { kind: SyntaxErrorKind::DanglingEscape, position: at })
        }
    } else if c == '[' {
        let mut inner: usize = at + 1;
        match parse_list(chars, &mut inner) {
            Ok(node) => {
                assert(node@.symbol == node.symbol@);
                *pos = inner;
                Ok(node.symbol)
            },
            Err(e) => Err(e),
        }
    } else if c == '(' {
        if depth >= MAX_DEPTH {
            return Err(SyntaxError { kind: SyntaxErrorKind::NestingTooDeep, position: at });
        }
        let mut inner: usize = at + 1;
        match parse_items(chars, &mut inner, depth + 1, at + 1) {
            Ok(nodes) => {
                assert(RegexSymbol::Group(nodes)@ == SymbolModel::Group(pattern_view(nodes@)));
                *pos = inner;
                Ok(RegexSymbol::Group(nodes))
            },
            Err(e) => Err(e),
        }
    } else if c == '.' {
        *pos = at + 1;
        Ok(RegexSymbol::Any)
    } else {
        *pos = at + 1;
        proof {
            lemma_char_in_domain(c);
        }
        Ok(RegexSymbol::Literal(c))
    }
}

/// Parses the items from `*pos` on and moves `*pos` past them: to the end of
/// the text outside any group, past the closing `)` inside one. On a fault
/// `*pos` stays.
fn parse_items(chars: &[char], pos: &mut usize, depth: u32, open: usize) -> (r: Result<
    Vec<Regex>,
    SyntaxError,
>)
    requires
        *old(pos) <= chars.len(),
        depth <= MAX_DEPTH,
    ensures
        match items_at(chars@, *old(pos) as int, depth as nat, Seq::empty(), open as int) {
            Ok((models, next)) => r matches Ok(nodes) && pattern_view(nodes@) == models
                && *final(pos) == next,
            Err(e) => r == Err::<Vec<Regex>, SyntaxError>(e) && *final(pos) == *old(pos),
        },
        r is Ok ==> *old(pos) <= *final(pos) <= chars.len(),
        r is Ok && depth > 0 ==> *old(pos) < *final(pos),
    decreases chars.len() - *old(pos), 1nat,
{
    let mut nodes: Vec<Regex> = Vec::new();
    let mut at: usize = *pos;
    let ghost goal = items_at(chars@, at as int, depth as nat, Seq::empty(), open as int);
    loop
        invariant
            *old(pos) <= at <= chars.len(),
            *pos == *old(pos),
            depth <= MAX_DEPTH,
            goal == items_at(chars@, *old(pos) as int, depth as nat, Seq::empty(), open as int),
            goal == items_at(chars@, at as int, depth as nat, pattern_view(nodes@), open as int),
        decreases chars.len() + 1 - at,
    {
        if at >= chars.len() {
            if depth == 0 {
                *pos = at;
                return Ok(nodes);
            }
            return Err(SyntaxError { kind: SyntaxErrorKind::UnterminatedGroup, position: open });
        }
        let c = chars[at];
        if c == ')' {
            if depth == 0 {
                return Err(
                    SyntaxError { kind: SyntaxErrorKind::UnmatchedParenthesis, position: at },
                );
            }
            *pos = at + 1;
            return Ok(nodes);
        }
        if c == '+' || c == '*' || c == '?' || c == '{' {
            proof {
                crate::regex::lemma_pattern_view(nodes@);
            }
            let kind = if nodes.len() == 0 {
                SyntaxErrorKind::NothingToRepeat
            } else {
                SyntaxErrorKind::DuplicateQuantifier
            };
            return Err(SyntaxError { kind, position: at });
        }
        let mut cursor: usize = at;
        let symbol = match parse_atom(chars, &mut cursor, depth) {
            Ok(symbol) => symbol,
            Err(e) => {
                return Err(e);
            },
        };
        let quantifier = match parse_quantifier(chars, &mut cursor) {
            Ok(quantifier) => quantifier,
            Err(e) => {
                return Err(e);
            },
        };
        let node = Regex { symbol, quantifier };
        proof {
            assert(node@ == (NodeModel { symbol: symbol@, quantifier: quantifier@ }));
            lemma_pattern_view_push(nodes@, node);
        }
        nodes.push(node);
        at = cursor;
    }
}

/// Parses the body of a group from `*pos`, right after its `(`, into a node
/// that repeats once, and moves `*pos` past the closing `)`. On a fault `*pos`
/// stays.
pub fn parse_group(chars: &[char], pos: &mut usize) -> (r: Result<Regex, SyntaxError>)
    ensures
        match items_at(chars@, *old(pos) as int, 1, Seq::empty(), *old(pos) as int) {
            Ok((models, next)) => r matches Ok(node) && node@ == (NodeModel {
                symbol: SymbolModel::Group(models),
                quantifier: QuantifierModel::once(),
            }) && *final(pos) == next,
            Err(e) => r == Err::<Regex, SyntaxError>(e) && *final(pos) == *old(pos),
        },
{
    let open: usize = *pos;
    if open > chars.len() {
        return Err(SyntaxError { kind: SyntaxErrorKind::UnterminatedGroup, position: open });
    }
    match parse_items(chars, pos, 1, open) {
        Ok(nodes) => Ok(Regex::new(RegexSymbol::Group(nodes))),
        Err(e) => Err(e),
    }
}

/// The characters of `text`, in order.
fn characters(text: &str) -> (chars: Vec<char>)
    ensures
        chars@ == text@,
{
    let mut chars: Vec<char> = Vec::new();
    for c in walk: text.chars()
        invariant
            chars@ == walk.seq().take(walk.index() as int),
            walk.seq() == text@,
    {
        chars.push(c);
    }
    chars
}

/// Whether `r` is the result of parsing `text`: the tree that the text spells,
/// or the fault that it holds.
pub open spec fn parses_to(text: Seq<char>, r: Result<Vec<Regex>, SyntaxError>) -> bool {
    match pattern_of(text) {
        Ok(models) => r matches Ok(nodes) && pattern_view(nodes@) == models,
        Err(e) => r == Err::<Vec<Regex>, SyntaxError>(e),
    }
}

/// Parsing is determined by the text: two results of parsing one text are
/// trees with the same model, or the same fault.
pub proof fn lemma_parse_deterministic(
    text: Seq<char>,
    first: Result<Vec<Regex>, SyntaxError>,
    second: Result<Vec<Regex>, SyntaxError>,
)
    requires
        parses_to(text, first),
        parses_to(text, second),
    ensures
        first is Ok <==> second is Ok,
        first matches Ok(a) ==> second matches Ok(b) && pattern_view(a@) == pattern_view(b@),
        first matches Err(e) ==> second == Err::<Vec<Regex>, SyntaxError>(e),
{
}

/// Parses a pattern: the tree that `pattern` spells, or what is wrong with it
/// and where.
pub fn parse_regex(pattern: &str) -> (r: Result<Vec<Regex>, SyntaxError>)
    ensures
        parses_to(pattern@, r),
{
    let chars = characters(pattern);
    let mut pos: usize = 0;
    parse_items(chars.as_slice(), &mut pos, 0, 0)
}

} // verus!
