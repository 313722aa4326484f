//! Bracket classes as they are written: `[abc]`, `[a-z0-9]`, `[^x]`.
//!
//! After the `[`, a `^` negates the class and a `]` is a member; from there on
//! the body runs to the first `]` that no backslash escapes. A backslash makes
//! the next character a member as it stands. A `-` between a member and a
//! character other than the closing `]` adds the scalar values from the one to
//! the other; anywhere else it is a member. Members are kept in the order in
//! which they first occur.

use vstd::prelude::*;
use crate::error::{SyntaxError, SyntaxErrorKind};
use crate::list::{
    append_range, append_unique, lemma_append_range_wf, lemma_append_unique_wf, List, ListModel,
};
use crate::quantifier::QuantifierModel;
use crate::regex::{NodeModel, Regex, RegexSymbol, SymbolModel};
use crate::scalar::{all_in_domain, lemma_char_in_domain, lemma_ordinal_bijection, ordinal};

verus! {

/// The member written at `at`, and where the text goes on: the character
/// itself, or the one that a backslash escapes. `None` where a backslash ends
/// the text.
pub open spec fn class_char(text: Seq<char>, at: int) -> Option<(char, int)> {
    if text[at] != '\\' {
        Some((text[at], at + 1))
    } else if at + 1 < text.len() {
        Some((text[at + 1], at + 2))
    } else {
        None
    }
}

/// The membership of the class body from `at` on, added to `members`, and the
/// position after the closing `]`. `prev` is the member read last, from which a
/// range may start; `open` is where the body began, and where a class that
/// never closes is reported. An inverted range is reported at its `-`.
pub open spec fn class_body(
    text: Seq<char>,
    at: int,
    members: Seq<char>,
    prev: Option<char>,
    open: int,
) -> Result<(Seq<char>, int), SyntaxError>
    decreases text.len() - at,
{
    let unterminated = Err(
        SyntaxError { kind: SyntaxErrorKind::UnterminatedClass, position: open as usize },
    );
    if at < 0 || at >= text.len() {
        unterminated
    } else if text[at] == ']' {
        Ok((members, at + 1))
    } else if text[at] == '-' && prev is Some && at + 1 < text.len() && text[at + 1] != ']' {
        match class_char(text, at + 1) {
            Some((last, next)) => {
                if ordinal(last) < ordinal(prev->0) {
                    Err(
                        SyntaxError {
                            kind: SyntaxErrorKind::InvalidRange,
                            position: at as usize,
                        },
                    )
                } else {
                    class_body(
                        text,
                        next,
                        append_range(members, ordinal(prev->0), ordinal(last)),
                        Some(last),
                        open,
                    )
                }
            },
            None => unterminated,
        }
    } else {
        match class_char(text, at) {
            Some((c, next)) => class_body(text, next, append_unique(members, c), Some(c), open),
            None => unterminated,
        }
    }
}

/// `body` as the result of a class with the given negation.
pub open spec fn class_result(
    body: Result<(Seq<char>, int), SyntaxError>,
    complement: bool,
) -> Result<(ListModel, int), SyntaxError> {
    match body {
        Ok((members, next)) => Ok((ListModel { members, complement }, next)),
        Err(e) => Err(e),
    }
}

/// The class whose body starts at `at` (right after the `[`), and the
/// position after its `]`.
pub open spec fn class_at(text: Seq<char>, at: int) -> Result<(ListModel, int), SyntaxError> {
    let negated = 0 <= at < text.len() && text[at] == '^';
    let body = if negated {
        class_body(text, at + 1, Seq::empty(), None, at)
    } else if 0 <= at < text.len() && text[at] == ']' {
        class_body(text, at + 1, seq![']'], Some(']'), at)
    } else {
        class_body(text, at, Seq::empty(), None, at)
    };
    class_result(body, negated)
}

/// A class body that parses adds to a well-formed membership a well-formed
/// membership, and ends within the text, after its start.
pub proof fn lemma_class_body(
    text: Seq<char>,
    at: int,
    members: Seq<char>,
    prev: Option<char>,
    open: int,
)
    requires
        0 <= at,
        members.no_duplicates(),
        all_in_domain(members),
    ensures
        class_body(text, at, members, prev, open) matches Ok((all, next)) ==> all.no_duplicates()
            && all_in_domain(all) && at < next <= text.len(),
    decreases text.len() - at,
{
    lemma_ordinal_bijection();
    if at >= text.len() || text[at] == ']' {
    } else if text[at] == '-' && prev is Some && at + 1 < text.len() && text[at + 1] != ']' {
        match class_char(text, at + 1) {
            Some((last, next)) => {
                lemma_char_in_domain(last);
                lemma_char_in_domain(prev->0);
                if ordinal(last) >= ordinal(prev->0) {
                    lemma_append_range_wf(members, ordinal(prev->0), ordinal(last));
                    lemma_class_body(
                        text,
                        next,
                        append_range(members, ordinal(prev->0), ordinal(last)),
                        Some(last),
                        open,
                    );
                }
            },
            None => {},
        }
    } else {
        match class_char(text, at) {
            Some((c, next)) => {
                lemma_char_in_domain(c);
                lemma_append_unique_wf(members, c);
                lemma_class_body(text, next, append_unique(members, c), Some(c), open);
            },
            None => {},
        }
    }
}

/// A class that parses is well formed and ends within the text, after its
/// start.
pub proof fn lemma_class_at(text: Seq<char>, at: int)
    requires
        0 <= at,
    ensures
        class_at(text, at) matches Ok((list, next)) ==> list.wf() && at < next <= text.len(),
{
    let none = Seq::<char>::empty();
    if at < text.len() && text[at] == '^' {
        lemma_class_body(text, at + 1, none, None, at);
    } else if at < text.len() && text[at] == ']' {
        lemma_char_in_domain(']');
        lemma_append_unique_wf(none, ']');
        assert(append_unique(none, ']') == seq![']']);
        lemma_class_body(text, at + 1, seq![']'], Some(']'), at);
    } else {
        lemma_class_body(text, at, none, None, at);
    }
}

/// Parses the bracket class whose body starts at `*pos`, right after the `[`,
/// into a node that repeats once, and moves `*pos` past the closing `]`. On a
/// fault `*pos` stays.
pub fn parse_list(chars: &[char], pos: &mut usize) -> (r: Result<Regex, SyntaxError>)
    ensures
        match class_at(chars@, *old(pos) as int) {
            Ok((model, next)) => r matches Ok(node) && node@ == (NodeModel {
                symbol: SymbolModel::List(model),
                quantifier: QuantifierModel::once(),
            }) && *final(pos) == next,
            Err(e) => r == Err::<Regex, SyntaxError>(e) && *final(pos) == *old(pos),
        },
        r is Ok ==> *old(pos) < *final(pos) <= chars.len(),
{
    let open: usize = *pos;
    let unterminated = SyntaxError { kind: SyntaxErrorKind::UnterminatedClass, position: open };
    let length = chars.len();
    let mut at: usize = open;
    let mut list: List;
    let mut prev: Option<char> = None;
    if at < length && chars[at] == '^' {
        list = List::new(true);
        at = at + 1;
    } else if at < length && chars[at] == ']' {
        list = List::new(false).with(']');
        prev = Some(']');
        at = at + 1;
    } else {
        list = List::new(false);
    }
    let ghost goal = class_at(chars@, open as int);
    loop
        invariant
            open <= at,
            length == chars.len(),
            *pos == open,
            open == *old(pos),
            unterminated == (SyntaxError {
                kind: SyntaxErrorKind::UnterminatedClass,
                position: open,
            }),
            goal == class_at(chars@, open as int),
            goal == class_result(
                class_body(chars@, at as int, list@.members, prev, open as int),
                list@.complement,
            ),
        decreases length + 1 - at,
    {
        if at >= length {
            return Err(unterminated);
        }
        let c = chars[at];
        if c == ']' {
            *pos = at + 1;
            return Ok(Regex::new(RegexSymbol::List(list)));
        }
        if c == '-' && prev.is_some() && at + 1 < length && chars[at + 1] != ']' {
            let first: char = prev.unwrap();
            let last: char;
            let next: usize;
            if chars[at + 1] != '\\' {
                last = chars[at + 1];
                next = at + 2;
            } else if at + 2 < length {
                last = chars[at + 2];
                next = at + 3;
            } else {
                return Err(unterminated);
            }
            proof {
                lemma_ordinal_bijection();
                lemma_char_in_domain(last);
                lemma_char_in_domain(first);
            }
            if last < first {
                return Err(SyntaxError { kind: SyntaxErrorKind::InvalidRange, position: at });
            }
            list = list.with_range(first, last);
            prev = Some(last);
            at = next;
        } else {
            let member: char;
            let next: usize;
            if c != '\\' {
                member = c;
                next = at + 1;
            } else if at + 1 < length {
                member = chars[at + 1];
                next = at + 2;
            } else {
                return Err(unterminated);
            }
            list = list.with(member);
            prev = Some(member);
            at = next;
        }
    }
}

} // verus!
