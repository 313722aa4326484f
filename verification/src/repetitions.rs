//! Brace quantifiers: `{n}`, `{n,}` and `{n,m}`.
//!
//! `n` and `m` are runs of decimal digits, at least one digit each, with a value
//! that fits `u32`, and `n <= m`. Nothing else may stand between the braces.

use vstd::prelude::*;
use crate::error::{SyntaxError, SyntaxErrorKind};
use crate::quantifier::{Quantifier, QuantifierModel};

verus! {

/// Whether `c` is a decimal digit.
pub open spec fn is_digit(c: char) -> bool {
    '0' <= c <= '9'
}

/// The number that the digit `c` stands for.
pub open spec fn digit_value(c: char) -> nat {
    (c as int - '0' as int) as nat
}

/// Where the run of digits that starts at `from` ends.
pub open spec fn digits_end(text: Seq<char>, from: int) -> int
    decreases text.len() - from,
{
    if 0 <= from < text.len() && is_digit(text[from]) {
        digits_end(text, from + 1)
    } else {
        from
    }
}

/// The number that the digits at `from..to` spell.
pub open spec fn digits_value(text: Seq<char>, from: int, to: int) -> nat
    decreases to - from,
{
    if to <= from {
        0
    } else {
        digits_value(text, from, to - 1) * 10 + digit_value(text[to - 1])
    }
}

/// What the brace quantifier whose content starts at `at` (right after the
/// `{`) stands for, and the position after its `}`. Every fault is reported at
/// `at`.
pub open spec fn repetitions_at(text: Seq<char>, at: int) -> Result<
    (QuantifierModel, int),
    SyntaxError,
> {
    let fault = Err(
        SyntaxError { kind: SyntaxErrorKind::MalformedRepetition, position: at as usize },
    );
    let stop = digits_end(text, at);
    let min = digits_value(text, at, stop);
    if stop == at || min > u32::MAX || stop >= text.len() {
        fault
    } else if text[stop] == '}' {
        Ok((QuantifierModel { min, max: Some(min) }, stop + 1))
    } else if text[stop] != ',' {
        fault
    } else {
        let close = digits_end(text, stop + 1);
        let max = digits_value(text, stop + 1, close);
        if close >= text.len() || text[close] != '}' {
            fault
        } else if close == stop + 1 {
            Ok((QuantifierModel { min, max: None }, close + 1))
        } else if max > u32::MAX || max < min {
            fault
        } else {
            Ok((QuantifierModel { min, max: Some(max) }, close + 1))
        }
    }
}

/// A run of digits ends within the text, at or after its start.
pub proof fn lemma_digits_end_bounds(text: Seq<char>, from: int)
    requires
        0 <= from <= text.len(),
    ensures
        from <= digits_end(text, from) <= text.len(),
    decreases text.len() - from,
{
    if from < text.len() && is_digit(text[from]) {
        lemma_digits_end_bounds(text, from + 1);
    }
}

/// A brace quantifier that parses has ordered bounds and ends within the text,
/// after its start.
pub proof fn lemma_repetitions_at(text: Seq<char>, at: int)
    requires
        0 <= at <= text.len(),
    ensures
        repetitions_at(text, at) matches Ok((model, next)) ==> model.wf() && at < next
            <= text.len(),
{
    lemma_digits_end_bounds(text, at);
    let stop = digits_end(text, at);
    if stop < text.len() {
        lemma_digits_end_bounds(text, stop + 1);
    }
}

/// A run of digits ends at the first position that holds none.
proof fn lemma_digits_end(text: Seq<char>, from: int, to: int)
    requires
        0 <= from <= to <= text.len(),
        forall|k: int| from <= k < to ==> is_digit(#[trigger] text[k]),
        to < text.len() ==> !is_digit(text[to]),
    ensures
        digits_end(text, from) == to,
    decreases to - from,
{
    if from < to {
        lemma_digits_end(text, from + 1, to);
    }
}

/// Reads the run of digits at `from`: where it ends, and its value where that
/// fits `u32`.
fn scan_number(chars: &[char], from: usize) -> (r: (usize, Option<u32>))
    ensures
        r.0 == digits_end(chars@, from as int),
        from <= chars.len() ==> from <= r.0 <= chars.len(),
        r.1 is Some <==> digits_value(chars@, from as int, r.0 as int) <= u32::MAX,
        r.1 matches Some(v) ==> v == digits_value(chars@, from as int, r.0 as int),
{
    if from >= chars.len() {
        return (from, Some(0));
    }
    let mut at: usize = from;
    let mut value: u64 = 0;
    let mut fits: bool = true;
    while at < chars.len() && '0' <= chars[at] && chars[at] <= '9'
        invariant
            from <= at <= chars.len(),
            forall|k: int| from <= k < at ==> is_digit(#[trigger] chars@[k]),
            fits ==> value == digits_value(chars@, from as int, at as int) && value <= u32::MAX,
            !fits ==> digits_value(chars@, from as int, at as int) > u32::MAX,
        decreases chars.len() - at,
    {
        let digit: u64 = (chars[at] as u32 - '0' as u32) as u64;
        if fits {
            value = value * 10 + digit;
            if value > u32::MAX as u64 {
                fits = false;
            }
        }
        at = at + 1;
    }
    proof {
        lemma_digits_end(chars@, from as int, at as int);
    }
    if fits {
        (at, Some(value as u32))
    } else {
        (at, None)
    }
}

/// Parses the brace quantifier whose content starts at `*pos`, right after
/// the `{`, and moves `*pos` past its `}`. On a fault `*pos` stays.
pub fn parse_repetitions(chars: &[char], pos: &mut usize) -> (r: Result<Quantifier, SyntaxError>)
    ensures
        match repetitions_at(chars@, *old(pos) as int) {
            Ok((model, next)) => r matches Ok(q) && q@ == model && *final(pos) == next,
            Err(e) => r == Err::<Quantifier, SyntaxError>(e) && *final(pos) == *old(pos),
        },
        r is Ok ==> *old(pos) < *final(pos) <= chars.len(),
{
    let start: usize = *pos;
    let fault = SyntaxError { kind: SyntaxErrorKind::MalformedRepetition, position: start };
    let (stop, low) = scan_number(chars, start);
    let min: u32 = match low {
        Some(v) => v,
        None => {
            return Err(fault);
        },
    };
    if stop == start || stop >= chars.len() {
        return Err(fault);
    }
    if chars[stop] == '}' {
        *pos = stop + 1;
        return Ok(Quantifier::exactly(min));
    }
    if chars[stop] != ',' {
        return Err(fault);
    }
    let (close, high) = scan_number(chars, stop + 1);
    if close >= chars.len() || chars[close] != '}' {
        return Err(fault);
    }
    if close == stop + 1 {
        *pos = close + 1;
        return Ok(Quantifier::at_least(min));
    }
    let max: u32 = match high {
        Some(v) => v,
        None => {
            return Err(fault);
        },
    };
    match Quantifier::new(min, Some(max)) {
        Some(q) => {
            *pos = close + 1;
            Ok(q)
        },
        None => Err(fault),
    }
}

} // verus!
