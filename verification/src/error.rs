//! The two ways in which the library refuses an input.

use vstd::prelude::*;
use vstd::string::StringExecFns;

verus! {

/// What is wrong with a pattern.
#[derive(Clone, Copy, Debug, PartialEq, Eq)]
pub enum SyntaxErrorKind {
    /// A `)` closes a group that was never opened.
    UnmatchedParenthesis,
    /// The pattern ends inside a group.
    UnterminatedGroup,
    /// The pattern ends inside a bracket class.
    UnterminatedClass,
    /// The pattern ends right after a backslash.
    DanglingEscape,
    /// A quantifier stands where no node precedes it.
    NothingToRepeat,
    /// A quantifier follows a node that already has one.
    DuplicateQuantifier,
    /// The text between `{` and `}` is not `n`, `n,` or `n,m` with `n <= m`,
    /// both within `u32`.
    MalformedRepetition,
    /// A range in a bracket class ends before it starts.
    InvalidRange,
    /// Groups are nested deeper than the parser accepts.
    NestingTooDeep,
}

/// A malformed pattern: what is wrong, and the character position at which it
/// was found.
#[derive(Clone, Copy, Debug, PartialEq, Eq)]
pub struct SyntaxError {
    pub kind: SyntaxErrorKind,
    pub position: usize,
}

/// A pattern from which no string can be produced: a draw reached a class that
/// admits no character at all.
#[derive(Clone, Copy, Debug, PartialEq, Eq)]
pub enum GenerationError {
    /// The class excludes every character (or lists none to choose from).
    ExhaustedClass,
}

impl SyntaxErrorKind {
    /// The text that `describe` returns for each kind.
    pub open spec fn description(self) -> Seq<char> {
        match self {
            SyntaxErrorKind::UnmatchedParenthesis => "unmatched ')'"@,
            SyntaxErrorKind::UnterminatedGroup => "group is never closed"@,
            SyntaxErrorKind::UnterminatedClass => "bracket class is never closed"@,
            SyntaxErrorKind::DanglingEscape => "backslash at the end of the pattern"@,
            SyntaxErrorKind::NothingToRepeat => "quantifier with nothing to repeat"@,
            SyntaxErrorKind::DuplicateQuantifier => "second quantifier on one node"@,
            SyntaxErrorKind::MalformedRepetition => "malformed repetition bounds"@,
            SyntaxErrorKind::InvalidRange => "invalid range"@,
            SyntaxErrorKind::NestingTooDeep => "groups nested too deeply"@,
        }
    }

    /// A short description of the fault.
    pub fn describe(&self) -> (text: &'static str)
        ensures
            text@ == self.description(),
    {
        match self {
            SyntaxErrorKind::UnmatchedParenthesis => "unmatched ')'",
            SyntaxErrorKind::UnterminatedGroup => "group is never closed",
            SyntaxErrorKind::UnterminatedClass => "bracket class is never closed",
            SyntaxErrorKind::DanglingEscape => "backslash at the end of the pattern",
            SyntaxErrorKind::NothingToRepeat => "quantifier with nothing to repeat",
            SyntaxErrorKind::DuplicateQuantifier => "second quantifier on one node",
            SyntaxErrorKind::MalformedRepetition => "malformed repetition bounds",
            SyntaxErrorKind::InvalidRange => "invalid range",
            SyntaxErrorKind::NestingTooDeep => "groups nested too deeply",
        }
    }
}

/// The character that stands for the digit `d`.
pub open spec fn digit_char(d: nat) -> char {
    ('0' as nat + d) as char
}

/// `n` written in decimal digits, without leading zeros.
pub open spec fn decimal(n: nat) -> Seq<char>
    decreases n,
{
    if n < 10 {
        seq![digit_char(n)]
    } else {
        decimal(n / 10).push(digit_char(n % 10))
    }
}

/// Appends `n` in decimal digits to `out`.
fn push_decimal(out: &mut String, n: usize)
    ensures
        final(out)@ == old(out)@ + decimal(n as nat),
    decreases n,
{
    if n >= 10 {
        push_decimal(out, n / 10);
    }
    let digit: u8 = (n % 10) as u8;
    out.push((48u8 + digit) as char);
    proof {
        if n >= 10 {
            assert(old(out)@ + decimal(n as nat) == (old(out)@ + decimal((n / 10) as nat)).push(
                digit_char((n % 10) as nat),
            ));
        } else {
            assert(old(out)@ + decimal(n as nat) == old(out)@.push(digit_char(n as nat)));
        }
    }
}

impl SyntaxError {
    /// The text that `message` returns: the description of the fault and the
    /// position at which it was found.
    pub open spec fn text(self) -> Seq<char> {
        self.kind.description() + " at character "@ + decimal(self.position as nat)
    }

    /// What is wrong and where, as text.
    pub fn message(&self) -> (text: String)
        ensures
            text@ == self.text(),
    {
        let mut text = self.kind.describe().to_owned();
        text.append(" at character ");
        push_decimal(&mut text, self.position);
        text
    }
}

impl GenerationError {
    /// The text that `message` returns.
    pub open spec fn description(self) -> Seq<char> {
        "a class admits no character"@
    }

    /// A short description of the fault.
    pub fn message(&self) -> (text: String)
        ensures
            text@ == self.description(),
    {
        "a class admits no character".to_owned()
    }
}

} // verus!
