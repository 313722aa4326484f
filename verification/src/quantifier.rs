//! Repetition bounds of a node.

use vstd::prelude::*;

verus! {

/// How far above `min` an unbounded quantifier may repeat: `+`, `*` and `{n,}`
/// repeat between `min` and `min + UNBOUNDED_SPAN` times.
pub const UNBOUNDED_SPAN: u64 = 4;

/// What a `Quantifier` stands for: at least `min` repetitions, and at most `max`
/// where a maximum is given.
pub ghost struct QuantifierModel {
    pub min: nat,
    pub max: Option<nat>,
}

impl QuantifierModel {
    /// The bounds are ordered.
    pub open spec fn wf(self) -> bool {
        self.max matches Some(m) ==> self.min <= m
    }

    /// Smallest repeat count that generation may choose.
    pub open spec fn low(self) -> nat {
        self.min
    }

    /// Largest repeat count that generation may choose.
    pub open spec fn high(self) -> nat {
        match self.max {
            Some(m) => m,
            None => self.min + UNBOUNDED_SPAN as nat,
        }
    }

    /// Whether generation may repeat the node `n` times.
    pub open spec fn admits(self, n: nat) -> bool {
        self.low() <= n <= self.high()
    }

    /// Whether the repeat count is the same on every call.
    pub open spec fn fixed(self) -> bool {
        self.max == Some(self.min)
    }

    /// Exactly once: what a node has when the pattern gives it no quantifier.
    pub open spec fn once() -> QuantifierModel {
        QuantifierModel { min: 1, max: Some(1) }
    }
}

/// Repetition bounds `{min, max}`; `max` absent means unbounded. Where `max` is
/// present, `min <= max`.
#[derive(Clone, Copy, Debug, PartialEq, Eq)]
pub struct Quantifier {
    min: u32,
    max: Option<u32>,
}

impl View for Quantifier {
    type V = QuantifierModel;

    closed spec fn view(&self) -> QuantifierModel {
        QuantifierModel {
            min: self.min as nat,
            max: match self.max {
                Some(m) => Some(m as nat),
                None => None,
            },
        }
    }
}

impl Quantifier {
    #[verifier::type_invariant]
    spec fn ordered(&self) -> bool {
        self.max matches Some(m) ==> self.min <= m
    }

    /// The quantifier `{min, max}`, or `None` where `max` is below `min`.
    pub fn new(min: u32, max: Option<u32>) -> (r: Option<Quantifier>)
        ensures
            r is None <==> (max matches Some(m) && m < min),
            r matches Some(q) ==> q@ == (QuantifierModel {
                min: min as nat,
                max: match max {
                    Some(m) => Some(m as nat),
                    None => None,
                },
            }),
    {
        match max {
            Some(m) => {
                if m < min {
                    None
                } else {
                    Some(Quantifier { min, max })
                }
            },
            None => Some(Quantifier { min, max }),
        }
    }

    /// Exactly `n` times: `{n}`.
    pub fn exactly(n: u32) -> (q: Quantifier)
        ensures
            q@ == (QuantifierModel { min: n as nat, max: Some(n as nat) }),
    {
        Quantifier { min: n, max: Some(n) }
    }

    /// `n` times or more: `{n,}`; `*` is `at_least(0)` and `+` is `at_least(1)`.
    pub fn at_least(n: u32) -> (q: Quantifier)
        ensures
            q@ == (QuantifierModel { min: n as nat, max: None }),
    {
        Quantifier { min: n, max: None }
    }

    /// Not at all or once: `?`.
    pub fn optional() -> (q: Quantifier)
        ensures
            q@ == (QuantifierModel { min: 0, max: Some(1) }),
    {
        Quantifier { min: 0, max: Some(1) }
    }

    /// Exactly once: the quantifier of a node that the pattern gives none.
    pub fn once() -> (q: Quantifier)
        ensures
            q@ == QuantifierModel::once(),
    {
        Quantifier { min: 1, max: Some(1) }
    }

    /// The lower bound.
    pub fn min(&self) -> (m: u32)
        ensures
            m == self@.min,
    {
        self.min
    }

    /// The upper bound, if there is one.
    pub fn max(&self) -> (m: Option<u32>)
        ensures
            self@.wf(),
            m is Some == self@.max is Some,
            m matches Some(v) ==> self@.max == Some(v as nat),
    {
        proof {
            use_type_invariant(self);
        }
        self.max
    }

    /// The inclusive range of repeat counts that generation chooses from: `min`
    /// alone where `min == max`, `min..=max` for a bounded quantifier, and
    /// `min..=min + UNBOUNDED_SPAN` for an unbounded one.
    pub fn window(&self) -> (w: (u64, u64))
        ensures
            self@.wf(),
            w.0 == self@.low(),
            w.1 == self@.high(),
            w.0 <= w.1,
    {
        proof {
            use_type_invariant(self);
        }
        let low: u64 = self.min as u64;
        match self.max {
            Some(m) => (low, m as u64),
            None => (low, low + UNBOUNDED_SPAN),
        }
    }
}

} // verus!
