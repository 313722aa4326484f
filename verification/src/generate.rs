//! Generation by sampling: one string per call, among those that the pattern
//! can yield.

use vstd::prelude::*;
use vstd::string::StringExecFns;
use crate::error::GenerationError;
use crate::language::{
    lemma_node_yields, lemma_pattern_yields, node_may_fail, node_must_fail, node_yields,
    pattern_may_fail, pattern_must_fail, pattern_yields, symbol_yields,
};
use crate::list::{lemma_exhausted, List, ListModel};
use crate::quantifier::Quantifier;
use crate::regex::{lemma_pattern_view, pattern_view, Regex, RegexSymbol};
use crate::sampler::{clamp, clamped, draw_within, Sampler};
use crate::scalar::{
    advance, char_at_ordinal, in_domain, lemma_advance_step, lemma_covers_domain,
    lemma_ordinal_bijection, next_scalar, ordinal, scalar_at, successor, SCALAR_COUNT,
};

verus! {

/// The first character at or after `start`, in the cyclic order of scalar
/// values, that `list` admits; the search gives up after `budget` steps.
pub open spec fn admitted_from(list: ListModel, start: char, budget: nat) -> char
    decreases budget,
{
    if list.admits(start) || budget == 0 {
        start
    } else {
        admitted_from(list, successor(start), (budget - 1) as nat)
    }
}

/// The character that `list` gives for the draw `raw`. A class as it stands
/// takes the draw, brought into range, as a position in its membership. A
/// negated class takes it as the ordinal of a scalar value and moves on from
/// there past what it excludes.
pub open spec fn picked(list: ListModel, raw: u64) -> char {
    if list.complement {
        admitted_from(
            list,
            scalar_at(clamped(raw, 0, (SCALAR_COUNT - 1) as u64) as int),
            SCALAR_COUNT as nat,
        )
    } else {
        list.members[clamped(raw, 0, (list.members.len() - 1) as u64) as int]
    }
}

/// If every one of the `SCALAR_COUNT` characters from `start` on is listed,
/// every scalar value is.
proof fn lemma_full_cycle(members: Seq<char>, start: char)
    requires
        in_domain(start),
        forall|j: nat| j < SCALAR_COUNT ==> members.contains(#[trigger] advance(start, j)),
    ensures
        forall|k: int| 0 <= k < SCALAR_COUNT ==> members.contains(#[trigger] scalar_at(k)),
{
    lemma_ordinal_bijection();
    let origin = ordinal(start);
    assert forall|k: int| 0 <= k < SCALAR_COUNT implies members.contains(
        #[trigger] scalar_at(k),
    ) by {
        let j: nat = if k >= origin {
            (k - origin) as nat
        } else {
            (k - origin + SCALAR_COUNT) as nat
        };
        assert((origin + j) % (SCALAR_COUNT as int) == k);
        assert(members.contains(advance(start, j)));
    }
}

impl List {
    /// Whether the class admits no character at all.
    pub fn is_exhausted(&self) -> (b: bool)
        ensures
            self@.wf(),
            b == self@.exhausted(),
    {
        let held = self.len();
        proof {
            lemma_exhausted(self@);
        }
        if self.is_complement() {
            held == SCALAR_COUNT as usize
        } else {
            held == 0
        }
    }

    /// The character for the draw `raw`, or the error of a class that admits
    /// no character.
    pub fn pick(&self, raw: u64) -> (r: Result<char, GenerationError>)
        ensures
            r is Err <==> self@.exhausted(),
            r matches Ok(c) ==> c == picked(self@, raw) && self@.admits(c),
    {
        if self.is_exhausted() {
            return Err(GenerationError::ExhaustedClass);
        }
        let held = self.len();
        proof {
            lemma_exhausted(self@);
            lemma_ordinal_bijection();
        }
        if !self.is_complement() {
            let at = clamp(raw, 0, (held - 1) as u64);
            return Ok(self.get(at as usize));
        }
        let start = char_at_ordinal(clamp(raw, 0, (SCALAR_COUNT - 1) as u64) as u32);
        let mut c = start;
        let mut steps: u32 = 0;
        while self.contains(c)
            invariant
                steps < SCALAR_COUNT,
                self@.wf(),
                self@.complement,
                self@.members.len() < SCALAR_COUNT,
                in_domain(start),
                c == advance(start, steps as nat),
                forall|j: nat| j < steps ==> self@.members.contains(#[trigger] advance(start, j)),
                admitted_from(self@, start, SCALAR_COUNT as nat) == admitted_from(
                    self@,
                    c,
                    (SCALAR_COUNT - steps) as nat,
                ),
            decreases SCALAR_COUNT - steps,
        {
            proof {
                lemma_advance_step(start, steps as nat);
                if steps + 1 == SCALAR_COUNT {
                    assert forall|j: nat| j < SCALAR_COUNT implies self@.members.contains(
                        #[trigger] advance(start, j),
                    ) by {
                        if j == steps {
                        }
                    }
                    lemma_full_cycle(self@.members, start);
                    lemma_covers_domain(self@.members);
                }
            }
            c = next_scalar(c);
            steps = steps + 1;
        }
        Ok(c)
    }

    /// A character of the class, chosen by one draw from `sampler`. A class
    /// that admits no character gives the error before anything is drawn.
    pub fn generate<S: Sampler>(&self, sampler: &mut S) -> (r: Result<char, GenerationError>)
        ensures
            r is Err <==> self@.exhausted(),
            r is Err ==> *final(sampler) == *old(sampler),
            r matches Ok(c) ==> self@.admits(c),
    {
        if self.is_exhausted() {
            return Err(GenerationError::ExhaustedClass);
        }
        let top: u64 = if self.is_complement() {
            (SCALAR_COUNT - 1) as u64
        } else {
            (self.len() - 1) as u64
        };
        let raw = sampler.draw(0, top);
        self.pick(raw)
    }
}

impl Quantifier {
    /// How often to repeat on this call: the one count of a quantifier with
    /// `min == max`, for which nothing is drawn, else a draw from `sampler`
    /// over the quantifier's window.
    pub fn resolve<S: Sampler>(&self, sampler: &mut S) -> (count: u64)
        ensures
            self@.wf(),
            self@.admits(count as nat),
            self@.low() == self@.high() ==> *final(sampler) == *old(sampler),
    {
        let (low, high) = self.window();
        if low == high {
            low
        } else {
            draw_within(sampler, low, high)
        }
    }
}

impl Regex {
    /// A string that the node can yield: the symbol repeated as often as the
    /// quantifier resolves to, every choice taken from `sampler`. The call fails
    /// only where a class that admits no character can be reached, and always
    /// where one must be.
    pub fn generate<S: Sampler>(&self, sampler: &mut S) -> (r: Result<String, GenerationError>)
        ensures
            r matches Ok(text) ==> node_yields(self@, text@),
            r is Err ==> node_may_fail(self@),
            node_must_fail(self@) ==> r is Err,
        decreases self,
    {
        let count = self.quantifier.resolve(sampler);
        let mut out = String::new();
        let ghost mut parts: Seq<Seq<char>> = Seq::empty();
        let mut done: u64 = 0;
        while done < count
            invariant
                done <= count,
                self.quantifier@.admits(count as nat),
                parts.len() == done,
                out@ == parts.flatten(),
                forall|i: int|
                    0 <= i < parts.len() ==> symbol_yields(self@.symbol, #[trigger] parts[i]),
                done > 0 ==> !node_must_fail(self@),
            decreases count - done,
        {
            let ghost piece: Seq<char>;
            match &self.symbol {
                RegexSymbol::Any => {
                    let k = draw_within(sampler, 0, (SCALAR_COUNT - 1) as u64);
                    let c = char_at_ordinal(k as u32);
                    out.push(c);
                    proof {
                        piece = seq![c];
                    }
                },
                RegexSymbol::Literal(c) => {
                    out.push(*c);
                    proof {
                        piece = seq![*c];
                    }
                },
                RegexSymbol::Group(nodes) => {
                    assert(self.symbol->Group_0 == *nodes);
                    match generate(nodes.as_slice(), sampler) {
                        Ok(text) => {
                            out.append(text.as_str());
                            proof {
                                piece = text@;
                            }
                        },
                        Err(e) => {
                            return Err(e);
                        },
                    }
                },
                RegexSymbol::List(list) => {
                    match list.generate(sampler) {
                        Ok(c) => {
                            out.push(c);
                            proof {
                                piece = seq![c];
                            }
                        },
                        Err(e) => {
                            return Err(e);
                        },
                    }
                },
            }
            proof {
                assert(out@ == parts.flatten() + piece);
                parts.lemma_flatten_push(piece);
                parts = parts.push(piece);
            }
            done = done + 1;
        }
        proof {
            lemma_node_yields(self@, parts);
        }
        Ok(out)
    }
}

/// A string that the pattern can yield: what each node generates, in order.
/// The call fails only where a class that admits no character can be reached,
/// and always where one must be.
pub fn generate<S: Sampler>(regexes: &[Regex], sampler: &mut S) -> (r: Result<
    String,
    GenerationError,
>)
    ensures
        r matches Ok(text) ==> pattern_yields(pattern_view(regexes@), text@),
        r is Err ==> pattern_may_fail(pattern_view(regexes@)),
        pattern_must_fail(pattern_view(regexes@)) ==> r is Err,
    decreases regexes@,
{
    let ghost models = pattern_view(regexes@);
    proof {
        lemma_pattern_view(regexes@);
    }
    let mut out = String::new();
    let ghost mut parts: Seq<Seq<char>> = Seq::empty();
    let mut at: usize = 0;
    while at < regexes.len()
        invariant
            at <= regexes.len(),
            models == pattern_view(regexes@),
            models.len() == regexes.len(),
            forall|i: int| 0 <= i < regexes.len() ==> (#[trigger] models[i]) == regexes@[i]@,
            parts.len() == at,
            out@ == parts.flatten(),
            forall|i: int| 0 <= i < at ==> node_yields(models[i], #[trigger] parts[i]),
            forall|i: int| 0 <= i < at ==> !node_must_fail(#[trigger] models[i]),
        decreases regexes.len() - at,
    {
        proof {
            assert(models[at as int] == regexes@[at as int]@);
        }
        match regexes[at].generate(sampler) {
            Ok(text) => {
                out.append(text.as_str());
                proof {
                    parts.lemma_flatten_push(text@);
                    parts = parts.push(text@);
                }
            },
            Err(e) => {
                return Err(e);
            },
        }
        at = at + 1;
    }
    proof {
        lemma_pattern_yields(models, parts);
    }
    Ok(out)
}

} // verus!
