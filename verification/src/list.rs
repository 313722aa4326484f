//! Bracket classes: an ordered, duplicate-free membership and a negation flag.

use vstd::prelude::*;
use crate::scalar::{
    all_in_domain, char_at_ordinal, char_ordinal, in_domain, lemma_covers_domain,
    lemma_ordinal_bijection, ordinal, scalar_at, SCALAR_COUNT,
};

verus! {

/// `members` with `c` added at the end, unless it is there already.
pub open spec fn append_unique(members: Seq<char>, c: char) -> Seq<char> {
    if members.contains(c) {
        members
    } else {
        members.push(c)
    }
}

/// `members` followed by the scalar values with ordinals `first..=last` in
/// ascending order, leaving out those that already occur.
pub open spec fn append_range(members: Seq<char>, first: int, last: int) -> Seq<char>
    decreases last - first + 1,
{
    if last < first {
        members
    } else {
        append_unique(append_range(members, first, last - 1), scalar_at(last))
    }
}

/// What a `List` stands for.
pub ghost struct ListModel {
    /// The listed characters, each once, in the order of first occurrence.
    pub members: Seq<char>,
    /// Whether the class stands for every character but the listed ones.
    pub complement: bool,
}

impl ListModel {
    /// Nothing is listed twice, and every entry is a scalar value.
    pub open spec fn wf(self) -> bool {
        &&& self.members.no_duplicates()
        &&& all_in_domain(self.members)
    }

    /// Whether the class may produce `c`.
    pub open spec fn admits(self, c: char) -> bool {
        self.members.contains(c) != self.complement
    }

    /// Whether the class admits no character at all: nothing is listed, or
    /// everything is excluded.
    pub open spec fn exhausted(self) -> bool {
        forall|k: int| 0 <= k < SCALAR_COUNT ==> !self.admits(#[trigger] scalar_at(k))
    }
}

/// A well-formed class is exhausted exactly when it lists nothing (as it
/// stands) or lists every scalar value (negated).
pub proof fn lemma_exhausted(list: ListModel)
    requires
        list.wf(),
    ensures
        list.members.len() <= SCALAR_COUNT,
        list.exhausted() <==> list.members.len() == (if list.complement {
            SCALAR_COUNT as nat
        } else {
            0
        }),
{
    lemma_covers_domain(list.members);
    lemma_ordinal_bijection();
    if !list.complement {
        if list.members.len() > 0 {
            let c = list.members[0];
            assert(in_domain(c));
            assert(list.admits(scalar_at(ordinal(c))));
        }
    } else {
        if list.exhausted() {
            assert forall|k: int| 0 <= k < SCALAR_COUNT implies list.members.contains(
                #[trigger] scalar_at(k),
            ) by {
                assert(!list.admits(scalar_at(k)));
            }
        }
    }
}

/// Adding a character keeps a membership well formed.
pub proof fn lemma_append_unique_wf(members: Seq<char>, c: char)
    requires
        members.no_duplicates(),
        all_in_domain(members),
        in_domain(c),
    ensures
        append_unique(members, c).no_duplicates(),
        all_in_domain(append_unique(members, c)),
{
}

/// Adding a range keeps a membership well formed.
pub proof fn lemma_append_range_wf(members: Seq<char>, first: int, last: int)
    requires
        members.no_duplicates(),
        all_in_domain(members),
        0 <= first,
        last < SCALAR_COUNT,
    ensures
        append_range(members, first, last).no_duplicates(),
        all_in_domain(append_range(members, first, last)),
    decreases last - first + 1,
{
    lemma_ordinal_bijection();
    if first <= last {
        lemma_append_range_wf(members, first, last - 1);
        lemma_append_unique_wf(append_range(members, first, last - 1), scalar_at(last));
    }
}

/// Whether `c` is among the first `limit` entries of `held`.
fn listed_within(held: &Vec<char>, c: char, limit: usize) -> (found: bool)
    requires
        limit <= held.len(),
    ensures
        found == held@.take(limit as int).contains(c),
{
    let mut i: usize = 0;
    while i < limit
        invariant
            i <= limit <= held.len(),
            !held@.take(i as int).contains(c),
        decreases limit - i,
    {
        if held[i] == c {
            assert(held@.take(limit as int)[i as int] == c);
            return true;
        }
        assert(held@.take(i + 1) == held@.take(i as int).push(held@[i as int]));
        i = i + 1;
    }
    false
}

/// A bracket class such as `[0-9]` or `[^a-c]`.
#[derive(Debug, PartialEq, Eq)]
pub struct List {
    inner: Vec<char>,
    complement: bool,
}

impl View for List {
    type V = ListModel;

    closed spec fn view(&self) -> ListModel {
        ListModel { members: self.inner@, complement: self.complement }
    }
}

impl List {
    #[verifier::type_invariant]
    spec fn distinct(&self) -> bool {
        &&& self.inner@.no_duplicates()
        &&& all_in_domain(self.inner@)
    }

    /// A class that lists nothing yet.
    pub fn new(complement: bool) -> (list: List)
        ensures
            list@ == (ListModel { members: Seq::empty(), complement }),
    {
        List { inner: Vec::new(), complement }
    }

    /// Whether the class is negated.
    pub fn is_complement(&self) -> (b: bool)
        ensures
            b == self@.complement,
    {
        self.complement
    }

    /// How many characters are listed.
    pub fn len(&self) -> (n: usize)
        ensures
            self@.wf(),
            n == self@.members.len(),
            n <= SCALAR_COUNT,
    {
        proof {
            use_type_invariant(self);
            lemma_covers_domain(self.inner@);
        }
        self.inner.len()
    }

    /// The listed character at position `i`.
    pub fn get(&self, i: usize) -> (c: char)
        requires
            i < self@.members.len(),
        ensures
            c == self@.members[i as int],
    {
        self.inner[i]
    }

    /// The listed characters, in order.
    pub fn members(&self) -> (m: &Vec<char>)
        ensures
            self@.wf(),
            m@ == self@.members,
    {
        proof {
            use_type_invariant(self);
        }
        &self.inner
    }

    /// Whether `c` is listed.
    pub fn contains(&self, c: char) -> (found: bool)
        ensures
            found == self@.members.contains(c),
    {
        assert(self.inner@.take(self.inner.len() as int) == self.inner@);
        listed_within(&self.inner, c, self.inner.len())
    }

    /// Whether the class may produce `c`.
    pub fn admits(&self, c: char) -> (b: bool)
        ensures
            b == self@.admits(c),
    {
        self.contains(c) != self.complement
    }

    /// The class with `c` listed too, unless it is listed already.
    pub fn with(self, c: char) -> (list: List)
        ensures
            list@.members == append_unique(self@.members, c),
            list@.complement == self@.complement,
    {
        proof {
            use_type_invariant(&self);
            lemma_append_unique_wf(self.inner@, c);
        }
        let found = self.contains(c);
        let List { inner, complement } = self;
        let mut inner = inner;
        if !found {
            inner.push(c);
        }
        List { inner, complement }
    }

    /// The class with the scalar values from `first` to `last` listed too, in
    /// ascending order, skipping those listed already. Nothing is added where
    /// `last` comes before `first`.
    pub fn with_range(self, first: char, last: char) -> (list: List)
        ensures
            list@.members == append_range(self@.members, ordinal(first), ordinal(last)),
            list@.complement == self@.complement,
    {
        let low: u32 = char_ordinal(first);
        let high: u32 = char_ordinal(last);
        proof {
            use_type_invariant(&self);
            lemma_ordinal_bijection();
        }
        if high < low {
            return self;
        }
        let List { inner, complement } = self;
        let mut inner = inner;
        let held: usize = inner.len();
        let ghost before = inner@;
        let mut k: u32 = low;
        while k <= high
            invariant
                low <= k <= high + 1,
                high < SCALAR_COUNT,
                inner@ == append_range(before, low as int, k - 1),
                before.no_duplicates(),
                all_in_domain(before),
                held == before.len(),
                held <= inner.len(),
                inner@.take(held as int) == before,
                forall|j: int| held <= j < inner.len() ==> low <= ordinal(#[trigger] inner@[j]) < k,
            decreases high + 1 - k,
        {
            let c = char_at_ordinal(k);
            proof {
                lemma_append_range_wf(before, low as int, k - 1);
                if inner@.contains(c) && !before.contains(c) {
                    let j = choose|j: int| 0 <= j < inner.len() && inner@[j] == c;
                    if j < held {
                        assert(inner@.take(held as int)[j] == c);
                    }
                }
                if before.contains(c) {
                    let j = choose|j: int| 0 <= j < before.len() && before[j] == c;
                    assert(inner@.take(held as int)[j] == c);
                }
            }
            if !listed_within(&inner, c, held) {
                inner.push(c);
            }
            proof {
                assert(inner@.take(held as int) == before);
            }
            k = k + 1;
        }
        proof {
            lemma_append_range_wf(before, low as int, high as int);
        }
        List { inner, complement }
    }
}

} // verus!
