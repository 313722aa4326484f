//! The domain of Unicode scalar values, numbered without gaps.
//!
//! A `char` is any code point except the surrogates `0xD800..=0xDFFF`. Generation
//! needs to pick "the k-th scalar value" and to step from one scalar value to the
//! next, so this module numbers the scalar values `0..SCALAR_COUNT` in ascending
//! order (the *ordinal* of a character) and proves the counting facts that the
//! generators rely on.

use vstd::prelude::*;
use vstd::relations::injective_on;
use vstd::set_lib::*;

verus! {

/// How many Unicode scalar values there are: `0x110000` code points less the
/// `0x800` surrogates.
pub const SCALAR_COUNT: u32 = 0x10F800;

/// First code point of the surrogate gap.
pub const SURROGATE_START: u32 = 0xD800;

/// Width of the surrogate gap.
pub const SURROGATE_SPAN: u32 = 0x800;

/// Whether the code point `v` is a Unicode scalar value.
pub open spec fn is_scalar(v: int) -> bool {
    0 <= v < 0xD800 || 0xE000 <= v <= 0x10FFFF
}

/// Position of `c` among all scalar values in ascending order.
pub open spec fn ordinal(c: char) -> int {
    if (c as int) < 0xD800 {
        c as int
    } else {
        c as int - 0x800
    }
}

/// The scalar value at position `k`; meaningful for `0 <= k < SCALAR_COUNT`.
pub open spec fn scalar_at(k: int) -> char {
    if k < 0xD800 {
        k as char
    } else {
        (k + 0x800) as char
    }
}

/// The scalar value that follows `c`, wrapping from the last one to the first.
pub open spec fn successor(c: char) -> char {
    scalar_at((ordinal(c) + 1) % (SCALAR_COUNT as int))
}

/// The scalar value `n` steps after `c`, wrapping around the domain.
pub open spec fn advance(c: char, n: nat) -> char {
    scalar_at((ordinal(c) + n) % (SCALAR_COUNT as int))
}

/// `core::char::from_u32`: returns the character with code point `i` when `i` is
/// a scalar value (below `0xD800`, or from `0xE000` up to `0x10FFFF`), and `None`
/// for every other `u32`.
pub assume_specification[ char::from_u32 ](i: u32) -> (r: Option<char>)
    ensures
        is_scalar(i as int) ==> r == Some(i as char),
        !is_scalar(i as int) ==> r is None,
;

/// Whether `c` holds a Unicode scalar value. Every `char` that executable code
/// handles does; the predicate lets that be said of the entries of a sequence.
pub open spec fn in_domain(c: char) -> bool {
    is_scalar(c as int)
}

/// Whether every entry of `s` holds a Unicode scalar value.
pub open spec fn all_in_domain(s: Seq<char>) -> bool {
    forall|i: int| 0 <= i < s.len() ==> in_domain(#[trigger] s[i])
}

/// Ordinals and scalar values correspond one to one.
pub proof fn lemma_ordinal_bijection()
    ensures
        forall|c: char| in_domain(c) ==> 0 <= #[trigger] ordinal(c) < SCALAR_COUNT,
        forall|c: char| in_domain(c) ==> scalar_at(#[trigger] ordinal(c)) == c,
        forall|k: int| 0 <= k < SCALAR_COUNT ==> in_domain(#[trigger] scalar_at(k)),
        forall|k: int| 0 <= k < SCALAR_COUNT ==> ordinal(#[trigger] scalar_at(k)) == k,
{
    assert forall|c: char| in_domain(c) implies scalar_at(#[trigger] ordinal(c)) == c by {
        let v = c as int;
        assert(v as char == c);
    }
}

/// Stepping one at a time agrees with `advance`.
pub proof fn lemma_advance_step(c: char, n: nat)
    requires
        in_domain(c),
    ensures
        advance(c, 0) == c,
        in_domain(advance(c, n)),
        successor(advance(c, n)) == advance(c, n + 1),
{
    lemma_ordinal_bijection();
    let m = SCALAR_COUNT as int;
    let k = (ordinal(c) + n) % m;
    assert(ordinal(scalar_at(k)) == k);
    assert((k + 1) % m == (ordinal(c) + n + 1) % m) by (nonlinear_arith)
        requires
            k == (ordinal(c) + n) % m,
            m > 0,
    ;
}

/// A duplicate-free sequence of characters has at most `SCALAR_COUNT` entries,
/// and has exactly that many if and only if every scalar value occurs in it.
pub proof fn lemma_covers_domain(members: Seq<char>)
    requires
        members.no_duplicates(),
        all_in_domain(members),
    ensures
        members.len() <= SCALAR_COUNT,
        members.len() == SCALAR_COUNT <==> (forall|k: int|
            0 <= k < SCALAR_COUNT ==> members.contains(#[trigger] scalar_at(k))),
{
    lemma_ordinal_bijection();
    let held = members.to_set();
    members.unique_seq_to_set();
    let number = |c: char| ordinal(c);
    let image = held.map(number);
    let all = set_int_range(0, SCALAR_COUNT as int);
    lemma_int_range(0, SCALAR_COUNT as int);
    assert forall|c: char| held.contains(c) implies in_domain(c) by {
        let i = choose|i: int| 0 <= i < members.len() && members[i] == c;
        assert(in_domain(members[i]));
    }
    assert(injective_on(number, held)) by {
        assert forall|c: char, d: char|
            held.contains(c) && held.contains(d) && number(c) == number(d) implies c == d by {
            assert(scalar_at(ordinal(c)) == c);
            assert(scalar_at(ordinal(d)) == d);
        }
    }
    lemma_map_size(held, image, number);
    assert(image.subset_of(all)) by {
        assert forall|k: int| image.contains(k) implies all.contains(k) by {
            let c = choose|c: char| held.contains(c) && k == number(c);
            assert(k == ordinal(c));
        }
    }
    lemma_len_subset(image, all);
    if members.len() == SCALAR_COUNT {
        lemma_subset_equality(image, all);
        assert forall|k: int| 0 <= k < SCALAR_COUNT implies members.contains(
            #[trigger] scalar_at(k),
        ) by {
            assert(all.contains(k));
            assert(image.contains(k));
            let d = choose|d: char| held.contains(d) && k == number(d);
            assert(scalar_at(ordinal(d)) == d);
        }
    }
    if forall|k: int| 0 <= k < SCALAR_COUNT ==> members.contains(#[trigger] scalar_at(k)) {
        assert(all.subset_of(image)) by {
            assert forall|k: int| all.contains(k) implies image.contains(k) by {
                let c = scalar_at(k);
                assert(members.contains(c));
                assert(held.contains(c));
                assert(number(c) == k);
            }
        }
        lemma_len_subset(all, image);
    }
}

/// Every character that a program holds is a scalar value.
pub proof fn lemma_char_in_domain(c: char)
    ensures
        in_domain(c),
{
}

/// The ordinal of `c`.
pub fn char_ordinal(c: char) -> (k: u32)
    ensures
        k == ordinal(c),
        k < SCALAR_COUNT,
{
    let v: u32 = c as u32;
    if v < SURROGATE_START {
        v
    } else {
        v - SURROGATE_SPAN
    }
}

/// The scalar value with ordinal `k`.
pub fn char_at_ordinal(k: u32) -> (c: char)
    requires
        k < SCALAR_COUNT,
    ensures
        c == scalar_at(k as int),
        ordinal(c) == k,
{
    proof {
        lemma_ordinal_bijection();
    }
    let v: u32 = if k < SURROGATE_START {
        k
    } else {
        k + SURROGATE_SPAN
    };
    match char::from_u32(v) {
        Some(c) => c,
        None => '\0',
    }
}

/// The scalar value after `c`, wrapping around at the end of the domain.
pub fn next_scalar(c: char) -> (d: char)
    ensures
        d == successor(c),
{
    let k: u32 = char_ordinal(c);
    let n: u32 = if k + 1 == SCALAR_COUNT {
        0
    } else {
        k + 1
    };
    char_at_ordinal(n)
}

} // verus!
