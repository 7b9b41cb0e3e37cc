//! Candidate sets: which digits 1..=9 are still possible for a cell, or
//! which digits a validity scan has already seen, held as a 16-bit mask
//! where bit `d` stands for digit `d`. Bit 0 is never meaningful.

use vstd::prelude::*;

verus! {

/// Digit `d` is a member of the mask: bit `d` is set.
pub open spec fn mask_has(mask: u16, d: u8) -> bool
    recommends
        d <= 9,
{
    mask & (1u16 << d) != 0
}

/// A well-formed mask only uses bits 0 through 9.
pub open spec fn mask_wf(mask: u16) -> bool {
    mask < 1024
}

/// Digit `d` is the single member of the mask among digits 1..=9.
pub open spec fn mask_is_singleton(mask: u16, d: u8) -> bool {
    &&& 1 <= d <= 9
    &&& mask_has(mask, d)
    &&& forall|e: u8| 1 <= e <= 9 && mask_has(mask, e) ==> e == d
}

/// How many of the digits 1..=d are members of the mask.
pub open spec fn mask_card_upto(mask: u16, d: int) -> int
    decreases d,
{
    if d <= 0 {
        0
    } else {
        mask_card_upto(mask, d - 1) + if mask_has(mask, d as u8) {
            1int
        } else {
            0int
        }
    }
}

/// The cardinality of the mask as a set of digits 1..=9.
pub open spec fn mask_card(mask: u16) -> int {
    mask_card_upto(mask, 9)
}

/// Marking a digit sets exactly its bit; no other digit's membership moves.
proof fn lemma_mask_set(m: u16, n: u8)
    by (bit_vector)
    requires
        1 <= n <= 9,
    ensures
        forall|d: u8| d <= 9 ==> (mask_has(m | (1u16 << n), d) <==> mask_has(m, d) || d == n),
        mask_wf(m) ==> mask_wf(m | (1u16 << n)),
{
}

/// Clearing a digit removes exactly its bit; no other digit's membership moves.
proof fn lemma_mask_clear(m: u16, n: u8)
    by (bit_vector)
    requires
        1 <= n <= 9,
    ensures
        forall|d: u8| d <= 9 ==> (mask_has(m & !(1u16 << n), d) <==> mask_has(m, d) && d != n),
        mask_wf(m) ==> mask_wf(m & !(1u16 << n)),
{
}

/// Intersecting masks intersects their memberships, digit by digit.
pub(crate) proof fn lemma_mask_and(a: u16, b: u16)
    by (bit_vector)
    ensures
        forall|d: u8| d <= 9 ==> (mask_has(a & b, d) <==> mask_has(a, d) && mask_has(b, d)),
        mask_wf(a) ==> mask_wf(a & b),
{
}

/// The full mask has every digit 1..=9 (and bit 0) set.
proof fn lemma_mask_full()
    by (bit_vector)
    ensures
        forall|d: u8| d <= 9 ==> mask_has(0x3ffu16, d),
{
}

/// Adding a digit to the empty set yields a set containing that digit alone.
pub proof fn lemma_empty_add_contains(d: u8, e: u8)
    by (bit_vector)
    requires
        1 <= d <= 9,
        1 <= e <= 9,
    ensures
        mask_has(0u16 | (1u16 << d), e) <==> e == d,
{
}

/// Intersection of masks is commutative.
pub proof fn lemma_intersect_commutative(a: u16, b: u16)
    by (bit_vector)
    ensures
        a & b == b & a,
{
}

/// Intersection of masks is associative.
pub proof fn lemma_intersect_associative(a: u16, b: u16, c: u16)
    by (bit_vector)
    ensures
        (a & b) & c == a & (b & c),
{
}

/// The full mask is an identity for intersection on well-formed masks.
pub proof fn lemma_full_intersect_identity(s: u16)
    by (bit_vector)
    requires
        mask_wf(s),
    ensures
        0x3ffu16 & s == s,
{
}

/// Well-formed masks that agree on every digit (and on bit 0) are equal.
pub proof fn lemma_mask_extensional(a: u16, b: u16)
    requires
        mask_wf(a),
        mask_wf(b),
        forall|d: u8| d <= 9 ==> (mask_has(a, d) <==> mask_has(b, d)),
    ensures
        a == b,
{
    assert(a == b) by (bit_vector)
        requires
            a < 1024,
            b < 1024,
            mask_has(a, 0u8) == mask_has(b, 0u8),
            mask_has(a, 1u8) == mask_has(b, 1u8),
            mask_has(a, 2u8) == mask_has(b, 2u8),
            mask_has(a, 3u8) == mask_has(b, 3u8),
            mask_has(a, 4u8) == mask_has(b, 4u8),
            mask_has(a, 5u8) == mask_has(b, 5u8),
            mask_has(a, 6u8) == mask_has(b, 6u8),
            mask_has(a, 7u8) == mask_has(b, 7u8),
            mask_has(a, 8u8) == mask_has(b, 8u8),
            mask_has(a, 9u8) == mask_has(b, 9u8),
    ;
}

/// Digit `e` is the single member of the mask among digits 1..=d.
spec fn unique_upto(mask: u16, e: u8, d: int) -> bool {
    &&& 1 <= e <= d
    &&& mask_has(mask, e)
    &&& forall|f: u8| 1 <= f <= d && mask_has(mask, f) ==> f == e
}

proof fn lemma_card_upto_zero(mask: u16, d: int)
    requires
        0 <= d <= 9,
    ensures
        mask_card_upto(mask, d) >= 0,
        (mask_card_upto(mask, d) == 0 <==> forall|e: u8| 1 <= e <= d ==> !mask_has(mask, e)),
    decreases d,
{
    if d > 0 {
        lemma_card_upto_zero(mask, d - 1);
    }
}

proof fn lemma_card_upto_one(mask: u16, d: int)
    requires
        0 <= d <= 9,
    ensures
        (mask_card_upto(mask, d) == 1 <==> exists|e: u8| unique_upto(mask, e, d)),
    decreases d,
{
    lemma_card_upto_zero(mask, d);
    if d > 0 {
        let dd = d as u8;
        lemma_card_upto_zero(mask, d - 1);
        lemma_card_upto_one(mask, d - 1);
        if mask_card_upto(mask, d) == 1 {
            if mask_has(mask, dd) {
                assert(mask_card_upto(mask, d - 1) == 0);
                assert(unique_upto(mask, dd, d));
            } else {
                let prev: int = d - 1;
                let e = choose|e: u8| unique_upto(mask, e, prev);
                assert(unique_upto(mask, e, d));
            }
        }
        if exists|e: u8| unique_upto(mask, e, d) {
            let e = choose|e: u8| unique_upto(mask, e, d);
            if e == dd {
                assert(forall|f: u8| 1 <= f <= d - 1 ==> !mask_has(mask, f));
                assert(mask_card_upto(mask, d - 1) == 0);
            } else {
                assert(!mask_has(mask, dd));
                assert(unique_upto(mask, e, d - 1));
                assert(mask_card_upto(mask, d - 1) == 1);
            }
            assert(mask_card_upto(mask, d) == 1);
        }
    }
}

/// A mask has a single member among the digits 1..=9 exactly when its
/// cardinality as a set of those digits is 1.
pub proof fn lemma_singleton_iff_card_one(mask: u16)
    ensures
        (exists|d: u8| mask_is_singleton(mask, d)) <==> mask_card(mask) == 1,
{
    lemma_card_upto_one(mask, 9);
    if mask_card(mask) == 1 {
        let e = choose|e: u8| unique_upto(mask, e, 9);
        assert(mask_is_singleton(mask, e));
    }
    if exists|d: u8| mask_is_singleton(mask, d) {
        let d = choose|d: u8| mask_is_singleton(mask, d);
        assert(unique_upto(mask, d, 9));
    }
}

/// A set of digits 1..=9: candidates still possible for a cell, or digits
/// already seen during a validity scan.
#[derive(Debug, PartialEq, Eq, Clone, Copy, Structural)]
pub struct Possibilities {
    pub data: u16,
}

impl Possibilities {
    /// Only bits 0 through 9 of the mask are used.
    pub open spec fn wf(self) -> bool {
        mask_wf(self.data)
    }

    /// The set with all nine digits present, the starting candidate set
    /// before any peer constraint is applied.
    pub fn create_full() -> (r: Self)
        ensures
            r.data == 0x3ffu16,
            r.wf(),
            forall|d: u8| d <= 9 ==> mask_has(r.data, d),
    {
        proof {
            lemma_mask_full();
        }
        Self { data: 0x3ff }
    }

    /// The digits present in both sets: the bitwise intersection.
    pub fn common_numbers(self, other: Self) -> (r: Self)
        ensures
            r.data == self.data & other.data,
            forall|d: u8|
                d <= 9 ==> (mask_has(r.data, d) <==> mask_has(self.data, d) && mask_has(
                    other.data,
                    d,
                )),
            self.wf() ==> r.wf(),
    {
        proof {
            lemma_mask_and(self.data, other.data);
        }
        let mut result = self;
        result.data &= other.data;
        result
    }

    /// Whether `number` is a member of this set.
    pub fn is_number_marked(&self, number: u8) -> (r: bool)
        requires
            number <= 9,
        ensures
            r == mask_has(self.data, number),
    {
        if self.data & (1u16 << number) != 0 {
            true
        } else {
            false
        }
    }

    /// Adds `number` to the set. Idempotent; no other digit moves.
    pub fn set_marked(&mut self, number: u8)
        requires
            1 <= number <= 9,
        ensures
            final(self).data == old(self).data | (1u16 << number),
            forall|d: u8|
                d <= 9 ==> (mask_has(final(self).data, d) <==> mask_has(old(self).data, d) || d
                    == number),
            old(self).wf() ==> final(self).wf(),
    {
        proof {
            lemma_mask_set(self.data, number);
        }
        self.data |= 1u16 << number;
    }

    /// Removes `number` from the set. Idempotent; no other digit moves.
    pub fn clear_marked(&mut self, number: u8)
        requires
            1 <= number <= 9,
        ensures
            final(self).data == old(self).data & !(1u16 << number),
            forall|d: u8|
                d <= 9 ==> (mask_has(final(self).data, d) <==> mask_has(old(self).data, d) && d
                    != number),
            old(self).wf() ==> final(self).wf(),
    {
        proof {
            lemma_mask_clear(self.data, number);
        }
        self.data &= !(1u16 << number);
    }

    /// The one digit present, if the set has exactly one member among the
    /// digits 1..=9; none if it has zero or two or more members.
    pub fn find_only_marked_number(&self) -> (r: Option<u8>)
        ensures
            match r {
                Some(d) => mask_is_singleton(self.data, d),
                None => forall|d: u8| !mask_is_singleton(self.data, d),
            },
    {
        let mut was_marked_number_found = false;
        let mut first_marked_number: u8 = 0;
        let mut i: u8 = 1;
        while i <= 9
            invariant
                1 <= i <= 10,
                !was_marked_number_found ==> first_marked_number == 0 && forall|e: u8|
                    1 <= e < i ==> !mask_has(self.data, e),
                was_marked_number_found ==> {
                    &&& 1 <= first_marked_number < i
                    &&& mask_has(self.data, first_marked_number)
                    &&& forall|e: u8|
                        1 <= e < i && mask_has(self.data, e) ==> e == first_marked_number
                },
            decreases 10 - i,
        {
            if self.is_number_marked(i) {
                if !was_marked_number_found {
                    first_marked_number = i;
                    was_marked_number_found = true;
                } else {
                    assert(forall|d: u8| !mask_is_singleton(self.data, d)) by {
                        assert(forall|d: u8| mask_is_singleton(self.data, d) ==> d
                            == first_marked_number && d == i);
                    }
                    return None;
                }
            }
            i = i + 1;
        }
        if first_marked_number == 0 {
            assert(forall|d: u8| !mask_is_singleton(self.data, d));
            None
        } else {
            assert(mask_is_singleton(self.data, first_marked_number));
            Some(first_marked_number)
        }
    }
}

impl Default for Possibilities {
    /// The empty set: the accumulator a validity scan starts from.
    fn default() -> (r: Self)
        ensures
            r.data == 0u16,
            r.wf(),
            forall|d: u8| d <= 9 ==> !mask_has(r.data, d),
    {
        proof {
            assert(forall|d: u8| d <= 9 ==> !mask_has(0u16, d)) by (bit_vector);
        }
        Self { data: 0 }
    }
}

} // verus!
