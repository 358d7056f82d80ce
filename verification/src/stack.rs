use vstd::prelude::*;

verus! {

/// A set of cards, encoded as a 32-bit board: bit `i` stands for the card
/// with index `i`.
#[derive(Clone, Copy, PartialEq, Eq, Structural, Debug)]
pub struct Stack {
    pub bits: u32,
}

/// Bit `i` of `s` is set (card `i` is in the set).
pub open spec fn bit32(s: u32, i: u32) -> bool
    recommends
        i < 32,
{
    (s >> i) & 1 == 1
}

/// Number of set bits of `s` below position `k`.
pub open spec fn pc_u(s: u32, k: nat) -> nat
    decreases k,
{
    if k == 0 {
        0
    } else {
        pc_u(s, (k - 1) as nat) + if bit32(s, (k - 1) as u32) {
            1nat
        } else {
            0nat
        }
    }
}

/// Number of set bits of `s` (the cardinality of the card set).
pub open spec fn pc32(s: u32) -> nat {
    pc_u(s, 32)
}

proof fn lemma_pc_or_bit_upto(s: u32, i: u32, k: nat)
    requires
        i < 32,
        !bit32(s, i),
        k <= 32,
    ensures
        pc_u(s | (1u32 << i), k) == pc_u(s, k) + if i < k {
            1nat
        } else {
            0nat
        },
    decreases k,
{
    if k > 0 {
        let j = (k - 1) as u32;
        lemma_pc_or_bit_upto(s, i, (k - 1) as nat);
        assert(((s | (1u32 << i)) >> j) & 1 == (if i == j {
            1u32
        } else {
            (s >> j) & 1
        })) by (bit_vector)
            requires
                i < 32,
                j < 32,
                (s >> i) & 1 != 1,
        ;
    }
}

/// Adding one fresh bit raises the cardinality by one.
pub proof fn lemma_pc_or_bit(s: u32, i: u32)
    requires
        i < 32,
        !bit32(s, i),
    ensures
        pc32(s | (1u32 << i)) == pc32(s) + 1,
{
    lemma_pc_or_bit_upto(s, i, 32);
}

proof fn lemma_pc_or_disjoint_upto(a: u32, b: u32, k: nat)
    requires
        a & b == 0,
        k <= 32,
    ensures
        pc_u(a | b, k) == pc_u(a, k) + pc_u(b, k),
    decreases k,
{
    if k > 0 {
        let j = (k - 1) as u32;
        lemma_pc_or_disjoint_upto(a, b, (k - 1) as nat);
        assert(!(((a >> j) & 1 == 1) && ((b >> j) & 1 == 1)) && (((a | b) >> j) & 1 == 1 <==> ((a
            >> j) & 1 == 1) || ((b >> j) & 1 == 1))) by (bit_vector)
            requires
                j < 32,
                a & b == 0,
        ;
    }
}

/// Cardinality distributes over a disjoint union.
pub proof fn lemma_pc_or_disjoint(a: u32, b: u32)
    requires
        a & b == 0,
    ensures
        pc32(a | b) == pc32(a) + pc32(b),
{
    lemma_pc_or_disjoint_upto(a, b, 32);
}

proof fn lemma_pc_bound_upto(s: u32, k: nat)
    requires
        k <= 32,
    ensures
        pc_u(s, k) <= k,
    decreases k,
{
    if k > 0 {
        lemma_pc_bound_upto(s, (k - 1) as nat);
    }
}

/// A 32-bit set holds at most 32 cards.
pub proof fn lemma_pc_bound(s: u32)
    ensures
        pc32(s) <= 32,
{
    lemma_pc_bound_upto(s, 32);
}

proof fn lemma_pc_zero_upto(s: u32, k: nat)
    requires
        k <= 32,
        pc_u(s, k) == 0,
    ensures
        forall|i: u32| i < k ==> !(#[trigger] bit32(s, i)),
    decreases k,
{
    if k > 0 {
        lemma_pc_zero_upto(s, (k - 1) as nat);
    }
}

/// Only the empty set has cardinality zero.
pub proof fn lemma_pc_zero(s: u32)
    ensures
        pc32(s) == 0 <==> s == 0,
{
    if pc32(s) == 0 {
        lemma_pc_zero_upto(s, 32);
        assert(!bit32(s, 0u32));
        assert(!bit32(s, 1u32));
        assert(!bit32(s, 2u32));
        assert(!bit32(s, 3u32));
        assert(!bit32(s, 4u32));
        assert(!bit32(s, 5u32));
        assert(!bit32(s, 6u32));
        assert(!bit32(s, 7u32));
        assert(!bit32(s, 8u32));
        assert(!bit32(s, 9u32));
        assert(!bit32(s, 10u32));
        assert(!bit32(s, 11u32));
        assert(!bit32(s, 12u32));
        assert(!bit32(s, 13u32));
        assert(!bit32(s, 14u32));
        assert(!bit32(s, 15u32));
        assert(!bit32(s, 16u32));
        assert(!bit32(s, 17u32));
        assert(!bit32(s, 18u32));
        assert(!bit32(s, 19u32));
        assert(!bit32(s, 20u32));
        assert(!bit32(s, 21u32));
        assert(!bit32(s, 22u32));
        assert(!bit32(s, 23u32));
        assert(!bit32(s, 24u32));
        assert(!bit32(s, 25u32));
        assert(!bit32(s, 26u32));
        assert(!bit32(s, 27u32));
        assert(!bit32(s, 28u32));
        assert(!bit32(s, 29u32));
        assert(!bit32(s, 30u32));
        assert(!bit32(s, 31u32));
        assert(((s >> 0) & 1 != 1 && (s >> 1) & 1 != 1 && (s >> 2) & 1 != 1 && (s >> 3) & 1 != 1 && (s >> 4) & 1 != 1 && (s >> 5) & 1 != 1 && (s >> 6) & 1 != 1 && (s >> 7) & 1 != 1 && (s >> 8) & 1 != 1 && (s >> 9) & 1 != 1 && (s >> 10) & 1 != 1 && (s >> 11) & 1 != 1 && (s >> 12) & 1 != 1 && (s >> 13) & 1 != 1 && (s >> 14) & 1 != 1 && (s >> 15) & 1 != 1 && (s >> 16) & 1 != 1 && (s >> 17) & 1 != 1 && (s >> 18) & 1 != 1 && (s >> 19) & 1 != 1 && (s >> 20) & 1 != 1 && (s >> 21) & 1 != 1 && (s >> 22) & 1 != 1 && (s >> 23) & 1 != 1 && (s >> 24) & 1 != 1 && (s >> 25) & 1 != 1 && (s >> 26) & 1 != 1 && (s >> 27) & 1 != 1 && (s >> 28) & 1 != 1 && (s >> 29) & 1 != 1 && (s >> 30) & 1 != 1 && (s >> 31) & 1 != 1) ==> s == 0) by (bit_vector);
    }
    if s == 0 {
        lemma_pc_zero_rec(s, 32);
    }
}

proof fn lemma_pc_zero_rec(s: u32, k: nat)
    requires
        s == 0,
        k <= 32,
    ensures
        pc_u(s, k) == 0,
    decreases k,
{
    if k > 0 {
        let j = (k - 1) as u32;
        lemma_pc_zero_rec(s, (k - 1) as nat);
        assert((0u32 >> j) & 1 != 1) by (bit_vector);
    }
}

proof fn lemma_pc_full_upto(s: u32, k: nat)
    requires
        k <= 32,
        pc_u(s, k) == k,
    ensures
        forall|i: u32| i < k ==> #[trigger] bit32(s, i),
    decreases k,
{
    if k > 0 {
        lemma_pc_bound_upto(s, (k - 1) as nat);
        lemma_pc_full_upto(s, (k - 1) as nat);
    }
}

/// Only the full deck has cardinality 32.
pub proof fn lemma_pc_full(s: u32)
    requires
        pc32(s) == 32,
    ensures
        s == 0xffff_ffffu32,
{
    lemma_pc_full_upto(s, 32);
        assert(bit32(s, 0u32));
        assert(bit32(s, 1u32));
        assert(bit32(s, 2u32));
        assert(bit32(s, 3u32));
        assert(bit32(s, 4u32));
        assert(bit32(s, 5u32));
        assert(bit32(s, 6u32));
        assert(bit32(s, 7u32));
        assert(bit32(s, 8u32));
        assert(bit32(s, 9u32));
        assert(bit32(s, 10u32));
        assert(bit32(s, 11u32));
        assert(bit32(s, 12u32));
        assert(bit32(s, 13u32));
        assert(bit32(s, 14u32));
        assert(bit32(s, 15u32));
        assert(bit32(s, 16u32));
        assert(bit32(s, 17u32));
        assert(bit32(s, 18u32));
        assert(bit32(s, 19u32));
        assert(bit32(s, 20u32));
        assert(bit32(s, 21u32));
        assert(bit32(s, 22u32));
        assert(bit32(s, 23u32));
        assert(bit32(s, 24u32));
        assert(bit32(s, 25u32));
        assert(bit32(s, 26u32));
        assert(bit32(s, 27u32));
        assert(bit32(s, 28u32));
        assert(bit32(s, 29u32));
        assert(bit32(s, 30u32));
        assert(bit32(s, 31u32));
    assert(((s >> 0) & 1 == 1 && (s >> 1) & 1 == 1 && (s >> 2) & 1 == 1 && (s >> 3) & 1 == 1 && (s >> 4) & 1 == 1 && (s >> 5) & 1 == 1 && (s >> 6) & 1 == 1 && (s >> 7) & 1 == 1 && (s >> 8) & 1 == 1 && (s >> 9) & 1 == 1 && (s >> 10) & 1 == 1 && (s >> 11) & 1 == 1 && (s >> 12) & 1 == 1 && (s >> 13) & 1 == 1 && (s >> 14) & 1 == 1 && (s >> 15) & 1 == 1 && (s >> 16) & 1 == 1 && (s >> 17) & 1 == 1 && (s >> 18) & 1 == 1 && (s >> 19) & 1 == 1 && (s >> 20) & 1 == 1 && (s >> 21) & 1 == 1 && (s >> 22) & 1 == 1 && (s >> 23) & 1 == 1 && (s >> 24) & 1 == 1 && (s >> 25) & 1 == 1 && (s >> 26) & 1 == 1 && (s >> 27) & 1 == 1 && (s >> 28) & 1 == 1 && (s >> 29) & 1 == 1 && (s >> 30) & 1 == 1 && (s >> 31) & 1 == 1) ==> s == 0xffff_ffffu32) by (bit_vector);
}

/// Clearing a set bit: which bits remain, and the cardinality drop.
pub proof fn lemma_clear_bit(s: u32, i: u32)
    requires
        i < 32,
        bit32(s, i),
    ensures
        !bit32(s & !(1u32 << i), i),
        forall|j: u32| j < 32 && j != i ==> bit32(s & !(1u32 << i), j) == bit32(s, j),
        pc32(s & !(1u32 << i)) == pc32(s) - 1,
{
    assert((((s & !(1u32 << i)) >> i) & 1 != 1) && ((s & !(1u32 << i)) | (1u32 << i)) == s)
        by (bit_vector)
        requires
            i < 32,
            (s >> i) & 1 == 1,
    ;
    assert(forall|j: u32|
        j < 32 && j != i ==> (#[trigger] ((s & !(1u32 << i)) >> j)) & 1 == (s >> j) & 1)
        by (bit_vector)
        requires
            i < 32,
    ;
    lemma_pc_or_bit(s & !(1u32 << i), i);
}

/// Setting a bit: the bit is then in, the others are untouched.
pub proof fn lemma_set_bit(s: u32, i: u32)
    requires
        i < 32,
    ensures
        bit32(s | (1u32 << i), i),
        forall|j: u32| j < 32 && j != i ==> bit32(s | (1u32 << i), j) == bit32(s, j),
{
    assert((((s | (1u32 << i)) >> i) & 1 == 1)) by (bit_vector)
        requires
            i < 32,
    ;
    assert(forall|j: u32|
        j < 32 && j != i ==> (#[trigger] ((s | (1u32 << i)) >> j)) & 1 == (s >> j) & 1)
        by (bit_vector)
        requires
            i < 32,
    ;
}

/// The empty set has no member.
pub proof fn lemma_zero_bit(j: u32)
    ensures
        !bit32(0u32, j),
{
    assert((0u32 >> j) & 1 != 1) by (bit_vector);
}

/// Per-bit reading of an intersection.
pub proof fn lemma_and_bits(a: u32, b: u32)
    ensures
        forall|j: u32| j < 32 ==> (#[trigger] bit32(a & b, j)) == (bit32(a, j) && bit32(b, j)),
{
    assert(forall|j: u32|
        j < 32 ==> ((#[trigger] ((a & b) >> j)) & 1 == 1) == (((a >> j) & 1 == 1) && ((b >> j) & 1
            == 1))) by (bit_vector);
}

/// Per-bit reading of a union.
pub proof fn lemma_or_bits(a: u32, b: u32)
    ensures
        forall|j: u32| j < 32 ==> (#[trigger] bit32(a | b, j)) == (bit32(a, j) || bit32(b, j)),
{
    assert(forall|j: u32|
        j < 32 ==> ((#[trigger] ((a | b) >> j)) & 1 == 1) == (((a >> j) & 1 == 1) || ((b >> j) & 1
            == 1))) by (bit_vector);
}

/// Per-bit reading of a symmetric difference.
pub proof fn lemma_xor_bits(a: u32, b: u32)
    ensures
        forall|j: u32| j < 32 ==> (#[trigger] bit32(a ^ b, j)) == (bit32(a, j) != bit32(b, j)),
{
    assert(forall|j: u32|
        j < 32 ==> ((#[trigger] ((a ^ b) >> j)) & 1 == 1) == (((a >> j) & 1 == 1) != ((b >> j) & 1
            == 1))) by (bit_vector);
}

/// Per-bit reading of a complement.
pub proof fn lemma_not_bits(a: u32)
    ensures
        forall|j: u32| j < 32 ==> (#[trigger] bit32(!a, j)) == !bit32(a, j),
{
    assert(forall|j: u32|
        j < 32 ==> ((#[trigger] ((!a) >> j)) & 1 == 1) == !((a >> j) & 1 == 1)) by (bit_vector);
}

/// Every card is in the full deck.
pub proof fn lemma_all_bits(j: u32)
    requires
        j < 32,
    ensures
        bit32(0xffff_ffffu32, j),
{
    assert(j < 32 ==> (0xffff_ffffu32 >> j) & 1 == 1) by (bit_vector);
}

/// Two boards that agree on every bit are equal.
pub proof fn lemma_bits_equal(a: u32, b: u32)
    requires
        forall|j: u32| j < 32 ==> bit32(a, j) == bit32(b, j),
    ensures
        a == b,
{
        assert(bit32(a, 0u32) == bit32(b, 0u32));
        assert(bit32(a, 1u32) == bit32(b, 1u32));
        assert(bit32(a, 2u32) == bit32(b, 2u32));
        assert(bit32(a, 3u32) == bit32(b, 3u32));
        assert(bit32(a, 4u32) == bit32(b, 4u32));
        assert(bit32(a, 5u32) == bit32(b, 5u32));
        assert(bit32(a, 6u32) == bit32(b, 6u32));
        assert(bit32(a, 7u32) == bit32(b, 7u32));
        assert(bit32(a, 8u32) == bit32(b, 8u32));
        assert(bit32(a, 9u32) == bit32(b, 9u32));
        assert(bit32(a, 10u32) == bit32(b, 10u32));
        assert(bit32(a, 11u32) == bit32(b, 11u32));
        assert(bit32(a, 12u32) == bit32(b, 12u32));
        assert(bit32(a, 13u32) == bit32(b, 13u32));
        assert(bit32(a, 14u32) == bit32(b, 14u32));
        assert(bit32(a, 15u32) == bit32(b, 15u32));
        assert(bit32(a, 16u32) == bit32(b, 16u32));
        assert(bit32(a, 17u32) == bit32(b, 17u32));
        assert(bit32(a, 18u32) == bit32(b, 18u32));
        assert(bit32(a, 19u32) == bit32(b, 19u32));
        assert(bit32(a, 20u32) == bit32(b, 20u32));
        assert(bit32(a, 21u32) == bit32(b, 21u32));
        assert(bit32(a, 22u32) == bit32(b, 22u32));
        assert(bit32(a, 23u32) == bit32(b, 23u32));
        assert(bit32(a, 24u32) == bit32(b, 24u32));
        assert(bit32(a, 25u32) == bit32(b, 25u32));
        assert(bit32(a, 26u32) == bit32(b, 26u32));
        assert(bit32(a, 27u32) == bit32(b, 27u32));
        assert(bit32(a, 28u32) == bit32(b, 28u32));
        assert(bit32(a, 29u32) == bit32(b, 29u32));
        assert(bit32(a, 30u32) == bit32(b, 30u32));
        assert(bit32(a, 31u32) == bit32(b, 31u32));
    assert(((((a >> 0) & 1 == 1) == ((b >> 0) & 1 == 1)) && (((a >> 1) & 1 == 1) == ((b >> 1) & 1 == 1)) && (((a >> 2) & 1 == 1) == ((b >> 2) & 1 == 1)) && (((a >> 3) & 1 == 1) == ((b >> 3) & 1 == 1)) && (((a >> 4) & 1 == 1) == ((b >> 4) & 1 == 1)) && (((a >> 5) & 1 == 1) == ((b >> 5) & 1 == 1)) && (((a >> 6) & 1 == 1) == ((b >> 6) & 1 == 1)) && (((a >> 7) & 1 == 1) == ((b >> 7) & 1 == 1)) && (((a >> 8) & 1 == 1) == ((b >> 8) & 1 == 1)) && (((a >> 9) & 1 == 1) == ((b >> 9) & 1 == 1)) && (((a >> 10) & 1 == 1) == ((b >> 10) & 1 == 1)) && (((a >> 11) & 1 == 1) == ((b >> 11) & 1 == 1)) && (((a >> 12) & 1 == 1) == ((b >> 12) & 1 == 1)) && (((a >> 13) & 1 == 1) == ((b >> 13) & 1 == 1)) && (((a >> 14) & 1 == 1) == ((b >> 14) & 1 == 1)) && (((a >> 15) & 1 == 1) == ((b >> 15) & 1 == 1)) && (((a >> 16) & 1 == 1) == ((b >> 16) & 1 == 1)) && (((a >> 17) & 1 == 1) == ((b >> 17) & 1 == 1)) && (((a >> 18) & 1 == 1) == ((b >> 18) & 1 == 1)) && (((a >> 19) & 1 == 1) == ((b >> 19) & 1 == 1)) && (((a >> 20) & 1 == 1) == ((b >> 20) & 1 == 1)) && (((a >> 21) & 1 == 1) == ((b >> 21) & 1 == 1)) && (((a >> 22) & 1 == 1) == ((b >> 22) & 1 == 1)) && (((a >> 23) & 1 == 1) == ((b >> 23) & 1 == 1)) && (((a >> 24) & 1 == 1) == ((b >> 24) & 1 == 1)) && (((a >> 25) & 1 == 1) == ((b >> 25) & 1 == 1)) && (((a >> 26) & 1 == 1) == ((b >> 26) & 1 == 1)) && (((a >> 27) & 1 == 1) == ((b >> 27) & 1 == 1)) && (((a >> 28) & 1 == 1) == ((b >> 28) & 1 == 1)) && (((a >> 29) & 1 == 1) == ((b >> 29) & 1 == 1)) && (((a >> 30) & 1 == 1) == ((b >> 30) & 1 == 1)) && (((a >> 31) & 1 == 1) == ((b >> 31) & 1 == 1))) ==> a == b) by (bit_vector);
}

/// A non-empty board holds some card.
pub proof fn lemma_nonzero_has_bit(s: u32)
    requires
        s != 0,
    ensures
        exists|j: u32| j < 32 && bit32(s, j),
{
    if forall|j: u32| j < 32 ==> !(#[trigger] bit32(s, j)) {
        assert forall|j: u32| j < 32 implies bit32(s, j) == bit32(0u32, j) by {
            lemma_zero_bit(j);
        }
        lemma_bits_equal(s, 0u32);
    }
}

/// The full deck holds all 32 cards.
pub proof fn lemma_pc_all()
    ensures
        pc32(0xffff_ffffu32) == 32,
{
    lemma_pc_all_upto(32);
}

proof fn lemma_pc_all_upto(k: nat)
    requires
        k <= 32,
    ensures
        pc_u(0xffff_ffffu32, k) == k,
    decreases k,
{
    if k > 0 {
        lemma_pc_all_upto((k - 1) as nat);
        lemma_all_bits((k - 1) as u32);
    }
}

/// Toggling a bit that is set clears it.
pub proof fn lemma_xor_is_clear(s: u32, i: u32)
    requires
        i < 32,
        bit32(s, i),
    ensures
        s ^ (1u32 << i) == s & !(1u32 << i),
{
    assert((s >> i) & 1 == 1 ==> (s ^ (1u32 << i)) == (s & !(1u32 << i))) by (bit_vector)
        requires
            i < 32,
    ;
}



impl Stack {
    /// The full 32-card deck.
    pub const ALL: u32 = 0xffff_ffffu32;

    pub open spec fn spec_has(self, i: u32) -> bool {
        bit32(self.bits, i)
    }

    pub open spec fn spec_len(self) -> nat {
        pc32(self.bits)
    }

    pub fn empty() -> (r: Self)
        ensures
            r.bits == 0u32,
    {
        Stack { bits: 0 }
    }

    pub fn full() -> (r: Self)
        ensures
            r.bits == 0xffff_ffffu32,
    {
        Stack { bits: 0xffff_ffff }
    }

    /// Membership test for the card with index `i`.
    pub fn has_index(&self, i: u32) -> (r: bool)
        requires
            i < 32,
        ensures
            r == self.spec_has(i),
    {
        (self.bits >> i) & 1 == 1
    }

    pub fn union(&self, other: &Stack) -> (r: Stack)
        ensures
            r.bits == self.bits | other.bits,
    {
        Stack { bits: self.bits | other.bits }
    }

    pub fn intersect(&self, other: &Stack) -> (r: Stack)
        ensures
            r.bits == self.bits & other.bits,
    {
        Stack { bits: self.bits & other.bits }
    }

    /// Symmetric difference; with `other` a subset of `self` this removes it.
    pub fn sym_diff(&self, other: &Stack) -> (r: Stack)
        ensures
            r.bits == self.bits ^ other.bits,
    {
        Stack { bits: self.bits ^ other.bits }
    }

    pub fn is_empty(&self) -> (r: bool)
        ensures
            r == (self.bits == 0),
            r == (self.spec_len() == 0),
    {
        proof {
            lemma_pc_zero(self.bits);
        }
        self.bits == 0
    }

    /// Number of cards in the set.
    pub fn len(&self) -> (r: u32)
        ensures
            r == self.spec_len(),
    {
        let mut cnt: u32 = 0;
        let mut i: u32 = 0;
        while i < 32
            invariant
                i <= 32,
                cnt == pc_u(self.bits, i as nat),
                cnt <= i,
            decreases 32 - i,
        {
            if (self.bits >> i) & 1 == 1 {
                cnt = cnt + 1;
            }
            i = i + 1;
        }
        cnt
    }

    /// The set holding the cards listed in `v[start..end]`, which must be
    /// distinct indices below 32.
    pub fn from_slice(v: &Vec<u32>, start: usize, end: usize) -> (r: Stack)
        requires
            start <= end <= v@.len(),
            forall|m: int| start <= m < end ==> v@[m] < 32,
            forall|m1: int, m2: int| start <= m1 < m2 < end ==> v@[m1] != v@[m2],
        ensures
            r.spec_len() == end - start,
            forall|j: u32|
                j < 32 ==> ((#[trigger] bit32(r.bits, j)) <==> exists|m: int|
                    start <= m < end && v@[m] == j),
    {
        let mut bits: u32 = 0;
        let mut cur: usize = start;
        proof {
            lemma_pc_zero(0u32);
            assert forall|j: u32| j < 32 implies !bit32(0u32, j) by {
                lemma_zero_bit(j);
            }
        }
        while cur < end
            invariant
                start <= cur <= end <= v@.len(),
                forall|m: int| start <= m < end ==> v@[m] < 32,
                forall|m1: int, m2: int| start <= m1 < m2 < end ==> v@[m1] != v@[m2],
                pc32(bits) == cur - start,
                forall|j: u32|
                    j < 32 ==> ((#[trigger] bit32(bits, j)) <==> exists|m: int|
                        start <= m < cur && v@[m] == j),
            decreases end - cur,
        {
            let x = v[cur];
            proof {
                if bit32(bits, x) {
                    let m = choose|m: int| start <= m < cur && v@[m] == x;
                    assert(v@[m] == v@[cur as int]);
                    assert(false);
                }
                lemma_set_bit(bits, x);
                lemma_pc_or_bit(bits, x);
                assert forall|j: u32| j < 32 implies ((#[trigger] bit32(bits | (1u32 << x), j))
                    <==> exists|m: int| start <= m < cur + 1 && v@[m] == j) by {
                    if j == x {
                        assert(bit32(bits | (1u32 << x), j));
                        assert(start <= cur < cur + 1 && v@[cur as int] == j);
                    } else {
                        assert(bit32(bits | (1u32 << x), j) == bit32(bits, j));
                        if exists|m: int| start <= m < cur + 1 && v@[m] == j {
                            let m = choose|m: int| start <= m < cur + 1 && v@[m] == j;
                            assert(m != cur);
                            assert(start <= m < cur && v@[m] == j);
                            assert(bit32(bits, j));
                        }
                        if bit32(bits, j) {
                            let m = choose|m: int| start <= m < cur && v@[m] == j;
                            assert(start <= m < cur + 1 && v@[m] == j);
                        }
                    }
                }
            }
            bits = bits | (1u32 << x);
            cur = cur + 1;
        }
        Stack { bits }
    }

    /// The index of the `k`-th card in the set, counting from the lowest:
    /// the returned position is a member with exactly `k` members below it.
    pub fn nth_index(&self, k: u32) -> (r: u32)
        requires
            k < self.spec_len(),
        ensures
            r < 32,
            self.spec_has(r),
            pc_u(self.bits, r as nat) == k,
    {
        let mut cnt: u32 = 0;
        let mut i: u32 = 0;
        while i < 32
            invariant
                i <= 32,
                cnt == pc_u(self.bits, i as nat),
                cnt <= k < self.spec_len(),
            decreases 32 - i,
        {
            if (self.bits >> i) & 1 == 1 {
                if cnt == k {
                    return i;
                }
                cnt = cnt + 1;
            }
            i = i + 1;
        }
        proof {
            assert(false);
        }
        0
    }
}

} // verus!
