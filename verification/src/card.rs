use vstd::prelude::*;
use crate::stack::bit32;

verus! {

/// One of the four suits. The trump-relative order between suits exists only
/// through the trump choice of a round; within a suit, a card with a higher
/// index outranks a lower one.
#[derive(Clone, Copy, PartialEq, Eq, Structural, Debug)]
pub enum Suite {
    Pijkens,
    Klavers,
    Harten,
    Koeken,
}

/// The suit's position in the card encoding: cards `8*k .. 8*k + 8` share
/// the suit with index `k`.
pub open spec fn suite_index(s: Suite) -> u32 {
    match s {
        Suite::Pijkens => 0,
        Suite::Klavers => 1,
        Suite::Harten => 2,
        Suite::Koeken => 3,
    }
}

pub open spec fn suite_of_index(k: u32) -> Suite {
    if k == 0 {
        Suite::Pijkens
    } else if k == 1 {
        Suite::Klavers
    } else if k == 2 {
        Suite::Harten
    } else {
        Suite::Koeken
    }
}

/// The bit mask of the eight cards of suit `s`.
pub open spec fn spec_suite_mask(s: Suite) -> u32 {
    0xffu32 << (8 * suite_index(s))
}

impl Suite {
    pub fn index(&self) -> (r: u32)
        ensures
            r == suite_index(*self),
            r < 4,
    {
        match self {
            Suite::Pijkens => 0,
            Suite::Klavers => 1,
            Suite::Harten => 2,
            Suite::Koeken => 3,
        }
    }

    pub fn from_index(k: u32) -> (r: Suite)
        requires
            k < 4,
        ensures
            r == suite_of_index(k),
            suite_index(r) == k,
    {
        if k == 0 {
            Suite::Pijkens
        } else if k == 1 {
            Suite::Klavers
        } else if k == 2 {
            Suite::Harten
        } else {
            Suite::Koeken
        }
    }

    /// The mask of this suit's eight cards.
    pub fn mask(&self) -> (r: u32)
        ensures
            r == spec_suite_mask(*self),
    {
        0xffu32 << (8 * self.index())
    }
}

/// A card in the suit of `s` lies in `s`'s eight-card block.
pub proof fn lemma_suite_mask_bit(s: Suite, i: u32)
    requires
        i < 32,
    ensures
        bit32(spec_suite_mask(s), i) <==> suite_index(s) == i / 8,
{
    let k = suite_index(s);
    assert((((0xffu32 << (8 * k)) >> i) & 1 == 1) <==> (k == i / 8)) by (bit_vector)
        requires
            k < 4,
            i < 32,
    ;
}

/// A card, identified by its index in `0..32`; the suit is `index / 8` and
/// the rank within the suit is `index % 8`, ranks ordered by strength.
#[derive(Clone, Copy, PartialEq, Eq, Structural, Debug)]
pub struct Card {
    pub index: u8,
}

/// The point value of the card with index `i`: the three lowest ranks of
/// each suit are worth nothing, the rest 1 through 5, so a suit holds 15
/// points and the deck 60.
pub open spec fn point_of(i: u32) -> nat {
    let r = (i % 8) as nat;
    if r < 3 {
        0
    } else {
        (r - 2) as nat
    }
}

/// The mask of all cards with an index strictly above `i`, over all suits.
pub open spec fn spec_above(i: u32) -> u32 {
    ((0xffff_ffffu32 << i) << 1) as u32
}

/// Which bits `spec_above` holds.
pub proof fn lemma_above_bit(i: u32, j: u32)
    requires
        i < 32,
        j < 32,
    ensures
        bit32(spec_above(i), j) <==> j > i,
{
    assert(((((0xffff_ffffu32 << i) << 1) >> j) & 1 == 1) <==> j > i) by (bit_vector)
        requires
            i < 32,
            j < 32,
    ;
}

impl Card {
    pub open spec fn wf(self) -> bool {
        self.index < 32
    }

    pub open spec fn spec_suite(self) -> Suite {
        suite_of_index((self.index / 8) as u32)
    }

    pub fn new(index: u8) -> (r: Card)
        requires
            index < 32,
        ensures
            r.index == index,
            r.wf(),
    {
        Card { index }
    }

    pub fn get_index(&self) -> (r: u8)
        ensures
            r == self.index,
    {
        self.index
    }

    pub fn suite(&self) -> (r: Suite)
        requires
            self.wf(),
        ensures
            r == self.spec_suite(),
    {
        Suite::from_index((self.index / 8) as u32)
    }

    /// The card's point value.
    pub fn points(&self) -> (r: u8)
        requires
            self.wf(),
        ensures
            r == point_of(self.index as u32),
            r <= 5,
    {
        let rank = self.index % 8;
        if rank < 3 {
            0
        } else {
            rank - 2
        }
    }

    /// All cards strictly above this one, before any suit restriction.
    pub fn all_above(&self) -> (r: u32)
        requires
            self.wf(),
        ensures
            r == spec_above(self.index as u32),
    {
        (0xffff_ffffu32 << (self.index as u32)) << 1
    }
}

/// Total points of the cards of `s` below position `k`.
pub open spec fn pts_u(s: u32, k: nat) -> nat
    decreases k,
{
    if k == 0 {
        0
    } else {
        pts_u(s, (k - 1) as nat) + if bit32(s, (k - 1) as u32) {
            point_of((k - 1) as u32)
        } else {
            0nat
        }
    }
}

/// Total points of the card set `s`.
pub open spec fn pts32(s: u32) -> nat {
    pts_u(s, 32)
}

proof fn lemma_pts_or_bit_upto(s: u32, i: u32, k: nat)
    requires
        i < 32,
        !bit32(s, i),
        k <= 32,
    ensures
        pts_u(s | (1u32 << i), k) == pts_u(s, k) + if i < k {
            point_of(i)
        } else {
            0nat
        },
    decreases k,
{
    if k > 0 {
        let j = (k - 1) as u32;
        lemma_pts_or_bit_upto(s, i, (k - 1) as nat);
        assert(((s | (1u32 << i)) >> j) & 1 == (if i == j {
            1u32
        } else {
            (s >> j) & 1
        })) by (bit_vector)
            requires
                i < 32,
                j < 32,
                (s >> i) & 1 != 1,
        ;
    }
}

/// Adding one fresh card raises the set's points by that card's value.
pub proof fn lemma_pts_or_bit(s: u32, i: u32)
    requires
        i < 32,
        !bit32(s, i),
    ensures
        pts32(s | (1u32 << i)) == pts32(s) + point_of(i),
{
    lemma_pts_or_bit_upto(s, i, 32);
}

proof fn lemma_pts_zero_upto(k: nat)
    requires
        k <= 32,
    ensures
        pts_u(0u32, k) == 0,
    decreases k,
{
    if k > 0 {
        lemma_pts_zero_upto((k - 1) as nat);
        crate::stack::lemma_zero_bit((k - 1) as u32);
    }
}

/// An empty board scores nothing.
pub proof fn lemma_pts_zero()
    ensures
        pts32(0u32) == 0,
{
    lemma_pts_zero_upto(32);
}

proof fn lemma_pts_bound_upto(s: u32, k: nat)
    requires
        k <= 32,
    ensures
        pts_u(s, k) <= 5 * k,
    decreases k,
{
    if k > 0 {
        lemma_pts_bound_upto(s, (k - 1) as nat);
    }
}

/// The whole deck is worth 60 points.
pub proof fn lemma_deck_points()
    ensures
        pts32(0xffff_ffffu32) == 60,
{
    crate::stack::lemma_all_bits(0);
    crate::stack::lemma_all_bits(1);
    crate::stack::lemma_all_bits(2);
    crate::stack::lemma_all_bits(3);
    crate::stack::lemma_all_bits(4);
    crate::stack::lemma_all_bits(5);
    crate::stack::lemma_all_bits(6);
    crate::stack::lemma_all_bits(7);
    crate::stack::lemma_all_bits(8);
    crate::stack::lemma_all_bits(9);
    crate::stack::lemma_all_bits(10);
    crate::stack::lemma_all_bits(11);
    crate::stack::lemma_all_bits(12);
    crate::stack::lemma_all_bits(13);
    crate::stack::lemma_all_bits(14);
    crate::stack::lemma_all_bits(15);
    crate::stack::lemma_all_bits(16);
    crate::stack::lemma_all_bits(17);
    crate::stack::lemma_all_bits(18);
    crate::stack::lemma_all_bits(19);
    crate::stack::lemma_all_bits(20);
    crate::stack::lemma_all_bits(21);
    crate::stack::lemma_all_bits(22);
    crate::stack::lemma_all_bits(23);
    crate::stack::lemma_all_bits(24);
    crate::stack::lemma_all_bits(25);
    crate::stack::lemma_all_bits(26);
    crate::stack::lemma_all_bits(27);
    crate::stack::lemma_all_bits(28);
    crate::stack::lemma_all_bits(29);
    crate::stack::lemma_all_bits(30);
    crate::stack::lemma_all_bits(31);
    assert(pts32(0xffff_ffffu32) == 60) by {
        reveal_with_fuel(pts_u, 33);
    }
}

/// A coarse bound on any card set's points, enough for score arithmetic.
pub proof fn lemma_pts_bound(s: u32)
    ensures
        pts32(s) <= 160,
{
    lemma_pts_bound_upto(s, 32);
}

} // verus!
