use vstd::prelude::*;
use vstd::pervasive::VecAdditionalExecFns;
use crate::action::{ac_has, ac_len, ac_wf, Action, ActionCollection};
use crate::card::{
    lemma_pts_bound, lemma_pts_or_bit, lemma_pts_zero, point_of, pts32, spec_above,
    spec_suite_mask, Card, Suite,
};
use crate::rng::{rand_below, shuffle_u32};
use crate::stack::{
    bit32, lemma_all_bits, lemma_clear_bit, lemma_pc_bound, lemma_pc_full, lemma_pc_or_bit,
    lemma_pc_zero, lemma_set_bit, lemma_zero_bit, pc_u, pc32, Stack,
};
use crate::trick::{spec_winner, trick_pts, lemma_winner_mem, Play, Trick};

verus! {

/// The two stages of a round: the dealer names the trump, then the four
/// seats play out eight tricks.
#[derive(Clone, Copy, PartialEq, Eq, Structural, Debug)]
pub enum RoundPhase {
    PickTrump,
    PlayCards,
}

/// One round of the game: whose turn it is, who dealt, the four hands, the
/// cards already played, the two team scores, the live trick and the phase.
#[derive(Debug)]
pub struct Round {
    pub turn: usize,
    pub dealer: usize,
    pub player_cards: Vec<Stack>,
    pub played_cards: Stack,
    pub scores: Vec<i16>,
    pub trick: Trick,
    pub phase: RoundPhase,
}

/// The bits of player `p`'s hand.
pub open spec fn hand(r: Round, p: int) -> u32 {
    r.player_cards@[p].bits
}

/// In how many of the five places (four hands, played pile) card `j` lies.
pub open spec fn holder_count(r: Round, j: u32) -> int {
    (if bit32(hand(r, 0), j) { 1int } else { 0 }) + (if bit32(hand(r, 1), j) { 1int } else { 0 })
        + (if bit32(hand(r, 2), j) { 1int } else { 0 }) + (if bit32(hand(r, 3), j) {
        1int
    } else {
        0
    }) + (if bit32(r.played_cards.bits, j) { 1int } else { 0 })
}

/// Conservation: every card of the deck lies in exactly one hand or in the
/// played pile — the five sets partition the deck at all times.
pub open spec fn cards_partition(r: Round) -> bool {
    &&& r.player_cards@.len() == 4
    &&& forall|j: u32| j < 32 ==> #[trigger] holder_count(r, j) == 1
}

/// Player `p` has already laid a card into the live trick.
pub open spec fn in_trick(r: Round, p: int) -> bool {
    exists|j: int| 0 <= j < r.trick.plays@.len() && r.trick.plays@[j].player == p
}

/// While a trick is open, its plays came in seat order and end just before
/// the seat whose turn it is.
pub open spec fn trick_structure(r: Round) -> bool {
    let t = r.trick.plays@.len() as int;
    &&& t <= 3
    &&& forall|j: int|
        0 <= j < t ==> (#[trigger] r.trick.plays@[j]).player == ((r.turn + 4 - t + j) % 4)
}

/// Hand sizes follow the trick count: after `c` completed tricks every
/// hand holds `8 - c` cards, less one for seats already in the open trick.
pub open spec fn hand_sizes(r: Round) -> bool {
    let t = r.trick.plays@.len() as int;
    let n = pc32(r.played_cards.bits) as int;
    &&& t <= n
    &&& (n - t) % 4 == 0
    &&& n <= 32
    &&& forall|p: int|
        0 <= p < 4 ==> pc32(#[trigger] hand(r, p)) == 8 - (n - t) / 4 - (if in_trick(r, p) {
            1int
        } else {
            0
        })
}

/// The two team scores always account exactly for the points of the
/// resolved cards (played cards minus those still in the open trick).
pub open spec fn scores_ok(r: Round) -> bool {
    &&& r.scores@.len() == 2
    &&& r.scores@[0] >= 0 && r.scores@[1] >= 0
    &&& r.scores@[0] + r.scores@[1] + trick_pts(r.trick.plays@) == pts32(r.played_cards.bits)
}

/// Well-formedness of a round state.
pub open spec fn wf(r: Round) -> bool {
    &&& r.turn < 4 && r.dealer < 4
    &&& r.trick.wf()
    &&& cards_partition(r)
    &&& match r.phase {
        RoundPhase::PickTrump => {
            &&& r.played_cards.bits == 0
            &&& r.trick.plays@.len() == 0
            &&& r.trick.trump is None
            &&& r.scores@.len() == 2 && r.scores@[0] == 0 && r.scores@[1] == 0
            &&& forall|p: int| 0 <= p < 4 ==> pc32(#[trigger] hand(r, p)) == 8
            &&& r.turn == (r.dealer + 1) % 4
        },
        RoundPhase::PlayCards => {
            &&& trick_structure(r)
            &&& hand_sizes(r)
            &&& scores_ok(r)
        },
    }
}

/// The transient shape of a round whose trick has just received its
/// fourth card and has not been resolved yet.
pub open spec fn trick_complete(r: Round) -> bool {
    let t = r.trick.plays@.len() as int;
    let n = pc32(r.played_cards.bits) as int;
    &&& r.turn < 4 && r.dealer < 4
    &&& r.phase is PlayCards
    &&& r.trick.wf()
    &&& cards_partition(r)
    &&& t == 4
    &&& 4 <= n <= 32 && (n - 4) % 4 == 0
    &&& forall|j: int|
        0 <= j < 4 ==> (#[trigger] r.trick.plays@[j]).player == ((r.turn + 1 + j) % 4)
    &&& forall|p: int| 0 <= p < 4 ==> pc32(#[trigger] hand(r, p)) == 8 - (n - 4) / 4 - 1
    &&& scores_ok(r)
}

/// The round is over once every card has been played.
pub open spec fn spec_terminal(r: Round) -> bool {
    r.played_cards.bits == 0xffff_ffffu32
}

/// The acting seat: the dealer while the trump is picked, else the seat
/// whose turn the trick play has reached.
pub open spec fn spec_turn(r: Round) -> usize {
    match r.phase {
        RoundPhase::PickTrump => r.dealer,
        RoundPhase::PlayCards => r.turn,
    }
}

/// No seat that may still act has laid a card into the open trick.
proof fn lemma_turn_not_in_trick(r: Round)
    requires
        wf(r),
        r.phase is PlayCards,
    ensures
        !in_trick(r, r.turn as int),
{
    let t = r.trick.plays@.len() as int;
    if in_trick(r, r.turn as int) {
        let j = choose|j: int| 0 <= j < t && r.trick.plays@[j].player == r.turn as int;
        let d = 4 - t + j;
        assert(1 <= d <= 3);
        assert((r.turn + d) % 4 == r.turn as int) by {
            assert(r.trick.plays@[j].player == ((r.turn + 4 - t + j) % 4));
        }
        if r.turn + d < 4 {
            vstd::arithmetic::div_mod::lemma_small_mod((r.turn + d) as nat, 4);
        } else {
            vstd::arithmetic::div_mod::lemma_mod_add_multiples_vanish((r.turn + d - 4) as int, 4);
            vstd::arithmetic::div_mod::lemma_small_mod((r.turn + d - 4) as nat, 4);
        }
        assert(false);
    }
}

impl Clone for Round {
    fn clone(&self) -> (r: Self)
        ensures
            r.turn == self.turn,
            r.dealer == self.dealer,
            r.player_cards@ == self.player_cards@,
            r.played_cards == self.played_cards,
            r.scores@ == self.scores@,
            r.trick.trump == self.trick.trump,
            r.trick.plays@ == self.trick.plays@,
            r.phase == self.phase,
    {
        let mut player_cards: Vec<Stack> = Vec::new();
        let mut i: usize = 0;
        while i < self.player_cards.len()
            invariant
                i <= self.player_cards@.len(),
                player_cards@ =~= self.player_cards@.take(i as int),
            decreases self.player_cards@.len() - i,
        {
            player_cards.push(self.player_cards[i]);
            proof {
                assert(self.player_cards@.take(i + 1) =~= self.player_cards@.take(i as int).push(
                    self.player_cards@[i as int],
                ));
            }
            i = i + 1;
        }
        let mut scores: Vec<i16> = Vec::new();
        let mut i: usize = 0;
        while i < self.scores.len()
            invariant
                i <= self.scores@.len(),
                scores@ =~= self.scores@.take(i as int),
            decreases self.scores@.len() - i,
        {
            scores.push(self.scores[i]);
            proof {
                assert(self.scores@.take(i + 1) =~= self.scores@.take(i as int).push(
                    self.scores@[i as int],
                ));
            }
            i = i + 1;
        }
        proof {
            assert(self.player_cards@.take(self.player_cards@.len() as int)
                =~= self.player_cards@);
            assert(self.scores@.take(self.scores@.len() as int) =~= self.scores@);
        }
        Round {
            turn: self.turn,
            dealer: self.dealer,
            player_cards,
            played_cards: self.played_cards,
            scores,
            trick: self.trick.clone(),
            phase: self.phase,
        }
    }
}

impl Round {
    /// A freshly dealt round with the given dealer; the seat after the
    /// dealer will lead the first trick.
    pub fn new(dealer: usize) -> (r: Round)
        requires
            dealer < 4,
        ensures
            wf(r),
            r.phase is PickTrump,
            r.dealer == dealer,
    {
        let mut player_cards: Vec<Stack> = Vec::new();
        player_cards.push(Stack::empty());
        player_cards.push(Stack::empty());
        player_cards.push(Stack::empty());
        player_cards.push(Stack::empty());
        let mut scores: Vec<i16> = Vec::new();
        scores.push(0);
        scores.push(0);
        let mut round = Round {
            turn: (dealer + 1) % 4,
            dealer,
            player_cards,
            played_cards: Stack::empty(),
            scores,
            trick: Trick::new(),
            phase: RoundPhase::PickTrump,
        };
        round.deal_cards();
        proof {
            lemma_pts_zero();
            assert forall|j: u32| j < 32 implies #[trigger] holder_count(round, j) == 1 by {
                lemma_zero_bit(j);
                assert(bit32(hand(round, 3), j) == bit32(hand(round, 3), j));
            }
        }
        round
    }

    /// Record the dealer; the seat to the dealer's left leads.
    pub fn set_dealer(&mut self, dealer: usize)
        requires
            dealer < 4,
        ensures
            final(self).dealer == dealer,
            final(self).turn == (dealer + 1) % 4,
            final(self).player_cards@ == old(self).player_cards@,
            final(self).played_cards == old(self).played_cards,
            final(self).scores@ == old(self).scores@,
            final(self).trick == old(self).trick,
            final(self).phase == old(self).phase,
    {
        self.dealer = dealer;
        self.turn = (dealer + 1) % 4;
    }

    /// Pick the dealer at random.
    pub fn set_random_dealer(&mut self)
        ensures
            final(self).dealer < 4,
            final(self).turn == (final(self).dealer + 1) % 4,
            final(self).player_cards@ == old(self).player_cards@,
            final(self).played_cards == old(self).played_cards,
            final(self).scores@ == old(self).scores@,
            final(self).trick == old(self).trick,
            final(self).phase == old(self).phase,
    {
        let dealer = rand_below(4);
        self.set_dealer(dealer);
    }

    /// Shuffle the deck and split it into four hands of eight cards.
    /// Everything but the hands is left as it is.
    pub fn deal_cards(&mut self)
        requires
            old(self).player_cards@.len() == 4,
        ensures
            final(self).player_cards@.len() == 4,
            forall|j: u32|
                j < 32 ==> ((if bit32(hand(*final(self), 0), j) {
                    1int
                } else {
                    0
                }) + (if bit32(hand(*final(self), 1), j) {
                    1int
                } else {
                    0
                }) + (if bit32(hand(*final(self), 2), j) {
                    1int
                } else {
                    0
                }) + (if #[trigger] bit32(hand(*final(self), 3), j) {
                    1int
                } else {
                    0
                })) == 1,
            forall|p: int| 0 <= p < 4 ==> pc32(#[trigger] hand(*final(self), p)) == 8,
            final(self).turn == old(self).turn,
            final(self).dealer == old(self).dealer,
            final(self).played_cards == old(self).played_cards,
            final(self).scores@ == old(self).scores@,
            final(self).trick == old(self).trick,
            final(self).phase == old(self).phase,
    {
        broadcast use vstd::seq_lib::group_to_multiset_ensures;

        let mut indices: Vec<u32> = Vec::new();
        let mut i: u32 = 0;
        while i < 32
            invariant
                i <= 32,
                indices@.len() == i,
                forall|m: int| 0 <= m < i ==> indices@[m] == m,
            decreases 32 - i,
        {
            indices.push(i);
            i = i + 1;
        }
        let ghost orig = indices@;
        proof {
            assert(orig.no_duplicates());
            orig.lemma_multiset_has_no_duplicates();
        }
        shuffle_u32(&mut indices);
        let ghost v = indices@;
        proof {
            assert forall|m: int| 0 <= m < 32 implies v[m] < 32 by {
                assert(v.contains(v[m]));
                vstd::seq_lib::to_multiset_contains(v, v[m]);
                vstd::seq_lib::to_multiset_contains(orig, v[m]);
                assert(orig.contains(v[m]));
            }
            assert forall|m1: int, m2: int| 0 <= m1 < m2 < 32 implies v[m1] != v[m2] by {
                if v[m1] == v[m2] {
                    v.lemma_multiset_has_no_duplicates_conv();
                    assert(v.no_duplicates());
                }
            }
            assert forall|j: u32| j < 32 implies #[trigger] v.contains(j) by {
                assert(orig[j as int] == j);
                assert(orig.contains(j));
                vstd::seq_lib::to_multiset_contains(orig, j);
                vstd::seq_lib::to_multiset_contains(v, j);
            }
        }
        let h0 = Stack::from_slice(&indices, 0, 8);
        let h1 = Stack::from_slice(&indices, 8, 16);
        let h2 = Stack::from_slice(&indices, 16, 24);
        let h3 = Stack::from_slice(&indices, 24, 32);
        self.player_cards.set(0, h0);
        self.player_cards.set(1, h1);
        self.player_cards.set(2, h2);
        self.player_cards.set(3, h3);
        proof {
            assert forall|j: u32|
                j < 32 implies ((if bit32(hand(*self, 0), j) {
                1int
            } else {
                0
            }) + (if bit32(hand(*self, 1), j) {
                1int
            } else {
                0
            }) + (if bit32(hand(*self, 2), j) {
                1int
            } else {
                0
            }) + (if #[trigger] bit32(hand(*self, 3), j) {
                1int
            } else {
                0
            })) == 1 by {
                assert(v.contains(j));
                let m = choose|m: int| 0 <= m < v.len() && v[m] == j;
                assert(0 <= m < 8 || 8 <= m < 16 || 16 <= m < 24 || 24 <= m < 32);
                if bit32(h0.bits, j) && bit32(h1.bits, j) {
                    let m1 = choose|m1: int| 0 <= m1 < 8 && v[m1] == j;
                    let m2 = choose|m2: int| 8 <= m2 < 16 && v[m2] == j;
                    assert(false);
                }
                if bit32(h0.bits, j) && bit32(h2.bits, j) {
                    let m1 = choose|m1: int| 0 <= m1 < 8 && v[m1] == j;
                    let m2 = choose|m2: int| 16 <= m2 < 24 && v[m2] == j;
                    assert(false);
                }
                if bit32(h0.bits, j) && bit32(h3.bits, j) {
                    let m1 = choose|m1: int| 0 <= m1 < 8 && v[m1] == j;
                    let m2 = choose|m2: int| 24 <= m2 < 32 && v[m2] == j;
                    assert(false);
                }
                if bit32(h1.bits, j) && bit32(h2.bits, j) {
                    let m1 = choose|m1: int| 8 <= m1 < 16 && v[m1] == j;
                    let m2 = choose|m2: int| 16 <= m2 < 24 && v[m2] == j;
                    assert(false);
                }
                if bit32(h1.bits, j) && bit32(h3.bits, j) {
                    let m1 = choose|m1: int| 8 <= m1 < 16 && v[m1] == j;
                    let m2 = choose|m2: int| 24 <= m2 < 32 && v[m2] == j;
                    assert(false);
                }
                if bit32(h2.bits, j) && bit32(h3.bits, j) {
                    let m1 = choose|m1: int| 16 <= m1 < 24 && v[m1] == j;
                    let m2 = choose|m2: int| 24 <= m2 < 32 && v[m2] == j;
                    assert(false);
                }
            }
        }
    }

    /// The given seat's hand.
    pub fn player_cards(&self, player: usize) -> (r: Stack)
        requires
            player < 4,
            self.player_cards@.len() == 4,
        ensures
            r.bits == hand(*self, player as int),
    {
        self.player_cards[player]
    }

    /// The two team scores.
    pub fn scores(&self) -> (r: (i16, i16))
        requires
            self.scores@.len() == 2,
        ensures
            r.0 == self.scores@[0],
            r.1 == self.scores@[1],
    {
        (self.scores[0], self.scores[1])
    }

    /// The acting seat.
    pub fn turn(&self) -> (r: usize)
        ensures
            r == spec_turn(*self),
    {
        match self.phase {
            RoundPhase::PickTrump => self.dealer,
            RoundPhase::PlayCards => self.turn,
        }
    }

    /// Whether the round is over.
    pub fn is_terminal(&self) -> (r: bool)
        ensures
            r == spec_terminal(*self),
    {
        self.played_cards.bits == 0xffff_ffff
    }

    /// Terminal reward for the given seat's team, in half points: 2 for a
    /// win, 0 for a loss, 1 for each side of a tie.
    pub open spec fn spec_reward(r: Round, perspective: int) -> int {
        let team = perspective % 2;
        let own = r.scores@[team];
        let other = r.scores@[1 - team];
        if own > other {
            2int
        } else if own < other {
            0int
        } else {
            1int
        }
    }

    /// Terminal reward for the given seat's team, in half points.
    pub fn reward(&self, perspective: usize) -> (r: u8)
        requires
            wf(*self),
            spec_terminal(*self),
            perspective < 4,
        ensures
            r == Round::spec_reward(*self, perspective as int),
            r <= 2,
    {
        let team = perspective % 2;
        let own = self.scores[team];
        let other = self.scores[1 - team];
        if own > other {
            2
        } else if own < other {
            0
        } else {
            1
        }
    }
}



/// The four seats, walked from `x`: the three successors of a seat are
/// exactly the other three seats.
proof fn lemma_mod4_cycle(x: int)
    requires
        0 <= x < 4,
    ensures
        (x + 4) % 4 == x,
        0 <= (x + 1) % 4 < 4,
        0 <= (x + 2) % 4 < 4,
        0 <= (x + 3) % 4 < 4,
        (x + 1) % 4 != x && (x + 2) % 4 != x && (x + 3) % 4 != x,
        (x + 1) % 4 != (x + 2) % 4 && (x + 1) % 4 != (x + 3) % 4 && (x + 2) % 4 != (x + 3) % 4,
{
    if x == 0 {
    } else if x == 1 {
    } else if x == 2 {
    } else {
    }
}

/// Any seat other than `x` is one of `x`'s three successors.
proof fn lemma_mod4_member(x: int, p: int)
    requires
        0 <= x < 4,
        0 <= p < 4,
        p != x,
    ensures
        p == (x + 1) % 4 || p == (x + 2) % 4 || p == (x + 3) % 4,
{
    if x == 0 {
    } else if x == 1 {
    } else if x == 2 {
    } else {
    }
}

impl Round {
    /// Fix the trump (or none) and open the play phase; the seat to the
    /// dealer's left leads the first trick.
    pub fn set_trump(&mut self, trump: Option<Suite>)
        requires
            wf(*old(self)),
            old(self).phase is PickTrump,
        ensures
            wf(*final(self)),
            final(self).phase is PlayCards,
            final(self).trick.trump == trump,
            final(self).trick.plays@ == old(self).trick.plays@,
            final(self).turn == old(self).turn,
            final(self).dealer == old(self).dealer,
            final(self).player_cards@ == old(self).player_cards@,
            final(self).played_cards == old(self).played_cards,
            final(self).scores@ == old(self).scores@,
    {
        self.trick.set_trump(trump);
        self.phase = RoundPhase::PlayCards;
        proof {
            lemma_pts_zero();
            lemma_pc_zero(self.played_cards.bits);
            assert forall|j: u32| j < 32 implies #[trigger] holder_count(*self, j) == 1 by {
                assert(holder_count(*old(self), j) == 1);
            }
            assert forall|p: int| 0 <= p < 4 implies pc32(#[trigger] hand(*self, p)) == 8 by {
                assert(hand(*self, p) == hand(*old(self), p));
            }
            assert(pc32(self.played_cards.bits) == 0);
        }
    }

    /// Lay `card` from the acting seat's hand into the trick; on the
    /// trick's fourth card the trick is resolved, scored, and the winner
    /// takes the next turn, else the turn passes to the next seat.
    #[verifier::rlimit(100)]
    pub fn play_card(&mut self, card: Card)
        requires
            wf(*old(self)),
            old(self).phase is PlayCards,
            card.wf(),
            bit32(hand(*old(self), old(self).turn as int), card.index as u32),
        ensures
            wf(*final(self)),
            final(self).phase is PlayCards,
            final(self).dealer == old(self).dealer,
            final(self).trick.trump == old(self).trick.trump,
            final(self).played_cards.bits == old(self).played_cards.bits | (1u32 << (
            card.index as u32)),
            pc32(final(self).played_cards.bits) == pc32(old(self).played_cards.bits) + 1,
            hand(*final(self), old(self).turn as int) == hand(*old(self), old(self).turn as int)
                & !(1u32 << (card.index as u32)),
            forall|p: int|
                0 <= p < 4 && p != old(self).turn ==> hand(*final(self), p) == hand(
                    *old(self),
                    p,
                ),
            old(self).trick.plays@.len() < 3 ==> {
                &&& final(self).trick.plays@ == old(self).trick.plays@.push(
                    Play { card, player: old(self).turn },
                )
                &&& final(self).turn == (old(self).turn + 1) % 4
                &&& final(self).scores@ == old(self).scores@
            },
            old(self).trick.plays@.len() == 3 ==> {
                let plays4 = old(self).trick.plays@.push(Play { card, player: old(self).turn });
                let w = spec_winner(old(self).trick.trump, plays4);
                &&& final(self).trick.plays@.len() == 0
                &&& final(self).turn == w.player
                &&& final(self).scores@[(w.player % 2) as int] == old(self).scores@[(w.player % 2) as int]
                    + trick_pts(plays4)
                &&& final(self).scores@[1 - (w.player % 2)] == old(self).scores@[1 - ((w.player % 2) as int)]
            },
    {
        let ghost old_r = *old(self);
        let idx = card.get_index() as u32;
        let q = self.turn;
        let h = self.player_cards[q];
        proof {
            assert(holder_count(old_r, idx) == 1);
            lemma_clear_bit(h.bits, idx);
            lemma_set_bit(self.played_cards.bits, idx);
            lemma_pc_or_bit(self.played_cards.bits, idx);
            lemma_pts_or_bit(self.played_cards.bits, idx);
        }
        self.player_cards.set(q, Stack { bits: h.bits & !(1u32 << idx) });
        self.played_cards = Stack { bits: self.played_cards.bits | (1u32 << idx) };
        self.trick.play(card, q);
        let ghost mid = *self;
        proof {
            let t = old_r.trick.plays@.len() as int;
            let n = pc32(old_r.played_cards.bits) as int;
            assert forall|j: u32| j < 32 implies #[trigger] holder_count(mid, j) == 1 by {
                assert(holder_count(old_r, j) == 1);
                if j != idx {
                    assert(bit32(hand(mid, q as int), j) == bit32(hand(old_r, q as int), j));
                }
            }
            assert(mid.trick.plays@.drop_last() =~= old_r.trick.plays@);
            assert(mid.trick.plays@.last() == Play { card, player: q });
            assert(trick_pts(mid.trick.plays@) == trick_pts(old_r.trick.plays@) + point_of(idx));
            assert forall|p: int| 0 <= p < 4 && p != q implies (in_trick(mid, p) == in_trick(
                old_r,
                p,
            )) by {
                if in_trick(mid, p) {
                    let j = choose|j: int|
                        0 <= j < mid.trick.plays@.len() && mid.trick.plays@[j].player == p;
                    assert(j < t);
                }
                if in_trick(old_r, p) {
                    let j = choose|j: int|
                        0 <= j < t && old_r.trick.plays@[j].player == p;
                    assert(mid.trick.plays@[j].player == p);
                }
            }
            lemma_turn_not_in_trick(old_r);
            assert(in_trick(mid, q as int)) by {
                assert(mid.trick.plays@[t].player == q as int);
            }
            lemma_mod4_cycle(q as int);
        }
        if self.trick.is_finished() {
            proof {
                let t = old_r.trick.plays@.len() as int;
                let n = pc32(old_r.played_cards.bits) as int;
                assert(t == 3);
                assert forall|j: int| 0 <= j < 4 implies (#[trigger] mid.trick.plays@[j]).player
                    == ((mid.turn + 1 + j) % 4) by {
                    if j < 3 {
                        assert(old_r.trick.plays@[j].player == ((old_r.turn + 4 - 3 + j) % 4));
                    } else {
                        lemma_mod4_cycle(q as int);
                    }
                }
                assert forall|p: int| 0 <= p < 4 implies pc32(#[trigger] hand(mid, p)) == 8 - (
                pc32(mid.played_cards.bits) - 4) / 4 - 1 by {
                    lemma_mod4_cycle(q as int);
                    if p != q {
                        lemma_mod4_member(q as int, p);
                        assert(p == (q + 1) % 4 || p == (q + 2) % 4 || p == (q + 3) % 4);
                        assert(old_r.trick.plays@[((p - q - 1 + 4) % 4) as int].player == ((
                        old_r.turn + 4 - 3 + ((p - q - 1 + 4) % 4)) % 4));
                        assert(in_trick(old_r, p));
                    }
                }
                assert(trick_complete(mid));
            }
            self.on_trick_finish();
            proof {
                assert(wf(*self));
            }
        } else {
            proof {
                let t = old_r.trick.plays@.len() as int;
                assert(t < 3);
            }
            self.turn = (q + 1) % 4;
            proof {
                let t = old_r.trick.plays@.len() as int;
                let n = pc32(old_r.played_cards.bits) as int;
                lemma_mod4_cycle(q as int);
                assert forall|j: int|
                    0 <= j < t + 1 implies (#[trigger] self.trick.plays@[j]).player == ((self.turn
                    + 4 - (t + 1) + j) % 4) by {
                    let a = q + 4 - (t + 1) + j + 1;
                    let b = (q + 1) % 4 + 4 - (t + 1) + j;
                    if q + 1 < 4 {
                        assert(b == a - 1 + 1 - 0);
                    } else {
                        assert(q == 3);
                        assert((q + 1) % 4 == 0);
                        vstd::arithmetic::div_mod::lemma_mod_add_multiples_vanish(b, 4);
                    }
                    if j < t {
                        assert(old_r.trick.plays@[j].player == ((q + 4 - t + j) % 4));
                    } else {
                        assert(self.trick.plays@[j].player == q as int);
                        vstd::arithmetic::div_mod::lemma_mod_add_multiples_vanish(q as int, 4);
                        vstd::arithmetic::div_mod::lemma_small_mod(q as nat, 4);
                    }
                }
                assert(pc32(self.played_cards.bits) == n + 1);
                assert forall|p: int| 0 <= p < 4 implies (hand(*self, p) == hand(mid, p)
                    && in_trick(*self, p) == in_trick(mid, p)) by {
                    if in_trick(*self, p) {
                        let j2 = choose|j2: int|
                            0 <= j2 < self.trick.plays@.len() && self.trick.plays@[j2].player == p;
                        assert(mid.trick.plays@[j2].player == p);
                    }
                    if in_trick(mid, p) {
                        let j2 = choose|j2: int|
                            0 <= j2 < mid.trick.plays@.len() && mid.trick.plays@[j2].player == p;
                        assert(self.trick.plays@[j2].player == p);
                    }
                }
                assert(hand_sizes(*self)) by {
                    assert(pc32(hand(*self, q as int)) == pc32(hand(old_r, q as int)) - 1);
                    assert((n + 1 - (t + 1)) % 4 == 0);
                }
                assert(scores_ok(*self));
                assert forall|j: u32| j < 32 implies #[trigger] holder_count(*self, j) == 1 by {
                    assert(holder_count(mid, j) == 1);
                    assert(hand(*self, 0) == hand(mid, 0) && hand(*self, 1) == hand(mid, 1)
                        && hand(*self, 2) == hand(mid, 2) && hand(*self, 3) == hand(mid, 3)
                        && self.played_cards == mid.played_cards);
                }
            }
        }
    }

    /// Resolve a trick that has its four cards: credit its points to the
    /// winning team, hand the turn to the winner and clear the trick.
    pub fn on_trick_finish(&mut self)
        requires
            trick_complete(*old(self)),
        ensures
            wf(*final(self)),
            final(self).phase is PlayCards,
            final(self).dealer == old(self).dealer,
            final(self).trick.trump == old(self).trick.trump,
            final(self).trick.plays@.len() == 0,
            final(self).player_cards@ == old(self).player_cards@,
            final(self).played_cards == old(self).played_cards,
            ({
                let w = spec_winner(old(self).trick.trump, old(self).trick.plays@);
                &&& final(self).turn == w.player
                &&& final(self).scores@[(w.player % 2) as int] == old(self).scores@[(w.player % 2) as int]
                    + trick_pts(old(self).trick.plays@)
                &&& final(self).scores@[1 - (w.player % 2)] == old(self).scores@[1 - ((w.player % 2) as int)]
            }),
    {
        let ghost old_r = *old(self);
        proof {
            lemma_winner_mem(old_r.trick.trump, old_r.trick.plays@);
            lemma_pts_bound(old_r.played_cards.bits);
        }
        let (wc, wp) = match self.trick.winner() {
            Some(w) => w,
            None => {
                proof {
                    assert(false);
                }
                (Card { index: 0 }, 0)
            },
        };
        let winning_team = wp % 2;
        let sc = self.trick.score();
        let cur = self.scores[winning_team];
        self.scores.set(winning_team, cur + sc as i16);
        self.turn = wp;
        self.trick.clear();
        proof {
            let w = spec_winner(old_r.trick.trump, old_r.trick.plays@);
            let j = choose|j: int|
                0 <= j < old_r.trick.plays@.len() && old_r.trick.plays@[j] == w;
            assert(w.player < 4);
            assert forall|j2: u32| j2 < 32 implies #[trigger] holder_count(*self, j2) == 1 by {
                assert(holder_count(old_r, j2) == 1);
            }
            let n = pc32(old_r.played_cards.bits) as int;
            let k = (n - 4) / 4;
            assert(n - 4 == 4 * k + ((n - 4) % 4));
            assert(n == 4 * k + 4);
            assert(n / 4 == k + 1) by (nonlinear_arith)
                requires
                    n == 4 * k + 4,
            ;
            assert forall|p: int| 0 <= p < 4 implies (pc32(#[trigger] hand(*self, p)) == 8 - (
            pc32(self.played_cards.bits) - 0) / 4 - 0 && !in_trick(*self, p)) by {
                assert(hand(*self, p) == hand(old_r, p));
                assert(pc32(hand(old_r, p)) == 8 - k - 1);
            }
            assert(wf(*self)) by {
                assert(trick_pts(self.trick.plays@) == 0);
                assert((pc32(self.played_cards.bits) - 0) % 4 == 0) by (nonlinear_arith)
                    requires
                        pc32(self.played_cards.bits) == 4 * k + 4,
                ;
            }
        }
    }
}


/// The legal cards of the acting seat, by the rules' exact precedence:
/// the whole hand; restricted to the led suit when the seat can follow;
/// then, when the seat's team is not winning the trick, restricted to the
/// cards that beat the current winner (higher in its suit, joined by all
/// trumps when a trump is active and the winner is no trump) — but only
/// when such cards are held at all.
pub open spec fn spec_possible_cards(r: Round) -> u32 {
    let h = hand(r, r.turn as int);
    let base = match r.trick.spec_suite_to_follow() {
        Some(su) => if h & spec_suite_mask(su) != 0 {
            h & spec_suite_mask(su)
        } else {
            h
        },
        None => h,
    };
    if r.trick.plays@.len() == 0 {
        base
    } else {
        let w = spec_winner(r.trick.trump, r.trick.plays@);
        if w.player % 2 != r.turn % 2 {
            let m0 = spec_above(w.card.index as u32) & spec_suite_mask(w.card.spec_suite());
            let m = match r.trick.trump {
                Some(tr) => if w.card.spec_suite() != tr {
                    m0 | spec_suite_mask(tr)
                } else {
                    m0
                },
                None => m0,
            };
            if base & m != 0 {
                base & m
            } else {
                base
            }
        } else {
            base
        }
    }
}

/// The suits the dealer can name as trump: those of which the dealer
/// holds at least one card.
pub open spec fn spec_trump_suites(r: Round) -> u8 {
    (((if hand(r, r.dealer as int) & spec_suite_mask(Suite::Pijkens) != 0 {
        1int
    } else {
        0
    }) + (if hand(r, r.dealer as int) & spec_suite_mask(Suite::Klavers) != 0 {
        2int
    } else {
        0
    }) + (if hand(r, r.dealer as int) & spec_suite_mask(Suite::Harten) != 0 {
        4int
    } else {
        0
    }) + (if hand(r, r.dealer as int) & spec_suite_mask(Suite::Koeken) != 0 {
        8int
    } else {
        0
    })) as u8)
}

/// The full legal-action set of the acting seat in the current phase.
pub open spec fn spec_possible_actions(r: Round) -> ActionCollection {
    match r.phase {
        RoundPhase::PickTrump => ActionCollection::Trumps {
            suites: spec_trump_suites(r),
            no_trump: true,
        },
        RoundPhase::PlayCards => ActionCollection::Cards(Stack { bits: spec_possible_cards(r) }),
    }
}

/// Every legal card is held by the acting seat.
pub proof fn lemma_possible_sub_hand(r: Round)
    requires
        r.player_cards@.len() == 4,
        r.turn < 4,
    ensures
        forall|i: u32|
            i < 32 && #[trigger] bit32(spec_possible_cards(r), i) ==> bit32(
                hand(r, r.turn as int),
                i,
            ),
{
    let h = hand(r, r.turn as int);
    assert forall|i: u32|
        i < 32 && #[trigger] bit32(spec_possible_cards(r), i) implies bit32(h, i) by {
        match r.trick.spec_suite_to_follow() {
            Some(su) => {
                crate::stack::lemma_and_bits(h, spec_suite_mask(su));
            },
            None => {},
        }
        if r.trick.plays@.len() > 0 {
            let w = spec_winner(r.trick.trump, r.trick.plays@);
            let m0 = spec_above(w.card.index as u32) & spec_suite_mask(w.card.spec_suite());
            crate::stack::lemma_and_bits(h, m0);
            match r.trick.trump {
                Some(tr) => {
                    crate::stack::lemma_and_bits(h, m0 | spec_suite_mask(tr));
                    crate::stack::lemma_and_bits(
                        h & spec_suite_mask(w.card.spec_suite()),
                        m0 | spec_suite_mask(tr),
                    );
                    match r.trick.spec_suite_to_follow() {
                        Some(su) => {
                            crate::stack::lemma_and_bits(h & spec_suite_mask(su), m0);
                            crate::stack::lemma_and_bits(
                                h & spec_suite_mask(su),
                                m0 | spec_suite_mask(tr),
                            );
                        },
                        None => {},
                    }
                },
                None => {
                    match r.trick.spec_suite_to_follow() {
                        Some(su) => {
                            crate::stack::lemma_and_bits(h & spec_suite_mask(su), m0);
                        },
                        None => {},
                    }
                },
            }
        }
    }
}

/// A non-terminal play state always offers at least one card.
pub proof fn lemma_possible_nonempty(r: Round)
    requires
        wf(r),
        r.phase is PlayCards,
        !spec_terminal(r),
    ensures
        spec_possible_cards(r) != 0,
{
    let h = hand(r, r.turn as int);
    lemma_turn_not_in_trick(r);
    let t = r.trick.plays@.len() as int;
    let n = pc32(r.played_cards.bits) as int;
    if n == 32 {
        lemma_pc_full(r.played_cards.bits);
        assert(false);
    }
    assert(pc32(h) == 8 - (n - t) / 4);
    assert((n - t) / 4 <= 7) by (nonlinear_arith)
        requires
            n - t <= 31,
            (n - t) % 4 == 0,
    ;
    lemma_pc_zero(h);
    assert(h != 0);
}

impl Round {
    /// The legal card plays of the acting seat.
    pub fn possible_card_actions(&self) -> (r: ActionCollection)
        requires
            wf(*self),
            self.phase is PlayCards,
        ensures
            r == spec_possible_actions(*self),
            ac_wf(r),
    {
        let mut cards = self.player_cards[self.turn].bits;
        match self.trick.suite_to_follow() {
            Some(su) => {
                let f = cards & su.mask();
                if f != 0 {
                    cards = f;
                }
            },
            None => {},
        }
        proof {
            if self.trick.plays@.len() > 0 {
                lemma_winner_mem(self.trick.trump, self.trick.plays@);
                let j = choose|j: int|
                    0 <= j < self.trick.plays@.len() && self.trick.plays@[j] == spec_winner(
                        self.trick.trump,
                        self.trick.plays@,
                    );
                assert(spec_winner(self.trick.trump, self.trick.plays@).card.wf());
            }
        }
        match self.trick.winner() {
            Some((wc, wp)) => {
                if wp % 2 != self.turn % 2 {
                    let m0 = wc.all_above() & wc.suite().mask();
                    let m = match self.trick.trump() {
                        Some(tr) => {
                            if wc.suite() != tr {
                                m0 | tr.mask()
                            } else {
                                m0
                            }
                        },
                        None => m0,
                    };
                    let f = cards & m;
                    if f != 0 {
                        cards = f;
                    }
                }
            },
            None => {},
        }
        ActionCollection::Cards(Stack { bits: cards })
    }

    /// The dealer's trump choices: each suit held, and always no-trump.
    pub fn possible_trump_actions(&self) -> (r: ActionCollection)
        requires
            wf(*self),
            self.phase is PickTrump,
        ensures
            r == spec_possible_actions(*self),
            ac_wf(r),
    {
        let cards = self.player_cards[self.dealer];
        let mut bits: u8 = 0;
        if cards.bits & Suite::Pijkens.mask() != 0 {
            bits = bits + 1;
        }
        if cards.bits & Suite::Klavers.mask() != 0 {
            bits = bits + 2;
        }
        if cards.bits & Suite::Harten.mask() != 0 {
            bits = bits + 4;
        }
        if cards.bits & Suite::Koeken.mask() != 0 {
            bits = bits + 8;
        }
        ActionCollection::Trumps { suites: bits, no_trump: true }
    }

    /// The legal actions of the acting seat in the current phase.
    pub fn possible_actions(&self) -> (r: ActionCollection)
        requires
            wf(*self),
        ensures
            r == spec_possible_actions(*self),
            ac_wf(r),
            !spec_terminal(*self) ==> ac_len(r) >= 1,
    {
        let r = match self.phase {
            RoundPhase::PickTrump => self.possible_trump_actions(),
            RoundPhase::PlayCards => self.possible_card_actions(),
        };
        proof {
            if !spec_terminal(*self) {
                match self.phase {
                    RoundPhase::PickTrump => {},
                    RoundPhase::PlayCards => {
                        lemma_possible_nonempty(*self);
                        lemma_pc_zero(spec_possible_cards(*self));
                    },
                }
            }
        }
        r
    }

    /// The exact state change one legal action makes: a card play moves
    /// the card from the actor's hand to the played pile and advances the
    /// trick (emptying it on its fourth card); a trump choice fixes the
    /// trump and opens the play phase, touching nothing else.
    pub open spec fn spec_applied(pre: Round, a: Action, post: Round) -> bool {
        match a {
            Action::PlayCard(c) => {
                &&& post.phase is PlayCards
                &&& post.played_cards.bits == pre.played_cards.bits | (1u32 << (c.index as u32))
                &&& pc32(post.played_cards.bits) == pc32(pre.played_cards.bits) + 1
                &&& post.trick.plays@.len() == (pre.trick.plays@.len() + 1) % 4
                &&& post.trick.trump == pre.trick.trump
                &&& hand(post, pre.turn as int) == hand(pre, pre.turn as int) & !(1u32 << (
                c.index as u32))
                &&& forall|p: int|
                    0 <= p < 4 && p != pre.turn ==> hand(post, p) == hand(pre, p)
                &&& forall|q: int| 0 <= q < 2 ==> post.scores@[q] >= pre.scores@[q]
            },
            Action::PickTrump(t) => {
                &&& pre.phase is PickTrump
                &&& post.phase is PlayCards
                &&& post.trick.trump == t
                &&& post.played_cards == pre.played_cards
                &&& post.turn == pre.turn
                &&& post.player_cards@ == pre.player_cards@
                &&& post.scores@ == pre.scores@
            },
        }
    }

    /// How far the round still has to go: one step for the trump choice,
    /// one per unplayed card. Applying any legal action lowers it.
    pub open spec fn spec_measure(r: Round) -> int {
        (if r.phase is PickTrump {
            1int
        } else {
            0
        }) + 32 - pc32(r.played_cards.bits)
    }

    /// Apply a legal action: a trump choice closes the bidding, a card
    /// play advances the trick.
    pub fn apply_action(&mut self, action: Action)
        requires
            wf(*old(self)),
            ac_has(spec_possible_actions(*old(self)), action),
        ensures
            wf(*final(self)),
            final(self).dealer == old(self).dealer,
            Round::spec_measure(*final(self)) < Round::spec_measure(*old(self)),
            Round::spec_applied(*old(self), action, *final(self)),
    {
        match action {
            Action::PlayCard(c) => {
                proof {
                    if self.phase is PickTrump {
                        assert(false);
                    }
                    lemma_possible_sub_hand(*self);
                    lemma_pc_bound(self.played_cards.bits);
                }
                self.play_card(c);
            },
            Action::PickTrump(t) => {
                proof {
                    if self.phase is PlayCards {
                        assert(false);
                    }
                    lemma_pc_zero(self.played_cards.bits);
                }
                self.set_trump(t);
            },
        }
    }

    /// Rotate the dealer, wipe the table and deal fresh hands for the
    /// next round.
    pub fn setup_for_next_round(&mut self)
        requires
            wf(*old(self)),
        ensures
            wf(*final(self)),
            final(self).phase is PickTrump,
            final(self).dealer == (old(self).dealer + 1) % 4,
    {
        let next_dealer = (self.dealer + 1) % 4;
        self.set_dealer(next_dealer);
        self.played_cards = Stack::empty();
        self.scores.set(0, 0);
        self.scores.set(1, 0);
        self.trick = Trick::new();
        self.phase = RoundPhase::PickTrump;
        self.deal_cards();
        proof {
            lemma_pts_zero();
            assert forall|j: u32| j < 32 implies #[trigger] holder_count(*self, j) == 1 by {
                lemma_zero_bit(j);
                assert(bit32(hand(*self, 3), j) == bit32(hand(*self, 3), j));
            }
        }
    }
}


impl Round {
    /// Determinize: keep the observer's own hand and everything public
    /// (played cards, trick, scores, turn), and redeal the unseen cards
    /// of the other three seats at random, each keeping its hand size.
    #[verifier::rlimit(100)]
    pub fn randomize(&self, observer: usize) -> (r: Round)
        requires
            wf(*self),
            observer < 4,
        ensures
            wf(r),
            r.turn == self.turn,
            r.dealer == self.dealer,
            r.phase == self.phase,
            r.played_cards == self.played_cards,
            r.scores@ == self.scores@,
            r.trick.trump == self.trick.trump,
            r.trick.plays@ == self.trick.plays@,
            hand(r, observer as int) == hand(*self, observer as int),
            forall|p: int| 0 <= p < 4 ==> pc32(#[trigger] hand(r, p)) == pc32(hand(*self, p)),
    {
        broadcast use vstd::seq_lib::group_to_multiset_ensures;

        let mut round = self.clone();
        let hobs = self.player_cards[observer].bits;
        let ctd = (0xffff_ffffu32 ^ hobs) ^ self.played_cards.bits;
        proof {
            crate::stack::lemma_xor_bits(0xffff_ffffu32, hobs);
            crate::stack::lemma_xor_bits(0xffff_ffffu32 ^ hobs, self.played_cards.bits);
            assert forall|j: u32| j < 32 implies (#[trigger] bit32(ctd, j) == (!bit32(hobs, j)
                && !bit32(self.played_cards.bits, j))) by {
                lemma_all_bits(j);
                assert(holder_count(*self, j) == 1);
            }
        }
        let mut indices: Vec<u32> = Vec::new();
        let mut i: u32 = 0;
        while i < 32
            invariant
                i <= 32,
                indices@.len() == pc_u(ctd, i as nat),
                forall|m: int| 0 <= m < indices@.len() ==> #[trigger] indices@[m] < i,
                forall|m: int| 0 <= m < indices@.len() ==> bit32(ctd, #[trigger] indices@[m]),
                forall|m1: int, m2: int|
                    0 <= m1 < m2 < indices@.len() ==> indices@[m1] != indices@[m2],
                forall|j: u32|
                    j < i && #[trigger] bit32(ctd, j) ==> exists|m: int|
                        0 <= m < indices@.len() && indices@[m] == j,
            decreases 32 - i,
        {
            let ghost pre = indices@;
            let pushed = (ctd >> i) & 1 == 1;
            if pushed {
                indices.push(i);
            }
            proof {
                assert forall|j: u32|
                    j < i + 1 && #[trigger] bit32(ctd, j) implies exists|m: int|
                    0 <= m < indices@.len() && indices@[m] == j by {
                    if j < i {
                        let m = choose|m: int| 0 <= m < pre.len() && pre[m] == j;
                        assert(indices@[m] == j);
                    } else {
                        assert(pushed);
                        assert(indices@[indices@.len() - 1] == j);
                    }
                }
            }
            i = i + 1;
        }
        let ghost orig = indices@;
        proof {
            lemma_pc_bound(ctd);
            assert(orig.no_duplicates());
            orig.lemma_multiset_has_no_duplicates();
        }
        shuffle_u32(&mut indices);
        let ghost v = indices@;
        proof {
            assert forall|m: int| 0 <= m < v.len() implies (#[trigger] v[m] < 32 && bit32(
                ctd,
                v[m],
            )) by {
                assert(v.contains(v[m]));
                vstd::seq_lib::to_multiset_contains(v, v[m]);
                vstd::seq_lib::to_multiset_contains(orig, v[m]);
                assert(orig.contains(v[m]));
                let m2 = choose|m2: int| 0 <= m2 < orig.len() && orig[m2] == v[m];
                assert(bit32(ctd, orig[m2]));
            }
            assert forall|m1: int, m2: int| 0 <= m1 < m2 < v.len() implies v[m1] != v[m2] by {
                if v[m1] == v[m2] {
                    v.lemma_multiset_has_no_duplicates_conv();
                    assert(v.no_duplicates());
                }
            }
            assert forall|j: u32| j < 32 && #[trigger] bit32(ctd, j) implies v.contains(j) by {
                let m = choose|m: int| 0 <= m < orig.len() && orig[m] == j;
                assert(orig.contains(j));
                vstd::seq_lib::to_multiset_contains(orig, j);
                vstd::seq_lib::to_multiset_contains(v, j);
            }
        }
        let p1 = (observer + 1) % 4;
        let p2 = (observer + 2) % 4;
        let p3 = (observer + 3) % 4;
        proof {
            lemma_mod4_cycle(observer as int);
        }
        let n1 = self.player_cards[p1].len() as usize;
        let n2 = self.player_cards[p2].len() as usize;
        let n3 = self.player_cards[p3].len() as usize;
        proof {
            // the unseen cards are exactly the three other hands, so the
            // index list is as long as the three hand sizes together
            assert forall|j: u32| j < 32 implies (#[trigger] bit32(ctd, j) == (bit32(
                hand(*self, p1 as int),
                j,
            ) || bit32(hand(*self, p2 as int), j) || bit32(hand(*self, p3 as int), j))) by {
                assert(holder_count(*self, j) == 1);
            }
            let u12 = hand(*self, p1 as int) | hand(*self, p2 as int);
            let u123 = u12 | hand(*self, p3 as int);
            crate::stack::lemma_or_bits(hand(*self, p1 as int), hand(*self, p2 as int));
            crate::stack::lemma_or_bits(u12, hand(*self, p3 as int));
            assert forall|j: u32| j < 32 implies #[trigger] bit32(ctd, j) == bit32(u123, j) by {}
            crate::stack::lemma_bits_equal(ctd, u123);
            assert forall|j: u32| j < 32 implies !(#[trigger] bit32(
                hand(*self, p1 as int),
                j,
            ) && bit32(hand(*self, p2 as int), j)) by {
                assert(holder_count(*self, j) == 1);
            }
            assert forall|j: u32| j < 32 implies !(#[trigger] bit32(u12, j) && bit32(
                hand(*self, p3 as int),
                j,
            )) by {
                assert(holder_count(*self, j) == 1);
            }
            assert forall|j: u32| j < 32 implies !bit32(0u32, j) by {
                lemma_zero_bit(j);
            }
            assert forall|j: u32| j < 32 implies bit32(
                hand(*self, p1 as int) & hand(*self, p2 as int),
                j,
            ) == bit32(0u32, j) by {
                crate::stack::lemma_and_bits(hand(*self, p1 as int), hand(*self, p2 as int));
                lemma_zero_bit(j);
            }
            crate::stack::lemma_bits_equal(hand(*self, p1 as int) & hand(*self, p2 as int), 0u32);
            assert forall|j: u32| j < 32 implies bit32(u12 & hand(*self, p3 as int), j) == bit32(
                0u32,
                j,
            ) by {
                crate::stack::lemma_and_bits(u12, hand(*self, p3 as int));
                lemma_zero_bit(j);
            }
            crate::stack::lemma_bits_equal(u12 & hand(*self, p3 as int), 0u32);
            crate::stack::lemma_pc_or_disjoint(hand(*self, p1 as int), hand(*self, p2 as int));
            crate::stack::lemma_pc_or_disjoint(u12, hand(*self, p3 as int));
            assert(pc32(ctd) == n1 + n2 + n3);
            assert(v.len() == pc32(ctd));
        }
        let h1 = Stack::from_slice(&indices, 0, n1);
        let h2 = Stack::from_slice(&indices, n1, n1 + n2);
        let h3 = Stack::from_slice(&indices, n1 + n2, n1 + n2 + n3);
        round.player_cards.set(p1, h1);
        round.player_cards.set(p2, h2);
        round.player_cards.set(p3, h3);
        proof {
            let rr = round;
            assert(hand(rr, observer as int) == hobs);
            assert(hand(rr, p1 as int) == h1.bits && hand(rr, p2 as int) == h2.bits && hand(
                rr,
                p3 as int,
            ) == h3.bits);
            assert forall|j: u32| j < 32 implies #[trigger] holder_count(rr, j) == 1 by {
                assert(holder_count(*self, j) == 1);
                if bit32(ctd, j) {
                    assert(v.contains(j));
                    let m = choose|m: int| 0 <= m < v.len() && v[m] == j;
                    assert(0 <= m < n1 || n1 <= m < n1 + n2 || n1 + n2 <= m < n1 + n2 + n3);
                    assert(bit32(h1.bits, j) || bit32(h2.bits, j) || bit32(h3.bits, j));
                    if bit32(h1.bits, j) && bit32(h2.bits, j) {
                        let m1 = choose|m1: int| 0 <= m1 < n1 && v[m1] == j;
                        let m2 = choose|m2: int| n1 <= m2 < n1 + n2 && v[m2] == j;
                        assert(false);
                    }
                    if bit32(h1.bits, j) && bit32(h3.bits, j) {
                        let m1 = choose|m1: int| 0 <= m1 < n1 && v[m1] == j;
                        let m2 = choose|m2: int| n1 + n2 <= m2 < n1 + n2 + n3 && v[m2] == j;
                        assert(false);
                    }
                    if bit32(h2.bits, j) && bit32(h3.bits, j) {
                        let m1 = choose|m1: int| n1 <= m1 < n1 + n2 && v[m1] == j;
                        let m2 = choose|m2: int| n1 + n2 <= m2 < n1 + n2 + n3 && v[m2] == j;
                        assert(false);
                    }
                    assert(!bit32(hobs, j) && !bit32(rr.played_cards.bits, j));
                } else {
                    if bit32(h1.bits, j) {
                        let m = choose|m: int| 0 <= m < n1 && v[m] == j;
                        assert(bit32(ctd, v[m]));
                        assert(false);
                    }
                    if bit32(h2.bits, j) {
                        let m = choose|m: int| n1 <= m < n1 + n2 && v[m] == j;
                        assert(bit32(ctd, v[m]));
                        assert(false);
                    }
                    if bit32(h3.bits, j) {
                        let m = choose|m: int| n1 + n2 <= m < n1 + n2 + n3 && v[m] == j;
                        assert(bit32(ctd, v[m]));
                        assert(false);
                    }
                    assert(bit32(hand(rr, observer as int), j) == bit32(
                        hand(*self, observer as int),
                        j,
                    ));
                }
            }
            assert forall|p: int| 0 <= p < 4 implies pc32(#[trigger] hand(rr, p)) == pc32(
                hand(*self, p),
            ) by {
                if p == p1 as int {
                } else if p == p2 as int {
                } else if p == p3 as int {
                } else {
                    if p != observer as int {
                        lemma_mod4_member(observer as int, p);
                        assert(false);
                    }
                }
            }
            assert forall|p: int| 0 <= p < 4 implies (in_trick(rr, p) == in_trick(
                *self,
                p,
            )) by {
                if in_trick(rr, p) {
                    let j = choose|j: int|
                        0 <= j < rr.trick.plays@.len() && rr.trick.plays@[j].player == p;
                    assert(self.trick.plays@[j].player == p);
                }
                if in_trick(*self, p) {
                    let j = choose|j: int|
                        0 <= j < self.trick.plays@.len() && self.trick.plays@[j].player == p;
                    assert(rr.trick.plays@[j].player == p);
                }
            }
            assert(wf(rr));
        }
        round
    }
}


/// Well-formedness carries over to any state with the same content
/// (same views field for field), such as a clone.
pub proof fn lemma_wf_same_fields(a: Round, b: Round)
    requires
        wf(a),
        b.turn == a.turn,
        b.dealer == a.dealer,
        b.player_cards@ == a.player_cards@,
        b.played_cards == a.played_cards,
        b.scores@ == a.scores@,
        b.trick.trump == a.trick.trump,
        b.trick.plays@ == a.trick.plays@,
        b.phase == a.phase,
    ensures
        wf(b),
{
    assert forall|j: u32| j < 32 implies #[trigger] holder_count(b, j) == 1 by {
        assert(holder_count(a, j) == 1);
    }
    assert forall|p: int| 0 <= p < 4 implies (in_trick(b, p) == in_trick(a, p) && hand(b, p)
        == hand(a, p)) by {
        if in_trick(b, p) {
            let j = choose|j: int| 0 <= j < b.trick.plays@.len() && b.trick.plays@[j].player == p;
            assert(a.trick.plays@[j].player == p);
        }
        if in_trick(a, p) {
            let j = choose|j: int| 0 <= j < a.trick.plays@.len() && a.trick.plays@[j].player == p;
            assert(b.trick.plays@[j].player == p);
        }
    }
    match a.phase {
        RoundPhase::PickTrump => {
            assert forall|p: int| 0 <= p < 4 implies pc32(#[trigger] hand(b, p)) == 8 by {
                assert(pc32(hand(a, p)) == 8);
            }
        },
        RoundPhase::PlayCards => {
            assert forall|p: int|
                0 <= p < 4 implies pc32(#[trigger] hand(b, p)) == 8 - (pc32(b.played_cards.bits)
                - b.trick.plays@.len()) / 4 - (if in_trick(b, p) {
                1int
            } else {
                0
            }) by {
                assert(pc32(hand(a, p)) == 8 - (pc32(a.played_cards.bits)
                    - a.trick.plays@.len()) / 4 - (if in_trick(a, p) {
                    1int
                } else {
                    0
                }));
            }
            assert forall|j: int|
                0 <= j < b.trick.plays@.len() implies (#[trigger] b.trick.plays@[j]).player == ((
                b.turn + 4 - b.trick.plays@.len() + j) % 4) by {
                assert(a.trick.plays@[j].player == ((a.turn + 4 - a.trick.plays@.len() + j) % 4));
            }
        },
    }
}

/// Conservation, as one statement: at any reachable point of a round the
/// four hands and the played pile union to the full deck, whose
/// cardinality stays 32.
pub proof fn lemma_conservation(r: Round)
    requires
        wf(r),
    ensures
        hand(r, 0) | hand(r, 1) | hand(r, 2) | hand(r, 3) | r.played_cards.bits
            == 0xffff_ffffu32,
        pc32(hand(r, 0) | hand(r, 1) | hand(r, 2) | hand(r, 3) | r.played_cards.bits) == 32,
{
    let u1 = hand(r, 0) | hand(r, 1);
    let u2 = u1 | hand(r, 2);
    let u3 = u2 | hand(r, 3);
    let u4 = u3 | r.played_cards.bits;
    crate::stack::lemma_or_bits(hand(r, 0), hand(r, 1));
    crate::stack::lemma_or_bits(u1, hand(r, 2));
    crate::stack::lemma_or_bits(u2, hand(r, 3));
    crate::stack::lemma_or_bits(u3, r.played_cards.bits);
    assert forall|j: u32| j < 32 implies bit32(u4, j) == bit32(0xffff_ffffu32, j) by {
        assert(holder_count(r, j) == 1);
        crate::stack::lemma_all_bits(j);
    }
    crate::stack::lemma_bits_equal(u4, 0xffff_ffffu32);
    crate::stack::lemma_pc_all();
}

/// The trump choices are exactly the suits the dealer holds, and the
/// explicit no-trump option is always on offer.
pub proof fn lemma_trump_choices(r: Round)
    requires
        wf(r),
        r.phase is PickTrump,
    ensures
        forall|su: Suite|
            #[trigger] ac_has(spec_possible_actions(r), Action::PickTrump(Some(su))) == (hand(
                r,
                r.dealer as int,
            ) & spec_suite_mask(su) != 0),
        ac_has(spec_possible_actions(r), Action::PickTrump(None)),
{
    let h = hand(r, r.dealer as int);
    let sv = spec_trump_suites(r) as u32;
    let c0: u32 = if h & spec_suite_mask(Suite::Pijkens) != 0 {
        1
    } else {
        0
    };
    let c1: u32 = if h & spec_suite_mask(Suite::Klavers) != 0 {
        1
    } else {
        0
    };
    let c2: u32 = if h & spec_suite_mask(Suite::Harten) != 0 {
        1
    } else {
        0
    };
    let c3: u32 = if h & spec_suite_mask(Suite::Koeken) != 0 {
        1
    } else {
        0
    };
    assert(sv == c0 + 2 * c1 + 4 * c2 + 8 * c3);
    assert((((sv >> 0) & 1 == 1) == (c0 == 1)) && (((sv >> 1) & 1 == 1) == (c1 == 1)) && (((sv
        >> 2) & 1 == 1) == (c2 == 1)) && (((sv >> 3) & 1 == 1) == (c3 == 1))) by (bit_vector)
        requires
            sv == c0 + 2 * c1 + 4 * c2 + 8 * c3,
            c0 <= 1,
            c1 <= 1,
            c2 <= 1,
            c3 <= 1,
    ;
    assert forall|su: Suite|
        #[trigger] ac_has(spec_possible_actions(r), Action::PickTrump(Some(su))) == (h
            & spec_suite_mask(su) != 0) by {
        match su {
            Suite::Pijkens => {},
            Suite::Klavers => {},
            Suite::Harten => {},
            Suite::Koeken => {},
        }
    }
}

/// At the end of a round the two team scores account for the whole deck:
/// they sum to its 60 points.
pub proof fn lemma_terminal_scores(r: Round)
    requires
        wf(r),
        spec_terminal(r),
    ensures
        r.scores@[0] + r.scores@[1] == 60,
{
    crate::stack::lemma_pc_all();
    crate::card::lemma_deck_points();
    if r.phase is PickTrump {
        assert(r.played_cards.bits == 0);
        assert(false);
    }
    let t = r.trick.plays@.len() as int;
    assert(pc32(r.played_cards.bits) == 32);
    assert((32 - t) % 4 == 0 && t <= 3);
    assert(t == 0);
    assert(trick_pts(r.trick.plays@) == 0);
}

/// Terminal reward symmetry: over one terminal state the two teams' rewards
/// always sum to a whole point (two halves), and a tie gives each team
/// exactly half a point.
pub proof fn lemma_reward_symmetry(r: Round, a: int, b: int)
    requires
        wf(r),
        spec_terminal(r),
        0 <= a < 4,
        0 <= b < 4,
        a % 2 != b % 2,
    ensures
        Round::spec_reward(r, a) + Round::spec_reward(r, b) == 2,
        r.scores@[a % 2] == r.scores@[b % 2] ==> Round::spec_reward(r, a) == 1
            && Round::spec_reward(r, b) == 1,
{
    assert(a % 2 == 0 || a % 2 == 1);
    assert(b % 2 == 0 || b % 2 == 1);
}

/// Follow-suit enforcement: with a suit led and the actor holding at least
/// one card of it, every legal card is of the led suit.
pub proof fn lemma_follow_suit(r: Round, led: Suite)
    requires
        wf(r),
        r.phase is PlayCards,
        r.trick.spec_suite_to_follow() == Some(led),
        hand(r, r.turn as int) & spec_suite_mask(led) != 0,
    ensures
        forall|i: u32|
            i < 32 && #[trigger] bit32(spec_possible_cards(r), i) ==> bit32(
                spec_suite_mask(led),
                i,
            ),
{
    let h = hand(r, r.turn as int);
    let base = h & spec_suite_mask(led);
    assert forall|i: u32|
        i < 32 && #[trigger] bit32(spec_possible_cards(r), i) implies bit32(
        spec_suite_mask(led),
        i,
    ) by {
        crate::stack::lemma_and_bits(h, spec_suite_mask(led));
        if r.trick.plays@.len() > 0 {
            let w = spec_winner(r.trick.trump, r.trick.plays@);
            let m0 = spec_above(w.card.index as u32) & spec_suite_mask(w.card.spec_suite());
            match r.trick.trump {
                Some(tr) => {
                    crate::stack::lemma_and_bits(base, m0 | spec_suite_mask(tr));
                    crate::stack::lemma_and_bits(base, m0);
                },
                None => {
                    crate::stack::lemma_and_bits(base, m0);
                },
            }
        }
    }
}

/// Over-trump enforcement: when the actor's team is not winning, a trump
/// is active and already holds the trick, the actor cannot follow a
/// non-trump lead, and the actor holds a trump above the winning card,
/// then every legal card is a trump above the winning card — all lower
/// trumps and all plain cards are excluded.
pub proof fn lemma_overtrump(r: Round, tr: Suite)
    requires
        wf(r),
        r.phase is PlayCards,
        r.trick.plays@.len() > 0,
        r.trick.trump == Some(tr),
        spec_winner(r.trick.trump, r.trick.plays@).player % 2 != r.turn % 2,
        spec_winner(r.trick.trump, r.trick.plays@).card.spec_suite() == tr,
        hand(r, r.turn as int) & spec_above(
            spec_winner(r.trick.trump, r.trick.plays@).card.index as u32,
        ) & spec_suite_mask(tr) != 0,
        ({
            let led = r.trick.plays@[0].card.spec_suite();
            led == tr || hand(r, r.turn as int) & spec_suite_mask(led) == 0
        }),
    ensures
        forall|i: u32|
            i < 32 && #[trigger] bit32(spec_possible_cards(r), i) ==> i > spec_winner(
                r.trick.trump,
                r.trick.plays@,
            ).card.index && bit32(spec_suite_mask(tr), i),
{
    let h = hand(r, r.turn as int);
    let w = spec_winner(r.trick.trump, r.trick.plays@);
    lemma_winner_mem(r.trick.trump, r.trick.plays@);
    let jm = choose|j: int| 0 <= j < r.trick.plays@.len() && r.trick.plays@[j] == w;
    assert(w.card.wf());
    let wi = w.card.index as u32;
    let m0 = spec_above(wi) & spec_suite_mask(tr);
    let led = r.trick.plays@[0].card.spec_suite();
    let can = h & spec_above(wi) & spec_suite_mask(tr);
    let base = if h & spec_suite_mask(led) != 0 {
        h & spec_suite_mask(led)
    } else {
        h
    };
    crate::stack::lemma_and_bits(h, spec_above(wi));
    crate::stack::lemma_and_bits(h & spec_above(wi), spec_suite_mask(tr));
    crate::stack::lemma_and_bits(h, spec_suite_mask(led));
    crate::stack::lemma_and_bits(h, spec_suite_mask(tr));
    crate::stack::lemma_and_bits(h & spec_suite_mask(tr), m0);
    crate::stack::lemma_and_bits(h, m0);
    crate::stack::lemma_and_bits(spec_above(wi), spec_suite_mask(tr));
    crate::stack::lemma_nonzero_has_bit(can);
    let jw = choose|j: u32| j < 32 && bit32(can, j);
    assert(bit32(base & m0, jw));
    lemma_pc_zero(base & m0);
    assert(base & m0 != 0) by {
        if base & m0 == 0 {
            lemma_zero_bit(jw);
        }
    }
    assert(spec_possible_cards(r) == base & m0);
    assert forall|i: u32|
        i < 32 && #[trigger] bit32(spec_possible_cards(r), i) implies i > wi && bit32(
        spec_suite_mask(tr),
        i,
    ) by {
        crate::stack::lemma_and_bits(base, m0);
        crate::card::lemma_above_bit(wi, i);
    }
}


} // verus!
