use vstd::prelude::*;
use crate::card::{point_of, Card, Suite};

verus! {

/// One card laid into the trick, together with the seat that played it.
#[derive(Clone, Copy, PartialEq, Eq, Structural, Debug)]
pub struct Play {
    pub card: Card,
    pub player: usize,
}

/// The ephemeral record of the trick being played: the active trump (unset
/// before the dealer has picked), and the cards played so far in order.
/// The suit to follow and the current winner are derived from the plays.
#[derive(Debug)]
pub struct Trick {
    pub trump: Option<Suite>,
    pub plays: Vec<Play>,
}

impl Clone for Trick {
    fn clone(&self) -> (r: Self)
        ensures
            r.trump == self.trump,
            r.plays@ == self.plays@,
    {
        let mut plays: Vec<Play> = Vec::new();
        let mut j: usize = 0;
        while j < self.plays.len()
            invariant
                j <= self.plays@.len(),
                plays@ =~= self.plays@.take(j as int),
            decreases self.plays@.len() - j,
        {
            plays.push(self.plays[j]);
            proof {
                assert(self.plays@.take(j + 1) =~= self.plays@.take(j as int).push(
                    self.plays@[j as int],
                ));
            }
            j = j + 1;
        }
        proof {
            assert(self.plays@.take(self.plays@.len() as int) =~= self.plays@);
        }
        Trick { trump: self.trump, plays }
    }
}

/// Whether a newly played card `c` takes the trick from the card `w` that
/// held it so far: it must outrank `w` within `w`'s suit, or be a trump
/// while `w` is not.
pub open spec fn beats(trump: Option<Suite>, c: Card, w: Card) -> bool {
    if c.spec_suite() == w.spec_suite() {
        c.index > w.index
    } else {
        trump == Some(c.spec_suite())
    }
}

/// The play currently holding the trick: the first card, challenged in
/// order by each later card.
pub open spec fn spec_winner(trump: Option<Suite>, plays: Seq<Play>) -> Play
    recommends
        plays.len() > 0,
    decreases plays.len(),
{
    if plays.len() <= 1 {
        plays[0]
    } else {
        let w = spec_winner(trump, plays.drop_last());
        if beats(trump, plays.last().card, w.card) {
            plays.last()
        } else {
            w
        }
    }
}

/// The winner is one of the plays.
pub proof fn lemma_winner_mem(trump: Option<Suite>, plays: Seq<Play>)
    requires
        plays.len() > 0,
    ensures
        exists|j: int| 0 <= j < plays.len() && plays[j] == spec_winner(trump, plays),
    decreases plays.len(),
{
    if plays.len() == 1 {
        assert(plays[0] == spec_winner(trump, plays));
    } else {
        let prefix = plays.drop_last();
        if beats(trump, plays.last().card, spec_winner(trump, prefix).card) {
            assert(plays[plays.len() - 1] == spec_winner(trump, plays));
        } else {
            lemma_winner_mem(trump, prefix);
            let j = choose|j: int| 0 <= j < prefix.len() && prefix[j] == spec_winner(trump, prefix);
            assert(plays[j] == spec_winner(trump, plays));
        }
    }
}

/// Total point value of the plays of a trick.
pub open spec fn trick_pts(plays: Seq<Play>) -> nat
    decreases plays.len(),
{
    if plays.len() == 0 {
        0
    } else {
        trick_pts(plays.drop_last()) + point_of(plays.last().card.index as u32)
    }
}

proof fn lemma_trick_pts_bound(plays: Seq<Play>)
    ensures
        trick_pts(plays) <= 5 * plays.len(),
    decreases plays.len(),
{
    if plays.len() > 0 {
        lemma_trick_pts_bound(plays.drop_last());
    }
}

impl Trick {
    pub open spec fn wf(self) -> bool {
        &&& self.plays@.len() <= 4
        &&& forall|j: int|
            0 <= j < self.plays@.len() ==> (#[trigger] self.plays@[j]).card.wf()
                && self.plays@[j].player < 4
    }

    pub open spec fn spec_suite_to_follow(self) -> Option<Suite> {
        if self.plays@.len() == 0 {
            None
        } else {
            Some(self.plays@[0].card.spec_suite())
        }
    }

    pub fn new() -> (r: Trick)
        ensures
            r.trump == Option::<Suite>::None,
            r.plays@ =~= Seq::<Play>::empty(),
            r.wf(),
    {
        Trick { trump: None, plays: Vec::new() }
    }

    pub fn trump(&self) -> (r: Option<Suite>)
        ensures
            r == self.trump,
    {
        self.trump
    }

    pub fn set_trump(&mut self, trump: Option<Suite>)
        ensures
            final(self).trump == trump,
            final(self).plays == old(self).plays,
    {
        self.trump = trump;
    }

    /// The suit the trick was led with, once a first card is down.
    pub fn suite_to_follow(&self) -> (r: Option<Suite>)
        requires
            self.wf(),
        ensures
            r == self.spec_suite_to_follow(),
    {
        if self.plays.len() == 0 {
            None
        } else {
            Some(self.plays[0].card.suite())
        }
    }

    pub fn is_finished(&self) -> (r: bool)
        ensures
            r == (self.plays@.len() == 4),
    {
        self.plays.len() == 4
    }

    /// Record one play.
    pub fn play(&mut self, card: Card, player: usize)
        requires
            old(self).wf(),
            old(self).plays@.len() < 4,
            card.wf(),
            player < 4,
        ensures
            final(self).plays@ == old(self).plays@.push(Play { card, player }),
            final(self).trump == old(self).trump,
            final(self).wf(),
    {
        self.plays.push(Play { card, player });
    }

    pub fn clear(&mut self)
        ensures
            final(self).trump == old(self).trump,
            final(self).plays@ =~= Seq::<Play>::empty(),
            final(self).wf(),
    {
        self.plays = Vec::new();
    }

    /// The play currently winning the trick, with its seat.
    pub fn winner(&self) -> (r: Option<(Card, usize)>)
        requires
            self.wf(),
        ensures
            match r {
                None => self.plays@.len() == 0,
                Some(w) => self.plays@.len() > 0 && w.0 == spec_winner(self.trump, self.plays@).card
                    && w.1 == spec_winner(self.trump, self.plays@).player,
            },
    {
        if self.plays.len() == 0 {
            return None;
        }
        let mut best: Play = self.plays[0];
        let mut j: usize = 1;
        proof {
            assert(self.plays@.take(1) =~= seq![self.plays@[0]]);
            assert(self.plays@[0].card.wf());
        }
        while j < self.plays.len()
            invariant
                self.wf(),
                1 <= j <= self.plays@.len(),
                best == spec_winner(self.trump, self.plays@.take(j as int)),
                best.card.wf() && best.player < 4,
            decreases self.plays@.len() - j,
        {
            let ghost pre = self.plays@.take(j as int);
            let p = self.plays[j];
            let c = p.card;
            let challenger_wins = if c.suite() == best.card.suite() {
                c.get_index() > best.card.get_index()
            } else {
                match self.trump {
                    Some(t) => c.suite() == t,
                    None => false,
                }
            };
            proof {
                assert(self.plays@.take(j + 1).drop_last() =~= pre);
                assert(self.plays@.take(j + 1).last() == self.plays@[j as int]);
            }
            if challenger_wins {
                best = p;
            }
            j = j + 1;
        }
        proof {
            assert(self.plays@.take(self.plays@.len() as int) =~= self.plays@);
        }
        Some((best.card, best.player))
    }

    /// The summed point value of the cards played into this trick.
    pub fn score(&self) -> (r: u8)
        requires
            self.wf(),
        ensures
            r == trick_pts(self.plays@),
            r <= 20,
    {
        let mut sum: u8 = 0;
        let mut j: usize = 0;
        proof {
            assert(self.plays@.take(0) =~= Seq::<Play>::empty());
        }
        while j < self.plays.len()
            invariant
                self.wf(),
                0 <= j <= self.plays@.len(),
                sum == trick_pts(self.plays@.take(j as int)),
                sum <= 5 * j,
            decreases self.plays@.len() - j,
        {
            let ghost pre = self.plays@.take(j as int);
            let p = self.plays[j];
            proof {
                assert(self.plays@.take(j + 1).drop_last() =~= pre);
                assert(self.plays@.take(j + 1).last() == self.plays@[j as int]);
            }
            sum = sum + p.card.points();
            j = j + 1;
        }
        proof {
            assert(self.plays@.take(self.plays@.len() as int) =~= self.plays@);
            lemma_trick_pts_bound(self.plays@);
        }
        sum
    }
}

} // verus!
