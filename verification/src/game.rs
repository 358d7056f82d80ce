use vstd::prelude::*;
use crate::action::{ac_has, ac_wf, Action, ActionCollection};
use crate::player::Player;
use crate::round::{
    hand, lemma_possible_sub_hand, lemma_wf_same_fields, spec_possible_actions, spec_terminal,
    wf as round_wf, Round,
};
use crate::stack::{bit32, lemma_pc_all, lemma_xor_is_clear, pc32};

verus! {

/// A table of four players around one round of the game. The orchestrator
/// hands each acting player a snapshot of the state, applies the returned
/// action to the authoritative state, and keeps each player's private
/// hand view in step with the real hands.
pub struct Game<P: Player> {
    pub players: Vec<P>,
    pub state: Round,
}

/// Well-formedness of a table: four sound players around a sound round,
/// each player's private hand view agreeing with the real hand.
pub open spec fn game_wf<P: Player>(g: Game<P>) -> bool {
    &&& g.players@.len() == 4
    &&& round_wf(g.state)
    &&& forall|i: int| 0 <= i < 4 ==> (#[trigger] g.players@[i]).wf()
    &&& forall|i: int|
        0 <= i < 4 ==> (#[trigger] g.players@[i]).spec_cards().bits == hand(g.state, i)
}

impl<P: Player> Game<P> {
    /// Seat the four players, deal, and pick a random dealer.
    pub fn new(players: Vec<P>) -> (r: Game<P>)
        requires
            players@.len() == 4,
            forall|i: int| 0 <= i < 4 ==> (#[trigger] players@[i]).wf(),
        ensures
            game_wf(r),
            r.state.phase is PickTrump,
    {
        let mut ps = players;
        let mut p0 = ps.remove(0);
        let mut p1 = ps.remove(0);
        let mut p2 = ps.remove(0);
        let mut p3 = ps.remove(0);
        p0.set_index(0);
        p1.set_index(1);
        p2.set_index(2);
        p3.set_index(3);
        let mut seated: Vec<P> = Vec::new();
        seated.push(p0);
        seated.push(p1);
        seated.push(p2);
        seated.push(p3);
        let mut game = Game { players: seated, state: Round::new(0) };
        game.deal_cards();
        game
    }

    /// Deal fresh hands, pick a random dealer, and hand each player its
    /// own cards.
    pub fn deal_cards(&mut self)
        requires
            old(self).players@.len() == 4,
            forall|i: int| 0 <= i < 4 ==> (#[trigger] old(self).players@[i]).wf(),
            round_wf(old(self).state),
            old(self).state.phase is PickTrump,
        ensures
            game_wf(*final(self)),
            final(self).state.phase is PickTrump,
    {
        self.state.set_random_dealer();
        self.state.deal_cards();
        proof {
            crate::card::lemma_pts_zero();
            assert forall|j: u32| j < 32 implies #[trigger] crate::round::holder_count(
                self.state,
                j,
            ) == 1 by {
                crate::stack::lemma_zero_bit(j);
                assert(bit32(hand(self.state, 3), j) == bit32(hand(self.state, 3), j));
            }
            assert(round_wf(self.state));
        }
        let c0 = self.state.player_cards(0);
        let c1 = self.state.player_cards(1);
        let c2 = self.state.player_cards(2);
        let c3 = self.state.player_cards(3);
        let mut p0 = self.players.remove(0);
        let mut p1 = self.players.remove(0);
        let mut p2 = self.players.remove(0);
        let mut p3 = self.players.remove(0);
        p0.set_cards(c0);
        p1.set_cards(c1);
        p2.set_cards(c2);
        p3.set_cards(c3);
        self.players.push(p0);
        self.players.push(p1);
        self.players.push(p2);
        self.players.push(p3);
    }

    /// Whether an action is legal for the current actor.
    pub fn is_legal(&self, action: Action) -> (r: bool)
        requires
            game_wf(*self),
        ensures
            r == ac_has(spec_possible_actions(self.state), action),
    {
        self.legal_actions().contains(&action)
    }

    /// The current actor's legal actions.
    pub fn legal_actions(&self) -> (r: ActionCollection)
        requires
            game_wf(*self),
        ensures
            r == spec_possible_actions(self.state),
            ac_wf(r),
    {
        self.state.possible_actions()
    }

    /// Whether the round is over.
    pub fn is_terminal(&self) -> (r: bool)
        requires
            game_wf(*self),
        ensures
            r == spec_terminal(self.state),
    {
        self.state.is_terminal()
    }

    /// The team that took the round: the one with the greater score, and
    /// the even team on a tie.
    pub fn winner(&self) -> (r: usize)
        requires
            game_wf(*self),
            spec_terminal(self.state),
        ensures
            r < 2,
            (r == 0) == (self.state.scores@[0] >= self.state.scores@[1]),
    {
        let (s0, s1) = self.state.scores();
        if s0 >= s1 {
            0
        } else {
            1
        }
    }

    /// A read-only view of the authoritative state.
    pub fn state_ref(&self) -> (r: &Round)
        ensures
            r == &self.state,
    {
        &self.state
    }

    /// One play: the acting seat decides on a snapshot, the action is
    /// applied, and the actor's private hand view is updated.
    fn play_one(&mut self)
        requires
            game_wf(*old(self)),
            old(self).state.phase is PlayCards,
            !spec_terminal(old(self).state),
        ensures
            game_wf(*final(self)),
            final(self).state.phase is PlayCards,
            pc32(final(self).state.played_cards.bits) == pc32(old(self).state.played_cards.bits)
                + 1,
            final(self).state.trick.plays@.len() == (old(self).state.trick.plays@.len() + 1) % 4,
            final(self).state.dealer == old(self).state.dealer,
    {
        let turn = self.state.turn();
        let ghost pre = *self;
        let snapshot = self.state.clone();
        proof {
            lemma_wf_same_fields(self.state, snapshot);
        }
        let mut p = self.players.remove(turn);
        let a = p.decide(snapshot);
        self.players.insert(turn, p);
        proof {
            assert(self.players@ =~= pre.players@.update(turn as int, self.players@[turn as int]));
            assert(spec_possible_actions(snapshot) == spec_possible_actions(self.state));
            if a is PickTrump {
                assert(false);
            }
            lemma_possible_sub_hand(self.state);
        }
        let ghost players_mid = self.players@;
        match a {
            Action::PlayCard(c) => {
                let ghost mid_state = self.state;
                let idx = c.get_index();
                self.state.apply_action(a);
                let ghost after_apply = self.state;
                let mut q = self.players.remove(turn);
                q.toggle_card(idx);
                self.players.insert(turn, q);
                proof {
                    assert(self.players@ =~= players_mid.update(
                        turn as int,
                        self.players@[turn as int],
                    ));
                    assert(self.state == after_apply);
                    lemma_xor_is_clear(hand(mid_state, turn as int), idx as u32);
                    assert forall|i: int|
                        0 <= i < 4 implies (#[trigger] self.players@[i]).spec_cards().bits == hand(
                        self.state,
                        i,
                    ) by {
                        if i != turn {
                            assert(hand(after_apply, i) == hand(mid_state, i));
                            assert(self.players@[i] == players_mid[i]);
                            assert(players_mid[i].spec_cards().bits == hand(mid_state, i));
                        } else {
                            assert(hand(after_apply, turn as int) == hand(mid_state, turn as int)
                                & !(1u32 << (idx as u32)));
                        }
                    }
                }
            },
            Action::PickTrump(_) => {
                proof {
                    assert(false);
                }
            },
        }
    }

    /// One trick: four plays in seat order; the trick resolves on the
    /// fourth and its winner takes the next turn.
    pub fn play_trick(&mut self)
        requires
            game_wf(*old(self)),
            old(self).state.phase is PlayCards,
            old(self).state.trick.plays@.len() == 0,
            !spec_terminal(old(self).state),
        ensures
            game_wf(*final(self)),
            final(self).state.phase is PlayCards,
            final(self).state.trick.plays@.len() == 0,
            pc32(final(self).state.played_cards.bits) == pc32(old(self).state.played_cards.bits)
                + 4,
            final(self).state.dealer == old(self).state.dealer,
    {
        proof {
            lemma_pc_all();
            crate::stack::lemma_pc_bound(self.state.played_cards.bits);
        }
        let ghost n0 = pc32(self.state.played_cards.bits);
        self.play_one();
        proof {
            lemma_pc_all();
            if spec_terminal(self.state) {
                assert(pc32(self.state.played_cards.bits) == 32);
                assert(false);
            }
        }
        self.play_one();
        proof {
            lemma_pc_all();
            if spec_terminal(self.state) {
                assert(false);
            }
        }
        self.play_one();
        proof {
            lemma_pc_all();
            if spec_terminal(self.state) {
                assert(false);
            }
        }
        self.play_one();
    }

    /// One whole round: the dealer names the trump, then eight tricks
    /// are played out; afterwards the state is terminal.
    pub fn play_round(&mut self)
        requires
            game_wf(*old(self)),
            old(self).state.phase is PickTrump,
        ensures
            game_wf(*final(self)),
            spec_terminal(final(self).state),
            final(self).state.dealer == old(self).state.dealer,
    {
        let turn = self.state.turn();
        let ghost pre = *self;
        let snapshot = self.state.clone();
        proof {
            lemma_wf_same_fields(self.state, snapshot);
            assert(!spec_terminal(self.state)) by {
                lemma_pc_all();
                crate::stack::lemma_pc_zero(self.state.played_cards.bits);
            }
        }
        let mut p = self.players.remove(turn);
        let a = p.decide(snapshot);
        self.players.insert(turn, p);
        proof {
            assert(self.players@ =~= pre.players@.update(turn as int, self.players@[turn as int]));
            assert(spec_possible_actions(snapshot) == spec_possible_actions(self.state));
            if a is PlayCard {
                assert(false);
            }
        }
        self.state.apply_action(a);
        proof {
            assert(game_wf(*self));
        }
        let mut k: usize = 0;
        while k < 8
            invariant
                game_wf(*self),
                self.state.phase is PlayCards,
                self.state.trick.plays@.len() == 0,
                pc32(self.state.played_cards.bits) == 4 * k,
                k <= 8,
                self.state.dealer == old(self).state.dealer,
            decreases 8 - k,
        {
            proof {
                lemma_pc_all();
                if spec_terminal(self.state) {
                    assert(false);
                }
            }
            self.play_trick();
            k = k + 1;
        }
        proof {
            crate::stack::lemma_pc_full(self.state.played_cards.bits);
        }
    }
}

} // verus!
