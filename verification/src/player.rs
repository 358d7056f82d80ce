use vstd::prelude::*;
use crate::action::{ac_has, Action};
use crate::round::{
    lemma_wf_same_fields, spec_possible_actions, spec_terminal, wf as round_wf, Round,
};
use crate::stack::Stack;
use crate::tree::{tree_wf, Tree};

verus! {

/// The decision-policy capability: a seat assignment, a private view of
/// the own hand kept in step by the orchestrator, and `decide`, which
/// must return an action that is legal in the given state.
pub trait Player where Self: core::marker::Sized {
    spec fn wf(&self) -> bool;

    spec fn spec_cards(&self) -> Stack;

    fn set_index(&mut self, index: usize)
        requires
            old(self).wf(),
            index < 4,
        ensures
            final(self).wf(),
            final(self).spec_cards() == old(self).spec_cards(),
    ;

    fn set_cards(&mut self, cards: Stack)
        requires
            old(self).wf(),
        ensures
            final(self).wf(),
            final(self).spec_cards() == cards,
    ;

    fn toggle_card(&mut self, index: u8)
        requires
            old(self).wf(),
            index < 32,
        ensures
            final(self).wf(),
            final(self).spec_cards().bits == old(self).spec_cards().bits ^ (1u32 << (
            index as u32)),
    ;

    fn cards(&self) -> (r: Stack)
        requires
            self.wf(),
        ensures
            r == self.spec_cards(),
    ;

    fn decide(&mut self, state: Round) -> (a: Action)
        requires
            old(self).wf(),
            round_wf(state),
            !spec_terminal(state),
        ensures
            final(self).wf(),
            final(self).spec_cards() == old(self).spec_cards(),
            ac_has(spec_possible_actions(state), a),
    ;
}

/// Play the state out with uniformly random legal actions until the round
/// is over: the rollout default policy. The dealer never changes, a trump
/// fixed before entry stays fixed, and each team's score only grows.
pub fn rollout(state: &mut Round)
    requires
        round_wf(*old(state)),
    ensures
        round_wf(*final(state)),
        spec_terminal(*final(state)),
        final(state).dealer == old(state).dealer,
        old(state).phase is PlayCards ==> final(state).phase is PlayCards
            && final(state).trick.trump == old(state).trick.trump,
        forall|q: int| 0 <= q < 2 ==> final(state).scores@[q] >= old(state).scores@[q],
{
    while !state.is_terminal()
        invariant
            round_wf(*state),
            state.dealer == old(state).dealer,
            old(state).phase is PlayCards ==> state.phase is PlayCards && state.trick.trump == old(
                state,
            ).trick.trump,
            forall|q: int| 0 <= q < 2 ==> state.scores@[q] >= old(state).scores@[q],
        decreases Round::spec_measure(*state),
    {
        proof {
            crate::stack::lemma_pc_bound(state.played_cards.bits);
        }
        let mut acts = state.possible_actions();
        match acts.pop_random() {
            Some(a) => {
                proof {
                    if state.phase is PlayCards && a is PickTrump {
                        assert(false);
                    }
                }
                state.apply_action(a);
            },
            None => {
                proof {
                    assert(false);
                }
            },
        }
    }
}

/// The baseline policy: a uniformly random legal action.
#[derive(Debug)]
pub struct RandomPlayer {
    pub index: usize,
    pub cards: Stack,
}

impl RandomPlayer {
    pub fn new() -> (r: RandomPlayer)
        ensures
            r.wf(),
    {
        RandomPlayer { index: 0, cards: Stack::empty() }
    }
}

impl Player for RandomPlayer {
    open spec fn wf(&self) -> bool {
        true
    }

    open spec fn spec_cards(&self) -> Stack {
        self.cards
    }

    fn set_index(&mut self, index: usize) {
        self.index = index;
    }

    fn set_cards(&mut self, cards: Stack) {
        self.cards = cards;
    }

    fn toggle_card(&mut self, index: u8) {
        self.cards = Stack { bits: self.cards.bits ^ (1u32 << (index as u32)) };
    }

    fn cards(&self) -> Stack {
        self.cards
    }

    fn decide(&mut self, state: Round) -> Action {
        let mut acts = state.possible_actions();
        match acts.pop_random() {
            Some(a) => a,
            None => {
                proof {
                    assert(false);
                }
                Action::PickTrump(None)
            },
        }
    }
}

/// The search policy: determinize the observed state from the own seat,
/// run a budget of select-expand-rollout-backpropagate iterations over a
/// fresh arena, and recommend the root's most-visited legal action. The
/// game rules treat a search that ends with no legal root child as an
/// unrecoverable fault; a verified library cannot panic there, so this
/// policy instead falls back to a uniformly random legal action — which
/// `best_action`'s contract confines to searches that never expanded a
/// still-legal child (such as a zero-iteration budget).
#[derive(Debug)]
pub struct MctsPlayer {
    pub index: usize,
    pub cards: Stack,
    pub tree: Tree,
    pub iterations: usize,
}

impl MctsPlayer {
    pub fn new(iterations: usize) -> (r: MctsPlayer)
        ensures
            r.wf(),
    {
        MctsPlayer { index: 0, cards: Stack::empty(), tree: Tree::new(), iterations }
    }
}

impl Player for MctsPlayer {
    open spec fn wf(&self) -> bool {
        self.index < 4 && tree_wf(self.tree)
    }

    open spec fn spec_cards(&self) -> Stack {
        self.cards
    }

    fn set_index(&mut self, index: usize) {
        self.index = index;
    }

    fn set_cards(&mut self, cards: Stack) {
        self.cards = cards;
    }

    fn toggle_card(&mut self, index: u8) {
        self.cards = Stack { bits: self.cards.bits ^ (1u32 << (index as u32)) };
    }

    fn cards(&self) -> Stack {
        self.cards
    }

    fn decide(&mut self, state: Round) -> Action {
        let root_state = state.randomize(self.index);
        self.tree.reset();
        let root = self.tree.add_node(&root_state, None, None);
        let budget = if self.iterations < 1000000 {
            self.iterations
        } else {
            1000000
        };
        let mut it: usize = 0;
        while it < budget
            invariant
                tree_wf(self.tree),
                root < self.tree.nodes@.len(),
                self.tree.nodes@.len() <= 1 + it,
                it <= budget <= 1000000,
                round_wf(root_state),
                self.index == old(self).index,
                self.cards == old(self).cards,
                self.index < 4,
            decreases budget - it,
        {
            let mut s = root_state.clone();
            proof {
                lemma_wf_same_fields(root_state, s);
            }
            let (nid, _trace) = self.tree.select(root, &mut s);
            let nid = self.tree.expand(nid, &mut s);
            rollout(&mut s);
            let mut cur = nid;
            loop
                invariant
                    tree_wf(self.tree),
                    cur < self.tree.nodes@.len(),
                    round_wf(s),
                    spec_terminal(s),
                    self.tree.nodes@.len() <= 2 + it,
                    root < self.tree.nodes@.len(),
                    it < budget <= 1000000,
                    self.index == old(self).index,
                    self.cards == old(self).cards,
                    self.index < 4,
                decreases cur,
            {
                proof {
                    assert(crate::tree::node_ok(self.tree, cur as int));
                }
                let rw = match self.tree.get_edge(cur) {
                    Some(e) => s.reward(e.player),
                    None => s.reward(self.index),
                };
                self.tree.update_node(cur, rw);
                match self.tree.get_parent_id(cur) {
                    Some(p) => {
                        cur = p;
                    },
                    None => {
                        break ;
                    },
                }
            }
            it = it + 1;
        }
        match self.tree.best_action(root, &state) {
            Some(a) => a,
            None => {
                let mut acts = state.possible_actions();
                match acts.pop_random() {
                    Some(a) => a,
                    None => {
                        proof {
                            assert(false);
                        }
                        Action::PickTrump(None)
                    },
                }
            },
        }
    }
}

} // verus!
