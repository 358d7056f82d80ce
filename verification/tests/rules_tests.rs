use trick_engine::action::{Action, ActionCollection};
use trick_engine::card::{Card, Suite};
use trick_engine::round::{Round, RoundPhase};
use trick_engine::stack::Stack;
use trick_engine::tree::{uct_score, Edge, Tree};
use trick_engine::trick::Trick;

fn stack_of(indices: &[u8]) -> Stack {
    let mut s = Stack::empty();
    for &i in indices {
        s = s.union(&Stack { bits: 1u32 << (i as u32) });
    }
    s
}

fn hands(h0: Stack, h1: Stack, h2: Stack, h3: Stack) -> Vec<Stack> {
    vec![h0, h1, h2, h3]
}

// Deal partition: four pairwise disjoint hands of 8 whose union is the deck.
#[test]
fn test_deal_partition() {
    let r = Round::new(0);
    let mut union = Stack::empty();
    for p in 0..4 {
        let h = r.player_cards(p);
        assert_eq!(h.len(), 8);
        for q in 0..p {
            assert!(r.player_cards(q).intersect(&h).is_empty());
        }
        union = union.union(&h);
    }
    assert_eq!(union.bits, Stack::ALL);
    assert!(r.played_cards.is_empty());
}

// Conservation at every point of a round driven action by action.
#[test]
fn test_conservation_stepwise() {
    let mut r = Round::new(1);
    let mut steps = 0;
    while !r.is_terminal() {
        let mut union = r.played_cards;
        let mut total = r.played_cards.len();
        for p in 0..4 {
            union = union.union(&r.player_cards(p));
            total += r.player_cards(p).len();
        }
        assert_eq!(union.bits, Stack::ALL);
        assert_eq!(total, 32);

        let mut acts = r.possible_actions();
        let a = acts.pop_random().expect("a non-terminal state offers an action");
        assert!(r.possible_actions().contains(&a));
        r.apply_action(a);
        steps += 1;
        assert!(steps <= 33);
    }
    assert_eq!(steps, 33);
}

// Legality containment: every offered card play is a card of the actor's
// hand; every offered trump suit is held by the dealer, and no-trump is
// always offered.
#[test]
fn test_legality_containment() {
    let mut r = Round::new(2);
    let mut acts = r.possible_actions();
    let mut saw_no_trump = false;
    loop {
        match acts.pop_random() {
            None => break,
            Some(Action::PickTrump(Some(su))) => {
                assert!(!r.player_cards(2).intersect(&Stack { bits: su.mask() }).is_empty());
            }
            Some(Action::PickTrump(None)) => {
                saw_no_trump = true;
            }
            Some(Action::PlayCard(_)) => panic!("no card plays in the trump phase"),
        }
    }
    assert!(saw_no_trump);

    r.apply_action(Action::PickTrump(None));
    let mut card_acts = r.possible_actions();
    loop {
        match card_acts.pop_random() {
            None => break,
            Some(Action::PlayCard(c)) => {
                let turn = r.turn();
                assert!(r.player_cards(turn).has_index(c.get_index() as u32));
            }
            Some(Action::PickTrump(_)) => panic!("no trump choices in the play phase"),
        }
    }
}

// Follow-suit enforcement: the actor holds cards of the led suit, so only
// those (here narrowed further by the duty to beat the winner) come back.
#[test]
fn test_follow_suit() {
    // suits by block: 0..8 Pijkens, 8..16 Klavers, 16..24 Harten, 24..32 Koeken
    let mut trick = Trick::new();
    trick.set_trump(None);
    trick.play(Card::new(16), 0); // player 0 led the lowest Harten
    let r = Round {
        turn: 1,
        dealer: 3,
        player_cards: hands(
            stack_of(&[12, 13, 14, 15, 17, 18, 19]),
            stack_of(&[8, 9, 10, 11, 20, 21, 22, 23]),
            stack_of(&[0, 1, 2, 3, 4, 5, 6, 7]),
            stack_of(&[24, 25, 26, 27, 28, 29, 30, 31]),
        ),
        played_cards: stack_of(&[16]),
        scores: vec![0, 0],
        trick,
        phase: RoundPhase::PlayCards,
    };
    let acts = r.possible_actions();
    // only Harten cards (20..24) are legal; they also all beat card 16
    assert_eq!(acts.size(), 4);
    for i in 0..32u8 {
        let legal = acts.contains(&Action::PlayCard(Card::new(i)));
        assert_eq!(legal, i >= 20 && i < 24);
    }
}

// Over-trump enforcement: a trump holds the trick, the actor's team is
// not winning, and the actor holds a higher trump beside a lower one:
// only the higher trump is legal.
#[test]
fn test_overtrump() {
    let mut trick = Trick::new();
    trick.set_trump(Some(Suite::Harten));
    trick.play(Card::new(20), 0); // player 0 led a middle trump
    let r = Round {
        turn: 1,
        dealer: 3,
        player_cards: hands(
            stack_of(&[12, 13, 14, 15, 16, 18, 19]),
            stack_of(&[17, 21, 8, 9, 10, 11, 0, 1]),
            stack_of(&[2, 3, 4, 5, 6, 7, 22, 23]),
            stack_of(&[24, 25, 26, 27, 28, 29, 30, 31]),
        ),
        played_cards: stack_of(&[20]),
        scores: vec![0, 0],
        trick,
        phase: RoundPhase::PlayCards,
    };
    let acts = r.possible_actions();
    // the actor holds trumps 17 and 21; only 21 beats the winning 20,
    // so the lower trump and all plain cards are excluded
    assert_eq!(acts.size(), 1);
    assert!(acts.contains(&Action::PlayCard(Card::new(21))));
}

// Terminal reward symmetry in half points: winner and loser sum to 2,
// and a tie gives 1 to each team.
#[test]
fn test_reward_symmetry() {
    let terminal = |s0: i16, s1: i16| Round {
        turn: 0,
        dealer: 0,
        player_cards: hands(Stack::empty(), Stack::empty(), Stack::empty(), Stack::empty()),
        played_cards: Stack::full(),
        scores: vec![s0, s1],
        trick: Trick::new(),
        phase: RoundPhase::PlayCards,
    };
    let win = terminal(40, 20);
    assert_eq!(win.reward(0) + win.reward(1), 2);
    assert_eq!(win.reward(2), 2);
    assert_eq!(win.reward(3), 0);
    let tie = terminal(30, 30);
    assert_eq!(tie.reward(0), 1);
    assert_eq!(tie.reward(1), 1);
}

// UCT: exact fixed-point scores, and the exploration term shrinking with
// the visit count while the parent's count stays fixed.
#[test]
fn test_uct_scores() {
    // one visit, full reward, unvisited parent logarithm: plain average
    assert_eq!(uct_score(2, 1, 1), 65536);
    // pure exploration
    assert_eq!(uct_score(0, 1, 4), 109123);
    // monotonicity of the exploration term
    assert_eq!(uct_score(0, 4, 64), 94503);
    assert_eq!(uct_score(0, 16, 64), 47251);
    assert!(uct_score(0, 4, 64) > uct_score(0, 16, 64));
}

// Robust-child selection never returns an edge that is illegal in the
// live state, even when the illegal edge was visited more often.
#[test]
fn test_best_action_legal() {
    // dealer 0 holds no Koeken, so naming Koeken is illegal now
    let r = Round {
        turn: 1,
        dealer: 0,
        player_cards: hands(
            stack_of(&[0, 1, 2, 3, 8, 9, 16, 17]),
            stack_of(&[4, 5, 6, 7, 12, 13, 20, 21]),
            stack_of(&[10, 11, 14, 15, 18, 19, 22, 23]),
            stack_of(&[24, 25, 26, 27, 28, 29, 30, 31]),
        ),
        played_cards: Stack::empty(),
        scores: vec![0, 0],
        trick: Trick::new(),
        phase: RoundPhase::PickTrump,
    };
    let mut tree = Tree::new();
    let root = tree.add_node(&r, None, None);
    let good = tree.add_node(
        &r,
        Some(Edge { action: Action::PickTrump(Some(Suite::Pijkens)), player: 0 }),
        Some(root),
    );
    let stale = tree.add_node(
        &r,
        Some(Edge { action: Action::PickTrump(Some(Suite::Koeken)), player: 0 }),
        Some(root),
    );
    for _ in 0..3 {
        tree.update_node(good, 2);
    }
    for _ in 0..10 {
        tree.update_node(stale, 2);
    }
    match tree.best_action(root, &r) {
        Some(Action::PickTrump(Some(su))) => assert!(matches!(su, Suite::Pijkens)),
        other => panic!("expected the legal trump choice, got {:?}", other),
    }
}

// Determinization keeps the observer's hand and the played pile, and the
// redealt hands still partition the unseen cards with the old sizes.
#[test]
fn test_randomize_conditioning() {
    let mut r = Round::new(0);
    r.apply_action(Action::PickTrump(None));
    // play one full trick to move some cards to the pile
    for _ in 0..4 {
        let mut acts = r.possible_actions();
        let a = acts.pop_random().unwrap();
        r.apply_action(a);
    }
    for observer in 0..4 {
        let sample = r.randomize(observer);
        assert_eq!(sample.player_cards(observer).bits, r.player_cards(observer).bits);
        assert_eq!(sample.played_cards.bits, r.played_cards.bits);
        let mut union = sample.played_cards;
        for p in 0..4 {
            assert_eq!(sample.player_cards(p).len(), r.player_cards(p).len());
            for q in 0..p {
                assert!(sample.player_cards(q).intersect(&sample.player_cards(p)).is_empty());
            }
            union = union.union(&sample.player_cards(p));
        }
        assert_eq!(union.bits, Stack::ALL);
    }
}

// Trick resolution: within a suit the higher index wins; a trump beats
// any plain card; the score is the sum of the four cards' points.
#[test]
fn test_trick_winner_and_score() {
    let mut t = Trick::new();
    t.set_trump(Some(Suite::Klavers));
    t.play(Card::new(16), 0); // Harten rank 0: 0 points
    t.play(Card::new(23), 1); // Harten rank 7: 5 points
    assert_eq!(t.winner(), Some((Card::new(23), 1)));
    t.play(Card::new(8), 2); // lowest Klavers: a trump, 0 points
    assert_eq!(t.winner(), Some((Card::new(8), 2)));
    t.play(Card::new(31), 3); // highest Koeken: off-suit, 5 points
    assert!(t.is_finished());
    assert_eq!(t.winner(), Some((Card::new(8), 2)));
    assert_eq!(t.score(), 10);

    let mut nt = Trick::new();
    nt.set_trump(None);
    nt.play(Card::new(3), 0); // Pijkens rank 3: 1 point
    nt.play(Card::new(30), 1); // Koeken rank 6: off-suit, cannot win
    assert_eq!(nt.winner(), Some((Card::new(3), 0)));
}

// Point values attach to the rank: 0,0,0,1,2,3,4,5 per suit, 15 a suit.
#[test]
fn test_card_points() {
    let per_rank = [0u8, 0, 0, 1, 2, 3, 4, 5];
    let mut deck_total = 0u32;
    for i in 0..32u8 {
        let c = Card::new(i);
        assert_eq!(c.points(), per_rank[(i % 8) as usize]);
        deck_total += c.points() as u32;
    }
    assert_eq!(deck_total, 60);
}

// The action container: insertion, membership, size, set difference and
// random removal down to emptiness.
#[test]
fn test_action_collection() {
    let mut ac = ActionCollection::Uninit;
    assert_eq!(ac.size(), 0);
    assert!(ac.pop_random().is_none());
    ac.insert(Action::PlayCard(Card::new(5)));
    ac.insert(Action::PlayCard(Card::new(9)));
    ac.insert(Action::PlayCard(Card::new(31)));
    assert_eq!(ac.size(), 3);
    assert!(ac.contains(&Action::PlayCard(Card::new(9))));
    assert!(!ac.contains(&Action::PlayCard(Card::new(10))));

    let mut tried = ActionCollection::Uninit;
    tried.insert(Action::PlayCard(Card::new(9)));
    let untried = ac.without(&tried);
    assert_eq!(untried.size(), 2);
    assert!(!untried.contains(&Action::PlayCard(Card::new(9))));
    assert!(untried.contains(&Action::PlayCard(Card::new(5))));

    let mut left = ac;
    let mut popped = 0;
    while let Some(a) = left.pop_random() {
        assert!(ac.contains(&a));
        popped += 1;
    }
    assert_eq!(popped, 3);

    let mut tr = ActionCollection::Trumps { suites: 0, no_trump: true };
    tr.insert(Action::PickTrump(Some(Suite::Harten)));
    assert_eq!(tr.size(), 2);
    assert!(tr.contains(&Action::PickTrump(None)));
    assert!(tr.contains(&Action::PickTrump(Some(Suite::Harten))));
    assert!(!tr.contains(&Action::PickTrump(Some(Suite::Koeken))));
}

// Selection stops at an expandable node, and expansion links exactly one
// fresh child below it: a legal untried edge, recorded as tried.
#[test]
fn test_select_and_expand() {
    let mut r = Round::new(3);
    r.apply_action(Action::PickTrump(Some(Suite::Klavers)));
    let mut tree = Tree::new();
    let root = tree.add_node(&r, None, None);

    // nothing has been tried at the root, so selection stays there
    let mut s = r.clone();
    let (sel, _) = tree.select(root, &mut s);
    assert_eq!(sel, root);

    let mut s = r.clone();
    let child = tree.expand(root, &mut s);
    assert_ne!(child, root);
    assert_eq!(tree.size(), 2);
    assert_eq!(tree.get_parent_id(child), Some(root));
    let e = tree.get_edge(child).expect("a fresh child records its edge");
    assert!(r.possible_actions().contains(&e.action));
    assert_eq!(e.player, r.turn());
    // the applied action moved one card into the pile
    assert_eq!(s.played_cards.len(), r.played_cards.len() + 1);
}
