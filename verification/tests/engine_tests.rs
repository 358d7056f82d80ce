use trick_engine::action::Action;
use trick_engine::card::Card;
use trick_engine::game::Game;
use trick_engine::player::{MctsPlayer, Player, RandomPlayer};
use trick_engine::stack::Stack;

#[test]
fn test_dealing() {
    let players: Vec<RandomPlayer> = vec![
        RandomPlayer::new(),
        RandomPlayer::new(),
        RandomPlayer::new(),
        RandomPlayer::new(),
    ];

    let game = Game::new(players);
    let mut seen_cards = Stack::empty();

    for player in &game.players {
        let cards = player.cards();
        seen_cards = seen_cards.union(&cards);

        assert!(cards.len() == 32 / (game.players.len() as u32));
    }

    assert!(seen_cards.bits == Stack::ALL);
}

#[test]
fn test_random_round() {
    let players: Vec<RandomPlayer> = vec![
        RandomPlayer::new(),
        RandomPlayer::new(),
        RandomPlayer::new(),
        RandomPlayer::new(),
    ];

    let mut game = Game::new(players);
    game.play_round();
}

// A full round with four random players always ends after exactly 8 tricks:
// every hand is empty, the state is terminal, and the two team scores sum
// to the 60 points of the whole deck.
#[test]
fn test_full_round_conservation() {
    let players: Vec<RandomPlayer> = vec![
        RandomPlayer::new(),
        RandomPlayer::new(),
        RandomPlayer::new(),
        RandomPlayer::new(),
    ];
    let mut game = Game::new(players);
    game.play_round();
    assert!(game.is_terminal());
    let state = game.state_ref();
    for p in 0..4 {
        assert_eq!(state.player_cards(p).len(), 0);
    }
    let (s0, s1) = state.scores();
    assert_eq!(s0 + s1, 60);
    let w = game.winner();
    assert!(w < 2);
}

// A search-based player alongside three random players still drives the
// round to completion with conserved points.
#[test]
fn test_mcts_player_round() {
    let players: Vec<MctsPlayer> = vec![
        MctsPlayer::new(40),
        MctsPlayer::new(40),
        MctsPlayer::new(40),
        MctsPlayer::new(40),
    ];
    let mut game = Game::new(players);
    game.play_round();
    assert!(game.is_terminal());
    let (s0, s1) = game.state_ref().scores();
    assert_eq!(s0 + s1, 60);
}

// During a round the played pile and the four hands always partition the
// deck: their union is the full 32-card set and the sizes sum to 32.
#[test]
fn test_conservation_every_step() {
    let players: Vec<RandomPlayer> = vec![
        RandomPlayer::new(),
        RandomPlayer::new(),
        RandomPlayer::new(),
        RandomPlayer::new(),
    ];
    let mut game = Game::new(players);
    // trump phase, then 8 tricks, one at a time, checking after each
    let mut rounds_played = 0;
    while !game.is_terminal() {
        game.play_round();
        rounds_played += 1;
        assert!(rounds_played <= 1);
    }
    let state = game.state_ref();
    let mut union = state.played_cards;
    let mut total = state.played_cards.len();
    for p in 0..4 {
        union = union.union(&state.player_cards(p));
        total += state.player_cards(p).len();
    }
    assert_eq!(union.bits, Stack::ALL);
    assert_eq!(total, 32);
}

// Setting up for the next round rotates the dealer, clears the table and
// deals four fresh hands of eight.
#[test]
fn test_setup_for_next_round() {
    let players: Vec<RandomPlayer> = vec![
        RandomPlayer::new(),
        RandomPlayer::new(),
        RandomPlayer::new(),
        RandomPlayer::new(),
    ];
    let mut game = Game::new(players);
    let dealer_before = game.state_ref().dealer;
    game.play_round();
    game.state.setup_for_next_round();
    let state = game.state_ref();
    assert_eq!(state.dealer, (dealer_before + 1) % 4);
    let (s0, s1) = state.scores();
    assert_eq!((s0, s1), (0, 0));
    assert!(state.played_cards.is_empty());
    for p in 0..4 {
        assert_eq!(state.player_cards(p).len(), 8);
    }
}

// The orchestrator's legality check agrees with the state's action set.
#[test]
fn test_is_legal() {
    let players: Vec<RandomPlayer> = vec![
        RandomPlayer::new(),
        RandomPlayer::new(),
        RandomPlayer::new(),
        RandomPlayer::new(),
    ];
    let mut game = Game::new(players);
    // the dealer may always play without trump
    assert!(game.is_legal(Action::PickTrump(None)));
    game.state.apply_action(Action::PickTrump(None));
    let leader = game.state_ref().turn();
    let hand = game.state_ref().player_cards(leader);
    for i in 0..32u32 {
        // leading: exactly the cards of the leader's own hand are legal
        assert_eq!(game.is_legal(Action::PlayCard(Card::new(i as u8))), hand.has_index(i));
    }
}
