use skitgubbe_game::api::{PlayAction, SetupAction};
use skitgubbe_game::deck::{Card, Deck, Suit};
use skitgubbe_game::game::{
    place_on_stack, MatchPhase, PlayOutcome, SetupOutcome, SkitGubbe, MAX_TURNS,
};
use skitgubbe_game::playercards::PlayerCards;

fn card(rank: u8, suit: Suit) -> Card {
    Card { rank, suit }
}

fn ids(n: usize) -> Vec<Vec<u8>> {
    (0..n).map(|i| vec![b'p', b'0' + i as u8]).collect()
}

#[test]
fn test_dealing_gives_each_participant_nine_cards() {
    for k in 1..=4usize {
        let game = SkitGubbe::new(ids(k));
        assert_eq!(game.players.len(), k);
        for p in &game.players {
            assert_eq!(p.hand.len(), 3);
            let bottom = p.get_bottom_cards();
            assert_eq!(bottom.len(), 3);
            for stack in &bottom {
                assert_eq!(stack.len(), 1);
            }
            let hidden = p.hidden_cards.iter().filter(|h| h.is_some()).count();
            assert_eq!(hidden, 3);
        }
        assert_eq!(game.deck.cards.len(), 52 - 9 * k);
    }
}

#[test]
fn test_rank_ten_always_clears_the_stack() {
    let mut stack = vec![card(13, Suit::Spade), card(14, Suit::Club)];
    assert!(place_on_stack(&mut stack, card(10, Suit::Heart)));
    assert!(stack.is_empty());

    let mut empty = Vec::new();
    assert!(place_on_stack(&mut empty, card(10, Suit::Heart)));
    assert!(empty.is_empty());
}

#[test]
fn test_rank_two_never_clears_the_stack() {
    let mut stack = vec![card(2, Suit::Club), card(2, Suit::Diamond), card(2, Suit::Heart)];
    assert!(place_on_stack(&mut stack, card(2, Suit::Spade)));
    // four twos on top, but a 2 never clears
    assert_eq!(stack.len(), 4);
}

#[test]
fn test_four_alike_clear_the_stack() {
    let mut stack = vec![card(5, Suit::Club), card(5, Suit::Diamond), card(5, Suit::Heart)];
    assert!(place_on_stack(&mut stack, card(5, Suit::Spade)));
    assert!(stack.is_empty());

    // fewer than four alike never trigger the clear
    let mut three = vec![card(5, Suit::Club), card(5, Suit::Diamond)];
    assert!(place_on_stack(&mut three, card(5, Suit::Spade)));
    assert_eq!(three.len(), 3);
}

#[test]
fn test_lower_card_on_higher_top_is_rejected() {
    let mut stack = vec![card(9, Suit::Club)];
    assert!(!place_on_stack(&mut stack, card(5, Suit::Diamond)));
    assert_eq!(stack, vec![card(9, Suit::Club)]);
    // an equal rank is accepted
    assert!(place_on_stack(&mut stack, card(9, Suit::Diamond)));
    assert_eq!(stack.len(), 2);
}

#[test]
fn test_setup_finish_exchange_marks_participant_done() {
    let mut game = SkitGubbe::new(ids(2));
    assert!(!game.setup_done[0]);
    let r = game.apply_setup_action(0, SetupAction::FinishExchange);
    assert_eq!(r, SetupOutcome::Finished);
    assert!(game.setup_done[0]);
    assert!(!game.setup_done[1]);
}

#[test]
fn test_setup_compound_replenishes_short_hand() {
    let mut game = SkitGubbe::new(ids(2));
    // give participant 0 a known state: one 7 in hand, a 7 stack below
    game.players[0] = PlayerCards::new(
        vec![card(7, Suit::Club)],
        vec![vec![card(7, Suit::Diamond)]],
        vec![None, None, None],
    );
    let deck_before = game.deck.cards.len();
    let r = game.apply_setup_action(
        0,
        SetupAction::CompoundCard { hand: vec![card(7, Suit::Club)], bottom: 0 },
    );
    assert_eq!(r, SetupOutcome::Applied);
    // the emptied hand was drawn back up to three from the shared deck
    assert_eq!(game.players[0].hand.len(), 3);
    assert_eq!(game.deck.cards.len(), deck_before - 3);
    assert_eq!(
        game.players[0].get_bottom_cards(),
        vec![vec![card(7, Suit::Diamond), card(7, Suit::Club)]]
    );
}

#[test]
fn test_pickup_stack_absorbs_shared_stack() {
    let mut game = SkitGubbe::new(ids(2));
    game.begin_play();
    game.playing_stack = vec![card(11, Suit::Club), card(12, Suit::Diamond)];
    let hand_before = game.players[0].hand.len();
    let r = game.apply_play_action(PlayAction::PickupStack);
    assert_eq!(r, PlayOutcome::PickedUp);
    assert!(game.playing_stack.is_empty());
    assert_eq!(game.players[0].hand.len(), hand_before + 2);
    assert_eq!(game.turn, 1);
}

#[test]
fn test_illegal_placement_keeps_the_turn() {
    let mut game = SkitGubbe::new(ids(2));
    game.begin_play();
    // a card the participant certainly does not hold as an eligible play:
    // the stack top is above it
    game.playing_stack = vec![card(14, Suit::Club)];
    let r = game.apply_play_action(PlayAction::PlaceCard { card: card(3, Suit::Club) });
    assert_eq!(r, PlayOutcome::Illegal);
    assert_eq!(game.turn, 0);
    assert_eq!(game.playing_stack, vec![card(14, Suit::Club)]);
}

#[test]
fn test_winner_detected_at_turn_start() {
    let mut game = SkitGubbe::new(ids(2));
    game.begin_play();
    game.players[0] = PlayerCards::new(vec![], vec![], vec![None, None, None]);
    let w = game.check_turn_winner();
    assert_eq!(w, Some(0));
    assert_eq!(game.phase, MatchPhase::Finished);
    assert_eq!(game.winner, Some(0));
}

#[test]
fn test_turn_budget_forces_a_draw() {
    let mut game = SkitGubbe::new(ids(2));
    game.begin_play();
    // nobody ever sheds a card: each turn just takes the (empty) stack
    for _ in 0..(2 * MAX_TURNS) {
        assert_eq!(game.phase, MatchPhase::Play);
        assert!(game.check_turn_winner().is_none());
        assert_eq!(game.apply_play_action(PlayAction::PickupStack), PlayOutcome::PickedUp);
    }
    assert_eq!(game.phase, MatchPhase::Finished);
    assert_eq!(game.winner, None);
    assert_eq!(game.rounds, MAX_TURNS);
}

#[test]
fn test_legal_placement_advances_and_draws() {
    let mut game = SkitGubbe::new(ids(2));
    game.begin_play();
    let played = game.players[0].hand[0];
    let deck_before = game.deck.cards.len();
    let r = game.apply_play_action(PlayAction::PlaceCard { card: played });
    assert_eq!(r, PlayOutcome::Played);
    assert_eq!(game.turn, 1);
    // the hand was drawn back up to three
    assert_eq!(game.players[0].hand.len(), 3);
    assert_eq!(game.deck.cards.len(), deck_before - 1);
    if played.rank != 10 {
        assert_eq!(game.playing_stack, vec![played]);
    } else {
        assert!(game.playing_stack.is_empty());
    }
}

#[test]
fn test_setup_exchange_through_the_match() {
    let mut game = SkitGubbe::new(ids(2));
    game.players[1] = PlayerCards::new(
        vec![card(4, Suit::Club), card(9, Suit::Heart), card(12, Suit::Spade)],
        vec![vec![card(5, Suit::Diamond)]],
        vec![None, None, None],
    );
    let r = game.apply_setup_action(
        1,
        SetupAction::ExchangeCard { hand: vec![card(4, Suit::Club)], bottom: 0 },
    );
    assert_eq!(r, SetupOutcome::Applied);
    assert_eq!(
        game.players[1].hand,
        vec![card(5, Suit::Diamond), card(9, Suit::Heart), card(12, Suit::Spade)]
    );
    assert_eq!(game.players[1].get_bottom_cards(), vec![vec![card(4, Suit::Club)]]);

    let bad = game.apply_setup_action(
        1,
        SetupAction::ExchangeCard { hand: vec![], bottom: 0 },
    );
    assert!(matches!(bad, SetupOutcome::Rejected(_)));
}

#[test]
fn test_play_to_a_win() {
    let mut game = SkitGubbe::new(ids(2));
    game.begin_play();
    // participant 0 is one card from shedding everything; the deck is dry
    game.players[0] = PlayerCards::new(vec![card(3, Suit::Club)], vec![], vec![None, None, None]);
    game.deck = Deck { cards: Vec::new() };

    assert!(game.check_turn_winner().is_none());
    let r = game.apply_play_action(PlayAction::PlaceCard { card: card(3, Suit::Club) });
    assert_eq!(r, PlayOutcome::Played);
    // participant 1 takes the stack; the round wraps back to participant 0
    assert!(game.check_turn_winner().is_none());
    assert_eq!(game.apply_play_action(PlayAction::PickupStack), PlayOutcome::PickedUp);
    // at the start of their turn the emptied participant is the winner
    assert_eq!(game.check_turn_winner(), Some(0));
    assert_eq!(game.phase, MatchPhase::Finished);
    assert_eq!(game.winner, Some(0));
}

#[test]
fn test_snapshots_cover_every_participant() {
    let game = SkitGubbe::new(ids(3));
    let all = game.all_player_cards();
    assert_eq!(all.len(), 3);
    for (i, c) in all.iter().enumerate() {
        assert_eq!(c.owner_id, ids(3)[i]);
        assert_eq!(c.hand, game.players[i].hand);
        assert_eq!(c.bottom_cards, game.players[i].get_bottom_cards());
    }

    let mut play = SkitGubbe::new(ids(3));
    play.begin_play();
    let state = play.build_game_state(1);
    assert_eq!(state.turn, ids(3)[0]);
    assert_eq!(state.cards.owner_id, ids(3)[1]);
    assert_eq!(state.other_players.len(), 3);
}
