use skitgubbe_game::deck::{card_le, sort_cards, Card, Deck, Suit};

#[test]
fn test_new_deck_has_correct_size() {
    let deck = Deck::new_deck();
    assert_eq!(deck.cards.len(), 52);
}

#[test]
fn test_pull_card_reduces_deck_size() {
    let mut deck = Deck::new_deck();
    let original_size = deck.cards.len();
    let _ = deck.pull_card();
    assert_eq!(deck.cards.len(), original_size - 1);
}

#[test]
fn test_pull_cards_returns_correct_number() {
    let mut deck = Deck::new_deck();
    let original_size = deck.cards.len();
    let n = 5;
    let pulled_cards = deck.pull_cards(n);
    assert_eq!(pulled_cards.len(), n);
    assert_eq!(deck.cards.len(), original_size - n);
}

#[test]
fn test_pull_cards_handles_large_n() {
    let mut deck = Deck::new_deck();
    let original_size = deck.cards.len();
    let n = 100;
    let pulled_cards = deck.pull_cards(n);
    assert_eq!(pulled_cards.len(), original_size);
    assert_eq!(deck.cards.len(), 0);
}

#[test]
fn test_pull_cards_handles_empty_deck() {
    let mut deck = Deck { cards: Vec::new() };
    let n = 5;
    let pulled_cards = deck.pull_cards(n);
    assert_eq!(pulled_cards.len(), 0);
    assert_eq!(deck.cards.len(), 0);
}

#[test]
fn test_new_deck_cards_are_distinct() {
    let deck = Deck::new_deck();
    for i in 0..deck.cards.len() {
        for j in (i + 1)..deck.cards.len() {
            assert_ne!(deck.cards[i], deck.cards[j]);
        }
    }
}

#[test]
fn test_pull_card_returns_top_card() {
    let mut deck = Deck::new_deck();
    let top = deck.cards[deck.cards.len() - 1].clone();
    assert_eq!(deck.pull_card(), Some(top));
}

#[test]
fn test_pull_card_on_empty_deck() {
    let mut deck = Deck { cards: Vec::new() };
    assert_eq!(deck.pull_card(), None);
}

#[test]
fn test_sort_cards_orders_by_rank() {
    let mut hand = vec![
        Card { rank: 9, suit: Suit::Spade },
        Card { rank: 2, suit: Suit::Heart },
        Card { rank: 14, suit: Suit::Club },
        Card { rank: 9, suit: Suit::Club },
    ];
    sort_cards(&mut hand);
    assert_eq!(
        hand,
        vec![
            Card { rank: 2, suit: Suit::Heart },
            Card { rank: 9, suit: Suit::Club },
            Card { rank: 9, suit: Suit::Spade },
            Card { rank: 14, suit: Suit::Club },
        ]
    );
    for w in hand.windows(2) {
        assert!(card_le(&w[0], &w[1]));
    }
}
