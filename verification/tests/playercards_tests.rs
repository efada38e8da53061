use skitgubbe_game::deck::{Card, Suit};
use skitgubbe_game::playercards::{PlayerCards, SwapError};

fn card(rank: u8, suit: Suit) -> Card {
    Card { rank, suit }
}

fn no_hidden() -> Vec<Option<Card>> {
    vec![None, None, None]
}

#[test]
fn test_exchange_rejects_empty_card_list() {
    let mut p = PlayerCards::new(
        vec![card(4, Suit::Club)],
        vec![vec![card(5, Suit::Spade)]],
        no_hidden(),
    );
    assert_eq!(p.exchange_cards(vec![], 0), Err(SwapError::EmptyCards));
}

#[test]
fn test_exchange_rejects_mixed_ranks() {
    let mut p = PlayerCards::new(
        vec![card(4, Suit::Club), card(6, Suit::Heart)],
        vec![vec![card(5, Suit::Spade)]],
        no_hidden(),
    );
    let cards = vec![card(4, Suit::Club), card(6, Suit::Heart)];
    assert_eq!(p.exchange_cards(cards, 0), Err(SwapError::MixedRanks));
}

#[test]
fn test_exchange_rejects_rank_not_in_hand() {
    let mut p = PlayerCards::new(
        vec![card(4, Suit::Club)],
        vec![vec![card(5, Suit::Spade)]],
        no_hidden(),
    );
    let cards = vec![card(9, Suit::Diamond)];
    assert_eq!(p.exchange_cards(cards, 0), Err(SwapError::NotInHand));
}

#[test]
fn test_exchange_rejects_wrong_run_length() {
    let mut p = PlayerCards::new(
        vec![card(4, Suit::Club), card(7, Suit::Heart)],
        vec![vec![card(5, Suit::Spade)]],
        no_hidden(),
    );
    // asks for two fours, the hand holds only one
    let cards = vec![card(4, Suit::Club), card(4, Suit::Diamond)];
    assert_eq!(p.exchange_cards(cards, 0), Err(SwapError::RunMismatch));
}

#[test]
fn test_exchange_rejects_run_longer_than_four() {
    let hand = vec![
        card(4, Suit::Club),
        card(4, Suit::Diamond),
        card(4, Suit::Heart),
        card(4, Suit::Spade),
        card(4, Suit::Club),
    ];
    let mut p = PlayerCards::new(hand.clone(), vec![vec![card(5, Suit::Spade)]], no_hidden());
    // five of a rank in hand: only a run of four is recognized
    assert_eq!(p.exchange_cards(hand, 0), Err(SwapError::RunMismatch));
}

#[test]
fn test_exchange_rejects_repeated_card_not_held_twice() {
    // two sevens in hand, but the request repeats the same seven
    let mut p = PlayerCards::new(
        vec![card(7, Suit::Club), card(7, Suit::Diamond)],
        vec![vec![card(5, Suit::Spade)]],
        no_hidden(),
    );
    let cards = vec![card(7, Suit::Club), card(7, Suit::Club)];
    assert_eq!(p.exchange_cards(cards, 0), Err(SwapError::RunMismatch));
    // the honest request still goes through
    let cards = vec![card(7, Suit::Club), card(7, Suit::Diamond)];
    assert_eq!(p.exchange_cards(cards, 0), Ok(()));
}

#[test]
fn test_exchange_rejects_out_of_range_bottom_index() {
    let mut p = PlayerCards::new(
        vec![card(4, Suit::Club)],
        vec![vec![card(5, Suit::Spade)]],
        no_hidden(),
    );
    let cards = vec![card(4, Suit::Club)];
    assert_eq!(p.exchange_cards(cards, 3), Err(SwapError::IndexOutOfRange));
}

#[test]
fn test_exchange_swaps_run_with_stack() {
    let mut p = PlayerCards::new(
        vec![card(9, Suit::Heart), card(4, Suit::Club), card(4, Suit::Diamond)],
        vec![vec![card(5, Suit::Spade)]],
        no_hidden(),
    );
    let cards = vec![card(4, Suit::Club), card(4, Suit::Diamond)];
    assert_eq!(p.exchange_cards(cards, 0), Ok(()));
    // the stack's prior card joined the hand, which is re-sorted
    assert_eq!(p.hand, vec![card(5, Suit::Spade), card(9, Suit::Heart)]);
    let bottom = p.get_bottom_cards();
    assert_eq!(bottom, vec![vec![card(4, Suit::Club), card(4, Suit::Diamond)]]);
}

#[test]
fn test_compound_rejects_mismatched_stack_rank() {
    let mut p = PlayerCards::new(
        vec![card(6, Suit::Club)],
        vec![vec![card(9, Suit::Diamond)]],
        no_hidden(),
    );
    let cards = vec![card(6, Suit::Club)];
    assert_eq!(p.compound_cards(cards, 0), Err(SwapError::RankMismatch));
}

#[test]
fn test_compound_then_deplete_scenario() {
    // hand {7,7,7}, visible stack0 {7}
    let mut p = PlayerCards::new(
        vec![card(7, Suit::Club), card(7, Suit::Diamond), card(7, Suit::Heart)],
        vec![vec![card(7, Suit::Spade)]],
        no_hidden(),
    );
    let cards = vec![card(7, Suit::Club), card(7, Suit::Diamond), card(7, Suit::Heart)];
    assert_eq!(p.compound_cards(cards, 0), Ok(()));
    assert!(p.hand.is_empty());
    let bottom = p.get_bottom_cards();
    assert_eq!(bottom.len(), 1);
    assert_eq!(
        bottom[0],
        vec![
            card(7, Suit::Spade),
            card(7, Suit::Club),
            card(7, Suit::Diamond),
            card(7, Suit::Heart),
        ]
    );
    // a further 7 cannot be compounded onto the full four-card stack
    let again = vec![card(7, Suit::Spade)];
    assert!(p.compound_cards(again, 0).is_err());
}

#[test]
fn test_compound_rejects_overfull_stack() {
    let mut p = PlayerCards::new(
        vec![card(7, Suit::Club)],
        vec![vec![
            card(7, Suit::Spade),
            card(7, Suit::Diamond),
            card(7, Suit::Heart),
            card(7, Suit::Club),
        ]],
        no_hidden(),
    );
    let cards = vec![card(7, Suit::Club)];
    assert_eq!(p.compound_cards(cards, 0), Err(SwapError::StackFull));
}

#[test]
fn test_win_detection_scenario() {
    // hand empty, visible empty, all hidden slots absent
    let won = PlayerCards::new(vec![], vec![], no_hidden());
    assert!(won.has_won());

    // one hidden slot still present
    let not_won = PlayerCards::new(
        vec![],
        vec![],
        vec![Some(card(5, Suit::Club)), None, None],
    );
    assert!(!not_won.has_won());
}

#[test]
fn test_hidden_ace_as_last_card_cannot_be_played() {
    let mut p = PlayerCards::new(
        vec![],
        vec![],
        vec![Some(card(14, Suit::Spade)), None, None],
    );
    assert_eq!(p.play_card(&card(14, Suit::Spade)), None);
    assert!(!p.has_won());
}

#[test]
fn test_hidden_two_is_never_playable() {
    let mut p = PlayerCards::new(
        vec![],
        vec![],
        vec![Some(card(2, Suit::Club)), Some(card(5, Suit::Diamond)), None],
    );
    // a hidden 2 cannot be played, whatever else remains
    assert_eq!(p.play_card(&card(2, Suit::Club)), None);
    // a hidden ordinary card can
    assert_eq!(p.play_card(&card(5, Suit::Diamond)), Some(card(5, Suit::Diamond)));
}

#[test]
fn test_hidden_ten_is_never_playable() {
    let mut p = PlayerCards::new(
        vec![],
        vec![],
        vec![Some(card(10, Suit::Club)), Some(card(5, Suit::Diamond)), None],
    );
    assert_eq!(p.play_card(&card(10, Suit::Club)), None);
}

#[test]
fn test_hidden_ace_playable_with_company() {
    let mut p = PlayerCards::new(
        vec![],
        vec![],
        vec![Some(card(14, Suit::Spade)), Some(card(5, Suit::Diamond)), None],
    );
    // the ace is not the single remaining hidden card here
    assert_eq!(p.play_card(&card(14, Suit::Spade)), Some(card(14, Suit::Spade)));
}

#[test]
fn test_play_card_prefers_hand() {
    let mut p = PlayerCards::new(
        vec![card(8, Suit::Club)],
        vec![vec![card(8, Suit::Diamond)]],
        no_hidden(),
    );
    assert_eq!(p.play_card(&card(8, Suit::Club)), Some(card(8, Suit::Club)));
    assert!(p.hand.is_empty());
    // the visible stack was untouched
    assert_eq!(p.get_bottom_cards(), vec![vec![card(8, Suit::Diamond)]]);
}

#[test]
fn test_play_card_not_in_hand_is_illegal_while_hand_nonempty() {
    let mut p = PlayerCards::new(
        vec![card(8, Suit::Club)],
        vec![vec![card(9, Suit::Diamond)]],
        no_hidden(),
    );
    // the 9 sits in a visible stack, but the hand takes precedence
    assert_eq!(p.play_card(&card(9, Suit::Diamond)), None);
}

#[test]
fn test_play_card_from_second_stack_of_same_rank() {
    // two one-card stacks share the rank; the exact card sits in the second
    let mut p = PlayerCards::new(
        vec![],
        vec![vec![card(7, Suit::Club)], vec![card(7, Suit::Diamond)]],
        no_hidden(),
    );
    assert_eq!(p.play_card(&card(7, Suit::Diamond)), Some(card(7, Suit::Diamond)));
    assert_eq!(p.get_bottom_cards(), vec![vec![card(7, Suit::Club)]]);
}

#[test]
fn test_play_card_skips_rank_match_without_exact_card() {
    // the first rank-matching stack lacks the exact card; a later one has it
    let mut p = PlayerCards::new(
        vec![],
        vec![
            vec![card(7, Suit::Club), card(7, Suit::Heart)],
            vec![card(7, Suit::Diamond)],
            vec![card(3, Suit::Spade)],
        ],
        no_hidden(),
    );
    assert_eq!(p.play_card(&card(7, Suit::Diamond)), Some(card(7, Suit::Diamond)));
    // the two-card seven stack is untouched; the emptied one is discarded
    let bottom = p.get_bottom_cards();
    assert_eq!(bottom.len(), 2);
    assert_eq!(bottom[0], vec![card(7, Suit::Club), card(7, Suit::Heart)]);
}

#[test]
fn test_play_card_from_visible_discards_emptied_stack() {
    let mut p = PlayerCards::new(
        vec![],
        vec![vec![card(8, Suit::Club)], vec![card(3, Suit::Diamond)]],
        no_hidden(),
    );
    assert_eq!(p.play_card(&card(8, Suit::Club)), Some(card(8, Suit::Club)));
    assert_eq!(p.get_bottom_cards(), vec![vec![card(3, Suit::Diamond)]]);
}

#[test]
fn test_check_given_cards_valid_reports_run_start() {
    let mut p = PlayerCards::new(
        vec![card(9, Suit::Club), card(4, Suit::Diamond), card(4, Suit::Heart)],
        vec![],
        no_hidden(),
    );
    let cards = vec![card(4, Suit::Diamond), card(4, Suit::Heart)];
    // the hand is sorted first, so the fours start at index 0
    assert_eq!(p.check_given_cards_valid(&cards), Ok(0));
    assert_eq!(
        p.hand,
        vec![card(4, Suit::Diamond), card(4, Suit::Heart), card(9, Suit::Club)]
    );
}

#[test]
fn test_to_server_player_cards_snapshot() {
    let p = PlayerCards::new(
        vec![card(3, Suit::Club)],
        vec![vec![card(6, Suit::Heart)]],
        vec![Some(card(12, Suit::Spade)), None, None],
    );
    let snap = p.to_server_player_cards(b"p1".to_vec());
    assert_eq!(snap.owner_id, b"p1".to_vec());
    assert_eq!(snap.hand, vec![card(3, Suit::Club)]);
    // visible stacks are disclosed while any remain
    assert_eq!(snap.bottom_cards, vec![vec![card(6, Suit::Heart)]]);

    let played_out = PlayerCards::new(
        vec![],
        vec![],
        vec![Some(card(12, Suit::Spade)), None, None],
    );
    let snap2 = played_out.to_server_player_cards(b"p2".to_vec());
    // with no visible stacks the hidden slots show as one-card piles
    assert_eq!(
        snap2.bottom_cards,
        vec![vec![card(12, Suit::Spade)], vec![], vec![]]
    );
}
