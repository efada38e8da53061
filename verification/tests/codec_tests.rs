use skitgubbe_game::api::{Cards, GameState, PlayAction, ServerNotification, SetupAction, Stage};
use skitgubbe_game::codec::{
    decode_card, decode_cards, decode_game_state, decode_notification, decode_play_action,
    decode_setup_action, decode_stage, encode_card, encode_cards, encode_cards_list,
    encode_game_state, encode_notification, encode_play_action, encode_setup_action,
    encode_stage,
};
use skitgubbe_game::deck::{Card, Suit};

fn card(rank: u8, suit: Suit) -> Card {
    Card { rank, suit }
}

#[test]
fn test_card_wire_form() {
    let c = card(10, Suit::Heart);
    assert_eq!(encode_card(&c), b"{\"rank\":10,\"suit\":\"Heart\"}".to_vec());
    let a = card(14, Suit::Spade);
    assert_eq!(encode_card(&a), b"{\"rank\":14,\"suit\":\"Spade\"}".to_vec());
}

#[test]
fn test_card_round_trip_all_fifty_two() {
    for rank in 2..=14u8 {
        for suit in [Suit::Club, Suit::Diamond, Suit::Heart, Suit::Spade] {
            let c = card(rank, suit);
            let bytes = encode_card(&c);
            assert_eq!(decode_card(&bytes), Some(c));
        }
    }
}

#[test]
fn test_decode_card_rejects_malformed_input() {
    assert_eq!(decode_card(&b"xyz".to_vec()), None);
    assert_eq!(decode_card(&b"".to_vec()), None);
    assert_eq!(decode_card(&b"{\"rank\":10,\"suit\":\"Heart\"".to_vec()), None);
    assert_eq!(decode_card(&b"{\"rank\":10,\"suit\":\"Heart\"}x".to_vec()), None);
    // a non-canonical number is refused
    assert_eq!(decode_card(&b"{\"rank\":07,\"suit\":\"Club\"}".to_vec()), None);
    // an unknown suit tag is refused
    assert_eq!(decode_card(&b"{\"rank\":7,\"suit\":\"Coin\"}".to_vec()), None);
    // a rank beyond one byte is refused
    assert_eq!(decode_card(&b"{\"rank\":300,\"suit\":\"Club\"}".to_vec()), None);
}

#[test]
fn test_setup_action_wire_form() {
    let a = SetupAction::ExchangeCard {
        hand: vec![card(4, Suit::Club), card(4, Suit::Diamond)],
        bottom: 1,
    };
    assert_eq!(
        encode_setup_action(&a),
        b"{\"ExchangeCard\":{\"hand\":[{\"rank\":4,\"suit\":\"Club\"},{\"rank\":4,\"suit\":\"Diamond\"}],\"bottom\":1}}"
            .to_vec()
    );
    assert_eq!(
        encode_setup_action(&SetupAction::FinishExchange),
        b"\"FinishExchange\"".to_vec()
    );
}

#[test]
fn test_setup_action_round_trip() {
    let actions = vec![
        SetupAction::ExchangeCard {
            hand: vec![card(4, Suit::Club), card(4, Suit::Diamond)],
            bottom: 1,
        },
        SetupAction::CompoundCard { hand: vec![card(11, Suit::Heart)], bottom: 0 },
        SetupAction::ExchangeCard { hand: vec![], bottom: 0 },
        SetupAction::FinishExchange,
    ];
    for a in &actions {
        let bytes = encode_setup_action(a);
        let back = decode_setup_action(&bytes).expect("round trip");
        match (a, &back) {
            (
                SetupAction::ExchangeCard { hand, bottom },
                SetupAction::ExchangeCard { hand: h2, bottom: b2 },
            ) => {
                assert_eq!(hand, h2);
                assert_eq!(bottom, b2);
            },
            (
                SetupAction::CompoundCard { hand, bottom },
                SetupAction::CompoundCard { hand: h2, bottom: b2 },
            ) => {
                assert_eq!(hand, h2);
                assert_eq!(bottom, b2);
            },
            (SetupAction::FinishExchange, SetupAction::FinishExchange) => {},
            _ => panic!("variant changed in transit"),
        }
    }
}

#[test]
fn test_decode_setup_action_rejects_malformed_input() {
    assert!(decode_setup_action(&b"".to_vec()).is_none());
    assert!(decode_setup_action(&b"\"Finish\"".to_vec()).is_none());
    assert!(
        decode_setup_action(&b"{\"ExchangeCard\":{\"hand\":[],\"bottom\":}}".to_vec()).is_none()
    );
}

#[test]
fn test_play_action_wire_form() {
    let a = PlayAction::PlaceCard { card: card(2, Suit::Club) };
    assert_eq!(
        encode_play_action(&a),
        b"{\"PlaceCard\":{\"card\":{\"rank\":2,\"suit\":\"Club\"}}}".to_vec()
    );
    assert_eq!(encode_play_action(&PlayAction::PickupStack), b"\"PickupStack\"".to_vec());
}

#[test]
fn test_play_action_round_trip() {
    for rank in 2..=14u8 {
        let a = PlayAction::PlaceCard { card: card(rank, Suit::Diamond) };
        let bytes = encode_play_action(&a);
        match decode_play_action(&bytes) {
            Some(PlayAction::PlaceCard { card: c }) => assert_eq!(c, card(rank, Suit::Diamond)),
            _ => panic!("place round trip failed"),
        }
    }
    let bytes = encode_play_action(&PlayAction::PickupStack);
    assert!(matches!(decode_play_action(&bytes), Some(PlayAction::PickupStack)));
}

#[test]
fn test_stage_wire_form_and_round_trip() {
    assert_eq!(encode_stage(Stage::Swap), b"{\"Stage\":\"Swap\"}".to_vec());
    assert_eq!(encode_stage(Stage::Play), b"{\"Stage\":\"Play\"}".to_vec());
    assert_eq!(decode_stage(&encode_stage(Stage::Swap)), Some(Stage::Swap));
    assert_eq!(decode_stage(&encode_stage(Stage::Play)), Some(Stage::Play));
    assert_eq!(decode_stage(&b"{\"Stage\":\"Wait\"}".to_vec()), None);
}

#[test]
fn test_cards_wire_form() {
    let c = Cards {
        owner_id: b"p1".to_vec(),
        hand: vec![card(3, Suit::Club)],
        bottom_cards: vec![vec![card(6, Suit::Heart)], vec![]],
    };
    assert_eq!(
        encode_cards(&c),
        b"{\"owner_id\":\"p1\",\"hand\":[{\"rank\":3,\"suit\":\"Club\"}],\"bottom_cards\":[[{\"rank\":6,\"suit\":\"Heart\"}],[]]}"
            .to_vec()
    );
}

#[test]
fn test_cards_list_wire_form() {
    let a = Cards { owner_id: b"p1".to_vec(), hand: vec![], bottom_cards: vec![] };
    let b = Cards {
        owner_id: b"p2".to_vec(),
        hand: vec![card(3, Suit::Club)],
        bottom_cards: vec![],
    };
    assert_eq!(encode_cards_list(&vec![]), b"[]".to_vec());
    assert_eq!(
        encode_cards_list(&vec![a, b]),
        b"[{\"owner_id\":\"p1\",\"hand\":[],\"bottom_cards\":[]},{\"owner_id\":\"p2\",\"hand\":[{\"rank\":3,\"suit\":\"Club\"}],\"bottom_cards\":[]}]"
            .to_vec()
    );
}

#[test]
fn test_owner_id_bytes_are_escaped() {
    let c = Cards {
        owner_id: b"a\"b\\c\nd".to_vec(),
        hand: vec![],
        bottom_cards: vec![],
    };
    assert_eq!(
        encode_cards(&c),
        b"{\"owner_id\":\"a\\\"b\\\\c\\u000ad\",\"hand\":[],\"bottom_cards\":[]}".to_vec()
    );
}

#[test]
fn test_notification_wire_form() {
    let n = ServerNotification::GameStart(vec![b"p1".to_vec(), b"p2".to_vec()]);
    assert_eq!(encode_notification(&n), b"{\"GameStart\":[\"p1\",\"p2\"]}".to_vec());
    let id = ServerNotification::Id(b"p9".to_vec());
    assert_eq!(encode_notification(&id), b"{\"Id\":\"p9\"}".to_vec());
}

#[test]
fn test_cards_round_trip() {
    let c = Cards {
        owner_id: b"a\"b\\c\x07d".to_vec(),
        hand: vec![card(3, Suit::Club), card(14, Suit::Spade)],
        bottom_cards: vec![vec![card(6, Suit::Heart), card(6, Suit::Club)], vec![]],
    };
    let bytes = encode_cards(&c);
    let back = decode_cards(&bytes).expect("round trip");
    assert_eq!(back.owner_id, c.owner_id);
    assert_eq!(back.hand, c.hand);
    assert_eq!(back.bottom_cards, c.bottom_cards);
    assert!(decode_cards(&b"{\"owner_id\":\"x\"".to_vec()).is_none());
}

#[test]
fn test_notification_round_trip() {
    let n = ServerNotification::GameStart(vec![b"p1".to_vec(), b"p2".to_vec(), b"".to_vec()]);
    let bytes = encode_notification(&n);
    match decode_notification(&bytes) {
        Some(ServerNotification::GameStart(ids)) => {
            assert_eq!(ids, vec![b"p1".to_vec(), b"p2".to_vec(), b"".to_vec()]);
        },
        _ => panic!("game-start round trip failed"),
    }
    let id = ServerNotification::Id(b"p9".to_vec());
    let bytes = encode_notification(&id);
    match decode_notification(&bytes) {
        Some(ServerNotification::Id(v)) => assert_eq!(v, b"p9".to_vec()),
        _ => panic!("id round trip failed"),
    }
    assert!(decode_notification(&b"{\"GameStart\":[}".to_vec()).is_none());
}

#[test]
fn test_game_state_round_trip() {
    let g = GameState {
        turn: b"t1".to_vec(),
        stage: Stage::Play,
        cards: Cards {
            owner_id: b"t2".to_vec(),
            hand: vec![card(4, Suit::Diamond)],
            bottom_cards: vec![vec![card(9, Suit::Club)]],
        },
        stack: vec![card(5, Suit::Spade), card(7, Suit::Heart)],
        other_players: vec![
            (b"t1".to_vec(), vec![vec![card(6, Suit::Club)]]),
            (b"t2".to_vec(), vec![]),
        ],
    };
    let bytes = encode_game_state(&g);
    let back = decode_game_state(&bytes).expect("round trip");
    assert_eq!(back.turn, g.turn);
    assert_eq!(back.stage, g.stage);
    assert_eq!(back.cards.owner_id, g.cards.owner_id);
    assert_eq!(back.cards.hand, g.cards.hand);
    assert_eq!(back.cards.bottom_cards, g.cards.bottom_cards);
    assert_eq!(back.stack, g.stack);
    assert_eq!(back.other_players, g.other_players);
}

#[test]
fn test_game_state_wire_form() {
    let g = GameState {
        turn: b"a".to_vec(),
        stage: Stage::Play,
        cards: Cards { owner_id: b"a".to_vec(), hand: vec![], bottom_cards: vec![] },
        stack: vec![card(5, Suit::Spade)],
        other_players: vec![(b"a".to_vec(), vec![vec![card(6, Suit::Club)]])],
    };
    assert_eq!(
        encode_game_state(&g),
        b"{\"turn\":\"a\",\"stage\":{\"Stage\":\"Play\"},\"cards\":{\"owner_id\":\"a\",\"hand\":[],\"bottom_cards\":[]},\"stack\":[{\"rank\":5,\"suit\":\"Spade\"}],\"other_players\":[[\"a\",[[{\"rank\":6,\"suit\":\"Club\"}]]]]}"
            .to_vec()
    );
}
