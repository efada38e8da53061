//! The message types exchanged with participants: inbound actions per
//! phase, and outbound notifications and state snapshots. Participant
//! identities travel as raw bytes of their textual id.

use vstd::prelude::*;
use crate::deck::Card;

verus! {

/// Copies a byte vector (a participant id).
pub fn clone_bytes(v: &Vec<u8>) -> (r: Vec<u8>)
    ensures
        r@ == v@,
{
    let mut r: Vec<u8> = Vec::new();
    let mut i: usize = 0;
    while i < v.len()
        invariant
            i <= v@.len(),
            r@ == v@.take(i as int),
        decreases v@.len() - i,
    {
        let b = v[i];
        r.push(b);
        proof {
            assert(v@.take(i + 1) =~= v@.take(i as int).push(v@[i as int]));
        }
        i = i + 1;
    }
    proof {
        assert(v@.take(v@.len() as int) =~= v@);
    }
    r
}

/// Setup-phase request from a participant.
#[derive(Debug)]
pub enum SetupAction {
    /// Swap a same-rank run from the hand with a bottom stack.
    ExchangeCard { hand: Vec<Card>, bottom: usize },
    /// Pile a same-rank run from the hand onto a matching bottom stack.
    CompoundCard { hand: Vec<Card>, bottom: usize },
    /// Done rearranging; leave the setup phase.
    FinishExchange,
}

/// Play-phase request from a participant.
#[derive(Debug)]
pub enum PlayAction {
    /// Place a card onto the shared play stack.
    PlaceCard { card: Card },
    /// Take the whole shared play stack into the hand.
    PickupStack,
}

/// Out-of-band notice from the match to a participant.
#[derive(Debug)]
pub enum ServerNotification {
    /// The match begins, listing every participant's id.
    GameStart(Vec<Vec<u8>>),
    /// The participant's own id, assigned on connection.
    Id(Vec<u8>),
}

/// Which phase the match is in, as announced to participants.
#[derive(Clone, Copy, PartialEq, Eq, Structural, Debug)]
pub enum Stage {
    Swap,
    Play,
}

/// One participant's cards as disclosed at the setup-phase boundary.
#[derive(Debug)]
pub struct Cards {
    pub owner_id: Vec<u8>,
    pub hand: Vec<Card>,
    pub bottom_cards: Vec<Vec<Card>>,
}

impl Cards {
    pub fn new(owner_id: Vec<u8>, hand: Vec<Card>, bottom_cards: Vec<Vec<Card>>) -> (r: Self)
        ensures
            r.owner_id == owner_id,
            r.hand == hand,
            r.bottom_cards == bottom_cards,
    {
        Self { owner_id, hand, bottom_cards }
    }
}

/// The play-phase state snapshot broadcast to one participant.
#[derive(Debug)]
pub struct GameState {
    /// The id of the participant whose turn it is.
    pub turn: Vec<u8>,
    pub stage: Stage,
    /// The receiving participant's own cards.
    pub cards: Cards,
    /// The shared stack of played cards.
    pub stack: Vec<Card>,
    /// The other participants' ids and visible piles.
    pub other_players: Vec<(Vec<u8>, Vec<Vec<Card>>)>,
}

} // verus!
