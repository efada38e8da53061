//! Cards, the shuffled draw pile, and ordering of cards.

use vstd::prelude::*;
use rand::seq::SliceRandom;

verus! {

/// Card value. 2..=10 are the number cards, 11 = Jack, 12 = Queen,
/// 13 = King, 14 = Ace; higher beats lower.
pub type Rank = u8;

pub const ACE_RANK: Rank = 14;

#[derive(Clone, Copy, PartialEq, Eq, Structural, Debug, Hash)]
pub enum Suit {
    Club,
    Diamond,
    Heart,
    Spade,
}

/// One of the 52 distinct playing cards. Suits carry identity only;
/// ranks are totally ordered.
#[derive(Clone, Copy, PartialEq, Eq, Structural, Debug, Hash)]
pub struct Card {
    pub rank: Rank,
    pub suit: Suit,
}

/// Position of a suit in the fixed suit order (identity only, used to
/// make the card order total).
pub open spec fn spec_suit_index(s: Suit) -> int {
    match s {
        Suit::Club => 0,
        Suit::Diamond => 1,
        Suit::Heart => 2,
        Suit::Spade => 3,
    }
}

/// The inverse of `spec_suit_index` on 0..4.
pub open spec fn spec_suit_of(i: int) -> Suit {
    if i == 0 {
        Suit::Club
    } else if i == 1 {
        Suit::Diamond
    } else if i == 2 {
        Suit::Heart
    } else {
        Suit::Spade
    }
}

/// Total order on cards: by rank, ties broken by the suit order.
pub open spec fn spec_card_le(a: Card, b: Card) -> bool {
    a.rank < b.rank || (a.rank == b.rank && spec_suit_index(a.suit) <= spec_suit_index(b.suit))
}

pub open spec fn sorted_cards(s: Seq<Card>) -> bool {
    forall|i: int, j: int| 0 <= i < j < s.len() ==> spec_card_le(s[i], s[j])
}

/// The card order as a relation value, for use with vstd's ordering lemmas.
pub open spec fn card_le_ord() -> spec_fn(Card, Card) -> bool {
    |a: Card, b: Card| spec_card_le(a, b)
}

/// The unique rank-then-suit sorted arrangement of a set of cards.
pub open spec fn spec_sorted(s: Seq<Card>) -> Seq<Card> {
    s.sort_by(card_le_ord())
}

/// The card order is a total order: reflexive, antisymmetric, transitive
/// and total.
pub proof fn lemma_card_order_total()
    ensures
        vstd::relations::total_ordering(card_le_ord()),
{
    let r = card_le_ord();
    assert forall|x: Card, y: Card| #[trigger] r(x, y) && #[trigger] r(y, x) implies x == y by {
        assert(x.rank == y.rank);
        assert(spec_suit_index(x.suit) == spec_suit_index(y.suit));
        assert(x.suit == y.suit);
    }
}

/// What `spec_sorted` yields: the same cards, in sorted order.
pub proof fn lemma_spec_sorted_ensures(s: Seq<Card>)
    ensures
        spec_sorted(s).to_multiset() == s.to_multiset(),
        spec_sorted(s).len() == s.len(),
        sorted_cards(spec_sorted(s)),
{
    broadcast use vstd::seq_lib::group_to_multiset_ensures;

    lemma_card_order_total();
    s.lemma_sort_by_ensures(card_le_ord());
    let t = spec_sorted(s);
    assert forall|i: int, j: int| 0 <= i < j < t.len() implies spec_card_le(t[i], t[j]) by {
        assert(card_le_ord()(t[i], t[j]));
    }
    assert(t.len() == t.to_multiset().len());
    assert(s.len() == s.to_multiset().len());
}

/// A sorted sequence with the same cards as `s` is `spec_sorted(s)` itself.
pub proof fn lemma_sorted_is_spec_sorted(t: Seq<Card>, s: Seq<Card>)
    requires
        sorted_cards(t),
        t.to_multiset() == s.to_multiset(),
    ensures
        t == spec_sorted(s),
{
    lemma_card_order_total();
    lemma_spec_sorted_ensures(s);
    let r = card_le_ord();
    assert forall|i: int, j: int| 0 <= i < j < t.len() implies #[trigger] r(t[i], t[j]) by {
        assert(spec_card_le(t[i], t[j]));
    }
    assert forall|i: int, j: int|
        0 <= i < j < spec_sorted(s).len() implies #[trigger] r(
        spec_sorted(s)[i],
        spec_sorted(s)[j],
    ) by {
        assert(spec_card_le(spec_sorted(s)[i], spec_sorted(s)[j]));
    }
    vstd::seq_lib::lemma_sorted_unique(t, spec_sorted(s), r);
}

/// The canonical enumeration of all 52 cards: for each rank 2..=14 the
/// four suits in suit order.
pub open spec fn all_cards() -> Seq<Card> {
    Seq::new(52, |i: int| Card { rank: (2 + i / 4) as u8, suit: spec_suit_of(i % 4) })
}

fn suit_index(s: Suit) -> (r: u8)
    ensures
        r as int == spec_suit_index(s),
{
    match s {
        Suit::Club => 0,
        Suit::Diamond => 1,
        Suit::Heart => 2,
        Suit::Spade => 3,
    }
}

fn suit_of(i: u8) -> (r: Suit)
    requires
        i < 4,
    ensures
        r == spec_suit_of(i as int),
{
    if i == 0 {
        Suit::Club
    } else if i == 1 {
        Suit::Diamond
    } else if i == 2 {
        Suit::Heart
    } else {
        Suit::Spade
    }
}

/// Compares two cards in the total card order.
pub fn card_le(a: &Card, b: &Card) -> (r: bool)
    ensures
        r == spec_card_le(*a, *b),
{
    if a.rank != b.rank {
        a.rank < b.rank
    } else {
        suit_index(a.suit) <= suit_index(b.suit)
    }
}

/// The ordered draw pile: cards are removed from the end (the top) only.
#[derive(Debug)]
pub struct Deck {
    pub cards: Vec<Card>,
}

/// Relies on rand's `SliceRandom::shuffle` with the thread-local generator:
/// it permutes the slice in place, so whatever order comes out, the cards
/// are the same.
#[verifier::external_body]
fn shuffle_cards(cards: &mut Vec<Card>)
    ensures
        final(cards)@.to_multiset() == old(cards)@.to_multiset(),
{
    let mut rng = rand::rng();
    cards.as_mut_slice().shuffle(&mut rng);
}

proof fn lemma_all_cards_no_duplicates()
    ensures
        all_cards().no_duplicates(),
{
    assert forall|i: int, j: int| 0 <= i < j < 52 implies all_cards()[i] != all_cards()[j] by {
        assert(i == 4 * (i / 4) + i % 4) by (nonlinear_arith);
        assert(j == 4 * (j / 4) + j % 4) by (nonlinear_arith);
        if i / 4 == j / 4 {
            assert(i % 4 != j % 4);
            assert(spec_suit_of(i % 4) != spec_suit_of(j % 4));
        } else {
            assert(2 + i / 4 != 2 + j / 4);
        }
    }
}

impl Deck {
    /// Builds the full 52-card deck, uniformly randomly ordered: every
    /// card exactly once, in some order.
    pub fn new_deck() -> (r: Self)
        ensures
            r.cards@.len() == 52,
            r.cards@.to_multiset() == all_cards().to_multiset(),
            r.cards@.no_duplicates(),
    {
        let mut cards: Vec<Card> = Vec::new();

        let mut rank: u8 = 2;
        while rank <= 14
            invariant
                2 <= rank <= 15,
                cards@.len() == (rank - 2) * 4,
                cards@ =~= all_cards().take((rank - 2) * 4),
            decreases 15 - rank,
        {
            let mut s: u8 = 0;
            while s < 4
                invariant
                    2 <= rank <= 14,
                    s <= 4,
                    cards@.len() == (rank - 2) * 4 + s,
                    cards@ =~= all_cards().take((rank - 2) * 4 + s),
                decreases 4 - s,
            {
                let c = Card { rank, suit: suit_of(s) };
                proof {
                    let i: int = (rank - 2) * 4 + s;
                    assert(i / 4 == rank - 2 && i % 4 == s as int) by (nonlinear_arith)
                        requires
                            2 <= rank <= 14,
                            s < 4,
                            i == (rank - 2) * 4 + s,
                    ;
                    assert(all_cards()[i] == c);
                }
                cards.push(c);
                s = s + 1;
            }
            rank = rank + 1;
        }
        assert(cards@ =~= all_cards());

        proof {
            lemma_all_cards_no_duplicates();
        }
        let ghost built = cards@;
        shuffle_cards(&mut cards);
        proof {
            broadcast use vstd::seq_lib::group_to_multiset_ensures;

            built.lemma_multiset_has_no_duplicates();
            cards@.lemma_multiset_has_no_duplicates_conv();
            assert(cards@.len() == cards@.to_multiset().len());
            assert(built.len() == built.to_multiset().len());
        }

        Self { cards }
    }

    /// Removes and returns the top card, or `None` on an empty deck.
    pub fn pull_card(&mut self) -> (r: Option<Card>)
        ensures
            old(self).cards@.len() > 0 ==> r == Some(old(self).cards@.last())
                && final(self).cards@ == old(self).cards@.drop_last(),
            old(self).cards@.len() == 0 ==> r is None && final(self).cards@ == old(self).cards@,
    {
        self.cards.pop()
    }

    /// Removes and returns the top `n` cards in deck order; if fewer than
    /// `n` remain, returns all that exist (possibly none). Never fails.
    pub fn pull_cards(&mut self, n: usize) -> (r: Vec<Card>)
        ensures
            r@.len() == if n <= old(self).cards@.len() {
                n as int
            } else {
                old(self).cards@.len() as int
            },
            r@ == old(self).cards@.subrange(
                old(self).cards@.len() - r@.len(),
                old(self).cards@.len() as int,
            ),
            final(self).cards@ == old(self).cards@.subrange(
                0,
                old(self).cards@.len() - r@.len(),
            ),
    {
        let len = self.cards.len();
        let start = if n <= len {
            len - n
        } else {
            0
        };
        self.cards.split_off(start)
    }
}

/// Copies a vector of cards.
pub fn clone_cards(v: &Vec<Card>) -> (r: Vec<Card>)
    ensures
        r@ == v@,
{
    let mut r: Vec<Card> = Vec::new();
    let mut i: usize = 0;
    while i < v.len()
        invariant
            i <= v@.len(),
            r@ == v@.take(i as int),
        decreases v@.len() - i,
    {
        let c = v[i];
        r.push(c);
        proof {
            assert(v@.take(i + 1) =~= v@.take(i as int).push(v@[i as int]));
        }
        i = i + 1;
    }
    proof {
        assert(v@.take(v@.len() as int) =~= v@);
    }
    r
}

/// Sorts a hand of cards in the total card order, keeping exactly the
/// same cards.
pub fn sort_cards(cards: &mut Vec<Card>)
    ensures
        final(cards)@ == spec_sorted(old(cards)@),
        sorted_cards(final(cards)@),
        final(cards)@.to_multiset() == old(cards)@.to_multiset(),
        final(cards)@.len() == old(cards)@.len(),
{
    let ghost orig = cards@;
    let mut i: usize = 1;
    while i < cards.len()
        invariant
            1 <= i,
            cards@.len() == 0 ==> i == 1,
            cards@.len() > 0 ==> i <= cards@.len(),
            cards@.len() == orig.len(),
            cards@.to_multiset() == orig.to_multiset(),
            cards@.len() > 0 ==> sorted_cards(cards@.take(i as int)),
        decreases cards@.len() - i,
    {
        proof {
            assert forall|a: int, b: int| 0 <= a < b < i implies spec_card_le(
                cards@[a],
                cards@[b],
            ) by {
                assert(cards@.take(i as int)[a] == cards@[a]);
                assert(cards@.take(i as int)[b] == cards@[b]);
            }
        }
        let mut j: usize = i;
        while j > 0 && !card_le(&cards[j - 1], &cards[j])
            invariant
                0 <= j <= i < cards@.len(),
                cards@.len() == orig.len(),
                cards@.to_multiset() == orig.to_multiset(),
                forall|a: int, b: int|
                    0 <= a < b <= i && b != j ==> spec_card_le(cards@[a], cards@[b]),
            decreases j,
        {
            let ghost before = cards@;
            let x = cards[j - 1];
            let y = cards[j];
            cards.set(j - 1, y);
            cards.set(j, x);
            proof {
                lemma_swap_multiset(before, j - 1, j as int);
                assert(cards@ == before.update(j - 1, before[j as int]).update(
                    j as int,
                    before[j - 1],
                ));
            }
            j = j - 1;
        }
        proof {
            assert forall|a: int, b: int| 0 <= a < b <= i implies spec_card_le(
                cards@[a],
                cards@[b],
            ) by {
                if b == j && j > 0 {
                    assert(spec_card_le(cards@[j - 1], cards@[j as int]));
                    if a < j - 1 {
                        assert(spec_card_le(cards@[a], cards@[j - 1]));
                    }
                }
            }
            assert forall|a: int, b: int| 0 <= a < b < i + 1 implies spec_card_le(
                #[trigger] cards@.take(i + 1)[a],
                #[trigger] cards@.take(i + 1)[b],
            ) by {
                assert(cards@.take(i + 1)[a] == cards@[a]);
                assert(cards@.take(i + 1)[b] == cards@[b]);
            }
            assert(sorted_cards(cards@.take(i + 1)));
        }
        i = i + 1;
    }
    proof {
        if orig.len() > 0 {
            assert(cards@.take(cards@.len() as int) =~= cards@);
        }
        lemma_sorted_is_spec_sorted(cards@, orig);
    }
}

/// Swapping two positions of a sequence keeps its multiset of elements.
proof fn lemma_swap_multiset(s: Seq<Card>, a: int, b: int)
    requires
        0 <= a < s.len(),
        0 <= b < s.len(),
    ensures
        s.update(a, s[b]).update(b, s[a]).to_multiset() == s.to_multiset(),
{
    broadcast use vstd::seq_lib::group_to_multiset_ensures;
    broadcast use vstd::seq_lib::to_multiset_update;
    broadcast use vstd::multiset::group_multiset_axioms;
    broadcast use vstd::multiset::group_multiset_properties;

    if a == b {
        assert(s.update(a, s[b]).update(b, s[a]) =~= s);
    } else {
        let s1 = s.update(a, s[b]);
        let t = s1.update(b, s[a]);
        assert(s.contains(s[a]) && s.contains(s[b]));
        assert(s.to_multiset().count(s[a]) > 0 && s.to_multiset().count(s[b]) > 0);
        assert(s1[b] == s[b]);
        assert(t.to_multiset() =~= s.to_multiset());
    }
}

} // verus!
