//! Per-participant card state: hand, three visible stacks, three hidden
//! slots, with move legality and win detection.

use vstd::prelude::*;
use vstd::multiset::Multiset;
use crate::deck::{
    Card, Rank, ACE_RANK, clone_cards, sort_cards, spec_card_le, spec_sorted,
};

verus! {

/// Why a setup-phase exchange or compound move was rejected. Every cause
/// is distinct so the acting participant gets actionable feedback.
#[derive(Clone, Copy, PartialEq, Eq, Structural, Debug)]
pub enum SwapError {
    /// The given card list was empty.
    EmptyCards,
    /// The given cards do not all have the same rank.
    MixedRanks,
    /// No card of the given rank is in the hand.
    NotInHand,
    /// The hand's run of that rank (at most 4 recognized) does not match
    /// the number of cards given.
    RunMismatch,
    /// The bottom-stack index is out of range.
    IndexOutOfRange,
    /// The cards' rank differs from the chosen stack's rank.
    RankMismatch,
    /// The chosen stack cannot grow beyond four cards.
    StackFull,
}

impl SwapError {
    /// The wording of each cause.
    pub open spec fn spec_describe(self) -> Seq<char> {
        match self {
            SwapError::EmptyCards => "The given cards was empty"@,
            SwapError::MixedRanks => "All the the given cards must have the same rank"@,
            SwapError::NotInHand => "Card to swap is not in hand"@,
            SwapError::RunMismatch => "Your hand doesn't contain the given cards"@,
            SwapError::IndexOutOfRange => "The bottom card index is out of range"@,
            SwapError::RankMismatch => {
                "card to compound doesn't have the same rank as the bottom card index rank"@
            },
            SwapError::StackFull => "The bottom card stack cannot hold more than four cards"@,
        }
    }

    /// A human-readable cause, for the invalid-action notice.
    pub fn describe(&self) -> (r: &'static str)
        ensures
            r@ == self.spec_describe(),
    {
        match self {
            SwapError::EmptyCards => "The given cards was empty",
            SwapError::MixedRanks => "All the the given cards must have the same rank",
            SwapError::NotInHand => "Card to swap is not in hand",
            SwapError::RunMismatch => "Your hand doesn't contain the given cards",
            SwapError::IndexOutOfRange => "The bottom card index is out of range",
            SwapError::RankMismatch => {
                "card to compound doesn't have the same rank as the bottom card index rank"
            },
            SwapError::StackFull => "The bottom card stack cannot hold more than four cards",
        }
    }
}

/// Whether a visible stack may supply `c`: identifying-rank match and
/// the exact card present.
fn stack_is_candidate(stack: &Vec<Card>, c: &Card) -> (r: bool)
    requires
        stack@.len() >= 1,
    ensures
        r == PlayerCards::stack_candidate(stack@, *c),
{
    if stack[0].rank != c.rank {
        return false;
    }
    let mut j: usize = 0;
    while j < stack.len() && !(stack[j] == *c)
        invariant
            j <= stack@.len(),
            forall|m: int| 0 <= m < j ==> stack@[m] != *c,
        decreases stack@.len() - j,
    {
        j = j + 1;
    }
    proof {
        stack@.index_of_first_ensures(*c);
    }
    if j < stack.len() {
        proof {
            assert(stack@[j as int] == *c);
            assert(stack@.contains(*c));
        }
        true
    } else {
        proof {
            assert(forall|m: int| 0 <= m < stack@.len() ==> stack@[m] != *c);
            assert(stack@.index_of_first(*c) is None);
            assert(!stack@.contains(*c));
        }
        false
    }
}

/// Whether a hidden slot still holds exactly the given card.
fn hidden_slot_holds(slot: &Option<Card>, c: &Card) -> (r: bool)
    ensures
        r == (*slot == Some(*c)),
{
    match slot {
        Some(h) => *h == *c,
        None => false,
    }
}

/// The element-wise views of a vector of card stacks.
pub open spec fn views_of(s: Seq<Vec<Card>>) -> Seq<Seq<Card>> {
    s.map(|i: int, v: Vec<Card>| v@)
}

/// The cards a sequence of visible stacks holds, as one multiset.
pub open spec fn vis_multiset(vs: Seq<Seq<Card>>) -> Multiset<Card>
    decreases vs.len(),
{
    if vs.len() == 0 {
        Multiset::<Card>::empty()
    } else {
        vis_multiset(vs.drop_last()).add(vs.last().to_multiset())
    }
}

/// The cards the hidden slots still hold, as one multiset.
pub open spec fn hid_multiset(hs: Seq<Option<Card>>) -> Multiset<Card>
    decreases hs.len(),
{
    if hs.len() == 0 {
        Multiset::<Card>::empty()
    } else {
        hid_multiset(hs.drop_last()).add(
            match hs.last() {
                Some(c) => Multiset::<Card>::empty().insert(c),
                None => Multiset::<Card>::empty(),
            },
        )
    }
}

/// How many cards of rank `r` a sequence holds.
pub open spec fn count_rank(s: Seq<Card>, r: Rank) -> int
    decreases s.len(),
{
    if s.len() == 0 {
        0
    } else {
        count_rank(s.drop_last(), r) + if s.last().rank == r {
            1int
        } else {
            0int
        }
    }
}

/// The first position holding a card of rank `r`, if any.
pub open spec fn first_rank_index(s: Seq<Card>, r: Rank) -> Option<int> {
    s.map_values(|c: Card| c.rank).index_of_first(r)
}

/// How many same-rank cards one swap may move at once: the hand's run of
/// that rank, of which at most four are recognized.
pub open spec fn spec_run_len(hand: Seq<Card>, r: Rank) -> int {
    if count_rank(hand, r) < 4 {
        count_rank(hand, r)
    } else {
        4
    }
}

/// Whether the given list, as a multiset, is contained in the hand: no
/// card is asked for more often than the hand holds it.
pub open spec fn cards_within(hand: Seq<Card>, cards: Seq<Card>) -> bool {
    forall|v: Card| #[trigger] cards.to_multiset().count(v) <= hand.to_multiset().count(v)
}

/// The cause, if any, on which a request to move `cards` out of a hand
/// sorted as `hand` is rejected; the causes are checked in this order.
/// A list not fully present in the hand — wrong run length, or a card
/// repeated beyond what the hand holds — is a run mismatch.
pub open spec fn spec_swap_check(hand: Seq<Card>, cards: Seq<Card>) -> Option<SwapError> {
    if cards.len() == 0 {
        Some(SwapError::EmptyCards)
    } else if exists|m: int|
        0 <= m < cards.len() && (#[trigger] cards[m]).rank != cards[0].rank {
        Some(SwapError::MixedRanks)
    } else if count_rank(hand, cards[0].rank) == 0 {
        Some(SwapError::NotInHand)
    } else if spec_run_len(hand, cards[0].rank) != cards.len() {
        Some(SwapError::RunMismatch)
    } else if !cards_within(hand, cards) {
        Some(SwapError::RunMismatch)
    } else {
        None
    }
}

/// How many copies of `v` a card list holds.
fn count_copies(s: &Vec<Card>, v: &Card) -> (r: usize)
    ensures
        r == s@.to_multiset().count(*v),
{
    proof {
        broadcast use vstd::seq_lib::group_to_multiset_ensures;
        broadcast use vstd::multiset::group_multiset_axioms;

        assert(s@.take(0) =~= Seq::<Card>::empty());
        assert(!Seq::<Card>::empty().contains(*v));
        assert(s@.take(0).to_multiset().count(*v) == 0);
    }
    let mut cnt: usize = 0;
    let mut i: usize = 0;
    while i < s.len()
        invariant
            i <= s@.len(),
            cnt <= i,
            cnt == s@.take(i as int).to_multiset().count(*v),
        decreases s@.len() - i,
    {
        proof {
            broadcast use vstd::seq_lib::group_to_multiset_ensures;
            broadcast use vstd::multiset::group_multiset_axioms;

            assert(s@.take(i + 1) =~= s@.take(i as int).push(s@[i as int]));
        }
        if s[i] == *v {
            cnt = cnt + 1;
        }
        i = i + 1;
    }
    proof {
        assert(s@.take(s@.len() as int) =~= s@);
    }
    cnt
}

/// In a sequence where exactly the positions `a..b` hold rank `r`, there
/// are `b - a` cards of rank `r`.
proof fn lemma_count_rank_range(s: Seq<Card>, r: Rank, a: int, b: int)
    requires
        0 <= a <= b <= s.len(),
        forall|m: int| 0 <= m < s.len() ==> ((#[trigger] s[m]).rank == r <==> a <= m < b),
    ensures
        count_rank(s, r) == b - a,
    decreases s.len(),
{
    if s.len() == 0 {
    } else {
        let t = s.drop_last();
        let last_i = s.len() - 1;
        if a <= last_i < b {
            lemma_count_rank_range(t, r, a, b - 1);
        } else if b <= last_i {
            lemma_count_rank_range(t, r, a, b);
        } else {
            // a == b == s.len(): no position holds rank r
            lemma_count_rank_range(t, r, t.len() as int, t.len() as int);
        }
    }
}

/// How many hidden slots still hold a card.
pub open spec fn count_present(h: Seq<Option<Card>>) -> int
    decreases h.len(),
{
    if h.len() == 0 {
        0
    } else {
        count_present(h.drop_last()) + if h.last() is Some {
            1int
        } else {
            0int
        }
    }
}

/// One participant's cards: freely playable hand, up to three visible
/// same-rank stacks, and three hidden slots that empty one by one.
#[derive(Debug)]
pub struct PlayerCards {
    /// Face-down cards, playable only last; an emptied slot stays absent.
    pub hidden_cards: Vec<Option<Card>>,
    /// Stacks on top of the hidden cards; each holds 1 to 4 cards of one
    /// rank, and an emptied stack is discarded.
    pub visible_cards: Vec<Vec<Card>>,
    /// Cards in the participant's hand; re-sorted during the setup stage.
    pub hand: Vec<Card>,
}

impl PlayerCards {
    /// The views of the visible stacks, the model used by contracts.
    pub open spec fn vis(self) -> Seq<Seq<Card>> {
        views_of(self.visible_cards@)
    }

    /// The hidden slots, the model used by contracts.
    pub open spec fn hid(self) -> Seq<Option<Card>> {
        self.hidden_cards@
    }

    /// Every card this participant holds, in any compartment.
    pub open spec fn all_cards_multiset(self) -> Multiset<Card> {
        self.hand@.to_multiset().add(vis_multiset(self.vis())).add(hid_multiset(self.hid()))
    }

    /// A single visible stack is well-formed: 1 to 4 cards, all one rank.
    pub open spec fn stack_wf(s: Seq<Card>) -> bool {
        1 <= s.len() <= 4 && forall|k: int| 0 <= k < s.len() ==> (#[trigger] s[k]).rank == s[0].rank
    }

    /// Structural invariant: exactly three hidden slots, at most three
    /// visible stacks, every stack well-formed.
    pub open spec fn wf(self) -> bool {
        &&& self.hid().len() == 3
        &&& self.vis().len() <= 3
        &&& forall|i: int| 0 <= i < self.vis().len() ==> Self::stack_wf(#[trigger] self.vis()[i])
    }

    pub fn new(
        hand: Vec<Card>,
        visible_cards: Vec<Vec<Card>>,
        hidden_cards: Vec<Option<Card>>,
    ) -> (r: Self)
        requires
            hidden_cards@.len() == 3,
            visible_cards@.len() <= 3,
            forall|i: int|
                0 <= i < visible_cards@.len() ==> Self::stack_wf(
                    #[trigger] views_of(visible_cards@)[i],
                ),
        ensures
            r.hand == hand,
            r.vis() == views_of(visible_cards@),
            r.hid() == hidden_cards@,
            r.wf(),
    {
        Self { hidden_cards, visible_cards, hand }
    }

    /// The participant has shed everything: empty hand, no visible stack
    /// left, and every hidden slot played out.
    pub open spec fn spec_has_won(self) -> bool {
        &&& self.hand@.len() == 0
        &&& self.vis().len() == 0
        &&& forall|i: int| 0 <= i < self.hid().len() ==> self.hid()[i] is None
    }

    pub fn has_won(&self) -> (r: bool)
        ensures
            r == self.spec_has_won(),
    {
        if !self.hand.is_empty() {
            return false;
        }
        if !self.visible_cards.is_empty() {
            return false;
        }
        let mut i: usize = 0;
        while i < self.hidden_cards.len()
            invariant
                i <= self.hidden_cards@.len(),
                forall|m: int| 0 <= m < i ==> self.hidden_cards@[m] is None,
            decreases self.hidden_cards@.len() - i,
        {
            if self.hidden_cards[i].is_some() {
                return false;
            }
            i = i + 1;
        }
        true
    }

    /// Whether one visible stack may supply `c`: its identifying rank
    /// (the rank first placed into it) equals the card's rank, and it
    /// holds the exact card.
    pub open spec fn stack_candidate(s: Seq<Card>, c: Card) -> bool {
        s.len() > 0 && s[0].rank == c.rank && s.contains(c)
    }

    /// For each visible stack, whether it may supply `c`.
    pub open spec fn candidate_flags(self, c: Card) -> Seq<bool> {
        self.vis().map_values(|s: Seq<Card>| Self::stack_candidate(s, c))
    }

    /// The stack the removal takes `c` from: every stack whose
    /// identifying rank matches and which holds the exact card is a
    /// candidate; the first one supplies the card.
    pub open spec fn first_candidate_stack(self, c: Card) -> Option<int> {
        self.candidate_flags(c).index_of_first(true)
    }

    /// Whether `c` may be played now: from the hand while it is non-empty
    /// (exact card present); then from any visible stack of the card's
    /// identifying rank that holds it; last from a hidden slot, where
    /// rank 2, rank 10, and an Ace as the single remaining hidden card
    /// are barred.
    pub open spec fn spec_can_play(self, c: Card) -> bool {
        if self.hand@.len() > 0 {
            self.hand@.contains(c)
        } else if self.vis().len() > 0 {
            exists|k: int|
                0 <= k < self.vis().len() && Self::stack_candidate(#[trigger] self.vis()[k], c)
        } else {
            &&& c.rank != 2
            &&& c.rank != 10
            &&& !(c.rank == ACE_RANK && count_present(self.hid()) == 1)
            &&& self.hid().contains(Some(c))
        }
    }

    /// The hand after playing `c`: the first matching copy leaves it if
    /// the hand was the eligible compartment, else it is untouched.
    pub open spec fn spec_hand_after_play(pre: Self, c: Card) -> Seq<Card> {
        if pre.hand@.len() > 0 {
            pre.hand@.remove(pre.hand@.index_of_first(c)->Some_0)
        } else {
            pre.hand@
        }
    }

    /// How playing `c` transforms the visible stacks and hidden slots:
    /// the first matching copy leaves the eligible compartment (for the
    /// visible compartment, the first candidate stack); a visible stack
    /// emptied by the removal is discarded (its place taken by the last
    /// stack, order among remaining stacks being irrelevant).
    pub open spec fn spec_play_vis_hid(
        pre: Self,
        post_vis: Seq<Seq<Card>>,
        post_hid: Seq<Option<Card>>,
        c: Card,
    ) -> bool {
        if pre.hand@.len() > 0 {
            &&& pre.hand@.index_of_first(c) is Some
            &&& post_vis == pre.vis()
            &&& post_hid == pre.hid()
        } else if pre.vis().len() > 0 {
            match pre.first_candidate_stack(c) {
                Some(k) => match pre.vis()[k].index_of_first(c) {
                    Some(j) => {
                        let ns = pre.vis()[k].remove(j);
                        &&& post_hid == pre.hid()
                        &&& if ns.len() == 0 {
                            post_vis == pre.vis().update(k, pre.vis().last()).drop_last()
                        } else {
                            post_vis == pre.vis().update(k, ns)
                        }
                    },
                    None => false,
                },
                None => false,
            }
        } else {
            match pre.hid().index_of_first(Some(c)) {
                Some(j) => {
                    &&& post_vis == pre.vis()
                    &&& post_hid == pre.hid().update(j, None)
                },
                None => false,
            }
        }
    }

    /// How playing `c` transforms the whole state.
    pub open spec fn spec_play_result(pre: Self, post: Self, c: Card) -> bool {
        &&& Self::spec_play_vis_hid(pre, post.vis(), post.hid(), c)
        &&& post.hand@ == Self::spec_hand_after_play(pre, c)
    }

    /// Removes `card` from the first eligible compartment, precedence
    /// hand, then visible stacks, then hidden slots. Returns the removed
    /// card, or `None` (and an unchanged state) if the play is illegal.
    pub fn play_card(&mut self, card: &Card) -> (r: Option<Card>)
        requires
            old(self).wf(),
        ensures
            final(self).wf(),
            r is Some ==> r == Some(*card) && old(self).spec_can_play(*card)
                && Self::spec_play_result(*old(self), *final(self), *card),
            r is None ==> !old(self).spec_can_play(*card) && final(self).hand@ == old(
                self,
            ).hand@ && final(self).vis() == old(self).vis() && final(self).hid() == old(
                self,
            ).hid(),
    {
        // hand
        if !self.hand.is_empty() {
            let mut i: usize = 0;
            while i < self.hand.len() && !(self.hand[i] == *card)
                invariant
                    i <= self.hand@.len(),
                    forall|m: int| 0 <= m < i ==> self.hand@[m] != *card,
                decreases self.hand@.len() - i,
            {
                i = i + 1;
            }
            proof {
                self.hand@.index_of_first_ensures(*card);
            }
            if i < self.hand.len() {
                let removed = self.hand.remove(i);
                proof {
                    assert(old(self).hand@.index_of_first(*card) == Some(i as int));
                }
                return Some(removed);
            }
            proof {
                assert(forall|m: int| 0 <= m < self.hand@.len() ==> self.hand@[m] != *card);
            }
            return None;
        }
        // visible stacks
        if !self.visible_cards.is_empty() {
            let n = self.visible_cards.len();
            proof {
                assert forall|m: int| 0 <= m < n implies (
                #[trigger] self.visible_cards@[m])@.len() >= 1 by {
                    assert(Self::stack_wf(self.vis()[m]));
                }
            }
            let mut k: usize = 0;
            while k < n && !stack_is_candidate(&self.visible_cards[k], card)
                invariant
                    k <= n,
                    n == self.visible_cards@.len(),
                    forall|m: int| 0 <= m < n ==> (#[trigger] self.visible_cards@[m])@.len() >= 1,
                    forall|m: int|
                        0 <= m < k ==> !Self::stack_candidate(#[trigger] self.vis()[m], *card),
                decreases n - k,
            {
                k = k + 1;
            }
            proof {
                assert forall|m: int| 0 <= m < self.vis().len() implies self.candidate_flags(
                    *card,
                )[m] == Self::stack_candidate(self.vis()[m], *card) by {}
                self.candidate_flags(*card).index_of_first_ensures(true);
            }
            if k == n {
                proof {
                    assert(forall|m: int|
                        0 <= m < self.candidate_flags(*card).len() ==> self.candidate_flags(
                            *card,
                        )[m] != true);
                    assert(self.first_candidate_stack(*card) is None);
                }
                return None;
            }
            proof {
                assert(Self::stack_candidate(self.vis()[k as int], *card));
                assert(self.candidate_flags(*card)[k as int] == true);
                assert(self.first_candidate_stack(*card) == Some(k as int));
            }
            let stack_len = self.visible_cards[k].len();
            let mut j: usize = 0;
            while j < stack_len && !(self.visible_cards[k][j] == *card)
                invariant
                    j <= stack_len,
                    k < self.visible_cards@.len(),
                    stack_len == self.visible_cards@[k as int]@.len(),
                    forall|m: int| 0 <= m < j ==> self.vis()[k as int][m] != *card,
                decreases stack_len - j,
            {
                j = j + 1;
            }
            proof {
                self.vis()[k as int].index_of_first_ensures(*card);
            }
            if j == stack_len {
                // cannot happen: the candidate stack holds the exact card
                proof {
                    assert(forall|m: int|
                        0 <= m < self.vis()[k as int].len() ==> self.vis()[k as int][m] != *card);
                    assert(!self.vis()[k as int].contains(*card));
                    assert(false);
                }
                return None;
            }
            proof {
                assert(self.vis()[k as int].index_of_first(*card) == Some(j as int));
            }
            let mut new_stack = clone_cards(&self.visible_cards[k]);
            new_stack.remove(j);
            if new_stack.is_empty() {
                self.visible_cards.swap_remove(k);
                proof {
                    assert(self.vis() =~= old(self).vis().update(
                        k as int,
                        old(self).vis().last(),
                    ).drop_last());
                    assert forall|m: int| 0 <= m < self.vis().len() implies Self::stack_wf(
                        #[trigger] self.vis()[m],
                    ) by {
                        if m == k {
                            assert(self.vis()[m] == old(self).vis().last());
                        } else {
                            assert(self.vis()[m] == old(self).vis()[m]);
                        }
                    }
                }
            } else {
                self.visible_cards.set(k, new_stack);
                proof {
                    let ns = old(self).vis()[k as int].remove(j as int);
                    assert(self.vis() =~= old(self).vis().update(k as int, ns));
                    assert forall|m: int| 0 <= m < self.vis().len() implies Self::stack_wf(
                        #[trigger] self.vis()[m],
                    ) by {
                        if m == k {
                            let os = old(self).vis()[k as int];
                            assert forall|t: int| 0 <= t < ns.len() implies (
                            #[trigger] ns[t]).rank == ns[0].rank by {
                                assert(os[if t < j { t } else { t + 1 }].rank == os[0].rank);
                                assert(os[if 0 < j { 0int } else { 1int }].rank == os[0].rank);
                            }
                        } else {
                            assert(self.vis()[m] == old(self).vis()[m]);
                        }
                    }
                }
            }
            return Some(*card);
        }
        // hidden slots
        let hn = self.hidden_cards.len();
        let mut present: usize = 0;
        let mut i: usize = 0;
        while i < hn
            invariant
                i <= hn,
                hn == self.hid().len(),
                present <= i,
                present == count_present(self.hid().take(i as int)),
            decreases hn - i,
        {
            if self.hidden_cards[i].is_some() {
                present = present + 1;
            }
            proof {
                assert(self.hid().take(i + 1).drop_last() =~= self.hid().take(i as int));
                assert(self.hid().take(i + 1).last() == self.hid()[i as int]);
            }
            i = i + 1;
        }
        proof {
            assert(self.hid().take(self.hid().len() as int) =~= self.hid());
        }
        if card.rank == 2 || card.rank == 10 || (card.rank == ACE_RANK && present == 1) {
            return None;
        }
        let mut j: usize = 0;
        while j < hn && !hidden_slot_holds(&self.hidden_cards[j], card)
            invariant
                j <= hn,
                hn == self.hidden_cards@.len(),
                forall|m: int| 0 <= m < j ==> self.hid()[m] != Some(*card),
            decreases hn - j,
        {
            j = j + 1;
        }
        proof {
            self.hid().index_of_first_ensures(Some(*card));
        }
        if j == hn {
            proof {
                assert(forall|m: int| 0 <= m < self.hid().len() ==> self.hid()[m] != Some(*card));
                assert(self.hid().index_of_first(Some(*card)) is None);
                assert(!self.hid().contains(Some(*card)));
            }
            return None;
        }
        proof {
            assert(self.hid()[j as int] == Some(*card));
            assert(self.hid().index_of_first(Some(*card)) == Some(j as int));
        }
        self.hidden_cards.set(j, None);
        Some(*card)
    }

    /// Checks that `cards` is a non-empty same-rank list, fully present
    /// in the hand: its length equals the hand's run of that rank (at
    /// most four recognized) and no card is given more often than the
    /// hand holds it. Sorts the hand; returns the index in the sorted
    /// hand where the run begins.
    pub fn check_given_cards_valid(&mut self, cards: &Vec<Card>) -> (r: Result<usize, SwapError>)
        ensures
            final(self).vis() == old(self).vis(),
            final(self).hid() == old(self).hid(),
            match r {
                Err(e) => {
                    &&& Some(e) == spec_swap_check(spec_sorted(old(self).hand@), cards@)
                    &&& if e == SwapError::EmptyCards || e == SwapError::MixedRanks {
                        final(self).hand@ == old(self).hand@
                    } else {
                        final(self).hand@ == spec_sorted(old(self).hand@)
                    }
                },
                Ok(fi) => {
                    let sh = spec_sorted(old(self).hand@);
                    let r0 = cards@[0].rank;
                    let cnt = count_rank(sh, r0);
                    &&& spec_swap_check(sh, cards@) is None
                    &&& final(self).hand@ == sh
                    &&& 1 <= cards@.len() <= 4
                    &&& cards@.len() == spec_run_len(sh, r0)
                    &&& forall|m: int| 0 <= m < cards@.len() ==> (#[trigger] cards@[m]).rank == r0
                    &&& first_rank_index(sh, r0) == Some(fi as int)
                    &&& fi + cnt <= sh.len()
                    &&& fi + cards@.len() <= sh.len()
                    &&& forall|m: int|
                        0 <= m < sh.len() ==> ((#[trigger] sh[m]).rank == r0 <==> fi <= m < fi
                            + cnt)
                },
            },
    {
        if cards.len() == 0 {
            return Err(SwapError::EmptyCards);
        }
        let r0 = cards[0].rank;
        let mut m: usize = 1;
        while m < cards.len() && cards[m].rank == r0
            invariant
                1 <= m <= cards@.len(),
                r0 == cards@[0].rank,
                forall|t: int| 0 <= t < m ==> (#[trigger] cards@[t]).rank == r0,
            decreases cards@.len() - m,
        {
            m = m + 1;
        }
        if m < cards.len() {
            return Err(SwapError::MixedRanks);
        }
        proof {
            assert(forall|t: int| 0 <= t < cards@.len() ==> (#[trigger] cards@[t]).rank == r0);
        }

        sort_cards(&mut self.hand);
        let ghost sh = spec_sorted(old(self).hand@);
        let len = self.hand.len();

        // first card of the wanted rank in the sorted hand
        let mut fi: usize = 0;
        while fi < len && self.hand[fi].rank != r0
            invariant
                fi <= len,
                len == self.hand@.len(),
                forall|t: int| 0 <= t < fi ==> (#[trigger] self.hand@[t]).rank != r0,
            decreases len - fi,
        {
            fi = fi + 1;
        }
        proof {
            sh.map_values(|c: Card| c.rank).index_of_first_ensures(r0);
            assert forall|t: int| 0 <= t < sh.len() implies sh.map_values(|c: Card| c.rank)[t]
                == sh[t].rank by {}
        }
        if fi == len {
            proof {
                lemma_count_rank_range(sh, r0, 0, 0);
            }
            return Err(SwapError::NotInHand);
        }

        // length of the contiguous run of that rank
        let mut total: usize = 0;
        while fi + total < len && self.hand[fi + total].rank == r0
            invariant
                fi + total <= len,
                len == self.hand@.len(),
                forall|t: int| fi <= t < fi + total ==> (#[trigger] self.hand@[t]).rank == r0,
            decreases len - fi - total,
        {
            total = total + 1;
        }
        proof {
            assert(self.hand@[fi as int].rank == r0);
            assert forall|t: int| fi + total <= t < len implies (
            #[trigger] self.hand@[t]).rank != r0 by {
                assert(spec_card_le(self.hand@[fi as int], self.hand@[fi + total]));
                if t > fi + total {
                    assert(spec_card_le(self.hand@[fi + total], self.hand@[t]));
                }
            }
            assert forall|t: int|
                0 <= t < sh.len() implies ((#[trigger] sh[t]).rank == r0 <==> fi <= t < fi
                    + total) by {}
            lemma_count_rank_range(sh, r0, fi as int, fi + total);
            assert(count_rank(sh, r0) == total);
            assert(first_rank_index(sh, r0) == Some(fi as int));
        }
        let num: usize = if total < 4 {
            total
        } else {
            4
        };
        if num != cards.len() {
            return Err(SwapError::RunMismatch);
        }

        // the list must also be contained, card for card, in the hand
        let mut within = true;
        let mut i: usize = 0;
        while i < cards.len()
            invariant
                i <= cards@.len(),
                within <==> (forall|t: int|
                    0 <= t < i ==> cards@.to_multiset().count(#[trigger] cards@[t])
                        <= self.hand@.to_multiset().count(cards@[t])),
            decreases cards@.len() - i,
        {
            let v = cards[i];
            let in_cards = count_copies(cards, &v);
            let in_hand = count_copies(&self.hand, &v);
            if in_cards > in_hand {
                within = false;
            }
            i = i + 1;
        }
        if !within {
            proof {
                let t = choose|t: int|
                    0 <= t < cards@.len() && cards@.to_multiset().count(#[trigger] cards@[t])
                        > sh.to_multiset().count(cards@[t]);
                assert(!cards_within(sh, cards@));
            }
            return Err(SwapError::RunMismatch);
        }
        proof {
            broadcast use vstd::seq_lib::group_to_multiset_ensures;

            assert forall|v: Card| #[trigger] cards@.to_multiset().count(v)
                <= sh.to_multiset().count(v) by {
                if cards@.to_multiset().count(v) > 0 {
                    assert(cards@.contains(v));
                    let t = choose|t: int| 0 <= t < cards@.len() && cards@[t] == v;
                    assert(cards@.to_multiset().count(cards@[t]) <= sh.to_multiset().count(
                        cards@[t],
                    ));
                }
            }
            assert(cards_within(sh, cards@));
        }
        Ok(fi)
    }

    /// The cause, if any, on which `exchange_cards(cards, b)` is
    /// rejected; the causes are checked in this order.
    pub open spec fn spec_exchange_check(self, cards: Seq<Card>, b: int) -> Option<SwapError> {
        if b >= self.vis().len() {
            Some(SwapError::IndexOutOfRange)
        } else {
            spec_swap_check(spec_sorted(self.hand@), cards)
        }
    }

    /// Setup-phase move: swaps a same-rank run out of the hand into
    /// visible stack `bottom_index`, taking that stack's prior contents
    /// into the hand, which is then re-sorted.
    pub fn exchange_cards(&mut self, cards: Vec<Card>, bottom_index: usize) -> (r: Result<
        (),
        SwapError,
    >)
        requires
            old(self).wf(),
        ensures
            final(self).wf(),
            final(self).hid() == old(self).hid(),
            match r {
                Err(e) => {
                    &&& Some(e) == old(self).spec_exchange_check(cards@, bottom_index as int)
                    &&& final(self).vis() == old(self).vis()
                    &&& if e == SwapError::NotInHand || e == SwapError::RunMismatch {
                        final(self).hand@ == spec_sorted(old(self).hand@)
                    } else {
                        final(self).hand@ == old(self).hand@
                    }
                },
                Ok(u) => {
                    let sh = spec_sorted(old(self).hand@);
                    let n = cards@.len() as int;
                    let fi = first_rank_index(sh, cards@[0].rank)->Some_0;
                    &&& old(self).spec_exchange_check(cards@, bottom_index as int) is None
                    &&& first_rank_index(sh, cards@[0].rank) is Some
                    &&& final(self).hand@ == spec_sorted(
                        sh.subrange(0, fi) + sh.subrange(fi + n, sh.len() as int) + old(
                            self,
                        ).vis()[bottom_index as int],
                    )
                    &&& final(self).vis() == old(self).vis().update(bottom_index as int, cards@)
                },
            },
    {
        let ghost given = cards@;
        if bottom_index >= self.visible_cards.len() {
            return Err(SwapError::IndexOutOfRange);
        }
        let fi = match self.check_given_cards_valid(&cards) {
            Ok(fi) => fi,
            Err(e) => {
                return Err(e);
            },
        };
        let ghost sh = spec_sorted(old(self).hand@);
        let n = cards.len();

        // remove the run from the sorted hand
        let mut back = self.hand.split_off(fi);
        let mut rest = back.split_off(n);
        self.hand.append(&mut rest);

        // exchange the stack's contents into the hand, keeping order
        let mut old_stack = clone_cards(&self.visible_cards[bottom_index]);
        self.hand.append(&mut old_stack);
        proof {
            assert(self.hand@ =~= sh.subrange(0, fi as int) + sh.subrange(
                fi + n,
                sh.len() as int,
            ) + old(self).vis()[bottom_index as int]);
        }
        sort_cards(&mut self.hand);

        // place the given cards into the stack
        self.visible_cards.set(bottom_index, cards);
        proof {
            assert(self.vis() =~= old(self).vis().update(bottom_index as int, given));
            assert forall|i: int| 0 <= i < self.vis().len() implies Self::stack_wf(
                #[trigger] self.vis()[i],
            ) by {
                if i != bottom_index {
                    assert(self.vis()[i] == old(self).vis()[i]);
                }
            }
        }
        Ok(())
    }

    /// The cause, if any, on which `compound_cards(cards, b)` is
    /// rejected; the causes are checked in this order.
    pub open spec fn spec_compound_check(self, cards: Seq<Card>, b: int) -> Option<SwapError> {
        let sh = spec_sorted(self.hand@);
        if b >= self.vis().len() {
            Some(SwapError::IndexOutOfRange)
        } else if spec_swap_check(sh, cards) is Some {
            spec_swap_check(sh, cards)
        } else if cards[0].rank != self.vis()[b][0].rank {
            Some(SwapError::RankMismatch)
        } else if self.vis()[b].len() + cards.len() > 4 {
            Some(SwapError::StackFull)
        } else {
            None
        }
    }

    /// Setup-phase move: moves a same-rank run out of the hand onto
    /// visible stack `bottom_index`, whose identifying rank must match;
    /// the stack never grows beyond four cards.
    pub fn compound_cards(&mut self, cards: Vec<Card>, bottom_index: usize) -> (r: Result<
        (),
        SwapError,
    >)
        requires
            old(self).wf(),
        ensures
            final(self).wf(),
            final(self).hid() == old(self).hid(),
            match r {
                Err(e) => {
                    &&& Some(e) == old(self).spec_compound_check(cards@, bottom_index as int)
                    &&& final(self).vis() == old(self).vis()
                    &&& if e == SwapError::EmptyCards || e == SwapError::MixedRanks || e
                        == SwapError::IndexOutOfRange {
                        final(self).hand@ == old(self).hand@
                    } else {
                        final(self).hand@ == spec_sorted(old(self).hand@)
                    }
                },
                Ok(u) => {
                    let sh = spec_sorted(old(self).hand@);
                    let n = cards@.len() as int;
                    let fi = first_rank_index(sh, cards@[0].rank)->Some_0;
                    &&& old(self).spec_compound_check(cards@, bottom_index as int) is None
                    &&& first_rank_index(sh, cards@[0].rank) is Some
                    &&& final(self).hand@ == sh.subrange(0, fi) + sh.subrange(
                        fi + n,
                        sh.len() as int,
                    )
                    &&& final(self).vis() == old(self).vis().update(
                        bottom_index as int,
                        old(self).vis()[bottom_index as int] + cards@,
                    )
                },
            },
    {
        let ghost given = cards@;
        if bottom_index >= self.visible_cards.len() {
            return Err(SwapError::IndexOutOfRange);
        }
        let fi = match self.check_given_cards_valid(&cards) {
            Ok(fi) => fi,
            Err(e) => {
                return Err(e);
            },
        };
        let ghost sh = spec_sorted(old(self).hand@);

        // the run's rank must match the stack's identifying rank
        if cards[0].rank != self.visible_cards[bottom_index][0].rank {
            return Err(SwapError::RankMismatch);
        }
        // the stack must stay within four cards
        if self.visible_cards[bottom_index].len() + cards.len() > 4 {
            return Err(SwapError::StackFull);
        }
        let n = cards.len();

        // remove the run from the sorted hand
        let mut back = self.hand.split_off(fi);
        let mut rest = back.split_off(n);
        self.hand.append(&mut rest);
        proof {
            assert(self.hand@ =~= sh.subrange(0, fi as int) + sh.subrange(
                fi + n,
                sh.len() as int,
            ));
        }

        // add the run to the stack
        let mut moved = cards;
        let mut new_stack = clone_cards(&self.visible_cards[bottom_index]);
        new_stack.append(&mut moved);
        self.visible_cards.set(bottom_index, new_stack);
        proof {
            assert(self.vis() =~= old(self).vis().update(
                bottom_index as int,
                old(self).vis()[bottom_index as int] + given,
            ));
            assert forall|i: int| 0 <= i < self.vis().len() implies Self::stack_wf(
                #[trigger] self.vis()[i],
            ) by {
                if i != bottom_index {
                    assert(self.vis()[i] == old(self).vis()[i]);
                } else {
                    let os = old(self).vis()[bottom_index as int];
                    let ns = self.vis()[i];
                    assert forall|t: int| 0 <= t < ns.len() implies (#[trigger] ns[t]).rank
                        == ns[0].rank by {
                        assert(Self::stack_wf(os));
                        if t < os.len() {
                            assert(ns[t] == os[t]);
                        }
                        assert(ns[0] == os[0]);
                    }
                }
            }
        }
        Ok(())
    }

    /// The card piles a participant currently plays from below the hand:
    /// the visible stacks while any remain, otherwise the hidden slots as
    /// one-card (or exhausted, empty) piles.
    pub open spec fn spec_bottom(self) -> Seq<Seq<Card>> {
        if self.vis().len() > 0 {
            self.vis()
        } else {
            self.hid().map(
                |i: int, o: Option<Card>|
                    match o {
                        Some(c) => seq![c],
                        None => Seq::<Card>::empty(),
                    },
            )
        }
    }

    pub fn get_bottom_cards(&self) -> (r: Vec<Vec<Card>>)
        ensures
            views_of(r@) == self.spec_bottom(),
    {
        let mut r: Vec<Vec<Card>> = Vec::new();
        if !self.visible_cards.is_empty() {
            let mut i: usize = 0;
            while i < self.visible_cards.len()
                invariant
                    i <= self.visible_cards@.len(),
                    r@.len() == i,
                    forall|m: int| 0 <= m < i ==> (#[trigger] r@[m])@ == self.vis()[m],
                decreases self.visible_cards@.len() - i,
            {
                r.push(clone_cards(&self.visible_cards[i]));
                i = i + 1;
            }
            proof {
                assert(views_of(r@) =~= self.spec_bottom());
            }
        } else {
            let mut i: usize = 0;
            while i < self.hidden_cards.len()
                invariant
                    i <= self.hidden_cards@.len(),
                    r@.len() == i,
                    forall|m: int|
                        0 <= m < i ==> (#[trigger] r@[m])@ == match self.hidden_cards@[m] {
                            Some(c) => seq![c],
                            None => Seq::<Card>::empty(),
                        },
                decreases self.hidden_cards@.len() - i,
            {
                let mut pile: Vec<Card> = Vec::new();
                if let Some(c) = self.hidden_cards[i] {
                    pile.push(c);
                }
                r.push(pile);
                i = i + 1;
            }
            proof {
                assert(views_of(r@) =~= self.spec_bottom());
            }
        }
        r
    }

    /// The participant's cards as disclosed in a snapshot: the hand and
    /// the current bottom piles, tagged with the owner's id.
    pub fn to_server_player_cards(&self, id: Vec<u8>) -> (r: crate::api::Cards)
        ensures
            r.owner_id == id,
            r.hand@ == self.hand@,
            views_of(r.bottom_cards@) == self.spec_bottom(),
    {
        let hand = clone_cards(&self.hand);
        let bottom_cards = self.get_bottom_cards();
        crate::api::Cards::new(id, hand, bottom_cards)
    }
}

} // verus!
