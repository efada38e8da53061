//! The match: owns the deck, the participants' card states in fixed
//! order, and the shared play stack; drives setup, the sequential play
//! phase, move validation, stack clearing, and win or draw detection.
//! Transport is outside: callers feed decoded actions in and carry
//! snapshots out.

use vstd::prelude::*;
use vstd::multiset::Multiset;
use crate::api::{Cards, GameState, PlayAction, SetupAction, Stage};
use crate::deck::{all_cards, clone_cards, sort_cards, sorted_cards, spec_sorted, Card, Deck};
use crate::playercards::{hid_multiset, views_of, vis_multiset, PlayerCards, SwapError};

verus! {

/// Full rounds allowed before the match is declared a draw.
pub const MAX_TURNS: usize = 300;

/// Where the match stands: rearranging hands, playing in turn order, or
/// over (with a winner, or as a draw).
#[derive(Clone, Copy, PartialEq, Eq, Structural, Debug)]
pub enum MatchPhase {
    Setup,
    Play,
    Finished,
}

/// Every card a sequence of participants holds, in any compartment.
pub open spec fn players_multiset(ps: Seq<PlayerCards>) -> Multiset<Card>
    decreases ps.len(),
{
    if ps.len() == 0 {
        Multiset::<Card>::empty()
    } else {
        players_multiset(ps.drop_last()).add(ps.last().all_cards_multiset())
    }
}

/// Advancing the turn spends exactly one of the remaining turns.
proof fn lemma_advance_spends_one(pre: SkitGubbe, post: SkitGubbe)
    requires
        pre.wf(),
        SkitGubbe::spec_after_advance(pre, post),
        post.players@.len() == pre.players@.len(),
    ensures
        post.spec_turns_left() == pre.spec_turns_left() - 1,
{
    let len = pre.players@.len() as int;
    if pre.turn + 1 < pre.players@.len() {
    } else {
        assert(pre.turn == len - 1);
        assert((MAX_TURNS - pre.rounds - 1) * len == (MAX_TURNS - pre.rounds) * len - len)
            by (nonlinear_arith);
    }
}

/// The whole-run form of the turn budget: while the play phase runs, at
/// least one and at most `4 * MAX_TURNS` turns remain, and every
/// committed play-phase action spends exactly one (an `ensures` of
/// `apply_play_action`). So any run of committed actions reaches
/// `Finished` within `4 * MAX_TURNS` of them — by a win detected at a
/// turn start, or as the draw the exhausted budget forces.
pub proof fn lemma_turn_budget(g: SkitGubbe)
    requires
        g.wf(),
    ensures
        g.phase is Play ==> 1 <= g.spec_turns_left() <= 4 * MAX_TURNS,
{
    if g.phase is Play {
        // not finished, so the round budget is not yet spent
        assert(g.rounds < MAX_TURNS);
        let len = g.players@.len() as int;
        assert((MAX_TURNS - g.rounds) * len >= len) by (nonlinear_arith)
            requires
                MAX_TURNS - g.rounds >= 1,
                len >= 0,
        ;
        assert((MAX_TURNS - g.rounds) * len <= 4 * MAX_TURNS) by (nonlinear_arith)
            requires
                0 <= MAX_TURNS - g.rounds <= MAX_TURNS,
                0 <= len <= 4,
        ;
        assert(g.turn < len);
    }
}

/// A freshly dealt participant: three hidden cards, three one-card
/// visible stacks, and a sorted three-card hand.
pub open spec fn spec_player_dealt(p: PlayerCards) -> bool {
    &&& p.wf()
    &&& p.hand@.len() == 3
    &&& sorted_cards(p.hand@)
    &&& p.vis().len() == 3
    &&& forall|k: int| 0 <= k < 3 ==> (#[trigger] p.vis()[k]).len() == 1
    &&& p.hid().len() == 3
    &&& forall|k: int| 0 <= k < 3 ==> (#[trigger] p.hid()[k]) is Some
}

/// Four cards of one rank on top of the stack (never true of fewer than
/// four cards; only the trailing four are inspected).
pub open spec fn top_four_same(s: Seq<Card>) -> bool {
    s.len() >= 4 && forall|m: int|
        s.len() - 4 <= m < s.len() ==> (#[trigger] s[m]).rank == s.last().rank
}

/// Whether the shared stack accepts `c`: rank 2 and rank 10 always may
/// be played; any other card only onto an empty stack or a top of equal
/// or lower rank.
pub open spec fn spec_stack_accepts(s: Seq<Card>, c: Card) -> bool {
    c.rank == 2 || c.rank == 10 || s.len() == 0 || s.last().rank <= c.rank
}

/// The stack after a legal placement: rank 10 clears it (the card is
/// discarded, not kept); rank 2 joins and never clears; any other card
/// joins, and four alike on top then clear the stack.
pub open spec fn spec_stack_after(s: Seq<Card>, c: Card) -> Seq<Card> {
    if c.rank == 2 {
        s.push(c)
    } else if c.rank == 10 {
        Seq::<Card>::empty()
    } else if top_four_same(s.push(c)) {
        Seq::<Card>::empty()
    } else {
        s.push(c)
    }
}

/// Whether the shared stack accepts `card` right now.
pub fn stack_accepts(stack: &Vec<Card>, card: &Card) -> (r: bool)
    ensures
        r == spec_stack_accepts(stack@, *card),
{
    if card.rank == 2 || card.rank == 10 {
        return true;
    }
    if stack.len() == 0 {
        return true;
    }
    stack[stack.len() - 1].rank <= card.rank
}

/// Applies the stack rules for placing `card`: returns whether the stack
/// accepted it, and if so leaves the stack cleared or grown as the rules
/// say; a rejected card leaves the stack untouched.
pub fn place_on_stack(stack: &mut Vec<Card>, card: Card) -> (r: bool)
    ensures
        r == spec_stack_accepts(old(stack)@, card),
        r ==> final(stack)@ == spec_stack_after(old(stack)@, card),
        !r ==> final(stack)@ == old(stack)@,
{
    if !stack_accepts(stack, &card) {
        return false;
    }
    if card.rank == 10 {
        stack.clear();
        return true;
    }
    stack.push(card);
    if card.rank == 2 {
        return true;
    }
    let len = stack.len();
    if len >= 4 {
        let r0 = card.rank;
        if stack[len - 2].rank == r0 && stack[len - 3].rank == r0 && stack[len - 4].rank == r0 {
            proof {
                assert(top_four_same(stack@));
            }
            stack.clear();
        } else {
            proof {
                assert(!top_four_same(stack@));
            }
        }
    }
    true
}

/// One running match of Skit Gubbe.
#[derive(Debug)]
pub struct SkitGubbe {
    /// Participants' card states, in fixed turn order.
    pub players: Vec<PlayerCards>,
    /// Participants' ids, parallel to `players`.
    pub ids: Vec<Vec<u8>>,
    /// The shared draw pile.
    pub deck: Deck,
    /// The shared stack of played cards.
    pub playing_stack: Vec<Card>,
    pub phase: MatchPhase,
    /// Whose turn it is, during the play phase.
    pub turn: usize,
    /// Completed full rounds of the play phase.
    pub rounds: usize,
    /// Which participants have finished the setup phase.
    pub setup_done: Vec<bool>,
    /// The winning participant, once the match is over; `None` while it
    /// runs, and on a draw.
    pub winner: Option<usize>,
}

impl SkitGubbe {
    /// Structural invariant of a match.
    pub open spec fn wf(self) -> bool {
        &&& self.players@.len() == self.ids@.len()
        &&& self.players@.len() == self.setup_done@.len()
        &&& 1 <= self.players@.len() <= 4
        &&& forall|i: int| 0 <= i < self.players@.len() ==> (#[trigger] self.players@[i]).wf()
        &&& self.turn < self.players@.len()
        &&& self.rounds <= MAX_TURNS
        &&& (self.phase is Finished <==> (self.winner is Some || self.rounds == MAX_TURNS))
        &&& match self.winner {
            Some(w) => w < self.players@.len(),
            None => true,
        }
    }

    /// Creates the match: builds a fresh shuffled deck and deals each
    /// participant, in order, three hidden cards, three one-card visible
    /// stacks, and a sorted hand of three. No card is duplicated or
    /// lost: together with the remaining deck, the participants hold
    /// exactly the fresh 52-card deck.
    pub fn new(ids: Vec<Vec<u8>>) -> (r: Self)
        requires
            1 <= ids@.len() <= 4,
        ensures
            r.wf(),
            r.phase is Setup,
            r.ids == ids,
            r.players@.len() == ids@.len(),
            forall|i: int| 0 <= i < r.players@.len() ==> spec_player_dealt(#[trigger] r.players@[i]),
            r.deck.cards@.len() == 52 - 9 * ids@.len(),
            players_multiset(r.players@).add(r.deck.cards@.to_multiset()) == all_cards(
            ).to_multiset(),
            r.playing_stack@.len() == 0,
            r.turn == 0,
            r.rounds == 0,
            r.winner is None,
            forall|i: int| 0 <= i < r.setup_done@.len() ==> !(#[trigger] r.setup_done@[i]),
    {
        let mut deck = Deck::new_deck();
        let mut players: Vec<PlayerCards> = Vec::new();
        let mut setup_done: Vec<bool> = Vec::new();
        proof {
            broadcast use vstd::multiset::group_multiset_axioms;

            assert(players_multiset(players@).add(deck.cards@.to_multiset()) =~= all_cards(
            ).to_multiset());
        }

        let n = ids.len();
        let mut i: usize = 0;
        while i < n
            invariant
                i <= n,
                n == ids@.len() <= 4,
                deck.cards@.len() == 52 - 9 * i,
                players@.len() == i,
                setup_done@.len() == i,
                forall|m: int| 0 <= m < i ==> spec_player_dealt(#[trigger] players@[m]),
                forall|m: int| 0 <= m < i ==> !(#[trigger] setup_done@[m]),
                players_multiset(players@).add(deck.cards@.to_multiset()) == all_cards(
                ).to_multiset(),
            decreases n - i,
        {
            let ghost d0 = deck.cards@;
            let mut hidden: Vec<Option<Card>> = Vec::new();
            proof {
                broadcast use vstd::multiset::group_multiset_axioms;

                assert(hid_multiset(hidden@).add(deck.cards@.to_multiset()) =~= d0.to_multiset());
            }
            let mut h: usize = 0;
            while h < 3
                invariant
                    h <= 3,
                    deck.cards@.len() == 52 - 9 * i - h,
                    i < n <= 4,
                    hidden@.len() == h,
                    forall|m: int| 0 <= m < h ==> (#[trigger] hidden@[m]) is Some,
                    hid_multiset(hidden@).add(deck.cards@.to_multiset()) == d0.to_multiset(),
                decreases 3 - h,
            {
                let ghost dh = deck.cards@;
                let ghost hb = hidden@;
                let c = match deck.pull_card() {
                    Some(c) => c,
                    None => vstd::pervasive::unreached(),
                };
                hidden.push(Some(c));
                proof {
                    broadcast use vstd::seq_lib::group_to_multiset_ensures;
                    broadcast use vstd::multiset::group_multiset_axioms;

                    assert(dh.drop_last() =~= dh.remove(dh.len() - 1));
                    assert(dh[dh.len() - 1] == c);
                    assert(dh.contains(c));
                    assert(dh.to_multiset().count(c) > 0);
                    assert(deck.cards@.to_multiset() == dh.to_multiset().remove(c)) by {
                        assert(dh.remove(dh.len() - 1).to_multiset() == dh.to_multiset().remove(
                            dh[dh.len() - 1],
                        ));
                    }
                    assert(hidden@.drop_last() =~= hb);
                    assert(hidden@.last() == Some(c));
                    assert(hid_multiset(hidden@) == hid_multiset(hb).add(
                        Multiset::<Card>::empty().insert(c),
                    ));
                    assert(hid_multiset(hidden@).add(deck.cards@.to_multiset())
                        =~= d0.to_multiset());
                }
                h = h + 1;
            }

            let ghost d1 = deck.cards@;
            let mut visible: Vec<Vec<Card>> = Vec::new();
            proof {
                broadcast use vstd::multiset::group_multiset_axioms;

                assert(views_of(visible@) =~= Seq::<Seq<Card>>::empty());
                assert(vis_multiset(views_of(visible@)).add(deck.cards@.to_multiset())
                    =~= d1.to_multiset());
            }
            let mut v: usize = 0;
            while v < 3
                invariant
                    v <= 3,
                    deck.cards@.len() == 52 - 9 * i - 3 - v,
                    i < n <= 4,
                    visible@.len() == v,
                    forall|m: int| 0 <= m < v ==> (#[trigger] visible@[m])@.len() == 1,
                    vis_multiset(views_of(visible@)).add(deck.cards@.to_multiset())
                        == d1.to_multiset(),
                decreases 3 - v,
            {
                let ghost dv = deck.cards@;
                let ghost vb = visible@;
                let s = deck.pull_cards(1);
                visible.push(s);
                proof {
                    broadcast use vstd::seq_lib::group_to_multiset_ensures;
                    broadcast use vstd::multiset::group_multiset_axioms;

                    assert(dv =~= deck.cards@ + visible@.last()@);
                    vstd::seq_lib::lemma_multiset_commutative(deck.cards@, visible@.last()@);
                    assert(views_of(visible@).drop_last() =~= views_of(vb));
                    assert(views_of(visible@).last() == visible@.last()@);
                    assert(vis_multiset(views_of(visible@)) == vis_multiset(views_of(vb)).add(
                        visible@.last()@.to_multiset(),
                    ));
                    assert(vis_multiset(views_of(visible@)).add(deck.cards@.to_multiset())
                        =~= d1.to_multiset());
                }
                v = v + 1;
            }

            let ghost d2 = deck.cards@;
            let mut hand = deck.pull_cards(3);
            let ghost hp = hand@;
            sort_cards(&mut hand);
            proof {
                broadcast use vstd::seq_lib::group_to_multiset_ensures;
                broadcast use vstd::multiset::group_multiset_axioms;

                assert(d2 =~= deck.cards@ + hp);
                vstd::seq_lib::lemma_multiset_commutative(deck.cards@, hp);
                assert(hand@.to_multiset() == hp.to_multiset());
            }

            proof {
                assert forall|k: int| 0 <= k < visible@.len() implies PlayerCards::stack_wf(
                    #[trigger] views_of(visible@)[k],
                ) by {
                    assert(views_of(visible@)[k] == visible@[k]@);
                }
            }
            let ghost handv = hand@;
            let ghost visv = views_of(visible@);
            let ghost hidv = hidden@;
            let ghost pb = players@;
            let p = PlayerCards::new(hand, visible, hidden);
            players.push(p);
            setup_done.push(false);
            proof {
                broadcast use vstd::multiset::group_multiset_axioms;

                assert(p.all_cards_multiset() == handv.to_multiset().add(
                    vis_multiset(visv),
                ).add(hid_multiset(hidv)));
                assert(players@.drop_last() =~= pb);
                assert(players@.last() == p);
                assert(players_multiset(players@) == players_multiset(pb).add(
                    p.all_cards_multiset(),
                ));
                assert(p.all_cards_multiset().add(deck.cards@.to_multiset())
                    =~= d0.to_multiset());
                assert(players_multiset(players@).add(deck.cards@.to_multiset())
                    =~= all_cards().to_multiset());
            }
            i = i + 1;
        }

        Self {
            players,
            ids,
            deck,
            playing_stack: Vec::new(),
            phase: MatchPhase::Setup,
            turn: 0,
            rounds: 0,
            setup_done,
            winner: None,
        }
    }

    /// Play-phase turns remaining before the round budget forces a
    /// draw: every committed action spends exactly one.
    pub open spec fn spec_turns_left(self) -> int {
        (MAX_TURNS - self.rounds) * self.players@.len() - self.turn
    }

    /// How the turn advances after a committed play-phase action: to the
    /// next participant in fixed order; wrapping past the last completes
    /// a round, and completing the round budget ends the match with no
    /// winner.
    pub open spec fn spec_after_advance(pre: Self, post: Self) -> bool {
        &&& post.winner is None
        &&& if pre.turn + 1 < pre.players@.len() {
            post.turn == pre.turn + 1 && post.rounds == pre.rounds && post.phase is Play
        } else {
            &&& post.turn == 0
            &&& post.rounds == pre.rounds + 1
            &&& if pre.rounds + 1 == MAX_TURNS {
                post.phase is Finished
            } else {
                post.phase is Play
            }
        }
    }

    /// Moves to the next turn, closing the match as a draw once the
    /// round budget is spent.
    fn advance_turn(&mut self)
        requires
            old(self).wf(),
            old(self).phase is Play,
        ensures
            final(self).wf(),
            final(self).players == old(self).players,
            final(self).ids == old(self).ids,
            final(self).deck == old(self).deck,
            final(self).playing_stack == old(self).playing_stack,
            final(self).setup_done == old(self).setup_done,
            Self::spec_after_advance(*old(self), *final(self)),
    {
        if self.turn + 1 < self.players.len() {
            self.turn = self.turn + 1;
        } else {
            self.turn = 0;
            self.rounds = self.rounds + 1;
            if self.rounds == MAX_TURNS {
                self.phase = MatchPhase::Finished;
            }
        }
    }

    /// Play-phase step 1: if the participant to act has already won, the
    /// match ends immediately with that winner.
    pub fn check_turn_winner(&mut self) -> (r: Option<usize>)
        requires
            old(self).wf(),
            old(self).phase is Play,
        ensures
            final(self).wf(),
            final(self).players == old(self).players,
            final(self).ids == old(self).ids,
            final(self).deck == old(self).deck,
            final(self).playing_stack == old(self).playing_stack,
            final(self).setup_done == old(self).setup_done,
            final(self).turn == old(self).turn,
            final(self).rounds == old(self).rounds,
            if old(self).players@[old(self).turn as int].spec_has_won() {
                &&& r == Some(old(self).turn)
                &&& final(self).winner == Some(old(self).turn)
                &&& final(self).phase is Finished
            } else {
                &&& r is None
                &&& final(self).winner is None
                &&& final(self).phase is Play
            },
    {
        let t = self.turn;
        if self.players[t].has_won() {
            self.winner = Some(t);
            self.phase = MatchPhase::Finished;
            Some(t)
        } else {
            None
        }
    }
}

/// What became of one setup-phase action.
#[derive(Clone, Copy, PartialEq, Eq, Structural, Debug)]
pub enum SetupOutcome {
    /// The exchange or compound was applied (with any auto-replenish).
    Applied,
    /// The move was rejected for the given cause; nothing changed.
    Rejected(SwapError),
    /// The participant finished the setup phase.
    Finished,
}

impl SkitGubbe {
    /// Applies one setup-phase action of `player`. Exchanges and
    /// compounds go through that participant's card state; after a
    /// successful compound a hand short of three cards is refilled from
    /// the shared deck and re-sorted. `FinishExchange` marks the
    /// participant done.
    pub fn apply_setup_action(&mut self, player: usize, action: SetupAction) -> (r: SetupOutcome)
        requires
            old(self).wf(),
            old(self).phase is Setup,
            player < old(self).players@.len(),
        ensures
            final(self).wf(),
            final(self).phase is Setup,
            final(self).ids == old(self).ids,
            final(self).playing_stack == old(self).playing_stack,
            final(self).turn == old(self).turn,
            final(self).rounds == old(self).rounds,
            final(self).winner == old(self).winner,
            final(self).players@.len() == old(self).players@.len(),
            final(self).setup_done@.len() == old(self).setup_done@.len(),
            forall|i: int|
                0 <= i < old(self).players@.len() && i != player ==> final(self).players@[i]
                    == old(self).players@[i],
            match action {
                SetupAction::ExchangeCard { hand: cards, bottom } => {
                    let p = old(self).players@[player as int];
                    let q = final(self).players@[player as int];
                    &&& final(self).deck == old(self).deck
                    &&& final(self).setup_done == old(self).setup_done
                    &&& match p.spec_exchange_check(cards@, bottom as int) {
                        Some(e) => {
                            &&& r == SetupOutcome::Rejected(e)
                            &&& q.vis() == p.vis()
                            &&& q.hid() == p.hid()
                            &&& if e == SwapError::NotInHand || e == SwapError::RunMismatch {
                                q.hand@ == spec_sorted(p.hand@)
                            } else {
                                q.hand@ == p.hand@
                            }
                        },
                        None => {
                            let sh = spec_sorted(p.hand@);
                            let n = cards@.len() as int;
                            let fi = crate::playercards::first_rank_index(
                                sh,
                                cards@[0].rank,
                            )->Some_0;
                            &&& r == SetupOutcome::Applied
                            &&& q.hand@ == spec_sorted(
                                sh.subrange(0, fi) + sh.subrange(fi + n, sh.len() as int)
                                    + p.vis()[bottom as int],
                            )
                            &&& q.vis() == p.vis().update(bottom as int, cards@)
                            &&& q.hid() == p.hid()
                        },
                    }
                },
                SetupAction::CompoundCard { hand: cards, bottom } => {
                    let p = old(self).players@[player as int];
                    let q = final(self).players@[player as int];
                    &&& final(self).setup_done == old(self).setup_done
                    &&& match p.spec_compound_check(cards@, bottom as int) {
                        Some(e) => {
                            &&& r == SetupOutcome::Rejected(e)
                            &&& final(self).deck == old(self).deck
                            &&& q.vis() == p.vis()
                            &&& q.hid() == p.hid()
                            &&& if e == SwapError::EmptyCards || e == SwapError::MixedRanks || e
                                == SwapError::IndexOutOfRange {
                                q.hand@ == p.hand@
                            } else {
                                q.hand@ == spec_sorted(p.hand@)
                            }
                        },
                        None => {
                            let sh = spec_sorted(p.hand@);
                            let n = cards@.len() as int;
                            let fi = crate::playercards::first_rank_index(
                                sh,
                                cards@[0].rank,
                            )->Some_0;
                            let hh = sh.subrange(0, fi) + sh.subrange(fi + n, sh.len() as int);
                            let dl = old(self).deck.cards@.len() as int;
                            let d = spec_draw_count(hh.len() as int, dl);
                            &&& r == SetupOutcome::Applied
                            &&& q.vis() == p.vis().update(
                                bottom as int,
                                p.vis()[bottom as int] + cards@,
                            )
                            &&& q.hid() == p.hid()
                            &&& if hh.len() >= 3 {
                                q.hand@ == hh && final(self).deck == old(self).deck
                            } else {
                                &&& q.hand@ == spec_sorted(
                                    hh + old(self).deck.cards@.subrange(dl - d, dl),
                                )
                                &&& final(self).deck.cards@ == old(self).deck.cards@.subrange(
                                    0,
                                    dl - d,
                                )
                            }
                        },
                    }
                },
                SetupAction::FinishExchange => {
                    &&& r == SetupOutcome::Finished
                    &&& final(self).players == old(self).players
                    &&& final(self).deck == old(self).deck
                    &&& final(self).setup_done@ == old(self).setup_done@.update(
                        player as int,
                        true,
                    )
                },
            },
    {
        match action {
            SetupAction::ExchangeCard { hand: cards, bottom } => {
                let mut p = self.players.remove(player);
                let res = p.exchange_cards(cards, bottom);
                self.players.insert(player, p);
                proof {
                    assert(self.players@ =~= old(self).players@.update(
                        player as int,
                        self.players@[player as int],
                    ));
                }
                match res {
                    Ok(_) => SetupOutcome::Applied,
                    Err(e) => SetupOutcome::Rejected(e),
                }
            },
            SetupAction::CompoundCard { hand: cards, bottom } => {
                let mut p = self.players.remove(player);
                let res = p.compound_cards(cards, bottom);
                if res.is_ok() && p.hand.len() < 3 {
                    let need: usize = 3 - p.hand.len();
                    let mut drawn = self.deck.pull_cards(need);
                    p.hand.append(&mut drawn);
                    sort_cards(&mut p.hand);
                }
                self.players.insert(player, p);
                proof {
                    assert(self.players@ =~= old(self).players@.update(
                        player as int,
                        self.players@[player as int],
                    ));
                }
                match res {
                    Ok(_) => SetupOutcome::Applied,
                    Err(e) => SetupOutcome::Rejected(e),
                }
            },
            SetupAction::FinishExchange => {
                self.setup_done.set(player, true);
                SetupOutcome::Finished
            },
        }
    }

    /// Closes the setup phase (after the barrier join of all setup
    /// sub-sessions) and enters the sequential play phase.
    pub fn begin_play(&mut self)
        requires
            old(self).wf(),
            old(self).phase is Setup,
        ensures
            final(self).wf(),
            final(self).phase is Play,
            final(self).players == old(self).players,
            final(self).ids == old(self).ids,
            final(self).deck == old(self).deck,
            final(self).playing_stack == old(self).playing_stack,
            final(self).setup_done == old(self).setup_done,
            final(self).turn == old(self).turn,
            final(self).rounds == old(self).rounds,
            final(self).winner is None,
    {
        self.phase = MatchPhase::Play;
    }

    /// Every participant's snapshot, for the full-disclosure broadcast
    /// at the end of the setup phase.
    pub fn all_player_cards(&self) -> (r: Vec<Cards>)
        requires
            self.wf(),
        ensures
            r@.len() == self.players@.len(),
            forall|i: int|
                0 <= i < r@.len() ==> {
                    &&& (#[trigger] r@[i]).owner_id@ == self.ids@[i]@
                    &&& r@[i].hand@ == self.players@[i].hand@
                    &&& views_of(r@[i].bottom_cards@) == self.players@[i].spec_bottom()
                },
    {
        let mut r: Vec<Cards> = Vec::new();
        let mut i: usize = 0;
        while i < self.players.len()
            invariant
                i <= self.players@.len(),
                self.players@.len() == self.ids@.len(),
                forall|m: int| 0 <= m < self.players@.len() ==> (#[trigger] self.players@[m]).wf(),
                r@.len() == i,
                forall|m: int|
                    0 <= m < i ==> {
                        &&& (#[trigger] r@[m]).owner_id@ == self.ids@[m]@
                        &&& r@[m].hand@ == self.players@[m].hand@
                        &&& views_of(r@[m].bottom_cards@) == self.players@[m].spec_bottom()
                    },
            decreases self.players@.len() - i,
        {
            let id = crate::api::clone_bytes(&self.ids[i]);
            let c = self.players[i].to_server_player_cards(id);
            r.push(c);
            i = i + 1;
        }
        r
    }

    /// The play-phase state snapshot for one participant: whose turn it
    /// is, that participant's own cards, the shared stack, and every
    /// participant's visible piles.
    pub fn build_game_state(&self, for_player: usize) -> (r: GameState)
        requires
            self.wf(),
            for_player < self.players@.len(),
        ensures
            r.turn@ == self.ids@[self.turn as int]@,
            r.stage == Stage::Play,
            r.cards.owner_id@ == self.ids@[for_player as int]@,
            r.cards.hand@ == self.players@[for_player as int].hand@,
            views_of(r.cards.bottom_cards@) == self.players@[for_player as int].spec_bottom(),
            r.stack@ == self.playing_stack@,
            r.other_players@.len() == self.players@.len(),
            forall|i: int|
                0 <= i < r.other_players@.len() ==> {
                    &&& (#[trigger] r.other_players@[i]).0@ == self.ids@[i]@
                    &&& views_of(r.other_players@[i].1@) == self.players@[i].spec_bottom()
                },
    {
        let turn_id = crate::api::clone_bytes(&self.ids[self.turn]);
        let own_id = crate::api::clone_bytes(&self.ids[for_player]);
        let cards = self.players[for_player].to_server_player_cards(own_id);
        let stack = clone_cards(&self.playing_stack);

        let mut others: Vec<(Vec<u8>, Vec<Vec<Card>>)> = Vec::new();
        let mut i: usize = 0;
        while i < self.players.len()
            invariant
                i <= self.players@.len(),
                self.players@.len() == self.ids@.len(),
                forall|m: int| 0 <= m < self.players@.len() ==> (#[trigger] self.players@[m]).wf(),
                others@.len() == i,
                forall|m: int|
                    0 <= m < i ==> {
                        &&& (#[trigger] others@[m]).0@ == self.ids@[m]@
                        &&& views_of(others@[m].1@) == self.players@[m].spec_bottom()
                    },
            decreases self.players@.len() - i,
        {
            let id = crate::api::clone_bytes(&self.ids[i]);
            let bottom = self.players[i].get_bottom_cards();
            others.push((id, bottom));
            i = i + 1;
        }

        GameState { turn: turn_id, stage: Stage::Play, cards, stack, other_players: others }
    }
}

/// What became of one play-phase action.
#[derive(Clone, Copy, PartialEq, Eq, Structural, Debug)]
pub enum PlayOutcome {
    /// The action was illegal; nothing changed, the same participant is
    /// re-prompted.
    Illegal,
    /// The card was placed and the turn advanced.
    Played,
    /// The participant took the shared stack and the turn advanced.
    PickedUp,
}

/// How many cards the auto-draw takes: up to three in hand, fewer if the
/// deck is short.
pub open spec fn spec_draw_count(hand_len: int, deck_len: int) -> int {
    if hand_len >= 3 {
        0
    } else if deck_len < 3 - hand_len {
        deck_len
    } else {
        3 - hand_len
    }
}

impl SkitGubbe {
    /// Applies one play-phase action of the participant to act. An
    /// illegal placement (no eligible copy of the card, or a stack top
    /// above it) changes nothing and keeps the turn; a committed action
    /// draws the hand back up to three from the deck and advances the
    /// turn, ending the match in a draw once the round budget is spent.
    pub fn apply_play_action(&mut self, action: PlayAction) -> (r: PlayOutcome)
        requires
            old(self).wf(),
            old(self).phase is Play,
        ensures
            final(self).wf(),
            final(self).ids == old(self).ids,
            final(self).setup_done == old(self).setup_done,
            final(self).players@.len() == old(self).players@.len(),
            forall|i: int|
                0 <= i < old(self).players@.len() && i != old(self).turn
                    ==> final(self).players@[i] == old(self).players@[i],
            r != PlayOutcome::Illegal ==> final(self).spec_turns_left() == old(
                self,
            ).spec_turns_left() - 1,
            match action {
                PlayAction::PickupStack => {
                    let t = old(self).turn as int;
                    &&& r == PlayOutcome::PickedUp
                    &&& final(self).players@[t].hand@ == old(self).players@[t].hand@ + old(
                        self,
                    ).playing_stack@
                    &&& final(self).players@[t].vis() == old(self).players@[t].vis()
                    &&& final(self).players@[t].hid() == old(self).players@[t].hid()
                    &&& final(self).playing_stack@.len() == 0
                    &&& final(self).deck == old(self).deck
                    &&& Self::spec_after_advance(*old(self), *final(self))
                },
                PlayAction::PlaceCard { card } => {
                    let t = old(self).turn as int;
                    let p = old(self).players@[t];
                    if spec_stack_accepts(old(self).playing_stack@, card) && p.spec_can_play(
                        card,
                    ) {
                        let hp = PlayerCards::spec_hand_after_play(p, card);
                        let dl = old(self).deck.cards@.len() as int;
                        let d = spec_draw_count(hp.len() as int, dl);
                        &&& r == PlayOutcome::Played
                        &&& PlayerCards::spec_play_vis_hid(
                            p,
                            final(self).players@[t].vis(),
                            final(self).players@[t].hid(),
                            card,
                        )
                        &&& final(self).players@[t].hand@ == hp + old(
                            self,
                        ).deck.cards@.subrange(dl - d, dl)
                        &&& final(self).deck.cards@ == old(self).deck.cards@.subrange(0, dl - d)
                        &&& final(self).playing_stack@ == spec_stack_after(
                            old(self).playing_stack@,
                            card,
                        )
                        &&& Self::spec_after_advance(*old(self), *final(self))
                    } else {
                        &&& r == PlayOutcome::Illegal
                        &&& final(self).players@[t].hand@ == p.hand@
                        &&& final(self).players@[t].vis() == p.vis()
                        &&& final(self).players@[t].hid() == p.hid()
                        &&& final(self).playing_stack == old(self).playing_stack
                        &&& final(self).deck == old(self).deck
                        &&& final(self).turn == old(self).turn
                        &&& final(self).rounds == old(self).rounds
                        &&& final(self).phase is Play
                        &&& final(self).winner is None
                    }
                },
            },
    {
        let t = self.turn;
        match action {
            PlayAction::PickupStack => {
                let mut p = self.players.remove(t);
                p.hand.append(&mut self.playing_stack);
                self.players.insert(t, p);
                proof {
                    assert(self.players@ =~= old(self).players@.update(
                        t as int,
                        self.players@[t as int],
                    ));
                }
                let ghost mid = *self;
                self.advance_turn();
                proof {
                    lemma_advance_spends_one(mid, *self);
                }
                PlayOutcome::PickedUp
            },
            PlayAction::PlaceCard { card } => {
                if !stack_accepts(&self.playing_stack, &card) {
                    return PlayOutcome::Illegal;
                }
                let mut p = self.players.remove(t);
                let played = p.play_card(&card);
                if played.is_none() {
                    self.players.insert(t, p);
                    proof {
                        assert(self.players@ =~= old(self).players@.update(
                            t as int,
                            self.players@[t as int],
                        ));
                    }
                    return PlayOutcome::Illegal;
                }
                let accepted = place_on_stack(&mut self.playing_stack, card);
                proof {
                    assert(accepted);
                }
                if p.hand.len() < 3 {
                    let need: usize = 3 - p.hand.len();
                    let mut drawn = self.deck.pull_cards(need);
                    p.hand.append(&mut drawn);
                }
                self.players.insert(t, p);
                proof {
                    assert(self.players@ =~= old(self).players@.update(
                        t as int,
                        self.players@[t as int],
                    ));
                }
                let ghost mid = *self;
                self.advance_turn();
                proof {
                    lemma_advance_spends_one(mid, *self);
                }
                PlayOutcome::Played
            },
        }
    }
}

} // verus!
