//! The public state of a hand: chips, turn, board, the hand being evaluated
//! and the cards already seen.

use vstd::prelude::*;
use crate::cardset::CardSet;
use crate::game::{Card, ChipState, Hand, Position, lemma_card_idx_injective};
use crate::rng::{XorShiftU64, card_drawn, is_seen};
use crate::tree::{NodeType, Spot};

verus! {

/// The state the search starts from. `hero_hand` is not necessarily the
/// engine's own hand: it is set to each candidate hand when ranges are built.
/// The players' ranges are kept beside it by the search.
#[derive(Clone, Copy)]
pub struct GameState {
    pub chip_state: ChipState,
    pub turn: Position,
    pub board: CardSet,
    pub hero_hand: Hand,
    /// One bit per card number: board, hero hand and other cards known.
    pub seen: u64,
    pub board_len: u8,
}

/// Card numbers below 52 not yet seen.
pub open spec fn unseen(seen: u64) -> Set<int> {
    Set::new(|i: int| 0 <= i < 52 && !is_seen(seen, i))
}

/// `seen` with the cards of `d` marked, in order.
pub open spec fn seen_after(seen: u64, d: Seq<Card>) -> u64
    decreases d.len(),
{
    if d.len() == 0 {
        seen
    } else {
        seen_after(seen, d.drop_last()) | d.last().mask()
    }
}

/// `board` with the cards of `d` added, in order.
pub open spec fn board_after(board: CardSet, d: Seq<Card>) -> CardSet
    decreases d.len(),
{
    if d.len() == 0 {
        board
    } else {
        board_after(board, d.drop_last()).added(d.last())
    }
}

/// The cards `d` are those that `next_card` takes one after another from
/// generator state `s0`, each marked seen before the next, ending at `s1`.
pub open spec fn drawn_in_turn(s0: u64, seen: u64, d: Seq<Card>, s1: u64) -> bool
    decreases d.len(),
{
    if d.len() == 0 {
        s1 == s0
    } else {
        exists|s: u64|
            #![trigger card_drawn(s, seen_after(seen, d.drop_last()), d.last(), s1)]
            drawn_in_turn(s0, seen, d.drop_last(), s) && card_drawn(
                s,
                seen_after(seen, d.drop_last()),
                d.last(),
                s1,
            )
    }
}

/// How many cards of rank `r` are seen in `now` but not in `before`.
pub open spec fn newly_seen_of_rank(before: u64, now: u64, r: int) -> int {
    (if is_seen(now, r) && !is_seen(before, r) { 1int } else { 0int }) + (if is_seen(now, r + 13)
        && !is_seen(before, r + 13) { 1int } else { 0int }) + (if is_seen(now, r + 26) && !is_seen(
        before,
        r + 26,
    ) { 1int } else { 0int }) + (if is_seen(now, r + 39) && !is_seen(before, r + 39) { 1int } else { 0int })
}

/// Marking the unseen card of rank `rank` and suit `suit` seen adds one to
/// the newly seen cards of that rank, of which there were at most three.
proof fn lemma_newly_seen_step(before: u64, prev: u64, now: u64, rank: int, suit: int)
    requires
        0 <= rank < 13,
        0 <= suit < 4,
        !is_seen(prev, rank + 13 * suit),
        forall|i: int| 0 <= i < 64 ==> is_seen(now, i) == (is_seen(prev, i) || i == rank + 13 * suit),
        forall|i: int| 0 <= i < 52 && is_seen(before, i) ==> is_seen(prev, i),
    ensures
        newly_seen_of_rank(before, prev, rank) <= 3,
        forall|r: int|
            0 <= r < 13 ==> #[trigger] newly_seen_of_rank(before, now, r) == newly_seen_of_rank(before, prev, r)
                + if r == rank { 1int } else { 0int },
{
    let k = rank + 13 * suit;
    assert(!is_seen(before, k));
    assert forall|r: int|
        0 <= r < 13 implies #[trigger] newly_seen_of_rank(before, now, r) == newly_seen_of_rank(before, prev, r)
            + if r == rank { 1int } else { 0int } by {
        assert(is_seen(now, r) == (is_seen(prev, r) || r == k));
        assert(is_seen(now, r + 13) == (is_seen(prev, r + 13) || r + 13 == k));
        assert(is_seen(now, r + 26) == (is_seen(prev, r + 26) || r + 26 == k));
        assert(is_seen(now, r + 39) == (is_seen(prev, r + 39) || r + 39 == k));
    }
}

/// `d` holds distinct cards, none of them in `seen`.
pub open spec fn fresh_cards(seen: u64, d: Seq<Card>) -> bool {
    &&& forall|i: int| 0 <= i < d.len() ==> 0 <= #[trigger] d[i].idx() < 52 && !is_seen(seen, d[i].idx())
    &&& forall|i: int, j: int| 0 <= i < j < d.len() ==> d[i] != d[j]
}

/// Marking card `k` seen removes exactly it from the unseen cards.
proof fn lemma_mark_seen(seen: u64, k: int)
    requires
        0 <= k < 52,
    ensures
        unseen(seen | (1u64 << (k as u64))) == unseen(seen).remove(k),
        forall|i: int| 0 <= i < 64 ==> is_seen(seen | (1u64 << (k as u64)), i) == (is_seen(seen, i) || i == k),
{
    assert forall|i: int| 0 <= i < 64 implies is_seen(seen | (1u64 << (k as u64)), i) == (is_seen(seen, i) || i == k) by {
        let (iu, ku) = (i as u64, k as u64);
        assert(iu < 64 && ku < 64 ==> ((seen | (1u64 << ku)) & (1u64 << iu) != 0) == ((seen & (1u64 << iu) != 0) || iu == ku)) by (bit_vector);
    }
    assert(unseen(seen | (1u64 << (k as u64))) =~= unseen(seen).remove(k));
}

proof fn lemma_unseen_finite(seen: u64)
    ensures
        unseen(seen).finite(),
        unseen(seen).len() <= 52,
{
    let r = vstd::set_lib::set_int_range(0, 52);
    vstd::set_lib::lemma_int_range(0, 52);
    assert(unseen(seen).subset_of(r));
    vstd::set_lib::lemma_len_subset(unseen(seen), r);
}

/// Forgetting cards only adds to the unseen ones.
pub proof fn lemma_unseen_grows(seen: u64, a: u64, b: u64)
    ensures
        unseen(seen).subset_of(unseen(seen & !a & !b)),
        unseen(seen).len() <= unseen(seen & !a & !b).len(),
{
    assert forall|i: int| #[trigger] unseen(seen).contains(i) implies unseen(seen & !a & !b).contains(i) by {
        let iu = i as u64;
        assert(iu < 64 && seen & (1u64 << iu) == 0 ==> (seen & !a & !b) & (1u64 << iu) == 0) by (bit_vector);
    }
    lemma_unseen_finite(seen & !a & !b);
    vstd::set_lib::lemma_len_subset(unseen(seen), unseen(seen & !a & !b));
}

impl GameState {
    /// Replaces the hand being evaluated, moving its cards in `seen`.
    pub fn set_hero_hand(&mut self, hand: Hand)
        ensures
            final(self).seen == (old(self).seen & !old(self).hero_hand.0.mask() & !old(self).hero_hand.1.mask())
                | hand.0.mask() | hand.1.mask(),
            final(self).hero_hand == hand,
            final(self).chip_state == old(self).chip_state,
            final(self).turn == old(self).turn,
            final(self).board == old(self).board,
            final(self).board_len == old(self).board_len,
    {
        self.seen = self.seen & !self.hero_hand.0.card_mask();
        self.seen = self.seen & !self.hero_hand.1.card_mask();
        self.hero_hand = hand;
        self.seen = self.seen | hand.0.card_mask();
        self.seen = self.seen | hand.1.card_mask();
    }

    /// Forgets the hand being evaluated in `seen`.
    pub fn remove_hero_hand(&mut self)
        ensures
            final(self).seen == old(self).seen & !old(self).hero_hand.0.mask() & !old(self).hero_hand.1.mask(),
            final(self).hero_hand == old(self).hero_hand,
            final(self).chip_state == old(self).chip_state,
            final(self).turn == old(self).turn,
            final(self).board == old(self).board,
            final(self).board_len == old(self).board_len,
    {
        self.seen = self.seen & !self.hero_hand.0.card_mask();
        self.seen = self.seen & !self.hero_hand.1.card_mask();
    }

    /// Betting rounds left including the current one, by board size.
    pub fn streets_remaining(&self) -> (n: u8)
        requires
            self.board_len == 0 || self.board_len == 3 || self.board_len == 4 || self.board_len == 5,
        ensures
            n == self.streets_left(),
            self.board_len == 0 ==> n == 4,
            self.board_len == 3 ==> n == 3,
            self.board_len == 4 ==> n == 2,
            self.board_len == 5 ==> n == 1,
    {
        match self.board_len {
            0 => 4,
            3 => 3,
            4 => 2,
            _ => 1,
        }
    }

    pub open spec fn streets_left(self) -> u8 {
        if self.board_len == 0 {
            4
        } else if self.board_len == 3 {
            3
        } else if self.board_len == 4 {
            2
        } else {
            1
        }
    }

    /// Betting rounds left for the board dealt so far: preflop, flop, turn
    /// and river with no board, three streets from the flop, two from the
    /// turn and one on the river; the root of the game tree starts with
    /// that many.
    pub proof fn law_streets_by_board(self)
        requires
            self.board_len == 0 || self.board_len == 3 || self.board_len == 4 || self.board_len == 5,
        ensures
            self.board_len == 0 ==> self.streets_left() == 4,
            self.board_len >= 3 ==> self.streets_left() == 6 - self.board_len,
            self.root().streets_remaining == self.streets_left(),
            self.root().actions_this_street == self.actions_taken(),
            self.root().position == self.turn,
            self.root().chip_state == self.chip_state,
            !self.root().terminal,
    {
    }

    /// Deals card `c` to the board.
    pub fn add_card(&mut self, c: Card)
        requires
            old(self).board.can_add(c),
            old(self).board_len < 255,
        ensures
            final(self).board == old(self).board.added(c),
            final(self).seen == old(self).seen | c.mask(),
            final(self).board_len == old(self).board_len + 1,
            final(self).hero_hand == old(self).hero_hand,
            final(self).chip_state == old(self).chip_state,
            final(self).turn == old(self).turn,
    {
        self.board.update_with(c);
        self.seen = self.seen | c.card_mask();
        self.board_len = self.board_len + 1;
    }

    /// Actions already taken in the current betting round.
    pub open spec fn actions_taken(self) -> u8 {
        let cs = self.chip_state;
        if self.board_len == 0 && self.turn == Position::SmallBlind && cs.sb_this_street == 1
            && cs.bb_this_street == 2 {
            0
        } else if cs.sb_this_street != cs.bb_this_street {
            1
        } else if self.board_len == 0 {
            if self.turn == Position::BigBlind { 1 } else { 0 }
        } else {
            if self.turn == Position::SmallBlind { 1 } else { 0 }
        }
    }

    /// Actions already taken in the current betting round: none before the
    /// small blind's first preflop decision, one when a bet is pending, and
    /// otherwise by who acts first on the street.
    pub fn actions_this_street(&self) -> (n: u8)
        ensures
            n == self.actions_taken(),
    {
        if self.board_len == 0 && self.turn == Position::SmallBlind
            && self.chip_state.sb_this_street == 1 && self.chip_state.bb_this_street == 2 {
            0
        } else if self.chip_state.sb_this_street != self.chip_state.bb_this_street {
            1
        } else {
            match (self.board_len, self.turn) {
                (0, Position::BigBlind) => 1,
                (0, Position::SmallBlind) => 0,
                (_, Position::SmallBlind) => 1,
                (_, Position::BigBlind) => 0,
            }
        }
    }

    /// The root of the game tree for this state.
    pub open spec fn root(self) -> Spot {
        Spot::mk(
            self.chip_state,
            self.turn,
            if self.chip_state.sb_this_street == self.chip_state.bb_this_street {
                NodeType::EvenNode
            } else {
                NodeType::BehindNode
            },
            false,
            None,
            self.streets_left(),
            self.actions_taken(),
        )
    }

    /// The root node of the game tree: even when both players have put in
    /// the same amount this street, else behind.
    pub fn root_spot(&self) -> (s: Spot)
        requires
            self.board_len == 0 || self.board_len == 3 || self.board_len == 4 || self.board_len == 5,
        ensures
            s == self.root(),
            s.streets_remaining == if self.board_len == 0 { 4 } else { 6 - self.board_len },
    {
        let node_type = if self.chip_state.sb_this_street == self.chip_state.bb_this_street {
            NodeType::EvenNode
        } else {
            NodeType::BehindNode
        };
        Spot {
            terminal: false,
            position: self.turn,
            node_type,
            chip_state: self.chip_state,
            outcome: None,
            streets_remaining: self.streets_remaining(),
            actions_this_street: self.actions_this_street(),
        }
    }

    /// Enough unseen cards remain to fill the board, and no rank count can overflow.
    pub open spec fn can_run_out(self) -> bool {
        &&& self.board_len < 5 ==> unseen(self.seen).len() >= 5 - self.board_len
        &&& forall|r: int| 0 <= r < 13 ==> self.board.rank_counts[r] <= 251
    }

    /// What every runout of this state satisfies: the board is completed to
    /// five cards with distinct cards unseen before, which are marked seen.
    pub open spec fn is_runout(self, res: GameState) -> bool {
        exists|d: Seq<Card>| self.runout_by(res, d)
    }

    /// `res` is this state with the board completed by the cards `d`.
    pub open spec fn runout_by(self, res: GameState, d: Seq<Card>) -> bool {
        &&& res.chip_state == self.chip_state
        &&& res.turn == self.turn
        &&& res.hero_hand == self.hero_hand
        &&& d.len() == if self.board_len < 5 { 5 - self.board_len } else { 0 }
        &&& fresh_cards(self.seen, d)
        &&& res.board == board_after(self.board, d)
        &&& res.seen == seen_after(self.seen, d)
        &&& res.board_len == self.board_len + d.len()
    }

    /// Completes the board with cards drawn from a clock-seeded generator;
    /// `None` when the clock reads earlier than the Unix epoch.
    pub fn gen_runout(&self) -> (r: Option<GameState>)
        requires
            self.can_run_out(),
        ensures
            r matches Some(res) ==> {
                &&& self.is_runout(res)
                &&& self.board.wf() ==> res.board.wf()
                &&& forall|k: int| 0 <= k < 13 ==> res.board.rank_counts[k] <= self.board.rank_counts[k] + 4
            },
    {
        match XorShiftU64::new() {
            Some(mut rng) => Some(self.gen_runout_with(&mut rng)),
            None => None,
        }
    }

    /// Completes the board with cards drawn from `rng` by `next_card`, in turn.
    pub fn gen_runout_with(&self, rng: &mut XorShiftU64) -> (res: GameState)
        requires
            self.can_run_out(),
        ensures
            exists|d: Seq<Card>|
                self.runout_by(res, d) && drawn_in_turn(old(rng).state, self.seen, d, final(rng).state),
            self.is_runout(res),
            self.board.wf() ==> res.board.wf(),
            forall|r: int| 0 <= r < 13 ==> res.board.rank_counts[r] <= self.board.rank_counts[r] + 4,
    {
        let mut res = *self;
        let ghost s_init = rng.state;
        let ghost mut d: Seq<Card> = Seq::empty();
        proof {
            lemma_unseen_finite(self.seen);
        }
        while res.board_len < 5
            invariant
                self.can_run_out(),
                res.chip_state == self.chip_state,
                res.turn == self.turn,
                res.hero_hand == self.hero_hand,
                res.board_len == self.board_len + d.len(),
                self.board_len < 5 ==> res.board_len <= 5,
                d.len() <= 5,
                self.board_len >= 5 ==> d.len() == 0,
                fresh_cards(self.seen, d),
                res.board == board_after(self.board, d),
                res.seen == seen_after(self.seen, d),
                forall|r: int|
                    0 <= r < 13 ==> #[trigger] res.board.rank_counts[r] == self.board.rank_counts[r]
                        + newly_seen_of_rank(self.seen, res.seen, r),
                self.board.wf() ==> res.board.wf(),
                unseen(res.seen).finite(),
                unseen(res.seen).len() + d.len() == unseen(self.seen).len(),
                forall|i: int| 0 <= i < 52 ==> (is_seen(res.seen, i) <==> (is_seen(self.seen, i) || exists|k: int| 0 <= k < d.len() && d[k].idx() == i)),
                drawn_in_turn(s_init, self.seen, d, rng.state),
            decreases 5 - res.board_len,
        {
            proof {
                assert(unseen(res.seen).len() > 0);
                let w = unseen(res.seen).choose();
                assert(unseen(res.seen).contains(w));
            }
            let ghost s_prev = res.seen;
            let ghost d_prev = d;
            let ghost state_prev = rng.state;
            let c = rng.next_card(&mut res.seen);
            proof {
                lemma_mark_seen(seen_after(self.seen, d), c.idx());
                let d2 = d.push(c);
                assert(d2.drop_last() =~= d);
                assert(d2.last() == c);
                assert(s_prev == seen_after(self.seen, d2.drop_last()));
                assert(card_drawn(state_prev, seen_after(self.seen, d2.drop_last()), d2.last(), rng.state));
                assert(drawn_in_turn(s_init, self.seen, d2.drop_last(), state_prev));
                assert(drawn_in_turn(s_init, self.seen, d2, rng.state));
                assert forall|i: int, j: int| 0 <= i < j < d2.len() implies d2[i] != d2[j] by {
                    if j == d.len() {
                        assert(is_seen(seen_after(self.seen, d), d2[i].idx()));
                    }
                }
                d = d2;
                assert forall|i: int| 0 <= i < 52 && is_seen(self.seen, i) implies is_seen(s_prev, i) by {}
                lemma_newly_seen_step(self.seen, s_prev, res.seen, c.rank.idx(), c.suit.idx());
            }
            let ghost counts_prev = res.board.rank_counts;
            res.board.update_with(c);
            res.board_len = res.board_len + 1;
            proof {
                assert forall|r: int| 0 <= r < 13 implies #[trigger] res.board.rank_counts[r]
                    == self.board.rank_counts[r] + newly_seen_of_rank(self.seen, res.seen, r) by {
                    assert(counts_prev[r] == self.board.rank_counts[r] + newly_seen_of_rank(self.seen, s_prev, r));
                }
                assert forall|i: int| 0 <= i < 52 implies (is_seen(res.seen, i) <==> (is_seen(self.seen, i) || exists|k: int| 0 <= k < d.len() && d[k].idx() == i)) by {
                    assert(is_seen(res.seen, i) == (is_seen(s_prev, i) || i == c.idx()));
                    if exists|k: int| 0 <= k < d_prev.len() && d_prev[k].idx() == i {
                        let k = choose|k: int| 0 <= k < d_prev.len() && d_prev[k].idx() == i;
                        assert(d[k].idx() == i);
                    }
                    if i == c.idx() {
                        assert(d[d.len() - 1].idx() == i);
                    }
                    if exists|k: int| 0 <= k < d.len() && d[k].idx() == i {
                        let k = choose|k: int| 0 <= k < d.len() && d[k].idx() == i;
                        if k < d_prev.len() {
                            assert(d_prev[k].idx() == i);
                        }
                    }
                }
            }
        }
        proof {
            assert(self.runout_by(res, d));
        }
        res
    }
}

} // verus!
