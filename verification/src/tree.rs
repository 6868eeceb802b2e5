//! The betting rules of the game tree: what each action leads to and which
//! actions are worth distinguishing.

use vstd::prelude::*;
use crate::game::{Bet, ChipState, Outcome, Position, fits_i32, law_bet_conserves_chips, law_refund_conserves_chips};

verus! {

#[derive(Clone, Copy, PartialEq, Eq, Debug, Structural)]
pub enum NodeType {
    /// Both players have put in the same amount this street: check or bet
    /// a quarter pot, half pot, full pot or all-in.
    EvenNode,
    /// The player to act faces a bet: fold, call, re-raise 2.5x or all-in.
    BehindNode,
    /// Only after the opponent folded (always terminal).
    AheadNode,
}

/// Everything about a node of the game tree that the betting rules read.
#[derive(Clone, Copy, PartialEq, Eq, Debug)]
pub struct Spot {
    pub terminal: bool,
    pub position: Position,
    pub node_type: NodeType,
    pub chip_state: ChipState,
    pub outcome: Option<Outcome>,
    pub streets_remaining: u8,
    pub actions_this_street: u8,
}

pub open spec fn min(a: int, b: int) -> int {
    if a <= b { a } else { b }
}

pub open spec fn max(a: int, b: int) -> int {
    if a >= b { a } else { b }
}

/// Integer division rounding toward zero, as machine division does.
pub open spec fn div_trunc(a: int, b: int) -> int {
    if a >= 0 {
        a / b
    } else {
        -((-a) / b)
    }
}

pub open spec fn bet_for(p: Position, amount: int) -> Bet {
    match p {
        Position::SmallBlind => Bet::SBBet(amount as i32),
        Position::BigBlind => Bet::BBBet(amount as i32),
    }
}

impl Spot {
    pub open spec fn mk(
        chip_state: ChipState,
        position: Position,
        node_type: NodeType,
        terminal: bool,
        outcome: Option<Outcome>,
        streets_remaining: u8,
        actions_this_street: u8,
    ) -> Spot {
        Spot {
            terminal,
            position,
            node_type,
            chip_state,
            outcome,
            streets_remaining,
            actions_this_street,
        }
    }

    /// Stack of the player to act.
    pub open spec fn our_stack(self) -> int {
        match self.position {
            Position::SmallBlind => self.chip_state.sb_stack as int,
            Position::BigBlind => self.chip_state.bb_stack as int,
        }
    }

    /// Stack of the other player.
    pub open spec fn their_stack(self) -> int {
        match self.position {
            Position::SmallBlind => self.chip_state.bb_stack as int,
            Position::BigBlind => self.chip_state.sb_stack as int,
        }
    }

    /// Chips the player to act put in this street.
    pub open spec fn our_street(self) -> int {
        match self.position {
            Position::SmallBlind => self.chip_state.sb_this_street as int,
            Position::BigBlind => self.chip_state.bb_this_street as int,
        }
    }

    /// Chips the other player put in this street.
    pub open spec fn their_street(self) -> int {
        match self.position {
            Position::SmallBlind => self.chip_state.bb_this_street as int,
            Position::BigBlind => self.chip_state.sb_this_street as int,
        }
    }

    /// The betting round closes with `cs`: on to showdown (uncalled chips
    /// back) when someone is all-in or this was the river, else the next
    /// street starts with the big blind to act.
    pub open spec fn closed_round(self, cs: ChipState) -> Spot {
        if cs.sb_stack == 0 || cs.bb_stack == 0 || self.streets_remaining == 1 {
            Spot::mk(
                cs.after_refund(),
                self.position.other(),
                NodeType::EvenNode,
                true,
                Some(Outcome::Showdown),
                self.streets_remaining,
                self.actions_this_street,
            )
        } else {
            Spot::mk(
                ChipState { sb_this_street: 0, bb_this_street: 0, max_bet: 0, ..cs },
                Position::BigBlind,
                NodeType::EvenNode,
                false,
                None,
                (self.streets_remaining - 1) as u8,
                0,
            )
        }
    }

    /// A call with `cs`: preflop, the small blind completing lets the big
    /// blind act; otherwise the round closes.
    pub open spec fn called(self, cs: ChipState) -> Spot {
        if self.streets_remaining == 4 && self.position == Position::SmallBlind
            && self.actions_this_street == 0 {
            Spot::mk(
                cs,
                Position::BigBlind,
                NodeType::EvenNode,
                false,
                None,
                self.streets_remaining,
                1,
            )
        } else {
            self.closed_round(cs)
        }
    }

    /// A bet of `amount` that leaves the opponent behind.
    pub open spec fn raised(self, amount: int) -> Spot {
        Spot::mk(
            self.chip_state.after_bet(bet_for(self.position, amount)),
            self.position.other(),
            NodeType::BehindNode,
            false,
            None,
            self.streets_remaining,
            (self.actions_this_street + 1) as u8,
        )
    }

    /// Chips put in by even-node action `a` (1: quarter pot, 2: half pot,
    /// 3: pot, 4: all-in): at least the street's largest bet, at most the stack.
    pub open spec fn even_amount(self, a: int) -> int {
        let cs = self.chip_state;
        let base = if a == 1 {
            div_trunc(cs.pot as int, 4)
        } else if a == 2 {
            div_trunc(cs.pot as int, 2)
        } else if a == 3 {
            cs.pot as int
        } else {
            self.our_stack()
        };
        min(max(base, cs.max_bet as int), self.our_stack())
    }

    /// Chips the player to act is behind by.
    pub open spec fn amount_behind(self) -> int {
        self.their_street() - self.our_street()
    }

    /// Chips put in by the 2.5x re-raise.
    pub open spec fn reraise_amount(self) -> int {
        min(div_trunc(self.their_street() * 5, 2) - self.our_street(), self.our_stack())
    }

    /// The node that action `a` leads to.
    pub open spec fn successor_spec(self, a: int) -> Spot {
        let cs = self.chip_state;
        if self.node_type == NodeType::EvenNode {
            if a == 0 {
                if self.actions_this_street > 0 {
                    self.closed_round(cs)
                } else {
                    Spot::mk(
                        cs,
                        self.position.other(),
                        NodeType::EvenNode,
                        false,
                        None,
                        self.streets_remaining,
                        1,
                    )
                }
            } else {
                self.raised(self.even_amount(a))
            }
        } else if a == 0 {
            Spot::mk(
                cs,
                self.position.other(),
                NodeType::AheadNode,
                true,
                Some(
                    match self.position {
                        Position::SmallBlind => Outcome::SBFolded,
                        Position::BigBlind => Outcome::BBFolded,
                    },
                ),
                self.streets_remaining,
                self.actions_this_street,
            )
        } else if a == 1 {
            self.called(
                cs.after_bet(bet_for(self.position, min(self.amount_behind(), self.our_stack()))),
            )
        } else {
            let amount = if a == 2 {
                self.reraise_amount()
            } else {
                self.our_stack()
            };
            if amount <= self.amount_behind() {
                self.called(cs.after_bet(bet_for(self.position, amount)))
            } else {
                self.raised(amount)
            }
        }
    }

    /// Number of actions at a node of this type.
    pub open spec fn num_actions(self) -> int {
        if self.node_type == NodeType::EvenNode {
            5
        } else {
            4
        }
    }

    /// Closing the round with `cs` stays within the machine integers: the
    /// uncalled bet can be refunded, or a street is left to go to.
    pub open spec fn close_ok(self, cs: ChipState) -> bool {
        if cs.sb_stack == 0 || cs.bb_stack == 0 || self.streets_remaining == 1 {
            cs.can_refund()
        } else {
            self.streets_remaining >= 1
        }
    }

    /// A call with `cs` stays within the machine integers.
    pub open spec fn call_ok(self, cs: ChipState) -> bool {
        (self.streets_remaining == 4 && self.position == Position::SmallBlind
            && self.actions_this_street == 0) || self.close_ok(cs)
    }

    /// Action `a` is computed without any integer overflow: the bet fits,
    /// the difference of the street bets fits, the re-raise target fits, the
    /// round can be closed and the street's action count can grow.
    pub open spec fn action_defined(self, a: int) -> bool {
        let cs = self.chip_state;
        if self.node_type == NodeType::EvenNode {
            if a == 0 {
                self.actions_this_street > 0 ==> self.close_ok(cs)
            } else {
                &&& cs.can_take(bet_for(self.position, self.even_amount(a)))
                &&& self.actions_this_street < 255
            }
        } else {
            &&& fits_i32(self.amount_behind())
            &&& a == 1 ==> {
                let m = min(self.amount_behind(), self.our_stack());
                cs.can_take(bet_for(self.position, m)) && self.call_ok(
                    cs.after_bet(bet_for(self.position, m)),
                )
            }
            &&& a == 2 ==> fits_i32(self.their_street() * 5) && fits_i32(
                div_trunc(self.their_street() * 5, 2) - self.our_street(),
            )
            &&& a >= 2 ==> {
                let m = if a == 2 {
                    self.reraise_amount()
                } else {
                    self.our_stack()
                };
                &&& cs.can_take(bet_for(self.position, m))
                &&& if m <= self.amount_behind() {
                    self.call_ok(cs.after_bet(bet_for(self.position, m)))
                } else {
                    self.actions_this_street < 255
                }
            }
        }
    }

    fn bet_of(position: Position, amount: i32) -> (b: Bet)
        ensures
            b == bet_for(position, amount as int),
    {
        match position {
            Position::SmallBlind => Bet::SBBet(amount),
            Position::BigBlind => Bet::BBBet(amount),
        }
    }

    fn close_betting_round(&self, cs: ChipState) -> (s: Spot)
        requires
            self.close_ok(cs),
        ensures
            s == self.closed_round(cs),
    {
        let mut chip_state = cs;
        if chip_state.sb_stack == 0 || chip_state.bb_stack == 0 || self.streets_remaining == 1 {
            chip_state.refund_uncalled();
            Spot {
                terminal: true,
                position: self.position.next(),
                node_type: NodeType::EvenNode,
                chip_state,
                outcome: Some(Outcome::Showdown),
                streets_remaining: self.streets_remaining,
                actions_this_street: self.actions_this_street,
            }
        } else {
            chip_state.sb_this_street = 0;
            chip_state.bb_this_street = 0;
            chip_state.max_bet = 0;
            Spot {
                terminal: false,
                position: Position::BigBlind,
                node_type: NodeType::EvenNode,
                chip_state,
                outcome: None,
                streets_remaining: self.streets_remaining - 1,
                actions_this_street: 0,
            }
        }
    }

    fn call_successor(&self, cs: ChipState) -> (s: Spot)
        requires
            self.call_ok(cs),
        ensures
            s == self.called(cs),
    {
        if self.streets_remaining == 4 && self.position == Position::SmallBlind
            && self.actions_this_street == 0 {
            Spot {
                terminal: false,
                position: Position::BigBlind,
                node_type: NodeType::EvenNode,
                chip_state: cs,
                outcome: None,
                streets_remaining: self.streets_remaining,
                actions_this_street: 1,
            }
        } else {
            self.close_betting_round(cs)
        }
    }

    /// The node that action `action_idx` leads to; `None` at a terminal node.
    pub fn successor(&self, action_idx: usize) -> (r: Option<Spot>)
        requires
            !self.terminal ==> action_idx < self.num_actions() && self.action_defined(
                action_idx as int,
            ),
        ensures
            self.terminal ==> r.is_none(),
            !self.terminal ==> r == Some(self.successor_spec(action_idx as int)),
    {
        if self.terminal {
            return None;
        }
        if self.node_type == NodeType::EvenNode {
            Some(self.even_successor(action_idx))
        } else {
            Some(self.behind_successor(action_idx))
        }
    }

    fn even_successor(&self, action_idx: usize) -> (r: Spot)
        requires
            self.node_type == NodeType::EvenNode,
            action_idx < 5,
            self.action_defined(action_idx as int),
        ensures
            r == self.successor_spec(action_idx as int),
    {
        let cs = self.chip_state;
        let our_stack = match self.position {
            Position::SmallBlind => cs.sb_stack,
            Position::BigBlind => cs.bb_stack,
        };
        if action_idx == 0 {
            if self.actions_this_street > 0 {
                return self.close_betting_round(cs);
            } else {
                return Spot {
                    terminal: false,
                    position: self.position.next(),
                    node_type: NodeType::EvenNode,
                    chip_state: cs,
                    outcome: None,
                    streets_remaining: self.streets_remaining,
                    actions_this_street: 1,
                };
            }
        }
        let mut amount = if action_idx == 1 {
            cs.pot / 4
        } else if action_idx == 2 {
            cs.pot / 2
        } else if action_idx == 3 {
            cs.pot
        } else {
            our_stack
        };
        if cs.max_bet > amount {
            amount = cs.max_bet;
        }
        if our_stack < amount {
            amount = our_stack;
        }
        assert(amount == self.even_amount(action_idx as int));
        let mut ns = cs;
        ns.update_with(Self::bet_of(self.position, amount));
        Spot {
            terminal: false,
            position: self.position.next(),
            node_type: NodeType::BehindNode,
            chip_state: ns,
            outcome: None,
            streets_remaining: self.streets_remaining,
            actions_this_street: self.actions_this_street + 1,
        }
    }

    #[verifier::rlimit(40)]
    fn behind_successor(&self, action_idx: usize) -> (r: Spot)
        requires
            self.node_type != NodeType::EvenNode,
            action_idx < 4,
            self.action_defined(action_idx as int),
        ensures
            r == self.successor_spec(action_idx as int),
    {
        let cs = self.chip_state;
        let our_stack = match self.position {
            Position::SmallBlind => cs.sb_stack,
            Position::BigBlind => cs.bb_stack,
        };
        let (our_total, opponent_total) = match self.position {
            Position::SmallBlind => (cs.sb_this_street, cs.bb_this_street),
            Position::BigBlind => (cs.bb_this_street, cs.sb_this_street),
        };
        let amount_behind = opponent_total - our_total;
        if action_idx == 0 {
            let outcome = match self.position {
                Position::SmallBlind => Outcome::SBFolded,
                Position::BigBlind => Outcome::BBFolded,
            };
            return Spot {
                terminal: true,
                position: self.position.next(),
                node_type: NodeType::AheadNode,
                chip_state: cs,
                outcome: Some(outcome),
                streets_remaining: self.streets_remaining,
                actions_this_street: self.actions_this_street,
            };
        }
        if action_idx == 1 {
            let amount = if amount_behind <= our_stack {
                amount_behind
            } else {
                our_stack
            };
            let mut ns = cs;
            ns.update_with(Self::bet_of(self.position, amount));
            return self.call_successor(ns);
        }
        let amount = if action_idx == 2 {
            let target_total = (opponent_total * 5) / 2;
            let wanted = target_total - our_total;
            if wanted <= our_stack {
                wanted
            } else {
                our_stack
            }
        } else {
            our_stack
        };
        let mut ns = cs;
        ns.update_with(Self::bet_of(self.position, amount));
        if amount <= amount_behind {
            self.call_successor(ns)
        } else {
            Spot {
                terminal: false,
                position: self.position.next(),
                node_type: NodeType::BehindNode,
                chip_state: ns,
                outcome: None,
                streets_remaining: self.streets_remaining,
                actions_this_street: self.actions_this_street + 1,
            }
        }
    }
}

/// Two actions lead to the same place (calling an all-in, or "raising"
/// when the bet already puts the player all-in).
pub open spec fn same_successor_spec(a: Spot, b: Spot) -> bool {
    &&& a.terminal == b.terminal
    &&& a.outcome == b.outcome
    &&& a.chip_state == b.chip_state
    &&& (a.terminal || (a.position == b.position && a.node_type == b.node_type
        && a.streets_remaining == b.streets_remaining && a.actions_this_street
        == b.actions_this_street))
}

fn same_outcome(a: Option<Outcome>, b: Option<Outcome>) -> (r: bool)
    ensures
        r == (a == b),
{
    match (a, b) {
        (None, None) => true,
        (Some(x), Some(y)) => x == y,
        _ => false,
    }
}

/// Compares two successors; see `same_successor_spec`.
pub fn same_successor(a: &Spot, b: &Spot) -> (r: bool)
    ensures
        r == same_successor_spec(*a, *b),
{
    a.terminal == b.terminal && same_outcome(a.outcome, b.outcome) && a.chip_state.pot
        == b.chip_state.pot && a.chip_state.sb_stack == b.chip_state.sb_stack
        && a.chip_state.bb_stack == b.chip_state.bb_stack && a.chip_state.sb_this_street
        == b.chip_state.sb_this_street && a.chip_state.bb_this_street
        == b.chip_state.bb_this_street && a.chip_state.max_bet == b.chip_state.max_bet && (
    a.terminal || (a.position == b.position && a.node_type == b.node_type && a.streets_remaining
        == b.streets_remaining && a.actions_this_street == b.actions_this_street))
}

impl Spot {
    /// `legal` marks which of the `children` are worth exploring: the first
    /// action always is; a later one is not when it leads where an earlier
    /// legal one does, nor, facing a bet, is raising an opponent who is all-in.
    pub open spec fn legal_spec(self, children: Seq<Spot>, legal: Seq<bool>) -> bool {
        let behind = children.len() == 4;
        &&& legal.len() == children.len()
        &&& children.len() > 0 ==> legal[0]
        &&& forall|i: int|
            1 <= i < children.len() ==> (#[trigger] legal[i] <==> ((forall|j: int|
                0 <= j < i ==> !(legal[j] && same_successor_spec(children[i], children[j])))
                && !(behind && self.their_stack() == 0 && i >= 2)))
    }

    /// Which of the successors of this node are explored.
    pub fn legal_actions<const N: usize>(&self, children: &[Spot; N]) -> (legal: [bool; N])
        ensures
            self.legal_spec(children@, legal@),
    {
        let mut legal = [true; N];
        let them = if self.position == Position::SmallBlind {
            self.chip_state.bb_stack
        } else {
            self.chip_state.sb_stack
        };
        let behind = N == 4;
        let mut i: usize = 1;
        while i < N
            invariant
                1 <= i <= N || N == 0,
                N == children@.len(),
                them == self.their_stack(),
                behind == (N == 4),
                N > 0 ==> legal[0],
                forall|k: int| i <= k < N ==> legal[k],
                forall|k: int|
                    1 <= k < i && k < N ==> (#[trigger] legal[k] <==> ((forall|j: int|
                        0 <= j < k ==> !(legal[j] && same_successor_spec(children@[k], children@[j])))
                        && !(behind && them == 0 && k >= 2))),
            decreases N - i,
        {
            let ghost prev = legal@;
            let mut j: usize = 0;
            while j < i
                invariant_except_break
                    legal@ == prev,
                    forall|t: int| 0 <= t < j ==> !(prev[t] && same_successor_spec(children@[i as int], children@[t])),
                invariant
                    j <= i < N,
                    N == children@.len(),
                    prev.len() == N,
                    prev[i as int],
                ensures
                    legal@ == prev.update(i as int, legal[i as int]),
                    legal[i as int] <==> forall|t: int|
                        0 <= t < i ==> !(prev[t] && same_successor_spec(children@[i as int], children@[t])),
                decreases i - j,
            {
                if legal[j] && same_successor(&children[i], &children[j]) {
                    legal[i] = false;
                    break;
                }
                j = j + 1;
            }
            proof {
                assert(legal@ =~= prev.update(i as int, legal[i as int]));
            }
            // can't raise when opponent is all in
            if behind && them == 0 && i >= 2 {
                legal[i] = false;
            }
            proof {
                assert(forall|t: int| 0 <= t < N && t != i ==> legal[t] == prev[t]);
                assert forall|k: int| 1 <= k < i + 1 && k < N implies (#[trigger] legal[k] <==> ((forall|j: int|
                        0 <= j < k ==> !(legal[j] && same_successor_spec(children@[k], children@[j])))
                        && !(behind && them == 0 && k >= 2))) by {
                    if k < i {
                        assert(legal[k] == prev[k]);
                        assert(forall|j: int| 0 <= j < k ==> legal[j] == prev[j]);
                    } else {
                        assert(forall|j: int| 0 <= j < k ==> legal[j] == prev[j]);
                    }
                }
            }
            i = i + 1;
        }
        legal
    }
}

proof fn lemma_close_conserves(s: Spot, cs: ChipState)
    requires
        s.close_ok(cs),
    ensures
        s.closed_round(cs).chip_state.total() == cs.total(),
        s.closed_round(cs).streets_remaining <= s.streets_remaining,
        s.closed_round(cs).terminal ==> s.closed_round(cs).chip_state.sb_this_street
            == s.closed_round(cs).chip_state.bb_this_street,
{
    if cs.sb_stack == 0 || cs.bb_stack == 0 || s.streets_remaining == 1 {
        law_refund_conserves_chips(cs);
    }
}

proof fn lemma_call_conserves(s: Spot, cs: ChipState)
    requires
        s.call_ok(cs),
    ensures
        s.called(cs).chip_state.total() == cs.total(),
        s.called(cs).streets_remaining <= s.streets_remaining,
        s.called(cs).terminal ==> s.called(cs).chip_state.sb_this_street
            == s.called(cs).chip_state.bb_this_street,
{
    if !(s.streets_remaining == 4 && s.position == Position::SmallBlind && s.actions_this_street == 0) {
        lemma_close_conserves(s, cs);
    }
}

/// Every action moves chips only between the stacks and the pot: the chips
/// on the table stay the same along every path of the tree. Streets are
/// never added, and a hand that reaches showdown has no uncalled bet left.
pub proof fn law_successor_conserves_chips(s: Spot, a: int)
    requires
        !s.terminal,
        0 <= a < s.num_actions(),
        s.action_defined(a),
    ensures
        s.successor_spec(a).chip_state.total() == s.chip_state.total(),
        s.successor_spec(a).streets_remaining <= s.streets_remaining,
        s.successor_spec(a).outcome == Some(Outcome::Showdown) ==> s.successor_spec(a).chip_state.sb_this_street
            == s.successor_spec(a).chip_state.bb_this_street,
{
    let cs = s.chip_state;
    if s.node_type == NodeType::EvenNode {
        if a == 0 {
            if s.actions_this_street > 0 {
                lemma_close_conserves(s, cs);
            }
        } else {
            law_bet_conserves_chips(cs, bet_for(s.position, s.even_amount(a)));
        }
    } else if a >= 1 {
        let amt = if a == 1 {
            min(s.amount_behind(), s.our_stack())
        } else if a == 2 {
            s.reraise_amount()
        } else {
            s.our_stack()
        };
        law_bet_conserves_chips(cs, bet_for(s.position, amt));
        if a == 1 || amt <= s.amount_behind() {
            lemma_call_conserves(s, cs.after_bet(bet_for(s.position, amt)));
        }
    }
}

/// At an even node, actions 1 to 4 bet a quarter of the pot, half the
/// pot, the pot and the whole stack, never less than the largest bet of
/// the street and never more than the stack: the bettor's stack drops by
/// that amount, its street bet and the pot grow by it, the other player's
/// chips stay, and the other player is then behind and to act.
pub proof fn law_even_bet_sizes(s: Spot, a: int)
    requires
        !s.terminal,
        s.node_type == NodeType::EvenNode,
        1 <= a <= 4,
        s.action_defined(a),
    ensures
        ({
            let cs = s.chip_state;
            let n = s.successor_spec(a);
            let stack = if s.position == Position::SmallBlind { cs.sb_stack as int } else { cs.bb_stack as int };
            let base = if a == 1 {
                div_trunc(cs.pot as int, 4)
            } else if a == 2 {
                div_trunc(cs.pot as int, 2)
            } else if a == 3 {
                cs.pot as int
            } else {
                stack
            };
            let at_least = if base >= cs.max_bet { base } else { cs.max_bet as int };
            let amount = if at_least <= stack { at_least } else { stack };
            &&& n.chip_state.pot == cs.pot + amount
            &&& s.position == Position::SmallBlind ==> n.chip_state.sb_stack == cs.sb_stack - amount
                && n.chip_state.sb_this_street == cs.sb_this_street + amount && n.chip_state.bb_stack
                == cs.bb_stack && n.chip_state.bb_this_street == cs.bb_this_street
            &&& s.position == Position::BigBlind ==> n.chip_state.bb_stack == cs.bb_stack - amount
                && n.chip_state.bb_this_street == cs.bb_this_street + amount && n.chip_state.sb_stack
                == cs.sb_stack && n.chip_state.sb_this_street == cs.sb_this_street
            &&& n.node_type == NodeType::BehindNode
            &&& n.position != s.position
            &&& !n.terminal
        }),
{
}

/// Facing a bet, raising an opponent who has no chips left is never
/// explored: when the other player's stack is zero, every action from the
/// re-raise on is pruned.
pub proof fn law_no_raise_against_all_in(s: Spot, children: Seq<Spot>, legal: Seq<bool>, i: int)
    requires
        s.legal_spec(children, legal),
        children.len() == 4,
        2 <= i < 4,
        s.position == Position::SmallBlind ==> s.chip_state.bb_stack == 0,
        s.position == Position::BigBlind ==> s.chip_state.sb_stack == 0,
    ensures
        !legal[i],
{
}

/// No action takes a stack below zero: every bet is capped by the stack of
/// the player who makes it, and a refund only gives chips back.
pub proof fn law_successor_keeps_stacks(s: Spot, a: int)
    requires
        !s.terminal,
        0 <= a < s.num_actions(),
        s.action_defined(a),
        s.chip_state.sb_stack >= 0,
        s.chip_state.bb_stack >= 0,
    ensures
        s.successor_spec(a).chip_state.sb_stack >= 0,
        s.successor_spec(a).chip_state.bb_stack >= 0,
{
}

/// A successor is terminal exactly when it carries an outcome, and a node
/// whose player is ahead only arises from a fold, which ends the hand.
pub proof fn law_successor_shape(s: Spot, a: int)
    requires
        !s.terminal,
        s.streets_remaining >= 1,
        0 <= a < s.num_actions(),
        s.action_defined(a),
    ensures
        s.successor_spec(a).terminal == s.successor_spec(a).outcome.is_some(),
        s.successor_spec(a).node_type == NodeType::AheadNode ==> s.successor_spec(a).terminal
            && s.successor_spec(a).outcome != Some(Outcome::Showdown),
        !s.successor_spec(a).terminal ==> s.successor_spec(a).node_type != NodeType::AheadNode
            && s.successor_spec(a).streets_remaining >= 1,
{
}

} // verus!
