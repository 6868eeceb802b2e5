//! The betting tree grown from a spot: every action is applied, the
//! distinct ones are expanded in turn, and the tree is finite.

use vstd::prelude::*;
use crate::game::{Bet, ChipState, Outcome, Position, fits_i32};
use crate::tree::{NodeType, Spot, bet_for, same_successor_spec};

verus! {

impl Spot {
    /// Action `i` is explored: it does not lead where an earlier explored
    /// action leads, and, facing a bet, it does not raise an all-in
    /// opponent. The first action always is.
    pub open spec fn explored(self, i: int) -> bool
        decreases i,
    {
        if i <= 0 {
            true
        } else {
            &&& forall|j: int|
                #![trigger self.successor_spec(j)]
                0 <= j < i ==> !(self.explored(j) && same_successor_spec(
                    self.successor_spec(i),
                    self.successor_spec(j),
                ))
            &&& !(self.node_type != NodeType::EvenNode && self.their_stack() == 0 && i >= 2)
        }
    }

    /// Every action is computed without overflow.
    pub open spec fn actions_defined(self) -> bool {
        forall|a: int| 0 <= a < self.num_actions() ==> #[trigger] self.action_defined(a)
    }

    /// The tree can be grown from here without any integer overflow: at
    /// this node and at every explored node below it, every action is
    /// computed without overflow.
    pub open spec fn growable(self) -> bool
        decreases self.streets_remaining, 256 - self.actions_this_street, 1int,
    {
        if self.terminal {
            true
        } else {
            &&& self.actions_defined()
            &&& self.branch_growable(0)
            &&& self.branch_growable(1)
            &&& self.branch_growable(2)
            &&& self.branch_growable(3)
            &&& self.branch_growable(4)
        }
    }

    /// Action `a` is absent, unexplored or ends the hand, or leads on (as
    /// every defined action does) to a growable node.
    pub open spec fn branch_growable(self, a: int) -> bool
        decreases self.streets_remaining, 256 - self.actions_this_street, 0int,
    {
        a >= self.num_actions() || !self.explored(a) || self.successor_spec(a).terminal || (
        self.successor_spec(a).progress_from(self) && self.successor_spec(a).growable())
    }

    /// `self` comes after `prev` in the betting: a later street, or the
    /// same street with one more action taken.
    pub open spec fn progress_from(self, prev: Spot) -> bool {
        ||| self.streets_remaining < prev.streets_remaining
        ||| self.streets_remaining == prev.streets_remaining && self.actions_this_street
            == prev.actions_this_street + 1
    }
}

/// Every action that is computed without overflow ends the hand, goes on
/// to a later street, or takes one more action in the same street: the
/// betting tree is finite, at most 256 actions deep per street.
pub proof fn law_successor_progress(s: Spot, a: int)
    requires
        !s.terminal,
        0 <= a < s.num_actions(),
        s.action_defined(a),
        !s.successor_spec(a).terminal,
    ensures
        s.successor_spec(a).progress_from(s),
{
}

/// The marks that `legal_spec` asks of the successors are those of
/// `explored`.
proof fn lemma_legal_is_explored(s: Spot, spots: Seq<Spot>, legal: Seq<bool>)
    requires
        spots.len() == s.num_actions(),
        forall|j: int| 0 <= j < spots.len() ==> #[trigger] spots[j] == s.successor_spec(j),
        s.legal_spec(spots, legal),
    ensures
        forall|i: int| 0 <= i < spots.len() ==> #[trigger] legal[i] == s.explored(i),
{
    assert forall|i: int| 0 <= i < spots.len() implies #[trigger] legal[i] == s.explored(i) by {
        lemma_legal_at(s, spots, legal, i);
    }
}

proof fn lemma_legal_at(s: Spot, spots: Seq<Spot>, legal: Seq<bool>, i: int)
    requires
        spots.len() == s.num_actions(),
        forall|j: int| 0 <= j < spots.len() ==> #[trigger] spots[j] == s.successor_spec(j),
        s.legal_spec(spots, legal),
        0 <= i < spots.len(),
    ensures
        legal[i] == s.explored(i),
    decreases i,
{
    if i >= 1 {
        assert forall|j: int| 0 <= j < i implies #[trigger] legal[j] == s.explored(j) by {
            lemma_legal_at(s, spots, legal, j);
        }
        assert(spots[i] == s.successor_spec(i));
        let by_marks = forall|j: int|
            0 <= j < i ==> !(legal[j] && same_successor_spec(spots[i], spots[j]));
        let by_explored = forall|j: int|
            #![trigger s.successor_spec(j)]
            0 <= j < i ==> !(s.explored(j) && same_successor_spec(s.successor_spec(i), s.successor_spec(j)));
        if by_marks {
            assert forall|j: int| #![trigger s.successor_spec(j)] 0 <= j < i implies !(s.explored(j)
                && same_successor_spec(s.successor_spec(i), s.successor_spec(j))) by {
                assert(legal[j] == s.explored(j));
                assert(spots[j] == s.successor_spec(j));
            }
        }
        if by_explored {
            assert forall|j: int| 0 <= j < i implies !(legal[j] && same_successor_spec(spots[i], spots[j])) by {
                assert(legal[j] == s.explored(j));
                assert(spots[j] == s.successor_spec(j));
            }
        }
        assert(by_marks == by_explored);
        assert(legal[i] == (by_marks && !(s.node_type != NodeType::EvenNode && s.their_stack() == 0 && i
            >= 2)));
    }
}

/// What growability of a node is made of.
proof fn lemma_growable_iff(s: Spot)
    requires
        !s.terminal,
    ensures
        s.growable() == (s.actions_defined() && forall|a: int| 0 <= a < 5 ==> #[trigger] s.branch_growable(a)),
{
    if s.actions_defined() && s.branch_growable(0) && s.branch_growable(1) && s.branch_growable(2)
        && s.branch_growable(3) && s.branch_growable(4) {
        assert forall|a: int| 0 <= a < 5 implies #[trigger] s.branch_growable(a) by {
            if a == 0 {} else if a == 1 {} else if a == 2 {} else if a == 3 {} else {}
        }
    }
    if s.actions_defined() && (forall|a: int| 0 <= a < 5 ==> #[trigger] s.branch_growable(a)) {
        assert(s.branch_growable(0) && s.branch_growable(1) && s.branch_growable(2)
            && s.branch_growable(3) && s.branch_growable(4));
    }
}

/// What growability of one branch is.
proof fn lemma_branch_iff(s: Spot, a: int)
    ensures
        s.branch_growable(a) == (a >= s.num_actions() || !s.explored(a) || s.successor_spec(a).terminal || (
        s.successor_spec(a).progress_from(s) && s.successor_spec(a).growable())),
{
}

/// A node whose actions are all defined, and whose explored successors are
/// growable, is growable.
proof fn lemma_growable_from_children(spot: Spot, spots: Seq<Spot>, legal: Seq<bool>)
    requires
        !spot.terminal,
        spot.actions_defined(),
        spots.len() == spot.num_actions(),
        forall|j: int| 0 <= j < spots.len() ==> #[trigger] spots[j] == spot.successor_spec(j),
        forall|j: int| 0 <= j < spots.len() ==> #[trigger] legal[j] == spot.explored(j),
        forall|j: int| 0 <= j < spots.len() && legal[j] && !(#[trigger] spots[j]).terminal ==> spots[j].growable(),
    ensures
        spot.growable(),
{
    assert forall|a: int| 0 <= a < 5 implies #[trigger] spot.branch_growable(a) by {
        lemma_branch_iff(spot, a);
        if a < spot.num_actions() && spot.explored(a) && !spot.successor_spec(a).terminal {
            assert(spots[a] == spot.successor_spec(a));
            assert(legal[a] == spot.explored(a));
            law_successor_progress(spot, a);
        }
    }
    lemma_growable_iff(spot);
}

/// An explored successor of a growable node is growable in turn.
proof fn lemma_growable_child(s: Spot, a: int)
    requires
        s.growable(),
        !s.terminal,
        0 <= a < s.num_actions(),
        s.explored(a),
        !s.successor_spec(a).terminal,
    ensures
        s.action_defined(a),
        s.successor_spec(a).progress_from(s),
        s.successor_spec(a).growable(),
{
    lemma_growable_iff(s);
    assert(s.branch_growable(a));
    lemma_branch_iff(s, a);
}

/// A node of the betting tree: its spot and, once expanded, the node that
/// each action leads to, with the mark of the actions that are explored.
pub struct BettingTree {
    pub spot: Spot,
    pub legal: Vec<bool>,
    pub children: Vec<BettingTree>,
}

/// The spots of a sequence of nodes.
pub open spec fn spots_of(kids: Seq<BettingTree>) -> Seq<Spot> {
    kids.map_values(|c: BettingTree| c.spot)
}

/// Nodes counted below a node: those of the children marked explored.
pub open spec fn explored_count(kids: Seq<BettingTree>, legal: Seq<bool>) -> nat
    decreases kids,
{
    if kids.len() == 0 {
        0
    } else {
        let k = kids.len() - 1;
        explored_count(kids.drop_last(), legal) + if k < legal.len() && legal[k] {
            kids.last().count()
        } else {
            0
        }
    }
}

impl BettingTree {
    /// Not expanded: no actions recorded.
    pub open spec fn is_leaf(self) -> bool {
        self.legal@.len() == 0 && self.children@.len() == 0
    }

    /// The tree is fully grown from its spot: a terminal node is a leaf; any
    /// other node has the successor of each of its actions, marked as
    /// `legal_spec` says, and the marked ones are grown in turn while the
    /// others stay leaves.
    pub open spec fn grown(self) -> bool
        decreases self,
    {
        if self.spot.terminal {
            self.is_leaf()
        } else {
            &&& self.children@.len() == self.spot.num_actions()
            &&& forall|i: int|
                0 <= i < self.children@.len() ==> #[trigger] self.children@[i].spot
                    == self.spot.successor_spec(i)
            &&& self.spot.legal_spec(spots_of(self.children@), self.legal@)
            &&& forall|i: int|
                #![trigger self.children@[i]]
                0 <= i < self.children@.len() ==> if self.legal@[i] {
                    self.children@[i].grown()
                } else {
                    self.children@[i].is_leaf()
                }
        }
    }

    /// The number of nodes: this one and those below its explored actions.
    pub open spec fn count(self) -> nat
        decreases self,
    {
        1 + explored_count(self.children@, self.legal@)
    }

    /// A node with nothing expanded yet.
    pub fn new(spot: Spot) -> (t: Self)
        ensures
            t.spot == spot,
            t.is_leaf(),
    {
        BettingTree { spot, legal: Vec::new(), children: Vec::new() }
    }
}

/// The node that each action of `spot` leads to.
fn successor_spots(spot: &Spot) -> (v: Vec<Spot>)
    requires
        !spot.terminal,
        spot.actions_defined(),
    ensures
        v@.len() == spot.num_actions(),
        forall|j: int| 0 <= j < v@.len() ==> #[trigger] v@[j] == spot.successor_spec(j),
{
    let n: usize = if spot.node_type == NodeType::EvenNode { 5 } else { 4 };
    let mut spots: Vec<Spot> = Vec::new();
    let mut i: usize = 0;
    while i < n
        invariant
            !spot.terminal,
            spot.actions_defined(),
            n == spot.num_actions(),
            i <= n,
            spots@.len() == i,
            forall|j: int| 0 <= j < i ==> #[trigger] spots@[j] == spot.successor_spec(j),
        decreases n - i,
    {
        assert(spot.action_defined(i as int));
        let c = spot.successor(i);
        match c {
            Some(c) => spots.push(c),
            None => {},
        }
        i = i + 1;
    }
    spots
}

/// Which of the successors `spots` of `spot` are explored.
fn explored_flags(spot: &Spot, spots: &Vec<Spot>) -> (legal: Vec<bool>)
    requires
        spots@.len() == spot.num_actions(),
    ensures
        spot.legal_spec(spots@, legal@),
{
    let mut legal: Vec<bool> = Vec::new();
    if spot.node_type == NodeType::EvenNode {
        let arr: [Spot; 5] = [spots[0], spots[1], spots[2], spots[3], spots[4]];
        let flags = spot.legal_actions(&arr);
        assert(arr@ =~= spots@);
        let mut k: usize = 0;
        while k < 5
            invariant
                k <= 5,
                legal@ =~= flags@.take(k as int),
            decreases 5 - k,
        {
            legal.push(flags[k]);
            k = k + 1;
        }
        assert(legal@ =~= flags@);
    } else {
        let arr: [Spot; 4] = [spots[0], spots[1], spots[2], spots[3]];
        let flags = spot.legal_actions(&arr);
        assert(arr@ =~= spots@);
        let mut k: usize = 0;
        while k < 4
            invariant
                k <= 4,
                legal@ =~= flags@.take(k as int),
            decreases 4 - k,
        {
            legal.push(flags[k]);
            k = k + 1;
        }
        assert(legal@ =~= flags@);
    }
    legal
}

/// The children of `spot`: the explored successors grown, the others
/// leaves; `None` when growing an explored one would overflow.
fn grow_children(spot: Spot, spots: &Vec<Spot>, legal: &Vec<bool>) -> (r: Option<Vec<BettingTree>>)
    requires
        !spot.terminal,
        spot.actions_defined(),
        spots@.len() == spot.num_actions(),
        forall|j: int| 0 <= j < spots@.len() ==> #[trigger] spots@[j] == spot.successor_spec(j),
        spot.legal_spec(spots@, legal@),
    ensures
        r is Some <==> spot.growable(),
        r matches Some(children) ==> {
            &&& children@.len() == spots@.len()
            &&& forall|j: int| 0 <= j < children@.len() ==> (#[trigger] children@[j]).spot == spots@[j]
            &&& forall|j: int|
                0 <= j < children@.len() ==> if legal@[j] {
                    (#[trigger] children@[j]).grown()
                } else {
                    children@[j].is_leaf()
                }
        },
    decreases spot.streets_remaining, 256 - spot.actions_this_street, 0int,
{
    proof {
        lemma_legal_is_explored(spot, spots@, legal@);
        assert forall|j: int| 0 <= j < spots@.len() && legal@[j] && !(#[trigger] spots@[j]).terminal implies spots@[j].progress_from(spot) by {
            law_successor_progress(spot, j);
        }
        assert forall|j: int|
            0 <= j < spots@.len() && legal@[j] && !(#[trigger] spots@[j]).terminal && spot.growable() implies spots@[j].growable() by {
            lemma_growable_child(spot, j);
        }
    }
    let n = spots.len();
    let mut children: Vec<BettingTree> = Vec::new();
    let mut k: usize = 0;
    while k < n
        invariant
            n == spots@.len(),
            n <= legal@.len(),
            k <= n,
            forall|j: int| 0 <= j < n && legal@[j] && !(#[trigger] spots@[j]).terminal ==> spots@[j].progress_from(spot),
            children@.len() == k,
            forall|j: int| 0 <= j < k ==> (#[trigger] children@[j]).spot == spots@[j],
            forall|j: int|
                0 <= j < k ==> if legal@[j] {
                    (#[trigger] children@[j]).grown()
                } else {
                    children@[j].is_leaf()
                },
            forall|j: int| 0 <= j < k && legal@[j] && !(#[trigger] spots@[j]).terminal ==> spots@[j].growable(),
            forall|j: int|
                0 <= j < n && legal@[j] && !(#[trigger] spots@[j]).terminal && spot.growable() ==> spots@[j].growable(),
        decreases n - k,
    {
        let c = spots[k];
        if legal[k] && !c.terminal {
            match BettingTree::try_grow(c) {
                Some(t) => children.push(t),
                None => {
                    proof {
                        assert(!spots@[k as int].growable());
                    }
                    return None;
                },
            }
        } else {
            children.push(BettingTree::new(c));
        }
        k = k + 1;
    }
    proof {
        assert(forall|j: int| 0 <= j < spots@.len() ==> #[trigger] legal@[j] == spot.explored(j)) by {
            lemma_legal_is_explored(spot, spots@, legal@);
        }
        lemma_growable_from_children(spot, spots@, legal@);
    }
    Some(children)
}

impl BettingTree {
    #[verifier::rlimit(40)]
    /// The fully grown tree of `spot`, or `None` when growing it would
    /// overflow the machine integers somewhere.
    pub fn try_grow(spot: Spot) -> (r: Option<BettingTree>)
        ensures
            r is Some <==> spot.growable(),
            r matches Some(t) ==> t.spot == spot && t.grown(),
        decreases spot.streets_remaining, 256 - spot.actions_this_street, 1int,
    {
        if spot.terminal {
            return Some(BettingTree::new(spot));
        }
        if !spot.all_actions_ok() {
            return None;
        }
        let spots = successor_spots(&spot);
        let legal = explored_flags(&spot, &spots);
        match grow_children(spot, &spots, &legal) {
            None => None,
            Some(children) => {
                let t = BettingTree { spot, legal, children };
                proof {
                    assert(spots_of(t.children@) =~= spots@);
                    assert forall|i: int| 0 <= i < t.children@.len() implies #[trigger] t.children@[i].spot
                        == spot.successor_spec(i) by {
                        assert(t.children@[i].spot == spots@[i]);
                    }
                }
                Some(t)
            },
        }
    }

    /// Grows the whole tree below a decision (replacing whatever was
    /// expanded before); a terminal node is left as it is. The tree is
    /// always finite; growing it needs every action on the way to be
    /// computed without overflow.
    pub fn gen_subtree(&mut self)
        requires
            old(self).spot.growable(),
        ensures
            final(self).spot == old(self).spot,
            old(self).spot.terminal ==> *final(self) == *old(self),
            !old(self).spot.terminal ==> final(self).grown(),
    {
        if self.spot.terminal {
            return;
        }
        match Self::try_grow(self.spot) {
            Some(t) => {
                self.legal = t.legal;
                self.children = t.children;
            },
            None => {},
        }
    }
}

/// Counting a prefix one child further adds that child's count when it is
/// explored.
proof fn lemma_explored_step(kids: Seq<BettingTree>, legal: Seq<bool>, i: int)
    requires
        0 <= i < kids.len(),
    ensures
        explored_count(kids.take(i + 1), legal) == explored_count(kids.take(i), legal) + if i
            < legal.len() && legal[i] {
            kids[i].count()
        } else {
            0
        },
{
    assert(kids.take(i + 1).drop_last() =~= kids.take(i));
}

/// A prefix of the children counts no more than all of them.
proof fn lemma_explored_prefix(kids: Seq<BettingTree>, legal: Seq<bool>, i: int)
    requires
        0 <= i <= kids.len(),
    ensures
        explored_count(kids.take(i), legal) <= explored_count(kids, legal),
    decreases kids.len(),
{
    if i == kids.len() {
        assert(kids.take(i) =~= kids);
    } else {
        assert(kids.drop_last().take(i) =~= kids.take(i));
        lemma_explored_prefix(kids.drop_last(), legal, i);
    }
}

impl BettingTree {
    /// The number of nodes of the tree, counting only explored actions.
    pub fn node_count(&self) -> (n: usize)
        requires
            self.count() <= usize::MAX,
        ensures
            n == self.count(),
        decreases self,
    {
        let mut total: usize = 1;
        let mut i: usize = 0;
        while i < self.children.len()
            invariant
                i <= self.children@.len(),
                self.count() <= usize::MAX,
                total == 1 + explored_count(self.children@.take(i as int), self.legal@),
            decreases self.children@.len() - i,
        {
            proof {
                lemma_explored_step(self.children@, self.legal@, i as int);
                lemma_explored_prefix(self.children@, self.legal@, i as int + 1);
            }
            if i < self.legal.len() && self.legal[i] {
                let c = self.children[i].node_count();
                total = total + c;
            }
            i = i + 1;
        }
        assert(self.children@.take(i as int) =~= self.children@);
        total
    }
}


/// `x` fits in `i32`.
fn fits(x: i64) -> (r: bool)
    ensures
        r == fits_i32(x as int),
{
    i32::MIN as i64 <= x && x <= i32::MAX as i64
}

fn bet_to(p: Position, m: i32) -> (b: Bet)
    ensures
        b == bet_for(p, m as int),
{
    match p {
        Position::SmallBlind => Bet::SBBet(m),
        Position::BigBlind => Bet::BBBet(m),
    }
}

/// Whether the uncalled bet of `cs` can be refunded without overflow.
fn refund_fits(cs: &ChipState) -> (r: bool)
    ensures
        r == cs.can_refund(),
{
    let d: i64 = cs.sb_this_street as i64 - cs.bb_this_street as i64;
    fits(d) && fits(-d) && (d <= 0 || (fits(cs.sb_stack as i64 + d) && fits(cs.pot as i64 - d))) && (d
        >= 0 || (fits(cs.bb_stack as i64 - d) && fits(cs.pot as i64 + d)))
}

/// Whether the bet of `m` chips by `p` fits.
fn bet_fits(cs: &ChipState, p: Position, m: i32) -> (r: bool)
    ensures
        r == cs.can_take(bet_for(p, m as int)),
{
    match p {
        Position::SmallBlind => fits(cs.sb_stack as i64 - m as i64) && fits(cs.sb_this_street as i64
            + m as i64) && fits(cs.pot as i64 + m as i64),
        Position::BigBlind => fits(cs.bb_stack as i64 - m as i64) && fits(cs.bb_this_street as i64
            + m as i64) && fits(cs.pot as i64 + m as i64),
    }
}

impl Spot {
    fn close_fits(&self, cs: &ChipState) -> (r: bool)
        ensures
            r == self.close_ok(*cs),
    {
        if cs.sb_stack == 0 || cs.bb_stack == 0 || self.streets_remaining == 1 {
            refund_fits(cs)
        } else {
            self.streets_remaining >= 1
        }
    }

    fn call_fits(&self, cs: &ChipState) -> (r: bool)
        ensures
            r == self.call_ok(*cs),
    {
        (self.streets_remaining == 4 && self.position == Position::SmallBlind
            && self.actions_this_street == 0) || self.close_fits(cs)
    }

    /// Whether action `a` is computed without overflow (`action_defined`).
    pub fn action_ok(&self, a: usize) -> (r: bool)
        requires
            a < self.num_actions(),
        ensures
            r == self.action_defined(a as int),
    {
        let cs = self.chip_state;
        let (our_stack, our_street, their_street) = match self.position {
            Position::SmallBlind => (cs.sb_stack, cs.sb_this_street, cs.bb_this_street),
            Position::BigBlind => (cs.bb_stack, cs.bb_this_street, cs.sb_this_street),
        };
        if self.node_type == NodeType::EvenNode {
            if a == 0 {
                self.actions_this_street == 0 || self.close_fits(&cs)
            } else {
                let mut m: i32 = if a == 1 {
                    cs.pot / 4
                } else if a == 2 {
                    cs.pot / 2
                } else if a == 3 {
                    cs.pot
                } else {
                    our_stack
                };
                if cs.max_bet > m {
                    m = cs.max_bet;
                }
                if our_stack < m {
                    m = our_stack;
                }
                assert(m == self.even_amount(a as int));
                bet_fits(&cs, self.position, m) && self.actions_this_street < 255
            }
        } else {
            let behind: i64 = their_street as i64 - our_street as i64;
            if !fits(behind) {
                return false;
            }
            let behind = behind as i32;
            if a == 0 {
                return true;
            }
            if a == 1 {
                let m = if behind <= our_stack {
                    behind
                } else {
                    our_stack
                };
                if !bet_fits(&cs, self.position, m) {
                    return false;
                }
                let mut ns = cs;
                ns.update_with(bet_to(self.position, m));
                return self.call_fits(&ns);
            }
            let m: i32 = if a == 2 {
                let t5: i64 = their_street as i64 * 5;
                if !fits(t5) {
                    return false;
                }
                let wanted: i64 = t5 / 2 - our_street as i64;
                if !fits(wanted) {
                    return false;
                }
                let wanted = wanted as i32;
                if wanted <= our_stack {
                    wanted
                } else {
                    our_stack
                }
            } else {
                our_stack
            };
            if !bet_fits(&cs, self.position, m) {
                return false;
            }
            if m <= behind {
                let mut ns = cs;
                ns.update_with(bet_to(self.position, m));
                self.call_fits(&ns)
            } else {
                self.actions_this_street < 255
            }
        }
    }

    /// Whether every action here is computed without overflow.
    pub fn all_actions_ok(&self) -> (r: bool)
        ensures
            r == self.actions_defined(),
    {
        let n: usize = if self.node_type == NodeType::EvenNode { 5 } else { 4 };
        let mut a: usize = 0;
        while a < n
            invariant
                n == self.num_actions(),
                a <= n,
                forall|b: int| 0 <= b < a ==> #[trigger] self.action_defined(b),
            decreases n - a,
        {
            if !self.action_ok(a) {
                return false;
            }
            a = a + 1;
        }
        true
    }
}

impl BettingTree {
    /// Every node of the tree has `total` chips on the table.
    pub open spec fn holds_chips(self, total: int) -> bool
        decreases self,
    {
        &&& self.spot.chip_state.total() == total
        &&& forall|i: int|
            #![trigger self.children@[i]]
            0 <= i < self.children@.len() ==> self.children@[i].holds_chips(total)
    }
}

/// In a grown tree, every node, explored or not, has the chips of the root
/// on the table.
pub proof fn law_grown_tree_conserves_chips(t: BettingTree)
    requires
        t.grown(),
        t.spot.growable(),
    ensures
        t.holds_chips(t.spot.chip_state.total()),
{
    reveal(grown_growable);
    lemma_holds_chips(t);
}

/// The tree is grown and its root growable.
#[verifier::opaque]
spec fn grown_growable(t: BettingTree) -> bool {
    t.grown() && t.spot.growable()
}

proof fn lemma_holds_chips(t: BettingTree)
    requires
        grown_growable(t),
    ensures
        t.holds_chips(t.spot.chip_state.total()),
    decreases t, 1int,
{
    lemma_grown_leaf(t);
    if !t.spot.terminal {
        assert forall|i: int| #![trigger t.children@[i]] 0 <= i < t.children@.len() implies t.children@[i].holds_chips(
            t.spot.chip_state.total(),
        ) by {
            lemma_child_holds_chips(t, i);
        }
    }
}

/// A grown terminal node has no children.
proof fn lemma_grown_leaf(t: BettingTree)
    requires
        grown_growable(t),
    ensures
        t.spot.terminal ==> t.children@.len() == 0,
{
    reveal(grown_growable);
}

/// What a grown tree says of one of its children.
proof fn lemma_grown_child(t: BettingTree, i: int)
    requires
        t.grown(),
        !t.spot.terminal,
        0 <= i < t.children@.len(),
    ensures
        t.children@[i].spot == t.spot.successor_spec(i),
        i < t.spot.num_actions(),
        t.legal@[i] == t.spot.explored(i),
        t.legal@[i] ==> t.children@[i].grown(),
        !t.legal@[i] ==> t.children@[i].is_leaf(),
{
    let spots = spots_of(t.children@);
    assert forall|j: int| 0 <= j < spots.len() implies #[trigger] spots[j] == t.spot.successor_spec(j) by {
        assert(t.children@[j].spot == t.spot.successor_spec(j));
    }
    lemma_legal_is_explored(t.spot, spots, t.legal@);
    assert(t.legal@[i] == t.spot.explored(i));
}

/// A step from a node whose actions are all defined keeps the chips.
proof fn lemma_step_total(s: Spot, a: int)
    requires
        !s.terminal,
        0 <= a < s.num_actions(),
        s.actions_defined(),
    ensures
        s.successor_spec(a).chip_state.total() == s.chip_state.total(),
{
    assert(s.action_defined(a));
    crate::tree::law_successor_conserves_chips(s, a);
}

/// What the conservation of chips needs of one child of a grown tree.
proof fn lemma_child_facts(t: BettingTree, i: int)
    requires
        grown_growable(t),
        !t.spot.terminal,
        0 <= i < t.children@.len(),
    ensures
        t.children@[i].spot.chip_state.total() == t.spot.chip_state.total(),
        t.legal@[i] ==> grown_growable(t.children@[i]),
        !t.legal@[i] ==> t.children@[i].children@.len() == 0,
{
    reveal(grown_growable);
    lemma_grown_child(t, i);
    lemma_growable_iff(t.spot);
    lemma_step_total(t.spot, i);
    if t.legal@[i] && !t.children@[i].spot.terminal {
        lemma_growable_child(t.spot, i);
    }
}

proof fn lemma_child_holds_chips(t: BettingTree, i: int)
    requires
        grown_growable(t),
        !t.spot.terminal,
        0 <= i < t.children@.len(),
    ensures
        t.children@[i].holds_chips(t.spot.chip_state.total()),
    decreases t, 0int,
{
    let c = t.children@[i];
    lemma_child_facts(t, i);
    if t.legal@[i] {
        assert(decreases_to!(t => c));
        lemma_holds_chips(c);
    }
}

} // verus!
