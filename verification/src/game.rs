//! Cards, seats, outcomes, bets and the chip accounting of one hand.

use vstd::prelude::*;

verus! {

/// Suits carry no showdown value; their order only fixes a card numbering.
#[derive(PartialEq, Eq, Clone, Copy, PartialOrd, Ord, Debug, Structural)]
pub enum Suit {
    Hearts,
    Diamonds,
    Spades,
    Clubs,
}

impl Suit {
    pub const NUM: usize = 4;

    /// Position of the suit in the card numbering.
    pub open spec fn idx(self) -> int {
        match self {
            Suit::Hearts => 0,
            Suit::Diamonds => 1,
            Suit::Spades => 2,
            Suit::Clubs => 3,
        }
    }

    pub fn index(self) -> (i: usize)
        ensures
            i == self.idx(),
            i < 4,
    {
        match self {
            Suit::Hearts => 0,
            Suit::Diamonds => 1,
            Suit::Spades => 2,
            Suit::Clubs => 3,
        }
    }

    /// The suit's letter: h, d, s or c.
    pub fn symbol(self) -> (ch: char)
        ensures
            ch == suit_symbol(self.idx()),
    {
        match self {
            Suit::Hearts => 'h',
            Suit::Diamonds => 'd',
            Suit::Spades => 's',
            Suit::Clubs => 'c',
        }
    }

    pub fn from_index(i: usize) -> (s: Suit)
        requires
            i < 4,
        ensures
            s.idx() == i,
    {
        if i == 0 {
            Suit::Hearts
        } else if i == 1 {
            Suit::Diamonds
        } else if i == 2 {
            Suit::Spades
        } else {
            Suit::Clubs
        }
    }
}

#[derive(PartialEq, Eq, PartialOrd, Ord, Clone, Copy, Debug, Structural)]
pub enum Rank {
    Two,
    Three,
    Four,
    Five,
    Six,
    Seven,
    Eight,
    Nine,
    Ten,
    Jack,
    Queen,
    King,
    Ace,
}

impl Rank {
    pub const NUM: usize = 13;

    /// Strength of the rank: deuce is 0, ace is 12.
    pub open spec fn idx(self) -> int {
        match self {
            Rank::Two => 0,
            Rank::Three => 1,
            Rank::Four => 2,
            Rank::Five => 3,
            Rank::Six => 4,
            Rank::Seven => 5,
            Rank::Eight => 6,
            Rank::Nine => 7,
            Rank::Ten => 8,
            Rank::Jack => 9,
            Rank::Queen => 10,
            Rank::King => 11,
            Rank::Ace => 12,
        }
    }

    pub fn index(self) -> (i: usize)
        ensures
            i == self.idx(),
            i < 13,
    {
        match self {
            Rank::Two => 0,
            Rank::Three => 1,
            Rank::Four => 2,
            Rank::Five => 3,
            Rank::Six => 4,
            Rank::Seven => 5,
            Rank::Eight => 6,
            Rank::Nine => 7,
            Rank::Ten => 8,
            Rank::Jack => 9,
            Rank::Queen => 10,
            Rank::King => 11,
            Rank::Ace => 12,
        }
    }

    /// The rank's character: 2 to 9, then T, J, Q, K, A.
    pub fn symbol(self) -> (ch: char)
        ensures
            ch == rank_symbol(self.idx()),
    {
        match self {
            Rank::Two => '2',
            Rank::Three => '3',
            Rank::Four => '4',
            Rank::Five => '5',
            Rank::Six => '6',
            Rank::Seven => '7',
            Rank::Eight => '8',
            Rank::Nine => '9',
            Rank::Ten => 'T',
            Rank::Jack => 'J',
            Rank::Queen => 'Q',
            Rank::King => 'K',
            Rank::Ace => 'A',
        }
    }

    pub fn from_index(i: usize) -> (r: Rank)
        requires
            i < 13,
        ensures
            r.idx() == i,
    {
        if i == 0 {
            Rank::Two
        } else if i == 1 {
            Rank::Three
        } else if i == 2 {
            Rank::Four
        } else if i == 3 {
            Rank::Five
        } else if i == 4 {
            Rank::Six
        } else if i == 5 {
            Rank::Seven
        } else if i == 6 {
            Rank::Eight
        } else if i == 7 {
            Rank::Nine
        } else if i == 8 {
            Rank::Ten
        } else if i == 9 {
            Rank::Jack
        } else if i == 10 {
            Rank::Queen
        } else if i == 11 {
            Rank::King
        } else {
            Rank::Ace
        }
    }
}

#[derive(PartialEq, Eq, Clone, Copy, PartialOrd, Ord, Debug, Structural)]
pub struct Card {
    pub rank: Rank,
    pub suit: Suit,
}

/// Two hole cards.
pub type Hand = (Card, Card);

impl Card {
    pub const NUM: usize = 52;

    pub fn new(rank: Rank, suit: Suit) -> (c: Self)
        ensures
            c.rank == rank,
            c.suit == suit,
    {
        Card { rank, suit }
    }

    /// The card's number: suits in blocks of thirteen, ranks ascending
    /// inside a block.
    pub open spec fn idx(self) -> int {
        self.rank.idx() + 13 * self.suit.idx()
    }

    /// The card with number `i`.
    pub open spec fn at(i: int) -> Card {
        Card { rank: rank_of(i % 13), suit: suit_of(i / 13) }
    }

    pub fn index(self) -> (i: usize)
        ensures
            i == self.idx(),
            i < 52,
    {
        self.rank.index() + 13 * self.suit.index()
    }

    /// The card numbered `i`.
    pub fn from_index(i: usize) -> (c: Card)
        requires
            i < 52,
        ensures
            c.idx() == i,
            c == Card::at(i as int),
    {
        let c = Card { rank: Rank::from_index(i % 13), suit: Suit::from_index(i / 13) };
        proof {
            lemma_card_at(i as int);
        }
        c
    }

    /// Order of the derived `Ord`: by rank, then by suit.
    pub open spec fn precedes(self, other: Card) -> bool {
        self.rank.idx() < other.rank.idx() || (self.rank.idx() == other.rank.idx()
            && self.suit.idx() < other.suit.idx())
    }

    /// `self <= other` in the order of the derived `Ord`.
    pub fn le(self, other: Card) -> (b: bool)
        ensures
            b == (self.precedes(other) || self == other),
    {
        let (r1, r2) = (self.rank.index(), other.rank.index());
        let (s1, s2) = (self.suit.index(), other.suit.index());
        proof {
            lemma_card_idx_injective(self, other);
        }
        r1 < r2 || (r1 == r2 && s1 <= s2)
    }

    /// The bit of this card in a 52-bit card mask.
    pub open spec fn mask(self) -> u64 {
        1u64 << (self.idx() as u64)
    }

    pub fn card_mask(self) -> (m: u64)
        ensures
            m == self.mask(),
    {
        1u64 << (self.index() as u64)
    }
}

/// Characters of the ranks, deuce first.
pub open spec fn rank_symbol(i: int) -> char {
    seq!['2', '3', '4', '5', '6', '7', '8', '9', 'T', 'J', 'Q', 'K', 'A'][i]
}

/// Letters of the suits in card-number order.
pub open spec fn suit_symbol(i: int) -> char {
    seq!['h', 'd', 's', 'c'][i]
}

pub open spec fn rank_of(i: int) -> Rank {
    if i == 0 {
        Rank::Two
    } else if i == 1 {
        Rank::Three
    } else if i == 2 {
        Rank::Four
    } else if i == 3 {
        Rank::Five
    } else if i == 4 {
        Rank::Six
    } else if i == 5 {
        Rank::Seven
    } else if i == 6 {
        Rank::Eight
    } else if i == 7 {
        Rank::Nine
    } else if i == 8 {
        Rank::Ten
    } else if i == 9 {
        Rank::Jack
    } else if i == 10 {
        Rank::Queen
    } else if i == 11 {
        Rank::King
    } else {
        Rank::Ace
    }
}

pub open spec fn suit_of(i: int) -> Suit {
    if i == 0 {
        Suit::Hearts
    } else if i == 1 {
        Suit::Diamonds
    } else if i == 2 {
        Suit::Spades
    } else {
        Suit::Clubs
    }
}

pub proof fn lemma_rank_of(i: int)
    requires
        0 <= i < 13,
    ensures
        rank_of(i).idx() == i,
{
}

pub proof fn lemma_suit_of(i: int)
    requires
        0 <= i < 4,
    ensures
        suit_of(i).idx() == i,
{
}

/// Distinct cards have distinct numbers, and every number below 52 is a card.
pub proof fn lemma_card_idx_injective(a: Card, b: Card)
    ensures
        0 <= a.idx() < 52,
        a.idx() == b.idx() <==> a == b,
        Card::at(a.idx()) == a,
{
    assert(a.idx() % 13 == a.rank.idx());
    assert(a.idx() / 13 == a.suit.idx());
    assert(b.idx() % 13 == b.rank.idx());
    assert(b.idx() / 13 == b.suit.idx());
}

pub proof fn lemma_card_at(i: int)
    requires
        0 <= i < 52,
    ensures
        Card::at(i).idx() == i,
{
    lemma_rank_of(i % 13);
    lemma_suit_of(i / 13);
}

/// Outcome of a finished hand in the betting tree.
#[derive(Debug, Clone, Copy, PartialEq, Eq, Structural)]
pub enum Outcome {
    /// Goes to showdown, resolved with equities.
    Showdown,
    /// The big blind folded: the small blind takes the pot.
    BBFolded,
    /// The small blind folded: the big blind takes the pot.
    SBFolded,
}

#[derive(Debug, PartialEq, Eq, Clone, Copy, Structural)]
pub enum Position {
    SmallBlind,
    BigBlind,
}

impl Position {
    pub open spec fn other(self) -> Position {
        match self {
            Position::SmallBlind => Position::BigBlind,
            Position::BigBlind => Position::SmallBlind,
        }
    }

    /// The player to act after this one.
    pub fn next(&self) -> (p: Self)
        ensures
            p == self.other(),
            p != *self,
    {
        match self {
            Position::SmallBlind => Position::BigBlind,
            Position::BigBlind => Position::SmallBlind,
        }
    }
}

/// Two seats alternate: passing the turn twice gives it back.
pub proof fn law_next_involution(p: Position)
    ensures
        p.other().other() == p,
        p.other() != p,
{
}

pub enum Bet {
    SBBet(i32),
    BBBet(i32),
}

#[derive(Clone, Copy, Debug, PartialEq, Eq, Structural)]
pub struct ChipState {
    pub pot: i32,
    pub sb_stack: i32,
    pub bb_stack: i32,
    pub sb_this_street: i32,
    pub bb_this_street: i32,
    pub max_bet: i32,
}

pub open spec fn fits_i32(x: int) -> bool {
    i32::MIN <= x <= i32::MAX
}

impl ChipState {
    /// All chips on the table: the pot and both stacks.
    pub open spec fn total(self) -> int {
        self.pot + self.sb_stack + self.bb_stack
    }

    /// Chips of both players still in front of them plus the pot fit after the bet.
    pub open spec fn can_take(self, bet: Bet) -> bool {
        match bet {
            Bet::SBBet(k) => fits_i32(self.sb_stack - k) && fits_i32(self.sb_this_street + k)
                && fits_i32(self.pot + k),
            Bet::BBBet(k) => fits_i32(self.bb_stack - k) && fits_i32(self.bb_this_street + k)
                && fits_i32(self.pot + k),
        }
    }

    /// The chip state after a player puts `bet` chips in.
    pub open spec fn after_bet(self, bet: Bet) -> ChipState {
        match bet {
            Bet::SBBet(k) => {
                let street = (self.sb_this_street + k) as i32;
                ChipState {
                    sb_stack: (self.sb_stack - k) as i32,
                    sb_this_street: street,
                    pot: (self.pot + k) as i32,
                    max_bet: if self.max_bet >= street { self.max_bet } else { street },
                    ..self
                }
            },
            Bet::BBBet(k) => {
                let street = (self.bb_this_street + k) as i32;
                ChipState {
                    bb_stack: (self.bb_stack - k) as i32,
                    bb_this_street: street,
                    pot: (self.pot + k) as i32,
                    max_bet: if self.max_bet >= street { self.max_bet } else { street },
                    ..self
                }
            },
        }
    }

    /// Moves `bet` chips from the bettor's stack into the pot and raises the
    /// street's largest bet if needed.
    pub fn update_with(&mut self, bet: Bet)
        requires
            old(self).can_take(bet),
        ensures
            *final(self) == old(self).after_bet(bet),
    {
        match bet {
            Bet::SBBet(k) => {
                self.sb_stack = self.sb_stack - k;
                self.sb_this_street = self.sb_this_street + k;
                self.pot = self.pot + k;
                if self.sb_this_street > self.max_bet {
                    self.max_bet = self.sb_this_street;
                }
            },
            Bet::BBBet(k) => {
                self.bb_stack = self.bb_stack - k;
                self.bb_this_street = self.bb_this_street + k;
                self.pot = self.pot + k;
                if self.bb_this_street > self.max_bet {
                    self.max_bet = self.bb_this_street;
                }
            },
        }
    }

    /// The refund fits in `i32`.
    pub open spec fn can_refund(self) -> bool {
        let d = self.sb_this_street - self.bb_this_street;
        &&& fits_i32(d)
        &&& fits_i32(-d)
        &&& (d > 0 ==> fits_i32(self.sb_stack + d) && fits_i32(self.pot - d))
        &&& (d < 0 ==> fits_i32(self.bb_stack - d) && fits_i32(self.pot + d))
    }

    /// The chip state after the uncalled part of the larger street bet goes back.
    pub open spec fn after_refund(self) -> ChipState {
        let sb = self.sb_this_street;
        let bb = self.bb_this_street;
        if sb > bb {
            ChipState {
                sb_stack: (self.sb_stack + (sb - bb)) as i32,
                sb_this_street: bb,
                pot: (self.pot - (sb - bb)) as i32,
                ..self
            }
        } else if bb > sb {
            ChipState {
                bb_stack: (self.bb_stack + (bb - sb)) as i32,
                bb_this_street: sb,
                pot: (self.pot - (bb - sb)) as i32,
                ..self
            }
        } else {
            self
        }
    }

    /// Returns the uncalled part of the larger street bet to its owner.
    pub fn refund_uncalled(&mut self)
        requires
            old(self).can_refund(),
        ensures
            *final(self) == old(self).after_refund(),
    {
        let sb_bet = self.sb_this_street;
        let bb_bet = self.bb_this_street;

        if sb_bet > bb_bet {
            let excess = sb_bet - bb_bet;
            self.sb_stack = self.sb_stack + excess;
            self.sb_this_street = self.sb_this_street - excess;
            self.pot = self.pot - excess;
        } else if bb_bet > sb_bet {
            let excess = bb_bet - sb_bet;
            self.bb_stack = self.bb_stack + excess;
            self.bb_this_street = self.bb_this_street - excess;
            self.pot = self.pot - excess;
        }
    }
}

/// A bet moves chips from a stack into the pot: the table total is unchanged.
pub proof fn law_bet_conserves_chips(cs: ChipState, bet: Bet)
    requires
        cs.can_take(bet),
    ensures
        cs.after_bet(bet).total() == cs.total(),
        cs.after_bet(bet).max_bet >= cs.max_bet,
{
}

/// A refund moves chips from the pot back to a stack: the player who put
/// more in this street gets the difference `d` back on its stack, the other
/// stack is unchanged, the pot shrinks by `d` and the largest bet stays; the
/// table total is unchanged, afterwards both players have put in the smaller
/// of the two street bets, and a second refund changes nothing.
pub proof fn law_refund_conserves_chips(cs: ChipState)
    requires
        cs.can_refund(),
    ensures
        ({
            let r = cs.after_refund();
            let d = if cs.sb_this_street >= cs.bb_this_street {
                cs.sb_this_street - cs.bb_this_street
            } else {
                cs.bb_this_street - cs.sb_this_street
            };
            &&& cs.sb_this_street > cs.bb_this_street ==> r.sb_stack == cs.sb_stack + d && r.bb_stack
                == cs.bb_stack
            &&& cs.bb_this_street > cs.sb_this_street ==> r.bb_stack == cs.bb_stack + d && r.sb_stack
                == cs.sb_stack
            &&& cs.sb_this_street == cs.bb_this_street ==> r == cs
            &&& r.pot == cs.pot - d
            &&& r.max_bet == cs.max_bet
        }),
        cs.after_refund().total() == cs.total(),
        cs.after_refund().sb_this_street == cs.after_refund().bb_this_street,
        cs.after_refund().sb_this_street == if cs.sb_this_street <= cs.bb_this_street {
            cs.sb_this_street
        } else {
            cs.bb_this_street
        },
        cs.after_refund().after_refund() == cs.after_refund(),
{
}

} // verus!
