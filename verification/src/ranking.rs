//! The hand classes of poker and the showdown score: a better class always
//! scores higher.

use vstd::prelude::*;
use crate::bits::pop;
use crate::cardset::{
    CardSet, is_rank_stats, lemma_rank_stats_is, rank_stats, straight_high, FIRST_SCORE, SECOND_SCORE,
    SF_SCORE, QUADS_SCORE, FH_SCORE, FLUSH_SCORE, STRAIGHT_SCORE, THREE_OF_KIND_SCORE, TWO_PAIR_SCORE,
    PAIR_SCORE,
};

verus! {

/// The rank, other than `excluded`, with the most cards among the first `n`
/// ranks (the higher rank on ties); -1 when there is none.
pub open spec fn most_common_rank(rc: Seq<u8>, excluded: int, n: int) -> int
    decreases n,
{
    if n <= 0 {
        -1
    } else {
        let j = most_common_rank(rc, excluded, n - 1);
        if n - 1 == excluded {
            j
        } else if j == -1 || rc[n - 1] >= rc[j] {
            n - 1
        } else {
            j
        }
    }
}

proof fn lemma_most_common_rank(rc: Seq<u8>, excluded: int, n: int)
    requires
        0 <= n <= rc.len(),
    ensures
        ({
            let r = most_common_rank(rc, excluded, n);
            &&& -1 <= r < n
            &&& r != excluded || r == -1
            &&& (r == -1) == (n == 0 || (n == 1 && excluded == 0))
            &&& r != -1 ==> forall|i: int| 0 <= i < n && i != excluded ==> rc[i] <= rc[r]
            &&& r != -1 ==> forall|i: int| r < i < n && i != excluded ==> rc[i] < rc[r]
        }),
    decreases n,
{
    if n > 0 {
        lemma_most_common_rank(rc, excluded, n - 1);
    }
}

/// The rank statistics of thirteen counts exist.
pub(crate) proof fn lemma_rank_stats_exist(rc: Seq<u8>)
    requires
        rc.len() == 13,
    ensures
        ({
            let (mx, mi, smx, si) = rank_stats(rc);
            is_rank_stats(rc, mx, mi, smx, si)
        }),
{
    lemma_most_common_rank(rc, -1, 13);
    let mi = most_common_rank(rc, -1, 13);
    lemma_most_common_rank(rc, mi, 13);
    let si = most_common_rank(rc, mi, 13);
    assert(is_rank_stats(rc, rc[mi] as int, mi, rc[si] as int, si));
    lemma_rank_stats_is(rc, rc[mi] as int, mi, rc[si] as int, si);
}

impl CardSet {
    /// The poker class of the hand: 8 straight flush, 7 four of a kind,
    /// 6 full house, 5 flush, 4 straight, 3 three of a kind, 2 two pair,
    /// 1 pair, 0 high card.
    pub open spec fn hand_class(self) -> int {
        let m = self.suit_masks;
        let c = self.rank_counts;
        if exists|s: int| 0 <= s < 4 && pop(m[s]) >= 5 && (#[trigger] straight_high(m[s])).is_some() {
            8
        } else if exists|r: int| 0 <= r < 13 && #[trigger] c[r] >= 4 {
            7
        } else if exists|r1: int, r2: int|
            0 <= r1 < 13 && 0 <= r2 < 13 && r1 != r2 && #[trigger] c[r1] >= 3 && #[trigger] c[r2] >= 2 {
            6
        } else if exists|s: int| 0 <= s < 4 && #[trigger] pop(m[s]) >= 5 {
            5
        } else if straight_high(self.all_ranks()).is_some() {
            4
        } else if exists|r: int| 0 <= r < 13 && #[trigger] c[r] >= 3 {
            3
        } else if exists|r1: int, r2: int|
            0 <= r1 < 13 && 0 <= r2 < 13 && r1 != r2 && #[trigger] c[r1] >= 2 && #[trigger] c[r2] >= 2 {
            2
        } else if exists|r: int| 0 <= r < 13 && #[trigger] c[r] >= 2 {
            1
        } else {
            0
        }
    }

    /// No rank has more than the four cards of a deck.
    pub open spec fn deck_counts(self) -> bool {
        forall|r: int| 0 <= r < 13 ==> #[trigger] self.rank_counts[r] <= 4
    }
}

/// The lowest score of each class.
pub open spec fn class_floor(k: int) -> int {
    if k == 8 {
        SF_SCORE as int
    } else if k == 7 {
        QUADS_SCORE as int
    } else if k == 6 {
        FH_SCORE as int
    } else if k == 5 {
        FLUSH_SCORE as int
    } else if k == 4 {
        STRAIGHT_SCORE as int
    } else if k == 3 {
        THREE_OF_KIND_SCORE as int
    } else if k == 2 {
        TWO_PAIR_SCORE as int
    } else if k == 1 {
        PAIR_SCORE as int
    } else {
        0
    }
}

pub(crate) proof fn lemma_straight_height(m: u16, k: int)
    requires
        0 <= k <= 10,
    ensures
        straight_from_height_ok(m, k),
    decreases 10 - k,
{
    if k < 10 {
        lemma_straight_height(m, k + 1);
    }
}

pub open spec fn straight_from_height_ok(m: u16, k: int) -> bool {
    crate::cardset::straight_from(m, k) matches Some(h) ==> 1 <= h <= 10
}

pub(crate) proof fn lemma_flush_suit(cs: CardSet)
    ensures
        cs.flush_suit_below(4) is Some <==> exists|s: int| 0 <= s < 4 && #[trigger] pop(cs.suit_masks[s]) >= 5,
        cs.flush_suit_below(4) matches Some(s) ==> 0 <= s < 4 && pop(cs.suit_masks[s]) >= 5,
{
    reveal_with_fuel(CardSet::flush_suit_below, 5);
    if exists|s: int| 0 <= s < 4 && #[trigger] pop(cs.suit_masks[s]) >= 5 {
        let s = choose|s: int| 0 <= s < 4 && #[trigger] pop(cs.suit_masks[s]) >= 5;
        assert(pop(cs.suit_masks[s]) >= 5);
    }
}

pub(crate) proof fn lemma_sf_suit(cs: CardSet)
    ensures
        cs.sf_suit_from(0) is Some <==> exists|s: int|
            0 <= s < 4 && pop(cs.suit_masks[s]) >= 5 && (#[trigger] straight_high(cs.suit_masks[s])).is_some(),
        cs.sf_suit_from(0) matches Some(s) ==> 0 <= s < 4 && straight_high(cs.suit_masks[s]) is Some,
{
    reveal_with_fuel(CardSet::sf_suit_from, 5);
    if exists|s: int|
        0 <= s < 4 && pop(cs.suit_masks[s]) >= 5 && (#[trigger] straight_high(cs.suit_masks[s])).is_some() {
        let s = choose|s: int|
            0 <= s < 4 && pop(cs.suit_masks[s]) >= 5 && (#[trigger] straight_high(cs.suit_masks[s])).is_some();
        assert(straight_high(cs.suit_masks[s]).is_some());
    }
}

/// Which branch of the score each poker class takes.
pub(crate) proof fn lemma_class_by_stats(cs: CardSet)
    requires
        cs.deck_counts(),
    ensures
        ({
            let (mx, mi, smx, si) = rank_stats(cs.rank_counts@);
            let sf = cs.sf_suit_from(0) is Some;
            let fl = cs.flush_suit_below(4) is Some;
            let st = straight_high(cs.all_ranks()) is Some;
            &&& is_rank_stats(cs.rank_counts@, mx, mi, smx, si)
            &&& sf ==> cs.hand_class() == 8
            &&& !sf && mx == 4 ==> cs.hand_class() == 7
            &&& !sf && mx != 4 && mx == 3 && smx >= 2 ==> cs.hand_class() == 6
            &&& !sf && mx != 4 && !(mx == 3 && smx >= 2) && fl ==> cs.hand_class() == 5
            &&& !sf && mx != 4 && !(mx == 3 && smx >= 2) && !fl && st ==> cs.hand_class() == 4
            &&& !sf && mx != 4 && !(mx == 3 && smx >= 2) && !fl && !st && mx == 3 ==> cs.hand_class() == 3
            &&& !sf && mx <= 2 && !fl && !st && smx == 2 ==> cs.hand_class() == 2
            &&& !sf && mx == 2 && smx < 2 && !fl && !st ==> cs.hand_class() == 1
            &&& !sf && mx < 2 && !fl && !st ==> cs.hand_class() == 0
            &&& smx <= mx
        }),
{
    let rc = cs.rank_counts@;
    lemma_rank_stats_exist(rc);
    let (mx, mi, smx, si) = rank_stats(rc);
    lemma_flush_suit(cs);
    lemma_sf_suit(cs);
    let c = cs.rank_counts;
    assert(forall|r: int| 0 <= r < 13 ==> c[r] == rc[r]);
    assert((exists|r: int| 0 <= r < 13 && #[trigger] c[r] >= 4) <==> mx == 4) by {
        if mx == 4 {
            assert(c[mi] >= 4);
        }
    }
    assert((exists|r: int| 0 <= r < 13 && #[trigger] c[r] >= 3) <==> mx >= 3) by {
        if mx >= 3 {
            assert(c[mi] >= 3);
        }
    }
    assert((exists|r: int| 0 <= r < 13 && #[trigger] c[r] >= 2) <==> mx >= 2) by {
        if mx >= 2 {
            assert(c[mi] >= 2);
        }
    }
    assert((exists|r1: int, r2: int|
        0 <= r1 < 13 && 0 <= r2 < 13 && r1 != r2 && #[trigger] c[r1] >= 3 && #[trigger] c[r2] >= 2) <==> (mx >= 3
        && smx >= 2)) by {
        if mx >= 3 && smx >= 2 {
            assert(c[mi] >= 3 && c[si] >= 2);
        }
        if exists|r1: int, r2: int|
            0 <= r1 < 13 && 0 <= r2 < 13 && r1 != r2 && #[trigger] c[r1] >= 3 && #[trigger] c[r2] >= 2 {
            let (r1, r2) = choose|r1: int, r2: int|
                0 <= r1 < 13 && 0 <= r2 < 13 && r1 != r2 && #[trigger] c[r1] >= 3 && #[trigger] c[r2] >= 2;
            assert(c[r1] <= mx);
            if r1 != mi {
                assert(c[r1] <= smx);
            } else {
                assert(c[r2] <= smx);
            }
        }
    }
    assert((exists|r1: int, r2: int|
        0 <= r1 < 13 && 0 <= r2 < 13 && r1 != r2 && #[trigger] c[r1] >= 2 && #[trigger] c[r2] >= 2) <==> (mx >= 2
        && smx >= 2)) by {
        if mx >= 2 && smx >= 2 {
            assert(c[mi] >= 2 && c[si] >= 2);
        }
        if exists|r1: int, r2: int|
            0 <= r1 < 13 && 0 <= r2 < 13 && r1 != r2 && #[trigger] c[r1] >= 2 && #[trigger] c[r2] >= 2 {
            let (r1, r2) = choose|r1: int, r2: int|
                0 <= r1 < 13 && 0 <= r2 < 13 && r1 != r2 && #[trigger] c[r1] >= 2 && #[trigger] c[r2] >= 2;
            assert(c[r1] <= mx);
            if r1 != mi {
                assert(c[r1] <= smx);
            } else {
                assert(c[r2] <= smx);
            }
        }
    }
    assert(smx <= mx);
    let all = cs.all_ranks();
    let sf = cs.sf_suit_from(0) is Some;
    let fl = cs.flush_suit_below(4) is Some;
    let st = straight_high(all) is Some;
    assert(sf ==> cs.hand_class() == 8);
    assert(!sf && mx == 4 ==> cs.hand_class() == 7);
    assert(!sf && mx != 4 && mx == 3 && smx >= 2 ==> cs.hand_class() == 6);
    assert(!sf && mx != 4 && !(mx == 3 && smx >= 2) && fl ==> cs.hand_class() == 5);
    assert(!sf && mx != 4 && !(mx == 3 && smx >= 2) && !fl && st ==> cs.hand_class() == 4);
    assert(!sf && mx != 4 && !(mx == 3 && smx >= 2) && !fl && !st && mx == 3 ==> cs.hand_class() == 3);
    assert(!sf && mx <= 2 && !fl && !st && smx == 2 ==> cs.hand_class() == 2);
    assert(!sf && mx == 2 && smx < 2 && !fl && !st ==> cs.hand_class() == 1);
    assert(!sf && mx < 2 && !fl && !st ==> cs.hand_class() == 0);
    assert(smx <= mx);
}

/// The score of a hand lies at or above its class's floor and below the
/// next class's floor.
pub proof fn lemma_score_in_class(cs: CardSet)
    requires
        cs.deck_counts(),
    ensures
        class_floor(cs.hand_class()) <= cs.score_spec() < class_floor(cs.hand_class() + 1) || (
        cs.hand_class() == 8 && SF_SCORE <= cs.score_spec() <= SF_SCORE + 10),
{
    let rc = cs.rank_counts@;
    lemma_rank_stats_exist(rc);
    let (mx, mi, smx, si) = rank_stats(rc);
    lemma_flush_suit(cs);
    lemma_sf_suit(cs);
    lemma_straight_height(cs.all_ranks(), 0);
    if let Some(s) = cs.sf_suit_from(0) {
        lemma_straight_height(cs.suit_masks[s], 0);
    }
    lemma_class_by_stats(cs);
    assert(0 <= mi <= 12 && 0 <= si <= 12);
    assert(0 <= FIRST_SCORE * mi <= 120_000_000) by (nonlinear_arith)
        requires
            0 <= mi <= 12,
            FIRST_SCORE == 10_000_000,
    ;
    assert(0 <= SECOND_SCORE * si <= 1_200_000) by (nonlinear_arith)
        requires
            0 <= si <= 12,
            SECOND_SCORE == 100_000,
    ;
}

/// A hand of a better poker class always scores higher: a straight flush
/// beats four of a kind, which beats a full house, then a flush, a
/// straight, three of a kind, two pair, a pair and a high card.
pub proof fn law_better_class_scores_higher(a: CardSet, b: CardSet)
    requires
        a.deck_counts(),
        b.deck_counts(),
        a.hand_class() > b.hand_class(),
    ensures
        a.score_spec() > b.score_spec(),
{
    lemma_score_in_class(a);
    lemma_score_in_class(b);
}

impl CardSet {
    /// `r` is the rank that the hand holds most cards of, the highest such
    /// rank on ties: the rank of its four of a kind, of the three cards of a
    /// full house or of three of a kind, of its higher pair or its pair.
    pub open spec fn is_main_rank(self, r: int) -> bool {
        &&& 0 <= r < 13
        &&& forall|i: int| 0 <= i < 13 ==> #[trigger] self.rank_counts[i] <= self.rank_counts[r]
        &&& forall|i: int| r < i < 13 ==> #[trigger] self.rank_counts[i] < self.rank_counts[r]
    }
}

/// The score of a four of a kind, full house, three of a kind, two pair or
/// pair: its class floor, plus a step for the main rank, plus less than a
/// step for the rest.
proof fn lemma_score_by_main_rank(cs: CardSet, r: int)
    requires
        cs.deck_counts(),
        cs.is_main_rank(r),
        1 <= cs.hand_class() <= 7,
        cs.hand_class() != 4 && cs.hand_class() != 5,
    ensures
        class_floor(cs.hand_class()) + FIRST_SCORE * r <= cs.score_spec() < class_floor(cs.hand_class())
            + FIRST_SCORE * r + FIRST_SCORE,
{
    let rc = cs.rank_counts@;
    lemma_rank_stats_exist(rc);
    let (mx, mi, smx, si) = rank_stats(rc);
    lemma_score_in_class(cs);
    assert(mi == r) by {
        assert(rc[mi] == mx);
        assert(rc[r] == cs.rank_counts[r]);
        assert(cs.rank_counts[mi] <= cs.rank_counts[r]);
        assert(rc[r] <= mx);
        if mi < r {
            assert(rc[r] < mx);
        } else if r < mi {
            assert(cs.rank_counts[mi] < cs.rank_counts[r]);
        }
    }
    lemma_flush_suit(cs);
    lemma_sf_suit(cs);
    assert(0 <= si <= 12);
    assert(0 <= SECOND_SCORE * si <= 1_200_000) by (nonlinear_arith)
        requires
            0 <= si <= 12,
            SECOND_SCORE == 100_000,
    ;
}

/// Within four of a kind, full house, three of a kind, two pair and pair,
/// the hand whose main rank (the rank of its quads, trips or higher pair)
/// is higher scores higher, whatever the other cards.
pub proof fn law_higher_main_rank_scores_higher(a: CardSet, b: CardSet, ra: int, rb: int)
    requires
        a.deck_counts(),
        b.deck_counts(),
        a.is_main_rank(ra),
        b.is_main_rank(rb),
        a.hand_class() == b.hand_class(),
        1 <= a.hand_class() <= 7,
        a.hand_class() != 4 && a.hand_class() != 5,
        ra > rb,
    ensures
        a.score_spec() > b.score_spec(),
{
    lemma_score_by_main_rank(a, ra);
    lemma_score_by_main_rank(b, rb);
    assert(FIRST_SCORE * ra >= FIRST_SCORE * rb + FIRST_SCORE) by (nonlinear_arith)
        requires
            ra > rb,
            FIRST_SCORE == 10_000_000,
    ;
}

/// The suit of a straight flush holds at least five cards.
pub(crate) proof fn lemma_straight_pop(cs: CardSet, s: int)
    requires
        cs.sf_suit_from(0) == Some(s),
    ensures
        pop(cs.suit_masks[s]) >= 5,
{
    reveal_with_fuel(CardSet::sf_suit_from, 5);
}

} // verus!
