//! Hands of more than five cards: a set of up to seven cards scores as the
//! best five-card hand it holds.

use vstd::prelude::*;
use crate::bits::{pop, top_n, is_submask, lemma_submask_pop, lemma_top_n_monotone, lemma_top_n_le, lemma_mask_rules, lemma_union_rules};
use crate::cardset::{
    CardSet, straight_from, straight_high, straight_mask, holds, without, rank_stats, is_rank_stats, SECOND_SCORE,
};
use crate::ranking::{
    lemma_class_by_stats, lemma_flush_suit, lemma_sf_suit, lemma_straight_pop, law_better_class_scores_higher,
    law_higher_main_rank_scores_higher,
};
use crate::showdown::{
    has_rank, bit, bits_below, rank_sum, lemma_suits_sum, lemma_pop_low, lemma_sum_at_least, lemma_bits_of_union,
    lemma_bits_of_without, lemma_no_bits_zero, lemma_pop_zero, lemma_rank_sum_update, lemma_bits_below_zero,
};
use crate::showdown::{lemma_built_hand, law_five_card_showdown};
use crate::cardset::{lemma_rank_stats_is, lemma_without_small, lemma_straight_pops};
use crate::bits::{is_top_n, low_bit, lemma_top_n_exists, lemma_top_n_is};
use crate::game::Card;
use crate::state::board_after;

verus! {

impl CardSet {
    /// Every card of `self` is a card of `other`.
    pub open spec fn is_subset_of(self, other: CardSet) -> bool {
        forall|s: int| 0 <= s < 4 ==> #[trigger] is_submask(self.suit_masks[s], other.suit_masks[s])
    }

    /// The number of cards in the set.
    pub open spec fn card_count(self) -> int {
        rank_sum(self.rank_counts@, 13)
    }
}

proof fn lemma_rank_of_submask(a: u16, b: u16, ru: u16)
    requires
        a & !b == 0,
        (a >> ru) & 1 == 1,
    ensures
        (b >> ru) & 1 == 1,
{
    lemma_mask_rules(a, b, 0, ru, 0);
}

proof fn lemma_union_submask(a0: u16, a1: u16, a2: u16, a3: u16, b0: u16, b1: u16, b2: u16, b3: u16)
    requires
        a0 & !b0 == 0,
        a1 & !b1 == 0,
        a2 & !b2 == 0,
        a3 & !b3 == 0,
    ensures
        (a0 | a1 | a2 | a3) & !(b0 | b1 | b2 | b3) == 0,
{
    lemma_union_rules(a0, a1, a2, a3, b0, b1, b2, b3);
}

proof fn lemma_without_submask(a: u16, b: u16, ru: u16)
    requires
        a & !b == 0,
    ensures
        (a & !(1u16 << ru)) & !(b & !(1u16 << ru)) == 0,
        a & !(1u16 << ru) <= a,
{
    lemma_mask_rules(a, b, 0, ru, 0);
}

/// Removing a rank keeps a submask a submask, and never makes a mask larger.
proof fn lemma_without_sub(a: u16, b: u16, r: int)
    requires
        is_submask(a, b),
    ensures
        is_submask(without(a, r), without(b, r)),
        without(a, r) <= a,
{
    lemma_without_submask(a, b, r as u16);
}

proof fn lemma_self_submask(a: u16)
    ensures
        a & !a == 0,
{
    lemma_mask_rules(a, 0, 0, 0, 0);
}

proof fn lemma_holds_sub(a: u16, b: u16, x: u16)
    requires
        a & !b == 0,
        a & x == x,
    ensures
        b & x == x,
{
    lemma_mask_rules(a, b, x, 0, 0);
}

proof fn lemma_straight_from_le(m: u16, k: int)
    ensures
        straight_from(m, k) matches Some(h) ==> h <= 10 - k,
    decreases 10 - k,
{
    if 0 <= k < 10 {
        lemma_straight_from_le(m, k + 1);
    }
}

/// More ranks never lose a straight, nor lower the best one.
proof fn lemma_straight_monotone(a: u16, b: u16, k: int)
    requires
        is_submask(a, b),
    ensures
        straight_from(a, k) is Some ==> straight_from(b, k) is Some && straight_from(a, k).unwrap()
            <= straight_from(b, k).unwrap(),
    decreases 10 - k,
{
    if 0 <= k < 10 {
        if holds(b, straight_mask(k)) {
            lemma_straight_from_le(a, k);
        } else {
            if holds(a, straight_mask(k)) {
                lemma_holds_sub(a, b, straight_mask(k));
            }
            lemma_straight_monotone(a, b, k + 1);
        }
    }
}

proof fn lemma_bits_below_nonneg(m: u16, k: int)
    ensures
        bits_below(m, k) >= 0,
    decreases k,
{
    if k > 0 {
        lemma_bits_below_nonneg(m, k - 1);
    }
}

/// With at most nine cards, at most one suit holds five of them.
proof fn lemma_one_big_suit(cs: CardSet, s1: int, s2: int)
    requires
        cs.wf(),
        cs.counts_match(),
        cs.card_count() <= 9,
        0 <= s1 < 4,
        0 <= s2 < 4,
        pop(cs.suit_masks[s1]) >= 5,
        pop(cs.suit_masks[s2]) >= 5,
    ensures
        s1 == s2,
{
    lemma_suits_sum(cs, 13);
    let m = cs.suit_masks;
    lemma_pop_low(m[0]);
    lemma_pop_low(m[1]);
    lemma_pop_low(m[2]);
    lemma_pop_low(m[3]);
    lemma_bits_below_nonneg(m[0], 13);
    lemma_bits_below_nonneg(m[1], 13);
    lemma_bits_below_nonneg(m[2], 13);
    lemma_bits_below_nonneg(m[3], 13);
}

/// A subset holds no more cards of any rank, no rank the superset lacks,
/// and no more cards of any suit.
proof fn lemma_subset_facts(t: CardSet, s: CardSet)
    requires
        t.counts_match(),
        s.counts_match(),
        t.is_subset_of(s),
    ensures
        forall|r: int| 0 <= r < 13 ==> #[trigger] t.rank_counts[r] <= s.rank_counts[r],
        is_submask(t.all_ranks(), s.all_ranks()),
        forall|i: int| 0 <= i < 4 ==> #[trigger] pop(t.suit_masks[i]) <= pop(s.suit_masks[i]),
        t.deck_counts(),
        s.deck_counts(),
{
    assert forall|r: int| 0 <= r < 13 implies #[trigger] t.rank_counts[r] <= s.rank_counts[r] by {
        assert forall|i: int| 0 <= i < 4 implies bit(t.suit_masks[i], r) <= bit(s.suit_masks[i], r) by {
            assert(is_submask(t.suit_masks[i], s.suit_masks[i]));
            if has_rank(t.suit_masks[i], r) {
                lemma_rank_of_submask(t.suit_masks[i], s.suit_masks[i], r as u16);
            }
        }
    }
    let (a, b) = (t.suit_masks, s.suit_masks);
    assert(is_submask(a[0], b[0]) && is_submask(a[1], b[1]) && is_submask(a[2], b[2]) && is_submask(a[3], b[3]));
    lemma_union_submask(a[0], a[1], a[2], a[3], b[0], b[1], b[2], b[3]);
    assert forall|i: int| 0 <= i < 4 implies #[trigger] pop(t.suit_masks[i]) <= pop(s.suit_masks[i]) by {
        assert(is_submask(a[i], b[i]));
        lemma_submask_pop(a[i], b[i]);
    }
    assert forall|r: int| 0 <= r < 13 implies #[trigger] t.rank_counts[r] <= 4 by {
        assert(t.rank_counts[r] as int == bit(a[0], r) + bit(a[1], r) + bit(a[2], r) + bit(a[3], r));
    }
    assert forall|r: int| 0 <= r < 13 implies #[trigger] s.rank_counts[r] <= 4 by {
        assert(s.rank_counts[r] as int == bit(b[0], r) + bit(b[1], r) + bit(b[2], r) + bit(b[3], r));
    }
}

/// A subset is of no better poker class than the set.
proof fn lemma_class_monotone(t: CardSet, s: CardSet)
    requires
        t.counts_match(),
        s.counts_match(),
        t.is_subset_of(s),
    ensures
        t.hand_class() <= s.hand_class(),
{
    lemma_subset_facts(t, s);
    let (tm, sm, tc, sc) = (t.suit_masks, s.suit_masks, t.rank_counts, s.rank_counts);
    if exists|i: int| 0 <= i < 4 && pop(tm[i]) >= 5 && (#[trigger] straight_high(tm[i])).is_some() {
        let i = choose|i: int| 0 <= i < 4 && pop(tm[i]) >= 5 && (#[trigger] straight_high(tm[i])).is_some();
        assert(is_submask(tm[i], sm[i]));
        lemma_straight_monotone(tm[i], sm[i], 0);
        assert(pop(sm[i]) >= 5 && straight_high(sm[i]).is_some());
    }
    if exists|r: int| 0 <= r < 13 && #[trigger] tc[r] >= 4 {
        let r = choose|r: int| 0 <= r < 13 && #[trigger] tc[r] >= 4;
        assert(sc[r] >= 4);
    }
    if exists|r1: int, r2: int| 0 <= r1 < 13 && 0 <= r2 < 13 && r1 != r2 && #[trigger] tc[r1] >= 3 && #[trigger] tc[r2] >= 2 {
        let (r1, r2) = choose|r1: int, r2: int|
            0 <= r1 < 13 && 0 <= r2 < 13 && r1 != r2 && #[trigger] tc[r1] >= 3 && #[trigger] tc[r2] >= 2;
        assert(sc[r1] >= 3 && sc[r2] >= 2);
    }
    if exists|i: int| 0 <= i < 4 && #[trigger] pop(tm[i]) >= 5 {
        let i = choose|i: int| 0 <= i < 4 && #[trigger] pop(tm[i]) >= 5;
        assert(pop(sm[i]) >= 5);
    }
    lemma_straight_monotone(t.all_ranks(), s.all_ranks(), 0);
    if exists|r: int| 0 <= r < 13 && #[trigger] tc[r] >= 3 {
        let r = choose|r: int| 0 <= r < 13 && #[trigger] tc[r] >= 3;
        assert(sc[r] >= 3);
    }
    if exists|r1: int, r2: int| 0 <= r1 < 13 && 0 <= r2 < 13 && r1 != r2 && #[trigger] tc[r1] >= 2 && #[trigger] tc[r2] >= 2 {
        let (r1, r2) = choose|r1: int, r2: int|
            0 <= r1 < 13 && 0 <= r2 < 13 && r1 != r2 && #[trigger] tc[r1] >= 2 && #[trigger] tc[r2] >= 2;
        assert(sc[r1] >= 2 && sc[r2] >= 2);
    }
    if exists|r: int| 0 <= r < 13 && #[trigger] tc[r] >= 2 {
        let r = choose|r: int| 0 <= r < 13 && #[trigger] tc[r] >= 2;
        assert(sc[r] >= 2);
    }
}


/// In a class with a main rank, a subset's main rank is no higher than the
/// set's, and when they agree the subset scores no higher than the set.
proof fn lemma_same_class_scores(t: CardSet, s: CardSet)
    requires
        t.wf(),
        s.wf(),
        t.counts_match(),
        s.counts_match(),
        t.is_subset_of(s),
        s.card_count() <= 7,
        t.hand_class() == s.hand_class(),
    ensures
        t.score_spec() <= s.score_spec(),
{
    lemma_subset_facts(t, s);
    let (tm, sm) = (t.suit_masks, s.suit_masks);
    let (trc, src) = (t.rank_counts@, s.rank_counts@);
    lemma_class_by_stats(t);
    lemma_class_by_stats(s);
    lemma_flush_suit(t);
    lemma_flush_suit(s);
    lemma_sf_suit(t);
    lemma_sf_suit(s);
    let (tmx, tmi, tsmx, tsi) = rank_stats(trc);
    let (smx, smi, ssmx, ssi) = rank_stats(src);
    let (tall, sall) = (t.all_ranks(), s.all_ranks());
    let k = t.hand_class();
    assert(forall|r: int| 0 <= r < 13 ==> trc[r] == t.rank_counts[r] && src[r] == s.rank_counts[r]);
    if k == 8 {
        let (st, ss) = (t.sf_suit_from(0).unwrap(), s.sf_suit_from(0).unwrap());
        lemma_straight_pop(t, st);
        lemma_straight_pop(s, ss);
        assert(is_submask(tm[st], sm[st]));
        assert(pop(sm[st]) >= 5);
        lemma_one_big_suit(s, st, ss);
        lemma_straight_monotone(tm[st], sm[st], 0);
    } else if k == 5 {
        let (ft, fs) = (t.flush_suit_below(4).unwrap(), s.flush_suit_below(4).unwrap());
        assert(is_submask(tm[ft], sm[ft]));
        assert(pop(sm[ft]) >= 5);
        lemma_one_big_suit(s, ft, fs);
        lemma_top_n_monotone(tm[ft], sm[ft], 5);
    } else if k == 4 {
        lemma_straight_monotone(tall, sall, 0);
    } else if k == 0 {
        lemma_top_n_monotone(tall, sall, 5);
    } else {
        assert(tmx == smx);
        assert(src[tmi] >= trc[tmi]);
        assert(tmi <= smi) by {
            if tmi > smi {
                assert(src[tmi] < smx);
            }
        }
        if tmi < smi {
            assert(s.is_main_rank(smi));
            assert(t.is_main_rank(tmi));
            law_higher_main_rank_scores_higher(s, t, smi, tmi);
        } else {
            let mi = tmi;
            lemma_without_sub(tall, sall, mi);
            if k == 7 {
                lemma_top_n_monotone(without(tall, mi), without(sall, mi), 1);
            } else if k == 3 {
                lemma_top_n_monotone(without(tall, mi), without(sall, mi), 2);
            } else if k == 1 {
                lemma_top_n_monotone(without(tall, mi), without(sall, mi), 3);
            } else {
                assert(src[tsi] >= trc[tsi]);
                assert(tsi <= ssi) by {
                    if tsi > ssi {
                        assert(src[tsi] < ssmx);
                        if k == 6 {
                            lemma_sum_at_least(src, 13, mi, ssi, tsi);
                        }
                    }
                }
                if k == 6 {
                    assert(SECOND_SCORE * tsi <= SECOND_SCORE * ssi) by (nonlinear_arith)
                        requires
                            tsi <= ssi,
                            SECOND_SCORE == 100_000,
                    ;
                } else {
                    let (tw, sw) = (without(tall, mi), without(sall, mi));
                    lemma_without_sub(tw, sw, tsi);
                    lemma_top_n_le(without(tw, tsi), 1);
                    lemma_top_n_le(without(sw, ssi), 1);
                    lemma_self_submask(sw);
                    lemma_self_submask(sall);
                    lemma_self_submask(tw);
                    lemma_without_sub(sw, sw, ssi);
                    lemma_without_sub(sall, sall, mi);
                    lemma_without_sub(tw, tw, tsi);
                    let (m0, m1, m2, m3) = (sm[0], sm[1], sm[2], sm[3]);
                    assert(m0 < 0x2000 && m1 < 0x2000 && m2 < 0x2000 && m3 < 0x2000);
                    lemma_union_rules(m0, m1, m2, m3, 0, 0, 0, 0);
                    if tsi < ssi {
                        assert(SECOND_SCORE * tsi + SECOND_SCORE <= SECOND_SCORE * ssi) by (nonlinear_arith)
                            requires
                                tsi < ssi,
                                SECOND_SCORE == 100_000,
                        ;
                    } else {
                        lemma_top_n_monotone(without(tw, tsi), without(sw, tsi), 1);
                    }
                }
            }
        }
    }
}

/// Extra cards never lower the score: a subset of a set of at most seven
/// cards scores no higher than the set.
pub proof fn lemma_subset_scores_no_higher(t: CardSet, s: CardSet)
    requires
        t.wf(),
        s.wf(),
        t.counts_match(),
        s.counts_match(),
        t.is_subset_of(s),
        s.card_count() <= 7,
    ensures
        t.score_spec() <= s.score_spec(),
{
    lemma_subset_facts(t, s);
    lemma_class_monotone(t, s);
    if t.hand_class() < s.hand_class() {
        law_better_class_scores_higher(s, t);
    } else {
        lemma_same_class_scores(t, s);
    }
}


// ---------------------------------------------------------------------
// Taking one card out of a set.

/// Two masks within the thirteen rank bits that hold the same ranks are equal.
proof fn lemma_mask_ext(x: u16, y: u16)
    requires
        x < 0x2000,
        y < 0x2000,
        forall|r: int| 0 <= r < 13 ==> has_rank(x, r) == has_rank(y, r),
    ensures
        x == y,
{
    assert(has_rank(x, 0) == has_rank(y, 0));
    assert(has_rank(x, 1) == has_rank(y, 1));
    assert(has_rank(x, 2) == has_rank(y, 2));
    assert(has_rank(x, 3) == has_rank(y, 3));
    assert(has_rank(x, 4) == has_rank(y, 4));
    assert(has_rank(x, 5) == has_rank(y, 5));
    assert(has_rank(x, 6) == has_rank(y, 6));
    assert(has_rank(x, 7) == has_rank(y, 7));
    assert(has_rank(x, 8) == has_rank(y, 8));
    assert(has_rank(x, 9) == has_rank(y, 9));
    assert(has_rank(x, 10) == has_rank(y, 10));
    assert(has_rank(x, 11) == has_rank(y, 11));
    assert(has_rank(x, 12) == has_rank(y, 12));
    assert(x == y) by (bit_vector)
        requires
            x < 0x2000,
            y < 0x2000,
            ((x >> 0u16) & 1 == 1) == ((y >> 0u16) & 1 == 1),
            ((x >> 1u16) & 1 == 1) == ((y >> 1u16) & 1 == 1),
            ((x >> 2u16) & 1 == 1) == ((y >> 2u16) & 1 == 1),
            ((x >> 3u16) & 1 == 1) == ((y >> 3u16) & 1 == 1),
            ((x >> 4u16) & 1 == 1) == ((y >> 4u16) & 1 == 1),
            ((x >> 5u16) & 1 == 1) == ((y >> 5u16) & 1 == 1),
            ((x >> 6u16) & 1 == 1) == ((y >> 6u16) & 1 == 1),
            ((x >> 7u16) & 1 == 1) == ((y >> 7u16) & 1 == 1),
            ((x >> 8u16) & 1 == 1) == ((y >> 8u16) & 1 == 1),
            ((x >> 9u16) & 1 == 1) == ((y >> 9u16) & 1 == 1),
            ((x >> 10u16) & 1 == 1) == ((y >> 10u16) & 1 == 1),
            ((x >> 11u16) & 1 == 1) == ((y >> 11u16) & 1 == 1),
            ((x >> 12u16) & 1 == 1) == ((y >> 12u16) & 1 == 1),
    ;
}

/// The ranks present in a set are those with a card.
proof fn lemma_all_ranks(cs: CardSet)
    requires
        cs.wf(),
        cs.counts_match(),
    ensures
        cs.all_ranks() < 0x2000,
        forall|r: int| 0 <= r < 13 ==> #[trigger] has_rank(cs.all_ranks(), r) == (cs.rank_counts[r] >= 1),
        forall|r: int| 0 <= r < 13 ==> #[trigger] cs.rank_counts@[r] == cs.rank_counts[r],
        cs.rank_counts@.len() == 13,
        cs.deck_counts(),
{
    let m = cs.suit_masks;
    assert forall|r: int| 0 <= r < 13 implies #[trigger] has_rank(cs.all_ranks(), r) == (cs.rank_counts[r] >= 1) by {
        lemma_bits_of_union(m[0], m[1], m[2], m[3], r);
    }
    let (a, b, c, d) = (m[0], m[1], m[2], m[3]);
    lemma_union_rules(a, b, c, d, 0, 0, 0, 0);
    assert forall|r: int| 0 <= r < 13 implies #[trigger] cs.rank_counts[r] <= 4 by {
        assert(cs.rank_counts[r] as int == bit(a, r) + bit(b, r) + bit(c, r) + bit(d, r));
    }
}

/// Some suit holds every rank that has a card.
proof fn lemma_suit_of_rank(cs: CardSet, r: int) -> (su: int)
    requires
        cs.counts_match(),
        0 <= r < 13,
        cs.rank_counts[r] >= 1,
    ensures
        0 <= su < 4,
        has_rank(cs.suit_masks[su], r),
{
    let m = cs.suit_masks;
    assert(cs.rank_counts[r] as int == bit(m[0], r) + bit(m[1], r) + bit(m[2], r) + bit(m[3], r));
    if has_rank(m[0], r) {
        0
    } else if has_rank(m[1], r) {
        1
    } else if has_rank(m[2], r) {
        2
    } else {
        3
    }
}

impl CardSet {
    /// The set without the card of rank `r` and suit `su`.
    pub open spec fn removed(self, r: int, su: int) -> CardSet {
        CardSet {
            suit_masks: vstd::array::spec_array_update(self.suit_masks, su, without(self.suit_masks[su], r)),
            rank_counts: vstd::array::spec_array_update(self.rank_counts, r, (self.rank_counts[r] - 1) as u8),
        }
    }
}

proof fn lemma_self_submask_without(m: u16, ru: u16)
    ensures
        (m & !(1u16 << ru)) & !m == 0,
{
    lemma_mask_rules(m, 0, 0, ru, 0);
}

/// Taking a card out leaves a set of one card fewer inside the old one; its
/// ranks lose the card's rank only when that was the rank's last card.
proof fn lemma_remove_card(cs: CardSet, r: int, su: int)
    requires
        cs.wf(),
        cs.counts_match(),
        0 <= r < 13,
        0 <= su < 4,
        has_rank(cs.suit_masks[su], r),
    ensures
        cs.removed(r, su).wf(),
        cs.removed(r, su).counts_match(),
        cs.removed(r, su).is_subset_of(cs),
        cs.removed(r, su).card_count() == cs.card_count() - 1,
        cs.removed(r, su).rank_counts[r] == cs.rank_counts[r] - 1,
        forall|q: int| 0 <= q < 13 && q != r ==> #[trigger] cs.removed(r, su).rank_counts[q] == cs.rank_counts[q],
        cs.rank_counts[r] >= 2 ==> cs.removed(r, su).all_ranks() == cs.all_ranks(),
        cs.rank_counts[r] == 1 ==> cs.removed(r, su).all_ranks() == without(cs.all_ranks(), r),
{
    let n = cs.removed(r, su);
    let m = cs.suit_masks;
    lemma_all_ranks(cs);
    lemma_without_small(m[su], r);
    assert(cs.rank_counts[r] as int == bit(m[0], r) + bit(m[1], r) + bit(m[2], r) + bit(m[3], r));
    assert forall|q: int| 0 <= q < 13 implies has_rank(n.suit_masks[su], q) == (has_rank(m[su], q) && q != r) by {
        lemma_bits_of_without(m[su], r, q);
    }
    assert(n.wf());
    assert(n.counts_match()) by {
        assert forall|q: int| 0 <= q < 13 implies #[trigger] n.rank_counts[q] as int == bit(n.suit_masks[0], q) + bit(
            n.suit_masks[1],
            q,
        ) + bit(n.suit_masks[2], q) + bit(n.suit_masks[3], q) by {
            assert(cs.rank_counts[q] as int == bit(m[0], q) + bit(m[1], q) + bit(m[2], q) + bit(m[3], q));
        }
    }
    assert(n.is_subset_of(cs)) by {
        assert forall|i: int| 0 <= i < 4 implies #[trigger] is_submask(n.suit_masks[i], m[i]) by {
            lemma_self_submask(m[i]);
            lemma_self_submask_without(m[i], r as u16);
        }
    }
    assert(n.rank_counts@ == cs.rank_counts@.update(r, (cs.rank_counts[r] - 1) as u8));
    lemma_rank_sum_update(cs.rank_counts@, r, (cs.rank_counts[r] - 1) as u8, 13);
    lemma_all_ranks(n);
    if cs.rank_counts[r] >= 2 {
        lemma_mask_ext(n.all_ranks(), cs.all_ranks());
    } else if cs.rank_counts[r] == 1 {
        lemma_without_small(cs.all_ranks(), r);
        assert forall|q: int| 0 <= q < 13 implies has_rank(n.all_ranks(), q) == has_rank(without(cs.all_ranks(), r), q) by {
            lemma_bits_of_without(cs.all_ranks(), r, q);
        }
        lemma_mask_ext(n.all_ranks(), without(cs.all_ranks(), r));
    }
}

// ---------------------------------------------------------------------
// Counting ranks and cards.

proof fn lemma_bits_below_without(x: u16, r0: int, k: int)
    requires
        0 <= r0 < 13,
        0 <= k <= 13,
    ensures
        bits_below(without(x, r0), k) == bits_below(x, k) - if r0 < k && has_rank(x, r0) { 1int } else { 0int },
    decreases k,
{
    if k > 0 {
        lemma_bits_below_without(x, r0, k - 1);
        lemma_bits_of_without(x, r0, k - 1);
    }
}

/// Clearing a rank that a mask holds removes one bit.
proof fn lemma_pop_without(x: u16, r0: int)
    requires
        x < 0x2000,
        0 <= r0 < 13,
        has_rank(x, r0),
    ensures
        pop(without(x, r0)) + 1 == pop(x),
{
    lemma_without_small(x, r0);
    lemma_pop_low(x);
    lemma_pop_low(without(x, r0));
    lemma_bits_below_without(x, r0, 13);
}

/// The total of the counts when only the ranks `a`, `b`, `c` may hold cards.
proof fn lemma_sum_of_three(rc: Seq<u8>, k: int, a: int, b: int, c: int)
    requires
        0 <= k <= rc.len(),
        a != b && b != c && a != c,
        forall|r: int| 0 <= r < k && r != a && r != b && r != c ==> #[trigger] rc[r] == 0,
    ensures
        rank_sum(rc, k) == (if 0 <= a < k { rc[a] as int } else { 0 }) + (if 0 <= b < k { rc[b] as int } else {
            0
        }) + (if 0 <= c < k { rc[c] as int } else { 0 }),
    decreases k,
{
    if k > 0 {
        lemma_sum_of_three(rc, k - 1, a, b, c);
    }
}

/// When every rank other than `a` holds at most one card, a mask of exactly
/// the ranks other than `a` with a card has one bit per such card.
proof fn lemma_count_singles(rc: Seq<u8>, x: u16, a: int, k: int)
    requires
        0 <= k <= 13,
        rc.len() == 13,
        forall|r: int| 0 <= r < 13 ==> #[trigger] has_rank(x, r) == (rc[r] >= 1 && r != a),
        forall|r: int| 0 <= r < 13 && r != a ==> #[trigger] rc[r] <= 1,
    ensures
        bits_below(x, k) == rank_sum(rc, k) - if 0 <= a < k { rc[a] as int } else { 0 },
    decreases k,
{
    if k > 0 {
        lemma_count_singles(rc, x, a, k - 1);
    }
}

proof fn lemma_low_rules(x: u16, t: u16, r0u: u16, ru: u16)
    by (bit_vector)
    ensures
        r0u < 13 && ru < 13 ==> (((x & (((1u16 << r0u) - 1) as u16)) >> ru) & 1 == 1) == (((x >> ru) & 1 == 1)
            && ru < r0u),
        x & (((1u16 << r0u) - 1) as u16) <= x,
        r0u < 13 && t & !x == 0 && (t == 0 || (x ^ t) < low_bit(t)) && x & (((1u16 << r0u) - 1) as u16) == 0 && (t
            >> r0u) & 1 == 1 ==> t == x,
        r0u < 13 && t & !x == 0 && (t == 0 || (x ^ t) < low_bit(t)) && (t >> r0u) & 1 != 1 ==> t & !(x & !(1u16
            << r0u)) == 0 && (t == 0 || ((x & !(1u16 << r0u)) ^ t) < low_bit(t)),
{
}

/// Dropping the lowest rank of a mask that has more than `j` ranks keeps its
/// `j` highest ranks.
proof fn lemma_top_n_drop_lowest(x: u16, r0: int, j: nat)
    requires
        x < 0x2000,
        0 <= r0 < 13,
        has_rank(x, r0),
        forall|r: int| 0 <= r < r0 ==> !#[trigger] has_rank(x, r),
        pop(x) > j,
    ensures
        top_n(without(x, r0), j) == top_n(x, j),
{
    let r0u = r0 as u16;
    let low = x & (((1u16 << r0u) - 1) as u16);
    assert forall|r: int| 0 <= r < 13 implies has_rank(low, r) == has_rank(0u16, r) by {
        lemma_low_rules(x, 0, r0u, r as u16);
        lemma_no_bits_zero(0);
        if r < r0 {
            assert(!has_rank(x, r));
        }
    }
    lemma_low_rules(x, 0, r0u, 0);
    lemma_mask_ext(low, 0);
    lemma_top_n_exists(x, j);
    let t = top_n(x, j);
    if has_rank(t, r0) {
        lemma_low_rules(x, t, r0u, 0);
    }
    lemma_low_rules(x, t, r0u, 0);
    lemma_pop_without(x, r0);
    assert(is_top_n(without(x, r0), j, t));
    lemma_top_n_is(without(x, r0), j, t);
}


// ---------------------------------------------------------------------
// Finding ranks in masks.

proof fn lemma_lowest_from(x: u16, i: int) -> (r0: int)
    requires
        x < 0x2000,
        x != 0,
        0 <= i <= 13,
        forall|r: int| 0 <= r < i ==> !#[trigger] has_rank(x, r),
    ensures
        0 <= r0 < 13,
        has_rank(x, r0),
        forall|r: int| 0 <= r < r0 ==> !#[trigger] has_rank(x, r),
    decreases 13 - i,
{
    if i == 13 {
        lemma_no_bits_zero(0);
        lemma_mask_ext(x, 0);
        0
    } else if has_rank(x, i) {
        i
    } else {
        lemma_lowest_from(x, i + 1)
    }
}

/// A nonzero mask within the thirteen rank bits has a lowest rank.
proof fn lemma_lowest_rank(x: u16) -> (r0: int)
    requires
        x < 0x2000,
        x != 0,
    ensures
        0 <= r0 < 13,
        has_rank(x, r0),
        forall|r: int| 0 <= r < r0 ==> !#[trigger] has_rank(x, r),
{
    lemma_lowest_from(x, 0)
}

proof fn lemma_bits_of_and_not(x: u16, y: u16, ru: u16)
    requires
        ru < 13,
    ensures
        (((x & !y) >> ru) & 1 == 1) == (((x >> ru) & 1 == 1) && !((y >> ru) & 1 == 1)),
        x < 0x2000 ==> x & !y < 0x2000,
{
    lemma_mask_rules(x, y, 0, ru, 0);
}

proof fn lemma_holds_without(x: u16, mm: u16, ru: u16)
    requires
        ru < 13,
        x & mm == mm,
        (mm >> ru) & 1 != 1,
    ensures
        (x & !(1u16 << ru)) & mm == mm,
{
    lemma_mask_rules(x, 0, mm, ru, 0);
}

proof fn lemma_without_commute(x: u16, a: u16, b: u16, c: u16)
    ensures
        ((x & !(1u16 << a)) & !(1u16 << b)) & !(1u16 << c) == ((x & !(1u16 << b)) & !(1u16 << c)) & !(1u16 << a),
        (x & !(1u16 << a)) & !(1u16 << b) == (x & !(1u16 << b)) & !(1u16 << a),
{
    lemma_mask_rules(x, 0, 0, a, b);
    lemma_mask_rules(x & !(1u16 << b), 0, 0, a, c);
}

proof fn lemma_straight_found(x: u16, k: int)
    ensures
        straight_from(x, k) matches Some(h) ==> 1 <= h <= 10 && holds(x, straight_mask(10 - h)),
    decreases 10 - k,
{
    if 0 <= k < 10 {
        lemma_straight_found(x, k + 1);
    }
}

proof fn lemma_straight_reaches(x: u16, j: int, k: int)
    requires
        0 <= k <= j < 10,
        holds(x, straight_mask(j)),
    ensures
        straight_from(x, k) is Some,
        straight_from(x, k).unwrap() >= 10 - j,
    decreases j - k,
{
    if !holds(x, straight_mask(k)) {
        lemma_straight_reaches(x, j, k + 1);
    }
}

proof fn lemma_pop_straights()
    ensures
        forall|k: int| 0 <= k < 10 ==> pop(#[trigger] straight_mask(k)) == 5,
{
    lemma_straight_pops();
    assert(pop(0x100Fu16) == 5) by {
        reveal_with_fuel(pop, 16);
    }
}

/// A third rank different from two given ones.
pub open spec fn third_rank(a: int, b: int) -> int {
    if a != 0 && b != 0 {
        0
    } else if a != 1 && b != 1 {
        1
    } else {
        2
    }
}

/// The card count of a set whose cards all lie in ranks `a` and `b`.
proof fn lemma_sum_of_two(cs: CardSet, a: int, b: int)
    requires
        cs.rank_counts@.len() == 13,
        0 <= a < 13,
        0 <= b < 13,
        a != b,
        forall|r: int| 0 <= r < 13 && r != a && r != b ==> #[trigger] cs.rank_counts@[r] == 0,
    ensures
        cs.card_count() == cs.rank_counts@[a] + cs.rank_counts@[b],
{
    let c = third_rank(a, b);
    lemma_sum_of_three(cs.rank_counts@, 13, a, b, c);
}


proof fn lemma_holds_submask(x: u16, mm: u16)
    requires
        x & mm == mm,
    ensures
        mm & !x == 0,
{
    lemma_mask_rules(x, 0, mm, 0, 0);
}

// ---------------------------------------------------------------------
// A card that the best five do not need.

/// In a straight flush or a flush of six or seven cards, some card lies
/// outside the best five: taking it out keeps the score.
proof fn lemma_spare_card_suited(s: CardSet) -> (rs: (int, int))
    requires
        s.wf(),
        s.counts_match(),
        6 <= s.card_count() <= 7,
        s.hand_class() == 8 || s.hand_class() == 5,
    ensures
        0 <= rs.0 < 13,
        0 <= rs.1 < 4,
        has_rank(s.suit_masks[rs.1], rs.0),
        s.removed(rs.0, rs.1).score_spec() >= s.score_spec(),
{
    let m = s.suit_masks;
    let k = s.hand_class();
    lemma_all_ranks(s);
    lemma_class_by_stats(s);
    lemma_flush_suit(s);
    lemma_sf_suit(s);
    lemma_pop_straights();
    let f = if k == 8 {
        s.sf_suit_from(0).unwrap()
    } else {
        s.flush_suit_below(4).unwrap()
    };
    if k == 8 {
        lemma_straight_pop(s, f);
    }
    assert(0 <= f < 4 && pop(m[f]) >= 5);
    let h = if k == 8 { straight_high(m[f]).unwrap() } else { 0 };
    let mm = straight_mask(10 - h);
    if k == 8 {
        lemma_straight_found(m[f], 0);
    }
    let rs: (int, int) = if exists|i: int| 0 <= i < 4 && i != f && #[trigger] m[i] != 0 {
        let i = choose|i: int| 0 <= i < 4 && i != f && #[trigger] m[i] != 0;
        let r = lemma_lowest_rank(m[i]);
        (r, i)
    } else {
        lemma_suits_sum(s, 13);
        lemma_pop_low(m[f]);
        lemma_bits_below_zero(13);
        assert(forall|i: int| 0 <= i < 4 && i != f ==> #[trigger] m[i] == 0);
        assert(m[0] == 0 || f == 0);
        assert(m[1] == 0 || f == 1);
        assert(m[2] == 0 || f == 2);
        assert(m[3] == 0 || f == 3);
        assert(pop(m[f]) == s.card_count());
        if k == 8 {
            let d = m[f] & !mm;
            if d == 0 {
                lemma_submask_pop(m[f], mm);
            }
            lemma_bits_of_and_not(m[f], mm, 0);
            let r0 = lemma_lowest_rank(d);
            lemma_bits_of_and_not(m[f], mm, r0 as u16);
            (r0, f)
        } else {
            let r0 = lemma_lowest_rank(m[f]);
            (r0, f)
        }
    };
    let (r, su) = rs;
    let t = s.removed(r, su);
    lemma_remove_card(s, r, su);
    lemma_class_monotone(t, s);
    lemma_all_ranks(t);
    lemma_class_by_stats(t);
    lemma_flush_suit(t);
    lemma_sf_suit(t);
    let x = t.suit_masks[f];
    if su != f {
        assert(x == m[f]);
    }
    if k == 8 {
        if su == f {
            lemma_holds_without(m[f], mm, r as u16);
        }
        assert(holds(x, mm));
        lemma_straight_reaches(x, 10 - h, 0);
        lemma_holds_submask(x, mm);
        lemma_submask_pop(mm, x);
        assert(pop(x) >= 5 && straight_high(x).is_some());
        let g = t.sf_suit_from(0).unwrap();
        lemma_straight_pop(t, g);
        lemma_one_big_suit(t, g, f);
    } else {
        if su == f {
            lemma_top_n_drop_lowest(m[f], r, 5);
            lemma_pop_without(m[f], r);
        }
        assert(top_n(x, 5) == top_n(m[f], 5));
        assert(pop(x) >= 5);
        let g = t.flush_suit_below(4).unwrap();
        lemma_one_big_suit(t, g, f);
    }
    rs
}


/// In a straight of six or seven cards, a card of a rank held twice, or of
/// a rank outside the straight, can go.
proof fn lemma_spare_card_straight(s: CardSet) -> (rs: (int, int))
    requires
        s.wf(),
        s.counts_match(),
        6 <= s.card_count() <= 7,
        s.hand_class() == 4,
    ensures
        0 <= rs.0 < 13,
        0 <= rs.1 < 4,
        has_rank(s.suit_masks[rs.1], rs.0),
        s.removed(rs.0, rs.1).score_spec() >= s.score_spec(),
{
    let rc = s.rank_counts;
    let all = s.all_ranks();
    lemma_all_ranks(s);
    lemma_class_by_stats(s);
    lemma_flush_suit(s);
    lemma_sf_suit(s);
    lemma_pop_straights();
    lemma_straight_found(all, 0);
    let h = straight_high(all).unwrap();
    let mm = straight_mask(10 - h);
    let r0: int = if exists|r: int| 0 <= r < 13 && #[trigger] rc[r] >= 2 {
        choose|r: int| 0 <= r < 13 && #[trigger] rc[r] >= 2
    } else {
        lemma_count_singles(s.rank_counts@, all, 13, 13);
        lemma_pop_low(all);
        let d = all & !mm;
        if d == 0 {
            lemma_submask_pop(all, mm);
        }
        lemma_bits_of_and_not(all, mm, 0);
        let r0 = lemma_lowest_rank(d);
        lemma_bits_of_and_not(all, mm, r0 as u16);
        assert(has_rank(all, r0));
        assert(rc[r0] >= 1);
        r0
    };
    assert(0 <= r0 < 13 && rc[r0] >= 1);
    assert(rc[r0] < 2 ==> has_rank(all, r0) && !has_rank(mm, r0));
    let su = lemma_suit_of_rank(s, r0);
    let t = s.removed(r0, su);
    lemma_remove_card(s, r0, su);
    lemma_class_monotone(t, s);
    lemma_all_ranks(t);
    lemma_class_by_stats(t);
    lemma_flush_suit(t);
    lemma_sf_suit(t);
    let x = t.all_ranks();
    if rc[r0] < 2 {
        lemma_holds_without(all, mm, r0 as u16);
    }
    assert(holds(x, mm));
    lemma_straight_reaches(x, 10 - h, 0);
    (r0, su)
}


/// The ranks of a set other than `a` (and `b`).
proof fn lemma_other_ranks(s: CardSet, a: int, b: int)
    requires
        s.wf(),
        s.counts_match(),
        0 <= a < 13,
        0 <= b < 13,
    ensures
        without(s.all_ranks(), a) < 0x2000,
        without(without(s.all_ranks(), a), b) < 0x2000,
        forall|r: int| 0 <= r < 13 ==> #[trigger] has_rank(without(s.all_ranks(), a), r) == (s.rank_counts@[r] >= 1
            && r != a),
        forall|r: int| 0 <= r < 13 ==> #[trigger] has_rank(without(without(s.all_ranks(), a), b), r) == (
        s.rank_counts@[r] >= 1 && r != a && r != b),
{
    lemma_all_ranks(s);
    let all = s.all_ranks();
    lemma_without_small(all, a);
    lemma_without_small(without(all, a), b);
    assert forall|r: int| 0 <= r < 13 implies #[trigger] has_rank(without(all, a), r) == (s.rank_counts@[r] >= 1
        && r != a) by {
        lemma_bits_of_without(all, a, r);
    }
    assert forall|r: int| 0 <= r < 13 implies #[trigger] has_rank(without(without(all, a), b), r) == (
    s.rank_counts@[r] >= 1 && r != a && r != b) by {
        lemma_bits_of_without(all, a, r);
        lemma_bits_of_without(without(all, a), b, r);
    }
}

/// Lowering the count of a rank other than the two leading ones keeps the
/// rank statistics.
proof fn lemma_stats_kept(s: CardSet, t: CardSet, r0: int)
    requires
        s.rank_counts@.len() == 13,
        t.rank_counts@.len() == 13,
        0 <= r0 < 13,
        t.rank_counts[r0] < s.rank_counts[r0],
        forall|q: int| 0 <= q < 13 && q != r0 ==> #[trigger] t.rank_counts[q] == s.rank_counts[q],
        forall|q: int| 0 <= q < 13 ==> #[trigger] s.rank_counts@[q] == s.rank_counts[q],
        forall|q: int| 0 <= q < 13 ==> #[trigger] t.rank_counts@[q] == t.rank_counts[q],
        is_rank_stats(s.rank_counts@, rank_stats(s.rank_counts@).0, rank_stats(s.rank_counts@).1, rank_stats(
            s.rank_counts@,
        ).2, rank_stats(s.rank_counts@).3),
        r0 != rank_stats(s.rank_counts@).1,
        r0 != rank_stats(s.rank_counts@).3,
    ensures
        rank_stats(t.rank_counts@) == rank_stats(s.rank_counts@),
{
    let (mx, mi, smx, si) = rank_stats(s.rank_counts@);
    assert(is_rank_stats(t.rank_counts@, mx, mi, smx, si));
    lemma_rank_stats_is(t.rank_counts@, mx, mi, smx, si);
}

/// In four of a kind with six or seven cards, a card other than the four
/// can go: one of a rank held twice, or the lowest other rank.
proof fn lemma_spare_card_quads(s: CardSet) -> (rs: (int, int))
    requires
        s.wf(),
        s.counts_match(),
        6 <= s.card_count() <= 7,
        s.hand_class() == 7,
    ensures
        0 <= rs.0 < 13,
        0 <= rs.1 < 4,
        has_rank(s.suit_masks[rs.1], rs.0),
        s.removed(rs.0, rs.1).score_spec() >= s.score_spec(),
{
    let rc = s.rank_counts;
    let rq = s.rank_counts@;
    let all = s.all_ranks();
    lemma_all_ranks(s);
    lemma_class_by_stats(s);
    lemma_flush_suit(s);
    lemma_sf_suit(s);
    let (mx, mi, smx, si) = rank_stats(rq);
    assert(mx == 4);
    let x = without(all, mi);
    lemma_other_ranks(s, mi, mi);
    let r0: int = if exists|r: int| 0 <= r < 13 && r != mi && #[trigger] rc[r] >= 2 {
        choose|r: int| 0 <= r < 13 && r != mi && #[trigger] rc[r] >= 2
    } else {
        lemma_count_singles(rq, x, mi, 13);
        lemma_pop_low(x);
        if x == 0 {
            lemma_pop_zero(0);
        }
        let r0 = lemma_lowest_rank(x);
        assert(has_rank(x, r0));
        r0
    };
    assert(0 <= r0 < 13 && r0 != mi && rc[r0] >= 1);
    let su = lemma_suit_of_rank(s, r0);
    let t = s.removed(r0, su);
    lemma_remove_card(s, r0, su);
    lemma_class_monotone(t, s);
    lemma_all_ranks(t);
    lemma_class_by_stats(t);
    lemma_flush_suit(t);
    lemma_sf_suit(t);
    let tq = t.rank_counts@;
    let (tmx, tmi, tsmx, tsi) = rank_stats(tq);
    assert(tq[mi] == 4);
    assert(tmx == 4);
    assert(tmi == mi) by {
        if tmi != mi {
            assert(rq[tmi] >= 4);
            lemma_sum_at_least(rq, 13, mi, tmi, third_rank(mi, tmi));
        }
    }
    if rc[r0] < 2 {
        lemma_without_commute(all, r0 as u16, mi as u16, mi as u16);
        assert(without(t.all_ranks(), mi) == without(x, r0));
        lemma_top_n_drop_lowest(x, r0, 1);
    }
    (r0, su)
}

/// In a full house with six or seven cards, a card of neither group can go,
/// or, with two sets of three, a card of the lower set.
proof fn lemma_spare_card_full_house(s: CardSet) -> (rs: (int, int))
    requires
        s.wf(),
        s.counts_match(),
        6 <= s.card_count() <= 7,
        s.hand_class() == 6,
    ensures
        0 <= rs.0 < 13,
        0 <= rs.1 < 4,
        has_rank(s.suit_masks[rs.1], rs.0),
        s.removed(rs.0, rs.1).score_spec() >= s.score_spec(),
{
    let rc = s.rank_counts;
    let rq = s.rank_counts@;
    lemma_all_ranks(s);
    lemma_class_by_stats(s);
    lemma_flush_suit(s);
    lemma_sf_suit(s);
    let (mx, mi, smx, si) = rank_stats(rq);
    assert(mx == 3 && smx >= 2);
    let r0: int = if exists|r: int| 0 <= r < 13 && r != mi && r != si && #[trigger] rc[r] >= 1 {
        choose|r: int| 0 <= r < 13 && r != mi && r != si && #[trigger] rc[r] >= 1
    } else {
        lemma_sum_of_two(s, mi, si);
        si
    };
    let su = lemma_suit_of_rank(s, r0);
    let t = s.removed(r0, su);
    lemma_remove_card(s, r0, su);
    lemma_class_monotone(t, s);
    lemma_all_ranks(t);
    lemma_class_by_stats(t);
    lemma_flush_suit(t);
    lemma_sf_suit(t);
    let tq = t.rank_counts@;
    if r0 != si {
        lemma_stats_kept(s, t, r0);
    } else {
        assert(smx == 3);
        assert(is_rank_stats(tq, 3, mi, 2, si));
        lemma_rank_stats_is(tq, 3, mi, 2, si);
    }
    (r0, su)
}


/// In three of a kind or a pair with six or seven cards, the lowest of the
/// other cards can go.
proof fn lemma_spare_card_group(s: CardSet) -> (rs: (int, int))
    requires
        s.wf(),
        s.counts_match(),
        6 <= s.card_count() <= 7,
        s.hand_class() == 3 || s.hand_class() == 1,
    ensures
        0 <= rs.0 < 13,
        0 <= rs.1 < 4,
        has_rank(s.suit_masks[rs.1], rs.0),
        s.removed(rs.0, rs.1).score_spec() >= s.score_spec(),
{
    let rc = s.rank_counts;
    let rq = s.rank_counts@;
    let all = s.all_ranks();
    let k = s.hand_class();
    lemma_all_ranks(s);
    lemma_class_by_stats(s);
    lemma_flush_suit(s);
    lemma_sf_suit(s);
    let (mx, mi, smx, si) = rank_stats(rq);
    assert(smx < 2);
    assert(k == 3 ==> mx == 3);
    assert(k == 1 ==> mx == 2);
    let x = without(all, mi);
    lemma_other_ranks(s, mi, mi);
    lemma_count_singles(rq, x, mi, 13);
    lemma_pop_low(x);
    if x == 0 {
        lemma_pop_zero(0);
    }
    let r0 = lemma_lowest_rank(x);
    assert(has_rank(x, r0));
    assert(r0 != si) by {
        if r0 == si {
            assert forall|r: int| 0 <= r < 13 && r != mi && r != si implies #[trigger] rq[r] == 0 by {
                if r < r0 {
                    assert(!has_rank(x, r));
                }
            }
            lemma_sum_of_two(s, mi, si);
        }
    }
    let su = lemma_suit_of_rank(s, r0);
    let t = s.removed(r0, su);
    lemma_remove_card(s, r0, su);
    lemma_class_monotone(t, s);
    lemma_all_ranks(t);
    lemma_stats_kept(s, t, r0);
    lemma_class_by_stats(t);
    lemma_flush_suit(t);
    lemma_sf_suit(t);
    lemma_without_commute(all, r0 as u16, mi as u16, mi as u16);
    assert(without(t.all_ranks(), mi) == without(x, r0));
    if k == 3 {
        lemma_top_n_drop_lowest(x, r0, 2);
    } else {
        lemma_top_n_drop_lowest(x, r0, 3);
    }
    (r0, su)
}

/// With no pair in six or seven cards, the lowest card can go.
proof fn lemma_spare_card_high(s: CardSet) -> (rs: (int, int))
    requires
        s.wf(),
        s.counts_match(),
        6 <= s.card_count() <= 7,
        s.hand_class() == 0,
    ensures
        0 <= rs.0 < 13,
        0 <= rs.1 < 4,
        has_rank(s.suit_masks[rs.1], rs.0),
        s.removed(rs.0, rs.1).score_spec() >= s.score_spec(),
{
    let rc = s.rank_counts;
    let rq = s.rank_counts@;
    let all = s.all_ranks();
    lemma_all_ranks(s);
    lemma_class_by_stats(s);
    lemma_flush_suit(s);
    lemma_sf_suit(s);
    let (mx, mi, smx, si) = rank_stats(rq);
    assert(mx < 2);
    lemma_count_singles(rq, all, 13, 13);
    lemma_pop_low(all);
    if all == 0 {
        lemma_pop_zero(0);
    }
    let r0 = lemma_lowest_rank(all);
    assert(has_rank(all, r0));
    assert(r0 != si && r0 != mi) by {
        if r0 == si || r0 == mi {
            assert forall|r: int| 0 <= r < 13 && r != mi && r != si implies #[trigger] rq[r] == 0 by {
                if r < r0 {
                    assert(!has_rank(all, r));
                }
            }
            lemma_sum_of_two(s, mi, si);
        }
    }
    let su = lemma_suit_of_rank(s, r0);
    let t = s.removed(r0, su);
    lemma_remove_card(s, r0, su);
    lemma_class_monotone(t, s);
    lemma_all_ranks(t);
    lemma_stats_kept(s, t, r0);
    lemma_class_by_stats(t);
    lemma_flush_suit(t);
    lemma_sf_suit(t);
    lemma_top_n_drop_lowest(all, r0, 5);
    (r0, su)
}

/// In two pair with six or seven cards, the lowest card outside the two
/// best pairs can go.
proof fn lemma_spare_card_two_pair(s: CardSet) -> (rs: (int, int))
    requires
        s.wf(),
        s.counts_match(),
        6 <= s.card_count() <= 7,
        s.hand_class() == 2,
    ensures
        0 <= rs.0 < 13,
        0 <= rs.1 < 4,
        has_rank(s.suit_masks[rs.1], rs.0),
        s.removed(rs.0, rs.1).score_spec() >= s.score_spec(),
{
    let rc = s.rank_counts;
    let rq = s.rank_counts@;
    let all = s.all_ranks();
    lemma_all_ranks(s);
    lemma_class_by_stats(s);
    lemma_flush_suit(s);
    lemma_sf_suit(s);
    let (mx, mi, smx, si) = rank_stats(rq);
    assert(mx == 2 && smx == 2);
    let y = without(without(all, mi), si);
    lemma_other_ranks(s, mi, si);
    if y == 0 {
        lemma_no_bits_zero(0);
        assert forall|r: int| 0 <= r < 13 && r != mi && r != si implies #[trigger] rq[r] == 0 by {
            assert(!has_rank(y, r));
        }
        lemma_sum_of_two(s, mi, si);
    }
    let r0 = lemma_lowest_rank(y);
    assert(has_rank(y, r0));
    let su = lemma_suit_of_rank(s, r0);
    let t = s.removed(r0, su);
    lemma_remove_card(s, r0, su);
    lemma_class_monotone(t, s);
    lemma_all_ranks(t);
    lemma_stats_kept(s, t, r0);
    lemma_class_by_stats(t);
    lemma_flush_suit(t);
    lemma_sf_suit(t);
    if rc[r0] < 2 {
        assert(pop(y) > 1) by {
            lemma_pop_without(y, r0);
            if pop(y) <= 1 {
                lemma_pop_zero(without(y, r0));
                lemma_no_bits_zero(0);
                assert forall|r: int| 0 <= r < 13 && r != mi && r != si && r != r0 implies #[trigger] rq[r] == 0 by {
                    lemma_bits_of_without(y, r0, r);
                }
                lemma_sum_of_three(rq, 13, mi, si, r0);
            }
        }
        lemma_without_commute(all, r0 as u16, mi as u16, si as u16);
        assert(without(without(t.all_ranks(), mi), si) == without(y, r0));
        lemma_top_n_drop_lowest(y, r0, 1);
    }
    (r0, su)
}


/// Six or seven cards always hold a card whose removal keeps the score.
proof fn lemma_spare_card(s: CardSet) -> (rs: (int, int))
    requires
        s.wf(),
        s.counts_match(),
        6 <= s.card_count() <= 7,
    ensures
        0 <= rs.0 < 13,
        0 <= rs.1 < 4,
        has_rank(s.suit_masks[rs.1], rs.0),
        s.removed(rs.0, rs.1).score_spec() >= s.score_spec(),
{
    lemma_all_ranks(s);
    lemma_class_by_stats(s);
    let k = s.hand_class();
    if k == 8 || k == 5 {
        lemma_spare_card_suited(s)
    } else if k == 4 {
        lemma_spare_card_straight(s)
    } else if k == 7 {
        lemma_spare_card_quads(s)
    } else if k == 6 {
        lemma_spare_card_full_house(s)
    } else if k == 3 || k == 1 {
        lemma_spare_card_group(s)
    } else if k == 2 {
        lemma_spare_card_two_pair(s)
    } else {
        lemma_spare_card_high(s)
    }
}

proof fn lemma_submask_trans(a: u16, b: u16, c: u16)
    requires
        a & !b == 0,
        b & !c == 0,
    ensures
        a & !c == 0,
{
    lemma_mask_rules(a, b, c, 0, 0);
}

/// Five cards of the set that score as much as the whole set.
proof fn lemma_best_five_exists(s: CardSet) -> (t: CardSet)
    requires
        s.wf(),
        s.counts_match(),
        5 <= s.card_count() <= 7,
    ensures
        t.is_five_cards(),
        t.is_subset_of(s),
        t.score_spec() == s.score_spec(),
    decreases s.card_count(),
{
    if s.card_count() == 5 {
        assert(s.is_subset_of(s)) by {
            assert forall|i: int| 0 <= i < 4 implies #[trigger] is_submask(s.suit_masks[i], s.suit_masks[i]) by {
                lemma_self_submask(s.suit_masks[i]);
            }
        }
        s
    } else {
        let (r, su) = lemma_spare_card(s);
        let u = s.removed(r, su);
        lemma_remove_card(s, r, su);
        lemma_subset_scores_no_higher(u, s);
        let t = lemma_best_five_exists(u);
        assert(t.is_subset_of(s)) by {
            assert forall|i: int| 0 <= i < 4 implies #[trigger] is_submask(t.suit_masks[i], s.suit_masks[i]) by {
                assert(is_submask(t.suit_masks[i], u.suit_masks[i]));
                assert(is_submask(u.suit_masks[i], s.suit_masks[i]));
                lemma_submask_trans(t.suit_masks[i], u.suit_masks[i], s.suit_masks[i]);
            }
        }
        t
    }
}

/// A set of five to seven cards (hole cards and board) scores as its best
/// five cards: no five of its cards score higher than the set, and some five
/// of them score exactly as much. With the five-card showdown law, the
/// better set at a showdown is the one whose best five cards win.
pub proof fn law_best_five(cs: CardSet)
    requires
        cs.wf(),
        cs.counts_match(),
        5 <= cs.card_count() <= 7,
    ensures
        forall|t: CardSet| #[trigger] t.is_five_cards() && t.is_subset_of(cs) ==> t.score_spec() <= cs.score_spec(),
        exists|t: CardSet| #[trigger] t.is_five_cards() && t.is_subset_of(cs) && t.score_spec() == cs.score_spec(),
{
    assert forall|t: CardSet| #[trigger] t.is_five_cards() && t.is_subset_of(cs) implies t.score_spec()
        <= cs.score_spec() by {
        lemma_subset_scores_no_higher(t, cs);
    }
    let t = lemma_best_five_exists(cs);
    assert(t.is_five_cards() && t.is_subset_of(cs) && t.score_spec() == cs.score_spec());
}

/// Five to seven distinct cards added one by one to the empty set score as
/// the best five of them.
pub proof fn law_distinct_cards_score_best_five(start: CardSet, d: Seq<Card>)
    requires
        forall|s: int| 0 <= s < 4 ==> start.suit_masks[s] == 0,
        forall|r: int| 0 <= r < 13 ==> start.rank_counts[r] == 0,
        5 <= d.len() <= 7,
        forall|i: int, j: int| 0 <= i < j < d.len() ==> d[i] != d[j],
    ensures
        forall|t: CardSet| #[trigger] t.is_five_cards() && t.is_subset_of(board_after(start, d)) ==> t.score_spec()
            <= board_after(start, d).score_spec(),
        exists|t: CardSet| #[trigger] t.is_five_cards() && t.is_subset_of(board_after(start, d)) && t.score_spec()
            == board_after(start, d).score_spec(),
{
    lemma_built_hand(start, d);
    law_best_five(board_after(start, d));
}


/// At a showdown of sets of five to seven cards, `a` scores higher than `b`
/// exactly when some five cards of `a` beat, by the rules of poker, every
/// five cards of `b`.
pub proof fn law_showdown_by_best_five(a: CardSet, b: CardSet)
    requires
        a.wf(),
        a.counts_match(),
        5 <= a.card_count() <= 7,
        b.wf(),
        b.counts_match(),
        5 <= b.card_count() <= 7,
    ensures
        (a.score_spec() > b.score_spec()) == exists|ta: CardSet|
            #![trigger ta.is_subset_of(a)]
            ta.is_five_cards() && ta.is_subset_of(a) && forall|tb: CardSet|
                #![trigger tb.is_subset_of(b)]
                tb.is_five_cards() && tb.is_subset_of(b) ==> ta.beats(tb),
{
    let ta = lemma_best_five_exists(a);
    let tb = lemma_best_five_exists(b);
    if a.score_spec() > b.score_spec() {
        assert forall|u: CardSet| #![trigger u.is_subset_of(b)] u.is_five_cards() && u.is_subset_of(b) implies ta.beats(u) by {
            lemma_subset_scores_no_higher(u, b);
            law_five_card_showdown(ta, u);
        }
    }
    if exists|x: CardSet|
        #![trigger x.is_subset_of(a)]
        x.is_five_cards() && x.is_subset_of(a) && forall|u: CardSet|
            #![trigger u.is_subset_of(b)]
            u.is_five_cards() && u.is_subset_of(b) ==> x.beats(u) {
        let x = choose|x: CardSet|
            #![trigger x.is_subset_of(a)]
            x.is_five_cards() && x.is_subset_of(a) && forall|u: CardSet|
                #![trigger u.is_subset_of(b)]
                u.is_five_cards() && u.is_subset_of(b) ==> x.beats(u);
        assert(tb.is_subset_of(b));
        assert(x.beats(tb));
        law_five_card_showdown(x, tb);
        lemma_subset_scores_no_higher(x, a);
    }
}

} // verus!
