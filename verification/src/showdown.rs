//! Five-card showdowns: the score orders hands exactly as poker ranks them,
//! by class, then by the ranks of their groups of cards and their kickers.

use vstd::prelude::*;
use crate::bits::{pop, is_top_n, lemma_top_n_is, top_n, is_submask, low_bit};
use crate::cardset::{
    CardSet, straight_high, without, is_rank_stats, rank_stats, FIRST_SCORE, SECOND_SCORE, SF_SCORE,
    QUADS_SCORE, FH_SCORE, FLUSH_SCORE, STRAIGHT_SCORE, THREE_OF_KIND_SCORE, TWO_PAIR_SCORE, PAIR_SCORE,
};
use crate::ranking::{class_floor, lemma_class_by_stats, lemma_flush_suit, lemma_sf_suit, lemma_straight_height, lemma_score_in_class};
use crate::cardset::lemma_without_small;
use crate::game::Card;
use crate::state::board_after;

verus! {

/// The ranks `r <= i` for which `p` holds, highest first.
pub open spec fn ranks_where(p: spec_fn(int) -> bool, i: int) -> Seq<int>
    decreases i + 1,
{
    if i < 0 {
        Seq::empty()
    } else if p(i) {
        seq![i] + ranks_where(p, i - 1)
    } else {
        ranks_where(p, i - 1)
    }
}

/// `a` beats `b` in the order of poker tie-breaks: it is larger at the first
/// place where they differ, or `b` ran out first.
pub open spec fn seq_beats(a: Seq<int>, b: Seq<int>) -> bool
    decreases a.len(),
{
    if a.len() == 0 {
        false
    } else if b.len() == 0 {
        true
    } else if a[0] != b[0] {
        a[0] > b[0]
    } else {
        seq_beats(a.drop_first(), b.drop_first())
    }
}

/// Rank `r` is in the mask `m`.
pub open spec fn has_rank(m: u16, r: int) -> bool {
    (m >> (r as u16)) & 1 == 1
}

/// The ranks of the mask `m`, highest first.
pub open spec fn mask_ranks(m: u16) -> Seq<int> {
    ranks_where(|r: int| has_rank(m, r), 12)
}

proof fn lemma_ranks_where_facts(p: spec_fn(int) -> bool, i: int)
    ensures
        forall|k: int|
            0 <= k < ranks_where(p, i).len() ==> 0 <= #[trigger] ranks_where(p, i)[k] <= i && p(
                ranks_where(p, i)[k],
            ),
        ranks_where(p, i).len() <= i + 1 || i < 0,
    decreases i + 1,
{
    if i >= 0 {
        lemma_ranks_where_facts(p, i - 1);
    }
}

proof fn lemma_ranks_where_none(p: spec_fn(int) -> bool, i: int)
    requires
        forall|r: int| 0 <= r <= i ==> !#[trigger] p(r),
    ensures
        ranks_where(p, i) == Seq::<int>::empty(),
    decreases i + 1,
{
    if i >= 0 {
        lemma_ranks_where_none(p, i - 1);
    }
}

/// The bits of `x` at and below `i`, as a number.
pub open spec fn low_bits(x: u16, i: int) -> int {
    if i < 0 {
        0
    } else {
        (x & (((1u16 << ((i + 1) as u16)) - 1) as u16)) as int
    }
}

proof fn lemma_low_bits_step(x: u16, i: int)
    requires
        0 <= i <= 12,
    ensures
        low_bits(x, i) == (if has_rank(x, i) { (1u16 << (i as u16)) as int } else { 0 }) + low_bits(x, i - 1),
        0 <= low_bits(x, i - 1) < (1u16 << (i as u16)) as int,
        (1u16 << (i as u16)) as int >= 1,
{
    let k = i as u16;
    assert(k <= 12 ==> (x & (((1u16 << (k + 1)) - 1) as u16)) == (x & (1u16 << k)) + (x & (((1u16 << k)
        - 1) as u16))) by (bit_vector);
    assert(k <= 12 ==> ((x >> k) & 1 == 1) == (x & (1u16 << k) == 1u16 << k)) by (bit_vector);
    assert(k <= 12 ==> ((x >> k) & 1 != 1) == (x & (1u16 << k) == 0)) by (bit_vector);
    assert(k <= 12 ==> (x & (((1u16 << k) - 1) as u16)) < (1u16 << k)) by (bit_vector);
    assert(k <= 12 ==> (1u16 << k) >= 1) by (bit_vector);
    if i == 0 {
        assert(x & (((1u16 << 0u16) - 1) as u16) == 0) by (bit_vector);
    }
}

proof fn lemma_low_bits_all(x: u16)
    requires
        x < 0x2000,
    ensures
        low_bits(x, 12) == x,
{
    assert(x < 0x2000 ==> x & (((1u16 << 13u16) - 1) as u16) == x) by (bit_vector);
}

/// Tie-break order of two rank lists whose heads agree.
proof fn lemma_beats_cons(h: int, a: Seq<int>, b: Seq<int>)
    ensures
        seq_beats(seq![h] + a, seq![h] + b) == seq_beats(a, b),
        (seq![h] + a == seq![h] + b) == (a == b),
{
    assert((seq![h] + a).drop_first() =~= a);
    assert((seq![h] + b).drop_first() =~= b);
    if seq![h] + a == seq![h] + b {
        assert(a =~= (seq![h] + a).drop_first());
    }
}

proof fn lemma_mask_order_upto(x: u16, y: u16, i: int)
    requires
        -1 <= i <= 12,
    ensures
        (low_bits(x, i) > low_bits(y, i)) == seq_beats(
            ranks_where(|r: int| has_rank(x, r), i),
            ranks_where(|r: int| has_rank(y, r), i),
        ),
        (low_bits(x, i) == low_bits(y, i)) == (ranks_where(|r: int| has_rank(x, r), i) == ranks_where(
            |r: int| has_rank(y, r),
            i,
        )),
    decreases i + 1,
{
    let px = |r: int| has_rank(x, r);
    let py = |r: int| has_rank(y, r);
    if i >= 0 {
        lemma_mask_order_upto(x, y, i - 1);
        lemma_low_bits_step(x, i);
        lemma_low_bits_step(y, i);
        lemma_ranks_where_facts(px, i - 1);
        lemma_ranks_where_facts(py, i - 1);
        let a = ranks_where(px, i - 1);
        let b = ranks_where(py, i - 1);
        if has_rank(x, i) && has_rank(y, i) {
            lemma_beats_cons(i, a, b);
        } else if has_rank(x, i) && !has_rank(y, i) {
            let sa = seq![i] + a;
            assert(sa[0] == i);
            if b.len() > 0 {
                assert(b[0] <= i - 1);
                assert(sa != b);
            } else {
                assert(sa.len() != b.len());
            }
        } else if !has_rank(x, i) && has_rank(y, i) {
            let sb = seq![i] + b;
            assert(sb[0] == i);
            if a.len() > 0 {
                assert(a[0] <= i - 1);
                assert(sb != a);
            } else {
                assert(sb.len() != a.len());
            }
        }
    }
}

/// Comparing two rank masks as numbers compares their ranks from the
/// highest down: the kicker order of poker.
pub proof fn law_mask_order_is_kicker_order(x: u16, y: u16)
    requires
        x < 0x2000,
        y < 0x2000,
    ensures
        (x > y) == seq_beats(mask_ranks(x), mask_ranks(y)),
        (x == y) == (mask_ranks(x) == mask_ranks(y)),
{
    lemma_mask_order_upto(x, y, 12);
    lemma_low_bits_all(x);
    lemma_low_bits_all(y);
}

/// The number of ranks below `k` in the mask `m`.
pub open spec fn bits_below(m: u16, k: int) -> int
    decreases k,
{
    if k <= 0 {
        0
    } else {
        bits_below(m, k - 1) + if has_rank(m, k - 1) { 1int } else { 0int }
    }
}

proof fn lemma_ranks_len(m: u16, i: int)
    requires
        -1 <= i,
    ensures
        ranks_where(|r: int| has_rank(m, r), i).len() == bits_below(m, i + 1),
    decreases i + 1,
{
    if i >= 0 {
        lemma_ranks_len(m, i - 1);
    }
}

proof fn lemma_bits_below_half(m: u16, k: int)
    requires
        0 <= k <= 15,
    ensures
        bits_below(m, k + 1) == (m % 2) as int + bits_below(m / 2, k),
    decreases k,
{
    if k == 0 {
        assert(((m >> 0u16) & 1 == 1) == (m % 2 == 1)) by (bit_vector);
        assert(m % 2 == 0 || m % 2 == 1);
        assert(has_rank(m, 0) == (m % 2 == 1));
        assert(bits_below(m, 1) == bits_below(m, 0) + if has_rank(m, 0) { 1int } else { 0int });
        assert(bits_below(m / 2, 0) == 0);
    } else {
        lemma_bits_below_half(m, k - 1);
        let ku = k as u16;
        let ju = (k - 1) as u16;
        assert(1 <= ku <= 15 && ju + 1 == ku ==> ((m >> ku) & 1 == 1) == (((m / 2) >> ju) & 1 == 1)) by (bit_vector);
        assert(has_rank(m, k) == has_rank(m / 2, k - 1));
    }
}

pub(crate) proof fn lemma_bits_below_zero(k: int)
    requires
        0 <= k <= 16,
    ensures
        bits_below(0, k) == 0,
    decreases k,
{
    if k > 0 {
        lemma_bits_below_zero(k - 1);
        let j = (k - 1) as u16;
        assert(j < 16 ==> (0u16 >> j) & 1 != 1) by (bit_vector);
    }
}

proof fn lemma_pop_bits(m: u16)
    ensures
        pop(m) == bits_below(m, 16),
    decreases m,
{
    if m == 0 {
        lemma_bits_below_zero(16);
    } else {
        lemma_pop_bits(m / 2);
        lemma_bits_below_half(m, 15);
        let h = m / 2;
        assert((h >> 15u16) & 1 != 1) by (bit_vector)
            requires
                h == m / 2,
        ;
    }
}

/// The set bits of a mask of ranks are its ranks.
proof fn lemma_pop_is_rank_count(m: u16)
    requires
        m < 0x2000,
    ensures
        pop(m) == mask_ranks(m).len(),
{
    reveal_with_fuel(bits_below, 4);
    lemma_pop_bits(m);
    lemma_ranks_len(m, 12);
    assert(m < 0x2000 ==> (m >> 13u16) & 1 != 1 && (m >> 14u16) & 1 != 1 && (m >> 15u16) & 1 != 1)
        by (bit_vector);
}

/// Total of the counts below `k`.
pub open spec fn rank_sum(rc: Seq<u8>, k: int) -> int
    decreases k,
{
    if k <= 0 {
        0
    } else {
        rank_sum(rc, k - 1) + rc[k - 1]
    }
}

/// The ranks below `k` with exactly `c` cards, highest first.
pub open spec fn counted(rc: Seq<u8>, c: int, k: int) -> Seq<int>
    decreases k,
{
    if k <= 0 {
        Seq::empty()
    } else if rc[k - 1] == c {
        seq![k - 1] + counted(rc, c, k - 1)
    } else {
        counted(rc, c, k - 1)
    }
}

proof fn lemma_counted_as_mask(rc: Seq<u8>, c: int, x: u16, k: int)
    requires
        0 <= k <= 13,
        forall|r: int| 0 <= r < k ==> (rc[r] == c) == #[trigger] has_rank(x, r),
    ensures
        counted(rc, c, k) == ranks_where(|r: int| has_rank(x, r), k - 1),
    decreases k,
{
    if k > 0 {
        lemma_counted_as_mask(rc, c, x, k - 1);
    }
}

proof fn lemma_counted_none_upto(rc: Seq<u8>, c: int, k: int)
    requires
        0 <= k <= 13,
        forall|r: int| 0 <= r < k ==> #[trigger] rc[r] != c,
    ensures
        counted(rc, c, k) == Seq::<int>::empty(),
    decreases k,
{
    if k > 0 {
        lemma_counted_none_upto(rc, c, k - 1);
    }
}

proof fn lemma_counted_one_upto(rc: Seq<u8>, c: int, k: int, a: int)
    requires
        0 <= a < k <= 13,
        forall|r: int| 0 <= r < k ==> (#[trigger] rc[r] == c) == (r == a),
    ensures
        counted(rc, c, k) == seq![a],
    decreases k,
{
    if k - 1 > a {
        lemma_counted_one_upto(rc, c, k - 1, a);
    } else {
        lemma_counted_none_upto(rc, c, k - 1);
        assert(seq![a] + Seq::<int>::empty() =~= seq![a]);
    }
}

proof fn lemma_counted_two_upto(rc: Seq<u8>, c: int, k: int, a: int, b: int)
    requires
        0 <= b < a < k <= 13,
        forall|r: int| 0 <= r < k ==> (#[trigger] rc[r] == c) == (r == a || r == b),
    ensures
        counted(rc, c, k) == seq![a, b],
    decreases k,
{
    if k - 1 > a {
        lemma_counted_two_upto(rc, c, k - 1, a, b);
    } else {
        lemma_counted_one_upto(rc, c, k - 1, b);
        assert(seq![a] + seq![b] =~= seq![a, b]);
    }
}

/// With at most four cards of a rank, the total is the sum over the ranks
/// of each count.
proof fn lemma_sum_by_count(rc: Seq<u8>, k: int)
    requires
        0 <= k <= rc.len(),
        forall|r: int| 0 <= r < k ==> #[trigger] rc[r] <= 4,
    ensures
        rank_sum(rc, k) == 4 * counted(rc, 4, k).len() + 3 * counted(rc, 3, k).len() + 2 * counted(
            rc,
            2,
            k,
        ).len() + counted(rc, 1, k).len(),
    decreases k,
{
    if k > 0 {
        lemma_sum_by_count(rc, k - 1);
    }
}

/// The total is at least the counts of any three ranks.
pub(crate) proof fn lemma_sum_at_least(rc: Seq<u8>, k: int, a: int, b: int, c: int)
    requires
        0 <= k <= rc.len(),
        a != b && b != c && a != c,
    ensures
        rank_sum(rc, k) >= (if 0 <= a < k { rc[a] as int } else { 0 }) + (if 0 <= b < k { rc[b] as int } else {
            0
        }) + (if 0 <= c < k { rc[c] as int } else { 0 }),
    decreases k,
{
    if k > 0 {
        lemma_sum_at_least(rc, k - 1, a, b, c);
    }
}

/// 1 when the mask holds the rank, else 0.
pub open spec fn bit(m: u16, r: int) -> int {
    if has_rank(m, r) { 1 } else { 0 }
}

impl CardSet {
    /// Each rank count is the number of suits that hold the rank.
    pub open spec fn counts_match(self) -> bool {
        forall|r: int|
            0 <= r < 13 ==> #[trigger] self.rank_counts[r] as int == bit(self.suit_masks[0], r) + bit(
                self.suit_masks[1],
                r,
            ) + bit(self.suit_masks[2], r) + bit(self.suit_masks[3], r)
    }

    /// A hand of five distinct cards.
    pub open spec fn is_five_cards(self) -> bool {
        &&& self.wf()
        &&& self.counts_match()
        &&& rank_sum(self.rank_counts@, 13) == 5
    }

    /// The ranks with exactly `c` cards, highest first.
    pub open spec fn ranks_counted(self, c: int) -> Seq<int> {
        counted(self.rank_counts@, c, 13)
    }

    /// What decides between hands of the same class: for a straight or a
    /// straight flush its height (the wheel is the lowest, 1); otherwise the
    /// ranks grouped by how many cards they have, larger groups first and
    /// higher ranks first within a group (so quads or trips, then pairs,
    /// then kickers).
    pub open spec fn tiebreak(self) -> Seq<int> {
        let k = self.hand_class();
        if k == 8 || k == 4 {
            seq![straight_high(self.all_ranks()).unwrap()]
        } else {
            self.ranks_counted(4) + self.ranks_counted(3) + self.ranks_counted(2) + self.ranks_counted(1)
        }
    }

    /// `self` beats `other` at showdown under the rules of poker: a better
    /// class, or the same class and a better tie-break.
    pub open spec fn beats(self, other: CardSet) -> bool {
        ||| self.hand_class() > other.hand_class()
        ||| self.hand_class() == other.hand_class() && seq_beats(self.tiebreak(), other.tiebreak())
    }
}

pub(crate) proof fn lemma_bits_of_union(a: u16, b: u16, c: u16, d: u16, r: int)
    requires
        0 <= r < 13,
    ensures
        has_rank(a | b | c | d, r) == (has_rank(a, r) || has_rank(b, r) || has_rank(c, r) || has_rank(d, r)),
{
    let ru = r as u16;
    assert(ru < 13 ==> (((a | b | c | d) >> ru) & 1 == 1) == (((a >> ru) & 1 == 1) || ((b >> ru) & 1 == 1) || ((c
        >> ru) & 1 == 1) || ((d >> ru) & 1 == 1))) by (bit_vector);
}

pub(crate) proof fn lemma_bits_of_without(m: u16, r0: int, r: int)
    requires
        0 <= r < 13,
        0 <= r0 < 13,
    ensures
        has_rank(without(m, r0), r) == (has_rank(m, r) && r != r0),
{
    let (ru, r0u) = (r as u16, r0 as u16);
    assert(ru < 13 && r0u < 13 ==> ((((m & !(1u16 << r0u)) >> ru) & 1 == 1) == (((m >> ru) & 1 == 1) && ru != r0u)))
        by (bit_vector);
}

pub(crate) proof fn lemma_no_bits_zero(m: u16)
    ensures
        forall|r: int| 0 <= r < 13 ==> !has_rank(0u16, r),
{
    assert forall|r: int| 0 <= r < 13 implies !has_rank(0u16, r) by {
        let ru = r as u16;
        assert(ru < 13 ==> (0u16 >> ru) & 1 != 1) by (bit_vector);
    }
}

pub(crate) proof fn lemma_pop_zero(m: u16)
    requires
        pop(m) == 0,
    ensures
        m == 0,
    decreases m,
{
    if m != 0 {
        lemma_pop_zero(m / 2);
    }
}

/// A mask keeps all of itself when it has no more than `n` ranks.
proof fn lemma_top_n_whole(m: u16, n: nat)
    requires
        pop(m) <= n,
    ensures
        top_n(m, n) == m,
{
    crate::bits::lemma_mask_rules(m, 0, 0, 0, 0);
    assert(is_top_n(m, n, m));
    lemma_top_n_is(m, n, m);
}

/// Counting cards by suits or by ranks gives the same total.
pub(crate) proof fn lemma_suits_sum(cs: CardSet, k: int)
    requires
        cs.counts_match(),
        0 <= k <= 13,
    ensures
        bits_below(cs.suit_masks[0], k) + bits_below(cs.suit_masks[1], k) + bits_below(cs.suit_masks[2], k)
            + bits_below(cs.suit_masks[3], k) == rank_sum(cs.rank_counts@, k),
    decreases k,
{
    if k > 0 {
        lemma_suits_sum(cs, k - 1);
        assert(cs.rank_counts@[k - 1] == cs.rank_counts[k - 1]);
    }
}

pub(crate) proof fn lemma_pop_low(m: u16)
    requires
        m < 0x2000,
    ensures
        pop(m) == bits_below(m, 13),
{
    lemma_pop_is_rank_count(m);
    lemma_ranks_len(m, 12);
}

/// In five cards, a suit with five of them holds them all.
proof fn lemma_one_suit(cs: CardSet, s: int)
    requires
        cs.is_five_cards(),
        0 <= s < 4,
        pop(cs.suit_masks[s]) >= 5,
    ensures
        cs.all_ranks() == cs.suit_masks[s],
        forall|r: int| 0 <= r < 13 ==> #[trigger] cs.rank_counts[r] as int == bit(cs.suit_masks[s], r),
        pop(cs.suit_masks[s]) == 5,
{
    let m = cs.suit_masks;
    lemma_suits_sum(cs, 13);
    lemma_pop_low(m[0]);
    lemma_pop_low(m[1]);
    lemma_pop_low(m[2]);
    lemma_pop_low(m[3]);
    assert forall|t: int| 0 <= t < 4 && t != s implies #[trigger] m[t] == 0 by {
        lemma_pop_zero(m[t]);
    }
    lemma_no_bits_zero(0);
    let (a, b, c, d) = (m[0], m[1], m[2], m[3]);
    assert(a | b | c | d == m[s]) by {
        if s == 0 {
            assert(a | 0u16 | 0u16 | 0u16 == a) by (bit_vector);
        } else if s == 1 {
            assert(0u16 | b | 0u16 | 0u16 == b) by (bit_vector);
        } else if s == 2 {
            assert(0u16 | 0u16 | c | 0u16 == c) by (bit_vector);
        } else {
            assert(0u16 | 0u16 | 0u16 | d == d) by (bit_vector);
        }
    }
}

/// The value the score gives to the leading ranks of a tie-break.
pub open spec fn lead_value(p: Seq<int>) -> int {
    if p.len() == 0 {
        0
    } else if p.len() == 1 {
        FIRST_SCORE * p[0]
    } else {
        FIRST_SCORE * p[0] + SECOND_SCORE * p[1]
    }
}

/// How many leading ranks each class puts before its kickers.
pub open spec fn lead_len(k: int) -> int {
    if k == 2 || k == 6 {
        2
    } else if k == 1 || k == 3 || k == 7 {
        1
    } else {
        0
    }
}

/// Shared facts of a five-card hand: its rank statistics, which branch of
/// the score it takes, and how ranks, counts and the mask of all ranks
/// relate.
proof fn lemma_hand_basics(cs: CardSet)
    requires
        cs.is_five_cards(),
    ensures
        cs.deck_counts(),
        cs.all_ranks() < 0x2000,
        forall|r: int| 0 <= r < 13 ==> #[trigger] has_rank(cs.all_ranks(), r) == (cs.rank_counts[r] >= 1),
        forall|r: int| 0 <= r < 13 ==> #[trigger] cs.rank_counts@[r] == cs.rank_counts[r],
        cs.rank_counts@.len() == 13,
{
    let m = cs.suit_masks;
    assert forall|r: int| 0 <= r < 13 implies #[trigger] has_rank(cs.all_ranks(), r) == (cs.rank_counts[r] >= 1) by {
        lemma_bits_of_union(m[0], m[1], m[2], m[3], r);
    }
    crate::bits::lemma_union_rules(m[0], m[1], m[2], m[3], 0, 0, 0, 0);
}

/// The ranks holding exactly `c` cards are those of mask `x`.
proof fn lemma_counted_mask(cs: CardSet, c: int, x: u16)
    requires
        cs.rank_counts@.len() == 13,
        x < 0x2000,
        forall|r: int| 0 <= r < 13 ==> (cs.rank_counts@[r] == c) == #[trigger] has_rank(x, r),
    ensures
        cs.ranks_counted(c) == mask_ranks(x),
        cs.ranks_counted(c).len() == pop(x),
{
    lemma_counted_as_mask(cs.rank_counts@, c, x, 13);
    lemma_pop_is_rank_count(x);
}

/// The score of the hand is its class floor, the value of the leading
/// ranks `p` and the kicker mask `m`, and its tie-break is `p` followed by
/// the ranks of `m`.
pub open spec fn splits_as(cs: CardSet, p: Seq<int>, m: u16) -> bool {
    &&& m < 0x2000
    &&& p.len() == lead_len(cs.hand_class())
    &&& forall|j: int| 0 <= j < p.len() ==> 0 <= #[trigger] p[j] <= 12
    &&& cs.tiebreak() == p + mask_ranks(m)
    &&& cs.score_spec() == class_floor(cs.hand_class()) + lead_value(p) + m
}

/// The rank statistics of a hand.
pub open spec fn stats(cs: CardSet) -> (int, int, int, int) {
    rank_stats(cs.rank_counts@)
}

proof fn lemma_empty_concat(a: Seq<int>)
    ensures
        Seq::<int>::empty() + a == a,
        a + Seq::<int>::empty() == a,
{
    assert(Seq::<int>::empty() + a =~= a);
    assert(a + Seq::<int>::empty() =~= a);
}

/// A high-card hand: five single ranks.
proof fn lemma_split_high(cs: CardSet) -> (r: (Seq<int>, u16))
    requires
        cs.is_five_cards(),
        !(cs.sf_suit_from(0) is Some),
        stats(cs).0 < 2,
        !(cs.flush_suit_below(4) is Some),
        !(straight_high(cs.all_ranks()) is Some),
    ensures
        splits_as(cs, r.0, r.1),
{
    lemma_hand_basics(cs);
    lemma_class_by_stats(cs);
    let rc = cs.rank_counts@;
    let (mx, mi, smx, si) = stats(cs);
    let all = cs.all_ranks();
    lemma_sum_by_count(rc, 13);
    lemma_counted_none_upto(rc, 4, 13);
    lemma_counted_none_upto(rc, 3, 13);
    lemma_counted_none_upto(rc, 2, 13);
    lemma_counted_mask(cs, 1, all);
    lemma_top_n_whole(all, 5);
    lemma_empty_concat(mask_ranks(all));
    (Seq::empty(), all)
}

/// A pair and three kickers.
proof fn lemma_split_pair(cs: CardSet) -> (r: (Seq<int>, u16))
    requires
        cs.is_five_cards(),
        !(cs.sf_suit_from(0) is Some),
        stats(cs).0 == 2,
        stats(cs).2 < 2,
        !(cs.flush_suit_below(4) is Some),
        !(straight_high(cs.all_ranks()) is Some),
    ensures
        splits_as(cs, r.0, r.1),
{
    lemma_hand_basics(cs);
    lemma_class_by_stats(cs);
    let rc = cs.rank_counts@;
    let (mx, mi, smx, si) = stats(cs);
    let all = cs.all_ranks();
    let m = without(all, mi);
    lemma_without_small(all, mi);
    assert forall|r: int| 0 <= r < 13 implies (rc[r] == 1) == #[trigger] has_rank(m, r) by {
        lemma_bits_of_without(all, mi, r);
    }
    lemma_sum_by_count(rc, 13);
    lemma_counted_none_upto(rc, 4, 13);
    lemma_counted_none_upto(rc, 3, 13);
    lemma_counted_one_upto(rc, 2, 13, mi);
    lemma_counted_mask(cs, 1, m);
    lemma_top_n_whole(m, 3);
    let p = seq![mi];
    lemma_empty_concat(seq![mi]);
    assert(cs.tiebreak() =~= p + mask_ranks(m));
    (p, m)
}

/// Two pairs and a kicker.
proof fn lemma_split_two_pair(cs: CardSet) -> (r: (Seq<int>, u16))
    requires
        cs.is_five_cards(),
        !(cs.sf_suit_from(0) is Some),
        stats(cs).0 <= 2,
        stats(cs).2 == 2,
        !(cs.flush_suit_below(4) is Some),
        !(straight_high(cs.all_ranks()) is Some),
    ensures
        splits_as(cs, r.0, r.1),
{
    lemma_hand_basics(cs);
    lemma_class_by_stats(cs);
    let rc = cs.rank_counts@;
    let (mx, mi, smx, si) = stats(cs);
    let all = cs.all_ranks();
    assert(si < mi);
    let m1 = without(all, mi);
    let m = without(m1, si);
    lemma_without_small(all, mi);
    lemma_without_small(m1, si);
    assert forall|r: int| 0 <= r < 13 implies (#[trigger] rc[r] == 2) == (r == mi || r == si) by {
        if rc[r] == 2 && r != mi && r != si {
            lemma_sum_at_least(rc, 13, mi, si, r);
        }
    }
    assert forall|r: int| 0 <= r < 13 implies (rc[r] == 1) == #[trigger] has_rank(m, r) by {
        lemma_bits_of_without(all, mi, r);
        lemma_bits_of_without(m1, si, r);
    }
    lemma_sum_by_count(rc, 13);
    lemma_counted_none_upto(rc, 4, 13);
    lemma_counted_none_upto(rc, 3, 13);
    lemma_counted_two_upto(rc, 2, 13, mi, si);
    lemma_counted_mask(cs, 1, m);
    lemma_top_n_whole(m, 1);
    let p = seq![mi, si];
    lemma_empty_concat(p);
    assert(cs.tiebreak() =~= p + mask_ranks(m));
    (p, m)
}

/// Three of a kind and two kickers.
proof fn lemma_split_trips(cs: CardSet) -> (r: (Seq<int>, u16))
    requires
        cs.is_five_cards(),
        !(cs.sf_suit_from(0) is Some),
        stats(cs).0 == 3,
        stats(cs).2 < 2,
        !(cs.flush_suit_below(4) is Some),
        !(straight_high(cs.all_ranks()) is Some),
    ensures
        splits_as(cs, r.0, r.1),
{
    lemma_hand_basics(cs);
    lemma_class_by_stats(cs);
    let rc = cs.rank_counts@;
    let (mx, mi, smx, si) = stats(cs);
    let all = cs.all_ranks();
    let m = without(all, mi);
    lemma_without_small(all, mi);
    assert forall|r: int| 0 <= r < 13 implies (rc[r] == 1) == #[trigger] has_rank(m, r) by {
        lemma_bits_of_without(all, mi, r);
    }
    lemma_sum_by_count(rc, 13);
    lemma_counted_none_upto(rc, 4, 13);
    lemma_counted_one_upto(rc, 3, 13, mi);
    lemma_counted_none_upto(rc, 2, 13);
    lemma_counted_mask(cs, 1, m);
    lemma_top_n_whole(m, 2);
    let p = seq![mi];
    lemma_empty_concat(p);
    assert(cs.tiebreak() =~= p + mask_ranks(m));
    (p, m)
}

/// A flush: five ranks of one suit.
proof fn lemma_split_flush(cs: CardSet) -> (r: (Seq<int>, u16))
    requires
        cs.is_five_cards(),
        !(cs.sf_suit_from(0) is Some),
        stats(cs).0 != 4,
        !(stats(cs).0 == 3 && stats(cs).2 >= 2),
        cs.flush_suit_below(4) is Some,
    ensures
        splits_as(cs, r.0, r.1),
{
    lemma_hand_basics(cs);
    lemma_class_by_stats(cs);
    lemma_flush_suit(cs);
    let rc = cs.rank_counts@;
    let s = cs.flush_suit_below(4).unwrap();
    lemma_one_suit(cs, s);
    let all = cs.all_ranks();
    lemma_sum_by_count(rc, 13);
    lemma_counted_none_upto(rc, 4, 13);
    lemma_counted_none_upto(rc, 3, 13);
    lemma_counted_none_upto(rc, 2, 13);
    lemma_counted_mask(cs, 1, all);
    lemma_top_n_whole(all, 5);
    lemma_empty_concat(mask_ranks(all));
    (Seq::empty(), all)
}

/// A full house: three of one rank and two of another.
proof fn lemma_split_full_house(cs: CardSet) -> (r: (Seq<int>, u16))
    requires
        cs.is_five_cards(),
        !(cs.sf_suit_from(0) is Some),
        stats(cs).0 == 3,
        stats(cs).2 >= 2,
    ensures
        splits_as(cs, r.0, r.1),
{
    lemma_hand_basics(cs);
    lemma_class_by_stats(cs);
    let rc = cs.rank_counts@;
    let (mx, mi, smx, si) = stats(cs);
    let t = if mi != 0 && si != 0 { 0int } else if mi != 1 && si != 1 { 1int } else { 2int };
    lemma_sum_at_least(rc, 13, mi, si, t);
    assert forall|r: int| 0 <= r < 13 implies (#[trigger] rc[r] == 3) == (r == mi) by {
        if rc[r] == 3 && r != mi {
            lemma_sum_at_least(rc, 13, mi, si, r);
        }
    }
    assert forall|r: int| 0 <= r < 13 implies (#[trigger] rc[r] == 2) == (r == si) by {
        if rc[r] == 2 && r != si {
            lemma_sum_at_least(rc, 13, mi, si, r);
        }
    }
    assert forall|r: int| 0 <= r < 13 implies #[trigger] rc[r] != 1 by {
        if rc[r] == 1 {
            lemma_sum_at_least(rc, 13, mi, si, r);
        }
    }
    lemma_counted_none_upto(rc, 4, 13);
    lemma_counted_one_upto(rc, 3, 13, mi);
    lemma_counted_one_upto(rc, 2, 13, si);
    lemma_counted_none_upto(rc, 1, 13);
    lemma_no_bits_zero(0);
    lemma_ranks_where_none(|r: int| has_rank(0u16, r), 12);
    let p = seq![mi, si];
    lemma_empty_concat(p);
    assert(mask_ranks(0u16) == Seq::<int>::empty());
    assert(cs.tiebreak() =~= p + mask_ranks(0u16));
    (p, 0u16)
}

/// Four of a kind and a kicker.
proof fn lemma_split_quads(cs: CardSet) -> (r: (Seq<int>, u16))
    requires
        cs.is_five_cards(),
        !(cs.sf_suit_from(0) is Some),
        stats(cs).0 == 4,
    ensures
        splits_as(cs, r.0, r.1),
{
    lemma_hand_basics(cs);
    lemma_class_by_stats(cs);
    let rc = cs.rank_counts@;
    let (mx, mi, smx, si) = stats(cs);
    let all = cs.all_ranks();
    let m = without(all, mi);
    lemma_without_small(all, mi);
    let t = if mi != 0 && si != 0 { 0int } else if mi != 1 && si != 1 { 1int } else { 2int };
    assert forall|r: int| 0 <= r < 13 && r != mi implies #[trigger] rc[r] <= 1 by {
        let u = if mi != 0 && r != 0 { 0int } else if mi != 1 && r != 1 { 1int } else { 2int };
        lemma_sum_at_least(rc, 13, mi, r, u);
    }
    assert forall|r: int| 0 <= r < 13 implies (rc[r] == 1) == #[trigger] has_rank(m, r) by {
        lemma_bits_of_without(all, mi, r);
    }
    lemma_sum_by_count(rc, 13);
    lemma_counted_one_upto(rc, 4, 13, mi);
    lemma_counted_none_upto(rc, 3, 13);
    lemma_counted_none_upto(rc, 2, 13);
    lemma_counted_mask(cs, 1, m);
    lemma_top_n_whole(m, 1);
    let p = seq![mi];
    lemma_empty_concat(p);
    assert(cs.tiebreak() =~= p + mask_ranks(m));
    (p, m)
}

/// Straights and straight flushes score by their height, which is their
/// tie-break.
proof fn lemma_straight_score(cs: CardSet)
    requires
        cs.is_five_cards(),
        cs.hand_class() == 4 || cs.hand_class() == 8,
    ensures
        straight_high(cs.all_ranks()) is Some,
        1 <= straight_high(cs.all_ranks()).unwrap() <= 10,
        cs.tiebreak() == seq![straight_high(cs.all_ranks()).unwrap()],
        cs.score_spec() == class_floor(cs.hand_class()) + straight_high(cs.all_ranks()).unwrap(),
{
    lemma_hand_basics(cs);
    lemma_class_by_stats(cs);
    lemma_sf_suit(cs);
    lemma_straight_height(cs.all_ranks(), 0);
    if let Some(s) = cs.sf_suit_from(0) {
        crate::ranking::lemma_straight_pop(cs, s);
        lemma_one_suit(cs, s);
    }
}

/// Every hand of five cards other than a straight splits into leading
/// ranks and kickers.
proof fn lemma_split(cs: CardSet) -> (r: (Seq<int>, u16))
    requires
        cs.is_five_cards(),
        cs.hand_class() != 4 && cs.hand_class() != 8,
    ensures
        splits_as(cs, r.0, r.1),
{
    lemma_hand_basics(cs);
    lemma_class_by_stats(cs);
    let (mx, mi, smx, si) = stats(cs);
    let sf = cs.sf_suit_from(0) is Some;
    let fl = cs.flush_suit_below(4) is Some;
    let st = straight_high(cs.all_ranks()) is Some;
    if mx == 4 {
        lemma_split_quads(cs)
    } else if mx == 3 && smx >= 2 {
        lemma_split_full_house(cs)
    } else if fl {
        lemma_split_flush(cs)
    } else if mx == 3 {
        lemma_split_trips(cs)
    } else if smx == 2 {
        lemma_split_two_pair(cs)
    } else if mx == 2 {
        lemma_split_pair(cs)
    } else {
        lemma_split_high(cs)
    }
}

/// The score order within a class is the tie-break order.
proof fn lemma_lead_order(pa: Seq<int>, ma: u16, pb: Seq<int>, mb: u16)
    requires
        pa.len() == pb.len() <= 2,
        forall|j: int| 0 <= j < pa.len() ==> 0 <= #[trigger] pa[j] <= 12,
        forall|j: int| 0 <= j < pb.len() ==> 0 <= #[trigger] pb[j] <= 12,
        ma < 0x2000,
        mb < 0x2000,
    ensures
        (lead_value(pa) + ma > lead_value(pb) + mb) == seq_beats(pa + mask_ranks(ma), pb + mask_ranks(mb)),
        (lead_value(pa) + ma == lead_value(pb) + mb) == (pa + mask_ranks(ma) == pb + mask_ranks(mb)),
{
    law_mask_order_is_kicker_order(ma, mb);
    let (ka, kb) = (mask_ranks(ma), mask_ranks(mb));
    if pa.len() == 0 {
        assert(pa + ka =~= ka);
        assert(pb + kb =~= kb);
    } else if pa.len() == 1 {
        let (x, y) = (pa[0], pb[0]);
        assert(pa + ka =~= seq![x] + ka);
        assert(pb + kb =~= seq![y] + kb);
        if x == y {
            lemma_beats_cons(x, ka, kb);
        } else {
            assert((seq![x] + ka)[0] == x && (seq![y] + kb)[0] == y);
            assert(FIRST_SCORE * x + ma > FIRST_SCORE * y + mb <==> x > y) by (nonlinear_arith)
                requires
                    0 <= x <= 12,
                    0 <= y <= 12,
                    x != y,
                    ma < 0x2000,
                    mb < 0x2000,
                    FIRST_SCORE == 10_000_000,
            ;
            assert(FIRST_SCORE * x + ma != FIRST_SCORE * y + mb) by (nonlinear_arith)
                requires
                    0 <= x <= 12,
                    0 <= y <= 12,
                    x != y,
                    ma < 0x2000,
                    mb < 0x2000,
                    FIRST_SCORE == 10_000_000,
            ;
        }
    } else {
        let (x1, x2, y1, y2) = (pa[0], pa[1], pb[0], pb[1]);
        assert(pa + ka =~= seq![x1] + (seq![x2] + ka));
        assert(pb + kb =~= seq![y1] + (seq![y2] + kb));
        let va = SECOND_SCORE * x2 + ma;
        let vb = SECOND_SCORE * y2 + mb;
        assert(0 <= va < FIRST_SCORE && 0 <= vb < FIRST_SCORE) by (nonlinear_arith)
            requires
                0 <= x2 <= 12,
                0 <= y2 <= 12,
                ma < 0x2000,
                mb < 0x2000,
                va == SECOND_SCORE * x2 + ma,
                vb == SECOND_SCORE * y2 + mb,
                SECOND_SCORE == 100_000,
                FIRST_SCORE == 10_000_000,
        ;
        // the second rank against the kickers
        if x2 == y2 {
            lemma_beats_cons(x2, ka, kb);
        } else {
            assert((seq![x2] + ka)[0] == x2 && (seq![y2] + kb)[0] == y2);
            assert(va > vb <==> x2 > y2) by (nonlinear_arith)
                requires
                    0 <= x2 <= 12,
                    0 <= y2 <= 12,
                    x2 != y2,
                    ma < 0x2000,
                    mb < 0x2000,
                    va == SECOND_SCORE * x2 + ma,
                    vb == SECOND_SCORE * y2 + mb,
                    SECOND_SCORE == 100_000,
            ;
            assert(va != vb) by (nonlinear_arith)
                requires
                    0 <= x2 <= 12,
                    0 <= y2 <= 12,
                    x2 != y2,
                    ma < 0x2000,
                    mb < 0x2000,
                    va == SECOND_SCORE * x2 + ma,
                    vb == SECOND_SCORE * y2 + mb,
                    SECOND_SCORE == 100_000,
            ;
        }
        // the first rank against the rest
        if x1 == y1 {
            lemma_beats_cons(x1, seq![x2] + ka, seq![y2] + kb);
        } else {
            assert((seq![x1] + (seq![x2] + ka))[0] == x1 && (seq![y1] + (seq![y2] + kb))[0] == y1);
            assert(FIRST_SCORE * x1 + va > FIRST_SCORE * y1 + vb <==> x1 > y1) by (nonlinear_arith)
                requires
                    0 <= x1 <= 12,
                    0 <= y1 <= 12,
                    x1 != y1,
                    0 <= va < FIRST_SCORE,
                    0 <= vb < FIRST_SCORE,
                    FIRST_SCORE == 10_000_000,
            ;
            assert(FIRST_SCORE * x1 + va != FIRST_SCORE * y1 + vb) by (nonlinear_arith)
                requires
                    0 <= x1 <= 12,
                    0 <= y1 <= 12,
                    x1 != y1,
                    0 <= va < FIRST_SCORE,
                    0 <= vb < FIRST_SCORE,
                    FIRST_SCORE == 10_000_000,
            ;
        }
    }
}

/// At a showdown of five-card hands, the score ranks the hands exactly as
/// poker does: the better class wins; within a class a straight or
/// straight flush wins by its height (the wheel being the lowest), and
/// any other hand by its ranks grouped by size, larger groups first and
/// higher ranks first, then its kickers from the highest down; suits never
/// break a tie, and equal scores are exactly the ties.
pub proof fn law_five_card_showdown(a: CardSet, b: CardSet)
    requires
        a.is_five_cards(),
        b.is_five_cards(),
    ensures
        (a.score_spec() > b.score_spec()) == a.beats(b),
        (a.score_spec() == b.score_spec()) == (a.hand_class() == b.hand_class() && a.tiebreak()
            == b.tiebreak()),
{
    lemma_hand_basics(a);
    lemma_hand_basics(b);
    lemma_score_in_class(a);
    lemma_score_in_class(b);
    let (ka, kb) = (a.hand_class(), b.hand_class());
    assert(0 <= ka <= 8 && 0 <= kb <= 8);
    if ka > kb {
        assert(class_floor(ka) >= class_floor(kb + 1));
    } else if kb > ka {
        assert(class_floor(kb) >= class_floor(ka + 1));
    }
    if ka == kb {
        if ka == 4 || ka == 8 {
            lemma_straight_score(a);
            lemma_straight_score(b);
            let (ha, hb) = (straight_high(a.all_ranks()).unwrap(), straight_high(b.all_ranks()).unwrap());
            assert(seq![ha].drop_first() =~= Seq::<int>::empty());
            assert(seq![hb].drop_first() =~= Seq::<int>::empty());
            if seq![ha] == seq![hb] {
                assert(seq![ha][0] == seq![hb][0]);
            }
            assert(seq![ha][0] == ha && seq![hb][0] == hb);
            assert(seq_beats(seq![ha], seq![hb]) == (ha > hb)) by {
                reveal_with_fuel(seq_beats, 2);
            }
        } else {
            let (pa, ma) = lemma_split(a);
            let (pb, mb) = lemma_split(b);
            lemma_lead_order(pa, ma, pb, mb);
        }
    }
}

pub(crate) proof fn lemma_rank_sum_update(rc: Seq<u8>, r: int, v: u8, k: int)
    requires
        0 <= r < rc.len(),
        0 <= k <= rc.len(),
    ensures
        rank_sum(rc.update(r, v), k) == rank_sum(rc, k) + if r < k { v - rc[r] } else { 0 },
    decreases k,
{
    if k > 0 {
        lemma_rank_sum_update(rc, r, v, k - 1);
    }
}

proof fn lemma_or_bit(m: u16, r: int, q: int)
    requires
        0 <= r < 13,
        0 <= q < 13,
    ensures
        has_rank(m | (1u16 << (r as u16)), q) == (has_rank(m, q) || q == r),
        m < 0x2000 ==> (m | (1u16 << (r as u16))) < 0x2000,
{
    let (ru, qu) = (r as u16, q as u16);
    assert(ru < 13 && qu < 13 ==> ((((m | (1u16 << ru)) >> qu) & 1 == 1) == (((m >> qu) & 1 == 1) || qu == ru)))
        by (bit_vector);
    assert(ru < 13 && m < 0x2000 ==> (m | (1u16 << ru)) < 0x2000) by (bit_vector);
}

/// Adding a card the set does not hold keeps the counts in step with the
/// masks and adds one card.
proof fn lemma_add_new_card(cs: CardSet, c: Card)
    requires
        cs.wf(),
        cs.counts_match(),
        !cs.has(c),
    ensures
        cs.added(c).wf(),
        cs.added(c).counts_match(),
        rank_sum(cs.added(c).rank_counts@, 13) == rank_sum(cs.rank_counts@, 13) + 1,
        forall|c2: Card| #[trigger] cs.added(c).has(c2) == (cs.has(c2) || c2 == c),
{
    let (r, s) = (c.rank.idx(), c.suit.idx());
    let n = cs.added(c);
    let m = cs.suit_masks[s];
    assert(cs.rank_counts[r] <= 4);
    assert forall|q: int| 0 <= q < 13 implies has_rank(n.suit_masks[s], q) == (has_rank(m, q) || q == r) by {
        lemma_or_bit(m, r, q);
    }
    lemma_or_bit(m, r, 0);
    assert(n.wf());
    assert(n.counts_match());
    assert(n.rank_counts@ == cs.rank_counts@.update(r, (cs.rank_counts[r] + 1) as u8));
    lemma_rank_sum_update(cs.rank_counts@, r, (cs.rank_counts[r] + 1) as u8, 13);
    assert forall|c2: Card| #[trigger] n.has(c2) == (cs.has(c2) || c2 == c) by {
        let (r2, s2) = (c2.rank.idx(), c2.suit.idx());
        lemma_or_bit(cs.suit_masks[s2], r, r2);
        crate::game::lemma_card_idx_injective(c, c2);
    }
}

pub(crate) proof fn lemma_built_hand(start: CardSet, d: Seq<Card>)
    requires
        forall|s: int| 0 <= s < 4 ==> start.suit_masks[s] == 0,
        forall|r: int| 0 <= r < 13 ==> start.rank_counts[r] == 0,
        forall|i: int, j: int| 0 <= i < j < d.len() ==> d[i] != d[j],
    ensures
        board_after(start, d).wf(),
        board_after(start, d).counts_match(),
        rank_sum(board_after(start, d).rank_counts@, 13) == d.len(),
        forall|c: Card| #[trigger] board_after(start, d).has(c) == d.contains(c),
    decreases d.len(),
{
    if d.len() == 0 {
        lemma_no_bits_zero(0);
        assert(rank_sum(start.rank_counts@, 13) == 0) by {
            reveal_with_fuel(rank_sum, 14);
        }
        assert forall|c: Card| #[trigger] start.has(c) == d.contains(c) by {
            assert(!has_rank(0u16, c.rank.idx()));
        }
    } else {
        let prev = d.drop_last();
        lemma_built_hand(start, prev);
        let b = board_after(start, prev);
        assert(!prev.contains(d.last()));
        lemma_add_new_card(b, d.last());
        assert forall|c: Card| #[trigger] board_after(start, d).has(c) == d.contains(c) by {
            if d.contains(c) && c != d.last() {
                let i = choose|i: int| 0 <= i < d.len() && d[i] == c;
                assert(prev[i] == c);
            }
            if prev.contains(c) {
                let i = choose|i: int| 0 <= i < prev.len() && prev[i] == c;
                assert(d[i] == c);
            }
        }
    }
}

/// Five distinct cards added one by one to the empty set make a hand of
/// five cards, to which the showdown law applies.
pub proof fn law_five_distinct_cards_make_a_hand(start: CardSet, d: Seq<Card>)
    requires
        forall|s: int| 0 <= s < 4 ==> start.suit_masks[s] == 0,
        forall|r: int| 0 <= r < 13 ==> start.rank_counts[r] == 0,
        d.len() == 5,
        forall|i: int, j: int| 0 <= i < j < d.len() ==> d[i] != d[j],
    ensures
        board_after(start, d).is_five_cards(),
{
    lemma_built_hand(start, d);
}

} // verus!
