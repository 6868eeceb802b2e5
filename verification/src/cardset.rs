//! Card sets (hole cards plus board) and their showdown score.

use vstd::prelude::*;
use crate::bits::{bit_count, top_n_ranks, pop, top_n, is_top_n, is_submask};
use crate::game::{Card, Rank, Suit, lemma_card_idx_injective, lemma_card_at};
use vstd::std_specs::cmp::PartialOrdSpecImpl;

verus! {

/// Not a 5-card hand: the union of hole cards and whatever community cards
/// there are. Scoring only needs the suit masks and the rank counts.
#[derive(PartialEq, Eq, Clone, Copy)]
pub struct CardSet {
    /// For each suit, the bit set of its ranks present (bit 0 is the deuce).
    pub suit_masks: [u16; 4],
    pub rank_counts: [u8; 13],
}

pub const SF_SCORE: i32 = 2_000_000_000;
pub const QUADS_SCORE: i32 = 1_800_000_000;
pub const FH_SCORE: i32 = 1_600_000_000;
pub const FLUSH_SCORE: i32 = 1_400_000_000;
pub const STRAIGHT_SCORE: i32 = 1_200_000_000;
pub const THREE_OF_KIND_SCORE: i32 = 1_000_000_000;
pub const TWO_PAIR_SCORE: i32 = 800_000_000;
pub const PAIR_SCORE: i32 = 600_000_000;
pub const FIRST_SCORE: i32 = 10_000_000;
pub const SECOND_SCORE: i32 = 100_000;

pub const ACE_HIGH_STRAIGHT: u16 = 0b_0001_1111_0000_0000;
pub const WHEEL_MASK: u16 = 0b0001_0000_0000_1111;

/// The ten straights, from ace-high down to the wheel.
pub open spec fn straight_mask(k: int) -> u16 {
    if k == 0 {
        0x1F00
    } else if k == 1 {
        0x0F80
    } else if k == 2 {
        0x07C0
    } else if k == 3 {
        0x03E0
    } else if k == 4 {
        0x01F0
    } else if k == 5 {
        0x00F8
    } else if k == 6 {
        0x007C
    } else if k == 7 {
        0x003E
    } else if k == 8 {
        0x001F
    } else {
        WHEEL_MASK
    }
}

/// `m` holds every rank of `s`.
pub open spec fn holds(m: u16, s: u16) -> bool {
    m & s == s
}

/// Searching the straights from the `k`-th one down, the height of the first
/// one that `m` holds (ace-high is 10, the wheel is 1).
pub open spec fn straight_from(m: u16, k: int) -> Option<int>
    decreases 10 - k,
{
    if k >= 10 || k < 0 {
        None
    } else if holds(m, straight_mask(k)) {
        Some(10 - k)
    } else {
        straight_from(m, k + 1)
    }
}

/// Height of the best straight among the ranks `m`, if there is one.
pub open spec fn straight_high(m: u16) -> Option<int> {
    straight_from(m, 0)
}

/// `m` with the bit of rank `r` cleared.
pub open spec fn without(m: u16, r: int) -> u16 {
    m & !(1u16 << (r as u16))
}

/// `mi`/`mx` are the rank with the largest count and that count, and
/// `si`/`smx` those among the other ranks; ties go to the higher rank.
pub open spec fn is_rank_stats(rc: Seq<u8>, mx: int, mi: int, smx: int, si: int) -> bool {
    &&& 0 <= mi < 13
    &&& rc[mi] == mx
    &&& forall|i: int| 0 <= i < 13 ==> rc[i] <= mx
    &&& forall|i: int| mi < i < 13 ==> rc[i] < mx
    &&& 0 <= si < 13
    &&& si != mi
    &&& rc[si] == smx
    &&& forall|i: int| 0 <= i < 13 && i != mi ==> rc[i] <= smx
    &&& forall|i: int| si < i < 13 && i != mi ==> rc[i] < smx
}

pub open spec fn rank_stats(rc: Seq<u8>) -> (int, int, int, int) {
    choose|mx: int, mi: int, smx: int, si: int| is_rank_stats(rc, mx, mi, smx, si)
}

/// The statistics are unique.
pub proof fn lemma_rank_stats_is(rc: Seq<u8>, mx: int, mi: int, smx: int, si: int)
    requires
        is_rank_stats(rc, mx, mi, smx, si),
    ensures
        rank_stats(rc) == (mx, mi, smx, si),
{
    let t = rank_stats(rc);
    assert(is_rank_stats(rc, t.0, t.1, t.2, t.3));
    assert(t.0 == mx);
    if t.1 < mi {
        assert(rc[mi] < t.0);
    }
    if mi < t.1 {
        assert(rc[t.1] < mx);
    }
    assert(t.1 == mi);
    assert(t.2 <= smx && smx <= t.2);
    if t.3 < si {
        assert(rc[si] < t.2);
    }
    if si < t.3 {
        assert(rc[t.3] < smx);
    }
}

/// The rank statistics of the first `k` ranks, as the scan that computes
/// them leaves them.
pub open spec fn is_prefix_stats(rc: Seq<u8>, k: int, mx: int, mi: int, smx: int, si: int) -> bool {
    &&& k == 0 ==> mx == 0 && mi == 0 && smx == 0 && si == 0
    &&& k >= 1 ==> {
        &&& 0 <= mi < k
        &&& rc[mi] == mx
        &&& forall|i: int| 0 <= i < k ==> rc[i] <= mx
        &&& forall|i: int| mi < i < k ==> rc[i] < mx
    }
    &&& k == 1 ==> smx == 0 && si == 0
    &&& k >= 2 ==> {
        &&& 0 <= si < k
        &&& si != mi
        &&& rc[si] == smx
        &&& forall|i: int| 0 <= i < k && i != mi ==> rc[i] <= smx
        &&& forall|i: int| si < i < k && i != mi ==> rc[i] < smx
    }
}

impl CardSet {
    /// The empty card set.
    pub fn blank() -> (c: CardSet)
        ensures
            forall|s: int| 0 <= s < 4 ==> c.suit_masks[s] == 0,
            forall|r: int| 0 <= r < 13 ==> c.rank_counts[r] == 0,
            c.wf(),
    {
        CardSet { suit_masks: [0u16; 4], rank_counts: [0u8; 13] }
    }

    /// Every suit mask stays inside the thirteen rank bits.
    pub open spec fn wf(self) -> bool {
        forall|s: int| 0 <= s < 4 ==> self.suit_masks[s] < 0x2000
    }

    /// The set holds card `c`.
    pub open spec fn has(self, c: Card) -> bool {
        (self.suit_masks[c.suit.idx()] >> (c.rank.idx() as u16)) & 1 == 1
    }

    /// The ranks present in any suit.
    pub open spec fn all_ranks(self) -> u16 {
        self.suit_masks[0] | self.suit_masks[1] | self.suit_masks[2] | self.suit_masks[3]
    }

    /// `c` may be added without a rank count overflowing.
    pub open spec fn can_add(self, c: Card) -> bool {
        self.rank_counts[c.rank.idx()] < 255
    }

    /// The set with card `c` added.
    pub open spec fn added(self, c: Card) -> CardSet {
        CardSet {
            suit_masks: vstd::array::spec_array_update(
                self.suit_masks,
                c.suit.idx(),
                self.suit_masks[c.suit.idx()] | (1u16 << (c.rank.idx() as u16)),
            ),
            rank_counts: vstd::array::spec_array_update(
                self.rank_counts,
                c.rank.idx(),
                (self.rank_counts[c.rank.idx()] + 1) as u8,
            ),
        }
    }

    /// Adds card `c`: its rank bit is set in its suit and its rank counted once more.
    pub fn update_with(&mut self, c: Card)
        requires
            old(self).can_add(c),
        ensures
            *final(self) == old(self).added(c),
            final(self).suit_masks@ == old(self).suit_masks@.update(
                c.suit.idx(),
                old(self).suit_masks[c.suit.idx()] | (1u16 << (c.rank.idx() as u16)),
            ),
            final(self).rank_counts@ == old(self).rank_counts@.update(
                c.rank.idx(),
                (old(self).rank_counts[c.rank.idx()] + 1) as u8,
            ),
            old(self).wf() ==> final(self).wf(),
            final(self).has(c),
    {
        let s = c.suit.index();
        let r = c.rank.index();
        let m = self.suit_masks[s];
        proof {
            let ru = r as u16;
            assert(m < 0x2000 ==> (m | (1u16 << ru)) < 0x2000) by (bit_vector)
                requires ru < 13;
            assert(((m | (1u16 << ru)) >> ru) & 1 == 1) by (bit_vector)
                requires ru < 13;
        }
        self.suit_masks[s] = m | (1u16 << (r as u16));
        self.rank_counts[r] = self.rank_counts[r] + 1;
        proof {
            let a = old(self).added(c);
            vstd::array::axiom_spec_array_update(old(self).suit_masks, s as int, m | (1u16 << (r as u16)));
            vstd::array::axiom_spec_array_update(old(self).rank_counts, r as int, (old(self).rank_counts[r as int] + 1) as u8);
            assert(self.suit_masks =~= a.suit_masks);
            assert(self.rank_counts =~= a.rank_counts);
        }
    }

    /// All 52 cards as one bit set: card number `i` is bit `i`.
    pub open spec fn card_bits(self) -> u64 {
        (self.suit_masks[3] as u64) << 39u64 | (self.suit_masks[2] as u64) << 26u64
            | (self.suit_masks[1] as u64) << 13u64 | self.suit_masks[0] as u64
    }

    /// The cards of the set, in card-number order.
    pub fn get_cards(&self) -> (res: Vec<Card>)
        ensures
            forall|k: int| 0 <= k < res.len() ==> self.card_bits() & #[trigger] res[k].mask() != 0,
            forall|j: int, k: int| 0 <= j < k < res.len() ==> res[j].idx() < res[k].idx(),
            forall|c: Card| self.card_bits() & c.mask() != 0 ==> res@.contains(c),
            self.wf() ==> forall|c: Card| #[trigger] res@.contains(c) <==> self.has(c),
    {
        let m = (self.suit_masks[3] as u64) << 39u64 | (self.suit_masks[2] as u64) << 26u64
            | (self.suit_masks[1] as u64) << 13u64 | self.suit_masks[0] as u64;
        let mut res: Vec<Card> = Vec::new();
        let mut i: usize = 0;
        while i < 52
            invariant
                i <= 52,
                m == self.card_bits(),
                forall|k: int| 0 <= k < res.len() ==> m & #[trigger] res[k].mask() != 0,
                forall|k: int| 0 <= k < res.len() ==> #[trigger] res[k].idx() < i,
                forall|j: int, k: int| 0 <= j < k < res.len() ==> res[j].idx() < res[k].idx(),
                forall|c: Card| c.idx() < i && m & c.mask() != 0 ==> res@.contains(c),
            decreases 52 - i,
        {
            let c = Card::from_index(i);
            if m & c.card_mask() > 0 {
                let ghost before = res@;
                res.push(c);
                proof {
                    assert(res[res.len() - 1] == c);
                    assert forall|d: Card| d.idx() < i + 1 && m & d.mask() != 0 implies res@.contains(d) by {
                        lemma_card_idx_injective(c, d);
                        if d.idx() == i {
                            assert(res[res.len() - 1] == d);
                        } else {
                            assert(before.contains(d));
                            let k = choose|k: int| 0 <= k < before.len() && before[k] == d;
                            assert(res[k] == d);
                        }
                    }
                }
            } else {
                proof {
                    assert forall|d: Card| d.idx() < i + 1 && m & d.mask() != 0 implies res@.contains(d) by {
                        lemma_card_idx_injective(c, d);
                    }
                }
            }
            i = i + 1;
        }
        proof {
            assert forall|c: Card| m & c.mask() != 0 implies res@.contains(c) by {
                lemma_card_idx_injective(c, c);
            }
            if self.wf() {
                assert forall|c: Card| #[trigger] res@.contains(c) <==> self.has(c) by {
                    lemma_card_idx_injective(c, c);
                    lemma_card_bit(*self, c);
                    if res@.contains(c) {
                        let k = choose|k: int| 0 <= k < res.len() && res[k] == c;
                        assert(m & res[k].mask() != 0);
                    }
                }
            }
        }
        res
    }

    /// Showdown comparison with another card set: by score.
    pub fn compare(&self, other: &CardSet) -> (o: std::cmp::Ordering)
        requires
            self.wf(),
            other.wf(),
        ensures
            (o == std::cmp::Ordering::Less) == (self.score_spec() < other.score_spec()),
            (o == std::cmp::Ordering::Equal) == (self.score_spec() == other.score_spec()),
            (o == std::cmp::Ordering::Greater) == (self.score_spec() > other.score_spec()),
    {
        let x = self.score();
        let y = other.score();
        if x < y {
            std::cmp::Ordering::Less
        } else if x == y {
            std::cmp::Ordering::Equal
        } else {
            std::cmp::Ordering::Greater
        }
    }

    /// Whether every suit mask holds only the thirteen rank bits (`wf`).
    pub fn is_wf(&self) -> (b: bool)
        ensures
            b == self.wf(),
    {
        self.suit_masks[0] < 0x2000 && self.suit_masks[1] < 0x2000 && self.suit_masks[2] < 0x2000
            && self.suit_masks[3] < 0x2000
    }

    /// The ten straight masks, from ace-high down to the wheel.
    pub fn straight_masks() -> (res: [u16; 10])
        ensures
            forall|k: int| 0 <= k < 10 ==> res[k] == straight_mask(k),
    {
        let mut res = [0u16; 10];
        let mut m = ACE_HIGH_STRAIGHT;
        let mut idx: usize = 0;
        proof {
            lemma_straight_pops();
        }
        while bit_count(m) >= 5
            invariant
                idx <= 9,
                m == if idx < 9 { straight_mask(idx as int) } else { 0x000Fu16 },
                forall|k: int| 0 <= k < idx ==> res[k] == straight_mask(k),
                forall|k: int| 0 <= k <= 8 ==> pop(#[trigger] straight_mask(k)) == 5,
                pop(0x000Fu16) == 4,
            decreases 9 - idx,
        {
            res[idx] = m;
            proof {
                lemma_straight_shift(m);
            }
            m = m >> 1;
            idx = idx + 1;
        }
        res[9] = WHEEL_MASK;
        res
    }

    /// Height of the best straight in `mask`, searching the table `straights`.
    pub fn straight_high(mask: u16, straights: &[u16; 10]) -> (h: Option<i32>)
        requires
            forall|k: int| 0 <= k < 10 ==> straights[k] == straight_mask(k),
        ensures
            h.is_some() == straight_high(mask).is_some(),
            h.is_some() ==> h.unwrap() == straight_high(mask).unwrap(),
            h.is_some() ==> 1 <= h.unwrap() <= 10,
    {
        let mut idx: usize = 0;
        while idx < 10
            invariant
                idx <= 10,
                straight_from(mask, 0) == straight_from(mask, idx as int),
                forall|k: int| 0 <= k < 10 ==> straights[k] == straight_mask(k),
            decreases 10 - idx,
        {
            let s = straights[idx];
            if mask & s == s {
                return Some(10 - idx as i32);
            }
            idx = idx + 1;
        }
        None
    }

    /// First suit (in suit order) holding at least five cards that make a straight.
    pub open spec fn sf_suit_from(self, i: int) -> Option<int>
        decreases 4 - i,
    {
        if i >= 4 || i < 0 {
            None
        } else if pop(self.suit_masks[i]) >= 5 && straight_high(self.suit_masks[i]).is_some() {
            Some(i)
        } else {
            self.sf_suit_from(i + 1)
        }
    }

    /// Last suit below `i` (in suit order) holding at least five cards.
    pub open spec fn flush_suit_below(self, i: int) -> Option<int>
        decreases i,
    {
        if i <= 0 || i > 4 {
            None
        } else if pop(self.suit_masks[i - 1]) >= 5 {
            Some(i - 1)
        } else {
            self.flush_suit_below(i - 1)
        }
    }

    /// The showdown score: a larger score beats a smaller one and equal scores split.
    pub open spec fn score_spec(self) -> int {
        let m = self.suit_masks;
        let all = self.all_ranks();
        let (mx, mi, smx, si) = rank_stats(self.rank_counts@);
        if let Some(s) = self.sf_suit_from(0) {
            // straight flush
            SF_SCORE + straight_high(m[s]).unwrap()
        } else if mx == 4 {
            // four of a kind, one kicker
            QUADS_SCORE + FIRST_SCORE * mi + top_n(without(all, mi), 1)
        } else if mx == 3 && smx >= 2 {
            // full house
            FH_SCORE + FIRST_SCORE * mi + SECOND_SCORE * si
        } else if let Some(s) = self.flush_suit_below(4) {
            // flush: its five highest ranks
            FLUSH_SCORE + top_n(m[s], 5)
        } else if let Some(h) = straight_high(all) {
            STRAIGHT_SCORE + h
        } else if mx == 3 {
            // three of a kind, two kickers
            THREE_OF_KIND_SCORE + FIRST_SCORE * mi + top_n(without(all, mi), 2)
        } else if smx == 2 {
            // two pair, one kicker
            TWO_PAIR_SCORE + FIRST_SCORE * mi + SECOND_SCORE * si + top_n(
                without(without(all, mi), si),
                1,
            )
        } else if mx == 2 {
            // one pair, three kickers
            PAIR_SCORE + FIRST_SCORE * mi + top_n(without(all, mi), 3)
        } else {
            // high card: five highest ranks
            top_n(all, 5) as int
        }
    }

    /// Scores the set for showdown; see `score_spec`.
    pub fn score(&self) -> (s: i32)
        requires
            self.wf(),
        ensures
            s == self.score_spec(),
            s >= 0,
    {
        let straights = Self::straight_masks();
        let mut flush_score: Option<i32> = None;

        let all = self.suit_masks[0] | self.suit_masks[1] | self.suit_masks[2] | self.suit_masks[3];
        proof {
            crate::bits::lemma_union_rules(self.suit_masks[0], self.suit_masks[1], self.suit_masks[2], self.suit_masks[3], 0, 0, 0, 0);
        }

        let mut i: usize = 0;
        while i < 4
            invariant
                i <= 4,
                self.wf(),
                forall|k: int| 0 <= k < 10 ==> straights[k] == straight_mask(k),
                self.sf_suit_from(0) == self.sf_suit_from(i as int),
                flush_score == match self.flush_suit_below(i as int) {
                    Some(s) => Some((FLUSH_SCORE + top_n(self.suit_masks[s], 5)) as i32),
                    None => None::<i32>,
                },
                self.flush_suit_below(i as int) matches Some(s) ==> 0 <= s < 4,
            decreases 4 - i,
        {
            let u = self.suit_masks[i];
            if bit_count(u) >= 5 {
                let flush_mask = top_n_ranks(u, 5);
                proof {
                    lemma_submask_small(flush_mask, u);
                }
                flush_score = Some(FLUSH_SCORE + flush_mask as i32);
                if let Some(s) = Self::straight_high(u, &straights) {
                    return SF_SCORE + s;
                }
            }
            i = i + 1;
        }

        let mut mx: u8 = 0;
        let mut mx_idx: usize = 0;
        let mut smx: u8 = 0;
        let mut smx_idx: usize = 0;
        let ghost rc = self.rank_counts@;
        let mut rank_idx: usize = 0;
        while rank_idx < 13
            invariant
                rank_idx <= 13,
                rc == self.rank_counts@,
                is_prefix_stats(rc, rank_idx as int, mx as int, mx_idx as int, smx as int, smx_idx as int),
            decreases 13 - rank_idx,
        {
            let c = self.rank_counts[rank_idx];
            if c >= mx {
                smx = mx;
                smx_idx = mx_idx;
                mx = c;
                mx_idx = rank_idx;
            } else if c >= smx {
                smx = c;
                smx_idx = rank_idx;
            }
            rank_idx = rank_idx + 1;
        }
        proof {
            lemma_rank_stats_is(rc, mx as int, mx_idx as int, smx as int, smx_idx as int);
        }

        if mx == 4 {
            let rest = all & !(1u16 << (mx_idx as u16));
            let kicker = top_n_ranks(rest, 1);
            proof {
                lemma_without_small(all, mx_idx as int);
                lemma_submask_small(kicker, rest);
            }
            QUADS_SCORE + FIRST_SCORE * mx_idx as i32 + kicker as i32
        } else if mx == 3 && smx >= 2 {
            FH_SCORE + FIRST_SCORE * (mx_idx as i32) + SECOND_SCORE * (smx_idx as i32)
        } else if let Some(s) = flush_score {
            s
        } else if let Some(s) = Self::straight_high(all, &straights) {
            STRAIGHT_SCORE + s
        } else if mx == 3 {
            let rest = all & !(1u16 << (mx_idx as u16));
            let kickers = top_n_ranks(rest, 2);
            proof {
                lemma_without_small(all, mx_idx as int);
                lemma_submask_small(kickers, rest);
            }
            THREE_OF_KIND_SCORE + FIRST_SCORE * (mx_idx as i32) + kickers as i32
        } else if smx == 2 {
            let rest = all & !(1u16 << (mx_idx as u16) | 1u16 << (smx_idx as u16));
            let kicker = top_n_ranks(rest, 1);
            proof {
                let (a, x, y) = (all, mx_idx as u16, smx_idx as u16);
                assert(a & !(1u16 << x | 1u16 << y) == (a & !(1u16 << x)) & !(1u16 << y)) by (bit_vector);
                lemma_without_small(all, mx_idx as int);
                lemma_without_small(without(all, mx_idx as int), smx_idx as int);
                lemma_submask_small(kicker, rest);
            }
            TWO_PAIR_SCORE + FIRST_SCORE * (mx_idx as i32) + SECOND_SCORE * (smx_idx as i32)
                + kicker as i32
        } else if mx == 2 {
            let rest = all & !(1u16 << (mx_idx as u16));
            let kickers = top_n_ranks(rest, 3);
            proof {
                lemma_without_small(all, mx_idx as int);
                lemma_submask_small(kickers, rest);
            }
            PAIR_SCORE + FIRST_SCORE * (mx_idx as i32) + kickers as i32
        } else {
            let kickers = top_n_ranks(all, 5);
            proof {
                lemma_submask_small(kickers, all);
            }
            kickers as i32
        }
    }
}

/// In a well-formed set, the card's bit in `card_bits` is its rank bit in its suit.
pub proof fn lemma_card_bit(cs: CardSet, c: Card)
    requires
        cs.wf(),
    ensures
        (cs.card_bits() & c.mask() != 0) == cs.has(c),
{
    let (a, b, d, e) = (cs.suit_masks[0], cs.suit_masks[1], cs.suit_masks[2], cs.suit_masks[3]);
    let r = c.rank.idx() as u64;
    let r16 = c.rank.idx() as u16;
    assert(
        a < 0x2000 && b < 0x2000 && d < 0x2000 && e < 0x2000 && r < 13 && r16 == r ==> {
            let m = (e as u64) << 39u64 | (d as u64) << 26u64 | (b as u64) << 13u64 | a as u64;
            &&& (m & (1u64 << r) != 0) == ((a >> r16) & 1 == 1)
            &&& (m & (1u64 << ((r + 13) as u64)) != 0) == ((b >> r16) & 1 == 1)
            &&& (m & (1u64 << ((r + 26) as u64)) != 0) == ((d >> r16) & 1 == 1)
            &&& (m & (1u64 << ((r + 39) as u64)) != 0) == ((e >> r16) & 1 == 1)
        }
    ) by (bit_vector);
}

/// Adding cards does not depend on their order: a card set is the set of
/// its cards (with rank multiplicities), not a sequence.
pub proof fn law_add_commutes(cs: CardSet, a: Card, b: Card)
    ensures
        cs.added(a).added(b) == cs.added(b).added(a),
{
    let (x, y) = (cs.added(a).added(b), cs.added(b).added(a));
    let (ma, mb) = (1u16 << (a.rank.idx() as u16), 1u16 << (b.rank.idx() as u16));
    broadcast use vstd::array::group_array_axioms;
    assert forall|m: u16, p: u16, q: u16| #![trigger (m | p) | q] (m | p) | q == (m | q) | p by {
        assert((m | p) | q == (m | q) | p) by (bit_vector);
    }
    assert(x.suit_masks =~= y.suit_masks);
    assert(x.rank_counts =~= y.rank_counts);
}

/// At most one suit holds five or more cards (always so with seven cards).
pub open spec fn one_flush_suit_at_most(cs: CardSet) -> bool {
    forall|s: int, t: int| 0 <= s < t < 4 ==> !(pop(cs.suit_masks[s]) >= 5 && pop(cs.suit_masks[t]) >= 5)
}

proof fn lemma_flush_suits(cs: CardSet)
    requires
        one_flush_suit_at_most(cs),
    ensures
        forall|s: int| 0 <= s < 4 && pop(cs.suit_masks[s]) >= 5 ==> cs.flush_suit_below(4) == Some(s)
            && cs.sf_suit_from(0) == if straight_high(cs.suit_masks[s]).is_some() { Some(s) } else { None },
        (forall|s: int| 0 <= s < 4 ==> pop(cs.suit_masks[s]) < 5) ==> cs.flush_suit_below(4) == None::<int>
            && cs.sf_suit_from(0) == None::<int>,
{
    reveal_with_fuel(CardSet::flush_suit_below, 5);
    reveal_with_fuel(CardSet::sf_suit_from, 5);
}

spec fn hits(perm: Seq<int>, u: int) -> bool {
    exists|s: int| 0 <= s < 4 && #[trigger] perm[s] == u
}

proof fn lemma_or4_comm(a: u16, b: u16, c: u16, d: u16, x: u16, y: u16, z: u16, w: u16)
    by (bit_vector)
    requires
        x & !(a | b | c | d) == 0,
        y & !(a | b | c | d) == 0,
        z & !(a | b | c | d) == 0,
        w & !(a | b | c | d) == 0,
        a & !(x | y | z | w) == 0,
        b & !(x | y | z | w) == 0,
        c & !(x | y | z | w) == 0,
        d & !(x | y | z | w) == 0,
    ensures
        (x | y | z | w) == (a | b | c | d),
{
}

proof fn lemma_in_or4(a: u16, b: u16, c: u16, d: u16)
    by (bit_vector)
    ensures
        a & !(a | b | c | d) == 0,
        b & !(a | b | c | d) == 0,
        c & !(a | b | c | d) == 0,
        d & !(a | b | c | d) == 0,
{
}

/// Suits carry no value: relabelling the suits of a card set (at most one
/// suit with five or more cards) leaves its score unchanged.
pub proof fn law_score_suit_symmetric(a: CardSet, b: CardSet, perm: Seq<int>)
    requires
        perm.len() == 4,
        forall|s: int| 0 <= s < 4 ==> 0 <= #[trigger] perm[s] < 4,
        forall|s: int, t: int| 0 <= s < t < 4 ==> perm[s] != perm[t],
        forall|s: int| 0 <= s < 4 ==> b.suit_masks[s] == a.suit_masks[#[trigger] perm[s]],
        b.rank_counts == a.rank_counts,
        one_flush_suit_at_most(a),
    ensures
        b.score_spec() == a.score_spec(),
{
    let (ma, mb) = (a.suit_masks, b.suit_masks);
    // `perm` is onto: every suit of `a` is some suit of `b`.
    assert forall|u: int| 0 <= u < 4 implies #[trigger] hits(perm, u) by {
        if !hits(perm, u) {
            let x = vstd::set_lib::set_int_range(0, 4);
            let f = |s: int| perm[s];
            vstd::set_lib::lemma_int_range(0, 4);
            assert(vstd::relations::injective_on(f, x)) by {
                assert forall|s: int, t: int| x.contains(s) && x.contains(t) && #[trigger] f(s) == #[trigger] f(t) implies s == t by {
                    if s < t { assert(perm[s] != perm[t]); } else if t < s { assert(perm[t] != perm[s]); }
                }
            }
            let y = x.map(f);
            vstd::set_lib::lemma_map_size(x, y, f);
            assert(y.subset_of(x.remove(u)));
            vstd::set_lib::lemma_len_subset(y, x.remove(u));
        }
    }
    lemma_in_or4(ma[0], ma[1], ma[2], ma[3]);
    lemma_in_or4(mb[0], mb[1], mb[2], mb[3]);
    assert forall|s: int| 0 <= s < 4 implies mb[s] & !(ma[0] | ma[1] | ma[2] | ma[3]) == 0 by {
        let u = perm[s];
        if u == 0 {} else if u == 1 {} else if u == 2 {} else {}
    }
    assert forall|u: int| 0 <= u < 4 implies ma[u] & !(mb[0] | mb[1] | mb[2] | mb[3]) == 0 by {
        assert(hits(perm, u));
        let s = choose|s: int| 0 <= s < 4 && #[trigger] perm[s] == u;
        if s == 0 {} else if s == 1 {} else if s == 2 {} else {}
    }
    lemma_or4_comm(ma[0], ma[1], ma[2], ma[3], mb[0], mb[1], mb[2], mb[3]);
    assert(b.all_ranks() == a.all_ranks());
    assert(one_flush_suit_at_most(b)) by {
        assert forall|s: int, t: int| 0 <= s < t < 4 implies !(pop(mb[s]) >= 5 && pop(mb[t]) >= 5) by {
            let (u, v) = (perm[s], perm[t]);
            if u < v {} else { assert(u != v); }
        }
    }
    lemma_flush_suits(a);
    lemma_flush_suits(b);
    if exists|u: int| 0 <= u < 4 && pop(ma[u]) >= 5 {
        let u = choose|u: int| 0 <= u < 4 && pop(ma[u]) >= 5;
        assert(hits(perm, u));
        let s = choose|s: int| 0 <= s < 4 && #[trigger] perm[s] == u;
        assert(pop(mb[s]) >= 5);
    } else {
        assert forall|s: int| 0 <= s < 4 implies pop(mb[s]) < 5 by {
            assert(0 <= perm[s] < 4);
        }
    }
}

pub(crate) proof fn lemma_straight_pops()
    ensures
        forall|k: int| 0 <= k <= 8 ==> pop(#[trigger] straight_mask(k)) == 5,
        pop(0x000Fu16) == 4,
{
    reveal_with_fuel(pop, 16);
    assert(pop(0x1F00u16) == 5);
    assert(pop(0x0F80u16) == 5);
    assert(pop(0x07C0u16) == 5);
    assert(pop(0x03E0u16) == 5);
    assert(pop(0x01F0u16) == 5);
    assert(pop(0x00F8u16) == 5);
    assert(pop(0x007Cu16) == 5);
    assert(pop(0x003Eu16) == 5);
    assert(pop(0x001Fu16) == 5);
    assert(pop(0x000Fu16) == 4);
}

proof fn lemma_straight_shift(m: u16)
    by (bit_vector)
    ensures
        m == 0x1F00 ==> m >> 1 == 0x0F80,
        m == 0x0F80 ==> m >> 1 == 0x07C0,
        m == 0x07C0 ==> m >> 1 == 0x03E0,
        m == 0x03E0 ==> m >> 1 == 0x01F0,
        m == 0x01F0 ==> m >> 1 == 0x00F8,
        m == 0x00F8 ==> m >> 1 == 0x007C,
        m == 0x007C ==> m >> 1 == 0x003E,
        m == 0x003E ==> m >> 1 == 0x001F,
        m == 0x001F ==> m >> 1 == 0x000F,
{
}

/// A submask of a mask within the thirteen rank bits is also within them.
pub proof fn lemma_submask_small(a: u16, b: u16)
    requires
        is_submask(a, b),
        b < 0x2000,
    ensures
        a < 0x2000,
        a <= b,
{
    crate::bits::lemma_mask_rules(a, b, 0, 0, 0);
}

pub proof fn lemma_without_small(m: u16, r: int)
    requires
        m < 0x2000,
        0 <= r < 13,
    ensures
        without(m, r) < 0x2000,
{
    let ru = r as u16;
    assert(m < 0x2000 ==> m & !(1u16 << ru) < 0x2000) by (bit_vector);
}

/// Showdown order of two card sets, by score; sets with bits outside the
/// thirteen ranks are not compared.
pub open spec fn showdown_order(a: CardSet, b: CardSet) -> Option<std::cmp::Ordering> {
    if a.wf() && b.wf() {
        Some(
            if a.score_spec() < b.score_spec() {
                std::cmp::Ordering::Less
            } else if a.score_spec() == b.score_spec() {
                std::cmp::Ordering::Equal
            } else {
                std::cmp::Ordering::Greater
            },
        )
    } else {
        None
    }
}

impl PartialOrd for CardSet {
    fn partial_cmp(&self, other: &CardSet) -> (r: Option<std::cmp::Ordering>) {
        if self.is_wf() && other.is_wf() {
            Some(self.compare(other))
        } else {
            None
        }
    }
}

impl PartialOrdSpecImpl for CardSet {
    open spec fn obeys_partial_cmp_spec() -> bool {
        true
    }

    open spec fn partial_cmp_spec(&self, other: &CardSet) -> Option<std::cmp::Ordering> {
        showdown_order(*self, *other)
    }
}

} // verus!
