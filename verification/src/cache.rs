//! Showdown information for one complete board, shared by every equity
//! computation on that runout.

use vstd::prelude::*;
use crate::cardset::{CardSet, law_add_commutes};
use crate::game::{Card, Hand, lemma_card_idx_injective, lemma_card_at};
use crate::sort::{sort_distinct, increasing, distinct};
use crate::state::{GameState, lemma_unseen_grows, drawn_in_turn};
use crate::rng::{XorShiftU64, SEED};

verus! {

/// Score of hole cards `a` and `b` on `board`.
pub open spec fn pair_score(board: CardSet, a: Card, b: Card) -> int {
    board.added(a).added(b).score_spec()
}

/// A hand is stored with its higher card (rank first, then suit) first.
pub open spec fn is_hand(h: Hand) -> bool {
    h.1.precedes(h.0)
}

/// Position of the hand in the order the hands are enumerated.
pub open spec fn order(h: Hand) -> int {
    h.0.idx() * 52 + h.1.idx()
}

/// Sort key of a hand: by score, then by enumeration order.
pub open spec fn key_of(board: CardSet, h: Hand) -> int {
    pair_score(board, h.0, h.1) * 4096 + order(h)
}

/// The hand contains the card numbered `c`.
pub open spec fn holds_card(h: Hand, c: int) -> bool {
    h.0.idx() == c || h.1.idx() == c
}

/// The board may take any two more cards.
pub open spec fn board_ok(board: CardSet) -> bool {
    &&& board.wf()
    &&& forall|r: int| 0 <= r < 13 ==> board.rank_counts[r] <= 253
}

/// Where `bound` splits the increasing `v`: entries before it are smaller.
pub open spec fn is_partition_point(v: Seq<usize>, bound: int, p: int) -> bool {
    &&& 0 <= p <= v.len()
    &&& forall|t: int| 0 <= t < p ==> v[t] < bound
    &&& forall|t: int| p <= t < v.len() ==> v[t] >= bound
}

pub struct ScoreCache {
    /// `scores[i * 52 + j]`: score of cards `i` and `j` with the board; none when `i == j`.
    pub scores: Vec<Option<i32>>,
    /// Every hand, by increasing score (ties in enumeration order).
    pub sorted_hands: Vec<Hand>,
    /// For each card, the increasing `sorted_hands` indices of the hands holding it.
    pub hands_by_card: Vec<Vec<usize>>,
    /// `sorted_index[i * 52 + j]`: index in `sorted_hands` of the hand of cards `i` and `j`.
    pub sorted_index: Vec<u16>,
    /// For each sorted hand, the first index of its score group.
    pub first_equal: Vec<u16>,
    /// For each sorted hand, the index just after its score group.
    pub first_greater: Vec<u16>,
    /// For each card and sorted hand: how many hands holding the card come
    /// before the hand's score group.
    pub blocked_before_equal: Vec<Vec<u8>>,
    /// For each card and sorted hand: how many hands holding the card come
    /// before the end of the hand's score group.
    pub blocked_before_greater: Vec<Vec<u8>>,
}

/// The hand a key was made from.
pub open spec fn decode(key: u64) -> Hand {
    (Card::at(((key % 4096) / 52) as int), Card::at(((key % 4096) % 52) as int))
}

/// The entry of the pair `a`, `b` has been filled once the scan reaches `pos`.
pub open spec fn filled(a: int, b: int, pos: int) -> bool {
    &&& a != b
    &&& if Card::at(b).precedes(Card::at(a)) {
        a * 52 + b < pos
    } else {
        b * 52 + a < pos
    }
}

proof fn lemma_key_decode(board: CardSet, h: Hand)
    requires
        0 <= pair_score(board, h.0, h.1) < 0x8000_0000,
    ensures
        decode(key_of(board, h) as u64) == h,
        key_of(board, h) % 4096 == order(h),
        key_of(board, h) / 4096 == pair_score(board, h.0, h.1),
        0 <= key_of(board, h) < 0x8000_0000 * 4096,
{
    lemma_card_idx_injective(h.0, h.0);
    lemma_card_idx_injective(h.1, h.1);
    let s = pair_score(board, h.0, h.1);
    let o = order(h);
    assert(0 <= o < 4096);
    assert((s * 4096 + o) % 4096 == o && (s * 4096 + o) / 4096 == s) by (nonlinear_arith)
        requires 0 <= o < 4096, s >= 0;
    assert(o / 52 == h.0.idx() && o % 52 == h.1.idx());
}

fn pair_score_exec(board: &CardSet, a: Card, b: Card) -> (s: i32)
    requires
        board_ok(*board),
    ensures
        s == pair_score(*board, a, b),
        s >= 0,
{
    let mut cs = *board;
    cs.update_with(a);
    cs.update_with(b);
    cs.score()
}

/// The score table once the scan reaches `pos`.
pub open spec fn scores_at(board: CardSet, s: Seq<Option<i32>>, pos: int) -> bool {
    &&& s.len() == 2704
    &&& forall|a: int, b: int|
        0 <= a < 52 && 0 <= b < 52 ==> #[trigger] s[a * 52 + b] == if filled(a, b, pos) {
            Some(pair_score(board, Card::at(a), Card::at(b)) as i32)
        } else {
            None
        }
}

/// The keys once the scan reaches `pos`.
pub open spec fn keys_at(board: CardSet, k: Seq<u64>, pos: int) -> bool {
    &&& distinct(k)
    &&& k.len() <= pos
    &&& forall|t: int| 0 <= t < k.len() ==> (#[trigger] k[t] % 4096) < pos
    &&& forall|t: int|
        0 <= t < k.len() ==> is_hand(decode(#[trigger] k[t])) && k[t] == key_of(board, decode(k[t]))
            && 0 <= pair_score(board, decode(k[t]).0, decode(k[t]).1) < 0x8000_0000
    &&& forall|h: Hand| is_hand(h) && order(h) < pos ==> exists|t: int| 0 <= t < k.len() && decode(#[trigger] k[t]) == h
}

proof fn lemma_scores_step(board: CardSet, before: Seq<Option<i32>>, after: Seq<Option<i32>>, p: int)
    requires
        0 <= p < 2704,
        scores_at(board, before, p),
        after.len() == 2704,
        Card::at(p % 52).precedes(Card::at(p / 52)) ==> {
            let (i, j) = (p / 52, p % 52);
            let v = Some(pair_score(board, Card::at(i), Card::at(j)) as i32);
            after == before.update(i * 52 + j, v).update(j * 52 + i, v)
        },
        !Card::at(p % 52).precedes(Card::at(p / 52)) ==> after == before,
    ensures
        scores_at(board, after, p + 1),
{
    let (i, j) = (p / 52, p % 52);
    lemma_card_at(i);
    lemma_card_at(j);
    assert forall|a: int, b: int|
        0 <= a < 52 && 0 <= b < 52 implies #[trigger] after[a * 52 + b] == if filled(a, b, p + 1) {
            Some(pair_score(board, Card::at(a), Card::at(b)) as i32)
        } else {
            None
        } by {
        lemma_card_at(a);
        lemma_card_at(b);
        lemma_card_idx_injective(Card::at(a), Card::at(b));
        lemma_card_idx_injective(Card::at(i), Card::at(j));
        law_add_commutes(board, Card::at(a), Card::at(b));
        if (a == i && b == j) || (a == j && b == i) {
        } else {
            assert(a * 52 + b != i * 52 + j);
            assert(a * 52 + b != j * 52 + i);
            assert(after[a * 52 + b] == before[a * 52 + b]);
        }
    }
}

proof fn lemma_keys_step(board: CardSet, before: Seq<u64>, after: Seq<u64>, p: int)
    requires
        0 <= p < 2704,
        keys_at(board, before, p),
        Card::at(p % 52).precedes(Card::at(p / 52)) ==> after == before.push(
            key_of(board, (Card::at(p / 52), Card::at(p % 52))) as u64,
        ),
        !Card::at(p % 52).precedes(Card::at(p / 52)) ==> after == before,
        Card::at(p % 52).precedes(Card::at(p / 52)) ==> 0 <= pair_score(
            board,
            Card::at(p / 52),
            Card::at(p % 52),
        ) < 0x8000_0000,
    ensures
        keys_at(board, after, p + 1),
{
    let (i, j) = (p / 52, p % 52);
    let (ci, cj) = (Card::at(i), Card::at(j));
    lemma_card_at(i);
    lemma_card_at(j);
    let h: Hand = (ci, cj);
    assert(order(h) == p);
    if cj.precedes(ci) {
        lemma_key_decode(board, h);
        let key = key_of(board, h) as u64;
        assert forall|t: int| 0 <= t < after.len() implies (#[trigger] after[t] % 4096) < p + 1 by {
            if t < before.len() {
                assert(after[t] == before[t]);
            }
        }
        assert forall|t: int, u: int| 0 <= t < u < after.len() implies after[t] != after[u] by {
            if u == before.len() {
                assert(before[t] % 4096 < p);
            } else {
                assert(after[t] == before[t] && after[u] == before[u]);
            }
        }
        assert forall|t: int|
            0 <= t < after.len() implies is_hand(decode(#[trigger] after[t])) && after[t] == key_of(
                board,
                decode(after[t]),
            ) && 0 <= pair_score(board, decode(after[t]).0, decode(after[t]).1) < 0x8000_0000 by {
            if t < before.len() {
                assert(after[t] == before[t]);
            }
        }
        assert forall|g: Hand| is_hand(g) && order(g) < p + 1 implies exists|t: int| 0 <= t < after.len() && decode(#[trigger] after[t]) == g by {
            if order(g) == p {
                lemma_card_idx_injective(g.0, ci);
                lemma_card_idx_injective(g.1, cj);
                lemma_card_idx_injective(g.0, g.0);
                lemma_card_idx_injective(g.1, g.1);
                assert(g.0.idx() == i && g.1.idx() == j);
                assert(decode(after[after.len() - 1]) == g);
            } else {
                let t = choose|t: int| 0 <= t < before.len() && decode(#[trigger] before[t]) == g;
                assert(after[t] == before[t]);
            }
        }
    } else {
        assert forall|g: Hand| is_hand(g) && order(g) < p + 1 implies exists|t: int| 0 <= t < after.len() && decode(#[trigger] after[t]) == g by {
            if order(g) == p {
                lemma_card_idx_injective(g.0, g.0);
                lemma_card_idx_injective(g.1, g.1);
                lemma_card_idx_injective(g.0, ci);
                lemma_card_idx_injective(g.1, cj);
                assert(false);
            }
        }
    }
}

/// Scores every pair of hole cards on `board`, and the sort keys of the hands.
fn score_table(board: &CardSet) -> (res: (Vec<Option<i32>>, Vec<u64>))
    requires
        board_ok(*board),
    ensures
        scores_at(*board, res.0@, 2704),
        keys_at(*board, res.1@, 2704),
{
    let mut scores: Vec<Option<i32>> = Vec::new();
    let mut q: usize = 0;
    while q < 2704
        invariant
            q <= 2704,
            scores.len() == q,
            forall|t: int| 0 <= t < q ==> scores@[t] == None::<i32>,
        decreases 2704 - q,
    {
        scores.push(None);
        q = q + 1;
    }
    proof {
        assert forall|a: int, b: int| 0 <= a < 52 && 0 <= b < 52 implies !filled(a, b, 0) by {}
    }
    let mut keys: Vec<u64> = Vec::new();
    let mut p: usize = 0;
    while p < 2704
        invariant
            board_ok(*board),
            p <= 2704,
            scores_at(*board, scores@, p as int),
            keys_at(*board, keys@, p as int),
        decreases 2704 - p,
    {
        let i = p / 52;
        let j = p % 52;
        let ci = Card::from_index(i);
        let cj = Card::from_index(j);
        let ghost sb = scores@;
        let ghost kb = keys@;
        proof {
            lemma_card_idx_injective(ci, cj);
        }
        if !ci.le(cj) {
            let sc = pair_score_exec(board, ci, cj);
            scores[i * 52 + j] = Some(sc);
            scores[j * 52 + i] = Some(sc);
            let key = (sc as u64) * 4096 + (i * 52 + j) as u64;
            keys.push(key);
            proof {
                assert(scores@ =~= sb.update(i * 52 + j, Some(sc)).update(j * 52 + i, Some(sc)));
                lemma_scores_step(*board, sb, scores@, p as int);
                lemma_keys_step(*board, kb, keys@, p as int);
            }
        } else {
            proof {
                lemma_scores_step(*board, sb, scores@, p as int);
                lemma_keys_step(*board, kb, keys@, p as int);
            }
        }
        p = p + 1;
    }
    (scores, keys)
}

/// Hands decoded from increasing keys.
fn unpack(board: &CardSet, sorted: &Vec<u64>) -> (res: (Vec<Hand>, Vec<i32>))
    requires
        forall|t: int|
            0 <= t < sorted.len() ==> is_hand(decode(#[trigger] sorted@[t])) && sorted@[t] == key_of(
                *board,
                decode(sorted@[t]),
            ),
        forall|t: int| 0 <= t < sorted.len() ==> 0 <= pair_score(*board, decode(#[trigger] sorted@[t]).0, decode(sorted@[t]).1) < 0x8000_0000,
    ensures
        res.0.len() == sorted.len(),
        res.1.len() == sorted.len(),
        forall|k: int| 0 <= k < sorted.len() ==> #[trigger] res.0@[k] == decode(sorted@[k]),
        forall|k: int| 0 <= k < sorted.len() ==> #[trigger] res.1@[k] == pair_score(*board, res.0@[k].0, res.0@[k].1),
{
    let mut hands: Vec<Hand> = Vec::new();
    let mut scores: Vec<i32> = Vec::new();
    let mut k: usize = 0;
    while k < sorted.len()
        invariant
            k <= sorted.len(),
            hands.len() == k,
            scores.len() == k,
            forall|t: int|
                0 <= t < sorted.len() ==> is_hand(decode(#[trigger] sorted@[t])) && sorted@[t] == key_of(
                    *board,
                    decode(sorted@[t]),
                ),
            forall|t: int| 0 <= t < sorted.len() ==> 0 <= pair_score(*board, decode(#[trigger] sorted@[t]).0, decode(sorted@[t]).1) < 0x8000_0000,
            forall|t: int| 0 <= t < k ==> #[trigger] hands@[t] == decode(sorted@[t]),
            forall|t: int| 0 <= t < k ==> #[trigger] scores@[t] == pair_score(*board, hands@[t].0, hands@[t].1),
        decreases sorted.len() - k,
    {
        let key = sorted[k];
        let low = key % 4096;
        proof {
            let h = decode(key);
            lemma_key_decode(*board, h);
        }
        let h = (Card::from_index((low / 52) as usize), Card::from_index((low % 52) as usize));
        hands.push(h);
        scores.push((key / 4096) as i32);
        k = k + 1;
    }
    (hands, scores)
}

/// Index of each hand in the sorted order, under both orders of its cards.
fn index_table(sh: &Vec<Hand>) -> (idx: Vec<u16>)
    requires
        sh.len() <= 2704,
        forall|k: int| 0 <= k < sh.len() ==> is_hand(#[trigger] sh@[k]),
        forall|k: int, l: int| 0 <= k < l < sh.len() ==> sh@[k] != sh@[l],
    ensures
        idx.len() == 2704,
        forall|k: int|
            0 <= k < sh.len() ==> idx@[sh@[k].0.idx() * 52 + sh@[k].1.idx()] == k
                && idx@[sh@[k].1.idx() * 52 + sh@[k].0.idx()] == k,
{
    let mut idx: Vec<u16> = Vec::new();
    let mut q: usize = 0;
    while q < 2704
        invariant
            q <= 2704,
            idx.len() == q,
        decreases 2704 - q,
    {
        idx.push(0);
        q = q + 1;
    }
    let mut k: usize = 0;
    while k < sh.len()
        invariant
            k <= sh.len() <= 2704,
            idx.len() == 2704,
            forall|t: int| 0 <= t < sh.len() ==> is_hand(#[trigger] sh@[t]),
            forall|t: int, l: int| 0 <= t < l < sh.len() ==> sh@[t] != sh@[l],
            forall|t: int|
                0 <= t < k ==> idx@[sh@[t].0.idx() * 52 + sh@[t].1.idx()] == t
                    && idx@[sh@[t].1.idx() * 52 + sh@[t].0.idx()] == t,
        decreases sh.len() - k,
    {
        let h = sh[k];
        let a = h.0.index();
        let b = h.1.index();
        let ghost before = idx@;
        idx[a * 52 + b] = k as u16;
        idx[b * 52 + a] = k as u16;
        proof {
            assert forall|t: int| 0 <= t < k + 1 implies idx@[sh@[t].0.idx() * 52 + sh@[t].1.idx()] == t
                && idx@[sh@[t].1.idx() * 52 + sh@[t].0.idx()] == t by {
                if t < k {
                    let g = sh@[t];
                    lemma_card_idx_injective(g.0, h.0);
                    lemma_card_idx_injective(g.1, h.1);
                    lemma_card_idx_injective(g.0, h.1);
                    lemma_card_idx_injective(g.1, h.0);
                    lemma_card_idx_injective(g.0, g.0);
                    lemma_card_idx_injective(g.1, g.1);
                    assert(g != h);
                    assert(g.0.idx() * 52 + g.1.idx() != a * 52 + b);
                    assert(g.0.idx() * 52 + g.1.idx() != b * 52 + a);
                    assert(g.1.idx() * 52 + g.0.idx() != a * 52 + b);
                    assert(g.1.idx() * 52 + g.0.idx() != b * 52 + a);
                }
            }
        }
        k = k + 1;
    }
    idx
}

/// The card of `h` other than card number `c`.
pub open spec fn other_card(h: Hand, c: int) -> int {
    if h.0.idx() == c {
        h.1.idx()
    } else {
        h.0.idx()
    }
}

/// Distinct hands holding one card differ in their other card; and when
/// every hand is present, each of the 51 other cards makes one.
proof fn lemma_holders_count(sh: Seq<Hand>, v: Seq<usize>, c: int)
    requires
        0 <= c < 52,
        sh.len() <= 2704,
        forall|k: int| 0 <= k < sh.len() ==> is_hand(#[trigger] sh[k]),
        forall|k: int, l: int| 0 <= k < l < sh.len() ==> sh[k] != sh[l],
        forall|t: int, u: int| 0 <= t < u < v.len() ==> v[t] < v[u],
        forall|t: int| 0 <= t < v.len() ==> v[t] < sh.len() && holds_card(sh[v[t] as int], c),
    ensures
        v.len() <= 52,
        (forall|h: Hand| is_hand(h) ==> sh.contains(h)) && (forall|k: int|
            0 <= k < sh.len() && holds_card(sh[k], c) ==> v.contains(k as usize)) ==> v.len() == 51,
{
    let x = vstd::set_lib::set_int_range(0, v.len() as int);
    let r = vstd::set_lib::set_int_range(0, 52);
    let f = |t: int| other_card(sh[v[t] as int], c);
    vstd::set_lib::lemma_int_range(0, v.len() as int);
    vstd::set_lib::lemma_int_range(0, 52);
    assert(vstd::relations::injective_on(f, x)) by {
        assert forall|t: int, u: int| x.contains(t) && x.contains(u) && #[trigger] f(t) == #[trigger] f(u)
            implies t == u by {
            let (g, h) = (sh[v[t] as int], sh[v[u] as int]);
            lemma_card_idx_injective(g.0, h.0);
            lemma_card_idx_injective(g.1, h.1);
            lemma_card_idx_injective(g.0, h.1);
            lemma_card_idx_injective(g.1, h.0);
            if t != u {
                if t < u {
                    assert(v[t] < v[u]);
                } else {
                    assert(v[u] < v[t]);
                }
                assert(g != h);
            }
        }
    }
    let y = x.map(f);
    vstd::set_lib::lemma_map_size(x, y, f);
    assert(y.subset_of(r.remove(c))) by {
        assert forall|e: int| y.contains(e) implies r.remove(c).contains(e) by {
            let t = choose|t: int| x.contains(t) && f(t) == e;
            let g = sh[v[t] as int];
            lemma_card_idx_injective(g.0, g.1);
        }
    }
    vstd::set_lib::lemma_len_subset(y, r);
    if (forall|h: Hand| is_hand(h) ==> sh.contains(h)) && (forall|k: int|
        0 <= k < sh.len() && holds_card(sh[k], c) ==> v.contains(k as usize)) {
        assert(r.remove(c).subset_of(y)) by {
            assert forall|o: int| r.remove(c).contains(o) implies y.contains(o) by {
                let (a, b) = (Card::at(c), Card::at(o));
                lemma_card_at(c);
                lemma_card_at(o);
                lemma_card_idx_injective(a, b);
                let h: Hand = if b.precedes(a) { (a, b) } else { (b, a) };
                assert(is_hand(h));
                assert(sh.contains(h));
                let k = choose|k: int| 0 <= k < sh.len() && sh[k] == h;
                assert(holds_card(sh[k], c));
                assert(v.contains(k as usize));
                let t = choose|t: int| 0 <= t < v.len() && v[t] == k as usize;
                assert(x.contains(t));
                assert(v[t] as int == k);
                assert(sh[v[t] as int] == h);
                assert(f(t) == other_card(sh[v[t] as int], c));
                assert(other_card(h, c) == o);
                assert(y.contains(f(t)));
            }
        }
        assert(y =~= r.remove(c));
    }
}

/// Increasing indices of the hands holding card number `c`.
fn hands_containing(sh: &Vec<Hand>, c: usize) -> (v: Vec<usize>)
    requires
        c < 52,
        sh.len() <= 2704,
        forall|k: int| 0 <= k < sh.len() ==> is_hand(#[trigger] sh@[k]),
        forall|k: int, l: int| 0 <= k < l < sh.len() ==> sh@[k] != sh@[l],
    ensures
        (forall|h: Hand| is_hand(h) ==> sh@.contains(h)) ==> v.len() == 51,
        forall|t: int, u: int| 0 <= t < u < v.len() ==> v@[t] < v@[u],
        forall|t: int| 0 <= t < v.len() ==> v@[t] < sh.len() && holds_card(sh@[v@[t] as int], c as int),
        forall|k: int| 0 <= k < sh.len() && holds_card(sh@[k], c as int) ==> v@.contains(k as usize),
        v.len() <= 52,
{
    let mut v: Vec<usize> = Vec::new();
    let mut k: usize = 0;
    while k < sh.len()
        invariant
            k <= sh.len(),
            forall|t: int, u: int| 0 <= t < u < v.len() ==> v@[t] < v@[u],
            forall|t: int| 0 <= t < v.len() ==> v@[t] < k && holds_card(sh@[v@[t] as int], c as int),
            forall|j: int| 0 <= j < k && holds_card(sh@[j], c as int) ==> v@.contains(j as usize),
        decreases sh.len() - k,
    {
        let h = sh[k];
        if h.0.index() == c || h.1.index() == c {
            let ghost before = v@;
            v.push(k);
            proof {
                assert forall|j: int| 0 <= j < k + 1 && holds_card(sh@[j], c as int) implies v@.contains(j as usize) by {
                    if j == k {
                        assert(v@[v.len() - 1] == k);
                    } else {
                        let t = choose|t: int| 0 <= t < before.len() && before[t] == j as usize;
                        assert(v@[t] == j as usize);
                    }
                }
            }
        }
        k = k + 1;
    }
    proof {
        lemma_holders_count(sh@, v@, c as int);
    }
    v
}

/// Where `bound` splits the increasing `v`.
fn partition_point(v: &Vec<usize>, bound: usize) -> (p: usize)
    requires
        forall|t: int, u: int| 0 <= t < u < v.len() ==> v@[t] < v@[u],
    ensures
        is_partition_point(v@, bound as int, p as int),
{
    let mut lo: usize = 0;
    let mut hi: usize = v.len();
    while lo < hi
        invariant
            0 <= lo <= hi <= v.len(),
            forall|t: int, u: int| 0 <= t < u < v.len() ==> v@[t] < v@[u],
            forall|t: int| 0 <= t < lo ==> v@[t] < bound,
            forall|t: int| hi <= t < v.len() ==> v@[t] >= bound,
        decreases hi - lo,
    {
        let mid = lo + (hi - lo) / 2;
        if v[mid] < bound {
            lo = mid + 1;
        } else {
            hi = mid;
        }
    }
    lo
}

/// Score groups of the nondecreasing `sc`: for each position the start of
/// its group and the position after its end.
fn group_bounds(sc: &Vec<i32>) -> (res: (Vec<u16>, Vec<u16>))
    requires
        sc.len() <= 2704,
        forall|k: int, l: int| 0 <= k <= l < sc.len() ==> sc@[k] <= sc@[l],
    ensures
        res.0.len() == sc.len(),
        res.1.len() == sc.len(),
        forall|k: int|
            0 <= k < sc.len() ==> {
                let fe = #[trigger] res.0@[k] as int;
                let fg = res.1@[k] as int;
                &&& 0 <= fe <= k < fg <= sc.len()
                &&& sc@[fe] == sc@[k]
                &&& sc@[fg - 1] == sc@[k]
                &&& fe == 0 || sc@[fe - 1] < sc@[k]
                &&& fg == sc.len() || sc@[fg] > sc@[k]
            },
{
    let n = sc.len();
    let mut fe: Vec<u16> = Vec::new();
    let mut fg: Vec<u16> = Vec::new();
    let mut start: usize = 0;
    while start < n
        invariant
            n == sc.len() <= 2704,
            start <= n,
            forall|k: int, l: int| 0 <= k <= l < n ==> sc@[k] <= sc@[l],
            fe.len() == start,
            fg.len() == start,
            start == 0 || start == n || sc@[start - 1] < sc@[start as int],
            forall|k: int|
                0 <= k < start ==> {
                    let e = #[trigger] fe@[k] as int;
                    let g = fg@[k] as int;
                    &&& 0 <= e <= k < g <= start
                    &&& sc@[e] == sc@[k]
                    &&& sc@[g - 1] == sc@[k]
                    &&& e == 0 || sc@[e - 1] < sc@[k]
                    &&& g == n || sc@[g] > sc@[k]
                },
        decreases n - start,
    {
        let score = sc[start];
        let mut end = start + 1;
        while end < n && sc[end] == score
            invariant
                start < end <= n,
                n == sc.len(),
                score == sc@[start as int],
                forall|k: int| start <= k < end ==> sc@[k] == score,
            decreases n - end,
        {
            end = end + 1;
        }
        let mut index = start;
        while index < end
            invariant
                start <= index <= end <= n <= 2704,
                fe.len() == index,
                fg.len() == index,
                forall|k: int| start <= k < end ==> sc@[k] == score,
                end == n || sc@[end as int] != score,
                forall|k: int, l: int| 0 <= k <= l < n ==> sc@[k] <= sc@[l],
                start == 0 || sc@[start - 1] < sc@[start as int],
                score == sc@[start as int],
                forall|k: int|
                    0 <= k < index ==> {
                        let e = #[trigger] fe@[k] as int;
                        let g = fg@[k] as int;
                        &&& 0 <= e <= k < g <= end
                        &&& sc@[e] == sc@[k]
                        &&& sc@[g - 1] == sc@[k]
                        &&& e == 0 || sc@[e - 1] < sc@[k]
                        &&& g == n || sc@[g] > sc@[k]
                    },
            decreases end - index,
        {
            let ghost fe0 = fe@;
            let ghost fg0 = fg@;
            fe.push(start as u16);
            fg.push(end as u16);
            proof {
                assert forall|k: int| 0 <= k < index + 1 implies {
                        let e = #[trigger] fe@[k] as int;
                        let g = fg@[k] as int;
                        &&& 0 <= e <= k < g <= end
                        &&& sc@[e] == sc@[k]
                        &&& sc@[g - 1] == sc@[k]
                        &&& e == 0 || sc@[e - 1] < sc@[k]
                        &&& g == n || sc@[g] > sc@[k]
                    } by {
                    if k < index {
                        assert(fe@[k] == fe0[k] && fg@[k] == fg0[k]);
                    } else {
                        assert(sc@[k] == score);
                        if end < n {
                            assert(sc@[end - 1] <= sc@[end as int]);
                        }
                    }
                }
            }
            index = index + 1;
        }
        start = end;
    }
    (fe, fg)
}

impl ScoreCache {
    /// Builds the cache for a complete board (any board that can take two
    /// more cards): every pair's score, the hands sorted by score, and the
    /// group and blocker counts that equity computations need.
    #[verifier::rlimit(60)]
    pub fn from_board(board: CardSet) -> (c: ScoreCache)
        requires
            board_ok(board),
        ensures
            c.describes(board),
    {
        let (scores, keys) = score_table(&board);
        let sorted = sort_distinct(&keys);
        proof {
            assert forall|t: int| 0 <= t < sorted.len() implies is_hand(decode(#[trigger] sorted@[t]))
                && sorted@[t] == key_of(board, decode(sorted@[t]))
                && 0 <= pair_score(board, decode(sorted@[t]).0, decode(sorted@[t]).1) < 0x8000_0000 by {
                assert(sorted@.contains(sorted@[t]));
                let u = choose|u: int| 0 <= u < keys.len() && keys@[u] == sorted@[t];
            }
        }
        let (sorted_hands, hand_scores) = unpack(&board, &sorted);
        let n = sorted_hands.len();
        proof {
            assert forall|k: int, l: int| 0 <= k < l < n implies sorted_hands@[k] != sorted_hands@[l] by {
                assert(sorted@[k] < sorted@[l]);
            }
            assert forall|k: int, l: int| 0 <= k <= l < n implies hand_scores@[k] <= hand_scores@[l] by {
                if k < l {
                    let (a, b) = (sorted@[k] as int, sorted@[l] as int);
                    let (ha, hb) = (decode(sorted@[k]), decode(sorted@[l]));
                    lemma_key_decode(board, ha);
                    lemma_key_decode(board, hb);
                    assert(a < b);
                    assert(a / 4096 <= b / 4096) by (nonlinear_arith)
                        requires a < b, a >= 0;
                }
            }
        }
        proof {
            assert forall|h: Hand| is_hand(h) implies sorted_hands@.contains(h) by {
                let t = choose|t: int| 0 <= t < keys.len() && decode(#[trigger] keys@[t]) == h;
                assert(keys@.contains(keys@[t]));
                assert(sorted@.contains(keys@[t]));
                let k = choose|k: int| 0 <= k < sorted.len() && sorted@[k] == keys@[t];
                assert(sorted_hands@[k] == h);
            }
        }
        let sorted_index = index_table(&sorted_hands);
        let mut hands_by_card: Vec<Vec<usize>> = Vec::new();
        let mut c: usize = 0;
        while c < 52
            invariant
                c <= 52,
                n == sorted_hands.len(),
                n <= 2704,
                hands_by_card.len() == c,
                forall|k: int| 0 <= k < n ==> is_hand(#[trigger] sorted_hands@[k]),
                forall|k: int, l: int| 0 <= k < l < n ==> sorted_hands@[k] != sorted_hands@[l],
                forall|h: Hand| is_hand(h) ==> sorted_hands@.contains(h),
                forall|d: int|
                    0 <= d < c ==> {
                        let v = #[trigger] hands_by_card@[d]@;
                        &&& forall|t: int, u: int| 0 <= t < u < v.len() ==> v[t] < v[u]
                        &&& forall|t: int| 0 <= t < v.len() ==> v[t] < n && holds_card(sorted_hands@[v[t] as int], d)
                        &&& forall|k: int| 0 <= k < n && holds_card(sorted_hands@[k], d) ==> v.contains(k as usize)
                        &&& v.len() == 51
                    },
            decreases 52 - c,
        {
            hands_by_card.push(hands_containing(&sorted_hands, c));
            c = c + 1;
        }
        let (first_equal, first_greater) = group_bounds(&hand_scores);
        let mut blocked_before_equal: Vec<Vec<u8>> = Vec::new();
        let mut blocked_before_greater: Vec<Vec<u8>> = Vec::new();
        let mut c: usize = 0;
        while c < 52
            invariant
                c <= 52,
                n == sorted_hands.len(),
                first_equal.len() == n,
                first_greater.len() == n,
                hands_by_card.len() == 52,
                forall|d: int|
                    0 <= d < 52 ==> {
                        let v = #[trigger] hands_by_card@[d]@;
                        &&& forall|t: int, u: int| 0 <= t < u < v.len() ==> v[t] < v[u]
                        &&& v.len() <= 52
                    },
                blocked_before_equal.len() == c,
                blocked_before_greater.len() == c,
                forall|d: int|
                    0 <= d < c ==> (#[trigger] blocked_before_equal@[d]).len() == n
                        && blocked_before_greater@[d].len() == n,
                forall|d: int, k: int|
                    0 <= d < c && 0 <= k < n ==> is_partition_point(
                        hands_by_card@[d]@,
                        first_equal@[k] as int,
                        #[trigger] blocked_before_equal@[d]@[k] as int,
                    ) && is_partition_point(
                        hands_by_card@[d]@,
                        first_greater@[k] as int,
                        blocked_before_greater@[d]@[k] as int,
                    ),
            decreases 52 - c,
        {
            let blocked = &hands_by_card[c];
            let mut row_equal: Vec<u8> = Vec::new();
            let mut row_greater: Vec<u8> = Vec::new();
            let mut k: usize = 0;
            while k < n
                invariant
                    k <= n,
                    n == first_equal.len(),
                    n == first_greater.len(),
                    forall|t: int, u: int| 0 <= t < u < blocked.len() ==> blocked@[t] < blocked@[u],
                    blocked.len() <= 52,
                    row_equal.len() == k,
                    row_greater.len() == k,
                    forall|j: int|
                        0 <= j < k ==> is_partition_point(blocked@, first_equal@[j] as int, #[trigger] row_equal@[j] as int)
                            && is_partition_point(blocked@, first_greater@[j] as int, row_greater@[j] as int),
                decreases n - k,
            {
                let pe = partition_point(blocked, first_equal[k] as usize);
                let pg = partition_point(blocked, first_greater[k] as usize);
                row_equal.push(pe as u8);
                row_greater.push(pg as u8);
                k = k + 1;
            }
            blocked_before_equal.push(row_equal);
            blocked_before_greater.push(row_greater);
            c = c + 1;
        }
        let cache = ScoreCache {
            scores,
            sorted_hands,
            hands_by_card,
            sorted_index,
            first_equal,
            first_greater,
            blocked_before_equal,
            blocked_before_greater,
        };
        proof {
            let sh = cache.sorted_hands@;
            assert forall|k: int| 0 <= k < n implies #[trigger] hand_scores@[k] == cache.hand_score(board, k) by {}
            assert forall|k: int, l: int| 0 <= k < l < n implies key_of(board, sh[k]) < key_of(board, sh[l]) by {
                assert(sorted@[k] < sorted@[l]);
            }
            assert forall|i: int, j: int|
                0 <= i < 52 && 0 <= j < 52 implies #[trigger] cache.scores@[i * 52 + j] == if i == j {
                    None
                } else {
                    Some(pair_score(board, Card::at(i), Card::at(j)) as i32)
                } by {
                assert(filled(i, j, 2704) == (i != j)) by {
                    lemma_card_at(i);
                    lemma_card_at(j);
                    lemma_card_idx_injective(Card::at(i), Card::at(j));
                }
            }
        }
        cache
    }

    /// Score of the sorted hand `k`.
    pub open spec fn hand_score(self, board: CardSet, k: int) -> int {
        pair_score(board, self.sorted_hands@[k].0, self.sorted_hands@[k].1)
    }

    /// The cache holds what `from_board` promises for `board`.
    pub open spec fn describes(self, board: CardSet) -> bool {
        let sh = self.sorted_hands@;
        let n = sh.len();
        &&& self.scores.len() == 2704
        &&& forall|i: int, j: int|
            0 <= i < 52 && 0 <= j < 52 ==> #[trigger] self.scores@[i * 52 + j] == if i == j {
                None
            } else {
                Some(pair_score(board, Card::at(i), Card::at(j)) as i32)
            }
        &&& forall|k: int| 0 <= k < n ==> is_hand(#[trigger] sh[k])
        &&& forall|k: int, l: int| 0 <= k < l < n ==> key_of(board, sh[k]) < key_of(board, sh[l])
        &&& forall|h: Hand| is_hand(h) ==> sh.contains(h)
        &&& n <= 2704
        &&& self.sorted_index.len() == 2704
        &&& forall|k: int|
            0 <= k < n ==> self.sorted_index@[sh[k].0.idx() * 52 + sh[k].1.idx()] == k
                && self.sorted_index@[sh[k].1.idx() * 52 + sh[k].0.idx()] == k
        &&& self.hands_by_card.len() == 52
        &&& forall|c: int|
            0 <= c < 52 ==> {
                let v = #[trigger] self.hands_by_card@[c]@;
                &&& forall|t: int, u: int| 0 <= t < u < v.len() ==> v[t] < v[u]
                &&& forall|t: int| 0 <= t < v.len() ==> v[t] < n && holds_card(sh[v[t] as int], c)
                &&& forall|k: int| 0 <= k < n && holds_card(sh[k], c) ==> v.contains(k as usize)
                &&& v.len() == 51
            }
        &&& self.first_equal.len() == n
        &&& self.first_greater.len() == n
        &&& forall|k: int|
            0 <= k < n ==> {
                let fe = #[trigger] self.first_equal@[k] as int;
                let fg = self.first_greater@[k] as int;
                &&& 0 <= fe <= k < fg <= n
                &&& self.hand_score(board, fe) == self.hand_score(board, k)
                &&& self.hand_score(board, fg - 1) == self.hand_score(board, k)
                &&& fe == 0 || self.hand_score(board, fe - 1) < self.hand_score(board, k)
                &&& fg == n || self.hand_score(board, fg) > self.hand_score(board, k)
            }
        &&& self.blocked_before_equal.len() == 52
        &&& self.blocked_before_greater.len() == 52
        &&& forall|c: int|
            0 <= c < 52 ==> (#[trigger] self.blocked_before_equal@[c]).len() == n
                && self.blocked_before_greater@[c].len() == n
        &&& forall|c: int, k: int|
            0 <= c < 52 && 0 <= k < n ==> is_partition_point(
                self.hands_by_card@[c]@,
                self.first_equal@[k] as int,
                #[trigger] self.blocked_before_equal@[c]@[k] as int,
            ) && is_partition_point(
                self.hands_by_card@[c]@,
                self.first_greater@[k] as int,
                self.blocked_before_greater@[c]@[k] as int,
            )
    }
}

/// One runout, shared by a whole batch of hands: the cards no player's
/// hole cards may use, and the showdown cache of its board.
pub struct CachedRunout {
    pub public_seen: u64,
    pub cache: ScoreCache,
}

impl GameState {
    /// The state without the hero hand marked seen.
    pub open spec fn public(self) -> GameState {
        GameState {
            seen: self.seen & !self.hero_hand.0.mask() & !self.hero_hand.1.mask(),
            ..self
        }
    }

    /// `cr` holds a runout of the public state and the cache of its board.
    pub open spec fn holds_runout(self, cr: CachedRunout) -> bool {
        exists|r: GameState|
            {
                &&& self.public().is_runout(r)
                &&& cr.public_seen == r.seen
                &&& cr.cache.describes(r.board)
            }
    }

    /// `cr` holds the runout of the public state that completes the board
    /// with the cards `d`, and the cache of its board.
    pub open spec fn holds_runout_by(self, cr: CachedRunout, d: Seq<Card>) -> bool {
        exists|r: GameState|
            {
                &&& self.public().runout_by(r, d)
                &&& cr.public_seen == r.seen
                &&& cr.cache.describes(r.board)
            }
    }

    /// `count` runouts of the public state (hero hand not marked seen),
    /// each with its showdown cache, drawn in turn from one clock-seeded
    /// generator: runout `t` holds the cards that the `t`-th draw takes, from
    /// the generator state the previous draw left; `None` when the clock
    /// reads earlier than the Unix epoch.
    pub fn cached_runouts(&self, count: usize) -> (r: Option<Vec<CachedRunout>>)
        requires
            self.can_run_out(),
            self.board.wf(),
            forall|r: int| 0 <= r < 13 ==> self.board.rank_counts[r] <= 249,
        ensures
            r matches Some(res) ==> res.len() == count && forall|t: int|
                0 <= t < count ==> self.holds_runout(#[trigger] res@[t]),
            r matches Some(res) ==> exists|states: Seq<u64>, ds: Seq<Seq<Card>>|
                {
                    &&& states.len() == count + 1
                    &&& ds.len() == count
                    &&& states[0] < SEED
                    &&& forall|t: int|
                        0 <= t < count ==> drawn_in_turn(states[t], self.public().seen, #[trigger] ds[t], states[t + 1])
                            && self.holds_runout_by(res@[t], ds[t])
                },
    {
        let mut public_state = *self;
        public_state.remove_hero_hand();
        proof {
            lemma_unseen_grows(self.seen, self.hero_hand.0.mask(), self.hero_hand.1.mask());
            assert(public_state == self.public());
        }
        let mut rng = match XorShiftU64::new() {
            Some(g) => g,
            None => {
                return None;
            },
        };
        let ghost mut states: Seq<u64> = seq![rng.state];
        let ghost mut ds: Seq<Seq<Card>> = Seq::empty();
        let mut res: Vec<CachedRunout> = Vec::new();
        let mut k: usize = 0;
        while k < count
            invariant
                k <= count,
                res.len() == k,
                public_state == self.public(),
                public_state.can_run_out(),
                self.board.wf(),
                forall|r: int| 0 <= r < 13 ==> self.board.rank_counts[r] <= 249,
                forall|t: int| 0 <= t < k ==> self.holds_runout(#[trigger] res@[t]),
                states.len() == k + 1,
                ds.len() == k,
                states[0] < SEED,
                states[k as int] == rng.state,
                forall|t: int|
                    0 <= t < k ==> drawn_in_turn(states[t], self.public().seen, #[trigger] ds[t], states[t + 1])
                        && self.holds_runout_by(res@[t], ds[t]),
            decreases count - k,
        {
            let ghost s_before = rng.state;
            let runout = public_state.gen_runout_with(&mut rng);
            let ghost d = choose|d: Seq<Card>|
                public_state.runout_by(runout, d) && drawn_in_turn(s_before, public_state.seen, d, rng.state);
            let cache = ScoreCache::from_board(runout.board);
            let ghost before = res@;
            let ghost old_states = states;
            let ghost old_ds = ds;
            res.push(CachedRunout { public_seen: runout.seen, cache });
            proof {
                states = states.push(rng.state);
                ds = ds.push(d);
                assert forall|t: int| 0 <= t < k + 1 implies self.holds_runout(#[trigger] res@[t]) by {
                    if t < k {
                        assert(res@[t] == before[t]);
                    } else {
                        assert(self.public().is_runout(runout));
                        assert(res@[t].public_seen == runout.seen);
                    }
                }
                assert forall|t: int| 0 <= t < k + 1 implies drawn_in_turn(states[t], self.public().seen,
                    #[trigger] ds[t], states[t + 1]) && self.holds_runout_by(res@[t], ds[t]) by {
                    if t < k {
                        assert(res@[t] == before[t]);
                        assert(ds[t] == old_ds[t]);
                        assert(states[t] == old_states[t] && states[t + 1] == old_states[t + 1]);
                    } else {
                        assert(res@[t].public_seen == runout.seen);
                        assert(self.public().runout_by(runout, ds[t]));
                    }
                }
            }
            k = k + 1;
        }
        Some(res)
    }
}

} // verus!
