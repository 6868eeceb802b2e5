//! Hash of hands up to the equivalence that matters for a given board.

use vstd::prelude::*;
use std::collections::HashMap;
use crate::cardset::CardSet;
use crate::game::{Card, Hand};

verus! {

broadcast use vstd::std_specs::hash::group_hash_axioms;

/// What a hole card is worth on a board: its rank and the board's ranks in its suit.
pub open spec fn card_trait(board: CardSet, c: Card) -> (int, int) {
    (c.rank.idx(), board.suit_masks[c.suit.idx()] as int)
}

/// Lexicographic order of card traits.
pub open spec fn trait_gt(a: (int, int), b: (int, int)) -> bool {
    a.0 > b.0 || (a.0 == b.0 && a.1 > b.1)
}

/// Packs the smaller trait, the larger trait and suitedness into a key.
pub open spec fn pack_key(a: (int, int), b: (int, int), suited: bool) -> u64 {
    (a.0 as u64) | ((a.1 as u64) << 4u64) | ((b.0 as u64) << 17u64) | ((b.1 as u64) << 21u64) | (
    (if suited { 1u64 } else { 0u64 }) << 34u64)
}

/// The key of `hand` on `board`.
pub open spec fn spec_key(board: CardSet, hand: Hand) -> u64 {
    let a = card_trait(board, hand.0);
    let b = card_trait(board, hand.1);
    let suited = hand.0.suit == hand.1.suit;
    if trait_gt(a, b) {
        pack_key(b, a, suited)
    } else {
        pack_key(a, b, suited)
    }
}

/// Two hands are equivalent on a board when they are equally suited and
/// their two hole cards have the same ranks and the same board-rank masks
/// in their suits, in either order.
pub open spec fn equivalent(board: CardSet, h1: Hand, h2: Hand) -> bool {
    let (a1, b1) = (card_trait(board, h1.0), card_trait(board, h1.1));
    let (a2, b2) = (card_trait(board, h2.0), card_trait(board, h2.1));
    &&& (h1.0.suit == h1.1.suit) == (h2.0.suit == h2.1.suit)
    &&& ((a1 == a2 && b1 == b2) || (a1 == b2 && b1 == a2))
}

/// Key under which equivalent hands share an entry. Preflop many hands are
/// equivalent (169 keys); postflop most hands are distinct.
pub fn equivalence_key(board: &CardSet, hand: Hand) -> (key: u64)
    ensures
        key == spec_key(*board, hand),
{
    let suit_masks = board.suit_masks;
    let mut a: (u8, u16) = (hand.0.rank.index() as u8, suit_masks[hand.0.suit.index()]);
    let mut b: (u8, u16) = (hand.1.rank.index() as u8, suit_masks[hand.1.suit.index()]);
    let a_gt_b = a.0 > b.0 || (a.0 == b.0 && a.1 > b.1);
    if a_gt_b {
        let t = a;
        a = b;
        b = t;
    }
    let suited: u64 = if hand.0.suit == hand.1.suit { 1 } else { 0 };

    let mut key: u64 = 0;
    key = key | a.0 as u64;
    key = key | (a.1 as u64) << 4u64;
    key = key | (b.0 as u64) << 17u64;
    key = key | (b.1 as u64) << 21u64;
    key = key | suited << 34u64;
    proof {
        let (x0, x1, y0, y1, s) = (a.0 as u64, a.1 as u64, b.0 as u64, b.1 as u64, suited);
        assert(0u64 | x0 | x1 << 4u64 | y0 << 17u64 | y1 << 21u64 | s << 34u64 == x0 | (x1 << 4u64) | (y0 << 17u64) | (y1 << 21u64) | (s << 34u64)) by (bit_vector);
    }
    key
}

/// Unpacking a key gives back the traits and the suitedness.
proof fn lemma_unpack(a0: u64, a1: u64, b0: u64, b1: u64, s: u64)
    by (bit_vector)
    requires
        a0 < 16,
        a1 < 0x2000,
        b0 < 16,
        b1 < 0x2000,
        s < 2,
    ensures
        (a0 | (a1 << 4u64) | (b0 << 17u64) | (b1 << 21u64) | (s << 34u64)) & 0xF == a0,
        ((a0 | (a1 << 4u64) | (b0 << 17u64) | (b1 << 21u64) | (s << 34u64)) >> 4u64) & 0x1FFF == a1,
        ((a0 | (a1 << 4u64) | (b0 << 17u64) | (b1 << 21u64) | (s << 34u64)) >> 17u64) & 0xF == b0,
        ((a0 | (a1 << 4u64) | (b0 << 17u64) | (b1 << 21u64) | (s << 34u64)) >> 21u64) & 0x1FFF == b1,
        (a0 | (a1 << 4u64) | (b0 << 17u64) | (b1 << 21u64) | (s << 34u64)) >> 34u64 == s,
{
}

/// The key does not depend on the order of the two hole cards.
pub proof fn law_key_symmetric(board: CardSet, c1: Card, c2: Card)
    ensures
        spec_key(board, (c1, c2)) == spec_key(board, (c2, c1)),
{
}

/// On a well-formed board two hands share a key exactly when they are
/// equally suited and their hole cards match, in one order or the other,
/// in rank and in the board's mask of ranks of the card's suit.
pub proof fn law_key_matches_board_masks(board: CardSet, h1: Hand, h2: Hand)
    requires
        board.wf(),
    ensures
        (spec_key(board, h1) == spec_key(board, h2)) <==> ({
            let m = board.suit_masks;
            &&& (h1.0.suit == h1.1.suit) == (h2.0.suit == h2.1.suit)
            &&& ((h1.0.rank.idx() == h2.0.rank.idx() && m[h1.0.suit.idx()] == m[h2.0.suit.idx()] && h1.1.rank.idx() == h2.1.rank.idx()
                && m[h1.1.suit.idx()] == m[h2.1.suit.idx()]) || (h1.0.rank.idx() == h2.1.rank.idx() && m[h1.0.suit.idx()]
                == m[h2.1.suit.idx()] && h1.1.rank.idx() == h2.0.rank.idx() && m[h1.1.suit.idx()] == m[h2.0.suit.idx()]))
        }),
{
    law_key_iff_equivalent(board, h1, h2);
}

/// On a well-formed board two hands share a key exactly when they are equivalent.
pub proof fn law_key_iff_equivalent(board: CardSet, h1: Hand, h2: Hand)
    requires
        board.wf(),
    ensures
        (spec_key(board, h1) == spec_key(board, h2)) <==> equivalent(board, h1, h2),
{
    let (a1, b1) = (card_trait(board, h1.0), card_trait(board, h1.1));
    let (a2, b2) = (card_trait(board, h2.0), card_trait(board, h2.1));
    let s1 = h1.0.suit == h1.1.suit;
    let s2 = h2.0.suit == h2.1.suit;
    let (lo1, hi1) = if trait_gt(a1, b1) { (b1, a1) } else { (a1, b1) };
    let (lo2, hi2) = if trait_gt(a2, b2) { (b2, a2) } else { (a2, b2) };
    let sb1: u64 = if s1 { 1 } else { 0 };
    let sb2: u64 = if s2 { 1 } else { 0 };
    assert(0 <= lo1.0 < 16 && 0 <= lo1.1 < 0x2000 && 0 <= hi1.0 < 16 && 0 <= hi1.1 < 0x2000);
    assert(0 <= lo2.0 < 16 && 0 <= lo2.1 < 0x2000 && 0 <= hi2.0 < 16 && 0 <= hi2.1 < 0x2000);
    lemma_unpack(lo1.0 as u64, lo1.1 as u64, hi1.0 as u64, hi1.1 as u64, sb1);
    lemma_unpack(lo2.0 as u64, lo2.1 as u64, hi2.0 as u64, hi2.1 as u64, sb2);
    assert(spec_key(board, h1) == pack_key(lo1, hi1, s1));
    assert(spec_key(board, h2) == pack_key(lo2, hi2, s2));
    if spec_key(board, h1) == spec_key(board, h2) {
        assert(lo1 == lo2 && hi1 == hi2 && s1 == s2);
    }
}

/// A map from hands to values in which equivalent hands share one entry.
pub struct EquivalenceHash<T> {
    map: HashMap<u64, T>,
}

impl<T> View for EquivalenceHash<T> {
    type V = Map<u64, T>;

    closed spec fn view(&self) -> Map<u64, T> {
        self.map@
    }
}

/// `HashMap::get_mut` of `std`: when the key is present, a mutable reference
/// to its value, through which the map's entry is changed; else nothing, and
/// the map is unchanged.
#[verifier::external_body]
fn map_get_mut<T>(m: &mut HashMap<u64, T>, k: u64) -> (r: Option<&mut T>)
    ensures
        match r {
            Some(v) => {
                &&& old(m)@.contains_key(k)
                &&& *v == old(m)@[k]
                &&& final(m)@ == old(m)@.insert(k, *final(v))
            },
            None => !old(m)@.contains_key(k) && final(m)@ == old(m)@,
        },
{
    m.get_mut(&k)
}

impl<T> EquivalenceHash<T> {
    pub fn new() -> (h: Self)
        ensures
            h@ == Map::<u64, T>::empty(),
    {
        Self { map: HashMap::new() }
    }

    /// The value stored for the class of `hand`, to be changed in place.
    pub fn lookup_hand_mut(&mut self, board: &CardSet, hand: Hand) -> (r: Option<&mut T>)
        ensures
            match r {
                Some(v) => {
                    &&& old(self)@.contains_key(spec_key(*board, hand))
                    &&& *v == old(self)@[spec_key(*board, hand)]
                    &&& final(self)@ == old(self)@.insert(spec_key(*board, hand), *final(v))
                },
                None => !old(self)@.contains_key(spec_key(*board, hand)) && final(self)@ == old(self)@,
            },
    {
        let k = equivalence_key(board, hand);
        map_get_mut(&mut self.map, k)
    }

    /// The value stored for the class of `hand`.
    pub fn lookup_hand(&self, board: &CardSet, hand: Hand) -> (r: Option<&T>)
        ensures
            match r {
                Some(v) => self@.contains_key(spec_key(*board, hand)) && *v == self@[spec_key(*board, hand)],
                None => !self@.contains_key(spec_key(*board, hand)),
            },
    {
        let k = equivalence_key(board, hand);
        self.map.get(&k)
    }

    /// Stores `value` for the class of `hand`.
    pub fn insert_hand(&mut self, board: &CardSet, hand: Hand, value: T)
        ensures
            final(self)@ == old(self)@.insert(spec_key(*board, hand), value),
            final(self)@.dom().finite(),
            final(self)@.len() == old(self)@.len() + if old(self)@.dom().contains(
                spec_key(*board, hand),
            ) {
                0int
            } else {
                1int
            },
    {
        proof {
            vstd::std_specs::hash::axiom_hashmap_view_finite_dom(self.map);
        }
        let k = equivalence_key(board, hand);
        self.map.insert(k, value);
        proof {
            assert(self@.dom() =~= old(self)@.dom().insert(k));
        }
    }

    /// Number of classes stored.
    pub fn len(&self) -> (n: usize)
        ensures
            n == self@.len(),
    {
        self.map.len()
    }

    pub fn is_empty(&self) -> (b: bool)
        ensures
            b == (self@.len() == 0),
    {
        proof {
            vstd::std_specs::hash::axiom_hashmap_view_finite_dom(self.map);
        }
        self.map.is_empty()
    }
}

impl<T> Default for EquivalenceHash<T> {
    fn default() -> (h: Self)
        ensures
            h@ == Map::<u64, T>::empty(),
    {
        Self::new()
    }
}

/// A lookup finds the value last stored for an equivalent hand: storing
/// under `h1` and looking up `h2` on a well-formed board gives the stored
/// value exactly when the hands are equivalent, and otherwise what was there.
pub proof fn law_lookup_after_insert<T>(m: Map<u64, T>, board: CardSet, h1: Hand, h2: Hand, v: T)
    requires
        board.wf(),
    ensures
        equivalent(board, h1, h2) ==> m.insert(spec_key(board, h1), v)[spec_key(board, h2)] == v
            && m.insert(spec_key(board, h1), v).contains_key(spec_key(board, h2)),
        !equivalent(board, h1, h2) ==> m.insert(spec_key(board, h1), v).contains_key(spec_key(board, h2))
            == m.contains_key(spec_key(board, h2)) && m.insert(spec_key(board, h1), v)[spec_key(
            board,
            h2,
        )] == m[spec_key(board, h2)],
{
    law_key_iff_equivalent(board, h1, h2);
}


/// The hand of flat position `p` in the 52 by 52 walk over first and second
/// cards.
pub open spec fn hand_at(p: int) -> Hand {
    (Card::at(p / 52), Card::at(p % 52))
}

/// A table of included hands, row by first card.
pub open spec fn table_view(included: &Vec<Vec<bool>>) -> Seq<Seq<bool>> {
    Seq::new(included.len() as nat, |i: int| included[i]@)
}

/// Position `p` lists a hand: the table includes it and its first card comes
/// after its second in the order of cards.
pub open spec fn is_listed(inc: Seq<Seq<bool>>, p: int) -> bool {
    let h = hand_at(p);
    &&& inc[p / 52][p % 52]
    &&& !(h.0.precedes(h.1) || h.0 == h.1)
}

/// The hands listed before position `p`, in walk order.
pub open spec fn listed_hands(inc: Seq<Seq<bool>>, p: int) -> Seq<Hand>
    decreases p,
{
    if p <= 0 {
        Seq::empty()
    } else if is_listed(inc, p - 1) {
        listed_hands(inc, p - 1).push(hand_at(p - 1))
    } else {
        listed_hands(inc, p - 1)
    }
}

/// One step of grouping: `h` joins the class whose first hand has its key,
/// or opens a new class at the end.
pub open spec fn group_step(board: CardSet, g: Seq<(Hand, Seq<Hand>)>, h: Hand) -> Seq<(Hand, Seq<Hand>)> {
    if exists|i: int| 0 <= i < g.len() && spec_key(board, g[i].0) == spec_key(board, h) {
        let i = choose|i: int| 0 <= i < g.len() && spec_key(board, g[i].0) == spec_key(board, h);
        g.update(i, (g[i].0, g[i].1.push(h)))
    } else {
        g.push((h, seq![h]))
    }
}

/// Hands grouped into classes of equivalent hands, in order of first
/// appearance: each class is its first hand and all its hands in order.
pub open spec fn grouped(board: CardSet, hs: Seq<Hand>) -> Seq<(Hand, Seq<Hand>)>
    decreases hs.len(),
{
    if hs.len() == 0 {
        Seq::empty()
    } else {
        group_step(board, grouped(board, hs.drop_last()), hs.last())
    }
}

/// The classes as plain values.
pub open spec fn classes_view(classes: Vec<(Hand, Vec<Hand>)>) -> Seq<(Hand, Seq<Hand>)> {
    Seq::new(classes.len() as nat, |i: int| (classes[i].0, classes[i].1@))
}

/// `index` maps the key of each class's first hand to the class's position,
/// and the classes have distinct keys.
pub open spec fn index_ok(board: CardSet, index: Map<u64, usize>, g: Seq<(Hand, Seq<Hand>)>) -> bool {
    &&& forall|i: int, j: int| 0 <= i < j < g.len() ==> spec_key(board, g[i].0) != spec_key(board, g[j].0)
    &&& forall|k: u64| #[trigger] index.contains_key(k) <==> exists|i: int|
        0 <= i < g.len() && spec_key(board, g[i].0) == k
    &&& forall|i: int| 0 <= i < g.len() ==> #[trigger] index[spec_key(board, g[i].0)] == i
}

fn add_to_class(board: &CardSet, index: &mut EquivalenceHash<usize>, classes: &mut Vec<(Hand, Vec<Hand>)>, hand: Hand)
    requires
        index_ok(*board, old(index)@, classes_view(*old(classes))),
    ensures
        classes_view(*final(classes)) == group_step(*board, classes_view(*old(classes)), hand),
        index_ok(*board, final(index)@, classes_view(*final(classes))),
{
    let ghost g = classes_view(*classes);
    let k = equivalence_key(board, hand);
    match index.lookup_hand(board, hand) {
        Some(idx_ref) => {
            let idx = *idx_ref;
            let ghost w = choose|w: int| 0 <= w < g.len() && spec_key(*board, g[w].0) == k;
            assert(idx == w);
            let ghost before = classes@;
            let mut entry = classes.remove(idx);
            entry.1.push(hand);
            classes.insert(idx, entry);
            proof {
                assert(classes_view(*classes) =~= g.update(w, (g[w].0, g[w].1.push(hand))));
                let g2 = classes_view(*classes);
                assert forall|a: int| 0 <= a < g2.len() implies g2[a].0 == g[a].0 by {}
                assert forall|kk: u64| #[trigger] index@.contains_key(kk) <==> exists|a: int|
                    0 <= a < g2.len() && spec_key(*board, g2[a].0) == kk by {
                    if index@.contains_key(kk) {
                        let a = choose|a: int| 0 <= a < g.len() && spec_key(*board, g[a].0) == kk;
                        assert(g2[a].0 == g[a].0);
                    }
                    if exists|a: int| 0 <= a < g2.len() && spec_key(*board, g2[a].0) == kk {
                        let a = choose|a: int| 0 <= a < g2.len() && spec_key(*board, g2[a].0) == kk;
                        assert(g2[a].0 == g[a].0);
                    }
                }
            }
        },
        None => {
            let ghost n = classes.len();
            let ghost old_index = index@;
            index.insert_hand(board, hand, classes.len());
            let members = vec![hand];
            assert(members@ =~= seq![hand]);
            classes.push((hand, members));
            proof {
                assert(!exists|w2: int| 0 <= w2 < g.len() && spec_key(*board, g[w2].0) == k);
                let g2 = classes_view(*classes);
                assert(g2 =~= g.push((hand, seq![hand])));
                assert forall|kk: u64| #[trigger] index@.contains_key(kk) <==> exists|a: int|
                    0 <= a < g2.len() && spec_key(*board, g2[a].0) == kk by {
                    if kk == k {
                        assert(g2[n as int].0 == hand);
                    } else {
                        if old_index.contains_key(kk) {
                            let a = choose|a: int| 0 <= a < g.len() && spec_key(*board, g[a].0) == kk;
                            assert(g2[a].0 == g[a].0);
                        }
                        if exists|a: int| 0 <= a < g2.len() && spec_key(*board, g2[a].0) == kk {
                            let a = choose|a: int| 0 <= a < g2.len() && spec_key(*board, g2[a].0) == kk;
                            assert(a != n);
                            assert(g2[a].0 == g[a].0);
                        }
                    }
                }
                assert forall|i: int| 0 <= i < g2.len() implies #[trigger] index@[spec_key(*board, g2[i].0)] == i by {
                    if i < n {
                        assert(g2[i].0 == g[i].0);
                    }
                }
            }
        },
    }
}

/// Groups the hands that `included` lists (first card after second in the
/// order of cards, walking first cards then second cards by number) into
/// classes of hands equivalent on `board`, each led by its first hand.
pub fn group_hand_classes(board: &CardSet, included: &Vec<Vec<bool>>) -> (classes: Vec<(Hand, Vec<Hand>)>)
    requires
        included.len() == 52,
        forall|i: int| 0 <= i < 52 ==> #[trigger] included[i].len() == 52,
    ensures
        classes_view(classes) == grouped(*board, listed_hands(table_view(included), 2704)),
{
    let ghost inc = table_view(included);
    let mut index = EquivalenceHash::<usize>::new();
    let mut classes: Vec<(Hand, Vec<Hand>)> = Vec::new();
    assert(classes_view(classes) =~= Seq::<(Hand, Seq<Hand>)>::empty());
    let mut p: usize = 0;
    while p < 2704
        invariant
            p <= 2704,
            inc == table_view(included),
            included.len() == 52,
            forall|i: int| 0 <= i < 52 ==> #[trigger] included[i].len() == 52,
            classes_view(classes) == grouped(*board, listed_hands(inc, p as int)),
            index_ok(*board, index@, classes_view(classes)),
        decreases 2704 - p,
    {
        let i = p / 52;
        let j = p % 52;
        assert(i < 52) by (nonlinear_arith)
            requires
                p < 2704,
                i == p / 52,
        ;
        assert(included[i as int].len() == 52);
        let c1 = Card::from_index(i);
        let c2 = Card::from_index(j);
        let ghost hs = listed_hands(inc, p as int);
        assert(hand_at(p as int) == (c1, c2));
        if included[i][j] && !c1.le(c2) {
            let hand = (c1, c2);
            assert(is_listed(inc, p as int));
            assert(listed_hands(inc, p + 1) == hs.push(hand));
            assert(hs.push(hand).drop_last() == hs);
            add_to_class(board, &mut index, &mut classes, hand);
        } else {
            assert(!is_listed(inc, p as int));
            assert(listed_hands(inc, p + 1) == hs);
        }
        p = p + 1;
    }
    classes
}

/// The keys of all hands of two distinct cards on `board`.
pub open spec fn hand_keys(board: CardSet) -> Set<u64> {
    Set::new(|k: u64| exists|c1: Card, c2: Card| c1 != c2 && spec_key(board, (c1, c2)) == k)
}

/// The key of a hand with ranks `lo <= hi` and no board cards in its suits.
pub open spec fn bare_key(lo: int, hi: int, suited: bool) -> u64 {
    pack_key((lo, 0), (hi, 0), suited)
}

/// The 169 classes of hands with no board cards, numbered `13 * a + b`:
/// a pair when `a == b`, suited when `a < b`, offsuit when `a > b`.
pub open spec fn bare_class_key(i: int) -> u64 {
    let a = i / 13;
    let b = i % 13;
    if a == b {
        bare_key(a, a, false)
    } else if a < b {
        bare_key(a, b, true)
    } else {
        bare_key(b, a, false)
    }
}

pub open spec fn bare_class_keys() -> Seq<u64> {
    Seq::new(169, |i: int| bare_class_key(i))
}

proof fn lemma_bare_key_parts(lo: int, hi: int, suited: bool)
    requires
        0 <= lo < 13,
        0 <= hi < 13,
    ensures
        bare_key(lo, hi, suited) & 0xF == lo,
        (bare_key(lo, hi, suited) >> 17u64) & 0xF == hi,
        (bare_key(lo, hi, suited) >> 34u64) == if suited { 1u64 } else { 0u64 },
{
    lemma_unpack(lo as u64, 0, hi as u64, 0, if suited { 1u64 } else { 0u64 });
}

proof fn lemma_class_index(i: int)
    requires
        0 <= i < 169,
    ensures
        0 <= i / 13 < 13,
        0 <= i % 13 < 13,
        i == 13 * (i / 13) + i % 13,
{
    vstd::arithmetic::div_mod::lemma_fundamental_div_mod(i, 13);
    vstd::arithmetic::div_mod::lemma_div_pos_is_pos(i, 13);
    vstd::arithmetic::div_mod::lemma_mod_bound(i, 13);
    assert(i / 13 < 13) by (nonlinear_arith)
        requires
            i == 13 * (i / 13) + i % 13,
            0 <= i % 13,
            i < 169,
    ;
}

proof fn lemma_class_of(a: int, b: int)
    requires
        0 <= a < 13,
        0 <= b < 13,
    ensures
        (13 * a + b) / 13 == a,
        (13 * a + b) % 13 == b,
{
    vstd::arithmetic::div_mod::lemma_fundamental_div_mod_converse(13 * a + b, 13, a, b);
}

/// The numbered classes have distinct keys.
proof fn lemma_bare_classes_distinct()
    ensures
        bare_class_keys().no_duplicates(),
{
    let s = bare_class_keys();
    assert forall|i: int, j: int| 0 <= i < s.len() && 0 <= j < s.len() && i != j implies s[i] != s[j] by {
        lemma_class_index(i);
        lemma_class_index(j);
        let (ai, bi, aj, bj) = (i / 13, i % 13, j / 13, j % 13);
        let li = if ai <= bi { ai } else { bi };
        let hi_ = if ai <= bi { bi } else { ai };
        let lj = if aj <= bj { aj } else { bj };
        let hj = if aj <= bj { bj } else { aj };
        lemma_bare_key_parts(li, hi_, ai < bi);
        lemma_bare_key_parts(lj, hj, aj < bj);
    }
}

/// With no board cards in any suit, as before the flop, the hands fall
/// into exactly 169 classes: 13 pairs, 78 suited and 78 offsuit
/// combinations of ranks.
pub proof fn law_bare_board_has_169_classes(board: CardSet)
    requires
        forall|s: int| 0 <= s < 4 ==> board.suit_masks[s] == 0,
    ensures
        hand_keys(board).finite(),
        hand_keys(board).len() == 169,
{
    let seq = bare_class_keys();
    assert forall|k: u64| hand_keys(board).contains(k) implies seq.to_set().contains(k) by {
        let (c1, c2) = choose|c1: Card, c2: Card| c1 != c2 && spec_key(board, (c1, c2)) == k;
        let (r1, r2) = (c1.rank.idx(), c2.rank.idx());
        assert(board.suit_masks[c1.suit.idx()] == 0);
        assert(board.suit_masks[c2.suit.idx()] == 0);
        let suited = c1.suit == c2.suit;
        let lo = if r1 <= r2 { r1 } else { r2 };
        let hi = if r1 <= r2 { r2 } else { r1 };
        assert(k == bare_key(lo, hi, suited));
        let i = if suited { 13 * lo + hi } else if lo == hi { 13 * lo + lo } else { 13 * hi + lo };
        if suited {
            assert(lo != hi);
            lemma_class_of(lo, hi);
        } else if lo == hi {
            lemma_class_of(lo, lo);
        } else {
            lemma_class_of(hi, lo);
        }
        assert(seq[i] == k);
    }
    assert forall|k: u64| seq.to_set().contains(k) implies hand_keys(board).contains(k) by {
        let i = choose|i: int| 0 <= i < seq.len() && seq[i] == k;
        lemma_class_index(i);
        let (a, b) = (i / 13, i % 13);
        crate::game::lemma_rank_of(a);
        crate::game::lemma_rank_of(b);
        let ca = Card { rank: crate::game::rank_of(a), suit: crate::game::Suit::Hearts };
        let cb_same = Card { rank: crate::game::rank_of(b), suit: crate::game::Suit::Hearts };
        let cb_other = Card { rank: crate::game::rank_of(b), suit: crate::game::Suit::Diamonds };
        if a < b {
            assert(ca != cb_same);
            assert(spec_key(board, (ca, cb_same)) == k);
        } else {
            assert(ca != cb_other);
            assert(spec_key(board, (ca, cb_other)) == k);
        }
    }
    assert(hand_keys(board) =~= seq.to_set());
    lemma_bare_classes_distinct();
    seq.unique_seq_to_set();
    vstd::seq_lib::seq_to_set_is_finite(seq);
}

} // verus!
