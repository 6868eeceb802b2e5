//! The xorshift generator that drives shuffles, runouts and playouts.

use vstd::prelude::*;
use crate::game::{Card, lemma_card_idx_injective, lemma_card_at};

verus! {

pub struct XorShiftU64 {
    pub state: u64,
}

/// Modulus that the seed is reduced by.
pub const SEED: u128 = 0xF8D1C463A579BE02;

/// One xorshift step (shifts 13, 7, 17).
pub open spec fn xorshift(x: u64) -> u64 {
    let a = x ^ (x << 13u64);
    let b = a ^ (a >> 7u64);
    b ^ (b << 17u64)
}

/// The state after `n` steps.
pub open spec fn xorshift_n(x: u64, n: nat) -> u64
    decreases n,
{
    if n == 0 {
        x
    } else {
        xorshift_n(xorshift(x), (n - 1) as nat)
    }
}

/// `SystemTime::elapsed` of `std` on the Unix epoch, as whole nanoseconds;
/// `None` when the clock reads earlier than the epoch (the error of
/// `elapsed`). Nothing is promised of the reading: it is the clock's.
#[verifier::external_body]
fn nanos_since_epoch() -> Option<u128> {
    match std::time::UNIX_EPOCH.elapsed() {
        Ok(d) => Some(d.as_nanos()),
        Err(_) => None,
    }
}

/// Fisher-Yates from position `i` down to 1 on `p`, drawing from `state`:
/// the final order and the final state.
pub open spec fn fisher_yates(p: Seq<Card>, state: u64, i: int) -> (Seq<Card>, u64)
    decreases i,
{
    if i < 1 {
        (p, state)
    } else {
        let s = xorshift(state);
        let j = (s % ((i + 1) as u64)) as int;
        fisher_yates(p.update(i, p[j]).update(j, p[i]), s, i - 1)
    }
}

/// The 52 cards in card-number order.
pub open spec fn deck() -> Seq<Card> {
    Seq::new(52, |i: int| Card::at(i))
}

/// Card number `i` has been seen.
pub open spec fn is_seen(seen: u64, i: int) -> bool {
    seen & (1u64 << (i as u64)) != 0
}

/// The card drawn by the `k`-th step from `state` (counting from 1).
pub open spec fn draw_at(state: u64, k: nat) -> int {
    (xorshift_n(state, k) % 52) as int
}

impl XorShiftU64 {
    /// A generator seeded from the clock: the nanoseconds since the Unix
    /// epoch modulo `SEED`; `None` when the clock reads earlier than the
    /// epoch.
    pub fn new() -> (r: Option<Self>)
        ensures
            r matches Some(g) ==> g.state < SEED,
    {
        match nanos_since_epoch() {
            Some(nanos) => Some(Self::from_nanos(nanos)),
            None => None,
        }
    }

    /// A generator seeded from a clock reading in nanoseconds.
    pub fn from_nanos(nanos: u128) -> (r: Self)
        ensures
            r.state == nanos % SEED,
    {
        Self { state: (nanos % SEED) as u64 }
    }

    /// Advances the state one step and returns it.
    pub fn next(&mut self) -> (x: u64)
        ensures
            x == xorshift(old(self).state),
            final(self).state == x,
    {
        let mut x = self.state;
        x ^= x << 13u64;
        x ^= x >> 7u64;
        x ^= x << 17u64;
        self.state = x;
        x
    }

    /// `l` plus the next state modulo the width `r - l + 1`: a number in
    /// `l..=r` when `l <= r`. The width and the sum must fit in `i64`, and the
    /// width must not be zero.
    pub fn gen_range(&mut self, l: i64, r: i64) -> (x: i64)
        requires
            i64::MIN <= r - l,
            r - l + 1 <= i64::MAX,
            r - l + 1 != 0,
            i64::MIN <= l + ((xorshift(old(self).state) % ((r - l + 1) as u64)) as i64) <= i64::MAX,
        ensures
            final(self).state == xorshift(old(self).state),
            x == l + ((final(self).state % ((r - l + 1) as u64)) as i64),
            l <= r ==> l <= x <= r,
    {
        let width: i64 = r - l + 1;
        assert(width != 0 ==> width as u64 != 0) by (bit_vector);
        let range = width as u64;
        let v = self.next() % range;
        l + v as i64
    }

    /// Fisher-Yates shuffle of the 52 cards.
    pub fn shuffle(&mut self) -> (p: [Card; 52])
        ensures
            (p@, final(self).state) == fisher_yates(deck(), old(self).state, 51),
            forall|i: int, j: int| 0 <= i < j < 52 ==> p[i] != p[j],
            forall|i: int| 0 <= i < 52 ==> 0 <= #[trigger] p[i].idx() < 52,
            forall|c: Card| #[trigger] p@.contains(c),
    {
        let mut p = [Card::from_index(0); 52];
        let mut k: usize = 0;
        while k < 52
            invariant
                k <= 52,
                forall|i: int| 0 <= i < k ==> p[i] == Card::at(i),
            decreases 52 - k,
        {
            p[k] = Card::from_index(k);
            k = k + 1;
        }
        assert(p@ =~= deck());
        proof {
            assert forall|a: int, b: int| 0 <= a < b < 52 implies p[a] != p[b] by {
                lemma_card_at(a);
                lemma_card_at(b);
            }
        }

        let ghost s0 = self.state;
        let mut i: usize = 51;
        while i >= 1
            invariant
                i <= 51,
                fisher_yates(deck(), s0, 51) == fisher_yates(p@, self.state, i as int),
                forall|a: int, b: int| 0 <= a < b < 52 ==> p[a] != p[b],
                forall|a: int| 0 <= a < 52 ==> 0 <= #[trigger] p[a].idx() < 52,
            decreases i,
        {
            let j = self.gen_range(0, i as i64) as usize;
            let pi = p[i];
            let pj = p[j];
            proof {
                assert(p@.update(i as int, pj).update(j as int, pi) =~= {
                    let q = p@;
                    q.update(i as int, q[j as int]).update(j as int, q[i as int])
                });
            }
            p[i] = pj;
            p[j] = pi;
            i = i - 1;
        }
        proof {
            assert forall|c: Card| #[trigger] p@.contains(c) by {
                lemma_card_idx_injective(c, c);
                distinct_cover(p@, c);
            }
        }
        p
    }

    /// Draws cards until one not yet in `seen` comes up, marks it seen and
    /// returns it.
    ///
    /// After `u64::MAX` fruitless draws the generator has gone through its
    /// whole period, so further draws would only repeat: the lowest unseen
    /// card is taken then.
    pub fn next_card(&mut self, seen: &mut u64) -> (c: Card)
        requires
            exists|i: int| 0 <= i < 52 && !is_seen(*old(seen), i),
        ensures
            card_drawn(old(self).state, *old(seen), c, final(self).state),
            *final(seen) == *old(seen) | c.mask(),
    {
        let ghost s0 = self.state;
        let ghost seen0 = *seen;
        let mut tries: u64 = 0;
        let mut found: Option<usize> = None;
        while tries < u64::MAX
            invariant_except_break
                found.is_none(),
                forall|t: nat| 1 <= t <= tries ==> is_seen(seen0, #[trigger] draw_at(s0, t)),
            invariant
                self.state == xorshift_n(s0, tries as nat),
                *seen == seen0,
            ensures
                *seen == seen0,
                self.state == xorshift_n(s0, tries as nat),
                found matches Some(i) ==> {
                    &&& i < 52
                    &&& !is_seen(seen0, i as int)
                    &&& tries >= 1
                    &&& i == draw_at(s0, tries as nat)
                    &&& forall|t: nat| 1 <= t < tries ==> is_seen(seen0, #[trigger] draw_at(s0, t))
                },
                found.is_none() ==> tries == u64::MAX && forall|t: nat| 1 <= t <= tries ==> is_seen(
                    seen0,
                    #[trigger] draw_at(s0, t),
                ),
            decreases u64::MAX - tries,
        {
            let idx = self.gen_range(0, 51) as usize;
            tries = tries + 1;
            proof {
                lemma_xorshift_n_step(s0, (tries - 1) as nat);
                assert(idx == draw_at(s0, tries as nat));
            }
            if *seen & (1u64 << (idx as u64)) == 0 {
                found = Some(idx);
                break;
            }
        }
        let idx = match found {
            Some(i) => i,
            None => {
                let mut i: usize = 0;
                while *seen & (1u64 << (i as u64)) != 0
                    invariant
                        0 <= i < 52,
                        *seen == seen0,
                        exists|j: int| i <= j < 52 && !is_seen(seen0, j),
                        forall|j: int| 0 <= j < i ==> is_seen(seen0, j),
                    decreases 52 - i,
                {
                    i = i + 1;
                }
                i
            },
        };
        proof {
            assert(found.is_none() ==> forall|j: int| 0 <= j < idx ==> is_seen(seen0, j));
        }
        let c = Card::from_index(idx);
        *seen = *seen | c.card_mask();
        proof {
            let k = tries as nat;
            assert(1 <= k);
            assert(forall|t: nat| 1 <= t < k ==> is_seen(seen0, #[trigger] draw_at(s0, t)));
            assert(found.is_none() ==> is_seen(seen0, draw_at(s0, k)));
        }
        c
    }
}

/// `c` is the card that `next_card` takes from generator state `s0` while
/// the cards of `seen` are out, leaving the generator at `s1`: the first
/// unseen card the draws come up with, or, once `u64::MAX` draws all came
/// up seen, the lowest unseen card.
pub open spec fn card_drawn(s0: u64, seen: u64, c: Card, s1: u64) -> bool {
    &&& 0 <= c.idx() < 52
    &&& !is_seen(seen, c.idx())
    &&& exists|k: nat|
        {
            &&& 1 <= k
            &&& s1 == xorshift_n(s0, k)
            &&& forall|t: nat| 1 <= t < k ==> is_seen(seen, #[trigger] draw_at(s0, t))
            &&& (c.idx() == draw_at(s0, k) || (k == u64::MAX && is_seen(seen, draw_at(s0, k))
                && forall|i: int| 0 <= i < c.idx() ==> is_seen(seen, i)))
        }
}

/// Each xorshift step is invertible, so a nonzero state never becomes zero
/// and the generator never sticks at zero: every later state is nonzero too.
pub proof fn law_xorshift_nonzero(x: u64, n: nat)
    requires
        x != 0,
    ensures
        xorshift(x) != 0,
        xorshift_n(x, n) != 0,
    decreases n,
{
    assert(x != 0 ==> {
        let a = x ^ (x << 13u64);
        let b = a ^ (a >> 7u64);
        b ^ (b << 17u64) != 0
    }) by (bit_vector);
    if n > 0 {
        law_xorshift_nonzero(xorshift(x), (n - 1) as nat);
    }
}

/// The state after `n + 1` steps is one step
/// after the state after `n`.
pub proof fn lemma_xorshift_n_step(x: u64, n: nat)
    ensures
        xorshift_n(x, n + 1) == xorshift(xorshift_n(x, n)),
    decreases n,
{
    reveal_with_fuel(xorshift_n, 2);
    if n > 0 {
        lemma_xorshift_n_step(xorshift(x), (n - 1) as nat);
    }
}

/// 52 distinct card numbers below 52 cover every card.
proof fn distinct_cover(p: Seq<Card>, c: Card)
    requires
        p.len() == 52,
        forall|a: int, b: int| 0 <= a < b < 52 ==> p[a] != p[b],
        forall|a: int| 0 <= a < 52 ==> 0 <= #[trigger] p[a].idx() < 52,
    ensures
        p.contains(c),
{
    let x = vstd::set_lib::set_int_range(0, 52);
    let f = |a: int| p[a].idx();
    vstd::set_lib::lemma_int_range(0, 52);
    assert(vstd::relations::injective_on(f, x)) by {
        assert forall|a: int, b: int| x.contains(a) && x.contains(b) && #[trigger] f(a) == #[trigger] f(b)
            implies a == b by {
            lemma_card_idx_injective(p[a], p[b]);
            if a < b {
                assert(p[a] != p[b]);
            } else if b < a {
                assert(p[b] != p[a]);
            }
        }
    }
    let y = x.map(f);
    vstd::set_lib::lemma_map_size(x, y, f);
    assert(y.subset_of(x));
    vstd::set_lib::lemma_subset_equality(y, x);
    lemma_card_idx_injective(c, c);
    assert(x.contains(c.idx()));
    assert(y.contains(c.idx()));
    let a = choose|a: int| x.contains(a) && f(a) == c.idx();
    lemma_card_idx_injective(p[a], c);
    assert(p[a] == c);
}

} // verus!
