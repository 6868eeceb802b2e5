use anglerfish::bits::{bit_count, top_n_ranks};
use anglerfish::cache::ScoreCache;
use anglerfish::cardset::CardSet;
use anglerfish::game::{Bet, Card, ChipState, Outcome, Position, Rank, Suit};
use anglerfish::hash::{equivalence_key, EquivalenceHash};
use anglerfish::rng::XorShiftU64;
use anglerfish::state::GameState;
use anglerfish::tree::{same_successor, NodeType, Spot};

fn card(s: &str) -> Card {
    let b = s.as_bytes();
    let rank = match b[0] {
        b'2' => Rank::Two,
        b'3' => Rank::Three,
        b'4' => Rank::Four,
        b'5' => Rank::Five,
        b'6' => Rank::Six,
        b'7' => Rank::Seven,
        b'8' => Rank::Eight,
        b'9' => Rank::Nine,
        b'T' => Rank::Ten,
        b'J' => Rank::Jack,
        b'Q' => Rank::Queen,
        b'K' => Rank::King,
        b'A' => Rank::Ace,
        _ => panic!("bad rank"),
    };
    let suit = match b[1] {
        b'h' => Suit::Hearts,
        b'd' => Suit::Diamonds,
        b's' => Suit::Spades,
        b'c' => Suit::Clubs,
        _ => panic!("bad suit"),
    };
    Card::new(rank, suit)
}

fn set(cards: &[&str]) -> CardSet {
    let mut cs = CardSet::blank();
    for c in cards {
        cs.update_with(card(c));
    }
    cs
}

fn chips(pot: i32, sb_stack: i32, bb_stack: i32, sb: i32, bb: i32, max_bet: i32) -> ChipState {
    ChipState { pot, sb_stack, bb_stack, sb_this_street: sb, bb_this_street: bb, max_bet }
}

#[test]
fn card_numbering() {
    assert_eq!(card("2h").index(), 0);
    assert_eq!(card("Ah").index(), 12);
    assert_eq!(card("2d").index(), 13);
    assert_eq!(card("Ac").index(), 51);
    for i in 0..52 {
        assert_eq!(Card::from_index(i).index(), i);
    }
    assert_eq!(card("Ts").card_mask(), 1u64 << 34);
    assert!(card("Kh").le(card("Ad")));
    assert!(card("Ad").le(card("As")));
    assert!(!card("As").le(card("Ad")));
    assert_eq!(card("Tc").rank.symbol(), 'T');
    assert_eq!(card("Tc").suit.symbol(), 'c');
}

#[test]
fn positions_alternate() {
    assert_eq!(Position::SmallBlind.next(), Position::BigBlind);
    assert_eq!(Position::BigBlind.next(), Position::SmallBlind);
    assert_eq!(Position::SmallBlind.next().next(), Position::SmallBlind);
}

#[test]
fn bets_and_refunds_keep_chips() {
    let mut cs = chips(3, 99, 98, 1, 2, 2);
    cs.update_with(Bet::SBBet(5));
    assert_eq!(cs, chips(8, 94, 98, 6, 2, 6));
    cs.update_with(Bet::BBBet(1));
    assert_eq!(cs, chips(9, 94, 97, 6, 3, 6));
    cs.refund_uncalled();
    assert_eq!(cs, chips(6, 97, 97, 3, 3, 6));
    assert_eq!(cs.pot + cs.sb_stack + cs.bb_stack, 200);

    let mut c2 = chips(10, 50, 40, 0, 7, 7);
    c2.refund_uncalled();
    assert_eq!(c2, chips(3, 50, 47, 0, 0, 7));
}

#[test]
fn bit_helpers() {
    assert_eq!(bit_count(0), 0);
    assert_eq!(bit_count(0b1011_0110), 5);
    assert_eq!(bit_count(0x1FFF), 13);
    assert_eq!(top_n_ranks(0b101_1011, 3), 0b101_1000);
    assert_eq!(top_n_ranks(0b101_1011, 9), 0b101_1011);
    assert_eq!(top_n_ranks(0b101_1011, 0), 0);
}

#[test]
fn straight_table() {
    let t = CardSet::straight_masks();
    assert_eq!(t, [0x1F00, 0x0F80, 0x07C0, 0x03E0, 0x01F0, 0x00F8, 0x007C, 0x003E, 0x001F, 0x100F]);
    assert_eq!(CardSet::straight_high(0x1F00, &t), Some(10));
    assert_eq!(CardSet::straight_high(0x100F, &t), Some(1));
    assert_eq!(CardSet::straight_high(0x1F80, &t), Some(10));
    assert_eq!(CardSet::straight_high(0x0F0F, &t), None);
    assert_eq!(CardSet::straight_high(0x0F1F, &t), Some(2));
    assert_eq!(CardSet::straight_high(0x1E0F, &t), Some(1));
    assert_eq!(CardSet::straight_high(0x1B6D, &t), None);
}

#[test]
fn exact_scores() {
    // straight flushes: ace-high and the wheel
    assert_eq!(set(&["As", "Ks", "Qs", "Js", "Ts"]).score(), 2_000_000_010);
    assert_eq!(set(&["As", "2s", "3s", "4s", "5s"]).score(), 2_000_000_001);
    // four aces, ten kicker (bit 8)
    assert_eq!(set(&["As", "Ah", "Ad", "Ac", "Ts"]).score(), 1_800_000_000 + 12 * 10_000_000 + 256);
    // aces full of deuces
    assert_eq!(set(&["As", "Ah", "Ad", "2c", "2s"]).score(), 1_600_000_000 + 12 * 10_000_000);
    // ace-high flush A Q J T 2
    assert_eq!(
        set(&["As", "2s", "Qs", "Js", "Ts"]).score(),
        1_400_000_000 + (1 << 12) + (1 << 10) + (1 << 9) + (1 << 8) + 1
    );
    // king-high straight
    assert_eq!(set(&["9s", "Kc", "Qs", "Js", "Ts"]).score(), 1_200_000_000 + 9);
    // three deuces with ten and five
    assert_eq!(set(&["2s", "2h", "2d", "5c", "Ts"]).score(), 1_000_000_000 + (1 << 8) + (1 << 3));
    // aces and deuces, king kicker
    assert_eq!(
        set(&["As", "Ah", "2s", "2h", "Ks"]).score(),
        800_000_000 + 12 * 10_000_000 + (1 << 11)
    );
    // pair of kings, A Q J
    assert_eq!(
        set(&["Ks", "Kh", "As", "Qs", "Js"]).score(),
        600_000_000 + 11 * 10_000_000 + (1 << 12) + (1 << 10) + (1 << 9)
    );
    // high card keeps the five best of seven ranks
    assert_eq!(
        set(&["As", "Kd", "9c", "7h", "5s", "3d", "2c"]).score(),
        (1 << 12) + (1 << 11) + (1 << 7) + (1 << 5) + (1 << 3)
    );
    assert_eq!(CardSet::blank().score(), 0);
}

#[test]
fn cards_of_a_set() {
    let cs = set(&["Ac", "2h", "Ts", "Td"]);
    let cards = cs.get_cards();
    assert_eq!(cards, vec![card("2h"), card("Td"), card("Ts"), card("Ac")]);
    assert!(CardSet::blank().get_cards().is_empty());
}

#[test]
fn adding_cards_commutes() {
    let a = set(&["Ah", "Kd", "Kc"]);
    let b = set(&["Kc", "Ah", "Kd"]);
    assert!(a == b);
    assert_eq!(a.rank_counts[11], 2);
    assert_eq!(a.suit_masks[3], 1 << 11);
}

#[test]
fn suit_relabelling_keeps_score() {
    let a = set(&["Ah", "Kh", "Qh", "9h", "2h", "2d", "3s"]);
    let b = set(&["As", "Ks", "Qs", "9s", "2s", "2c", "3h"]);
    assert_eq!(a.score(), b.score());
}

#[test]
fn xorshift_steps() {
    let mut rng = XorShiftU64 { state: 1 };
    assert_eq!(rng.next(), 1_082_269_761);
    assert_eq!(rng.state, 1_082_269_761);
    let mut z = XorShiftU64 { state: 0 };
    assert_eq!(z.next(), 0);
    assert_eq!(XorShiftU64::from_nanos(0xF8D1C463A579BE02 + 5).state, 5);
    assert!((XorShiftU64::new().unwrap().state as u128) < 0xF8D1C463A579BE02);
}

#[test]
fn ranges_stay_inside() {
    let mut rng = XorShiftU64 { state: 88172645463325252 };
    for _ in 0..1000 {
        let x = rng.gen_range(-3, 4);
        assert!(-3 <= x && x <= 4);
    }
    let mut one = XorShiftU64 { state: 1 };
    assert_eq!(one.gen_range(10, 10), 10);
    let mut two = XorShiftU64 { state: 1 };
    assert_eq!(two.gen_range(0, 51), (1_082_269_761u64 % 52) as i64);
}

#[test]
fn shuffle_is_a_permutation() {
    let mut rng = XorShiftU64 { state: 12345 };
    let p = rng.shuffle();
    let mut seen = [false; 52];
    for c in p.iter() {
        assert!(!seen[c.index()]);
        seen[c.index()] = true;
    }
    assert!(seen.iter().all(|&b| b));
    let mut again = XorShiftU64 { state: 12345 };
    assert_eq!(again.shuffle(), p);
}

#[test]
fn next_card_draws_unseen() {
    let mut rng = XorShiftU64 { state: 777 };
    let mut seen: u64 = 0;
    for _ in 0..52 {
        let before = seen;
        let c = rng.next_card(&mut seen);
        assert_eq!(before & c.card_mask(), 0);
        assert_eq!(seen, before | c.card_mask());
    }
    assert_eq!(seen, (1u64 << 52) - 1);
}

#[test]
fn equivalent_hands_share_entries() {
    let board = set(&["2c", "7c", "Kd"]);
    let mut h: EquivalenceHash<u32> = EquivalenceHash::new();
    assert!(h.is_empty());
    h.insert_hand(&board, (card("Ah"), card("As")), 7);
    // same ranks, suits that hit nothing on the board, unsuited: equivalent
    assert_eq!(h.lookup_hand(&board, (card("As"), card("Ah"))), Some(&7));
    // a club pairs up with the board's clubs: different class
    assert_eq!(h.lookup_hand(&board, (card("Ac"), card("Ah"))), None);
    h.insert_hand(&board, (card("Ac"), card("Ah")), 9);
    assert_eq!(h.len(), 2);
    if let Some(v) = h.lookup_hand_mut(&board, (card("Ah"), card("Ac"))) {
        *v = 10;
    }
    assert_eq!(h.lookup_hand(&board, (card("Ac"), card("Ah"))), Some(&10));
    assert_eq!(h.lookup_hand(&board, (card("As"), card("Ah"))), Some(&7));
    // suited and offsuit differ
    let preflop = CardSet::blank();
    let mut p: EquivalenceHash<u8> = EquivalenceHash::default();
    p.insert_hand(&preflop, (card("Ah"), card("Kh")), 1);
    assert_eq!(p.lookup_hand(&preflop, (card("As"), card("Ks"))), Some(&1));
    assert_eq!(p.lookup_hand(&preflop, (card("As"), card("Kh"))), None);
}

#[test]
fn score_cache_of_a_board() {
    let board = set(&["2c", "7d", "9h", "Js", "Kc"]);
    let cache = ScoreCache::from_board(board);
    let n = cache.sorted_hands.len();
    assert_eq!(n, 1326);
    for k in 0..n {
        let (a, b) = cache.sorted_hands[k];
        assert!(b.le(a) && a != b);
        let s = cache.scores[a.index() * 52 + b.index()].unwrap();
        assert_eq!(cache.scores[b.index() * 52 + a.index()], Some(s));
        let mut cs = board;
        cs.update_with(a);
        cs.update_with(b);
        assert_eq!(s, cs.score());
        if k > 0 {
            let (pa, pb) = cache.sorted_hands[k - 1];
            assert!(cache.scores[pa.index() * 52 + pb.index()].unwrap() <= s);
        }
        assert_eq!(cache.sorted_index[a.index() * 52 + b.index()] as usize, k);
        assert_eq!(cache.sorted_index[b.index() * 52 + a.index()] as usize, k);
        let fe = cache.first_equal[k] as usize;
        let fg = cache.first_greater[k] as usize;
        assert!(fe <= k && k < fg && fg <= n);
    }
    for i in 0..52 {
        assert_eq!(cache.scores[i * 52 + i], None);
        assert_eq!(cache.hands_by_card[i].len(), 51);
        for k in 0..n {
            let fe = cache.first_equal[k] as usize;
            let count = cache.hands_by_card[i].iter().filter(|&&x| x < fe).count();
            assert_eq!(cache.blocked_before_equal[i][k] as usize, count);
            let fg = cache.first_greater[k] as usize;
            let count = cache.hands_by_card[i].iter().filter(|&&x| x < fg).count();
            assert_eq!(cache.blocked_before_greater[i][k] as usize, count);
        }
    }
}

fn spot(cs: ChipState, position: Position, node_type: NodeType, streets: u8, actions: u8) -> Spot {
    Spot {
        terminal: false,
        position,
        node_type,
        chip_state: cs,
        outcome: None,
        streets_remaining: streets,
        actions_this_street: actions,
    }
}

#[test]
fn preflop_tree_rules() {
    // small blind to act preflop, blinds 1 and 2, stacks 99 and 98
    let root = spot(chips(3, 99, 98, 1, 2, 2), Position::SmallBlind, NodeType::BehindNode, 4, 0);
    let fold = root.successor(0).unwrap();
    assert!(fold.terminal);
    assert_eq!(fold.outcome, Some(Outcome::SBFolded));
    assert_eq!(fold.node_type, NodeType::AheadNode);
    let call = root.successor(1).unwrap();
    assert!(!call.terminal);
    assert_eq!(call.position, Position::BigBlind);
    assert_eq!(call.node_type, NodeType::EvenNode);
    assert_eq!(call.chip_state, chips(4, 98, 98, 2, 2, 2));
    assert_eq!(call.actions_this_street, 1);
    let raise = root.successor(2).unwrap();
    // 2.5x of 2 is 5 in total: 4 more
    assert_eq!(raise.chip_state, chips(7, 95, 98, 5, 2, 5));
    assert_eq!(raise.node_type, NodeType::BehindNode);
    assert_eq!(raise.position, Position::BigBlind);
    let jam = root.successor(3).unwrap();
    assert_eq!(jam.chip_state, chips(102, 0, 98, 100, 2, 100));

    // big blind checks behind: the flop comes with the big blind first
    let flop = call.successor(0).unwrap();
    assert!(!flop.terminal);
    assert_eq!(flop.streets_remaining, 3);
    assert_eq!(flop.position, Position::BigBlind);
    assert_eq!(flop.chip_state, chips(4, 98, 98, 0, 0, 0));
    // a half-pot bet on the flop
    let bet = flop.successor(2).unwrap();
    assert_eq!(bet.chip_state, chips(6, 98, 96, 0, 2, 2));
}

#[test]
fn calling_an_all_in_goes_to_showdown() {
    let facing = spot(chips(102, 0, 98, 100, 2, 100), Position::BigBlind, NodeType::BehindNode, 4, 1);
    let call = facing.successor(1).unwrap();
    assert!(call.terminal);
    assert_eq!(call.outcome, Some(Outcome::Showdown));
    assert_eq!(call.chip_state, chips(200, 0, 0, 100, 100, 100));
    let legal = facing.legal_actions(&[
        facing.successor(0).unwrap(),
        facing.successor(1).unwrap(),
        facing.successor(2).unwrap(),
        facing.successor(3).unwrap(),
    ]);
    // raising an all-in player is pointless; folding and calling remain
    assert_eq!(legal, [true, true, false, false]);
    assert!(same_successor(&facing.successor(2).unwrap(), &facing.successor(3).unwrap()));

    // an uncalled part goes back at showdown
    let short = spot(chips(102, 100, 0, 100, 2, 100), Position::BigBlind, NodeType::BehindNode, 2, 1);
    let call = short.successor(1).unwrap();
    assert!(call.terminal);
    assert_eq!(call.chip_state, chips(4, 198, 0, 2, 2, 100));
}

#[test]
fn even_node_duplicates_are_illegal() {
    // a tiny stack: every bet is all-in
    let s = spot(chips(20, 3, 50, 0, 0, 0), Position::SmallBlind, NodeType::EvenNode, 3, 1);
    let kids = [
        s.successor(0).unwrap(),
        s.successor(1).unwrap(),
        s.successor(2).unwrap(),
        s.successor(3).unwrap(),
        s.successor(4).unwrap(),
    ];
    assert_eq!(s.legal_actions(&kids), [true, true, false, false, false]);
    assert!(Spot { terminal: true, ..s }.successor(0).is_none());
}

#[test]
fn large_stacks_bet_without_overflow() {
    // chips far beyond a usual table, still within the machine integers
    let s = spot(chips(1_000_000_000, 500_000_000, 500_000_000, 0, 0, 0), Position::BigBlind, NodeType::EvenNode, 2, 0);
    let quarter = s.successor(1).unwrap();
    assert_eq!(quarter.chip_state, chips(1_250_000_000, 500_000_000, 250_000_000, 0, 250_000_000, 250_000_000));
    // the small blind re-raises to 2.5x: 625 million in total, capped by its stack
    let reraise = quarter.successor(2).unwrap();
    assert_eq!(reraise.chip_state, chips(1_750_000_000, 0, 250_000_000, 500_000_000, 250_000_000, 500_000_000));
    assert_eq!(reraise.node_type, NodeType::BehindNode);
    // calling it closes the round with the big blind all-in too
    let call = reraise.successor(1).unwrap();
    assert!(call.terminal);
    assert_eq!(call.outcome, Some(Outcome::Showdown));
    assert_eq!(call.chip_state, chips(2_000_000_000, 0, 0, 500_000_000, 500_000_000, 500_000_000));
}

fn game() -> GameState {
    GameState {
        chip_state: chips(10, 95, 95, 0, 0, 5),
        turn: Position::SmallBlind,
        board: CardSet::blank(),
        hero_hand: (card("2s"), card("2h")),
        seen: 0,
        board_len: 0,
    }
}

#[test]
fn game_state_bookkeeping() {
    let mut g = game();
    g.set_hero_hand((card("2s"), card("2h")));
    assert_eq!(g.seen, card("2s").card_mask() | card("2h").card_mask());
    assert_eq!(g.streets_remaining(), 4);
    g.set_hero_hand((card("Ah"), card("Kd")));
    assert_eq!(g.seen, card("Ah").card_mask() | card("Kd").card_mask());
    for c in ["2c", "Ac", "5h"] {
        g.add_card(card(c));
    }
    assert_eq!(g.board_len, 3);
    assert_eq!(g.streets_remaining(), 3);
    assert_eq!(g.board.get_cards(), vec![card("5h"), card("2c"), card("Ac")]);
    g.remove_hero_hand();
    assert_eq!(g.seen, card("2c").card_mask() | card("Ac").card_mask() | card("5h").card_mask());
    assert_eq!(g.actions_this_street(), 1);
    let root = g.root_spot();
    assert_eq!(root.node_type, NodeType::EvenNode);
    assert_eq!(root.streets_remaining, 3);
}

#[test]
fn runouts_fill_the_board() {
    let mut g = game();
    g.set_hero_hand((card("Ah"), card("Kd")));
    g.add_card(card("2c"));
    g.add_card(card("Ac"));
    g.add_card(card("5h"));
    let before = g.seen;
    let r = g.gen_runout().unwrap();
    assert_eq!(r.board_len, 5);
    assert_eq!(r.seen & before, before);
    assert_eq!((r.seen & !before).count_ones(), 2);
    assert_eq!(r.board.get_cards().len(), 5);
    let mut rng = XorShiftU64 { state: 99 };
    let r2 = g.gen_runout_with(&mut rng);
    let mut rng_again = XorShiftU64 { state: 99 };
    assert!(g.gen_runout_with(&mut rng_again).seen == r2.seen);
    // from state 99 the first two unseen draws are the king of hearts, then of clubs
    assert_eq!(r2.seen, before | card("Kh").card_mask() | card("Kc").card_mask());
    let mut board = g.board;
    board.update_with(card("Kh"));
    board.update_with(card("Kc"));
    assert!(r2.board == board);
    assert_eq!(rng.state, 3_465_698_345_866_405_010);
}

#[test]
fn gen_range_with_reversed_bounds_wraps_the_width() {
    // the width 0 - 5 + 1 wraps to 2^64 - 4; the first state from 1 is far below it
    let mut rng = XorShiftU64 { state: 1 };
    assert_eq!(rng.gen_range(5, 0), 1_082_269_766);
}

#[test]
fn preflop_has_169_hand_classes() {
    let board = CardSet::blank();
    let mut h: EquivalenceHash<u8> = EquivalenceHash::new();
    for i in 0..52 {
        for j in 0..52 {
            let (a, b) = (Card::from_index(i), Card::from_index(j));
            if b < a {
                h.insert_hand(&board, (a, b), 0);
            }
        }
    }
    assert_eq!(h.len(), 169);
}

#[test]
fn key_ignores_card_order() {
    let board = set(&["Qh", "8h", "3s", "Tc"]);
    let mut h: EquivalenceHash<i32> = EquivalenceHash::new();
    for i in 0..52 {
        for j in 0..52 {
            if i == j {
                continue;
            }
            let (a, b) = (Card::from_index(i), Card::from_index(j));
            h.insert_hand(&board, (a, b), 1);
            assert_eq!(h.lookup_hand(&board, (b, a)), Some(&1));
            h.insert_hand(&board, (b, a), 0);
        }
    }
}

#[test]
fn cached_runouts_complete_the_board() {
    let mut g = game();
    g.set_hero_hand((card("Ah"), card("Kd")));
    for c in ["2c", "Ac", "5h", "9d"] {
        g.add_card(card(c));
    }
    let runs = g.cached_runouts(3).unwrap();
    assert_eq!(runs.len(), 3);
    let public = g.seen & !(card("Ah").card_mask() | card("Kd").card_mask());
    for r in &runs {
        assert_eq!(r.public_seen & public, public);
        assert_eq!((r.public_seen & !public).count_ones(), 1);
        assert_eq!(r.cache.sorted_hands.len(), 1326);
    }
}

#[test]
fn card_sets_order_by_score() {
    let flush = set(&["As", "2s", "Qs", "Js", "Ts"]);
    let straight = set(&["As", "Kc", "Qs", "Js", "Ts"]);
    assert!(flush > straight);
    assert!(straight < flush);
    assert_eq!(flush.partial_cmp(&flush), Some(std::cmp::Ordering::Equal));
    // a set with bits beyond the thirteen ranks is not compared
    let mut odd = straight;
    odd.suit_masks[0] = 0x4000;
    assert_eq!(odd.partial_cmp(&flush), None);
    assert!(!(odd < flush) && !(odd > flush));
}

#[test]
fn keys_of_equivalent_hands_match() {
    let blank = CardSet::blank();
    let ak_suited = equivalence_key(&blank, (card("As"), card("Ks")));
    assert_eq!(ak_suited, equivalence_key(&blank, (card("Kh"), card("Ah"))));
    assert_ne!(ak_suited, equivalence_key(&blank, (card("As"), card("Kh"))));
    // on a board with spades, the spade suit is no longer interchangeable
    let board = set(&["2s", "7d", "9c"]);
    assert_ne!(equivalence_key(&board, (card("As"), card("Ks"))), equivalence_key(&board, (card("Ah"), card("Kh"))));
    assert_eq!(equivalence_key(&board, (card("Ah"), card("Kh"))), equivalence_key(&board, (card("Kh"), card("Ah"))));
    let mut h: EquivalenceHash<u8> = EquivalenceHash::new();
    h.insert_hand(&blank, (card("As"), card("Ks")), 1);
    assert_eq!(h.len(), 1);
    h.insert_hand(&blank, (card("Ad"), card("Kd")), 2);
    assert_eq!(h.len(), 1);
    h.insert_hand(&blank, (card("Ad"), card("Kc")), 3);
    assert_eq!(h.len(), 2);
    assert_eq!(h.lookup_hand(&blank, (card("Kh"), card("Ah"))), Some(&2));
}
