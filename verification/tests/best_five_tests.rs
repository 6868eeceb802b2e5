use anglerfish::cardset::CardSet;
use anglerfish::game::{Bet, Card, ChipState, Position, Rank, Suit};
use anglerfish::hash::{equivalence_key, group_hand_classes};
use anglerfish::tree::{NodeType, Spot};

fn card(s: &str) -> Card {
    let b = s.as_bytes();
    let rank = match b[0] {
        b'2' => Rank::Two,
        b'3' => Rank::Three,
        b'4' => Rank::Four,
        b'5' => Rank::Five,
        b'6' => Rank::Six,
        b'7' => Rank::Seven,
        b'8' => Rank::Eight,
        b'9' => Rank::Nine,
        b'T' => Rank::Ten,
        b'J' => Rank::Jack,
        b'Q' => Rank::Queen,
        b'K' => Rank::King,
        b'A' => Rank::Ace,
        _ => panic!("bad rank"),
    };
    let suit = match b[1] {
        b'h' => Suit::Hearts,
        b'd' => Suit::Diamonds,
        b's' => Suit::Spades,
        b'c' => Suit::Clubs,
        _ => panic!("bad suit"),
    };
    Card::new(rank, suit)
}

fn set_of(cards: &[Card]) -> CardSet {
    let mut cs = CardSet::blank();
    for c in cards {
        cs.update_with(*c);
    }
    cs
}

/// The best score of any five of `cards`, by trying every choice of five.
fn best_five_score(cards: &[Card]) -> i32 {
    let n = cards.len();
    let mut best = i32::MIN;
    for mask in 0u32..(1u32 << n) {
        if mask.count_ones() != 5 {
            continue;
        }
        let five: Vec<Card> = (0..n).filter(|i| mask & (1 << i) != 0).map(|i| cards[i]).collect();
        best = best.max(set_of(&five).score());
    }
    best
}

fn check_best_five(names: &[&str]) {
    let cards: Vec<Card> = names.iter().map(|s| card(s)).collect();
    assert_eq!(set_of(&cards).score(), best_five_score(&cards), "{:?}", names);
}

#[test]
fn seven_cards_score_as_their_best_five() {
    check_best_five(&["As", "Ks", "Qs", "Js", "Ts", "9s", "2h"]);
    check_best_five(&["5h", "4h", "3h", "2h", "Ah", "6c", "Kd"]);
    check_best_five(&["As", "Ah", "Ad", "Ac", "Ks", "Kh", "Kd"]);
    check_best_five(&["9s", "9h", "9d", "4c", "4s", "4h", "Ad"]);
    check_best_five(&["9s", "9h", "9d", "4c", "4s", "Jh", "Jd"]);
    check_best_five(&["Qh", "9h", "7h", "5h", "3h", "2h", "Kd"]);
    check_best_five(&["Ts", "9h", "8d", "7c", "6s", "5h", "4d"]);
    check_best_five(&["Ts", "Th", "9d", "8c", "7s", "6h", "2d"]);
    check_best_five(&["7s", "7h", "7d", "Kc", "9s", "4h", "2d"]);
    check_best_five(&["7s", "7h", "3d", "3c", "Js", "Jh", "2d"]);
    check_best_five(&["7s", "7h", "3d", "3c", "Js", "4h", "2d"]);
    check_best_five(&["Ks", "Kh", "9d", "7c", "5s", "4h", "2d"]);
    check_best_five(&["Ks", "Jh", "9d", "7c", "5s", "4h", "2d"]);
}

#[test]
fn six_cards_score_as_their_best_five() {
    check_best_five(&["As", "Ks", "Qs", "Js", "Ts", "9s"]);
    check_best_five(&["Ac", "Ad", "Ah", "As", "2c", "2d"]);
    check_best_five(&["8c", "8d", "8h", "5s", "5c", "5d"]);
    check_best_five(&["6c", "6d", "4h", "4s", "2c", "2d"]);
    check_best_five(&["Kc", "Jd", "9h", "7s", "5c", "3d"]);
    check_best_five(&["Ah", "2d", "3h", "4s", "5c", "6d"]);
}

#[test]
fn extra_cards_never_lower_the_score() {
    let names = ["Jd", "Jc", "8s", "8h", "3c", "Qd", "Qh"];
    let cards: Vec<Card> = names.iter().map(|s| card(s)).collect();
    for k in 5..=7 {
        assert!(set_of(&cards[..k]).score() <= set_of(&cards[..7]).score());
    }
    // three pairs: the best two pairs and the best kicker count
    assert_eq!(
        set_of(&cards).score(),
        set_of(&[card("Qd"), card("Qh"), card("Jd"), card("Jc"), card("8s")]).score()
    );
}

#[test]
fn hand_classes_on_an_empty_board() {
    let board = CardSet::blank();
    let included = vec![vec![true; 52]; 52];
    let classes = group_hand_classes(&board, &included);
    assert_eq!(classes.len(), 169);
    let total: usize = classes.iter().map(|(_, hands)| hands.len()).sum();
    assert_eq!(total, 1326);
    // the first hand of the walk leads the first class
    assert_eq!(classes[0].0, (Card::from_index(1), Card::from_index(0)));
    for (lead, hands) in &classes {
        assert_eq!(hands[0], *lead);
        for h in hands {
            assert_eq!(equivalence_key(&board, *h), equivalence_key(&board, *lead));
            assert!(!h.0.le(h.1));
        }
    }
}

#[test]
fn hand_classes_follow_the_table() {
    let board = set_of(&[card("Ah"), card("Kh"), card("2c")]);
    let mut included = vec![vec![false; 52]; 52];
    let hands = [(card("Qh"), card("Jh")), (card("Qd"), card("Jd")), (card("Qs"), card("Js")), (card("Jh"), card("Qh"))];
    for (a, b) in hands {
        included[a.index()][b.index()] = true;
    }
    let classes = group_hand_classes(&board, &included);
    // Q-J of hearts stands alone (its suit holds board cards); the diamonds
    // and spades versions share a class; J-Q written low card first is not
    // listed.
    assert_eq!(classes.len(), 2);
    let total: usize = classes.iter().map(|(_, hs)| hs.len()).sum();
    assert_eq!(total, 3);
    let hearts = classes.iter().find(|(lead, _)| *lead == (card("Qh"), card("Jh"))).unwrap();
    assert_eq!(hearts.1, vec![(card("Qh"), card("Jh"))]);
    let other = classes.iter().find(|(lead, _)| *lead != (card("Qh"), card("Jh"))).unwrap();
    assert_eq!(other.1.len(), 2);
}

#[test]
fn refunds_are_exact_and_idempotent() {
    let mut cs = ChipState { pot: 20, sb_stack: 40, bb_stack: 50, sb_this_street: 12, bb_this_street: 4, max_bet: 12 };
    cs.refund_uncalled();
    assert_eq!(cs, ChipState { pot: 12, sb_stack: 48, bb_stack: 50, sb_this_street: 4, bb_this_street: 4, max_bet: 12 });
    let once = cs;
    cs.refund_uncalled();
    assert_eq!(cs, once);
    let mut even = ChipState { pot: 8, sb_stack: 1, bb_stack: 2, sb_this_street: 3, bb_this_street: 3, max_bet: 3 };
    let before = even;
    even.refund_uncalled();
    assert_eq!(even, before);
    let mut bet = ChipState { pot: 3, sb_stack: 99, bb_stack: 98, sb_this_street: 1, bb_this_street: 2, max_bet: 2 };
    bet.update_with(Bet::SBBet(5));
    assert_eq!(bet.sb_stack, 94);
}

#[test]
fn successors_keep_stacks_non_negative() {
    // short stacks: every action of every node two levels down keeps both
    // stacks at zero or more
    let root = Spot {
        terminal: false,
        position: Position::SmallBlind,
        node_type: NodeType::BehindNode,
        chip_state: ChipState { pot: 3, sb_stack: 5, bb_stack: 4, sb_this_street: 1, bb_this_street: 2, max_bet: 2 },
        outcome: None,
        streets_remaining: 4,
        actions_this_street: 0,
    };
    let mut frontier = vec![root];
    for _ in 0..3 {
        let mut next = vec![];
        for s in &frontier {
            if s.terminal {
                continue;
            }
            let n = if s.node_type == NodeType::EvenNode { 5 } else { 4 };
            for a in 0..n {
                let c = s.successor(a).unwrap();
                assert!(c.chip_state.sb_stack >= 0 && c.chip_state.bb_stack >= 0);
                assert_eq!(
                    c.chip_state.pot + c.chip_state.sb_stack + c.chip_state.bb_stack,
                    s.chip_state.pot + s.chip_state.sb_stack + s.chip_state.bb_stack
                );
                next.push(c);
            }
        }
        frontier = next;
    }
}

#[test]
fn showdowns_of_seven_cards_follow_the_best_fives() {
    let board = ["Kd", "9s", "9h", "4c", "2d"];
    let holes = [["Ks", "Kc"], ["9d", "3c"], ["Ah", "Kh"], ["5h", "3h"], ["Jc", "Tc"], ["4h", "4d"]];
    for x in &holes {
        for y in &holes {
            let a: Vec<Card> = board.iter().chain(x.iter()).map(|s| card(s)).collect();
            let b: Vec<Card> = board.iter().chain(y.iter()).map(|s| card(s)).collect();
            let (sa, sb) = (set_of(&a), set_of(&b));
            assert_eq!(sa.score() > sb.score(), best_five_score(&a) > best_five_score(&b));
            assert_eq!(sa.score() == sb.score(), best_five_score(&a) == best_five_score(&b));
        }
    }
    // kings full of nines beats three nines
    let kings: Vec<Card> = board.iter().chain(["Ks", "Kc"].iter()).map(|s| card(s)).collect();
    let nines: Vec<Card> = board.iter().chain(["9d", "3c"].iter()).map(|s| card(s)).collect();
    assert!(set_of(&kings).score() > set_of(&nines).score());
}
