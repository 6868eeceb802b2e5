use anglerfish::cardset::CardSet;
use anglerfish::game::{Card, Rank, Suit};
use std::cmp::Ordering;

fn card(s: &str) -> Card {
    let b = s.as_bytes();
    let rank = match b[0] {
        b'2' => Rank::Two,
        b'3' => Rank::Three,
        b'4' => Rank::Four,
        b'5' => Rank::Five,
        b'6' => Rank::Six,
        b'7' => Rank::Seven,
        b'8' => Rank::Eight,
        b'9' => Rank::Nine,
        b'T' => Rank::Ten,
        b'J' => Rank::Jack,
        b'Q' => Rank::Queen,
        b'K' => Rank::King,
        b'A' => Rank::Ace,
        _ => panic!("bad rank"),
    };
    let suit = match b[1] {
        b'h' => Suit::Hearts,
        b'd' => Suit::Diamonds,
        b's' => Suit::Spades,
        b'c' => Suit::Clubs,
        _ => panic!("bad suit"),
    };
    Card::new(rank, suit)
}

fn hand(cards: &[&str]) -> CardSet {
    let mut cs = CardSet::blank();
    for c in cards {
        cs.update_with(card(c));
    }
    cs
}

#[test]
fn test_hand_ranks() {
    let royal = hand(&["As", "Ks", "Qs", "Js", "Ts"]);
    let steel_wheel = hand(&["As", "2s", "3s", "4s", "5s"]);

    let quad_aces = hand(&["As", "Ah", "Ad", "Ac", "Ts"]);
    let worse_quad_aces = hand(&["As", "Ah", "Ad", "Ac", "3s"]);
    let quad_deuces = hand(&["2s", "2h", "2d", "2c", "Ts"]);

    let aces_full_of_deuces = hand(&["As", "Ah", "Ad", "2c", "2s"]);
    let also_aces_full_of_deuces = hand(&["2c", "2s", "2d", "As", "Ad", "Ah"]);
    let kings_full_of_queens = hand(&["Ks", "Kh", "Kd", "Qc", "Qs"]);

    let ace_high_flush = hand(&["As", "2s", "Qs", "Js", "Ts"]);
    let king_high_flush = hand(&["Ks", "2s", "Qs", "Js", "Ts"]);

    let ace_high_straight = hand(&["As", "Kc", "Qs", "Js", "Ts"]);
    let king_high_straight = hand(&["9s", "Kc", "Qs", "Js", "Ts"]);

    let three_aces = hand(&["As", "Ah", "Ad", "Jc", "Ts"]);
    let three_deuces = hand(&["2s", "2h", "2d", "5c", "Ts"]);

    let aces_and_deuces = hand(&["As", "Ah", "2s", "2h", "Ks"]);
    let kings_and_queens = hand(&["Ks", "Kh", "Qs", "Qh", "9s"]);
    let three_pair = hand(&["Ks", "Kh", "Qs", "Qh", "9s", "9h"]);

    let pair_aces = hand(&["As", "Ah", "Ks", "Qs", "Js"]);
    let worse_pair_aces = hand(&["As", "Ah", "Qs", "Js", "Ts"]);
    let pair_kings = hand(&["Ks", "Kh", "As", "Qs", "Js"]);

    let ace_high = hand(&["As", "Ks", "Qs", "Js", "9d"]);
    let different_suits = hand(&["Ad", "Kd", "Qd", "Jd", "9s"]);

    assert!(royal > steel_wheel);

    assert!(steel_wheel > quad_aces);
    assert!(quad_aces > worse_quad_aces);
    assert!(worse_quad_aces > quad_deuces);

    assert!(quad_deuces > aces_full_of_deuces);
    assert!(aces_full_of_deuces > kings_full_of_queens);
    assert_eq!(aces_full_of_deuces.compare(&also_aces_full_of_deuces), Ordering::Equal);

    assert!(kings_full_of_queens > ace_high_flush);
    assert!(ace_high_flush > king_high_flush);

    assert!(king_high_flush > ace_high_straight);
    assert!(ace_high_straight > king_high_straight);

    assert!(king_high_straight > three_aces);
    assert!(three_aces > three_deuces);

    assert!(three_deuces > aces_and_deuces);
    assert!(aces_and_deuces > kings_and_queens);
    assert_eq!(kings_and_queens.compare(&three_pair), Ordering::Equal);

    assert!(kings_and_queens > pair_aces);
    assert!(pair_aces > worse_pair_aces);
    assert!(worse_pair_aces > pair_kings);

    assert!(pair_kings > ace_high);
    assert_eq!(ace_high.compare(&different_suits), Ordering::Equal);
}

#[test]
fn test_sevens() {
    let royal_5 = hand(&["As", "Ks", "Qs", "Js", "Ts"]);
    let royal_7 = hand(&["As", "Ks", "Qs", "Js", "Ts", "2h", "3d"]);

    let quad_aces_5 = hand(&["As", "Ah", "Ad", "Ac", "Ts"]);
    let quad_aces_7 = hand(&["As", "Ah", "Ad", "Ac", "Ts", "2h", "3d"]);

    let ace_high_flush_5 = hand(&["As", "Qs", "Js", "Ts", "2s"]);
    let ace_high_flush_7 = hand(&["As", "Qs", "Js", "Ts", "2s", "3h", "7d"]);

    let three_aces_5 = hand(&["As", "Ah", "Ad", "Jc", "Ts"]);
    let three_aces_7 = hand(&["As", "Ah", "Ad", "Jc", "Ts", "2h", "3d"]);

    let aces_and_deuces_5 = hand(&["As", "Ah", "2s", "2h", "Ks"]);
    let aces_and_deuces_7 = hand(&["As", "Ah", "2s", "2h", "Ks", "3c", "4d"]);

    let pair_aces_5 = hand(&["As", "Ah", "Ks", "Qs", "Js"]);
    let pair_aces_7 = hand(&["As", "Ah", "Ks", "Qs", "Js", "2c", "3d"]);

    assert_eq!(royal_5.compare(&royal_7), Ordering::Equal);
    assert_eq!(quad_aces_5.compare(&quad_aces_7), Ordering::Equal);
    assert_eq!(ace_high_flush_5.compare(&ace_high_flush_7), Ordering::Equal);
    assert_eq!(three_aces_5.compare(&three_aces_7), Ordering::Equal);
    assert_eq!(aces_and_deuces_5.compare(&aces_and_deuces_7), Ordering::Equal);
    assert_eq!(pair_aces_5.compare(&pair_aces_7), Ordering::Equal);
}
