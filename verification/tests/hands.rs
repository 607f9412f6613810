use poker_hand::{Card, Hand};

fn hand(cards: [&str; 5]) -> Hand {
    Hand::from_cards(
        Card::from_str(cards[0]),
        Card::from_str(cards[1]),
        Card::from_str(cards[2]),
        Card::from_str(cards[3]),
        Card::from_str(cards[4]),
    )
}

fn score(cards: [&str; 5]) -> u32 {
    hand(cards).score()
}

#[test]
fn high_card() {
    let score = Hand::from_cards(
        Card::from_str("Ah"),
        Card::from_str("Qd"),
        Card::from_str("Jc"),
        Card::from_str("9s"),
        Card::from_str("3d"),
    )
    .score();

    assert_eq!(score, 0x100e_cb93);
}

#[test]
fn pair() {
    let score = Hand::from_cards(
        Card::from_str("Ah"),
        Card::from_str("Qd"),
        Card::from_str("Jc"),
        Card::from_str("Js"),
        Card::from_str("3d"),
    )
    .score();

    assert_eq!(score, 0x2000_bec3);
}

#[test]
fn two_pair() {
    let score = Hand::from_cards(
        Card::from_str("Ah"),
        Card::from_str("Qd"),
        Card::from_str("Qc"),
        Card::from_str("Js"),
        Card::from_str("Jd"),
    )
    .score();

    assert_eq!(score, 0x3000_0cbe);
}

#[test]
fn trips() {
    let score = Hand::from_cards(
        Card::from_str("Ah"),
        Card::from_str("Qd"),
        Card::from_str("Qc"),
        Card::from_str("Qs"),
        Card::from_str("Jd"),
    )
    .score();

    assert_eq!(score, 0x4000_0ceb);
}

#[test]
fn wheel_straight() {
    let score = Hand::from_cards(
        Card::from_str("Ah"),
        Card::from_str("2s"),
        Card::from_str("3d"),
        Card::from_str("4c"),
        Card::from_str("5d"),
    )
    .score();

    assert_eq!(score, 0x5000_0005);
}

#[test]
fn straight() {
    let score = Hand::from_cards(
        Card::from_str("Ah"),
        Card::from_str("Ks"),
        Card::from_str("Qd"),
        Card::from_str("Jc"),
        Card::from_str("Td"),
    )
    .score();

    assert_eq!(score, 0x5000_000e);
}

#[test]
fn flush() {
    let score = Hand::from_cards(
        Card::from_str("Ah"),
        Card::from_str("Qh"),
        Card::from_str("Jh"),
        Card::from_str("9h"),
        Card::from_str("3h"),
    )
    .score();

    assert_eq!(score, 0x600e_cb93);
}

#[test]
fn full_house() {
    let score = Hand::from_cards(
        Card::from_str("Ah"),
        Card::from_str("Qd"),
        Card::from_str("Qc"),
        Card::from_str("Qs"),
        Card::from_str("Ad"),
    )
    .score();

    assert_eq!(score, 0x7000_00ce);
}

#[test]
fn quads() {
    let score = Hand::from_cards(
        Card::from_str("Qh"),
        Card::from_str("Qd"),
        Card::from_str("Qc"),
        Card::from_str("Qs"),
        Card::from_str("Ad"),
    )
    .score();

    assert_eq!(score, 0x8000_00ce);
}

#[test]
fn wheel_straight_flush() {
    let score = Hand::from_cards(
        Card::from_str("Ac"),
        Card::from_str("2c"),
        Card::from_str("3c"),
        Card::from_str("4c"),
        Card::from_str("5c"),
    )
    .score();

    assert_eq!(score, 0x9000_0005);
}

#[test]
fn straight_flush() {
    let score = Hand::from_cards(
        Card::from_str("Ac"),
        Card::from_str("Kc"),
        Card::from_str("Qc"),
        Card::from_str("Jc"),
        Card::from_str("Tc"),
    )
    .score();

    assert_eq!(score, 0x9000_000e);
}

#[test]
fn a_higher_category_beats_any_tie_break() {
    // The weakest hand of each category against the strongest of the one below.
    let ladder = [
        (score(["7h", "5d", "4c", "3s", "2d"]), score(["Ah", "Kd", "Qc", "Js", "9d"])),
        (score(["2h", "2d", "3c", "4s", "5d"]), score(["Ah", "Ad", "Kc", "Qs", "Jd"])),
        (score(["3h", "3d", "2c", "2s", "4d"]), score(["Ah", "Ad", "Kc", "Ks", "Qd"])),
        (score(["2h", "2d", "2c", "3s", "4d"]), score(["Ah", "Ad", "Ac", "Ks", "Qd"])),
        (score(["Ah", "2d", "3c", "4s", "5d"]), score(["Ah", "Kd", "Qc", "Js", "Td"])),
        (score(["7h", "5h", "4h", "3h", "2h"]), score(["Ah", "Kh", "Qh", "Jh", "9h"])),
        (score(["2h", "2d", "2c", "3s", "3d"]), score(["Ah", "Ad", "Ac", "Ks", "Kd"])),
        (score(["2h", "2d", "2c", "2s", "3d"]), score(["Ah", "Ad", "Ac", "As", "Kd"])),
        (score(["Ah", "2h", "3h", "4h", "5h"]), score(["Ah", "Kh", "Qh", "Jh", "Th"])),
    ];
    for (tag, (weakest, strongest)) in ladder.iter().enumerate() {
        assert_eq!(weakest >> 28, tag as u32 + 1);
        assert_eq!(strongest >> 28, tag as u32 + 1);
        assert!(weakest <= strongest);
    }
    for pair in ladder.windows(2) {
        assert!(pair[0].1 < pair[1].0);
    }
}

#[test]
fn kickers_break_ties_within_a_category() {
    // The last kicker decides.
    assert!(score(["Ah", "Qd", "Jc", "Js", "3d"]) > score(["Ad", "Qh", "Jd", "Jh", "2c"]));
    // The pair's rank counts before any kicker.
    assert!(score(["Qh", "Qd", "4c", "3s", "2d"]) > score(["Jd", "Jh", "Ad", "Kh", "Tc"]));
    // Of two pairs the higher pair counts first, then the lower, then the kicker.
    assert!(score(["Ah", "Ad", "2c", "2s", "3d"]) > score(["Kd", "Kh", "Qd", "Qh", "Ac"]));
    assert!(score(["Ah", "Ad", "3c", "3s", "4d"]) > score(["As", "Ac", "2d", "2h", "Kc"]));
    assert!(score(["Ah", "Ad", "3c", "3s", "4d"]) > score(["As", "Ac", "3d", "3h", "2c"]));
    // In a full house the three count before the two.
    assert!(score(["3h", "3d", "3c", "2s", "2d"]) > score(["2c", "2h", "2s", "Ah", "Ad"]));
    // In a flush and in a high card every rank counts, the highest first.
    assert!(score(["Ah", "Qh", "Jh", "9h", "4h"]) > score(["Ad", "Qd", "Jd", "9d", "3d"]));
    assert!(score(["Ah", "Qd", "Jc", "9s", "4d"]) > score(["Ad", "Qh", "Jd", "9h", "3c"]));
    assert!(score(["Kh", "3d", "4c", "5s", "7d"]) > score(["Qd", "Jh", "Td", "9h", "7c"]));
}

#[test]
fn hands_that_tie_have_the_same_score() {
    assert_eq!(score(["Ah", "Qd", "Jc", "Js", "3d"]), score(["Ad", "Qh", "Jd", "Jh", "3c"]));
    assert_eq!(score(["Ah", "Kh", "Qh", "Jh", "Th"]), score(["As", "Ks", "Qs", "Js", "Ts"]));
}

#[test]
fn the_wheel_is_the_weakest_straight() {
    let wheel = score(["5h", "4d", "3c", "2s", "Ad"]);
    let six_high = score(["6h", "5d", "4c", "3s", "2d"]);
    assert_eq!(wheel, 0x5000_0005);
    assert_eq!(six_high, 0x5000_0006);
    assert!(wheel < six_high);
    let suited_wheel = score(["5h", "4h", "3h", "2h", "Ah"]);
    let suited_six_high = score(["6d", "5d", "4d", "3d", "2d"]);
    assert_eq!(suited_wheel, 0x9000_0005);
    assert_eq!(suited_six_high, 0x9000_0006);
    assert!(suited_wheel < suited_six_high);
}

#[test]
fn every_straight_is_found() {
    let ranks = ['2', '3', '4', '5', '6', '7', '8', '9', 'T', 'J', 'Q', 'K', 'A'];
    let suits = ['c', 'd', 'h', 's', 'c'];
    for low in 0..9 {
        let cards: Vec<Card> =
            (0..5).map(|k| Card::from_chars(ranks[low + k], suits[k])).collect();
        let hand = Hand::from_cards(cards[3], cards[0], cards[4], cards[2], cards[1]);
        assert_eq!(hand.score(), 0x5000_0000 + low as u32 + 6);
    }
}

#[test]
fn the_order_of_the_cards_does_not_matter() {
    let hands = [
        ["Ah", "Qd", "Jc", "9s", "3d"],
        ["Ah", "Qd", "Jc", "Js", "3d"],
        ["Ah", "Qd", "Qc", "Js", "Jd"],
        ["Ah", "Qd", "Qc", "Qs", "Jd"],
        ["Ah", "2s", "3d", "4c", "5d"],
        ["Ah", "Qh", "Jh", "9h", "3h"],
        ["Ah", "Qd", "Qc", "Qs", "Ad"],
        ["Qh", "Qd", "Qc", "Qs", "Ad"],
        ["Ac", "2c", "3c", "4c", "5c"],
    ];
    for cards in hands {
        let expected = score(cards);
        for a in 0..5 {
            for b in 0..5 {
                for c in 0..5 {
                    for d in 0..5 {
                        for e in 0..5 {
                            let picked = [a, b, c, d, e];
                            if (0..5).all(|i| picked.contains(&i)) {
                                let permuted = [cards[a], cards[b], cards[c], cards[d], cards[e]];
                                assert_eq!(score(permuted), expected);
                                assert!(hand(permuted).strength() == hand(cards).strength());
                            }
                        }
                    }
                }
            }
        }
    }
}

#[test]
fn four_cards_in_sequence_make_no_straight() {
    // The two highest and the three lowest are in sequence, the five are not.
    assert_eq!(score(["Kh", "Qd", "9c", "8s", "7d"]), 0x100d_c987);
    // An ace over three cards in sequence below a second five.
    assert_eq!(score(["Ah", "5d", "5c", "4s", "3d"]), 0x2000_5e43);
    // An ace over four cards in sequence that are not five to deuce.
    assert_eq!(score(["Ah", "9d", "8c", "7s", "6d"]), 0x100e_9876);
    // Five to deuce under a king.
    assert_eq!(score(["Kh", "5d", "4c", "3s", "2d"]), 0x100d_5432);
    assert_eq!(score(["Kh", "Qh", "9h", "8h", "7h"]), 0x600d_c987);
}

#[test]
fn groups_of_one_size_stand_by_falling_rank() {
    // Pair below its kickers.
    assert_eq!(score(["Ah", "Kd", "Qc", "2s", "2d"]), 0x2000_2edc);
    // Pair between its kickers.
    assert_eq!(score(["Ah", "9d", "9c", "4s", "2d"]), 0x2000_9e42);
    // Two pair with the kicker on top, in the middle and below.
    assert_eq!(score(["Ah", "Qd", "Qc", "Js", "Jd"]), 0x3000_0cbe);
    assert_eq!(score(["Kh", "Kd", "Qc", "Js", "Jd"]), 0x3000_0dbc);
    assert_eq!(score(["Kh", "Kd", "Qc", "Qs", "Jd"]), 0x3000_0dcb);
    // Trips below and above their kickers.
    assert_eq!(score(["Ah", "Kd", "2c", "2s", "2d"]), 0x4000_02ed);
    assert_eq!(score(["Ah", "Ad", "Ac", "Ks", "2d"]), 0x4000_0ed2);
    // Full house with the pair on top; quads below their kicker.
    assert_eq!(score(["Ah", "Ad", "2c", "2s", "2d"]), 0x7000_002e);
    assert_eq!(score(["Ah", "2h", "2c", "2s", "2d"]), 0x8000_002e);
}

#[test]
fn strengths_compare_as_scores() {
    let high_card = hand(["Ah", "Qd", "Jc", "9s", "3d"]);
    let pair = hand(["2h", "2d", "3c", "4s", "5d"]);
    let same_pair = hand(["2c", "2s", "3d", "4h", "5c"]);
    assert!(pair.strength() > high_card.strength());
    assert!(high_card.strength() < pair.strength());
    assert!(pair.strength() >= same_pair.strength());
    assert!(pair.strength() <= same_pair.strength());
    assert!(pair.strength() == same_pair.strength());
    assert!(pair.strength() != high_card.strength());
    assert_eq!(pair.strength().max(high_card.strength()), pair.strength());
    assert_eq!(
        pair.strength().partial_cmp(&high_card.strength()),
        Some(std::cmp::Ordering::Greater)
    );
    assert_eq!(pair.strength().cmp(&same_pair.strength()), std::cmp::Ordering::Equal);
}

#[test]
fn a_card_held_twice_is_scored_as_it_stands() {
    // Five of one rank fall into one group of five: no pair, trips or quads.
    assert_eq!(score(["Ah", "Ad", "Ac", "As", "Ah"]), 0x100e_eeee);
    assert_eq!(score(["Ah", "Ah", "Ah", "Ah", "Ah"]), 0x600e_eeee);
}
