use poker_hand::{Card, Category, HandStrength, Rank, Suit};

const RANK_CHARS: [char; 13] = ['2', '3', '4', '5', '6', '7', '8', '9', 'T', 'J', 'Q', 'K', 'A'];
const SUIT_CHARS: [char; 4] = ['c', 'd', 'h', 's'];

#[test]
fn set_and_access_rank_and_suit() {
    let card = Card::from_str("Ks");
    assert_eq!(card.suit(), Suit::from_char('s'));
    assert_eq!(card.rank(), Rank::from_char('K'));
}

#[test]
fn rank() {
    assert_eq!(std::mem::size_of::<Rank>(), std::mem::size_of::<u8>());
}

#[test]
fn suit() {
    assert_eq!(std::mem::size_of::<Suit>(), std::mem::size_of::<u8>());
}

#[test]
fn card() {
    assert_eq!(std::mem::size_of::<Card>(), std::mem::size_of::<u8>());
}

#[test]
fn hand_strength() {
    assert_eq!(std::mem::size_of::<HandStrength>(), std::mem::size_of::<u32>());
}

#[test]
fn every_card_gives_back_its_rank_and_suit() {
    for r in RANK_CHARS {
        for s in SUIT_CHARS {
            let text = format!("{}{}", r, s);
            let parsed = Card::from_str(&text);
            assert_eq!(parsed.rank(), Rank::from_char(r));
            assert_eq!(parsed.suit(), Suit::from_char(s));
            let built = Card::from_chars(r, s);
            assert_eq!(built, parsed);
            let created = Card::create(Rank::from_char(r), Suit::from_char(s));
            assert_eq!(created, parsed);
            assert_eq!(created.rank(), Rank::from_char(r));
            assert_eq!(created.suit(), Suit::from_char(s));
        }
    }
}

#[test]
fn different_characters_give_different_ranks() {
    for (i, a) in RANK_CHARS.iter().enumerate() {
        for (j, b) in RANK_CHARS.iter().enumerate() {
            assert_eq!(Rank::from_char(*a) == Rank::from_char(*b), i == j);
        }
    }
}

#[test]
fn different_characters_give_different_suits() {
    for (i, a) in SUIT_CHARS.iter().enumerate() {
        for (j, b) in SUIT_CHARS.iter().enumerate() {
            assert_eq!(Suit::from_char(*a) == Suit::from_char(*b), i == j);
        }
    }
}

#[test]
fn cards_differ_when_rank_or_suit_differs() {
    assert_ne!(Card::from_str("Ks"), Card::from_str("Kh"));
    assert_ne!(Card::from_str("Ks"), Card::from_str("Qs"));
    assert_eq!(Card::from_str("Ks"), Card::from_chars('K', 's'));
}

#[test]
fn category_tags_run_from_one_to_nine() {
    assert_eq!(Category::HighCard.tag(), 1);
    assert_eq!(Category::OnePair.tag(), 2);
    assert_eq!(Category::TwoPair.tag(), 3);
    assert_eq!(Category::Trips.tag(), 4);
    assert_eq!(Category::Straight.tag(), 5);
    assert_eq!(Category::Flush.tag(), 6);
    assert_eq!(Category::FullHouse.tag(), 7);
    assert_eq!(Category::Quads.tag(), 8);
    assert_eq!(Category::StraightFlush.tag(), 9);
}
