//! Suits, ranks and cards.

use vstd::prelude::*;

verus! {

/// One of the four suits, held as an ordinal: clubs 1, diamonds 2, hearts 3,
/// spades 4. Suits are never ordered against each other.
#[derive(Copy, Clone, Debug, PartialEq, Eq, Structural)]
pub struct Suit {
    internal: u8,
}

impl Suit {
    /// Every suit holds an ordinal from 1 to 4.
    #[verifier::type_invariant]
    pub closed spec fn wf(self) -> bool {
        1 <= self.internal <= 4
    }

    /// The suit's ordinal.
    pub closed spec fn ordinal(self) -> int {
        self.internal as int
    }

    /// The characters that name a suit: lower case only.
    pub open spec fn is_suit_char(c: char) -> bool {
        c == 'c' || c == 'd' || c == 'h' || c == 's'
    }

    /// The ordinal that a suit character stands for.
    pub open spec fn ordinal_of(c: char) -> int {
        if c == 'c' {
            1
        } else if c == 'd' {
            2
        } else if c == 'h' {
            3
        } else {
            4
        }
    }

    /// The suit that a suit character names.
    pub closed spec fn spec_from_char(c: char) -> Suit {
        Suit { internal: Self::ordinal_of(c) as u8 }
    }

    /// Reads a suit from its character.
    #[verifier::when_used_as_spec(spec_from_char)]
    pub fn from_char(c: char) -> (suit: Suit)
        requires
            Self::is_suit_char(c),
        ensures
            suit == Self::spec_from_char(c),
            suit.wf(),
            suit.ordinal() == Self::ordinal_of(c),
    {
        Suit {
            internal: match c {
                'c' => 1,
                'd' => 2,
                'h' => 3,
                's' => 4,
                _ => unreached(),
            },
        }
    }

    /// A well-formed suit's ordinal lies between 1 and 4.
    pub proof fn lemma_ordinal_bounds(self)
        requires
            self.wf(),
        ensures
            1 <= self.ordinal() <= 4,
    {
    }

    /// Two suits with the same ordinal are the same suit.
    pub proof fn lemma_ordinal_injective(self, other: Suit)
        requires
            self.ordinal() == other.ordinal(),
        ensures
            self == other,
    {
    }

    /// What a suit character names is well formed and has the character's ordinal.
    pub proof fn lemma_from_char(c: char)
        requires
            Self::is_suit_char(c),
        ensures
            Self::spec_from_char(c).wf(),
            Self::spec_from_char(c).ordinal() == Self::ordinal_of(c),
    {
    }
}

/// One of the thirteen ranks, held as its value: deuce 2 up to ace 14.
#[derive(Copy, Clone, Debug, PartialEq, Eq, Structural)]
pub struct Rank {
    internal: u8,
}

impl Rank {
    /// Every rank holds a value from 2 to 14.
    #[verifier::type_invariant]
    pub closed spec fn wf(self) -> bool {
        2 <= self.internal <= 14
    }

    /// The rank's value; the ace is always 14.
    pub closed spec fn value(self) -> int {
        self.internal as int
    }

    /// The characters that name a rank: digits and upper case only.
    pub open spec fn is_rank_char(c: char) -> bool {
        ('2' <= c && c <= '9') || c == 'T' || c == 'J' || c == 'Q' || c == 'K' || c == 'A'
    }

    /// The value that a rank character stands for.
    pub open spec fn value_of(c: char) -> int {
        if c == 'A' {
            14
        } else if c == 'K' {
            13
        } else if c == 'Q' {
            12
        } else if c == 'J' {
            11
        } else if c == 'T' {
            10
        } else {
            c as int - '0' as int
        }
    }

    /// The rank that a rank character names.
    pub closed spec fn spec_from_char(c: char) -> Rank {
        Rank { internal: Self::value_of(c) as u8 }
    }

    /// Reads a rank from its character.
    #[verifier::when_used_as_spec(spec_from_char)]
    pub fn from_char(c: char) -> (rank: Rank)
        requires
            Self::is_rank_char(c),
        ensures
            rank == Self::spec_from_char(c),
            rank.wf(),
            rank.value() == Self::value_of(c),
    {
        Rank {
            internal: match c {
                'A' => 14,
                'K' => 13,
                'Q' => 12,
                'J' => 11,
                'T' => 10,
                '9' => 9,
                '8' => 8,
                '7' => 7,
                '6' => 6,
                '5' => 5,
                '4' => 4,
                '3' => 3,
                '2' => 2,
                _ => unreached(),
            },
        }
    }

    /// A well-formed rank's value lies between 2 and 14.
    pub proof fn lemma_value_bounds(self)
        requires
            self.wf(),
        ensures
            2 <= self.value() <= 14,
    {
    }

    /// Two ranks with the same value are the same rank.
    pub proof fn lemma_value_injective(self, other: Rank)
        requires
            self.value() == other.value(),
        ensures
            self == other,
    {
    }

    /// What a rank character names is well formed and has the character's value.
    pub proof fn lemma_from_char(c: char)
        requires
            Self::is_rank_char(c),
        ensures
            Self::spec_from_char(c).wf(),
            Self::spec_from_char(c).value() == Self::value_of(c),
    {
    }
}

/// A playing card: a rank and a suit in one byte, the rank in the high four
/// bits and the suit in the low four.
#[derive(Copy, Clone, Debug, PartialEq, Eq, Structural)]
pub struct Card {
    internal: u8,
}

impl Card {
    /// The high four bits hold a rank's value, the low four a suit's ordinal.
    #[verifier::type_invariant]
    pub closed spec fn wf(self) -> bool {
        &&& 2 <= self.internal / 16 <= 14
        &&& 1 <= self.internal % 16 <= 4
    }

    /// The card's rank.
    pub closed spec fn spec_rank(&self) -> Rank {
        Rank { internal: self.internal / 16 }
    }

    /// The card's suit.
    pub closed spec fn spec_suit(&self) -> Suit {
        Suit { internal: self.internal % 16 }
    }

    /// The value of the card's rank.
    pub open spec fn rank_value(self) -> int {
        self.spec_rank().value()
    }

    /// The ordinal of the card's suit.
    pub open spec fn suit_ordinal(self) -> int {
        self.spec_suit().ordinal()
    }

    /// The card of a rank and a suit.
    pub closed spec fn spec_create(rank: Rank, suit: Suit) -> Card {
        Card { internal: (rank.internal * 16 + suit.internal) as u8 }
    }

    /// The card that a rank character and a suit character name.
    pub open spec fn spec_from_chars(rank: char, suit: char) -> Card {
        Self::spec_create(Rank::spec_from_char(rank), Suit::spec_from_char(suit))
    }

    /// Puts a rank and a suit together.
    #[verifier::when_used_as_spec(spec_create)]
    pub fn create(rank: Rank, suit: Suit) -> (card: Card)
        ensures
            card == Self::spec_create(rank, suit),
            card.wf(),
            card.spec_rank() == rank,
            card.spec_suit() == suit,
            card.rank_value() == rank.value(),
            card.suit_ordinal() == suit.ordinal(),
    {
        proof {
            use_type_invariant(&rank);
            use_type_invariant(&suit);
        }
        let r: u8 = rank.internal;
        let s: u8 = suit.internal;
        assert((r << 4) | s == r * 16 + s) by (bit_vector)
            requires
                r <= 14,
                s <= 4,
        ;
        Card { internal: (rank.internal << 4) | suit.internal }
    }

    /// Reads a card from a rank character and a suit character.
    #[verifier::when_used_as_spec(spec_from_chars)]
    pub fn from_chars(rank: char, suit: char) -> (card: Card)
        requires
            Rank::is_rank_char(rank),
            Suit::is_suit_char(suit),
        ensures
            card == Self::spec_from_chars(rank, suit),
            card.wf(),
            card.spec_rank() == Rank::spec_from_char(rank),
            card.spec_suit() == Suit::spec_from_char(suit),
            card.rank_value() == Rank::value_of(rank),
            card.suit_ordinal() == Suit::ordinal_of(suit),
    {
        Card::create(Rank::from_char(rank), Suit::from_char(suit))
    }

    /// Reads a card from two characters, the rank's and then the suit's, as
    /// in "Ks" for the king of spades.
    pub fn from_str(s: &str) -> (card: Card)
        requires
            s@.len() == 2,
            Rank::is_rank_char(s@[0]),
            Suit::is_suit_char(s@[1]),
        ensures
            card == Self::spec_from_chars(s@[0], s@[1]),
            card.wf(),
            card.spec_rank() == Rank::spec_from_char(s@[0]),
            card.spec_suit() == Suit::spec_from_char(s@[1]),
            card.rank_value() == Rank::value_of(s@[0]),
            card.suit_ordinal() == Suit::ordinal_of(s@[1]),
    {
        // A text of another length is ruled out for callers that are verified;
        // for the others it ends the program here.
        if s.unicode_len() != 2 {
            return unreached();
        }
        let r = s.get_char(0);
        let s = s.get_char(1);
        Card::from_chars(r, s)
    }

    /// The card's suit.
    #[verifier::when_used_as_spec(spec_suit)]
    pub fn suit(&self) -> (suit: Suit)
        ensures
            suit == self.spec_suit(),
            suit.wf(),
    {
        proof {
            use_type_invariant(self);
        }
        let b: u8 = self.internal;
        assert(b & 0x0f == b % 16) by (bit_vector);
        Suit { internal: self.internal & 0x0f }
    }

    /// The card's rank.
    #[verifier::when_used_as_spec(spec_rank)]
    pub fn rank(&self) -> (rank: Rank)
        ensures
            rank == self.spec_rank(),
            rank.wf(),
    {
        proof {
            use_type_invariant(self);
        }
        let b: u8 = self.internal;
        assert((b & 0xf0) >> 4 == b / 16) by (bit_vector);
        Rank { internal: (self.internal & 0xf0) >> 4 }
    }

    /// The key by which the cards of a hand are ordered: the rank's value.
    pub open spec fn rank_key() -> spec_fn(Card) -> int {
        |card: Card| card.rank_value()
    }

    /// The value of the card's rank, as a byte.
    pub(crate) fn rank_byte(&self) -> (value: u8)
        ensures
            value == self.rank_value(),
            2 <= value <= 14,
    {
        self.rank().internal
    }

    /// The ordinal of the card's suit, as a byte.
    pub(crate) fn suit_byte(&self) -> (ordinal: u8)
        ensures
            ordinal == self.suit_ordinal(),
            1 <= ordinal <= 4,
    {
        self.suit().internal
    }

    /// A card gives back the rank and the suit it was made of.
    pub proof fn lemma_create_round_trip(rank: Rank, suit: Suit)
        requires
            rank.wf(),
            suit.wf(),
        ensures
            Self::spec_create(rank, suit).wf(),
            Self::spec_create(rank, suit).spec_rank() == rank,
            Self::spec_create(rank, suit).spec_suit() == suit,
    {
    }

    /// A card read from two characters has the rank that the first names and
    /// the suit that the second names.
    pub proof fn lemma_parse_round_trip(rank: char, suit: char)
        requires
            Rank::is_rank_char(rank),
            Suit::is_suit_char(suit),
        ensures
            Self::spec_from_chars(rank, suit).wf(),
            Self::spec_from_chars(rank, suit).spec_rank() == Rank::spec_from_char(rank),
            Self::spec_from_chars(rank, suit).spec_suit() == Suit::spec_from_char(suit),
    {
    }

    /// A well-formed card's rank and suit are well formed.
    pub proof fn lemma_parts_wf(self)
        requires
            self.wf(),
        ensures
            self.spec_rank().wf(),
            self.spec_suit().wf(),
            2 <= self.rank_value() <= 14,
            1 <= self.suit_ordinal() <= 4,
    {
    }

    /// Two cards of the same rank and suit are the same card.
    pub proof fn lemma_same_parts(self, other: Card)
        requires
            self.rank_value() == other.rank_value(),
            self.suit_ordinal() == other.suit_ordinal(),
        ensures
            self == other,
    {
    }
}

} // verus!
