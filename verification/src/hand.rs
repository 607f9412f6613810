//! Hands of five cards and their score.

use crate::card::Card;
use crate::ranking::{
    all_equal, category, covers, groups, is_group_order, is_hand_ranks, is_non_rising,
    is_straight, is_wheel, kickers, lemma_category_dominates, lemma_groups_meaning,
    lemma_kickers, lemma_kickers_decide, lemma_tie_break_fits, lex_less, pack, score,
    sizes_count, Category,
};
use crate::scoring::{
    all_same, group_score, lower_four_in_sequence, rank_groups, rank_score, tagged, values,
};
use crate::sorting::{
    is_sorted_desc, lemma_insert_desc_at, lemma_sort_desc, lemma_sort_desc_stable,
    lemma_sorted_keys_unique, sort_desc, with_key,
};
use crate::strength::HandStrength;
use vstd::prelude::*;
use vstd::seq_lib::group_to_multiset_ensures;

verus! {

/// The rank values of cards, in the cards' order.
pub open spec fn rank_values(cards: Seq<Card>) -> Seq<int> {
    cards.map_values(Card::rank_key())
}

/// The suit ordinals of cards, in the cards' order.
pub open spec fn suit_ordinals(cards: Seq<Card>) -> Seq<int> {
    cards.map_values(|card: Card| card.suit_ordinal())
}

/// The score of five cards that stand by falling rank.
pub open spec fn cards_score(cards: Seq<Card>) -> int {
    score(rank_values(cards), all_equal(suit_ordinals(cards)))
}

/// Five cards, held by falling rank. Which five cards a hand may hold is left
/// to its maker: a card may occur twice.
pub struct Hand {
    cards: [Card; 5],
}

impl View for Hand {
    type V = Seq<Card>;

    /// The hand's cards, highest rank first.
    closed spec fn view(&self) -> Seq<Card> {
        self.cards@
    }
}

impl Hand {
    /// A hand holds five well-formed cards, none of a higher rank than the
    /// card before it.
    #[verifier::type_invariant]
    pub open spec fn wf(self) -> bool {
        &&& self@.len() == 5
        &&& forall|i: int| 0 <= i < 5 ==> (#[trigger] self@[i]).wf()
        &&& is_sorted_desc(self@, Card::rank_key())
    }

    /// The values of the cards' ranks, highest first.
    pub open spec fn ranks(self) -> Seq<int> {
        rank_values(self@)
    }

    /// The ordinals of the cards' suits, in the cards' order.
    pub open spec fn suits(self) -> Seq<int> {
        suit_ordinals(self@)
    }

    /// Whether all five cards are of one suit.
    pub open spec fn is_suited(self) -> bool {
        all_equal(self.suits())
    }

    /// The hand's category.
    pub open spec fn category(self) -> Category {
        category(self.ranks(), self.is_suited())
    }

    /// The ranks that break ties within the hand's category, the most
    /// significant first.
    pub open spec fn kickers(self) -> Seq<int> {
        kickers(self.ranks(), self.is_suited())
    }

    /// The hand's score: the tag of its category times 2 to the power 28,
    /// plus its tie-breaking ranks as base-16 digits.
    pub open spec fn spec_score(self) -> int {
        cards_score(self@)
    }

    /// Makes a hand of five cards, given in any order. The hand holds them by
    /// falling rank; cards of one rank stay in the order they were given in.
    pub fn from_cards(a: Card, b: Card, c: Card, d: Card, e: Card) -> (hand: Hand)
        ensures
            hand.wf(),
            hand@ == sort_desc(seq![a, b, c, d, e], Card::rank_key()),
            hand@.to_multiset() == seq![a, b, c, d, e].to_multiset(),
            forall|rank: int| #[trigger]
                with_key(hand@, Card::rank_key(), rank) == with_key(
                    seq![a, b, c, d, e],
                    Card::rank_key(),
                    rank,
                ),
    {
        let cards = sort_cards([a, b, c, d, e]);
        proof {
            broadcast use group_to_multiset_ensures;

            use_type_invariant(&a);
            use_type_invariant(&b);
            use_type_invariant(&c);
            use_type_invariant(&d);
            use_type_invariant(&e);
            let given = seq![a, b, c, d, e];
            lemma_sort_desc(given, Card::rank_key());
            assert forall|rank: int| #[trigger]
                with_key(cards@, Card::rank_key(), rank) == with_key(
                    given,
                    Card::rank_key(),
                    rank,
                ) by {
                lemma_sort_desc_stable(given, Card::rank_key(), rank);
            }
            assert forall|i: int| 0 <= i < 5 implies (#[trigger] cards@[i]).wf() by {
                assert(given.to_multiset().count(cards@[i]) > 0);
            }
        }
        Hand { cards }
    }

    /// The values of the cards' ranks, as bytes.
    fn rank_bytes(&self) -> (ranks: [u8; 5])
        ensures
            values(ranks@) == self.ranks(),
            forall|k: int| 0 <= k < 5 ==> 2 <= #[trigger] ranks@[k] <= 14,
    {
        [
            self.cards[0].rank_byte(),
            self.cards[1].rank_byte(),
            self.cards[2].rank_byte(),
            self.cards[3].rank_byte(),
            self.cards[4].rank_byte(),
        ]
    }

    /// The ordinals of the cards' suits, as bytes.
    fn suit_bytes(&self) -> (suits: [u8; 5])
        ensures
            values(suits@) == self.suits(),
    {
        [
            self.cards[0].suit_byte(),
            self.cards[1].suit_byte(),
            self.cards[2].suit_byte(),
            self.cards[3].suit_byte(),
            self.cards[4].suit_byte(),
        ]
    }

    /// The hand's score. Of two hands the stronger has the greater score, and
    /// hands that tie have the same.
    pub fn score(&self) -> (score: u32)
        ensures
            score == self.spec_score(),
    {
        let ranks = self.rank_bytes();
        let suits = self.suit_bytes();
        let ghost r = self.ranks();
        proof {
            crate::ranking::lemma_groups(r);
            reveal_with_fuel(pack, 2);
        }
        let is_suited = all_same(&suits);
        let lower_four = lower_four_in_sequence(&ranks);
        let is_wheel_straight = lower_four && ranks[0] == 14 && ranks[1] == 5;
        let is_straight = lower_four && (is_wheel_straight || ranks[0] - 1 == ranks[1]);

        if is_suited {
            if is_straight {
                if is_wheel_straight {
                    return tagged(Category::StraightFlush, 5);
                }
                return tagged(Category::StraightFlush, ranks[0] as u32);
            }
            return tagged(Category::Flush, rank_score(&ranks));
        }
        if is_straight {
            if is_wheel_straight {
                return tagged(Category::Straight, 5);
            }
            return tagged(Category::Straight, ranks[0] as u32);
        }
        let (groups, count) = rank_groups(&ranks);
        proof {
            let g = crate::ranking::groups(r);
            assert forall|k: int| 0 <= k < count implies (#[trigger] groups@[k]).1 < 16 by {
                assert(r.contains(g[k].rank));
            }
        }
        match groups[0].0 {
            4 => tagged(Category::Quads, group_score(&groups, count)),
            3 => {
                match groups[1].0 {
                    2 => tagged(Category::FullHouse, group_score(&groups, count)),
                    _ => tagged(Category::Trips, group_score(&groups, count)),
                }
            },
            2 => {
                match groups[1].0 {
                    2 => tagged(Category::TwoPair, group_score(&groups, count)),
                    _ => tagged(Category::OnePair, group_score(&groups, count)),
                }
            },
            _ => tagged(Category::HighCard, rank_score(&ranks)),
        }
    }

    /// The hand's strength: its score as a value that orders hands. The
    /// higher four bits hold the tag of the hand's category, the lower 28
    /// its tie-breaking ranks.
    pub fn strength(&self) -> (strength: HandStrength)
        ensures
            strength@ == self.spec_score(),
            strength.category_tag() == self.category().spec_tag(),
            strength.tie_break() == pack(self.kickers()),
    {
        proof {
            use_type_invariant(self);
            self.lemma_score_parts();
        }
        HandStrength::new(self.score())
    }

    /// A hand's ranks are five values from 2 to 14 that never rise.
    pub proof fn lemma_ranks(self)
        requires
            self.wf(),
        ensures
            is_hand_ranks(self.ranks()),
            is_non_rising(self.ranks()),
    {
        let r = self.ranks();
        assert forall|i: int| 0 <= i < 5 implies 2 <= #[trigger] r[i] <= 14 by {
            self@[i].lemma_parts_wf();
        }
    }

    /// A hand's score lies in its category's range: the tie-break is less
    /// than 2 to the power 28.
    pub proof fn lemma_score_parts(self)
        requires
            self.wf(),
        ensures
            self.spec_score() == self.category().spec_tag() * 0x1000_0000 + pack(self.kickers()),
            0 <= pack(self.kickers()) < 0x1000_0000,
            1 <= self.category().spec_tag() <= 9,
            self.kickers().len() == self.category().kicker_count(),
    {
        self.lemma_ranks();
        lemma_tie_break_fits(self.ranks(), self.is_suited());
        lemma_kickers(self.ranks(), self.is_suited());
    }

    /// What the groups of a hand are: each rank of the hand has one group,
    /// whose size is the number of cards of that rank; a larger group stands
    /// before a smaller one, and of two groups of one size the one of the
    /// higher rank stands first.
    pub proof fn lemma_groups(self)
        requires
            self.wf(),
        ensures
            is_group_order(groups(self.ranks())),
            sizes_count(groups(self.ranks()), self.ranks()),
            covers(groups(self.ranks()), self.ranks()),
    {
        lemma_groups_meaning(self.ranks());
    }

    /// A hand of a higher category has the higher score, whatever breaks the
    /// ties within either category.
    pub proof fn lemma_category_decides(self, other: Hand)
        requires
            self.wf(),
            other.wf(),
            self.category().spec_tag() > other.category().spec_tag(),
        ensures
            self.spec_score() > other.spec_score(),
    {
        self.lemma_ranks();
        other.lemma_ranks();
        lemma_category_dominates(
            self.ranks(),
            self.is_suited(),
            other.ranks(),
            other.is_suited(),
        );
    }

    /// Of two hands of one category, the one whose tie-breaking ranks come
    /// later in the lexicographic order has the higher score.
    pub proof fn lemma_kickers_decide(self, other: Hand)
        requires
            self.wf(),
            other.wf(),
            self.category() == other.category(),
            lex_less(other.kickers(), self.kickers()),
        ensures
            self.spec_score() > other.spec_score(),
    {
        self.lemma_ranks();
        other.lemma_ranks();
        lemma_kickers_decide(self.ranks(), self.is_suited(), other.ranks(), other.is_suited());
    }

    /// The wheel is the weakest straight, and the suited wheel the weakest
    /// straight flush: every other straight that is suited as the wheel is
    /// has the higher score.
    pub proof fn lemma_wheel_is_weakest(self, other: Hand)
        requires
            self.wf(),
            other.wf(),
            is_wheel(self.ranks()),
            is_straight(other.ranks()),
            !is_wheel(other.ranks()),
            self.is_suited() == other.is_suited(),
        ensures
            self.spec_score() < other.spec_score(),
    {
        other.lemma_ranks();
        reveal_with_fuel(pack, 2);
    }

    /// The order in which a hand's cards were given does not matter to its
    /// score: two hands of the same cards have the same score.
    pub proof fn lemma_same_cards_same_score(self, other: Hand)
        requires
            self.wf(),
            other.wf(),
            self@.to_multiset() == other@.to_multiset(),
        ensures
            self.spec_score() == other.spec_score(),
    {
        lemma_arrangement_irrelevant(self@, other@);
    }
}

/// Two arrangements of the same cards by falling rank have the same score.
pub proof fn lemma_arrangement_irrelevant(x: Seq<Card>, y: Seq<Card>)
    requires
        is_sorted_desc(x, Card::rank_key()),
        is_sorted_desc(y, Card::rank_key()),
        x.to_multiset() == y.to_multiset(),
    ensures
        cards_score(x) == cards_score(y),
{
    lemma_sorted_keys_unique(x, y, Card::rank_key());
    assert(rank_values(x) =~= rank_values(y));
    if all_equal(suit_ordinals(x)) {
        lemma_suited_transfers(x, y);
    }
    if all_equal(suit_ordinals(y)) {
        lemma_suited_transfers(y, x);
    }
}

/// Whatever the order in which five cards are given to `Hand::from_cards`,
/// the hand has the same score.
pub proof fn lemma_card_order_irrelevant(x: Seq<Card>, y: Seq<Card>)
    requires
        x.to_multiset() == y.to_multiset(),
    ensures
        cards_score(sort_desc(x, Card::rank_key())) == cards_score(
            sort_desc(y, Card::rank_key()),
        ),
{
    lemma_sort_desc(x, Card::rank_key());
    lemma_sort_desc(y, Card::rank_key());
    lemma_arrangement_irrelevant(sort_desc(x, Card::rank_key()), sort_desc(y, Card::rank_key()));
}

/// If the cards of `x` are of one suit, so are the same cards in another order.
proof fn lemma_suited_transfers(x: Seq<Card>, y: Seq<Card>)
    requires
        x.to_multiset() == y.to_multiset(),
        all_equal(suit_ordinals(x)),
    ensures
        all_equal(suit_ordinals(y)),
{
    broadcast use group_to_multiset_ensures;

    let sx = suit_ordinals(x);
    let sy = suit_ordinals(y);
    assert forall|k: int| 0 <= k < sy.len() implies #[trigger] sy[k] == sy[0] by {
        assert(x.to_multiset().count(y[k]) > 0);
        assert(x.to_multiset().count(y[0]) > 0);
        let i = choose|i: int| 0 <= i < x.len() && x[i] == y[k];
        let j = choose|j: int| 0 <= j < x.len() && x[j] == y[0];
        assert(sx[i] == sx[0]);
        assert(sx[j] == sx[0]);
    }
}

/// Orders five cards by falling rank; cards of one rank keep their order.
fn sort_cards(cards: [Card; 5]) -> (sorted: [Card; 5])
    ensures
        sorted@ == sort_desc(cards@, Card::rank_key()),
{
    let ghost input = cards@;
    let mut a = cards;
    let mut i: usize = 1;
    proof {
        reveal_with_fuel(sort_desc, 2);
    }
    while i < 5
        invariant
            1 <= i <= 5,
            input == cards@,
            a@.take(i as int) == sort_desc(input.take(i as int), Card::rank_key()),
            forall|k: int| i <= k < 5 ==> #[trigger] a@[k] == input[k],
        decreases 5 - i,
    {
        let ghost sorted = a@.take(i as int);
        let ghost x = a@[i as int];
        let mut j: usize = i;
        while j > 0 && a[j - 1].rank_byte() < a[j].rank_byte()
            invariant
                0 <= j <= i < 5,
                sorted.len() == i,
                a@[j as int] == x,
                forall|k: int| 0 <= k < j ==> #[trigger] a@[k] == sorted[k],
                forall|k: int| j < k <= i ==> #[trigger] a@[k] == sorted[k - 1],
                forall|k: int|
                    j <= k < i ==> (#[trigger] sorted[k]).rank_value() < x.rank_value(),
                forall|k: int| i < k < 5 ==> #[trigger] a@[k] == input[k],
            decreases j,
        {
            let t = a[j - 1];
            a[j - 1] = a[j];
            a[j] = t;
            j -= 1;
        }
        proof {
            lemma_insert_desc_at(sorted, x, Card::rank_key(), j as int);
            assert(input.take(i + 1).drop_last() =~= input.take(i as int));
        }
        i += 1;
    }
    proof {
        assert(input.take(5) =~= input);
    }
    a
}

} // verus!
