//! The order of poker hands, as mathematics.
//!
//! A hand is seen here as its five rank values, highest first, and as the one
//! fact about its suits that matters: whether they are all the same. From
//! these follow the hand's category, the sequence of ranks that breaks ties
//! within the category, and the score that puts both into one number.

use crate::sorting::{
    is_sorted_desc, lemma_insert_desc_place, lemma_sort_desc, sort_desc,
};
use vstd::prelude::*;
use vstd::seq_lib::group_to_multiset_ensures;

verus! {

/// The nine kinds of hand, weakest first.
#[derive(Copy, Clone, Debug, PartialEq, Eq, Structural)]
pub enum Category {
    HighCard,
    OnePair,
    TwoPair,
    Trips,
    Straight,
    Flush,
    FullHouse,
    Quads,
    StraightFlush,
}

impl Category {
    /// The category's tag, from 1 for a high card to 9 for a straight flush.
    pub open spec fn spec_tag(&self) -> int {
        match self {
            Category::HighCard => 1,
            Category::OnePair => 2,
            Category::TwoPair => 3,
            Category::Trips => 4,
            Category::Straight => 5,
            Category::Flush => 6,
            Category::FullHouse => 7,
            Category::Quads => 8,
            Category::StraightFlush => 9,
        }
    }

    /// The category's tag.
    pub fn tag(&self) -> (tag: u32)
        ensures
            tag == self.spec_tag(),
            1 <= tag <= 9,
    {
        match self {
            Category::HighCard => 1,
            Category::OnePair => 2,
            Category::TwoPair => 3,
            Category::Trips => 4,
            Category::Straight => 5,
            Category::Flush => 6,
            Category::FullHouse => 7,
            Category::Quads => 8,
            Category::StraightFlush => 9,
        }
    }

    /// How many ranks break ties within the category.
    pub open spec fn kicker_count(self) -> nat {
        match self {
            Category::StraightFlush | Category::Straight => 1,
            Category::Quads | Category::FullHouse => 2,
            Category::Trips | Category::TwoPair => 3,
            Category::OnePair => 4,
            Category::Flush | Category::HighCard => 5,
        }
    }
}

/// A group: `size` cards of one `rank`.
pub struct Group {
    pub size: int,
    pub rank: int,
}

/// The key by which groups are ordered: their size.
pub open spec fn size_key() -> spec_fn(Group) -> int {
    |g: Group| g.size
}

/// Five ranks, each from 2 to 14.
pub open spec fn is_hand_ranks(ranks: Seq<int>) -> bool {
    &&& ranks.len() == 5
    &&& forall|i: int| 0 <= i < 5 ==> 2 <= #[trigger] ranks[i] <= 14
}

/// Every value is the same as the first.
pub open spec fn all_equal(s: Seq<int>) -> bool {
    forall|i: int| 0 <= i < s.len() ==> #[trigger] s[i] == s[0]
}

/// Each rank is one below the rank before it.
pub open spec fn is_run(ranks: Seq<int>) -> bool {
    forall|i: int| 0 <= i < ranks.len() - 1 ==> #[trigger] ranks[i] == ranks[i + 1] + 1
}

/// The lowest straight: five down to deuce, with the ace counting low.
pub open spec fn is_wheel(ranks: Seq<int>) -> bool {
    ranks =~= seq![14, 5, 4, 3, 2]
}

/// Five ranks in sequence.
pub open spec fn is_straight(ranks: Seq<int>) -> bool {
    is_run(ranks) || is_wheel(ranks)
}

/// The rank that a straight counts as: its top card, which in the wheel is
/// the five.
pub open spec fn straight_top(ranks: Seq<int>) -> int {
    if is_wheel(ranks) {
        5
    } else {
        ranks[0]
    }
}

/// The maximal runs of equal neighbours in `ranks`, in the order in which they
/// occur.
pub open spec fn runs(ranks: Seq<int>) -> Seq<Group>
    decreases ranks.len(),
{
    if ranks.len() == 0 {
        Seq::empty()
    } else {
        let init = runs(ranks.drop_last());
        let rank = ranks.last();
        if init.len() > 0 && init.last().rank == rank {
            init.drop_last().push(Group { size: init.last().size + 1, rank })
        } else {
            init.push(Group { size: 1, rank })
        }
    }
}

/// The groups of a hand, larger groups first; groups of the same size stand
/// as their ranks stand in the hand, so for a hand sorted by rank the higher
/// rank first.
pub open spec fn groups(ranks: Seq<int>) -> Seq<Group> {
    sort_desc(runs(ranks), size_key())
}

/// The ranks of groups, in the groups' order.
pub open spec fn ranks_of(g: Seq<Group>) -> Seq<int> {
    g.map_values(|x: Group| x.rank)
}

/// The ranks of the hand's groups, in the groups' order.
pub open spec fn group_ranks(ranks: Seq<int>) -> Seq<int> {
    ranks_of(groups(ranks))
}

/// The size of the hand's group at place `i`, or 0 where there is none.
pub open spec fn group_size(ranks: Seq<int>, i: int) -> int {
    if 0 <= i < groups(ranks).len() {
        groups(ranks)[i].size
    } else {
        0
    }
}

/// The category of a hand that is neither straight nor flush, by the sizes
/// of its two largest groups.
pub open spec fn grouped_category(ranks: Seq<int>) -> Category {
    let first = group_size(ranks, 0);
    let second = group_size(ranks, 1);
    if first == 4 {
        Category::Quads
    } else if first == 3 {
        if second == 2 {
            Category::FullHouse
        } else {
            Category::Trips
        }
    } else if first == 2 {
        if second == 2 {
            Category::TwoPair
        } else {
            Category::OnePair
        }
    } else {
        Category::HighCard
    }
}

/// The category of a hand.
pub open spec fn category(ranks: Seq<int>, suited: bool) -> Category {
    if suited && is_straight(ranks) {
        Category::StraightFlush
    } else if suited {
        Category::Flush
    } else if is_straight(ranks) {
        Category::Straight
    } else {
        grouped_category(ranks)
    }
}

/// The ranks that break ties within the hand's category, the most
/// significant first.
pub open spec fn kickers(ranks: Seq<int>, suited: bool) -> Seq<int> {
    match category(ranks, suited) {
        Category::StraightFlush | Category::Straight => seq![straight_top(ranks)],
        Category::Flush | Category::HighCard => ranks,
        _ => group_ranks(ranks),
    }
}

/// The number whose base-16 digits are `digits`, the most significant first.
pub open spec fn pack(digits: Seq<int>) -> int
    decreases digits.len(),
{
    if digits.len() == 0 {
        0
    } else {
        16 * pack(digits.drop_last()) + digits.last()
    }
}

/// The score of a hand: the category's tag above 28 bits of tie-break.
pub open spec fn score(ranks: Seq<int>, suited: bool) -> int {
    category(ranks, suited).spec_tag() * 0x1000_0000 + pack(kickers(ranks, suited))
}

/// 16 to the power `n`.
pub open spec fn radix_power(n: nat) -> int
    decreases n,
{
    if n == 0 {
        1
    } else {
        16 * radix_power((n - 1) as nat)
    }
}

/// Every value fits into four bits.
pub open spec fn is_digits(s: Seq<int>) -> bool {
    forall|i: int| 0 <= i < s.len() ==> 0 <= #[trigger] s[i] < 16
}

/// `a` and `b` agree before place `i`, where `a` is smaller.
pub open spec fn less_at(a: Seq<int>, b: Seq<int>, i: int) -> bool {
    &&& 0 <= i < a.len()
    &&& a[i] < b[i]
    &&& forall|j: int| 0 <= j < i ==> a[j] == b[j]
}

/// `a` comes before `b` in the lexicographic order of sequences of one length.
pub open spec fn lex_less(a: Seq<int>, b: Seq<int>) -> bool {
    &&& a.len() == b.len()
    &&& exists|i: int| less_at(a, b, i)
}

/// The sum of the groups' sizes.
pub open spec fn total_size(g: Seq<Group>) -> int
    decreases g.len(),
{
    if g.len() == 0 {
        0
    } else {
        total_size(g.drop_last()) + g.last().size
    }
}

/// The groups have exactly these sizes, in this order.
pub open spec fn has_sizes(g: Seq<Group>, sizes: Seq<int>) -> bool {
    &&& g.len() == sizes.len()
    &&& forall|i: int| 0 <= i < g.len() ==> (#[trigger] g[i]).size == sizes[i]
}

/// Digits pack into a number below 16 to the power of their count.
pub proof fn lemma_pack_bound(digits: Seq<int>)
    requires
        is_digits(digits),
    ensures
        0 <= pack(digits) < radix_power(digits.len()),
    decreases digits.len(),
{
    if digits.len() > 0 {
        lemma_pack_bound(digits.drop_last());
    }
}

/// Among digit sequences of one length, the lexicographically smaller packs
/// into the smaller number.
pub proof fn lemma_pack_lex(a: Seq<int>, b: Seq<int>)
    requires
        is_digits(a),
        is_digits(b),
        lex_less(a, b),
    ensures
        pack(a) < pack(b),
    decreases a.len(),
{
    let i = choose|i: int| less_at(a, b, i);
    let a0 = a.drop_last();
    let b0 = b.drop_last();
    if i == a.len() - 1 {
        assert(a0 =~= b0);
    } else {
        assert(less_at(a0, b0, i));
        lemma_pack_lex(a0, b0);
    }
}

/// The runs of a sequence are no more than its elements, none is empty, each
/// has a rank of the sequence, and their sizes add up to its length.
pub proof fn lemma_runs(ranks: Seq<int>)
    ensures
        runs(ranks).len() <= ranks.len(),
        ranks.len() > 0 ==> runs(ranks).len() > 0 && runs(ranks).last().rank == ranks.last(),
        total_size(runs(ranks)) == ranks.len(),
        forall|i: int|
            0 <= i < runs(ranks).len() ==> (#[trigger] runs(ranks)[i]).size >= 1 && ranks.contains(
                runs(ranks)[i].rank,
            ),
    decreases ranks.len(),
{
    if ranks.len() > 0 {
        let front = ranks.drop_last();
        let init = runs(front);
        let out = runs(ranks);
        lemma_runs(front);
        if init.len() > 0 && init.last().rank == ranks.last() {
            assert(out.drop_last() =~= init.drop_last());
        } else {
            assert(out.drop_last() =~= init);
        }
    }
}

/// A group put in adds its size to the sum.
pub proof fn lemma_total_size_insert(g: Seq<Group>, j: int, x: Group)
    requires
        0 <= j <= g.len(),
    ensures
        total_size(g.insert(j, x)) == total_size(g) + x.size,
    decreases g.len(),
{
    let out = g.insert(j, x);
    if j == g.len() {
        assert(out.drop_last() =~= g);
    } else {
        lemma_total_size_insert(g.drop_last(), j, x);
        assert(out.drop_last() =~= g.drop_last().insert(j, x));
    }
}

/// Ordering groups by size does not change the sum of their sizes.
pub proof fn lemma_total_size_sorted(g: Seq<Group>)
    ensures
        total_size(sort_desc(g, size_key())) == total_size(g),
    decreases g.len(),
{
    if g.len() > 0 {
        let sorted = sort_desc(g.drop_last(), size_key());
        lemma_total_size_sorted(g.drop_last());
        let j = lemma_insert_desc_place(sorted, g.last(), size_key());
        lemma_total_size_insert(sorted, j, g.last());
    }
}

/// The groups of a hand: sizes fall, add up to five, and every group has a
/// rank of the hand.
pub proof fn lemma_groups(ranks: Seq<int>)
    ensures
        is_sorted_desc(groups(ranks), size_key()),
        groups(ranks).len() == runs(ranks).len(),
        groups(ranks).len() <= ranks.len(),
        total_size(groups(ranks)) == ranks.len(),
        forall|i: int|
            0 <= i < groups(ranks).len() ==> (#[trigger] groups(ranks)[i]).size >= 1
                && ranks.contains(groups(ranks)[i].rank),
{
    broadcast use group_to_multiset_ensures;

    let r = runs(ranks);
    let g = groups(ranks);
    lemma_runs(ranks);
    lemma_sort_desc(r, size_key());
    lemma_total_size_sorted(r);
    assert forall|i: int| 0 <= i < g.len() implies (#[trigger] g[i]).size >= 1 && ranks.contains(
        g[i].rank,
    ) by {
        assert(r.to_multiset().count(g[i]) > 0);
    }
}

/// Five cards fall into groups in one of seven ways.
pub proof fn lemma_group_shapes(ranks: Seq<int>)
    requires
        ranks.len() == 5,
    ensures
        ({
            let g = groups(ranks);
            ||| has_sizes(g, seq![5])
            ||| has_sizes(g, seq![4, 1])
            ||| has_sizes(g, seq![3, 2])
            ||| has_sizes(g, seq![3, 1, 1])
            ||| has_sizes(g, seq![2, 2, 1])
            ||| has_sizes(g, seq![2, 1, 1, 1])
            ||| has_sizes(g, seq![1, 1, 1, 1, 1])
        }),
{
    let g = groups(ranks);
    lemma_groups(ranks);
    reveal_with_fuel(total_size, 6);
    assert(1 <= g.len() <= 5);
    assert(forall|i: int| 0 <= i < g.len() ==> (#[trigger] g[i]).size >= 1);
    assert(forall|i: int, j: int|
        #![trigger g[i], g[j]]
        0 <= i < j < g.len() ==> g[i].size >= g[j].size);
    if g.len() == 1 {
        assert(total_size(g) == g[0].size);
    } else if g.len() == 2 {
        assert(total_size(g) == g[0].size + g[1].size);
    } else if g.len() == 3 {
        assert(total_size(g) == g[0].size + g[1].size + g[2].size);
    } else if g.len() == 4 {
        assert(total_size(g) == g[0].size + g[1].size + g[2].size + g[3].size);
    } else {
        assert(total_size(g) == g[0].size + g[1].size + g[2].size + g[3].size + g[4].size);
    }
}

/// The category says how many ranks break ties, and each of them fits into
/// four bits.
pub proof fn lemma_kickers(ranks: Seq<int>, suited: bool)
    requires
        is_hand_ranks(ranks),
    ensures
        kickers(ranks, suited).len() == category(ranks, suited).kicker_count(),
        is_digits(kickers(ranks, suited)),
        forall|i: int|
            0 <= i < kickers(ranks, suited).len() ==> 2 <= #[trigger] kickers(ranks, suited)[i]
                <= 14,
{
    lemma_groups(ranks);
    lemma_group_shapes(ranks);
}

/// A hand of a higher category has the higher score, whatever breaks the
/// ties within either category.
pub proof fn lemma_category_dominates(
    ranks_a: Seq<int>,
    suited_a: bool,
    ranks_b: Seq<int>,
    suited_b: bool,
)
    requires
        is_hand_ranks(ranks_a),
        is_hand_ranks(ranks_b),
        category(ranks_a, suited_a).spec_tag() > category(ranks_b, suited_b).spec_tag(),
    ensures
        score(ranks_a, suited_a) > score(ranks_b, suited_b),
{
    lemma_tie_break_fits(ranks_a, suited_a);
    lemma_tie_break_fits(ranks_b, suited_b);
}

/// Of two hands of one category, the one whose tie-breaking ranks come later
/// in the lexicographic order has the higher score.
pub proof fn lemma_kickers_decide(
    ranks_a: Seq<int>,
    suited_a: bool,
    ranks_b: Seq<int>,
    suited_b: bool,
)
    requires
        is_hand_ranks(ranks_a),
        is_hand_ranks(ranks_b),
        category(ranks_a, suited_a) == category(ranks_b, suited_b),
        lex_less(kickers(ranks_b, suited_b), kickers(ranks_a, suited_a)),
    ensures
        score(ranks_a, suited_a) > score(ranks_b, suited_b),
{
    lemma_kickers(ranks_a, suited_a);
    lemma_kickers(ranks_b, suited_b);
    lemma_pack_lex(kickers(ranks_b, suited_b), kickers(ranks_a, suited_a));
}

/// The tie-break of a hand fits below the category's tag: it is less than 16
/// to the power 5, and so less than 2 to the power 28.
pub proof fn lemma_tie_break_fits(ranks: Seq<int>, suited: bool)
    requires
        is_hand_ranks(ranks),
    ensures
        0 <= pack(kickers(ranks, suited)) < 0x10_0000,
{
    lemma_kickers(ranks, suited);
    lemma_pack_bound(kickers(ranks, suited));
    reveal_with_fuel(radix_power, 6);
}

/// How often `v` occurs in `ranks`.
pub open spec fn occurrences(ranks: Seq<int>, v: int) -> int
    decreases ranks.len(),
{
    if ranks.len() == 0 {
        0
    } else {
        occurrences(ranks.drop_last(), v) + if ranks.last() == v {
            1int
        } else {
            0int
        }
    }
}

/// No rank is higher than a rank before it.
pub open spec fn is_non_rising(ranks: Seq<int>) -> bool {
    forall|i: int, j: int| 0 <= i < j < ranks.len() ==> ranks[i] >= ranks[j]
}

/// `a` stands before `b`: it is the larger group, or as large and of the
/// higher rank.
pub open spec fn precedes(a: Group, b: Group) -> bool {
    a.size > b.size || (a.size == b.size && a.rank > b.rank)
}

/// Each group stands before every group behind it.
pub open spec fn is_group_order(g: Seq<Group>) -> bool {
    forall|i: int, j: int| #![trigger g[i], g[j]] 0 <= i < j < g.len() ==> precedes(g[i], g[j])
}

/// The ranks of the groups fall strictly.
pub open spec fn is_falling(g: Seq<Group>) -> bool {
    forall|i: int, j: int| #![trigger g[i], g[j]] 0 <= i < j < g.len() ==> g[i].rank > g[j].rank
}

/// Each group's size is the number of cards of its rank.
pub open spec fn sizes_count(g: Seq<Group>, ranks: Seq<int>) -> bool {
    forall|i: int| 0 <= i < g.len() ==> (#[trigger] g[i]).size == occurrences(ranks, g[i].rank)
}

/// Each rank of the hand is the rank of a group.
pub open spec fn covers(g: Seq<Group>, ranks: Seq<int>) -> bool {
    forall|k: int| 0 <= k < ranks.len() ==> ranks_of(g).contains(#[trigger] ranks[k])
}

/// A value that is no element of a sequence occurs in it 0 times.
pub proof fn lemma_occurrences_none(ranks: Seq<int>, v: int)
    requires
        forall|i: int| 0 <= i < ranks.len() ==> #[trigger] ranks[i] != v,
    ensures
        occurrences(ranks, v) == 0,
    decreases ranks.len(),
{
    if ranks.len() > 0 {
        lemma_occurrences_none(ranks.drop_last(), v);
    }
}

/// The runs of ranks that never rise: one run for each rank that occurs, as
/// long as the rank occurs often, the higher rank first.
pub proof fn lemma_runs_of_non_rising(ranks: Seq<int>)
    requires
        is_non_rising(ranks),
    ensures
        is_falling(runs(ranks)),
        sizes_count(runs(ranks), ranks),
        covers(runs(ranks), ranks),
    decreases ranks.len(),
{
    if ranks.len() > 0 {
        let front = ranks.drop_last();
        let init = runs(front);
        let out = runs(ranks);
        let last = ranks.last();
        lemma_runs_of_non_rising(front);
        if init.len() > 0 && init.last().rank == last {
            assert forall|i: int| 0 <= i < init.len() - 1 implies #[trigger] out[i] == init[i] by {}
        } else {
            lemma_occurrences_none(front, last);
        }
        assert(covers(out, ranks)) by {
            assert forall|k: int| 0 <= k < ranks.len() implies ranks_of(out).contains(
                #[trigger] ranks[k],
            ) by {
                if k < front.len() {
                    let i = choose|i: int|
                        0 <= i < ranks_of(init).len() && ranks_of(init)[i] == front[k];
                    assert(ranks_of(out)[i] == init[i].rank);
                } else {
                    assert(ranks_of(out)[out.len() - 1] == last);
                }
            }
        }
    }
}

/// Groups whose ranks fall, ordered by size, stand larger group first and,
/// among groups of one size, higher rank first.
pub proof fn lemma_sorted_groups_order(g: Seq<Group>)
    requires
        is_falling(g),
    ensures
        is_group_order(sort_desc(g, size_key())),
    decreases g.len(),
{
    broadcast use group_to_multiset_ensures;

    if g.len() > 0 {
        let init = g.drop_last();
        let x = g.last();
        let sorted = sort_desc(init, size_key());
        lemma_sorted_groups_order(init);
        lemma_sort_desc(init, size_key());
        lemma_insert_desc_place(sorted, x, size_key());
        assert forall|i: int| 0 <= i < sorted.len() implies (#[trigger] sorted[i]).rank
            > x.rank by {
            assert(init.to_multiset().count(sorted[i]) > 0);
        }
    }
}

/// What the groups of a hand are, for ranks that never rise: each rank of the
/// hand has one group, whose size is the number of cards of that rank; a
/// larger group stands before a smaller one, and of two groups of one size
/// the one of the higher rank stands first.
pub proof fn lemma_groups_meaning(ranks: Seq<int>)
    requires
        is_non_rising(ranks),
    ensures
        is_group_order(groups(ranks)),
        sizes_count(groups(ranks), ranks),
        covers(groups(ranks), ranks),
{
    broadcast use group_to_multiset_ensures;

    let r = runs(ranks);
    let g = groups(ranks);
    lemma_runs_of_non_rising(ranks);
    lemma_sorted_groups_order(r);
    lemma_sort_desc(r, size_key());
    assert forall|i: int| 0 <= i < g.len() implies (#[trigger] g[i]).size == occurrences(
        ranks,
        g[i].rank,
    ) by {
        assert(r.to_multiset().count(g[i]) > 0);
    }
    assert forall|k: int| 0 <= k < ranks.len() implies ranks_of(g).contains(
        #[trigger] ranks[k],
    ) by {
        let i = choose|i: int| 0 <= i < ranks_of(r).len() && ranks_of(r)[i] == ranks[k];
        assert(g.to_multiset().count(r[i]) > 0);
        let m = choose|m: int| 0 <= m < g.len() && g[m] == r[i];
        assert(ranks_of(g)[m] == ranks[k]);
    }
}

} // verus!
