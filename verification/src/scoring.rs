//! The scoring steps on plain bytes: what `Hand::score` computes with once it
//! has read the ranks and suits out of its cards.

use crate::ranking::{
    all_equal, groups, pack, radix_power, ranks_of, runs, size_key, Category, Group,
};
use crate::sorting::{lemma_insert_desc_at, sort_desc};
use vstd::prelude::*;

verus! {

/// Bytes as the integers they hold.
pub open spec fn values(bytes: Seq<u8>) -> Seq<int> {
    bytes.map_values(|b: u8| b as int)
}

/// A pair of bytes, size and rank, as a group.
pub open spec fn group_of(pair: (u8, u8)) -> Group {
    Group { size: pair.0 as int, rank: pair.1 as int }
}

/// Pairs of bytes as groups.
pub open spec fn groups_of(pairs: Seq<(u8, u8)>) -> Seq<Group> {
    pairs.map_values(|pair: (u8, u8)| group_of(pair))
}

/// Puts a category's tag above a tie-break: `(tag << 28) | tie_break`.
pub(crate) fn tagged(category: Category, tie_break: u32) -> (score: u32)
    requires
        tie_break < 0x1000_0000,
    ensures
        score == category.spec_tag() * 0x1000_0000 + tie_break,
{
    let tag = category.tag();
    assert((tag << 28) | tie_break == tag * 0x1000_0000 + tie_break) by (bit_vector)
        requires
            tag <= 9,
            tie_break < 0x1000_0000,
    ;
    (tag << 28) | tie_break
}

/// Whether all five bytes are the same.
pub(crate) fn all_same(bytes: &[u8; 5]) -> (same: bool)
    ensures
        same == all_equal(values(bytes@)),
{
    let mut same = true;
    let mut i: usize = 1;
    while i < 5
        invariant
            1 <= i <= 5,
            same == (forall|k: int| 0 <= k < i ==> #[trigger] bytes@[k] == bytes@[0]),
        decreases 5 - i,
    {
        if bytes[0] != bytes[i] {
            same = false;
        }
        i += 1;
    }
    proof {
        if !same {
            let k = choose|k: int| 0 <= k < 5 && #[trigger] bytes@[k] != bytes@[0];
            assert(values(bytes@)[k] != values(bytes@)[0]);
        }
    }
    same
}

/// Whether each of the last four ranks is one below the rank before it.
pub(crate) fn lower_four_in_sequence(ranks: &[u8; 5]) -> (run: bool)
    requires
        forall|k: int| 0 <= k < 5 ==> #[trigger] ranks@[k] >= 1,
    ensures
        run == (forall|k: int| 1 <= k < 4 ==> #[trigger] ranks@[k] == ranks@[k + 1] + 1),
{
    let mut run = true;
    let mut i: usize = 1;
    while i < 4
        invariant
            1 <= i <= 4,
            forall|k: int| 0 <= k < 5 ==> #[trigger] ranks@[k] >= 1,
            run == (forall|k: int| 1 <= k < i ==> #[trigger] ranks@[k] == ranks@[k + 1] + 1),
        decreases 4 - i,
    {
        if ranks[i] - 1 != ranks[i + 1] {
            run = false;
        }
        i += 1;
    }
    run
}

/// Packs five ranks, four bits each, the first in the highest place.
pub(crate) fn rank_score(ranks: &[u8; 5]) -> (score: u32)
    requires
        forall|k: int| 0 <= k < 5 ==> #[trigger] ranks@[k] < 16,
    ensures
        score == pack(values(ranks@)),
        score < 0x10_0000,
{
    let ghost digits = values(ranks@);
    let mut result: u32 = 0;
    let mut i: usize = 0;
    while i < 5
        invariant
            0 <= i <= 5,
            digits == values(ranks@),
            forall|k: int| 0 <= k < 5 ==> #[trigger] ranks@[k] < 16,
            result == pack(digits.take(i as int)),
            result < radix_power(i as nat),
        decreases 5 - i,
    {
        let digit = ranks[i] as u32;
        proof {
            reveal_with_fuel(radix_power, 6);
        }
        assert((result << 4) | digit == result * 16 + digit) by (bit_vector)
            requires
                result < 0x1_0000,
                digit < 16,
        ;
        result = (result << 4) | digit;
        i += 1;
        proof {
            assert(digits.take(i as int).drop_last() =~= digits.take(i - 1));
        }
    }
    proof {
        assert(digits.take(5) =~= digits);
        reveal_with_fuel(radix_power, 6);
    }
    result
}

/// Packs the ranks of the first `count` groups, four bits each, the first in
/// the highest place.
pub(crate) fn group_score(groups: &[(u8, u8); 5], count: usize) -> (score: u32)
    requires
        count <= 5,
        forall|k: int| 0 <= k < count ==> (#[trigger] groups@[k]).1 < 16,
    ensures
        score == pack(ranks_of(groups_of(groups@.take(count as int)))),
        score < 0x10_0000,
{
    let ghost digits = ranks_of(groups_of(groups@.take(count as int)));
    let mut result: u32 = 0;
    let mut i: usize = 0;
    while i < count
        invariant
            0 <= i <= count <= 5,
            digits == ranks_of(groups_of(groups@.take(count as int))),
            forall|k: int| 0 <= k < count ==> (#[trigger] groups@[k]).1 < 16,
            result == pack(digits.take(i as int)),
            result < radix_power(i as nat),
        decreases count - i,
    {
        let digit = groups[i].1 as u32;
        proof {
            reveal_with_fuel(radix_power, 6);
        }
        assert((result << 4) | digit == result * 16 + digit) by (bit_vector)
            requires
                result < 0x1_0000,
                digit < 16,
        ;
        result = (result << 4) | digit;
        i += 1;
        proof {
            assert(digits.take(i as int).drop_last() =~= digits.take(i - 1));
        }
    }
    proof {
        assert(digits.take(count as int) =~= digits);
        reveal_with_fuel(radix_power, 6);
    }
    result
}

/// Orders the first `count` groups by size, largest first; groups of one size
/// keep their order.
fn sort_groups(groups: [(u8, u8); 5], count: usize) -> (sorted: [(u8, u8); 5])
    requires
        1 <= count <= 5,
    ensures
        groups_of(sorted@.take(count as int)) == sort_desc(
            groups_of(groups@.take(count as int)),
            size_key(),
        ),
        forall|k: int| count <= k < 5 ==> #[trigger] sorted@[k] == groups@[k],
{
    let ghost input = groups_of(groups@.take(count as int));
    let mut a = groups;
    let mut i: usize = 1;
    proof {
        reveal_with_fuel(sort_desc, 2);
    }
    while i < count
        invariant
            1 <= i <= count <= 5,
            input == groups_of(groups@.take(count as int)),
            groups_of(a@.take(i as int)) == sort_desc(input.take(i as int), size_key()),
            forall|k: int| i <= k < 5 ==> #[trigger] a@[k] == groups@[k],
        decreases count - i,
    {
        let ghost sorted = groups_of(a@.take(i as int));
        let ghost x = group_of(a@[i as int]);
        let mut j: usize = i;
        while j > 0 && a[j - 1].0 < a[j].0
            invariant
                0 <= j <= i < count <= 5,
                sorted.len() == i,
                group_of(a@[j as int]) == x,
                forall|k: int| 0 <= k < j ==> group_of(#[trigger] a@[k]) == sorted[k],
                forall|k: int| j < k <= i ==> group_of(#[trigger] a@[k]) == sorted[k - 1],
                forall|k: int| j <= k < i ==> (#[trigger] sorted[k]).size < x.size,
                forall|k: int| i < k < 5 ==> #[trigger] a@[k] == groups@[k],
            decreases j,
        {
            let t = a[j - 1];
            a[j - 1] = a[j];
            a[j] = t;
            j -= 1;
        }
        proof {
            lemma_insert_desc_at(sorted, x, size_key(), j as int);
            assert(input.take(i + 1).drop_last() =~= input.take(i as int));
        }
        i += 1;
    }
    proof {
        assert(input.take(count as int) =~= input);
    }
    a
}

/// The groups of five ranks: the runs of equal neighbours as pairs of size
/// and rank, larger groups first, and how many there are. The pairs behind
/// them are zero.
pub(crate) fn rank_groups(ranks: &[u8; 5]) -> (out: ([(u8, u8); 5], usize))
    ensures
        1 <= out.1 <= 5,
        groups_of(out.0@.take(out.1 as int)) == groups(values(ranks@)),
        forall|k: int| out.1 <= k < 5 ==> #[trigger] out.0@[k] == (0u8, 0u8),
{
    let ghost vals = values(ranks@);
    let mut groups = [(0u8, 0u8); 5];
    let mut group_index: usize = 0;
    let mut group_size: u8 = 1;
    let mut group_rank: u8 = ranks[0];
    let mut i: usize = 0;
    proof {
        reveal_with_fuel(runs, 2);
    }
    while i < 4
        invariant
            0 <= i <= 4,
            group_index <= i,
            1 <= group_size <= i + 1,
            group_rank == ranks@[i as int],
            vals == values(ranks@),
            runs(vals.take(i + 1)) == groups_of(groups@.take(group_index as int)).push(
                Group { size: group_size as int, rank: group_rank as int },
            ),
            forall|k: int| group_index <= k < 5 ==> #[trigger] groups@[k] == (0u8, 0u8),
        decreases 4 - i,
    {
        if ranks[i] == ranks[i + 1] {
            group_size += 1;
        } else {
            groups[group_index] = (group_size, group_rank);
            group_index += 1;
            group_size = 1;
            group_rank = ranks[i + 1];
        }
        i += 1;
        proof {
            assert(vals.take(i + 1).drop_last() =~= vals.take(i as int));
        }
    }
    let ghost before = groups_of(groups@.take(group_index as int));
    groups[group_index] = (group_size, group_rank);
    let count = group_index + 1;
    proof {
        assert(vals.take(5) =~= vals);
        assert(groups_of(groups@.take(count as int)) =~= before.push(
            Group { size: group_size as int, rank: group_rank as int },
        ));
    }
    let sorted = sort_groups(groups, count);
    (sorted, count)
}

} // verus!
