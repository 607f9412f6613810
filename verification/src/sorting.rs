//! Stable sorting by a key, largest key first, as a mathematical function on
//! sequences, with the facts that characterise it.

use vstd::prelude::*;
use vstd::seq_lib::group_to_multiset_ensures;

verus! {

/// The keys never rise along the sequence.
pub open spec fn is_sorted_desc<T>(s: Seq<T>, key: spec_fn(T) -> int) -> bool {
    forall|i: int, j: int| #![trigger s[i], s[j]] 0 <= i < j < s.len() ==> key(s[i]) >= key(s[j])
}

/// Puts `x` into `sorted` behind the last element whose key is at least the
/// key of `x`, so behind every element of equal key.
pub open spec fn insert_desc<T>(sorted: Seq<T>, x: T, key: spec_fn(T) -> int) -> Seq<T>
    decreases sorted.len(),
{
    if sorted.len() == 0 || key(sorted.last()) >= key(x) {
        sorted.push(x)
    } else {
        insert_desc(sorted.drop_last(), x, key).push(sorted.last())
    }
}

/// The elements of `s` by falling key; elements of equal key keep the order
/// they have in `s`.
pub open spec fn sort_desc<T>(s: Seq<T>, key: spec_fn(T) -> int) -> Seq<T>
    decreases s.len(),
{
    if s.len() == 0 {
        s
    } else {
        insert_desc(sort_desc(s.drop_last(), key), s.last(), key)
    }
}

/// Whether an element has the key `k`.
pub open spec fn has_key<T>(key: spec_fn(T) -> int, k: int) -> spec_fn(T) -> bool {
    |x: T| key(x) == k
}

/// The elements of `s` whose key is `k`, in the order they have in `s`.
pub open spec fn with_key<T>(s: Seq<T>, key: spec_fn(T) -> int, k: int) -> Seq<T> {
    s.filter(has_key(key, k))
}

/// Where `x` goes: `j` is the place behind the last element whose key is at
/// least the key of `x`.
pub open spec fn is_insert_place<T>(sorted: Seq<T>, x: T, key: spec_fn(T) -> int, j: int) -> bool {
    &&& 0 <= j <= sorted.len()
    &&& j > 0 ==> key(sorted[j - 1]) >= key(x)
    &&& forall|k: int| j <= k < sorted.len() ==> key(#[trigger] sorted[k]) < key(x)
}

/// At its place, `insert_desc` does what `Seq::insert` does.
pub proof fn lemma_insert_desc_at<T>(sorted: Seq<T>, x: T, key: spec_fn(T) -> int, j: int)
    requires
        is_insert_place(sorted, x, key, j),
    ensures
        insert_desc(sorted, x, key) == sorted.insert(j, x),
    decreases sorted.len(),
{
    if j < sorted.len() {
        lemma_insert_desc_at(sorted.drop_last(), x, key, j);
    }
}

/// Every insertion has a place.
pub proof fn lemma_insert_desc_place<T>(sorted: Seq<T>, x: T, key: spec_fn(T) -> int) -> (j: int)
    ensures
        is_insert_place(sorted, x, key, j),
        insert_desc(sorted, x, key) == sorted.insert(j, x),
    decreases sorted.len(),
{
    if sorted.len() == 0 || key(sorted.last()) >= key(x) {
        sorted.len() as int
    } else {
        let init = sorted.drop_last();
        let j = lemma_insert_desc_place(init, x, key);
        assert(is_insert_place(sorted, x, key, j)) by {
            assert forall|k: int| j <= k < sorted.len() implies key(#[trigger] sorted[k]) < key(
                x,
            ) by {
                if k < init.len() {
                    assert(init[k] == sorted[k]);
                }
            }
        }
        j
    }
}

/// Inserting keeps a sorted sequence sorted and adds exactly `x`.
pub proof fn lemma_insert_desc<T>(sorted: Seq<T>, x: T, key: spec_fn(T) -> int)
    requires
        is_sorted_desc(sorted, key),
    ensures
        is_sorted_desc(insert_desc(sorted, x, key), key),
        insert_desc(sorted, x, key).len() == sorted.len() + 1,
        insert_desc(sorted, x, key).to_multiset() == sorted.to_multiset().insert(x),
{
    broadcast use group_to_multiset_ensures;

    lemma_insert_desc_place(sorted, x, key);
}

/// `sort_desc` yields the same elements, each as often as before, by falling
/// key.
pub proof fn lemma_sort_desc<T>(s: Seq<T>, key: spec_fn(T) -> int)
    ensures
        is_sorted_desc(sort_desc(s, key), key),
        sort_desc(s, key).len() == s.len(),
        sort_desc(s, key).to_multiset() == s.to_multiset(),
    decreases s.len(),
{
    broadcast use group_to_multiset_ensures;

    if s.len() > 0 {
        let init = s.drop_last();
        lemma_sort_desc(init, key);
        lemma_insert_desc(sort_desc(init, key), s.last(), key);
        assert(init.push(s.last()) =~= s);
    }
}

/// Two sequences sorted by falling key that hold the same elements, each as
/// often in the one as in the other, show the same keys place by place.
pub proof fn lemma_sorted_keys_unique<T>(x: Seq<T>, y: Seq<T>, key: spec_fn(T) -> int)
    requires
        is_sorted_desc(x, key),
        is_sorted_desc(y, key),
        x.to_multiset() == y.to_multiset(),
    ensures
        x.len() == y.len(),
        forall|i: int| 0 <= i < x.len() ==> key(#[trigger] x[i]) == key(y[i]),
    decreases x.len(),
{
    broadcast use group_to_multiset_ensures;

    assert(x.len() == x.to_multiset().len() && y.len() == y.to_multiset().len());
    if x.len() > 0 {
        assert(y.to_multiset().count(x[0]) > 0);
        assert(x.to_multiset().count(y[0]) > 0);
        let i = choose|i: int| 0 <= i < y.len() && y[i] == x[0];
        let xr = x.remove(0);
        let yr = y.remove(i);
        lemma_sorted_keys_unique(xr, yr, key);
        assert forall|k: int| 0 <= k < x.len() implies key(#[trigger] x[k]) == key(y[k]) by {
            if k > 0 {
                assert(key(xr[k - 1]) == key(yr[k - 1]));
            }
        }
    }
}

/// The elements of one key, by the last element of the sequence.
pub proof fn lemma_with_key_step<T>(s: Seq<T>, key: spec_fn(T) -> int, k: int)
    ensures
        s.len() == 0 ==> with_key(s, key, k) == s,
        s.len() > 0 && key(s.last()) == k ==> with_key(s, key, k) == with_key(
            s.drop_last(),
            key,
            k,
        ).push(s.last()),
        s.len() > 0 && key(s.last()) != k ==> with_key(s, key, k) == with_key(
            s.drop_last(),
            key,
            k,
        ),
{
    reveal(Seq::filter);
}

/// Putting `x` in behind every element of its key adds it to the end of the
/// elements of that key, and leaves the elements of every other key as they
/// are.
pub proof fn lemma_with_key_insert<T>(s: Seq<T>, j: int, x: T, key: spec_fn(T) -> int, k: int)
    requires
        0 <= j <= s.len(),
        forall|i: int| j <= i < s.len() ==> key(#[trigger] s[i]) != key(x),
    ensures
        key(x) == k ==> with_key(s.insert(j, x), key, k) == with_key(s, key, k).push(x),
        key(x) != k ==> with_key(s.insert(j, x), key, k) == with_key(s, key, k),
    decreases s.len(),
{
    let out = s.insert(j, x);
    lemma_with_key_step(out, key, k);
    lemma_with_key_step(s, key, k);
    if j == s.len() {
        assert(out.drop_last() =~= s);
    } else {
        let init = s.drop_last();
        assert(out.drop_last() =~= init.insert(j, x));
        lemma_with_key_insert(init, j, x, key, k);
    }
}

/// `sort_desc` keeps the elements of each key in the order they had.
pub proof fn lemma_sort_desc_stable<T>(s: Seq<T>, key: spec_fn(T) -> int, k: int)
    ensures
        with_key(sort_desc(s, key), key, k) == with_key(s, key, k),
    decreases s.len(),
{
    lemma_with_key_step(s, key, k);
    if s.len() > 0 {
        let init = s.drop_last();
        let sorted = sort_desc(init, key);
        lemma_sort_desc_stable(init, key, k);
        let j = lemma_insert_desc_place(sorted, s.last(), key);
        lemma_with_key_insert(sorted, j, s.last(), key, k);
    }
}

/// Two sequences by falling key in which the elements of each key are the
/// same, in the same order, are the same sequence.
pub proof fn lemma_stable_sorted_unique<T>(x: Seq<T>, y: Seq<T>, key: spec_fn(T) -> int)
    requires
        is_sorted_desc(x, key),
        is_sorted_desc(y, key),
        forall|k: int| #[trigger] with_key(x, key, k) == with_key(y, key, k),
    ensures
        x == y,
    decreases x.len(),
{
    if x.len() == 0 || y.len() == 0 {
        if x.len() > 0 {
            let k = key(x.last());
            lemma_with_key_step(x, key, k);
            lemma_with_key_step(y, key, k);
        }
        if y.len() > 0 {
            let k = key(y.last());
            lemma_with_key_step(x, key, k);
            lemma_with_key_step(y, key, k);
        }
    } else {
        let kx = key(x.last());
        let ky = key(y.last());
        let x0 = x.drop_last();
        let y0 = y.drop_last();
        lemma_with_key_step(x, key, kx);
        lemma_with_key_step(y, key, ky);
        let fy = with_key(y, key, ky);
        assert(fy[fy.len() - 1] == y.last());
        assert(with_key(x, key, ky).contains(y.last()));
        y.lemma_filter_contains_rev(has_key(key, kx), x.last());
        x.lemma_filter_contains_rev(has_key(key, ky), y.last());
        assert forall|k: int| #[trigger] with_key(x0, key, k) == with_key(y0, key, k) by {
            lemma_with_key_step(x, key, k);
            lemma_with_key_step(y, key, k);
            if k == kx {
                assert(with_key(y0, key, k) =~= with_key(y, key, k).drop_last());
            }
        }
        lemma_stable_sorted_unique(x0, y0, key);
        assert(y =~= y0.push(y.last()));
    }
}

/// What `sort_desc` yields is the one sequence by falling key that keeps the
/// elements of each key as they stand in `s`.
pub proof fn lemma_sort_desc_unique<T>(s: Seq<T>, out: Seq<T>, key: spec_fn(T) -> int)
    requires
        is_sorted_desc(out, key),
        forall|k: int| #[trigger] with_key(out, key, k) == with_key(s, key, k),
    ensures
        out == sort_desc(s, key),
{
    lemma_sort_desc(s, key);
    assert forall|k: int| #[trigger] with_key(out, key, k) == with_key(
        sort_desc(s, key),
        key,
        k,
    ) by {
        lemma_sort_desc_stable(s, key, k);
    }
    lemma_stable_sorted_unique(out, sort_desc(s, key), key);
}

} // verus!
