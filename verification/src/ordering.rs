//! A stable sort, specified as a mathematical function: elements are ordered
//! by an integer key, and elements with equal keys keep their original
//! relative order. All three executable strategies are proved to produce
//! exactly this sequence.

use vstd::prelude::*;
use vstd::multiset::Multiset;
use vstd::seq_lib::group_to_multiset_ensures;

verus! {

/// The sequence is in non-decreasing order of key.
pub open spec fn key_sorted<T>(s: Seq<T>, key: spec_fn(T) -> int) -> bool {
    forall|i: int, j: int|
        0 <= i < j < s.len() ==> #[trigger] key(s[i]) <= #[trigger] key(s[j])
}

/// Inserts `x` into a key-sorted sequence, after every element whose key is
/// less than or equal to the key of `x` (so equal keys keep insertion order).
pub open spec fn insert_by_key<T>(s: Seq<T>, x: T, key: spec_fn(T) -> int) -> Seq<T>
    decreases s.len(),
{
    if s.len() == 0 {
        seq![x]
    } else if key(s.last()) <= key(x) {
        s.push(x)
    } else {
        insert_by_key(s.drop_last(), x, key).push(s.last())
    }
}

/// The stable sort of a sequence by key: an insertion sort at the level of
/// mathematical sequences.
pub open spec fn stable_sorted<T>(s: Seq<T>, key: spec_fn(T) -> int) -> Seq<T>
    decreases s.len(),
{
    if s.len() == 0 {
        Seq::empty()
    } else {
        insert_by_key(stable_sorted(s.drop_last(), key), s.last(), key)
    }
}

/// Inserting into a sequence adds one element and inserts it into the multiset
/// of elements, whatever the order of the sequence.
pub proof fn lemma_insert_by_key_multiset<T>(s: Seq<T>, x: T, key: spec_fn(T) -> int)
    ensures
        insert_by_key(s, x, key).len() == s.len() + 1,
        insert_by_key(s, x, key).to_multiset() == s.to_multiset().insert(x),
    decreases s.len(),
{
    broadcast use group_to_multiset_ensures;

    if s.len() == 0 {
        assert(seq![x] =~= Seq::<T>::empty().push(x));
        assert(Seq::<T>::empty().to_multiset() =~= Multiset::<T>::empty());
    } else if key(s.last()) <= key(x) {
    } else {
        lemma_insert_by_key_multiset(s.drop_last(), x, key);
        assert(s.drop_last().push(s.last()) =~= s);
        assert(s.drop_last().to_multiset().insert(x).insert(s.last()) =~= s.drop_last()
            .to_multiset().insert(s.last()).insert(x));
    }
}

/// Where `x` lands: if `j` is the position that splits `s` into the elements
/// whose key is at most the key of `x` and those whose key is greater, then
/// inserting `x` splices it in at `j`.
pub proof fn lemma_insert_by_key_at<T>(s: Seq<T>, x: T, key: spec_fn(T) -> int, j: int)
    requires
        key_sorted(s, key),
        0 <= j <= s.len(),
        forall|k: int| j <= k < s.len() ==> key(#[trigger] s[k]) > key(x),
        j == 0 || key(s[j - 1]) <= key(x),
    ensures
        insert_by_key(s, x, key) == s.take(j) + seq![x] + s.skip(j),
    decreases s.len(),
{
    if s.len() == 0 {
        assert(insert_by_key(s, x, key) =~= s.take(j) + seq![x] + s.skip(j));
    } else if j == s.len() {
        assert(key(s.last()) <= key(x));
        assert(insert_by_key(s, x, key) =~= s.take(j) + seq![x] + s.skip(j));
    } else {
        assert(key(s[s.len() - 1]) > key(x));
        let d = s.drop_last();
        assert(forall|k: int| j <= k < d.len() ==> key(#[trigger] d[k]) > key(x));
        assert(j == 0 || key(d[j - 1]) <= key(x));
        lemma_insert_by_key_at(d, x, key, j);
        assert(insert_by_key(s, x, key) == (d.take(j) + seq![x] + d.skip(j)).push(s.last()));
        assert((d.take(j) + seq![x] + d.skip(j)).push(s.last()) =~= s.take(j) + seq![x] + s.skip(
            j,
        ));
    }
}

/// Inserting into a key-sorted sequence keeps it key-sorted.
pub proof fn lemma_insert_by_key_sorted<T>(s: Seq<T>, x: T, key: spec_fn(T) -> int)
    requires
        key_sorted(s, key),
    ensures
        key_sorted(insert_by_key(s, x, key), key),
    decreases s.len(),
{
    if s.len() == 0 {
    } else if key(s.last()) <= key(x) {
        let r = s.push(x);
        assert forall|i: int, j: int| 0 <= i < j < r.len() implies #[trigger] key(r[i])
            <= #[trigger] key(r[j]) by {
            if j == r.len() - 1 && i < s.len() {
                assert(key(s[i]) <= key(s[s.len() - 1]) || i == s.len() - 1);
            }
        }
    } else {
        lemma_insert_by_key_sorted(s.drop_last(), x, key);
        lemma_insert_by_key_multiset(s.drop_last(), x, key);
        let t = insert_by_key(s.drop_last(), x, key);
        let r = t.push(s.last());
        // Every element of `t` is either `x` or an element of `s.drop_last()`,
        // and either way its key is at most the key of `s.last()`.
        assert forall|i: int| 0 <= i < t.len() implies key(#[trigger] t[i]) <= key(
            s.last(),
        ) by {
            broadcast use group_to_multiset_ensures;

            assert(t.to_multiset().count(t[i]) > 0);
            if t[i] != x {
                assert(s.drop_last().to_multiset().count(t[i]) > 0);
                let w = choose|w: int| 0 <= w < s.drop_last().len() && s.drop_last()[w] == t[i];
                assert(key(s[w]) <= key(s[s.len() - 1]));
            }
        }
        assert forall|i: int, j: int| 0 <= i < j < r.len() implies #[trigger] key(r[i])
            <= #[trigger] key(r[j]) by {
            if j < r.len() - 1 {
                assert(key(t[i]) <= key(t[j]));
            }
        }
    }
}

/// The stable sort of a sequence is key-sorted, has the same length, and holds
/// exactly the same elements (as a multiset).
pub proof fn lemma_stable_sorted_props<T>(s: Seq<T>, key: spec_fn(T) -> int)
    ensures
        stable_sorted(s, key).len() == s.len(),
        stable_sorted(s, key).to_multiset() == s.to_multiset(),
        key_sorted(stable_sorted(s, key), key),
    decreases s.len(),
{
    broadcast use group_to_multiset_ensures;

    if s.len() == 0 {
        assert(Seq::<T>::empty().to_multiset() =~= Multiset::<T>::empty());
        assert(s.to_multiset() =~= Multiset::<T>::empty());
    } else {
        let d = s.drop_last();
        lemma_stable_sorted_props(d, key);
        lemma_insert_by_key_multiset(stable_sorted(d, key), s.last(), key);
        lemma_insert_by_key_sorted(stable_sorted(d, key), s.last(), key);
        assert(d.push(s.last()) =~= s);
    }
}

/// Sorting a sequence that is already key-sorted leaves it unchanged.
pub proof fn lemma_stable_sorted_of_sorted<T>(s: Seq<T>, key: spec_fn(T) -> int)
    requires
        key_sorted(s, key),
    ensures
        stable_sorted(s, key) == s,
    decreases s.len(),
{
    if s.len() == 0 {
        assert(stable_sorted(s, key) =~= s);
    } else {
        let d = s.drop_last();
        assert(key_sorted(d, key));
        lemma_stable_sorted_of_sorted(d, key);
        if d.len() > 0 {
            assert(key(d.last()) <= key(s.last()));
        }
        assert(stable_sorted(s, key) =~= s);
    }
}

/// The first element of the stable sort of a non-empty sequence has the least
/// key: any value that is the key of some element and is at most every
/// element's key equals the key of the first sorted element.
pub proof fn lemma_stable_sorted_first_min<T>(s: Seq<T>, key: spec_fn(T) -> int, m: int)
    requires
        s.len() > 0,
        exists|i: int| 0 <= i < s.len() && m == key(#[trigger] s[i]),
        forall|i: int| 0 <= i < s.len() ==> m <= key(#[trigger] s[i]),
    ensures
        m == key(stable_sorted(s, key)[0]),
{
    broadcast use group_to_multiset_ensures;

    lemma_stable_sorted_props(s, key);
    let r = stable_sorted(s, key);
    // The first sorted element is an element of `s`, so `m` is at most its key.
    assert(r.to_multiset().count(r[0]) > 0);
    assert(s.to_multiset().count(r[0]) > 0);
    let w = choose|w: int| 0 <= w < s.len() && s[w] == r[0];
    assert(m <= key(r[0]));
    // The element whose key is `m` appears somewhere in the sorted sequence,
    // and the first sorted element's key is at most its key.
    let i = choose|i: int| 0 <= i < s.len() && m == key(#[trigger] s[i]);
    assert(s.to_multiset().count(s[i]) > 0);
    assert(r.to_multiset().count(s[i]) > 0);
    let p = choose|p: int| 0 <= p < r.len() && r[p] == s[i];
    if p > 0 {
        assert(key(r[0]) <= key(r[p]));
    }
}

} // verus!
