//! The three sorting strategies under comparison, and the equivalence checker
//! that drives them.
//!
//! Each strategy orders a dataset of numeric strings by the integer value each
//! string encodes. The key-per-comparison strategy re-parses both elements on
//! every comparison; the cached-key strategy parses each element once up
//! front; the parse-then-sort strategy sorts the parsed integers themselves.
//! All three are proved against the same mathematical stable sort, which is
//! what makes them interchangeable.

use vstd::prelude::*;
use crate::numeric::{is_numeric_string, numeric_value, parse_numeric};
use crate::ordering::{
    key_sorted, insert_by_key, stable_sorted, lemma_insert_by_key_at, lemma_stable_sorted_props,
    lemma_stable_sorted_of_sorted, lemma_stable_sorted_first_min,
};
use vstd::seq_lib::group_to_multiset_ensures;
use vstd::string::StrSliceExecFns;

verus! {

/// The mathematical content of a dataset: the character sequence of each element.
pub open spec fn dataset_view(v: Seq<String>) -> Seq<Seq<char>> {
    v.map_values(|s: String| s@)
}

/// Every element of the dataset is a numeric string.
pub open spec fn valid_dataset(d: Seq<Seq<char>>) -> bool {
    forall|i: int| 0 <= i < d.len() ==> is_numeric_string(#[trigger] d[i])
}

/// The ordering key of a dataset element: the integer value it encodes.
pub open spec fn value_key() -> spec_fn(Seq<char>) -> int {
    |s: Seq<char>| numeric_value(s)
}

/// The ordering key of a pre-parsed element: the integer itself.
pub open spec fn int_key() -> spec_fn(i32) -> int {
    |v: i32| v as int
}

/// Derives the ordering key of one element. The key-per-comparison strategy
/// calls this from its comparator on every comparison; the other strategies
/// call it once per element.
pub fn parse_key(s: &String) -> (k: i32)
    requires
        is_numeric_string(s@),
    ensures
        k as int == numeric_value(s@),
{
    match parse_numeric(s.as_str()) {
        Some(k) => k,
        None => {
            proof {
                assert(false);
            }
            0
        },
    }
}

/// Swaps two adjacent elements of a vector in place.
fn swap_adjacent<T>(vec: &mut Vec<T>, j: usize)
    requires
        1 <= j < old(vec).len(),
    ensures
        final(vec)@ == old(vec)@.update(j - 1, old(vec)@[j as int]).update(
            j as int,
            old(vec)@[j - 1],
        ),
{
    let x = vec.remove(j);
    vec.insert(j - 1, x);
    proof {
        assert(vec@ =~= old(vec)@.update(j - 1, old(vec)@[j as int]).update(
            j as int,
            old(vec)@[j - 1],
        ));
    }
}

/// Updating one dataset element updates the same position of its view.
proof fn lemma_view_update(v: Seq<String>, i: int, x: String)
    requires
        0 <= i < v.len(),
    ensures
        dataset_view(v.update(i, x)) == dataset_view(v).update(i, x@),
{
    assert(dataset_view(v.update(i, x)) =~= dataset_view(v).update(i, x@));
}

/// Key-per-comparison strategy: sorts the dataset in place into non-decreasing
/// order of integer value, deriving the key of both elements anew on every
/// comparison. Returns the length of the first element of the sorted result
/// as a side-effect probe, or `None` for an empty dataset.
pub fn sort_by_key(vec: &mut Vec<String>) -> (probe: Option<usize>)
    requires
        valid_dataset(dataset_view(old(vec)@)),
    ensures
        dataset_view(final(vec)@) == stable_sorted(dataset_view(old(vec)@), value_key()),
        match probe {
            Some(l) => final(vec)@.len() > 0 && l as nat == final(vec)@[0]@.len(),
            None => final(vec)@.len() == 0,
        },
{
    let ghost orig = dataset_view(old(vec)@);
    let ghost key = value_key();
    let n = vec.len();
    if n == 0 {
        proof {
            assert(stable_sorted(orig, key) =~= orig);
        }
        return None;
    }
    let mut i: usize = 1;
    proof {
        assert(key_sorted(orig.take(1), key));
        lemma_stable_sorted_of_sorted(orig.take(1), key);
        assert(dataset_view(vec@).take(1) == orig.take(1));
        assert(dataset_view(vec@).skip(1) == orig.skip(1));
    }
    while i < n
        invariant
            1 <= i <= n,
            n == vec@.len(),
            orig.len() == n,
            key == value_key(),
            valid_dataset(orig),
            valid_dataset(dataset_view(vec@)),
            dataset_view(vec@).take(i as int) == stable_sorted(orig.take(i as int), key),
            dataset_view(vec@).skip(i as int) == orig.skip(i as int),
        decreases n - i,
    {
        let ghost p = stable_sorted(orig.take(i as int), key);
        let ghost x = orig[i as int];
        proof {
            lemma_stable_sorted_props(orig.take(i as int), key);
            let dv = dataset_view(vec@);
            let rhs = p.take(i as int) + seq![x] + p.skip(i as int) + orig.skip(i as int + 1);
            assert(p.len() == i);
            assert(rhs.len() == n);
            assert forall|m: int| 0 <= m < n implies dv[m] == rhs[m] by {
                if m < i {
                    assert(dv[m] == dv.take(i as int)[m]);
                    assert(rhs[m] == p[m]);
                } else if m == i {
                    assert(dv[m] == dv.skip(i as int)[0]);
                    assert(orig.skip(i as int)[0] == orig[i as int]);
                } else {
                    assert(dv[m] == dv.skip(i as int)[m - i]);
                    assert(orig.skip(i as int)[m - i] == orig[m]);
                    assert(rhs[m] == orig.skip(i as int + 1)[m - i - 1]);
                    assert(orig.skip(i as int + 1)[m - i - 1] == orig[m]);
                }
            }
            assert(dv =~= rhs);
        }
        let mut j: usize = i;
        loop
            invariant
                0 <= j <= i < n,
                n == vec@.len(),
                orig.len() == n,
                key == value_key(),
                valid_dataset(dataset_view(vec@)),
                p == stable_sorted(orig.take(i as int), key),
                p.len() == i,
                key_sorted(p, key),
                x == orig[i as int],
                dataset_view(vec@) == p.take(j as int) + seq![x] + p.skip(j as int) + orig.skip(
                    i as int + 1,
                ),
                forall|k: int| j <= k < i ==> key(#[trigger] p[k]) > key(x),
            ensures
                0 <= j <= i,
                n == vec@.len(),
                valid_dataset(dataset_view(vec@)),
                dataset_view(vec@) == p.take(j as int) + seq![x] + p.skip(j as int) + orig.skip(
                    i as int + 1,
                ),
                forall|k: int| j <= k < i ==> key(#[trigger] p[k]) > key(x),
                j == 0 || key(p[j - 1]) <= key(x),
            decreases j,
        {
            if j == 0 {
                break;
            }
            proof {
                assert(dataset_view(vec@)[j - 1] == p[j - 1]);
                assert(dataset_view(vec@)[j as int] == x);
                assert(vec@[j - 1]@ == p[j - 1]);
                assert(vec@[j as int]@ == x);
            }
            let kl = parse_key(&vec[j - 1]);
            let kr = parse_key(&vec[j]);
            if kl <= kr {
                break;
            }
            let ghost vb = vec@;
            let ghost before = dataset_view(vec@);
            swap_adjacent(vec, j);
            proof {
                lemma_view_update(vb, j - 1, vb[j as int]);
                let v1 = vb.update(j - 1, vb[j as int]);
                lemma_view_update(v1, j as int, vb[j - 1]);
                assert(dataset_view(vec@) == before.update(j - 1, x).update(
                    j as int,
                    p[j - 1],
                ));
                assert(dataset_view(vec@) =~= p.take(j - 1) + seq![x] + p.skip(j - 1)
                    + orig.skip(i as int + 1));
                assert forall|idx: int|
                    0 <= idx < dataset_view(vec@).len() implies is_numeric_string(
                    #[trigger] dataset_view(vec@)[idx],
                ) by {
                    if idx != j - 1 && idx != j {
                        assert(dataset_view(vec@)[idx] == before[idx]);
                    }
                }
            }
            j = j - 1;
        }
        proof {
            lemma_insert_by_key_at(p, x, key, j as int);
            let s1 = orig.take(i as int + 1);
            assert(s1.drop_last() =~= orig.take(i as int));
            assert(s1.last() == x);
            assert(stable_sorted(s1, key) == insert_by_key(p, x, key));
            assert(dataset_view(vec@).take(i as int + 1) =~= p.take(j as int) + seq![x] + p.skip(
                j as int,
            ));
            assert(dataset_view(vec@).skip(i as int + 1) =~= orig.skip(i as int + 1));
        }
        i = i + 1;
    }
    proof {
        assert(dataset_view(vec@) =~= dataset_view(vec@).take(n as int));
        assert(orig.take(n as int) =~= orig);
        assert(dataset_view(vec@)[0] == vec@[0]@);
    }
    let probe = vec[0].as_str().unicode_len();
    Some(probe)
}

/// Cached-key strategy: sorts the dataset in place into the same order as the
/// key-per-comparison strategy, but derives each element's key exactly once
/// before any comparison and compares the cached keys. Returns the same
/// side-effect probe.
pub fn sort_by_cached_key(vec: &mut Vec<String>) -> (probe: Option<usize>)
    requires
        valid_dataset(dataset_view(old(vec)@)),
    ensures
        dataset_view(final(vec)@) == stable_sorted(dataset_view(old(vec)@), value_key()),
        match probe {
            Some(l) => final(vec)@.len() > 0 && l as nat == final(vec)@[0]@.len(),
            None => final(vec)@.len() == 0,
        },
{
    let ghost orig = dataset_view(old(vec)@);
    let ghost key = value_key();
    let n = vec.len();
    if n == 0 {
        proof {
            assert(stable_sorted(orig, key) =~= orig);
        }
        return None;
    }
    // Derive each key exactly once, before any comparison.
    let mut keys: Vec<i32> = Vec::new();
    let mut t: usize = 0;
    while t < n
        invariant
            t <= n,
            n == vec@.len(),
            keys@.len() == t,
            key == value_key(),
            valid_dataset(orig),
            dataset_view(vec@) == orig,
            forall|k: int| 0 <= k < t ==> (#[trigger] keys@[k]) as int == key(orig[k]),
        decreases n - t,
    {
        proof {
            assert(vec@[t as int]@ == orig[t as int]);
        }
        let kv = parse_key(&vec[t]);
        let ghost kold = keys@;
        keys.push(kv);
        proof {
            assert(key(orig[t as int]) == numeric_value(orig[t as int]));
            assert forall|k: int| 0 <= k < t + 1 implies (#[trigger] keys@[k]) as int == key(
                orig[k],
            ) by {
                if k < t {
                    assert(keys@[k] == kold[k]);
                } else {
                    assert(keys@[k] == kv);
                }
            }
        }
        t = t + 1;
    }
    let mut i: usize = 1;
    proof {
        assert(key_sorted(orig.take(1), key));
        lemma_stable_sorted_of_sorted(orig.take(1), key);
        assert(dataset_view(vec@).take(1) == orig.take(1));
        assert(dataset_view(vec@).skip(1) == orig.skip(1));
    }
    while i < n
        invariant
            1 <= i <= n,
            n == vec@.len(),
            orig.len() == n,
            key == value_key(),
            valid_dataset(orig),
            valid_dataset(dataset_view(vec@)),
            keys@.len() == n,
            forall|k: int| 0 <= k < n ==> (#[trigger] keys@[k]) as int == key(
                dataset_view(vec@)[k],
            ),
            dataset_view(vec@).take(i as int) == stable_sorted(orig.take(i as int), key),
            dataset_view(vec@).skip(i as int) == orig.skip(i as int),
        decreases n - i,
    {
        let ghost p = stable_sorted(orig.take(i as int), key);
        let ghost x = orig[i as int];
        proof {
            lemma_stable_sorted_props(orig.take(i as int), key);
            let dv = dataset_view(vec@);
            let rhs = p.take(i as int) + seq![x] + p.skip(i as int) + orig.skip(i as int + 1);
            assert(p.len() == i);
            assert(rhs.len() == n);
            assert forall|m: int| 0 <= m < n implies dv[m] == rhs[m] by {
                if m < i {
                    assert(dv[m] == dv.take(i as int)[m]);
                    assert(rhs[m] == p[m]);
                } else if m == i {
                    assert(dv[m] == dv.skip(i as int)[0]);
                    assert(orig.skip(i as int)[0] == orig[i as int]);
                } else {
                    assert(dv[m] == dv.skip(i as int)[m - i]);
                    assert(orig.skip(i as int)[m - i] == orig[m]);
                    assert(rhs[m] == orig.skip(i as int + 1)[m - i - 1]);
                    assert(orig.skip(i as int + 1)[m - i - 1] == orig[m]);
                }
            }
            assert(dv =~= rhs);
        }
        let mut j: usize = i;
        loop
            invariant
                0 <= j <= i < n,
                n == vec@.len(),
                orig.len() == n,
                key == value_key(),
                valid_dataset(dataset_view(vec@)),
                keys@.len() == n,
                forall|k: int| 0 <= k < n ==> (#[trigger] keys@[k]) as int == key(
                    dataset_view(vec@)[k],
                ),
                p == stable_sorted(orig.take(i as int), key),
                p.len() == i,
                key_sorted(p, key),
                x == orig[i as int],
                dataset_view(vec@) == p.take(j as int) + seq![x] + p.skip(j as int) + orig.skip(
                    i as int + 1,
                ),
                forall|k: int| j <= k < i ==> key(#[trigger] p[k]) > key(x),
            ensures
                0 <= j <= i,
                n == vec@.len(),
                valid_dataset(dataset_view(vec@)),
                keys@.len() == n,
                forall|k: int| 0 <= k < n ==> (#[trigger] keys@[k]) as int == key(
                    dataset_view(vec@)[k],
                ),
                dataset_view(vec@) == p.take(j as int) + seq![x] + p.skip(j as int) + orig.skip(
                    i as int + 1,
                ),
                forall|k: int| j <= k < i ==> key(#[trigger] p[k]) > key(x),
                j == 0 || key(p[j - 1]) <= key(x),
            decreases j,
        {
            if j == 0 {
                break;
            }
            proof {
                assert(dataset_view(vec@)[j - 1] == p[j - 1]);
                assert(dataset_view(vec@)[j as int] == x);
            }
            // Compare the cached keys; no element is parsed here.
            let kl = keys[j - 1];
            let kr = keys[j];
            if kl <= kr {
                break;
            }
            let ghost vb = vec@;
            let ghost kb = keys@;
            let ghost before = dataset_view(vec@);
            swap_adjacent(vec, j);
            swap_adjacent(&mut keys, j);
            proof {
                lemma_view_update(vb, j - 1, vb[j as int]);
                let v1 = vb.update(j - 1, vb[j as int]);
                lemma_view_update(v1, j as int, vb[j - 1]);
                assert(dataset_view(vec@) == before.update(j - 1, x).update(
                    j as int,
                    p[j - 1],
                ));
                assert(dataset_view(vec@) =~= p.take(j - 1) + seq![x] + p.skip(j - 1)
                    + orig.skip(i as int + 1));
                assert forall|idx: int|
                    0 <= idx < dataset_view(vec@).len() implies is_numeric_string(
                    #[trigger] dataset_view(vec@)[idx],
                ) by {
                    if idx != j - 1 && idx != j {
                        assert(dataset_view(vec@)[idx] == before[idx]);
                    }
                }
                assert forall|k: int| 0 <= k < n implies (#[trigger] keys@[k]) as int == key(
                    dataset_view(vec@)[k],
                ) by {
                    if k != j - 1 && k != j {
                        assert(keys@[k] == kb[k]);
                        assert(dataset_view(vec@)[k] == before[k]);
                    } else if k == j - 1 {
                        assert(keys@[k] == kb[j as int]);
                        assert(dataset_view(vec@)[k] == before[j as int]);
                    } else {
                        assert(keys@[k] == kb[j - 1]);
                        assert(dataset_view(vec@)[k] == before[j - 1]);
                    }
                }
            }
            j = j - 1;
        }
        proof {
            lemma_insert_by_key_at(p, x, key, j as int);
            let s1 = orig.take(i as int + 1);
            assert(s1.drop_last() =~= orig.take(i as int));
            assert(s1.last() == x);
            assert(stable_sorted(s1, key) == insert_by_key(p, x, key));
            assert(dataset_view(vec@).take(i as int + 1) =~= p.take(j as int) + seq![x] + p.skip(
                j as int,
            ));
            assert(dataset_view(vec@).skip(i as int + 1) =~= orig.skip(i as int + 1));
        }
        i = i + 1;
    }
    proof {
        assert(dataset_view(vec@) =~= dataset_view(vec@).take(n as int));
        assert(orig.take(n as int) =~= orig);
        assert(dataset_view(vec@)[0] == vec@[0]@);
    }
    let probe = vec[0].as_str().unicode_len();
    Some(probe)
}

/// Sorts a vector of integers in place by the stable insertion sort.
fn sort_ints(v: &mut Vec<i32>)
    ensures
        final(v)@ == stable_sorted(old(v)@, int_key()),
{
    let ghost orig = old(v)@;
    let ghost key = int_key();
    let n = v.len();
    if n == 0 {
        proof {
            assert(stable_sorted(orig, key) =~= orig);
        }
        return;
    }
    let mut i: usize = 1;
    proof {
        assert(key_sorted(orig.take(1), key));
        lemma_stable_sorted_of_sorted(orig.take(1), key);
        assert(v@.take(1) == orig.take(1));
        assert(v@.skip(1) == orig.skip(1));
    }
    while i < n
        invariant
            1 <= i <= n,
            n == v@.len(),
            orig.len() == n,
            key == int_key(),
            v@.take(i as int) == stable_sorted(orig.take(i as int), key),
            v@.skip(i as int) == orig.skip(i as int),
        decreases n - i,
    {
        let ghost p = stable_sorted(orig.take(i as int), key);
        let ghost x = orig[i as int];
        proof {
            lemma_stable_sorted_props(orig.take(i as int), key);
            let cur = v@;
            let rhs = p.take(i as int) + seq![x] + p.skip(i as int) + orig.skip(i as int + 1);
            assert(p.len() == i);
            assert(rhs.len() == n);
            assert forall|m: int| 0 <= m < n implies cur[m] == rhs[m] by {
                if m < i {
                    assert(cur[m] == cur.take(i as int)[m]);
                    assert(rhs[m] == p[m]);
                } else if m == i {
                    assert(cur[m] == cur.skip(i as int)[0]);
                    assert(orig.skip(i as int)[0] == orig[i as int]);
                } else {
                    assert(cur[m] == cur.skip(i as int)[m - i]);
                    assert(orig.skip(i as int)[m - i] == orig[m]);
                    assert(rhs[m] == orig.skip(i as int + 1)[m - i - 1]);
                    assert(orig.skip(i as int + 1)[m - i - 1] == orig[m]);
                }
            }
            assert(cur =~= rhs);
        }
        let mut j: usize = i;
        loop
            invariant
                0 <= j <= i < n,
                n == v@.len(),
                orig.len() == n,
                key == int_key(),
                p == stable_sorted(orig.take(i as int), key),
                p.len() == i,
                key_sorted(p, key),
                x == orig[i as int],
                v@ == p.take(j as int) + seq![x] + p.skip(j as int) + orig.skip(i as int + 1),
                forall|k: int| j <= k < i ==> key(#[trigger] p[k]) > key(x),
            ensures
                0 <= j <= i,
                n == v@.len(),
                v@ == p.take(j as int) + seq![x] + p.skip(j as int) + orig.skip(i as int + 1),
                forall|k: int| j <= k < i ==> key(#[trigger] p[k]) > key(x),
                j == 0 || key(p[j - 1]) <= key(x),
            decreases j,
        {
            if j == 0 {
                break;
            }
            proof {
                assert(v@[j - 1] == p[j - 1]);
                assert(v@[j as int] == x);
            }
            let kl = v[j - 1];
            let kr = v[j];
            if kl <= kr {
                break;
            }
            swap_adjacent(v, j);
            proof {
                assert(v@ =~= p.take(j - 1) + seq![x] + p.skip(j - 1) + orig.skip(
                    i as int + 1,
                ));
            }
            j = j - 1;
        }
        proof {
            lemma_insert_by_key_at(p, x, key, j as int);
            let s1 = orig.take(i as int + 1);
            assert(s1.drop_last() =~= orig.take(i as int));
            assert(s1.last() == x);
            assert(stable_sorted(s1, key) == insert_by_key(p, x, key));
            assert(v@.take(i as int + 1) =~= p.take(j as int) + seq![x] + p.skip(j as int));
            assert(v@.skip(i as int + 1) =~= orig.skip(i as int + 1));
        }
        i = i + 1;
    }
    proof {
        assert(v@ =~= v@.take(n as int));
        assert(orig.take(n as int) =~= orig);
    }
}

/// Parse-then-sort strategy: parses every element eagerly, sorts the parsed
/// integers by their native order, and returns the smallest value as the
/// side-effect probe, or `None` for an empty dataset. The original dataset is
/// left untouched.
pub fn parse_then_sort(input: &Vec<String>) -> (probe: Option<i32>)
    requires
        valid_dataset(dataset_view(input@)),
    ensures
        match probe {
            Some(m) => {
                let d = dataset_view(input@);
                &&& d.len() > 0
                &&& exists|i: int| 0 <= i < d.len() && m as int == numeric_value(#[trigger] d[i])
                &&& forall|i: int| 0 <= i < d.len() ==> m as int <= numeric_value(#[trigger] d[i])
            },
            None => input@.len() == 0,
        },
{
    let ghost d = dataset_view(input@);
    let n = input.len();
    if n == 0 {
        return None;
    }
    let mut parsed: Vec<i32> = Vec::new();
    let mut t: usize = 0;
    while t < n
        invariant
            t <= n,
            n == input@.len(),
            parsed@.len() == t,
            d == dataset_view(input@),
            valid_dataset(d),
            forall|k: int| 0 <= k < t ==> (#[trigger] parsed@[k]) as int == numeric_value(d[k]),
        decreases n - t,
    {
        proof {
            assert(input@[t as int]@ == d[t as int]);
        }
        let kv = parse_key(&input[t]);
        let ghost pold = parsed@;
        parsed.push(kv);
        proof {
            assert forall|k: int|
                0 <= k < t + 1 implies (#[trigger] parsed@[k]) as int == numeric_value(
                d[k],
            ) by {
                if k < t {
                    assert(parsed@[k] == pold[k]);
                } else {
                    assert(parsed@[k] == kv);
                }
            }
        }
        t = t + 1;
    }
    let ghost before = parsed@;
    sort_ints(&mut parsed);
    proof {
        broadcast use group_to_multiset_ensures;

        lemma_stable_sorted_props(before, int_key());
        let sorted = parsed@;
        assert(sorted.len() == n);
        // The first element is an element of the parsed dataset ...
        assert(sorted.to_multiset().count(sorted[0]) > 0);
        assert(before.to_multiset().count(sorted[0]) > 0);
        let w = choose|w: int| 0 <= w < before.len() && before[w] == sorted[0];
        assert(sorted[0] as int == numeric_value(d[w]));
        // ... and it is at most every parsed value.
        assert forall|i: int| 0 <= i < d.len() implies sorted[0] as int <= numeric_value(
            #[trigger] d[i],
        ) by {
            assert(before[i] as int == numeric_value(d[i]));
            assert(before.to_multiset().count(before[i]) > 0);
            assert(sorted.to_multiset().count(before[i]) > 0);
            let q = choose|q: int| 0 <= q < sorted.len() && sorted[q] == before[i];
            if q > 0 {
                assert(int_key()(sorted[0]) <= int_key()(sorted[q]));
            }
        }
    }
    Some(parsed[0])
}

/// Deep-copies a dataset, so that each strategy can own an independent
/// mutable copy of the same input.
pub fn clone_dataset(v: &Vec<String>) -> (r: Vec<String>)
    ensures
        r@.len() == v@.len(),
        dataset_view(r@) == dataset_view(v@),
{
    let mut r: Vec<String> = Vec::new();
    let mut i: usize = 0;
    while i < v.len()
        invariant
            i <= v@.len(),
            r@.len() == i,
            forall|k: int| 0 <= k < i ==> #[trigger] r@[k]@ == v@[k]@,
        decreases v@.len() - i,
    {
        r.push(v[i].clone());
        i = i + 1;
    }
    proof {
        assert(dataset_view(r@) =~= dataset_view(v@));
    }
    r
}

/// Equivalence checker: runs the two in-place strategies on independent
/// clones of the same dataset and compares the results element by element,
/// then checks the parse-then-sort minimum against the first element of the
/// sorted strings. Proved to succeed on every dataset of numeric strings.
pub fn check_sort_equivalence(input: &Vec<String>) -> (r: bool)
    requires
        valid_dataset(dataset_view(input@)),
    ensures
        r,
{
    let ghost d = dataset_view(input@);
    let mut by_key = clone_dataset(input);
    let mut by_cached = clone_dataset(input);
    let _ = sort_by_key(&mut by_key);
    let _ = sort_by_cached_key(&mut by_cached);
    proof {
        lemma_stable_sorted_props(d, value_key());
        lemma_stable_sorted_valid(d);
    }
    if by_key.len() != by_cached.len() {
        return false;
    }
    let n = by_key.len();
    let mut idx: usize = 0;
    while idx < n
        invariant
            idx <= n,
            n == by_key@.len(),
            n == by_cached@.len(),
            dataset_view(by_key@) == stable_sorted(d, value_key()),
            dataset_view(by_cached@) == stable_sorted(d, value_key()),
        decreases n - idx,
    {
        proof {
            assert(by_key@[idx as int]@ == dataset_view(by_key@)[idx as int]);
            assert(by_cached@[idx as int]@ == dataset_view(by_cached@)[idx as int]);
        }
        if !(by_key[idx] == by_cached[idx]) {
            return false;
        }
        idx = idx + 1;
    }
    let min_probe = parse_then_sort(input);
    if n > 0 {
        proof {
            assert(dataset_view(by_key@)[0] == by_key@[0]@);
        }
        let k0 = parse_key(&by_key[0]);
        match min_probe {
            Some(m) => {
                proof {
                    lemma_parse_then_sort_agreement(d, m as int);
                }
                if m != k0 {
                    return false;
                }
            },
            None => {
                return false;
            },
        }
    } else {
        match min_probe {
            Some(_) => {
                return false;
            },
            None => {},
        }
    }
    true
}

/// Sorting keeps every element a numeric string.
pub proof fn lemma_stable_sorted_valid(d: Seq<Seq<char>>)
    requires
        valid_dataset(d),
    ensures
        valid_dataset(stable_sorted(d, value_key())),
{
    broadcast use group_to_multiset_ensures;

    lemma_stable_sorted_props(d, value_key());
    let r = stable_sorted(d, value_key());
    assert forall|idx: int| 0 <= idx < r.len() implies is_numeric_string(
        #[trigger] r[idx],
    ) by {
        assert(r.to_multiset().count(r[idx]) > 0);
        assert(d.to_multiset().count(r[idx]) > 0);
        let w = choose|w: int| 0 <= w < d.len() && d[w] == r[idx];
        assert(is_numeric_string(d[w]));
    }
}

/// Order correctness: after either in-place strategy runs, every element's
/// value is at most the value of the element after it.
pub proof fn lemma_sorted_order_correct(d: Seq<Seq<char>>)
    ensures
        forall|i: int|
            0 <= i < stable_sorted(d, value_key()).len() - 1 ==> numeric_value(
                #[trigger] stable_sorted(d, value_key())[i],
            ) <= numeric_value(stable_sorted(d, value_key())[i + 1]),
{
    lemma_stable_sorted_props(d, value_key());
    let r = stable_sorted(d, value_key());
    assert forall|i: int| 0 <= i < r.len() - 1 implies numeric_value(#[trigger] r[i])
        <= numeric_value(r[i + 1]) by {
        assert(value_key()(r[i]) <= value_key()(r[i + 1]));
    }
}

/// Idempotence: sorting a dataset that is already in non-decreasing order of
/// value leaves it exactly as it is.
pub proof fn lemma_sort_idempotent(d: Seq<Seq<char>>)
    requires
        key_sorted(d, value_key()),
    ensures
        stable_sorted(d, value_key()) == d,
{
    lemma_stable_sorted_of_sorted(d, value_key());
}

/// Parse-then-sort agreement: the minimum parsed value of a non-empty dataset
/// equals the parsed value of the first element after a stable sort of the
/// strings. This ties the probe of the parse-then-sort strategy to the result
/// of the two in-place strategies.
pub proof fn lemma_parse_then_sort_agreement(d: Seq<Seq<char>>, m: int)
    requires
        d.len() > 0,
        exists|i: int| 0 <= i < d.len() && m == numeric_value(#[trigger] d[i]),
        forall|i: int| 0 <= i < d.len() ==> m <= numeric_value(#[trigger] d[i]),
    ensures
        m == numeric_value(stable_sorted(d, value_key())[0]),
{
    let key = value_key();
    let i = choose|i: int| 0 <= i < d.len() && m == numeric_value(#[trigger] d[i]);
    assert(m == key(d[i]));
    assert forall|k: int| 0 <= k < d.len() implies m <= key(#[trigger] d[k]) by {
        assert(m <= numeric_value(d[k]));
    }
    lemma_stable_sorted_first_min(d, key, m);
}

} // verus!
