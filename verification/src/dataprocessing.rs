//! Compaction of a sparse identifier space: the union of the two raw
//! columns is deduplicated and sorted, and every raw value is reassigned
//! to its rank in that sorted index space.

use vstd::prelude::*;

verus! {

/// The defining shape of an index space: strictly increasing, hence
/// duplicate-free.
pub open spec fn strictly_sorted(s: Seq<usize>) -> bool {
    forall|i: int, j: int| 0 <= i < j < s.len() ==> s[i] < s[j]
}

/// Exact-match binary search over a strictly sorted vector: returns the
/// position of `key` when present, `None` when absent.
fn search_sorted(v: &Vec<usize>, key: usize) -> (r: Option<usize>)
    requires
        strictly_sorted(v@),
    ensures
        r is Some ==> r->0 < v@.len() && v@[r->0 as int] == key,
        r is None ==> !v@.contains(key),
{
    let mut lo: usize = 0;
    let mut hi: usize = v.len();
    while lo < hi
        invariant
            lo <= hi <= v@.len(),
            strictly_sorted(v@),
            forall|i: int| 0 <= i < v@.len() && v@[i] == key ==> lo <= i < hi,
        decreases hi - lo,
    {
        let mid = lo + (hi - lo) / 2;
        if v[mid] == key {
            return Some(mid);
        } else if v[mid] < key {
            lo = mid + 1;
        } else {
            hi = mid;
        }
    }
    assert(!v@.contains(key)) by {
        if v@.contains(key) {
            let i = choose|i: int| 0 <= i < v@.len() && v@[i] == key;
        }
    }
    None
}

/// Inserts `x` into a strictly sorted vector, keeping it strictly sorted;
/// a value already present is left alone.
fn insert_sorted(sorted: &mut Vec<usize>, x: usize)
    requires
        strictly_sorted(old(sorted)@),
    ensures
        strictly_sorted(final(sorted)@),
        forall|y: usize|
            final(sorted)@.contains(y) <==> (old(sorted)@.contains(y) || y == x),
{
    let mut i: usize = 0;
    while i < sorted.len() && sorted[i] < x
        invariant
            i <= sorted@.len(),
            sorted@ == old(sorted)@,
            strictly_sorted(sorted@),
            forall|j: int| 0 <= j < i ==> sorted@[j] < x,
        decreases sorted@.len() - i,
    {
        i += 1;
    }
    if i < sorted.len() && sorted[i] == x {
        assert(sorted@.contains(x));
    } else {
        sorted.insert(i, x);
        assert forall|y: usize|
            sorted@.contains(y) <==> (old(sorted)@.contains(y) || y == x) by {
            if sorted@.contains(y) {
                let k = choose|k: int| 0 <= k < sorted@.len() && sorted@[k] == y;
                if k < i {
                    assert(old(sorted)@[k] == y);
                } else if k > i {
                    assert(old(sorted)@[k - 1] == y);
                }
            }
            if old(sorted)@.contains(y) {
                let k = choose|k: int| 0 <= k < old(sorted)@.len() && old(sorted)@[k] == y;
                if k < i {
                    assert(sorted@[k] == y);
                } else {
                    assert(sorted@[k + 1] == y);
                }
            }
            if y == x {
                assert(sorted@[i as int] == x);
            }
        }
    }
}

/// Inserts every element of `items` into a strictly sorted vector.
fn insert_all(sorted: &mut Vec<usize>, items: &Vec<usize>)
    requires
        strictly_sorted(old(sorted)@),
    ensures
        strictly_sorted(final(sorted)@),
        forall|y: usize|
            #![trigger final(sorted)@.contains(y)]
            #![trigger old(sorted)@.contains(y)]
            #![trigger items@.contains(y)]
            final(sorted)@.contains(y) <==> (old(sorted)@.contains(y) || items@.contains(y)),
{
    let mut k: usize = 0;
    while k < items.len()
        invariant
            k <= items@.len(),
            strictly_sorted(sorted@),
            forall|y: usize|
                sorted@.contains(y) <==> (old(sorted)@.contains(y) || items@.take(k as int).contains(y)),
        decreases items@.len() - k,
    {
        insert_sorted(sorted, items[k]);
        proof {
            let taken = items@.take(k as int);
            let taken1 = items@.take(k as int + 1);
            assert(taken1 =~= taken.push(items@[k as int]));
            assert forall|y: usize|
                sorted@.contains(y) <==> (old(sorted)@.contains(y) || taken1.contains(y)) by {
                if taken1.contains(y) {
                    let j = choose|j: int| 0 <= j < taken1.len() && taken1[j] == y;
                    if j < k {
                        assert(taken[j] == y);
                    }
                }
                if taken.contains(y) {
                    let j = choose|j: int| 0 <= j < taken.len() && taken[j] == y;
                    assert(taken1[j] == y);
                }
                if y == items@[k as int] {
                    assert(taken1[k as int] == y);
                }
            }
        }
        k += 1;
    }
    proof {
        assert(items@.take(items@.len() as int) =~= items@);
    }
}

/// Merges the two raw columns, drops duplicates, and sorts the union in
/// ascending order: the result is the index space of the raw graph, and
/// the position of a value in it is that value's compact index.
pub fn merge_and_sort_columns(column1: Vec<usize>, column2: Vec<usize>) -> (r: Vec<usize>)
    ensures
        strictly_sorted(r@),
        forall|y: usize| r@.contains(y) <==> (column1@.contains(y) || column2@.contains(y)),
{
    let mut sorted: Vec<usize> = Vec::new();
    insert_all(&mut sorted, &column1);
    insert_all(&mut sorted, &column2);
    sorted
}

/// Replaces every value of `input_vec` that occurs in the index space by
/// its position there; a value not present is passed through unchanged.
pub fn reassign_indexes(index_vec: &Vec<usize>, input_vec: Vec<usize>) -> (r: Vec<usize>)
    requires
        strictly_sorted(index_vec@),
    ensures
        r@.len() == input_vec@.len(),
        forall|i: int| 0 <= i < input_vec@.len() && index_vec@.contains(input_vec@[i])
            ==> r@[i] < index_vec@.len() && index_vec@[r@[i] as int] == input_vec@[i],
        forall|i: int| 0 <= i < input_vec@.len() && !index_vec@.contains(input_vec@[i])
            ==> r@[i] == input_vec@[i],
{
    let mut result: Vec<usize> = Vec::new();
    let mut k: usize = 0;
    while k < input_vec.len()
        invariant
            k <= input_vec@.len(),
            strictly_sorted(index_vec@),
            result@.len() == k,
            forall|i: int| 0 <= i < k && index_vec@.contains(input_vec@[i])
                ==> result@[i] < index_vec@.len() && index_vec@[result@[i] as int] == input_vec@[i],
            forall|i: int| 0 <= i < k && !index_vec@.contains(input_vec@[i])
                ==> result@[i] == input_vec@[i],
        decreases input_vec@.len() - k,
    {
        match search_sorted(index_vec, input_vec[k]) {
            Some(pos) => {
                proof {
                    assert(index_vec@.contains(input_vec@[k as int]));
                }
                result.push(pos);
            },
            None => {
                result.push(input_vec[k]);
            },
        }
        k += 1;
    }
    result
}

/// Zips the two reassigned columns back together into one edge list.
pub fn combine_vectors(v1: Vec<usize>, v2: Vec<usize>) -> (r: Vec<(usize, usize)>)
    requires
        v1@.len() == v2@.len(),
    ensures
        r@.len() == v1@.len(),
        forall|i: int| 0 <= i < r@.len() ==> r@[i] == (v1@[i], v2@[i]),
{
    let mut result: Vec<(usize, usize)> = Vec::with_capacity(v1.len());
    let mut i: usize = 0;
    while i < v1.len()
        invariant
            i <= v1@.len(),
            v1@.len() == v2@.len(),
            result@.len() == i,
            forall|j: int| 0 <= j < i ==> result@[j] == (v1@[j], v2@[j]),
        decreases v1@.len() - i,
    {
        result.push((v1[i], v2[i]));
        i += 1;
    }
    result
}

/// Law: index compaction is a bijection onto a dense range. Reassigning
/// the index space through itself yields exactly `0, 1, ..., len - 1`.
pub proof fn lemma_reassign_identity(index: Seq<usize>, out: Seq<usize>)
    requires
        strictly_sorted(index),
        out.len() == index.len(),
        forall|i: int| 0 <= i < index.len() && index.contains(index[i])
            ==> out[i] < index.len() && index[out[i] as int] == index[i],
    ensures
        forall|i: int| 0 <= i < out.len() ==> out[i] == i,
{
    assert forall|i: int| 0 <= i < out.len() implies out[i] == i by {
        assert(index.contains(index[i]));
        assert(index[out[i] as int] == index[i]);
        if out[i] < i {
            assert(index[out[i] as int] < index[i]);
        }
        if out[i] > i {
            assert(index[i] < index[out[i] as int]);
        }
    }
}

/// Law: compaction preserves multiset structure. Mapping each compacted
/// value back through the index space restores the raw column itself,
/// and with it the raw edge multiset.
pub proof fn lemma_compaction_round_trip(index: Seq<usize>, input: Seq<usize>, out: Seq<usize>)
    requires
        out.len() == input.len(),
        forall|i: int| 0 <= i < input.len() ==> index.contains(input[i]),
        forall|i: int| 0 <= i < input.len() && index.contains(input[i])
            ==> out[i] < index.len() && index[out[i] as int] == input[i],
    ensures
        out.map_values(|v: usize| index[v as int]) == input,
        out.map_values(|v: usize| index[v as int]).to_multiset() == input.to_multiset(),
{
    assert(out.map_values(|v: usize| index[v as int]) =~= input);
}

} // verus!
