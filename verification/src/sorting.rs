//! Merge sort on pairs of integers, ordered lexicographically.

use vstd::prelude::*;

verus! {

broadcast use vstd::seq_lib::group_to_multiset_ensures;

/// `a` stands before `b` or equals it.
pub open spec fn pair_le(a: (u64, u64), b: (u64, u64)) -> bool {
    a.0 < b.0 || (a.0 == b.0 && a.1 <= b.1)
}

/// Ascending order.
pub open spec fn ascending(pairs: Seq<(u64, u64)>) -> bool {
    forall|i: int, j: int| 0 <= i <= j < pairs.len() ==> pair_le(pairs[i], pairs[j])
}

fn merge(a: &Vec<(u64, u64)>, b: &Vec<(u64, u64)>) -> (r: Vec<(u64, u64)>)
    requires
        ascending(a@),
        ascending(b@),
    ensures
        ascending(r@),
        r@.to_multiset() == a@.to_multiset().add(b@.to_multiset()),
{
    let mut r: Vec<(u64, u64)> = Vec::new();
    let mut i: usize = 0;
    let mut j: usize = 0;
    assert(r@.to_multiset() =~= a@.take(0).to_multiset().add(b@.take(0).to_multiset())) by {
        assert(a@.take(0) =~= seq![]);
        assert(b@.take(0) =~= seq![]);
        assert(r@ =~= seq![]);
    }
    while i < a.len() || j < b.len()
        invariant
            ascending(a@),
            ascending(b@),
            ascending(r@),
            i <= a@.len(),
            j <= b@.len(),
            r@.to_multiset() == a@.take(i as int).to_multiset().add(b@.take(j as int).to_multiset()),
            forall|k: int, l: int| 0 <= k < r@.len() && i <= l < a@.len() ==> pair_le(r@[k], a@[l]),
            forall|k: int, l: int| 0 <= k < r@.len() && j <= l < b@.len() ==> pair_le(r@[k], b@[l]),
        decreases (a@.len() - i) + (b@.len() - j),
    {
        let from_a = if i == a.len() {
            false
        } else if j == b.len() {
            true
        } else {
            a[i].0 < b[j].0 || (a[i].0 == b[j].0 && a[i].1 <= b[j].1)
        };
        if from_a {
            r.push(a[i]);
            assert(a@.take(i + 1) =~= a@.take(i as int).push(a@[i as int]));
            assert forall|l: int| j <= l < b@.len() implies pair_le(a@[i as int], b@[l]) by {
                assert(pair_le(b@[j as int], b@[l]));
            }
            assert forall|l: int| i <= l < a@.len() implies pair_le(a@[i as int], a@[l]) by {
            }
            i += 1;
        } else {
            r.push(b[j]);
            assert(b@.take(j + 1) =~= b@.take(j as int).push(b@[j as int]));
            assert forall|l: int| i <= l < a@.len() implies pair_le(b@[j as int], a@[l]) by {
                assert(pair_le(a@[i as int], a@[l]));
            }
            assert forall|l: int| j <= l < b@.len() implies pair_le(b@[j as int], b@[l]) by {
            }
            j += 1;
        }
        assert(r@.to_multiset() =~= a@.take(i as int).to_multiset().add(
            b@.take(j as int).to_multiset(),
        ));
    }
    assert(a@.take(i as int) =~= a@);
    assert(b@.take(j as int) =~= b@);
    r
}

/// The same pairs in ascending order.
pub fn sort_pairs(pairs: &Vec<(u64, u64)>, from: usize, to: usize) -> (r: Vec<(u64, u64)>)
    requires
        from <= to <= pairs@.len(),
    ensures
        ascending(r@),
        r@.to_multiset() == pairs@.subrange(from as int, to as int).to_multiset(),
    decreases to - from,
{
    if to - from <= 1 {
        let mut r: Vec<(u64, u64)> = Vec::new();
        if from < to {
            r.push(pairs[from]);
        }
        assert(r@ =~= pairs@.subrange(from as int, to as int));
        r
    } else {
        let middle = from + (to - from) / 2;
        let left = sort_pairs(pairs, from, middle);
        let right = sort_pairs(pairs, middle, to);
        proof {
            let all = pairs@.subrange(from as int, to as int);
            let a = pairs@.subrange(from as int, middle as int);
            let b = pairs@.subrange(middle as int, to as int);
            assert(all =~= a + b);
            vstd::seq_lib::lemma_multiset_commutative(a, b);
        }
        merge(&left, &right)
    }
}

} // verus!
