//! In-place merge sort over vectors of `usize`.
//!
//! The input is split in two (the left half taking the extra element when the
//! length is odd), both halves are sorted recursively, and the sorted halves
//! are merged front to front. The result is sorted and holds exactly the
//! input's elements, multiplicities included — which pins it down completely.

use vstd::prelude::*;
use vstd::seq_lib::group_to_multiset_ensures;
use vstd::seq_lib::lemma_multiset_commutative;

verus! {

broadcast use group_to_multiset_ensures;

/// Non-decreasing order.
pub open spec fn sorted(s: Seq<usize>) -> bool {
    forall|i: int, j: int| 0 <= i <= j < s.len() ==> s[i] <= s[j]
}

/// Merges two sorted vectors into one sorted vector holding exactly the
/// elements of both.
fn merge(left: Vec<usize>, right: Vec<usize>) -> (r: Vec<usize>)
    requires
        sorted(left@),
        sorted(right@),
    ensures
        sorted(r@),
        r@.to_multiset() == left@.to_multiset().add(right@.to_multiset()),
        r@.len() == left@.len() + right@.len(),
{
    let mut res: Vec<usize> = Vec::new();
    let mut i: usize = 0;
    let mut j: usize = 0;
    while i < left.len() || j < right.len()
        invariant
            i <= left@.len(),
            j <= right@.len(),
            res@.len() == i + j,
            sorted(left@),
            sorted(right@),
            sorted(res@),
            res@.to_multiset() == left@.subrange(0, i as int).to_multiset().add(
                right@.subrange(0, j as int).to_multiset(),
            ),
            forall|a: int, b: int| 0 <= a < res@.len() && i <= b < left@.len() ==> res@[a]
                <= left@[b],
            forall|a: int, b: int| 0 <= a < res@.len() && j <= b < right@.len() ==> res@[a]
                <= right@[b],
        decreases left@.len() - i + right@.len() - j,
    {
        let take_left: bool = if i < left.len() {
            if j < right.len() {
                left[i] < right[j]
            } else {
                true
            }
        } else {
            false
        };
        if take_left {
            res.push(left[i]);
            proof {
                assert(left@.subrange(0, i + 1) =~= left@.subrange(0, i as int).push(
                    left@[i as int],
                ));
                assert(res@.to_multiset() =~= left@.subrange(0, i + 1).to_multiset().add(
                    right@.subrange(0, j as int).to_multiset(),
                ));
            }
            i = i + 1;
        } else {
            res.push(right[j]);
            proof {
                assert(right@.subrange(0, j + 1) =~= right@.subrange(0, j as int).push(
                    right@[j as int],
                ));
                assert(res@.to_multiset() =~= left@.subrange(0, i as int).to_multiset().add(
                    right@.subrange(0, j + 1).to_multiset(),
                ));
            }
            j = j + 1;
        }
    }
    proof {
        assert(left@.subrange(0, left@.len() as int) =~= left@);
        assert(right@.subrange(0, right@.len() as int) =~= right@);
    }
    res
}

/// Sorts a non-empty vector by recursive halving and merging. The result is
/// in non-decreasing order and is a permutation of the input: it holds the
/// same elements with the same multiplicities.
pub fn merge_sort(list: Vec<usize>) -> (r: Vec<usize>)
    requires
        list@.len() >= 1,
    ensures
        sorted(r@),
        r@.to_multiset() == list@.to_multiset(),
        r@.len() == list@.len(),
    decreases list@.len(),
{
    if list.len() == 1 {
        return list;
    }
    let ghost full = list@;
    let mid = list.len() - list.len() / 2;
    let mut left = list;
    let right = left.split_off(mid);
    proof {
        assert(left@ + right@ =~= full);
        lemma_multiset_commutative(left@, right@);
    }
    let sorted_left = merge_sort(left);
    let sorted_right = merge_sort(right);
    merge(sorted_left, sorted_right)
}

} // verus!
