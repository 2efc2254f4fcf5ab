//! Binary search for the maximum of a unimodal array.

use vstd::prelude::*;

verus! {

/// The element at `i` is not exceeded by either of its neighbours.
pub open spec fn local_peak(nums: Seq<i32>, i: int) -> bool {
    &&& 0 <= i < nums.len()
    &&& i == 0 || nums[i - 1] <= nums[i]
    &&& i + 1 == nums.len() || nums[i + 1] <= nums[i]
}

/// The array rises strictly up to `p` and falls strictly after it.
pub open spec fn unimodal_at(nums: Seq<i32>, p: int) -> bool {
    &&& 0 <= p < nums.len()
    &&& forall|i: int, j: int| 0 <= i < j <= p ==> nums[i] < nums[j]
    &&& forall|i: int, j: int| p <= i < j < nums.len() ==> nums[i] > nums[j]
}

/// The array can be split into a strictly increasing part followed by a
/// strictly decreasing part.
pub open spec fn unimodal(nums: Seq<i32>) -> bool {
    exists|p: int| unimodal_at(nums, p)
}

/// In a unimodal array, any local peak is the maximum.
proof fn lemma_unimodal_peak_is_max(nums: Seq<i32>, i: int)
    requires
        unimodal(nums),
        local_peak(nums, i),
    ensures
        forall|j: int| 0 <= j < nums.len() ==> nums[j] <= nums[i],
{
    let p = choose|p: int| unimodal_at(nums, p);
    if i < p {
        assert(nums[i] < nums[i + 1]);
        assert(false);
    }
    if i > p {
        assert(nums[i - 1] > nums[i]);
        assert(false);
    }
}

/// Finds the maximum in a unimodal array: one that can be split into an
/// increasing sequence followed by a decreasing sequence. Returns the index
/// of a local peak, which for a unimodal array is the index of the maximum.
pub fn find_max_unimodal_array(nums: &[i32]) -> (r: Option<usize>)
    requires
        nums@.len() <= usize::MAX / 2,
    ensures
        r is Some <==> nums@.len() > 0,
        r matches Some(i) ==> local_peak(nums@, i as int),
        r matches Some(i) ==> (unimodal(nums@) ==> forall|j: int|
            0 <= j < nums@.len() ==> nums@[j] <= nums@[i as int]),
{
    if nums.is_empty() {
        return Option::None;
    }

    if nums.len() == 1 {
        proof {
            if unimodal(nums@) {
                lemma_unimodal_peak_is_max(nums@, 0);
            }
        }
        return Option::Some(0);
    }

    let mut left: usize = 0;
    let mut right: usize = nums.len() - 1;

    while left <= right
        invariant
            nums@.len() <= usize::MAX / 2,
            left <= right < nums@.len(),
            left == 0 || nums@[left - 1] < nums@[left as int],
            right + 1 == nums@.len() || nums@[right as int] > nums@[right + 1],
        decreases right - left,
    {
        let mid: usize = (left + right) / 2;

        if mid < (nums.len() - 1) && nums[mid + 1] > nums[mid] {
            left = mid + 1
        } else if mid > 0 && nums[mid - 1] > nums[mid] {
            right = mid - 1
        } else {
            proof {
                if unimodal(nums@) {
                    lemma_unimodal_peak_is_max(nums@, mid as int);
                }
            }
            return Some(mid);
        }
    }

    proof {
        assert(false);
    }
    Option::None
}

} // verus!
