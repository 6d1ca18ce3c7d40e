//! Integer cores of the distribution statistics. The mean of the
//! distance distribution is the sum of the retained distances divided by
//! the valid-pair count, and the maximum distance is the largest
//! retained value; the floating-point quotients themselves are taken by
//! the caller.

use vstd::prelude::*;

verus! {

/// The mathematical sum of a sequence of distance values.
pub open spec fn spec_sum(s: Seq<usize>) -> int
    decreases s.len(),
{
    if s.len() == 0 {
        0
    } else {
        spec_sum(s.drop_last()) + s.last()
    }
}

/// The sum of a prefix never exceeds the sum of the whole sequence.
proof fn lemma_sum_take_bound(s: Seq<usize>, k: int)
    requires
        0 <= k <= s.len(),
    ensures
        spec_sum(s.take(k)) <= spec_sum(s),
    decreases s.len() - k,
{
    if k < s.len() {
        assert(s.take(k + 1).drop_last() =~= s.take(k));
        assert(s.take(k + 1).last() == s[k]);
        lemma_sum_take_bound(s, k + 1);
    } else {
        assert(s.take(k) =~= s);
    }
}

/// Sums the retained distance values; dividing by the valid-pair count
/// gives the mean degree of separation.
pub fn sum_of(nums: &Vec<usize>) -> (s: usize)
    requires
        spec_sum(nums@) <= usize::MAX,
    ensures
        s == spec_sum(nums@),
{
    let mut total: usize = 0;
    let mut i: usize = 0;
    while i < nums.len()
        invariant
            i <= nums@.len(),
            spec_sum(nums@) <= usize::MAX,
            total == spec_sum(nums@.take(i as int)),
        decreases nums@.len() - i,
    {
        proof {
            assert(nums@.take(i as int + 1).drop_last() =~= nums@.take(i as int));
            assert(nums@.take(i as int + 1).last() == nums@[i as int]);
            lemma_sum_take_bound(nums@, i as int + 1);
        }
        total = total + nums[i];
        i += 1;
    }
    proof {
        assert(nums@.take(nums@.len() as int) =~= nums@);
    }
    total
}

/// The largest retained distance value: the maximum degree of separation
/// observed across all connected pairs.
pub fn max_of(nums: &Vec<usize>) -> (m: usize)
    requires
        nums@.len() > 0,
    ensures
        nums@.contains(m),
        forall|i: int| 0 <= i < nums@.len() ==> nums@[i] <= m,
{
    let mut best = nums[0];
    let mut i: usize = 1;
    proof {
        assert(nums@[0] == best);
    }
    while i < nums.len()
        invariant
            1 <= i <= nums@.len(),
            nums@.contains(best),
            forall|j: int| 0 <= j < i ==> nums@[j] <= best,
        decreases nums@.len() - i,
    {
        if nums[i] > best {
            best = nums[i];
            proof {
                assert(nums@[i as int] == best);
            }
        }
        i += 1;
    }
    best
}

} // verus!
