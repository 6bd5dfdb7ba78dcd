use vstd::prelude::*;

use crate::sorting::sorted;

verus! {

/// Looks for `target` in the sorted `v`; returns an index that holds it, or
/// -1 when no element equals it.
pub fn binary_search_i32(v: &[i32], target: i32) -> (r: i32)
    requires
        sorted(v@),
        v@.len() <= i32::MAX,
    ensures
        r == -1 <==> !v@.contains(target),
        r != -1 ==> 0 <= r < v@.len() && v@[r as int] == target,
{
    let mut left: usize = 0;
    let mut right: usize = v.len();
    while left < right
        invariant
            left <= right <= v@.len(),
            v@.len() <= i32::MAX,
            sorted(v@),
            forall|k: int| 0 <= k < left ==> #[trigger] v@[k] < target,
            forall|k: int| right <= k < v@.len() ==> #[trigger] v@[k] > target,
        decreases right - left,
    {
        let mid = left + (right - left) / 2;
        if v[mid] == target {
            return mid as i32;
        } else if v[mid] < target {
            left = mid + 1;
        } else {
            right = mid;
        }
    }
    assert(!v@.contains(target)) by {
        assert forall|k: int| 0 <= k < v@.len() implies v@[k] != target by {
            if k < left {
                assert(v@[k] < target);
            } else {
                assert(v@[k] > target);
            }
        }
    }
    -1
}

/// The positions of `v` that hold `target`, in increasing order.
pub fn find_all_indices(v: &[i32], target: i32) -> (r: Vec<usize>)
    ensures
        forall|a: int, b: int| 0 <= a < b < r@.len() ==> #[trigger] r@[a] < #[trigger] r@[b],
        forall|a: int| 0 <= a < r@.len() ==> #[trigger] r@[a] < v@.len() && v@[r@[a] as int] == target,
        forall|k: int| 0 <= k < v@.len() && v@[k] == target ==> r@.contains(k as usize),
{
    let mut r: Vec<usize> = Vec::new();
    let mut i: usize = 0;
    while i < v.len()
        invariant
            i <= v@.len(),
            forall|a: int, b: int| 0 <= a < b < r@.len() ==> #[trigger] r@[a] < #[trigger] r@[b],
            forall|a: int| 0 <= a < r@.len() ==> #[trigger] r@[a] < i && v@[r@[a] as int] == target,
            forall|k: int| 0 <= k < i && v@[k] == target ==> r@.contains(k as usize),
        decreases v@.len() - i,
    {
        if v[i] == target {
            let ghost r0 = r@;
            r.push(i);
            proof {
                assert forall|k: int| 0 <= k < i + 1 && v@[k] == target implies r@.contains(
                    k as usize,
                ) by {
                    if k < i {
                        let q = choose|q: int| 0 <= q < r0.len() && r0[q] == k as usize;
                        assert(r@[q] == k as usize);
                    } else {
                        assert(r@[r@.len() - 1] == i);
                    }
                }
            }
        }
        i += 1;
    }
    r
}

/// Reverses `v` in place.
pub fn reverse_array(v: &mut [i32])
    ensures
        final(v)@ == old(v)@.reverse(),
{
    let n = v.len();
    let mut i: usize = 0;
    while i < n / 2
        invariant
            n == v@.len(),
            i <= n / 2,
            forall|k: int| 0 <= k < i ==> #[trigger] v@[k] == old(v)@[n - 1 - k],
            forall|k: int| n - i <= k < n ==> #[trigger] v@[k] == old(v)@[n - 1 - k],
            forall|k: int| i <= k < n - i ==> #[trigger] v@[k] == old(v)@[k],
        decreases n / 2 - i,
    {
        let a = v[i];
        let b = v[n - 1 - i];
        v[i] = b;
        v[n - 1 - i] = a;
        i += 1;
    }
    assert(v@ =~= old(v)@.reverse());
}

/// Sum of the first `cnt` bytes of `s`.
pub open spec fn byte_sum(s: Seq<u8>, cnt: nat) -> nat
    decreases cnt,
{
    if cnt == 0 {
        0
    } else {
        byte_sum(s, (cnt - 1) as nat) + s[cnt - 1] as nat
    }
}

/// Sum of all bytes, modulo 2^32.
pub fn checksum(bytes: &[u8]) -> (r: u32)
    ensures
        r == byte_sum(bytes@, bytes@.len()) % 0x1_0000_0000,
{
    let mut sum: u32 = 0;
    let mut i: usize = 0;
    while i < bytes.len()
        invariant
            i <= bytes@.len(),
            sum == byte_sum(bytes@, i as nat) % 0x1_0000_0000,
        decreases bytes@.len() - i,
    {
        let ghost prev = byte_sum(bytes@, i as nat);
        sum = sum.wrapping_add(bytes[i] as u32);
        proof {
            vstd::arithmetic::div_mod::lemma_add_mod_noop(
                prev as int,
                bytes@[i as int] as int,
                0x1_0000_0000,
            );
            vstd::arithmetic::div_mod::lemma_small_mod(bytes@[i as int] as nat, 0x1_0000_0000);
        }
        i += 1;
    }
    sum
}

} // verus!
