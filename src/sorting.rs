use vstd::prelude::*;
use vstd::multiset::Multiset;
use vstd::seq_lib::*;

verus! {

broadcast use group_to_multiset_ensures;

/// `s[lo..hi]` is non-decreasing.
pub open spec fn sorted_range(s: Seq<i32>, lo: int, hi: int) -> bool {
    forall|a: int, b: int| lo <= a <= b < hi ==> #[trigger] s[a] <= #[trigger] s[b]
}

pub open spec fn sorted(s: Seq<i32>) -> bool {
    sorted_range(s, 0, s.len() as int)
}

/// `t` holds the same values as `s`, each as many times.
pub open spec fn is_permutation<A>(s: Seq<A>, t: Seq<A>) -> bool {
    s.to_multiset() == t.to_multiset()
}

/// `t` differs from `s` only inside `lo..hi`, where it holds the same values.
pub open spec fn permuted_within<A>(s: Seq<A>, t: Seq<A>, lo: int, hi: int) -> bool {
    &&& s.len() == t.len()
    &&& forall|k: int| 0 <= k < s.len() && !(lo <= k < hi) ==> #[trigger] t[k] == s[k]
    &&& s.subrange(lo, hi).to_multiset() == t.subrange(lo, hi).to_multiset()
}

/// Every value of `s[lo..hi]` lies in `min..=max`.
pub open spec fn bounded_range(s: Seq<i32>, lo: int, hi: int, min: int, max: int) -> bool {
    forall|k: int| lo <= k < hi ==> min <= #[trigger] s[k] <= max
}

proof fn lemma_bounds_carry(s: Seq<i32>, t: Seq<i32>, lo: int, hi: int, min: int, max: int)
    requires
        0 <= lo <= hi <= s.len(),
        s.len() == t.len(),
        s.subrange(lo, hi).to_multiset() == t.subrange(lo, hi).to_multiset(),
        bounded_range(s, lo, hi, min, max),
    ensures
        bounded_range(t, lo, hi, min, max),
{
    assert forall|k: int| lo <= k < hi implies min <= #[trigger] t[k] <= max by {
        let x = t[k];
        assert(t.subrange(lo, hi)[k - lo] == x);
        assert(t.subrange(lo, hi).contains(x));
        assert(t.subrange(lo, hi).to_multiset().count(x) > 0);
        assert(s.subrange(lo, hi).to_multiset().count(x) > 0);
        assert(s.subrange(lo, hi).contains(x));
        let q = choose|q: int| 0 <= q < hi - lo && s.subrange(lo, hi)[q] == x;
        assert(s[lo + q] == x);
    }
}

proof fn lemma_whole_from_range<A>(s: Seq<A>, t: Seq<A>, lo: int, hi: int)
    requires
        0 <= lo <= hi <= s.len(),
        permuted_within(s, t, lo, hi),
    ensures
        is_permutation(s, t),
{
    let n = s.len() as int;
    assert(s == s.subrange(0, lo) + s.subrange(lo, hi) + s.subrange(hi, n));
    assert(t == t.subrange(0, lo) + t.subrange(lo, hi) + t.subrange(hi, n));
    assert(s.subrange(0, lo) == t.subrange(0, lo));
    assert(s.subrange(hi, n) == t.subrange(hi, n));
    lemma_multiset_commutative(s.subrange(0, lo) + s.subrange(lo, hi), s.subrange(hi, n));
    lemma_multiset_commutative(s.subrange(0, lo), s.subrange(lo, hi));
    lemma_multiset_commutative(t.subrange(0, lo) + t.subrange(lo, hi), t.subrange(hi, n));
    lemma_multiset_commutative(t.subrange(0, lo), t.subrange(lo, hi));
}

proof fn lemma_permuted_trans<A>(s: Seq<A>, t: Seq<A>, u: Seq<A>, lo: int, hi: int)
    requires
        permuted_within(s, t, lo, hi),
        permuted_within(t, u, lo, hi),
    ensures
        permuted_within(s, u, lo, hi),
{
}

proof fn lemma_permuted_widen<A>(s: Seq<A>, t: Seq<A>, lo: int, hi: int, lo2: int, hi2: int)
    requires
        0 <= lo2 <= lo <= hi <= hi2 <= s.len(),
        permuted_within(s, t, lo, hi),
    ensures
        permuted_within(s, t, lo2, hi2),
{
    let a = s.subrange(lo2, hi2);
    let b = t.subrange(lo2, hi2);
    assert(a.subrange(lo - lo2, hi - lo2) == s.subrange(lo, hi));
    assert(b.subrange(lo - lo2, hi - lo2) == t.subrange(lo, hi));
    lemma_whole_from_range(a, b, lo - lo2, hi - lo2);
}

/// Exchanges `v[i]` and `v[j]`.
fn swap(v: &mut [i32], i: usize, j: usize)
    requires
        i < old(v)@.len(),
        j < old(v)@.len(),
    ensures
        final(v)@ == old(v)@.update(i as int, old(v)@[j as int]).update(j as int, old(v)@[i as int]),
        forall|lo: int, hi: int|
            0 <= lo <= i < hi <= old(v)@.len() && lo <= j < hi ==> #[trigger] permuted_within(
                old(v)@,
                final(v)@,
                lo,
                hi,
            ),
{
    let ghost s = v@;
    let a = v[i];
    let b = v[j];
    v[i] = b;
    v[j] = a;
    assert forall|lo: int, hi: int|
        0 <= lo <= i < hi <= s.len() && lo <= j < hi implies #[trigger] permuted_within(
        s,
        v@,
        lo,
        hi,
    ) by {
        let ss = s.subrange(lo, hi);
        let i2 = i - lo;
        let j2 = j - lo;
        assert(v@.subrange(lo, hi) == ss.update(i2, ss[j2]).update(j2, ss[i2]));
        to_multiset_update(ss, i2, ss[j2]);
        to_multiset_update(ss.update(i2, ss[j2]), j2, ss[i2]);
        assert(ss.update(i2, ss[j2]).to_multiset() == ss.to_multiset().insert(ss[j2]).remove(
            ss[i2],
        ));
        if i2 != j2 {
            assert(ss.update(i2, ss[j2])[j2] == ss[j2]);
        }
        assert(v@.subrange(lo, hi).to_multiset() =~= ss.to_multiset());
    }
}

/// Moves `v[hi - 1]` down into the sorted run `v[lo..hi - 1]`, leaving
/// `v[lo..hi]` sorted.
fn insert_last(v: &mut [i32], lo: usize, hi: usize)
    requires
        lo < hi <= old(v)@.len(),
        sorted_range(old(v)@, lo as int, hi - 1),
    ensures
        sorted_range(final(v)@, lo as int, hi as int),
        permuted_within(old(v)@, final(v)@, lo as int, hi as int),
{
    let mut j = hi - 1;
    while j > lo && v[j - 1] > v[j]
        invariant
            lo <= j < hi <= v@.len(),
            permuted_within(old(v)@, v@, lo as int, hi as int),
            sorted_range(v@, lo as int, j as int),
            sorted_range(v@, j as int, hi as int),
            forall|a: int, b: int| lo <= a < j && j < b < hi ==> #[trigger] v@[a] <= #[trigger] v@[b],
        decreases j,
    {
        let ghost before = v@;
        swap(v, j - 1, j);
        assert(permuted_within(before, v@, lo as int, hi as int));
        proof {
            lemma_permuted_trans(old(v)@, before, v@, lo as int, hi as int);
        }
        j -= 1;
    }
}

/// Sorts `v[lo..hi]` by inserting each element into the sorted run before it.
fn insertion_sort_range(v: &mut [i32], lo: usize, hi: usize)
    requires
        lo <= hi <= old(v)@.len(),
    ensures
        sorted_range(final(v)@, lo as int, hi as int),
        permuted_within(old(v)@, final(v)@, lo as int, hi as int),
{
    let mut t = lo;
    while t < hi
        invariant
            lo <= t <= hi,
            hi <= v@.len(),
            sorted_range(v@, lo as int, t as int),
            permuted_within(old(v)@, v@, lo as int, hi as int),
        decreases hi - t,
    {
        let ghost before = v@;
        insert_last(v, lo, t + 1);
        proof {
            lemma_permuted_widen(before, v@, lo as int, t + 1, lo as int, hi as int);
        }
        proof {
            lemma_permuted_trans(old(v)@, before, v@, lo as int, hi as int);
        }
        t += 1;
    }
}

/// Moves the `k` smallest values of `v` (`k` clamped to its length) to its
/// front, in non-decreasing order; the rest follow in some order.
pub fn partial_sort_smallest_k(v: &mut [i32], k: usize)
    ensures
        ({
            let kk = if k < old(v)@.len() { k as int } else { old(v)@.len() as int };
            &&& sorted_range(final(v)@, 0, kk)
            &&& forall|a: int, b: int|
                0 <= a < kk <= b < final(v)@.len() ==> #[trigger] final(v)@[a]
                    <= #[trigger] final(v)@[b]
        }),
        is_permutation(old(v)@, final(v)@),
        final(v)@.len() == old(v)@.len(),
        (k == 0 || old(v)@.len() == 0) ==> final(v)@ == old(v)@,
{
    let len = v.len();
    let k = if k < len { k } else { len };
    if k == 0 {
        return;
    }
    insertion_sort_range(v, 0, k);
    proof {
        lemma_permuted_widen(old(v)@, v@, 0, k as int, 0, len as int);
    }
    let mut i = k;
    while i < len
        invariant
            0 < k <= i <= len,
            len == v@.len(),
            sorted_range(v@, 0, k as int),
            permuted_within(old(v)@, v@, 0, len as int),
            forall|b: int| k <= b < i ==> v@[k - 1] <= #[trigger] v@[b],
        decreases len - i,
    {
        if v[i] < v[k - 1] {
            let ghost before = v@;
            let ghost e = v@[k - 1];
            swap(v, i, k - 1);
            let ghost mid = v@;
            assert(bounded_range(mid, 0, k as int, i32::MIN as int, e as int));
            insert_last(v, 0, k);
            proof {
                lemma_bounds_carry(mid, v@, 0, k as int, i32::MIN as int, e as int);
                assert(v@[k - 1] <= e);
                lemma_permuted_widen(mid, v@, 0, k as int, 0, len as int);
                lemma_permuted_trans(before, mid, v@, 0, len as int);
                lemma_permuted_trans(old(v)@, before, v@, 0, len as int);
                assert forall|b: int| k <= b < i + 1 implies v@[k - 1] <= #[trigger] v@[b] by {
                    assert(v@[b] == mid[b]);
                }
            }
        }
        i += 1;
    }
    proof {
        lemma_whole_from_range(old(v)@, v@, 0, len as int);
    }
}

/// Lomuto partition of `v[lo..hi]` around its last element; returns the
/// pivot's final position.
fn partition(v: &mut [i32], lo: usize, hi: usize) -> (p: usize)
    requires
        lo < hi <= old(v)@.len(),
    ensures
        lo <= p < hi,
        permuted_within(old(v)@, final(v)@, lo as int, hi as int),
        forall|k: int| lo <= k < p ==> #[trigger] final(v)@[k] <= final(v)@[p as int],
        forall|k: int| p < k < hi ==> #[trigger] final(v)@[k] > final(v)@[p as int],
{
    let pivot = v[hi - 1];
    let mut i = lo;
    let mut j = lo;
    while j < hi - 1
        invariant
            lo <= i <= j <= hi - 1,
            hi <= v@.len(),
            v@[hi - 1] == pivot,
            permuted_within(old(v)@, v@, lo as int, hi as int),
            forall|k: int| lo <= k < i ==> #[trigger] v@[k] <= pivot,
            forall|k: int| i <= k < j ==> #[trigger] v@[k] > pivot,
        decreases hi - 1 - j,
    {
        if v[j] <= pivot {
            let ghost before = v@;
            swap(v, i, j);
            proof {
                lemma_permuted_trans(old(v)@, before, v@, lo as int, hi as int);
            }
            i += 1;
        }
        j += 1;
    }
    let ghost before = v@;
    swap(v, i, hi - 1);
    proof {
        lemma_permuted_trans(old(v)@, before, v@, lo as int, hi as int);
    }
    i
}

fn quicksort_range(v: &mut [i32], lo: usize, hi: usize)
    requires
        lo <= hi <= old(v)@.len(),
    ensures
        sorted_range(final(v)@, lo as int, hi as int),
        permuted_within(old(v)@, final(v)@, lo as int, hi as int),
    decreases hi - lo,
{
    if hi - lo <= 1 {
        return;
    }
    let p = partition(v, lo, hi);
    let ghost s1 = v@;
    let ghost pv = v@[p as int] as int;
    assert(bounded_range(s1, lo as int, p as int, i32::MIN as int, pv));
    assert(bounded_range(s1, p + 1, hi as int, pv + 1, i32::MAX as int));
    quicksort_range(v, lo, p);
    let ghost s2 = v@;
    proof {
        lemma_bounds_carry(s1, s2, lo as int, p as int, i32::MIN as int, pv);
        assert(bounded_range(s2, p + 1, hi as int, pv + 1, i32::MAX as int));
    }
    quicksort_range(v, p + 1, hi);
    proof {
        let s3 = v@;
        lemma_bounds_carry(s2, s3, p + 1, hi as int, pv + 1, i32::MAX as int);
        assert(bounded_range(s3, lo as int, p as int, i32::MIN as int, pv));
        assert(s3[p as int] == pv);
        lemma_permuted_widen(s1, s2, lo as int, p as int, lo as int, hi as int);
        lemma_permuted_widen(s2, s3, p + 1, hi as int, lo as int, hi as int);
        lemma_permuted_trans(old(v)@, s1, s2, lo as int, hi as int);
        lemma_permuted_trans(old(v)@, s2, s3, lo as int, hi as int);
        assert forall|a: int, b: int| lo <= a <= b < hi implies #[trigger] s3[a] <= #[trigger] s3[b] by {
            if a < p && b > p {
                assert(s3[a] <= pv && pv < s3[b]);
            } else if a < p && b == p {
            } else if a == p && b > p {
            }
        }
    }
}

/// Sorts `v` in place by quicksort with the last element as pivot.
pub fn quicksort_i32(v: &mut [i32])
    ensures
        sorted(final(v)@),
        is_permutation(old(v)@, final(v)@),
{
    let n = v.len();
    quicksort_range(v, 0, n);
    proof {
        lemma_whole_from_range(old(v)@, v@, 0, n as int);
    }
}

/// Merges the sorted runs `v[lo..mid]` and `v[mid..hi]` through `temp`;
/// on ties the element of the left run comes first.
fn merge(v: &mut [i32], temp: &mut [i32], lo: usize, mid: usize, hi: usize)
    requires
        lo <= mid <= hi <= old(v)@.len(),
        old(temp)@.len() == old(v)@.len(),
        sorted_range(old(v)@, lo as int, mid as int),
        sorted_range(old(v)@, mid as int, hi as int),
    ensures
        final(temp)@.len() == final(v)@.len(),
        sorted_range(final(v)@, lo as int, hi as int),
        permuted_within(old(v)@, final(v)@, lo as int, hi as int),
{
    let mut i = lo;
    let mut j = mid;
    let mut k = lo;
    while k < hi
        invariant
            lo <= i <= mid <= j <= hi <= v@.len(),
            temp@.len() == v@.len(),
            v@ == old(v)@,
            k == lo + (i - lo) + (j - mid),
            sorted_range(v@, lo as int, mid as int),
            sorted_range(v@, mid as int, hi as int),
            sorted_range(temp@, lo as int, k as int),
            temp@.subrange(lo as int, k as int).to_multiset() == v@.subrange(lo as int, i as int).to_multiset().add(
                v@.subrange(mid as int, j as int).to_multiset(),
            ),
            k > lo && i < mid ==> temp@[k - 1] <= v@[i as int],
            k > lo && j < hi ==> temp@[k - 1] <= v@[j as int],
        decreases hi - k,
    {
        let ghost t0 = temp@;
        let take_left = i < mid && (j >= hi || v[i] <= v[j]);
        let x = if take_left { v[i] } else { v[j] };
        temp[k] = x;
        proof {
            assert(temp@.subrange(lo as int, k + 1) =~= t0.subrange(lo as int, k as int).push(x));
            if take_left {
                assert(v@.subrange(lo as int, i + 1) =~= v@.subrange(lo as int, i as int).push(x));
            } else {
                assert(v@.subrange(mid as int, j + 1) =~= v@.subrange(mid as int, j as int).push(x));
            }
            assert(temp@.subrange(lo as int, k + 1).to_multiset() =~= v@.subrange(
                lo as int,
                i + if take_left { 1int } else { 0int },
            ).to_multiset().add(
                v@.subrange(mid as int, j + if take_left { 0int } else { 1int }).to_multiset(),
            ));
        }
        if take_left {
            i += 1;
        } else {
            j += 1;
        }
        k += 1;
    }
    let ghost merged = temp@;
    proof {
        assert(v@.subrange(lo as int, hi as int) =~= v@.subrange(lo as int, mid as int)
            + v@.subrange(mid as int, hi as int));
        lemma_multiset_commutative(
            v@.subrange(lo as int, mid as int),
            v@.subrange(mid as int, hi as int),
        );
    }
    let mut t = lo;
    while t < hi
        invariant
            lo <= t <= hi <= v@.len(),
            temp@ == merged,
            merged.len() == v@.len(),
            forall|q: int| 0 <= q < v@.len() && !(lo <= q < t) ==> #[trigger] v@[q] == old(v)@[q],
            forall|q: int| lo <= q < t ==> #[trigger] v@[q] == merged[q],
        decreases hi - t,
    {
        let x = temp[t];
        v[t] = x;
        t += 1;
    }
    assert(v@.subrange(lo as int, hi as int) =~= merged.subrange(lo as int, hi as int));
}

fn mergesort_range(v: &mut [i32], temp: &mut [i32], lo: usize, hi: usize)
    requires
        lo <= hi <= old(v)@.len(),
        old(temp)@.len() == old(v)@.len(),
    ensures
        final(temp)@.len() == final(v)@.len(),
        sorted_range(final(v)@, lo as int, hi as int),
        permuted_within(old(v)@, final(v)@, lo as int, hi as int),
    decreases hi - lo,
{
    if hi - lo <= 1 {
        return;
    }
    let mid = lo + (hi - lo) / 2;
    let ghost s0 = v@;
    mergesort_range(v, temp, lo, mid);
    let ghost s1 = v@;
    mergesort_range(v, temp, mid, hi);
    let ghost s2 = v@;
    assert(sorted_range(s2, lo as int, mid as int)) by {
        assert forall|a: int, b: int| lo <= a <= b < mid implies #[trigger] s2[a] <= #[trigger] s2[b] by {
            assert(s2[a] == s1[a] && s2[b] == s1[b]);
        }
    }
    merge(v, temp, lo, mid, hi);
    proof {
        lemma_permuted_widen(s0, s1, lo as int, mid as int, lo as int, hi as int);
        lemma_permuted_widen(s1, s2, mid as int, hi as int, lo as int, hi as int);
        lemma_permuted_trans(s0, s1, s2, lo as int, hi as int);
        lemma_permuted_trans(s0, s2, v@, lo as int, hi as int);
    }
}

/// Sorts `v` in place by top-down mergesort with one auxiliary buffer.
pub fn mergesort_i32(v: &mut [i32])
    ensures
        sorted(final(v)@),
        is_permutation(old(v)@, final(v)@),
{
    let n = v.len();
    let mut temp: Vec<i32> = Vec::new();
    let mut t: usize = 0;
    while t < n
        invariant
            t <= n,
            temp@.len() == t,
        decreases n - t,
    {
        temp.push(0);
        t += 1;
    }
    mergesort_range(v, &mut temp, 0, n);
    proof {
        lemma_whole_from_range(old(v)@, v@, 0, n as int);
    }
}

/// Position of the parent of node `k` in an implicit binary heap.
pub open spec fn parent(k: int) -> int {
    (k - 1) / 2
}

/// Every node of `s[0..n]` whose parent is at least `from` is no larger than
/// that parent.
pub open spec fn heap_from(s: Seq<i32>, n: int, from: int) -> bool {
    forall|k: int| 1 <= k < n && parent(k) >= from ==> s[parent(k)] >= #[trigger] s[k]
}

proof fn lemma_heap_root_max(s: Seq<i32>, n: int, k: int)
    requires
        heap_from(s, n, 0),
        0 <= k < n,
    ensures
        s[0] >= s[k],
    decreases k,
{
    if k > 0 {
        lemma_heap_root_max(s, n, parent(k));
    }
}

/// Sifts `v[i]` down within the heap `v[0..n]`.
fn heapify(v: &mut [i32], n: usize, i: usize)
    requires
        i < n <= old(v)@.len(),
        heap_from(old(v)@, n as int, i + 1),
    ensures
        heap_from(final(v)@, n as int, i as int),
        permuted_within(old(v)@, final(v)@, 0, n as int),
{
    let mut j = i;
    loop
        invariant
            i <= j < n <= v@.len(),
            permuted_within(old(v)@, v@, 0, n as int),
            forall|k: int|
                1 <= k < n && parent(k) >= i && parent(k) != j ==> v@[parent(k)] >= #[trigger] v@[k],
            forall|k: int|
                1 <= k < n && parent(k) == j && j > i ==> v@[parent(j as int)] >= #[trigger] v@[k],
        decreases n - j,
    {
        if j >= n / 2 {
            return;
        }
        let left = 2 * j + 1;
        let right = 2 * j + 2;
        let mut largest = j;
        if left < n && v[left] > v[largest] {
            largest = left;
        }
        if right < n && v[right] > v[largest] {
            largest = right;
        }
        if largest == j {
            return;
        }
        let ghost before = v@;
        swap(v, j, largest);
        proof {
            lemma_permuted_trans(old(v)@, before, v@, 0, n as int);
            assert(parent(largest as int) == j);
        }
        j = largest;
    }
}

fn build_max_heap(v: &mut [i32])
    ensures
        heap_from(final(v)@, final(v)@.len() as int, 0),
        permuted_within(old(v)@, final(v)@, 0, old(v)@.len() as int),
{
    let n = v.len();
    let mut i = n / 2;
    while i > 0
        invariant
            i <= n / 2,
            n == v@.len(),
            heap_from(v@, n as int, i as int),
            permuted_within(old(v)@, v@, 0, n as int),
        decreases i,
    {
        let ghost before = v@;
        heapify(v, n, i - 1);
        proof {
            lemma_permuted_trans(old(v)@, before, v@, 0, n as int);
        }
        i -= 1;
    }
}

/// Sorts `v` in place by heapsort: builds a max-heap, then repeatedly moves
/// its root behind the shrinking heap.
pub fn heapsort_i32(v: &mut [i32])
    ensures
        sorted(final(v)@),
        is_permutation(old(v)@, final(v)@),
{
    let n = v.len();
    build_max_heap(v);
    let mut end = n;
    while end > 1
        invariant
            end <= n,
            n == v@.len(),
            heap_from(v@, end as int, 0),
            permuted_within(old(v)@, v@, 0, n as int),
            sorted_range(v@, end as int, n as int),
            forall|a: int, b: int| 0 <= a < end <= b < n ==> #[trigger] v@[a] <= #[trigger] v@[b],
        decreases end,
    {
        let ghost s0 = v@;
        let ghost top = v@[0];
        proof {
            assert forall|k: int| 0 <= k < end implies #[trigger] s0[k] <= top by {
                lemma_heap_root_max(s0, end as int, k);
            }
        }
        swap(v, 0, end - 1);
        let ghost s1 = v@;
        proof {
            lemma_permuted_trans(old(v)@, s0, s1, 0, n as int);
            assert(bounded_range(s1, 0, end - 1, i32::MIN as int, top as int));
            assert(heap_from(s1, end - 1, 1));
        }
        heapify(v, end - 1, 0);
        proof {
            lemma_bounds_carry(s1, v@, 0, end - 1, i32::MIN as int, top as int);
            lemma_permuted_widen(s1, v@, 0, end - 1, 0, n as int);
            lemma_permuted_trans(old(v)@, s1, v@, 0, n as int);
            assert(v@[end - 1] == top);
        }
        end -= 1;
    }
    proof {
        if n > 0 {
            assert(sorted_range(v@, 0, n as int));
        }
        lemma_whole_from_range(old(v)@, v@, 0, n as int);
    }
}

/// Magnitude of `x`.
pub open spec fn magnitude(x: i32) -> nat {
    if x < 0 {
        (-x) as nat
    } else {
        x as nat
    }
}

/// Decimal digit of the magnitude of `x` at place value `exp`.
pub open spec fn digit_of(x: i32, exp: nat) -> nat
    recommends
        exp > 0,
{
    ((magnitude(x) / exp) % 10) as nat
}

/// The elements of `s[0..t]` whose digit at `exp` is `d`, in their order in `s`.
pub open spec fn bucket(s: Seq<i32>, exp: nat, d: nat, t: nat) -> Seq<i32>
    decreases t,
{
    if t == 0 || t > s.len() {
        Seq::empty()
    } else if digit_of(s[t - 1], exp) == d {
        bucket(s, exp, d, (t - 1) as nat).push(s[t - 1])
    } else {
        bucket(s, exp, d, (t - 1) as nat)
    }
}

/// The buckets of digits `0..count`, concatenated.
pub open spec fn buckets_upto(s: Seq<i32>, exp: nat, count: nat) -> Seq<i32>
    decreases count,
{
    if count == 0 {
        Seq::empty()
    } else {
        buckets_upto(s, exp, (count - 1) as nat) + bucket(s, exp, (count - 1) as nat, s.len())
    }
}

/// One stable distribution pass of radix sort on the digit at `exp`.
pub open spec fn digit_pass(s: Seq<i32>, exp: nat) -> Seq<i32> {
    buckets_upto(s, exp, 10)
}

pub open spec fn radix_measure(exp: nat, max: nat) -> nat {
    if exp > max {
        0
    } else {
        (max + 1 - exp) as nat
    }
}

/// Least-significant-digit radix sort: one pass per decimal digit of `max`.
pub open spec fn radix_passes(s: Seq<i32>, exp: nat, max: nat) -> Seq<i32>
    decreases radix_measure(exp, max),
{
    if exp == 0 || max < exp {
        s
    } else {
        radix_passes(digit_pass(s, exp), exp * 10, max)
    }
}

/// Sum of the multisets of the buckets of digits `0..count` over `s[0..t]`.
pub open spec fn buckets_multiset(s: Seq<i32>, exp: nat, count: nat, t: nat) -> Multiset<i32>
    decreases count,
{
    if count == 0 {
        Multiset::empty()
    } else {
        buckets_multiset(s, exp, (count - 1) as nat, t).add(
            bucket(s, exp, (count - 1) as nat, t).to_multiset(),
        )
    }
}

proof fn lemma_buckets_concat(s: Seq<i32>, exp: nat, count: nat)
    ensures
        buckets_upto(s, exp, count).to_multiset() == buckets_multiset(s, exp, count, s.len()),
    decreases count,
{
    if count > 0 {
        lemma_buckets_concat(s, exp, (count - 1) as nat);
        lemma_multiset_commutative(
            buckets_upto(s, exp, (count - 1) as nat),
            bucket(s, exp, (count - 1) as nat, s.len()),
        );
    }
}

proof fn lemma_buckets_step(s: Seq<i32>, exp: nat, count: nat, t: nat)
    requires
        0 < t <= s.len(),
    ensures
        buckets_multiset(s, exp, count, t) == if digit_of(s[t - 1], exp) < count {
            buckets_multiset(s, exp, count, (t - 1) as nat).insert(s[t - 1])
        } else {
            buckets_multiset(s, exp, count, (t - 1) as nat)
        },
    decreases count,
{
    if count > 0 {
        lemma_buckets_step(s, exp, (count - 1) as nat, t);
        let prev = bucket(s, exp, (count - 1) as nat, (t - 1) as nat);
        if digit_of(s[t - 1], exp) == count - 1 {
            assert(prev.push(s[t - 1]).to_multiset() == prev.to_multiset().insert(s[t - 1]));
        }
        assert(buckets_multiset(s, exp, count, t) =~= if digit_of(s[t - 1], exp) < count {
            buckets_multiset(s, exp, count, (t - 1) as nat).insert(s[t - 1])
        } else {
            buckets_multiset(s, exp, count, (t - 1) as nat)
        });
    }
}

proof fn lemma_buckets_cover(s: Seq<i32>, exp: nat, t: nat)
    requires
        t <= s.len(),
        exp > 0,
    ensures
        buckets_multiset(s, exp, 10, t) == s.subrange(0, t as int).to_multiset(),
    decreases t,
{
    if t == 0 {
        assert(buckets_multiset(s, exp, 10, 0) =~= Multiset::empty()) by {
            reveal_with_fuel(buckets_multiset, 11);
        }
        assert(s.subrange(0, 0) =~= Seq::<i32>::empty());
    } else {
        lemma_buckets_cover(s, exp, (t - 1) as nat);
        lemma_buckets_step(s, exp, 10, t);
        assert(s.subrange(0, t as int) =~= s.subrange(0, t - 1).push(s[t - 1]));
    }
}

/// A distribution pass reorders `s` without adding or losing values.
pub proof fn lemma_digit_pass_permutes(s: Seq<i32>, exp: nat)
    requires
        exp > 0,
    ensures
        is_permutation(s, digit_pass(s, exp)),
{
    lemma_buckets_concat(s, exp, 10);
    lemma_buckets_cover(s, exp, s.len());
    assert(s.subrange(0, s.len() as int) =~= s);
}

proof fn lemma_radix_permutes(s: Seq<i32>, exp: nat, max: nat)
    ensures
        is_permutation(s, radix_passes(s, exp, max)),
    decreases radix_measure(exp, max),
{
    if exp > 0 && exp <= max {
        lemma_digit_pass_permutes(s, exp);
        lemma_radix_permutes(digit_pass(s, exp), exp * 10, max);
    }
}

fn magnitude_of(x: i32) -> (m: u64)
    ensures
        m == magnitude(x),
{
    if x < 0 {
        (-(x as i64)) as u64
    } else {
        x as u64
    }
}

/// One stable pass on the digit at `exp`: the values whose digit is 0 in
/// their current order, then those whose digit is 1, and so on.
fn sort_by_digit(v: &mut [i32], exp: u64)
    requires
        exp > 0,
    ensures
        final(v)@ == digit_pass(old(v)@, exp as nat),
{
    let n = v.len();
    let mut out: Vec<i32> = Vec::new();
    let mut d: u64 = 0;
    while d < 10
        invariant
            d <= 10,
            exp > 0,
            n == v@.len(),
            v@ == old(v)@,
            out@ == buckets_upto(v@, exp as nat, d as nat),
        decreases 10 - d,
    {
        let mut t: usize = 0;
        while t < n
            invariant
                d < 10,
                exp > 0,
                t <= n,
                n == v@.len(),
                v@ == old(v)@,
                out@ == buckets_upto(v@, exp as nat, d as nat) + bucket(
                    v@,
                    exp as nat,
                    d as nat,
                    t as nat,
                ),
            decreases n - t,
        {
            let x = v[t];
            if (magnitude_of(x) / exp) % 10 == d {
                out.push(x);
            }
            proof {
                let b = buckets_upto(v@, exp as nat, d as nat);
                let bt = bucket(v@, exp as nat, d as nat, t as nat);
                if digit_of(x, exp as nat) == d {
                    assert(b + bt.push(x) =~= (b + bt).push(x));
                }
            }
            t += 1;
        }
        d += 1;
    }
    proof {
        lemma_digit_pass_permutes(old(v)@, exp as nat);
        assert(out@.to_multiset().len() == old(v)@.to_multiset().len());
    }
    let mut t: usize = 0;
    while t < n
        invariant
            t <= n,
            n == v@.len(),
            out@ == digit_pass(old(v)@, exp as nat),
            out@.len() == n,
            forall|q: int| 0 <= q < t ==> #[trigger] v@[q] == out@[q],
        decreases n - t,
    {
        v[t] = out[t];
        t += 1;
    }
    assert(v@ =~= out@);
}

/// Sorts by least-significant-digit radix passes over the decimal digits of
/// the magnitudes. Values are ordered by magnitude digits only, so negative
/// values are not placed before positive ones.
pub fn radixsort_i32(v: &mut [i32])
    ensures
        final(v)@ == radix_passes(old(v)@, 1, max_magnitude(old(v)@, old(v)@.len())),
        is_permutation(old(v)@, final(v)@),
        sorted_by_magnitude(final(v)@),
        (forall|k: int| 0 <= k < old(v)@.len() ==> #[trigger] old(v)@[k] >= 0) ==> sorted(
            final(v)@,
        ),
{
    proof {
        lemma_radix_orders(v@);
    }
    let n = v.len();
    if n == 0 {
        return;
    }
    let mut max_val: u64 = 0;
    let mut i: usize = 0;
    while i < n
        invariant
            i <= n,
            n == v@.len(),
            max_val == max_magnitude(v@, i as nat),
            max_val <= 0x8000_0000,
        decreases n - i,
    {
        let m = magnitude_of(v[i]);
        if m > max_val {
            max_val = m;
        }
        i += 1;
    }
    let ghost s0 = v@;
    let mut exp: u64 = 1;
    while exp <= max_val
        invariant
            exp > 0,
            max_val <= 0x8000_0000,
            exp <= 0x10_0000_0000,
            radix_passes(s0, 1, max_val as nat) == radix_passes(v@, exp as nat, max_val as nat),
        decreases radix_measure(exp as nat, max_val as nat),
    {
        sort_by_digit(v, exp);
        exp = exp * 10;
    }
    proof {
        lemma_radix_permutes(s0, 1, max_val as nat);
    }
}

/// Largest magnitude among `s[0..t]`.
pub open spec fn max_magnitude(s: Seq<i32>, t: nat) -> nat
    decreases t,
{
    if t == 0 || t > s.len() {
        0
    } else if magnitude(s[t - 1]) > max_magnitude(s, (t - 1) as nat) {
        magnitude(s[t - 1])
    } else {
        max_magnitude(s, (t - 1) as nat)
    }
}

/// Sorts `v` in place (mergesort: guaranteed O(n log n)).
pub fn sort_i32_array(v: &mut [i32])
    ensures
        sorted(final(v)@),
        is_permutation(old(v)@, final(v)@),
{
    mergesort_i32(v);
}

/// Magnitude of `x` modulo `e`: the part of it below place value `e`.
pub open spec fn low_part(x: i32, e: nat) -> int {
    magnitude(x) as int % e as int
}

/// `s` is non-decreasing in the low parts below `e`.
pub open spec fn sorted_below(s: Seq<i32>, e: nat) -> bool {
    forall|a: int, b: int| 0 <= a < b < s.len() ==> low_part(#[trigger] s[a], e) <= low_part(
        #[trigger] s[b],
        e,
    )
}

/// `s` is non-decreasing in magnitude.
pub open spec fn sorted_by_magnitude(s: Seq<i32>) -> bool {
    forall|a: int, b: int| 0 <= a < b < s.len() ==> magnitude(#[trigger] s[a]) <= magnitude(
        #[trigger] s[b],
    )
}

proof fn lemma_bucket_sorted(s: Seq<i32>, exp: nat, d: nat, t: nat)
    requires
        exp > 0,
        t <= s.len(),
        sorted_below(s, exp),
    ensures
        sorted_below(bucket(s, exp, d, t), exp),
        forall|k: int|
            0 <= k < bucket(s, exp, d, t).len() ==> digit_of(#[trigger] bucket(s, exp, d, t)[k], exp)
                == d,
        forall|k: int, j: int|
            0 <= k < bucket(s, exp, d, t).len() && t <= j < s.len() ==> low_part(
                #[trigger] bucket(s, exp, d, t)[k],
                exp,
            ) <= low_part(#[trigger] s[j], exp),
    decreases t,
{
    if t > 0 {
        lemma_bucket_sorted(s, exp, d, (t - 1) as nat);
        let prev = bucket(s, exp, d, (t - 1) as nat);
        let cur = bucket(s, exp, d, t);
        assert forall|k: int, j: int|
            0 <= k < cur.len() && t <= j < s.len() implies low_part(#[trigger] cur[k], exp)
            <= low_part(#[trigger] s[j], exp) by {
            if k < prev.len() {
                assert(cur[k] == prev[k]);
                assert(low_part(prev[k], exp) <= low_part(s[t - 1], exp));
            } else {
                assert(cur[k] == s[t - 1]);
            }
            assert(low_part(s[t - 1], exp) <= low_part(s[j], exp));
        }
        assert forall|a: int, b: int| 0 <= a < b < cur.len() implies low_part(#[trigger] cur[a], exp)
            <= low_part(#[trigger] cur[b], exp) by {
            assert(cur[a] == prev[a]);
            if b < prev.len() {
                assert(cur[b] == prev[b]);
            } else {
                assert(cur[b] == s[t - 1]);
            }
        }
    }
}

proof fn lemma_low_part_split(x: i32, exp: nat)
    requires
        exp > 0,
    ensures
        low_part(x, exp * 10) == exp * digit_of(x, exp) + low_part(x, exp),
        0 <= low_part(x, exp) < exp,
{
    vstd::arithmetic::div_mod::lemma_mod_breakdown(magnitude(x) as int, exp as int, 10);
    vstd::arithmetic::div_mod::lemma_mod_pos_bound(magnitude(x) as int, exp as int);
    vstd::arithmetic::div_mod::lemma_mod_pos_bound(magnitude(x) as int / exp as int, 10);
}

proof fn lemma_buckets_sorted(s: Seq<i32>, exp: nat, count: nat)
    requires
        exp > 0,
        sorted_below(s, exp),
    ensures
        sorted_below(buckets_upto(s, exp, count), exp * 10),
        forall|k: int|
            0 <= k < buckets_upto(s, exp, count).len() ==> digit_of(
                #[trigger] buckets_upto(s, exp, count)[k],
                exp,
            ) < count,
    decreases count,
{
    if count > 0 {
        let d = (count - 1) as nat;
        lemma_buckets_sorted(s, exp, d);
        lemma_bucket_sorted(s, exp, d, s.len());
        let left = buckets_upto(s, exp, d);
        let right = bucket(s, exp, d, s.len());
        let all = buckets_upto(s, exp, count);
        assert(all == left + right);
        assert forall|a: int, b: int| 0 <= a < b < all.len() implies low_part(#[trigger] all[a], exp * 10)
            <= low_part(#[trigger] all[b], exp * 10) by {
            let x = all[a];
            let y = all[b];
            lemma_low_part_split(x, exp);
            lemma_low_part_split(y, exp);
            if b < left.len() {
                assert(x == left[a] && y == left[b]);
            } else if a >= left.len() {
                assert(x == right[a - left.len()] && y == right[b - left.len()]);
            } else {
                assert(x == left[a] && y == right[b - left.len()]);
                let dx = digit_of(x, exp);
                let dy = digit_of(y, exp);
                assert(dx < dy);
                assert(exp * dx + low_part(x, exp) < exp * dy) by (nonlinear_arith)
                    requires
                        dx < dy,
                        low_part(x, exp) < exp,
                ;
            }
        }
        assert forall|k: int| 0 <= k < all.len() implies digit_of(#[trigger] all[k], exp) < count by {
            if k < left.len() {
                assert(all[k] == left[k]);
            } else {
                assert(all[k] == right[k - left.len()]);
            }
        }
    }
}

proof fn lemma_permutation_keeps_magnitudes(s: Seq<i32>, t: Seq<i32>, max: nat)
    requires
        is_permutation(s, t),
        forall|k: int| 0 <= k < s.len() ==> magnitude(#[trigger] s[k]) <= max,
    ensures
        forall|k: int| 0 <= k < t.len() ==> magnitude(#[trigger] t[k]) <= max,
{
    assert forall|k: int| 0 <= k < t.len() implies magnitude(#[trigger] t[k]) <= max by {
        let x = t[k];
        assert(t.contains(x));
        assert(s.to_multiset().count(x) > 0);
        assert(s.contains(x));
    }
}

proof fn lemma_radix_sorted(s: Seq<i32>, exp: nat, max: nat)
    requires
        exp > 0,
        sorted_below(s, exp),
        forall|k: int| 0 <= k < s.len() ==> magnitude(#[trigger] s[k]) <= max,
    ensures
        sorted_by_magnitude(radix_passes(s, exp, max)),
    decreases radix_measure(exp, max),
{
    if exp <= max {
        let next = digit_pass(s, exp);
        lemma_buckets_sorted(s, exp, 10);
        lemma_digit_pass_permutes(s, exp);
        lemma_permutation_keeps_magnitudes(s, next, max);
        lemma_radix_sorted(next, exp * 10, max);
    } else {
        assert forall|a: int, b: int| 0 <= a < b < s.len() implies magnitude(#[trigger] s[a])
            <= magnitude(#[trigger] s[b]) by {
            vstd::arithmetic::div_mod::lemma_small_mod(magnitude(s[a]), exp);
            vstd::arithmetic::div_mod::lemma_small_mod(magnitude(s[b]), exp);
        }
    }
}

proof fn lemma_max_magnitude(s: Seq<i32>, t: nat)
    requires
        t <= s.len(),
    ensures
        forall|k: int| 0 <= k < t ==> magnitude(#[trigger] s[k]) <= max_magnitude(s, t),
    decreases t,
{
    if t > 0 {
        lemma_max_magnitude(s, (t - 1) as nat);
    }
}

/// Radix passes order every input by magnitude, so an input without negative
/// values comes out sorted.
pub proof fn lemma_radix_orders(s: Seq<i32>)
    ensures
        sorted_by_magnitude(radix_passes(s, 1, max_magnitude(s, s.len()))),
        (forall|k: int| 0 <= k < s.len() ==> #[trigger] s[k] >= 0) ==> sorted(
            radix_passes(s, 1, max_magnitude(s, s.len())),
        ),
{
    let max = max_magnitude(s, s.len());
    lemma_max_magnitude(s, s.len());
    assert(sorted_below(s, 1)) by {
        assert forall|a: int, b: int| 0 <= a < b < s.len() implies low_part(#[trigger] s[a], 1)
            <= low_part(#[trigger] s[b], 1) by {
            vstd::arithmetic::div_mod::lemma_mod_pos_bound(magnitude(s[a]) as int, 1);
            vstd::arithmetic::div_mod::lemma_mod_pos_bound(magnitude(s[b]) as int, 1);
        }
    }
    lemma_radix_sorted(s, 1, max);
    let r = radix_passes(s, 1, max);
    if forall|k: int| 0 <= k < s.len() ==> #[trigger] s[k] >= 0 {
        lemma_radix_permutes(s, 1, max);
        assert forall|k: int| 0 <= k < r.len() implies #[trigger] r[k] >= 0 by {
            let x = r[k];
            assert(r.contains(x));
            assert(s.to_multiset().count(x) > 0);
            assert(s.contains(x));
        }
        assert forall|a: int, b: int| 0 <= a <= b < r.len() implies #[trigger] r[a] <= #[trigger] r[b] by {
            if a < b {
                assert(magnitude(r[a]) <= magnitude(r[b]));
            }
        }
    }
}

/// A record to sort: a key and a payload carried along with it.
pub type Record = (i32, u64);

/// Keys of `s[lo..hi]` are non-decreasing.
pub open spec fn keys_sorted_range(s: Seq<Record>, lo: int, hi: int) -> bool {
    forall|a: int, b: int| lo <= a <= b < hi ==> (#[trigger] s[a]).0 <= (#[trigger] s[b]).0
}

/// The records of `s` whose key is `x`, in their order in `s`.
pub open spec fn with_key(s: Seq<Record>, x: i32) -> Seq<Record> {
    s.filter(|r: Record| r.0 == x)
}

/// `t` differs from `s` only inside `lo..hi`, and there, for every key, the
/// records with that key come in the same order in both.
pub open spec fn stable_within(s: Seq<Record>, t: Seq<Record>, lo: int, hi: int) -> bool {
    &&& s.len() == t.len()
    &&& forall|k: int| 0 <= k < s.len() && !(lo <= k < hi) ==> #[trigger] t[k] == s[k]
    &&& forall|x: i32| #[trigger]
        with_key(t.subrange(lo, hi), x) == with_key(s.subrange(lo, hi), x)
}

proof fn lemma_with_key_add(a: Seq<Record>, b: Seq<Record>, x: i32)
    ensures
        with_key(a + b, x) == with_key(a, x) + with_key(b, x),
{
    Seq::filter_distributes_over_add(a, b, |r: Record| r.0 == x);
}

proof fn lemma_with_key_push(a: Seq<Record>, e: Record, x: i32)
    ensures
        with_key(a.push(e), x) == if e.0 == x {
            with_key(a, x).push(e)
        } else {
            with_key(a, x)
        },
{
    reveal(Seq::filter);
    assert(a.push(e).drop_last() =~= a);
}

proof fn lemma_with_key_none(a: Seq<Record>, x: i32)
    requires
        forall|k: int| 0 <= k < a.len() ==> (#[trigger] a[k]).0 != x,
    ensures
        with_key(a, x) == Seq::<Record>::empty(),
    decreases a.len(),
{
    if a.len() > 0 {
        let d = a.drop_last();
        lemma_with_key_none(d, x);
        assert(d.push(a.last()) =~= a);
        lemma_with_key_push(d, a.last(), x);
    } else {
        assert(a =~= Seq::<Record>::empty());
        reveal(Seq::filter);
    }
}

/// Merges the runs `v[lo..mid]` and `v[mid..hi]`, sorted by key, through
/// `temp`; on equal keys the record of the left run comes first.
fn merge_records(v: &mut [Record], temp: &mut Vec<Record>, lo: usize, mid: usize, hi: usize)
    requires
        lo <= mid <= hi <= old(v)@.len(),
        old(temp)@.len() == old(v)@.len(),
        keys_sorted_range(old(v)@, lo as int, mid as int),
        keys_sorted_range(old(v)@, mid as int, hi as int),
    ensures
        final(temp)@.len() == final(v)@.len(),
        keys_sorted_range(final(v)@, lo as int, hi as int),
        permuted_within(old(v)@, final(v)@, lo as int, hi as int),
        stable_within(old(v)@, final(v)@, lo as int, hi as int),
{
    let mut i = lo;
    let mut j = mid;
    let mut k = lo;
    while k < hi
        invariant
            lo <= i <= mid <= j <= hi <= v@.len(),
            temp@.len() == v@.len(),
            v@ == old(v)@,
            k == lo + (i - lo) + (j - mid),
            keys_sorted_range(v@, lo as int, mid as int),
            keys_sorted_range(v@, mid as int, hi as int),
            keys_sorted_range(temp@, lo as int, k as int),
            temp@.subrange(lo as int, k as int).to_multiset() == v@.subrange(lo as int, i as int).to_multiset().add(
                v@.subrange(mid as int, j as int).to_multiset(),
            ),
            k > lo && i < mid ==> temp@[k - 1].0 <= v@[i as int].0,
            k > lo && j < hi ==> temp@[k - 1].0 <= v@[j as int].0,
            i < mid ==> forall|q: int| mid <= q < j ==> (#[trigger] v@[q]).0 < v@[i as int].0,
            forall|x: i32| #[trigger] with_key(temp@.subrange(lo as int, k as int), x) == with_key(
                v@.subrange(lo as int, i as int),
                x,
            ) + with_key(v@.subrange(mid as int, j as int), x),
        decreases hi - k,
    {
        let ghost t0 = temp@;
        let take_left = i < mid && (j >= hi || v[i].0 <= v[j].0);
        let x = if take_left { v[i] } else { v[j] };
        temp[k] = x;
        proof {
            let tp = t0.subrange(lo as int, k as int);
            let lp = v@.subrange(lo as int, i as int);
            let rp = v@.subrange(mid as int, j as int);
            assert(temp@.subrange(lo as int, k + 1) =~= tp.push(x));
            if take_left {
                assert(v@.subrange(lo as int, i + 1) =~= lp.push(x));
                assert forall|y: i32| #[trigger] with_key(temp@.subrange(lo as int, k + 1), y)
                    == with_key(v@.subrange(lo as int, i + 1), y) + with_key(rp, y) by {
                    lemma_with_key_push(tp, x, y);
                    lemma_with_key_push(lp, x, y);
                    if x.0 == y {
                        lemma_with_key_none(rp, y);
                        assert(with_key(lp, y).push(x) + Seq::<Record>::empty() =~= with_key(
                            lp,
                            y,
                        ).push(x));
                        assert(with_key(lp, y) + Seq::<Record>::empty() =~= with_key(lp, y));
                    }
                }
            } else {
                assert(v@.subrange(mid as int, j + 1) =~= rp.push(x));
                assert forall|y: i32| #[trigger] with_key(temp@.subrange(lo as int, k + 1), y)
                    == with_key(lp, y) + with_key(v@.subrange(mid as int, j + 1), y) by {
                    lemma_with_key_push(tp, x, y);
                    lemma_with_key_push(rp, x, y);
                    if x.0 == y {
                        assert((with_key(lp, y) + with_key(rp, y)).push(x) =~= with_key(lp, y)
                            + with_key(rp, y).push(x));
                    }
                }
            }
            assert(temp@.subrange(lo as int, k + 1).to_multiset() =~= v@.subrange(
                lo as int,
                i + if take_left { 1int } else { 0int },
            ).to_multiset().add(
                v@.subrange(mid as int, j + if take_left { 0int } else { 1int }).to_multiset(),
            ));
        }
        if take_left {
            i += 1;
        } else {
            j += 1;
        }
        k += 1;
    }
    let ghost merged = temp@;
    proof {
        assert(v@.subrange(lo as int, hi as int) =~= v@.subrange(lo as int, mid as int)
            + v@.subrange(mid as int, hi as int));
        lemma_multiset_commutative(
            v@.subrange(lo as int, mid as int),
            v@.subrange(mid as int, hi as int),
        );
        assert forall|y: i32| #[trigger] with_key(merged.subrange(lo as int, hi as int), y)
            == with_key(v@.subrange(lo as int, hi as int), y) by {
            lemma_with_key_add(
                v@.subrange(lo as int, mid as int),
                v@.subrange(mid as int, hi as int),
                y,
            );
        }
    }
    let mut t = lo;
    while t < hi
        invariant
            lo <= t <= hi <= v@.len(),
            temp@ == merged,
            merged.len() == v@.len(),
            forall|q: int| 0 <= q < v@.len() && !(lo <= q < t) ==> #[trigger] v@[q] == old(v)@[q],
            forall|q: int| lo <= q < t ==> #[trigger] v@[q] == merged[q],
        decreases hi - t,
    {
        let x = temp[t];
        v[t] = x;
        t += 1;
    }
    assert(v@.subrange(lo as int, hi as int) =~= merged.subrange(lo as int, hi as int));
}

fn mergesort_records_range(v: &mut [Record], temp: &mut Vec<Record>, lo: usize, hi: usize)
    requires
        lo <= hi <= old(v)@.len(),
        old(temp)@.len() == old(v)@.len(),
    ensures
        final(temp)@.len() == final(v)@.len(),
        keys_sorted_range(final(v)@, lo as int, hi as int),
        permuted_within(old(v)@, final(v)@, lo as int, hi as int),
        stable_within(old(v)@, final(v)@, lo as int, hi as int),
    decreases hi - lo,
{
    if hi - lo <= 1 {
        return;
    }
    let mid = lo + (hi - lo) / 2;
    let ghost s0 = v@;
    mergesort_records_range(v, temp, lo, mid);
    let ghost s1 = v@;
    mergesort_records_range(v, temp, mid, hi);
    let ghost s2 = v@;
    proof {
        assert forall|a: int, b: int| lo <= a <= b < mid implies (#[trigger] s2[a]).0 <= (
        #[trigger] s2[b]).0 by {
            assert(s2[a] == s1[a] && s2[b] == s1[b]);
        }
    }
    merge_records(v, temp, lo, mid, hi);
    proof {
        let s3 = v@;
        lemma_permuted_widen(s0, s1, lo as int, mid as int, lo as int, hi as int);
        lemma_permuted_widen(s1, s2, mid as int, hi as int, lo as int, hi as int);
        lemma_permuted_trans(s0, s1, s2, lo as int, hi as int);
        lemma_permuted_trans(s0, s2, s3, lo as int, hi as int);
        let (l, m, h) = (lo as int, mid as int, hi as int);
        assert(s2.subrange(l, m) =~= s1.subrange(l, m));
        assert(s1.subrange(m, h) =~= s0.subrange(m, h));
        assert(s2.subrange(l, h) =~= s2.subrange(l, m) + s2.subrange(m, h));
        assert(s0.subrange(l, h) =~= s0.subrange(l, m) + s0.subrange(m, h));
        assert forall|y: i32| #[trigger] with_key(s3.subrange(l, h), y) == with_key(
            s0.subrange(l, h),
            y,
        ) by {
            lemma_with_key_add(s2.subrange(l, m), s2.subrange(m, h), y);
            lemma_with_key_add(s0.subrange(l, m), s0.subrange(m, h), y);
        }
    }
}

/// Stable mergesort of records by key: the result is sorted by key, and for
/// every key the records with that key keep their relative order.
pub fn mergesort_records(v: &mut [Record])
    ensures
        keys_sorted_range(final(v)@, 0, final(v)@.len() as int),
        is_permutation(old(v)@, final(v)@),
        forall|x: i32| #[trigger] with_key(final(v)@, x) == with_key(old(v)@, x),
{
    let n = v.len();
    let mut temp: Vec<Record> = Vec::new();
    let mut t: usize = 0;
    while t < n
        invariant
            t <= n,
            temp@.len() == t,
        decreases n - t,
    {
        temp.push((0, 0));
        t += 1;
    }
    mergesort_records_range(v, &mut temp, 0, n);
    proof {
        lemma_whole_from_range(old(v)@, v@, 0, n as int);
        assert(v@.subrange(0, n as int) =~= v@);
        assert(old(v)@.subrange(0, n as int) =~= old(v)@);
    }
}

} // verus!
