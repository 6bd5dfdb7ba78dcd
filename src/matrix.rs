use vstd::prelude::*;

use crate::arena::KernelError;

verus! {

/// Sum of `a[k] * b[k]` for `k < cnt`.
pub open spec fn dot_spec(a: Seq<i32>, b: Seq<i32>, cnt: nat) -> int
    decreases cnt,
{
    if cnt == 0 {
        0
    } else {
        dot_spec(a, b, (cnt - 1) as nat) + a[cnt - 1] * b[cnt - 1]
    }
}

/// Sum of `a[i][k] * b[k][j]` for `k < cnt`, with `a` of `n` columns and `b`
/// of `p` columns, both row-major.
pub open spec fn cell_spec(a: Seq<i32>, b: Seq<i32>, n: int, p: int, i: int, j: int, cnt: nat) -> int
    decreases cnt,
{
    if cnt == 0 {
        0
    } else {
        cell_spec(a, b, n, p, i, j, (cnt - 1) as nat) + a[i * n + cnt - 1] * b[(cnt - 1) * p + j]
    }
}

/// The row-major `m` by `p` product of `a` (`m` by `n`) and `b` (`n` by `p`).
pub open spec fn product_spec(a: Seq<i32>, b: Seq<i32>, m: int, n: int, p: int) -> Seq<i128> {
    Seq::new((m * p) as nat, |t: int| cell_spec(a, b, n, p, t / p, t % p, n as nat) as i128)
}

pub open spec fn fits_i32(x: int) -> bool {
    i32::MIN <= x <= i32::MAX
}

/// Element-wise sum, where every sum fits.
pub open spec fn sum_spec(a: Seq<i32>, b: Seq<i32>) -> Seq<i32> {
    Seq::new(a.len(), |k: int| (a[k] + b[k]) as i32)
}

/// Element-wise product, where every product fits.
pub open spec fn mul_spec(a: Seq<i32>, b: Seq<i32>) -> Seq<i32> {
    Seq::new(a.len(), |k: int| (a[k] * b[k]) as i32)
}

proof fn lemma_index(i: int, j: int, rows: int, cols: int)
    requires
        0 <= i < rows,
        0 <= j < cols,
    ensures
        0 <= i * cols,
        i * cols + j < rows * cols,
{
    assert(i * cols + j < rows * cols) by (nonlinear_arith)
        requires
            0 <= i < rows,
            0 <= j < cols,
    ;
    assert(0 <= i * cols) by (nonlinear_arith)
        requires
            0 <= i,
            0 <= cols,
    ;
}

proof fn lemma_product_bound(x: i32, y: i32)
    ensures
        -0x4000_0000_0000_0000 <= x * y <= 0x4000_0000_0000_0000,
{
    assert(-0x4000_0000_0000_0000 <= x * y <= 0x4000_0000_0000_0000) by (nonlinear_arith)
        requires
            -0x8000_0000 <= x < 0x8000_0000,
            -0x8000_0000 <= y < 0x8000_0000,
    ;
}

/// Dot product of two vectors of equal length, exact in 128 bits.
pub fn dot_product(a: &[i32], b: &[i32]) -> (r: Result<i128, KernelError>)
    ensures
        r is Ok <==> a@.len() == b@.len(),
        r is Ok ==> r->Ok_0 == dot_spec(a@, b@, a@.len()),
        r is Err ==> r == Err::<i128, KernelError>(KernelError::InvalidArgument),
{
    if a.len() != b.len() {
        return Err(KernelError::InvalidArgument);
    }
    let mut acc: i128 = 0;
    let mut k: usize = 0;
    while k < a.len()
        invariant
            a@.len() == b@.len(),
            k <= a@.len(),
            acc == dot_spec(a@, b@, k as nat),
            -k * 0x4000_0000_0000_0000 <= acc <= k * 0x4000_0000_0000_0000,
        decreases a@.len() - k,
    {
        proof {
            lemma_product_bound(a@[k as int], b@[k as int]);
        }
        acc = acc + (a[k] as i64 * b[k] as i64) as i128;
        k += 1;
    }
    Ok(acc)
}

/// Multiplies `a` (`m` by `n`) by `b` (`n` by `p`) into `c` (`m` by `p`), all
/// row-major; the previous contents of `c` are overwritten.
pub fn matrix_multiply(
    a: &[i32],
    m: usize,
    n: usize,
    b: &[i32],
    p: usize,
    c: &mut [i128],
) -> (r: Result<(), KernelError>)
    ensures
        r is Ok <==> a@.len() == m * n && b@.len() == n * p && old(c)@.len() == m * p,
        r is Ok ==> final(c)@ == product_spec(a@, b@, m as int, n as int, p as int),
        r is Err ==> r == Err::<(), KernelError>(KernelError::InvalidArgument) && final(c)@
            == old(c)@,
{
    let (alen, blen, clen) = (a.len(), b.len(), c.len());
    let mn = match m.checked_mul(n) {
        Some(v) => v,
        None => {
            return Err(KernelError::InvalidArgument);
        },
    };
    let np = match n.checked_mul(p) {
        Some(v) => v,
        None => {
            return Err(KernelError::InvalidArgument);
        },
    };
    let mp = match m.checked_mul(p) {
        Some(v) => v,
        None => {
            return Err(KernelError::InvalidArgument);
        },
    };
    if alen != mn || blen != np || clen != mp {
        return Err(KernelError::InvalidArgument);
    }
    let ghost spec = product_spec(a@, b@, m as int, n as int, p as int);
    let mut t: usize = 0;
    while t < mp
        invariant
            a@.len() == m * n,
            b@.len() == n * p,
            c@.len() == mp,
            mp == m * p,
            m * n <= usize::MAX,
            n * p <= usize::MAX,
            spec == product_spec(a@, b@, m as int, n as int, p as int),
            t <= mp,
            forall|k: int| 0 <= k < t ==> c@[k] == #[trigger] spec[k],
        decreases mp - t,
    {
        let i = t / p;
        let j = t % p;
        proof {
            assert(p > 0 && m * p == p * m) by (nonlinear_arith)
                requires
                    t < m * p,
                    t >= 0,
            ;
            vstd::arithmetic::div_mod::lemma_multiply_divide_lt(t as int, p as int, m as int);
            assert(n as int <= a@.len()) by (nonlinear_arith)
                requires
                    a@.len() == m * n,
                    0 <= i < m,
            ;
        }
        let mut acc: i128 = 0;
        let mut k: usize = 0;
        while k < n
            invariant
                a@.len() == m * n,
                b@.len() == n * p,
                n <= a@.len(),
                m * n <= usize::MAX,
                n * p <= usize::MAX,
                0 <= i < m,
                0 <= j < p,
                k <= n,
                acc == cell_spec(a@, b@, n as int, p as int, i as int, j as int, k as nat),
                -k * 0x4000_0000_0000_0000 <= acc <= k * 0x4000_0000_0000_0000,
            decreases n - k,
        {
            proof {
                lemma_index(i as int, k as int, m as int, n as int);
                lemma_index(k as int, j as int, n as int, p as int);
            }
            let x = a[i * n + k];
            let y = b[k * p + j];
            proof {
                lemma_product_bound(x, y);
            }
            acc = acc + (x as i64 * y as i64) as i128;
            k += 1;
        }
        c[t] = acc;
        t += 1;
    }
    assert(c@ =~= spec);
    Ok(())
}

/// Adds `b` into `a` element-wise. Refused, leaving `a` as it was, when the
/// lengths differ or some sum does not fit in 32 bits.
pub fn add_arrays(a: &mut [i32], b: &[i32]) -> (r: Result<(), KernelError>)
    ensures
        old(a)@.len() != b@.len() <==> r == Err::<(), KernelError>(KernelError::InvalidArgument),
        (old(a)@.len() == b@.len() && exists|k: int|
            0 <= k < b@.len() && !fits_i32(#[trigger] old(a)@[k] + b@[k])) <==> r == Err::<
            (),
            KernelError,
        >(KernelError::Overflow),
        r is Ok <==> (old(a)@.len() == b@.len() && forall|k: int|
            0 <= k < b@.len() ==> fits_i32(#[trigger] old(a)@[k] + b@[k])),
        r is Ok ==> final(a)@ == sum_spec(old(a)@, b@),
        r is Err ==> final(a)@ == old(a)@,
{
    if a.len() != b.len() {
        return Err(KernelError::InvalidArgument);
    }
    let n = a.len();
    let mut k: usize = 0;
    while k < n
        invariant
            n == a@.len(),
            n == b@.len(),
            k <= n,
            forall|q: int| 0 <= q < k ==> fits_i32(#[trigger] a@[q] + b@[q]),
        decreases n - k,
    {
        let s = a[k] as i64 + b[k] as i64;
        if s < i32::MIN as i64 || s > i32::MAX as i64 {
            return Err(KernelError::Overflow);
        }
        k += 1;
    }
    let ghost a0 = a@;
    let mut k: usize = 0;
    while k < n
        invariant
            n == a@.len(),
            n == b@.len(),
            n == a0.len(),
            k <= n,
            forall|q: int| 0 <= q < n ==> fits_i32(#[trigger] a0[q] + b@[q]),
            forall|q: int| k <= q < n ==> a@[q] == a0[q],
            forall|q: int| 0 <= q < k ==> a@[q] == #[trigger] sum_spec(a0, b@)[q],
        decreases n - k,
    {
        assert(fits_i32(a0[k as int] + b@[k as int]));
        let s = a[k] + b[k];
        a[k] = s;
        k += 1;
    }
    assert(a@ =~= sum_spec(a0, b@));
    Ok(())
}

/// Multiplies `a` by `b` element-wise in place. Refused, leaving `a` as it
/// was, when the lengths differ or some product does not fit in 32 bits.
pub fn multiply_arrays(a: &mut [i32], b: &[i32]) -> (r: Result<(), KernelError>)
    ensures
        old(a)@.len() != b@.len() <==> r == Err::<(), KernelError>(KernelError::InvalidArgument),
        (old(a)@.len() == b@.len() && exists|k: int|
            0 <= k < b@.len() && !fits_i32(#[trigger] old(a)@[k] * b@[k])) <==> r == Err::<
            (),
            KernelError,
        >(KernelError::Overflow),
        r is Ok <==> (old(a)@.len() == b@.len() && forall|k: int|
            0 <= k < b@.len() ==> fits_i32(#[trigger] old(a)@[k] * b@[k])),
        r is Ok ==> final(a)@ == mul_spec(old(a)@, b@),
        r is Err ==> final(a)@ == old(a)@,
{
    if a.len() != b.len() {
        return Err(KernelError::InvalidArgument);
    }
    let n = a.len();
    let mut k: usize = 0;
    while k < n
        invariant
            n == a@.len(),
            n == b@.len(),
            k <= n,
            forall|q: int| 0 <= q < k ==> fits_i32(#[trigger] a@[q] * b@[q]),
        decreases n - k,
    {
        proof {
            lemma_product_bound(a@[k as int], b@[k as int]);
        }
        let s = a[k] as i64 * b[k] as i64;
        if s < i32::MIN as i64 || s > i32::MAX as i64 {
            return Err(KernelError::Overflow);
        }
        k += 1;
    }
    let ghost a0 = a@;
    let mut k: usize = 0;
    while k < n
        invariant
            n == a@.len(),
            n == b@.len(),
            n == a0.len(),
            k <= n,
            forall|q: int| 0 <= q < n ==> fits_i32(#[trigger] a0[q] * b@[q]),
            forall|q: int| k <= q < n ==> a@[q] == a0[q],
            forall|q: int| 0 <= q < k ==> a@[q] == #[trigger] mul_spec(a0, b@)[q],
        decreases n - k,
    {
        assert(fits_i32(a0[k as int] * b@[k as int]));
        let s = a[k] * b[k];
        a[k] = s;
        k += 1;
    }
    assert(a@ =~= mul_spec(a0, b@));
    Ok(())
}

/// Adds the `rows` by `cols` matrix `b` into `a`.
pub fn matrix_add(a: &mut [i32], b: &[i32], rows: usize, cols: usize) -> (r: Result<
    (),
    KernelError,
>)
    ensures
        (old(a)@.len() != rows * cols || b@.len() != rows * cols) ==> r == Err::<(), KernelError>(
            KernelError::InvalidArgument,
        ),
        (old(a)@.len() == rows * cols && b@.len() == rows * cols) ==> {
            &&& (exists|k: int| 0 <= k < b@.len() && !fits_i32(#[trigger] old(a)@[k] + b@[k]))
                <==> r == Err::<(), KernelError>(KernelError::Overflow)
            &&& r is Ok ==> final(a)@ == sum_spec(old(a)@, b@)
        },
        r is Ok <==> (old(a)@.len() == rows * cols && b@.len() == rows * cols && forall|k: int|
            0 <= k < b@.len() ==> fits_i32(#[trigger] old(a)@[k] + b@[k])),
        r is Err ==> final(a)@ == old(a)@,
{
    let (alen, blen) = (a.len(), b.len());
    match rows.checked_mul(cols) {
        None => Err(KernelError::InvalidArgument),
        Some(size) => {
            if alen != size || blen != size {
                return Err(KernelError::InvalidArgument);
            }
            add_arrays(a, b)
        },
    }
}

proof fn lemma_cell_unique(r: int, c: int, i: int, j: int, n: int)
    requires
        0 <= c < n,
        0 <= j < n,
        0 <= r,
        0 <= i,
        r * n + c == i * n + j,
    ensures
        r == i,
        c == j,
{
    assert(r == i) by (nonlinear_arith)
        requires
            0 <= c < n,
            0 <= j < n,
            r * n + c == i * n + j,
    ;
}

/// Transposes the row-major `n` by `n` matrix `a` in place.
pub fn matrix_transpose_square(a: &mut [i32], n: usize) -> (r: Result<(), KernelError>)
    ensures
        r is Ok <==> old(a)@.len() == n * n,
        r is Ok ==> forall|i: int, j: int|
            0 <= i < n && 0 <= j < n ==> #[trigger] final(a)@[i * n + j] == old(a)@[j * n + i],
        r is Err ==> r == Err::<(), KernelError>(KernelError::InvalidArgument) && final(a)@
            == old(a)@,
{
    let len = a.len();
    match n.checked_mul(n) {
        None => {
            return Err(KernelError::InvalidArgument);
        },
        Some(nn) => {
            if nn != len {
                return Err(KernelError::InvalidArgument);
            }
        },
    }
    let ghost s = a@;
    let mut i: usize = 0;
    while i < n
        invariant
            i <= n,
            a@.len() == n * n,
            s.len() == n * n,
            n * n <= usize::MAX,
            forall|r: int, c: int|
                0 <= r < n && 0 <= c < n ==> #[trigger] a@[r * n + c] == if r < i || c < i {
                    s[c * n + r]
                } else {
                    s[r * n + c]
                },
        decreases n - i,
    {
        let mut j = i + 1;
        while j < n
            invariant
                i < n,
                i + 1 <= j <= n,
                a@.len() == n * n,
                s.len() == n * n,
                n * n <= usize::MAX,
                forall|r: int, c: int|
                    0 <= r < n && 0 <= c < n ==> #[trigger] a@[r * n + c] == if r < i || c < i || (
                    r == i && i < c < j) || (c == i && i < r < j) {
                        s[c * n + r]
                    } else {
                        s[r * n + c]
                    },
            decreases n - j,
        {
            proof {
                lemma_index(i as int, j as int, n as int, n as int);
                lemma_index(j as int, i as int, n as int, n as int);
            }
            let x = a[i * n + j];
            let y = a[j * n + i];
            let ghost before = a@;
            a[i * n + j] = y;
            a[j * n + i] = x;
            proof {
                assert forall|r: int, c: int| 0 <= r < n && 0 <= c < n implies #[trigger] a@[r * n
                    + c] == if r < i || c < i || (r == i && i < c < j + 1) || (c == i && i < r < j
                    + 1) {
                    s[c * n + r]
                } else {
                    s[r * n + c]
                } by {
                    lemma_index(r, c, n as int, n as int);
                    if r * n + c == i * n + j {
                        lemma_cell_unique(r, c, i as int, j as int, n as int);
                    } else if r * n + c == j * n + i {
                        lemma_cell_unique(r, c, j as int, i as int, n as int);
                    } else {
                        assert(a@[r * n + c] == before[r * n + c]);
                    }
                }
            }
            j += 1;
        }
        i += 1;
    }
    Ok(())
}

} // verus!
