use vstd::prelude::*;

verus! {

/// Greatest common divisor by Euclid's recurrence; `gcd_spec(a, 0) == a`.
pub open spec fn gcd_spec(a: nat, b: nat) -> nat
    decreases b,
{
    if b == 0 {
        a
    } else {
        gcd_spec(b, a % b)
    }
}

proof fn lemma_gcd_positive(a: nat, b: nat)
    requires
        a > 0 || b > 0,
    ensures
        gcd_spec(a, b) > 0,
    decreases b,
{
    if b > 0 {
        lemma_gcd_positive(b, a % b);
    }
}

/// Greatest common divisor.
pub fn gcd(a: u64, b: u64) -> (r: u64)
    ensures
        r == gcd_spec(a as nat, b as nat),
{
    let ghost target = gcd_spec(a as nat, b as nat);
    let mut x = a;
    let mut y = b;
    while y != 0
        invariant
            gcd_spec(x as nat, y as nat) == target,
        decreases y,
    {
        let t = y;
        y = x % y;
        x = t;
    }
    x
}

/// Least common multiple, 0 when either argument is 0.
pub open spec fn lcm_spec(a: nat, b: nat) -> nat {
    if a == 0 || b == 0 {
        0
    } else {
        (a / gcd_spec(a, b)) * b
    }
}

/// Least common multiple; the result must fit in 64 bits.
pub fn lcm(a: u64, b: u64) -> (r: u64)
    requires
        lcm_spec(a as nat, b as nat) <= u64::MAX,
    ensures
        r == lcm_spec(a as nat, b as nat),
{
    if a == 0 || b == 0 {
        return 0;
    }
    proof {
        lemma_gcd_positive(a as nat, b as nat);
    }
    let g = gcd(a, b);
    (a / g) * b
}

/// Consecutive Fibonacci numbers `(fib(n), fib(n + 1))`, from `fib(0) == 0`
/// and `fib(1) == 1`.
pub open spec fn fib_pair(n: nat) -> (nat, nat)
    decreases n,
{
    if n == 0 {
        (0, 1)
    } else {
        (fib_pair((n - 1) as nat).1, fib_pair((n - 1) as nat).0 + fib_pair((n - 1) as nat).1)
    }
}

pub open spec fn fib(n: nat) -> nat {
    fib_pair(n).0
}

proof fn lemma_fib_monotone(a: nat, b: nat)
    requires
        a <= b,
    ensures
        fib(a) <= fib(b),
        fib_pair(a).1 <= fib_pair(b).1,
    decreases b - a,
{
    if a < b {
        lemma_fib_monotone(a, (b - 1) as nat);
    }
}

/// The `n`-th Fibonacci number, or `None` when it does not fit in 64 bits
/// (from `n == 94` on).
pub fn fibonacci(n: u32) -> (r: Option<u64>)
    ensures
        r is Some <==> fib(n as nat) <= u64::MAX,
        r is Some ==> r->Some_0 == fib(n as nat),
{
    if n == 0 {
        return Some(0);
    }
    let mut a: u64 = 0;
    let mut b: u64 = 1;
    let mut k: u32 = 1;
    assert(fib(1) == 1) by {
        reveal_with_fuel(fib_pair, 2);
    }
    while k < n
        invariant
            1 <= k <= n,
            a == fib((k - 1) as nat),
            b == fib(k as nat),
        decreases n - k,
    {
        proof {
            assert(fib_pair(k as nat) == (fib_pair((k - 1) as nat).1, fib_pair((k - 1) as nat).0
                + fib_pair((k - 1) as nat).1));
            assert(fib((k + 1) as nat) == fib(k as nat) + fib((k - 1) as nat));
        }
        match a.checked_add(b) {
            Some(t) => {
                a = b;
                b = t;
            },
            None => {
                proof {
                    lemma_fib_monotone((k + 1) as nat, n as nat);
                }
                return None;
            },
        }
        k += 1;
    }
    Some(b)
}

/// `n` is at least 2 and has no divisor strictly between 1 and itself.
pub open spec fn prime(n: nat) -> bool {
    n >= 2 && forall|d: nat| 2 <= d < n ==> #[trigger] (n % d) != 0
}

/// Primality by trial division up to the square root.
pub fn is_prime(n: u64) -> (r: bool)
    ensures
        r == prime(n as nat),
{
    if n < 2 {
        return false;
    }
    let mut i: u64 = 2;
    while i <= n / i
        invariant
            2 <= i <= n,
            forall|d: nat| 2 <= d < i ==> #[trigger] ((n as nat) % d) != 0,
        decreases n - i,
    {
        if n % i == 0 {
            assert(!prime(n as nat)) by {
                assert(i < n) by (nonlinear_arith)
                    requires
                        2 <= i,
                        i <= n / i,
                ;
                assert((n as nat) % (i as nat) == 0);
            }
            return false;
        }
        assert(i + 1 <= n) by (nonlinear_arith)
            requires
                2 <= i,
                i <= n / i,
        ;
        i += 1;
    }
    assert forall|d: nat| 2 <= d < n implies #[trigger] ((n as nat) % d) != 0 by {
        if d >= i && (n as nat) % d == 0 {
            let e = (n as nat) / d;
            vstd::arithmetic::div_mod::lemma_fundamental_div_mod(n as int, d as int);
            vstd::arithmetic::div_mod::lemma_div_is_ordered_by_denominator(n as int, i as int, d as int);
            assert(n == d * e);
            assert(e >= 2) by (nonlinear_arith)
                requires
                    n == d * e,
                    d < n,
                    d >= 2,
            ;
            assert(e < i);
            vstd::arithmetic::div_mod::lemma_mod_multiples_basic(d as int, e as int);
            assert((n as int) % (e as int) == 0);
        }
    }
    true
}

/// All primes up to `n`, in increasing order.
pub fn primes_up_to(n: u32) -> (r: Vec<u32>)
    ensures
        forall|a: int, b: int| 0 <= a < b < r@.len() ==> #[trigger] r@[a] < #[trigger] r@[b],
        forall|a: int| 0 <= a < r@.len() ==> #[trigger] r@[a] <= n && prime(r@[a] as nat),
        forall|p: nat| p <= n && #[trigger] prime(p) ==> r@.contains(p as u32),
{
    let mut r: Vec<u32> = Vec::new();
    let mut k: u32 = 0;
    while k < n
        invariant
            k <= n,
            forall|a: int, b: int| 0 <= a < b < r@.len() ==> #[trigger] r@[a] < #[trigger] r@[b],
            forall|a: int| 0 <= a < r@.len() ==> #[trigger] r@[a] < k + 1 && r@[a] <= n && prime(
                r@[a] as nat,
            ),
            forall|p: nat| p <= k && #[trigger] prime(p) ==> r@.contains(p as u32),
        decreases n - k,
    {
        k += 1;
        if is_prime(k as u64) {
            let ghost r0 = r@;
            r.push(k);
            proof {
                assert forall|p: nat| p <= k && #[trigger] prime(p) implies r@.contains(p as u32) by {
                    if p < k {
                        let q = choose|q: int| 0 <= q < r0.len() && r0[q] == p as u32;
                        assert(r@[q] == p as u32);
                    } else {
                        assert(r@[r@.len() - 1] == k);
                    }
                }
            }
        }
    }
    r
}

} // verus!
