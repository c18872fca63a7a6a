//! Primes, multiplicities and products of prime powers.

use vstd::arithmetic::div_mod::{
    lemma_div_decreases, lemma_div_pos_is_pos, lemma_fundamental_div_mod, lemma_mod_bound,
    lemma_mod_decreases, lemma_mod_multiples_basic, lemma_mul_mod_noop_left, lemma_small_mod,
};
use vstd::arithmetic::power::{lemma_pow0, lemma_pow1, lemma_pow_adds, lemma_pow_positive, pow};
use vstd::prelude::*;

verus! {

/// `n` is at least 2 and no number between 1 and `n` divides it.
pub open spec fn is_prime(n: int) -> bool {
    n >= 2 && forall|d: int| 2 <= d < n ==> #[trigger] (n % d) != 0
}

/// How many primes lie strictly below `n`.
pub open spec fn primes_below(n: int) -> nat
    decreases n,
{
    if n <= 0 {
        0
    } else if is_prime(n - 1) {
        primes_below(n - 1) + 1
    } else {
        primes_below(n - 1)
    }
}

/// The primes that are not above `radix`, in increasing order.
pub open spec fn prime_basis(radix: int) -> Seq<int>
    decreases radix,
{
    if radix < 2 {
        Seq::empty()
    } else if is_prime(radix) {
        prime_basis(radix - 1).push(radix)
    } else {
        prime_basis(radix - 1)
    }
}

/// How often `p` divides `n`.
pub open spec fn multiplicity(p: int, n: int) -> nat
    decreases n,
    via multiplicity_decreases
{
    if p >= 2 && n >= 1 && n % p == 0 {
        1 + multiplicity(p, n / p)
    } else {
        0
    }
}

#[via_fn]
proof fn multiplicity_decreases(p: int, n: int) {
    if p >= 2 && n >= 1 && n % p == 0 {
        lemma_div_decreases(n, p);
        lemma_div_pos_is_pos(n, p);
    }
}

/// The exponent vector of `v` over the basis of `radix`: for each prime of the
/// basis, how often it divides `v`.
pub open spec fn factorization(v: int, radix: int) -> Seq<nat> {
    Seq::new(prime_basis(radix).len(), |i: int| multiplicity(prime_basis(radix)[i], v))
}

/// The product of the first `k` primes, each raised to its exponent.
pub open spec fn power_product(primes: Seq<int>, e: Seq<nat>, k: nat) -> int
    recommends
        k <= primes.len(),
        k <= e.len(),
    decreases k,
{
    if k == 0 {
        1
    } else {
        power_product(primes, e, (k - 1) as nat) * pow(primes[k - 1], e[k - 1])
    }
}

/// The number that an exponent vector over the basis of `radix` stands for.
pub open spec fn candidate_value(e: Seq<nat>, radix: int) -> int {
    power_product(prime_basis(radix), e, prime_basis(radix).len())
}

/// The least divisor of `n` that is at least `d`.
pub open spec fn least_divisor_from(n: int, d: int) -> int
    decreases n - d,
{
    if d >= n || (d >= 1 && n % d == 0) {
        if d >= n { n } else { d }
    } else {
        least_divisor_from(n, d + 1)
    }
}

/// The least prime that divides `n`, for `n` from 2 on.
pub open spec fn least_prime_factor(n: int) -> int {
    least_divisor_from(n, 2)
}

/// Divisibility is transitive.
pub proof fn lemma_divides_transitive(a: int, b: int, c: int)
    requires
        a >= 1,
        b >= 1,
        b % a == 0,
        c % b == 0,
    ensures
        c % a == 0,
{
    lemma_fundamental_div_mod(b, a);
    lemma_fundamental_div_mod(c, b);
    let x = b / a;
    let y = c / b;
    assert(c == (x * y) * a) by (nonlinear_arith)
        requires
            b == a * x,
            c == b * y,
    ;
    lemma_mod_multiples_basic(x * y, a);
}

proof fn lemma_least_divisor_from(n: int, d: int)
    requires
        2 <= d <= n,
        forall|e: int| 2 <= e < d ==> #[trigger] (n % e) != 0,
    ensures
        d <= least_divisor_from(n, d) <= n,
        n % least_divisor_from(n, d) == 0,
        forall|e: int| 2 <= e < least_divisor_from(n, d) ==> #[trigger] (n % e) != 0,
    decreases n - d,
{
    if d >= n {
        lemma_mod_multiples_basic(1, n);
    } else if n % d == 0 {
    } else {
        lemma_least_divisor_from(n, d + 1);
    }
}

/// Every number from 2 on has a least prime factor.
pub proof fn lemma_least_prime_factor(n: int)
    requires
        n >= 2,
    ensures
        is_prime(least_prime_factor(n)),
        least_prime_factor(n) <= n,
        n % least_prime_factor(n) == 0,
{
    lemma_least_divisor_from(n, 2);
    let q = least_prime_factor(n);
    assert forall|d: int| 2 <= d < q implies #[trigger] (q % d) != 0 by {
        if q % d == 0 {
            lemma_divides_transitive(d, q, n);
            assert(n % d != 0);
        }
    }
}

/// A prime that divides a product divides one of the factors.
pub proof fn lemma_prime_divides_product(p: int, a: int, b: int)
    requires
        is_prime(p),
        a >= 0,
        b >= 0,
        (a * b) % p == 0,
    ensures
        a % p == 0 || b % p == 0,
    decreases a,
{
    let a1 = a % p;
    if a1 != 0 {
        lemma_mul_mod_noop_left(a, b, p);
        assert((a1 * b) % p == 0);
        if a1 == 1 {
            assert(a1 * b == b) by (nonlinear_arith)
                requires
                    a1 == 1,
            ;
        } else {
            let r = p % a1;
            let q = p / a1;
            assert(r != 0);
            lemma_fundamental_div_mod(p, a1);
            lemma_fundamental_div_mod(a1 * b, p);
            let c = (a1 * b) / p;
            assert(r * b == (b - q * c) * p) by (nonlinear_arith)
                requires
                    p == a1 * q + r,
                    a1 * b == p * c,
            ;
            lemma_mod_multiples_basic(b - q * c, p);
            lemma_mod_bound(p, a1);
            lemma_mod_bound(a, p);
            lemma_mod_decreases(a as nat, p as nat);
            lemma_small_mod(r as nat, p as nat);
            lemma_prime_divides_product(p, r, b);
        }
    }
}

/// A factor `p` raises the multiplicity of `p` by one.
pub proof fn lemma_multiplicity_same(p: int, m: int)
    requires
        p >= 2,
        m >= 1,
    ensures
        multiplicity(p, m * p) == 1 + multiplicity(p, m),
{
    lemma_mod_multiples_basic(m, p);
    assert((m * p) / p == m) by (nonlinear_arith)
        requires
            p >= 2,
    ;
    assert(m * p >= 1) by (nonlinear_arith)
        requires
            p >= 2,
            m >= 1,
    ;
}

/// A prime factor other than `p` leaves the multiplicity of `p` as it is.
pub proof fn lemma_multiplicity_other(p: int, q: int, m: int)
    requires
        is_prime(p),
        is_prime(q),
        p != q,
        m >= 1,
    ensures
        multiplicity(p, m * q) == multiplicity(p, m),
    decreases m,
{
    assert(m * q >= 1) by (nonlinear_arith)
        requires
            q >= 2,
            m >= 1,
    ;
    assert(q % p != 0) by {
        if p < q {
            assert(q % p != 0);
        } else {
            lemma_small_mod(q as nat, p as nat);
        }
    }
    if (m * q) % p == 0 {
        lemma_prime_divides_product(p, m, q);
        assert(m % p == 0);
        lemma_fundamental_div_mod(m, p);
        let w = m / p;
        assert(w >= 1 && w < m) by (nonlinear_arith)
            requires
                m == p * w,
                m >= 1,
                p >= 2,
        ;
        assert(m * q == (w * q) * p) by (nonlinear_arith)
            requires
                m == p * w,
        ;
        lemma_multiplicity_same(p, w * q);
        assert(w * q >= 1) by (nonlinear_arith)
            requires
                q >= 2,
                w >= 1,
        ;
        lemma_multiplicity_other(p, q, w);
    } else {
        if m % p == 0 {
            lemma_fundamental_div_mod(m, p);
            let w = m / p;
            assert(m * q == (w * q) * p) by (nonlinear_arith)
                requires
                    m == p * w,
            ;
            lemma_mod_multiples_basic(w * q, p);
        }
    }
}

/// A number is divided by any `p` fewer times than it counts.
pub proof fn lemma_multiplicity_bound(p: int, n: int)
    requires
        n >= 1,
    ensures
        multiplicity(p, n) < n,
    decreases n,
{
    if p >= 2 && n % p == 0 {
        lemma_fundamental_div_mod(n, p);
        let w = n / p;
        assert(w >= 1 && 2 * w <= n) by (nonlinear_arith)
            requires
                n == p * w,
                n >= 1,
                p >= 2,
        ;
        lemma_multiplicity_bound(p, w);
    }
}

/// The count of primes below a bound grows with the bound.
pub proof fn lemma_primes_below_monotone(a: int, b: int)
    requires
        a <= b,
    ensures
        primes_below(a) <= primes_below(b),
    decreases b - a,
{
    if a < b {
        lemma_primes_below_monotone(a, b - 1);
    }
}

/// Two primes with equally many primes below them are one prime.
pub proof fn lemma_prime_index_unique(p: int, q: int)
    requires
        is_prime(p),
        is_prime(q),
        primes_below(p) == primes_below(q),
    ensures
        p == q,
{
    if p < q {
        lemma_primes_below_monotone(p + 1, q);
    } else if q < p {
        lemma_primes_below_monotone(q + 1, p);
    }
}

/// The basis of `radix` lists, in order, exactly the primes up to `radix`: its
/// entry `j` is the prime with `j` primes below it.
pub proof fn lemma_prime_basis(radix: int)
    ensures
        prime_basis(radix).len() == primes_below(radix + 1),
        forall|j: int|
            0 <= j < prime_basis(radix).len() ==> is_prime(#[trigger] prime_basis(radix)[j])
                && prime_basis(radix)[j] <= radix && primes_below(prime_basis(radix)[j]) == j,
    decreases radix,
{
    if radix >= 2 {
        lemma_prime_basis(radix - 1);
    } else {
        lemma_primes_below_monotone(radix + 1, 2);
        assert(primes_below(2) == 0) by {
            reveal_with_fuel(primes_below, 3);
        }
    }
}

/// Every prime up to `radix` stands in the basis of `radix`, at the index
/// that counts the primes below it.
pub proof fn lemma_prime_in_basis(p: int, radix: int)
    requires
        is_prime(p),
        p <= radix,
    ensures
        primes_below(p) < prime_basis(radix).len(),
        prime_basis(radix)[primes_below(p) as int] == p,
{
    lemma_prime_basis(radix);
    lemma_primes_below_monotone(p + 1, radix + 1);
    let j = primes_below(p) as int;
    lemma_prime_index_unique(prime_basis(radix)[j], p);
}

/// The entries of a basis are distinct.
pub proof fn lemma_prime_basis_distinct(radix: int, i: int, j: int)
    requires
        0 <= i < prime_basis(radix).len(),
        0 <= j < prime_basis(radix).len(),
        i != j,
    ensures
        prime_basis(radix)[i] != prime_basis(radix)[j],
{
    lemma_prime_basis(radix);
}

/// A product of prime powers is positive.
pub proof fn lemma_power_product_positive(primes: Seq<int>, e: Seq<nat>, k: nat)
    requires
        k <= primes.len(),
        k <= e.len(),
        forall|i: int| 0 <= i < k ==> primes[i] >= 1,
    ensures
        power_product(primes, e, k) >= 1,
    decreases k,
{
    if k > 0 {
        lemma_power_product_positive(primes, e, (k - 1) as nat);
        lemma_pow_positive(primes[k - 1], e[k - 1]);
        let a = power_product(primes, e, (k - 1) as nat);
        let b = pow(primes[k - 1], e[k - 1]);
        assert(a * b >= 1) by (nonlinear_arith)
            requires
                a >= 1,
                b >= 1,
        ;
    }
}

/// The product over the first `k` primes looks at the first `k` exponents only.
pub proof fn lemma_power_product_agrees(primes: Seq<int>, e: Seq<nat>, f: Seq<nat>, k: nat)
    requires
        k <= e.len(),
        k <= f.len(),
        forall|i: int| 0 <= i < k ==> e[i] == f[i],
    ensures
        power_product(primes, e, k) == power_product(primes, f, k),
    decreases k,
{
    if k > 0 {
        lemma_power_product_agrees(primes, e, f, (k - 1) as nat);
    }
}

/// Adding exponent vectors multiplies what they stand for.
pub proof fn lemma_power_product_plus(primes: Seq<int>, e: Seq<nat>, f: Seq<nat>, k: nat)
    requires
        k <= primes.len(),
        k <= e.len(),
        e.len() == f.len(),
    ensures
        power_product(primes, crate::vectors::plus(e, f), k) == power_product(primes, e, k)
            * power_product(primes, f, k),
    decreases k,
{
    if k > 0 {
        let g = crate::vectors::plus(e, f);
        lemma_power_product_plus(primes, e, f, (k - 1) as nat);
        lemma_pow_adds(primes[k - 1], e[k - 1], f[k - 1]);
        let a = power_product(primes, e, (k - 1) as nat);
        let b = power_product(primes, f, (k - 1) as nat);
        let x = pow(primes[k - 1], e[k - 1]);
        let y = pow(primes[k - 1], f[k - 1]);
        assert(g[k - 1] == e[k - 1] + f[k - 1]);
        assert((a * b) * (x * y) == (a * x) * (b * y)) by (nonlinear_arith);
    } else {
        assert(1int * 1int == 1int);
    }
}

/// One more unit in slot `i` multiplies the product by the prime of that slot.
pub proof fn lemma_power_product_raise(primes: Seq<int>, e: Seq<nat>, i: int, k: nat)
    requires
        k <= primes.len(),
        k <= e.len(),
        0 <= i < k,
    ensures
        power_product(primes, e.update(i, e[i] + 1), k) == power_product(primes, e, k) * primes[i],
    decreases k,
{
    let f = e.update(i, e[i] + 1);
    let a = power_product(primes, e, (k - 1) as nat);
    if i == k - 1 {
        lemma_power_product_agrees(primes, e, f, (k - 1) as nat);
        lemma_pow_adds(primes[i], e[i], 1);
        lemma_pow1(primes[i]);
        let x = pow(primes[i], e[i]);
        let p = primes[i];
        assert(a * (x * p) == (a * x) * p) by (nonlinear_arith);
    } else {
        lemma_power_product_raise(primes, e, i, (k - 1) as nat);
        let x = pow(primes[k - 1], e[k - 1]);
        let p = primes[i];
        assert((a * p) * x == (a * x) * p) by (nonlinear_arith);
    }
}

/// The zero vector stands for 1.
pub proof fn lemma_power_product_zeros(primes: Seq<int>, e: Seq<nat>, k: nat)
    requires
        k <= e.len(),
        forall|i: int| 0 <= i < k ==> e[i] == 0,
    ensures
        power_product(primes, e, k) == 1,
    decreases k,
{
    if k > 0 {
        lemma_power_product_zeros(primes, e, (k - 1) as nat);
        lemma_pow0(primes[k - 1]);
    }
}

/// The factorization of a number within the radix stands for that number.
pub proof fn lemma_factorization_value(v: int, radix: int)
    requires
        1 <= v <= radix,
    ensures
        candidate_value(factorization(v, radix), radix) == v,
    decreases v,
{
    let primes = prime_basis(radix);
    let k = primes.len();
    let e = factorization(v, radix);
    lemma_prime_basis(radix);
    if v == 1 {
        assert forall|i: int| 0 <= i < k implies e[i] == 0 by {
            lemma_small_mod(1, primes[i] as nat);
        }
        lemma_power_product_zeros(primes, e, k);
    } else {
        lemma_least_prime_factor(v);
        let q = least_prime_factor(v);
        lemma_prime_in_basis(q, radix);
        let i = primes_below(q) as int;
        lemma_fundamental_div_mod(v, q);
        let w = v / q;
        assert(1 <= w < v) by (nonlinear_arith)
            requires
                v == q * w,
                v >= 2,
                q >= 2,
        ;
        assert(v == w * q) by (nonlinear_arith)
            requires
                v == q * w,
        ;
        lemma_factorization_value(w, radix);
        let f = factorization(w, radix);
        assert forall|j: int| 0 <= j < k implies e[j] == f.update(i, f[i] + 1)[j] by {
            if j == i {
                lemma_multiplicity_same(q, w);
            } else {
                lemma_prime_basis_distinct(radix, i, j);
                lemma_multiplicity_other(primes[j], q, w);
            }
        }
        assert(e =~= f.update(i, f[i] + 1));
        lemma_power_product_raise(primes, f, i, k);
    }
}

} // verus!
