//! Elementary number theory over unsigned integers: factors, factor
//! pairs, multiples in a range, primality, compositeness, and prime
//! factorization.
//!
//! Result collections are `Vec`s that are strictly increasing (so they
//! are duplicate-free and compare by content); the contracts pin the
//! exact membership of each result.

use vstd::prelude::*;

verus! {

broadcast use vstd::seq_lib::group_seq_properties;

/// The closed set of number-theory commands a front end can ask for,
/// each carrying the arguments of the library call it names and
/// whether raw output was requested.
pub enum Prealgebra {
    FactorPairs { n: u32, raw: bool },
    Factors { n: u32, raw: bool },
    MultiplesInRange { n: u32, upper_bound: u32, raw: bool },
    PrimesInRange { lower_bound: u32, upper_bound: u32, raw: bool },
    PrimeFactorization { n: u32, raw: bool },
    IsComposite { n: u32, raw: bool },
    IsPrime { n: u32, raw: bool },
    IsFactor { n: u32, m: u32, raw: bool },
    IsMultiple { n: u32, m: u32, raw: bool },
}

/// `d` divides `n` evenly (`d` is expected to be nonzero).
pub open spec fn divides(d: int, n: int) -> bool
    recommends
        d != 0,
{
    n % d == 0
}

/// A prime is an integer greater than 1 with no divisor strictly
/// between 1 and itself.
pub open spec fn is_prime_spec(n: int) -> bool {
    n > 1 && forall|d: int| 2 <= d < n ==> !divides(d, n)
}

/// A composite has some divisor strictly between 1 and itself.
pub open spec fn is_composite_spec(n: int) -> bool {
    exists|d: int| 1 < d < n && divides(d, n)
}

/// The elements of `s` grow strictly from left to right, so `s` holds
/// no element twice.
pub open spec fn strictly_increasing(s: Seq<u32>) -> bool {
    forall|i: int, j: int| 0 <= i < j < s.len() ==> s[i] < s[j]
}

/// The first components of the pairs in `s` grow strictly from left to
/// right, so no first component repeats.
pub open spec fn firsts_strictly_increasing(s: Seq<(u32, u32)>) -> bool {
    forall|i: int, j: int| 0 <= i < j < s.len() ==> (#[trigger] s[i]).0 < (#[trigger] s[j]).0
}

/// The factors of `n`, in increasing order: exactly those `x` with
/// `1 <= x <= n` that divide `n` evenly.
pub fn get_factors(n: u32) -> (r: Vec<u32>)
    requires
        n >= 1,
    ensures
        strictly_increasing(r@),
        forall|x: u32| #[trigger] r@.contains(x) <==> (1 <= x <= n && divides(x as int, n as int)),
{
    let mut r: Vec<u32> = Vec::new();
    let end: u64 = n as u64 + 1;
    for num64 in 1..end
        invariant
            end == n as u64 + 1,
            strictly_increasing(r@),
            forall|j: int| 0 <= j < r@.len() ==> (#[trigger] r@[j] as u64) < num64,
            forall|x: u32| #[trigger] r@.contains(x) <==> (1 <= x && (x as u64) < num64
                && divides(x as int, n as int)),
    {
        let num: u32 = num64 as u32;
        if n % num == 0 {
            assert(divides(num as int, n as int));
            r.push(num);
        }
    }
    r
}

/// The factor pairs of `n`, ordered by their smaller member: exactly
/// the pairs `(a, n / a)` where `a` divides `n` evenly and
/// `a <= n / a`, so each unordered pair appears once.
pub fn get_factor_pairs(n: u32) -> (r: Vec<(u32, u32)>)
    requires
        n >= 1,
    ensures
        firsts_strictly_increasing(r@),
        forall|p: (u32, u32)| #[trigger] r@.contains(p) <==> (1 <= p.0
            && p.0 as int * p.0 as int <= n as int && divides(p.0 as int, n as int)
            && p.1 == n / p.0),
        forall|i: int| 0 <= i < r@.len() ==> (#[trigger] r@[i]).0 as int * r@[i].1 as int
            == n as int && r@[i].0 <= r@[i].1,
{
    let mut r: Vec<(u32, u32)> = Vec::new();
    let mut num: u32 = 1;
    while num <= n / num
        invariant
            1 <= num,
            num <= 0x10000,
            firsts_strictly_increasing(r@),
            forall|j: int| 0 <= j < r@.len() ==> (#[trigger] r@[j]).0 < num,
            forall|p: (u32, u32)| #[trigger] r@.contains(p) <==> (1 <= p.0 && p.0 < num
                && p.0 as int * p.0 as int <= n as int && divides(p.0 as int, n as int)
                && p.1 == n / p.0),
            forall|i: int| 0 <= i < r@.len() ==> (#[trigger] r@[i]).0 as int * r@[i].1 as int
                == n as int && r@[i].0 <= r@[i].1,
        decreases 0x10001 - num as int,
    {
        proof {
            vstd::arithmetic::div_mod::lemma_fundamental_div_mod(n as int, num as int);
            assert(num as int * num as int <= n as int) by (nonlinear_arith)
                requires
                    n as int / num as int >= num as int,
                    n as int == (num as int) * (n as int / num as int) + n as int % num as int,
                    n as int % num as int >= 0,
                    num >= 1,
            ;
        }
        if n % num == 0 {
            let quotient: u32 = n / num;
            proof {
                assert(divides(num as int, n as int));
                vstd::arithmetic::div_mod::lemma_fundamental_div_mod(n as int, num as int);
                assert(num as int * quotient as int == n as int) by (nonlinear_arith)
                    requires
                        n as int == num as int * (n as int / num as int) + n as int % num as int,
                        quotient as int == n as int / num as int,
                        n as int % num as int == 0,
                ;
                assert(num <= quotient) by (nonlinear_arith)
                    requires
                        num as int * num as int <= n as int,
                        num as int * quotient as int == n as int,
                        num >= 1,
                ;
            }
            r.push((num, quotient));
        }
        proof {
            assert(num < 0x10000) by (nonlinear_arith)
                requires
                    num as int * num as int <= n as int,
                    n <= 0xffff_ffffu32,
                    num >= 1,
            ;
        }
        num = num + 1;
    }
    proof {
        vstd::arithmetic::div_mod::lemma_fundamental_div_mod(n as int, num as int);
        assert(num as int * num as int > n as int) by (nonlinear_arith)
            requires
                (n as int / num as int) < num as int,
                n as int == (num as int) * (n as int / num as int) + n as int % num as int,
                (n as int % num as int) < num as int,
                num >= 1,
        ;
        assert forall|p: (u32, u32)| (1 <= p.0 && p.0 as int * p.0 as int <= n as int
            && divides(p.0 as int, n as int) && p.1 == n / p.0) implies p.0 < num by {
            assert(p.0 < num) by (nonlinear_arith)
                requires
                    p.0 as int * p.0 as int <= n as int,
                    num as int * num as int > n as int,
                    p.0 >= 1,
                    num >= 1,
            ;
        }
    }
    r
}

/// The multiples of `n` that lie in `[n, end]`, in increasing order:
/// exactly those `x` with `n <= x <= end` that `n` divides evenly.
/// When `end < n` the result is empty.
pub fn get_multiples_in_range(n: u32, end: u32) -> (r: Vec<u32>)
    requires
        n >= 1,
    ensures
        strictly_increasing(r@),
        forall|x: u32| #[trigger] r@.contains(x) <==> (n <= x <= end && divides(
            n as int,
            x as int,
        )),
{
    let mut r: Vec<u32> = Vec::new();
    let mut m: u64 = n as u64;
    proof {
        assert((r@.len() + 1) * (n as int) == n as int) by (nonlinear_arith)
            requires
                r@.len() == 0,
        ;
    }
    while m <= end as u64
        invariant
            n >= 1,
            m == (r@.len() + 1) * (n as int),
            m <= end as u64 + n as u64,
            forall|i: int| 0 <= i < r@.len() ==> #[trigger] r@[i] as int == (i + 1) * (n as int)
                && r@[i] <= end,
        decreases end as int + n as int - m,
    {
        let x: u32 = m as u32;
        let ghost l = r@.len() as int;
        r.push(x);
        m = m + n as u64;
        proof {
            assert((l + 2) * (n as int) == (l + 1) * (n as int) + n as int) by (nonlinear_arith);
        }
    }
    proof {
        assert forall|i: int, j: int| 0 <= i < j < r@.len() implies r@[i] < r@[j] by {
            assert(((i + 1) * (n as int)) < ((j + 1) * (n as int))) by (nonlinear_arith)
                requires
                    i < j,
                    n >= 1,
            ;
        }
        assert forall|x: u32| #[trigger] r@.contains(x) implies (n <= x <= end && divides(
            n as int,
            x as int,
        )) by {
            let i = choose|i: int| 0 <= i < r@.len() && r@[i] == x;
            assert(x as int == (i + 1) * n as int);
            assert(x as int % n as int == 0) by (nonlinear_arith)
                requires
                    x as int == (i + 1) * n as int,
                    n >= 1,
                    i >= 0,
            ;
            assert(x as int >= n as int) by (nonlinear_arith)
                requires
                    x as int == (i + 1) * n as int,
                    n >= 1,
                    i >= 0,
            ;
        }
        assert forall|x: u32| (n <= x <= end && divides(n as int, x as int))
            implies r@.contains(x) by {
            let q = x as int / n as int;
            vstd::arithmetic::div_mod::lemma_fundamental_div_mod(x as int, n as int);
            assert(x as int == q * n as int);
            assert(q >= 1) by (nonlinear_arith)
                requires
                    x as int == q * n as int,
                    x as int >= n as int,
                    n >= 1,
            ;
            assert(q <= r@.len()) by (nonlinear_arith)
                requires
                    x as int == q * n as int,
                    x as int <= end as int,
                    m > end as int,
                    m == (r@.len() + 1) * n as int,
                    n >= 1,
            ;
            assert(r@[q - 1] == x);
        }
    }
    r
}

/// The primes in `[start, end]`, in increasing order.
pub fn get_primes_in_range(start: u32, end: u32) -> (r: Vec<u32>)
    ensures
        strictly_increasing(r@),
        forall|x: u32| #[trigger] r@.contains(x) <==> (start <= x <= end && is_prime_spec(
            x as int,
        )),
{
    let mut r: Vec<u32> = Vec::new();
    if end < start {
        return r;
    }
    let stop: u64 = end as u64 + 1;
    for num64 in (start as u64)..stop
        invariant
            stop == end as u64 + 1,
            strictly_increasing(r@),
            forall|j: int| 0 <= j < r@.len() ==> (#[trigger] r@[j] as u64) < num64,
            forall|x: u32| #[trigger] r@.contains(x) <==> (start as u64 <= x as u64 && (x as u64)
                < num64 && is_prime_spec(x as int)),
    {
        let num: u32 = num64 as u32;
        if is_prime(num) {
            r.push(num);
        }
    }
    r
}

/// Checks whether `x` divides `y` evenly.
pub fn is_factor(x: u32, y: u32) -> (r: bool)
    requires
        x >= 1,
    ensures
        r == divides(x as int, y as int),
{
    y % x == 0
}

/// Checks whether `x` is a multiple of `y`.
pub fn is_multiple(x: u32, y: u32) -> (r: bool)
    requires
        y >= 1,
    ensures
        r == divides(y as int, x as int),
{
    x % y == 0
}

/// Trial division: `n` is prime iff no integer in `[2, n)` divides it.
/// Values below 2 (including 0 and 1) are not prime.
pub fn is_prime(n: u32) -> (r: bool)
    ensures
        r == is_prime_spec(n as int),
{
    if n < 2 {
        return false;
    }
    for num in 2..n
        invariant
            forall|d: int| 2 <= d < num ==> !divides(d, n as int),
    {
        if n % num == 0 {
            assert(divides(num as int, n as int));
            return false;
        }
    }
    true
}

/// Trial division: `n` is composite iff some integer strictly between
/// 1 and `n` divides it.
pub fn is_composite(n: u32) -> (r: bool)
    ensures
        r == is_composite_spec(n as int),
{
    if n < 2 {
        return false;
    }
    for num in 2..n
        invariant
            forall|d: int| 2 <= d < num ==> !divides(d, n as int),
    {
        if n % num == 0 {
            assert(divides(num as int, n as int));
            return true;
        }
    }
    false
}

/// The greatest common divisor, by the Euclidean recursion.
pub open spec fn gcd(a: nat, b: nat) -> nat
    decreases b,
{
    if b == 0 {
        a
    } else {
        gcd(b, a % b)
    }
}

/// A divisor of a positive number is no larger than it.
proof fn lemma_divisor_at_most(d: int, n: int)
    requires
        d >= 1,
        n >= 1,
        divides(d, n),
    ensures
        d <= n,
{
    if d > n {
        vstd::arithmetic::div_mod::lemma_small_mod(n as nat, d as nat);
    }
}

/// A divisor of two numbers divides their sum.
proof fn lemma_divides_add(d: int, x: int, y: int)
    requires
        d >= 1,
        divides(d, x),
        divides(d, y),
    ensures
        divides(d, x + y),
{
    vstd::arithmetic::div_mod::lemma_add_mod_noop(x, y, d);
    vstd::arithmetic::div_mod::lemma_small_mod(0nat, d as nat);
    assert((x + y) % d == (0int + 0int) % d);
}

/// A divisor of `x` divides every multiple `c * x`.
proof fn lemma_divides_mul(d: int, c: int, x: int)
    requires
        d >= 1,
        divides(d, x),
    ensures
        divides(d, c * x),
{
    vstd::arithmetic::div_mod::lemma_fundamental_div_mod(x, d);
    assert(c * x == (c * (x / d)) * d) by (nonlinear_arith)
        requires
            x == d * (x / d),
    ;
    vstd::arithmetic::div_mod::lemma_mod_multiples_basic(c * (x / d), d);
}

/// Divisibility is transitive: a divisor of a divisor of `c` divides `c`.
pub proof fn lemma_divides_transitive(a: int, b: int, c: int)
    requires
        a >= 1,
        b >= 1,
        divides(a, b),
        divides(b, c),
    ensures
        divides(a, c),
{
    vstd::arithmetic::div_mod::lemma_fundamental_div_mod(b, a);
    vstd::arithmetic::div_mod::lemma_fundamental_div_mod(c, b);
    let k1 = b / a;
    let k2 = c / b;
    assert(c == (k1 * k2) * a) by (nonlinear_arith)
        requires
            b == a * k1,
            c == b * k2,
    ;
    vstd::arithmetic::div_mod::lemma_mod_multiples_basic(k1 * k2, a);
}

/// The gcd of `a >= 1` and `b >= 0` is positive and divides both.
proof fn lemma_gcd_divides(a: nat, b: nat)
    requires
        a >= 1,
    ensures
        gcd(a, b) >= 1,
        divides(gcd(a, b) as int, a as int),
        divides(gcd(a, b) as int, b as int),
    decreases b,
{
    if b == 0 {
        vstd::arithmetic::div_mod::lemma_mod_self_0(a as int);
        assert(0int % a as int == 0);
    } else {
        lemma_gcd_divides(b, a % b);
        let g = gcd(b, a % b) as int;
        vstd::arithmetic::div_mod::lemma_fundamental_div_mod(a as int, b as int);
        lemma_divides_mul(g, a as int / b as int, b as int);
        lemma_divides_add(g, (a as int / b as int) * b as int, (a % b) as int);
        assert(a as int == (a as int / b as int) * b as int + (a % b) as int) by (nonlinear_arith)
            requires
                a as int == b as int * (a as int / b as int) + a as int % b as int,
                (a % b) as int == a as int % b as int,
        ;
    }
}

/// Bezout coefficients along the Euclidean recursion: some integer
/// combination of `a` and `b` equals their gcd.
proof fn lemma_bezout(a: nat, b: nat) -> (coefficients: (int, int))
    requires
        a >= 1,
    ensures
        coefficients.0 * a + coefficients.1 * b == gcd(a, b),
    decreases b,
{
    if b == 0 {
        (1int, 0int)
    } else {
        let (x, y) = lemma_bezout(b, a % b);
        let q = a as int / b as int;
        let r = (a % b) as int;
        vstd::arithmetic::div_mod::lemma_fundamental_div_mod(a as int, b as int);
        assert(a as int == b as int * q + r);
        assert(y * a + (x - y * q) * b == x * b + y * r) by (nonlinear_arith)
            requires
                a as int == b as int * q + r,
        ;
        (y, x - y * q)
    }
}

/// A prime's only positive divisors are 1 and itself.
proof fn lemma_prime_divisors(p: int, d: int)
    requires
        is_prime_spec(p),
        d >= 1,
        divides(d, p),
    ensures
        d == 1 || d == p,
{
    lemma_divisor_at_most(d, p);
}

/// Euclid's lemma: a prime dividing a product divides a factor.
proof fn lemma_euclid(p: int, a: int, b: int)
    requires
        is_prime_spec(p),
        a >= 1,
        b >= 0,
        divides(p, a * b),
        !divides(p, a),
    ensures
        divides(p, b),
{
    let g = gcd(p as nat, a as nat) as int;
    lemma_gcd_divides(p as nat, a as nat);
    lemma_prime_divisors(p, g);
    assert(g != p);
    let (x, y) = lemma_bezout(p as nat, a as nat);
    assert(x * p + y * a == 1);
    // multiply the identity by b and pull p out of both addends
    assert((x * b) * p + y * (a * b) == b) by (nonlinear_arith)
        requires
            x * p + y * a == 1,
    ;
    vstd::arithmetic::div_mod::lemma_mod_multiples_basic(x * b, p);
    lemma_divides_mul(p, y, a * b);
    lemma_divides_add(p, (x * b) * p, y * (a * b));
}

/// The product of `p ^ e` over all pairs `(p, e)` of `s`.
pub open spec fn product_of_powers(s: Seq<(u32, u32)>) -> int
    decreases s.len(),
{
    if s.len() == 0 {
        1
    } else {
        product_of_powers(s.drop_last()) * vstd::arithmetic::power::pow(
            s.last().0 as int,
            s.last().1 as nat,
        )
    }
}

/// A product of prime powers is positive.
proof fn lemma_product_of_powers_positive(s: Seq<(u32, u32)>)
    requires
        forall|i: int| 0 <= i < s.len() ==> (#[trigger] s[i]).0 >= 1,
    ensures
        product_of_powers(s) >= 1,
    decreases s.len(),
{
    if s.len() > 0 {
        lemma_product_of_powers_positive(s.drop_last());
        vstd::arithmetic::power::lemma_pow_positive(s.last().0 as int, s.last().1 as nat);
        assert(product_of_powers(s) >= 1) by (nonlinear_arith)
            requires
                product_of_powers(s) == product_of_powers(s.drop_last()) * vstd::arithmetic::power::pow(
                    s.last().0 as int,
                    s.last().1 as nat,
                ),
                product_of_powers(s.drop_last()) >= 1,
                vstd::arithmetic::power::pow(s.last().0 as int, s.last().1 as nat) >= 1,
        ;
    }
}

/// The product over a list of prime powers splits off any one entry.
proof fn lemma_product_of_powers_split(s: Seq<(u32, u32)>, i: int)
    requires
        0 <= i < s.len(),
    ensures
        product_of_powers(s) == vstd::arithmetic::power::pow(s[i].0 as int, s[i].1 as nat)
            * product_of_powers(s.remove(i)),
    decreases s.len(),
{
    let last = s.len() - 1;
    let entry_pow = vstd::arithmetic::power::pow(s[i].0 as int, s[i].1 as nat);
    if i == last {
        assert(s.remove(i) =~= s.drop_last());
        assert(product_of_powers(s) == product_of_powers(s.drop_last()) * vstd::arithmetic::power::pow(
            s.last().0 as int,
            s.last().1 as nat,
        ));
        assert(product_of_powers(s) == entry_pow * product_of_powers(s.remove(i)))
            by (nonlinear_arith)
            requires
                product_of_powers(s) == product_of_powers(s.remove(i)) * entry_pow,
        ;
    } else {
        let dl = s.drop_last();
        let last_pow = vstd::arithmetic::power::pow(s[last].0 as int, s[last].1 as nat);
        lemma_product_of_powers_split(dl, i);
        assert(dl[i] == s[i]);
        assert(s.remove(i).drop_last() =~= dl.remove(i));
        assert(s.remove(i).last() == s[last]);
        assert(product_of_powers(s) == product_of_powers(dl) * last_pow);
        assert(product_of_powers(s.remove(i)) == product_of_powers(dl.remove(i)) * last_pow);
        assert(product_of_powers(s) == entry_pow * product_of_powers(s.remove(i)))
            by (nonlinear_arith)
            requires
                product_of_powers(s) == product_of_powers(dl) * last_pow,
                product_of_powers(dl) == entry_pow * product_of_powers(dl.remove(i)),
                product_of_powers(s.remove(i)) == product_of_powers(dl.remove(i)) * last_pow,
        ;
    }
}

/// A prime never divides a power of a different prime.
proof fn lemma_prime_not_divides_other_prime_pow(p: int, q: int, e: nat)
    requires
        is_prime_spec(p),
        is_prime_spec(q),
        p != q,
    ensures
        !divides(p, vstd::arithmetic::power::pow(q, e)),
    decreases e,
{
    vstd::arithmetic::power::lemma_pow_positive(q, e);
    if divides(p, vstd::arithmetic::power::pow(q, e)) {
        if e == 0 {
            vstd::arithmetic::power::lemma_pow0(q);
            lemma_divisor_at_most(p, 1);
        } else {
            let rest = vstd::arithmetic::power::pow(q, (e - 1) as nat);
            assert(vstd::arithmetic::power::pow(q, e) == q * rest) by {
                reveal(vstd::arithmetic::power::pow);
            }
            if divides(p, q) {
                lemma_prime_divisors(q, p);
            }
            vstd::arithmetic::power::lemma_pow_positive(q, (e - 1) as nat);
            lemma_euclid(p, q, rest);
            lemma_prime_not_divides_other_prime_pow(p, q, (e - 1) as nat);
        }
    }
}

/// A prime with a positive exponent divides its own power.
proof fn lemma_prime_divides_own_pow(q: int, e: nat)
    requires
        q >= 1,
        e >= 1,
    ensures
        divides(q, vstd::arithmetic::power::pow(q, e)),
{
    let rest = vstd::arithmetic::power::pow(q, (e - 1) as nat);
    assert(vstd::arithmetic::power::pow(q, e) == q * rest) by {
        reveal(vstd::arithmetic::power::pow);
    }
    vstd::arithmetic::power::lemma_pow_positive(q, (e - 1) as nat);
    vstd::arithmetic::div_mod::lemma_mod_self_0(q);
    lemma_divides_mul(q, rest, q);
    assert(q * rest == rest * q) by (nonlinear_arith);
}

/// A prime dividing a product of prime powers is one of the listed
/// primes.
proof fn lemma_prime_in_product(p: int, s: Seq<(u32, u32)>)
    requires
        is_prime_spec(p),
        forall|i: int| 0 <= i < s.len() ==> is_prime_spec((#[trigger] s[i]).0 as int),
        divides(p, product_of_powers(s)),
    ensures
        exists|i: int| 0 <= i < s.len() && (#[trigger] s[i]).0 == p,
    decreases s.len(),
{
    if s.len() == 0 {
        lemma_divisor_at_most(p, 1);
    } else {
        let dl = s.drop_last();
        let last_pow = vstd::arithmetic::power::pow(s.last().0 as int, s.last().1 as nat);
        lemma_product_of_powers_positive(dl);
        vstd::arithmetic::power::lemma_pow_positive(s.last().0 as int, s.last().1 as nat);
        if divides(p, product_of_powers(dl)) {
            lemma_prime_in_product(p, dl);
            let i = choose|i: int| 0 <= i < dl.len() && (#[trigger] dl[i]).0 == p;
            assert(s[i].0 == p);
        } else {
            lemma_euclid(p, product_of_powers(dl), last_pow);
            if s.last().0 as int != p {
                lemma_prime_not_divides_other_prime_pow(p, s.last().0 as int, s.last().1 as nat);
            }
            assert(s[s.len() - 1].0 == p);
        }
    }
}

/// A sorted list of prime powers whose product is `n` lists exactly
/// the primes dividing `n`, and each exponent is exact: the listed
/// power divides `n` and the next power does not.
proof fn lemma_factorization_characterization(n: u32, s: Seq<(u32, u32)>)
    requires
        n >= 1,
        firsts_strictly_increasing(s),
        forall|i: int| 0 <= i < s.len() ==> is_prime_spec((#[trigger] s[i]).0 as int)
            && s[i].1 >= 1,
        product_of_powers(s) == n as int,
    ensures
        forall|q: u32| is_prime_spec(q as int) && divides(q as int, n as int) ==> exists|i: int|
            0 <= i < s.len() && (#[trigger] s[i]).0 == q,
        forall|i: int| 0 <= i < s.len() ==> divides((#[trigger] s[i]).0 as int, n as int),
        forall|i: int| 0 <= i < s.len() ==> divides(
            vstd::arithmetic::power::pow((#[trigger] s[i]).0 as int, s[i].1 as nat),
            n as int,
        ),
        forall|i: int| 0 <= i < s.len() ==> !divides(
            vstd::arithmetic::power::pow((#[trigger] s[i]).0 as int, (s[i].1 + 1) as nat),
            n as int,
        ),
{
    assert forall|q: u32| is_prime_spec(q as int) && divides(q as int, n as int) implies exists|
        i: int,
    |
        0 <= i < s.len() && (#[trigger] s[i]).0 == q by {
        lemma_prime_in_product(q as int, s);
        let i = choose|i: int| 0 <= i < s.len() && (#[trigger] s[i]).0 == q as int;
        assert(s[i].0 == q);
    }
    assert forall|i: int| 0 <= i < s.len() implies {
        &&& divides((#[trigger] s[i]).0 as int, n as int)
        &&& divides(vstd::arithmetic::power::pow(s[i].0 as int, s[i].1 as nat), n as int)
        &&& !divides(vstd::arithmetic::power::pow(s[i].0 as int, (s[i].1 + 1) as nat), n as int)
    } by {
        let p = s[i].0 as int;
        let e = s[i].1 as nat;
        let p_pow = vstd::arithmetic::power::pow(p, e);
        let others = s.remove(i);
        let rest = product_of_powers(others);
        lemma_product_of_powers_split(s, i);
        assert(n as int == p_pow * rest);
        assert forall|j: int| 0 <= j < others.len() implies is_prime_spec(
            (#[trigger] others[j]).0 as int,
        ) && others[j].0 as int != p by {
            if j < i {
                assert(others[j] == s[j]);
                assert(s[j].0 < s[i].0);
            } else {
                assert(others[j] == s[j + 1]);
                assert(s[i].0 < s[j + 1].0);
            }
        }
        lemma_product_of_powers_positive(others);
        vstd::arithmetic::power::lemma_pow_positive(p, e);
        // the listed power divides n, and so does the prime itself
        vstd::arithmetic::div_mod::lemma_mod_self_0(p_pow);
        lemma_divides_mul(p_pow, rest, p_pow);
        assert(rest * p_pow == n as int) by (nonlinear_arith)
            requires
                n as int == p_pow * rest,
        ;
        assert(divides(p_pow, n as int));
        lemma_prime_divides_own_pow(p, e);
        lemma_divides_transitive(p, p_pow, n as int);
        // the next power does not divide n: p does not divide the rest
        if divides(p, rest) {
            lemma_prime_in_product(p, others);
            let j = choose|j: int| 0 <= j < others.len() && (#[trigger] others[j]).0 == p;
            assert(false);
        }
        let next_pow = vstd::arithmetic::power::pow(p, (e + 1) as nat);
        if divides(next_pow, n as int) {
            vstd::arithmetic::power::lemma_pow_positive(p, (e + 1) as nat);
            vstd::arithmetic::div_mod::lemma_fundamental_div_mod(n as int, next_pow);
            let t = n as int / next_pow;
            assert(n as int == next_pow * t);
            vstd::arithmetic::power::lemma_pow1(p);
            vstd::arithmetic::power::lemma_pow_adds(p, e, 1);
            assert(next_pow == p_pow * p);
            assert(rest == t * p) by (nonlinear_arith)
                requires
                    n as int == p_pow * rest,
                    n as int == next_pow * t,
                    next_pow == p_pow * p,
                    p_pow >= 1,
            ;
            vstd::arithmetic::div_mod::lemma_mod_multiples_basic(t, p);
            assert(divides(p, rest));
        }
    }
}

/// A smaller power of `q` divides a larger one.
proof fn lemma_pow_divides_pow(q: int, e1: nat, e2: nat)
    requires
        q >= 1,
        e1 <= e2,
    ensures
        divides(
            vstd::arithmetic::power::pow(q, e1),
            vstd::arithmetic::power::pow(q, e2),
        ),
{
    let low = vstd::arithmetic::power::pow(q, e1);
    let gap = vstd::arithmetic::power::pow(q, (e2 - e1) as nat);
    vstd::arithmetic::power::lemma_pow_adds(q, e1, (e2 - e1) as nat);
    vstd::arithmetic::power::lemma_pow_positive(q, e1);
    vstd::arithmetic::div_mod::lemma_mod_self_0(low);
    lemma_divides_mul(low, gap, low);
    assert(vstd::arithmetic::power::pow(q, e2) == gap * low) by (nonlinear_arith)
        requires
            vstd::arithmetic::power::pow(q, e2) == low * gap,
    ;
}

/// One of two lists of prime powers that both obey the factorization
/// shape for `n` holds any member of the other.
proof fn lemma_factorization_member_transfer(
    n: u32,
    ra: Seq<(u32, u32)>,
    rb: Seq<(u32, u32)>,
    p: (u32, u32),
)
    requires
        n >= 1,
        firsts_strictly_increasing(ra),
        forall|i: int| 0 <= i < ra.len() ==> is_prime_spec((#[trigger] ra[i]).0 as int)
            && ra[i].1 >= 1,
        product_of_powers(ra) == n as int,
        firsts_strictly_increasing(rb),
        forall|i: int| 0 <= i < rb.len() ==> is_prime_spec((#[trigger] rb[i]).0 as int)
            && rb[i].1 >= 1,
        product_of_powers(rb) == n as int,
        ra.contains(p),
    ensures
        rb.contains(p),
{
    lemma_factorization_characterization(n, ra);
    lemma_factorization_characterization(n, rb);
    let q = p.0;
    let ia = choose|i: int| 0 <= i < ra.len() && ra[i] == p;
    assert(is_prime_spec(q as int) && divides(q as int, n as int));
    let ib = choose|i: int| 0 <= i < rb.len() && (#[trigger] rb[i]).0 == q;
    let ea = p.1;
    let eb = rb[ib].1;
    if ea < eb {
        lemma_pow_divides_pow(q as int, (ea + 1) as nat, eb as nat);
        vstd::arithmetic::power::lemma_pow_positive(q as int, (ea + 1) as nat);
        vstd::arithmetic::power::lemma_pow_positive(q as int, eb as nat);
        lemma_divides_transitive(
            vstd::arithmetic::power::pow(q as int, (ea + 1) as nat),
            vstd::arithmetic::power::pow(q as int, eb as nat),
            n as int,
        );
        assert(false);
    }
    if eb < ea {
        lemma_pow_divides_pow(q as int, (eb + 1) as nat, ea as nat);
        vstd::arithmetic::power::lemma_pow_positive(q as int, (eb + 1) as nat);
        vstd::arithmetic::power::lemma_pow_positive(q as int, ea as nat);
        lemma_divides_transitive(
            vstd::arithmetic::power::pow(q as int, (eb + 1) as nat),
            vstd::arithmetic::power::pow(q as int, ea as nat),
            n as int,
        );
        assert(false);
    }
    assert(rb[ib] == p);
}

/// The prime factorization of `n >= 1` by trial division, as pairs
/// `(prime, exponent)` in increasing order of prime. Every listed
/// prime is prime with an exponent of at least 1, the product of the
/// prime powers restores `n`, the list holds exactly the primes that
/// divide `n`, each listed power divides `n` while the next power
/// does not, and the list is empty exactly for `n == 1`.
pub fn get_prime_factorization(n: u32) -> (r: Vec<(u32, u32)>)
    requires
        n >= 1,
    ensures
        firsts_strictly_increasing(r@),
        forall|i: int| 0 <= i < r@.len() ==> is_prime_spec((#[trigger] r@[i]).0 as int)
            && r@[i].1 >= 1,
        product_of_powers(r@) == n as int,
        n == 1 <==> r@.len() == 0,
        forall|q: u32| is_prime_spec(q as int) && divides(q as int, n as int) ==> exists|i: int|
            0 <= i < r@.len() && (#[trigger] r@[i]).0 == q,
        forall|i: int| 0 <= i < r@.len() ==> divides((#[trigger] r@[i]).0 as int, n as int),
        forall|i: int| 0 <= i < r@.len() ==> divides(
            vstd::arithmetic::power::pow((#[trigger] r@[i]).0 as int, r@[i].1 as nat),
            n as int,
        ),
        forall|i: int| 0 <= i < r@.len() ==> !divides(
            vstd::arithmetic::power::pow((#[trigger] r@[i]).0 as int, (r@[i].1 + 1) as nat),
            n as int,
        ),
{
    let mut r: Vec<(u32, u32)> = Vec::new();
    let mut m: u32 = n;
    let mut p: u32 = 2;
    while m > 1
        invariant
            1 <= m <= n,
            2 <= p,
            m > 1 ==> p <= m,
            product_of_powers(r@) * m as int == n as int,
            n == 1 ==> r@.len() == 0,
            forall|d: int| 2 <= d < p ==> !divides(d, m as int),
            firsts_strictly_increasing(r@),
            forall|i: int| 0 <= i < r@.len() ==> is_prime_spec((#[trigger] r@[i]).0 as int)
                && r@[i].1 >= 1,
            r@.len() > 0 ==> r@.last().0 <= p,
            (r@.len() > 0 && m > 1) ==> r@.last().0 < p,
        decreases m as int, m as int - p as int,
    {
        let ghost m_entry = m as int;
        if m % p == 0 {
            proof {
                assert(divides(p as int, m_entry));
            }
            let mut e: u32 = 0;
            proof {
                vstd::arithmetic::power::lemma_pow0(p as int);
            }
            while m % p == 0
                invariant
                    1 <= m,
                    2 <= p,
                    1 <= m_entry <= u32::MAX,
                    divides(p as int, m_entry),
                    e as int <= m_entry - m as int,
                    vstd::arithmetic::power::pow(p as int, e as nat) * m as int == m_entry,
                    forall|d: int| 2 <= d < p ==> !divides(d, m_entry),
                    forall|d: int| 2 <= d < p ==> !divides(d, m as int),
                decreases m,
            {
                let next: u32 = m / p;
                proof {
                    vstd::arithmetic::div_mod::lemma_fundamental_div_mod(m as int, p as int);
                    assert(next >= 1) by (nonlinear_arith)
                        requires
                            m as int == p as int * (next as int),
                            m >= 1,
                            p >= 2,
                            next as int == m as int / p as int,
                    ;
                    assert(next < m) by (nonlinear_arith)
                        requires
                            m as int == p as int * (next as int),
                            next >= 1,
                            p >= 2,
                    ;
                    vstd::arithmetic::power::lemma_pow1(p as int);
                    vstd::arithmetic::power::lemma_pow_adds(p as int, e as nat, 1);
                    assert(vstd::arithmetic::power::pow(p as int, (e + 1) as nat) * next as int
                        == m_entry) by (nonlinear_arith)
                        requires
                            vstd::arithmetic::power::pow(p as int, (e + 1) as nat)
                                == vstd::arithmetic::power::pow(p as int, e as nat) * (p as int),
                            vstd::arithmetic::power::pow(p as int, e as nat) * m as int == m_entry,
                            m as int == p as int * (next as int),
                    ;
                    // a divisor of the quotient still divides the old value
                    assert(divides(next as int, m as int)) by {
                        vstd::arithmetic::div_mod::lemma_mod_multiples_basic(p as int, next as int);
                    }
                    assert forall|d: int| 2 <= d < p implies !divides(d, next as int) by {
                        if divides(d, next as int) {
                            lemma_divides_transitive(d, next as int, m as int);
                        }
                    }
                }
                m = next;
                e = e + 1;
            }
            proof {
                // the division loop ran at least once
                if e == 0 {
                    vstd::arithmetic::power::lemma_pow0(p as int);
                    assert(vstd::arithmetic::power::pow(p as int, e as nat) == 1);
                    assert(1 * m as int == m_entry);
                    assert(m as int == m_entry);
                }
                // every candidate below p was ruled out as a divisor of m_entry,
                // so p itself has no proper divisor: p is prime
                assert forall|d: int| 2 <= d < p implies !divides(d, p as int) by {
                    if divides(d, p as int) {
                        lemma_divides_transitive(d, p as int, m_entry);
                    }
                }
                assert(is_prime_spec(p as int));
            }
            let ghost r_before = r@;
            r.push((p, e));
            proof {
                assert(r@.drop_last() =~= r_before);
                assert(product_of_powers(r@) == product_of_powers(r_before)
                    * vstd::arithmetic::power::pow(p as int, e as nat));
                assert(product_of_powers(r@) * m as int == n as int) by (nonlinear_arith)
                    requires
                        product_of_powers(r@) == product_of_powers(r_before)
                            * vstd::arithmetic::power::pow(p as int, e as nat),
                        vstd::arithmetic::power::pow(p as int, e as nat) * m as int == m_entry,
                        product_of_powers(r_before) * m_entry == n as int,
                ;
            }
        }
        if m > 1 {
            proof {
                vstd::arithmetic::div_mod::lemma_mod_self_0(m as int);
                assert(divides(m as int, m as int));
                assert(m > p);
            }
            p = p + 1;
        }
    }
    proof {
        if n > 1 && r@.len() == 0 {
            assert(product_of_powers(r@) == 1);
        }
        lemma_factorization_characterization(n, r@);
    }
    r
}

/// Unique factorization: the contract of [`get_prime_factorization`]
/// admits a single value, so any two results for the same `n` are
/// equal and repeated calls agree. Two ordered lists of prime powers
/// with the same product list the same primes with the same exponents.
pub proof fn lemma_get_prime_factorization_deterministic(
    n: u32,
    r1: Seq<(u32, u32)>,
    r2: Seq<(u32, u32)>,
)
    requires
        n >= 1,
        firsts_strictly_increasing(r1),
        forall|i: int| 0 <= i < r1.len() ==> is_prime_spec((#[trigger] r1[i]).0 as int)
            && r1[i].1 >= 1,
        product_of_powers(r1) == n as int,
        firsts_strictly_increasing(r2),
        forall|i: int| 0 <= i < r2.len() ==> is_prime_spec((#[trigger] r2[i]).0 as int)
            && r2[i].1 >= 1,
        product_of_powers(r2) == n as int,
    ensures
        r1 == r2,
{
    assert forall|p: (u32, u32)| r1.contains(p) <==> r2.contains(p) by {
        if r1.contains(p) {
            lemma_factorization_member_transfer(n, r1, r2, p);
        }
        if r2.contains(p) {
            lemma_factorization_member_transfer(n, r2, r1, p);
        }
    }
    lemma_firsts_strictly_increasing_unique(r1, r2);
}

/// Two strictly increasing sequences with the same members are equal:
/// a sorted, duplicate-free result is determined by its contents.
pub proof fn lemma_strictly_increasing_unique(s1: Seq<u32>, s2: Seq<u32>)
    requires
        strictly_increasing(s1),
        strictly_increasing(s2),
        forall|x: u32| s1.contains(x) <==> s2.contains(x),
    ensures
        s1 == s2,
    decreases s1.len(),
{
    if s1.len() == 0 {
        if s2.len() > 0 {
            assert(s2.contains(s2[0]));
            assert(s1.contains(s2[0]));
        }
        assert(s1 =~= s2);
    } else {
        assert(s1.contains(s1[0]));
        assert(s2.contains(s1[0]));
        assert(s2.len() > 0);
        assert(s2.contains(s2[0]));
        assert(s1.contains(s2[0]));
        let i2 = choose|i: int| 0 <= i < s2.len() && s2[i] == s1[0];
        let i1 = choose|i: int| 0 <= i < s1.len() && s1[i] == s2[0];
        assert(s2[0] <= s2[i2]);
        assert(s1[0] <= s1[i1]);
        assert(s1[0] == s2[0]);
        let t1 = s1.drop_first();
        let t2 = s2.drop_first();
        assert forall|x: u32| t1.contains(x) <==> t2.contains(x) by {
            lemma_tail_membership(s1, x);
            lemma_tail_membership(s2, x);
        }
        lemma_strictly_increasing_unique(t1, t2);
        assert(s1 =~= s2) by {
            assert(forall|i: int| 1 <= i < s1.len() ==> s1[i] == t1[i - 1] && s2[i] == t2[i - 1]);
        }
    }
}

/// In a strictly increasing sequence, the members of the tail are the
/// members larger than the head.
proof fn lemma_tail_membership(s: Seq<u32>, x: u32)
    requires
        strictly_increasing(s),
        s.len() > 0,
    ensures
        s.drop_first().contains(x) <==> (s.contains(x) && x > s[0]),
{
    let t = s.drop_first();
    if t.contains(x) {
        let i = choose|i: int| 0 <= i < t.len() && t[i] == x;
        assert(s[i + 1] == x);
        assert(s[0] < s[i + 1]);
    }
    if s.contains(x) && x > s[0] {
        let i = choose|i: int| 0 <= i < s.len() && s[i] == x;
        assert(i != 0);
        assert(t[i - 1] == x);
    }
}

/// Two sequences of pairs with the same members are equal when both
/// list their first components in strictly increasing order.
pub proof fn lemma_firsts_strictly_increasing_unique(s1: Seq<(u32, u32)>, s2: Seq<(u32, u32)>)
    requires
        firsts_strictly_increasing(s1),
        firsts_strictly_increasing(s2),
        forall|p: (u32, u32)| s1.contains(p) <==> s2.contains(p),
    ensures
        s1 == s2,
    decreases s1.len(),
{
    if s1.len() == 0 {
        if s2.len() > 0 {
            assert(s2.contains(s2[0]));
            assert(s1.contains(s2[0]));
        }
        assert(s1 =~= s2);
    } else {
        assert(s1.contains(s1[0]));
        assert(s2.contains(s1[0]));
        assert(s2.len() > 0);
        assert(s2.contains(s2[0]));
        assert(s1.contains(s2[0]));
        let i2 = choose|i: int| 0 <= i < s2.len() && s2[i] == s1[0];
        let i1 = choose|i: int| 0 <= i < s1.len() && s1[i] == s2[0];
        assert(s2[0].0 <= s2[i2].0);
        assert(s1[0].0 <= s1[i1].0);
        assert(s1[0].0 == s2[0].0);
        assert(i2 == 0);
        assert(s1[0] == s2[0]);
        let t1 = s1.drop_first();
        let t2 = s2.drop_first();
        assert forall|p: (u32, u32)| t1.contains(p) <==> t2.contains(p) by {
            lemma_pair_tail_membership(s1, p);
            lemma_pair_tail_membership(s2, p);
        }
        lemma_firsts_strictly_increasing_unique(t1, t2);
        assert(s1 =~= s2) by {
            assert(forall|i: int| 1 <= i < s1.len() ==> s1[i] == t1[i - 1] && s2[i] == t2[i - 1]);
        }
    }
}

/// The tail of a sequence of pairs with strictly increasing firsts
/// holds the members whose first component exceeds the head's.
proof fn lemma_pair_tail_membership(s: Seq<(u32, u32)>, p: (u32, u32))
    requires
        firsts_strictly_increasing(s),
        s.len() > 0,
    ensures
        s.drop_first().contains(p) <==> (s.contains(p) && p.0 > s[0].0),
{
    let t = s.drop_first();
    if t.contains(p) {
        let i = choose|i: int| 0 <= i < t.len() && t[i] == p;
        assert(s[i + 1] == p);
        assert(s[0].0 < s[i + 1].0);
    }
    if s.contains(p) && p.0 > s[0].0 {
        let i = choose|i: int| 0 <= i < s.len() && s[i] == p;
        assert(i != 0);
        assert(t[i - 1] == p);
    }
}

/// `n` is the square of some integer.
pub open spec fn is_perfect_square(n: int) -> bool {
    exists|s: int| 0 <= s && #[trigger] (s * s) == n
}

/// For a divisor `a` of `n`, the cofactor `n / a` multiplies with `a`
/// back to `n`, is itself a divisor, and dividing `n` by it gives `a`.
pub proof fn lemma_cofactor(n: u32, a: u32)
    requires
        1 <= a <= n,
        divides(a as int, n as int),
    ensures
        a as int * (n / a) as int == n as int,
        1 <= n / a <= n,
        divides((n / a) as int, n as int),
        n as int / (n / a) as int == a as int,
{
    let b = (n / a) as int;
    vstd::arithmetic::div_mod::lemma_fundamental_div_mod(n as int, a as int);
    assert(a as int * b == n as int);
    assert(1 <= b && b <= n as int) by (nonlinear_arith)
        requires
            a as int * b == n as int,
            1 <= a as int <= n as int,
            n >= 1,
    ;
    vstd::arithmetic::div_mod::lemma_mod_multiples_basic(a as int, b);
    assert((a as int * b) % b == 0);
    vstd::arithmetic::div_mod::lemma_fundamental_div_mod(n as int, b);
    assert(n as int / b == a as int) by (nonlinear_arith)
        requires
            n as int == b * (n as int / b) + n as int % b,
            n as int % b == 0,
            a as int * b == n as int,
            b >= 1,
    ;
}

/// How the factor list and the factor-pair list of the same `n` fit
/// together: `1` and `n` are factors, every factor divides `n`, and
/// each pair contributes its two members to the factor list, counted
/// once each, except that a perfect square's middle factor belongs to
/// the single pair `(s, s)`.
pub proof fn lemma_factors_factor_pairs(n: u32, factors: Seq<u32>, pairs: Seq<(u32, u32)>)
    requires
        n >= 1,
        strictly_increasing(factors),
        forall|x: u32| #[trigger] factors.contains(x) <==> (1 <= x <= n && divides(
            x as int,
            n as int,
        )),
        firsts_strictly_increasing(pairs),
        forall|p: (u32, u32)| #[trigger] pairs.contains(p) <==> (1 <= p.0 && p.0 as int
            * p.0 as int <= n as int && divides(p.0 as int, n as int) && p.1 == n / p.0),
    ensures
        factors.contains(1),
        factors.contains(n),
        forall|i: int| 0 <= i < factors.len() ==> divides(#[trigger] factors[i] as int, n as int),
        factors.len() + (if is_perfect_square(n as int) {
            1int
        } else {
            0int
        }) == 2 * pairs.len(),
{
    assert(n as int % 1int == 0);
    vstd::arithmetic::div_mod::lemma_mod_self_0(n as int);
    assert(factors.contains(1));
    assert(factors.contains(n));
    assert forall|i: int| 0 <= i < factors.len() implies divides(
        #[trigger] factors[i] as int,
        n as int,
    ) by {
        assert(factors.contains(factors[i]));
    }
    let k = pairs.len() as int;
    // each listed pair multiplies to n; members bounded and ordered
    assert forall|i: int| 0 <= i < k implies {
        let a = (#[trigger] pairs[i]).0;
        let b = pairs[i].1;
        &&& 1 <= a <= n
        &&& a as int * a as int <= n as int
        &&& divides(a as int, n as int)
        &&& b == n / a
        &&& a as int * b as int == n as int
        &&& 1 <= b <= n
        &&& divides(b as int, n as int)
        &&& n as int / b as int == a as int
        &&& a <= b
        &&& n as int <= b as int * b as int
    } by {
        assert(pairs.contains(pairs[i]));
        let a = pairs[i].0;
        let b = pairs[i].1;
        assert(a as int <= n as int) by (nonlinear_arith)
            requires
                a as int * a as int <= n as int,
                a >= 1,
        ;
        lemma_cofactor(n, a);
        assert(a <= b && n as int <= b as int * b as int) by (nonlinear_arith)
            requires
                a as int * a as int <= n as int,
                a as int * b as int == n as int,
                a >= 1,
                b >= 1,
        ;
    }
    // the pair list is never empty: (1, n) always qualifies
    assert(n / 1 == n as int / 1int);
    assert(n as int / 1int == n as int) by (nonlinear_arith);
    assert(pairs.contains((1u32, n)));
    assert(k >= 1);
    let l = Seq::new(k as nat, |i: int| pairs[i].0);
    let h = Seq::new(k as nat, |i: int| pairs[k - 1 - i].1);
    // h is strictly increasing: larger smaller-members mean smaller cofactors
    assert forall|i: int, j: int| 0 <= i < j < k implies h[i] < h[j] by {
        let pi = k - 1 - i;
        let pj = k - 1 - j;
        assert(pairs[pj].0 < pairs[pi].0);
        assert(pairs[pi].1 < pairs[pj].1) by (nonlinear_arith)
            requires
                pairs[pj].0 < pairs[pi].0,
                pairs[pi].0 as int * pairs[pi].1 as int == n as int,
                pairs[pj].0 as int * pairs[pj].1 as int == n as int,
                pairs[pi].0 >= 1,
                pairs[pj].0 >= 1,
                pairs[pi].1 >= 1,
                pairs[pj].1 >= 1,
        ;
    }
    let sq = is_perfect_square(n as int);
    if sq {
        // the witness square root is the last pair, paired with itself
        let s = choose|s: int| 0 <= s && #[trigger] (s * s) == n as int;
        assert(s >= 1) by (nonlinear_arith)
            requires
                s * s == n as int,
                s >= 0,
                n >= 1,
        ;
        assert(s <= n as int) by (nonlinear_arith)
            requires
                s * s == n as int,
                s >= 1,
        ;
        let su = s as u32;
        vstd::arithmetic::div_mod::lemma_mod_multiples_basic(s, s);
        assert(divides(su as int, n as int));
        lemma_cofactor(n, su);
        assert(su as int * (n / su) as int == n as int);
        assert((n / su) as int == s) by (nonlinear_arith)
            requires
                s * (n / su) as int == n as int,
                s * s == n as int,
                s >= 1,
        ;
        assert(pairs.contains((su, su)));
        let i = choose|i: int| 0 <= i < k && pairs[i] == (su, su);
        // every smaller-member is at most s, so (s, s) sits last
        assert forall|j: int| 0 <= j < k implies pairs[j].0 <= su by {
            assert(pairs[j].0 as int <= s) by (nonlinear_arith)
                requires
                    pairs[j].0 as int * pairs[j].0 as int <= n as int,
                    s * s == n as int,
                    pairs[j].0 >= 1,
                    s >= 1,
            ;
        }
        if i < k - 1 {
            assert(pairs[i].0 < pairs[k - 1].0);
            assert(false);
        }
        assert(pairs[k - 1] == (su, su));
    } else {
        // no pair is its own cofactor
        assert forall|i: int| 0 <= i < k implies pairs[i].0 < pairs[i].1 by {
            if pairs[i].0 == pairs[i].1 {
                assert(pairs[i].0 as int * pairs[i].0 as int == n as int);
            }
        }
    }
    let c = if sq {
        l + h.skip(1)
    } else {
        l + h
    };
    let lk = l.len() as int;
    assert(lk == k);
    assert(c.len() == if sq {
        2 * k - 1
    } else {
        2 * k
    });
    // the combined list is strictly increasing
    assert(h[0] == pairs[k - 1].1);
    assert(l[k - 1] == pairs[k - 1].0);
    assert forall|i: int, j: int| 0 <= i < j < c.len() implies c[i] < c[j] by {
        if j < k {
            assert(pairs[i].0 < pairs[j].0);
        } else if i >= k {
            if sq {
                assert(h[i - k + 1] < h[j - k + 1]);
            } else {
                assert(h[i - k] < h[j - k]);
            }
        } else {
            // i in the lower half, j in the upper half
            assert(c[i] == pairs[i].0);
            assert(pairs[i].0 <= pairs[k - 1].0);
            if sq {
                assert(pairs[k - 1].0 == pairs[k - 1].1);
                assert(c[j] == h[j - k + 1]);
                assert(h[0] < h[j - k + 1]);
                assert(c[i] <= h[0]);
            } else {
                assert(pairs[k - 1].0 < pairs[k - 1].1);
                assert(c[j] == h[j - k]);
                assert(h[0] <= h[j - k]);
                assert(c[i] <= pairs[k - 1].0);
            }
        }
    }
    assert(strictly_increasing(c));
    // the combined list holds exactly the factors of n
    assert forall|x: u32| c.contains(x) implies (1 <= x <= n && divides(x as int, n as int)) by {
        let i = choose|i: int| 0 <= i < c.len() && c[i] == x;
        if i < k {
            assert(x == pairs[i].0);
        } else if sq {
            assert(x == h[i - k + 1]);
        } else {
            assert(x == h[i - k]);
        }
    }
    assert forall|x: u32| (1 <= x <= n && divides(x as int, n as int)) implies c.contains(x) by {
        lemma_cofactor(n, x);
        if x as int * x as int <= n as int {
            assert(pairs.contains((x, n / x)));
            let i = choose|i: int| 0 <= i < k && pairs[i] == (x, n / x);
            assert(c[i] == x);
        } else {
            let y = n / x;
            assert((y as int * y as int) < n as int) by (nonlinear_arith)
                requires
                    x as int * y as int == n as int,
                    x as int * x as int > n as int,
                    x >= 1,
                    y >= 1,
            ;
            assert(pairs.contains((y, x))) by {
                assert(n / y == x as int);
            }
            let i = choose|i: int| 0 <= i < k && pairs[i] == (y, x);
            assert(h[k - 1 - i] == x);
            if sq {
                if i == k - 1 {
                    assert(pairs[k - 1].1 as int * pairs[k - 1].1 as int == n as int);
                    assert(false);
                }
                assert(c[k + (k - 1 - i) - 1] == h[k - 1 - i]);
            } else {
                assert(c[k + (k - 1 - i)] == h[k - 1 - i]);
            }
        }
    }
    lemma_strictly_increasing_unique(factors, c);
}

/// The contract of [`get_factors`] admits a single value: any two
/// results for the same `n` are equal, so repeated calls agree.
pub proof fn lemma_get_factors_deterministic(n: u32, r1: Seq<u32>, r2: Seq<u32>)
    requires
        strictly_increasing(r1),
        forall|x: u32| #[trigger] r1.contains(x) <==> (1 <= x <= n && divides(x as int, n as int)),
        strictly_increasing(r2),
        forall|x: u32| #[trigger] r2.contains(x) <==> (1 <= x <= n && divides(x as int, n as int)),
    ensures
        r1 == r2,
{
    lemma_strictly_increasing_unique(r1, r2);
}

/// The contract of [`get_factor_pairs`] admits a single value: any two
/// results for the same `n` are equal, so repeated calls agree.
pub proof fn lemma_get_factor_pairs_deterministic(n: u32, r1: Seq<(u32, u32)>, r2: Seq<(u32, u32)>)
    requires
        firsts_strictly_increasing(r1),
        forall|p: (u32, u32)| #[trigger] r1.contains(p) <==> (1 <= p.0 && p.0 as int
            * p.0 as int <= n as int && divides(p.0 as int, n as int) && p.1 == n / p.0),
        firsts_strictly_increasing(r2),
        forall|p: (u32, u32)| #[trigger] r2.contains(p) <==> (1 <= p.0 && p.0 as int
            * p.0 as int <= n as int && divides(p.0 as int, n as int) && p.1 == n / p.0),
    ensures
        r1 == r2,
{
    lemma_firsts_strictly_increasing_unique(r1, r2);
}

/// The contract of [`get_multiples_in_range`] admits a single value:
/// any two results for the same bounds are equal.
pub proof fn lemma_get_multiples_in_range_deterministic(
    n: u32,
    end: u32,
    r1: Seq<u32>,
    r2: Seq<u32>,
)
    requires
        strictly_increasing(r1),
        forall|x: u32| #[trigger] r1.contains(x) <==> (n <= x <= end && divides(n as int, x as int)),
        strictly_increasing(r2),
        forall|x: u32| #[trigger] r2.contains(x) <==> (n <= x <= end && divides(n as int, x as int)),
    ensures
        r1 == r2,
{
    lemma_strictly_increasing_unique(r1, r2);
}

/// The contract of [`get_primes_in_range`] admits a single value: any
/// two results for the same bounds are equal.
pub proof fn lemma_get_primes_in_range_deterministic(
    start: u32,
    end: u32,
    r1: Seq<u32>,
    r2: Seq<u32>,
)
    requires
        strictly_increasing(r1),
        forall|x: u32| #[trigger] r1.contains(x) <==> (start <= x <= end && is_prime_spec(x as int)),
        strictly_increasing(r2),
        forall|x: u32| #[trigger] r2.contains(x) <==> (start <= x <= end && is_prime_spec(x as int)),
    ensures
        r1 == r2,
{
    lemma_strictly_increasing_unique(r1, r2);
}

/// `n > 1` is prime exactly when it is not composite, and 1 is neither.
pub proof fn lemma_prime_iff_not_composite(n: int)
    ensures
        n > 1 ==> (is_prime_spec(n) <==> !is_composite_spec(n)),
        n == 1 ==> !is_prime_spec(n) && !is_composite_spec(n),
{
}

} // verus!
