//! Time-stamp rescaling for waveform export: every exported time stamp is divided by the
//! largest power of ten that all non-zero stamps share, so the export's timescale can be
//! coarsened without losing precision.
use vstd::prelude::*;

verus! {

/// `10^k`.
pub open spec fn pow10(k: nat) -> nat
    decreases k,
{
    if k == 0 {
        1
    } else {
        10 * pow10((k - 1) as nat)
    }
}

/// Number of trailing decimal zeros of a positive number (0 for 0).
pub open spec fn decimal_trailing_zeros(n: nat) -> nat
    decreases n,
{
    if n == 0 || n % 10 != 0 {
        0
    } else {
        1 + decimal_trailing_zeros(n / 10)
    }
}

/// Running minimum of the trailing-zero counts of the non-zero stamps among the first `n`
/// stamps, starting from `u32::MAX`.
pub open spec fn min_trailing_zeros(times: Seq<u64>, n: int) -> nat
    decreases n,
{
    if n <= 0 {
        u32::MAX as nat
    } else {
        let previous = min_trailing_zeros(times, n - 1);
        let t = times[n - 1];
        if t == 0 {
            previous
        } else {
            let z = decimal_trailing_zeros(t as nat);
            if z < previous {
                z
            } else {
                previous
            }
        }
    }
}

/// The shared power-of-ten shift of a list of time stamps: the smallest trailing-zero count
/// over the non-zero stamps, or 0 when there is none.
pub open spec fn common_shift(times: Seq<u64>) -> nat {
    let m = min_trailing_zeros(times, times.len() as int);
    if m == u32::MAX as nat {
        0
    } else {
        m
    }
}

pub proof fn lemma_pow10_positive(k: nat)
    ensures
        pow10(k) >= 1,
    decreases k,
{
    if k > 0 {
        lemma_pow10_positive((k - 1) as nat);
    }
}

/// `10^k` divides `n` exactly when `n` has at least `k` trailing decimal zeros.
pub proof fn lemma_trailing_zeros_divides(n: nat, k: nat)
    requires
        n > 0,
    ensures
        (n % pow10(k) == 0) <==> k <= decimal_trailing_zeros(n),
    decreases k,
{
    lemma_pow10_positive(k);
    if k == 0 {
    } else {
        let k1 = (k - 1) as nat;
        lemma_pow10_positive(k1);
        let p = pow10(k1);
        assert(pow10(k) == 10 * p);
        if n % 10 == 0 {
            lemma_trailing_zeros_divides(n / 10, k1);
            // n = 10 * (n / 10), so n % (10 p) == 10 * ((n / 10) % p)
            let q = n / 10;
            assert(n == 10 * q);
            vstd::arithmetic::div_mod::lemma_mod_multiples_vanish(0, 0, 1);
            assert((10 * q) % (10 * p) == 10 * (q % p)) by {
                vstd::arithmetic::div_mod::lemma_fundamental_div_mod(q as int, p as int);
                let d = q / p;
                let r = q % p;
                assert(q == p * d + r);
                assert(10 * q == (10 * p) * d + 10 * r) by (nonlinear_arith)
                    requires
                        q == p * d + r,
                ;
                assert(0 <= 10 * r < 10 * p) by (nonlinear_arith)
                    requires
                        0 <= r < p,
                ;
                vstd::arithmetic::div_mod::lemma_mod_multiples_vanish(
                    d as int,
                    (10 * r) as int,
                    (10 * p) as int,
                );
                vstd::arithmetic::div_mod::lemma_small_mod((10 * r) as nat, (10 * p) as nat);
                assert(((10 * p) * d + 10 * r) % (10 * p) == (10 * r) % (10 * p)) by {
                    vstd::arithmetic::div_mod::lemma_mod_multiples_vanish(
                        d as int,
                        (10 * r) as int,
                        (10 * p) as int,
                    );
                    assert((10 * p) * d == d * (10 * p)) by (nonlinear_arith);
                }
            }
        } else {
            // 10 divides 10^k, so 10^k cannot divide n.
            assert(decimal_trailing_zeros(n) == 0);
            if n % pow10(k) == 0 {
                vstd::arithmetic::div_mod::lemma_fundamental_div_mod(n as int, (10 * p) as int);
                let d = n / (10 * p);
                assert(n == (10 * p) * d);
                assert(n == 10 * (p * d)) by (nonlinear_arith)
                    requires
                        n == (10 * p) * d,
                ;
                vstd::arithmetic::div_mod::lemma_mod_multiples_basic((p * d) as int, 10);
                assert(((p * d) * 10) % 10 == 0);
                assert(10 * (p * d) == (p * d) * 10) by (nonlinear_arith);
                assert(false);
            }
        }
    }
}

/// Counts the trailing decimal zeros of a non-zero number, i.e. the largest `k` for which
/// `10^k` divides `n`.
pub fn trailing_zeros_base10(n: u128) -> (count: u32)
    requires
        n != 0,
    ensures
        count == decimal_trailing_zeros(n as nat),
        n as nat % pow10(count as nat) == 0,
        n as nat % pow10(count as nat + 1) != 0,
{
    let mut m = n;
    let mut count: u32 = 0;
    assert(pow10(0) == 1);
    assert(m as nat * pow10(0) == m as nat);
    while m % 10 == 0
        invariant
            m != 0,
            count <= 39,
            count + decimal_trailing_zeros(m as nat) == decimal_trailing_zeros(n as nat),
            m as nat * pow10(count as nat) == n as nat,
        decreases m,
    {
        proof {
            lemma_pow10_positive(count as nat);
            assert(pow10(count as nat + 1) == 10 * pow10(count as nat));
            assert((m / 10) as nat * pow10(count as nat + 1) == n as nat) by (nonlinear_arith)
                requires
                    m as nat * pow10(count as nat) == n as nat,
                    m % 10 == 0,
                    pow10(count as nat + 1) == 10 * pow10(count as nat),
            ;
            lemma_count_bound(count as nat, m as nat, n as nat);
        }
        m = m / 10;
        count = count + 1;
    }
    proof {
        lemma_trailing_zeros_divides(n as nat, count as nat);
        lemma_trailing_zeros_divides(n as nat, count as nat + 1);
    }
    count
}

proof fn lemma_count_bound(count: nat, m: nat, n: nat)
    requires
        m * pow10(count) == n,
        m > 0,
        m % 10 == 0,
        n <= u128::MAX,
    ensures
        count < 39,
{
    lemma_pow10_ge(count);
    assert(m >= 10);
    if count >= 39 {
        lemma_pow10_monotone(39, count);
        assert(pow10(39) == 1000000000000000000000000000000000000000nat) by {
            reveal_with_fuel(pow10, 40);
        }
        assert(m * pow10(count) >= 10 * pow10(39)) by (nonlinear_arith)
            requires
                m >= 10,
                pow10(count) >= pow10(39),
        ;
    }
}

proof fn lemma_pow10_ge(k: nat)
    ensures
        pow10(k) >= 1,
{
    lemma_pow10_positive(k);
}

proof fn lemma_pow10_monotone(a: nat, b: nat)
    requires
        a <= b,
    ensures
        pow10(a) <= pow10(b),
    decreases b,
{
    if a < b {
        lemma_pow10_monotone(a, (b - 1) as nat);
        lemma_pow10_positive((b - 1) as nat);
    }
}

/// Finds the largest power of ten that evenly divides every non-zero time stamp.
/// Zero stamps do not constrain the result; with no non-zero stamp the result is 0.
pub fn common_power_of_ten(times: &[u64]) -> (shift: u32)
    ensures
        shift == common_shift(times@),
{
    let mut common: u32 = u32::MAX;
    let mut i: usize = 0;
    while i < times.len()
        invariant
            i <= times.len(),
            common == min_trailing_zeros(times@, i as int),
            common != 0,
        decreases times.len() - i,
    {
        let t = times[i];
        if t != 0 {
            let zeros = trailing_zeros_base10(t as u128);
            if zeros < common {
                common = zeros;
            }
            if common == 0 {
                proof {
                    lemma_min_zero_stays(times@, i as int + 1);
                }
                return 0;
            }
        }
        i = i + 1;
    }
    if common == u32::MAX {
        0
    } else {
        common
    }
}

proof fn lemma_min_zero_stays(times: Seq<u64>, n: int)
    requires
        0 <= n <= times.len(),
        min_trailing_zeros(times, n) == 0,
    ensures
        min_trailing_zeros(times, times.len() as int) == 0,
    decreases times.len() - n,
{
    if n < times.len() {
        lemma_min_zero_stays(times, n + 1);
    }
}

/// Rescales a time stamp by a precomputed divisor `10^shift`.
pub fn scale_time(t: u64, divisor: u128) -> (scaled: u64)
    requires
        divisor != 0,
    ensures
        scaled == t as nat / divisor as nat,
{
    let q = t as u128 / divisor;
    assert(q <= t) by {
        vstd::arithmetic::div_mod::lemma_div_is_ordered_by_denominator(t as int, 1, divisor as int);
    }
    q as u64
}

proof fn lemma_min_is_lower_bound(times: Seq<u64>, n: int, i: int)
    requires
        0 <= i < n <= times.len(),
        times[i] != 0,
    ensures
        min_trailing_zeros(times, n) <= decimal_trailing_zeros(times[i] as nat),
    decreases n,
{
    if i < n - 1 {
        lemma_min_is_lower_bound(times, n - 1, i);
    }
}

proof fn lemma_min_is_attained(times: Seq<u64>, n: int)
    requires
        0 <= n <= times.len(),
        min_trailing_zeros(times, n) != u32::MAX as nat,
    ensures
        exists|j: int|
            0 <= j < n && times[j] != 0 && #[trigger] decimal_trailing_zeros(times[j] as nat)
                == min_trailing_zeros(times, n),
    decreases n,
{
    if n > 0 {
        let t = times[n - 1];
        let previous = min_trailing_zeros(times, n - 1);
        if t != 0 && decimal_trailing_zeros(t as nat) < previous {
            assert(decimal_trailing_zeros(times[n - 1] as nat) == min_trailing_zeros(times, n));
        } else {
            lemma_min_is_attained(times, n - 1);
        }
    }
}

/// The shared shift is the largest power of ten dividing every non-zero stamp: `10^shift`
/// divides each of them, and, when there is a non-zero stamp, `10^(shift + 1)` fails to
/// divide at least one.
pub proof fn lemma_common_shift_is_largest(times: Seq<u64>)
    ensures
        forall|i: int|
            0 <= i < times.len() && times[i] != 0 ==> (#[trigger] times[i]) as nat % pow10(
                common_shift(times),
            ) == 0,
        (exists|i: int| 0 <= i < times.len() && times[i] != 0) ==> exists|j: int|
            0 <= j < times.len() && times[j] != 0 && (#[trigger] times[j]) as nat % pow10(
                common_shift(times) + 1,
            ) != 0,
{
    let n = times.len() as int;
    assert forall|i: int| 0 <= i < times.len() && times[i] != 0 implies (
    #[trigger] times[i]) as nat % pow10(common_shift(times)) == 0 by {
        lemma_min_is_lower_bound(times, n, i);
        lemma_trailing_zeros_divides(times[i] as nat, common_shift(times));
    }
    if exists|i: int| 0 <= i < times.len() && times[i] != 0 {
        let i = choose|i: int| 0 <= i < times.len() && times[i] != 0;
        lemma_min_is_lower_bound(times, n, i);
        lemma_decimal_zeros_small(times[i]);
        lemma_min_is_attained(times, n);
        let j = choose|j: int|
            0 <= j < n && times[j] != 0 && #[trigger] decimal_trailing_zeros(times[j] as nat)
                == min_trailing_zeros(times, n);
        lemma_trailing_zeros_divides(times[j] as nat, common_shift(times) + 1);
        assert(times[j] as nat % pow10(common_shift(times) + 1) != 0);
    }
}

proof fn lemma_decimal_zeros_small(t: u64)
    requires
        t != 0,
    ensures
        decimal_trailing_zeros(t as nat) < u32::MAX,
{
    let z = decimal_trailing_zeros(t as nat);
    lemma_trailing_zeros_divides(t as nat, z);
    lemma_pow10_positive(z);
    vstd::arithmetic::div_mod::lemma_fundamental_div_mod(t as int, pow10(z) as int);
    assert(pow10(z) <= t) by (nonlinear_arith)
        requires
            t as int == pow10(z) * (t as int / pow10(z) as int),
            t > 0,
            pow10(z) >= 1,
    ;
    if z >= 20 {
        lemma_pow10_monotone(20, z);
        assert(pow10(20) == 100000000000000000000nat) by {
            reveal_with_fuel(pow10, 21);
        }
    }
}

/// Dividing a stamp by `10^shift`, where `10^shift` divides it, loses nothing: the scaled
/// stamp times the divisor is the stamp itself.
pub proof fn lemma_scale_is_exact(t: u64, shift: nat)
    requires
        t as nat % pow10(shift) == 0,
    ensures
        (t as nat / pow10(shift)) * pow10(shift) == t as nat,
{
    lemma_pow10_positive(shift);
    vstd::arithmetic::div_mod::lemma_fundamental_div_mod(t as int, pow10(shift) as int);
    assert((t as nat / pow10(shift)) * pow10(shift) == pow10(shift) * (t as nat / pow10(shift)))
        by (nonlinear_arith);
}

} // verus!
