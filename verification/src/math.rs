use rand::Rng;
use vstd::prelude::*;

verus! {

/// The greatest common divisor of `a` and `b`, by Euclid's rule.
pub open spec fn gcd_spec(a: nat, b: nat) -> nat
    decreases a + b,
{
    if a == 0 {
        b
    } else if b == 0 {
        a
    } else if a > b {
        gcd_spec((a % b) as nat, b)
    } else {
        gcd_spec(a, (b % a) as nat)
    }
}

/// The Greatest Common Divisor (GCD)
pub fn gcd(a: u64, b: u64) -> (r: u64)
    ensures
        r == gcd_spec(a as nat, b as nat),
    decreases a + b,
{
    if a == 0 {
        b
    } else if b == 0 {
        a
    } else if a > b {
        gcd(a % b, b)
    } else {
        gcd(a, b % a)
    }
}

/// Mathematical exponentiation: `base` to the power `exp`.
pub open spec fn pow_spec(base: nat, exp: nat) -> nat
    decreases exp,
{
    if exp == 0 {
        1
    } else {
        base * pow_spec(base, (exp - 1) as nat)
    }
}

proof fn lemma_pow_pos(base: nat, exp: nat)
    requires
        base >= 1,
    ensures
        pow_spec(base, exp) >= 1,
    decreases exp,
{
    if exp > 0 {
        lemma_pow_pos(base, (exp - 1) as nat);
        assert(base * pow_spec(base, (exp - 1) as nat) >= 1) by (nonlinear_arith)
            requires
                base >= 1,
                pow_spec(base, (exp - 1) as nat) >= 1,
        ;
    }
}

/// Squaring the base halves the exponent.
proof fn lemma_pow_square(base: nat, k: nat)
    ensures
        pow_spec(base, 2 * k) == pow_spec(base * base, k),
    decreases k,
{
    if k > 0 {
        lemma_pow_square(base, (k - 1) as nat);
        assert(pow_spec(base, (2 * k - 1) as nat) == base * pow_spec(base, (2 * k - 2) as nat));
        assert(base * (base * pow_spec(base, (2 * k - 2) as nat)) == (base * base) * pow_spec(
            base,
            (2 * k - 2) as nat,
        )) by (nonlinear_arith);
    }
}

/// The function returns the value of x to the power of y.
pub fn pow(value: u64, n: u64) -> (r: u64)
    requires
        pow_spec(value as nat, n as nat) <= u64::MAX,
    ensures
        r == pow_spec(value as nat, n as nat),
{
    if n == 0 {
        return 1u64;
    }
    let ghost target: nat = pow_spec(value as nat, n as nat);
    let mut value: u64 = value;
    let mut n: u64 = n;
    let mut res: u64 = 1;
    while n > 0
        invariant
            res * pow_spec(value as nat, n as nat) == target,
            target <= u64::MAX,
            value >= 1 ==> res >= 1,
        decreases n,
    {
        if n % 2 != 0 {
            proof {
                assert(pow_spec(value as nat, n as nat) == value * pow_spec(
                    value as nat,
                    (n - 1) as nat,
                ));
                if value >= 1 {
                    lemma_pow_pos(value as nat, (n - 1) as nat);
                    assert(res * value <= res * (value * pow_spec(value as nat, (n - 1) as nat)))
                        by (nonlinear_arith)
                        requires
                            pow_spec(value as nat, (n - 1) as nat) >= 1,
                            res >= 0,
                            value >= 1,
                    ;
                }
                assert(res * (value * pow_spec(value as nat, (n - 1) as nat)) == (res * value)
                    * pow_spec(value as nat, (n - 1) as nat)) by (nonlinear_arith);
                if value >= 1 {
                    assert(res * value >= 1) by (nonlinear_arith)
                        requires
                            res >= 1,
                            value >= 1,
                    ;
                }
            }
            res = res * value;
            n = n - 1;
        } else {
            proof {
                assert(pow_spec(value as nat, n as nat) == value * pow_spec(
                    value as nat,
                    (n - 1) as nat,
                ));
                assert(pow_spec(value as nat, (n - 1) as nat) == value * pow_spec(
                    value as nat,
                    (n - 2) as nat,
                ));
                lemma_pow_square(value as nat, (n / 2) as nat);
                assert(2 * (n / 2) == n);
                if value >= 1 {
                    lemma_pow_pos(value as nat, (n - 2) as nat);
                    assert(value * value <= res * (value * (value * pow_spec(
                        value as nat,
                        (n - 2) as nat,
                    )))) by (nonlinear_arith)
                        requires
                            res >= 1,
                            value >= 1,
                            pow_spec(value as nat, (n - 2) as nat) >= 1,
                    ;
                    assert(res * (value * (value * pow_spec(value as nat, (n - 2) as nat))) == res
                        * pow_spec(value as nat, n as nat)) by (nonlinear_arith)
                        requires
                            pow_spec(value as nat, n as nat) == value * (value * pow_spec(
                                value as nat,
                                (n - 2) as nat,
                            )),
                    ;
                    assert(value * value >= 1) by (nonlinear_arith)
                        requires
                            value >= 1,
                    ;
                }
            }
            value = value * value;
            n = n / 2;
        }
    }
    proof {
        assert(pow_spec(value as nat, n as nat) == 1);
        assert(res * pow_spec(value as nat, n as nat) == res) by (nonlinear_arith)
            requires
                pow_spec(value as nat, n as nat) == 1,
        ;
        assert(res == target);
    }
    res
}

/// Reducing the base modulo `m` before exponentiation does not change the
/// residue of the power.
proof fn lemma_pow_mod_noop(b: nat, k: nat, m: nat)
    requires
        m >= 1,
    ensures
        (pow_spec((b % m) as nat, k) as int) % (m as int) == (pow_spec(b, k) as int) % (m as int),
    decreases k,
{
    if k > 0 {
        lemma_pow_mod_noop(b, (k - 1) as nat, m);
        let bm = (b % m) as nat;
        let p1 = pow_spec(bm, (k - 1) as nat);
        let p2 = pow_spec(b, (k - 1) as nat);
        assert(pow_spec(bm, k) == bm * p1);
        assert(pow_spec(b, k) == b * p2);
        vstd::arithmetic::div_mod::lemma_mul_mod_noop_right(bm as int, p1 as int, m as int);
        vstd::arithmetic::div_mod::lemma_mul_mod_noop_right(bm as int, p2 as int, m as int);
        vstd::arithmetic::div_mod::lemma_mul_mod_noop_left(b as int, p2 as int, m as int);
    }
}

/// The function returns the value of x to the power of y by module.
pub fn pow_mod(value: u64, n: u64, m: u64) -> (r: u64)
    requires
        1 <= m <= 0x1_0000_0000u64,
        value < m,
    ensures
        n == 0 ==> r == 1,
        n != 0 ==> r == (pow_spec(value as nat, n as nat) as int) % (m as int),
{
    if n == 0 {
        return 1u64;
    }
    let ghost target: int = (pow_spec(value as nat, n as nat) as int) % (m as int);
    let mut value: u64 = value;
    let mut n: u64 = n;
    let mut res: u64 = 1;
    while n > 0
        invariant
            1 <= m <= 0x1_0000_0000u64,
            value < m,
            res == 1 || res < m,
            (res * pow_spec(value as nat, n as nat)) as int % (m as int) == target,
        decreases n,
    {
        if n % 2 != 0 {
            proof {
                assert(res * value <= 0xFFFF_FFFFu64 * 0xFFFF_FFFFu64) by (nonlinear_arith)
                    requires
                        res <= 0xFFFF_FFFFu64,
                        value <= 0xFFFF_FFFFu64,
                ;
                let p = pow_spec(value as nat, (n - 1) as nat);
                assert(pow_spec(value as nat, n as nat) == value * p);
                vstd::arithmetic::div_mod::lemma_mul_mod_noop_left(
                    res * value,
                    p as int,
                    m as int,
                );
                assert(res * (value * p) == (res * value) * p) by (nonlinear_arith);
            }
            res = (res * value) % m;
            n = n - 1;
        } else {
            proof {
                assert(value * value <= 0xFFFF_FFFFu64 * 0xFFFF_FFFFu64) by (nonlinear_arith)
                    requires
                        value <= 0xFFFF_FFFFu64,
                ;
                lemma_pow_square(value as nat, (n / 2) as nat);
                assert(2 * (n / 2) == n);
                lemma_pow_mod_noop((value * value) as nat, (n / 2) as nat, m as nat);
                let q = pow_spec(((value * value) as u64 % m) as nat, (n / 2) as nat);
                let p = pow_spec(value as nat, n as nat);
                assert((q as int) % (m as int) == (p as int) % (m as int));
                vstd::arithmetic::div_mod::lemma_mul_mod_noop_right(res as int, q as int, m as int);
                vstd::arithmetic::div_mod::lemma_mul_mod_noop_right(res as int, p as int, m as int);
            }
            value = (value * value) % m;
            n = n / 2;
        }
    }
    proof {
        assert(pow_spec(value as nat, n as nat) == 1);
        assert(res * pow_spec(value as nat, n as nat) == res) by (nonlinear_arith)
            requires
                pow_spec(value as nat, n as nat) == 1,
        ;
        assert(res % m == target);
    }
    res % m
}

/// Relies on `rand::Rng::gen_range`: a uniform draw in `[low, high)`,
/// here `[1, u64::MAX)`.
#[verifier::external_body]
fn random_draw() -> (r: u64)
    ensures
        1 <= r < u64::MAX,
{
    rand::thread_rng().gen_range(1, u64::MAX)
}

/// The base `a` convicts `value` of compositeness: it shares a factor with
/// `value`, or the Fermat congruence `a^(value-1) = 1 (mod value)` fails,
/// which never happens to a prime `value`.
pub open spec fn fermat_witness(a: nat, value: nat) -> bool {
    gcd_spec(a, value) != 1 || (pow_spec(a, (value - 1) as nat) as int) % (value as int) != 1
}

/// Checking a Number for Simplicity (Fermat's test).
///
/// A probabilistic primality check: each round draws a random base and looks
/// for a Fermat witness of compositeness. The result depends on the drawn
/// bases, so only this much is pinned down: `2` is accepted, and a rejected
/// value was convicted by a concrete witness base.
pub fn is_simple(value: u64) -> (r: bool)
    requires
        2 <= value <= 0xFFFF_FFFFu64,
    ensures
        value == 2 ==> r,
        !r ==> exists|a: nat| 2 <= a < value && #[trigger] fermat_witness(a, value as nat),
{
    if value == 2 {
        return true;
    }
    let mut round: usize = 0;
    while round < 100
        invariant
            3 <= value <= 0xFFFF_FFFFu64,
        decreases 100 - round,
    {
        let draw = random_draw();
        let a = draw % (value - 2) + 2;
        if gcd(a, value) != 1 {
            proof {
                assert(fermat_witness(a as nat, value as nat));
            }
            return false;
        }
        if pow_mod(a, value - 1, value) != 1 {
            proof {
                assert(fermat_witness(a as nat, value as nat));
            }
            return false;
        }
        round += 1;
    }
    true
}

} // verus!
