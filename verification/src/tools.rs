//! Number-theoretic utilities: the extended Euclidean algorithm, modular
//! inverses, and fast modular exponentiation.

use vstd::prelude::*;

verus! {

use vstd::arithmetic::div_mod::lemma_fundamental_div_mod;
use vstd::arithmetic::div_mod::lemma_mod_bound;
use vstd::arithmetic::div_mod::lemma_mod_multiples_vanish;
use vstd::arithmetic::div_mod::lemma_mod_self_0;
use vstd::arithmetic::div_mod::lemma_mul_mod_noop_general;
use vstd::arithmetic::div_mod::lemma_mul_mod_noop_right;
use vstd::arithmetic::div_mod::lemma_small_mod;
use vstd::arithmetic::power::lemma_pow1;
use vstd::arithmetic::power::lemma_pow_adds;
use vstd::arithmetic::power::lemma_pow_mod_noop;
use vstd::arithmetic::power::lemma_pow_multiplies;
use vstd::arithmetic::power::pow;
use vstd::math::abs;

/// The greatest common divisor of two naturals, by the Euclidean recursion.
/// `gcd_nat(a, 0) == a`, so `gcd_nat(0, 0) == 0`.
pub open spec fn gcd_nat(a: nat, b: nat) -> nat
    decreases b,
{
    if b == 0 {
        a
    } else {
        gcd_nat(b, a % b)
    }
}

/// Rust's truncating division, as a mathematical function: the quotient of
/// the magnitudes, negated when the operands' signs differ.
pub open spec fn tdiv(x: int, y: int) -> int
    recommends
        y != 0,
{
    if (x < 0) == (y < 0) {
        abs(x) as int / abs(y) as int
    } else {
        -(abs(x) as int / abs(y) as int)
    }
}

/// Rust's truncating remainder, as a mathematical function.
pub open spec fn tmod(x: int, y: int) -> int
    recommends
        y != 0,
{
    x - y * tdiv(x, y)
}

/// What truncating division and remainder give: the pair reassembles the
/// dividend, the remainder carries the dividend's sign, and the magnitudes
/// are those of the non-negative Euclidean pair.
pub proof fn lemma_truncated_div_mod(x: int, y: int)
    requires
        y != 0,
    ensures
        x == y * tdiv(x, y) + tmod(x, y),
        abs(tmod(x, y)) == abs(x) % abs(y),
        abs(tdiv(x, y)) == abs(x) / abs(y),
        tmod(x, y) == 0 || ((tmod(x, y) > 0) == (x > 0)),
        abs(tdiv(x, y)) * abs(y) as int + abs(tmod(x, y)) == abs(x),
        tdiv(x, y) * x * y >= 0,
        x >= 0 ==> tmod(x, y) >= 0,
        x <= 0 ==> tmod(x, y) <= 0,
{
    let xm = abs(x) as int;
    let ym = abs(y) as int;
    let qm = xm / ym;
    let rm = xm % ym;
    lemma_fundamental_div_mod(xm, ym);
    lemma_mod_bound(xm, ym);
    assert(qm >= 0) by (nonlinear_arith)
        requires
            xm >= 0,
            ym >= 1,
            qm == xm / ym,
    ;
    let q = tdiv(x, y);
    let r = tmod(x, y);
    assert(r == x - y * q);
    // in each sign case the truncated pair mirrors the Euclidean one
    assert(x == y * q + r && abs(r) == rm && abs(q) == qm && (r == 0 || ((r > 0) == (x > 0)))
        && abs(q) * ym + abs(r) == xm && q * x * y >= 0 && (x >= 0 ==> r >= 0) && (x <= 0 ==> r
        <= 0)) by (nonlinear_arith)
        requires
            y != 0,
            xm == abs(x),
            ym == abs(y),
            xm == if x < 0 { -x } else { x },
            ym == if y < 0 { -y } else { y },
            xm == ym * qm + rm,
            0 <= rm < ym,
            qm >= 0,
            q == if (x < 0) == (y < 0) { qm } else { -qm },
            r == x - y * q,
    ;
}

/// The extended Euclidean recursion, exactly as `extended_gcd` computes it:
/// the base case `a == 0` yields `(b, 0, 1)`, and each step folds the
/// truncated quotient into the coefficients by the standard
/// back-substitution. The gcd therefore carries the sign the remainder
/// chain ends with.
pub open spec fn egcd_spec(a: int, b: int) -> (int, int, int)
    decreases abs(a),
    when true
    via egcd_spec_decreases
{
    if a == 0 {
        (b, 0, 1)
    } else {
        let (g, x1, y1) = egcd_spec(tmod(b, a), a);
        (g, y1 - tdiv(b, a) * x1, x1)
    }
}

#[via_fn]
proof fn egcd_spec_decreases(a: int, b: int) {
    if a != 0 {
        lemma_truncated_div_mod(b, a);
        lemma_mod_bound(abs(b) as int, abs(a) as int);
    }
}

/// The gcd divides both of its arguments, and is zero only for `(0, 0)`.
pub proof fn lemma_gcd_divides(a: nat, b: nat)
    ensures
        gcd_nat(a, b) == 0 ==> a == 0 && b == 0,
        gcd_nat(a, b) != 0 ==> a % gcd_nat(a, b) == 0 && b % gcd_nat(a, b) == 0,
    decreases b,
{
    if b == 0 {
        if a != 0 {
            lemma_mod_self_0(a as int);
            lemma_small_mod(0, a);
        }
    } else {
        lemma_gcd_divides(b, a % b);
        let g = gcd_nat(a, b);
        lemma_mod_bound(a as int, b as int);
        if g != 0 {
            // g divides b and the remainder, so it divides a
            lemma_fundamental_div_mod(a as int, b as int);
            lemma_fundamental_div_mod(b as int, g as int);
            let k = (b as int / g as int) * (a as int / b as int);
            assert(a as int == g * k + (a % b)) by (nonlinear_arith)
                requires
                    a as int == b * (a as int / b as int) + (a % b),
                    b as int == g * (b as int / g as int) + (b % g),
                    b % g == 0,
                    k == (b as int / g as int) * (a as int / b as int),
            ;
            lemma_mod_multiples_vanish(k, (a % b) as int, g as int);
        }
    }
}

/// The gcd is symmetric in its arguments.
pub proof fn lemma_gcd_comm(a: nat, b: nat)
    ensures
        gcd_nat(a, b) == gcd_nat(b, a),
{
    if a == 0 && b == 0 {
    } else if a == 0 {
        lemma_small_mod(0, b);
    } else if b == 0 {
        lemma_small_mod(0, a);
    } else if a < b {
        lemma_small_mod(a, b);
    } else if b < a {
        lemma_small_mod(b, a);
    }
}

/// What the extended Euclidean recursion returns: the Bezout identity, the
/// gcd's magnitude, opposite-signed coefficients, and coefficient bounds.
pub proof fn lemma_egcd_spec(a: int, b: int)
    ensures
        ({
            let (g, x, y) = egcd_spec(a, b);
            &&& a * x + b * y == g
            &&& abs(g) == gcd_nat(abs(b), abs(a))
            &&& x * y * a * b <= 0
            &&& abs(g) as int * abs(x) as int <= vstd::math::max(abs(b) as int, abs(g) as int)
            &&& abs(g) as int * abs(y) as int <= vstd::math::max(abs(a) as int, abs(g) as int)
            &&& (a >= 0 && b >= 0 ==> g >= 0)
        }),
    decreases abs(a),
{
    let (g, x, y) = egcd_spec(a, b);
    if a == 0 {
        assert(b * 1 == b);
        assert(abs(b) * 1 == abs(b) as int);
        assert(g == b && x == 0 && y == 1);
        assert(a * x + b * y == g) by (nonlinear_arith)
            requires
                a == 0 && x == 0 && y == 1 && g == b,
        ;
        assert(abs(g) == gcd_nat(abs(b), abs(a)));
        assert(x * y * a * b == 0) by (nonlinear_arith)
            requires
                x == 0,
        ;
        assert(abs(g) as int * abs(x) as int == 0) by (nonlinear_arith)
            requires
                abs(x) == 0,
        ;
        assert(abs(g) as int * abs(y) as int == abs(g) as int) by (nonlinear_arith)
            requires
                abs(y) == 1,
        ;
    } else {
        let q = tdiv(b, a);
        let r = tmod(b, a);
        lemma_truncated_div_mod(b, a);
        lemma_mod_bound(abs(b) as int, abs(a) as int);
        lemma_egcd_spec(r, a);
        let (g1, x1, y1) = egcd_spec(r, a);
        assert(g == g1 && x == y1 - q * x1 && y == x1);
        // the Bezout combination folds through the back-substitution
        assert(a * x + b * y == g) by (nonlinear_arith)
            requires
                r * x1 + a * y1 == g,
                b == a * q + r,
                x == y1 - q * x1,
                y == x1,
        ;
        // the gcd's magnitude follows the Euclidean chain
        assert(abs(g) == gcd_nat(abs(b), abs(a)));
        lemma_gcd_divides(abs(a), abs(r));
        assert(abs(g) >= 1);
        // the gcd's magnitude divides the first argument, so it is at most it
        lemma_fundamental_div_mod(abs(a) as int, abs(g) as int);
        assert(abs(g) <= abs(a)) by (nonlinear_arith)
            requires
                abs(a) as int == abs(g) * (abs(a) as int / abs(g) as int) + abs(a) % abs(g),
                abs(a) % abs(g) == 0,
                abs(a) >= 1,
                abs(g) >= 1,
        ;
        if r == 0 {
            // the inner call is the base case: the quotient column is (1, 0)
            assert(egcd_spec(r, a) == (a, 0int, 1int));
            assert(x == 1 - q * 0 && y == 0 && g == a);
            assert(x == 1) by (nonlinear_arith)
                requires
                    x == 1 - q * 0,
            ;
            assert(abs(x) == 1 && abs(y) == 0);
            assert(abs(g) as int * 1 == abs(g) as int) by (nonlinear_arith);
            assert(abs(g) as int * 0 == 0) by (nonlinear_arith);
            assert(x * y * a * b == 0) by (nonlinear_arith)
                requires
                    y == 0,
            ;
            assert(abs(b) == abs(q) * abs(a)) by (nonlinear_arith)
                requires
                    abs(q) * abs(a) as int + abs(r) == abs(b),
                    r == 0,
            ;
            assert(q != 0 ==> abs(b) >= abs(a)) by (nonlinear_arith)
                requires
                    abs(b) as int == abs(q) * abs(a) as int,
                    abs(a) >= 1,
            ;
            assert(q == 0 ==> b == 0) by (nonlinear_arith)
                requires
                    b == a * q + r,
                    r == 0,
            ;
        } else {
            // the remainder keeps the dividend's sign
            assert(r * b > 0) by (nonlinear_arith)
                requires
                    r != 0,
                    (r > 0) == (b > 0),
                    b == a * q + r ==> true,
                    r == 0 || ((r > 0) == (b > 0)),
                    b != 0 || r == 0,
            ;
            // the new coefficient's two summands reinforce: their signs agree
            assert(q * (x1 * y1) <= 0) by (nonlinear_arith)
                requires
                    x1 * y1 * r * a <= 0,
                    r * b > 0,
                    q * b * a >= 0,
                    a != 0,
                    r != 0,
            ;
            assert(abs(x) as int == abs(y1) as int + abs(q) as int * abs(x1) as int)
                by (nonlinear_arith)
                requires
                    x == y1 - q * x1,
                    q * (x1 * y1) <= 0,
            ;
            // the sign invariant carries to the next level
            assert(x * y * a * b <= 0) by (nonlinear_arith)
                requires
                    x == y1 - q * x1,
                    y == x1,
                    x1 * y1 * r * a <= 0,
                    r * b > 0,
                    q * b * a >= 0,
            ;
            // the remainder is a nonzero multiple of the gcd's magnitude
            lemma_fundamental_div_mod(abs(r) as int, abs(g) as int);
            assert(abs(r) >= abs(g)) by (nonlinear_arith)
                requires
                    abs(r) as int == abs(g) * (abs(r) as int / abs(g) as int) + abs(r) % abs(g),
                    abs(r) % abs(g) == 0,
                    abs(r) >= 1,
                    abs(g) >= 1,
            ;
            // fold the inner bounds through the magnitude recurrence
            assert(abs(g) as int * abs(x) as int <= vstd::math::max(abs(b) as int, abs(g) as int))
                by (nonlinear_arith)
                requires
                    abs(x) as int == abs(y1) as int + abs(q) as int * abs(x1) as int,
                    abs(g) as int * abs(y1) as int <= vstd::math::max(
                        abs(r) as int,
                        abs(g) as int,
                    ),
                    abs(g) as int * abs(x1) as int <= vstd::math::max(
                        abs(a) as int,
                        abs(g) as int,
                    ),
                    abs(r) >= abs(g),
                    abs(g) <= abs(a),
                    abs(g) >= 1,
                    abs(q) * abs(a) as int + abs(r) == abs(b),
            ;
        }
        // for non-negative inputs the whole chain stays non-negative
        if a >= 0 && b >= 0 {
            assert(r >= 0);
        }
    }
}

/// Extended Euclidean algorithm: returns `(gcd, x, y)` with
/// `a * x + b * y == gcd`. The base case `a == 0` returns `(b, 0, 1)`, so
/// the gcd carries the sign the truncated remainder chain ends with; its
/// magnitude is the greatest common divisor of the magnitudes.
pub fn extended_gcd(a: i128, b: i128) -> (r: (i128, i128, i128))
    requires
        a > i128::MIN,
        b > i128::MIN,
    ensures
        r.0 == egcd_spec(a as int, b as int).0,
        r.1 == egcd_spec(a as int, b as int).1,
        r.2 == egcd_spec(a as int, b as int).2,
        a * r.1 + b * r.2 == r.0,
        abs(r.0 as int) == gcd_nat(abs(b as int), abs(a as int)),
        a >= 0 && b >= 0 ==> r.0 >= 0,
    decreases abs(a as int),
{
    proof {
        lemma_egcd_spec(a as int, b as int);
    }
    if a == 0 {
        return (b, 0, 1);
    }
    let au: i128 = if a < 0 {
        -a
    } else {
        a
    };
    let bu: i128 = if b < 0 {
        -b
    } else {
        b
    };
    let qm: i128 = ((bu as u128) / (au as u128)) as i128;
    let q: i128 = if (a < 0) == (b < 0) {
        qm
    } else {
        -qm
    };
    proof {
        lemma_truncated_div_mod(b as int, a as int);
        lemma_mod_bound(bu as int, au as int);
        lemma_fundamental_div_mod(bu as int, au as int);
        assert(q == tdiv(b as int, a as int));
        assert(qm * au <= bu) by (nonlinear_arith)
            requires
                bu as int == au * (bu as int / au as int) + bu as int % au as int,
                0 <= bu as int % au as int,
                qm == bu as int / au as int,
                au >= 1,
        ;
        assert(abs((b - q * a) as int) < au && q * a == if b >= 0 { qm * au } else {
            -(qm * au)
        }) by (nonlinear_arith)
            requires
                q == tdiv(b as int, a as int),
                b as int == a * q + tmod(b as int, a as int),
                abs(tmod(b as int, a as int)) == abs(b as int) % abs(a as int),
                abs(b as int) % abs(a as int) < abs(a as int),
                au == abs(a as int),
                bu == abs(b as int),
                qm == abs(tdiv(b as int, a as int)),
                qm * au <= bu,
        ;
    }
    let rm: i128 = b - q * a;
    let (g, x1, y1) = extended_gcd(rm, a);
    proof {
        lemma_egcd_spec(rm as int, a as int);
        // the inner gcd's magnitude is at least one and at most the
        // magnitudes it divides, bounding the coefficients
        let (g1, sx1, sy1) = egcd_spec(rm as int, a as int);
        lemma_gcd_divides(abs(a as int), abs(rm as int));
        lemma_fundamental_div_mod(abs(a as int) as int, abs(g1) as int);
        assert(abs(g1) <= abs(a as int)) by (nonlinear_arith)
            requires
                abs(a as int) as int == abs(g1) * (abs(a as int) as int / abs(g1) as int) + abs(
                    a as int,
                ) % abs(g1),
                abs(a as int) % abs(g1) == 0,
                abs(a as int) >= 1,
                abs(g1) >= 1,
        ;
        assert(abs(sx1) <= abs(a as int) && abs(sy1) <= abs(a as int)) by (nonlinear_arith)
            requires
                abs(g1) as int * abs(sx1) as int <= vstd::math::max(
                    abs(a as int) as int,
                    abs(g1) as int,
                ),
                abs(g1) as int * abs(sy1) as int <= vstd::math::max(
                    abs(rm as int) as int,
                    abs(g1) as int,
                ),
                abs(rm as int) < abs(a as int),
                abs(g1) <= abs(a as int),
                abs(g1) >= 1,
        ;
        assert(abs((q * x1) as int) <= abs(b as int)) by (nonlinear_arith)
            requires
                abs(x1 as int) <= abs(a as int),
                abs(q as int) * abs(a as int) as int <= abs(b as int),
                abs(q as int) == qm,
                qm * au <= bu,
                au == abs(a as int),
                bu == abs(b as int),
                q == qm || q == -qm,
        ;
        // the difference is the next coefficient, which the lemma bounds
        let (go, xo, yo) = egcd_spec(a as int, b as int);
        assert(xo == y1 - q * x1 && yo == x1 && go == g);
        assert(abs(xo) <= vstd::math::max(abs(b as int) as int, abs(go) as int))
            by (nonlinear_arith)
            requires
                abs(go) as int * abs(xo) as int <= vstd::math::max(
                    abs(b as int) as int,
                    abs(go) as int,
                ),
                abs(go) >= 1,
        ;
        assert(abs(go) >= 1) by {
            lemma_gcd_divides(abs(b as int), abs(a as int));
        }
    }
    let x = y1 - q * x1;
    (g, x, x1)
}

/// Bezout coefficients exist at the specification level: the returned pair
/// `(x, y)` satisfies `a * x + b * y == gcd_nat(a, b)`.
pub proof fn lemma_bezout(a: nat, b: nat) -> (r: (int, int))
    ensures
        a * r.0 + b * r.1 == gcd_nat(a, b),
    decreases b,
{
    if b == 0 {
        assert(a * 1 + b * 0 == a) by (nonlinear_arith);
        (1, 0)
    } else {
        let (x, y) = lemma_bezout(b, a % b);
        lemma_fundamental_div_mod(a as int, b as int);
        let q = a as int / b as int;
        let rx = y;
        let ry = x - q * y;
        assert(a * rx + b * ry == b * x + (a % b) * y) by (nonlinear_arith)
            requires
                a == b * q + a % b,
                rx == y,
                ry == x - q * y,
        ;
        (rx, ry)
    }
}

/// `i` is the multiplicative inverse of `a` modulo `m`, held as a reduced
/// representative.
pub open spec fn mul_mod_one(a: nat, i: nat, m: nat) -> bool {
    i < m && (a * i) % m == 1nat % m
}

/// The multiplicative inverse modulo `m` is unique among reduced
/// representatives.
pub proof fn lemma_mul_mod_one_unique(a: nat, m: nat, i: nat, j: nat)
    requires
        m >= 1,
        mul_mod_one(a, i, m),
        mul_mod_one(a, j, m),
    ensures
        i == j,
{
    lemma_mul_mod_noop_right(j as int, (a * i) as int, m as int);
    lemma_mul_mod_noop_right(j as int, 1, m as int);
    lemma_small_mod(j, m);
    assert(j as int * ((a * i) as int) == ((j * a * i) as int)) by (nonlinear_arith);
    assert(j == (j * a * i) % m);
    lemma_mul_mod_noop_right(i as int, (a * j) as int, m as int);
    lemma_mul_mod_noop_right(i as int, 1, m as int);
    lemma_small_mod(i, m);
    assert(i as int * ((a * j) as int) == ((i * a * j) as int)) by (nonlinear_arith);
    assert(i == (i * a * j) % m);
    assert(j * a * i == i * a * j) by (nonlinear_arith);
}

/// The modular inverse of `a` modulo `m`: `Some` exactly when `a` and `m`
/// are coprime, and then the reduced representative that multiplies with
/// `a` to one modulo `m`. A zero modulus is accepted only when `a` is not
/// one: the answer is then `None` (nothing is coprime with zero but one),
/// while reducing an inverse modulo zero would be meaningless.
pub fn mod_inverse(a: u64, m: u64) -> (r: Option<u64>)
    requires
        m >= 1 || a != 1,
    ensures
        (r is Some) <==> gcd_nat(a as nat, m as nat) == 1,
        r matches Some(i) ==> mul_mod_one(a as nat, i as nat, m as nat),
{
    let (g, x, _y) = extended_gcd(a as i128, m as i128);
    proof {
        // for non-negative inputs the gcd is the non-negative one, and it
        // is symmetric in its arguments
        lemma_gcd_comm(a as nat, m as nat);
        assert(g == gcd_nat(m as nat, a as nat));
    }
    if g != 1 {
        None
    } else {
        proof {
            // a zero modulus here would force the gcd to be the excluded
            // value one
            if m == 0 {
                lemma_small_mod(0, a as nat);
                assert(gcd_nat(0, a as nat) == a);
            }
            // the coefficient of a is bounded by the modulus
            lemma_egcd_spec(a as int, m as int);
            assert(abs(x as int) <= m) by (nonlinear_arith)
                requires
                    abs(g as int) as int * abs(x as int) as int <= vstd::math::max(
                        abs(m as int) as int,
                        abs(g as int) as int,
                    ),
                    g == 1,
                    m >= 1,
            ;
        }
        let mi = m as i128;
        let xm = if x < 0 {
            x + mi
        } else {
            x
        };
        let inv = if xm >= mi {
            xm - mi
        } else {
            xm
        };
        proof {
            let ai: int = a as int;
            let xi: int = x as int;
            let y: int = _y as int;
            let mm: int = m as int;
            let vi: int = inv as int;
            let c: int = (vi - xi) / mm;
            assert(vi == xi + c * mm && (c == 0 || c == 1 || c == -1)) by (nonlinear_arith)
                requires
                    mm >= 1,
                    vi == xi || vi == xi + mm || vi == xi - mm,
                    c == (vi - xi) / mm,
            ;
            assert(ai * vi == mm * (ai * c) + ai * xi) by (nonlinear_arith)
                requires
                    vi == xi + c * mm,
            ;
            lemma_mod_multiples_vanish(ai * c, ai * xi, mm);
            lemma_mod_multiples_vanish(-y, 1, mm);
            assert(ai * xi == mm * (-y) + 1) by (nonlinear_arith)
                requires
                    ai * xi + mm * y == 1,
            ;
            assert((ai * vi) % mm == 1int % mm);
            assert((a as nat) * (inv as nat) == ai * vi) by (nonlinear_arith)
                requires
                    ai == a as nat,
                    vi == inv as nat,
            ;
        }
        Some(inv as u64)
    }
}

/// Fast modular exponentiation by repeated squaring: `base` to the power
/// `exp`, reduced modulo `modulus`.
pub fn mod_pow(base: u64, exp: u64, modulus: u64) -> (r: u64)
    requires
        modulus >= 1,
    ensures
        r == pow(base as int, exp as nat) % (modulus as int),
{
    if modulus == 1 {
        proof {
            lemma_fundamental_div_mod(pow(base as int, exp as nat), 1);
            lemma_mod_bound(pow(base as int, exp as nat), 1);
        }
        return 0;
    }
    let m: u128 = modulus as u128;
    let mut result: u128 = 1;
    let mut b: u128 = (base as u128) % m;
    let mut e: u64 = exp;
    proof {
        lemma_pow_mod_noop(base as int, exp as nat, m as int);
        lemma_mul_mod_noop_right(1, pow(b as int, e as nat), m as int);
        lemma_mul_mod_noop_right(1, pow(base as int, exp as nat), m as int);
    }
    while e > 0
        invariant
            2 <= m <= u64::MAX,
            m == modulus,
            result < m,
            b < m,
            (result * pow(b as int, e as nat)) % (m as int) == pow(base as int, exp as nat) % (
            m as int),
        decreases e,
    {
        let ghost result0: int = result as int;
        let ghost b0: int = b as int;
        let ghost e0: nat = e as nat;
        proof {
            assert(result * b < m * m && b * b < m * m && m * m <= u128::MAX)
                by (nonlinear_arith)
                requires
                    result < m,
                    b < m,
                    2 <= m <= u64::MAX,
            ;
        }
        if e % 2 == 1 {
            result = (result * b) % m;
        }
        e = e / 2;
        b = (b * b) % m;
        proof {
            let mi = m as int;
            lemma_pow_multiplies(b0, 2, e as nat);
            lemma_pow1(b0);
            lemma_pow_adds(b0, 1, 1);
            assert(pow(b0, 2) == b0 * b0);
            // pow(b0, e0) splits into the square part and, when odd, one factor
            if e0 % 2 == 1 {
                lemma_pow_adds(b0, 1, (2 * (e0 / 2)) as nat);
                assert(e0 == 1 + 2 * (e0 / 2));
                assert(pow(b0, e0) == b0 * pow(b0 * b0, e as nat));
            } else {
                assert(e0 == 2 * (e0 / 2));
                assert(pow(b0, e0) == pow(b0 * b0, e as nat));
            }
            lemma_pow_mod_noop(b0 * b0, e as nat, mi);
            // replace the squared base by its reduced form
            lemma_mul_mod_noop_right(result as int, pow(b as int, e as nat), mi);
            lemma_mul_mod_noop_right(result as int, pow(b0 * b0, e as nat), mi);
            if e0 % 2 == 1 {
                // fold the odd factor into the accumulator
                lemma_mul_mod_noop_general(result0 * b0, pow(b0 * b0, e as nat), mi);
                assert((result0 * b0) * pow(b0 * b0, e as nat) == result0 * (b0 * pow(
                    b0 * b0,
                    e as nat,
                ))) by (nonlinear_arith);
                lemma_mul_mod_noop_general(result0, b0 * pow(b0 * b0, e as nat), mi);
                assert((result * pow(b as int, e as nat)) % mi == (result0 * pow(b0, e0)) % mi);
            } else {
                assert((result * pow(b as int, e as nat)) % mi == (result0 * pow(b0, e0)) % mi);
            }
        }
    }
    proof {
        vstd::arithmetic::power::lemma_pow0(b as int);
        assert(result * pow(b as int, 0) == result) by (nonlinear_arith)
            requires
                pow(b as int, 0) == 1,
        ;
        lemma_small_mod(result as nat, m as nat);
        assert(result == pow(base as int, exp as nat) % (m as int));
    }
    result as u64
}

} // verus!
