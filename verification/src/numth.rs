//! Divisibility, the greatest common divisor, and the cycle structure of
//! the map `j -> (j + o) mod n`.
//!
//! Rotating a closed path in place follows `gcd(o, n)` disjoint index
//! cycles; the lemmas here justify that decomposition: each cycle has
//! exactly `n / gcd(o, n)` distinct members, first returns to its start
//! after that many steps, stays inside one residue class modulo
//! `gcd(o, n)`, and reaches every index of that class.

use vstd::prelude::*;
use vstd::arithmetic::div_mod::*;

verus! {

/// `d` divides `n`.
pub open spec fn divides(d: int, n: int) -> bool {
    exists|k: int| n == #[trigger] (k * d)
}

/// Euclid's greatest common divisor.
pub open spec fn gcd(a: nat, b: nat) -> nat
    decreases b,
{
    if b == 0 {
        a
    } else {
        gcd(b, a % b)
    }
}

/// The greatest common divisor divides both arguments.
pub proof fn lemma_gcd_divides(a: nat, b: nat)
    ensures
        divides(gcd(a, b) as int, a as int),
        divides(gcd(a, b) as int, b as int),
    decreases b,
{
    if b == 0 {
        assert(a as int == 1 * (a as int));
        assert(0int == 0 * (gcd(a, b) as int)) by (nonlinear_arith);
    } else {
        lemma_gcd_divides(b, a % b);
        let g = gcd(b, a % b) as int;
        let k1 = choose|k: int| b as int == #[trigger] (k * g);
        let k2 = choose|k: int| (a % b) as int == #[trigger] (k * g);
        lemma_fundamental_div_mod(a as int, b as int);
        let q = a as int / b as int;
        assert(a as int == (k1 * q + k2) * g) by (nonlinear_arith)
            requires
                b as int == k1 * g,
                (a % b) as int == k2 * g,
                a as int == (b as int) * q + (a % b) as int,
        ;
    }
}

/// A positive number has only positive divisors.
pub proof fn lemma_divides_pos(d: int, n: int)
    requires
        divides(d, n),
        n >= 1,
        d >= 0,
    ensures
        d >= 1,
{
    if d == 0 {
        let k = choose|k: int| n == #[trigger] (k * d);
        assert(k * 0 == 0) by (nonlinear_arith);
    }
}

/// A positive divisor splits its multiple exactly.
pub proof fn lemma_divides_factor(d: int, n: int)
    requires
        divides(d, n),
        d >= 1,
    ensures
        n == d * (n / d),
{
    let k = choose|k: int| n == #[trigger] (k * d);
    assert(k * d == d * k) by (nonlinear_arith);
    lemma_div_multiples_vanish(k, d);
}

/// A divisor of a positive number is no larger than it.
pub proof fn lemma_divides_le(d: int, n: int)
    requires
        divides(d, n),
        n >= 1,
        d >= 1,
    ensures
        d <= n,
{
    let k = choose|k: int| n == #[trigger] (k * d);
    assert(k >= 1 ==> k * d >= d) by (nonlinear_arith)
        requires
            d >= 1,
    ;
    assert(k <= 0 ==> k * d <= 0) by (nonlinear_arith)
        requires
            d >= 1,
    ;
}

/// Divisibility stated through the remainder.
pub proof fn lemma_divides_iff_mod(d: int, n: int)
    requires
        d >= 1,
    ensures
        divides(d, n) <==> n % d == 0,
{
    if divides(d, n) {
        let k = choose|k: int| n == #[trigger] (k * d);
        lemma_mod_multiples_basic(k, d);
    }
    if n % d == 0 {
        lemma_fundamental_div_mod(n, d);
        let q = n / d;
        assert(n == q * d) by (nonlinear_arith)
            requires
                n == d * q + 0,
        ;
    }
}

/// Bezout coefficients for the greatest common divisor.
pub proof fn lemma_gcd_bezout(a: nat, b: nat) -> (c: (int, int))
    ensures
        gcd(a, b) as int == (a as int) * c.0 + (b as int) * c.1,
    decreases b,
{
    if b == 0 {
        assert((a as int) * 1 + (b as int) * 0 == a as int) by (nonlinear_arith);
        (1int, 0int)
    } else {
        let (x, y) = lemma_gcd_bezout(b, a % b);
        lemma_fundamental_div_mod(a as int, b as int);
        let q = a as int / b as int;
        let nx = y;
        let ny = x - q * y;
        assert((a as int) * nx + (b as int) * ny == (b as int) * x + ((a % b) as int) * y)
            by (nonlinear_arith)
            requires
                (a % b) as int == a as int - (b as int) * q,
                nx == y,
                ny == x - q * y,
        ;
        (nx, ny)
    }
}

/// With `g = gcd(o, n)`: `n` divides `m * o` exactly when `n / g`
/// divides `m`.
pub proof fn lemma_gcd_cancel(o: nat, n: nat, m: int)
    requires
        1 <= o,
        1 <= n,
    ensures
        divides(n as int, m * (o as int)) <==> divides((n / gcd(o, n)) as int, m),
{
    let g = gcd(o, n) as int;
    lemma_gcd_divides(o, n);
    lemma_divides_pos(g, o as int);
    lemma_divides_factor(g, n as int);
    lemma_divides_factor(g, o as int);
    let np = (n as int) / g;
    let op = (o as int) / g;
    assert((n / gcd(o, n)) as int == np);
    if divides(n as int, m * (o as int)) {
        let t = choose|k: int| m * (o as int) == #[trigger] (k * (n as int));
        let (x, y) = lemma_gcd_bezout(o, n);
        assert(m * g == g * (np * (t * x + m * y))) by (nonlinear_arith)
            requires
                g == (o as int) * x + (n as int) * y,
                m * (o as int) == t * (n as int),
                n as int == g * np,
        ;
        assert(m == np * (t * x + m * y)) by (nonlinear_arith)
            requires
                m * g == g * (np * (t * x + m * y)),
                g >= 1,
        ;
        assert(m == (t * x + m * y) * np) by (nonlinear_arith)
            requires
                m == np * (t * x + m * y),
        ;
    }
    if divides(np, m) {
        let k = choose|j: int| m == #[trigger] (j * np);
        assert(m * (o as int) == (k * op) * (n as int)) by (nonlinear_arith)
            requires
                m == k * np,
                o as int == g * op,
                n as int == g * np,
        ;
    }
}

/// One application step of the rotation cycle.
pub proof fn lemma_cycle_step(o: int, n: int, i: int, m: int)
    requires
        1 <= n,
        0 <= o < n,
        0 <= i < n,
        0 <= m,
    ensures
        ((i + m * o) % n + o) % n == (i + (m + 1) * o) % n,
{
    lemma_mod_pos_bound(i + m * o, n);
    lemma_small_mod(o as nat, n as nat);
    lemma_add_mod_noop(i + m * o, o, n);
    lemma_mod_twice(i + m * o, n);
    assert(i + m * o + o == i + (m + 1) * o) by (nonlinear_arith);
}

/// A cycle returns to its base exactly at multiples of `n / gcd(o, n)`.
pub proof fn lemma_cycle_return(o: nat, n: nat, i: int, m: int)
    requires
        1 <= o < n,
        0 <= i < n,
        0 <= m,
    ensures
        ((i + m * (o as int)) % (n as int) == i) <==> divides((n / gcd(o, n)) as int, m),
{
    let no = n as int;
    let oo = o as int;
    lemma_gcd_cancel(o, n, m);
    lemma_mod_pos_bound(m * oo, no);
    lemma_mod_multiples_basic(m, no);
    lemma_add_mod_noop_right(i, m * oo, no);
    lemma_small_mod(i as nat, n as nat);
    let r = (m * oo) % no;
    assert((i + m * oo) % no == (i + r) % no);
    lemma_divides_iff_mod(no, m * oo);
    if r == 0 {
        assert((i + m * oo) % no == i);
    } else {
        if i + r < no {
            lemma_small_mod((i + r) as nat, n as nat);
            assert((i + r) % no != i);
        } else {
            lemma_mod_sub_multiples_vanish(i + r, no);
            lemma_small_mod((i + r - no) as nat, n as nat);
            assert((i + r) % no == i + r - no);
            assert((i + r) % no != i);
        }
        assert(!divides(no, m * oo));
    }
}

/// Every member of a rotation cycle stays in the residue class of its
/// base modulo `gcd(o, n)`.
pub proof fn lemma_cycle_residue(o: nat, n: nat, i: int, m: int)
    requires
        1 <= o < n,
        0 <= i < n,
        0 <= m,
    ensures
        ((i + m * (o as int)) % (n as int)) % (gcd(o, n) as int) == i % (gcd(o, n) as int),
{
    let g = gcd(o, n) as int;
    lemma_gcd_divides(o, n);
    lemma_divides_pos(g, o as int);
    lemma_divides_factor(g, n as int);
    lemma_divides_factor(g, o as int);
    let np = (n as int) / g;
    let op = (o as int) / g;
    assert(np >= 1) by (nonlinear_arith)
        requires
            n as int == g * np,
            n >= 1,
            g >= 1,
    ;
    // (x % n) % g == x % g because g divides n
    lemma_mod_mod(i + m * (o as int), g, np);
    assert(g * np == n as int);
    // (i + m*o) % g == i % g because g divides m*o
    assert(m * (o as int) == g * (m * op)) by (nonlinear_arith)
        requires
            o as int == g * op,
    ;
    lemma_mod_multiples_vanish(m * op, i, g);
}

/// Every index in the base's residue class modulo `gcd(o, n)` is reached
/// by the cycle within `n / gcd(o, n)` steps.
pub proof fn lemma_cycle_coverage(o: nat, n: nat, i: int, x: int)
    requires
        1 <= o < n,
        0 <= i < n,
        0 <= x < n,
        x % (gcd(o, n) as int) == i % (gcd(o, n) as int),
    ensures
        exists|m: int|
            0 <= m < (n / gcd(o, n)) as int && #[trigger] ((i + m * (o as int)) % (n as int))
                == x,
{
    let g = gcd(o, n) as int;
    let no = n as int;
    let oo = o as int;
    lemma_gcd_divides(o, n);
    lemma_divides_pos(g, oo);
    lemma_divides_factor(g, no);
    lemma_divides_factor(g, oo);
    let np = no / g;
    let op = oo / g;
    assert(np >= 1) by (nonlinear_arith)
        requires
            no == g * np,
            no >= 1,
            g >= 1,
    ;
    // g divides x - i
    lemma_mod_equivalence(x, i, g);
    lemma_fundamental_div_mod(x - i, g);
    let t = (x - i) / g;
    assert(x - i == g * t);
    let (u, v) = lemma_gcd_bezout(o, n);
    let m0 = t * u;
    assert(x - (i + m0 * oo) == no * (t * v)) by (nonlinear_arith)
        requires
            g == oo * u + no * v,
            x - i == g * t,
            m0 == t * u,
    ;
    lemma_mod_multiples_vanish(t * v, i + m0 * oo, no);
    lemma_small_mod(x as nat, n as nat);
    assert((i + m0 * oo) % no == x);
    // reduce the step count modulo np
    lemma_fundamental_div_mod(m0, np);
    lemma_mod_bound(m0, np);
    let m = m0 % np;
    let q = m0 / np;
    assert(i + m0 * oo == (i + m * oo) + no * (q * op)) by (nonlinear_arith)
        requires
            m0 == np * q + m,
            oo == g * op,
            no == g * np,
    ;
    lemma_mod_multiples_vanish(q * op, i + m * oo, no);
    assert((i + m * oo) % no == x);
    assert(0 <= m < (n / gcd(o, n)) as int && (i + m * (o as int)) % (n as int) == x);
}

/// Two cycle members at step distance not divisible by `n / gcd(o, n)`
/// are distinct indices.
pub proof fn lemma_cycle_distinct(o: nat, n: nat, i: int, a: int, b: int)
    requires
        1 <= o < n,
        0 <= i < n,
        0 <= a < b,
        (b - a) % ((n / gcd(o, n)) as int) != 0,
    ensures
        (i + a * (o as int)) % (n as int) != (i + b * (o as int)) % (n as int),
{
    let no = n as int;
    let oo = o as int;
    let np = (n / gcd(o, n)) as int;
    lemma_gcd_divides(o, n);
    lemma_divides_pos(gcd(o, n) as int, oo);
    lemma_divides_factor(gcd(o, n) as int, no);
    assert(np >= 1) by (nonlinear_arith)
        requires
            no == (gcd(o, n) as int) * np,
            no >= 1,
            gcd(o, n) >= 1,
    ;
    if (i + a * oo) % no == (i + b * oo) % no {
        lemma_mod_equivalence(i + b * oo, i + a * oo, no);
        assert((i + b * oo) - (i + a * oo) == (b - a) * oo) by (nonlinear_arith);
        assert(((b - a) * oo) % no == 0);
        lemma_divides_iff_mod(no, (b - a) * oo);
        lemma_gcd_cancel(o, n, b - a);
        lemma_divides_iff_mod(np, b - a);
    }
}

/// Relies on `num_integer::gcd`: returns the greatest common divisor of
/// its two arguments (zero when both are zero).
#[verifier::external_body]
pub(crate) fn gcd_usize(a: usize, b: usize) -> (g: usize)
    ensures
        g == gcd(a as nat, b as nat),
{
    num_integer::gcd(a, b)
}

} // verus!
