//! The prime `2^64 - 2^32 + 1` and its multiplicative structure.
//!
//! The prime is of the form `k * 2^32 + 1` with `k < 2^32`. An element whose `2^31`-th power is
//! minus one has order `2^32` modulo every proper divisor, which leaves no room for a divisor
//! below `2^32`.
use vstd::arithmetic::div_mod::{
    lemma_add_mod_noop, lemma_fundamental_div_mod, lemma_mod_multiples_basic,
    lemma_mod_multiples_vanish, lemma_mul_mod_noop, lemma_mul_mod_noop_left,
    lemma_mul_mod_noop_right, lemma_small_mod, lemma_sub_mod_noop,
};
use vstd::arithmetic::power::{
    lemma_pow1, lemma_pow_adds, lemma_pow_mod_noop, lemma_pow_multiplies, pow,
};
use vstd::prelude::*;

verus! {

/// The prime `2^64 - 2^32 + 1`.
pub const ORDER: u64 = 0xFFFF_FFFF_0000_0001;

/// A generator of the subgroup of order `2^32`.
pub const POWER_OF_TWO_ROOT: u64 = 1753635133440165772;

/// A generator of the multiplicative group.
pub const GROUP_GENERATOR: u64 = 7;

/// The order as a mathematical integer.
pub open spec fn order() -> int {
    ORDER as int
}

/// One squaring in a chain of powers modulo the prime.
proof fn lemma_square(base: int, e: nat, y: int, z: int)
    requires
        pow(base, e) % order() == y,
        (y * y) % order() == z,
    ensures
        pow(base, 2 * e) % order() == z,
{
    lemma_pow_adds(base, e, e);
    lemma_mul_mod_noop(pow(base, e), pow(base, e), order());
}

/// The `2^31`-th power of the two-power root is minus one.
pub proof fn lemma_root_power()
    ensures
        pow(POWER_OF_TWO_ROOT as int, 0x8000_0000) % order() == order() - 1,
{
    let base = POWER_OF_TWO_ROOT as int;
    lemma_pow1(base);
    lemma_square(base, 1, 1753635133440165772, 4614640910117430873);
    lemma_square(base, 2, 4614640910117430873, 9123114210336311365);
    lemma_square(base, 4, 9123114210336311365, 16116352524544190054);
    lemma_square(base, 8, 16116352524544190054, 6414415596519834757);
    lemma_square(base, 16, 6414415596519834757, 1213594585890690845);
    lemma_square(base, 32, 1213594585890690845, 17096174751763063430);
    lemma_square(base, 64, 17096174751763063430, 5456943929260765144);
    lemma_square(base, 128, 5456943929260765144, 9713644485405565297);
    lemma_square(base, 256, 9713644485405565297, 16905767614792059275);
    lemma_square(base, 512, 16905767614792059275, 5416168637041100469);
    lemma_square(base, 1024, 5416168637041100469, 17654865857378133588);
    lemma_square(base, 2048, 17654865857378133588, 3511170319078647661);
    lemma_square(base, 4096, 3511170319078647661, 18146160046829613826);
    lemma_square(base, 8192, 18146160046829613826, 9306717745644682924);
    lemma_square(base, 16384, 9306717745644682924, 12380578893860276750);
    lemma_square(base, 32768, 12380578893860276750, 6115771955107415310);
    lemma_square(base, 65536, 6115771955107415310, 17776499369601055404);
    lemma_square(base, 131072, 17776499369601055404, 16207902636198568418);
    lemma_square(base, 262144, 16207902636198568418, 1532612707718625687);
    lemma_square(base, 524288, 1532612707718625687, 17492915097719143606);
    lemma_square(base, 1048576, 17492915097719143606, 455906449640507599);
    lemma_square(base, 2097152, 455906449640507599, 11353340290879379826);
    lemma_square(base, 4194304, 11353340290879379826, 1803076106186727246);
    lemma_square(base, 8388608, 1803076106186727246, 13797081185216407910);
    lemma_square(base, 16777216, 13797081185216407910, 17870292113338400769);
    lemma_square(base, 33554432, 17870292113338400769, 549755813888);
    lemma_square(base, 67108864, 549755813888, 70368744161280);
    lemma_square(base, 134217728, 70368744161280, 17293822564807737345);
    lemma_square(base, 268435456, 17293822564807737345, 18446744069397807105);
    lemma_square(base, 536870912, 18446744069397807105, 281474976710656);
    lemma_square(base, 1073741824, 281474976710656, 18446744069414584320);
}

/// The `2^32`-th power of the group generator is not one.
pub proof fn lemma_generator_power()
    ensures
        pow(GROUP_GENERATOR as int, 0x1_0000_0000) % order() != 1,
{
    let base = GROUP_GENERATOR as int;
    lemma_pow1(base);
    lemma_square(base, 1, 7, 49);
    lemma_square(base, 2, 49, 2401);
    lemma_square(base, 4, 2401, 5764801);
    lemma_square(base, 8, 5764801, 33232930569601);
    lemma_square(base, 16, 33232930569601, 3732854072722565977);
    lemma_square(base, 32, 3732854072722565977, 11250886851934520606);
    lemma_square(base, 64, 11250886851934520606, 12159723539389677939);
    lemma_square(base, 128, 12159723539389677939, 1536671775522476176);
    lemma_square(base, 256, 1536671775522476176, 18371408314118145657);
    lemma_square(base, 512, 18371408314118145657, 2431605942540367610);
    lemma_square(base, 1024, 2431605942540367610, 6358221588783459004);
    lemma_square(base, 2048, 6358221588783459004, 10083885515493449909);
    lemma_square(base, 4096, 10083885515493449909, 15094611910849701842);
    lemma_square(base, 8192, 15094611910849701842, 18060412910171584788);
    lemma_square(base, 16384, 18060412910171584788, 10529651373896570371);
    lemma_square(base, 32768, 10529651373896570371, 11156834669773791359);
    lemma_square(base, 65536, 11156834669773791359, 11840798296997857860);
    lemma_square(base, 131072, 11840798296997857860, 1447330804268045396);
    lemma_square(base, 262144, 1447330804268045396, 15265864706138236984);
    lemma_square(base, 524288, 15265864706138236984, 12990112920302977158);
    lemma_square(base, 1048576, 12990112920302977158, 16491641580159807679);
    lemma_square(base, 2097152, 16491641580159807679, 17642952523097762870);
    lemma_square(base, 4194304, 17642952523097762870, 4419967652436713981);
    lemma_square(base, 8388608, 4419967652436713981, 7206579306846404579);
    lemma_square(base, 16777216, 7206579306846404579, 17869454728573311546);
    lemma_square(base, 33554432, 17869454728573311546, 4919185416341570378);
    lemma_square(base, 67108864, 4919185416341570378, 14445320067108370181);
    lemma_square(base, 134217728, 14445320067108370181, 17666966662873528270);
    lemma_square(base, 268435456, 17666966662873528270, 5473358340599679662);
    lemma_square(base, 536870912, 5473358340599679662, 4120449531758749877);
    lemma_square(base, 1073741824, 4120449531758749877, 17380019310548783236);
    lemma_square(base, 2147483648, 17380019310548783236, 12275445934081160404);
}

/// More arguments than values: some value is taken twice.
proof fn lemma_pigeonhole(f: spec_fn(int) -> int, n: int, d: int)
    requires
        0 <= d < n,
        forall|i: int| 0 <= i < n ==> 0 <= #[trigger] f(i) < d,
    ensures
        exists|i: int, j: int| 0 <= i < j < n && #[trigger] f(i) == #[trigger] f(j),
{
    let x = vstd::set_lib::set_int_range(0, n);
    let range = vstd::set_lib::set_int_range(0, d);
    vstd::set_lib::lemma_int_range(0, n);
    vstd::set_lib::lemma_int_range(0, d);
    let image = x.map(f);
    if vstd::relations::injective_on(f, x) {
        vstd::set_lib::lemma_map_size(x, image, f);
        assert(image.subset_of(range));
        vstd::set_lib::lemma_len_subset(image, range);
    } else {
        let (a, b) = choose|a: int, b: int|
            x.contains(a) && x.contains(b) && #[trigger] f(a) == #[trigger] f(b) && a != b;
        assert(x.contains(a) && x.contains(b) && f(a) == f(b) && a != b);
        if a < b {
            assert(0 <= a < b < n && f(a) == f(b));
        } else {
            assert(0 <= b < a < n && f(b) == f(a));
        }
    }
}

/// Congruence modulo the prime gives congruence modulo each of its divisors.
proof fn lemma_mod_divisor(a: int, b: int, m: int, d: int)
    requires
        0 < d,
        0 < m,
        m % d == 0,
        a % m == b % m,
    ensures
        a % d == b % d,
{
    lemma_fundamental_div_mod(a, m);
    lemma_fundamental_div_mod(b, m);
    lemma_fundamental_div_mod(m, d);
    let k = m / d;
    let t = a / m - b / m;
    assert(a - b == d * (k * t)) by (nonlinear_arith)
        requires
            a == m * (a / m) + a % m,
            b == m * (b / m) + b % m,
            a % m == b % m,
            m == d * k,
            t == a / m - b / m,
    ;
    assert(a == b + (k * t) * d) by (nonlinear_arith)
        requires
            a - b == d * (k * t),
    ;
    vstd::arithmetic::div_mod::lemma_mod_multiples_vanish(k * t, b, d);
    assert(d * (k * t) + b == a);
}

/// An element whose `2^s`-th power is minus one has no power one with a positive exponent below
/// `2^(s + 1)`.
proof fn lemma_no_small_order(b: int, d: int, s: nat, k: nat, top: nat)
    requires
        2 < d,
        top == vstd::arithmetic::power2::pow2(s),
        pow(b, top) % d == d - 1,
        0 < k < 2 * top,
    ensures
        pow(b, k) % d != 1,
    decreases s,
{
    vstd::arithmetic::power2::lemma2_to64();
    if k % 2 == 1 {
        // The power with exponent `top * k` is an odd power of minus one, and one.
        lemma_pow_multiplies(b, top, k);
        lemma_pow_multiplies(b, k, top);
        assert(top * k == k * top) by (nonlinear_arith);
        lemma_pow_mod_noop(pow(b, top), k, d);
        lemma_pow_mod_noop(pow(b, k), top, d);
        vstd::arithmetic::power::lemma1_pow(top);
        lemma_small_mod(1, d as nat);
        lemma_odd_power_of_minus_one(d, k);
    } else {
        // Halve: work with the square of the base.
        let h = k / 2;
        let c = b * b;
        lemma_pow1(b);
        assert(pow(b, 2) == c) by {
            lemma_pow_adds(b, 1, 1);
        }
        lemma_pow_multiplies(b, 2, h);
        assert(pow(c, h) == pow(b, k));
        if s == 0 {
            assert(top == 1);
        } else {
            vstd::arithmetic::power2::lemma_pow2_unfold(s);
            let half = vstd::arithmetic::power2::pow2((s - 1) as nat);
            lemma_pow_multiplies(b, 2, half);
            assert(pow(c, half) == pow(b, top));
            lemma_no_small_order(c, d, (s - 1) as nat, h, half);
        }
    }
}

/// An odd power of minus one is minus one.
proof fn lemma_odd_power_of_minus_one(d: int, k: nat)
    requires
        2 < d,
        k % 2 == 1,
    ensures
        pow(d - 1, k) % d == d - 1,
    decreases k,
{
    lemma_pow1(d - 1);
    lemma_small_mod((d - 1) as nat, d as nat);
    if k > 1 {
        let j = (k - 2) as nat;
        lemma_odd_power_of_minus_one(d, j);
        lemma_pow_adds(d - 1, j, 2);
        lemma_pow_adds(d - 1, 1, 1);
        let q = (d - 1) * (d - 1);
        assert(q == (d - 2) * d + 1) by (nonlinear_arith)
            requires
                q == (d - 1) * (d - 1),
        ;
        assert(q % d == 1) by {
            vstd::arithmetic::div_mod::lemma_mod_multiples_vanish(d - 2, 1, d);
            assert(d * (d - 2) + 1 == q) by (nonlinear_arith)
                requires
                    q == (d - 2) * d + 1,
            ;
            lemma_small_mod(1, d as nat);
        }
        lemma_mul_mod_noop(pow(d - 1, j), q, d);
        assert((d - 1) * 1 == d - 1);
    }
}

/// The prime has no divisor between one and `2^32`.
proof fn lemma_no_small_divisor(d: int)
    requires
        1 < d < 0x1_0000_0000,
    ensures
        order() % d != 0,
{
    if order() % d == 0 {
        let b = POWER_OF_TWO_ROOT as int;
        let top: nat = 0x8000_0000;
        let n: nat = 0x1_0000_0000;
        assert(d != 2);
        vstd::arithmetic::power2::lemma2_to64();
        lemma_root_power();
        lemma_small_mod((order() - 1) as nat, order() as nat);
        lemma_mod_divisor(pow(b, top), order() - 1, order(), d);
        assert((order() - 1) % d == d - 1) by {
            lemma_fundamental_div_mod(order(), d);
            let q = order() / d;
            vstd::arithmetic::div_mod::lemma_mod_multiples_vanish(q - 1, d - 1, d);
            assert(d * (q - 1) + (d - 1) == order() - 1) by (nonlinear_arith)
                requires
                    order() == d * q,
            ;
            lemma_small_mod((d - 1) as nat, d as nat);
        }
        let f = |i: int| pow(b, i as nat) % d;
        lemma_pigeonhole(f, n as int, d);
        let (i, j) = choose|i: int, j: int|
            0 <= i < j < n && #[trigger] f(i) == #[trigger] f(j);
        // Multiply by the power that completes `i` to `n`.
        let r = (n - i) as nat;
        let k = (j - i) as nat;
        lemma_pow_adds(b, i as nat, r);
        lemma_pow_adds(b, j as nat, r);
        lemma_mul_mod_noop_left(pow(b, i as nat), pow(b, r), d);
        lemma_mul_mod_noop_left(pow(b, j as nat), pow(b, r), d);
        assert(pow(b, n) % d == pow(b, n + k) % d);
        lemma_pow_adds(b, n, k);
        lemma_pow_adds(b, top, top);
        lemma_mul_mod_noop(pow(b, top), pow(b, top), d);
        lemma_odd_power_of_minus_one(d, 1);
        let q = (d - 1) * (d - 1);
        assert(q % d == 1) by {
            vstd::arithmetic::div_mod::lemma_mod_multiples_vanish(d - 2, 1, d);
            assert(d * (d - 2) + 1 == q) by (nonlinear_arith)
                requires
                    q == (d - 1) * (d - 1),
            ;
            lemma_small_mod(1, d as nat);
        }
        assert(pow(b, n) % d == 1);
        lemma_mul_mod_noop_left(pow(b, n), pow(b, k), d);
        assert(1 * pow(b, k) == pow(b, k));
        assert(pow(b, k) % d == 1);
        lemma_no_small_order(b, d, 31, k, top);
    }
}

/// The number `2^64 - 2^32 + 1` is prime: a divisor below it is one.
pub proof fn lemma_prime(g: int)
    requires
        0 < g < order(),
        order() % g == 0,
    ensures
        g == 1,
{
    if g > 1 {
        lemma_fundamental_div_mod(order(), g);
        let h = order() / g;
        assert(order() == g * h);
        assert(1 < h) by (nonlinear_arith)
            requires
                order() == g * h,
                0 < g < order(),
        ;
        if g < 0x1_0000_0000 {
            lemma_no_small_divisor(g);
        } else {
            assert(h < 0x1_0000_0000) by (nonlinear_arith)
                requires
                    0xFFFF_FFFF_0000_0001 == g * h,
                    g >= 0x1_0000_0000,
            ;
            lemma_mod_multiples_basic(g, h);
            lemma_no_small_divisor(h);
        }
    }
}

/// Euclid's algorithm: two numbers have a common divisor that is a combination of them.
proof fn lemma_combination(x: int, y: int) -> (r: (int, int, int))
    requires
        0 < x,
        0 <= y,
    ensures
        0 < r.0,
        x % r.0 == 0,
        y % r.0 == 0,
        r.0 == r.1 * x + r.2 * y,
    decreases y,
{
    if y == 0 {
        lemma_mod_multiples_basic(1, x);
        lemma_small_mod(0, x as nat);
        (x, 1, 0)
    } else {
        let q = x / y;
        let z = x % y;
        lemma_fundamental_div_mod(x, y);
        let (g, s, t) = lemma_combination(y, z);
        lemma_divides_combination(y, z, q, g);
        assert(q * y + z == x) by (nonlinear_arith)
            requires
                x == y * q + z,
        ;
        assert(g == t * x + (s - t * q) * y) by (nonlinear_arith)
            requires
                g == s * y + t * z,
                x == y * q + z,
        ;
        (g, t, s - t * q)
    }
}

/// A common divisor divides combinations.
proof fn lemma_divides_combination(y: int, z: int, q: int, g: int)
    requires
        0 < g,
        y % g == 0,
        z % g == 0,
    ensures
        (q * y + z) % g == 0,
{
    lemma_mul_mod_noop_right(q, y, g);
    assert(q * 0 == 0);
    lemma_small_mod(0, g as nat);
    lemma_add_mod_noop(q * y, z, g);
}

/// Every number that is not a multiple of the prime has an inverse modulo the prime.
pub proof fn lemma_inverse_exists(a: int) -> (w: int)
    requires
        0 < a < order(),
    ensures
        0 <= w < order(),
        (a * w) % order() == 1,
{
    let (g, s, t) = lemma_combination(a, order());
    assert(g <= a) by {
        lemma_fundamental_div_mod(a, g);
        assert(g <= a) by (nonlinear_arith)
            requires
                a == g * (a / g),
                0 < a,
                0 < g,
        ;
    }
    lemma_prime(g);
    let w = s % order();
    lemma_mul_mod_noop_right(a, s, order());
    assert(a * s == 1 + (-t) * order()) by (nonlinear_arith)
        requires
            1 == s * a + t * order(),
    ;
    lemma_mod_multiples_vanish(-t, 1, order());
    lemma_small_mod(1, order() as nat);
    w
}

/// Inverses modulo the prime are unique.
pub proof fn lemma_inverse_unique(a: int, v: int, w: int)
    requires
        0 <= v < order(),
        0 <= w < order(),
        (a * v) % order() == 1,
        (a * w) % order() == 1,
    ensures
        v == w,
{
    let p = order();
    assert((a * v) * w == (a * w) * v) by (nonlinear_arith);
    lemma_mul_mod_noop_left(a * v, w, p);
    lemma_mul_mod_noop_left(a * w, v, p);
    lemma_small_mod(v as nat, p as nat);
    lemma_small_mod(w as nat, p as nat);
}

/// Returns the inverse of `a` modulo the prime.
pub fn inverse_modulo(a: u64) -> (r: u64)
    requires
        0 < a < ORDER,
    ensures
        r < ORDER,
        (a * r) % order() == 1,
{
    let mut r0: u64 = ORDER;
    let mut r1: u64 = a;
    let mut s0: u64 = 0;
    let mut s1: u64 = 1;
    proof {
        lemma_mod_multiples_basic(1, order());
        lemma_small_mod(a as nat, order() as nat);
        lemma_small_mod(0, order() as nat);
    }
    while r1 > 0
        invariant
            0 < a < ORDER,
            0 < r0 <= ORDER,
            r1 < r0,
            s0 < ORDER,
            s1 < ORDER,
            (s0 * a) % order() == r0 as int % order(),
            (s1 * a) % order() == r1 as int % order(),
            forall|d: int|
                0 < d && #[trigger] (r0 as int % d) == 0 && r1 as int % d == 0 ==> a as int % d == 0
                    && order() % d == 0,
        decreases r1,
    {
        let q: u64 = r0 / r1;
        let r2: u64 = r0 % r1;
        proof {
            lemma_product_fits(q, s1);
        }
        let t: u64 = ((q as u128 * s1 as u128) % ORDER as u128) as u64;
        let s2: u64 = if s0 >= t {
            s0 - t
        } else {
            s0 + (ORDER - t)
        };
        proof {
            lemma_fundamental_div_mod(r0 as int, r1 as int);
            lemma_euclid_step(
                a as int,
                r0 as int,
                r1 as int,
                s0 as int,
                s1 as int,
                q as int,
                s2 as int,
            );
            assert forall|d: int|
                0 < d && #[trigger] (r1 as int % d) == 0 && r2 as int % d == 0 implies a as int % d
                == 0 && order() % d == 0 by {
                lemma_divides_combination(r1 as int, r2 as int, q as int, d);
                assert(q * r1 + r2 == r0) by (nonlinear_arith)
                    requires
                        r0 == r1 * q + r2,
                ;
                assert(r0 as int % d == 0);
            }
        }
        r0 = r1;
        r1 = r2;
        s0 = s1;
        s1 = s2;
    }
    proof {
        let g = r0 as int;
        lemma_mod_multiples_basic(1, g);
        lemma_small_mod(0, g as nat);
        assert(a as int % g == 0 && order() % g == 0);
        lemma_fundamental_div_mod(a as int, g);
        assert(g <= a) by (nonlinear_arith)
            requires
                a == g * (a as int / g),
                0 < a,
                0 < g,
        ;
        lemma_prime(g);
        lemma_small_mod(1, order() as nat);
        assert(s0 * a == a * s0) by (nonlinear_arith);
    }
    s0
}

/// One step of Euclid's algorithm keeps the second coefficient congruent.
proof fn lemma_euclid_step(a: int, r0: int, r1: int, s0: int, s1: int, q: int, s2: int)
    requires
        0 < r1,
        q == r0 / r1,
        0 <= s0 < order(),
        (s0 * a) % order() == r0 as int % order(),
        (s1 * a) % order() == r1 as int % order(),
        s2 == s0 - (q * s1) % order() || s2 == s0 + order() - (q * s1) % order(),
    ensures
        (s2 * a) % order() == (r0 % r1) % order(),
{
    let p = order();
    let u = q * s1;
    let k: int = if s2 == s0 - u % p {
        u / p
    } else {
        u / p + 1
    };
    lemma_fundamental_div_mod(u, p);
    assert(s2 == s0 - u + k * p) by (nonlinear_arith)
        requires
            u == p * (u / p) + u % p,
            k == u / p && s2 == s0 - u % p || k == u / p + 1 && s2 == s0 + p - u % p,
    ;
    assert(s2 * a == (s0 * a - q * (s1 * a)) + (k * a) * p) by (nonlinear_arith)
        requires
            s2 == s0 - u + k * p,
            u == q * s1,
    ;
    lemma_mod_multiples_vanish(k * a, s0 * a - q * (s1 * a), p);
    assert(p * (k * a) == (k * a) * p) by (nonlinear_arith);
    lemma_sub_mod_noop(s0 * a, q * (s1 * a), p);
    lemma_mul_mod_noop_right(q, s1 * a, p);
    lemma_mul_mod_noop_right(q, r1, p);
    lemma_sub_mod_noop(r0, q * r1, p);
    lemma_fundamental_div_mod(r0, r1);
    assert(r0 - q * r1 == r0 % r1) by (nonlinear_arith)
        requires
            r0 == r1 * q + r0 % r1,
    ;
}

/// The product of two machine words fits twice the width.
pub proof fn lemma_product_fits(a: u64, b: u64)
    ensures
        0 <= a * b <= u128::MAX,
{
    assert(0 <= a * b <= 0xFFFF_FFFF_FFFF_FFFF * 0xFFFF_FFFF_FFFF_FFFF) by (nonlinear_arith)
        requires
            0 <= a <= 0xFFFF_FFFF_FFFF_FFFF,
            0 <= b <= 0xFFFF_FFFF_FFFF_FFFF,
    ;
}

} // verus!
