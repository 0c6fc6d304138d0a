//! Integer helpers and matrix transposition.
use vstd::arithmetic::power2::{
    lemma_pow2_pos, lemma_pow2_strictly_increases, lemma_pow2_unfold, pow2,
};
use vstd::prelude::*;

verus! {

/// The least number of bits `k` with `n <= 2^k`.
pub open spec fn is_log2_ceil(n: nat, k: nat) -> bool {
    &&& n <= pow2(k)
    &&& forall|j: nat| #![trigger pow2(j)] j < k ==> pow2(j) < n
}

/// The number of blocks of `b` items that `a` items need.
pub open spec fn ceil_div(a: nat, b: nat) -> nat {
    (a + b - 1) as nat / b
}

/// The number whose `bits` lowest binary digits are those of `n` in reverse order.
pub open spec fn reversed(n: nat, bits: nat) -> nat
    decreases bits,
{
    if bits == 0 {
        0
    } else {
        (n % 2) * pow2((bits - 1) as nat) + reversed(n / 2, (bits - 1) as nat)
    }
}

/// The views of the rows of a matrix.
pub open spec fn rows<T>(m: Seq<Vec<T>>) -> Seq<Seq<T>> {
    Seq::new(m.len(), |i: int| m[i]@)
}

/// Every row of the matrix has `width` entries.
pub open spec fn has_width<T>(m: Seq<Seq<T>>, width: nat) -> bool {
    forall|i: int| 0 <= i < m.len() ==> (#[trigger] m[i]).len() == width
}

/// The matrix with rows and columns exchanged, for a matrix whose rows have `width` entries.
pub open spec fn transposed<T>(m: Seq<Seq<T>>, width: nat) -> Seq<Seq<T>> {
    Seq::new(width, |c: int| Seq::new(m.len(), |r: int| m[r][c]))
}

/// A power of two that fits a machine word has an exponent below the word's width.
pub proof fn lemma_pow2_fits(k: nat)
    requires
        pow2(k) <= usize::MAX,
    ensures
        k < usize::BITS,
        0 < pow2(k),
{
    vstd::arithmetic::power2::lemma2_to64();
    vstd::arithmetic::power2::lemma2_to64_rest();
    lemma_pow2_pos(k);
    if k >= usize::BITS {
        if k > usize::BITS as nat {
            lemma_pow2_strictly_increases(usize::BITS as nat, k);
        }
        assert(pow2(usize::BITS as nat) > usize::MAX);
    }
}

/// A larger exponent gives a larger power of two.
pub proof fn lemma_pow2_monotone(a: nat, b: nat)
    requires
        a <= b,
    ensures
        0 < pow2(a) <= pow2(b),
{
    lemma_pow2_pos(a);
    if a < b {
        lemma_pow2_strictly_increases(a, b);
    }
}

/// A power of two that fits a machine word is at most half of its range.
pub proof fn lemma_pow2_half(k: nat)
    requires
        pow2(k) <= usize::MAX,
    ensures
        2 * pow2(k) <= usize::MAX + 1,
{
    vstd::arithmetic::power2::lemma2_to64();
    vstd::arithmetic::power2::lemma2_to64_rest();
    lemma_pow2_fits(k);
    let top = (usize::BITS - 1) as nat;
    lemma_pow2_monotone(k, top);
    assert(2 * pow2(top) == usize::MAX + 1);
}

/// A number has one rounded-up binary logarithm.
pub proof fn lemma_log2_unique(n: nat, j: nat, k: nat)
    requires
        is_log2_ceil(n, j),
        is_log2_ceil(n, k),
    ensures
        j == k,
{
    if j < k {
        assert(pow2(j) < n);
    }
    if k < j {
        assert(pow2(k) < n);
    }
}

/// Returns `2^k`.
pub fn power_of_two(k: usize) -> (r: usize)
    requires
        pow2(k as nat) <= usize::MAX,
    ensures
        r == pow2(k as nat),
{
    proof {
        lemma_pow2_fits(k as nat);
        vstd::bits::lemma_usize_shl_is_mul(1, k);
    }
    1usize << k
}

/// Returns the least `k` with `n <= 2^k`.
pub fn log2_ceil(n: usize) -> (k: usize)
    ensures
        is_log2_ceil(n as nat, k as nat),
{
    let mut k: usize = 0;
    let mut p: usize = 1;
    proof {
        vstd::arithmetic::power2::lemma2_to64();
    }
    while p < n
        invariant
            p == pow2(k as nat),
            k < usize::BITS,
            forall|j: nat| #![trigger pow2(j)] j < k ==> pow2(j) < n,
        decreases usize::MAX - p,
    {
        proof {
            lemma_pow2_unfold((k + 1) as nat);
        }
        if p > usize::MAX / 2 {
            return k + 1;
        }
        p = p * 2;
        k = k + 1;
        proof {
            lemma_pow2_fits(k as nat);
        }
    }
    k
}

/// Returns the number of blocks of `b` items that `a` items need.
pub fn ceil_div_usize(a: usize, b: usize) -> (r: usize)
    requires
        0 < b,
    ensures
        r == ceil_div(a as nat, b as nat),
{
    if a == 0 {
        proof {
            vstd::arithmetic::div_mod::lemma_basic_div(b - 1, b as int);
        }
        0
    } else {
        proof {
            vstd::arithmetic::div_mod::lemma_div_plus_one(a - 1, b as int);
            vstd::arithmetic::div_mod::lemma_div_nonincreasing(a - 1, b as int);
        }
        (a - 1) / b + 1
    }
}

/// Reversal stays below `2^bits`.
pub proof fn lemma_reversed_bound(n: nat, bits: nat)
    ensures
        reversed(n, bits) < pow2(bits),
    decreases bits,
{
    lemma_pow2_pos(bits);
    if bits > 0 {
        lemma_reversed_bound(n / 2, (bits - 1) as nat);
        lemma_pow2_unfold(bits);
        let p = pow2((bits - 1) as nat);
        assert((n % 2) * p <= p) by (nonlinear_arith)
            requires
                n % 2 <= 1,
        ;
    }
}

/// The reversal of a number split at its highest digit.
proof fn lemma_reversed_high(n: nat, bits: nat)
    requires
        bits > 0,
        n < pow2(bits),
    ensures
        reversed(n, bits) == n / pow2((bits - 1) as nat) + 2 * reversed(
            n % pow2((bits - 1) as nat),
            (bits - 1) as nat,
        ),
    decreases bits,
{
    vstd::arithmetic::power2::lemma2_to64();
    let k = (bits - 1) as nat;
    lemma_pow2_unfold(bits);
    lemma_pow2_pos(k);
    let p = pow2(k);
    if k == 0 {
        assert(p == 1);
        reveal_with_fuel(reversed, 3);
        assert(n % 1 == 0);
        assert(n / 1 == n);
    } else {
        let j = (k - 1) as nat;
        lemma_pow2_unfold(k);
        lemma_pow2_pos(j);
        let q = pow2(j);
        assert(p == 2 * q);
        lemma_reversed_high(n / 2, k);
        let m = n % p;
        assert((n / 2) / q == n / p) by {
            vstd::arithmetic::div_mod::lemma_div_denominator(n as int, 2, q as int);
        }
        assert(m % 2 == n % 2 && m / 2 == (n / 2) % q) by {
            vstd::arithmetic::div_mod::lemma_mod_breakdown(n as int, 2, q as int);
        }
        assert((n % 2) * p == 2 * ((n % 2) * q)) by (nonlinear_arith)
            requires
                p == 2 * q,
        ;
    }
}

/// Reversing twice gives a number below `2^bits` back.
pub proof fn lemma_reversed_involution(n: nat, bits: nat)
    requires
        n < pow2(bits),
    ensures
        reversed(reversed(n, bits), bits) == n,
    decreases bits,
{
    vstd::arithmetic::power2::lemma2_to64();
    if bits > 0 {
        let k = (bits - 1) as nat;
        let p = pow2(k);
        lemma_pow2_unfold(bits);
        lemma_pow2_pos(k);
        lemma_reversed_bound(n, bits);
        lemma_reversed_bound(n / 2, k);
        let r = reversed(n, bits);
        let low = reversed(n / 2, k);
        lemma_reversed_high(r, bits);
        assert(r == (n % 2) * p + low);
        assert(r / p == n % 2 && r % p == low) by {
            vstd::arithmetic::div_mod::lemma_fundamental_div_mod_converse(
                r as int,
                p as int,
                (n % 2) as int,
                low as int,
            );
        }
        lemma_reversed_involution(n / 2, k);
    }
}

/// Returns the number whose `bits` lowest binary digits are those of `n` in reverse order.
pub fn reverse_bits(n: usize, bits: usize) -> (r: usize)
    requires
        pow2(bits as nat) <= usize::MAX,
    ensures
        r == reversed(n as nat, bits as nat),
        r < pow2(bits as nat),
{
    let mut r: usize = 0;
    let mut m: usize = n;
    let mut k: usize = 0;
    let ghost target = reversed(n as nat, bits as nat);
    proof {
        vstd::arithmetic::power2::lemma2_to64();
        lemma_reversed_bound(n as nat, bits as nat);
        lemma_pow2_fits(bits as nat);
    }
    while k < bits
        invariant
            k <= bits,
            bits < usize::BITS,
            pow2(bits as nat) <= usize::MAX,
            target < pow2(bits as nat),
            r < pow2(k as nat),
            target == r * pow2((bits - k) as nat) + reversed(m as nat, (bits - k) as nat),
        decreases bits - k,
    {
        let ghost old_r = r;
        let ghost old_m = m;
        let ghost p = pow2((bits - k - 1) as nat);
        proof {
            lemma_pow2_unfold((bits - k) as nat);
            lemma_pow2_unfold((k + 1) as nat);
            lemma_pow2_monotone((k + 1) as nat, bits as nat);
        }
        r = 2 * r + m % 2;
        m = m / 2;
        k = k + 1;
        proof {
            assert(old_r * (2 * p) + (old_m % 2) * p == (2 * old_r + old_m % 2) * p)
                by (nonlinear_arith);
        }
    }
    proof {
        vstd::arithmetic::power2::lemma2_to64();
        assert((bits - k) as nat == 0);
        assert(r * pow2(0) == r);
        assert(reversed(m as nat, 0) == 0);
    }
    r
}

/// Returns the matrix with rows and columns exchanged.
pub fn transpose<T: Copy>(m: &Vec<Vec<T>>) -> (r: Vec<Vec<T>>)
    requires
        0 < m.len(),
        has_width(rows(m@), m@[0].len() as nat),
    ensures
        rows(r@) == transposed(rows(m@), m@[0].len() as nat),
{
    let n: usize = m.len();
    let w: usize = m[0].len();
    let mut r: Vec<Vec<T>> = Vec::new();
    for c in 0..w
        invariant
            w == m@[0].len(),
            n == m.len(),
            has_width(rows(m@), w as nat),
            r.len() == c,
            forall|k: int| 0 <= k < c ==> #[trigger] r@[k]@ == transposed(rows(m@), w as nat)[k],
    {
        let mut column: Vec<T> = Vec::new();
        for i in 0..n
            invariant
                w == m@[0].len(),
                n == m.len(),
                c < w,
                has_width(rows(m@), w as nat),
                column.len() == i,
                forall|k: int| 0 <= k < i ==> column@[k] == rows(m@)[k][c as int],
        {
            assert(rows(m@)[i as int] == m@[i as int]@);
            column.push(m[i][c]);
        }
        assert(column@ == transposed(rows(m@), w as nat)[c as int]);
        r.push(column);
    }
    assert(rows(r@) =~= transposed(rows(m@), w as nat));
    r
}

/// The sequence cut into blocks of `size` items, of which the last may be shorter.
pub open spec fn chunked<T>(s: Seq<T>, size: nat) -> Seq<Seq<T>> {
    Seq::new(
        ceil_div(s.len(), size),
        |j: int|
            s.subrange(
                j * size,
                if (j + 1) * size < s.len() {
                    (j + 1) * size
                } else {
                    s.len() as int
                },
            ),
    )
}

/// Block `j` of `n` items exists exactly when it starts before the end.
pub proof fn lemma_chunk_bounds(n: nat, size: nat, j: nat)
    requires
        0 < size,
    ensures
        j * size < n <==> j < ceil_div(n, size),
        (j + 1) * size == j * size + size,
        j * size < n && n <= j * size + size ==> ceil_div(n, size) == j + 1,
{
    let a = (n + size - 1) as nat;
    let q = a / size;
    vstd::arithmetic::div_mod::lemma_fundamental_div_mod(a as int, size as int);
    assert(size * q == q * size) by (nonlinear_arith);
    if j * size < n {
        if j >= q {
            assert(j * size >= q * size) by (nonlinear_arith)
                requires
                    j >= q,
            ;
        }
    } else if j < q {
        assert((j + 1) * size <= q * size) by (nonlinear_arith)
            requires
                j + 1 <= q,
        ;
    }
    assert((j + 1) * size == j * size + size) by (nonlinear_arith);
    if j * size < n && n <= j * size + size && q > j + 1 {
        assert((j + 2) * size <= q * size) by (nonlinear_arith)
            requires
                j + 2 <= q,
        ;
        assert((j + 2) * size == j * size + size + size) by (nonlinear_arith);
    }
}

/// The empty sequence has no blocks.
pub proof fn lemma_chunked_empty<T>(s: Seq<T>, size: nat)
    requires
        0 < size,
        s.len() == 0,
    ensures
        chunked(s, size).len() == 0,
{
    lemma_chunk_bounds(0, size, 0);
}

/// The first block and the blocks of the rest.
pub proof fn lemma_chunked_step<T>(s: Seq<T>, size: nat)
    requires
        0 < size,
        0 < s.len(),
    ensures
        ({
            let m: int = if size < s.len() {
                size as int
            } else {
                s.len() as int
            };
            &&& chunked(s, size).len() > 0
            &&& chunked(s, size)[0] == s.take(m)
            &&& chunked(s, size).drop_first() == chunked(s.skip(m), size)
        }),
{
    let n = s.len();
    let m: int = if size < n {
        size as int
    } else {
        n as int
    };
    let rest = s.skip(m);
    lemma_chunk_bounds(n, size, 0);
    if n <= size {
        lemma_chunked_empty(rest, size);
        assert(chunked(s, size)[0] =~= s.take(m));
        assert(chunked(s, size).drop_first() =~= chunked(rest, size));
    } else {
        assert(ceil_div(n, size) == 1 + ceil_div((n - size) as nat, size)) by {
            vstd::arithmetic::div_mod::lemma_div_plus_one((n - 1) as int, size as int);
        }
        assert(chunked(s, size)[0] =~= s.take(m));
        assert forall|j: int| 0 <= j < chunked(rest, size).len() implies chunked(
            s,
            size,
        ).drop_first()[j] =~= #[trigger] chunked(rest, size)[j] by {
            lemma_chunk_bounds(n, size, (j + 1) as nat);
            lemma_chunk_bounds((n - size) as nat, size, j as nat);
        }
        assert(chunked(s, size).drop_first() =~= chunked(rest, size));
    }
}

} // verus!
