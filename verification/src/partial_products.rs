//! Products of quotients in chunks, and their running accumulation.
use vstd::prelude::*;
use crate::ring::{Ring, lemma_neutral, lemma_norm, lemma_product_concat, norm, product};
use crate::util::{chunked, lemma_chunk_bounds, lemma_chunked_empty, lemma_chunked_step};

verus! {

/// The products of the chunks of a row.
pub open spec fn chunk_products<R: Ring>(values: Seq<R>, size: nat) -> Seq<R> {
    Seq::new(chunked(values, size).len(), |c: int| product(chunked(values, size)[c]))
}

/// The start value times the first `c` factors.
pub open spec fn accumulated<R: Ring>(start: R, factors: Seq<R>, c: nat) -> R
    decreases c,
{
    if c == 0 {
        start
    } else {
        accumulated(start, factors, (c - 1) as nat).times(factors[c - 1])
    }
}

/// All accumulations that include at least one factor.
pub open spec fn accumulations<R: Ring>(start: R, factors: Seq<R>) -> Seq<R> {
    Seq::new(factors.len(), |c: int| accumulated(start, factors, (c + 1) as nat))
}

/// The products of the chunks multiply to the product of the whole.
pub proof fn lemma_chunk_products<R: Ring>(values: Seq<R>, size: nat)
    requires
        0 < size,
    ensures
        product(chunk_products(values, size)) == product(values),
    decreases values.len(),
{
    let p = chunk_products(values, size);
    if values.len() == 0 {
        lemma_chunked_empty(values, size);
    } else {
        lemma_chunked_step(values, size);
        let m: int = if size < values.len() {
            size as int
        } else {
            values.len() as int
        };
        let a = values.take(m);
        let b = values.skip(m);
        lemma_chunk_products(b, size);
        assert(a + b =~= values);
        lemma_product_concat(a, b);
        let first = seq![product(a)];
        assert forall|c: int| 0 <= c < chunk_products(b, size).len() implies p.drop_first()[c]
            == #[trigger] chunk_products(b, size)[c] by {
            assert(chunked(values, size).drop_first()[c] == chunked(b, size)[c]);
        }
        assert(p.drop_first() =~= chunk_products(b, size));
        assert(p =~= first + p.drop_first());
        lemma_product_concat(first, p.drop_first());
        assert(first.drop_last() =~= Seq::<R>::empty());
        assert(product(first) == product(a)) by {
            assert(product(first) == product(first.drop_last()).times(first.last()));
            lemma_neutral(product(a));
        }
    }
}

/// Accumulating all factors multiplies by their product.
pub proof fn lemma_accumulated_product<R: Ring>(start: R, factors: Seq<R>, c: nat)
    requires
        c <= factors.len(),
    ensures
        norm(accumulated(start, factors, c)) == start.times(product(factors.take(c as int))),
        c > 0 ==> norm(accumulated(start, factors, c)) == accumulated(start, factors, c),
    decreases c,
{
    if c == 0 {
        assert(factors.take(0) =~= Seq::<R>::empty());
        lemma_neutral(start);
    } else {
        let m = (c - 1) as nat;
        lemma_accumulated_product(start, factors, m);
        let t = factors.take(c as int);
        assert(t.drop_last() =~= factors.take(m as int));
        let a = accumulated(start, factors, m);
        lemma_norm(a, factors[m as int]);
        R::law_associates(start, product(t.drop_last()), factors[m as int]);
    }
}

/// Returns the products of the chunks of `max_degree` values.
pub fn quotient_chunk_products<R: Ring>(values: &Vec<R>, max_degree: usize) -> (r: Vec<R>)
    requires
        0 < max_degree,
    ensures
        r@ == chunk_products(values@, max_degree as nat),
{
    let n: usize = values.len();
    let mut r: Vec<R> = Vec::new();
    let mut start: usize = 0;
    proof {
        lemma_chunk_bounds(n as nat, max_degree as nat, 0);
        assert(r.len() * max_degree == 0) by (nonlinear_arith)
            requires
                r.len() == 0,
        ;
    }
    while start < n
        invariant
            n == values.len(),
            0 < max_degree,
            start <= n,
            start == r.len() * max_degree || start == n,
            r.len() <= chunk_products(values@, max_degree as nat).len(),
            start == n ==> r.len() == chunk_products(values@, max_degree as nat).len(),
            forall|j: int|
                0 <= j < r.len() ==> #[trigger] r@[j] == chunk_products(
                    values@,
                    max_degree as nat,
                )[j],
        decreases n - start,
    {
        let stop: usize = if n - start < max_degree {
            n
        } else {
            start + max_degree
        };
        let mut p: R = R::one_element();
        assert(values@.subrange(start as int, start as int) =~= Seq::<R>::empty());
        for i in start..stop
            invariant
                n == values.len(),
                start <= stop <= n,
                p == product(values@.subrange(start as int, i as int)),
        {
            proof {
                let s = values@.subrange(start as int, i + 1);
                assert(s.drop_last() =~= values@.subrange(start as int, i as int));
            }
            p = p.mul(values[i]);
        }
        proof {
            lemma_chunk_bounds(n as nat, max_degree as nat, r.len() as nat);
        }
        r.push(p);
        start = stop;
    }
    assert(r@ =~= chunk_products(values@, max_degree as nat));
    r
}

/// Returns the running products of `z_x` with the chunk products, of which the last is the value
/// at the next point.
pub fn partial_products_and_z_gx<R: Ring>(z_x: R, chunk_products: &Vec<R>) -> (r: Vec<R>)
    ensures
        r@ == accumulations(z_x, chunk_products@),
{
    let n: usize = chunk_products.len();
    let mut r: Vec<R> = Vec::new();
    let mut acc: R = z_x;
    for c in 0..n
        invariant
            n == chunk_products.len(),
            acc == accumulated(z_x, chunk_products@, c as nat),
            r.len() == c,
            forall|j: int|
                0 <= j < c ==> #[trigger] r@[j] == accumulated(
                    z_x,
                    chunk_products@,
                    (j + 1) as nat,
                ),
    {
        acc = acc.mul(chunk_products[c]);
        r.push(acc);
    }
    assert(r@ =~= accumulations(z_x, chunk_products@));
    r
}

} // verus!
