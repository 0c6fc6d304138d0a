//! What the constraints are evaluated on, in terms of the polynomials that were committed to.
use vstd::arithmetic::power2::pow2;
use vstd::prelude::*;
use crate::circuit_data::CommonCircuitData;
use crate::field::{Field, root_of};
use crate::oracle::PolynomialBatch;
use crate::polynomial::{coset_point, eval};
use crate::quotient::{
    BATCH_SIZE, QuotientBatch, QuotientInputs, lemma_next_point, lemma_quotient_bits, lemma_step,
};

verus! {

/// The rows of the batch hold the values of the given polynomials on the circuit's extended
/// domain.
pub open spec fn extends<F: Field, C>(
    common_data: CommonCircuitData<F>,
    batch: PolynomialBatch<F, C>,
    polys: Seq<Seq<F>>,
) -> bool {
    let k = (common_data.degree_bits + common_data.config.fri_config.rate_bits) as nat;
    forall|r: int, p: int|
        0 <= r < pow2(k) && 0 <= p < polys.len() ==> #[trigger] batch.lde_row(r, 1)[p] == eval(
            polys[p],
            coset_point(F::shift(), k, r as nat),
        )
}

/// Every `step`-th row of an extension holds the values at the points of the quotient's domain.
pub proof fn lemma_extended_row<F: Field, C>(
    common_data: CommonCircuitData<F>,
    bits: nat,
    batch: PolynomialBatch<F, C>,
    polys: Seq<Seq<F>>,
    i: int,
    p: int,
)
    requires
        common_data.wf(),
        common_data.has_quotient_bits(bits),
        extends(common_data, batch, polys),
        0 <= i < common_data.lde_size(bits),
        0 <= p < polys.len(),
    ensures
        batch.lde_row(i, common_data.step(bits))[p] == eval(polys[p], common_data.point(bits, i)),
{
    let db = common_data.degree_bits as nat;
    let rate = common_data.config.fri_config.rate_bits as nat;
    let step = common_data.step(bits);
    lemma_quotient_bits(common_data, bits);
    lemma_step::<F>(db, bits, rate, i as nat);
    assert(0 <= i * step) by (nonlinear_arith)
        requires
            0 <= i,
            0 <= step,
    ;
    assert((i * step) * 1 == i * step);
    assert(batch.lde_row(i, step) == batch.lde_row(i * step, 1));
}

/// Where the commitments extend polynomials, a batch holds the values of these polynomials at its
/// points: the permutation polynomials come first among those committed to with them, the partial
/// products after them, and the permutation polynomials are also given at the next row, that is at
/// the point multiplied by the generator of the rows.
pub proof fn lemma_batch_values<F: Field, C>(
    q: QuotientInputs<F, C>,
    bits: nat,
    b: int,
    j: int,
    batch: QuotientBatch<F>,
    constants_sigmas: Seq<Seq<F>>,
    wires: Seq<Seq<F>>,
    zs: Seq<Seq<F>>,
)
    requires
        q.wf(),
        q.common_data.has_quotient_bits(bits),
        0 <= b,
        0 <= j < q.common_data.batch_len(bits, b),
        q.is_batch(bits, b, batch),
        extends(q.common_data, q.constants_sigmas, constants_sigmas),
        extends(q.common_data, q.wires, wires),
        extends(q.common_data, q.zs_partial_products, zs),
        constants_sigmas.len() == q.common_data.num_constants
            + q.common_data.config.num_routed_wires,
        wires.len() == q.common_data.config.num_wires,
        zs.len() == q.common_data.config.num_challenges * (q.common_data.num_partial_products + 1),
    ensures
        ({
            let cd = q.common_data;
            let n = cd.batch_len(bits, b);
            let x = batch.shifted_xs@[j];
            let nc = cd.config.num_challenges as int;
            let np = cd.num_partial_products as int;
            &&& forall|c: int|
                0 <= c < cd.num_constants ==> batch.local_constants@[c * n + j] == eval(
                    #[trigger] constants_sigmas[c],
                    x,
                )
            &&& forall|c: int|
                0 <= c < cd.config.num_routed_wires ==> #[trigger] batch.s_sigmas@[j]@[c] == eval(
                    constants_sigmas[cd.num_constants + c],
                    x,
                )
            &&& forall|c: int|
                0 <= c < cd.config.num_wires ==> batch.local_wires@[c * n + j] == eval(
                    #[trigger] wires[c],
                    x,
                )
            &&& forall|i: int|
                0 <= i < nc ==> #[trigger] batch.local_zs@[j]@[i] == eval(zs[i], x)
            &&& forall|i: int|
                0 <= i < nc ==> #[trigger] batch.next_zs@[j]@[i] == eval(
                    zs[i],
                    root_of::<F>(cd.degree_bits as nat).times(x),
                )
            &&& forall|i: int, c: int|
                #![trigger zs[nc + i * np + c]]
                0 <= i < nc && 0 <= c < np ==> batch.partial_products@[j]@[i * np + c] == eval(
                    zs[nc + i * np + c],
                    x,
                )
        }),
{
    let cd = q.common_data;
    let n = cd.batch_len(bits, b);
    let i = b * BATCH_SIZE + j;
    let step = cd.step(bits);
    let nc = cd.config.num_challenges as int;
    let np = cd.num_partial_products as int;
    let x = cd.point(bits, i);
    lemma_quotient_bits(cd, bits);
    lemma_next_point::<F>(cd.degree_bits as nat, bits, i as nat);
    assert(q.holds_point(bits, b, j, batch));
    assert(batch.shifted_xs@[j] == x);
    let next = cd.next_index(bits, i);
    assert(nc * (np + 1) == nc + nc * np) by (nonlinear_arith);
    assert(0 <= nc * np) by (nonlinear_arith)
        requires
            0 <= nc,
            0 <= np,
    ;
    lemma_row_lengths(q, bits, i);
    lemma_row_lengths(q, bits, next);
    let constant = |j: int, c: int| q.constants_sigmas.lde_row(b * BATCH_SIZE + j, step)[c];
    let wire = |j: int, c: int| q.wires.lde_row(b * BATCH_SIZE + j, step)[c];
    assert forall|c: int| 0 <= c < cd.num_constants implies batch.local_constants@[c * n + j]
        == eval(#[trigger] constants_sigmas[c], x) by {
        assert(constant(j, c) == q.constants_sigmas.lde_row(i, step)[c]);
        lemma_extended_row(cd, bits, q.constants_sigmas, constants_sigmas, i, c);
    }
    assert forall|c: int| 0 <= c < cd.config.num_wires implies batch.local_wires@[c * n + j]
        == eval(#[trigger] wires[c], x) by {
        assert(wire(j, c) == q.wires.lde_row(i, step)[c]);
        lemma_extended_row(cd, bits, q.wires, wires, i, c);
    }
    assert forall|c: int|
        0 <= c < cd.config.num_routed_wires implies #[trigger] batch.s_sigmas@[j]@[c] == eval(
        constants_sigmas[cd.num_constants + c],
        x,
    ) by {
        lemma_extended_row(
            cd,
            bits,
            q.constants_sigmas,
            constants_sigmas,
            i,
            cd.num_constants + c,
        );
    }
    assert forall|m: int| 0 <= m < nc implies #[trigger] batch.local_zs@[j]@[m] == eval(
        zs[m],
        x,
    ) by {
        lemma_extended_row(cd, bits, q.zs_partial_products, zs, i, m);
    }
    assert forall|m: int| 0 <= m < nc implies #[trigger] batch.next_zs@[j]@[m] == eval(
        zs[m],
        root_of::<F>(cd.degree_bits as nat).times(x),
    ) by {
        lemma_extended_row(cd, bits, q.zs_partial_products, zs, next, m);
    }
    assert forall|m: int, c: int|
        #![trigger zs[nc + m * np + c]]
        0 <= m < nc && 0 <= c < np implies batch.partial_products@[j]@[m * np + c] == eval(
        zs[nc + m * np + c],
        x,
    ) by {
        assert(0 <= m * np && m * np + np <= nc * np) by (nonlinear_arith)
            requires
                0 <= m,
                m + 1 <= nc,
                0 <= np,
        ;
        lemma_extended_row(cd, bits, q.zs_partial_products, zs, i, nc + m * np + c);
    }
}

/// The rows that a point of the quotient's domain refers to are complete.
pub proof fn lemma_row_lengths<F: Field, C>(q: QuotientInputs<F, C>, bits: nat, i: int)
    requires
        q.wf(),
        q.common_data.has_quotient_bits(bits),
        0 <= i < q.common_data.lde_size(bits),
    ensures
        q.constants_sigmas.lde_row(i, q.common_data.step(bits)).len()
            == q.common_data.num_constants + q.common_data.config.num_routed_wires,
        q.wires.lde_row(i, q.common_data.step(bits)).len() == q.common_data.config.num_wires,
        q.zs_partial_products.lde_row(i, q.common_data.step(bits)).len()
            == q.common_data.config.num_challenges * (q.common_data.num_partial_products + 1),
{
    let cd = q.common_data;
    let step = cd.step(bits);
    lemma_quotient_bits(cd, bits);
    lemma_step::<F>(
        cd.degree_bits as nat,
        bits,
        cd.config.fri_config.rate_bits as nat,
        i as nat,
    );
    assert(0 <= i * step) by (nonlinear_arith)
        requires
            0 <= i,
            0 <= step,
    ;
    crate::util::lemma_reversed_bound(
        (i * step) as nat,
        (cd.degree_bits + cd.config.fri_config.rate_bits) as nat,
    );
}

} // verus!
