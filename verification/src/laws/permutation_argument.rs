//! Laws of the permutation argument, on the polynomials that are committed to.
use vstd::prelude::*;
use crate::circuit_data::{CommonCircuitData, ProverOnlyCircuitData};
use crate::field::Field;
use crate::partial_products::{chunk_products, partial_products_and_z_gx, quotient_chunk_products};
use crate::permutation::{
    PermutationInputs, all_wires_permutation_partial_products, are_challenges_invertible,
    challenges_invertible, is_invertible, is_row_invertible, last_items_first, lemma_columns,
    lemma_last_items_first, lemma_partial_product_check, lemma_product_of_quotients, lemma_z_step,
    permutation_of, permutation_shapes, quotient_chunk_row, quotients_of,
    wires_permutation_partial_products_and_zs,
};
use crate::polynomial::{PolynomialValues, values_of};
use crate::prover::{
    CommitRequest, PermutationRound, ProverError, ZsRound, permutation_values, tables_fit,
};
use crate::ring::{Ring, norm, product};
use crate::util::{ceil_div, chunked, lemma_chunk_bounds};
use crate::witness::MatrixWitness;

verus! {

/// What one challenge pair, one row and one chunk of the routed wires contribute. The factors of
/// the row are given; `z` are the values of the permutation polynomial and `partial(c)` those of
/// the `c`-th partial product.
proof fn lemma_argument<F: Field>(
    p: PermutationInputs<F>,
    size: nat,
    num_prods: nat,
    row: int,
    c: int,
    columns: Seq<Seq<F>>,
)
    requires
        0 < size,
        num_prods + 1 == ceil_div(p.routed, size),
        p.all_invertible(),
        0 <= row < p.subgroup.len(),
        0 <= c <= num_prods,
        columns == p.polynomials(size, num_prods),
    ensures
        columns.len() == num_prods + 1,
        columns[num_prods as int].len() == p.subgroup.len(),
        columns[c].len() == p.subgroup.len(),
        columns[num_prods as int][0] == F::one(),
        row + 1 < p.subgroup.len() ==> columns[num_prods as int][row + 1].times(
            product(p.denominators(row)),
        ) == columns[num_prods as int][row].times(product(p.numerators(row))),
        c < num_prods || row + 1 < p.subgroup.len() ==> ({
            let from = c * size;
            let to = if (c + 1) * size < p.routed {
                (c + 1) * size
            } else {
                p.routed as int
            };
            let before = if c == 0 {
                columns[num_prods as int][row]
            } else {
                columns[c - 1][row]
            };
            let after = if c < num_prods {
                columns[c][row]
            } else {
                columns[num_prods as int][row + 1]
            };
            after.times(product(p.denominators(row).subrange(from, to))) == before.times(
                product(p.numerators(row).subrange(from, to)),
            )
        }),
{
    lemma_columns(p, size, num_prods, row);
    lemma_columns(p, size, num_prods, 0);
    assert(p.row_invertible(row));
    lemma_z_step(p, size, num_prods, row as nat);
    let z = p.z(size, num_prods, row as nat);
    if row + 1 < p.subgroup.len() {
        lemma_columns(p, size, num_prods, row + 1);
    }
    lemma_partial_product_check(p, size, z, row, c);
    assert(chunked(p.denominators(row), size)[c] == p.denominators(row).subrange(
        c * size,
        if (c + 1) * size < p.routed {
            (c + 1) * size
        } else {
            p.routed as int
        },
    ));
    let f = chunk_products(p.quotients(row), size);
    if c > 0 {
        assert(columns[c - 1][row] == crate::partial_products::accumulated(z, f, c as nat));
    } else {
        assert(crate::partial_products::accumulated(z, f, 0) == z);
    }
}

/// The permutation polynomial of challenge pair `i` starts with one, and from each row to the next
/// it is multiplied by the row's factors for the identity and divided by those for the images of
/// the wires, with that challenge pair. The partial products split this step into chunks of
/// `quotient_degree_factor` wires: the `c`-th one extends the one before it, or the permutation
/// polynomial, by the `c`-th chunk, and the last chunk leads to the next row.
pub proof fn law_permutation_polynomials<F: Field, C, H, I>(
    before: PermutationRound<F, C, I>,
    prover_data: &ProverOnlyCircuitData<F, C, H>,
    common_data: &CommonCircuitData<F>,
    betas: Vec<F>,
    gammas: Vec<F>,
    r: Result<(ZsRound<F, C, I>, CommitRequest<PolynomialValues<F>>), ProverError>,
    i: int,
    row: int,
    c: int,
)
    requires
        tables_fit(*prover_data, *common_data),
        before.wf(*common_data),
        betas@.len() == common_data.config.num_challenges,
        gammas@.len() == common_data.config.num_challenges,
        call_ensures(
            PermutationRound::<F, C, I>::permutation_challenged::<H>,
            (before, prover_data, common_data, betas, gammas),
            r,
        ),
        r is Ok,
        0 <= i < common_data.config.num_challenges,
        0 <= row < prover_data.subgroup@.len(),
        0 <= c <= common_data.num_partial_products,
    ensures
        ({
            let n = prover_data.subgroup@.len();
            let nc = common_data.config.num_challenges as int;
            let np = common_data.num_partial_products as int;
            let routed = common_data.config.num_routed_wires as nat;
            let size = common_data.quotient_degree_factor as int;
            let polys = r->Ok_0.1.polys@;
            let z = polys[i].values@;
            let identity = Seq::new(
                routed,
                |j: int|
                    before.witness.wire_values@[j]@[row].plus(
                        betas@[i].times(
                            common_data.k_is@[j].times(prover_data.subgroup@[row]),
                        ),
                    ).plus(gammas@[i]),
            );
            let image = Seq::new(
                routed,
                |j: int|
                    before.witness.wire_values@[j]@[row].plus(
                        betas@[i].times(prover_data.sigmas@[row]@[j]),
                    ).plus(gammas@[i]),
            );
            let from = c * size;
            let to = if (c + 1) * size < routed {
                (c + 1) * size
            } else {
                routed as int
            };
            &&& polys.len() == nc * (np + 1)
            &&& z.len() == n
            &&& z[0] == F::one()
            &&& row + 1 < n ==> z[row + 1].times(product(image)) == z[row].times(
                product(identity),
            )
            &&& c < np ==> polys[nc + i * np + c].values@.len() == n
            &&& c < np || row + 1 < n ==> ({
                let start = if c == 0 {
                    z[row]
                } else {
                    polys[nc + i * np + (c - 1)].values@[row]
                };
                let end = if c < np {
                    polys[nc + i * np + c].values@[row]
                } else {
                    z[row + 1]
                };
                end.times(product(image.subrange(from, to))) == start.times(
                    product(identity.subrange(from, to)),
                )
            })
        }),
{
    let p = permutation_of(before.witness, betas@[i], gammas@[i], *prover_data, *common_data);
    let size = common_data.quotient_degree_factor as nat;
    let np = common_data.num_partial_products as nat;
    let nc = common_data.config.num_challenges as int;
    let polys = r->Ok_0.1.polys@;
    let columns = permutation_values(
        before.witness,
        betas@,
        gammas@,
        *prover_data,
        *common_data,
        i,
    );
    assert(p.all_invertible());
    assert(columns == p.polynomials(size, np));
    assert(polys[i].values@ == columns[np as int]);
    if c < np {
        assert(polys[nc + i * np + c].values@ == columns[c]);
    }
    if c > 0 {
        assert(polys[nc + i * np + (c - 1)].values@ == columns[c - 1]);
    }
    lemma_argument(p, size, np, row, c, columns);
    let routed = common_data.config.num_routed_wires as nat;
    assert(p.numerators(row) =~= Seq::new(
        routed,
        |j: int|
            before.witness.wire_values@[j]@[row].plus(
                betas@[i].times(common_data.k_is@[j].times(prover_data.subgroup@[row])),
            ).plus(gammas@[i]),
    ));
    assert(p.denominators(row) =~= Seq::new(
        routed,
        |j: int|
            before.witness.wire_values@[j]@[row].plus(
                betas@[i].times(prover_data.sigmas@[row]@[j]),
            ).plus(gammas@[i]),
    ));
}

/// The permutation argument fails exactly if a factor for the image of a wire is zero, for one of
/// the challenge pairs.
pub proof fn law_zero_factor<F: Field, C, H, I>(
    before: PermutationRound<F, C, I>,
    prover_data: &ProverOnlyCircuitData<F, C, H>,
    common_data: &CommonCircuitData<F>,
    betas: Vec<F>,
    gammas: Vec<F>,
    r: Result<(ZsRound<F, C, I>, CommitRequest<PolynomialValues<F>>), ProverError>,
)
    requires
        tables_fit(*prover_data, *common_data),
        before.wf(*common_data),
        betas@.len() == common_data.config.num_challenges,
        gammas@.len() == common_data.config.num_challenges,
        call_ensures(
            PermutationRound::<F, C, I>::permutation_challenged::<H>,
            (before, prover_data, common_data, betas, gammas),
            r,
        ),
    ensures
        r is Err <==> exists|i: int, row: int, j: int|
            #![trigger betas@[i], prover_data.sigmas@[row]@[j]]
            0 <= i < common_data.config.num_challenges && 0 <= row < prover_data.subgroup@.len()
                && 0 <= j < common_data.config.num_routed_wires && norm(
                before.witness.wire_values@[j]@[row].plus(
                    betas@[i].times(prover_data.sigmas@[row]@[j]),
                ).plus(gammas@[i]),
            ) == F::zero(),
        r is Err ==> r->Err_0 is ZeroDenominator,
{
    let nc = common_data.config.num_challenges;
    let n = prover_data.subgroup@.len();
    let routed = common_data.config.num_routed_wires;
    if r is Err {
        let i = choose|i: int|
            0 <= i < nc && !(#[trigger] permutation_of(
                before.witness,
                betas@[i],
                gammas@[i],
                *prover_data,
                *common_data,
            )).all_invertible();
        let p = permutation_of(before.witness, betas@[i], gammas@[i], *prover_data, *common_data);
        let row = choose|row: int| 0 <= row < n && !#[trigger] p.row_invertible(row);
        let j = choose|j: int|
            0 <= j < routed && norm(#[trigger] p.denominators(row)[j]) == F::zero();
        assert(norm(p.denominators(row)[j]) == F::zero());
        assert(norm(
            before.witness.wire_values@[j]@[row].plus(
                betas@[i].times(prover_data.sigmas@[row]@[j]),
            ).plus(gammas@[i]),
        ) == F::zero());
    }
    assert forall|i: int, row: int, j: int|
        #![trigger betas@[i], prover_data.sigmas@[row]@[j]]
        0 <= i < nc && 0 <= row < n && 0 <= j < routed && norm(
            before.witness.wire_values@[j]@[row].plus(
                betas@[i].times(prover_data.sigmas@[row]@[j]),
            ).plus(gammas@[i]),
        ) == F::zero() implies r is Err by {
        let p = permutation_of(before.witness, betas@[i], gammas@[i], *prover_data, *common_data);
        if r is Ok {
            assert(p.all_invertible());
            assert(p.row_invertible(row));
            assert(norm(p.denominators(row)[j]) != F::zero());
        }
    }
}

/// The same of the polynomials for one challenge pair: the last one is the permutation polynomial,
/// and the others are the partial products.
pub proof fn law_one_permutation<F: Field, C, H>(
    witness: &MatrixWitness<F>,
    beta: F,
    gamma: F,
    prover_data: &ProverOnlyCircuitData<F, C, H>,
    common_data: &CommonCircuitData<F>,
    r: Vec<PolynomialValues<F>>,
    row: int,
    c: int,
)
    requires
        permutation_shapes(*witness, *prover_data, *common_data),
        permutation_of(*witness, beta, gamma, *prover_data, *common_data).all_invertible(),
        common_data.num_partial_products + 1 == common_data.num_chunks(),
        call_ensures(
            wires_permutation_partial_products_and_zs::<F, C, H>,
            (witness, beta, gamma, prover_data, common_data),
            r,
        ),
        0 <= row < prover_data.subgroup@.len(),
        0 <= c <= common_data.num_partial_products,
    ensures
        ({
            let n = prover_data.subgroup@.len();
            let np = common_data.num_partial_products as int;
            let routed = common_data.config.num_routed_wires as nat;
            let size = common_data.quotient_degree_factor as int;
            let z = r@[np].values@;
            let identity = Seq::new(
                routed,
                |j: int|
                    witness.wire_values@[j]@[row].plus(
                        beta.times(common_data.k_is@[j].times(prover_data.subgroup@[row])),
                    ).plus(gamma),
            );
            let image = Seq::new(
                routed,
                |j: int|
                    witness.wire_values@[j]@[row].plus(
                        beta.times(prover_data.sigmas@[row]@[j]),
                    ).plus(gamma),
            );
            let from = c * size;
            let to = if (c + 1) * size < routed {
                (c + 1) * size
            } else {
                routed as int
            };
            &&& r@.len() == np + 1
            &&& z.len() == n
            &&& z[0] == F::one()
            &&& r@[c].values@.len() == n
            &&& row + 1 < n ==> z[row + 1].times(product(image)) == z[row].times(
                product(identity),
            )
            &&& c < np || row + 1 < n ==> ({
                let start = if c == 0 {
                    z[row]
                } else {
                    r@[c - 1].values@[row]
                };
                let end = if c < np {
                    r@[c].values@[row]
                } else {
                    z[row + 1]
                };
                end.times(product(image.subrange(from, to))) == start.times(
                    product(identity.subrange(from, to)),
                )
            })
        }),
{
    let p = permutation_of(*witness, beta, gamma, *prover_data, *common_data);
    let size = common_data.quotient_degree_factor as nat;
    let np = common_data.num_partial_products as nat;
    let columns = values_of(r@);
    lemma_argument(p, size, np, row, c, columns);
    assert(columns.len() == r@.len());
    assert(columns[np as int] == r@[np as int].values@);
    assert(columns[c] == r@[c].values@);
    if c > 0 {
        assert(columns[c - 1] == r@[c - 1].values@);
    }
    let routed = common_data.config.num_routed_wires as nat;
    assert(p.numerators(row) =~= Seq::new(
        routed,
        |j: int|
            witness.wire_values@[j]@[row].plus(
                beta.times(common_data.k_is@[j].times(prover_data.subgroup@[row])),
            ).plus(gamma),
    ));
    assert(p.denominators(row) =~= Seq::new(
        routed,
        |j: int|
            witness.wire_values@[j]@[row].plus(beta.times(prover_data.sigmas@[row]@[j])).plus(
                gamma,
            ),
    ));
}

/// The products of chunks: as many as `max_degree` factors each, in order, and all of them
/// together.
pub proof fn law_chunk_products<R: Ring>(
    values: &Vec<R>,
    max_degree: usize,
    r: Vec<R>,
    c: int,
)
    requires
        0 < max_degree,
        call_ensures(quotient_chunk_products::<R>, (values, max_degree), r),
        0 <= c < r@.len(),
    ensures
        c * max_degree < values@.len(),
        values@.len() <= r@.len() * max_degree,
        r@[c] == product(
            values@.subrange(
                c * max_degree,
                if (c + 1) * max_degree < values@.len() {
                    (c + 1) * max_degree
                } else {
                    values@.len() as int
                },
            ),
        ),
        product(r@) == product(values@),
{
    let n = values@.len();
    let size = max_degree as nat;
    lemma_chunk_bounds(n, size, c as nat);
    lemma_chunk_bounds(n, size, r@.len());
    crate::partial_products::lemma_chunk_products(values@, size);
}

/// Running products: each one is the one before it times the next factor.
pub proof fn law_running_products<R: Ring>(z_x: R, factors: &Vec<R>, r: Vec<R>, c: int)
    requires
        call_ensures(partial_products_and_z_gx::<R>, (z_x, factors), r),
        0 <= c < factors@.len(),
    ensures
        r@.len() == factors@.len(),
        r@[c] == (if c == 0 {
            z_x
        } else {
            r@[c - 1]
        }).times(factors@[c]),
{
    reveal_with_fuel(crate::partial_products::accumulated, 2);
}

/// The last items of lists of equal length come first, and the other items after them, list by
/// list.
pub proof fn law_last_items_first<T>(all: Vec<Vec<T>>, r: Vec<T>, width: nat, i: int, c: int)
    requires
        forall|k: int| 0 <= k < all@.len() ==> (#[trigger] all@[k]).len() == width + 1,
        call_ensures(last_items_first::<T>, (all,), r),
        0 <= i < all@.len(),
        0 <= c < width,
    ensures
        r@.len() == all@.len() * (width + 1),
        r@[i] == all@[i]@[width as int],
        r@[all@.len() + i * width + c] == all@[i]@[c],
{
    assert forall|k: int| 0 <= k < all@.len() implies 0 < (#[trigger] all@[k]).len() by {
        assert(all@[k].len() == width + 1);
    }
    lemma_last_items_first(all@, width);
    assert((crate::permutation::lasts(all@) + crate::permutation::fronts(all@))[i]
        == all@[i]@[width as int]);
    assert(all@[i]@[c] == all@[i]@[c]);
}

/// A row is fit for division exactly if no factor for the image of a wire is zero.
pub proof fn law_row_invertible<F: Field, C, H>(
    witness: &MatrixWitness<F>,
    beta: F,
    gamma: F,
    prover_data: &ProverOnlyCircuitData<F, C, H>,
    common_data: &CommonCircuitData<F>,
    row: usize,
    r: bool,
)
    requires
        permutation_shapes(*witness, *prover_data, *common_data),
        row < prover_data.subgroup@.len(),
        call_ensures(
            is_row_invertible::<F, C, H>,
            (witness, beta, gamma, prover_data, common_data, row),
            r,
        ),
    ensures
        r <==> forall|j: int|
            0 <= j < common_data.config.num_routed_wires ==> norm(
                witness.wire_values@[j]@[row as int].plus(
                    beta.times(#[trigger] prover_data.sigmas@[row as int]@[j]),
                ).plus(gamma),
            ) != F::zero(),
{
    let p = permutation_of(*witness, beta, gamma, *prover_data, *common_data);
    let i = row as int;
    assert forall|j: int| 0 <= j < common_data.config.num_routed_wires implies p.denominators(i)[j]
        == witness.wire_values@[j]@[i].plus(
        beta.times(#[trigger] prover_data.sigmas@[i]@[j]),
    ).plus(gamma) by {}
    if r {
        assert forall|j: int| 0 <= j < common_data.config.num_routed_wires implies norm(
            witness.wire_values@[j]@[i].plus(
                beta.times(#[trigger] prover_data.sigmas@[i]@[j]),
            ).plus(gamma),
        ) != F::zero() by {
            assert(norm(p.denominators(i)[j]) != F::zero());
        }
    } else {
        let j = choose|j: int|
            0 <= j < p.denominators(i).len() && norm(#[trigger] p.denominators(i)[j]) == F::zero();
        assert(norm(p.denominators(i)[j]) == F::zero());
        assert(p.denominators(i)[j] == witness.wire_values@[j]@[i].plus(
            beta.times(prover_data.sigmas@[i]@[j]),
        ).plus(gamma));
    }
}

/// All rows are fit for division exactly if each of them is.
pub proof fn law_invertible<F: Field, C, H>(
    witness: &MatrixWitness<F>,
    beta: F,
    gamma: F,
    prover_data: &ProverOnlyCircuitData<F, C, H>,
    common_data: &CommonCircuitData<F>,
    r: bool,
)
    requires
        permutation_shapes(*witness, *prover_data, *common_data),
        call_ensures(
            is_invertible::<F, C, H>,
            (witness, beta, gamma, prover_data, common_data),
            r,
        ),
    ensures
        r <==> forall|row: int, j: int|
            0 <= row < prover_data.subgroup@.len() && 0 <= j < common_data.config.num_routed_wires
                ==> norm(
                witness.wire_values@[j]@[row].plus(
                    beta.times(#[trigger] prover_data.sigmas@[row]@[j]),
                ).plus(gamma),
            ) != F::zero(),
{
    let p = permutation_of(*witness, beta, gamma, *prover_data, *common_data);
    if r {
        assert forall|row: int, j: int|
            0 <= row < prover_data.subgroup@.len() && 0 <= j
                < common_data.config.num_routed_wires implies norm(
            witness.wire_values@[j]@[row].plus(
                beta.times(#[trigger] prover_data.sigmas@[row]@[j]),
            ).plus(gamma),
        ) != F::zero() by {
            assert(p.row_invertible(row));
            assert(norm(p.denominators(row)[j]) != F::zero());
        }
    } else {
        let row = choose|row: int|
            0 <= row < p.subgroup.len() && !#[trigger] p.row_invertible(row);
        let j = choose|j: int|
            0 <= j < p.denominators(row).len() && norm(#[trigger] p.denominators(row)[j])
                == F::zero();
        assert(norm(p.denominators(row)[j]) == F::zero());
        assert(p.denominators(row)[j] == witness.wire_values@[j]@[row].plus(
            beta.times(prover_data.sigmas@[row]@[j]),
        ).plus(gamma));
    }
}

/// All challenge pairs are fit for division exactly if each of them is.
pub proof fn law_challenges_invertible<F: Field, C, H>(
    witness: &MatrixWitness<F>,
    betas: &Vec<F>,
    gammas: &Vec<F>,
    prover_data: &ProverOnlyCircuitData<F, C, H>,
    common_data: &CommonCircuitData<F>,
    r: bool,
    one: spec_fn(int) -> bool,
)
    requires
        permutation_shapes(*witness, *prover_data, *common_data),
        common_data.config.num_challenges <= betas@.len(),
        common_data.config.num_challenges <= gammas@.len(),
        call_ensures(
            are_challenges_invertible::<F, C, H>,
            (witness, betas, gammas, prover_data, common_data),
            r,
        ),
        forall|i: int|
            0 <= i < common_data.config.num_challenges ==> call_ensures(
                is_invertible::<F, C, H>,
                (witness, betas@[i], gammas@[i], prover_data, common_data),
                #[trigger] one(i),
            ),
    ensures
        r <==> forall|i: int| 0 <= i < common_data.config.num_challenges ==> #[trigger] one(i),
{
    if r {
        assert forall|i: int| 0 <= i < common_data.config.num_challenges implies #[trigger] one(
            i,
        ) by {
            assert(permutation_of(
                *witness,
                betas@[i],
                gammas@[i],
                *prover_data,
                *common_data,
            ).all_invertible());
        }
    } else {
        let i = choose|i: int|
            0 <= i < common_data.config.num_challenges && !(#[trigger] permutation_of(
                *witness,
                betas@[i],
                gammas@[i],
                *prover_data,
                *common_data,
            )).all_invertible();
        assert(!one(i));
    }
}

/// The polynomials of all challenges are, challenge by challenge, those of the pair with the same
/// index.
pub proof fn law_all_permutations<F: Field, C, H>(
    witness: &MatrixWitness<F>,
    betas: &Vec<F>,
    gammas: &Vec<F>,
    prover_data: &ProverOnlyCircuitData<F, C, H>,
    common_data: &CommonCircuitData<F>,
    r: Vec<Vec<PolynomialValues<F>>>,
    i: int,
    q: Vec<PolynomialValues<F>>,
    c: int,
)
    requires
        permutation_shapes(*witness, *prover_data, *common_data),
        common_data.config.num_challenges <= betas@.len(),
        common_data.config.num_challenges <= gammas@.len(),
        challenges_invertible(*witness, betas@, gammas@, *prover_data, *common_data),
        call_ensures(
            all_wires_permutation_partial_products::<F, C, H>,
            (witness, betas, gammas, prover_data, common_data),
            r,
        ),
        0 <= i < common_data.config.num_challenges,
        call_ensures(
            wires_permutation_partial_products_and_zs::<F, C, H>,
            (witness, betas@[i], gammas@[i], prover_data, common_data),
            q,
        ),
        0 <= c < q@.len(),
    ensures
        r@.len() == common_data.config.num_challenges,
        r@[i]@.len() == q@.len(),
        r@[i]@[c].values@ == q@[c].values@,
{
    assert(values_of(r@[i]@).len() == r@[i]@.len());
    assert(values_of(q@).len() == q@.len());
    assert(values_of(r@[i]@)[c] == r@[i]@[c].values@);
    assert(values_of(q@)[c] == q@[c].values@);
}

/// The product of a chunk of a row's quotients, times the factors for the images of the chunk's
/// wires, is the product of the factors for the wires themselves.
pub proof fn law_chunk_row<F: Field, C, H>(
    witness: &MatrixWitness<F>,
    beta: F,
    gamma: F,
    prover_data: &ProverOnlyCircuitData<F, C, H>,
    common_data: &CommonCircuitData<F>,
    row: usize,
    r: Vec<F>,
    c: int,
)
    requires
        permutation_shapes(*witness, *prover_data, *common_data),
        row < prover_data.subgroup@.len(),
        permutation_of(*witness, beta, gamma, *prover_data, *common_data).row_invertible(
            row as int,
        ),
        call_ensures(
            quotient_chunk_row::<F, C, H>,
            (witness, beta, gamma, prover_data, common_data, row),
            r,
        ),
        0 <= c < r@.len(),
    ensures
        ({
            let routed = common_data.config.num_routed_wires as nat;
            let size = common_data.quotient_degree_factor as int;
            let identity = Seq::new(
                routed,
                |j: int|
                    witness.wire_values@[j]@[row as int].plus(
                        beta.times(common_data.k_is@[j].times(prover_data.subgroup@[row as int])),
                    ).plus(gamma),
            );
            let image = Seq::new(
                routed,
                |j: int|
                    witness.wire_values@[j]@[row as int].plus(
                        beta.times(prover_data.sigmas@[row as int]@[j]),
                    ).plus(gamma),
            );
            let from = c * size;
            let to = if (c + 1) * size < routed {
                (c + 1) * size
            } else {
                routed as int
            };
            &&& 0 <= from < to <= routed
            &&& (r@.len() - 1) * size < routed <= r@.len() * size
            &&& r@[c].times(product(image.subrange(from, to))) == product(
                identity.subrange(from, to),
            )
        }),
{
    let p = permutation_of(*witness, beta, gamma, *prover_data, *common_data);
    let i = row as int;
    let routed = common_data.config.num_routed_wires as nat;
    let size = common_data.quotient_degree_factor as nat;
    let identity = Seq::new(
        routed,
        |j: int|
            witness.wire_values@[j]@[row as int].plus(
                beta.times(common_data.k_is@[j].times(prover_data.subgroup@[row as int])),
            ).plus(gamma),
    );
    let image = Seq::new(
        routed,
        |j: int|
            witness.wire_values@[j]@[row as int].plus(
                beta.times(prover_data.sigmas@[row as int]@[j]),
            ).plus(gamma),
    );
    assert(p.numerators(i) =~= identity);
    assert(p.denominators(i) =~= image);
    lemma_chunk_bounds(routed, size, c as nat);
    lemma_chunk_bounds(routed, size, (c + 1) as nat);
    lemma_chunk_bounds(routed, size, (r@.len() - 1) as nat);
    lemma_chunk_bounds(routed, size, r@.len());
    let from = c * size;
    let to = if (c + 1) * size < routed {
        (c + 1) * size
    } else {
        routed as int
    };
    let num = identity.subrange(from, to);
    let den = image.subrange(from, to);
    let quo = p.quotients(i).subrange(from, to);
    assert(quo =~= quotients_of(num, den));
    assert forall|j: int| 0 <= j < den.len() implies norm(#[trigger] den[j]) != F::zero() by {
        assert(norm(p.denominators(i)[from + j]) != F::zero());
    }
    lemma_product_of_quotients(num, den);
}

/// A list that is appended puts its last item behind the last items of the others, and the rest of
/// it behind their rests.
pub proof fn law_one_more_list<T>(
    all: Vec<Vec<T>>,
    longer: Vec<Vec<T>>,
    list: Vec<T>,
    r: Vec<T>,
    q: Vec<T>,
)
    requires
        forall|k: int| 0 <= k < all@.len() ==> 0 < (#[trigger] all@[k]).len(),
        0 < list@.len(),
        longer@ == all@.push(list),
        call_ensures(last_items_first::<T>, (all,), r),
        call_ensures(last_items_first::<T>, (longer,), q),
    ensures
        all@.len() == 0 ==> r@.len() == 0,
        all@.len() <= r@.len(),
        q@ == r@.take(all@.len() as int).push(list@.last()) + r@.skip(all@.len() as int)
            + list@.drop_last(),
{
    let n = all@.len() as int;
    assert(longer@.drop_last() =~= all@);
    assert(crate::permutation::lasts(longer@) =~= crate::permutation::lasts(all@).push(
        list@.last(),
    ));
    assert(r@.take(n) =~= crate::permutation::lasts(all@));
    assert(r@.skip(n) =~= crate::permutation::fronts(all@));
}

} // verus!
