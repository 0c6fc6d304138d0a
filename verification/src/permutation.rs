//! The permutation argument: the polynomials `Z` and their partial products.
use vstd::prelude::*;
use crate::circuit_data::{CommonCircuitData, ProverOnlyCircuitData};
use crate::field::{Field, batch_multiplicative_inverse, recips};
use crate::partial_products::{
    accumulated, accumulations, chunk_products, lemma_accumulated_product, lemma_chunk_products,
    partial_products_and_z_gx, quotient_chunk_products,
};
use crate::polynomial::{PolynomialValues, values_of};
use crate::ring::{lemma_exchange, lemma_neutral, lemma_norm, norm, product};
use crate::util::{ceil_div, chunked, lemma_chunk_bounds, rows, transpose, transposed};
use crate::witness::MatrixWitness;

verus! {

/// What a routed wire contributes to the product of the identity permutation.
pub open spec fn numerator<F: Field>(wire: F, k: F, x: F, beta: F, gamma: F) -> F {
    wire.plus(beta.times(k.times(x))).plus(gamma)
}

/// What a routed wire contributes to the product of the circuit's permutation.
pub open spec fn denominator<F: Field>(wire: F, sigma: F, beta: F, gamma: F) -> F {
    wire.plus(beta.times(sigma)).plus(gamma)
}

/// The values that the permutation argument is about.
pub struct PermutationInputs<F> {
    /// The values of the wires, by row and column.
    pub wires: spec_fn(int, int) -> F,
    /// The factors of the columns.
    pub k_is: Seq<F>,
    /// The images of the wires, by row and column.
    pub sigmas: spec_fn(int, int) -> F,
    /// The points of the rows.
    pub subgroup: Seq<F>,
    /// The number of wires in each row that take part.
    pub routed: nat,
    pub beta: F,
    pub gamma: F,
}

impl<F: Field> PermutationInputs<F> {
    /// The numerators of row `i`.
    pub open spec fn numerators(self, i: int) -> Seq<F> {
        Seq::new(
            self.routed,
            |j: int|
                numerator(
                    (self.wires)(i, j),
                    self.k_is[j],
                    self.subgroup[i],
                    self.beta,
                    self.gamma,
                ),
        )
    }

    /// The denominators of row `i`.
    pub open spec fn denominators(self, i: int) -> Seq<F> {
        Seq::new(
            self.routed,
            |j: int|
                denominator((self.wires)(i, j), (self.sigmas)(i, j), self.beta, self.gamma),
        )
    }

    /// The quotients of row `i`.
    pub open spec fn quotients(self, i: int) -> Seq<F> {
        quotients_of(self.numerators(i), self.denominators(i))
    }

    /// No denominator of row `i` is zero.
    pub open spec fn row_invertible(self, i: int) -> bool {
        invertible(self.denominators(i))
    }

    /// No denominator is zero.
    pub open spec fn all_invertible(self) -> bool {
        forall|i: int| 0 <= i < self.subgroup.len() ==> #[trigger] self.row_invertible(i)
    }

    /// The value of `Z` at row `i`: one at the first row, and at each further one the running
    /// product of the row before at position `num_prods`.
    pub open spec fn z(self, size: nat, num_prods: nat, i: nat) -> F
        decreases i,
    {
        if i == 0 {
            F::one()
        } else {
            accumulated(
                self.z(size, num_prods, (i - 1) as nat),
                chunk_products(self.quotients(i - 1), size),
                num_prods + 1,
            )
        }
    }

    /// The partial products of row `i`, with the value of `Z` at that row at position `num_prods`.
    pub open spec fn row(self, size: nat, num_prods: nat, i: int) -> Seq<F> {
        let z = self.z(size, num_prods, i as nat);
        accumulations(z, chunk_products(self.quotients(i), size)).update(num_prods as int, z)
    }

    /// All rows of partial products.
    pub open spec fn all_rows(self, size: nat, num_prods: nat) -> Seq<Seq<F>> {
        Seq::new(self.subgroup.len(), |i: int| self.row(size, num_prods, i))
    }

    /// The polynomials that interpolate the columns of the rows.
    pub open spec fn polynomials(self, size: nat, num_prods: nat) -> Seq<Seq<F>> {
        transposed(self.all_rows(size, num_prods), ceil_div(self.routed, size))
    }
}

/// No element of the sequence is zero.
pub open spec fn invertible<F: Field>(s: Seq<F>) -> bool {
    forall|j: int| 0 <= j < s.len() ==> norm(#[trigger] s[j]) != F::zero()
}

/// The quotients of two sequences, item by item.
pub open spec fn quotients_of<F: Field>(num: Seq<F>, den: Seq<F>) -> Seq<F> {
    Seq::new(num.len(), |j: int| num[j].times(den[j].recip()))
}

/// The permutation argument of a circuit, a witness and a pair of challenges.
pub open spec fn permutation_of<F: Field, C, H>(
    witness: MatrixWitness<F>,
    beta: F,
    gamma: F,
    prover_data: ProverOnlyCircuitData<F, C, H>,
    common_data: CommonCircuitData<F>,
) -> PermutationInputs<F> {
    PermutationInputs {
        wires: |i: int, j: int| witness.wire(i, j),
        k_is: common_data.k_is@,
        sigmas: |i: int, j: int| prover_data.sigmas@[i]@[j],
        subgroup: prover_data.subgroup@,
        routed: common_data.config.num_routed_wires as nat,
        beta,
        gamma,
    }
}

/// The tables are large enough for every routed wire of every row.
pub open spec fn permutation_shapes<F: Field, C, H>(
    witness: MatrixWitness<F>,
    prover_data: ProverOnlyCircuitData<F, C, H>,
    common_data: CommonCircuitData<F>,
) -> bool {
    let n = prover_data.subgroup@.len();
    let routed = common_data.config.num_routed_wires as nat;
    &&& 0 < n
    &&& n <= prover_data.sigmas@.len()
    &&& forall|i: int| 0 <= i < n ==> routed <= (#[trigger] prover_data.sigmas@[i]).len()
    &&& routed <= common_data.k_is@.len()
    &&& witness.covers(n, routed)
    &&& 0 < common_data.quotient_degree_factor
    &&& common_data.num_partial_products < common_data.num_chunks()
}

/// The challenges meet no zero denominator in the permutation argument.
pub open spec fn challenges_invertible<F: Field, C, H>(
    witness: MatrixWitness<F>,
    betas: Seq<F>,
    gammas: Seq<F>,
    prover_data: ProverOnlyCircuitData<F, C, H>,
    common_data: CommonCircuitData<F>,
) -> bool {
    forall|i: int|
        0 <= i < common_data.config.num_challenges ==> (#[trigger] permutation_of(
            witness,
            betas[i],
            gammas[i],
            prover_data,
            common_data,
        )).all_invertible()
}

/// Tells whether no denominator of row `i` is zero.
pub fn is_row_invertible<F: Field, C, H>(
    witness: &MatrixWitness<F>,
    beta: F,
    gamma: F,
    prover_data: &ProverOnlyCircuitData<F, C, H>,
    common_data: &CommonCircuitData<F>,
    i: usize,
) -> (r: bool)
    requires
        permutation_shapes(*witness, *prover_data, *common_data),
        i < prover_data.subgroup@.len(),
    ensures
        r == permutation_of(
            *witness,
            beta,
            gamma,
            *prover_data,
            *common_data,
        ).row_invertible(i as int),
{
    let ghost p = permutation_of(*witness, beta, gamma, *prover_data, *common_data);
    let routed: usize = common_data.config.num_routed_wires;
    let zero: F = F::zero_element();
    proof {
        lemma_neutral(F::zero());
    }
    for j in 0..routed
        invariant
            permutation_shapes(*witness, *prover_data, *common_data),
            i < prover_data.subgroup@.len(),
            p == permutation_of(*witness, beta, gamma, *prover_data, *common_data),
            routed == common_data.config.num_routed_wires,
            norm(zero) == F::zero(),
            forall|k: int|
                0 <= k < j ==> norm(#[trigger] p.denominators(i as int)[k]) != F::zero(),
    {
        let wire_value: F = witness.get_wire(i, j);
        let s_sigma: F = prover_data.sigmas[i][j];
        let denominator: F = wire_value.add(beta.mul(s_sigma)).add(gamma);
        assert(denominator == p.denominators(i as int)[j as int]);
        if denominator.equals(zero) {
            return false;
        }
    }
    true
}

/// Tells whether no denominator of any row is zero.
pub fn is_invertible<F: Field, C, H>(
    witness: &MatrixWitness<F>,
    beta: F,
    gamma: F,
    prover_data: &ProverOnlyCircuitData<F, C, H>,
    common_data: &CommonCircuitData<F>,
) -> (r: bool)
    requires
        permutation_shapes(*witness, *prover_data, *common_data),
    ensures
        r == permutation_of(*witness, beta, gamma, *prover_data, *common_data).all_invertible(),
{
    let ghost p = permutation_of(*witness, beta, gamma, *prover_data, *common_data);
    let n: usize = prover_data.subgroup.len();
    for i in 0..n
        invariant
            permutation_shapes(*witness, *prover_data, *common_data),
            p == permutation_of(*witness, beta, gamma, *prover_data, *common_data),
            n == prover_data.subgroup@.len(),
            forall|k: int| 0 <= k < i ==> #[trigger] p.row_invertible(k),
    {
        if !is_row_invertible(witness, beta, gamma, prover_data, common_data, i) {
            return false;
        }
    }
    true
}

/// Tells whether the challenges meet no zero denominator.
pub fn are_challenges_invertible<F: Field, C, H>(
    witness: &MatrixWitness<F>,
    betas: &Vec<F>,
    gammas: &Vec<F>,
    prover_data: &ProverOnlyCircuitData<F, C, H>,
    common_data: &CommonCircuitData<F>,
) -> (r: bool)
    requires
        permutation_shapes(*witness, *prover_data, *common_data),
        common_data.config.num_challenges <= betas@.len(),
        common_data.config.num_challenges <= gammas@.len(),
    ensures
        r == challenges_invertible(*witness, betas@, gammas@, *prover_data, *common_data),
{
    let n: usize = common_data.config.num_challenges;
    for i in 0..n
        invariant
            n == common_data.config.num_challenges,
            permutation_shapes(*witness, *prover_data, *common_data),
            n <= betas@.len(),
            n <= gammas@.len(),
            forall|k: int|
                0 <= k < i ==> (#[trigger] permutation_of(
                    *witness,
                    betas@[k],
                    gammas@[k],
                    *prover_data,
                    *common_data,
                )).all_invertible(),
    {
        if !is_invertible(witness, betas[i], gammas[i], prover_data, common_data) {
            return false;
        }
    }
    true
}

/// Returns the chunk products of the quotients of row `i`, none of whose denominators may be zero.
pub fn quotient_chunk_row<F: Field, C, H>(
    witness: &MatrixWitness<F>,
    beta: F,
    gamma: F,
    prover_data: &ProverOnlyCircuitData<F, C, H>,
    common_data: &CommonCircuitData<F>,
    i: usize,
) -> (r: Vec<F>)
    requires
        permutation_shapes(*witness, *prover_data, *common_data),
        i < prover_data.subgroup@.len(),
        permutation_of(*witness, beta, gamma, *prover_data, *common_data).row_invertible(i as int),
    ensures
        r@ == chunk_products(
            permutation_of(*witness, beta, gamma, *prover_data, *common_data).quotients(i as int),
            common_data.quotient_degree_factor as nat,
        ),
{
    let ghost p = permutation_of(*witness, beta, gamma, *prover_data, *common_data);
    let routed: usize = common_data.config.num_routed_wires;
    let x: F = prover_data.subgroup[i];
    let mut numerators: Vec<F> = Vec::new();
    let mut denominators: Vec<F> = Vec::new();
    for j in 0..routed
        invariant
            permutation_shapes(*witness, *prover_data, *common_data),
            i < prover_data.subgroup@.len(),
            p == permutation_of(*witness, beta, gamma, *prover_data, *common_data),
            routed == common_data.config.num_routed_wires,
            x == prover_data.subgroup@[i as int],
            numerators.len() == j,
            denominators.len() == j,
            forall|k: int| 0 <= k < j ==> #[trigger] numerators@[k] == p.numerators(i as int)[k],
            forall|k: int|
                0 <= k < j ==> #[trigger] denominators@[k] == p.denominators(i as int)[k],
    {
        let wire_value: F = witness.get_wire(i, j);
        let s_id: F = common_data.k_is[j].mul(x);
        let s_sigma: F = prover_data.sigmas[i][j];
        numerators.push(wire_value.add(beta.mul(s_id)).add(gamma));
        denominators.push(wire_value.add(beta.mul(s_sigma)).add(gamma));
    }
    assert(numerators@ =~= p.numerators(i as int));
    assert(denominators@ =~= p.denominators(i as int));
    proof {
        assert forall|j: int| 0 <= j < denominators@.len() implies norm(
            #[trigger] denominators@[j],
        ) != F::zero() by {
            assert(norm(p.denominators(i as int)[j]) != F::zero());
        }
    }
    let inverses: Vec<F> = batch_multiplicative_inverse(&denominators).unwrap();
    let mut quotients: Vec<F> = Vec::new();
    for j in 0..routed
        invariant
            routed == numerators.len(),
            routed == inverses.len(),
            numerators@ == p.numerators(i as int),
            denominators@ == p.denominators(i as int),
            inverses@ == recips(denominators@),
            quotients.len() == j,
            forall|k: int| 0 <= k < j ==> #[trigger] quotients@[k] == p.quotients(i as int)[k],
    {
        quotients.push(numerators[j].mul(inverses[j]));
    }
    assert(quotients@ =~= p.quotients(i as int));
    quotient_chunk_products(&quotients, common_data.quotient_degree_factor)
}

/// Returns the polynomials that interpolate the partial products of the quotients and, at
/// position `num_partial_products`, the polynomial `Z`. No denominator may be zero.
pub fn wires_permutation_partial_products_and_zs<F: Field, C, H>(
    witness: &MatrixWitness<F>,
    beta: F,
    gamma: F,
    prover_data: &ProverOnlyCircuitData<F, C, H>,
    common_data: &CommonCircuitData<F>,
) -> (r: Vec<PolynomialValues<F>>)
    requires
        permutation_shapes(*witness, *prover_data, *common_data),
        permutation_of(*witness, beta, gamma, *prover_data, *common_data).all_invertible(),
    ensures
        values_of(r@) == permutation_of(
            *witness,
            beta,
            gamma,
            *prover_data,
            *common_data,
        ).polynomials(
            common_data.quotient_degree_factor as nat,
            common_data.num_partial_products as nat,
        ),
{
    let ghost p = permutation_of(*witness, beta, gamma, *prover_data, *common_data);
    let ghost size = common_data.quotient_degree_factor as nat;
    let ghost prods = common_data.num_partial_products as nat;
    let n: usize = prover_data.subgroup.len();
    let num_prods: usize = common_data.num_partial_products;
    let mut z_x: F = F::one_element();
    let mut all_rows: Vec<Vec<F>> = Vec::new();
    for i in 0..n
        invariant
            permutation_shapes(*witness, *prover_data, *common_data),
            p == permutation_of(*witness, beta, gamma, *prover_data, *common_data),
            size == common_data.quotient_degree_factor,
            prods == common_data.num_partial_products,
            num_prods == common_data.num_partial_products,
            n == prover_data.subgroup@.len(),
            z_x == p.z(size, prods, i as nat),
            all_rows.len() == i,
            p.all_invertible(),
            forall|k: int| 0 <= k < i ==> #[trigger] all_rows@[k]@ == p.row(size, prods, k),
    {
        assert(p.row_invertible(i as int));
        let chunks: Vec<F> = quotient_chunk_row(
            witness,
            beta,
            gamma,
            prover_data,
            common_data,
            i,
        );
        let mut row: Vec<F> = partial_products_and_z_gx(z_x, &chunks);
        // The last term is Z(gx), but we replace it with Z(x), otherwise Z would end up shifted.
        let z_gx: F = row[num_prods];
        row.set(num_prods, z_x);
        z_x = z_gx;
        assert(row@ =~= p.row(size, prods, i as int));
        all_rows.push(row);
    }
    let ghost width = ceil_div(p.routed, size);
    proof {
        assert forall|i: int| 0 <= i < n implies (#[trigger] rows(all_rows@)[i]).len() == width by {
            assert(rows(all_rows@)[i] == all_rows@[i]@);
        }
        assert(rows(all_rows@) =~= p.all_rows(size, prods));
        assert(rows(all_rows@)[0] == all_rows@[0]@);
    }
    let columns: Vec<Vec<F>> = transpose(&all_rows);
    wrap_values(columns)
}

/// Turns columns of values into polynomials.
pub fn wrap_values<F: Field>(columns: Vec<Vec<F>>) -> (r: Vec<PolynomialValues<F>>)
    ensures
        values_of(r@) == rows(columns@),
{
    let mut r: Vec<PolynomialValues<F>> = Vec::new();
    let ghost all = columns@;
    for column in it: columns
        invariant
            it.seq() == all,
            r.len() == it.index(),
            forall|k: int| 0 <= k < r.len() ==> (#[trigger] r@[k]).values@ == all[k]@,
    {
        r.push(PolynomialValues::new(column));
    }
    assert(values_of(r@) =~= rows(all));
    r
}

/// Returns the partial products and `Z` for every challenge. No denominator may be zero.
pub fn all_wires_permutation_partial_products<F: Field, C, H>(
    witness: &MatrixWitness<F>,
    betas: &Vec<F>,
    gammas: &Vec<F>,
    prover_data: &ProverOnlyCircuitData<F, C, H>,
    common_data: &CommonCircuitData<F>,
) -> (r: Vec<Vec<PolynomialValues<F>>>)
    requires
        permutation_shapes(*witness, *prover_data, *common_data),
        common_data.config.num_challenges <= betas@.len(),
        common_data.config.num_challenges <= gammas@.len(),
        challenges_invertible(*witness, betas@, gammas@, *prover_data, *common_data),
    ensures
        r@.len() == common_data.config.num_challenges,
        forall|i: int|
            0 <= i < common_data.config.num_challenges ==> values_of((#[trigger] r@[i])@)
                == permutation_of(
                *witness,
                betas@[i],
                gammas@[i],
                *prover_data,
                *common_data,
            ).polynomials(
                common_data.quotient_degree_factor as nat,
                common_data.num_partial_products as nat,
            ),
{
    let n: usize = common_data.config.num_challenges;
    let mut all: Vec<Vec<PolynomialValues<F>>> = Vec::new();
    for i in 0..n
        invariant
            n == common_data.config.num_challenges,
            permutation_shapes(*witness, *prover_data, *common_data),
            n <= betas@.len(),
            n <= gammas@.len(),
            challenges_invertible(*witness, betas@, gammas@, *prover_data, *common_data),
            all.len() == i,
            forall|k: int|
                0 <= k < i ==> values_of((#[trigger] all@[k])@) == permutation_of(
                    *witness,
                    betas@[k],
                    gammas@[k],
                    *prover_data,
                    *common_data,
                ).polynomials(
                    common_data.quotient_degree_factor as nat,
                    common_data.num_partial_products as nat,
                ),
    {
        all.push(
            wires_permutation_partial_products_and_zs(
                witness,
                betas[i],
                gammas[i],
                prover_data,
                common_data,
            ),
        );
    }
    all
}

/// The last item of each list.
pub open spec fn lasts<T>(all: Seq<Vec<T>>) -> Seq<T> {
    Seq::new(all.len(), |i: int| all[i]@.last())
}

/// The lists without their last items, one after the other.
pub open spec fn fronts<T>(all: Seq<Vec<T>>) -> Seq<T>
    decreases all.len(),
{
    if all.len() == 0 {
        Seq::empty()
    } else {
        fronts(all.drop_last()) + all.last()@.drop_last()
    }
}

/// Returns the last items of all lists, followed by all other items in order.
pub fn last_items_first<T>(all: Vec<Vec<T>>) -> (r: Vec<T>)
    requires
        forall|i: int| 0 <= i < all@.len() ==> 0 < (#[trigger] all@[i]).len(),
    ensures
        r@ == lasts(all@) + fronts(all@),
{
    let ghost lists = all@;
    let mut r: Vec<T> = Vec::new();
    let mut rest: Vec<T> = Vec::new();
    for list in it: all
        invariant
            it.seq() == lists,
            forall|i: int| 0 <= i < lists.len() ==> 0 < (#[trigger] lists[i]).len(),
            r@ == lasts(lists.take(it.index() as int)),
            rest@ == fronts(lists.take(it.index() as int)),
    {
        let mut list = list;
        proof {
            let t = lists.take(it.index() + 1);
            assert(t.drop_last() =~= lists.take(it.index() as int));
        }
        let last: T = list.pop().unwrap();
        r.push(last);
        rest.append(&mut list);
        assert(r@ =~= lasts(lists.take(it.index() + 1)));
    }
    assert(lists.take(lists.len() as int) =~= lists);
    r.append(&mut rest);
    r
}

/// Where the items of lists of equal length end up: the last items come first, and then the
/// others, list by list.
pub proof fn lemma_last_items_first<T>(all: Seq<Vec<T>>, width: nat)
    requires
        forall|i: int| 0 <= i < all.len() ==> (#[trigger] all[i]).len() == width + 1,
    ensures
        (lasts(all) + fronts(all)).len() == all.len() * (width + 1),
        forall|i: int|
            0 <= i < all.len() ==> #[trigger] (lasts(all) + fronts(all))[i]
                == all[i]@[width as int],
        forall|i: int, c: int|
            0 <= i < all.len() && 0 <= c < width ==> (lasts(all) + fronts(all))[all.len() + i
                * width + c] == #[trigger] all[i]@[c],
{
    lemma_fronts(all, width);
    assert(all.len() * (width + 1) == all.len() + all.len() * width) by (nonlinear_arith);
    assert forall|i: int, c: int| 0 <= i < all.len() && 0 <= c < width implies (lasts(all) + fronts(
        all,
    ))[all.len() + i * width + c] == #[trigger] all[i]@[c] by {
        assert(fronts(all)[i * width + c] == all[i]@[c]);
        assert(i * width + width <= all.len() * width) by (nonlinear_arith)
            requires
                i + 1 <= all.len(),
        ;
        assert(0 <= i * width) by (nonlinear_arith)
            requires
                0 <= i,
        ;
    }
}

/// Where the items other than the last ones end up.
proof fn lemma_fronts<T>(all: Seq<Vec<T>>, width: nat)
    requires
        forall|i: int| 0 <= i < all.len() ==> (#[trigger] all[i]).len() == width + 1,
    ensures
        fronts(all).len() == all.len() * width,
        forall|i: int, c: int|
            0 <= i < all.len() && 0 <= c < width ==> fronts(all)[i * width + c]
                == #[trigger] all[i]@[c],
    decreases all.len(),
{
    let n = all.len();
    if n > 0 {
        let m = (n - 1) as nat;
        let t = all.drop_last();
        assert forall|i: int| 0 <= i < t.len() implies (#[trigger] t[i]).len() == width + 1 by {
            assert(t[i] == all[i]);
        }
        lemma_fronts(t, width);
        assert(n * width == m * width + width) by (nonlinear_arith)
            requires
                n == m + 1,
        ;
        assert forall|i: int, c: int| 0 <= i < n && 0 <= c < width implies fronts(all)[i * width
            + c] == #[trigger] all[i]@[c] by {
            if i < m {
                assert(t[i]@[c] == all[i]@[c]);
                assert(i * width + width <= m * width) by (nonlinear_arith)
                    requires
                        i + 1 <= m,
                ;
                assert(0 <= i * width) by (nonlinear_arith)
                    requires
                        0 <= i,
                ;
            }
        }
    } else {
        assert(n * width == 0) by (nonlinear_arith)
            requires
                n == 0,
        ;
    }
}

/// The product of quotients, multiplied by the product of the denominators, is the product of
/// the numerators.
pub proof fn lemma_product_of_quotients<F: Field>(num: Seq<F>, den: Seq<F>)
    requires
        num.len() == den.len(),
        invertible(den),
    ensures
        product(quotients_of(num, den)).times(product(den)) == product(num),
    decreases num.len(),
{
    let q = quotients_of(num, den);
    if num.len() == 0 {
        lemma_neutral(F::one());
    } else {
        let (n1, d1) = (num.drop_last(), den.drop_last());
        assert forall|j: int| 0 <= j < d1.len() implies norm(#[trigger] d1[j]) != F::zero() by {
            assert(norm(den[j]) != F::zero());
        }
        lemma_product_of_quotients(n1, d1);
        assert(q.drop_last() =~= quotients_of(n1, d1));
        let (n, d) = (num.last(), den.last());
        F::law_recip(d);
        lemma_exchange(product(q.drop_last()), q.last(), product(d1), d);
        F::law_associates(n, d.recip(), d);
        F::law_commutes(d.recip(), d);
        lemma_neutral(n);
        lemma_norm(product(n1), n);
    }
}

/// Each partial product extends the one before it by a chunk of quotients: multiplied by the
/// chunk's denominators it is the one before multiplied by the chunk's numerators.
pub proof fn lemma_partial_product_check<F: Field>(
    p: PermutationInputs<F>,
    size: nat,
    start: F,
    i: int,
    c: int,
)
    requires
        0 < size,
        p.row_invertible(i),
        0 <= c < ceil_div(p.routed, size),
    ensures
        accumulated(start, chunk_products(p.quotients(i), size), (c + 1) as nat).times(
            product(chunked(p.denominators(i), size)[c]),
        ) == accumulated(start, chunk_products(p.quotients(i), size), c as nat).times(
            product(chunked(p.numerators(i), size)[c]),
        ),
{
    let q = p.quotients(i);
    let a = accumulated(start, chunk_products(q, size), c as nat);
    let num = chunked(p.numerators(i), size)[c];
    let den = chunked(p.denominators(i), size)[c];
    lemma_chunk_bounds(p.routed, size, c as nat);
    let from = c * size;
    assert(0 <= from) by (nonlinear_arith)
        requires
            from == c * size,
            0 <= c,
    ;
    assert forall|j: int| 0 <= j < den.len() implies norm(#[trigger] den[j]) != F::zero() by {
        assert(norm(p.denominators(i)[from + j]) != F::zero());
    }
    lemma_product_of_quotients(num, den);
    assert(chunked(q, size)[c] =~= quotients_of(num, den));
    F::law_associates(a, product(quotients_of(num, den)), product(den));
}

/// The polynomial `Z` advances by the quotient of a row's products.
pub proof fn lemma_z_step<F: Field>(p: PermutationInputs<F>, size: nat, num_prods: nat, i: nat)
    requires
        0 < size,
        num_prods + 1 == ceil_div(p.routed, size),
        p.row_invertible(i as int),
    ensures
        p.z(size, num_prods, 0) == F::one(),
        p.z(size, num_prods, i + 1) == p.z(size, num_prods, i).times(
            product(p.quotients(i as int)),
        ),
        p.z(size, num_prods, i + 1).times(product(p.denominators(i as int))) == p.z(
            size,
            num_prods,
            i,
        ).times(product(p.numerators(i as int))),
{
    let q = p.quotients(i as int);
    let f = chunk_products(q, size);
    let z = p.z(size, num_prods, i);
    lemma_accumulated_product(z, f, num_prods + 1);
    assert(f.take(f.len() as int) =~= f);
    lemma_chunk_products(q, size);
    lemma_product_of_quotients(p.numerators(i as int), p.denominators(i as int));
    F::law_associates(z, product(q), product(p.denominators(i as int)));
}

/// The polynomial at position `num_prods` takes the values of `Z` on the rows, and each one before
/// it takes the running products of the rows.
pub proof fn lemma_columns<F: Field>(p: PermutationInputs<F>, size: nat, num_prods: nat, i: int)
    requires
        0 < size,
        num_prods < ceil_div(p.routed, size),
        0 <= i < p.subgroup.len(),
    ensures
        p.polynomials(size, num_prods).len() == ceil_div(p.routed, size),
        p.polynomials(size, num_prods)[num_prods as int][i] == p.z(size, num_prods, i as nat),
        forall|c: int|
            0 <= c < ceil_div(p.routed, size) && c != num_prods ==> (#[trigger] p.polynomials(
                size,
                num_prods,
            )[c])[i] == accumulated(
                p.z(size, num_prods, i as nat),
                chunk_products(p.quotients(i), size),
                (c + 1) as nat,
            ),
{
    let products = chunk_products(p.quotients(i), size);
    assert(products.len() == ceil_div(p.routed, size));
    assert(p.all_rows(size, num_prods)[i] == p.row(size, num_prods, i));
}

/// The product of the numerators of the first `n` rows.
pub open spec fn grand_numerator<F: Field>(p: PermutationInputs<F>, n: nat) -> F
    decreases n,
{
    if n == 0 {
        F::one()
    } else {
        grand_numerator(p, (n - 1) as nat).times(product(p.numerators(n - 1)))
    }
}

/// The product of the denominators of the first `n` rows.
pub open spec fn grand_denominator<F: Field>(p: PermutationInputs<F>, n: nat) -> F
    decreases n,
{
    if n == 0 {
        F::one()
    } else {
        grand_denominator(p, (n - 1) as nat).times(product(p.denominators(n - 1)))
    }
}

/// `Z` is the quotient of the products of all rows before: where it returns to one after the last
/// row, the two products agree, and conversely.
pub proof fn lemma_z_telescopes<F: Field>(
    p: PermutationInputs<F>,
    size: nat,
    num_prods: nat,
    n: nat,
)
    requires
        0 < size,
        num_prods + 1 == ceil_div(p.routed, size),
        p.all_invertible(),
        n <= p.subgroup.len(),
    ensures
        p.z(size, num_prods, n).times(grand_denominator(p, n)) == grand_numerator(p, n),
        p.z(size, num_prods, n) == F::one() <==> grand_numerator(p, n) == grand_denominator(p, n),
{
    lemma_telescope(p, size, num_prods, n);
    let z = p.z(size, num_prods, n);
    let d = grand_denominator(p, n);
    lemma_neutral(d);
    if grand_numerator(p, n) == d {
        // Cancel the denominator.
        F::law_recip(d);
        F::law_associates(z, d, d.recip());
        lemma_neutral(z);
    }
}

/// The induction behind [`lemma_z_telescopes`].
proof fn lemma_telescope<F: Field>(p: PermutationInputs<F>, size: nat, num_prods: nat, n: nat)
    requires
        0 < size,
        num_prods + 1 == ceil_div(p.routed, size),
        p.all_invertible(),
        n <= p.subgroup.len(),
    ensures
        p.z(size, num_prods, n).times(grand_denominator(p, n)) == grand_numerator(p, n),
        norm(p.z(size, num_prods, n)) == p.z(size, num_prods, n),
        norm(grand_denominator(p, n)) == grand_denominator(p, n),
        grand_denominator(p, n) != F::zero(),
    decreases n,
{
    F::law_constants();
    if n == 0 {
        lemma_neutral(F::one());
    } else {
        let m = (n - 1) as nat;
        lemma_telescope(p, size, num_prods, m);
        assert(p.row_invertible(m as int));
        lemma_z_step(p, size, num_prods, m);
        let z = p.z(size, num_prods, m);
        let z1 = p.z(size, num_prods, n);
        let g = grand_denominator(p, m);
        let den = product(p.denominators(m as int));
        let num = product(p.numerators(m as int));
        // z1 (g den) = (z1 den) g = (z num) g = (z g) num
        F::law_commutes(g, den);
        F::law_associates(z1, den, g);
        F::law_associates(z, num, g);
        F::law_commutes(num, g);
        F::law_associates(z, g, num);
        lemma_norm(z, product(p.quotients(m as int)));
        lemma_norm(g, den);
        lemma_product_nonzero(p.denominators(m as int));
        crate::field::lemma_no_zero_divisors(g, den);
    }
}

/// A product without zero factors is not zero.
proof fn lemma_product_nonzero<F: Field>(s: Seq<F>)
    requires
        invertible(s),
    ensures
        norm(product(s)) != F::zero(),
        norm(product(s)) == product(s),
    decreases s.len(),
{
    F::law_constants();
    lemma_neutral(F::one());
    if s.len() > 0 {
        let t = s.drop_last();
        assert forall|j: int| 0 <= j < t.len() implies norm(#[trigger] t[j]) != F::zero() by {
            assert(norm(s[j]) != F::zero());
        }
        lemma_product_nonzero(t);
        assert(norm(s.last()) != F::zero());
        crate::field::lemma_no_zero_divisors(product(t), s.last());
        lemma_norm(product(t), s.last());
    }
}

} // verus!
