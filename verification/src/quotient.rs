//! The quotient polynomials: the constraints of the circuit, combined and divided by the
//! polynomial that vanishes on the rows.
use vstd::arithmetic::power2::{lemma_pow2_adds, lemma_pow2_pos, pow2};
use vstd::prelude::*;
use crate::circuit_data::{CommonCircuitData, ProverOnlyCircuitData};
use crate::field::{
    Field, lemma_root_of_periodic, lemma_root_of_power, powers, root_of, two_adic_subgroup,
};
use crate::interpolation::{
    lemma_coset_points_distinct, lemma_interpolation_unique, lemma_times_cancel,
};
use crate::oracle::PolynomialBatch;
use crate::polynomial::{
    PolynomialCoeffs, PolynomialValues, coset_point, eval, interpolates, is_canonical,
    lemma_eval_chunked, lemma_eval_norm, lemma_eval_trimmed, recombined, vanishes_from,
};
use crate::ring::{lemma_neutral, lemma_norm, lemma_pow_add, lemma_pow_pow, norm, pow};
use crate::util::{
    ceil_div, chunked, has_width, lemma_chunk_bounds, lemma_pow2_fits, lemma_pow2_monotone,
    log2_ceil, power_of_two, rows, transpose, transposed,
};
use crate::zero_poly_coset::{ZeroPolyOnCoset, domain_point, lemma_vanishing_nonzero, vanishing_at};

verus! {

/// The number of points that are evaluated together.
pub const BATCH_SIZE: usize = 32;

/// What the constraints are evaluated on, for a run of consecutive points.
pub struct QuotientBatch<F> {
    /// The indices of the points.
    pub indices: Vec<usize>,
    /// The points themselves.
    pub shifted_xs: Vec<F>,
    /// The values of the constants, constant by constant: the value of constant `c` at the `j`-th
    /// of `n` points is at position `c * n + j`.
    pub local_constants: Vec<F>,
    /// The values of the wires, in the same layout.
    pub local_wires: Vec<F>,
    /// The values of the permutation polynomials at each point, and at the point that stands for
    /// the next row.
    pub local_zs: Vec<Vec<F>>,
    pub next_zs: Vec<Vec<F>>,
    /// The partial products at each point.
    pub partial_products: Vec<Vec<F>>,
    /// The values of the permutation at each point.
    pub s_sigmas: Vec<Vec<F>>,
}

/// The domain on which quotients are computed.
pub struct QuotientDomain<F> {
    /// The binary logarithm of the factor by which the domain exceeds the rows.
    pub bits: usize,
    /// The distance in the committed extension of consecutive points of the domain.
    pub step: usize,
    /// The distance in the domain of a point and the one that stands for the next row.
    pub next_step: usize,
    /// The points before the shift.
    pub points: Vec<F>,
    /// The polynomial that vanishes on the rows, on the domain.
    pub z_h_on_coset: ZeroPolyOnCoset<F>,
}

/// The data from which quotients are computed.
pub struct QuotientInputs<F, C> {
    pub common_data: CommonCircuitData<F>,
    pub constants_sigmas: PolynomialBatch<F, C>,
    pub wires: PolynomialBatch<F, C>,
    pub zs_partial_products: PolynomialBatch<F, C>,
}

impl<F: Field> QuotientDomain<F> {
    /// The domain belongs to the circuit.
    pub open spec fn wf(self, common_data: CommonCircuitData<F>) -> bool {
        let rate = common_data.config.fri_config.rate_bits;
        let k = (common_data.degree_bits + self.bits) as nat;
        &&& common_data.has_quotient_bits(self.bits as nat)
        &&& self.bits <= rate
        &&& self.step == pow2((rate - self.bits) as nat)
        &&& self.next_step == pow2(self.bits as nat)
        &&& k <= F::adicity()
        &&& self.points@ == powers(root_of::<F>(k), pow2(k))
        &&& self.z_h_on_coset.wf()
        &&& self.z_h_on_coset.n_log == common_data.degree_bits
        &&& self.z_h_on_coset.rate_bits == self.bits
    }

    /// Lays out the domain of a circuit.
    pub fn new(common_data: &CommonCircuitData<F>) -> (r: Self)
        requires
            common_data.wf(),
        ensures
            r.wf(*common_data),
    {
        let rate: usize = common_data.config.fri_config.rate_bits;
        let bits: usize = log2_ceil(common_data.quotient_degree_factor);
        proof {
            lemma_quotient_bits(*common_data, bits as nat);
        }
        let step: usize = power_of_two(rate - bits);
        let next_step: usize = power_of_two(bits);
        let points: Vec<F> = two_adic_subgroup(common_data.degree_bits + bits);
        let z_h_on_coset: ZeroPolyOnCoset<F> = ZeroPolyOnCoset::new(common_data.degree_bits, bits);
        QuotientDomain { bits, step, next_step, points, z_h_on_coset }
    }
}

/// The domain of the quotient fits into the committed extension.
pub proof fn lemma_quotient_bits<F: Field>(common_data: CommonCircuitData<F>, bits: nat)
    requires
        common_data.wf(),
        common_data.has_quotient_bits(bits),
    ensures
        bits <= common_data.config.fri_config.rate_bits,
        common_data.degree_bits + bits <= F::adicity(),
        common_data.degree_bits + bits <= usize::MAX,
        pow2(bits) <= usize::MAX,
        pow2((common_data.config.fri_config.rate_bits - bits) as nat) <= usize::MAX,
        0 < pow2((common_data.degree_bits + bits) as nat) <= usize::MAX,
        common_data.quotient_degree_factor * common_data.degree_spec() <= pow2(
            (common_data.degree_bits + bits) as nat,
        ),
{
    let rate = common_data.config.fri_config.rate_bits as nat;
    let db = common_data.degree_bits as nat;
    if bits > rate {
        assert(pow2(rate) < common_data.quotient_degree_factor);
    }
    lemma_pow2_monotone(bits, db + rate);
    lemma_pow2_monotone((rate - bits) as nat, db + rate);
    lemma_pow2_monotone(db + bits, db + rate);
    lemma_pow2_fits(db + bits);
    lemma_pow2_adds(db, bits);
    lemma_pow2_pos(db);
    assert(common_data.quotient_degree_factor * pow2(db) <= pow2(db) * pow2(bits))
        by (nonlinear_arith)
        requires
            0 <= common_data.quotient_degree_factor <= pow2(bits),
            0 < pow2(db),
    ;
}

impl<F: Field> CommonCircuitData<F> {
    /// The number of points of the domain.
    pub open spec fn lde_size(self, bits: nat) -> int {
        pow2(self.degree_bits as nat + bits) as int
    }

    /// The distance in the extension of consecutive points.
    pub open spec fn step(self, bits: nat) -> int {
        pow2((self.config.fri_config.rate_bits - bits) as nat) as int
    }

    /// The point with the index `i`.
    pub open spec fn point(self, bits: nat, i: int) -> F {
        domain_point::<F>(self.degree_bits as nat, bits, i as nat)
    }

    /// The index of the point that stands for the next row.
    pub open spec fn next_index(self, bits: nat, i: int) -> int {
        (i + pow2(bits)) % self.lde_size(bits)
    }

    /// The number of points of batch `b`.
    pub open spec fn batch_len(self, bits: nat, b: int) -> int {
        if self.lde_size(bits) - b * BATCH_SIZE < BATCH_SIZE {
            self.lde_size(bits) - b * BATCH_SIZE
        } else {
            BATCH_SIZE as int
        }
    }

    /// The values of the quotient for challenge `c` on the domain, from the values of the combined
    /// constraints in batches.
    pub open spec fn quotient_values(self, bits: nat, outs: Seq<Seq<Vec<F>>>, c: int) -> Seq<F> {
        Seq::new(
            self.lde_size(bits) as nat,
            |i: int|
                divided(
                    outs[i / BATCH_SIZE as int][i % BATCH_SIZE as int]@,
                    self.degree_bits as nat,
                    bits,
                    i,
                )[c],
        )
    }

    /// The polynomials, in canonical representation, interpolate the quotients of the given
    /// values.
    pub open spec fn are_quotients(
        self,
        bits: nat,
        outs: Seq<Seq<Vec<F>>>,
        polys: Seq<PolynomialCoeffs<F>>,
    ) -> bool {
        &&& polys.len() == self.config.num_challenges
        &&& forall|c: int|
            0 <= c < polys.len() ==> interpolates(
                (#[trigger] polys[c]).coeffs@,
                self.quotient_values(bits, outs, c),
                F::shift(),
                self.degree_bits as nat + bits,
            ) && is_canonical(polys[c].coeffs@)
    }

    /// Every batch has been evaluated.
    pub open spec fn are_evaluations(self, bits: nat, outs: Seq<Seq<Vec<F>>>) -> bool {
        &&& outs.len() == ceil_div(self.lde_size(bits) as nat, BATCH_SIZE as nat)
        &&& forall|b: int|
            0 <= b < outs.len() ==> is_evaluation(
                #[trigger] outs[b],
                self.batch_len(bits, b),
                self.config.num_challenges as int,
            )
    }
}

impl<F: Field, C> QuotientInputs<F, C> {
    /// The commitments belong to the circuit.
    pub open spec fn wf(self) -> bool {
        let cd = self.common_data;
        &&& cd.wf()
        &&& on_circuit_domain(cd, self.constants_sigmas)
        &&& on_circuit_domain(cd, self.wires)
        &&& on_circuit_domain(cd, self.zs_partial_products)
        &&& self.constants_sigmas.wf((cd.num_constants + cd.config.num_routed_wires) as nat)
        &&& self.wires.wf(cd.config.num_wires as nat)
        &&& self.zs_partial_products.wf(
            (cd.config.num_challenges * (cd.num_partial_products + 1)) as nat,
        )
    }

    /// The batch holds, for each of its points, the values that the commitments hold there.
    pub open spec fn is_batch(self, bits: nat, b: int, batch: QuotientBatch<F>) -> bool {
        let n = self.common_data.batch_len(bits, b);
        &&& batch.indices@.len() == n
        &&& batch.shifted_xs@.len() == n
        &&& batch.local_zs@.len() == n
        &&& batch.next_zs@.len() == n
        &&& batch.partial_products@.len() == n
        &&& batch.s_sigmas@.len() == n
        &&& forall|j: int| 0 <= j < n ==> #[trigger] self.holds_point(bits, b, j, batch)
        &&& is_column_layout(
            batch.local_constants@,
            n,
            self.common_data.num_constants as int,
            |j: int, c: int|
                self.constants_sigmas.lde_row(b * BATCH_SIZE + j, self.common_data.step(bits))[c],
        )
        &&& is_column_layout(
            batch.local_wires@,
            n,
            self.common_data.config.num_wires as int,
            |j: int, c: int| self.wires.lde_row(b * BATCH_SIZE + j, self.common_data.step(bits))[c],
        )
    }

    /// The `j`-th entries of the batch belong to its `j`-th point.
    pub open spec fn holds_point(self, bits: nat, b: int, j: int, batch: QuotientBatch<F>) -> bool {
        let cd = self.common_data;
        let i = b * BATCH_SIZE + j;
        let nc = cd.config.num_challenges as int;
        let zs = self.zs_partial_products.lde_row(i, cd.step(bits));
        let next = self.zs_partial_products.lde_row(cd.next_index(bits, i), cd.step(bits));
        let cs = self.constants_sigmas.lde_row(i, cd.step(bits));
        &&& batch.indices@[j] == i
        &&& batch.shifted_xs@[j] == cd.point(bits, i)
        &&& batch.local_zs@[j]@ == zs.subrange(0, nc)
        &&& batch.next_zs@[j]@ == next.subrange(0, nc)
        &&& batch.partial_products@[j]@ == zs.subrange(nc, nc * (cd.num_partial_products + 1))
        &&& batch.s_sigmas@[j]@ == cs.subrange(
            cd.num_constants as int,
            cd.num_constants + cd.config.num_routed_wires,
        )
    }
}

/// The batch was committed to with the circuit's degree and rate.
pub open spec fn on_circuit_domain<F: Field, C>(
    common_data: CommonCircuitData<F>,
    batch: PolynomialBatch<F, C>,
) -> bool {
    &&& batch.degree_log == common_data.degree_bits
    &&& batch.rate_bits == common_data.config.fri_config.rate_bits
}

/// The table `flat` holds the entry of row `j` and column `c` at position `c * n + j`.
pub open spec fn is_column_layout<T>(
    flat: Seq<T>,
    n: int,
    columns: int,
    entry: spec_fn(int, int) -> T,
) -> bool {
    &&& flat.len() == columns * n
    &&& forall|c: int, j: int|
        0 <= c < columns && 0 <= j < n ==> flat[c * n + j] == #[trigger] entry(j, c)
}

/// Returns a copy of the entries from `from` up to but not including `to`.
fn copy_range<T: Copy>(s: &[T], from: usize, to: usize) -> (r: Vec<T>)
    requires
        from <= to <= s@.len(),
    ensures
        r@ == s@.subrange(from as int, to as int),
{
    let mut r: Vec<T> = Vec::new();
    for i in from..to
        invariant
            from <= to <= s@.len(),
            r@ == s@.subrange(from as int, i as int),
    {
        r.push(s[i]);
        assert(r@ =~= s@.subrange(from as int, i + 1));
    }
    r
}

/// Lays out the first entries of the given rows column by column.
fn flatten_columns<T: Copy>(table: &Vec<&[T]>, columns: usize) -> (r: Vec<T>)
    requires
        forall|j: int| 0 <= j < table@.len() ==> columns <= (#[trigger] table@[j])@.len(),
    ensures
        is_column_layout(
            r@,
            table@.len() as int,
            columns as int,
            |j: int, c: int| table@[j]@[c],
        ),
{
    let n: usize = table.len();
    let mut r: Vec<T> = Vec::new();
    let ghost entry = |j: int, c: int| table@[j]@[c];
    assert(0 * n == 0) by (nonlinear_arith);
    for c in 0..columns
        invariant
            n == table.len(),
            entry == (|j: int, c: int| table@[j]@[c]),
            forall|j: int| 0 <= j < table@.len() ==> columns <= (#[trigger] table@[j])@.len(),
            r.len() == c * n,
            forall|d: int, j: int|
                0 <= d < c && 0 <= j < n ==> r@[d * n + j] == #[trigger] entry(j, d),
    {
        for j in 0..n
            invariant
                n == table.len(),
                c < columns,
                entry == (|j: int, c: int| table@[j]@[c]),
                forall|k: int| 0 <= k < table@.len() ==> columns <= (#[trigger] table@[k])@.len(),
                r.len() == c * n + j,
                forall|d: int, k: int|
                    0 <= d < c && 0 <= k < n ==> r@[d * n + k] == #[trigger] entry(k, d),
                forall|k: int| 0 <= k < j ==> r@[c * n + k] == #[trigger] entry(k, c as int),
        {
            let ghost before = r@;
            r.push(table[j][c]);
            proof {
                assert forall|d: int, k: int| 0 <= d < c && 0 <= k < n implies r@[d * n + k]
                    == #[trigger] entry(k, d) by {
                    assert(d * n + n <= c * n) by (nonlinear_arith)
                        requires
                            d + 1 <= c,
                    ;
                    assert(0 <= d * n) by (nonlinear_arith)
                        requires
                            0 <= d,
                    ;
                    assert(before[d * n + k] == entry(k, d));
                }
                assert(0 <= c * n) by (nonlinear_arith);
                assert forall|k: int| 0 <= k < j + 1 implies r@[c * n + k] == #[trigger] entry(
                    k,
                    c as int,
                ) by {
                    if k < j {
                        assert(before[c * n + k] == entry(k, c as int));
                    }
                }
            }
        }
        proof {
            assert((c + 1) * n == c * n + n) by (nonlinear_arith);
        }
    }
    r
}

/// The points of the quotient's domain are points of the committed extension, at every `step`-th
/// position.
pub proof fn lemma_step<F: Field>(db: nat, bits: nat, rate: nat, i: nat)
    requires
        bits <= rate,
        db + rate <= F::adicity(),
    ensures
        coset_point(F::shift(), db + rate, i * pow2((rate - bits) as nat)) == domain_point::<F>(
            db,
            bits,
            i,
        ),
        i < pow2(db + bits) ==> i * pow2((rate - bits) as nat) < pow2(db + rate),
{
    let w = root_of::<F>(db + rate);
    let j = (rate - bits) as nat;
    let s = pow2(j);
    lemma_root_of_power::<F>(db + rate, j);
    lemma_pow_pow(w, s, i);
    assert(s * i == i * s) by (nonlinear_arith);
    lemma_pow2_adds(db + bits, j);
    lemma_pow2_pos(j);
    if i < pow2(db + bits) {
        assert(i * s < pow2(db + bits) * s) by (nonlinear_arith)
            requires
                i < pow2(db + bits),
                0 < s,
        ;
    }
}

/// The point that stands for the next row is the point multiplied by the generator of the rows.
pub proof fn lemma_next_point<F: Field>(db: nat, bits: nat, i: nat)
    requires
        db + bits <= F::adicity(),
    ensures
        domain_point::<F>(db, bits, (i + pow2(bits)) % pow2(db + bits)) == root_of::<F>(db).times(
            domain_point::<F>(db, bits, i),
        ),
{
    let k = db + bits;
    let w = root_of::<F>(k);
    let m = pow2(bits);
    lemma_root_of_periodic::<F>(k, i + m);
    lemma_pow_add(w, i, m);
    lemma_root_of_power::<F>(k, bits);
    let g = root_of::<F>(db);
    // s (w^i g) = g (s w^i)
    F::law_associates(F::shift(), pow(w, i), g);
    F::law_commutes(F::shift().times(pow(w, i)), g);
}

/// Collects what the constraints are evaluated on at the points of batch `b`.
pub fn quotient_batch<F: Field, C>(
    domain: &QuotientDomain<F>,
    common_data: &CommonCircuitData<F>,
    constants_sigmas: &PolynomialBatch<F, C>,
    wires: &PolynomialBatch<F, C>,
    zs_partial_products: &PolynomialBatch<F, C>,
    b: usize,
) -> (r: QuotientBatch<F>)
    requires
        (QuotientInputs {
            common_data: *common_data,
            constants_sigmas: *constants_sigmas,
            wires: *wires,
            zs_partial_products: *zs_partial_products,
        }).wf(),
        domain.wf(*common_data),
        b * BATCH_SIZE < domain.points@.len(),
    ensures
        (QuotientInputs {
            common_data: *common_data,
            constants_sigmas: *constants_sigmas,
            wires: *wires,
            zs_partial_products: *zs_partial_products,
        }).is_batch(domain.bits as nat, b as int, r),
{
    let ghost q = QuotientInputs {
        common_data: *common_data,
        constants_sigmas: *constants_sigmas,
        wires: *wires,
        zs_partial_products: *zs_partial_products,
    };
    let ghost bits = domain.bits as nat;
    let lde_size: usize = domain.points.len();
    let nc: usize = common_data.config.num_challenges;
    let routed: usize = common_data.config.num_routed_wires;
    let num_constants: usize = common_data.num_constants;
    proof {
        common_data.lemma_num_chunks();
    }
    let zs_width: usize = nc * (common_data.num_partial_products + 1);
    let shift: F = F::coset_shift();
    let start: usize = b * BATCH_SIZE;
    let n: usize = if lde_size - start < BATCH_SIZE {
        lde_size - start
    } else {
        BATCH_SIZE
    };
    proof {
        assert(nc <= zs_width) by (nonlinear_arith)
            requires
                zs_width == nc * (common_data.num_partial_products + 1),
                0 <= nc,
                0 <= common_data.num_partial_products,
        ;
    }
    let mut indices: Vec<usize> = Vec::new();
    let mut shifted_xs: Vec<F> = Vec::new();
    let mut constant_rows: Vec<&[F]> = Vec::new();
    let mut wire_rows: Vec<&[F]> = Vec::new();
    let mut local_zs: Vec<Vec<F>> = Vec::new();
    let mut next_zs: Vec<Vec<F>> = Vec::new();
    let mut partial_products: Vec<Vec<F>> = Vec::new();
    let mut s_sigmas: Vec<Vec<F>> = Vec::new();
    for j in 0..n
        invariant
            q == (QuotientInputs {
                common_data: *common_data,
                constants_sigmas: *constants_sigmas,
                wires: *wires,
                zs_partial_products: *zs_partial_products,
            }),
            q.wf(),
            domain.wf(*common_data),
            bits == domain.bits,
            lde_size == domain.points@.len(),
            nc == common_data.config.num_challenges,
            routed == common_data.config.num_routed_wires,
            num_constants == common_data.num_constants,
            zs_width == nc * (common_data.num_partial_products + 1),
            nc <= zs_width,
            shift == F::shift(),
            start == b * BATCH_SIZE,
            start < lde_size,
            start + n <= lde_size,
            n == q.common_data.batch_len(bits, b as int),
            indices.len() == j,
            shifted_xs.len() == j,
            constant_rows.len() == j,
            wire_rows.len() == j,
            local_zs.len() == j,
            next_zs.len() == j,
            partial_products.len() == j,
            s_sigmas.len() == j,
            forall|k: int| 0 <= k < j ==> #[trigger] indices@[k] == start + k,
            forall|k: int|
                0 <= k < j ==> #[trigger] shifted_xs@[k] == q.common_data.point(bits, start + k),
            forall|k: int|
                0 <= k < j ==> (#[trigger] constant_rows@[k])@ == constants_sigmas.lde_row(
                    start + k,
                    q.common_data.step(bits),
                ) && constant_rows@[k]@.len() == num_constants + routed,
            forall|k: int|
                0 <= k < j ==> (#[trigger] wire_rows@[k])@ == wires.lde_row(
                    start + k,
                    q.common_data.step(bits),
                ) && wire_rows@[k]@.len() == common_data.config.num_wires,
            forall|k: int|
                0 <= k < j ==> (#[trigger] local_zs@[k])@ == zs_partial_products.lde_row(
                    start + k,
                    q.common_data.step(bits),
                ).subrange(0, nc as int),
            forall|k: int|
                0 <= k < j ==> (#[trigger] next_zs@[k])@ == zs_partial_products.lde_row(
                    q.common_data.next_index(bits, start + k),
                    q.common_data.step(bits),
                ).subrange(0, nc as int),
            forall|k: int|
                0 <= k < j ==> (#[trigger] partial_products@[k])@ == zs_partial_products.lde_row(
                    start + k,
                    q.common_data.step(bits),
                ).subrange(nc as int, zs_width as int),
            forall|k: int|
                0 <= k < j ==> (#[trigger] s_sigmas@[k])@ == constants_sigmas.lde_row(
                    start + k,
                    q.common_data.step(bits),
                ).subrange(num_constants as int, num_constants + routed),
    {
        let i: usize = start + j;
        proof {
            crate::util::lemma_pow2_half((common_data.degree_bits + domain.bits) as nat);
            lemma_pow2_monotone(bits, (common_data.degree_bits + domain.bits) as nat);
        }
        let i_next: usize = (i + domain.next_step) % lde_size;
        proof {
            let db = common_data.degree_bits as nat;
            let rate = common_data.config.fri_config.rate_bits as nat;
            lemma_step::<F>(db, bits, rate, i as nat);
            lemma_step::<F>(db, bits, rate, i_next as nat);
            assert(q.constants_sigmas.wf((num_constants + routed) as nat));
            assert(q.wires.wf(common_data.config.num_wires as nat));
            assert(q.zs_partial_products.wf(zs_width as nat));
        }
        let constants_sigmas_row: &[F] = constants_sigmas.get_lde_values(i, domain.step);
        let wires_row: &[F] = wires.get_lde_values(i, domain.step);
        let zs_row: &[F] = zs_partial_products.get_lde_values(i, domain.step);
        let next_row: &[F] = zs_partial_products.get_lde_values(i_next, domain.step);
        indices.push(i);
        shifted_xs.push(shift.mul(domain.points[i]));
        constant_rows.push(constants_sigmas_row);
        wire_rows.push(wires_row);
        local_zs.push(copy_range(zs_row, 0, nc));
        next_zs.push(copy_range(next_row, 0, nc));
        partial_products.push(copy_range(zs_row, nc, zs_width));
        s_sigmas.push(copy_range(constants_sigmas_row, num_constants, num_constants + routed));
    }
    let local_constants: Vec<F> = flatten_columns(&constant_rows, num_constants);
    let local_wires: Vec<F> = flatten_columns(&wire_rows, common_data.config.num_wires);
    let r = QuotientBatch {
        indices,
        shifted_xs,
        local_constants,
        local_wires,
        local_zs,
        next_zs,
        partial_products,
        s_sigmas,
    };
    proof {
        assert forall|j: int| 0 <= j < n implies #[trigger] q.holds_point(bits, b as int, j, r) by {
            assert(r.indices@[j] == start + j);
            assert(r.shifted_xs@[j] == q.common_data.point(bits, start + j));
            let i = start + j;
            let step = q.common_data.step(bits);
            let next = q.common_data.next_index(bits, i);
            let zs = zs_partial_products.lde_row(i, step);
            assert(r.local_zs@[j]@ == zs.subrange(0, nc as int));
            assert(r.next_zs@[j]@ == zs_partial_products.lde_row(next, step).subrange(
                0,
                nc as int,
            ));
            assert(r.partial_products@[j]@ == zs.subrange(nc as int, zs_width as int));
            assert(r.s_sigmas@[j]@ == constants_sigmas.lde_row(i, step).subrange(
                num_constants as int,
                num_constants + routed,
            ));
        }
        let constant = |j: int, c: int|
            q.constants_sigmas.lde_row(b * BATCH_SIZE + j, q.common_data.step(bits))[c];
        let constant_row = |j: int, c: int| constant_rows@[j]@[c];
        assert forall|c: int, j: int|
            0 <= c < num_constants && 0 <= j < n implies r.local_constants@[c * n + j]
            == #[trigger] constant(j, c) by {
            assert(r.local_constants@[c * n + j] == constant_row(j, c));
        }
        let wire = |j: int, c: int|
            q.wires.lde_row(b * BATCH_SIZE + j, q.common_data.step(bits))[c];
        let wire_row = |j: int, c: int| wire_rows@[j]@[c];
        assert forall|c: int, j: int|
            0 <= c < common_data.config.num_wires && 0 <= j < n implies r.local_wires@[c * n + j]
            == #[trigger] wire(j, c) by {
            assert(r.local_wires@[c * n + j] == wire_row(j, c));
        }
    }
    r
}

/// The values of the combined constraints at a batch of points: one row for each point, with one
/// value for each challenge.
pub open spec fn is_evaluation<F>(out: Seq<Vec<F>>, points: int, num_challenges: int) -> bool {
    &&& out.len() == points
    &&& forall|j: int| 0 <= j < out.len() ==> (#[trigger] out[j]).len() == num_challenges
}

/// A row of values, each divided by the value at the row's point of the polynomial that vanishes
/// on the rows of the circuit.
pub open spec fn divided<F: Field>(row: Seq<F>, n_log: nat, bits: nat, i: int) -> Seq<F> {
    Seq::new(
        row.len(),
        |c: int|
            row[c].times(vanishing_at(n_log, domain_point::<F>(n_log, bits, i as nat)).recip()),
    )
}

/// Divides the values at consecutive points, the first of which has the index `start`, by the
/// vanishing polynomial.
pub fn divide_by_vanishing<F: Field>(
    values: &Vec<Vec<F>>,
    start: usize,
    z_h_on_coset: &ZeroPolyOnCoset<F>,
) -> (r: Vec<Vec<F>>)
    requires
        z_h_on_coset.wf(),
        start + values@.len() <= usize::MAX,
    ensures
        r@.len() == values@.len(),
        forall|j: int|
            0 <= j < r@.len() ==> (#[trigger] r@[j])@ == divided(
                values@[j]@,
                z_h_on_coset.n_log as nat,
                z_h_on_coset.rate_bits as nat,
                start + j,
            ),
{
    let n: usize = values.len();
    let mut r: Vec<Vec<F>> = Vec::new();
    for j in 0..n
        invariant
            n == values.len(),
            start + n <= usize::MAX,
            z_h_on_coset.wf(),
            r.len() == j,
            forall|k: int|
                0 <= k < j ==> (#[trigger] r@[k])@ == divided(
                    values@[k]@,
                    z_h_on_coset.n_log as nat,
                    z_h_on_coset.rate_bits as nat,
                    start + k,
                ),
    {
        let denominator_inv: F = z_h_on_coset.eval_inverse(start + j);
        let ghost target = divided(
            values@[j as int]@,
            z_h_on_coset.n_log as nat,
            z_h_on_coset.rate_bits as nat,
            start + j,
        );
        let m: usize = values[j].len();
        let mut row: Vec<F> = Vec::new();
        for c in 0..m
            invariant
                j < n,
                n == values.len(),
                start + n <= usize::MAX,
                m == values@[j as int].len(),
                target == divided(
                    values@[j as int]@,
                    z_h_on_coset.n_log as nat,
                    z_h_on_coset.rate_bits as nat,
                    start + j,
                ),
                denominator_inv == vanishing_at(
                    z_h_on_coset.n_log as nat,
                    domain_point::<F>(
                        z_h_on_coset.n_log as nat,
                        z_h_on_coset.rate_bits as nat,
                        (start + j) as nat,
                    ),
                ).recip(),
                row.len() == c,
                forall|k: int| 0 <= k < c ==> #[trigger] row@[k] == target[k],
        {
            row.push(values[j][c].mul(denominator_inv));
        }
        assert(row@ =~= target);
        r.push(row);
    }
    r
}

/// Interpolates the columns of a table of values on the shifted domain of its length.
pub fn interpolate_columns<F: Field>(table: &Vec<Vec<F>>, k: usize) -> (r: Vec<PolynomialCoeffs<F>>)
    requires
        k <= F::adicity(),
        table@.len() == pow2(k as nat),
        has_width(rows(table@), table@[0].len() as nat),
    ensures
        r@.len() == table@[0].len(),
        forall|c: int|
            0 <= c < r@.len() ==> interpolates(
                (#[trigger] r@[c]).coeffs@,
                transposed(rows(table@), table@[0].len() as nat)[c],
                F::shift(),
                k as nat,
            ) && is_canonical(r@[c].coeffs@),
{
    proof {
        lemma_pow2_pos(k as nat);
        F::law_shift();
    }
    let columns: Vec<Vec<F>> = transpose(table);
    let ghost target = transposed(rows(table@), table@[0].len() as nat);
    let shift: F = F::coset_shift();
    let ghost all = columns@;
    assert(rows(all).len() == all.len());
    let mut r: Vec<PolynomialCoeffs<F>> = Vec::new();
    for column in it: columns
        invariant
            it.seq() == all,
            rows(all) == target,
            all.len() == table@[0].len(),
            target == transposed(rows(table@), table@[0].len() as nat),
            k <= F::adicity(),
            table@.len() == pow2(k as nat),
            shift == F::shift(),
            norm(shift) != F::zero(),
            r.len() == it.index(),
            forall|c: int|
                0 <= c < r@.len() ==> interpolates(
                    (#[trigger] r@[c]).coeffs@,
                    target[c],
                    F::shift(),
                    k as nat,
                ) && is_canonical(r@[c].coeffs@),
    {
        assert(column@ == rows(all)[it.index() as int]);
        let values: PolynomialValues<F> = PolynomialValues::new(column);
        assert(pow2(k as nat) == values.values@.len());
        r.push(values.coset_ifft(shift));
    }
    r
}

/// Returns the quotient polynomials of the given values of the combined constraints, which are
/// grouped by batch.
pub fn finish_quotient_polys<F: Field>(
    domain: &QuotientDomain<F>,
    common_data: &CommonCircuitData<F>,
    evaluations: &Vec<Vec<Vec<F>>>,
) -> (r: Vec<PolynomialCoeffs<F>>)
    requires
        common_data.wf(),
        domain.wf(*common_data),
        common_data.are_evaluations(domain.bits as nat, rows(evaluations@)),
    ensures
        common_data.are_quotients(domain.bits as nat, rows(evaluations@), r@),
{
    let ghost bits = domain.bits as nat;
    let ghost outs = rows(evaluations@);
    let ghost nc = common_data.config.num_challenges;
    let ghost db = common_data.degree_bits as nat;
    let lde_size: usize = domain.points.len();
    let num_batches: usize = evaluations.len();
    let mut table: Vec<Vec<F>> = Vec::new();
    proof {
        lemma_quotient_bits(*common_data, bits);
        lemma_chunk_bounds(lde_size as nat, BATCH_SIZE as nat, 0);
    }
    for b in 0..num_batches
        invariant
            common_data.wf(),
            domain.wf(*common_data),
            outs == rows(evaluations@),
            common_data.are_evaluations(bits, outs),
            bits == domain.bits,
            db == common_data.degree_bits,
            nc == common_data.config.num_challenges,
            lde_size == common_data.lde_size(bits),
            num_batches == evaluations.len(),
            b < num_batches ==> table@.len() == b * BATCH_SIZE,
            b == num_batches ==> table@.len() == lde_size,
            forall|i: int|
                0 <= i < table@.len() ==> (#[trigger] table@[i]).len() == nc && table@[i]@
                    == divided(
                    outs[i / BATCH_SIZE as int][i % BATCH_SIZE as int]@,
                    db,
                    bits,
                    i,
                ),
    {
        let start: usize = table.len();
        proof {
            lemma_chunk_bounds(lde_size as nat, BATCH_SIZE as nat, b as nat);
            lemma_chunk_bounds(lde_size as nat, BATCH_SIZE as nat, (b + 1) as nat);
            assert(outs[b as int] == evaluations@[b as int]@);
            assert(is_evaluation(
                outs[b as int],
                common_data.batch_len(bits, b as int),
                nc as int,
            ));
        }
        let mut divided_rows: Vec<Vec<F>> = divide_by_vanishing(
            &evaluations[b],
            start,
            &domain.z_h_on_coset,
        );
        let ghost new_rows = divided_rows@;
        let ghost old_rows = table@;
        table.append(&mut divided_rows);
        proof {
            assert forall|i: int| 0 <= i < table@.len() implies (#[trigger] table@[i]).len() == nc
                && table@[i]@ == divided(
                outs[i / BATCH_SIZE as int][i % BATCH_SIZE as int]@,
                db,
                bits,
                i,
            ) by {
                if i < start {
                    assert(table@[i] == old_rows[i]);
                } else {
                    let j = i - start;
                    assert(table@[i] == new_rows[j]);
                    assert(i / BATCH_SIZE as int == b && i % BATCH_SIZE as int == j);
                    assert(evaluations@[b as int]@[j].len() == nc);
                }
            }
        }
    }
    proof {
        assert forall|i: int| 0 <= i < lde_size implies (#[trigger] rows(table@)[i]).len()
            == table@[0].len() by {
            assert(rows(table@)[i] == table@[i]@);
            assert(table@[i].len() == nc);
        }
        assert(table@[0].len() == nc);
    }
    let r: Vec<PolynomialCoeffs<F>> = interpolate_columns(
        &table,
        common_data.degree_bits + domain.bits,
    );
    proof {
        assert forall|c: int| 0 <= c < r@.len() implies interpolates(
            (#[trigger] r@[c]).coeffs@,
            common_data.quotient_values(bits, outs, c),
            F::shift(),
            db + bits,
        ) && is_canonical(r@[c].coeffs@) by {
            let column = transposed(rows(table@), nc as nat)[c];
            assert forall|i: int| 0 <= i < lde_size implies column[i]
                == #[trigger] common_data.quotient_values(bits, outs, c)[i] by {
                assert(rows(table@)[i] == table@[i]@);
            }
            assert(column =~= common_data.quotient_values(bits, outs, c));
        }
    }
    r
}

/// The inputs of the quotient computation.
pub open spec fn quotient_inputs<F: Field, C, H>(
    common_data: CommonCircuitData<F>,
    prover_data: ProverOnlyCircuitData<F, C, H>,
    wires_commitment: PolynomialBatch<F, C>,
    zs_partial_products_commitment: PolynomialBatch<F, C>,
) -> QuotientInputs<F, C> {
    QuotientInputs {
        common_data,
        constants_sigmas: prover_data.constants_sigmas_commitment,
        wires: wires_commitment,
        zs_partial_products: zs_partial_products_commitment,
    }
}

/// The tables of the vanishing polynomial belong to the domain.
pub open spec fn is_z_h<F: Field>(
    common_data: CommonCircuitData<F>,
    bits: nat,
    z_h: ZeroPolyOnCoset<F>,
) -> bool {
    &&& common_data.has_quotient_bits(bits)
    &&& z_h.wf()
    &&& z_h.n_log == common_data.degree_bits
    &&& z_h.rate_bits == bits
}

/// The evaluator of the combined constraints accepts every batch of the circuit's domain, and
/// gives for each of its points one value for each challenge.
pub open spec fn evaluates<F: Field, C, I, E>(
    q: QuotientInputs<F, C>,
    public_inputs_hash: &I,
    betas: &Vec<F>,
    gammas: &Vec<F>,
    alphas: &Vec<F>,
    evaluator: E,
) -> bool where
    E: Fn(&QuotientBatch<F>, &ZeroPolyOnCoset<F>, &I, &Vec<F>, &Vec<F>, &Vec<F>) -> Vec<Vec<F>>,
 {
    &&& forall|bits: nat, b: int, batch: &QuotientBatch<F>, z_h: &ZeroPolyOnCoset<F>|
        #![trigger q.is_batch(bits, b, *batch), is_z_h(q.common_data, bits, *z_h)]
        is_z_h(q.common_data, bits, *z_h) && q.is_batch(bits, b, *batch) ==> call_requires(
            evaluator,
            (batch, z_h, public_inputs_hash, betas, gammas, alphas),
        )
    &&& forall|
        bits: nat,
        b: int,
        batch: &QuotientBatch<F>,
        z_h: &ZeroPolyOnCoset<F>,
        out: Vec<Vec<F>>,
    |
        #![trigger
            q.is_batch(bits, b, *batch),
            call_ensures(evaluator, (batch, z_h, public_inputs_hash, betas, gammas, alphas), out)
        ]
        is_z_h(q.common_data, bits, *z_h) && q.is_batch(bits, b, *batch) && call_ensures(
            evaluator,
            (batch, z_h, public_inputs_hash, betas, gammas, alphas),
            out,
        ) ==> is_evaluation(
            out@,
            batch.indices@.len() as int,
            q.common_data.config.num_challenges as int,
        )
}

/// The values of the combined constraints are those that the evaluator gave for the batches of
/// the circuit's domain.
pub open spec fn evaluated<F: Field, C, I, E>(
    q: QuotientInputs<F, C>,
    public_inputs_hash: &I,
    betas: &Vec<F>,
    gammas: &Vec<F>,
    alphas: &Vec<F>,
    evaluator: E,
    bits: nat,
    z_h: &ZeroPolyOnCoset<F>,
    batches: Seq<QuotientBatch<F>>,
    outs: Seq<Vec<Vec<F>>>,
) -> bool where
    E: Fn(&QuotientBatch<F>, &ZeroPolyOnCoset<F>, &I, &Vec<F>, &Vec<F>, &Vec<F>) -> Vec<Vec<F>>,
 {
    &&& is_z_h(q.common_data, bits, *z_h)
    &&& batches.len() == outs.len()
    &&& outs.len() == ceil_div(q.common_data.lde_size(bits) as nat, BATCH_SIZE as nat)
    &&& forall|b: int|
        0 <= b < batches.len() ==> q.is_batch(bits, b, #[trigger] batches[b]) && call_ensures(
            evaluator,
            (&batches[b], z_h, public_inputs_hash, betas, gammas, alphas),
            outs[b],
        )
}

/// The polynomials are the quotients of values that the evaluator gave.
pub open spec fn quotients_computed<F: Field, C, I, E>(
    q: QuotientInputs<F, C>,
    public_inputs_hash: &I,
    betas: &Vec<F>,
    gammas: &Vec<F>,
    alphas: &Vec<F>,
    evaluator: E,
    polys: Seq<PolynomialCoeffs<F>>,
) -> bool where
    E: Fn(&QuotientBatch<F>, &ZeroPolyOnCoset<F>, &I, &Vec<F>, &Vec<F>, &Vec<F>) -> Vec<Vec<F>>,
 {
    exists|
        bits: nat,
        z_h: &ZeroPolyOnCoset<F>,
        batches: Seq<QuotientBatch<F>>,
        outs: Seq<Vec<Vec<F>>>,
    |
        #[trigger] evaluated(
            q,
            public_inputs_hash,
            betas,
            gammas,
            alphas,
            evaluator,
            bits,
            z_h,
            batches,
            outs,
        ) && q.common_data.are_quotients(bits, rows(outs), polys)
}

/// Returns the quotient polynomials, one for each challenge: the combined constraints, as the
/// evaluator gives them on the domain, divided by the polynomial that vanishes on the rows.
pub fn compute_quotient_polys<F: Field, C, H, I, E>(
    common_data: &CommonCircuitData<F>,
    prover_data: &ProverOnlyCircuitData<F, C, H>,
    public_inputs_hash: &I,
    wires_commitment: &PolynomialBatch<F, C>,
    zs_partial_products_commitment: &PolynomialBatch<F, C>,
    betas: &Vec<F>,
    gammas: &Vec<F>,
    alphas: &Vec<F>,
    evaluator: E,
) -> (r: Vec<PolynomialCoeffs<F>>) where
    E: Fn(&QuotientBatch<F>, &ZeroPolyOnCoset<F>, &I, &Vec<F>, &Vec<F>, &Vec<F>) -> Vec<Vec<F>>,

    requires
        quotient_inputs(
            *common_data,
            *prover_data,
            *wires_commitment,
            *zs_partial_products_commitment,
        ).wf(),
        evaluates(
            quotient_inputs(
                *common_data,
                *prover_data,
                *wires_commitment,
                *zs_partial_products_commitment,
            ),
            public_inputs_hash,
            betas,
            gammas,
            alphas,
            evaluator,
        ),
    ensures
        quotients_computed(
            quotient_inputs(
                *common_data,
                *prover_data,
                *wires_commitment,
                *zs_partial_products_commitment,
            ),
            public_inputs_hash,
            betas,
            gammas,
            alphas,
            evaluator,
            r@,
        ),
{
    let ghost q = quotient_inputs(
        *common_data,
        *prover_data,
        *wires_commitment,
        *zs_partial_products_commitment,
    );
    let domain: QuotientDomain<F> = QuotientDomain::new(common_data);
    let ghost bits = domain.bits as nat;
    let lde_size: usize = domain.points.len();
    proof {
        lemma_quotient_bits(*common_data, bits);
        crate::util::lemma_pow2_half((common_data.degree_bits + domain.bits) as nat);
    }
    let mut evaluations: Vec<Vec<Vec<F>>> = Vec::new();
    let ghost mut batches: Seq<QuotientBatch<F>> = Seq::empty();
    let mut start: usize = 0;
    let mut b: usize = 0;
    proof {
        lemma_chunk_bounds(lde_size as nat, BATCH_SIZE as nat, 0);
    }
    while start < lde_size
        invariant
            q == quotient_inputs(
                *common_data,
                *prover_data,
                *wires_commitment,
                *zs_partial_products_commitment,
            ),
            q.wf(),
            evaluates(q, public_inputs_hash, betas, gammas, alphas, evaluator),
            domain.wf(*common_data),
            bits == domain.bits,
            lde_size == domain.points@.len(),
            lde_size == common_data.lde_size(bits),
            start <= lde_size,
            start == b * BATCH_SIZE || start == lde_size,
            start == lde_size ==> b == ceil_div(lde_size as nat, BATCH_SIZE as nat),
            b <= start,
            b == batches.len(),
            b == evaluations.len(),
            forall|k: int|
                0 <= k < b ==> q.is_batch(bits, k, #[trigger] batches[k]) && call_ensures(
                    evaluator,
                    (&batches[k], &domain.z_h_on_coset, public_inputs_hash, betas, gammas, alphas),
                    evaluations@[k],
                ),
            forall|k: int|
                0 <= k < b ==> is_evaluation(
                    (#[trigger] evaluations@[k])@,
                    common_data.batch_len(bits, k),
                    common_data.config.num_challenges as int,
                ),
        decreases lde_size - start,
    {
        proof {
            lemma_chunk_bounds(lde_size as nat, BATCH_SIZE as nat, b as nat);
            assert(is_z_h(*common_data, bits, domain.z_h_on_coset));
        }
        let batch: QuotientBatch<F> = quotient_batch(
            &domain,
            common_data,
            &prover_data.constants_sigmas_commitment,
            wires_commitment,
            zs_partial_products_commitment,
            b,
        );
        let out: Vec<Vec<F>> = evaluator(
            &batch,
            &domain.z_h_on_coset,
            public_inputs_hash,
            betas,
            gammas,
            alphas,
        );
        evaluations.push(out);
        proof {
            batches = batches.push(batch);
        }
        start = if lde_size - start < BATCH_SIZE {
            lde_size
        } else {
            start + BATCH_SIZE
        };
        b = b + 1;
    }
    proof {
        let outs = rows(evaluations@);
        assert forall|k: int| 0 <= k < outs.len() implies is_evaluation(
            #[trigger] outs[k],
            common_data.batch_len(bits, k),
            common_data.config.num_challenges as int,
        ) by {
            assert(outs[k] == evaluations@[k]@);
        }
        assert(evaluated(
            q,
            public_inputs_hash,
            betas,
            gammas,
            alphas,
            evaluator,
            bits,
            &domain.z_h_on_coset,
            batches,
            evaluations@,
        ));
    }
    finish_quotient_polys(&domain, common_data, &evaluations)
}

/// Where a polynomial interpolates the quotients of given values, multiplying it with the
/// vanishing polynomial gives those values back, at every point of the domain.
pub proof fn lemma_quotient_times_vanishing<F: Field>(
    common_data: CommonCircuitData<F>,
    bits: nat,
    outs: Seq<Seq<Vec<F>>>,
    polys: Seq<PolynomialCoeffs<F>>,
    c: int,
    i: int,
)
    requires
        common_data.wf(),
        common_data.has_quotient_bits(bits),
        common_data.are_evaluations(bits, outs),
        common_data.are_quotients(bits, outs, polys),
        0 <= c < common_data.config.num_challenges,
        0 <= i < common_data.lde_size(bits),
    ensures
        eval(polys[c].coeffs@, common_data.point(bits, i)).times(
            vanishing_at(common_data.degree_bits as nat, common_data.point(bits, i)),
        ) == norm(outs[i / BATCH_SIZE as int][i % BATCH_SIZE as int]@[c]),
{
    let db = common_data.degree_bits as nat;
    let x = common_data.point(bits, i);
    let v = vanishing_at(db, x);
    let b = i / BATCH_SIZE as int;
    let o = outs[b][i % BATCH_SIZE as int]@[c];
    lemma_quotient_bits(common_data, bits);
    lemma_vanishing_nonzero::<F>(db, bits, i as nat);
    lemma_chunk_bounds(common_data.lde_size(bits) as nat, BATCH_SIZE as nat, b as nat);
    assert(is_evaluation(
        outs[b],
        common_data.batch_len(bits, b),
        common_data.config.num_challenges as int,
    ));
    assert(outs[b][i % BATCH_SIZE as int].len() == common_data.config.num_challenges);
    let values = common_data.quotient_values(bits, outs, c);
    assert(interpolates(polys[c].coeffs@, values, F::shift(), db + bits));
    assert(coset_point(F::shift(), db + bits, i as nat) == x);
    assert(values[i] == o.times(v.recip()));
    F::law_recip(v);
    F::law_commutes(v, v.recip());
    F::law_associates(o, v.recip(), v);
    lemma_norm(o, v.recip());
    lemma_neutral(o);
}

/// The polynomial has the degree that a quotient of a satisfied circuit has.
pub open spec fn has_quotient_degree<F: Field>(
    common_data: CommonCircuitData<F>,
    poly: PolynomialCoeffs<F>,
) -> bool {
    let len = (common_data.quotient_degree_factor * common_data.degree_spec()) as nat;
    len <= poly.coeffs@.len() && vanishes_from(poly.coeffs@, len)
}

/// The `k`-th piece, of as many coefficients as the circuit has rows.
pub open spec fn piece<F: Field>(
    common_data: CommonCircuitData<F>,
    poly: PolynomialCoeffs<F>,
    k: int,
) -> Seq<F> {
    let n = common_data.degree_spec() as int;
    poly.coeffs@.subrange(k * n, (k + 1) * n)
}

/// Splits the quotient polynomials into pieces of as many coefficients as the circuit has rows.
/// Returns nothing if one of them has too high a degree: then the vanishing polynomial does not
/// divide the combined constraints.
pub fn split_quotient_polys<F: Field>(
    common_data: &CommonCircuitData<F>,
    quotient_polys: Vec<PolynomialCoeffs<F>>,
) -> (r: Option<Vec<PolynomialCoeffs<F>>>)
    requires
        common_data.wf(),
    ensures
        r is Some <==> forall|c: int|
            0 <= c < quotient_polys@.len() ==> has_quotient_degree(
                *common_data,
                #[trigger] quotient_polys@[c],
            ),
        r is Some ==> r->0@.len() == quotient_polys@.len() * common_data.quotient_degree_factor,
        r is Some ==> forall|c: int, k: int|
            0 <= c < quotient_polys@.len() && 0 <= k < common_data.quotient_degree_factor
                ==> r->0@[c * common_data.quotient_degree_factor + k].coeffs@ == #[trigger] piece(
                *common_data,
                quotient_polys@[c],
                k,
            ),
{
    let ghost polys = quotient_polys@;
    let ghost f = common_data.quotient_degree_factor as int;
    proof {
        let rate = common_data.config.fri_config.rate_bits as nat;
        lemma_pow2_monotone(
            common_data.degree_bits as nat,
            (common_data.degree_bits + rate) as nat,
        );
    }
    let degree: usize = common_data.degree();
    let quotient_degree: usize = common_data.quotient_degree();
    let mut r: Vec<PolynomialCoeffs<F>> = Vec::new();
    assert(0 * f == 0) by (nonlinear_arith);
    for poly in it: quotient_polys
        invariant
            common_data.wf(),
            it.seq() == polys,
            f == common_data.quotient_degree_factor,
            degree == common_data.degree_spec(),
            0 < degree,
            quotient_degree == f * degree,
            r.len() == it.index() * f,
            forall|c: int|
                0 <= c < it.index() ==> has_quotient_degree(*common_data, #[trigger] polys[c]),
            forall|c: int, k: int|
                0 <= c < it.index() && 0 <= k < f ==> r@[c * f + k].coeffs@ == #[trigger] piece(
                    *common_data,
                    polys[c],
                    k,
                ),
    {
        let ghost done = it.index() as int;
        let ghost before = r@;
        let mut poly = poly;
        let ghost original = poly;
        assert(original == polys[done]);
        if !poly.trim_to_len(quotient_degree) {
            return None;
        }
        let mut pieces: Vec<PolynomialCoeffs<F>> = poly.chunks(degree);
        let ghost new = pieces@;
        proof {
            lemma_pieces(*common_data, original, poly.coeffs@);
            assert(crate::polynomial::coefficients(new).len() == new.len());
        }
        r.append(&mut pieces);
        proof {
            assert((done + 1) * f == done * f + f) by (nonlinear_arith);
            assert(0 <= done * f) by (nonlinear_arith)
                requires
                    0 <= done,
                    0 <= f,
            ;
            assert forall|c: int, k: int| 0 <= c < done + 1 && 0 <= k < f implies r@[c * f
                + k].coeffs@ == #[trigger] piece(*common_data, polys[c], k) by {
                if c < done {
                    assert(c * f + f <= done * f) by (nonlinear_arith)
                        requires
                            c + 1 <= done,
                            0 <= f,
                    ;
                    assert(0 <= c * f) by (nonlinear_arith)
                        requires
                            0 <= c,
                            0 <= f,
                    ;
                    assert(r@[c * f + k] == before[c * f + k]);
                } else {
                    assert(r@[c * f + k] == new[k]);
                    assert(crate::polynomial::coefficients(new)[k] == new[k].coeffs@);
                }
            }
        }
    }
    Some(r)
}

/// The pieces of a trimmed quotient polynomial.
proof fn lemma_pieces<F: Field>(
    common_data: CommonCircuitData<F>,
    poly: PolynomialCoeffs<F>,
    trimmed: Seq<F>,
)
    requires
        common_data.wf(),
        has_quotient_degree(common_data, poly),
        trimmed == poly.coeffs@.take(
            common_data.quotient_degree_factor * common_data.degree_spec(),
        ),
    ensures
        chunked(trimmed, common_data.degree_spec()).len() == common_data.quotient_degree_factor,
        forall|k: int|
            0 <= k < common_data.quotient_degree_factor ==> #[trigger] piece(common_data, poly, k)
                == chunked(trimmed, common_data.degree_spec())[k],
{
    let n = common_data.degree_spec();
    let f = common_data.quotient_degree_factor as nat;
    lemma_pow2_pos(common_data.degree_bits as nat);
    lemma_chunk_bounds(f * n, n, f);
    lemma_chunk_bounds(f * n, n, (f - 1) as nat);
    assert((f - 1) * n < f * n) by (nonlinear_arith)
        requires
            0 < n,
            0 < f,
    ;
    assert forall|k: int| 0 <= k < f implies #[trigger] piece(common_data, poly, k) == chunked(
        trimmed,
        n,
    )[k] by {
        assert(0 <= k * n && k * n <= (k + 1) * n && (k + 1) * n <= f * n) by (nonlinear_arith)
            requires
                0 <= k,
                k + 1 <= f,
                0 < n,
        ;
        assert(piece(common_data, poly, k) =~= chunked(trimmed, n)[k]);
    }
}

/// The pieces of a quotient polynomial recombine to it.
pub proof fn lemma_pieces_recombine<F: Field>(
    common_data: CommonCircuitData<F>,
    poly: PolynomialCoeffs<F>,
    x: F,
)
    requires
        common_data.wf(),
        has_quotient_degree(common_data, poly),
    ensures
        recombined(
            Seq::new(
                common_data.quotient_degree_factor as nat,
                |k: int| piece(common_data, poly, k),
            ),
            common_data.degree_spec(),
            x,
        ) == eval(poly.coeffs@, x),
{
    let len = (common_data.quotient_degree_factor * common_data.degree_spec()) as nat;
    let trimmed = poly.coeffs@.take(len as int);
    lemma_pow2_pos(common_data.degree_bits as nat);
    lemma_pieces(common_data, poly, trimmed);
    assert(chunked(trimmed, common_data.degree_spec()) =~= Seq::new(
        common_data.quotient_degree_factor as nat,
        |k: int| piece(common_data, poly, k),
    ));
    lemma_eval_chunked(trimmed, common_data.degree_spec(), x);
    lemma_eval_trimmed(poly.coeffs@, len, x);
}

/// The polynomial `t`, of the length of a quotient, times the vanishing polynomial takes the given
/// values of the combined constraints for challenge `c` on the domain.
pub open spec fn is_exact_quotient<F: Field>(
    common_data: CommonCircuitData<F>,
    bits: nat,
    outs: Seq<Seq<Vec<F>>>,
    c: int,
    t: Seq<F>,
) -> bool {
    &&& t.len() == common_data.quotient_degree_factor * common_data.degree_spec()
    &&& forall|i: int|
        0 <= i < common_data.lde_size(bits) ==> eval(
            t,
            #[trigger] common_data.point(bits, i),
        ).times(vanishing_at(common_data.degree_bits as nat, common_data.point(bits, i))) == norm(
            outs[i / BATCH_SIZE as int][i % BATCH_SIZE as int]@[c],
        )
}

/// If the combined constraints have an exact quotient, then the quotient polynomial passes the
/// test of its degree, and it is that quotient.
pub proof fn lemma_exact_quotient<F: Field>(
    common_data: CommonCircuitData<F>,
    bits: nat,
    outs: Seq<Seq<Vec<F>>>,
    polys: Seq<PolynomialCoeffs<F>>,
    c: int,
    t: Seq<F>,
)
    requires
        common_data.wf(),
        common_data.has_quotient_bits(bits),
        common_data.are_evaluations(bits, outs),
        common_data.are_quotients(bits, outs, polys),
        0 <= c < common_data.config.num_challenges,
        is_exact_quotient(common_data, bits, outs, c, t),
    ensures
        has_quotient_degree(common_data, polys[c]),
        forall|i: int| 0 <= i < t.len() ==> norm(#[trigger] t[i]) == norm(polys[c].coeffs@[i]),
{
    let db = common_data.degree_bits as nat;
    let k = db + bits;
    let n = pow2(k);
    let p = polys[c].coeffs@;
    lemma_quotient_bits(common_data, bits);
    assert(interpolates(p, common_data.quotient_values(bits, outs, c), F::shift(), k));
    let padded = t + Seq::new((n - t.len()) as nat, |i: int| F::zero());
    lemma_neutral(F::zero());
    assert(padded.take(t.len() as int) =~= t);
    let xs = Seq::new(n, |i: int| coset_point(F::shift(), k, i as nat));
    F::law_shift();
    lemma_coset_points_distinct(F::shift(), k);
    assert forall|i: int| 0 <= i < xs.len() implies eval(p, #[trigger] xs[i]) == eval(
        padded,
        xs[i],
    ) by {
        let x = common_data.point(bits, i);
        let v = vanishing_at(db, x);
        assert(xs[i] == x);
        lemma_quotient_times_vanishing(common_data, bits, outs, polys, c, i);
        lemma_vanishing_nonzero::<F>(db, bits, i as nat);
        F::law_commutes(v, eval(p, x));
        F::law_commutes(v, eval(t, x));
        lemma_times_cancel(v, eval(p, x), eval(t, x));
        lemma_eval_norm(p, x);
        lemma_eval_norm(t, x);
        lemma_eval_trimmed(padded, t.len(), x);
    }
    lemma_interpolation_unique(p, padded, xs);
    assert forall|i: int| t.len() <= i < p.len() implies norm(#[trigger] p[i]) == F::zero() by {
        assert(padded[i] == F::zero());
    }
    assert forall|i: int| 0 <= i < t.len() implies norm(#[trigger] t[i]) == norm(p[i]) by {
        assert(padded[i] == t[i]);
    }
}

/// The quotient polynomial passes the test of its degree exactly if the vanishing polynomial
/// divides the combined constraints.
pub proof fn lemma_divisible<F: Field>(
    common_data: CommonCircuitData<F>,
    bits: nat,
    outs: Seq<Seq<Vec<F>>>,
    polys: Seq<PolynomialCoeffs<F>>,
    c: int,
)
    requires
        common_data.wf(),
        common_data.has_quotient_bits(bits),
        common_data.are_evaluations(bits, outs),
        common_data.are_quotients(bits, outs, polys),
        0 <= c < common_data.config.num_challenges,
    ensures
        has_quotient_degree(common_data, polys[c]) <==> exists|t: Seq<F>|
            is_exact_quotient(common_data, bits, outs, c, t),
{
    if has_quotient_degree(common_data, polys[c]) {
        let len = (common_data.quotient_degree_factor * common_data.degree_spec()) as nat;
        let t = polys[c].coeffs@.take(len as int);
        assert forall|i: int| 0 <= i < common_data.lde_size(bits) implies eval(
            t,
            #[trigger] common_data.point(bits, i),
        ).times(vanishing_at(common_data.degree_bits as nat, common_data.point(bits, i))) == norm(
            outs[i / BATCH_SIZE as int][i % BATCH_SIZE as int]@[c],
        ) by {
            lemma_quotient_times_vanishing(common_data, bits, outs, polys, c, i);
            lemma_eval_trimmed(polys[c].coeffs@, len, common_data.point(bits, i));
        }
        assert(is_exact_quotient(common_data, bits, outs, c, t));
    }
    assert forall|t: Seq<F>| is_exact_quotient(common_data, bits, outs, c, t) implies
        has_quotient_degree(common_data, polys[c]) by {
        lemma_exact_quotient(common_data, bits, outs, polys, c, t);
    }
}

} // verus!
