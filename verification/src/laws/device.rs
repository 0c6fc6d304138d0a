//! Laws of the computation on a device, and of what the device is told.
use vstd::arithmetic::div_mod::lemma_small_mod;
use vstd::arithmetic::power2::pow2;
use vstd::prelude::*;
use crate::circuit_data::{CommonCircuitData, GateRef, ProverOnlyCircuitData};
use crate::field::Field;
use crate::gates::{
    GateInfo, decimal, find_from, find_gate_type, first_unknown_gate, gates_known, is_digit,
    leading_digits, lemma_find_from, name_of, occurs_at, parse_decimal, parse_gate_named_u32,
    zeknox_quotient_gate_infos, zeknox_quotient_gate_type_id,
};
use crate::goldilocks::GoldilocksField;
use crate::gpu::{
    GpuLaunch, GpuQuotient, GpuQuotientError, GpuReadback, GpuSelected, GpuUpload, ProverConfig,
    compute_quotient_polys_gpu_gl64, device_sizes_fit, gpu_after, gpu_after_uses,
    gpu_quotient_hash_limbs_gl64, leaves_flat, lemma_concatenated, parse_usize, prover_config,
    take_gpu_id, to_canonical,
};
use crate::laws::quotients::exceeds_by;
use crate::oracle::PolynomialBatch;
use crate::polynomial::PolynomialCoeffs;
use crate::prime::order;
use crate::ring::norm;
use crate::util::{is_log2_ceil, lemma_log2_unique, lemma_pow2_monotone};

verus! {

/// A number stands for the field element: it is its representative below the order of the field.
pub open spec fn stands_for(number: u64, element: GoldilocksField) -> bool {
    &&& number < 0xFFFF_FFFF_0000_0001
    &&& norm(GoldilocksField(number)) == norm(element)
}

/// Numbers that stand for elements are equal exactly if the elements are.
pub proof fn law_stands_for(m: u64, n: u64, a: GoldilocksField, b: GoldilocksField)
    requires
        stands_for(m, a),
        stands_for(n, b),
    ensures
        m == n <==> norm(a) == norm(b),
{
    lemma_small_mod(m as nat, order() as nat);
    lemma_small_mod(n as nat, order() as nat);
}

/// Each number that is handed to the device stands for its element.
pub proof fn law_to_canonical(s: &Vec<GoldilocksField>, r: Vec<u64>, i: int)
    requires
        call_ensures(to_canonical, (s,), r),
        0 <= i < s@.len(),
    ensures
        r@.len() == s@.len(),
        stands_for(r@[i], s@[i]),
{
    assert(r@[i] == s@[i].residue() as u64);
    lemma_small_mod(r@[i] as nat, order() as nat);
}

/// The limbs of a hash stand for its elements; there are four of them, or none.
pub proof fn law_hash_limbs(
    hash: &Vec<GoldilocksField>,
    r: Result<[u64; 4], GpuQuotientError>,
    i: int,
)
    requires
        call_ensures(gpu_quotient_hash_limbs_gl64, (hash,), r),
        0 <= i < 4,
    ensures
        r is Ok <==> hash@.len() == 4,
        r is Ok ==> stands_for(r->Ok_0@[i], hash@[i]),
        r matches Err(e) ==> (e matches GpuQuotientError::HashLimbs(got) && got == hash@.len()),
{
    assert(hash.len() == hash@.len());
    if r is Ok {
        assert(r->Ok_0@[i] == hash@[i].residue() as u64);
        lemma_small_mod(r->Ok_0@[i] as nat, order() as nat);
    }
}

/// The lower 32 bits of a number.
proof fn lemma_lower_bits(n: usize)
    ensures
        n as u32 as int == n as int % 0x1_0000_0000,
{
    let m = n as u64;
    assert(m as u32 == m % 0x1_0000_0000) by (bit_vector);
    assert(n as u32 == n as u64 as u32) by (bit_vector);
}

/// The dimensions reach the device, each in its place: the lower 32 bits of them, so that those
/// that fit are unchanged.
pub proof fn law_prover_config<F>(common_data: &CommonCircuitData<F>, r: ProverConfig)
    requires
        call_ensures(prover_config::<F>, (common_data,), r),
    ensures
        r.degree_bits == common_data.degree_bits as int % 0x1_0000_0000,
        r.num_wires == common_data.config.num_wires as int % 0x1_0000_0000,
        r.num_routed_wires == common_data.config.num_routed_wires as int % 0x1_0000_0000,
        r.num_challenges == common_data.config.num_challenges as int % 0x1_0000_0000,
        r.num_partial_products == common_data.num_partial_products as int % 0x1_0000_0000,
        r.quotient_degree_factor == common_data.quotient_degree_factor as int % 0x1_0000_0000,
        r.rate_bits == common_data.config.fri_config.rate_bits as int % 0x1_0000_0000,
        r.cap_height == common_data.config.fri_config.cap_height as int % 0x1_0000_0000,
        r.num_gate_constraints == common_data.num_gate_constraints as int % 0x1_0000_0000,
        r.num_constants == common_data.num_constants as int % 0x1_0000_0000,
        r.num_public_inputs == common_data.num_public_inputs as int % 0x1_0000_0000,
{
    lemma_lower_bits(common_data.degree_bits);
    lemma_lower_bits(common_data.config.num_wires);
    lemma_lower_bits(common_data.config.num_routed_wires);
    lemma_lower_bits(common_data.config.num_challenges);
    lemma_lower_bits(common_data.num_partial_products);
    lemma_lower_bits(common_data.quotient_degree_factor);
    lemma_lower_bits(common_data.config.fri_config.rate_bits);
    lemma_lower_bits(common_data.config.fri_config.cap_height);
    lemma_lower_bits(common_data.num_gate_constraints);
    lemma_lower_bits(common_data.num_constants);
    lemma_lower_bits(common_data.num_public_inputs);
}

/// The first stage refuses wrong numbers of challenges, and then degrees above the rate. Otherwise
/// it keeps its inputs, expects as many coefficients as the quotient's domain has points, and works
/// on the committed domain.
pub proof fn law_first_stage<'a, C, H>(
    common_data: &'a CommonCircuitData<GoldilocksField>,
    prover_data: &'a ProverOnlyCircuitData<GoldilocksField, C, H>,
    public_inputs_hash: &'a Vec<GoldilocksField>,
    wires_commitment: &'a PolynomialBatch<GoldilocksField, C>,
    zs_commitment: &'a PolynomialBatch<GoldilocksField, C>,
    betas: &'a Vec<GoldilocksField>,
    gammas: &'a Vec<GoldilocksField>,
    alphas: &'a Vec<GoldilocksField>,
    r: Result<GpuQuotient<'a, C, H>, GpuQuotientError>,
    bits: nat,
)
    requires
        betas@.len() == gammas@.len() == alphas@.len() == common_data.config.num_challenges
            ==> device_sizes_fit(*common_data),
        call_ensures(
            compute_quotient_polys_gpu_gl64::<C, H>,
            (
                common_data,
                prover_data,
                public_inputs_hash,
                wires_commitment,
                zs_commitment,
                betas,
                gammas,
                alphas,
            ),
            r,
        ),
        exceeds_by(*common_data, bits),
    ensures
        ({
            let nc = common_data.config.num_challenges;
            let rate = common_data.config.fri_config.rate_bits;
            let counted = betas@.len() == nc && gammas@.len() == nc && alphas@.len() == nc;
            &&& r is Ok <==> counted && bits <= rate
            &&& !counted ==> r == Result::<GpuQuotient<'a, C, H>, GpuQuotientError>::Err(
                GpuQuotientError::ChallengeCount,
            )
            &&& counted && bits > rate ==> r == Result::<
                GpuQuotient<'a, C, H>,
                GpuQuotientError,
            >::Err(GpuQuotientError::DegreeExceedsRate)
            &&& r matches Ok(stage) ==> {
                &&& stage.lde_q_expected == pow2(common_data.degree_bits as nat + bits)
                &&& stage.lg_ntt_domain == common_data.degree_bits + rate
                &&& stage.inputs.common_data == common_data
                &&& stage.inputs.prover_data == prover_data
                &&& stage.inputs.public_inputs_hash == public_inputs_hash
                &&& stage.inputs.wires_commitment == wires_commitment
                &&& stage.inputs.zs_partial_products_commitment == zs_commitment
                &&& stage.inputs.betas == betas
                &&& stage.inputs.gammas == gammas
                &&& stage.inputs.alphas == alphas
            }
        }),
{
    let rate = common_data.config.fri_config.rate_bits as nat;
    let f = common_data.quotient_degree_factor as nat;
    assert forall|j: nat| #![trigger pow2(j)] j < bits implies pow2(j) < f by {
        lemma_pow2_monotone(j, (bits - 1) as nat);
    }
    if bits <= rate {
        lemma_pow2_monotone(bits, rate);
    } else {
        assert(pow2(rate) < f);
    }
    if let Ok(stage) = r {
        let b = choose|b: nat|
            is_log2_ceil(f, b) && stage.lde_q_expected == #[trigger] pow2(
                (common_data.degree_bits + b) as nat,
            );
        lemma_log2_unique(f, b, bits);
    }
}

/// Devices take turns: after the last one comes the first, and otherwise the next.
pub proof fn law_turns(id: int, num_gpus: int)
    requires
        0 <= id,
        0 < num_gpus,
    ensures
        id + 1 < num_gpus ==> gpu_after(id, num_gpus) == id + 1,
        id + 1 >= num_gpus ==> gpu_after(id, num_gpus) == 0,
        0 <= gpu_after(id, num_gpus) < num_gpus,
        gpu_after_uses(id, num_gpus, 1) == gpu_after(id, num_gpus),
{
    reveal_with_fuel(gpu_after_uses, 2);
}

/// The number that is read off a text: an optional plus sign and then decimal digits only, at
/// least one, for a number that fits.
pub proof fn law_parse_usize(text: &str, r: Option<usize>, start: int)
    requires
        call_ensures(parse_usize, (text,), r),
        start == if text@.len() > 0 && text@[0] == '+' {
            1int
        } else {
            0int
        },
    ensures
        r is Some <==> start < text@.len() && (forall|i: int|
            start <= i < text@.len() ==> '0' <= #[trigger] text@[i] && text@[i] <= '9')
            && decimal(text@.skip(start)) <= usize::MAX,
        r is Some ==> r->0 == decimal(text@.skip(start)),
{
    let digits = text@.skip(start);
    if start == 1 {
        assert(text@.drop_first() =~= digits);
    } else {
        assert(text@ =~= digits);
    }
    law_leading_digits(digits);
    let d = leading_digits(digits);
    if d == digits {
        assert forall|i: int| start <= i < text@.len() implies '0' <= #[trigger] text@[i]
            && text@[i] <= '9' by {
            assert(digits[i - start] == text@[i]);
            assert(is_digit(digits[i - start]));
        }
    }
    if forall|i: int| start <= i < text@.len() ==> '0' <= #[trigger] text@[i] && text@[i] <= '9' {
        if d.len() < digits.len() {
            assert(digits[d.len() as int] == text@[start + d.len()]);
        }
        assert(d =~= digits);
    }
}

/// The leading digits of a text are the longest run of digits at its start.
pub proof fn law_leading_digits(s: Seq<char>)
    ensures
        leading_digits(s).len() <= s.len(),
        leading_digits(s) == s.take(leading_digits(s).len() as int),
        forall|i: int|
            0 <= i < leading_digits(s).len() ==> '0' <= #[trigger] s[i] && s[i] <= '9',
        leading_digits(s).len() < s.len() ==> !('0' <= s[leading_digits(s).len() as int]
            && s[leading_digits(s).len() as int] <= '9'),
    decreases s.len(),
{
    if s.len() > 0 && is_digit(s[0]) {
        let t = s.drop_first();
        law_leading_digits(t);
        let d = leading_digits(s);
        let e = leading_digits(t);
        assert(d =~= s.take(d.len() as int)) by {
            assert forall|i: int| 0 <= i < d.len() implies d[i] == s[i] by {
                if i > 0 {
                    assert(d[i] == e[i - 1]);
                    assert(e[i - 1] == t.take(e.len() as int)[i - 1]);
                }
            }
        }
        assert forall|i: int| 0 <= i < d.len() implies '0' <= #[trigger] s[i] && s[i] <= '9' by {
            if i > 0 {
                assert(t[i - 1] == s[i]);
            }
        }
        if d.len() < s.len() {
            assert(t[e.len() as int] == s[d.len() as int]);
        }
    } else {
        assert(s.take(0) =~= Seq::empty());
    }
}

/// Decimal digits: each one that is appended multiplies by ten and adds its value.
pub proof fn law_decimal(s: Seq<char>, c: char)
    requires
        '0' <= c <= '9',
    ensures
        decimal(Seq::<char>::empty()) == 0,
        decimal(s.push(c)) == 10 * decimal(s) + (c as int - '0' as int),
        0 <= c as int - '0' as int <= 9,
{
    assert(s.push(c).drop_last() =~= s);
}

/// A run of digits is read as the number that it stands for, where that is within the limit.
pub proof fn law_parse_decimal(
    s: &Vec<char>,
    from: usize,
    to: usize,
    limit: u64,
    r: Option<u64>,
)
    requires
        from <= to <= s@.len(),
        forall|i: int| from <= i < to ==> is_digit(#[trigger] s@[i]),
        call_ensures(parse_decimal, (s, from, to, limit), r),
    ensures
        r is Some <==> decimal(s@.subrange(from as int, to as int)) <= limit,
        r is Some ==> r->0 == decimal(s@.subrange(from as int, to as int)),
{
}

/// The number under a key: where `key: ` first stands at position `i` of the identity, and the
/// digits after it end at position `e`, the result is the number that these digits stand for, if
/// there are any and it fits into 32 bits.
pub proof fn law_named_number(id: &str, key: &str, r: Option<u32>, i: int, e: int)
    requires
        call_ensures(parse_gate_named_u32, (id, key), r),
        0 <= i,
        i + key@.len() + 2 <= e <= id@.len(),
        id@.subrange(i, i + key@.len() + 2) == key@ + seq![':', ' '],
        forall|j: int|
            #![trigger id@.subrange(j, j + key@.len() + 2)]
            0 <= j < i ==> id@.subrange(j, j + key@.len() + 2) != key@ + seq![':', ' '],
        forall|j: int| i + key@.len() + 2 <= j < e ==> '0' <= #[trigger] id@[j] && id@[j] <= '9',
        e < id@.len() ==> !('0' <= id@[e] && id@[e] <= '9'),
    ensures
        ({
            let digits = id@.subrange(i + key@.len() + 2, e);
            &&& r is Some <==> digits.len() > 0 && decimal(digits) <= u32::MAX
            &&& r is Some ==> r->0 == decimal(digits)
        }),
{
    let s = id@;
    reveal_strlit(": ");
    let needle = key@ + ": "@;
    assert(": "@ =~= seq![':', ' ']);
    assert(needle.len() == key@.len() + 2);
    assert(occurs_at(s, needle, i));
    lemma_find_from(s, needle, 0);
    let k = find_from(s, needle, 0)->0 as int;
    assert(k == i) by {
        if k < i {
            assert(s.subrange(k, k + key@.len() + 2) == needle);
        }
        if i < k {
            assert(!occurs_at(s, needle, i));
        }
    }
    let start = i + needle.len();
    let rest = s.skip(start);
    law_leading_digits(rest);
    let d = leading_digits(rest);
    let n = e - start;
    if d.len() < n {
        assert(rest[d.len() as int] == s[start + d.len()]);
    }
    if d.len() > n {
        assert(rest[n] == s[e]);
    }
    assert(d =~= s.subrange(start, e));
}

/// Without `key: ` in the identity there is no number.
pub proof fn law_no_named_number(id: &str, key: &str, r: Option<u32>)
    requires
        call_ensures(parse_gate_named_u32, (id, key), r),
        forall|j: int|
            #![trigger id@.subrange(j, j + key@.len() + 2)]
            0 <= j && j + key@.len() + 2 <= id@.len() ==> id@.subrange(j, j + key@.len() + 2)
                != key@ + seq![':', ' '],
    ensures
        r is None,
{
    reveal_strlit(": ");
    let needle = key@ + ": "@;
    assert(": "@ =~= seq![':', ' ']);
    lemma_find_from(id@, needle, 0);
    if let Some(k) = find_from(id@, needle, 0) {
        assert(occurs_at(id@, needle, k as int));
        assert(id@.subrange(k as int, k as int + key@.len() + 2) == needle);
    }
}

/// The name of a gate ends before the first blank, brace or parenthesis.
proof fn lemma_name(id: Seq<char>, e: int)
    requires
        0 <= e <= id.len(),
        forall|j: int|
            0 <= j < e ==> #[trigger] id[j] != ' ' && id[j] != '{' && id[j] != '(',
        e < id.len() ==> id[e] == ' ' || id[e] == '{' || id[e] == '(',
    ensures
        name_of(id) == id.take(e),
    decreases e,
{
    if e > 0 {
        assert(id[0] != ' ' && id[0] != '{' && id[0] != '(');
        let t = id.drop_first();
        assert forall|j: int| 0 <= j < e - 1 implies #[trigger] t[j] != ' ' && t[j] != '{' && t[j]
            != '(' by {
            assert(t[j] == id[j + 1]);
        }
        lemma_name(t, e - 1);
        assert(seq![id[0]] + t.take(e - 1) =~= id.take(e));
    } else {
        assert(id.take(0) =~= Seq::empty());
    }
}

/// The types of gates: the text of the identity up to position `e`, where the first blank, brace or
/// parenthesis stands or the text ends, decides.
pub proof fn law_gate_type(gate: &GateRef, r: Option<u32>, e: int)
    requires
        call_ensures(find_gate_type, (gate,), r),
        0 <= e <= gate.id@.len(),
        forall|j: int|
            0 <= j < e ==> #[trigger] gate.id@[j] != ' ' && gate.id@[j] != '{' && gate.id@[j]
                != '(',
        e < gate.id@.len() ==> gate.id@[e] == ' ' || gate.id@[e] == '{' || gate.id@[e] == '(',
    ensures
        r == Some(0u32) <==> gate.id@.take(e) == "ArithmeticGate"@,
        r == Some(1u32) <==> gate.id@.take(e) == "ArithmeticExtensionGate"@,
        r == Some(2u32) <==> gate.id@.take(e) == "ConstantGate"@,
        r == Some(3u32) <==> gate.id@.take(e) == "PublicInputGate"@,
        r == Some(4u32) <==> gate.id@.take(e) == "PoseidonGate"@,
        r == Some(5u32) <==> gate.id@.take(e) == "BaseSumGate"@,
        r == Some(6u32) <==> gate.id@.take(e) == "RandomAccessGate"@,
        r == Some(7u32) <==> gate.id@.take(e) == "NoopGate"@,
        r matches Some(k) ==> k <= 7,
{
    lemma_name(gate.id@, e);
    reveal_strlit("ArithmeticGate");
    reveal_strlit("ArithmeticExtensionGate");
    reveal_strlit("ConstantGate");
    reveal_strlit("PublicInputGate");
    reveal_strlit("PoseidonGate");
    reveal_strlit("BaseSumGate");
    reveal_strlit("RandomAccessGate");
    reveal_strlit("NoopGate");
    let name = gate.id@.take(e);
    assert("ConstantGate"@[0] == 'C' && "PoseidonGate"@[0] == 'P');
    assert(name == "ArithmeticGate"@ ==> name.len() == 14);
    assert(name == "ArithmeticExtensionGate"@ ==> name.len() == 23);
    assert(name == "ConstantGate"@ ==> name.len() == 12 && name[0] == 'C');
    assert(name == "PublicInputGate"@ ==> name.len() == 15);
    assert(name == "PoseidonGate"@ ==> name.len() == 12 && name[0] == 'P');
    assert(name == "BaseSumGate"@ ==> name.len() == 11);
    assert(name == "RandomAccessGate"@ ==> name.len() == 16);
    assert(name == "NoopGate"@ ==> name.len() == 8);
}

/// What the device is told of a gate: its type, the number of its selector and the bounds of its
/// group, zero where there are none, the numbers of selectors and constraints, and the constants of
/// its type.
pub proof fn law_gate_infos(
    common_data: &CommonCircuitData<GoldilocksField>,
    r: Vec<GateInfo>,
    i: int,
    t: Option<u32>,
    ops: Option<u32>,
    consts: Option<u32>,
    id: &str,
)
    requires
        gates_known(*common_data),
        call_ensures(zeknox_quotient_gate_infos, (common_data,), r),
        0 <= i < common_data.gates@.len(),
        call_ensures(find_gate_type, (&common_data.gates@[i],), t),
        id@ == common_data.gates@[i].id@,
        call_ensures(parse_gate_named_u32, (id, "num_ops"), ops),
        call_ensures(parse_gate_named_u32, (id, "num_consts"), consts),
    ensures
        ({
            let g = r@[i];
            let info = common_data.selectors_info;
            let first = t == Some(0u32);
            let third = t == Some(3u32);
            &&& r@.len() == common_data.gates@.len()
            &&& t == Some(g.gate_type)
            &&& g.selector_index == (if i < info.selector_indices@.len() {
                info.selector_indices@[i] as u32
            } else {
                0
            })
            &&& g.group_start == (if i < info.groups@.len() {
                info.groups@[i].start as u32
            } else {
                0
            })
            &&& g.group_end == (if i < info.groups@.len() {
                info.groups@[i].end as u32
            } else {
                0
            })
            &&& g.num_selectors == info.groups@.len() as u32
            &&& g.num_constraints == common_data.gates@[i].num_constraints as u32
            &&& g.wire_0 == 0 && g.const_0 == 0 && g.aux_1 == 0
            &&& first || third ==> g.wire_1 == 1 && g.wire_2 == 2 && g.wire_3 == 3
            &&& !first && !third ==> g.wire_1 == 0 && g.wire_2 == 0 && g.wire_3 == 0
            &&& g.const_1 == (if first {
                1u32
            } else {
                0u32
            })
            &&& first ==> g.aux_0 == (if ops is Some {
                ops->0
            } else {
                0
            })
            &&& t == Some(2u32) ==> g.aux_0 == (if consts is Some {
                consts->0
            } else {
                0
            })
            &&& third ==> g.aux_0 == 4
            &&& !first && !third && t != Some(2u32) ==> g.aux_0 == 0
        }),
{
    assert(crate::gates::gate_type_of(common_data.gates@[i]) is Some);
}

/// The first gate that the device does not know is found, and only such a one.
pub proof fn law_first_unknown(
    common_data: &CommonCircuitData<GoldilocksField>,
    r: Option<usize>,
    i: int,
    t: Option<u32>,
)
    requires
        call_ensures(first_unknown_gate, (common_data,), r),
        0 <= i < common_data.gates@.len(),
        call_ensures(find_gate_type, (&common_data.gates@[i],), t),
    ensures
        r is None ==> t is Some,
        r matches Some(k) ==> k < common_data.gates@.len() && (i < k ==> t is Some) && (i == k
            ==> t is None),
{
}

/// The rows of a batch are uploaded unchanged, one after the other.
pub proof fn law_leaves_flat<T: Copy>(
    leaves: &Vec<Vec<T>>,
    r: Vec<T>,
    width: nat,
    i: int,
    j: int,
)
    requires
        call_ensures(leaves_flat::<T>, (leaves,), r),
        forall|k: int| 0 <= k < leaves@.len() ==> (#[trigger] leaves@[k]).len() == width,
        0 <= i < leaves@.len(),
        0 <= j < width,
    ensures
        r@.len() == leaves@.len() * width,
        r@[i * width + j] == leaves@[i]@[j],
{
    lemma_concatenated(leaves@, width);
    assert(leaves@[i]@[j] == leaves@[i]@[j]);
}

/// Once a device is prepared, commitments on different domains are refused, the constants first;
/// otherwise the rows of the three commitments are laid out, each in its own table.
pub proof fn law_upload<'a, C, H>(
    stage: GpuSelected<'a, C, H>,
    r: Result<GpuUpload<'a, C, H>, GpuQuotientError>,
    constants_width: nat,
    wires_width: nat,
    zs_width: nat,
    i: int,
    j: int,
)
    requires
        call_ensures(GpuSelected::<'a, C, H>::tables_prepared, (stage,), r),
        stage.inputs.prover_data.constants_sigmas_commitment.wf(constants_width),
        stage.inputs.wires_commitment.wf(wires_width),
        stage.inputs.zs_partial_products_commitment.wf(zs_width),
    ensures
        ({
            let constants = stage.inputs.prover_data.constants_sigmas_commitment;
            let wires = *stage.inputs.wires_commitment;
            let zs = *stage.inputs.zs_partial_products_commitment;
            let first = constants.degree_log == wires.degree_log && constants.rate_bits
                == wires.rate_bits;
            let second = wires.degree_log == zs.degree_log && wires.rate_bits == zs.rate_bits;
            let (m, n, o) = (
                constants_width + constants.salt_size,
                wires_width + wires.salt_size,
                zs_width + zs.salt_size,
            );
            &&& r is Ok <==> first && second
            &&& !first ==> r->Err_0 is ConstantsSigmasDomain
            &&& first && !second ==> r->Err_0 is ZsDomain
            &&& r matches Ok(next) ==> {
                &&& next.gpu_id == stage.gpu_id
                &&& next.lde_q_expected == stage.lde_q_expected
                &&& next.inputs == stage.inputs
                &&& 0 <= i < constants.leaves@.len() && 0 <= j < m
                    ==> next.constants_sigmas_flat@[i * m + j] == constants.leaves@[i]@[j]
                &&& 0 <= i < wires.leaves@.len() && 0 <= j < n ==> next.wires_flat@[i * n + j]
                    == wires.leaves@[i]@[j]
                &&& 0 <= i < zs.leaves@.len() && 0 <= j < o ==> next.zs_partial_products_flat@[i
                    * o + j] == zs.leaves@[i]@[j]
                &&& next.constants_sigmas_flat@.len() == constants.leaves@.len() * m
                &&& next.wires_flat@.len() == wires.leaves@.len() * n
                &&& next.zs_partial_products_flat@.len() == zs.leaves@.len() * o
            }
        }),
{
    let constants = stage.inputs.prover_data.constants_sigmas_commitment;
    let wires = *stage.inputs.wires_commitment;
    let zs = *stage.inputs.zs_partial_products_commitment;
    let (m, n, o) = (
        constants_width + constants.salt_size,
        wires_width + wires.salt_size,
        zs_width + zs.salt_size,
    );
    lemma_concatenated(constants.leaves@, m as nat);
    lemma_concatenated(wires.leaves@, n as nat);
    lemma_concatenated(zs.leaves@, o as nat);
    if 0 <= i < constants.leaves@.len() && 0 <= j < m {
        assert(constants.leaves@[i]@[j] == constants.leaves@[i]@[j]);
    }
    if 0 <= i < wires.leaves@.len() && 0 <= j < n {
        assert(wires.leaves@[i]@[j] == wires.leaves@[i]@[j]);
    }
    if 0 <= i < zs.leaves@.len() && 0 <= j < o {
        assert(zs.leaves@[i]@[j] == zs.leaves@[i]@[j]);
    }
}

/// The arguments of the computation: each challenge, factor and hash limb stands for the input of
/// the same name and position, the lengths of rows are those of the commitments, and dimensions and
/// gates are as the device is told.
pub proof fn law_launch<'a, C, H>(
    stage: &GpuUpload<'a, C, H>,
    r: Result<GpuLaunch, GpuQuotientError>,
    config: ProverConfig,
    gates: Vec<GateInfo>,
    i: int,
)
    requires
        stage.inputs.is_size(stage.lde_q_expected),
        stage.inputs.has_rows(),
        call_ensures(GpuUpload::<'a, C, H>::uploaded, (stage,), r),
        r is Ok,
        call_ensures(
            prover_config::<GoldilocksField>,
            (stage.inputs.common_data,),
            config,
        ),
        call_ensures(zeknox_quotient_gate_infos, (stage.inputs.common_data,), gates),
    ensures
        ({
            let l = r->Ok_0;
            let cd = *stage.inputs.common_data;
            let constants = stage.inputs.prover_data.constants_sigmas_commitment;
            let wires = *stage.inputs.wires_commitment;
            let zs = *stage.inputs.zs_partial_products_commitment;
            &&& l.gpu_id == stage.gpu_id
            &&& l.lde_q_expected == stage.lde_q_expected
            &&& l.num_challenges == cd.config.num_challenges
            &&& l.out_elems == cd.config.num_challenges * stage.lde_q_expected
            &&& l.constants_sigmas_leaf_size == constants.leaves@[0].len()
            &&& l.wires_leaf_size == wires.leaves@[0].len()
            &&& l.zs_partial_products_leaf_size == zs.leaves@[0].len()
            &&& l.config == config
            &&& l.gates@ == gates@
            &&& l.num_gates == cd.gates@.len() % 0x1_0000_0000
            &&& l.betas@.len() == stage.inputs.betas@.len()
            &&& l.gammas@.len() == stage.inputs.gammas@.len()
            &&& l.alphas@.len() == stage.inputs.alphas@.len()
            &&& l.k_is@.len() == cd.k_is@.len()
            &&& stage.inputs.public_inputs_hash@.len() == 4
            &&& 0 <= i < l.betas@.len() ==> stands_for(l.betas@[i], stage.inputs.betas@[i])
            &&& 0 <= i < l.gammas@.len() ==> stands_for(l.gammas@[i], stage.inputs.gammas@[i])
            &&& 0 <= i < l.alphas@.len() ==> stands_for(l.alphas@[i], stage.inputs.alphas@[i])
            &&& 0 <= i < l.k_is@.len() ==> stands_for(l.k_is@[i], cd.k_is@[i])
            &&& 0 <= i < 4 ==> stands_for(
                l.public_inputs_hash@[i],
                stage.inputs.public_inputs_hash@[i],
            )
        }),
{
    let l = r->Ok_0;
    let cd = *stage.inputs.common_data;
    let constants = stage.inputs.prover_data.constants_sigmas_commitment;
    let wires = *stage.inputs.wires_commitment;
    let zs = *stage.inputs.zs_partial_products_commitment;
    assert(stage.launches(l));
    lemma_lower_bits(cd.gates.len());
    lemma_leaf_size(constants, l.constants_sigmas_leaf_size);
    lemma_leaf_size(wires, l.wires_leaf_size);
    lemma_leaf_size(zs, l.zs_partial_products_leaf_size);
    assert(l.gates@ =~= gates@);
    lemma_canonical(stage.inputs.betas@, l.betas@, i);
    lemma_canonical(stage.inputs.gammas@, l.gammas@, i);
    lemma_canonical(stage.inputs.alphas@, l.alphas@, i);
    lemma_canonical(cd.k_is@, l.k_is@, i);
    lemma_canonical(stage.inputs.public_inputs_hash@, l.public_inputs_hash@, i);
}

proof fn lemma_canonical(s: Seq<GoldilocksField>, r: Seq<u64>, i: int)
    requires
        r == crate::gpu::canonical(s),
    ensures
        r.len() == s.len(),
        0 <= i < s.len() ==> stands_for(r[i], s[i]),
{
    if 0 <= i < s.len() {
        assert(r[i] == s[i].residue() as u64);
        lemma_small_mod(r[i] as nat, order() as nat);
    }
}

proof fn lemma_leaf_size<C>(batch: PolynomialBatch<GoldilocksField, C>, size: u64)
    requires
        crate::gpu::rows_agree(batch),
        forall|width: nat| #[trigger] batch.wf(width) ==> size == width + batch.salt_size,
    ensures
        batch.leaves@.len() > 0,
        size == batch.leaves@[0].len(),
{
    let width = choose|width: nat| #[trigger] batch.wf(width);
    vstd::arithmetic::power2::lemma_pow2_pos((batch.degree_log + batch.rate_bits) as nat);
    assert(batch.leaves@[0].len() == width + batch.salt_size);
}

/// Another size than the expected one is refused.
pub proof fn law_computed(
    launch: GpuLaunch,
    reported: usize,
    r: Result<GpuReadback, GpuQuotientError>,
)
    requires
        launch.wf(),
        call_ensures(GpuLaunch::computed, (launch, reported), r),
    ensures
        r is Ok <==> reported == launch.lde_q_expected,
        r matches Err(e) ==> (e matches GpuQuotientError::QuotientSize { got, expected } && got
            == reported && expected == launch.lde_q_expected),
        r matches Ok(stage) ==> stage.num_challenges == launch.num_challenges
            && stage.lde_q_expected == launch.lde_q_expected && stage.out_elems
            == launch.out_elems,
{
}

/// What the device returned is cut into one polynomial for each challenge: coefficient `i` of
/// challenge `c` is the element at position `c` times the number of coefficients, plus `i`.
pub proof fn law_collected(
    stage: GpuReadback,
    host_out: &Vec<GoldilocksField>,
    r: Vec<PolynomialCoeffs<GoldilocksField>>,
    c: int,
    i: int,
)
    requires
        stage.wf(),
        host_out@.len() == stage.out_elems,
        call_ensures(GpuReadback::collected, (stage, host_out), r),
        0 <= c < stage.num_challenges,
        0 <= i < stage.lde_q_expected,
    ensures
        r@.len() == stage.num_challenges,
        r@[c].coeffs@.len() == stage.lde_q_expected,
        r@[c].coeffs@[i] == host_out@[c * stage.lde_q_expected + i],
{
    let size = stage.lde_q_expected;
    assert(0 <= c * size && (c + 1) * size == c * size + size && c * size + size
        <= stage.num_challenges * size) by (nonlinear_arith)
        requires
            0 <= c,
            c + 1 <= stage.num_challenges,
    ;
    assert(r@[c].coeffs@ == host_out@.subrange(c * size, (c + 1) * size));
}

/// Taking a device in turn gives the one that was next; after it comes the following one, or the
/// first one again.
pub proof fn law_take_gpu(next_gpu: &mut usize, num_gpus: usize, id: usize)
    requires
        *old(next_gpu) < usize::MAX,
        call_ensures(take_gpu_id, (next_gpu, num_gpus), id),
    ensures
        id == *old(next_gpu),
        id + 1 < num_gpus ==> *final(next_gpu) == id + 1,
        id + 1 >= num_gpus ==> *final(next_gpu) == 0,
{
}

/// A device is chosen exactly if the configured number reads as a positive one. The one that was
/// next is taken, and the turn passes on; nothing is taken on failure. The shift of the domains is
/// the field's own, and all else is handed on.
pub proof fn law_select_gpu<'a, C, H>(
    stage: GpuQuotient<'a, C, H>,
    configured: Option<&str>,
    next_gpu: &mut usize,
    r: Result<GpuSelected<'a, C, H>, GpuQuotientError>,
    text: &str,
    number: Option<usize>,
)
    requires
        *old(next_gpu) < usize::MAX,
        call_ensures(GpuQuotient::<'a, C, H>::select_gpu, (stage, configured, next_gpu), r),
        configured matches Some(s) ==> s@ == text@,
        call_ensures(parse_usize, (text,), number),
    ensures
        configured is None ==> r is Err && r->Err_0 is NumGpusUnset,
        configured is Some && number is None ==> r is Err && r->Err_0 is NumGpusInvalid,
        configured is Some && number == Some(0usize) ==> r is Err && r->Err_0 is NumGpusZero,
        configured is Some && number is Some && number->0 > 0 ==> r is Ok,
        r is Err ==> *final(next_gpu) == *old(next_gpu),
        r matches Ok(next) ==> {
            &&& next.gpu_id == *old(next_gpu)
            &&& *final(next_gpu) == if *old(next_gpu) + 1 < number->0 {
                *old(next_gpu) + 1
            } else {
                0
            }
            &&& stands_for(next.coset_shift, GoldilocksField::shift())
            &&& next.inputs == stage.inputs
            &&& next.lde_q_expected == stage.lde_q_expected
            &&& next.lg_ntt_domain == stage.lg_ntt_domain
        },
{
    if let Ok(next) = r {
        lemma_small_mod(next.coset_shift as nat, order() as nat);
    }
}

/// The computation starts exactly if the device knows every gate and the hash has four elements.
/// Otherwise the first gate that it does not know is named, or else the number of elements.
pub proof fn law_launch_refused<'a, C, H>(
    stage: &GpuUpload<'a, C, H>,
    r: Result<GpuLaunch, GpuQuotientError>,
    i: int,
    t: Option<u32>,
)
    requires
        stage.inputs.is_size(stage.lde_q_expected),
        stage.inputs.has_rows(),
        call_ensures(GpuUpload::<'a, C, H>::uploaded, (stage,), r),
        0 <= i < stage.inputs.common_data.gates@.len(),
        call_ensures(find_gate_type, (&stage.inputs.common_data.gates@[i],), t),
    ensures
        r is Ok ==> t is Some && stage.inputs.public_inputs_hash@.len() == 4,
        r matches Err(e) ==> {
            ||| (e matches GpuQuotientError::UnsupportedGate(k) && k
                < stage.inputs.common_data.gates@.len() && (i < k ==> t is Some) && (i == k
                ==> t is None))
            ||| (e matches GpuQuotientError::HashLimbs(got) && t is Some && got
                == stage.inputs.public_inputs_hash@.len() && got != 4)
        },
{
    assert(stage.inputs.public_inputs_hash.len() == stage.inputs.public_inputs_hash@.len());
}

/// A gate's own type is the one that is found for it.
pub proof fn law_gate_type_id(gate: &GateRef, r: u32, t: Option<u32>)
    requires
        call_requires(zeknox_quotient_gate_type_id, (gate,)),
        call_ensures(zeknox_quotient_gate_type_id, (gate,), r),
        call_ensures(find_gate_type, (gate,), t),
        t is Some,
    ensures
        t == Some(r),
{
}

/// A row that is appended comes last.
pub proof fn law_one_more_row<T: Copy>(
    leaves: &Vec<Vec<T>>,
    longer: &Vec<Vec<T>>,
    row: Vec<T>,
    r: Vec<T>,
    q: Vec<T>,
)
    requires
        longer@ == leaves@.push(row),
        call_ensures(leaves_flat::<T>, (leaves,), r),
        call_ensures(leaves_flat::<T>, (longer,), q),
    ensures
        leaves@.len() == 0 ==> r@.len() == 0,
        q@ == r@ + row@,
{
    assert(longer@.drop_last() =~= leaves@);
}

/// The stages fit each other: the arguments are laid out where the size is that of the quotient's
/// domain and all rows of a commitment are equally long, and what they lead to takes what the
/// device reports and returns.
pub proof fn law_stages_fit<'a, C, H>(
    stage: &GpuUpload<'a, C, H>,
    bits: nat,
    constants_width: nat,
    wires_width: nat,
    zs_width: nat,
    launch: GpuLaunch,
    reported: usize,
    readback: GpuReadback,
    host_out: &Vec<GoldilocksField>,
)
    requires
        exceeds_by(*stage.inputs.common_data, bits),
        stage.lde_q_expected == pow2(stage.inputs.common_data.degree_bits as nat + bits),
        stage.inputs.common_data.config.num_challenges * stage.lde_q_expected <= usize::MAX,
        stage.inputs.prover_data.constants_sigmas_commitment.wf(constants_width),
        stage.inputs.wires_commitment.wf(wires_width),
        stage.inputs.zs_partial_products_commitment.wf(zs_width),
    ensures
        call_requires(GpuUpload::<'a, C, H>::uploaded, (stage,)),
        call_ensures(GpuUpload::<'a, C, H>::uploaded, (stage,), Ok(launch)) ==> call_requires(
            GpuLaunch::computed,
            (launch, reported),
        ),
        call_ensures(GpuUpload::<'a, C, H>::uploaded, (stage,), Ok(launch)) && call_ensures(
            GpuLaunch::computed,
            (launch, reported),
            Ok(readback),
        ) && host_out@.len() == stage.inputs.common_data.config.num_challenges
            * stage.lde_q_expected ==> call_requires(
            GpuReadback::collected,
            (readback, host_out),
        ),
{
    let f = stage.inputs.common_data.quotient_degree_factor as nat;
    assert forall|j: nat| #![trigger pow2(j)] j < bits implies pow2(j) < f by {
        lemma_pow2_monotone(j, (bits - 1) as nat);
    }
    assert(is_log2_ceil(f, bits));
    assert(stage.inputs.is_size(stage.lde_q_expected)) by {
        assert(stage.lde_q_expected == pow2(
            (stage.inputs.common_data.degree_bits + bits) as nat,
        ));
    }
    assert(stage.inputs.has_rows());
}

} // verus!
