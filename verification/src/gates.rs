//! What the device is told of the gates of a circuit, read off their textual identities.
use vstd::prelude::*;
use crate::circuit_data::{CommonCircuitData, GateRange, GateRef};
use crate::goldilocks::GoldilocksField;

verus! {

/// The characters that end the name of a gate.
pub open spec fn ends_name(c: char) -> bool {
    c == ' ' || c == '{' || c == '('
}

/// The characters before the first one that ends the name.
pub open spec fn name_of(id: Seq<char>) -> Seq<char>
    decreases id.len(),
{
    if id.len() == 0 || ends_name(id[0]) {
        Seq::empty()
    } else {
        seq![id[0]] + name_of(id.drop_first())
    }
}

/// The number by which the device knows gates with the given name.
pub open spec fn type_of_name(name: Seq<char>) -> Option<u32> {
    if name == "ArithmeticGate"@ {
        Some(0)
    } else if name == "ArithmeticExtensionGate"@ {
        Some(1)
    } else if name == "ConstantGate"@ {
        Some(2)
    } else if name == "PublicInputGate"@ {
        Some(3)
    } else if name == "PoseidonGate"@ {
        Some(4)
    } else if name == "BaseSumGate"@ {
        Some(5)
    } else if name == "RandomAccessGate"@ {
        Some(6)
    } else if name == "NoopGate"@ {
        Some(7)
    } else {
        None
    }
}

/// The characters of an ASCII digit.
pub open spec fn is_digit(c: char) -> bool {
    '0' <= c <= '9'
}

/// The digits at the start of a text.
pub open spec fn leading_digits(s: Seq<char>) -> Seq<char>
    decreases s.len(),
{
    if s.len() == 0 || !is_digit(s[0]) {
        Seq::empty()
    } else {
        seq![s[0]] + leading_digits(s.drop_first())
    }
}

/// The number that decimal digits stand for.
pub open spec fn decimal(digits: Seq<char>) -> nat
    decreases digits.len(),
{
    if digits.len() == 0 {
        0
    } else {
        decimal(digits.drop_last()) * 10 + (digits.last() as nat - '0' as nat) as nat
    }
}

/// The text `needle` stands at position `i`.
pub open spec fn occurs_at(s: Seq<char>, needle: Seq<char>, i: int) -> bool {
    0 <= i && i + needle.len() <= s.len() && s.subrange(i, i + needle.len()) == needle
}

/// The first position from `i` on at which the text `needle` stands.
pub open spec fn find_from(s: Seq<char>, needle: Seq<char>, i: nat) -> Option<nat>
    decreases s.len() - i,
{
    if i + needle.len() > s.len() {
        None
    } else if occurs_at(s, needle, i as int) {
        Some(i)
    } else if i < s.len() {
        find_from(s, needle, i + 1)
    } else {
        None
    }
}

/// The number that follows the first `key: ` in a text, if there is one and it fits.
pub open spec fn named_number(id: Seq<char>, key: Seq<char>) -> Option<u32> {
    let needle = key + ": "@;
    match find_from(id, needle, 0) {
        None => None,
        Some(i) => {
            let digits = leading_digits(id.skip((i + needle.len()) as int));
            if digits.len() == 0 || decimal(digits) > u32::MAX {
                None
            } else {
                Some(decimal(digits) as u32)
            }
        },
    }
}

/// The search gives the first occurrence, and gives none only if there is none.
pub proof fn lemma_find_from(s: Seq<char>, needle: Seq<char>, i: nat)
    ensures
        find_from(s, needle, i) is None ==> forall|j: int|
            i <= j ==> !#[trigger] occurs_at(s, needle, j),
        find_from(s, needle, i) matches Some(k) ==> i <= k && occurs_at(s, needle, k as int)
            && forall|j: int| i <= j < k ==> !#[trigger] occurs_at(s, needle, j),
    decreases s.len() - i,
{
    if i + needle.len() <= s.len() && !occurs_at(s, needle, i as int) && i < s.len() {
        lemma_find_from(s, needle, i + 1);
    }
}

/// Returns the characters of a text.
pub fn characters(s: &str) -> (r: Vec<char>)
    ensures
        r@ == s@,
{
    let n: usize = s.unicode_len();
    let mut r: Vec<char> = Vec::new();
    for i in 0..n
        invariant
            n == s@.len(),
            r@ == s@.take(i as int),
    {
        r.push(s.get_char(i));
        assert(r@ =~= s@.take(i + 1));
    }
    assert(r@ =~= s@);
    r
}

/// Returns the position of the first character from `start` on that is not a digit.
pub fn skip_digits(s: &Vec<char>, start: usize) -> (r: usize)
    requires
        start <= s@.len(),
    ensures
        start <= r <= s@.len(),
        leading_digits(s@.skip(start as int)) == s@.subrange(start as int, r as int),
        forall|i: int| start <= i < r ==> is_digit(#[trigger] s@[i]),
{
    let mut r: usize = start;
    let ghost all = leading_digits(s@.skip(start as int));
    assert(s@.subrange(start as int, start as int) + all =~= all);
    while r < s.len() && '0' <= s[r] && s[r] <= '9'
        invariant
            start <= r <= s@.len(),
            all == s@.subrange(start as int, r as int) + leading_digits(s@.skip(r as int)),
            forall|i: int| start <= i < r ==> is_digit(#[trigger] s@[i]),
        decreases s@.len() - r,
    {
        proof {
            let rest = s@.skip(r as int);
            assert(rest.drop_first() =~= s@.skip(r + 1));
            assert(s@.subrange(start as int, r as int) + (seq![rest[0]] + leading_digits(
                s@.skip(r + 1),
            )) =~= s@.subrange(start as int, r + 1) + leading_digits(s@.skip(r + 1)));
        }
        r = r + 1;
    }
    assert(all =~= s@.subrange(start as int, r as int));
    r
}

/// The number that the first digits stand for is a lower bound.
proof fn lemma_decimal_grows(digits: Seq<char>, k: int)
    requires
        0 <= k <= digits.len(),
        forall|i: int| 0 <= i < digits.len() ==> is_digit(#[trigger] digits[i]),
    ensures
        decimal(digits.take(k)) <= decimal(digits),
    decreases digits.len() - k,
{
    if k < digits.len() {
        lemma_decimal_grows(digits, k + 1);
        let t = digits.take(k + 1);
        assert(t.drop_last() =~= digits.take(k));
        assert(is_digit(digits[k]));
    } else {
        assert(digits.take(k) =~= digits);
    }
}

/// Returns the number that the digits from `from` up to but not including `to` stand for, if it is
/// at most `limit`.
pub fn parse_decimal(s: &Vec<char>, from: usize, to: usize, limit: u64) -> (r: Option<u64>)
    requires
        from <= to <= s@.len(),
        forall|i: int| from <= i < to ==> is_digit(#[trigger] s@[i]),
    ensures
        r is Some <==> decimal(s@.subrange(from as int, to as int)) <= limit,
        r is Some ==> r->0 == decimal(s@.subrange(from as int, to as int)),
{
    let ghost digits = s@.subrange(from as int, to as int);
    let mut value: u128 = 0;
    assert(digits.take(0) =~= Seq::<char>::empty());
    for i in from..to
        invariant
            from <= to <= s@.len(),
            digits == s@.subrange(from as int, to as int),
            forall|i: int| from <= i < to ==> is_digit(#[trigger] s@[i]),
            value == decimal(digits.take(i - from)),
            value <= limit,
    {
        let c: char = s[i];
        let digit: u128 = c as u128 - '0' as u128;
        proof {
            let t = digits.take(i - from + 1);
            assert(t.drop_last() =~= digits.take(i - from));
            assert(t.last() == c);
            assert(decimal(t) == value * 10 + digit);
        }
        value = value * 10 + digit;
        if value > limit as u128 {
            proof {
                assert forall|j: int| 0 <= j < digits.len() implies is_digit(
                    #[trigger] digits[j],
                ) by {
                    assert(is_digit(s@[from + j]));
                }
                lemma_decimal_grows(digits, i - from + 1);
            }
            return None;
        }
    }
    assert(digits.take(digits.len() as int) =~= digits);
    Some(value as u64)
}

/// Tells whether the text `needle` stands at position `i`.
fn stands_at(s: &Vec<char>, needle: &Vec<char>, i: usize) -> (r: bool)
    requires
        i + needle@.len() <= s@.len(),
    ensures
        r == occurs_at(s@, needle@, i as int),
{
    let n: usize = needle.len();
    let total: usize = s.len();
    let ghost part = s@.subrange(i as int, i + n);
    for k in 0..n
        invariant
            n == needle@.len(),
            total == s@.len(),
            i + n <= total,
            part == s@.subrange(i as int, i + n),
            forall|j: int| 0 <= j < k ==> part[j] == #[trigger] needle@[j],
    {
        if s[i + k] != needle[k] {
            assert(part[k as int] != needle@[k as int]);
            return false;
        }
    }
    assert(part =~= needle@);
    true
}

/// Returns the first position at which the text `needle` stands.
fn find(s: &Vec<char>, needle: &Vec<char>) -> (r: Option<usize>)
    requires
        0 < needle@.len(),
    ensures
        r is Some <==> find_from(s@, needle@, 0) is Some,
        r is Some ==> r->0 == find_from(s@, needle@, 0)->0,
        r is Some ==> r->0 + needle@.len() <= s@.len(),
{
    let n: usize = s.len();
    let m: usize = needle.len();
    if m > n {
        return None;
    }
    for i in 0..n - m + 1
        invariant
            n == s@.len(),
            m == needle@.len(),
            m <= n,
            find_from(s@, needle@, 0) == find_from(s@, needle@, i as nat),
    {
        if stands_at(s, needle, i) {
            return Some(i);
        }
    }
    None
}

/// Returns the number that follows the first `key: ` in the identity of a gate, if there is one
/// and it fits.
pub fn parse_gate_named_u32(id: &str, key: &str) -> (r: Option<u32>)
    ensures
        r == named_number(id@, key@),
{
    let s: Vec<char> = characters(id);
    let mut needle: Vec<char> = characters(key);
    let mut separator: Vec<char> = characters(": ");
    needle.append(&mut separator);
    proof {
        reveal_strlit(": ");
    }
    let total: usize = s.len();
    assert(s@.len() == total);
    let idx: usize = match find(&s, &needle) {
        Some(idx) => idx,
        None => {
            return None;
        },
    };
    let length: usize = needle.len();
    let start: usize = idx + length;
    let stop: usize = skip_digits(&s, start);
    if stop == start {
        return None;
    }
    match parse_decimal(&s, start, stop, u32::MAX as u64) {
        Some(value) => Some(value as u32),
        None => None,
    }
}

/// What the device is told of a gate.
#[derive(Clone, Copy, Debug, PartialEq, Eq, Structural)]
pub struct GateInfo {
    pub gate_type: u32,
    pub selector_index: u32,
    pub group_start: u32,
    pub group_end: u32,
    pub num_selectors: u32,
    pub num_constraints: u32,
    pub wire_0: u32,
    pub wire_1: u32,
    pub wire_2: u32,
    pub wire_3: u32,
    pub const_0: u32,
    pub const_1: u32,
    pub aux_0: u32,
    pub aux_1: u32,
}

/// The number by which the device knows a gate; it knows only some.
pub open spec fn gate_type_of(gate: GateRef) -> Option<u32> {
    type_of_name(name_of(gate.id@))
}

/// What the device is told of gate `i`, where it knows that one.
pub open spec fn gate_info_of<F>(common_data: CommonCircuitData<F>, i: int) -> GateInfo {
    let gate = common_data.gates@[i];
    let info = common_data.selectors_info;
    let gate_type = gate_type_of(gate)->0;
    let group = if i < info.groups@.len() {
        info.groups@[i]
    } else {
        (GateRange { start: 0, end: 0 })
    };
    let named = |key: Seq<char>|
        match named_number(gate.id@, key) {
            Some(n) => n,
            None => 0u32,
        };
    let numbered = gate_type == 0 || gate_type == 3;
    GateInfo {
        gate_type,
        selector_index: if i < info.selector_indices@.len() {
            info.selector_indices@[i] as u32
        } else {
            0
        },
        group_start: group.start as u32,
        group_end: group.end as u32,
        num_selectors: info.groups@.len() as u32,
        num_constraints: gate.num_constraints as u32,
        wire_0: 0,
        wire_1: if numbered {
            1
        } else {
            0
        },
        wire_2: if numbered {
            2
        } else {
            0
        },
        wire_3: if numbered {
            3
        } else {
            0
        },
        const_0: 0,
        const_1: if gate_type == 0 {
            1
        } else {
            0
        },
        aux_0: if gate_type == 0 {
            named("num_ops"@)
        } else if gate_type == 2 {
            named("num_consts"@)
        } else if gate_type == 3 {
            4
        } else {
            0
        },
        aux_1: 0,
    }
}

/// Tells whether two texts are the same.
fn same_text(a: &str, b: &str) -> (r: bool)
    ensures
        r == (a@ == b@),
{
    a.to_owned() == b.to_owned()
}

/// Returns the number of characters before the first one that ends the name of a gate.
fn name_length(s: &Vec<char>) -> (r: usize)
    ensures
        r <= s@.len(),
        name_of(s@) == s@.take(r as int),
{
    let mut r: usize = 0;
    let ghost all = name_of(s@);
    assert(s@.skip(0) =~= s@);
    assert(s@.take(0) + all =~= all);
    while r < s.len() && s[r] != ' ' && s[r] != '{' && s[r] != '('
        invariant
            r <= s@.len(),
            all == s@.take(r as int) + name_of(s@.skip(r as int)),
        decreases s@.len() - r,
    {
        proof {
            let rest = s@.skip(r as int);
            assert(rest.drop_first() =~= s@.skip(r + 1));
            assert(s@.take(r as int) + (seq![rest[0]] + name_of(s@.skip(r + 1))) =~= s@.take(r + 1)
                + name_of(s@.skip(r + 1)));
        }
        r = r + 1;
    }
    assert(all =~= s@.take(r as int));
    r
}

/// Returns the number by which the device knows a gate, or nothing if it does not know it.
pub fn find_gate_type(gate: &GateRef) -> (r: Option<u32>)
    ensures
        r == gate_type_of(*gate),
{
    let id: &str = gate.id.as_str();
    let s: Vec<char> = characters(id);
    let head: &str = id.substring_char(0, name_length(&s));
    assert(head@ =~= name_of(gate.id@));
    if same_text(head, "ArithmeticGate") {
        Some(0)
    } else if same_text(head, "ArithmeticExtensionGate") {
        Some(1)
    } else if same_text(head, "ConstantGate") {
        Some(2)
    } else if same_text(head, "PublicInputGate") {
        Some(3)
    } else if same_text(head, "PoseidonGate") {
        Some(4)
    } else if same_text(head, "BaseSumGate") {
        Some(5)
    } else if same_text(head, "RandomAccessGate") {
        Some(6)
    } else if same_text(head, "NoopGate") {
        Some(7)
    } else {
        None
    }
}

/// Returns the number by which the device knows a gate, which must be one that it knows.
pub fn zeknox_quotient_gate_type_id(gate: &GateRef) -> (r: u32)
    requires
        gate_type_of(*gate) is Some,
    ensures
        r == gate_type_of(*gate)->0,
{
    find_gate_type(gate).unwrap()
}

/// The device knows every gate.
pub open spec fn gates_known<F>(common_data: CommonCircuitData<F>) -> bool {
    forall|i: int|
        0 <= i < common_data.gates@.len() ==> gate_type_of(
            #[trigger] common_data.gates@[i],
        ) is Some
}

/// The index `k` is that of the first gate that the device does not know.
pub open spec fn is_first_unknown<F>(common_data: CommonCircuitData<F>, k: int) -> bool {
    &&& 0 <= k < common_data.gates@.len()
    &&& gate_type_of(common_data.gates@[k]) is None
    &&& forall|i: int| 0 <= i < k ==> gate_type_of(#[trigger] common_data.gates@[i]) is Some
}

/// Returns the index of the first gate that the device does not know.
pub fn first_unknown_gate(common_data: &CommonCircuitData<GoldilocksField>) -> (r: Option<usize>)
    ensures
        r is None <==> gates_known(*common_data),
        r matches Some(k) ==> is_first_unknown(*common_data, k as int),
{
    let n: usize = common_data.gates.len();
    for i in 0..n
        invariant
            n == common_data.gates@.len(),
            forall|k: int|
                0 <= k < i ==> gate_type_of(#[trigger] common_data.gates@[k]) is Some,
    {
        if find_gate_type(&common_data.gates[i]).is_none() {
            return Some(i);
        }
    }
    None
}

/// Returns the number that follows `key: ` in the identity of a gate, or zero.
fn named_or_zero(id: &str, key: &str) -> (r: u32)
    ensures
        r == match named_number(id@, key@) {
            Some(n) => n,
            None => 0u32,
        },
{
    match parse_gate_named_u32(id, key) {
        Some(n) => n,
        None => 0,
    }
}

/// Returns what the device is told of gate `i`, which must be one that it knows.
pub fn quotient_gate_info(common_data: &CommonCircuitData<GoldilocksField>, i: usize) -> (r:
    GateInfo)
    requires
        i < common_data.gates@.len(),
        gate_type_of(common_data.gates@[i as int]) is Some,
    ensures
        r == gate_info_of(*common_data, i as int),
{
    let gate: &GateRef = &common_data.gates[i];
    let info = &common_data.selectors_info;
    let num_selectors: u32 = info.num_selectors() as u32;
    let selector_index: u32 = if i < info.selector_indices.len() {
        info.selector_indices[i] as u32
    } else {
        0
    };
    let group: GateRange = if i < info.groups.len() {
        info.groups[i]
    } else {
        GateRange { start: 0, end: 0 }
    };
    let gate_type: u32 = zeknox_quotient_gate_type_id(gate);
    let id: &str = gate.id.as_str();
    let (wire_1, wire_2, wire_3, const_1, aux_0): (u32, u32, u32, u32, u32) = if gate_type == 0 {
        (1, 2, 3, 1, named_or_zero(id, "num_ops"))
    } else if gate_type == 2 {
        (0, 0, 0, 0, named_or_zero(id, "num_consts"))
    } else if gate_type == 3 {
        (1, 2, 3, 0, 4)
    } else {
        (0, 0, 0, 0, 0)
    };
    GateInfo {
        gate_type,
        selector_index,
        group_start: group.start as u32,
        group_end: group.end as u32,
        num_selectors,
        num_constraints: gate.num_constraints as u32,
        wire_0: 0,
        wire_1,
        wire_2,
        wire_3,
        const_0: 0,
        const_1,
        aux_0,
        aux_1: 0,
    }
}

/// Returns what the device is told of all gates, all of which must be ones that it knows.
pub fn zeknox_quotient_gate_infos(common_data: &CommonCircuitData<GoldilocksField>) -> (r: Vec<
    GateInfo,
>)
    requires
        gates_known(*common_data),
    ensures
        r@ == Seq::new(common_data.gates@.len(), |i: int| gate_info_of(*common_data, i)),
{
    let n: usize = common_data.gates.len();
    let mut infos: Vec<GateInfo> = Vec::new();
    for i in 0..n
        invariant
            n == common_data.gates@.len(),
            gates_known(*common_data),
            infos@ == Seq::new(i as nat, |k: int| gate_info_of(*common_data, k)),
    {
        infos.push(quotient_gate_info(common_data, i));
        assert(infos@ =~= Seq::new((i + 1) as nat, |k: int| gate_info_of(*common_data, k)));
    }
    infos
}

} // verus!
