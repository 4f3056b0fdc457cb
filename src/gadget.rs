use crate::correctness::{lemma_choose_gate_values, lemma_majority_gate_values};
use crate::cs::{
    assigned,
    gate_holds,
    is_constant,
    lc_sum,
    lemma_extends_holds,
    lemma_extends_trans,
    lemma_gates_hold_grow,
    lemma_lc3_gate,
    lemma_lc_sum_grow,
    lemma_push_holds,
    limb_step,
    num_value,
    val,
    AllocatedNum,
    ConstraintSystem,
    Gate,
    Num,
    TableHandle,
};
use crate::radix::{
    lemma_pow_adds,
    lemma_pow_fits,
    lemma_pow_increases,
    lemma_pow_positive,
    lemma_recode_low_digits,
    lemma_recode_split,
    lemma_register_bounds,
    lemma_rotr_zero,
    normalized,
    pow_nat,
    rotr,
    sparse,
    DigitMap,
};
use crate::tables::{
    extract,
    map_into_sparse_form,
    normalize_digits,
    rotate_extract,
    SynthesisError,
    TableKind,
    MAX_NORMALIZATION_CHUNKS,
    SHA256_CHOOSE_BASE,
    SHA256_MAJORITY_BASE,
};
use vstd::arithmetic::div_mod::lemma_div_denominator;
use vstd::prelude::*;

verus! {

/// Width in bits of the chunks a register is split into.
pub const SHA256_GADGET_CHUNK_SIZE: u64 = 11;

/// Width in bits of a SHA-256 register.
pub const SHA256_REG_WIDTH: u64 = 32;

/// Default number of radix-7 digits per Choose normalization chunk.
pub const CH_BASE_DEFAULT_NUM_OF_CHUNKS: u64 = 4;

/// Default number of radix-4 digits per Majority normalization chunk.
pub const MAJ_BASE_DEFAULT_NUM_OF_CHUNKS: u64 = 6;

/// How far a value may exceed the 32-bit range.
#[derive(Clone, Copy, PartialEq, Eq, Structural, Debug)]
pub enum OverflowTracker {
    NoOverflow,
    OneBitOverflow,
    /// At most four extra bits.
    SmallOverflow,
    /// More than this gadget reduces; the caller must reduce it first.
    SignificantOverflow,
}

/// A circuit value with a bound on how far it may exceed 32 bits.
#[derive(Clone, Copy, Debug)]
pub struct NumWithTracker {
    pub num: Num,
    pub overflow_tracker: OverflowTracker,
}

/// How the top limb is handled on the Majority path: a dedicated table that
/// drops an overflow bit, or an explicit reduction to 32 bits first.
#[derive(Clone, Copy, PartialEq, Eq, Structural, Debug)]
pub enum MajorityStrategy {
    UseTwoTables,
    RawOverflowCheck,
}

/// A register prepared for `Ch` and `Σ1`: its binary value, its radix-7 sparse
/// form, and the sparse forms of its right rotations by 6, 11 and 25.
#[derive(Clone, Copy, Debug)]
pub struct SparseChValue {
    pub normal: Num,
    pub sparse: Num,
    pub rot6: Num,
    pub rot11: Num,
    pub rot25: Num,
}

/// A register prepared for `Maj` and `Σ0`: its binary value, its radix-4 sparse
/// form, and the sparse forms of its right rotations by 2, 13 and 22.
#[derive(Clone, Copy, Debug)]
pub struct SparseMajValue {
    pub normal: Num,
    pub sparse: Num,
    pub rot2: Num,
    pub rot13: Num,
    pub rot22: Num,
}

/// The per-circuit configuration: the majority strategy, the normalization
/// chunk counts and the handles of the registered tables.
pub struct Sha256GadgetParams {
    pub majority_strategy: MajorityStrategy,
    pub ch_base_num_of_chunks: u64,
    pub maj_base_num_of_chunks: u64,
    pub sha256_base7_rot6_table: TableHandle,
    pub sha256_base7_rot3_extr10_table: TableHandle,
    pub sha256_ch_normalization_table: TableHandle,
    pub sha256_ch_xor_table: TableHandle,
    pub sha256_base4_rot2_table: TableHandle,
    pub sha256_base4_rot2_extr10_table: Option<TableHandle>,
    pub sha256_maj_normalization_table: TableHandle,
    pub sha256_maj_xor_table: TableHandle,
}

/// The value bound that a tracker promises.
pub open spec fn within_tracker(x: nat, t: OverflowTracker) -> bool {
    match t {
        OverflowTracker::NoOverflow => x < pow_nat(2, 32),
        OverflowTracker::OneBitOverflow => x < pow_nat(2, 33),
        OverflowTracker::SmallOverflow => x < pow_nat(2, 36),
        OverflowTracker::SignificantOverflow => true,
    }
}

impl NumWithTracker {
    /// The value, where known, respects the tracker.
    pub open spec fn within_bound(self) -> bool {
        match num_value(self.num) {
            Some(x) => within_tracker(x, self.overflow_tracker),
            None => true,
        }
    }
}

/// The `bitlen`-bit chunk at position `num` of `x`.
pub open spec fn chunk_of(x: nat, bitlen: nat, num: nat) -> nat {
    (x / pow_nat(2, bitlen * num)) % pow_nat(2, bitlen)
}

/// A 32-bit value cut, rotated and mapped into radix `base` (zero: kept binary).
pub open spec fn converted(n: nat, base: nat, rotation: nat, extraction: nat) -> nat {
    let v = rotr(extract(n, extraction), rotation);
    if base == 0 {
        v
    } else {
        sparse(v, base)
    }
}

/// The sparse form of the rotation by `r` of the low 32 bits of `x`.
pub open spec fn sparse_rot(x: nat, base: nat, r: nat) -> nat {
    sparse(rotr(x % pow_nat(2, 32), r), base)
}

/// The low 32 bits of a value, where the value is known.
pub open spec fn low32(o: Option<nat>) -> Option<nat> {
    match o {
        Some(x) => Some(x % pow_nat(2, 32)),
        None => None,
    }
}

/// `g` is the linear-combination gate `Σ coeffs[i]·inputs[i] = target`.
pub open spec fn lc_is(g: Gate, coeffs: Seq<u128>, inputs: Seq<usize>, target: usize) -> bool {
    g matches Gate::LinearCombination { coeffs: c, inputs: i, target: t } && c@ == coeffs && i@
        == inputs && t == target
}

/// The witness of chunk `k` of a register, where the register's is known.
pub open spec fn limb_witness(w: Option<nat>, k: nat) -> Option<u128> {
    match w {
        Some(x) => Some(chunk_of(x, 11, k) as u128),
        None => None,
    }
}

/// The variables and gates a conversion adds for the register variable `var`,
/// from variable `b` and gate `g` on: the limbs `b, b+1, b+2` (witnesses
/// `chunk_of(w, 11, k)`), three lookups of the limbs (`low` and `mid` in
/// `t_low`, `high` in `t_high`) with outputs `b+3 .. b+8`, the recombination
/// `low + 2^11·mid + 2^22·high = var`, and the four target forms `b+9 .. b+12`,
/// each tied by one linear gate, at radix-`base` weights, to limb forms.
#[verifier::opaque]
pub open spec fn conversion_circuit(
    after: ConstraintSystem,
    t_low: TableHandle,
    t_high: TableHandle,
    base: nat,
    g: int,
    b: int,
    var: usize,
    w: Option<nat>,
) -> bool {
    let at = |k: int| (b + k) as usize;
    let pw = |e: nat| pow_nat(base, e) as u128;
    &&& after.gates@.len() == g + 8
    &&& after.values@.len() == b + 13
    &&& after.values@[b] == limb_witness(w, 0)
    &&& after.values@[b + 1] == limb_witness(w, 1)
    &&& after.values@[b + 2] == limb_witness(w, 2)
    &&& after.gates@[g] == Gate::Lookup { table: t_low.index, key: at(0), out0: at(3), out1: at(4) }
    &&& after.gates@[g + 1] == Gate::Lookup { table: t_low.index, key: at(1), out0: at(5), out1: at(6) }
    &&& after.gates@[g + 2] == Gate::Lookup { table: t_high.index, key: at(2), out0: at(7), out1: at(8) }
    &&& lc_is(after.gates@[g + 3], seq![1u128, 0x800u128, 0x40_0000u128], seq![at(0), at(1), at(2)], var)
    &&& lc_is(after.gates@[g + 4], seq![1u128, pw(11), pw(22)], seq![at(3), at(5), at(7)], at(9))
    &&& base == 7 ==> {
        &&& lc_is(after.gates@[g + 5], seq![1u128, pw(5), pw(16)], seq![at(4), at(5), at(7)], at(10))
        &&& lc_is(after.gates@[g + 6], seq![1u128, pw(21), pw(11)], seq![at(5), at(3), at(7)], at(11))
        &&& lc_is(after.gates@[g + 7], seq![1u128, pw(7), pw(18)], seq![at(8), at(3), at(5)], at(12))
    }
    &&& base == 4 ==> {
        &&& lc_is(after.gates@[g + 5], seq![1u128, pw(9), pw(20)], seq![at(4), at(5), at(7)], at(10))
        &&& lc_is(after.gates@[g + 6], seq![1u128, pw(19), pw(9)], seq![at(6), at(3), at(7)], at(11))
        &&& lc_is(after.gates@[g + 7], seq![1u128, pw(10), pw(21)], seq![at(7), at(3), at(5)], at(12))
    }
}

/// The variable a form lives in, for an allocated form.
pub open spec fn var_of(n: Num) -> int {
    match n {
        Num::Allocated(a) => a.variable as int,
        Num::Constant(_) => -1,
    }
}

/// The witness of accumulator `k` (0 to 16) of the limb split of `x`: the top
/// `2k` bits of its low 32 bits.
pub open spec fn accumulator(x: nat, k: nat) -> nat {
    (x % 0x1_0000_0000) / pow_nat(4, (16 - k) as nat)
}

/// The gates the overflow extractor emits for the input variable `x`, when
/// its accumulators are variables `b .. b + 16`, with `b + 16` the result, and
/// the two residues are `b + 17` and `b + 18`.
#[verifier::opaque]
pub open spec fn overflow_gates(x: usize, b: usize) -> Seq<Gate> {
    let at = |k: int| (b + k) as usize;
    seq![
        // the accumulator starts at zero
        Gate::Main {
            q_a: 1,
            q_b: 0,
            q_c: 0,
            q_d: 0,
            q_m: 0,
            q_const: 0,
            q_d_next: 0,
            a: b,
            b: b,
            c: b,
            d: b,
        },
        Gate::RangeCheck32 { a: at(0), b: at(1), c: at(2), d: at(3), next: at(4) },
        Gate::RangeCheck32 { a: at(4), b: at(5), c: at(6), d: at(7), next: at(8) },
        Gate::RangeCheck32 { a: at(8), b: at(9), c: at(10), d: at(11), next: at(12) },
        Gate::RangeCheck32 { a: at(12), b: at(13), c: at(14), d: at(15), next: at(16) },
        Gate::In04Range { a: x, b: at(17), c: at(18), d: at(16), position: 1 },
        Gate::In04Range { a: x, b: at(17), c: at(18), d: at(16), position: 2 },
        // -x + 2^32·of_l + 2^34·of_h + low = 0
        Gate::Main {
            q_a: -1i128,
            q_b: 0x1_0000_0000,
            q_c: 0x4_0000_0000,
            q_d: 1,
            q_m: 0,
            q_const: 0,
            q_d_next: 0,
            a: x,
            b: at(17),
            c: at(18),
            d: at(16),
        },
    ]
}

/// The variables the overflow extractor allocates from position `b` on, for
/// an input with witness `w`: 17 accumulators, then the two residues.
pub open spec fn overflow_witnesses(values: Seq<Option<u128>>, b: int, w: Option<u128>) -> bool {
    &&& values.len() == b + 19
    &&& values[b] == Some(0u128)
    &&& forall|k: int|
        1 <= k <= 16 ==> #[trigger] values[b + k] == match w {
            Some(x) => Some(accumulator(x as nat, k as nat) as u128),
            None => None,
        }
    &&& values[b + 17] == match w {
        Some(x) => Some((x / 0x1_0000_0000) % 4),
        None => None,
    }
    &&& values[b + 18] == match w {
        Some(x) => Some(x / 0x4_0000_0000),
        None => None,
    }
}

/// What a lookup of one output hands back and leaves behind in the system.
pub open spec fn lookup1_done(
    before: ConstraintSystem,
    after: ConstraintSystem,
    table: TableHandle,
    key: AllocatedNum,
    r: Result<AllocatedNum, SynthesisError>,
) -> bool {
    match r {
        Ok(a) => {
            &&& after.extends(&before)
            &&& after.holds_var(a)
            &&& a.variable == before.values@.len()
            &&& after.values@.len() == before.values@.len() + 2
            &&& after.values@[a.variable + 1] == Some(0u128)
            &&& after.gates@ == before.gates@.push(
                Gate::Lookup {
                    table: table.index,
                    key: key.variable,
                    out0: a.variable,
                    out1: (a.variable + 1) as usize,
                },
            )
            &&& after.gates_hold_from(before.gates@.len() as int)
            &&& match key.value {
                Some(k) => k < table.kind.domain_size() && (a.value matches Some(w) && w
                    == table.kind.output(k as nat).0),
                None => a.value is None,
            }
        },
        Err(e) => {
            &&& e == SynthesisError::TableDomain
            &&& key.value matches Some(k) && k >= table.kind.domain_size()
            &&& after.values@ == before.values@
            &&& after.gates@ == before.gates@
            &&& after.tables@ == before.tables@
        },
    }
}

/// What a lookup of two outputs hands back and leaves behind in the system.
pub open spec fn lookup2_done(
    before: ConstraintSystem,
    after: ConstraintSystem,
    table: TableHandle,
    key: AllocatedNum,
    r: Result<(AllocatedNum, AllocatedNum), SynthesisError>,
) -> bool {
    match r {
        Ok((a, b)) => {
            &&& after.extends(&before)
            &&& after.holds_var(a)
            &&& after.holds_var(b)
            &&& after.values@.len() == before.values@.len() + 2
            &&& a.variable == before.values@.len()
            &&& b.variable == a.variable + 1
            &&& after.gates@ == before.gates@.push(
                Gate::Lookup {
                    table: table.index,
                    key: key.variable,
                    out0: a.variable,
                    out1: b.variable,
                },
            )
            &&& after.gates_hold_from(before.gates@.len() as int)
            &&& match key.value {
                Some(k) => {
                    &&& k < table.kind.domain_size()
                    &&& a.value matches Some(w) && w == table.kind.output(k as nat).0
                    &&& b.value matches Some(w) && w == table.kind.output(k as nat).1
                },
                None => a.value is None && b.value is None,
            }
        },
        Err(e) => {
            &&& e == SynthesisError::TableDomain
            &&& key.value matches Some(k) && k >= table.kind.domain_size()
            &&& after.values@ == before.values@
            &&& after.gates@ == before.gates@
            &&& after.tables@ == before.tables@
        },
    }
}

/// A table handle of the system holding the given contents.
pub open spec fn table_is(cs: &ConstraintSystem, h: TableHandle, kind: TableKind) -> bool {
    cs.holds_table(h) && h.kind == kind
}

/// The value that the Choose conversion works on: reduced to 32 bits first
/// when it may carry a small overflow.
pub open spec fn ch_prepared(input: NumWithTracker) -> Option<nat> {
    if input.overflow_tracker == OverflowTracker::SmallOverflow {
        low32(num_value(input.num))
    } else {
        num_value(input.num)
    }
}

/// The five forms of a Choose register, for the value `w` where known.
pub open spec fn ch_represents(v: SparseChValue, w: Option<nat>) -> bool {
    match w {
        Some(x) => {
            &&& num_value(v.normal) == Some(x)
            &&& num_value(v.sparse) == Some(sparse_rot(x, 7, 0))
            &&& num_value(v.rot6) == Some(sparse_rot(x, 7, 6))
            &&& num_value(v.rot11) == Some(sparse_rot(x, 7, 11))
            &&& num_value(v.rot25) == Some(sparse_rot(x, 7, 25))
        },
        None => {
            &&& num_value(v.normal) is None
            &&& num_value(v.sparse) is None
            &&& num_value(v.rot6) is None
            &&& num_value(v.rot11) is None
            &&& num_value(v.rot25) is None
        },
    }
}

/// All five forms are constants, or all five are variables of `cs`.
pub open spec fn ch_kind_follows(cs: &ConstraintSystem, v: SparseChValue, constant: bool) -> bool {
    if constant {
        is_constant(v.normal) && is_constant(v.sparse) && is_constant(v.rot6) && is_constant(
            v.rot11,
        ) && is_constant(v.rot25)
    } else {
        &&& !is_constant(v.normal) && cs.holds_num(v.normal)
        &&& !is_constant(v.sparse) && cs.holds_num(v.sparse)
        &&& !is_constant(v.rot6) && cs.holds_num(v.rot6)
        &&& !is_constant(v.rot11) && cs.holds_num(v.rot11)
        &&& !is_constant(v.rot25) && cs.holds_num(v.rot25)
    }
}

/// The value that the Majority conversion works on: reduced to 32 bits first
/// when it may carry a small overflow, or any overflow under `RawOverflowCheck`.
pub open spec fn maj_prepared(input: NumWithTracker, strategy: MajorityStrategy) -> Option<nat> {
    if input.overflow_tracker == OverflowTracker::SmallOverflow || (input.overflow_tracker
        == OverflowTracker::OneBitOverflow && strategy == MajorityStrategy::RawOverflowCheck) {
        low32(num_value(input.num))
    } else {
        num_value(input.num)
    }
}

/// The five forms of a Majority register, for the value `w` where known.
pub open spec fn maj_represents(v: SparseMajValue, w: Option<nat>) -> bool {
    match w {
        Some(x) => {
            &&& num_value(v.normal) == Some(x)
            &&& num_value(v.sparse) == Some(sparse_rot(x, 4, 0))
            &&& num_value(v.rot2) == Some(sparse_rot(x, 4, 2))
            &&& num_value(v.rot13) == Some(sparse_rot(x, 4, 13))
            &&& num_value(v.rot22) == Some(sparse_rot(x, 4, 22))
        },
        None => {
            &&& num_value(v.normal) is None
            &&& num_value(v.sparse) is None
            &&& num_value(v.rot2) is None
            &&& num_value(v.rot13) is None
            &&& num_value(v.rot22) is None
        },
    }
}

/// All five forms are constants, or all five are variables of `cs`.
pub open spec fn maj_kind_follows(cs: &ConstraintSystem, v: SparseMajValue, constant: bool) -> bool {
    if constant {
        is_constant(v.normal) && is_constant(v.sparse) && is_constant(v.rot2) && is_constant(
            v.rot13,
        ) && is_constant(v.rot22)
    } else {
        &&& !is_constant(v.normal) && cs.holds_num(v.normal)
        &&& !is_constant(v.sparse) && cs.holds_num(v.sparse)
        &&& !is_constant(v.rot2) && cs.holds_num(v.rot2)
        &&& !is_constant(v.rot13) && cs.holds_num(v.rot13)
        &&& !is_constant(v.rot22) && cs.holds_num(v.rot22)
    }
}

/// The digit map, radix and chunk count of a normalization table.
pub open spec fn normalization_table(kind: TableKind, base: nat, num_chunks: nat) -> bool {
    match kind {
        TableKind::ChooseNormalization { chunks } => base == 7 && chunks == num_chunks,
        TableKind::MajorityNormalization { chunks } => base == 4 && chunks == num_chunks,
        TableKind::XorNormalization { base: b, chunks } => base == b && chunks == num_chunks,
        TableKind::SparseRotate { .. } => false,
    }
}

/// The digit map a normalization table applies.
pub open spec fn digit_map_of(kind: TableKind) -> DigitMap {
    match kind {
        TableKind::ChooseNormalization { .. } => DigitMap::Choose,
        TableKind::MajorityNormalization { .. } => DigitMap::Majority,
        _ => DigitMap::Parity,
    }
}

/// Number of chunks of `num_chunks` digits that cover a 32-digit value.
pub open spec fn num_slices(num_chunks: nat) -> nat {
    ((32 + num_chunks - 1) as nat) / num_chunks
}

/// The normalized value of `x` under a table: every digit the chunks cover.
pub open spec fn normalize_value(x: Option<nat>, kind: TableKind, base: nat, num_chunks: nat) -> Option<nat> {
    match x {
        Some(v) => Some(normalized(v, base, digit_map_of(kind), num_slices(num_chunks) * num_chunks)),
        None => None,
    }
}

/// The tables `new` registers, in the order it registers them.
pub open spec fn catalog(strategy: MajorityStrategy, ch: u64, maj: u64) -> Seq<TableKind> {
    let rotate = seq![
        TableKind::SparseRotate { bits: 11, rotation: 6, extraction: 0, base: 7 },
        TableKind::SparseRotate { bits: 11, rotation: 3, extraction: 10, base: 7 },
        TableKind::SparseRotate { bits: 11, rotation: 2, extraction: 0, base: 4 },
    ];
    let extra = match strategy {
        MajorityStrategy::UseTwoTables => seq![
            TableKind::SparseRotate { bits: 11, rotation: 2, extraction: 10, base: 4 },
        ],
        MajorityStrategy::RawOverflowCheck => Seq::empty(),
    };
    let normalization = seq![
        TableKind::ChooseNormalization { chunks: ch },
        TableKind::MajorityNormalization { chunks: maj },
        TableKind::XorNormalization { base: 7, chunks: ch },
        TableKind::XorNormalization { base: 4, chunks: maj },
    ];
    rotate + extra + normalization
}

/// The chunk counts that `new` accepts.
pub open spec fn chunk_counts_supported(ch: u64, maj: u64) -> bool {
    1 <= ch <= MAX_NORMALIZATION_CHUNKS && 1 <= maj <= MAX_NORMALIZATION_CHUNKS
}

/// The Choose chunk count `new` uses.
pub open spec fn new_ch(o: Option<u64>) -> u64 {
    match o {
        Some(v) => v,
        None => CH_BASE_DEFAULT_NUM_OF_CHUNKS,
    }
}

/// The Majority chunk count `new` uses.
pub open spec fn new_maj(o: Option<u64>) -> u64 {
    match o {
        Some(v) => v,
        None => MAJ_BASE_DEFAULT_NUM_OF_CHUNKS,
    }
}

/// None of `kinds` is among the registered `tables`.
pub open spec fn none_registered(tables: Seq<TableKind>, kinds: Seq<TableKind>) -> bool {
    forall|i: int| 0 <= i < kinds.len() ==> !tables.contains(#[trigger] kinds[i])
}

/// Consecutive accumulators of the top-down limb split of a 32-bit word differ
/// by one 2-bit limb.
pub proof fn lemma_accumulator_step(w: nat, k: nat)
    requires
        w < 0x1_0000_0000,
        k < 16,
    ensures
        ({
            let lo = if k == 0 { 0 } else { w / pow_nat(4, (16 - k) as nat) };
            let hi = w / pow_nat(4, (15 - k) as nat);
            4 * lo <= hi < 4 * lo + 4
        }),
{
    let e = (15 - k) as nat;
    lemma_pow_positive(4, e);
    let p = pow_nat(4, e);
    let hi = w / p;
    if k == 0 {
        reveal_with_fuel(pow_nat, 16);
        assert(p == 0x4000_0000);
        assert(hi < 4);
    } else {
        let q = pow_nat(4, (16 - k) as nat);
        assert(q == 4 * p);
        assert(q == p * 4) by (nonlinear_arith)
            requires
                q == 4 * p,
        ;
        lemma_div_denominator(w as int, p as int, 4);
        assert(w / q == hi / 4);
    }
}

/// The two residues of a value below 2^36 and its low 32 bits satisfy the
/// overflow gate's relation.
pub proof fn lemma_overflow_residues(x: nat)
    requires
        x < 0x10_0000_0000,
    ensures
        (x / 0x1_0000_0000) % 4 < 4,
        x / 0x4_0000_0000 < 4,
        -1 * x + 0x1_0000_0000 * ((x / 0x1_0000_0000) % 4) + 0x4_0000_0000 * (x / 0x4_0000_0000)
            + 1 * (x % 0x1_0000_0000) == 0,
{
}

/// A limb is its own 11-bit value, kept binary.
pub proof fn lemma_limb_chunk(x: nat, k: nat)
    ensures
        converted(chunk_of(x, 11, k), 0, 0, 0) == chunk_of(x, 11, k),
        chunk_of(x, 11, k) < pow_nat(2, 11),
{
    lemma_pow_positive(2, 11);
    lemma_rotr_zero(chunk_of(x, 11, k));
}

/// Converting the whole word gives the sparse form of its rotation.
pub proof fn lemma_word_chunk(x: nat, base: nat, r: nat)
    requires
        base != 0,
    ensures
        converted(chunk_of(x, 32, 0), base, r, 0) == sparse_rot(x, base, r),
{
    assert(pow_nat(2, 0) == 1);
    assert(32 * 0nat == 0);
    assert(x / 1 == x) by (nonlinear_arith);
}

impl Sha256GadgetParams {
    /// Every handle names a registered table with the contents this gadget
    /// relies on, and the chunk counts are supported.
    pub open spec fn wf(&self, cs: &ConstraintSystem) -> bool {
        &&& 1 <= self.ch_base_num_of_chunks <= MAX_NORMALIZATION_CHUNKS
        &&& 1 <= self.maj_base_num_of_chunks <= MAX_NORMALIZATION_CHUNKS
        &&& table_is(cs, self.sha256_base7_rot6_table, TableKind::SparseRotate { bits: 11, rotation: 6, extraction: 0, base: 7 })
        &&& table_is(cs, self.sha256_base7_rot3_extr10_table, TableKind::SparseRotate { bits: 11, rotation: 3, extraction: 10, base: 7 })
        &&& table_is(cs, self.sha256_ch_normalization_table, TableKind::ChooseNormalization { chunks: self.ch_base_num_of_chunks })
        &&& table_is(cs, self.sha256_ch_xor_table, TableKind::XorNormalization { base: 7, chunks: self.ch_base_num_of_chunks })
        &&& table_is(cs, self.sha256_base4_rot2_table, TableKind::SparseRotate { bits: 11, rotation: 2, extraction: 0, base: 4 })
        &&& match self.majority_strategy {
            MajorityStrategy::UseTwoTables => self.sha256_base4_rot2_extr10_table matches Some(h)
                && table_is(cs, h, TableKind::SparseRotate { bits: 11, rotation: 2, extraction: 10, base: 4 }),
            MajorityStrategy::RawOverflowCheck => self.sha256_base4_rot2_extr10_table is None,
        }
        &&& table_is(cs, self.sha256_maj_normalization_table, TableKind::MajorityNormalization { chunks: self.maj_base_num_of_chunks })
        &&& table_is(cs, self.sha256_maj_xor_table, TableKind::XorNormalization { base: 4, chunks: self.maj_base_num_of_chunks })
    }

    /// `n` to the power `exp` when `exp` is not zero, `n` itself otherwise.
    pub fn u64_exp_to_ff(n: u64, exp: u64) -> (r: u128)
        requires
            exp == 0 || pow_nat(n as nat, exp as nat) <= u128::MAX,
        ensures
            r == if exp == 0 {
                n as nat
            } else {
                pow_nat(n as nat, exp as nat)
            },
    {
        if exp == 0 {
            return n as u128;
        }
        let mut res: u128 = 1;
        let mut i: u64 = 0;
        while i < exp
            invariant
                i <= exp,
                res == pow_nat(n as nat, i as nat),
                pow_nat(n as nat, exp as nat) <= u128::MAX,
            decreases exp - i,
        {
            proof {
                if n >= 1 {
                    lemma_pow_increases(n as nat, (i + 1) as nat, exp as nat);
                }
                assert(pow_nat(n as nat, (i + 1) as nat) == n * pow_nat(n as nat, i as nat));
                assert(res * n == n * res) by (nonlinear_arith);
            }
            res = res * (n as u128);
            i = i + 1;
        }
        res
    }

    /// Splits a value of at most 36 bits into its low 32 bits, the two bits above
    /// them and the bits from 34 up.
    pub fn extract_32_from_constant(x: u128) -> (r: (u128, u128, u128))
        ensures
            r.0 == x % 0x1_0000_0000,
            r.1 == (x / 0x1_0000_0000) % 4,
            r.2 == x / 0x4_0000_0000,
    {
        let extracted = x % 0x1_0000_0000;
        let of_l = (x / 0x1_0000_0000) % 4;
        let of_h = x / 0x4_0000_0000;
        (extracted, of_l, of_h)
    }

    /// The sparse form in radix `sparse_base` of `n` cut to `extraction` bits and
    /// rotated by `rotation`.
    pub fn converter_helper(n: u64, sparse_base: u64, rotation: u64, extraction: u64) -> (r: u128)
        requires
            n < 0x1_0000_0000u64,
            sparse_base == 0 || 2 <= sparse_base <= 7,
            rotation < 32,
            extraction <= 32,
        ensures
            r == converted(n as nat, sparse_base as nat, rotation as nat, extraction as nat),
    {
        let t = rotate_extract(n, rotation, extraction);
        map_into_sparse_form(t, sparse_base)
    }

    /// Allocates the conversion of one chunk of `var`'s witness.
    pub fn allocate_converted_num(
        cs: &mut ConstraintSystem,
        var: &AllocatedNum,
        chunk_bitlen: u64,
        chunk_num: u64,
        sparse_base: u64,
        rotation: u64,
        extraction: u64,
    ) -> (r: Result<AllocatedNum, SynthesisError>)
        requires
            1 <= chunk_bitlen <= 32,
            chunk_bitlen * chunk_num <= 64,
            sparse_base == 0 || 2 <= sparse_base <= 7,
            rotation < 32,
            extraction <= 32,
        ensures
            r is Ok,
            final(cs).gates@ == old(cs).gates@,
            final(cs).tables@ == old(cs).tables@,
            match r {
                Ok(a) => {
                    &&& final(cs).values@ == old(cs).values@.push(a.value)
                    &&& a.variable == old(cs).values@.len()
                    &&& match var.value {
                        Some(x) => a.value matches Some(w) && w == converted(
                            chunk_of(x as nat, chunk_bitlen as nat, chunk_num as nat),
                            sparse_base as nat,
                            rotation as nat,
                            extraction as nat,
                        ),
                        None => a.value is None,
                    }
                },
                Err(_) => false,
            },
    {
        let new_val: Option<u128> = match var.value {
            Some(x) => {
                proof {
                    lemma_pow_fits(2, chunk_bitlen as nat);
                    lemma_pow_increases(2, chunk_bitlen as nat, 32);
                    lemma_pow_positive(2, (chunk_bitlen * chunk_num) as nat);
                    lemma_pow_positive(2, chunk_bitlen as nat);
                    lemma_pow_increases(2, (chunk_bitlen * chunk_num) as nat, 64);
                    lemma_pow_fits(2, 32);
                    lemma_pow_adds(2, 32, 32);
                }
                let shift = chunk_bitlen * chunk_num;
                let divisor: u128 = if shift == 0 {
                    1
                } else {
                    Self::u64_exp_to_ff(2, shift)
                };
                let modulus = Self::u64_exp_to_ff(2, chunk_bitlen);
                assert(divisor == pow_nat(2, (chunk_bitlen * chunk_num) as nat));
                let n = ((x / divisor) % modulus) as u64;
                Some(Self::converter_helper(n, sparse_base, rotation, extraction))
            },
            None => None,
        };
        Ok(cs.allocate(new_val))
    }

    /// Looks `key` up in a table of one output, allocates the output (unassigned
    /// when there is no witness) and binds the row with a lookup gate.
    pub fn query_table1(
        cs: &mut ConstraintSystem,
        table: &TableHandle,
        key: &AllocatedNum,
    ) -> (r: Result<AllocatedNum, SynthesisError>)
        requires
            old(cs).holds_table(*table),
            old(cs).holds_var(*key),
            table.kind.arity() == 1,
        ensures
            lookup1_done(*old(cs), *final(cs), *table, *key, r),
    {
        let res = match key.value {
            None => cs.allocate(None),
            Some(val) => {
                let out = table.kind.query(val)?;
                cs.allocate(Some(out.0))
            },
        };
        let dummy = cs.alloc_zero();
        cs.add_gate(
            Gate::Lookup {
                table: table.index,
                key: key.variable,
                out0: res.variable,
                out1: dummy.variable,
            },
        );
        Ok(res)
    }

    /// Looks `key` up in a table of two outputs, allocates both (unassigned when
    /// there is no witness) and binds the row with a lookup gate.
    pub fn query_table2(
        cs: &mut ConstraintSystem,
        table: &TableHandle,
        key: &AllocatedNum,
    ) -> (r: Result<(AllocatedNum, AllocatedNum), SynthesisError>)
        requires
            old(cs).holds_table(*table),
            old(cs).holds_var(*key),
        ensures
            lookup2_done(*old(cs), *final(cs), *table, *key, r),
    {
        let res = match key.value {
            None => {
                let a = cs.allocate(None);
                let b = cs.allocate(None);
                (a, b)
            },
            Some(val) => {
                let out = table.kind.query(val)?;
                let a = cs.allocate(Some(out.0));
                let b = cs.allocate(Some(out.1));
                (a, b)
            },
        };
        cs.add_gate(
            Gate::Lookup {
                table: table.index,
                key: key.variable,
                out0: res.0.variable,
                out1: res.1.variable,
            },
        );
        Ok(res)
    }

    /// Consecutive accumulators of the extractor's witnesses differ by one limb.
    proof fn lemma_step_holds(values: Seq<Option<u128>>, b: int, w: Option<u128>, k: int)
        requires
            0 <= b,
            b + 18 <= usize::MAX,
            0 <= k < 16,
            overflow_witnesses(values, b, w),
        ensures
            assigned(values, (b + k) as usize) && assigned(values, (b + k + 1) as usize) ==> limb_step(
                values,
                (b + k) as usize,
                (b + k + 1) as usize,
            ),
    {
        if let Some(v) = w {
            lemma_accumulator_step((v % 0x1_0000_0000) as nat, k as nat);
            lemma_pow_positive(4, (15 - k) as nat);
            let x32 = (v % 0x1_0000_0000) as nat;
            vstd::arithmetic::div_mod::lemma_div_is_ordered_by_denominator(
                x32 as int,
                1,
                pow_nat(4, (15 - k) as nat) as int,
            );
            assert(values[b + (k + 1)] == Some(accumulator(v as nat, (k + 1) as nat) as u128));
            if k > 0 {
                assert(values[b + k] == Some(accumulator(v as nat, k as nat) as u128));
            }
        }
    }

    /// Reduces a value of at most 36 bits to its low 32 bits. An allocated value
    /// is split into sixteen 2-bit limbs, accumulated from the top (from a zero
    /// accumulator) and range checked four at a time; the two overflow digits
    /// are range checked and tied to the input by one linear gate. A constant is
    /// reduced directly.
    pub fn extact_32_from_overflowed_num(cs: &mut ConstraintSystem, var: &Num) -> (r: Result<
        Num,
        SynthesisError,
    >)
        requires
            old(cs).holds_num(*var),
            num_value(*var) matches Some(x) ==> x < 0x10_0000_0000,
        ensures
            r is Ok,
            final(cs).extends(old(cs)),
            final(cs).gates_hold_from(old(cs).gates@.len() as int),
            r matches Ok(n) ==> final(cs).holds_num(n),
            r matches Ok(n) ==> num_value(n) == low32(num_value(*var)),
            r matches Ok(n) ==> (is_constant(*var) <==> is_constant(n)),
            is_constant(*var) ==> final(cs).values@ == old(cs).values@ && final(cs).gates@ == old(
                cs,
            ).gates@,
            var matches Num::Allocated(x) ==> {
                let b = old(cs).values@.len();
                &&& overflow_witnesses(final(cs).values@, b as int, x.value)
                &&& final(cs).gates@ == old(cs).gates@ + overflow_gates(x.variable, b as usize)
                &&& final(cs).gates@.len() == old(cs).gates@.len() + 8
                &&& r matches Ok(Num::Allocated(low)) && low.variable == b + 16
            },
    {
        proof {
            lemma_pow_fits(2, 32);
        }
        match var {
            Num::Constant(x) => {
                let low = Self::extract_32_from_constant(*x).0;
                assert(num_value(Num::Constant(low)) == low32(num_value(*var)));
                Ok(Num::Constant(low))
            },
            Num::Allocated(x) => {
                let ghost before = *cs;
                let ghost b = before.values@.len() as int;
                let zero = cs.alloc_zero();
                let mut i: u64 = 0;
                while i < 16
                    invariant
                        i <= 16,
                        cs.values@.len() == b + i + 1,
                        cs.extends(&before),
                        cs.gates@ == before.gates@,
                        before.holds_var(*x),
                        b == before.values@.len(),
                        pow_nat(2, 32) == 0x1_0000_0000,
                        cs.values@[b] == Some(0u128),
                        forall|k: int|
                            1 <= k <= i ==> #[trigger] cs.values@[b + k] == match x.value {
                                Some(v) => Some(accumulator(v as nat, k as nat) as u128),
                                None => None,
                            },
                    decreases 16 - i,
                {
                    let val: Option<u128> = match x.value {
                        Some(v) => {
                            let exp: u64 = 15 - i;
                            proof {
                                lemma_pow_positive(4, exp as nat);
                                lemma_pow_fits(4, exp as nat);
                            }
                            let d: u128 = if exp == 0 {
                                1
                            } else {
                                Self::u64_exp_to_ff(4, exp)
                            };
                            assert(d == pow_nat(4, exp as nat));
                            proof {
                                let w = (v % 0x1_0000_0000) as nat;
                                vstd::arithmetic::div_mod::lemma_div_is_ordered_by_denominator(
                                    w as int,
                                    1,
                                    d as int,
                                );
                            }
                            Some((v % 0x1_0000_0000) / d)
                        },
                        None => None,
                    };
                    cs.allocate(val);
                    i = i + 1;
                }
                let (of_l_value, of_h_value) = match x.value {
                    None => (None, None),
                    Some(elem) => {
                        let temp = Self::extract_32_from_constant(elem);
                        (Some(temp.1), Some(temp.2))
                    },
                };
                let of_l_var = cs.allocate(of_l_value);
                let of_h_var = cs.allocate(of_h_value);
                assert(of_h_var.variable == zero.variable + 18);
                let low = AllocatedNum { variable: zero.variable + 16, value: cs.values[zero.variable + 16] };
                let ghost allocated = *cs;
                proof {
                    assert(allocated.holds_var(*x));
                    assert(pow_nat(4, 0) == 1);
                    if let Some(v) = x.value {
                        let w = (v % 0x1_0000_0000) as nat;
                        assert(w / 1 == w) by (nonlinear_arith);
                        assert(cs.values@[b + 16] == Some(w as u128));
                        lemma_overflow_residues(v as nat);
                    }
                    assert(overflow_witnesses(allocated.values@, b, x.value));
                }
                let first = zero.variable;
                proof {
                    reveal(overflow_gates);
                }
                cs.add_gate(
                    Gate::Main {
                        q_a: 1,
                        q_b: 0,
                        q_c: 0,
                        q_d: 0,
                        q_m: 0,
                        q_const: 0,
                        q_d_next: 0,
                        a: first,
                        b: first,
                        c: first,
                        d: first,
                    },
                );
                let mut g: usize = 0;
                while g < 4
                    invariant
                        g <= 4,
                        first == b,
                        cs.values@ == allocated.values@,
                        cs.tables@ == allocated.tables@,
                        first + 18 <= usize::MAX,
                        cs.gates@ =~= old(cs).gates@ + overflow_gates(x.variable, b as usize).subrange(
                            0,
                            1 + g as int,
                        ),
                    decreases 4 - g,
                {
                    proof {
                        reveal(overflow_gates);
                    }
                    let base = first + 4 * g;
                    cs.add_gate(
                        Gate::RangeCheck32 { a: base, b: base + 1, c: base + 2, d: base + 3, next: base + 4 },
                    );
                    g = g + 1;
                }
                cs.add_gate(
                    Gate::In04Range {
                        a: x.variable,
                        b: of_l_var.variable,
                        c: of_h_var.variable,
                        d: low.variable,
                        position: 1,
                    },
                );
                cs.add_gate(
                    Gate::In04Range {
                        a: x.variable,
                        b: of_l_var.variable,
                        c: of_h_var.variable,
                        d: low.variable,
                        position: 2,
                    },
                );
                cs.add_gate(
                    Gate::Main {
                        q_a: -1,
                        q_b: 0x1_0000_0000,
                        q_c: 0x4_0000_0000,
                        q_d: 1,
                        q_m: 0,
                        q_const: 0,
                        q_d_next: 0,
                        a: x.variable,
                        b: of_l_var.variable,
                        c: of_h_var.variable,
                        d: low.variable,
                    },
                );
                proof {
                    reveal(overflow_gates);
                    let gs = overflow_gates(x.variable, b as usize);
                    assert(cs.gates@ =~= old(cs).gates@ + gs);
                    assert(b + 18 <= usize::MAX);
                    let vals = cs.values@;
                    let tabs = cs.tables@;
                    assert(pow_nat(4, 16) == 0x1_0000_0000) by {
                        reveal_with_fuel(pow_nat, 17);
                    }
                    if let Some(v) = x.value {
                        assert(val(vals, x.variable) == v);
                        assert(val(vals, (b + 17) as usize) == (v / 0x1_0000_0000) % 4);
                        assert(val(vals, (b + 18) as usize) == v / 0x4_0000_0000);
                        assert(val(vals, (b + 16) as usize) == v % 0x1_0000_0000);
                    }
                    assert(val(vals, b as usize) == 0);
                    assert(gate_holds(vals, tabs, gs[0]));
                    Self::lemma_step_holds(vals, b, x.value, 0);
                    Self::lemma_step_holds(vals, b, x.value, 1);
                    Self::lemma_step_holds(vals, b, x.value, 2);
                    Self::lemma_step_holds(vals, b, x.value, 3);
                    assert(gate_holds(vals, tabs, gs[1]));
                    Self::lemma_step_holds(vals, b, x.value, 4);
                    Self::lemma_step_holds(vals, b, x.value, 5);
                    Self::lemma_step_holds(vals, b, x.value, 6);
                    Self::lemma_step_holds(vals, b, x.value, 7);
                    assert(gate_holds(vals, tabs, gs[2]));
                    Self::lemma_step_holds(vals, b, x.value, 8);
                    Self::lemma_step_holds(vals, b, x.value, 9);
                    Self::lemma_step_holds(vals, b, x.value, 10);
                    Self::lemma_step_holds(vals, b, x.value, 11);
                    assert(gate_holds(vals, tabs, gs[3]));
                    Self::lemma_step_holds(vals, b, x.value, 12);
                    Self::lemma_step_holds(vals, b, x.value, 13);
                    Self::lemma_step_holds(vals, b, x.value, 14);
                    Self::lemma_step_holds(vals, b, x.value, 15);
                    assert(gate_holds(vals, tabs, gs[4]));
                    assert(gate_holds(vals, tabs, gs[5]));
                    assert(gate_holds(vals, tabs, gs[6]));
                    if let Some(v) = x.value {
                        lemma_overflow_residues(v as nat);
                        assert(val(vals, x.variable) == v);
                        assert(val(vals, (b + 17) as usize) == (v / 0x1_0000_0000) % 4);
                        assert(val(vals, (b + 18) as usize) == v / 0x4_0000_0000);
                        assert(val(vals, (b + 16) as usize) == v % 0x1_0000_0000);
                        let (xa, ol, oh, lo) = (
                            val(vals, x.variable),
                            val(vals, (b + 17) as usize),
                            val(vals, (b + 18) as usize),
                            val(vals, (b + 16) as usize),
                        );
                        assert(-1 * xa + 0x1_0000_0000 * ol + 0x4_0000_0000 * oh + 1 * lo + 0 * xa * ol + 0
                            == 0) by (nonlinear_arith)
                            requires
                                -1 * xa + 0x1_0000_0000 * ol + 0x4_0000_0000 * oh + 1 * lo == 0,
                        ;
                    }
                    assert(gate_holds(vals, tabs, gs[7]));
                    let g0 = old(cs).gates@.len() as int;
                    assert forall|k: int| g0 <= k < cs.gates@.len() implies gate_holds(
                        cs.values@,
                        cs.tables@,
                        #[trigger] cs.gates@[k],
                    ) by {
                        assert(cs.gates@[k] == gs[k - g0]);
                        let j = k - g0;
                        assert(j == 0 || j == 1 || j == 2 || j == 3 || j == 4 || j == 5 || j == 6
                            || j == 7);
                    }
                }
                Ok(Num::Allocated(low))
            },
        }
    }

    /// Converts a register into its Choose forms: the binary value, the radix-7
    /// sparse form and the sparse forms of its rotations by 6, 11 and 25. An
    /// allocated register is split into three 11-bit limbs, each looked up once;
    /// the top limb's table drops a possible overflow bit. Five linear gates tie
    /// the limbs to the register and the limb forms to the full forms.
    #[verifier::rlimit(100)]
    pub fn convert_into_sparse_chooser_form(
        &self,
        cs: &mut ConstraintSystem,
        input: NumWithTracker,
    ) -> (r: Result<SparseChValue, SynthesisError>)
        requires
            self.wf(old(cs)),
            old(cs).holds_num(input.num),
            input.overflow_tracker != OverflowTracker::SignificantOverflow,
            input.within_bound(),
        ensures
            r is Ok,
            final(cs).extends(old(cs)),
            final(cs).gates_hold_from(old(cs).gates@.len() as int),
            r matches Ok(v) ==> ch_represents(v, ch_prepared(input)),
            r matches Ok(v) ==> ch_kind_follows(final(cs), v, is_constant(input.num)),
            is_constant(input.num) ==> final(cs).values@ == old(cs).values@ && final(cs).gates@
                == old(cs).gates@,
            input.num matches Num::Allocated(xa) ==> ({
                let ext = input.overflow_tracker == OverflowTracker::SmallOverflow;
                let b0 = old(cs).values@.len() as int;
                let g0 = old(cs).gates@.len() as int;
                let b = if ext { b0 + 19 } else { b0 };
                let g = if ext { g0 + 8 } else { g0 };
                let var = if ext { (b0 + 16) as usize } else { xa.variable };
                &&& ext ==> final(cs).gates@.subrange(g0, g0 + 8) == overflow_gates(xa.variable, b0 as usize)
                &&& conversion_circuit(
                    *final(cs),
                    self.sha256_base7_rot6_table,
                    self.sha256_base7_rot3_extr10_table,
                    7,
                    g,
                    b,
                    var,
                    ch_prepared(input),
                )
                &&& r matches Ok(v) && var_of(v.normal) == var && var_of(v.sparse) == b + 9 && var_of(
                    v.rot6,
                ) == b + 10 && var_of(v.rot11) == b + 11 && var_of(v.rot25) == b + 12
            }),
    {
        proof {
            lemma_register_bounds();
        }
        let ghost c0 = *cs;
        let var = match input.overflow_tracker {
            OverflowTracker::SmallOverflow => Self::extact_32_from_overflowed_num(cs, &input.num)?,
            _ => input.num,
        };
        let ghost c1 = *cs;
        let ghost start = c0.gates@.len() as int;
        assert(num_value(var) == ch_prepared(input));
        assert(is_constant(var) == is_constant(input.num));
        assert(cs.holds_num(var));
        assert(cs.gates_hold_from(start));
        assert(num_value(var) matches Some(x) ==> x < pow_nat(2, 33));
        match var {
            Num::Constant(x) => {
                let n = (x % 0x1_0000_0000) as u64;
                proof {
                    lemma_word_chunk(x as nat, 7, 0);
                }
                let res = SparseChValue {
                    normal: Num::Constant(x),
                    sparse: Num::Constant(Self::converter_helper(n, SHA256_CHOOSE_BASE, 0, 0)),
                    rot6: Num::Constant(Self::converter_helper(n, SHA256_CHOOSE_BASE, 6, 0)),
                    rot11: Num::Constant(Self::converter_helper(n, SHA256_CHOOSE_BASE, 11, 0)),
                    rot25: Num::Constant(Self::converter_helper(n, SHA256_CHOOSE_BASE, 25, 0)),
                };
                Ok(res)
            },
            Num::Allocated(var) => {
                // split the register into three 11-bit limbs; the top limb's table
                // drops bit 10, which absorbs one overflow bit
                let low = Self::allocate_converted_num(cs, &var, SHA256_GADGET_CHUNK_SIZE, 0, 0, 0, 0)?;
                let mid = Self::allocate_converted_num(cs, &var, SHA256_GADGET_CHUNK_SIZE, 1, 0, 0, 0)?;
                let high = Self::allocate_converted_num(cs, &var, SHA256_GADGET_CHUNK_SIZE, 2, 0, 0, 0)?;
                let ghost c2 = *cs;
                proof {
                    if let Some(x) = var.value {
                        lemma_limb_chunk(x as nat, 0);
                        lemma_limb_chunk(x as nat, 1);
                        lemma_limb_chunk(x as nat, 2);
                        lemma_choose_gate_values(x as nat);
                    }
                    assert(c2.extends(&c1));
                    lemma_gates_hold_grow(c1, c2, start);
                    lemma_extends_holds(c1, c2, var);
                }
                let (sparse_low, sparse_low_rot6) = Self::query_table2(cs, &self.sha256_base7_rot6_table, &low)?;
                let ghost l0 = cs.gates@.last();
                let ghost c3 = *cs;
                proof {
                    lemma_gates_hold_grow(c2, c3, start);
                    lemma_extends_holds(c2, c3, mid);
                }
                let (sparse_mid, _sparse_mid_rot6) = Self::query_table2(cs, &self.sha256_base7_rot6_table, &mid)?;
                let ghost l1 = cs.gates@.last();
                let ghost c4 = *cs;
                proof {
                    lemma_gates_hold_grow(c3, c4, start);
                    lemma_extends_trans(c2, c3, c4);
                    lemma_extends_holds(c2, c4, high);
                }
                let (sparse_high, sparse_high_rot3) = Self::query_table2(cs, &self.sha256_base7_rot3_extr10_table, &high)?;
                let ghost l2 = cs.gates@.last();
                let ghost c5 = *cs;
                proof {
                    lemma_gates_hold_grow(c4, c5, start);
                    lemma_extends_trans(c2, c4, c5);
                    lemma_extends_trans(c3, c4, c5);
                    lemma_extends_holds(c2, c5, var);
                    lemma_extends_holds(c2, c5, low);
                    lemma_extends_holds(c2, c5, mid);
                    lemma_extends_holds(c2, c5, high);
                    lemma_extends_holds(c3, c5, sparse_low);
                    lemma_extends_holds(c3, c5, sparse_low_rot6);
                    lemma_extends_holds(c4, c5, sparse_mid);
                }
                // low + 2^11·mid + 2^22·high = register
                cs.ternary_lc_eq((1, 0x800, 0x40_0000), (&low, &mid, &high), &var);
                let ghost k3 = cs.gates@.last();
                proof {
                    lemma_lc3_gate(*cs, cs.gates@.last(), (1u128, 0x800u128, 0x40_0000u128), low, mid, high, var);
                    lemma_push_holds(c5, *cs, start);
                }
                let ghost d5 = *cs;
                let full_sparse = Self::allocate_converted_num(cs, &var, SHA256_REG_WIDTH, 0, SHA256_CHOOSE_BASE, 0, 0)?;
                let limb_1_shift = Self::u64_exp_to_ff(7, 11);
                let limb_2_shift = Self::u64_exp_to_ff(7, 22);
                let ghost c6 = *cs;
                proof {
                    if let Some(x) = var.value {
                        lemma_word_chunk(x as nat, 7, 0);
                        lemma_word_chunk(x as nat, 7, 6);
                        lemma_word_chunk(x as nat, 7, 11);
                        lemma_word_chunk(x as nat, 7, 25);
                    }
                    lemma_gates_hold_grow(d5, c6, start);
                }
                // sparse = low_sparse + 7^11·mid_sparse + 7^22·high_sparse
                cs.ternary_lc_eq((1, limb_1_shift, limb_2_shift), (&sparse_low, &sparse_mid, &sparse_high), &full_sparse);
                let ghost k4 = cs.gates@.last();
                proof {
                    lemma_lc3_gate(*cs, cs.gates@.last(), (1u128, limb_1_shift, limb_2_shift), sparse_low, sparse_mid, sparse_high, full_sparse);
                    lemma_push_holds(c6, *cs, start);
                }
                let ghost d6 = *cs;
                let rot6 = Self::allocate_converted_num(cs, &var, SHA256_REG_WIDTH, 0, SHA256_CHOOSE_BASE, 6, 0)?;
                let rot6_limb_1_shift = Self::u64_exp_to_ff(7, 11 - 6);
                let rot6_limb_2_shift = Self::u64_exp_to_ff(7, 22 - 6);
                let ghost c7 = *cs;
                proof {
                    lemma_gates_hold_grow(d6, c7, start);
                }
                // rot6 = low_sparse_rot6 + 7^5·mid_sparse + 7^16·high_sparse
                cs.ternary_lc_eq((1, rot6_limb_1_shift, rot6_limb_2_shift), (&sparse_low_rot6, &sparse_mid, &sparse_high), &rot6);
                let ghost k5 = cs.gates@.last();
                proof {
                    lemma_lc3_gate(*cs, cs.gates@.last(), (1u128, rot6_limb_1_shift, rot6_limb_2_shift), sparse_low_rot6, sparse_mid, sparse_high, rot6);
                    lemma_push_holds(c7, *cs, start);
                }
                let ghost d7 = *cs;
                let rot11 = Self::allocate_converted_num(cs, &var, SHA256_REG_WIDTH, 0, SHA256_CHOOSE_BASE, 11, 0)?;
                let rot11_limb_0_shift = Self::u64_exp_to_ff(7, 32 - 11);
                let rot11_limb_2_shift = Self::u64_exp_to_ff(7, 22 - 11);
                let ghost c8 = *cs;
                proof {
                    lemma_gates_hold_grow(d7, c8, start);
                }
                // rot11 = mid_sparse + 7^21·low_sparse + 7^11·high_sparse
                cs.ternary_lc_eq((1, rot11_limb_0_shift, rot11_limb_2_shift), (&sparse_mid, &sparse_low, &sparse_high), &rot11);
                let ghost k6 = cs.gates@.last();
                proof {
                    lemma_lc3_gate(*cs, cs.gates@.last(), (1u128, rot11_limb_0_shift, rot11_limb_2_shift), sparse_mid, sparse_low, sparse_high, rot11);
                    lemma_push_holds(c8, *cs, start);
                }
                let ghost d8 = *cs;
                let rot25 = Self::allocate_converted_num(cs, &var, SHA256_REG_WIDTH, 0, SHA256_CHOOSE_BASE, 25, 0)?;
                let rot25_limb_0_shift = Self::u64_exp_to_ff(7, 32 - 25);
                let rot25_limb_1_shift = Self::u64_exp_to_ff(7, 32 - 25 + 11);
                let ghost c9 = *cs;
                proof {
                    lemma_gates_hold_grow(d8, c9, start);
                }
                // rot25 = high_sparse_rot3 + 7^7·low_sparse + 7^18·mid_sparse
                cs.ternary_lc_eq((1, rot25_limb_0_shift, rot25_limb_1_shift), (&sparse_high_rot3, &sparse_low, &sparse_mid), &rot25);
                let ghost k7 = cs.gates@.last();
                proof {
                    lemma_lc3_gate(*cs, cs.gates@.last(), (1u128, rot25_limb_0_shift, rot25_limb_1_shift), sparse_high_rot3, sparse_low, sparse_mid, rot25);
                    lemma_push_holds(c9, *cs, start);
                    lemma_extends_trans(c0, c1, c2);
                }
                proof {
                    let lst = seq![l0, l1, l2, k3, k4, k5, k6, k7];
                    assert(cs.gates@ =~= c1.gates@ + lst);
                    let ext = input.overflow_tracker == OverflowTracker::SmallOverflow;
                    let g0 = c0.gates@.len() as int;
                    if ext {
                        if let Num::Allocated(xa) = input.num {
                            assert(cs.gates@.subrange(g0, g0 + 8) =~= c1.gates@.subrange(g0, g0 + 8));
                        }
                    }
                    lemma_extends_trans(c2, c3, c4);
                    lemma_extends_trans(c2, c4, c5);
                    assert(cs.extends(&c5));
                    lemma_extends_holds(c5, *cs, low);
                    lemma_extends_holds(c5, *cs, mid);
                    lemma_extends_holds(c5, *cs, high);
                    assert(conversion_circuit(
                        *cs,
                        self.sha256_base7_rot6_table,
                        self.sha256_base7_rot3_extr10_table,
                        7,
                        c1.gates@.len() as int,
                        c1.values@.len() as int,
                        var.variable,
                        ch_prepared(input),
                    )) by {
                        reveal(conversion_circuit);
                    }
                }
                let res = SparseChValue {
                    normal: Num::Allocated(var),
                    sparse: Num::Allocated(full_sparse),
                    rot6: Num::Allocated(rot6),
                    rot11: Num::Allocated(rot11),
                    rot25: Num::Allocated(rot25),
                };
                Ok(res)
            },
        }
    }

    /// Converts a register into its Majority forms: the binary value, the radix-4
    /// sparse form and the sparse forms of its rotations by 2, 13 and 22. Under
    /// `UseTwoTables` the top limb's table drops a possible overflow bit; under
    /// `RawOverflowCheck` any overflow is reduced explicitly first.
    #[verifier::rlimit(100)]
    #[verifier::spinoff_prover]
    pub fn convert_into_sparse_majority_form(
        &self,
        cs: &mut ConstraintSystem,
        input: NumWithTracker,
    ) -> (r: Result<SparseMajValue, SynthesisError>)
        requires
            self.wf(old(cs)),
            old(cs).holds_num(input.num),
            input.overflow_tracker != OverflowTracker::SignificantOverflow,
            input.within_bound(),
        ensures
            r is Ok,
            final(cs).extends(old(cs)),
            final(cs).gates_hold_from(old(cs).gates@.len() as int),
            r matches Ok(v) ==> maj_represents(v, maj_prepared(input, self.majority_strategy)),
            r matches Ok(v) ==> maj_kind_follows(final(cs), v, is_constant(input.num)),
            is_constant(input.num) ==> final(cs).values@ == old(cs).values@ && final(cs).gates@
                == old(cs).gates@,
            input.num matches Num::Allocated(xa) ==> ({
                let ext = input.overflow_tracker == OverflowTracker::SmallOverflow || (
                input.overflow_tracker == OverflowTracker::OneBitOverflow && self.majority_strategy
                    == MajorityStrategy::RawOverflowCheck);
                let b0 = old(cs).values@.len() as int;
                let g0 = old(cs).gates@.len() as int;
                let b = if ext { b0 + 19 } else { b0 };
                let g = if ext { g0 + 8 } else { g0 };
                let var = if ext { (b0 + 16) as usize } else { xa.variable };
                let t_high = match self.majority_strategy {
                    MajorityStrategy::UseTwoTables => self.sha256_base4_rot2_extr10_table->Some_0,
                    MajorityStrategy::RawOverflowCheck => self.sha256_base4_rot2_table,
                };
                &&& ext ==> final(cs).gates@.subrange(g0, g0 + 8) == overflow_gates(xa.variable, b0 as usize)
                &&& conversion_circuit(
                    *final(cs),
                    self.sha256_base4_rot2_table,
                    t_high,
                    4,
                    g,
                    b,
                    var,
                    maj_prepared(input, self.majority_strategy),
                )
                &&& r matches Ok(v) && var_of(v.normal) == var && var_of(v.sparse) == b + 9 && var_of(
                    v.rot2,
                ) == b + 10 && var_of(v.rot13) == b + 11 && var_of(v.rot22) == b + 12
            }),
    {
        proof {
            lemma_register_bounds();
        }
        let ghost c0 = *cs;
        let var = match (input.overflow_tracker, self.majority_strategy) {
            (OverflowTracker::SmallOverflow, _) | (
                OverflowTracker::OneBitOverflow,
                MajorityStrategy::RawOverflowCheck,
            ) => Self::extact_32_from_overflowed_num(cs, &input.num)?,
            (_, _) => input.num,
        };
        let ghost c1 = *cs;
        let ghost start = c0.gates@.len() as int;
        assert(num_value(var) == maj_prepared(input, self.majority_strategy));
        assert(is_constant(var) == is_constant(input.num));
        assert(cs.holds_num(var));
        assert(cs.gates_hold_from(start));
        assert(num_value(var) matches Some(x) ==> x < pow_nat(2, 33));
        assert(self.majority_strategy == MajorityStrategy::RawOverflowCheck ==> (num_value(
            var,
        ) matches Some(x) ==> x < pow_nat(2, 32)));
        match var {
            Num::Constant(x) => {
                let n = (x % 0x1_0000_0000) as u64;
                proof {
                    lemma_word_chunk(x as nat, 4, 0);
                }
                let res = SparseMajValue {
                    normal: Num::Constant(x),
                    sparse: Num::Constant(Self::converter_helper(n, SHA256_MAJORITY_BASE, 0, 0)),
                    rot2: Num::Constant(Self::converter_helper(n, SHA256_MAJORITY_BASE, 2, 0)),
                    rot13: Num::Constant(Self::converter_helper(n, SHA256_MAJORITY_BASE, 13, 0)),
                    rot22: Num::Constant(Self::converter_helper(n, SHA256_MAJORITY_BASE, 22, 0)),
                };
                Ok(res)
            },
            Num::Allocated(var) => {
                let high_chunk_table = match (self.majority_strategy, &self.sha256_base4_rot2_extr10_table) {
                    (MajorityStrategy::UseTwoTables, Some(table)) => table,
                    (_, _) => &self.sha256_base4_rot2_table,
                };
                let ghost extraction: u64 = if self.majority_strategy == MajorityStrategy::UseTwoTables {
                    10
                } else {
                    0
                };
                assert(high_chunk_table.kind == TableKind::SparseRotate { bits: 11, rotation: 2, extraction, base: 4 });
                let low = Self::allocate_converted_num(cs, &var, SHA256_GADGET_CHUNK_SIZE, 0, 0, 0, 0)?;
                let mid = Self::allocate_converted_num(cs, &var, SHA256_GADGET_CHUNK_SIZE, 1, 0, 0, 0)?;
                let high = Self::allocate_converted_num(cs, &var, SHA256_GADGET_CHUNK_SIZE, 2, 0, 0, 0)?;
                let ghost c2 = *cs;
                proof {
                    if let Some(x) = var.value {
                        lemma_limb_chunk(x as nat, 0);
                        lemma_limb_chunk(x as nat, 1);
                        lemma_limb_chunk(x as nat, 2);
                        lemma_majority_gate_values(x as nat, extraction);
                    }
                    assert(c2.extends(&c1));
                    lemma_gates_hold_grow(c1, c2, start);
                    lemma_extends_holds(c1, c2, var);
                }
                let (sparse_low, sparse_low_rot2) = Self::query_table2(cs, &self.sha256_base4_rot2_table, &low)?;
                let ghost l0 = cs.gates@.last();
                let ghost c3 = *cs;
                proof {
                    lemma_gates_hold_grow(c2, c3, start);
                    lemma_extends_holds(c2, c3, mid);
                }
                let (sparse_mid, sparse_mid_rot2) = Self::query_table2(cs, &self.sha256_base4_rot2_table, &mid)?;
                let ghost l1 = cs.gates@.last();
                let ghost c4 = *cs;
                proof {
                    lemma_gates_hold_grow(c3, c4, start);
                    lemma_extends_trans(c2, c3, c4);
                    lemma_extends_holds(c2, c4, high);
                }
                let (sparse_high, _sparse_high_rot2) = Self::query_table2(cs, high_chunk_table, &high)?;
                let ghost l2 = cs.gates@.last();
                let ghost c5 = *cs;
                proof {
                    lemma_gates_hold_grow(c4, c5, start);
                    lemma_extends_trans(c2, c4, c5);
                    lemma_extends_trans(c3, c4, c5);
                    lemma_extends_holds(c2, c5, var);
                    lemma_extends_holds(c2, c5, low);
                    lemma_extends_holds(c2, c5, mid);
                    lemma_extends_holds(c2, c5, high);
                    lemma_extends_holds(c3, c5, sparse_low);
                    lemma_extends_holds(c3, c5, sparse_low_rot2);
                    lemma_extends_holds(c4, c5, sparse_mid);
                    lemma_extends_holds(c4, c5, sparse_mid_rot2);
                }
                // low + 2^11·mid + 2^22·high = register
                cs.ternary_lc_eq((1, 0x800, 0x40_0000), (&low, &mid, &high), &var);
                let ghost k3 = cs.gates@.last();
                proof {
                    lemma_lc3_gate(*cs, cs.gates@.last(), (1u128, 0x800u128, 0x40_0000u128), low, mid, high, var);
                    lemma_push_holds(c5, *cs, start);
                }
                let ghost d5 = *cs;
                let full_sparse = Self::allocate_converted_num(cs, &var, SHA256_REG_WIDTH, 0, SHA256_MAJORITY_BASE, 0, 0)?;
                let limb_1_shift = Self::u64_exp_to_ff(4, 11);
                let limb_2_shift = Self::u64_exp_to_ff(4, 22);
                let ghost c6 = *cs;
                proof {
                    if let Some(x) = var.value {
                        lemma_word_chunk(x as nat, 4, 0);
                        lemma_word_chunk(x as nat, 4, 2);
                        lemma_word_chunk(x as nat, 4, 13);
                        lemma_word_chunk(x as nat, 4, 22);
                    }
                    lemma_gates_hold_grow(d5, c6, start);
                }
                // sparse = low_sparse + 4^11·mid_sparse + 4^22·high_sparse
                cs.ternary_lc_eq((1, limb_1_shift, limb_2_shift), (&sparse_low, &sparse_mid, &sparse_high), &full_sparse);
                let ghost k4 = cs.gates@.last();
                proof {
                    lemma_lc3_gate(*cs, cs.gates@.last(), (1u128, limb_1_shift, limb_2_shift), sparse_low, sparse_mid, sparse_high, full_sparse);
                    lemma_push_holds(c6, *cs, start);
                }
                let ghost d6 = *cs;
                let rot2 = Self::allocate_converted_num(cs, &var, SHA256_REG_WIDTH, 0, SHA256_MAJORITY_BASE, 2, 0)?;
                let rot2_limb_1_shift = Self::u64_exp_to_ff(4, 11 - 2);
                let rot2_limb_2_shift = Self::u64_exp_to_ff(4, 22 - 2);
                let ghost c7 = *cs;
                proof {
                    lemma_gates_hold_grow(d6, c7, start);
                }
                // rot2 = low_sparse_rot2 + 4^9·mid_sparse + 4^20·high_sparse
                cs.ternary_lc_eq((1, rot2_limb_1_shift, rot2_limb_2_shift), (&sparse_low_rot2, &sparse_mid, &sparse_high), &rot2);
                let ghost k5 = cs.gates@.last();
                proof {
                    lemma_lc3_gate(*cs, cs.gates@.last(), (1u128, rot2_limb_1_shift, rot2_limb_2_shift), sparse_low_rot2, sparse_mid, sparse_high, rot2);
                    lemma_push_holds(c7, *cs, start);
                }
                let ghost d7 = *cs;
                let rot13 = Self::allocate_converted_num(cs, &var, SHA256_REG_WIDTH, 0, SHA256_MAJORITY_BASE, 13, 0)?;
                let rot13_limb_0_shift = Self::u64_exp_to_ff(4, 32 - 2 - 11);
                let rot13_limb_2_shift = Self::u64_exp_to_ff(4, 22 - 2 - 11);
                let ghost c8 = *cs;
                proof {
                    lemma_gates_hold_grow(d7, c8, start);
                }
                // rot13 = mid_sparse_rot2 + 4^19·low_sparse + 4^9·high_sparse
                cs.ternary_lc_eq((1, rot13_limb_0_shift, rot13_limb_2_shift), (&sparse_mid_rot2, &sparse_low, &sparse_high), &rot13);
                let ghost k6 = cs.gates@.last();
                proof {
                    lemma_lc3_gate(*cs, cs.gates@.last(), (1u128, rot13_limb_0_shift, rot13_limb_2_shift), sparse_mid_rot2, sparse_low, sparse_high, rot13);
                    lemma_push_holds(c8, *cs, start);
                }
                let ghost d8 = *cs;
                let rot22 = Self::allocate_converted_num(cs, &var, SHA256_REG_WIDTH, 0, SHA256_MAJORITY_BASE, 22, 0)?;
                let rot22_limb_0_shift = Self::u64_exp_to_ff(4, 32 - 22);
                let rot22_limb_1_shift = Self::u64_exp_to_ff(4, 32 - 22 + 11);
                let ghost c9 = *cs;
                proof {
                    lemma_gates_hold_grow(d8, c9, start);
                }
                // rot22 = high_sparse + 4^10·low_sparse + 4^21·mid_sparse
                cs.ternary_lc_eq((1, rot22_limb_0_shift, rot22_limb_1_shift), (&sparse_high, &sparse_low, &sparse_mid), &rot22);
                let ghost k7 = cs.gates@.last();
                proof {
                    lemma_lc3_gate(*cs, cs.gates@.last(), (1u128, rot22_limb_0_shift, rot22_limb_1_shift), sparse_high, sparse_low, sparse_mid, rot22);
                    lemma_push_holds(c9, *cs, start);
                    lemma_extends_trans(c0, c1, c2);
                }
                proof {
                    let lst = seq![l0, l1, l2, k3, k4, k5, k6, k7];
                    let t_high = match self.majority_strategy {
                        MajorityStrategy::UseTwoTables => self.sha256_base4_rot2_extr10_table->Some_0,
                        MajorityStrategy::RawOverflowCheck => self.sha256_base4_rot2_table,
                    };
                    assert(high_chunk_table == t_high);
                    lemma_extends_trans(c2, c3, c4);
                    lemma_extends_trans(c2, c4, c5);
                    assert(cs.extends(&c5));
                    lemma_extends_holds(c5, *cs, low);
                    lemma_extends_holds(c5, *cs, mid);
                    lemma_extends_holds(c5, *cs, high);
                    assert(conversion_circuit(
                        *cs,
                        self.sha256_base4_rot2_table,
                        t_high,
                        4,
                        c1.gates@.len() as int,
                        c1.values@.len() as int,
                        var.variable,
                        maj_prepared(input, self.majority_strategy),
                    )) by {
                        reveal(conversion_circuit);
                        assert(cs.gates@ =~= c1.gates@ + lst);
                    }
                    let g0 = c0.gates@.len() as int;
                    if c1.gates@.len() == g0 + 8 {
                        assert(cs.gates@.subrange(g0, g0 + 8) =~= c1.gates@.subrange(g0, g0 + 8)) by {
                            assert(cs.gates@ =~= c1.gates@ + lst);
                        }
                    }
                    lemma_extends_trans(c2, c3, c4);
                    lemma_extends_trans(c2, c4, c5);
                    assert(cs.extends(&c5));
                    lemma_extends_holds(c5, *cs, low);
                    lemma_extends_holds(c5, *cs, mid);
                    lemma_extends_holds(c5, *cs, high);
                }
                let res = SparseMajValue {
                    normal: Num::Allocated(var),
                    sparse: Num::Allocated(full_sparse),
                    rot2: Num::Allocated(rot2),
                    rot13: Num::Allocated(rot13),
                    rot22: Num::Allocated(rot22),
                };
                Ok(res)
            },
        }
    }

    /// Maps an accumulated sparse value back to binary through a normalization
    /// table. An allocated value is cut into chunks of `num_chunks` digits, each
    /// looked up; linear gates tie the chunks to the input and the chunk outputs,
    /// at binary weights, to the result. A constant is normalized directly.
    pub fn normalize(
        cs: &mut ConstraintSystem,
        input: &Num,
        table: &TableHandle,
        base: u64,
        num_chunks: u64,
    ) -> (r: Result<Num, SynthesisError>)
        requires
            old(cs).holds_table(*table),
            old(cs).holds_num(*input),
            normalization_table(table.kind, base as nat, num_chunks as nat),
        ensures
            r is Ok,
            final(cs).extends(old(cs)),
            r matches Ok(n) ==> num_value(n) == normalize_value(
                num_value(*input),
                table.kind,
                base as nat,
                num_chunks as nat,
            ),
            r matches Ok(n) ==> final(cs).holds_num(n) && (is_constant(*input) <==> is_constant(n)),
            is_constant(*input) ==> final(cs).values@ == old(cs).values@ && final(cs).gates@
                == old(cs).gates@,
            (num_value(*input) matches Some(x) ==> x < pow_nat(
                base as nat,
                num_slices(num_chunks as nat) * num_chunks as nat,
            )) ==> final(cs).gates_hold_from(old(cs).gates@.len() as int),
    {
        proof {
            lemma_register_bounds();
        }
        assert(1 <= num_chunks <= 16 && 2 <= base <= 7);
        let slices: u64 = (SHA256_REG_WIDTH + num_chunks - 1) / num_chunks;
        assert(slices * num_chunks <= 31 + num_chunks && slices >= 1 && (slices - 1) * num_chunks <= 31)
            by (nonlinear_arith)
            requires
                slices == (32 + num_chunks - 1) / (num_chunks as int),
                1 <= num_chunks <= 16,
        ;
        let digits: u64 = slices * num_chunks;
        let m = match table.kind {
            TableKind::ChooseNormalization { .. } => DigitMap::Choose,
            TableKind::MajorityNormalization { .. } => DigitMap::Majority,
            _ => DigitMap::Parity,
        };
        match input {
            Num::Constant(x) => Ok(Num::Constant(normalize_digits(*x, base, m, digits))),
            Num::Allocated(x) => {
                let ghost c0 = *cs;
                proof {
                    lemma_pow_positive(base as nat, num_chunks as nat);
                    lemma_pow_positive(base as nat, 0);
                    assert(num_chunks * 0 == 0);
                }
                let slice_max = Self::u64_exp_to_ff(base, num_chunks);
                proof {
                    if let Some(v) = x.value {
                        assert(pow_nat(base as nat, (num_chunks * 0) as nat) == 1);
                        assert((v as nat) / 1 == v as nat) by (nonlinear_arith);
                    }
                }
                let mut in_vars: Vec<usize> = Vec::new();
                let mut in_coeffs: Vec<u128> = Vec::new();
                let mut out_vars: Vec<usize> = Vec::new();
                let mut out_coeffs: Vec<u128> = Vec::new();
                let mut cur: Option<u128> = x.value;
                let mut in_weight: u128 = 1;
                let mut out_weight: u128 = 1;
                let mut j: u64 = 0;
                while j < slices
                    invariant
                        j <= slices,
                        slices * num_chunks <= 64,
                        (slices - 1) * num_chunks <= 31,
                        1 <= num_chunks <= 16,
                        2 <= base <= 7,
                        slice_max == pow_nat(base as nat, num_chunks as nat),
                        slice_max >= 1,
                        j < slices ==> num_chunks * j <= 31,
                        j < slices ==> in_weight == pow_nat(base as nat, (num_chunks * j) as nat),
                        j < slices ==> out_weight == pow_nat(2, (num_chunks * j) as nat),
                        cs.extends(&c0),
                        cs.holds_table(*table),
                        c0.holds_var(*x),
                        normalization_table(table.kind, base as nat, num_chunks as nat),
                        cur is Some <==> x.value is Some,
                        forall|b: nat, e: nat| b <= 7 && e <= 32 ==> #[trigger] pow_nat(b, e) <= u128::MAX,
                        m == digit_map_of(table.kind),
                        cs.gates_hold_from(c0.gates@.len() as int),
                        in_vars@.len() == j && in_coeffs@.len() == j,
                        out_vars@.len() == j && out_coeffs@.len() == j,
                        forall|i: int| 0 <= i < j ==> #[trigger] in_vars@[i] < cs.values@.len(),
                        forall|i: int| 0 <= i < j ==> #[trigger] out_vars@[i] < cs.values@.len(),
                        x.value matches Some(v) ==> {
                            &&& cur == Some((v as nat / pow_nat(base as nat, (num_chunks * j) as nat)) as u128)
                            &&& lc_sum(cs.values@, in_coeffs@, in_vars@) == v as nat % pow_nat(
                                base as nat,
                                (num_chunks * j) as nat,
                            )
                            &&& lc_sum(cs.values@, out_coeffs@, out_vars@) == normalized(
                                v as nat,
                                base as nat,
                                m,
                                (num_chunks * j) as nat,
                            )
                            &&& forall|i: int| 0 <= i < j ==> assigned(cs.values@, #[trigger] in_vars@[i])
                            &&& forall|i: int| 0 <= i < j ==> assigned(cs.values@, #[trigger] out_vars@[i])
                        },
                    decreases slices - j,
                {
                    let chunk_value = match cur {
                        Some(v) => {
                            cur = Some(v / slice_max);
                            Some(v % slice_max)
                        },
                        None => None,
                    };
                    let ghost c1 = *cs;
                    let chunk = cs.allocate(chunk_value);
                    let ghost c1b = *cs;
                    proof {
                        if let Some(k) = chunk_value {
                            assert(k < table.kind.domain_size());
                        }
                    }
                    let out = Self::query_table1(cs, table, &chunk)?;
                    let ghost c2 = *cs;
                    proof {
                        lemma_extends_trans(c1, c1b, c2);
                        lemma_extends_trans(c0, c1, c2);
                        lemma_gates_hold_grow(c1, c1b, c0.gates@.len() as int);
                        lemma_gates_hold_grow(c1b, c2, c0.gates@.len() as int);
                        lemma_lc_sum_grow(c1.values@, c2.values@, in_coeffs@, in_vars@);
                        lemma_lc_sum_grow(c1.values@, c2.values@, out_coeffs@, out_vars@);
                        assert(c2.holds_var(chunk));
                        if let Some(v) = x.value {
                            let vn = v as nat;
                            let e = (num_chunks * j) as nat;
                            let p = pow_nat(base as nat, e);
                            let bm = slice_max as nat;
                            lemma_pow_positive(base as nat, e);
                            lemma_pow_adds(base as nat, e, num_chunks as nat);
                            assert(num_chunks * (j + 1) == num_chunks * j + num_chunks) by (nonlinear_arith);
                            vstd::arithmetic::div_mod::lemma_mod_breakdown(vn as int, p as int, bm as int);
                            lemma_div_denominator(vn as int, p as int, bm as int);
                            lemma_recode_split(vn, base as nat, 2, m, e, num_chunks as nat);
                            lemma_recode_low_digits(vn, base as nat, 2, m, e);
                            lemma_recode_low_digits(vn / p, base as nat, 2, m, num_chunks as nat);
                            assert(forall|i: int| 0 <= i < j ==> assigned(c2.values@, #[trigger] in_vars@[i])) by {
                                assert forall|i: int| 0 <= i < j implies assigned(c2.values@, #[trigger] in_vars@[i]) by {
                                    assert(c2.values@[in_vars@[i] as int] == c1.values@[in_vars@[i] as int]);
                                }
                            }
                            assert(forall|i: int| 0 <= i < j ==> assigned(c2.values@, #[trigger] out_vars@[i])) by {
                                assert forall|i: int| 0 <= i < j implies assigned(c2.values@, #[trigger] out_vars@[i]) by {
                                    assert(c2.values@[out_vars@[i] as int] == c1.values@[out_vars@[i] as int]);
                                }
                            }
                        }
                    }
                    let ghost in_c = in_coeffs@;
                    let ghost in_v = in_vars@;
                    let ghost out_c = out_coeffs@;
                    let ghost out_v = out_vars@;
                    in_vars.push(chunk.variable);
                    in_coeffs.push(in_weight);
                    out_vars.push(out.variable);
                    out_coeffs.push(out_weight);
                    proof {
                        assert(in_coeffs@.drop_last() =~= in_c);
                        assert(in_vars@.drop_last() =~= in_v);
                        assert(out_coeffs@.drop_last() =~= out_c);
                        assert(out_vars@.drop_last() =~= out_v);
                        assert(lc_sum(cs.values@, in_coeffs@, in_vars@) == in_weight * val(cs.values@, chunk.variable) + lc_sum(cs.values@, in_c, in_v));
                        assert(lc_sum(cs.values@, out_coeffs@, out_vars@) == out_weight * val(cs.values@, out.variable) + lc_sum(cs.values@, out_c, out_v));
                    }
                    if j + 1 < slices {
                        proof {
                            assert(num_chunks * (j + 1) <= 31) by (nonlinear_arith)
                                requires
                                    j + 1 < slices,
                                    (slices - 1) * num_chunks <= 31,
                            ;
                            assert(num_chunks * (j + 1) == num_chunks * j + num_chunks) by (nonlinear_arith);
                            lemma_pow_adds(base as nat, (num_chunks * j) as nat, num_chunks as nat);
                            lemma_pow_adds(2, (num_chunks * j) as nat, num_chunks as nat);
                            lemma_pow_adds(2, (num_chunks * j) as nat, 1);
                            lemma_pow_increases(2, num_chunks as nat, 32);
                            reveal_with_fuel(pow_nat, 2);
                        }
                        in_weight = in_weight * slice_max;
                        out_weight = out_weight * Self::u64_exp_to_ff(2, num_chunks);
                    }
                    j = j + 1;
                }
                let value = match x.value {
                    Some(v) => Some(normalize_digits(v, base, m, digits)),
                    None => None,
                };
                let ghost c3 = *cs;
                let res = cs.allocate(value);
                let ghost c4 = *cs;
                proof {
                    lemma_gates_hold_grow(c3, c4, c0.gates@.len() as int);
                    lemma_lc_sum_grow(c3.values@, c4.values@, in_coeffs@, in_vars@);
                    lemma_lc_sum_grow(c3.values@, c4.values@, out_coeffs@, out_vars@);
                    assert(c4.holds_var(*x));
                    assert(num_slices(num_chunks as nat) == slices);
                    assert(num_chunks * slices == digits) by (nonlinear_arith)
                        requires
                            digits == slices * num_chunks,
                    ;
                    if let Some(v) = x.value {
                        assert forall|i: int| 0 <= i < slices implies assigned(c4.values@, #[trigger] in_vars@[i]) by {
                            assert(c4.values@[in_vars@[i] as int] == c3.values@[in_vars@[i] as int]);
                        }
                        assert forall|i: int| 0 <= i < slices implies assigned(c4.values@, #[trigger] out_vars@[i]) by {
                            assert(c4.values@[out_vars@[i] as int] == c3.values@[out_vars@[i] as int]);
                        }
                        if (v as nat) < pow_nat(base as nat, digits as nat) {
                            vstd::arithmetic::div_mod::lemma_small_mod(v as nat, pow_nat(base as nat, digits as nat));
                        }
                    }
                }
                cs.add_gate(Gate::LinearCombination { coeffs: in_coeffs, inputs: in_vars, target: x.variable });
                let ghost c5 = *cs;
                proof {
                    if num_value(*input) matches Some(xv) ==> xv < pow_nat(base as nat, digits as nat) {
                        assert(gate_holds(c5.values@, c5.tables@, c5.gates@.last()));
                        lemma_push_holds(c4, c5, c0.gates@.len() as int);
                    }
                }
                cs.add_gate(Gate::LinearCombination { coeffs: out_coeffs, inputs: out_vars, target: res.variable });
                proof {
                    assert(gate_holds(cs.values@, cs.tables@, cs.gates@.last()));
                    if num_value(*input) matches Some(xv) ==> xv < pow_nat(base as nat, digits as nat) {
                        lemma_push_holds(c5, *cs, c0.gates@.len() as int);
                    }
                }
                Ok(Num::Allocated(res))
            },
        }
    }

    /// Registers the tables of the gadget and returns its configuration. Chunk
    /// counts default to 4 (Choose) and 6 (Majority). The extra radix-4 table
    /// with a dropped top bit is registered only under `UseTwoTables`.
    pub fn new(
        cs: &mut ConstraintSystem,
        majority_strategy: MajorityStrategy,
        ch_base_num_of_chunks: Option<u64>,
        maj_base_num_of_chunks: Option<u64>,
    ) -> (r: Result<Self, SynthesisError>)
        ensures
            final(cs).values@ == old(cs).values@,
            final(cs).gates@ == old(cs).gates@,
            !chunk_counts_supported(new_ch(ch_base_num_of_chunks), new_maj(maj_base_num_of_chunks))
                ==> r == Err::<Self, SynthesisError>(SynthesisError::UnsupportedTable)
                && final(cs).tables@ == old(cs).tables@,
            chunk_counts_supported(new_ch(ch_base_num_of_chunks), new_maj(maj_base_num_of_chunks))
                ==> (r is Ok <==> none_registered(
                old(cs).tables@,
                catalog(majority_strategy, new_ch(ch_base_num_of_chunks), new_maj(maj_base_num_of_chunks)),
            )),
            chunk_counts_supported(new_ch(ch_base_num_of_chunks), new_maj(maj_base_num_of_chunks))
                && r is Err ==> r == Err::<Self, SynthesisError>(SynthesisError::DuplicateTable),
            r matches Ok(p) ==> p.wf(final(cs)),
            r matches Ok(p) ==> p.majority_strategy == majority_strategy
                && p.ch_base_num_of_chunks == new_ch(ch_base_num_of_chunks)
                && p.maj_base_num_of_chunks == new_maj(maj_base_num_of_chunks),
            r is Ok ==> final(cs).tables@ == old(cs).tables@ + catalog(
                majority_strategy,
                new_ch(ch_base_num_of_chunks),
                new_maj(maj_base_num_of_chunks),
            ),
    {
        let ch = match ch_base_num_of_chunks {
            Some(v) => v,
            None => CH_BASE_DEFAULT_NUM_OF_CHUNKS,
        };
        let maj = match maj_base_num_of_chunks {
            Some(v) => v,
            None => MAJ_BASE_DEFAULT_NUM_OF_CHUNKS,
        };
        assert(ch == new_ch(ch_base_num_of_chunks));
        assert(maj == new_maj(maj_base_num_of_chunks));
        if !(1 <= ch && ch <= MAX_NORMALIZATION_CHUNKS && 1 <= maj && maj
            <= MAX_NORMALIZATION_CHUNKS) {
            return Err(SynthesisError::UnsupportedTable);
        }
        let mut kinds: Vec<TableKind> = vec![
            TableKind::SparseRotate {
                bits: SHA256_GADGET_CHUNK_SIZE,
                rotation: 6,
                extraction: 0,
                base: SHA256_CHOOSE_BASE,
            },
            TableKind::SparseRotate {
                bits: SHA256_GADGET_CHUNK_SIZE,
                rotation: 3,
                extraction: SHA256_GADGET_CHUNK_SIZE - 1,
                base: SHA256_CHOOSE_BASE,
            },
            TableKind::SparseRotate {
                bits: SHA256_GADGET_CHUNK_SIZE,
                rotation: 2,
                extraction: 0,
                base: SHA256_MAJORITY_BASE,
            },
        ];
        let two_tables = match majority_strategy {
            MajorityStrategy::UseTwoTables => true,
            MajorityStrategy::RawOverflowCheck => false,
        };
        if two_tables {
            kinds.push(
                TableKind::SparseRotate {
                    bits: SHA256_GADGET_CHUNK_SIZE,
                    rotation: 2,
                    extraction: SHA256_GADGET_CHUNK_SIZE - 1,
                    base: SHA256_MAJORITY_BASE,
                },
            );
        }
        kinds.push(TableKind::ChooseNormalization { chunks: ch });
        kinds.push(TableKind::MajorityNormalization { chunks: maj });
        kinds.push(TableKind::XorNormalization { base: SHA256_CHOOSE_BASE, chunks: ch });
        kinds.push(TableKind::XorNormalization { base: SHA256_MAJORITY_BASE, chunks: maj });
        let ghost spec_kinds = catalog(majority_strategy, ch, maj);
        assert(kinds@ =~= spec_kinds);
        let ghost t0 = cs.tables@;
        let mut handles: Vec<TableHandle> = Vec::new();
        let mut i: usize = 0;
        while i < kinds.len()
            invariant
                i <= kinds@.len(),
                kinds@ == spec_kinds,
                chunk_counts_supported(ch, maj),
                ch == new_ch(ch_base_num_of_chunks),
                maj == new_maj(maj_base_num_of_chunks),
                spec_kinds == catalog(majority_strategy, ch, maj),
                cs.tables@ == t0 + kinds@.subrange(0, i as int),
                cs.values@ == old(cs).values@,
                cs.gates@ == old(cs).gates@,
                t0 == old(cs).tables@,
                handles@.len() == i,
                forall|j: int|
                    0 <= j < i ==> (#[trigger] handles@[j]).index == t0.len() + j
                        && handles@[j].kind == kinds@[j],
                forall|j: int| 0 <= j < i ==> !t0.contains(#[trigger] kinds@[j]),
                forall|j: int| 0 <= j < kinds@.len() ==> (#[trigger] kinds@[j]).supported(),
                forall|a: int, b: int|
                    0 <= a < kinds@.len() && 0 <= b < kinds@.len() && a != b ==> kinds@[a]
                        != kinds@[b],
            decreases kinds@.len() - i,
        {
            let ghost before = cs.tables@;
            match cs.add_table(kinds[i]) {
                Ok(h) => {
                    proof {
                        let k = kinds@[i as int];
                        if t0.contains(k) {
                            let idx = choose|idx: int| 0 <= idx < t0.len() && t0[idx] == k;
                            assert(before[idx] == k);
                        }
                    }
                    handles.push(h);
                    assert(cs.tables@ =~= t0 + kinds@.subrange(0, i + 1));
                },
                Err(e) => {
                    proof {
                        let k = kinds@[i as int];
                        assert(before.contains(k));
                        let idx = choose|idx: int| 0 <= idx < before.len() && before[idx] == k;
                        if idx >= t0.len() {
                            assert(kinds@[idx - t0.len()] == k);
                        }
                        assert(t0.contains(k));
                        assert(!none_registered(old(cs).tables@, spec_kinds));
                    }
                    return Err(e);
                },
            }
            i = i + 1;
        }
        assert(kinds@.subrange(0, kinds@.len() as int) =~= kinds@);
        assert forall|j: int| 0 <= j < kinds@.len() implies cs.holds_table(#[trigger] handles@[j])
            && handles@[j].kind == kinds@[j] by {
            assert(cs.tables@[t0.len() + j] == kinds@[j]);
        }
        let off: usize = if two_tables { 1 } else { 0 };
        let sha256_base7_rot6_table = handles[0];
        let sha256_base7_rot3_extr10_table = handles[1];
        let sha256_base4_rot2_table = handles[2];
        let sha256_base4_rot2_extr10_table = if two_tables {
            Some(handles[3])
        } else {
            None
        };
        let sha256_ch_normalization_table = handles[3 + off];
        let sha256_maj_normalization_table = handles[4 + off];
        let sha256_ch_xor_table = handles[5 + off];
        let sha256_maj_xor_table = handles[6 + off];
        Ok(Sha256GadgetParams {
            majority_strategy,
            ch_base_num_of_chunks: ch,
            maj_base_num_of_chunks: maj,
            sha256_base7_rot6_table,
            sha256_base7_rot3_extr10_table,
            sha256_ch_normalization_table,
            sha256_ch_xor_table,
            sha256_base4_rot2_table,
            sha256_base4_rot2_extr10_table,
            sha256_maj_normalization_table,
            sha256_maj_xor_table,
        })
    }
}

} // verus!
