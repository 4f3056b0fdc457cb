use crate::cs::{assigned, gate_holds, lc_sum, num_value, val, ConstraintSystem, Gate, TableHandle};
use crate::tables::TableKind;
use crate::gadget::{
    ch_prepared,
    ch_represents,
    chunk_of,
    conversion_circuit,
    overflow_gates,
    maj_prepared,
    maj_represents,
    num_slices,
    sparse_rot,
    MajorityStrategy,
    NumWithTracker,
    OverflowTracker,
    SparseChValue,
    SparseMajValue,
};
use crate::radix::{
    ch_word,
    decode_sparse,
    lemma_choose_digits,
    lemma_majority_digits,
    lemma_pow_adds,
    lemma_recode_extra_digits,
    lemma_register_bounds,
    lemma_rotr_bound,
    lemma_rotr_zero,
    lemma_sparse_concat,
    lemma_sparse_round_trip,
    lemma_sparse_rotr,
    sparse,
    maj_word,
    normalized,
    pow_nat,
    rotr,
    DigitMap,
};
use vstd::prelude::*;

verus! {

/// Reading back, digit by digit, the sparse form of a rotation gives the binary
/// rotation of the register's low 32 bits, in either radix.
pub proof fn lemma_rotation_decodes(x: nat, base: nat, r: nat)
    requires
        base == 4 || base == 7,
        r < 32,
    ensures
        decode_sparse(sparse_rot(x, base, r), base) == rotr(x % pow_nat(2, 32), r),
{
    lemma_register_bounds();
    let rot = rotr(x % pow_nat(2, 32), r);
    lemma_rotr_bound(x % pow_nat(2, 32), r);
    lemma_sparse_round_trip(rot, base, 32);
    vstd::arithmetic::div_mod::lemma_small_mod(rot, pow_nat(2, 32));
}

/// The chunks of a normalization cover at least the 32 digits of a register.
pub proof fn lemma_slices_cover(num_chunks: nat)
    requires
        1 <= num_chunks <= 16,
    ensures
        32 <= num_slices(num_chunks) * num_chunks,
{
    let s = num_slices(num_chunks);
    assert(32 <= s * num_chunks) by (nonlinear_arith)
        requires
            s == ((32 + num_chunks - 1) as nat) / num_chunks,
            1 <= num_chunks,
    ;
}

/// Normalizing `e + 2f + 3g` over the radix-7 sparse forms of three registers,
/// through the Choose table with any supported chunk count, gives
/// `Ch(e, f, g) = (e & f) ^ (!e & g)`.
pub proof fn lemma_choose_round_trip(e: u32, f: u32, g: u32, num_chunks: nat)
    requires
        1 <= num_chunks <= 16,
    ensures
        normalized(
            sparse_rot(e as nat, 7, 0) + 2 * sparse_rot(f as nat, 7, 0) + 3 * sparse_rot(
                g as nat,
                7,
                0,
            ),
            7,
            DigitMap::Choose,
            num_slices(num_chunks) * num_chunks,
        ) == ch_word(e, f, g) as nat,
{
    lemma_register_bounds();
    assert((e as nat) % pow_nat(2, 32) == e && (f as nat) % pow_nat(2, 32) == f && (g as nat)
        % pow_nat(2, 32) == g);
    lemma_rotr_zero(e as nat);
    lemma_rotr_zero(f as nat);
    lemma_rotr_zero(g as nat);
    lemma_choose_digits(e, f, g, 32);
    lemma_slices_cover(num_chunks);
    let s = sparse_rot(e as nat, 7, 0) + 2 * sparse_rot(f as nat, 7, 0) + 3 * sparse_rot(
        g as nat,
        7,
        0,
    );
    let total = num_slices(num_chunks) * num_chunks;
    lemma_recode_extra_digits(s, 7, 2, DigitMap::Choose, 32, (total - 32) as nat);
}

/// Normalizing `a + b + c` over the radix-4 sparse forms of three registers,
/// through the Majority table with any supported chunk count, gives
/// `Maj(a, b, c) = (a & b) ^ (a & c) ^ (b & c)`.
pub proof fn lemma_majority_round_trip(a: u32, b: u32, c: u32, num_chunks: nat)
    requires
        1 <= num_chunks <= 16,
    ensures
        normalized(
            sparse_rot(a as nat, 4, 0) + sparse_rot(b as nat, 4, 0) + sparse_rot(c as nat, 4, 0),
            4,
            DigitMap::Majority,
            num_slices(num_chunks) * num_chunks,
        ) == maj_word(a, b, c) as nat,
{
    lemma_register_bounds();
    assert((a as nat) % pow_nat(2, 32) == a && (b as nat) % pow_nat(2, 32) == b && (c as nat)
        % pow_nat(2, 32) == c);
    lemma_rotr_zero(a as nat);
    lemma_rotr_zero(b as nat);
    lemma_rotr_zero(c as nat);
    lemma_majority_digits(a, b, c, 32);
    lemma_slices_cover(num_chunks);
    let s = sparse_rot(a as nat, 4, 0) + sparse_rot(b as nat, 4, 0) + sparse_rot(c as nat, 4, 0);
    let total = num_slices(num_chunks) * num_chunks;
    lemma_recode_extra_digits(s, 4, 2, DigitMap::Majority, 32, (total - 32) as nat);
}

/// A value below 2^36 is its low 32 bits, plus the 2-bit digit above them at
/// weight 2^32, plus the rest (below 4) at weight 2^34.
pub proof fn lemma_overflow_split(x: nat)
    requires
        x < 0x10_0000_0000,
    ensures
        x == x % 0x1_0000_0000 + ((x / 0x1_0000_0000) % 4) * 0x1_0000_0000 + (x / 0x4_0000_0000)
            * 0x4_0000_0000,
        x / 0x4_0000_0000 < 4,
{
}

/// The three 11-bit limbs of a register with at most one bit of overflow
/// recombine, at weights 1, 2^11 and 2^22, to the register.
pub proof fn lemma_limb_recombination(x: nat)
    requires
        x < pow_nat(2, 33),
    ensures
        chunk_of(x, 11, 0) + pow_nat(2, 11) * chunk_of(x, 11, 1) + pow_nat(2, 22) * chunk_of(x, 11, 2)
            == x,
{
    lemma_register_bounds();
    lemma_pow_adds(2, 11, 11);
    assert(pow_nat(2, 0) == 1);
    assert(11 * 0nat == 0 && 11 * 1nat == 11 && 11 * 2nat == 22);
    assert(x / 1 == x) by (nonlinear_arith);
    assert(pow_nat(2, 22) == 0x40_0000);
}

/// Under both majority strategies a register of at most one overflow bit gets
/// the same sparse forms, so everything normalized from them agrees.
pub proof fn lemma_strategy_equivalence(
    input: NumWithTracker,
    two_tables: SparseMajValue,
    raw_check: SparseMajValue,
)
    requires
        input.overflow_tracker == OverflowTracker::NoOverflow || input.overflow_tracker
            == OverflowTracker::OneBitOverflow,
        num_value(input.num) is Some,
        maj_represents(two_tables, maj_prepared(input, MajorityStrategy::UseTwoTables)),
        maj_represents(raw_check, maj_prepared(input, MajorityStrategy::RawOverflowCheck)),
    ensures
        num_value(two_tables.sparse) == num_value(raw_check.sparse),
        num_value(two_tables.rot2) == num_value(raw_check.rot2),
        num_value(two_tables.rot13) == num_value(raw_check.rot13),
        num_value(two_tables.rot22) == num_value(raw_check.rot22),
{
    lemma_register_bounds();
    let x = num_value(input.num)->Some_0;
    assert((x % pow_nat(2, 32)) % pow_nat(2, 32) == x % pow_nat(2, 32)) by {
        vstd::arithmetic::div_mod::lemma_mod_twice(x as int, pow_nat(2, 32) as int);
    }
}

/// A constant register and an allocated one with the same value get the same
/// Choose forms.
pub proof fn lemma_constant_parity_choose(
    constant: NumWithTracker,
    allocated: NumWithTracker,
    vc: SparseChValue,
    va: SparseChValue,
)
    requires
        num_value(constant.num) == num_value(allocated.num),
        constant.overflow_tracker == allocated.overflow_tracker,
        ch_represents(vc, ch_prepared(constant)),
        ch_represents(va, ch_prepared(allocated)),
    ensures
        num_value(vc.normal) == num_value(va.normal),
        num_value(vc.sparse) == num_value(va.sparse),
        num_value(vc.rot6) == num_value(va.rot6),
        num_value(vc.rot11) == num_value(va.rot11),
        num_value(vc.rot25) == num_value(va.rot25),
{
}

/// A constant register and an allocated one with the same value get the same
/// Majority forms.
pub proof fn lemma_constant_parity_majority(
    constant: NumWithTracker,
    allocated: NumWithTracker,
    strategy: MajorityStrategy,
    vc: SparseMajValue,
    va: SparseMajValue,
)
    requires
        num_value(constant.num) == num_value(allocated.num),
        constant.overflow_tracker == allocated.overflow_tracker,
        maj_represents(vc, maj_prepared(constant, strategy)),
        maj_represents(va, maj_prepared(allocated, strategy)),
    ensures
        num_value(vc.normal) == num_value(va.normal),
        num_value(vc.sparse) == num_value(va.sparse),
        num_value(vc.rot2) == num_value(va.rot2),
        num_value(vc.rot13) == num_value(va.rot13),
        num_value(vc.rot22) == num_value(va.rot22),
{
}

proof fn lemma_distribute(c: nat, p: nat, a: nat, b: nat)
    ensures
        c * (a + p * b) == c * a + (c * p) * b,
{
    assert(c * (a + p * b) == c * a + (c * p) * b) by (nonlinear_arith);
}

/// The limbs of a 32-bit word: `n = low + 2^11·mid + 2^22·high` with `low`
/// and `mid` of 11 bits and `high` of 10.
pub open spec fn limbs_of(n: nat, low: nat, mid: nat, high: nat) -> bool {
    &&& low < 0x800
    &&& mid < 0x800
    &&& high < 0x400
    &&& n == low + 0x800 * mid + 0x40_0000 * high
}

/// The full sparse form and the sparse forms of the rotations by 6, 11 and 25
/// are the limb sums that the Choose conversion asserts.
pub proof fn lemma_choose_limb_sums(n: nat, low: nat, mid: nat, high: nat, b: nat)
    requires
        limbs_of(n, low, mid, high),
    ensures
        sparse(n, b) == sparse(low, b) + pow_nat(b, 11) * sparse(mid, b) + pow_nat(b, 22) * sparse(high, b),
        sparse(rotr(n, 6), b) == sparse(rotr(low, 6), b) + pow_nat(b, 5) * sparse(mid, b) + pow_nat(
            b,
            16,
        ) * sparse(high, b),
        sparse(rotr(n, 11), b) == sparse(mid, b) + pow_nat(b, 21) * sparse(low, b) + pow_nat(b, 11)
            * sparse(high, b),
        sparse(rotr(n, 25), b) == sparse(rotr(high, 3), b) + pow_nat(b, 7) * sparse(low, b)
            + pow_nat(b, 18) * sparse(mid, b),
{
    lemma_register_bounds();
    reveal_with_fuel(pow_nat, 12);
    lemma_pow_adds(2, 11, 11);
    lemma_pow_adds(2, 22, 3);
    lemma_pow_adds(2, 22, 4);
    lemma_pow_adds(2, 22, 10);
    let (sl, sm, sh) = (sparse(low, b), sparse(mid, b), sparse(high, b));
    let m = mid + 0x800 * high;
    // the sparse form
    lemma_sparse_concat(mid, high, b, 11);
    lemma_sparse_concat(low, m, b, 11);
    lemma_distribute(pow_nat(b, 11), pow_nat(b, 11), sm, sh);
    lemma_pow_adds(b, 11, 11);
    // rotation by 11
    lemma_sparse_rotr(n, b, 11);
    assert(n / 0x800 == m && n % 0x800 == low);
    // rotation by 6
    lemma_sparse_rotr(n, b, 6);
    lemma_sparse_rotr(low, b, 6);
    assert(n / 64 == low / 64 + 32 * m && n % 64 == low % 64);
    lemma_sparse_concat(low / 64, m, b, 5);
    lemma_distribute(pow_nat(b, 5), pow_nat(b, 11), sm, sh);
    lemma_pow_adds(b, 5, 11);
    // rotation by 25
    lemma_sparse_rotr(n, b, 25);
    lemma_sparse_rotr(high, b, 3);
    assert(n / 0x200_0000 == high / 8);
    assert(n % 0x200_0000 == low + 0x800 * (mid + 0x800 * (high % 8)));
    lemma_sparse_concat(mid, high % 8, b, 11);
    lemma_sparse_concat(low, mid + 0x800 * (high % 8), b, 11);
    let sh8 = sparse(high % 8, b);
    lemma_distribute(pow_nat(b, 11), pow_nat(b, 11), sm, sh8);
    lemma_distribute(pow_nat(b, 7), pow_nat(b, 11), sl, sm + pow_nat(b, 11) * sh8);
    lemma_distribute(pow_nat(b, 7) * pow_nat(b, 11), pow_nat(b, 11), sm, sh8);
    lemma_pow_adds(b, 7, 11);
    lemma_pow_adds(b, 18, 11);
}

/// The full sparse form and the sparse forms of the rotations by 2, 13 and 22
/// are the limb sums that the Majority conversion asserts.
pub proof fn lemma_majority_limb_sums(n: nat, low: nat, mid: nat, high: nat, b: nat)
    requires
        limbs_of(n, low, mid, high),
    ensures
        sparse(n, b) == sparse(low, b) + pow_nat(b, 11) * sparse(mid, b) + pow_nat(b, 22) * sparse(high, b),
        sparse(rotr(n, 2), b) == sparse(rotr(low, 2), b) + pow_nat(b, 9) * sparse(mid, b) + pow_nat(
            b,
            20,
        ) * sparse(high, b),
        sparse(rotr(n, 13), b) == sparse(rotr(mid, 2), b) + pow_nat(b, 19) * sparse(low, b)
            + pow_nat(b, 9) * sparse(high, b),
        sparse(rotr(n, 22), b) == sparse(high, b) + pow_nat(b, 10) * sparse(low, b) + pow_nat(b, 21)
            * sparse(mid, b),
{
    lemma_register_bounds();
    reveal_with_fuel(pow_nat, 12);
    lemma_pow_adds(2, 11, 11);
    lemma_pow_adds(2, 11, 2);
    lemma_pow_adds(2, 22, 10);
    lemma_choose_limb_sums(n, low, mid, high, b);
    let (sl, sm, sh) = (sparse(low, b), sparse(mid, b), sparse(high, b));
    let m = mid + 0x800 * high;
    lemma_sparse_concat(mid, high, b, 11);
    // rotation by 2
    lemma_sparse_rotr(n, b, 2);
    lemma_sparse_rotr(low, b, 2);
    assert(n / 4 == low / 4 + 0x200 * m && n % 4 == low % 4);
    lemma_sparse_concat(low / 4, m, b, 9);
    lemma_distribute(pow_nat(b, 9), pow_nat(b, 11), sm, sh);
    lemma_pow_adds(b, 9, 11);
    // rotation by 13
    lemma_sparse_rotr(n, b, 13);
    lemma_sparse_rotr(mid, b, 2);
    assert(n / 0x2000 == mid / 4 + 0x200 * high);
    assert(n % 0x2000 == low + 0x800 * (mid % 4));
    lemma_sparse_concat(mid / 4, high, b, 9);
    lemma_sparse_concat(low, mid % 4, b, 11);
    let sm4 = sparse(mid % 4, b);
    lemma_distribute(pow_nat(b, 19), pow_nat(b, 11), sl, sm4);
    lemma_pow_adds(b, 19, 11);
    // rotation by 22
    lemma_sparse_rotr(n, b, 22);
    assert(n / 0x40_0000 == high && n % 0x40_0000 == low + 0x800 * mid);
    lemma_sparse_concat(low, mid, b, 11);
    lemma_distribute(pow_nat(b, 10), pow_nat(b, 11), sl, sm);
    lemma_pow_adds(b, 10, 11);
}

/// The limbs of a register of at most 33 bits, as `chunk_of` cuts them.
pub proof fn lemma_register_limbs(x: nat)
    requires
        x < pow_nat(2, 33),
    ensures
        limbs_of(
            x % pow_nat(2, 32),
            chunk_of(x, 11, 0),
            chunk_of(x, 11, 1),
            chunk_of(x, 11, 2) % pow_nat(2, 10),
        ),
        chunk_of(x, 11, 0) + 0x800 * chunk_of(x, 11, 1) + 0x40_0000 * chunk_of(x, 11, 2) == x,
        x < pow_nat(2, 32) ==> chunk_of(x, 11, 2) < pow_nat(2, 10),
{
    lemma_register_bounds();
    lemma_limb_recombination(x);
    lemma_pow_adds(2, 11, 11);
    reveal_with_fuel(pow_nat, 11);
    assert(pow_nat(2, 10) == 0x400);
    assert(pow_nat(2, 0) == 1);
    assert(11 * 0nat == 0 && 11 * 1nat == 11 && 11 * 2nat == 22);
    assert(x / 1 == x) by (nonlinear_arith);
}

/// The values the Choose conversion's five linear gates relate.
pub proof fn lemma_choose_gate_values(x: nat)
    requires
        x < pow_nat(2, 33),
    ensures
        ({
            let (l, m, h) = (chunk_of(x, 11, 0), chunk_of(x, 11, 1), chunk_of(x, 11, 2));
            let t6 = TableKind::SparseRotate { bits: 11, rotation: 6, extraction: 0, base: 7 };
            let t3 = TableKind::SparseRotate { bits: 11, rotation: 3, extraction: 10, base: 7 };
            &&& l < 0x800 && m < 0x800 && h < 0x800
            &&& 1 * l + 0x800 * m + 0x40_0000 * h == x
            &&& 1 * t6.output(l).0 + pow_nat(7, 11) * t6.output(m).0 + pow_nat(7, 22) * t3.output(h).0
                == sparse_rot(x, 7, 0)
            &&& 1 * t6.output(l).1 + pow_nat(7, 5) * t6.output(m).0 + pow_nat(7, 16) * t3.output(h).0
                == sparse_rot(x, 7, 6)
            &&& 1 * t6.output(m).0 + pow_nat(7, 21) * t6.output(l).0 + pow_nat(7, 11) * t3.output(h).0
                == sparse_rot(x, 7, 11)
            &&& 1 * t3.output(h).1 + pow_nat(7, 7) * t6.output(l).0 + pow_nat(7, 18) * t6.output(m).0
                == sparse_rot(x, 7, 25)
        }),
{
    lemma_register_bounds();
    lemma_register_limbs(x);
    let n = x % pow_nat(2, 32);
    let (l, m, h) = (chunk_of(x, 11, 0), chunk_of(x, 11, 1), chunk_of(x, 11, 2));
    lemma_choose_limb_sums(n, l, m, h % pow_nat(2, 10), 7);
    lemma_rotr_zero(n);
    lemma_rotr_zero(l);
    lemma_rotr_zero(m);
    lemma_rotr_zero(h % pow_nat(2, 10));
}

/// The values the Majority conversion's five linear gates relate; the top
/// limb's table drops bit 10 (`extraction` 10), or the register has 32 bits.
pub proof fn lemma_majority_gate_values(x: nat, extraction: u64)
    requires
        x < pow_nat(2, 33),
        extraction == 10 || (extraction == 0 && x < pow_nat(2, 32)),
    ensures
        ({
            let (l, m, h) = (chunk_of(x, 11, 0), chunk_of(x, 11, 1), chunk_of(x, 11, 2));
            let t2 = TableKind::SparseRotate { bits: 11, rotation: 2, extraction: 0, base: 4 };
            let th = TableKind::SparseRotate { bits: 11, rotation: 2, extraction, base: 4 };
            &&& l < 0x800 && m < 0x800 && h < 0x800
            &&& 1 * l + 0x800 * m + 0x40_0000 * h == x
            &&& 1 * t2.output(l).0 + pow_nat(4, 11) * t2.output(m).0 + pow_nat(4, 22) * th.output(h).0
                == sparse_rot(x, 4, 0)
            &&& 1 * t2.output(l).1 + pow_nat(4, 9) * t2.output(m).0 + pow_nat(4, 20) * th.output(h).0
                == sparse_rot(x, 4, 2)
            &&& 1 * t2.output(m).1 + pow_nat(4, 19) * t2.output(l).0 + pow_nat(4, 9) * th.output(h).0
                == sparse_rot(x, 4, 13)
            &&& 1 * th.output(h).0 + pow_nat(4, 10) * t2.output(l).0 + pow_nat(4, 21) * t2.output(m).0
                == sparse_rot(x, 4, 22)
        }),
{
    lemma_register_bounds();
    lemma_register_limbs(x);
    let n = x % pow_nat(2, 32);
    let (l, m, h) = (chunk_of(x, 11, 0), chunk_of(x, 11, 1), chunk_of(x, 11, 2));
    lemma_majority_limb_sums(n, l, m, h % pow_nat(2, 10), 4);
    lemma_rotr_zero(n);
    lemma_rotr_zero(l);
    lemma_rotr_zero(m);
    lemma_rotr_zero(h % pow_nat(2, 10));
    if extraction == 0 {
        vstd::arithmetic::div_mod::lemma_small_mod(h, pow_nat(2, 10));
    }
}

/// Soundness of the overflow extractor's gates: wherever they all hold with
/// their wires assigned, the input is below 2^36 and the result (accumulator 16)
/// is the input's low 32 bits.
pub proof fn lemma_overflow_gates_sound(
    values: Seq<Option<u128>>,
    tables: Seq<TableKind>,
    x: usize,
    b: usize,
)
    requires
        b + 18 <= usize::MAX,
        forall|i: int| 0 <= i < 8 ==> gate_holds(values, tables, #[trigger] overflow_gates(x, b)[i]),
        assigned(values, x),
        forall|k: int| 0 <= k < 19 ==> #[trigger] assigned(values, (b + k) as usize),
    ensures
        val(values, (b + 16) as usize) == val(values, x) % 0x1_0000_0000,
        val(values, x) < 0x10_0000_0000,
{
    reveal(overflow_gates);
    let gs = overflow_gates(x, b);
    assert(gate_holds(values, tables, gs[0]));
    assert(gate_holds(values, tables, gs[1]));
    assert(gate_holds(values, tables, gs[2]));
    assert(gate_holds(values, tables, gs[3]));
    assert(gate_holds(values, tables, gs[4]));
    assert(gate_holds(values, tables, gs[5]));
    assert(gate_holds(values, tables, gs[6]));
    assert(gate_holds(values, tables, gs[7]));
    assert forall|k: int| 0 <= k < 19 implies assigned(values, #[trigger] ((b + k) as usize)) by {
        assert(assigned(values, (b + k) as usize));
    }
    let a = |k: int| val(values, (b + k) as usize);
    assert(assigned(values, (b + 0) as usize) && assigned(values, (b + 16) as usize)
        && assigned(values, (b + 17) as usize) && assigned(values, (b + 18) as usize));
    assert(a(0) == 0) by {
        assert(1 * val(values, b) + 0 * val(values, b) + 0 * val(values, b) + 0 * val(values, b) + 0
            * val(values, b) * val(values, b) + 0 == 0);
    }
    assert(a(16) < 0x1_0000_0000) by {
        assert(a(1) < 4 * a(0) + 4 && a(2) < 4 * a(1) + 4 && a(3) < 4 * a(2) + 4 && a(4) < 4 * a(3) + 4);
    }
    let (xv, ol, oh, lo) = (val(values, x), a(17), a(18), a(16));
    assert(ol < 4 && oh < 4);
    assert(-1 * xv + 0x1_0000_0000 * ol + 0x4_0000_0000 * oh + 1 * lo + 0 * xv * ol + 0 == 0);
    assert(xv == (ol + 4 * oh) * 0x1_0000_0000 + lo) by (nonlinear_arith)
        requires
            -1 * xv + 0x1_0000_0000 * ol + 0x4_0000_0000 * oh + 1 * lo + 0 * xv * ol + 0 == 0,
    ;
    vstd::arithmetic::div_mod::lemma_fundamental_div_mod_converse(
        xv as int,
        0x1_0000_0000,
        (ol + 4 * oh) as int,
        lo as int,
    );
}

/// Soundness of a conversion's split: wherever its three limb lookups and its
/// recombination gate hold with their wires assigned, the limbs are 11-bit
/// values that recombine, at weights 1, 2^11 and 2^22, to the register, which is
/// therefore below 2^33.
pub proof fn lemma_conversion_split_sound(
    after: ConstraintSystem,
    t_low: TableHandle,
    t_high: TableHandle,
    base: nat,
    g: int,
    b: int,
    var: usize,
    w: Option<nat>,
)
    requires
        0 <= g,
        0 <= b,
        b + 12 <= usize::MAX,
        conversion_circuit(after, t_low, t_high, base, g, b, var, w),
        after.gates_hold_from(g),
        t_low.kind.domain_size() == 0x800,
        t_high.kind.domain_size() == 0x800,
        after.tables@[t_low.index as int] == t_low.kind,
        after.tables@[t_high.index as int] == t_high.kind,
        assigned(after.values@, var),
        forall|k: int| 0 <= k < 9 ==> #[trigger] assigned(after.values@, (b + k) as usize),
    ensures
        val(after.values@, b as usize) < 0x800,
        val(after.values@, (b + 1) as usize) < 0x800,
        val(after.values@, (b + 2) as usize) < 0x800,
        val(after.values@, b as usize) + 0x800 * val(after.values@, (b + 1) as usize) + 0x40_0000
            * val(after.values@, (b + 2) as usize) == val(after.values@, var),
        val(after.values@, var) < 0x2_0000_0000,
{
    reveal(conversion_circuit);
    let vals = after.values@;
    let at = |k: int| (b + k) as usize;
    assert(gate_holds(vals, after.tables@, after.gates@[g]));
    assert(gate_holds(vals, after.tables@, after.gates@[g + 1]));
    assert(gate_holds(vals, after.tables@, after.gates@[g + 2]));
    assert(gate_holds(vals, after.tables@, after.gates@[g + 3]));
    assert(assigned(vals, at(0)) && assigned(vals, at(1)) && assigned(vals, at(2)) && assigned(
        vals,
        at(3),
    ) && assigned(vals, at(4)) && assigned(vals, at(5)) && assigned(vals, at(6)) && assigned(
        vals,
        at(7),
    ) && assigned(vals, at(8)));
    if let Gate::LinearCombination { coeffs, inputs, target } = after.gates@[g + 3] {
        let cv = coeffs@;
        let iv = inputs@;
        reveal_with_fuel(lc_sum, 4);
        assert(cv.drop_last() =~= seq![1u128, 0x800u128]);
        assert(iv.drop_last() =~= seq![at(0), at(1)]);
        assert(cv.drop_last().drop_last() =~= seq![1u128]);
        assert(iv.drop_last().drop_last() =~= seq![at(0)]);
        assert(cv.drop_last().drop_last().drop_last() =~= Seq::<u128>::empty());
        assert(iv.drop_last().drop_last().drop_last() =~= Seq::<usize>::empty());
        assert(forall|i: int| 0 <= i < iv.len() ==> assigned(vals, #[trigger] iv[i])) by {
            assert(iv[0] == at(0) && iv[1] == at(1) && iv[2] == at(2));
        }
        assert(target == var);
        assert(lc_sum(vals, cv, iv) == 1 * val(vals, at(0)) + 0x800 * val(vals, at(1)) + 0x40_0000
            * val(vals, at(2)));
    }
}

} // verus!
