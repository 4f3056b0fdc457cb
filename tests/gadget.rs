use sha256_gadgets::cs::{AllocatedNum, ConstraintSystem, Gate, Num};
use sha256_gadgets::gadget::{
    MajorityStrategy, NumWithTracker, OverflowTracker, Sha256GadgetParams, SparseChValue,
    SparseMajValue,
};
use sha256_gadgets::radix::DigitMap;
use sha256_gadgets::tables::{
    map_into_sparse_form, normalize_digits, rotate_extract, SynthesisError, TableKind,
};

fn sparse(n: u32, base: u128) -> u128 {
    let mut acc: u128 = 0;
    let mut power: u128 = 1;
    for i in 0..32 {
        acc += (((n >> i) & 1) as u128) * power;
        power *= base;
    }
    acc
}

fn decode(mut s: u128, base: u128) -> u32 {
    let mut out: u32 = 0;
    for i in 0..32 {
        let digit = s % base;
        assert!(digit <= 1, "a sparse digit is a bit");
        out |= (digit as u32) << i;
        s /= base;
    }
    assert_eq!(s, 0);
    out
}

fn value(n: &Num) -> Option<u128> {
    match n {
        Num::Constant(c) => Some(*c),
        Num::Allocated(a) => a.value,
    }
}

fn wire(cs: &ConstraintSystem, i: usize) -> Option<u128> {
    cs.values[i]
}

/// Evaluates every gate from `from` on, on the witnesses, where all are assigned.
fn check_gates(cs: &ConstraintSystem, from: usize) {
    for g in &cs.gates[from..] {
        match g {
            Gate::LinearCombination { coeffs, inputs, target } => {
                assert_eq!(coeffs.len(), inputs.len());
                let vals: Option<Vec<u128>> = inputs.iter().map(|i| wire(cs, *i)).collect();
                if let (Some(vals), Some(t)) = (vals, wire(cs, *target)) {
                    let sum: u128 = coeffs.iter().zip(vals.iter()).map(|(c, v)| c * v).sum();
                    assert_eq!(sum, t, "linear combination");
                }
            }
            Gate::Lookup { table, key, out0, out1 } => {
                if let (Some(k), Some(a), Some(b)) = (wire(cs, *key), wire(cs, *out0), wire(cs, *out1)) {
                    let kind = cs.tables[*table];
                    let (x, y) = kind.query(k).expect("key in domain");
                    assert_eq!(a, x, "lookup output");
                    if let TableKind::SparseRotate { .. } = kind {
                        assert_eq!(b, y, "lookup second output");
                    }
                }
            }
            Gate::RangeCheck32 { a, b, c, d, next } => {
                let w: Vec<Option<u128>> = [a, b, c, d, next].iter().map(|i| wire(cs, **i)).collect();
                if w.iter().all(|v| v.is_some()) {
                    for k in 0..4 {
                        let (p, q) = (w[k].unwrap(), w[k + 1].unwrap());
                        assert!(4 * p <= q && q < 4 * p + 4, "accumulator step");
                    }
                }
            }
            Gate::In04Range { a, b, c, d, position } => {
                if let Some(v) = wire(cs, [*a, *b, *c, *d][*position]) {
                    assert!(v < 4, "residue range");
                }
            }
            Gate::Main { q_a, q_b, q_c, q_d, q_m, q_const, q_d_next, a, b, c, d } => {
                assert_eq!(*q_d_next, 0);
                if let (Some(x), Some(y), Some(z), Some(w)) = (wire(cs, *a), wire(cs, *b), wire(cs, *c), wire(cs, *d)) {
                    let (x, y, z, w) = (x as i128, y as i128, z as i128, w as i128);
                    assert_eq!(q_a * x + q_b * y + q_c * z + q_d * w + q_m * x * y + q_const, 0);
                }
            }
        }
    }
}

fn ch_values(v: &SparseChValue) -> [Option<u128>; 5] {
    [value(&v.normal), value(&v.sparse), value(&v.rot6), value(&v.rot11), value(&v.rot25)]
}

fn maj_values(v: &SparseMajValue) -> [Option<u128>; 5] {
    [value(&v.normal), value(&v.sparse), value(&v.rot2), value(&v.rot13), value(&v.rot22)]
}

fn setup(strategy: MajorityStrategy) -> (ConstraintSystem, Sha256GadgetParams) {
    let mut cs = ConstraintSystem::new();
    let params = Sha256GadgetParams::new(&mut cs, strategy, None, None).expect("tables register");
    (cs, params)
}

fn allocated(cs: &mut ConstraintSystem, x: u128, tracker: OverflowTracker) -> NumWithTracker {
    let a = cs.allocate(Some(x));
    NumWithTracker { num: Num::Allocated(a), overflow_tracker: tracker }
}

fn constant(x: u128, tracker: OverflowTracker) -> NumWithTracker {
    NumWithTracker { num: Num::Constant(x), overflow_tracker: tracker }
}

#[test]
fn rotation_of_first_initial_hash_constant() {
    let n: u32 = 0x6A09E667;
    for (r, expected) in [(6u64, 0x9DA82799u32), (11, 0xCCED413C), (25, 0x04F333B5)] {
        assert_eq!(n.rotate_right(r as u32), expected);
        assert_eq!(rotate_extract(n as u64, r, 0), expected as u64);
        assert_eq!(Sha256GadgetParams::converter_helper(n as u64, 0, r, 0), expected as u128);
        assert_eq!(Sha256GadgetParams::converter_helper(n as u64, 2, r, 0), expected as u128);
    }
}

#[test]
fn rotate_extract_cuts_before_rotating() {
    // 0b101_1010_0101 cut to its low 10 bits, then rotated by 3 as a 32-bit word
    let x: u64 = 0x5A5;
    let cut = (x & 0x3FF) as u32;
    assert_eq!(rotate_extract(x, 3, 10), cut.rotate_right(3) as u64);
    assert_eq!(rotate_extract(x, 0, 10), cut as u64);
    assert_eq!(rotate_extract(x, 0, 0), x);
}

#[test]
fn sparse_form_reads_bits_as_digits() {
    assert_eq!(map_into_sparse_form(0b101, 7), 1 + 49);
    assert_eq!(map_into_sparse_form(0b101, 4), 1 + 16);
    assert_eq!(map_into_sparse_form(0b101, 0), 0b101);
    assert_eq!(map_into_sparse_form(0xFFFF_FFFF, 7), sparse(0xFFFF_FFFF, 7));
}

#[test]
fn power_helper() {
    assert_eq!(Sha256GadgetParams::u64_exp_to_ff(7, 11), 1977326743);
    assert_eq!(Sha256GadgetParams::u64_exp_to_ff(4, 22), 1u128 << 44);
    assert_eq!(Sha256GadgetParams::u64_exp_to_ff(5, 0), 5);
    assert_eq!(Sha256GadgetParams::u64_exp_to_ff(7, 32), 1104427674243920646305299201);
}

#[test]
fn chooser_form_of_constant_decodes_to_rotations() {
    let (mut cs, params) = setup(MajorityStrategy::UseTwoTables);
    let gates = cs.gates.len();
    let vars = cs.values.len();
    let n: u32 = 0x6A09E667;
    let v = params
        .convert_into_sparse_chooser_form(&mut cs, constant(n as u128, OverflowTracker::NoOverflow))
        .unwrap();
    assert_eq!(cs.gates.len(), gates);
    assert_eq!(cs.values.len(), vars);
    let vals = ch_values(&v);
    assert_eq!(vals[0], Some(n as u128));
    assert_eq!(decode(vals[1].unwrap(), 7), n);
    assert_eq!(decode(vals[2].unwrap(), 7), n.rotate_right(6));
    assert_eq!(decode(vals[3].unwrap(), 7), n.rotate_right(11));
    assert_eq!(decode(vals[4].unwrap(), 7), n.rotate_right(25));
}

#[test]
fn chooser_form_allocated_matches_constant() {
    let (mut cs, params) = setup(MajorityStrategy::UseTwoTables);
    for n in [0u32, 1, 0x6A09E667, 0xFFFF_FFFF, 0x8000_0001, 0x1234_5678] {
        let c = params
            .convert_into_sparse_chooser_form(&mut cs, constant(n as u128, OverflowTracker::NoOverflow))
            .unwrap();
        let input = allocated(&mut cs, n as u128, OverflowTracker::NoOverflow);
        let gates = cs.gates.len();
        let a = params.convert_into_sparse_chooser_form(&mut cs, input).unwrap();
        assert_eq!(ch_values(&c), ch_values(&a));
        assert!(matches!(a.sparse, Num::Allocated(_)));
        // three lookups and five linear gates
        assert_eq!(cs.gates.len(), gates + 8);
        assert_eq!(value(&a.rot25).unwrap(), sparse(n.rotate_right(25), 7));
        check_gates(&cs, gates);
    }
}

#[test]
fn chooser_form_absorbs_one_overflow_bit() {
    let (mut cs, params) = setup(MajorityStrategy::UseTwoTables);
    let x: u128 = (1u128 << 32) + 0x6A09E667;
    let input = allocated(&mut cs, x, OverflowTracker::OneBitOverflow);
    let v = params.convert_into_sparse_chooser_form(&mut cs, input).unwrap();
    check_gates(&cs, 0);
    let vals = ch_values(&v);
    assert_eq!(vals[0], Some(x));
    assert_eq!(vals[1], Some(sparse(0x6A09E667, 7)));
    assert_eq!(vals[2], Some(sparse(0x6A09E667u32.rotate_right(6), 7)));
}

#[test]
fn chooser_form_reduces_small_overflow() {
    let (mut cs, params) = setup(MajorityStrategy::UseTwoTables);
    let x: u128 = (0xBu128 << 32) + 0xDEAD_BEEF;
    let input = allocated(&mut cs, x, OverflowTracker::SmallOverflow);
    let v = params.convert_into_sparse_chooser_form(&mut cs, input).unwrap();
    check_gates(&cs, 0);
    let vals = ch_values(&v);
    assert_eq!(vals[0], Some(0xDEAD_BEEF));
    assert_eq!(vals[3], Some(sparse(0xDEAD_BEEFu32.rotate_right(11), 7)));
    let c = params
        .convert_into_sparse_chooser_form(&mut cs, constant(x, OverflowTracker::SmallOverflow))
        .unwrap();
    assert_eq!(ch_values(&c), vals);
}

#[test]
fn chooser_form_without_witness_is_unassigned() {
    let (mut cs, params) = setup(MajorityStrategy::UseTwoTables);
    let a = cs.allocate(None);
    let input = NumWithTracker { num: Num::Allocated(a), overflow_tracker: OverflowTracker::NoOverflow };
    let gates = cs.gates.len();
    let v = params.convert_into_sparse_chooser_form(&mut cs, input).unwrap();
    assert_eq!(ch_values(&v), [None, None, None, None, None]);
    assert_eq!(cs.gates.len(), gates + 8);
}

#[test]
fn majority_form_decodes_to_rotations() {
    for strategy in [MajorityStrategy::UseTwoTables, MajorityStrategy::RawOverflowCheck] {
        let (mut cs, params) = setup(strategy);
        let n: u32 = 0xBB67AE85;
        let c = params
            .convert_into_sparse_majority_form(&mut cs, constant(n as u128, OverflowTracker::NoOverflow))
            .unwrap();
        let input = allocated(&mut cs, n as u128, OverflowTracker::NoOverflow);
        let a = params.convert_into_sparse_majority_form(&mut cs, input).unwrap();
        check_gates(&cs, 0);
        let vals = maj_values(&a);
        assert_eq!(maj_values(&c), vals);
        assert_eq!(decode(vals[1].unwrap(), 4), n);
        assert_eq!(decode(vals[2].unwrap(), 4), n.rotate_right(2));
        assert_eq!(decode(vals[3].unwrap(), 4), n.rotate_right(13));
        assert_eq!(decode(vals[4].unwrap(), 4), n.rotate_right(22));
    }
}

#[test]
fn majority_strategies_agree_on_one_overflow_bit() {
    let x: u128 = (1u128 << 32) + 0x3C6EF372;
    let (mut cs1, p1) = setup(MajorityStrategy::UseTwoTables);
    let i1 = allocated(&mut cs1, x, OverflowTracker::OneBitOverflow);
    let v1 = p1.convert_into_sparse_majority_form(&mut cs1, i1).unwrap();
    let (mut cs2, p2) = setup(MajorityStrategy::RawOverflowCheck);
    let i2 = allocated(&mut cs2, x, OverflowTracker::OneBitOverflow);
    let g2 = cs2.gates.len();
    let v2 = p2.convert_into_sparse_majority_form(&mut cs2, i2).unwrap();
    check_gates(&cs1, 0);
    check_gates(&cs2, 0);
    let (a, b) = (maj_values(&v1), maj_values(&v2));
    assert_eq!(a[1..], b[1..]);
    assert_eq!(a[0], Some(x));
    assert_eq!(b[0], Some(0x3C6EF372));
    // the explicit reduction adds eight gates before the conversion's eight
    assert_eq!(cs2.gates.len(), g2 + 16);
    let table = p1.sha256_maj_normalization_table;
    let n1 = Sha256GadgetParams::normalize(&mut cs1, &v1.sparse, &table, 4, 6).unwrap();
    let table = p2.sha256_maj_normalization_table;
    let n2 = Sha256GadgetParams::normalize(&mut cs2, &v2.sparse, &table, 4, 6).unwrap();
    assert_eq!(value(&n1), value(&n2));
}

#[test]
fn overflow_extraction_of_constant() {
    let x: u128 = (0b1110u128 << 32) + 0x1234_5678;
    let (low, of_l, of_h) = Sha256GadgetParams::extract_32_from_constant(x);
    assert_eq!(low, 0x1234_5678);
    assert_eq!(of_l, 0b10);
    assert_eq!(of_h, 0b11);
    assert_eq!(low + (of_l << 32) + (of_h << 34), x);
}

#[test]
fn overflow_extraction_of_allocated() {
    let mut cs = ConstraintSystem::new();
    let x: u128 = (0xFu128 << 32) + 0xFFFF_FFFF;
    let a = cs.allocate(Some(x));
    let gates = cs.gates.len();
    let r = Sha256GadgetParams::extact_32_from_overflowed_num(&mut cs, &Num::Allocated(a)).unwrap();
    assert_eq!(value(&r), Some(0xFFFF_FFFF));
    // a zero start, four range checks, two residue checks, one linear gate
    assert_eq!(cs.gates.len(), gates + 8);
    check_gates(&cs, 0);
    match cs.gates.last().unwrap() {
        Gate::Main { q_a, q_b, q_c, q_d, .. } => {
            let (of_l, of_h) = (3i128, 3i128);
            assert_eq!(q_a * (x as i128) + q_b * of_l + q_c * of_h + q_d * 0xFFFF_FFFF, 0);
        }
        _ => panic!("the last gate ties the residues to the input"),
    }
    let c = Sha256GadgetParams::extact_32_from_overflowed_num(&mut cs, &Num::Constant(x)).unwrap();
    assert_eq!(value(&c), Some(0xFFFF_FFFF));
}

#[test]
fn limbs_recombine_to_register() {
    let mut cs = ConstraintSystem::new();
    let x: u128 = (1u128 << 32) + 0x5BE0_CD19;
    let a = cs.allocate(Some(x));
    let mut limbs = Vec::new();
    for k in 0..3 {
        let l = Sha256GadgetParams::allocate_converted_num(&mut cs, &a, 11, k, 0, 0, 0).unwrap();
        limbs.push(l.value.unwrap());
    }
    assert!(limbs.iter().all(|l| *l < 2048));
    assert_eq!(limbs[0] + (limbs[1] << 11) + (limbs[2] << 22), x);
}

#[test]
fn choose_round_trip() {
    let (mut cs, params) = setup(MajorityStrategy::UseTwoTables);
    let samples = [
        (0x510E527Fu32, 0x9B05688Cu32, 0x1F83D9ABu32),
        (0, 0xFFFF_FFFF, 0x1234_5678),
        (0xFFFF_FFFF, 0, 0xFFFF_FFFF),
        (0xAAAA_AAAA, 0x5555_5555, 0xF0F0_F0F0),
    ];
    for (e, f, g) in samples {
        let mut forms = Vec::new();
        for w in [e, f, g] {
            let input = allocated(&mut cs, w as u128, OverflowTracker::NoOverflow);
            let v = params.convert_into_sparse_chooser_form(&mut cs, input).unwrap();
            forms.push(value(&v.sparse).unwrap());
        }
        let combined = forms[0] + 2 * forms[1] + 3 * forms[2];
        let expected = ((e & f) ^ (!e & g)) as u128;
        let key = cs.allocate(Some(combined));
        let table = params.sha256_ch_normalization_table;
        let out = Sha256GadgetParams::normalize(&mut cs, &Num::Allocated(key), &table, 7, 4).unwrap();
        assert_eq!(value(&out), Some(expected));
        check_gates(&cs, 0);
        let out = Sha256GadgetParams::normalize(&mut cs, &Num::Constant(combined), &table, 7, 4).unwrap();
        assert_eq!(value(&out), Some(expected));
    }
}

#[test]
fn majority_round_trip() {
    let (mut cs, params) = setup(MajorityStrategy::RawOverflowCheck);
    let samples = [
        (0x6A09E667u32, 0xBB67AE85u32, 0x3C6EF372u32),
        (0, 0, 0xFFFF_FFFF),
        (0xFFFF_FFFF, 0xFFFF_FFFF, 0),
        (0xAAAA_AAAA, 0x5555_5555, 0xF0F0_F0F0),
    ];
    for (a, b, c) in samples {
        let mut total = 0u128;
        for w in [a, b, c] {
            let v = params
                .convert_into_sparse_majority_form(&mut cs, constant(w as u128, OverflowTracker::NoOverflow))
                .unwrap();
            total += value(&v.sparse).unwrap();
        }
        let expected = ((a & b) ^ (a & c) ^ (b & c)) as u128;
        let table = params.sha256_maj_normalization_table;
        let key = cs.allocate(Some(total));
        let gates = cs.gates.len();
        let out = Sha256GadgetParams::normalize(&mut cs, &Num::Allocated(key), &table, 4, 6).unwrap();
        assert_eq!(value(&out), Some(expected));
        // six chunk lookups and two linear gates
        assert_eq!(cs.gates.len(), gates + 8);
        check_gates(&cs, 0);
    }
}

#[test]
fn xor_normalization_gives_sigma_one() {
    let (mut cs, params) = setup(MajorityStrategy::UseTwoTables);
    let e: u32 = 0x510E527F;
    let v = params
        .convert_into_sparse_chooser_form(&mut cs, constant(e as u128, OverflowTracker::NoOverflow))
        .unwrap();
    let sum = value(&v.rot6).unwrap() + value(&v.rot11).unwrap() + value(&v.rot25).unwrap();
    let table = params.sha256_ch_xor_table;
    let out = Sha256GadgetParams::normalize(&mut cs, &Num::Constant(sum), &table, 7, 4).unwrap();
    let expected = e.rotate_right(6) ^ e.rotate_right(11) ^ e.rotate_right(25);
    assert_eq!(value(&out), Some(expected as u128));
}

#[test]
fn normalization_without_witness_is_unassigned() {
    let (mut cs, params) = setup(MajorityStrategy::UseTwoTables);
    let key = cs.allocate(None);
    let table = params.sha256_ch_normalization_table;
    let out = Sha256GadgetParams::normalize(&mut cs, &Num::Allocated(key), &table, 7, 4).unwrap();
    assert_eq!(value(&out), None);
}

#[test]
fn normalize_digits_maps_each_digit() {
    // radix-7 digits 6, 3, 5, 0 (low first) under Choose: 1, 1, 1, 0
    let key: u128 = 6 + 3 * 7 + 5 * 49;
    assert_eq!(normalize_digits(key, 7, DigitMap::Choose, 4), 0b0111);
    // radix-4 digits 3, 1, 2 under Majority: 1, 0, 1
    assert_eq!(normalize_digits(3 + 4 + 2 * 16, 4, DigitMap::Majority, 3), 0b101);
    assert_eq!(normalize_digits(3 + 4 + 2 * 16, 4, DigitMap::Parity, 3), 0b011);
}

#[test]
fn table_queries() {
    let rot = TableKind::SparseRotate { bits: 11, rotation: 3, extraction: 10, base: 7 };
    let key: u128 = 0x7FF;
    let (a, b) = rot.query(key).unwrap();
    assert_eq!(a, sparse(0x3FF, 7));
    assert_eq!(b, sparse(0x3FFu32.rotate_right(3), 7));
    assert_eq!(rot.query(2048), Err(SynthesisError::TableDomain));
    let ch = TableKind::ChooseNormalization { chunks: 4 };
    assert_eq!(ch.query(2401), Err(SynthesisError::TableDomain));
    assert!(ch.query(2400).is_ok());
    assert_eq!(ch.query(3).unwrap(), (1, 0));
}

#[test]
fn query_table_out_of_domain() {
    let (mut cs, params) = setup(MajorityStrategy::UseTwoTables);
    let key = cs.allocate(Some(4096));
    let before = (cs.values.len(), cs.gates.len());
    let table = params.sha256_base7_rot6_table;
    let r = Sha256GadgetParams::query_table2(&mut cs, &table, &key);
    assert!(matches!(r, Err(SynthesisError::TableDomain)));
    assert_eq!((cs.values.len(), cs.gates.len()), before);
    let table = params.sha256_ch_normalization_table;
    let r = Sha256GadgetParams::query_table1(&mut cs, &table, &key);
    assert!(matches!(r, Err(SynthesisError::TableDomain)));
    let small = cs.allocate(Some(2400));
    let r = Sha256GadgetParams::query_table1(&mut cs, &table, &small);
    // 2400 is the radix-7 number 6666: every digit maps to one
    assert!(matches!(r, Ok(AllocatedNum { value: Some(0b1111), .. })));
}

#[test]
fn query_table_binds_a_lookup_row() {
    let (mut cs, params) = setup(MajorityStrategy::UseTwoTables);
    let key = cs.allocate(Some(0b101));
    let table = params.sha256_base4_rot2_table;
    let (a, b) = Sha256GadgetParams::query_table2(&mut cs, &table, &key).unwrap();
    assert_eq!(a.value, Some(1 + 16));
    assert_eq!(b.value, Some(sparse(0b101u32.rotate_right(2), 4)));
    match cs.gates.last().unwrap() {
        Gate::Lookup { table: t, key: k, out0, out1 } => {
            assert_eq!((*t, *k, *out0, *out1), (table.index, key.variable, a.variable, b.variable));
        }
        _ => panic!("a lookup gate"),
    }
}

#[test]
fn catalog_sizes_by_strategy() {
    let (cs, p) = setup(MajorityStrategy::UseTwoTables);
    assert_eq!(cs.tables.len(), 8);
    assert!(p.sha256_base4_rot2_extr10_table.is_some());
    let (cs, p) = setup(MajorityStrategy::RawOverflowCheck);
    assert_eq!(cs.tables.len(), 7);
    assert!(p.sha256_base4_rot2_extr10_table.is_none());
    assert_eq!(p.ch_base_num_of_chunks, 4);
    assert_eq!(p.maj_base_num_of_chunks, 6);
}

#[test]
fn unsupported_chunk_count_is_refused() {
    let mut cs = ConstraintSystem::new();
    let r = Sha256GadgetParams::new(&mut cs, MajorityStrategy::UseTwoTables, Some(0), None);
    assert!(matches!(r, Err(SynthesisError::UnsupportedTable)));
    let r = Sha256GadgetParams::new(&mut cs, MajorityStrategy::UseTwoTables, None, Some(17));
    assert!(matches!(r, Err(SynthesisError::UnsupportedTable)));
    assert_eq!(cs.tables.len(), 0);
}

#[test]
fn registering_twice_is_refused() {
    let mut cs = ConstraintSystem::new();
    let first = Sha256GadgetParams::new(&mut cs, MajorityStrategy::RawOverflowCheck, Some(3), Some(5));
    assert!(first.is_ok());
    let again = Sha256GadgetParams::new(&mut cs, MajorityStrategy::RawOverflowCheck, Some(3), Some(5));
    assert!(matches!(again, Err(SynthesisError::DuplicateTable)));
    let other = Sha256GadgetParams::new(&mut cs, MajorityStrategy::UseTwoTables, Some(2), Some(4));
    assert!(matches!(other, Err(SynthesisError::DuplicateTable)));
    let mut fresh = ConstraintSystem::new();
    assert_eq!(
        fresh.add_table(TableKind::ChooseNormalization { chunks: 0 }),
        Err(SynthesisError::UnsupportedTable)
    );
}
