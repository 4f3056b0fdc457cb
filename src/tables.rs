use crate::gadget::Sha256GadgetParams;
use crate::radix::{
    lemma_pow_adds,
    lemma_pow_fits,
    lemma_pow_increases,
    lemma_pow_positive,
    lemma_recode_bound,
    lemma_rotr_bound,
    lemma_rotr_zero,
    map_digit,
    normalized,
    pow_nat,
    recode,
    rotr,
    sparse,
    DigitMap,
};
use vstd::prelude::*;

verus! {

/// Radix of the sparse form used on the Choose path.
pub const SHA256_CHOOSE_BASE: u64 = 7;

/// Radix of the sparse form used on the Majority path.
pub const SHA256_MAJORITY_BASE: u64 = 4;

/// Largest number of digits that one normalization table covers.
pub const MAX_NORMALIZATION_CHUNKS: u64 = 16;

/// Errors surfaced while a circuit is built.
#[derive(Clone, Copy, PartialEq, Eq, Structural, Debug)]
pub enum SynthesisError {
    /// A key lies outside the declared domain of the table it is looked up in.
    TableDomain,
    /// A table with the same contents is already registered.
    DuplicateTable,
    /// A table whose parameters this gadget cannot build.
    UnsupportedTable,
}

/// The contents of a lookup table, given by the function it tabulates.
#[derive(Clone, Copy, PartialEq, Eq, Structural, Debug)]
pub enum TableKind {
    /// Keys are `bits`-bit chunks. The chunk is first cut to its low `extraction`
    /// bits (when `extraction > 0`); the two outputs are the sparse form of that
    /// and the sparse form of its 32-bit right rotation by `rotation`.
    SparseRotate { bits: u64, rotation: u64, extraction: u64, base: u64 },
    /// Keys are `chunks` radix-7 digits; each digit goes through the Choose map.
    ChooseNormalization { chunks: u64 },
    /// Keys are `chunks` radix-4 digits; each digit goes through the Majority map.
    MajorityNormalization { chunks: u64 },
    /// Keys are `chunks` radix-`base` digits; each digit goes to its parity.
    XorNormalization { base: u64, chunks: u64 },
}

/// The low `extraction` bits of `x`, or `x` itself when `extraction` is zero.
pub open spec fn extract(x: nat, extraction: nat) -> nat {
    if extraction > 0 {
        x % pow_nat(2, extraction)
    } else {
        x
    }
}

impl TableKind {
    /// Parameters under which the table is well defined and its values fit.
    pub open spec fn supported(self) -> bool {
        match self {
            TableKind::SparseRotate { bits, rotation, extraction, base } => 1 <= bits <= 32
                && rotation < 32 && extraction <= 32 && 2 <= base <= 7,
            TableKind::ChooseNormalization { chunks } => 1 <= chunks <= MAX_NORMALIZATION_CHUNKS,
            TableKind::MajorityNormalization { chunks } => 1 <= chunks
                <= MAX_NORMALIZATION_CHUNKS,
            TableKind::XorNormalization { base, chunks } => 2 <= base <= 7 && 1 <= chunks
                <= MAX_NORMALIZATION_CHUNKS,
        }
    }

    /// Number of keys: the keys are `0 .. domain_size()`.
    pub open spec fn domain_size(self) -> nat {
        match self {
            TableKind::SparseRotate { bits, .. } => pow_nat(2, bits as nat),
            TableKind::ChooseNormalization { chunks } => pow_nat(7, chunks as nat),
            TableKind::MajorityNormalization { chunks } => pow_nat(4, chunks as nat),
            TableKind::XorNormalization { base, chunks } => pow_nat(base as nat, chunks as nat),
        }
    }

    /// Number of outputs per key.
    pub open spec fn arity(self) -> nat {
        match self {
            TableKind::SparseRotate { .. } => 2,
            _ => 1,
        }
    }

    /// The outputs for `key`; a table of one output has zero in the second place.
    pub open spec fn output(self, key: nat) -> (nat, nat) {
        match self {
            TableKind::SparseRotate { bits, rotation, extraction, base } => {
                let v = extract(key, extraction as nat);
                (sparse(v, base as nat), sparse(rotr(v, rotation as nat), base as nat))
            },
            TableKind::ChooseNormalization { chunks } => (
                normalized(key, 7, DigitMap::Choose, chunks as nat),
                0,
            ),
            TableKind::MajorityNormalization { chunks } => (
                normalized(key, 4, DigitMap::Majority, chunks as nat),
                0,
            ),
            TableKind::XorNormalization { base, chunks } => (
                normalized(key, base as nat, DigitMap::Parity, chunks as nat),
                0,
            ),
        }
    }

    /// Whether the parameters are supported.
    pub fn is_supported(&self) -> (r: bool)
        ensures
            r == self.supported(),
    {
        match *self {
            TableKind::SparseRotate { bits, rotation, extraction, base } => 1 <= bits && bits <= 32
                && rotation < 32 && extraction <= 32 && 2 <= base && base <= 7,
            TableKind::ChooseNormalization { chunks } => 1 <= chunks && chunks
                <= MAX_NORMALIZATION_CHUNKS,
            TableKind::MajorityNormalization { chunks } => 1 <= chunks && chunks
                <= MAX_NORMALIZATION_CHUNKS,
            TableKind::XorNormalization { base, chunks } => 2 <= base && base <= 7 && 1 <= chunks
                && chunks <= MAX_NORMALIZATION_CHUNKS,
        }
    }
}

impl DigitMap {
    /// Maps one digit.
    pub fn apply(&self, d: u64) -> (r: u64)
        ensures
            r == map_digit(*self, d as nat),
    {
        match *self {
            DigitMap::Identity => d,
            DigitMap::Choose => if d == 3 || d == 5 || d == 6 {
                1
            } else {
                0
            },
            DigitMap::Majority => if d >= 2 {
                1
            } else {
                0
            },
            DigitMap::Parity => d % 2,
        }
    }
}

/// Cuts a 32-bit value to its low `extraction` bits (none when zero), then
/// rotates the result right by `rotation` as a 32-bit word.
pub fn rotate_extract(value: u64, rotation: u64, extraction: u64) -> (r: u64)
    requires
        value < 0x1_0000_0000u64,
        rotation < 32,
        extraction <= 32,
    ensures
        r == rotr(extract(value as nat, extraction as nat), rotation as nat),
        r < 0x1_0000_0000u64,
{
    proof {
        lemma_pow_fits(2, extraction as nat);
        lemma_pow_fits(2, rotation as nat);
        lemma_pow_fits(2, (32 - rotation) as nat);
        lemma_pow_positive(2, extraction as nat);
        lemma_pow_positive(2, rotation as nat);
        lemma_pow_increases(2, extraction as nat, 32);
        lemma_pow_increases(2, rotation as nat, 32);
        lemma_pow_increases(2, (32 - rotation) as nat, 32);
    }
    let temp: u64 = if extraction > 0 {
        let modulus = Sha256GadgetParams::u64_exp_to_ff(2, extraction) as u64;
        value % modulus
    } else {
        value
    };
    assert(temp == extract(value as nat, extraction as nat));
    assert(temp < 0x1_0000_0000u64);
    proof {
        lemma_rotr_bound(temp as nat, rotation as nat);
    }
    if rotation == 0 {
        assert((temp as nat) / 1 == (temp as nat) && (temp as nat) % 1 == 0) by (nonlinear_arith);
        assert(pow_nat(2, 0) == 1);
        temp
    } else {
        let p = Sha256GadgetParams::u64_exp_to_ff(2, rotation) as u64;
        let q = Sha256GadgetParams::u64_exp_to_ff(2, 32 - rotation) as u64;
        let hi = temp / p;
        let lo = temp % p;
        assert(hi + lo * q < 0x1_0000_0000u64);
        hi + lo * q
    }
}

/// The sparse form of a 32-bit value: its binary digits read in radix `base`.
/// Radix zero stands for no conversion.
pub fn map_into_sparse_form(input: u64, base: u64) -> (r: u128)
    requires
        input < 0x1_0000_0000u64,
        base == 0 || 2 <= base <= 7,
    ensures
        base == 0 ==> r == input,
        base != 0 ==> r == sparse(input as nat, base as nat),
{
    if base == 0 {
        return input as u128;
    }
    let ghost total = sparse(input as nat, base as nat);
    proof {
        lemma_recode_bound(input as nat, 2, base as nat, DigitMap::Identity, 32);
        lemma_pow_fits(base as nat, 32);
    }
    let mut acc: u128 = 0;
    let mut power: u128 = 1;
    let mut cur: u64 = input;
    let mut i: u64 = 0;
    while i < 32
        invariant
            2 <= base <= 7,
            i <= 32,
            power == pow_nat(base as nat, i as nat),
            acc + power * recode(cur as nat, 2, base as nat, DigitMap::Identity, (32 - i) as nat)
                == total,
            total < pow_nat(base as nat, 32),
            pow_nat(base as nat, 32) <= pow_nat(7, 32),
            pow_nat(7, 32) == 1104427674243920646305299201,
        decreases 32 - i,
    {
        let ghost rest = recode(cur as nat / 2, 2, base as nat, DigitMap::Identity, (31 - i) as nat);
        let bit: u128 = (cur % 2) as u128;
        proof {
            assert(recode(cur as nat, 2, base as nat, DigitMap::Identity, (32 - i) as nat) == bit
                + base * rest);
            lemma_pow_increases(base as nat, (i + 1) as nat, 32);
            lemma_pow_positive(base as nat, i as nat);
            assert(pow_nat(base as nat, (i + 1) as nat) == base * power);
            assert(acc + power * (bit + base * rest) == (acc + power * bit) + (power * base) * rest)
                by (nonlinear_arith);
            assert(power * bit <= power) by (nonlinear_arith)
                requires
                    bit <= 1,
            ;
            assert(0 <= (power * base) * rest) by (nonlinear_arith)
                requires
                    rest >= 0,
                    power >= 0,
                    base >= 0,
            ;
            assert(power * base == base * power) by (nonlinear_arith);
        }
        acc = acc + power * bit;
        power = power * (base as u128);
        cur = cur / 2;
        i = i + 1;
    }
    assert(recode(cur as nat, 2, base as nat, DigitMap::Identity, 0) == 0);
    assert(power * 0 == 0) by (nonlinear_arith);
    acc
}

/// Re-encodes the lowest `len` radix-`base` digits of `key` as bits, each
/// digit mapped through `m`.
pub fn normalize_digits(key: u128, base: u64, m: DigitMap, len: u64) -> (r: u128)
    requires
        2 <= base <= 7,
        len <= 64,
        m != DigitMap::Identity,
    ensures
        r == normalized(key as nat, base as nat, m, len as nat),
        r < pow_nat(2, len as nat),
{
    let ghost total = recode(key as nat, base as nat, 2, m, len as nat);
    proof {
        assert forall|d: nat| d < base implies #[trigger] map_digit(m, d) < 2 by {}
        lemma_recode_bound(key as nat, base as nat, 2, m, len as nat);
        lemma_pow_increases(2, len as nat, 64);
        lemma_pow_fits(2, 32);
        lemma_pow_adds(2, 32, 32);
    }
    let mut acc: u128 = 0;
    let mut power: u128 = 1;
    let mut cur: u128 = key;
    let mut i: u64 = 0;
    while i < len
        invariant
            2 <= base <= 7,
            i <= len <= 64,
            m != DigitMap::Identity,
            power == pow_nat(2, i as nat),
            acc + power * recode(cur as nat, base as nat, 2, m, (len - i) as nat) == total,
            total < pow_nat(2, len as nat),
            pow_nat(2, len as nat) <= pow_nat(2, 64),
            pow_nat(2, 64) == 0x1_0000_0000 * 0x1_0000_0000,
        decreases len - i,
    {
        let ghost rest = recode(cur as nat / base as nat, base as nat, 2, m, (len - i - 1) as nat);
        let digit = m.apply((cur % (base as u128)) as u64) as u128;
        proof {
            assert(recode(cur as nat, base as nat, 2, m, (len - i) as nat) == digit + 2 * rest);
            assert(digit <= 1);
            lemma_pow_increases(2, (i + 1) as nat, len as nat);
            assert(acc + power * (digit + 2 * rest) == (acc + power * digit) + (power * 2) * rest)
                by (nonlinear_arith);
            assert(power * digit <= power) by (nonlinear_arith)
                requires
                    digit <= 1,
            ;
            assert(0 <= (power * 2) * rest) by (nonlinear_arith)
                requires
                    rest >= 0,
                    power >= 0,
            ;
        }
        acc = acc + power * digit;
        power = power * 2;
        cur = cur / (base as u128);
        i = i + 1;
    }
    assert(recode(cur as nat, base as nat, 2, m, 0) == 0);
    assert(power * 0 == 0) by (nonlinear_arith);
    acc
}

impl TableKind {
    /// Looks `key` up: both outputs when the key is in the domain, an error otherwise.
    pub fn query(&self, key: u128) -> (r: Result<(u128, u128), SynthesisError>)
        requires
            self.supported(),
        ensures
            match r {
                Ok((a, b)) => key < self.domain_size() && a == self.output(key as nat).0 && b
                    == self.output(key as nat).1,
                Err(e) => key >= self.domain_size() && e == SynthesisError::TableDomain,
            },
    {
        match *self {
            TableKind::SparseRotate { bits, rotation, extraction, base } => {
                proof {
                    lemma_pow_fits(2, bits as nat);
                    lemma_pow_increases(2, bits as nat, 32);
                }
                let size = Sha256GadgetParams::u64_exp_to_ff(2, bits);
                if key >= size {
                    return Err(SynthesisError::TableDomain);
                }
                let k = key as u64;
                let plain = rotate_extract(k, 0, extraction);
                proof {
                    lemma_rotr_zero(extract(k as nat, extraction as nat));
                }
                let rotated = rotate_extract(k, rotation, extraction);
                Ok((map_into_sparse_form(plain, base), map_into_sparse_form(rotated, base)))
            },
            TableKind::ChooseNormalization { chunks } => {
                proof {
                    lemma_pow_fits(7, chunks as nat);
                }
                let size = Sha256GadgetParams::u64_exp_to_ff(7, chunks);
                if key >= size {
                    return Err(SynthesisError::TableDomain);
                }
                Ok((normalize_digits(key, 7, DigitMap::Choose, chunks), 0))
            },
            TableKind::MajorityNormalization { chunks } => {
                proof {
                    lemma_pow_fits(4, chunks as nat);
                }
                let size = Sha256GadgetParams::u64_exp_to_ff(4, chunks);
                if key >= size {
                    return Err(SynthesisError::TableDomain);
                }
                Ok((normalize_digits(key, 4, DigitMap::Majority, chunks), 0))
            },
            TableKind::XorNormalization { base, chunks } => {
                proof {
                    lemma_pow_fits(base as nat, chunks as nat);
                }
                let size = Sha256GadgetParams::u64_exp_to_ff(base, chunks);
                if key >= size {
                    return Err(SynthesisError::TableDomain);
                }
                Ok((normalize_digits(key, base, DigitMap::Parity, chunks), 0))
            },
        }
    }
}

} // verus!
