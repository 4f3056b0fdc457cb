use vstd::arithmetic::div_mod::{
    lemma_div_denominator,
    lemma_fundamental_div_mod_converse,
    lemma_mod_breakdown,
    lemma_mod_mod,
};
use vstd::prelude::*;

verus! {

/// `b` raised to the power `e`, over the naturals.
pub open spec fn pow_nat(b: nat, e: nat) -> nat
    decreases e,
{
    if e == 0 {
        1
    } else {
        b * pow_nat(b, (e - 1) as nat)
    }
}

/// How a single digit is mapped when a value is re-encoded digit by digit.
#[derive(Clone, Copy, PartialEq, Eq, Structural, Debug)]
pub enum DigitMap {
    /// Keeps the digit as it is.
    Identity,
    /// A radix-7 digit `e + 2f + 3g` (bits `e, f, g`) to the bit `Ch(e, f, g)`.
    Choose,
    /// A radix-4 digit `a + b + c` (bits `a, b, c`) to the bit `Maj(a, b, c)`.
    Majority,
    /// A digit to its parity: the exclusive or of the bits summed into it.
    Parity,
}

/// The image of digit `d` under `m`.
pub open spec fn map_digit(m: DigitMap, d: nat) -> nat {
    match m {
        DigitMap::Identity => d,
        DigitMap::Choose => if d == 3 || d == 5 || d == 6 { 1 } else { 0 },
        DigitMap::Majority => if d >= 2 { 1 } else { 0 },
        DigitMap::Parity => d % 2,
    }
}

/// Reads the lowest `len` digits of `x` in radix `from`, maps each through `m`
/// and writes the results as digits of radix `to`, in the same positions.
pub open spec fn recode(x: nat, from: nat, to: nat, m: DigitMap, len: nat) -> nat
    decreases len,
{
    if len == 0 || from == 0 {
        0
    } else {
        map_digit(m, x % from) + to * recode(x / from, from, to, m, (len - 1) as nat)
    }
}

/// The sparse form of a 32-bit word: its binary digits, read as digits of `base`.
pub open spec fn sparse(n: nat, base: nat) -> nat {
    recode(n, 2, base, DigitMap::Identity, 32)
}

/// A sparse value read back: each radix-`base` digit taken as one bit.
pub open spec fn decode_sparse(s: nat, base: nat) -> nat {
    recode(s, base, 2, DigitMap::Identity, 32)
}

/// The normalization of a sparse accumulator over `len` digits.
pub open spec fn normalized(x: nat, base: nat, m: DigitMap, len: nat) -> nat {
    recode(x, base, 2, m, len)
}

/// Right rotation of the 32-bit word `n` by `r` bits.
pub open spec fn rotr(n: nat, r: nat) -> nat {
    n / pow_nat(2, r) + (n % pow_nat(2, r)) * pow_nat(2, (32 - r) as nat)
}

/// `Ch(e, f, g) = (e & f) ^ (!e & g)` on 32-bit words.
pub open spec fn ch_word(e: u32, f: u32, g: u32) -> u32 {
    (e & f) ^ (!e & g)
}

/// `Maj(a, b, c) = (a & b) ^ (a & c) ^ (b & c)` on 32-bit words.
pub open spec fn maj_word(a: u32, b: u32, c: u32) -> u32 {
    (a & b) ^ (a & c) ^ (b & c)
}

/// Powers of a positive base are positive.
pub proof fn lemma_pow_positive(b: nat, e: nat)
    requires
        b >= 1,
    ensures
        pow_nat(b, e) >= 1,
    decreases e,
{
    if e > 0 {
        lemma_pow_positive(b, (e - 1) as nat);
        assert(b * pow_nat(b, (e - 1) as nat) >= 1) by (nonlinear_arith)
            requires
                b >= 1,
                pow_nat(b, (e - 1) as nat) >= 1,
        ;
    }
}

/// `b^(e1 + e2) = b^e1 · b^e2`.
pub proof fn lemma_pow_adds(b: nat, e1: nat, e2: nat)
    ensures
        pow_nat(b, e1 + e2) == pow_nat(b, e1) * pow_nat(b, e2),
    decreases e1,
{
    if e1 > 0 {
        let p = (e1 - 1) as nat;
        lemma_pow_adds(b, p, e2);
        assert(pow_nat(b, e1) == b * pow_nat(b, p));
        assert(pow_nat(b, e1 + e2) == b * pow_nat(b, p + e2));
        assert(b * (pow_nat(b, p) * pow_nat(b, e2)) == (b * pow_nat(b, p)) * pow_nat(b, e2))
            by (nonlinear_arith);
    } else {
        assert(pow_nat(b, e1) == 1);
        assert(1 * pow_nat(b, e2) == pow_nat(b, e2));
    }
}

/// Powers of a positive base grow with the exponent.
pub proof fn lemma_pow_increases(b: nat, e1: nat, e2: nat)
    requires
        b >= 1,
        e1 <= e2,
    ensures
        pow_nat(b, e1) <= pow_nat(b, e2),
    decreases e2,
{
    if e1 < e2 {
        let p = (e2 - 1) as nat;
        lemma_pow_increases(b, e1, p);
        lemma_pow_positive(b, p);
        assert(pow_nat(b, p) <= b * pow_nat(b, p)) by (nonlinear_arith)
            requires
                b >= 1,
                pow_nat(b, p) >= 1,
        ;
    }
}

/// Splitting the digits at position `a`: the low `a` digits and the next `c`
/// digits are re-encoded independently.
pub proof fn lemma_recode_split(x: nat, from: nat, to: nat, m: DigitMap, a: nat, c: nat)
    requires
        from > 0,
    ensures
        recode(x, from, to, m, a + c) == recode(x % pow_nat(from, a), from, to, m, a) + pow_nat(
            to,
            a,
        ) * recode(x / pow_nat(from, a), from, to, m, c),
    decreases a,
{
    lemma_pow_positive(from, a);
    if a > 0 {
        let p = (a - 1) as nat;
        let fp = pow_nat(from, p);
        lemma_pow_positive(from, p);
        lemma_recode_split(x / from, from, to, m, p, c);
        lemma_mod_mod(x as int, from as int, fp as int);
        lemma_mod_breakdown(x as int, from as int, fp as int);
        lemma_div_denominator(x as int, from as int, fp as int);
        let lo = x % (from * fp);
        assert(lo == from * ((x / from) % fp) + x % from);
        let qq = (x / from) % fp;
        assert(from * qq == qq * from) by (nonlinear_arith);
        lemma_fundamental_div_mod_converse(
            lo as int,
            from as int,
            ((x / from) % fp) as int,
            (x % from) as int,
        );
        assert(lo / from == (x / from) % fp) by (nonlinear_arith)
            requires
                lo as int / from as int == ((x / from) % fp) as int,
        ;
        let ra = recode((x / from) % fp, from, to, m, p);
        let rb = recode(x / from / fp, from, to, m, c);
        assert(to * (ra + pow_nat(to, p) * rb) == to * ra + (to * pow_nat(to, p)) * rb)
            by (nonlinear_arith);
        assert(recode(x, from, to, m, a + c) == map_digit(m, x % from) + to * recode(
            x / from,
            from,
            to,
            m,
            p + c,
        ));
    } else {
        assert(x % 1 == 0);
        assert(x / 1 == x);
        assert(pow_nat(to, 0) == 1);
        let r = recode(x, from, to, m, c);
        assert(1 * r == r);
    }
}

/// Only the lowest `len` digits take part in a re-encoding of `len` digits.
pub proof fn lemma_recode_low_digits(x: nat, from: nat, to: nat, m: DigitMap, len: nat)
    requires
        from > 0,
    ensures
        recode(x, from, to, m, len) == recode(x % pow_nat(from, len), from, to, m, len),
{
    lemma_pow_positive(from, len);
    let q = x / pow_nat(from, len);
    let t = pow_nat(to, len);
    assert(recode(q, from, to, m, 0) == 0);
    assert(t * recode(q, from, to, m, 0) == 0) by (nonlinear_arith)
        requires
            recode(q, from, to, m, 0) == 0,
    ;
    lemma_recode_split(x, from, to, m, len, 0);
    assert(len + 0 == len);
}

/// A re-encoding whose digit map sends radix-`from` digits below `to` stays below
/// `to` to the power `len`.
pub proof fn lemma_recode_bound(x: nat, from: nat, to: nat, m: DigitMap, len: nat)
    requires
        from > 0,
        to >= 1,
        forall|d: nat| d < from ==> #[trigger] map_digit(m, d) < to,
    ensures
        recode(x, from, to, m, len) < pow_nat(to, len),
    decreases len,
{
    if len > 0 {
        let p = (len - 1) as nat;
        lemma_recode_bound(x / from, from, to, m, p);
        let d = map_digit(m, x % from);
        assert(d < to);
        let r = recode(x / from, from, to, m, p);
        assert(d + to * r < to * pow_nat(to, p)) by (nonlinear_arith)
            requires
                d < to,
                r < pow_nat(to, p),
        ;
    }
}

/// Digits beyond the value's length read as zeros and change nothing.
pub proof fn lemma_recode_extra_digits(x: nat, from: nat, to: nat, m: DigitMap, len: nat, extra: nat)
    requires
        from > 0,
        x < pow_nat(from, len),
        map_digit(m, 0) == 0,
    ensures
        recode(x, from, to, m, len + extra) == recode(x, from, to, m, len),
{
    lemma_recode_split(x, from, to, m, len, extra);
    lemma_pow_positive(from, len);
    assert(x % pow_nat(from, len) == x) by {
        vstd::arithmetic::div_mod::lemma_small_mod(x, pow_nat(from, len));
    }
    assert(x / pow_nat(from, len) == 0) by {
        vstd::arithmetic::div_mod::lemma_basic_div(x as int, pow_nat(from, len) as int);
    }
    lemma_recode_zero(from, to, m, extra);
}

/// Zero re-encodes to zero when the digit map keeps zero.
pub proof fn lemma_recode_zero(from: nat, to: nat, m: DigitMap, len: nat)
    requires
        map_digit(m, 0) == 0,
    ensures
        recode(0, from, to, m, len) == 0,
    decreases len,
{
    if len > 0 && from > 0 {
        let z: nat = 0;
        assert(z % from == 0 && z / from == 0);
        lemma_recode_zero(from, to, m, (len - 1) as nat);
        assert(recode(z, from, to, m, len) == map_digit(m, z % from) + to * recode(
            z / from,
            from,
            to,
            m,
            (len - 1) as nat,
        ));
    }
}

/// Reading a sparse value back digit by digit gives the binary value it was made from.
pub proof fn lemma_sparse_round_trip(n: nat, base: nat, len: nat)
    requires
        base >= 2,
    ensures
        recode(recode(n, 2, base, DigitMap::Identity, len), base, 2, DigitMap::Identity, len) == n
            % pow_nat(2, len),
    decreases len,
{
    lemma_pow_positive(2, len);
    if len == 0 {
        assert(n % 1 == 0);
    } else {
        let p = (len - 1) as nat;
        lemma_pow_positive(2, p);
        let s_rest = recode(n / 2, 2, base, DigitMap::Identity, p);
        let s = recode(n, 2, base, DigitMap::Identity, len);
        assert(s == n % 2 + base * s_rest);
        assert(s == s_rest * base + n % 2) by (nonlinear_arith)
            requires
                s == n % 2 + base * s_rest,
        ;
        lemma_fundamental_div_mod_converse(s as int, base as int, s_rest as int, (n % 2) as int);
        lemma_sparse_round_trip(n / 2, base, p);
        lemma_mod_breakdown(n as int, 2, pow_nat(2, p) as int);
    }
}

/// Rotation keeps a word within 32 bits.
pub proof fn lemma_rotr_bound(n: nat, r: nat)
    requires
        n < pow_nat(2, 32),
        r <= 32,
    ensures
        rotr(n, r) < pow_nat(2, 32),
{
    let p = pow_nat(2, r);
    let q = pow_nat(2, (32 - r) as nat);
    lemma_pow_adds(2, r, (32 - r) as nat);
    lemma_pow_positive(2, r);
    lemma_pow_positive(2, (32 - r) as nat);
    assert(p * q == pow_nat(2, 32));
    vstd::arithmetic::div_mod::lemma_multiply_divide_lt(n as int, p as int, q as int);
    let hi = n / p;
    let lo = n % p;
    assert(hi + lo * q < p * q) by (nonlinear_arith)
        requires
            hi < q,
            lo < p,
            lo >= 0,
    ;
}

/// Digit-wise Choose: the radix-7 sum `e + 2f + 3g` of three sparse words
/// normalizes to `Ch(e, f, g)`.
pub proof fn lemma_choose_digits(e: u32, f: u32, g: u32, len: nat)
    requires
        len <= 32,
        (e as nat) < pow_nat(2, len),
        (f as nat) < pow_nat(2, len),
        (g as nat) < pow_nat(2, len),
    ensures
        ({
            let s = recode(e as nat, 2, 7, DigitMap::Identity, len) + 2 * recode(
                f as nat,
                2,
                7,
                DigitMap::Identity,
                len,
            ) + 3 * recode(g as nat, 2, 7, DigitMap::Identity, len);
            &&& s < pow_nat(7, len)
            &&& recode(s, 7, 2, DigitMap::Choose, len) == ch_word(e, f, g) as nat
        }),
    decreases len,
{
    if len == 0 {
        assert(e == 0 && f == 0 && g == 0);
        assert(ch_word(0, 0, 0) == 0) by (bit_vector);
    } else {
        let p = (len - 1) as nat;
        lemma_pow_positive(2, p);
        let (e2, f2, g2) = (e / 2, f / 2, g / 2);
        assert(e2 < pow_nat(2, p) && f2 < pow_nat(2, p) && g2 < pow_nat(2, p));
        lemma_choose_digits(e2, f2, g2, p);
        let se = recode(e2 as nat, 2, 7, DigitMap::Identity, p);
        let sf = recode(f2 as nat, 2, 7, DigitMap::Identity, p);
        let sg = recode(g2 as nat, 2, 7, DigitMap::Identity, p);
        let rest = se + 2 * sf + 3 * sg;
        let d: nat = ((e % 2) + 2 * (f % 2) + 3 * (g % 2)) as nat;
        let s = recode(e as nat, 2, 7, DigitMap::Identity, len) + 2 * recode(
            f as nat,
            2,
            7,
            DigitMap::Identity,
            len,
        ) + 3 * recode(g as nat, 2, 7, DigitMap::Identity, len);
        assert(s == rest * 7 + d);
        assert(d < 7);
        assert(s < pow_nat(7, len)) by (nonlinear_arith)
            requires
                s == rest * 7 + d,
                d < 7,
                rest < pow_nat(7, p),
                pow_nat(7, len) == 7 * pow_nat(7, p),
        ;
        lemma_fundamental_div_mod_converse(s as int, 7, rest as int, d as int);
        let w = ch_word(e, f, g);
        assert(w % 2 == if e % 2 == 1 { f % 2 } else { g % 2 }) by (bit_vector)
            requires
                w == ch_word(e, f, g),
        ;
        assert(w / 2 == ch_word(e2, f2, g2)) by (bit_vector)
            requires
                w == ch_word(e, f, g),
                e2 == e / 2,
                f2 == f / 2,
                g2 == g / 2,
        ;
        assert(map_digit(DigitMap::Choose, d) == w % 2);
    }
}

/// Digit-wise Majority: the radix-4 sum `a + b + c` of three sparse words
/// normalizes to `Maj(a, b, c)`.
pub proof fn lemma_majority_digits(a: u32, b: u32, c: u32, len: nat)
    requires
        len <= 32,
        (a as nat) < pow_nat(2, len),
        (b as nat) < pow_nat(2, len),
        (c as nat) < pow_nat(2, len),
    ensures
        ({
            let s = recode(a as nat, 2, 4, DigitMap::Identity, len) + recode(
                b as nat,
                2,
                4,
                DigitMap::Identity,
                len,
            ) + recode(c as nat, 2, 4, DigitMap::Identity, len);
            &&& s < pow_nat(4, len)
            &&& recode(s, 4, 2, DigitMap::Majority, len) == maj_word(a, b, c) as nat
        }),
    decreases len,
{
    if len == 0 {
        assert(a == 0 && b == 0 && c == 0);
        assert(maj_word(0, 0, 0) == 0) by (bit_vector);
    } else {
        let p = (len - 1) as nat;
        lemma_pow_positive(2, p);
        let (a2, b2, c2) = (a / 2, b / 2, c / 2);
        assert(a2 < pow_nat(2, p) && b2 < pow_nat(2, p) && c2 < pow_nat(2, p));
        lemma_majority_digits(a2, b2, c2, p);
        let sa = recode(a2 as nat, 2, 4, DigitMap::Identity, p);
        let sb = recode(b2 as nat, 2, 4, DigitMap::Identity, p);
        let sc = recode(c2 as nat, 2, 4, DigitMap::Identity, p);
        let rest = sa + sb + sc;
        let d: nat = ((a % 2) + (b % 2) + (c % 2)) as nat;
        let s = recode(a as nat, 2, 4, DigitMap::Identity, len) + recode(
            b as nat,
            2,
            4,
            DigitMap::Identity,
            len,
        ) + recode(c as nat, 2, 4, DigitMap::Identity, len);
        assert(s == rest * 4 + d);
        assert(s < pow_nat(4, len)) by (nonlinear_arith)
            requires
                s == rest * 4 + d,
                d < 4,
                rest < pow_nat(4, p),
                pow_nat(4, len) == 4 * pow_nat(4, p),
        ;
        lemma_fundamental_div_mod_converse(s as int, 4, rest as int, d as int);
        let w = maj_word(a, b, c);
        assert(w % 2 == if (a % 2) + (b % 2) + (c % 2) >= 2 { 1u32 } else { 0u32 }) by (bit_vector)
            requires
                w == maj_word(a, b, c),
        ;
        assert(w / 2 == maj_word(a2, b2, c2)) by (bit_vector)
            requires
                w == maj_word(a, b, c),
                a2 == a / 2,
                b2 == b / 2,
                c2 == c / 2,
        ;
    }
}

/// Powers grow with the base.
pub proof fn lemma_pow_base_increases(b1: nat, b2: nat, e: nat)
    requires
        b1 <= b2,
    ensures
        pow_nat(b1, e) <= pow_nat(b2, e),
    decreases e,
{
    if e > 0 {
        let p = (e - 1) as nat;
        lemma_pow_base_increases(b1, b2, p);
        let (x1, x2) = (pow_nat(b1, p), pow_nat(b2, p));
        assert(b1 * x1 <= b2 * x2) by (nonlinear_arith)
            requires
                b1 <= b2,
                x1 <= x2,
        ;
    }
}

/// The largest power this library forms: every radix is at most 7 and every
/// exponent at most 32.
pub proof fn lemma_pow_fits(b: nat, e: nat)
    requires
        b <= 7,
        e <= 32,
    ensures
        pow_nat(b, e) <= pow_nat(7, 32),
        pow_nat(7, 32) == 1104427674243920646305299201,
        pow_nat(2, 32) == 0x1_0000_0000,
{
    reveal_with_fuel(pow_nat, 33);
    lemma_pow_base_increases(b, 7, e);
    lemma_pow_increases(7, e, 32);
}

/// Rotation by zero keeps a word.
pub proof fn lemma_rotr_zero(n: nat)
    ensures
        rotr(n, 0) == n,
{
    assert(pow_nat(2, 0) == 1);
    assert(n / 1 == n && n % 1 == 0) by (nonlinear_arith);
}

/// The powers of two that bound register values, and every power this
/// library forms fits in 128 bits.
pub proof fn lemma_register_bounds()
    ensures
        pow_nat(2, 11) == 0x800,
        pow_nat(2, 32) == 0x1_0000_0000,
        pow_nat(2, 33) == 0x2_0000_0000,
        pow_nat(2, 36) == 0x10_0000_0000,
        forall|b: nat, e: nat| b <= 7 && e <= 32 ==> #[trigger] pow_nat(b, e) <= u128::MAX,
{
    reveal_with_fuel(pow_nat, 12);
    lemma_pow_fits(2, 32);
    lemma_pow_adds(2, 32, 1);
    lemma_pow_adds(2, 32, 4);
    assert forall|b: nat, e: nat| b <= 7 && e <= 32 implies #[trigger] pow_nat(b, e) <= u128::MAX by {
        lemma_pow_fits(b, e);
    }
}

/// A sparse form splits at bit `k` into the sparse forms of the two parts.
pub proof fn lemma_sparse_split(n: nat, base: nat, k: nat)
    requires
        n < pow_nat(2, 32),
        k <= 32,
    ensures
        sparse(n, base) == sparse(n % pow_nat(2, k), base) + pow_nat(base, k) * sparse(
            n / pow_nat(2, k),
            base,
        ),
{
    let rest = (32 - k) as nat;
    lemma_pow_positive(2, k);
    lemma_pow_positive(2, rest);
    lemma_pow_adds(2, k, rest);
    lemma_recode_split(n, 2, base, DigitMap::Identity, k, rest);
    let lo = n % pow_nat(2, k);
    let hi = n / pow_nat(2, k);
    vstd::arithmetic::div_mod::lemma_multiply_divide_lt(
        n as int,
        pow_nat(2, k) as int,
        pow_nat(2, rest) as int,
    );
    lemma_recode_extra_digits(lo, 2, base, DigitMap::Identity, k, rest);
    lemma_recode_extra_digits(hi, 2, base, DigitMap::Identity, rest, k);
    assert(k + rest == 32 && rest + k == 32);
}

/// Placing `b` above the `k` bits of `a` places its sparse form above
/// `k` digits.
pub proof fn lemma_sparse_concat(a: nat, b: nat, base: nat, k: nat)
    requires
        k <= 32,
        a < pow_nat(2, k),
        a + pow_nat(2, k) * b < pow_nat(2, 32),
    ensures
        sparse(a + pow_nat(2, k) * b, base) == sparse(a, base) + pow_nat(base, k) * sparse(b, base),
{
    let p = pow_nat(2, k);
    let n = a + p * b;
    lemma_pow_positive(2, k);
    lemma_sparse_split(n, base, k);
    assert(n == b * p + a) by (nonlinear_arith)
        requires
            n == a + p * b,
    ;
    lemma_fundamental_div_mod_converse(n as int, p as int, b as int, a as int);
}

/// The sparse form of a rotation: the high part comes down, the low part goes up.
pub proof fn lemma_sparse_rotr(n: nat, base: nat, r: nat)
    requires
        n < pow_nat(2, 32),
        r <= 32,
    ensures
        sparse(rotr(n, r), base) == sparse(n / pow_nat(2, r), base) + pow_nat(base, (32 - r) as nat)
            * sparse(n % pow_nat(2, r), base),
{
    let k = (32 - r) as nat;
    lemma_pow_positive(2, r);
    lemma_pow_positive(2, k);
    lemma_pow_adds(2, r, k);
    vstd::arithmetic::div_mod::lemma_multiply_divide_lt(n as int, pow_nat(2, r) as int, pow_nat(2, k) as int);
    lemma_rotr_bound(n, r);
    let hi = n / pow_nat(2, r);
    let lo = n % pow_nat(2, r);
    assert(hi + lo * pow_nat(2, k) == hi + pow_nat(2, k) * lo) by (nonlinear_arith);
    lemma_sparse_concat(hi, lo, base, k);
}

} // verus!
