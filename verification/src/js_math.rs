//! Integer side of the IEEE-754 binary64 word access used by the
//! fdlibm-derived `pow`: a double is handled here through its 64-bit
//! pattern, split into a signed high word and an unsigned low word.
use vstd::prelude::*;

verus! {

/// The high 32 bits of a binary64 pattern, read as a signed word.
pub open spec fn high_word(bits: u64) -> i32 {
    (bits >> 32u64) as u32 as i32
}

/// The low 32 bits of a binary64 pattern.
pub open spec fn low_word(bits: u64) -> u32 {
    (bits & 0xFFFF_FFFFu64) as u32
}

/// The binary64 pattern whose high word is `hi` and whose low word is `lo`.
pub open spec fn join_words(hi: i32, lo: u32) -> u64 {
    ((hi as u32 as u64) << 32u64) | (lo as u64)
}

/// Splits a binary64 pattern into its high and low words.
pub fn extract_words(bits: u64) -> (words: (i32, u32))
    ensures
        words.0 == high_word(bits),
        words.1 == low_word(bits),
        join_words(words.0, words.1) == bits,
{
    let hi: i32 = (bits >> 32u64) as u32 as i32;
    let lo: u32 = (bits & 0xFFFF_FFFFu64) as u32;
    proof {
        lemma_join_of_words(bits);
    }
    (hi, lo)
}

/// Reads the high word of a binary64 pattern.
pub fn get_high_word(bits: u64) -> (hi: i32)
    ensures
        hi == high_word(bits),
{
    (bits >> 32u64) as u32 as i32
}

/// Replaces the high word of a binary64 pattern, keeping its low word.
pub fn set_high_word(bits: u64, v: i32) -> (r: u64)
    ensures
        r == join_words(v, low_word(bits)),
        high_word(r) == v,
        low_word(r) == low_word(bits),
{
    let mut b: u64 = bits & 0x0000_0000_FFFF_FFFFu64;
    b = b | ((v as u32 as u64) << 32u64);
    assert((bits & 0x0000_0000_FFFF_FFFFu64) | ((v as u32 as u64) << 32u64) == (((v as u32
        as u64) << 32u64) | ((bits & 0xFFFF_FFFFu64) as u32 as u64))) by (bit_vector);
    proof {
        lemma_words_of_join(v, low_word(bits));
    }
    b
}

/// Replaces the low word of a binary64 pattern, keeping its high word.
pub fn set_low_word(bits: u64, v: u32) -> (r: u64)
    ensures
        r == join_words(high_word(bits), v),
        high_word(r) == high_word(bits),
        low_word(r) == v,
{
    let mut b: u64 = bits & 0xFFFF_FFFF_0000_0000u64;
    b = b | (v as u64);
    assert((bits & 0xFFFF_FFFF_0000_0000u64) | (v as u64) == ((((bits >> 32u64) as u32 as i32)
        as u32 as u64) << 32u64) | (v as u64)) by (bit_vector);
    proof {
        lemma_words_of_join(high_word(bits), v);
    }
    b
}

/// Reading back either word of a joined pattern gives the word that was
/// joined: a write of one word is seen by the next read of that word, and
/// leaves the other word as it was.
pub proof fn lemma_words_of_join(hi: i32, lo: u32)
    ensures
        high_word(join_words(hi, lo)) == hi,
        low_word(join_words(hi, lo)) == lo,
{
    assert(((((hi as u32 as u64) << 32u64) | (lo as u64)) >> 32u64) as u32 as i32 == hi)
        by (bit_vector);
    assert(((((hi as u32 as u64) << 32u64) | (lo as u64)) & 0xFFFF_FFFFu64) as u32 == lo)
        by (bit_vector);
}

/// Every pattern is the join of its own two words.
pub proof fn lemma_join_of_words(bits: u64)
    ensures
        join_words(high_word(bits), low_word(bits)) == bits,
{
    assert(((((bits >> 32u64) as u32 as i32) as u32 as u64) << 32u64) | (
    (bits & 0xFFFF_FFFFu64) as u32 as u64) == bits) by (bit_vector);
}

/// The 53-bit significand of a normal binary64 magnitude pattern: its
/// fraction bits with the implicit leading bit set.
pub open spec fn significand(m: u64) -> u64 {
    (m & 0x000F_FFFF_FFFF_FFFFu64) | 0x0010_0000_0000_0000u64
}

/// How the double whose magnitude pattern is `m` stands to the integers,
/// in the three-way code that `pow` uses for its exponent: 0 when the
/// magnitude is below 1 or has a nonzero fraction, 1 for an odd integer,
/// 2 for an even integer. A magnitude of 2^53 or more (infinity included)
/// is even. The binary point of a normal number with biased exponent `e`
/// lies `1075 - e` bits above the bottom of its significand.
pub open spec fn integer_kind(m: u64) -> i32 {
    let e = m >> 52u64;
    if e >= 0x434u64 {
        2
    } else if e < 0x3ffu64 {
        0
    } else {
        let s = (0x433u64 - e) as u64;
        if significand(m) & ((1u64 << s) - 1u64) as u64 != 0u64 {
            0
        } else if (significand(m) >> s) & 1u64 == 1u64 {
            1
        } else {
            2
        }
    }
}

/// Classifies the exponent of `pow` from its words: `iy` is the high word
/// with the sign bit cleared, `ly` the low word.
pub fn y_integer_kind(iy: i32, ly: u32) -> (kind: i32)
    requires
        iy >= 0,
    ensures
        kind == integer_kind(join_words(iy, ly)),
{
    if iy >= 0x4340_0000i32 {
        assert(integer_kind(join_words(iy, ly)) == 2) by (bit_vector)
            requires
                iy >= 0x4340_0000i32,
        ;
        2
    } else if iy >= 0x3ff0_0000i32 {
        let e: i32 = iy >> 20i32;
        assert(0x3ff <= e <= 0x434) by (bit_vector)
            requires
                0x3ff0_0000i32 <= iy < 0x4340_0000i32,
                e == iy >> 20i32,
        ;
        let k: i32 = e - 0x3ff;
        assert(0 <= k <= 52) by (bit_vector)
            requires
                0x3ff0_0000i32 <= iy < 0x4340_0000i32,
                e == iy >> 20i32,
                k == e - 0x3ff,
        ;
        if k > 20 {
            let shift: u32 = (52 - k) as u32;
            let j: u32 = ly >> shift;
            if (j << shift) == ly {
                assert(j & 1u32 <= 1u32) by (bit_vector);
                let kind: i32 = 2 - (j & 1u32) as i32;
                assert(integer_kind(join_words(iy, ly)) == kind) by (bit_vector)
                    requires
                        0x3ff0_0000i32 <= iy < 0x4340_0000i32,
                        k == (iy >> 20i32) - 0x3ff,
                        k > 20,
                        shift == (52 - k) as u32,
                        j == ly >> shift,
                        (j << shift) == ly,
                        kind == 2 - (j & 1u32) as i32,
                ;
                kind
            } else {
                assert(integer_kind(join_words(iy, ly)) == 0) by (bit_vector)
                    requires
                        0x3ff0_0000i32 <= iy < 0x4340_0000i32,
                        k == (iy >> 20i32) - 0x3ff,
                        k > 20,
                        shift == (52 - k) as u32,
                        j == ly >> shift,
                        (j << shift) != ly,
                ;
                0
            }
        } else if ly == 0 {
            let shift: u32 = (20 - k) as u32;
            let iyu: u32 = iy as u32;
            let j: u32 = iyu >> shift;
            if (j << shift) == iyu {
                assert(j & 1u32 <= 1u32) by (bit_vector);
                let kind: i32 = 2 - (j & 1u32) as i32;
                assert(integer_kind(join_words(iy, ly)) == kind) by (bit_vector)
                    requires
                        0x3ff0_0000i32 <= iy < 0x4340_0000i32,
                        k == (iy >> 20i32) - 0x3ff,
                        k <= 20,
                        ly == 0,
                        iyu == iy as u32,
                        shift == (20 - k) as u32,
                        j == iyu >> shift,
                        (j << shift) == iyu,
                        kind == 2 - (j & 1u32) as i32,
                ;
                kind
            } else {
                assert(integer_kind(join_words(iy, ly)) == 0) by (bit_vector)
                    requires
                        0x3ff0_0000i32 <= iy < 0x4340_0000i32,
                        k == (iy >> 20i32) - 0x3ff,
                        k <= 20,
                        ly == 0,
                        iyu == iy as u32,
                        shift == (20 - k) as u32,
                        j == iyu >> shift,
                        (j << shift) != iyu,
                ;
                0
            }
        } else {
            assert(integer_kind(join_words(iy, ly)) == 0) by (bit_vector)
                requires
                    0x3ff0_0000i32 <= iy < 0x4340_0000i32,
                    k == (iy >> 20i32) - 0x3ff,
                    k <= 20,
                    ly != 0,
            ;
            0
        }
    } else {
        assert(integer_kind(join_words(iy, ly)) == 0) by (bit_vector)
            requires
                0 <= iy < 0x3ff0_0000i32,
        ;
        0
    }
}

/// Whether the double with high word `ix` (sign bit cleared) and low word
/// `lx` is a NaN: its magnitude pattern lies above that of infinity.
pub fn is_nan_words(ix: i32, lx: u32) -> (nan: bool)
    requires
        ix >= 0,
    ensures
        nan == (join_words(ix, lx) > 0x7FF0_0000_0000_0000u64),
{
    let nan = ix > 0x7ff0_0000i32 || (ix == 0x7ff0_0000i32 && lx != 0);
    assert(nan == (join_words(ix, lx) > 0x7FF0_0000_0000_0000u64)) by (bit_vector)
        requires
            ix >= 0,
            nan == (ix > 0x7ff0_0000i32 || (ix == 0x7ff0_0000i32 && lx != 0)),
    ;
    nan
}

/// Splits the high word `ix` of a normal magnitude `|x|` into a power of
/// two `2^n` and the high word `ix_norm` of a value in `[sqrt(3)/2, sqrt(3))`
/// with the same low word, so that `|x| = 2^n * x'`: the exponent field
/// moves by `n` and the fraction stays. `k` is 1 exactly when that value
/// is at least `sqrt(3/2)`. Returns `(n, k, ix_norm)`.
pub fn split_exponent(ix: i32) -> (parts: (i32, i32, i32))
    requires
        0x0010_0000i32 <= ix < 0x7ff0_0000i32,
    ensures
        parts.2 + parts.0 * 0x0010_0000 == ix,
        0x3feb_b67ai32 <= parts.2 <= 0x3ffb_b679i32,
        parts.1 == (if parts.2 >= 0x3ff3_988fi32 { 1i32 } else { 0i32 }),
{
    let e: i32 = ix >> 20i32;
    let j: i32 = ix & 0x000f_ffffi32;
    assert(ix == e * 0x0010_0000 + j && 1 <= e <= 0x7fe && 0 <= j <= 0x000f_ffffi32) by (bit_vector)
        requires
            0x0010_0000i32 <= ix < 0x7ff0_0000i32,
            e == ix >> 20i32,
            j == ix & 0x000f_ffffi32,
    ;
    let base: i32 = j | 0x3ff0_0000i32;
    assert(base == j + 0x3ff0_0000i32) by (bit_vector)
        requires
            0 <= j <= 0x000f_ffffi32,
            base == j | 0x3ff0_0000i32,
    ;
    if j <= 0x0003_988ei32 {
        (e - 0x3ff, 0, base)
    } else if j < 0x000b_b67ai32 {
        (e - 0x3ff, 1, base)
    } else {
        (e - 0x3fe, 0, base - 0x0010_0000i32)
    }
}

/// Where a double lies against the bounds `pow` can scale to: above 1024
/// (or a positive infinity or NaN pattern), exactly 1024, below -1075 (or a
/// negative infinity or NaN pattern), exactly -1075, or in between.
#[derive(Clone, Copy, Debug, PartialEq, Eq, Structural)]
pub enum ScaleRange {
    Above,
    AtUpper,
    Below,
    AtLower,
    Within,
}

/// Pattern of 1024.0.
pub open spec fn upper_bits() -> u64 {
    0x4090_0000_0000_0000u64
}

/// Pattern of -1075.0.
pub open spec fn lower_bits() -> u64 {
    0xC090_CC00_0000_0000u64
}

/// Where the double with words `j` and `lo` lies against 1024 and -1075.
/// Patterns with the sign bit clear are ordered as the values they stand
/// for; so are patterns with it set, in reverse.
pub fn scale_range(j: i32, lo: u32) -> (range: ScaleRange)
    ensures
        range == (if join_words(j, lo) < 0x8000_0000_0000_0000u64 {
            if join_words(j, lo) > upper_bits() {
                ScaleRange::Above
            } else if join_words(j, lo) == upper_bits() {
                ScaleRange::AtUpper
            } else {
                ScaleRange::Within
            }
        } else {
            if join_words(j, lo) > lower_bits() {
                ScaleRange::Below
            } else if join_words(j, lo) == lower_bits() {
                ScaleRange::AtLower
            } else {
                ScaleRange::Within
            }
        }),
{
    let b: u64 = join(j, lo);
    if j >= 0x4090_0000i32 {
        assert(b < 0x8000_0000_0000_0000u64 && b >= upper_bits()) by (bit_vector)
            requires
                j >= 0x4090_0000i32,
                b == join_words(j, lo),
        ;
        if j != 0x4090_0000i32 || lo != 0 {
            assert(b > upper_bits()) by (bit_vector)
                requires
                    j >= 0x4090_0000i32,
                    j != 0x4090_0000i32 || lo != 0,
                    b == join_words(j, lo),
            ;
            ScaleRange::Above
        } else {
            assert(b == upper_bits()) by (bit_vector)
                requires
                    j == 0x4090_0000i32,
                    lo == 0,
                    b == join_words(j, lo),
            ;
            ScaleRange::AtUpper
        }
    } else if (j & 0x7fff_ffffi32) >= 0x4090_cc00i32 {
        assert(b >= 0x8000_0000_0000_0000u64 && b >= lower_bits()) by (bit_vector)
            requires
                j < 0x4090_0000i32,
                (j & 0x7fff_ffffi32) >= 0x4090_cc00i32,
                b == join_words(j, lo),
        ;
        if j != -1_064_252_416i32 || lo != 0 {
            assert(b > lower_bits()) by (bit_vector)
                requires
                    j < 0x4090_0000i32,
                    (j & 0x7fff_ffffi32) >= 0x4090_cc00i32,
                    j != -1_064_252_416i32 || lo != 0,
                    b == join_words(j, lo),
            ;
            ScaleRange::Below
        } else {
            assert(b == lower_bits()) by (bit_vector)
                requires
                    j == -1_064_252_416i32,
                    lo == 0,
                    b == join_words(j, lo),
            ;
            ScaleRange::AtLower
        }
    } else {
        assert(if b < 0x8000_0000_0000_0000u64 { b < upper_bits() } else { b < lower_bits() }) by (bit_vector)
            requires
                j < 0x4090_0000i32,
                (j & 0x7fff_ffffi32) < 0x4090_cc00i32,
                b == join_words(j, lo),
        ;
        ScaleRange::Within
    }
}

/// The pattern whose high word is `hi` and whose low word is `lo`.
fn join(hi: i32, lo: u32) -> (b: u64)
    ensures
        b == join_words(hi, lo),
{
    ((hi as u32 as u64) << 32u64) | (lo as u64)
}

/// High word of the reduced `|x| + bp[k]` that `pow` splits its logarithm
/// around (`bp[0] = 1`, `bp[1] = 1.5`), from the high word `ix_norm` and
/// interval `k` of `split_exponent`: half the normalized word, rebased.
pub fn sum_high_word(ix_norm: i32, k: i32) -> (hi: i32)
    requires
        0x3feb_b67ai32 <= ix_norm <= 0x3ffb_b679i32,
        k == 0 || k == 1,
    ensures
        hi == ix_norm / 2 + 0x2008_0000 + k * 0x0004_0000,
{
    let half: i32 = ix_norm >> 1i32;
    assert(half == ix_norm / 2 && (half | 0x2000_0000i32) == half + 0x2000_0000i32) by (bit_vector)
        requires
            0x3feb_b67ai32 <= ix_norm <= 0x3ffb_b679i32,
            half == ix_norm >> 1i32,
    ;
    let shifted: i32 = if k == 0 { 0 } else { 0x0004_0000 };
    (half | 0x2000_0000i32) + 0x0008_0000i32 + shifted
}

/// The magnitude bits of a high word.
pub open spec fn magnitude(j: i32) -> u32 {
    (j as u32) & 0x7fff_ffffu32
}

/// The integer nearest to the magnitude of a double whose high word has
/// magnitude bits `a` (its low word left out), halves rounded up: the
/// significand `m` scaled by `2^(e - 1043)`, plus one half, rounded down.
pub open spec fn nearest_integer(a: u32) -> u32 {
    let m = ((a & 0x000f_ffffu32) | 0x0010_0000u32) as u64;
    let s = ((a >> 20u32) - 0x3feu32) as u64;
    ((((m << s) + 0x0010_0000u64) as u64) >> 21u64) as u32
}

/// `n`, the exponent `pow` scales its result by: the integer nearest to
/// the double with high word `j` (magnitudes between one half and 1075,
/// halves away from zero, with the sign of `j`); and the high word of that
/// integer as a double (its low word is zero): an exponent `K` with the
/// integer's leading bit at `2^K`, and its lower bits as the fraction.
pub fn round_exponent(j: i32) -> (res: (i32, i32))
    requires
        0x3fe0_0000u32 < magnitude(j) <= 0x4090_cc00u32,
    ensures
        res.0 == (if j < 0 { -(nearest_integer(magnitude(j)) as int) } else { nearest_integer(magnitude(j)) as int }),
        ((res.1 as u32) >> 31u32) == ((j as u32) >> 31u32),
        ({
            let t = magnitude(res.1);
            let big_k = (t >> 20u32) - 0x3ffu32;
            &&& 0x3ff0_0000u32 <= t
            &&& big_k <= 10
            &&& ((t & 0x000f_ffffu32) | 0x0010_0000u32) == nearest_integer(magnitude(j)) << (20 - big_k) as u32
        }),
{
    let ju: u32 = j as u32;
    let a: u32 = ju & 0x7fff_ffffu32;
    let e: u32 = a >> 20u32;
    assert(0x3fe <= e <= 0x409) by (bit_vector)
        requires
            0x3fe0_0000u32 < a <= 0x4090_cc00u32,
            e == a >> 20u32,
    ;
    let sh: u32 = e - 0x3fe;
    let d: u32 = 0x0010_0000u32 >> sh;
    assert(ju + d <= 0xffff_ffffu32 && d <= 0x0010_0000u32) by (bit_vector)
        requires
            0x3fe0_0000u32 < a <= 0x4090_cc00u32,
            a == ju & 0x7fff_ffffu32,
            e == a >> 20u32,
            0x3fe <= e <= 0x409,
            sh == e - 0x3fe,
            d == 0x0010_0000u32 >> sh,
    ;
    let n1: u32 = ju + d;
    let e1: u32 = (n1 & 0x7fff_ffffu32) >> 20u32;
    assert(0x3ff <= e1 <= 0x409 && e1 - 0x3ff <= 10 && n1 == ju + d) by (bit_vector)
        requires
            0x3fe0_0000u32 < a <= 0x4090_cc00u32,
            a == ju & 0x7fff_ffffu32,
            e == a >> 20u32,
            sh == e - 0x3fe,
            d == 0x0010_0000u32 >> sh,
            n1 == ju + d,
            e1 == (n1 & 0x7fff_ffffu32) >> 20u32,
    ;
    let big_k: u32 = e1 - 0x3ff;
    let t: u32 = n1 & !(0x000f_ffffu32 >> big_k);
    let sh2: u32 = 20 - big_k;
    let n_abs: u32 = ((n1 & 0x000f_ffffu32) | 0x0010_0000u32) >> sh2;
    assert(n_abs == nearest_integer(a) && n_abs <= 1076 && (t >> 31u32) == (ju >> 31u32) && ({
        let tm = t & 0x7fff_ffffu32;
        &&& 0x3ff0_0000u32 <= tm
        &&& (tm >> 20u32) - 0x3ffu32 == big_k
        &&& ((tm & 0x000f_ffffu32) | 0x0010_0000u32) == n_abs << sh2
    })) by (bit_vector)
        requires
            0x3fe0_0000u32 < a <= 0x4090_cc00u32,
            a == ju & 0x7fff_ffffu32,
            e == a >> 20u32,
            sh == e - 0x3fe,
            d == 0x0010_0000u32 >> sh,
            n1 == ju + d,
            e1 == (n1 & 0x7fff_ffffu32) >> 20u32,
            0x3ff <= e1 <= 0x409,
            big_k == e1 - 0x3ff,
            t == n1 & !(0x000f_ffffu32 >> big_k),
            sh2 == 20 - big_k,
            n_abs == ((n1 & 0x000f_ffffu32) | 0x0010_0000u32) >> sh2,
    ;
    let n: i32 = if j < 0 { -(n_abs as i32) } else { n_abs as i32 };
    let t_hi: i32 = t as i32;
    assert(t_hi as u32 == t) by (bit_vector)
        requires
            t_hi == t as i32,
    ;
    assert((j < 0) == ((ju >> 31u32) == 1u32)) by (bit_vector)
        requires
            ju == j as u32,
    ;
    (n, t_hi)
}

/// The high word of `2^n` times a double whose high word is `hz`, taken
/// modulo `2^32`, when that product stays a normal double (its word is at
/// least `0x0010_0000`, a positive exponent field and sign bit clear);
/// `None` otherwise, where `pow` scales its result another way.
pub fn scaled_high_word(hz: i32, n: i32) -> (r: Option<i32>)
    ensures
        r == (if ((hz + n * 0x10_0000) as i32) < 0x10_0000i32 {
            None
        } else {
            Some((hz + n * 0x10_0000) as i32)
        }),
{
    let wide: i64 = hz as i64 + (n as i64) * 0x10_0000i64;
    let j = wide as i32;
    if j < 0x10_0000i32 {
        None
    } else {
        Some(j)
    }
}

/// Which of its special cases `pow(x, y)` takes, read from the words of
/// `x` and `y`; `negative` marks a result whose sign flips because `x` is
/// negative and `y` an odd integer.
#[derive(Clone, Copy, Debug, PartialEq, Eq, Structural)]
pub enum PowCase {
    /// `y` is zero: the result is 1.
    One,
    /// `x` or `y` is a NaN: the result is `x + y`.
    NanSum,
    /// `y` is infinite and `|x|` is 1: the result is `y - y` (a NaN).
    InfOfOne,
    /// `y` is infinite and the result is `y` itself.
    InfY,
    /// `y` is infinite and the result is `-y`.
    InfNegY,
    /// `y` is infinite and the result is zero.
    InfZero,
    /// `y` is 1: the result is `x`.
    Identity,
    /// `y` is -1: the result is `1 / x`.
    Reciprocal,
    /// `y` is 2: the result is `x * x`.
    Square,
    /// `y` is 1/2 and `x` is not negative: the result is `sqrt(x)`.
    Sqrt,
    /// `|x|` is 0, 1 or infinite: the result is `|x|`, inverted when `y`
    /// is negative, then a NaN for a negative `x` of magnitude 1 with a
    /// non-integer `y`, or negated for a negative `x` with an odd `y`.
    SpecialX { invert: bool, nan: bool, negate: bool },
    /// `x` is negative and `y` not an integer: the result is a NaN.
    NegativeBase,
    /// `|y|` is so large that the result overflows (an infinity).
    Overflow { negative: bool },
    /// `|y|` is so large that the result underflows (a zero).
    Underflow { negative: bool },
    /// `|y|` is above 2^31 and `x` within 2^-20 of 1: a series for the
    /// logarithm.
    NearOne { negative: bool },
    /// The general computation.
    General { negative: bool },
}

/// The case `pow` takes for `x` with words `hx`, `lx` and `y` with words
/// `hy`, `ly`, in the order it tests them.
pub open spec fn pow_case_of(hx: i32, lx: u32, hy: i32, ly: u32) -> PowCase {
    let ix = hx & 0x7fff_ffffi32;
    let iy = hy & 0x7fff_ffffi32;
    let x_nan = join_words(ix, lx) > 0x7FF0_0000_0000_0000u64;
    let y_nan = join_words(iy, ly) > 0x7FF0_0000_0000_0000u64;
    let kind = if hx < 0 { integer_kind(join_words(iy, ly)) } else { 0i32 };
    let negative = hx < 0 && kind == 1;
    if iy == 0 && ly == 0 {
        PowCase::One
    } else if x_nan || y_nan {
        PowCase::NanSum
    } else if ly == 0 && iy == 0x7ff0_0000i32 {
        if ix == 0x3ff0_0000i32 && lx == 0 {
            PowCase::InfOfOne
        } else if ix >= 0x3ff0_0000i32 {
            if hy >= 0 { PowCase::InfY } else { PowCase::InfZero }
        } else {
            if hy < 0 { PowCase::InfNegY } else { PowCase::InfZero }
        }
    } else if ly == 0 && iy == 0x3ff0_0000i32 {
        if hy < 0 { PowCase::Reciprocal } else { PowCase::Identity }
    } else if ly == 0 && hy == 0x4000_0000i32 {
        PowCase::Square
    } else if ly == 0 && hy == 0x3fe0_0000i32 && hx >= 0 {
        PowCase::Sqrt
    } else if lx == 0 && (ix == 0x7ff0_0000i32 || ix == 0 || ix == 0x3ff0_0000i32) {
        let nan = hx < 0 && ix == 0x3ff0_0000i32 && kind == 0;
        PowCase::SpecialX { invert: hy < 0, nan, negate: hx < 0 && !nan && kind == 1 }
    } else if hx < 0 && kind == 0 {
        PowCase::NegativeBase
    } else if iy > 0x41e0_0000i32 {
        if iy > 0x43f0_0000i32 && ix <= 0x3fef_ffffi32 {
            if hy < 0 { PowCase::Overflow { negative: false } } else { PowCase::Underflow { negative: false } }
        } else if iy > 0x43f0_0000i32 {
            if hy > 0 { PowCase::Overflow { negative: false } } else { PowCase::Underflow { negative: false } }
        } else if ix < 0x3fef_ffffi32 {
            if hy < 0 { PowCase::Overflow { negative } } else { PowCase::Underflow { negative } }
        } else if ix > 0x3ff0_0000i32 {
            if hy > 0 { PowCase::Overflow { negative } } else { PowCase::Underflow { negative } }
        } else {
            PowCase::NearOne { negative }
        }
    } else {
        PowCase::General { negative }
    }
}

/// The case `pow` takes for the doubles with bit patterns `x` and `y`.
pub open spec fn pow_case_bits(x: u64, y: u64) -> PowCase {
    pow_case_of(high_word(x), low_word(x), high_word(y), low_word(y))
}

/// The pattern of `|d|` for the double `d` with pattern `b`.
pub open spec fn bits_abs(b: u64) -> u64 {
    b & 0x7FFF_FFFF_FFFF_FFFFu64
}

/// The sign bit of the double with pattern `b` is set.
pub open spec fn bits_signed(b: u64) -> bool {
    b >= 0x8000_0000_0000_0000u64
}

/// The double with pattern `b` is a NaN.
pub open spec fn bits_nan(b: u64) -> bool {
    bits_abs(b) > 0x7FF0_0000_0000_0000u64
}

/// The double with pattern `b` is neither infinite nor a NaN.
pub open spec fn bits_finite(b: u64) -> bool {
    bits_abs(b) < 0x7FF0_0000_0000_0000u64
}

/// The double with pattern `b` is an integer: `integer_kind` of its
/// magnitude is 1 for an odd one and 2 for an even one.
pub open spec fn bits_kind(b: u64) -> i32 {
    integer_kind(bits_abs(b))
}

/// The case `pow(x, y)` takes, from the words of `x` and `y`.
pub fn pow_case(hx: i32, lx: u32, hy: i32, ly: u32) -> (c: PowCase)
    ensures
        c == pow_case_of(hx, lx, hy, ly),
        c == pow_case_bits(join_words(hx, lx), join_words(hy, ly)),
{
    proof {
        lemma_words_of_join(hx, lx);
        lemma_words_of_join(hy, ly);
    }
    let ix = hx & 0x7fff_ffffi32;
    let iy = hy & 0x7fff_ffffi32;
    assert(ix >= 0 && iy >= 0) by (bit_vector)
        requires
            ix == hx & 0x7fff_ffffi32,
            iy == hy & 0x7fff_ffffi32,
    ;
    if iy == 0 && ly == 0 {
        return PowCase::One;
    }
    if is_nan_words(ix, lx) || is_nan_words(iy, ly) {
        return PowCase::NanSum;
    }
    let kind: i32 = if hx < 0 { y_integer_kind(iy, ly) } else { 0 };
    let negative = hx < 0 && kind == 1;
    if ly == 0 {
        if iy == 0x7ff0_0000i32 {
            return if ix == 0x3ff0_0000i32 && lx == 0 {
                PowCase::InfOfOne
            } else if ix >= 0x3ff0_0000i32 {
                if hy >= 0 { PowCase::InfY } else { PowCase::InfZero }
            } else {
                if hy < 0 { PowCase::InfNegY } else { PowCase::InfZero }
            };
        }
        if iy == 0x3ff0_0000i32 {
            return if hy < 0 { PowCase::Reciprocal } else { PowCase::Identity };
        }
        if hy == 0x4000_0000i32 {
            return PowCase::Square;
        }
        if hy == 0x3fe0_0000i32 && hx >= 0 {
            return PowCase::Sqrt;
        }
    }
    if lx == 0 && (ix == 0x7ff0_0000i32 || ix == 0 || ix == 0x3ff0_0000i32) {
        let nan = hx < 0 && ix == 0x3ff0_0000i32 && kind == 0;
        return PowCase::SpecialX { invert: hy < 0, nan, negate: hx < 0 && !nan && kind == 1 };
    }
    if hx < 0 && kind == 0 {
        return PowCase::NegativeBase;
    }
    if iy > 0x41e0_0000i32 {
        if iy > 0x43f0_0000i32 {
            if ix <= 0x3fef_ffffi32 {
                return if hy < 0 { PowCase::Overflow { negative: false } } else { PowCase::Underflow { negative: false } };
            }
            if ix >= 0x3ff0_0000i32 {
                return if hy > 0 { PowCase::Overflow { negative: false } } else { PowCase::Underflow { negative: false } };
            }
        }
        if ix < 0x3fef_ffffi32 {
            return if hy < 0 { PowCase::Overflow { negative } } else { PowCase::Underflow { negative } };
        }
        if ix > 0x3ff0_0000i32 {
            return if hy > 0 { PowCase::Overflow { negative } } else { PowCase::Underflow { negative } };
        }
        return PowCase::NearOne { negative };
    }
    PowCase::General { negative }
}


/// How the words of a pattern give its magnitude and sign: the magnitude
/// pattern is the join of the high word with its sign bit cleared, and the
/// sign bit is that of the high word.
proof fn lemma_word_parts(h: i32, l: u32)
    by (bit_vector)
    ensures
        bits_abs(join_words(h, l)) == join_words(h & 0x7fff_ffffi32, l),
        bits_signed(join_words(h, l)) == (h < 0),
        (h & 0x7fff_ffffi32) >= 0,
        h >= 0 ==> (h & 0x7fff_ffffi32) == h,
        h >= 0 ==> join_words(h, l) == bits_abs(join_words(h, l)),
        h < 0 ==> join_words(h, l) == bits_abs(join_words(h, l)) + 0x8000_0000_0000_0000u64,
{
}

/// A join with a non-negative high word is that word times 2^32 plus the
/// low word.
proof fn lemma_word_value(a: i32, l: u32)
    by (bit_vector)
    requires
        a >= 0,
    ensures
        join_words(a, l) == a * 0x1_0000_0000 + l,
{
}

/// Magnitudes of 2^53 and more are even integers.
proof fn lemma_huge_even(a: i32, l: u32)
    by (bit_vector)
    requires
        a >= 0x4340_0000i32,
    ensures
        join_words(a, l) >> 52u64 >= 0x434u64,
{
}

/// Both words of `x` and `y` laid out by magnitude, sign and value.
proof fn lemma_pow_words(x: u64, y: u64)
    ensures
        ({
            let hx = high_word(x);
            let lx = low_word(x);
            let hy = high_word(y);
            let ly = low_word(y);
            let ix = hx & 0x7fff_ffffi32;
            let iy = hy & 0x7fff_ffffi32;
            &&& join_words(hx, lx) == x
            &&& join_words(hy, ly) == y
            &&& bits_abs(x) == join_words(ix, lx)
            &&& bits_abs(y) == join_words(iy, ly)
            &&& bits_signed(x) == (hx < 0)
            &&& bits_signed(y) == (hy < 0)
            &&& ix >= 0 && iy >= 0
            &&& hx >= 0 ==> ix == hx
            &&& hy >= 0 ==> iy == hy
            &&& bits_abs(x) == ix * 0x1_0000_0000 + lx
            &&& bits_abs(y) == iy * 0x1_0000_0000 + ly
            &&& x == bits_abs(x) + if hx < 0 { 0x8000_0000_0000_0000int } else { 0int }
            &&& y == bits_abs(y) + if hy < 0 { 0x8000_0000_0000_0000int } else { 0int }
        }),
{
    lemma_join_of_words(x);
    lemma_join_of_words(y);
    let hx = high_word(x);
    let lx = low_word(x);
    let hy = high_word(y);
    let ly = low_word(y);
    lemma_word_parts(hx, lx);
    lemma_word_parts(hy, ly);
    lemma_word_value(hx & 0x7fff_ffffi32, lx);
    lemma_word_value(hy & 0x7fff_ffffi32, ly);
}

/// `pow(x, ±0)` is 1 whatever `x` is, a NaN included; otherwise a NaN on
/// either side gives the NaN `x + y`; and these are the only inputs that
/// take those cases.
pub proof fn lemma_pow_zero_and_nan(x: u64, y: u64)
    ensures
        (pow_case_bits(x, y) == PowCase::One) == (bits_abs(y) == 0),
        (pow_case_bits(x, y) == PowCase::NanSum) == (bits_abs(y) != 0 && (bits_nan(x)
            || bits_nan(y))),
{
    lemma_pow_words(x, y);
}

/// For a non-NaN `x`, the exponents 2, 1, -1, and 1/2 with `x` not
/// negative, are answered by `x * x`, `x`, `1 / x` and `sqrt(x)` whatever
/// the magnitude of `x`; and only these exponents take those cases.
pub proof fn lemma_pow_simple_exponents(x: u64, y: u64)
    ensures
        !bits_nan(x) && y == 0x4000_0000_0000_0000u64 ==> pow_case_bits(x, y) == PowCase::Square,
        !bits_nan(x) && y == 0x3FF0_0000_0000_0000u64 ==> pow_case_bits(x, y) == PowCase::Identity,
        !bits_nan(x) && y == 0xBFF0_0000_0000_0000u64 ==> pow_case_bits(x, y) == PowCase::Reciprocal,
        !bits_nan(x) && !bits_signed(x) && y == 0x3FE0_0000_0000_0000u64 ==> pow_case_bits(x, y)
            == PowCase::Sqrt,
        pow_case_bits(x, y) == PowCase::Square ==> y == 0x4000_0000_0000_0000u64,
        pow_case_bits(x, y) == PowCase::Identity ==> y == 0x3FF0_0000_0000_0000u64,
        pow_case_bits(x, y) == PowCase::Reciprocal ==> y == 0xBFF0_0000_0000_0000u64,
        pow_case_bits(x, y) == PowCase::Sqrt ==> y == 0x3FE0_0000_0000_0000u64 && !bits_signed(x),
{
    lemma_pow_words(x, y);
}

/// An infinite exponent: `|x| = 1` gives a NaN; otherwise the result is
/// infinite when `|x| > 1` and `y = +inf` or `|x| < 1` and `y = -inf`, and
/// zero in the other two, whatever the sign of `x`.
pub proof fn lemma_pow_infinite_exponent(x: u64, y: u64)
    requires
        !bits_nan(x),
    ensures
        y == 0x7FF0_0000_0000_0000u64 ==> pow_case_bits(x, y) == (if bits_abs(x)
            == 0x3FF0_0000_0000_0000u64 {
            PowCase::InfOfOne
        } else if bits_abs(x) > 0x3FF0_0000_0000_0000u64 {
            PowCase::InfY
        } else {
            PowCase::InfZero
        }),
        y == 0xFFF0_0000_0000_0000u64 ==> pow_case_bits(x, y) == (if bits_abs(x)
            == 0x3FF0_0000_0000_0000u64 {
            PowCase::InfOfOne
        } else if bits_abs(x) > 0x3FF0_0000_0000_0000u64 {
            PowCase::InfZero
        } else {
            PowCase::InfNegY
        }),
{
    lemma_pow_words(x, y);
}

/// The sign of the result: whenever a case carries a sign, it is negative
/// exactly when `x` has its sign bit set and `y` is an odd integer,
/// whatever the magnitudes; for `x` among ±0, ±1, ±inf, the result is
/// inverted exactly for a negative `y`, and is a NaN exactly for `x = -1`
/// with a non-integer `y`.
pub proof fn lemma_pow_sign(x: u64, y: u64)
    ensures
        pow_case_bits(x, y) matches PowCase::General { negative } ==> negative == (bits_signed(x)
            && bits_kind(y) == 1),
        pow_case_bits(x, y) matches PowCase::NearOne { negative } ==> negative == (bits_signed(x)
            && bits_kind(y) == 1),
        pow_case_bits(x, y) matches PowCase::Overflow { negative } ==> negative == (bits_signed(x)
            && bits_kind(y) == 1),
        pow_case_bits(x, y) matches PowCase::Underflow { negative } ==> negative == (bits_signed(x)
            && bits_kind(y) == 1),
        pow_case_bits(x, y) matches PowCase::SpecialX { invert, nan, negate } ==> {
            &&& invert == bits_signed(y)
            &&& negate == (bits_signed(x) && bits_kind(y) == 1)
            &&& nan == (x == 0xBFF0_0000_0000_0000u64 && bits_kind(y) == 0)
        },
{
    lemma_pow_words(x, y);
    let iy = high_word(y) & 0x7fff_ffffi32;
    if iy >= 0x4340_0000i32 {
        lemma_huge_even(iy, low_word(y));
    }
}

/// A negative, finite, nonzero `x` other than -1 raised to a finite,
/// nonzero, non-integer `y` is a NaN; and only a negative `x` with a
/// non-integer `y` is.
pub proof fn lemma_pow_negative_base(x: u64, y: u64)
    ensures
        bits_signed(x) && bits_finite(x) && bits_abs(x) != 0 && bits_abs(x)
            != 0x3FF0_0000_0000_0000u64 && bits_finite(y) && bits_abs(y) != 0 && bits_kind(y) == 0
            ==> pow_case_bits(x, y) == PowCase::NegativeBase,
        pow_case_bits(x, y) == PowCase::NegativeBase ==> bits_signed(x) && bits_kind(y) == 0,
{
    lemma_pow_words(x, y);
    assert(integer_kind(0x3FF0_0000_0000_0000u64) == 1 && integer_kind(0x4000_0000_0000_0000u64)
        == 2) by (bit_vector);
}

/// For `x` among ±0, ±1 and ±inf, and `y` not a NaN, not zero, not
/// infinite, and none of 1, -1, 2 (nor 1/2 with `x` not negative), the
/// result is `|x|` or its inverse, with the sign and NaN that
/// `lemma_pow_sign` gives; only those `x` take that case.
pub proof fn lemma_pow_special_base(x: u64, y: u64)
    ensures
        (bits_abs(x) == 0 || bits_abs(x) == 0x3FF0_0000_0000_0000u64 || bits_abs(x)
            == 0x7FF0_0000_0000_0000u64) && bits_finite(y) && bits_abs(y) != 0 && bits_abs(y)
            != 0x3FF0_0000_0000_0000u64 && y != 0x4000_0000_0000_0000u64 && !(y
            == 0x3FE0_0000_0000_0000u64 && !bits_signed(x)) ==> pow_case_bits(x, y) is SpecialX,
        pow_case_bits(x, y) is SpecialX ==> bits_abs(x) == 0 || bits_abs(x)
            == 0x3FF0_0000_0000_0000u64 || bits_abs(x) == 0x7FF0_0000_0000_0000u64,
{
    lemma_pow_words(x, y);
}

/// The remaining inputs: `x` finite, not ±0 or ±1, and not a negative `x`
/// with a non-integer `y`; `y` finite and none of ±0, ±1, 2 (nor 1/2 with
/// `x` not negative). With `|y|` at most 2^31 the general computation
/// runs. Above 2^31, unless `|x|` lies within about 2^-20 of 1 (and `|y|`
/// is at most 2^64), the result overflows when `|x| > 1` and `y > 0` or
/// `|x| < 1` and `y < 0`, and underflows in the other two.
pub proof fn lemma_pow_ordinary(x: u64, y: u64)
    requires
        bits_finite(x),
        bits_abs(x) != 0,
        bits_abs(x) != 0x3FF0_0000_0000_0000u64,
        !(bits_signed(x) && bits_kind(y) == 0),
        bits_finite(y),
        bits_abs(y) != 0,
        bits_abs(y) != 0x3FF0_0000_0000_0000u64,
        y != 0x4000_0000_0000_0000u64,
        !(y == 0x3FE0_0000_0000_0000u64 && !bits_signed(x)),
    ensures
        bits_abs(y) < 0x41E0_0001_0000_0000u64 ==> pow_case_bits(x, y) is General,
        bits_abs(y) >= 0x41E0_0001_0000_0000u64 ==> {
            if bits_abs(y) >= 0x43F0_0001_0000_0000u64 || bits_abs(x)
                < 0x3FEF_FFFF_0000_0000u64 || bits_abs(x) >= 0x3FF0_0001_0000_0000u64 {
                &&& pow_case_bits(x, y) is Overflow || pow_case_bits(x, y) is Underflow
                &&& (pow_case_bits(x, y) is Overflow) == ((bits_abs(x) > 0x3FF0_0000_0000_0000u64)
                    == !bits_signed(y))
            } else {
                pow_case_bits(x, y) is NearOne
            }
        },
{
    lemma_pow_words(x, y);
}

/// `integer_kind` read off the value of the magnitude pattern `m`: with
/// biased exponent `e = m / 2^52` and significand `g = m mod 2^52 + 2^52`,
/// the magnitude is `g * 2^(e - 1075)`. Below 1 it is no integer (0); from
/// 2^53 on it is an even integer (2); in between it is an integer exactly
/// when `2^(1075 - e)` divides `g`, and odd (1) exactly when the quotient
/// is odd.
pub proof fn lemma_integer_kind_value(m: u64)
    ensures
        m / 0x10_0000_0000_0000u64 < 0x3ff ==> integer_kind(m) == 0,
        m / 0x10_0000_0000_0000u64 >= 0x434 ==> integer_kind(m) == 2,
        0x3ff <= m / 0x10_0000_0000_0000u64 < 0x434 ==> ({
            let d = vstd::arithmetic::power2::pow2((0x433 - m / 0x10_0000_0000_0000u64) as nat);
            let g = m % 0x10_0000_0000_0000u64 + 0x10_0000_0000_0000int;
            integer_kind(m) == if g % (d as int) != 0 {
                0i32
            } else if (g / (d as int)) % 2 == 1 {
                1i32
            } else {
                2i32
            }
        }),
{
    assert(m >> 52u64 == m / 0x10_0000_0000_0000u64) by (bit_vector);
    let e = m >> 52u64;
    if 0x3ff <= e < 0x434 {
        let sig = significand(m);
        assert(sig == m % 0x10_0000_0000_0000u64 + 0x10_0000_0000_0000u64) by (bit_vector)
            requires
                sig == (m & 0x000F_FFFF_FFFF_FFFFu64) | 0x0010_0000_0000_0000u64,
        ;
        let s = (0x433u64 - e) as u64;
        assert(s < 64);
        vstd::bits::lemma_u64_pow2_no_overflow(s as nat);
        vstd::bits::lemma_u64_shl_is_mul(1u64, s);
        let d = vstd::arithmetic::power2::pow2(s as nat);
        assert((1u64 << s) == d);
        vstd::bits::lemma_u64_low_bits_mask_is_mod(sig, s as nat);
        assert(vstd::bits::low_bits_mask(s as nat) == d - 1);
        assert(((1u64 << s) - 1u64) as u64 == vstd::bits::low_bits_mask(s as nat) as u64);
        assert(sig & ((1u64 << s) - 1u64) as u64 == sig % (d as u64));
        vstd::bits::lemma_u64_shr_is_div(sig, s);
        let q = sig >> s;
        assert(q & 1u64 == q % 2) by (bit_vector);
    }
}

} // verus!
