//! The biased section-count fields of the level format.
//!
//! A section count `n` is stored as the IEEE 754 double closest to
//! `n + bias`, where the bias is a magic fraction strictly between 0 and
//! 1/2; a reader recovers `n` by subtracting the bias and rounding to the
//! nearest integer.  Both directions are computed here exactly, over the
//! 64-bit pattern of the double, with no floating-point arithmetic: a bias
//! is given as its mantissa `mb` and scale `k` (its value is `mb / 2^k`),
//! and all reasoning happens on scaled integers.
//!
//! [`bits_of_count`] performs IEEE round-to-nearest-even of the exact sum
//! `n + mb/2^k`, so it reproduces bit for bit the pattern a double addition
//! would store.  [`count_of_bits`] rounds the exact difference
//! `value - mb/2^k` half-up (scaled by `2^1075` so that even subnormal
//! patterns are exact integers) and rejects a result that is negative, above
//! the count domain, or not finite.

use vstd::prelude::*;
use vstd::arithmetic::power2::pow2;
use vstd::arithmetic::power2::lemma_pow2_adds;
use vstd::arithmetic::power2::lemma_pow2_pos;
use vstd::arithmetic::power2::lemma_pow2_strictly_increases;
use vstd::arithmetic::power2::lemma2_to64;
use vstd::arithmetic::power2::lemma2_to64_rest;
use vstd::arithmetic::div_mod::lemma_fundamental_div_mod;
use vstd::arithmetic::div_mod::lemma_fundamental_div_mod_converse_div;
use vstd::arithmetic::div_mod::lemma_fundamental_div_mod_converse_mod;
use vstd::arithmetic::div_mod::lemma_basic_div;
use vstd::arithmetic::div_mod::lemma_small_mod;
use vstd::arithmetic::mul::lemma_mul_inequality;
use vstd::arithmetic::mul::lemma_mul_strict_inequality;
use vstd::arithmetic::mul::lemma_mul_inequality_converse;
use vstd::arithmetic::mul::lemma_mul_strict_inequality_converse;

verus! {

/// The largest count a biased field can carry; the stored double is read
/// back through a 16-bit cast, so anything above this is out of range.
pub const COUNT_MAX: u16 = 65535;

/// A usable bias description: a 53-bit mantissa (so `mb / 2^k` is one
/// double's exact value), a scale that puts the bias strictly below 1/2
/// with headroom of at least `2^-8` below it, and `k` of a magnitude that
/// keeps every biased count a normal double.
pub open spec fn bias_ok(mb: u64, k: nat) -> bool {
    &&& 54 <= k <= 55
    &&& pow2(52) <= mb < pow2(53)
    &&& pow2(45) <= pow2((k - 1) as nat) - mb
}

/// `2^e <= s < 2^(e+1)` for the returned `e`; the position of the highest
/// set bit of a positive integer.
pub open spec fn floor_log2(s: int) -> nat
    recommends
        s >= 1,
    decreases s,
{
    if s < 2 {
        0
    } else {
        1 + floor_log2(s / 2)
    }
}

/// Round `s / d` to the nearest integer, ties to even.
pub open spec fn round_nearest_even(s: int, d: int) -> int
    recommends
        s >= 0,
        d >= 1,
{
    let m0 = s / d;
    let r = s % d;
    if 2 * r > d || (2 * r == d && m0 % 2 == 1) {
        m0 + 1
    } else {
        m0
    }
}

/// The bit pattern of the double nearest to the exact sum `n + mb/2^k`
/// (ties to even): the scaled sum `n*2^k + mb` is rounded to 53 significant
/// bits and packed with the biased exponent.
pub open spec fn bits_of_count(n: u16, mb: u64, k: nat) -> u64
    recommends
        bias_ok(mb, k),
{
    let s = n * pow2(k) + mb;
    let l = floor_log2(s as int);
    let d = pow2((l - 52) as nat) as int;
    let m = round_nearest_even(s as int, d);
    let m2 = if m == pow2(53) {
        pow2(52) as int
    } else {
        m
    };
    let l2: int = if m == pow2(53) {
        l as int + 1
    } else {
        l as int
    };
    ((l2 + 1023 - k) * 0x10000000000000 + (m2 - pow2(52))) as u64
}

/// The count stored in the double with pattern `bits`: the exact value of
/// `value - mb/2^k`, rounded half-up, all scaled by `2^1075` so that every
/// finite double (subnormals included) is an exact integer.  `None` when
/// the pattern is not finite, the result is negative, or it exceeds
/// [`COUNT_MAX`].
pub open spec fn count_of_bits(bits: u64, mb: u64, k: nat) -> Option<u16>
    recommends
        bias_ok(mb, k),
{
    let b = bits as int;
    let sign = b / 0x8000000000000000;
    let eb = (b / 0x10000000000000) % 0x800;
    let frac = b % 0x10000000000000;
    if eb == 0x7FF {
        None
    } else {
        let mx = if eb == 0 {
            frac
        } else {
            frac + 0x10000000000000
        };
        let t = if eb == 0 {
            1nat
        } else {
            eb as nat
        };
        let num = (if sign == 0 {
            mx * pow2(t)
        } else {
            -(mx * pow2(t))
        }) - mb * pow2((1075 - k) as nat) + pow2(1074);
        if num < 0 {
            None
        } else {
            let c = num / pow2(1075) as int;
            if c > COUNT_MAX {
                None
            } else {
                Some(c as u16)
            }
        }
    }
}

/// Every representable count comes back out of its own encoding: reading
/// the biased double written for `n` recovers exactly `n`.
///
/// The heart of the argument: rounding the scaled sum `n*2^k + mb` to 53
/// significant bits moves it by at most half of its last place, at most
/// `2^17`, while the decoder's half-up rounding tolerates any displacement
/// strictly below `2^(k-1) >= 2^53`.
#[verifier::rlimit(50)]
pub proof fn lemma_count_round_trip(n: u16, mb: u64, k: nat)
    requires
        bias_ok(mb, k),
    ensures
        count_of_bits(bits_of_count(n, mb, k), mb, k) == Some(n),
{
    lemma2_to64();
    lemma2_to64_rest();
    lemma_pow2_pos(k);
    lemma_pow2_pos((1075 - k) as nat);
    let s = n * pow2(k) + mb;
    lemma_pow2_le(53, k);
    lemma_mul_inequality(n as int, 0xffff, pow2(k) as int);
    lemma_pow2_adds(k, 16);
    assert(s < pow2(k + 16)) by (nonlinear_arith)
        requires
            s == n * pow2(k) + mb,
            n * pow2(k) <= 0xffff * pow2(k),
            mb < pow2(53),
            pow2(53) <= pow2(k),
            pow2(k + 16) == pow2(k) * pow2(16),
            pow2(16) == 0x10000,
    ;
    let l = floor_log2(s);
    lemma_floor_log2(s);
    if l < 52 {
        lemma_pow2_le(l + 1, 52);
        assert(false);
    }
    if l > k + 15 {
        lemma_pow2_le(k + 16, l);
        assert(false);
    }
    let sh = (l - 52) as nat;
    let d = pow2(sh) as int;
    lemma_pow2_pos(sh);
    lemma_fundamental_div_mod(s, d);
    let m0 = s / d;
    let r = s % d;
    lemma_pow2_adds(52, sh);
    lemma_pow2_adds(53, sh);
    assert(m0 >= pow2(52)) by (nonlinear_arith)
        requires
            s == d * m0 + r,
            0 <= r < d,
            pow2(52) * d <= s,
            d >= 1,
    ;
    assert(m0 < pow2(53)) by (nonlinear_arith)
        requires
            s == d * m0 + r,
            0 <= r < d,
            s < pow2(53) * d,
            d >= 1,
    ;
    let m = round_nearest_even(s, d);
    let err = m * d - s;
    if 2 * r > d || (2 * r == d && m0 % 2 == 1) {
        assert(m == m0 + 1);
        assert(err == d - r) by (nonlinear_arith)
            requires
                err == m * d - s,
                m == m0 + 1,
                s == d * m0 + r,
        ;
        assert(-d <= 2 * err <= d);
    } else {
        assert(m == m0);
        assert(err == -r) by (nonlinear_arith)
            requires
                err == m * d - s,
                m == m0,
                s == d * m0 + r,
        ;
        assert(-d <= 2 * err <= d);
    }
    // the displacement of the rounded mantissa is at most 2^17
    lemma_pow2_le(sh, 18);
    assert(-pow2(17) <= err <= pow2(17));
    let m2 = if m == pow2(53) {
        pow2(52) as int
    } else {
        m
    };
    let l2: int = if m == pow2(53) {
        l as int + 1
    } else {
        l as int
    };
    let vme = m2 * pow2((l2 - 52) as nat);
    if m == pow2(53) {
        lemma_pow2_adds(52, (l - 51) as nat);
        assert(vme == pow2(l + 1));
        assert(m * d == pow2(53) * pow2(sh));
        assert(vme == m * d);
    } else {
        assert(vme == m * d);
    }
    assert(vme == s + err);
    assert(pow2(52) <= m2 < pow2(53));
    let eb = l2 + 1023 - k;
    assert(1020 <= eb <= 1039);
    let frac = m2 - pow2(52);
    let bits_i = eb * 0x10000000000000 + frac;
    assert(0 <= bits_i < 0x8000000000000000);
    let bits = bits_of_count(n, mb, k);
    assert(bits == bits_i as u64);
    assert(bits as int == bits_i);
    // the decoder's decomposition recovers the packed fields
    lemma_basic_div(bits_i, 0x8000000000000000);
    lemma_fundamental_div_mod_converse_div(bits_i, 0x10000000000000, eb, frac);
    lemma_fundamental_div_mod_converse_mod(bits_i, 0x10000000000000, eb, frac);
    lemma_small_mod(eb as nat, 0x800);
    let num = m2 * pow2(eb as nat) - mb * pow2((1075 - k) as nat) + pow2(1074);
    lemma_pow2_adds((l2 - 52) as nat, (1075 - k) as nat);
    assert(m2 * pow2(eb as nat) == vme * pow2((1075 - k) as nat)) by (nonlinear_arith)
        requires
            pow2(eb as nat) == pow2((l2 - 52) as nat) * pow2((1075 - k) as nat),
            vme == m2 * pow2((l2 - 52) as nat),
    ;
    assert(num == (n * pow2(k) + err) * pow2((1075 - k) as nat) + pow2(1074)) by (nonlinear_arith)
        requires
            num == vme * pow2((1075 - k) as nat) - mb * pow2((1075 - k) as nat) + pow2(1074),
            vme == s + err,
            s == n * pow2(k) + mb,
    ;
    lemma_pow2_adds(k, (1075 - k) as nat);
    let q = err * pow2((1075 - k) as nat) + pow2(1074);
    assert(num == n * pow2(1075) + q) by (nonlinear_arith)
        requires
            num == (n * pow2(k) + err) * pow2((1075 - k) as nat) + pow2(1074),
            pow2(1075) == pow2(k) * pow2((1075 - k) as nat),
            q == err * pow2((1075 - k) as nat) + pow2(1074),
    ;
    // 0 <= q < 2^1075, so the half-up rounding lands exactly on n
    lemma_pow2_le((1075 - k) as nat, 1021);
    lemma_pow2_adds(17, 1021);
    assert(-pow2(1038) <= err * pow2((1075 - k) as nat) <= pow2(1038)) by (nonlinear_arith)
        requires
            -pow2(17) <= err <= pow2(17),
            0 < pow2((1075 - k) as nat) <= pow2(1021),
            pow2(1038) == pow2(17) * pow2(1021),
    ;
    lemma_pow2_strictly_increases(1038, 1074);
    lemma_pow2_adds(1, 1074);
    assert(0 <= q < pow2(1075));
    lemma_pow2_pos(1075);
    vstd::arithmetic::mul::lemma_mul_nonnegative(n as int, pow2(1075) as int);
    lemma_fundamental_div_mod_converse_div(num, pow2(1075) as int, n as int, q);
    assert(num / pow2(1075) as int == n);
    assert(count_of_bits(bits, mb, k) == Some(n));
}

/// Powers of two do not shrink as the exponent grows.
proof fn lemma_pow2_le(e1: nat, e2: nat)
    requires
        e1 <= e2,
    ensures
        pow2(e1) <= pow2(e2),
{
    if e1 < e2 {
        lemma_pow2_strictly_increases(e1, e2);
    }
}

/// `floor_log2` brackets its argument between two powers of two.
proof fn lemma_floor_log2(s: int)
    requires
        s >= 1,
    ensures
        pow2(floor_log2(s)) <= s < pow2(floor_log2(s) + 1),
    decreases s,
{
    lemma2_to64();
    if s < 2 {
    } else {
        lemma_floor_log2(s / 2);
        let e = floor_log2(s / 2);
        lemma_fundamental_div_mod(s, 2);
        lemma_pow2_adds(1, e);
        lemma_pow2_adds(1, e + 1);
    }
}

/// The bracket determines the exponent: an `l` with `2^l <= s < 2^(l+1)`
/// is `floor_log2(s)`.
proof fn lemma_floor_log2_unique(s: int, l: nat)
    requires
        pow2(l) <= s < pow2(l + 1),
    ensures
        floor_log2(s) == l,
{
    lemma_pow2_pos(l);
    lemma_floor_log2(s);
    let f = floor_log2(s);
    if f < l {
        lemma_pow2_le(f + 1, l);
        assert(false);
    }
    if f > l {
        lemma_pow2_le(l + 1, f);
        assert(false);
    }
}

/// Compute `2^e`.
fn pow2_u128(e: u32) -> (r: u128)
    requires
        e <= 126,
    ensures
        r == pow2(e as nat),
{
    proof {
        lemma2_to64();
    }
    let mut r: u128 = 1;
    let mut i: u32 = 0;
    while i < e
        invariant
            i <= e <= 126,
            r == pow2(i as nat),
        decreases e - i,
    {
        proof {
            lemma_pow2_adds(1, i as nat);
            lemma2_to64();
            lemma2_to64_rest();
            lemma_pow2_adds(64, 63);
            lemma_pow2_le(i as nat + 1, 127);
        }
        r = r * 2;
        i = i + 1;
    }
    r
}

/// Store `n` as the bit pattern of the double nearest to `n + mb/2^k`.
#[verifier::rlimit(50)]
pub fn encode_count(n: u16, mb: u64, k: u32) -> (bits: u64)
    requires
        bias_ok(mb, k as nat),
    ensures
        bits == bits_of_count(n, mb, k as nat),
{
    proof {
        lemma2_to64();
        lemma2_to64_rest();
    }
    let p_k = pow2_u128(k);
    proof {
        // s < 2^(k+16): n < 2^16 and mb < 2^53 <= 2^k
        lemma_pow2_le(k as nat, 55);
        lemma_mul_inequality(n as int, 0xffff, pow2(k as nat) as int);
        lemma_mul_inequality(pow2(k as nat) as int, pow2(55) as int, 0xffff);
        lemma_pow2_adds(k as nat, 16);
        lemma_pow2_le(53, k as nat);
        lemma_pow2_le(k as nat + 16, 71);
        lemma_pow2_adds(64, 7);
    }
    let s: u128 = (n as u128) * p_k + (mb as u128);
    let mut l: u32 = 52;
    let mut p: u128 = pow2_u128(53);
    while p <= s
        invariant
            bias_ok(mb, k as nat),
            52 <= l <= 70,
            s < pow2(k as nat + 16) <= pow2(71),
            k <= 55,
            pow2(l as nat) <= s,
            p == pow2(l as nat + 1),
        decreases 71 - l,
    {
        proof {
            lemma_pow2_adds(1, l as nat + 1);
            lemma2_to64();
            lemma2_to64_rest();
            lemma_pow2_adds(64, 7);
            // p <= s < 2^71 forces l + 1 < 71
            if l as nat + 1 >= 71 {
                lemma_pow2_le(71, l as nat + 1);
                assert(false);
            }
            lemma_pow2_le(k as nat + 16, 71);
        }
        l = l + 1;
        p = p * 2;
    }
    proof {
        lemma_floor_log2_unique(s as int, l as nat);
    }
    let sh = l - 52;
    let d = pow2_u128(sh);
    proof {
        lemma_pow2_pos(sh as nat);
    }
    let m0 = s / d;
    let r = s % d;
    proof {
        // m0 < 2^53: otherwise s >= 2^53 * d = 2^(l+1)
        lemma_fundamental_div_mod(s as int, d as int);
        lemma_pow2_adds(53, sh as nat);
        if m0 >= 0x20000000000000 {
            let r0 = (s as int) % (d as int);
            assert(s >= pow2(53 + sh as nat)) by (nonlinear_arith)
                requires
                    s == d * m0 + r0,
                    0 <= r0,
                    m0 >= pow2(53),
                    pow2(53 + sh as nat) == pow2(53) * pow2(sh as nat),
                    d == pow2(sh as nat),
            ;
            assert(false);
        }
    }
    let round_up = 2 * r > d || (2 * r == d && m0 % 2 == 1);
    let m = if round_up {
        m0 + 1
    } else {
        m0
    };
    let m2: u128;
    let l2: u32;
    if m == 0x20000000000000 {
        m2 = 0x10000000000000;
        l2 = l + 1;
    } else {
        m2 = m;
        l2 = l;
    }
    let eb: u64 = (l2 as u64) + 1023 - (k as u64);
    proof {
        assert(m2 >= 0x10000000000000) by {
            // m0 >= 2^52 since s >= 2^l = 2^52 * d
            lemma_pow2_adds(52, sh as nat);
            lemma_fundamental_div_mod(s as int, d as int);
            if m0 < 0x10000000000000 {
                let r0 = (s as int) % (d as int);
                assert(s < pow2(52 + sh as nat)) by (nonlinear_arith)
                    requires
                        s == d * m0 + r0,
                        0 <= r0 < d,
                        m0 + 1 <= pow2(52),
                        pow2(52 + sh as nat) == pow2(52) * pow2(sh as nat),
                        d == pow2(sh as nat),
                ;
                assert(false);
            }
        }
    }
    let frac: u64 = (m2 - 0x10000000000000) as u64;
    eb * 0x10000000000000 + frac
}

/// Recover the count stored in the double with pattern `bits`, or `None`
/// when the pattern holds no count in `0 ..= COUNT_MAX`.
#[verifier::rlimit(50)]
pub fn decode_count(bits: u64, mb: u64, k: u32) -> (r: Option<u16>)
    requires
        bias_ok(mb, k as nat),
    ensures
        r == count_of_bits(bits, mb, k as nat),
{
    proof {
        lemma2_to64();
        lemma2_to64_rest();
    }
    let sign = bits / 0x8000000000000000;
    let eb = (bits / 0x10000000000000) % 0x800;
    let frac = bits % 0x10000000000000;
    if eb == 0x7FF {
        return None;
    }
    let mx: u64 = if eb == 0 {
        frac
    } else {
        frac + 0x10000000000000
    };
    let ghost t: nat = if eb == 0 {
        1nat
    } else {
        eb as nat
    };
    let ghost v: int = mx * pow2(t);
    let ghost bias_scaled: int = mb * pow2((1075 - k) as nat);
    let ghost num: int = (if sign == 0 {
        v
    } else {
        -v
    }) - bias_scaled + pow2(1074);
    proof {
        // the bias term stays below the half term
        lemma_pow2_pos((1075 - k) as nat);
        lemma_pow2_pos(t);
        lemma_pow2_le((1075 - k) as nat, 1021);
        lemma_mul_strict_inequality(mb as int, pow2(53) as int, pow2((1075 - k) as nat) as int);
        lemma_mul_inequality(pow2((1075 - k) as nat) as int, pow2(1021) as int, pow2(53) as int);
        lemma_pow2_adds(53, 1021);
        lemma_pow2_adds(53, (1075 - k) as nat);
        lemma_pow2_le(53 + (1075 - k) as nat, 1074);
        vstd::arithmetic::mul::lemma_mul_strictly_positive(mb as int, pow2(
            (1075 - k) as nat,
        ) as int);
        assert(0 < bias_scaled < pow2(1074));
    }
    if sign == 0 {
        if eb >= 1040 {
            proof {
                // v >= 2^52 * 2^1040 = 2^1092, so the count is at least 2^16
                lemma_pow2_le(1040, t);
                lemma_mul_inequality(pow2(52) as int, mx as int, pow2(t) as int);
                lemma_mul_inequality(pow2(1040) as int, pow2(t) as int, pow2(52) as int);
                lemma_pow2_adds(52, 1040);
                lemma_pow2_adds(16, 1075);
                lemma_pow2_le(1091, 1092);
                assert(num >= pow2(1091) + (pow2(1074) - bias_scaled)) by {
                    lemma_mul_inequality(pow2(52) as int, mx as int, pow2(1040) as int);
                }
                assert(num >= pow2(16) * pow2(1075));
                lemma_pow2_pos(1075);
                vstd::arithmetic::div_mod::lemma_div_by_multiple(pow2(16) as int, pow2(1075) as int);
                vstd::arithmetic::div_mod::lemma_div_is_ordered(
                    pow2(16) as int * pow2(1075) as int,
                    num,
                    pow2(1075) as int,
                );
                assert(num / pow2(1075) as int >= pow2(16));
            }
            None
        } else if eb >= 1020 {
            let p_sh = pow2_u128((eb - 1020) as u32);
            let gap: u128 = if k == 54 {
                0x40000000000000 - (mb as u128) * 2
            } else {
                0x40000000000000 - (mb as u128)
            };
            proof {
                // mx * 2^(eb-1020) < 2^53 * 2^20, far inside u128
                lemma_pow2_le((eb - 1020) as nat, 20);
                lemma_mul_inequality(mx as int, pow2(53) as int, p_sh as int);
                lemma_mul_inequality(p_sh as int, pow2(20) as int, pow2(53) as int);
                lemma_pow2_adds(53, 20);
                lemma_pow2_adds(64, 9);
            }
            let nump: u128 = (mx as u128) * p_sh + gap;
            proof {
                let e = (eb - 1020) as nat;
                let g54 = pow2(54) as int - mb * pow2((55 - k) as nat);
                // gap matches 2^54 - mb * 2^(55-k)
                lemma2_to64();
                if k == 54 {
                    assert(mb * pow2((55 - k) as nat) == mb * 2) by (nonlinear_arith)
                        requires
                            pow2((55 - k) as nat) == 2,
                    ;
                } else {
                    assert(mb * pow2((55 - k) as nat) == mb) by (nonlinear_arith)
                        requires
                            pow2((55 - k) as nat) == 1,
                    ;
                }
                lemma_mul_strict_inequality(mb as int, pow2(53) as int, pow2((55 - k) as nat) as int);
                lemma_pow2_adds(53, (55 - k) as nat);
                lemma_pow2_le(53 + (55 - k) as nat, 54);
                assert(gap == g54);
                // nump stays small: mx < 2^53, shift < 2^20
                lemma_pow2_le(e, 20);
                lemma_mul_inequality(mx as int, pow2(53) as int, pow2(e) as int);
                lemma_mul_inequality(pow2(e) as int, pow2(20) as int, pow2(53) as int);
                lemma_pow2_adds(53, 20);
                lemma_pow2_le(73, 126);
                lemma_pow2_adds(64, 62);
                lemma_pow2_le(74, 126);
                assert(nump == mx * pow2(e) + g54);
                // num == nump * 2^1020
                lemma_pow2_adds(e, 1020);
                lemma_pow2_adds((55 - k) as nat, 1020);
                lemma_pow2_adds(54, 1020);
                assert(v == (mx * pow2(e)) * pow2(1020)) by (nonlinear_arith)
                    requires
                        v == mx * pow2(t),
                        pow2(t) == pow2(e) * pow2(1020),
                ;
                assert(bias_scaled == (mb * pow2((55 - k) as nat)) * pow2(1020)) by (nonlinear_arith)
                    requires
                        bias_scaled == mb * pow2((1075 - k) as nat),
                        pow2((1075 - k) as nat) == pow2((55 - k) as nat) * pow2(1020),
                ;
                assert(num == nump * pow2(1020)) by (nonlinear_arith)
                    requires
                        num == (mx * pow2(e)) * pow2(1020) - (mb * pow2((55 - k) as nat)) * pow2(
                            1020,
                        ) + pow2(54) * pow2(1020),
                        nump == mx * pow2(e) + (pow2(54) - mb * pow2((55 - k) as nat)),
                ;
                // num / 2^1075 == nump / 2^55
                lemma_pow2_pos(1020);
                lemma_pow2_pos(55);
                lemma_pow2_pos(1075);
                vstd::arithmetic::div_mod::lemma_div_by_multiple(nump as int, pow2(1020) as int);
                vstd::arithmetic::div_mod::lemma_div_denominator(
                    num,
                    pow2(1020) as int,
                    pow2(55) as int,
                );
                lemma_pow2_adds(1020, 55);
                assert(num / pow2(1075) as int == nump as int / pow2(55) as int);
            }
            let c = nump / 0x80000000000000;
            if c > COUNT_MAX as u128 {
                None
            } else {
                Some(c as u16)
            }
        } else {
            proof {
                // 0 <= num < 2^1075: the value is below 2^1072
                lemma_pow2_le(t, 1019);
                lemma_mul_inequality(mx as int, pow2(53) as int, pow2(t) as int);
                lemma_mul_inequality(pow2(t) as int, pow2(1019) as int, pow2(53) as int);
                lemma_pow2_adds(53, 1019);
                vstd::arithmetic::mul::lemma_mul_nonnegative(mx as int, pow2(t) as int);
                lemma_pow2_le(1072, 1074);
                lemma_pow2_adds(1, 1074);
                lemma2_to64();
                assert(0 <= num < pow2(1075));
                lemma_pow2_pos(1075);
                lemma_basic_div(num, pow2(1075) as int);
            }
            Some(0)
        }
    } else {
        if eb >= 1022 {
            proof {
                // v >= 2^52 * 2^1022 = 2^1074 wipes out the half term
                lemma_pow2_le(1022, t);
                lemma_mul_inequality(pow2(52) as int, mx as int, pow2(t) as int);
                lemma_mul_inequality(pow2(1022) as int, pow2(t) as int, pow2(52) as int);
                lemma_mul_inequality(pow2(52) as int, mx as int, pow2(1022) as int);
                lemma_pow2_adds(52, 1022);
                assert(v >= pow2(1074));
                assert(num < 0);
            }
            None
        } else {
            let dgap: u64 = (if k == 54 {
                0x20000000000000
            } else {
                0x40000000000000u64
            }) - mb;
            let e1: u64 = if eb == 0 {
                1
            } else {
                eb
            };
            let e2: u64 = 1075 - (k as u64);
            let ghost rhs: int = dgap * pow2((1075 - k) as nat);
            proof {
                // 2^1074 - bias_scaled == dgap * 2^(1075-k)
                lemma_pow2_adds((k - 1) as nat, (1075 - k) as nat);
                assert(pow2(1074) - bias_scaled == rhs) by (nonlinear_arith)
                    requires
                        bias_scaled == mb * pow2((1075 - k) as nat),
                        pow2(1074) == pow2((k - 1) as nat) * pow2((1075 - k) as nat),
                        dgap == pow2((k - 1) as nat) - mb,
                        rhs == dgap * pow2((1075 - k) as nat),
                ;
                assert(num == rhs - v);
                // if num >= 0 it is below 2^1075
                lemma_pow2_adds(54, (1075 - k) as nat);
                lemma_pow2_le(54 + (1075 - k) as nat, 1075);
                lemma_mul_strict_inequality(dgap as int, pow2(54) as int, pow2(
                    (1075 - k) as nat,
                ) as int);
                assert(rhs < pow2(1075));
                lemma_pow2_pos(1075);
            }
            let cond: bool;
            if e1 + 30 <= e2 {
                cond = true;
                proof {
                    // v < 2^(53+e1) <= 2^(e2+23) < 2^(e2+45) <= rhs
                    lemma_mul_strict_inequality(mx as int, pow2(53) as int, pow2(t) as int);
                    lemma_pow2_adds(53, t);
                    lemma_pow2_le(53 + t, 23 + (1075 - k) as nat);
                    lemma_pow2_le(23 + (1075 - k) as nat, 45 + (1075 - k) as nat);
                    lemma_pow2_adds(45, (1075 - k) as nat);
                    lemma_mul_inequality(pow2(45) as int, dgap as int, pow2((1075 - k) as nat) as int);
                    lemma_pow2_pos(t);
                    vstd::arithmetic::mul::lemma_mul_nonnegative(mx as int, pow2(t) as int);
                    assert(v < rhs);
                }
            } else if e1 >= e2 {
                let lhs128 = (mx as u128) * (if e1 == e2 {
                    1u128
                } else {
                    2
                });
                cond = lhs128 <= dgap as u128;
                proof {
                    let g = (e1 - e2) as nat;
                    assert(pow2(g) == if e1 == e2 {
                        1int
                    } else {
                        2int
                    }) by {
                        lemma2_to64();
                    }
                    lemma_pow2_adds(g, (1075 - k) as nat);
                    assert(v == (mx * pow2(g)) * pow2((1075 - k) as nat)) by (nonlinear_arith)
                        requires
                            v == mx * pow2(t),
                            pow2(t) == pow2(g) * pow2((1075 - k) as nat),
                    ;
                    lemma_pow2_pos((1075 - k) as nat);
                    if lhs128 <= dgap as u128 {
                        lemma_mul_inequality(mx * pow2(g), dgap as int, pow2(
                            (1075 - k) as nat,
                        ) as int);
                        assert(v <= rhs);
                    } else {
                        if v <= rhs {
                            lemma_mul_inequality_converse(mx * pow2(g), dgap as int, pow2(
                                (1075 - k) as nat,
                            ) as int);
                            assert(false);
                        }
                    }
                }
            } else {
                let p_g = pow2_u128((e2 - e1) as u32);
                proof {
                    let g = (e2 - e1) as nat;
                    // g < 30, so dgap * 2^g < 2^54 * 2^30 fits easily
                    lemma_pow2_le(g, 30);
                    lemma2_to64();
                    lemma_mul_inequality(dgap as int, pow2(54) as int, pow2(g) as int);
                    lemma_mul_inequality(pow2(g) as int, pow2(30) as int, pow2(54) as int);
                    lemma_pow2_adds(54, 30);
                    lemma_pow2_adds(64, 20);
                }
                let rhs128 = (dgap as u128) * p_g;
                cond = (mx as u128) <= rhs128;
                proof {
                    let g = (e2 - e1) as nat;
                    lemma_pow2_adds(g, t);
                    assert(rhs == (dgap * pow2(g)) * pow2(t)) by (nonlinear_arith)
                        requires
                            rhs == dgap * pow2((1075 - k) as nat),
                            pow2((1075 - k) as nat) == pow2(g) * pow2(t),
                    ;
                    lemma_pow2_pos(t);
                    if (mx as u128) <= rhs128 {
                        lemma_mul_inequality(mx as int, dgap * pow2(g), pow2(t) as int);
                        assert(v <= rhs);
                    } else {
                        if v <= rhs {
                            lemma_mul_inequality_converse(mx as int, dgap * pow2(g), pow2(t) as int);
                            assert(false);
                        }
                    }
                }
            }
            if cond {
                proof {
                    assert(0 <= num < pow2(1075));
                    lemma_basic_div(num, pow2(1075) as int);
                }
                Some(0)
            } else {
                proof {
                    assert(num < 0);
                }
                None
            }
        }
    }
}

} // verus!
