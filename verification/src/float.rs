//! Exact integer arithmetic over IEEE-754 single-precision bit patterns.
//!
//! The object model stores a 32-bit floating value as its bit pattern, and
//! every question the model asks of it — equality within epsilon, decimal
//! text — is answered here by exact integer arithmetic on the mantissa and
//! exponent, so that no floating-point operation is needed anywhere.

use vstd::prelude::*;

verus! {

use vstd::arithmetic::power2::{
    pow2,
    lemma_pow2_adds,
    lemma_pow2_strictly_increases,
    lemma2_to64,
    lemma2_to64_rest,
};
use vstd::arithmetic::mul::{
    lemma_mul_inequality,
    lemma_mul_strict_inequality,
    lemma_mul_strict_inequality_converse,
    lemma_mul_upper_bound,
    lemma_mul_is_distributive_add_other_way,
    lemma_mul_is_distributive_sub_other_way,
    lemma_mul_is_commutative,
    lemma_mul_is_associative,
};
use vstd::math::abs;
use vstd::string::StringExecFns;
use crate::fmt::push_char;

broadcast use vstd::arithmetic::power2::lemma_pow2_pos;

/// The exponent field of the bit pattern (8 bits).
pub open spec fn f_exp(bits: u32) -> int {
    (bits as int / 0x800000) % 0x100
}

/// The fraction field of the bit pattern (23 bits).
pub open spec fn f_frac(bits: u32) -> int {
    bits as int % 0x800000
}

/// The sign bit of the bit pattern.
pub open spec fn f_is_neg(bits: u32) -> bool {
    bits as int / 0x80000000 == 1
}

/// A finite value: not a NaN and not an infinity.
pub open spec fn f_finite(bits: u32) -> bool {
    f_exp(bits) != 255
}

/// The integer significand: the fraction with the implicit leading one bit
/// for normal values, the bare fraction for subnormal values and zero.
pub open spec fn f_mant(bits: u32) -> int {
    if f_exp(bits) == 0 {
        f_frac(bits)
    } else {
        f_frac(bits) + 0x800000
    }
}

/// The binary exponent of the significand, biased so that the encoded value
/// equals `f_mant * pow2(f_pexp) / pow2(149)`.
pub open spec fn f_pexp(bits: u32) -> nat {
    if f_exp(bits) == 0 {
        0
    } else {
        (f_exp(bits) - 1) as nat
    }
}

/// The exact value of a finite float, scaled by `pow2(149)` so that it is an
/// integer.
pub open spec fn f_val_scaled(bits: u32) -> int {
    if f_is_neg(bits) {
        -(f_mant(bits) * pow2(f_pexp(bits)))
    } else {
        f_mant(bits) * pow2(f_pexp(bits))
    }
}

/// Equality within epsilon of the two single-precision values encoded by the
/// given bit patterns: both are finite and the absolute difference of their
/// exact values is below 1e-4. NaN and infinite values are within epsilon of
/// nothing, not even themselves.
pub open spec fn f32_within_epsilon(a: u32, b: u32) -> bool {
    f_finite(a) && f_finite(b) && abs(f_val_scaled(a) - f_val_scaled(b)) * 10000 < pow2(149)
}

/// `pow2(e)` as a `u128`.
pub fn pow2_u128(e: u32) -> (r: u128)
    requires
        e <= 127,
    ensures
        r as nat == pow2(e as nat),
{
    proof {
        lemma2_to64();
    }
    let mut i: u32 = 0;
    let mut r: u128 = 1;
    while i < e
        invariant
            i <= e <= 127,
            r as nat == pow2(i as nat),
        decreases e - i,
    {
        proof {
            lemma_pow2_adds(i as nat, 1);
            lemma2_to64();
            let ip: nat = (i + 1) as nat;
            if ip < 128 {
                lemma_pow2_strictly_increases(ip, 128);
            }
            lemma_pow2_adds(64, 64);
        }
        r = r * 2;
        i = i + 1;
    }
    r
}

/// `pow2` is monotonic.
proof fn lemma_pow2_le(e1: nat, e2: nat)
    requires
        e1 <= e2,
    ensures
        pow2(e1) <= pow2(e2),
{
    if e1 < e2 {
        lemma_pow2_strictly_increases(e1, e2);
    }
}

/// Scaling both sides of a difference scales its absolute value.
proof fn lemma_abs_diff_scale(x: int, y: int, k: int)
    requires
        k > 0,
    ensures
        abs(x * k - y * k) == abs(x - y) * k,
{
    lemma_mul_is_distributive_sub_other_way(k, x, y);
    if x - y >= 0 {
        lemma_mul_inequality(0, x - y, k);
    } else {
        lemma_mul_strict_inequality(x - y, 0, k);
        assert((x - y) * k == -((y - x) * k)) by {
            lemma_mul_is_distributive_sub_other_way(k, y, x);
        }
        lemma_mul_inequality(0, y - x, k);
    }
}

/// Scaling both sides of a sum of nonnegative terms scales its absolute
/// value, whichever overall sign the sum carries.
proof fn lemma_abs_sum_scale(x: int, y: int, k: int)
    requires
        x >= 0,
        y >= 0,
        k > 0,
    ensures
        abs(x * k + y * k) == (x + y) * k,
        abs(-(x * k) - y * k) == (x + y) * k,
{
    lemma_mul_is_distributive_add_other_way(k, x, y);
    lemma_mul_inequality(0, x, k);
    lemma_mul_inequality(0, y, k);
}

/// Cancelling a positive factor keeps a strict comparison.
proof fn lemma_cancel_pos(x: int, y: int, k: int)
    requires
        k > 0,
    ensures
        (x * k < y * k) <==> (x < y),
{
    if x < y {
        lemma_mul_strict_inequality(x, y, k);
    }
    if x * k < y * k {
        lemma_mul_strict_inequality_converse(x, y, k);
    }
}

/// When the common binary exponent is at least 150, the scaled difference is
/// within epsilon exactly when it is zero.
proof fn lemma_big_scale(ecap: int, p2: nat, va: int, vb: int)
    requires
        ecap >= 0,
        p2 >= 150,
        abs(va - vb) == ecap * pow2(p2),
    ensures
        (abs(va - vb) * 10000 < pow2(149)) <==> (ecap == 0),
{
    if ecap == 0 {
        assert(abs(va - vb) == 0);
    } else {
        lemma_mul_inequality(1, ecap, pow2(p2) as int);
        assert(abs(va - vb) >= pow2(p2));
        lemma_pow2_strictly_increases(149, p2);
        lemma_mul_inequality(1, 10000, abs(va - vb) as int);
        lemma_mul_is_commutative(10000, abs(va - vb) as int);
        assert(abs(va - vb) * 10000 >= abs(va - vb));
    }
}

/// For `0 < rr < pow2(d)` and `d <= q`: subtracting `rr` from a multiple of
/// `pow2(d)` stays below `pow2(q)` exactly when the multiplier is at most
/// `pow2(q - d)`.
proof fn lemma_multiple_minus(m: int, rr: int, d: nat, q: nat)
    requires
        d <= q,
        0 < rr < pow2(d),
        m >= 1,
    ensures
        (m * pow2(d) - rr < pow2(q)) <==> (m <= pow2((q - d) as nat)),
{
    let k = pow2((q - d) as nat) as int;
    lemma_pow2_adds((q - d) as nat, d);
    assert(k * pow2(d) == pow2(q));
    if m <= k {
        lemma_mul_inequality(m, k, pow2(d) as int);
        assert(m * pow2(d) <= pow2(q));
    }
    if m > k {
        assert(m >= k + 1);
        lemma_mul_inequality(k + 1, m, pow2(d) as int);
        assert((k + 1) * pow2(d) == k * pow2(d) + pow2(d)) by {
            lemma_mul_is_distributive_add_other_way(pow2(d) as int, k, 1);
        }
        assert(m * pow2(d) >= pow2(q) + pow2(d));
        assert(m * pow2(d) - rr > pow2(q));
    }
}

/// For `0 <= rr < pow2(d)` and `d <= q`: adding `rr` to a multiple of
/// `pow2(d)` stays below `pow2(q)` exactly when the multiplier is below
/// `pow2(q - d)`.
proof fn lemma_multiple_plus(m: int, rr: int, d: nat, q: nat)
    requires
        d <= q,
        0 <= rr < pow2(d),
        m >= 0,
    ensures
        (m * pow2(d) + rr < pow2(q)) <==> (m < pow2((q - d) as nat)),
{
    let k = pow2((q - d) as nat) as int;
    lemma_pow2_adds((q - d) as nat, d);
    assert(k * pow2(d) == pow2(q));
    if m < k {
        assert(m <= k - 1);
        lemma_mul_inequality(m, k - 1, pow2(d) as int);
        assert((k - 1) * pow2(d) == k * pow2(d) - pow2(d)) by {
            lemma_mul_is_distributive_sub_other_way(pow2(d) as int, k, 1);
        }
        assert(m * pow2(d) + rr < pow2(q));
    }
    if m >= k {
        lemma_mul_inequality(k, m, pow2(d) as int);
        assert(m * pow2(d) + rr >= pow2(q));
    }
}

/// 5 to the 25th power: rewriting `1 / pow2(s)` for `s > 124` as
/// `pow5_25 / (pow2(124) * 10^25)` keeps every intermediate inside a `u128`.
pub open spec fn pow5_25() -> int {
    298023223876953125
}

/// The decimal digits of the pure fraction `f / pow2(124)`, most significant
/// first, ending when the remainder is zero; `fuel` bounds the digit count
/// (124 digits always suffice for this denominator).
pub open spec fn frac_digits(f: int, fuel: nat) -> Seq<char>
    decreases fuel,
{
    if fuel == 0 || f <= 0 {
        Seq::empty()
    } else {
        seq![crate::fmt::dec_digit((f * 10) / pow2(124) as int)] + frac_digits(
            (f * 10) % (pow2(124) as int),
            (fuel - 1) as nat,
        )
    }
}

/// The decimal text chosen for a 32-bit float: the exact decimal expansion of
/// the encoded value (every such value is a dyadic rational, so the expansion
/// terminates), with no exponent notation and no trailing zero padding; a
/// negative zero keeps its sign; NaN is spelled `NaN` and the infinities
/// `inf` and `-inf`.
pub open spec fn float_text(bits: u32) -> Seq<char> {
    if !f_finite(bits) {
        if f_frac(bits) != 0 {
            "NaN"@
        } else if f_is_neg(bits) {
            "-inf"@
        } else {
            "inf"@
        }
    } else if f_mant(bits) == 0 {
        if f_is_neg(bits) {
            "-0"@
        } else {
            "0"@
        }
    } else {
        let sign: Seq<char> = if f_is_neg(bits) {
            seq!['-']
        } else {
            Seq::empty()
        };
        let m = f_mant(bits);
        let p = f_pexp(bits);
        if p >= 149 {
            sign + crate::fmt::dec_of((m * pow2((p - 149) as nat)) as nat)
        } else {
            let s = (149 - p) as nat;
            if s <= 124 {
                let ipart = m / pow2(s) as int;
                let fr = (m % pow2(s) as int) * pow2((124 - s) as nat);
                sign + crate::fmt::dec_of(ipart as nat) + if fr == 0 {
                    Seq::<char>::empty()
                } else {
                    seq!['.'] + frac_digits(fr, 124)
                }
            } else {
                let fr = (m * pow2(p)) * pow5_25();
                sign + seq!['0', '.'] + "0000000000000000000000000"@ + frac_digits(fr, 124)
            }
        }
    }
}

/// Renders the float encoded by `bits` as the text `float_text` describes, by
/// exact integer arithmetic.
pub fn f32_bits_to_text(bits: u32) -> (r: String)
    ensures
        r@ == float_text(bits),
{
    let e: u32 = (bits / 0x800000) % 0x100;
    let fr: u32 = bits % 0x800000;
    let neg: bool = bits / 0x80000000 == 1;
    if e == 255 {
        let text = if fr != 0 {
            "NaN"
        } else if neg {
            "-inf"
        } else {
            "inf"
        };
        return String::from_str(text);
    }
    let m: u32 = if e == 0 {
        fr
    } else {
        fr + 0x800000
    };
    let p: u32 = if e == 0 {
        0
    } else {
        e - 1
    };
    if m == 0 {
        let text = if neg {
            "-0"
        } else {
            "0"
        };
        return String::from_str(text);
    }
    let mut out = String::new();
    if neg {
        push_char(&mut out, '-');
    }
    proof {
        assert(m == f_mant(bits) && p == f_pexp(bits) && neg == f_is_neg(bits));
        assert(m < 0x1000000);
    }
    if p >= 149 {
        let sh: u32 = p - 149;
        let pw: u128 = pow2_u128(sh);
        proof {
            lemma_pow2_le(sh as nat, 104);
            lemma_pow2_adds(64, 40);
            lemma2_to64();
            lemma2_to64_rest();
            lemma_mul_upper_bound(m as int, 0xffffff, pw as int, pow2(104) as int);
        }
        let ip: u128 = (m as u128) * pw;
        let digits = crate::fmt::u128_to_dec(ip);
        let res = out.concat(digits.as_str());
        proof {
            assert(res@ =~= float_text(bits));
        }
        return res;
    }
    let s: u32 = 149 - p;
    let ip: u128;
    let frac: u128;
    let zeros: bool;
    if s <= 124 {
        let ps: u128 = pow2_u128(s);
        ip = (m as u128) / ps;
        let rem: u128 = (m as u128) % ps;
        let pw: u128 = pow2_u128(124 - s);
        proof {
            lemma_pow2_adds(s as nat, (124 - s) as nat);
            lemma_pow2_adds(64, 60);
            lemma2_to64();
            lemma2_to64_rest();
            assert(pow2(124) == 0x10000000000000000000000000000000);
            assert(ps as nat * pw as nat == pow2(124));
            if rem > 0 {
                vstd::arithmetic::mul::lemma_mul_strictly_positive(rem as int, pw as int);
            }
            lemma_mul_upper_bound(rem as int, ps as int - 1, pw as int, pw as int);
            lemma_mul_is_distributive_sub_other_way(pw as int, ps as int, 1);
            assert((ps as int - 1) * (pw as int) == ps as int * pw as int - pw as int);
            assert(rem as int * pw as int <= pow2(124) - pw as int);
        }
        frac = rem * pw;
        zeros = false;
        proof {
            assert(frac < pow2(124));
        }
    } else {
        let pw: u128 = pow2_u128(p);
        proof {
            lemma_pow2_le(p as nat, 24);
            lemma2_to64();
            lemma_mul_upper_bound(m as int, 0xffffff, pw as int, pow2(24) as int);
            lemma_mul_upper_bound(
                (m as int) * (pw as int),
                0xffffffint * 0x1000000int,
                pow5_25(),
                pow5_25(),
            );
            lemma_pow2_adds(64, 60);
            lemma2_to64();
            lemma2_to64_rest();
        }
        ip = 0;
        frac = ((m as u128) * pw) * 298023223876953125u128;
        zeros = true;
        proof {
            vstd::arithmetic::mul::lemma_mul_strictly_positive(m as int, pw as int);
            vstd::arithmetic::mul::lemma_mul_strictly_positive(
                m as int * pw as int,
                pow5_25(),
            );
            assert(frac > 0);
            lemma_pow2_adds(64, 60);
            assert(pow2(124) == 0x10000000000000000000000000000000);
            assert(frac < pow2(124));
        }
    }
    let digits = crate::fmt::u128_to_dec(ip);
    let mut res = out.concat(digits.as_str());
    if frac == 0 {
        proof {
            assert(res@ =~= float_text(bits));
        }
        return res;
    }
    push_char(&mut res, '.');
    if zeros {
        res = res.concat("0000000000000000000000000");
    }
    let ghost target: Seq<char> = res@ + frac_digits(frac as int, 124);
    let p124: u128 = pow2_u128(124);
    let mut f: u128 = frac;
    let mut fuel: u32 = 124;
    while f != 0 && fuel > 0
        invariant
            f < p124,
            p124 as nat == pow2(124),
            fuel <= 124,
            res@ + frac_digits(f as int, fuel as nat) == target,
        decreases fuel,
    {
        proof {
            lemma_pow2_adds(124, 4);
            lemma_pow2_adds(64, 64);
            lemma2_to64();
            assert(pow2(128) == 0x100000000000000000000000000000000);
            lemma_mul_strict_inequality(10, 16, p124 as int);
            lemma_mul_is_commutative(10, p124 as int);
            lemma_mul_is_commutative(16, p124 as int);
            lemma_mul_inequality(f as int, p124 as int - 1, 10);
            lemma_mul_is_commutative(f as int, 10);
            lemma_mul_is_distributive_sub_other_way(10, p124 as int, 1);
            assert((p124 as int - 1) * 10 == p124 as int * 10 - 10);
            assert(f as int * 10 <= p124 as int * 10 - 10);
            assert(p124 as int * 16 == pow2(128));
        }
        let f10: u128 = f * 10;
        let dgt: u128 = f10 / p124;
        proof {
            assert(dgt < 10) by {
                if f10 / p124 >= 10 {
                    vstd::arithmetic::div_mod::lemma_fundamental_div_mod(f10 as int, p124 as int);
                    lemma_mul_inequality(10, f10 as int / p124 as int, p124 as int);
                    lemma_mul_is_commutative(f10 as int / p124 as int, p124 as int);
                    lemma_mul_is_commutative(10, p124 as int);
                }
            }
        }
        let ghost res_old: Seq<char> = res@;
        let ghost f_old: int = f as int;
        let ghost fuel_old: nat = fuel as nat;
        push_char(&mut res, crate::fmt::dec_digit_char(dgt));
        f = f10 % p124;
        fuel = fuel - 1;
        proof {
            assert(frac_digits(f_old, fuel_old) == seq![
                crate::fmt::dec_digit((f_old * 10) / pow2(124) as int),
            ] + frac_digits((f_old * 10) % (pow2(124) as int), (fuel_old - 1) as nat));
            assert(res@ + frac_digits(f as int, fuel as nat) =~= target);
        }
    }
    proof {
        assert(frac_digits(f as int, fuel as nat) =~= Seq::<char>::empty());
        assert(res@ =~= target);
        assert(res@ =~= float_text(bits));
    }
    res
}

/// Decides equality-within-epsilon of two single-precision bit patterns by
/// exact integer arithmetic on their significands and exponents.
#[verifier::rlimit(100)]
pub fn f32_bits_within_epsilon(a: u32, b: u32) -> (r: bool)
    ensures
        r == f32_within_epsilon(a, b),
{
    let ea: u32 = (a / 0x800000) % 0x100;
    let eb: u32 = (b / 0x800000) % 0x100;
    if ea == 255 || eb == 255 {
        return false;
    }
    let na: u32 = if ea == 0 {
        a % 0x800000
    } else {
        a % 0x800000 + 0x800000
    };
    let nb: u32 = if eb == 0 {
        b % 0x800000
    } else {
        b % 0x800000 + 0x800000
    };
    let pa: u32 = if ea == 0 {
        0
    } else {
        ea - 1
    };
    let pb: u32 = if eb == 0 {
        0
    } else {
        eb - 1
    };
    let sa: bool = a / 0x80000000 == 1;
    let sb: bool = b / 0x80000000 == 1;
    let n1: u32;
    let p1: u32;
    let s1: bool;
    let n2: u32;
    let p2: u32;
    let s2: bool;
    if pa >= pb {
        n1 = na;
        p1 = pa;
        s1 = sa;
        n2 = nb;
        p2 = pb;
        s2 = sb;
    } else {
        n1 = nb;
        p1 = pb;
        s1 = sb;
        n2 = na;
        p2 = pa;
        s2 = sa;
    }
    let opposite: bool = s1 != s2;
    let d: u32 = p1 - p2;
    proof {
        assert(na == f_mant(a) && pa == f_pexp(a) && (sa == f_is_neg(a)));
        assert(nb == f_mant(b) && pb == f_pexp(b) && (sb == f_is_neg(b)));
        assert(na < 0x1000000 && nb < 0x1000000);
        assert(p1 <= 253 && p2 <= 253);
    }
    // The absolute difference of the two scaled values is
    // `ecap * pow2(p2)` where `ecap` is `n1 * pow2(d) + n2` for values of
    // opposite sign and `|n1 * pow2(d) - n2|` for values of the same sign.
    let ghost k: int = pow2(p2 as nat) as int;
    let ghost x: int = n1 as int * pow2(d as nat);
    let ghost ecap: int = if opposite {
        x + n2
    } else {
        abs(x - n2) as int
    };
    proof {
        lemma_pow2_adds(d as nat, p2 as nat);
        lemma_mul_is_associative(n1 as int, pow2(d as nat) as int, k);
        assert(n1 as int * pow2(p1 as nat) == x * k);
        let v1: int = if s1 {
            -(x * k)
        } else {
            x * k
        };
        let v2: int = if s2 {
            -(n2 as int * k)
        } else {
            n2 as int * k
        };
        assert(abs(f_val_scaled(a) - f_val_scaled(b)) == abs(v1 - v2));
        lemma_mul_inequality(0, n1 as int, pow2(d as nat) as int);
        if opposite {
            lemma_abs_sum_scale(x, n2 as int, k);
            assert(abs(v1 - v2) == (x + n2) * k);
        } else {
            lemma_abs_diff_scale(x, n2 as int, k);
            assert(abs(v1 - v2) == abs(x - n2) * k);
        }
        assert(abs(f_val_scaled(a) - f_val_scaled(b)) == ecap * k);
        assert(ecap >= 0);
    }
    if d <= 37 {
        let pw: u128 = pow2_u128(d);
        proof {
            lemma_pow2_le(d as nat, 37);
            lemma2_to64_rest();
            lemma_mul_inequality(pw as int, 0x2000000000, n1 as int);
            lemma_mul_is_commutative(n1 as int, pw as int);
            lemma_mul_inequality(n1 as int, 0xffffff, 0x2000000000);
        }
        let hi: u128 = (n1 as u128) * pw;
        let n2w: u128 = n2 as u128;
        let e: u128 = if opposite {
            hi + n2w
        } else if hi >= n2w {
            hi - n2w
        } else {
            n2w - hi
        };
        proof {
            assert(e as int == ecap);
            assert(e < 0x4000000000000000);
        }
        if p2 >= 150 {
            proof {
                lemma_big_scale(ecap, p2 as nat, f_val_scaled(a), f_val_scaled(b));
            }
            e == 0
        } else {
            let q: u32 = 149 - p2;
            proof {
                lemma_pow2_adds(q as nat, p2 as nat);
                lemma_mul_is_commutative(pow2(p2 as nat) as int, 10000);
                lemma_mul_is_associative(ecap, pow2(p2 as nat) as int, 10000);
                lemma_mul_is_associative(ecap, 10000, pow2(p2 as nat) as int);
                lemma_mul_is_commutative(10000, pow2(p2 as nat) as int);
                assert(abs(f_val_scaled(a) - f_val_scaled(b)) * 10000 == (ecap * 10000) * pow2(
                    p2 as nat,
                ));
                lemma_cancel_pos(ecap * 10000, pow2(q as nat) as int, pow2(p2 as nat) as int);
                lemma_mul_is_commutative(pow2(q as nat) as int, pow2(p2 as nat) as int);
                assert(f32_within_epsilon(a, b) <==> ecap * 10000 < pow2(q as nat));
            }
            if q >= 76 {
                proof {
                    lemma_mul_inequality(ecap, 0x4000000000000000, 10000);
                    lemma_pow2_adds(62, 14);
                    lemma2_to64();
                    lemma2_to64_rest();
                    lemma_pow2_le(76, q as nat);
                    assert(ecap * 10000 < pow2(q as nat));
                }
                true
            } else {
                let lim: u128 = pow2_u128(q);
                proof {
                    lemma_mul_inequality(ecap, 0x4000000000000000, 10000);
                }
                e * 10000 < lim
            }
        }
    } else {
        // d >= 38: n1 belongs to a normal value, so n1 >= 0x800000 and the
        // low term n2 * 10000 is below pow2(d).
        proof {
            assert(p1 >= 38);
            assert(n1 >= 0x800000);
            lemma2_to64_rest();
            lemma_pow2_le(38, d as nat);
            lemma_mul_inequality(1, n1 as int, pow2(d as nat) as int);
            assert(x >= pow2(d as nat));
            assert(ecap >= pow2(d as nat) - 0x1000000 >= 1) by {
                if !opposite {
                    assert(x - n2 > 0);
                }
            }
        }
        if p2 >= 150 {
            proof {
                lemma_big_scale(ecap, p2 as nat, f_val_scaled(a), f_val_scaled(b));
            }
            return false;
        }
        let q: u32 = 149 - p2;
        proof {
            lemma_pow2_adds(q as nat, p2 as nat);
            lemma_mul_is_commutative(pow2(p2 as nat) as int, 10000);
            lemma_mul_is_associative(ecap, pow2(p2 as nat) as int, 10000);
            lemma_mul_is_associative(ecap, 10000, pow2(p2 as nat) as int);
            lemma_mul_is_commutative(10000, pow2(p2 as nat) as int);
            assert(abs(f_val_scaled(a) - f_val_scaled(b)) * 10000 == (ecap * 10000) * pow2(
                p2 as nat,
            ));
            lemma_cancel_pos(ecap * 10000, pow2(q as nat) as int, pow2(p2 as nat) as int);
            lemma_mul_is_commutative(pow2(q as nat) as int, pow2(p2 as nat) as int);
            assert(f32_within_epsilon(a, b) <==> ecap * 10000 < pow2(q as nat));
        }
        if q < d {
            proof {
                lemma_mul_inequality(1, 10000, ecap);
                lemma_mul_is_commutative(10000, ecap);
                lemma_mul_inequality(1, ecap, 10000);
                assert(ecap * 10000 >= ecap);
                assert(ecap >= pow2(d as nat) - 0x1000000);
                lemma2_to64_rest();
                assert(pow2(d as nat) - 0x1000000 >= pow2(q as nat)) by {
                    lemma_pow2_adds((d - 1) as nat, 1);
                    lemma2_to64();
                    lemma_pow2_le(q as nat, (d - 1) as nat);
                    lemma_pow2_le(37, (d - 1) as nat);
                }
            }
            return false;
        }
        // ecap * 10000 == m * pow2(d) -/+ rr with m == n1 * 10000 and
        // rr == n2 * 10000 < pow2(38) <= pow2(d).
        let ghost m: int = n1 as int * 10000;
        let ghost rr: int = n2 as int * 10000;
        proof {
            lemma_mul_inequality(n2 as int, 0xffffff, 10000);
            lemma_pow2_le(38, d as nat);
            lemma2_to64_rest();
            assert(rr < pow2(d as nat));
            if opposite {
                assert(ecap * 10000 == m * pow2(d as nat) + rr) by {
                    lemma_mul_is_distributive_add_other_way(10000, x, n2 as int);
                    lemma_mul_is_commutative(x, 10000);
                    lemma_mul_is_associative(10000, n1 as int, pow2(d as nat) as int);
                    lemma_mul_is_commutative(10000, n1 as int);
                    lemma_mul_is_associative(n1 as int, 10000, pow2(d as nat) as int);
                    lemma_mul_is_commutative(n2 as int, 10000);
                }
            } else {
                assert(x - n2 >= 0);
                assert(ecap == x - n2);
                assert(ecap * 10000 == m * pow2(d as nat) - rr) by {
                    lemma_mul_is_distributive_sub_other_way(10000, x, n2 as int);
                    lemma_mul_is_commutative(x, 10000);
                    lemma_mul_is_associative(10000, n1 as int, pow2(d as nat) as int);
                    lemma_mul_is_commutative(10000, n1 as int);
                    lemma_mul_is_associative(n1 as int, 10000, pow2(d as nat) as int);
                    lemma_mul_is_commutative(n2 as int, 10000);
                }
            }
        }
        let qd: u32 = q - d;
        if qd >= 39 {
            proof {
                lemma_mul_inequality(n1 as int, 0xffffff, 10000);
                lemma_pow2_le(39, qd as nat);
                lemma2_to64_rest();
                if opposite || n2 == 0 {
                    lemma_multiple_plus(m, rr, d as nat, q as nat);
                    if !opposite {
                        assert(rr == 0);
                        assert(ecap * 10000 == m * pow2(d as nat) + rr);
                    }
                } else {
                    lemma_multiple_minus(m, rr, d as nat, q as nat);
                }
                assert(m < pow2(39));
                assert(m < pow2(qd as nat));
            }
            true
        } else {
            let mm: u64 = (n1 as u64) * 10000;
            let lim: u128 = pow2_u128(qd);
            proof {
                lemma_mul_inequality(n1 as int, 0xffffff, 10000);
                assert(mm as int == m);
                if opposite || n2 == 0 {
                    lemma_multiple_plus(m, rr, d as nat, q as nat);
                    if !opposite {
                        assert(rr == 0);
                        assert(ecap * 10000 == m * pow2(d as nat) + rr);
                    }
                } else {
                    lemma_multiple_minus(m, rr, d as nat, q as nat);
                }
            }
            if opposite || n2 == 0 {
                (mm as u128) < lim
            } else {
                (mm as u128) <= lim
            }
        }
    }
}

} // verus!
