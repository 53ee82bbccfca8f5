//! Numbers as text, and whole numbers nearest to a double.

use vstd::arithmetic::power2::{lemma_pow2_pos, lemma_pow2_strictly_increases, lemma_pow2_unfold, pow2};
use vstd::prelude::*;

verus! {

/// The character of the digit `n`.
pub open spec fn digit(n: nat) -> char {
    (48 + n) as char
}

/// `n` in decimal digits, without leading zeros.
pub open spec fn decimal(n: nat) -> Seq<char>
    decreases n,
{
    if n < 10 {
        seq![digit(n)]
    } else {
        decimal(n / 10).push(digit(n % 10))
    }
}

/// `n` in at least two decimal digits.
pub open spec fn two_digits(n: nat) -> Seq<char> {
    if n < 10 {
        seq!['0', digit(n)]
    } else {
        decimal(n)
    }
}

/// Appends `n` in decimal digits.
pub fn push_decimal(text: &mut String, n: u64)
    ensures
        final(text)@ == old(text)@ + decimal(n as nat),
    decreases n,
{
    let last: u8 = (48 + n % 10) as u8;
    if n >= 10 {
        push_decimal(text, n / 10);
    }
    text.push(last as char);
}

/// Appends `n` in at least two decimal digits.
pub fn push_two_digits(text: &mut String, n: u64)
    ensures
        final(text)@ == old(text)@ + two_digits(n as nat),
{
    if n < 10 {
        text.push('0');
    }
    push_decimal(text, n);
}

/// A time span as a clock shows it: hours, where there are any, minutes and seconds.
pub open spec fn clock(total: nat) -> Seq<char> {
    let hours = total / 3600;
    let minutes = (total % 3600) / 60;
    let seconds = total % 60;
    if hours > 0 {
        decimal(hours) + ":"@ + two_digits(minutes) + ":"@ + two_digits(seconds)
    } else {
        decimal(minutes) + ":"@ + two_digits(seconds)
    }
}

/// A time span of `total` seconds as a clock shows it.
pub fn clock_text(total: u64) -> (text: String)
    ensures
        text@ == clock(total as nat),
{
    let hours: u64 = total / 3600;
    let minutes: u64 = (total % 3600) / 60;
    let seconds: u64 = total % 60;
    let mut text = String::new();
    if hours > 0 {
        push_decimal(&mut text, hours);
        text.append(":");
        push_two_digits(&mut text, minutes);
    } else {
        push_decimal(&mut text, minutes);
    }
    text.append(":");
    push_two_digits(&mut text, seconds);
    text
}

/// The whole number nearest to a double, halves upwards, given the double's IEEE 754 bits.
///
/// What lies outside the range of `u64` becomes the nearest end of that range, and what is not a
/// number becomes zero.
pub open spec fn double_rounded(bits: u64) -> nat {
    let negative = bits >= 0x8000_0000_0000_0000;
    let exponent = (bits / 0x10_0000_0000_0000) % 0x800;
    let fraction = bits % 0x10_0000_0000_0000;
    if negative {
        0
    } else if exponent == 0x7ff {
        if fraction == 0 {
            u64::MAX as nat
        } else {
            0
        }
    } else if exponent >= 1075 {
        let whole = (0x10_0000_0000_0000 + fraction) as nat * pow2((exponent - 1075) as nat);
        if whole > u64::MAX {
            u64::MAX as nat
        } else {
            whole
        }
    } else {
        let significand = if exponent == 0 {
            fraction as nat
        } else {
            (0x10_0000_0000_0000 + fraction) as nat
        };
        let scale = if exponent == 0 {
            1074nat
        } else {
            (1075 - exponent) as nat
        };
        (2 * significand + pow2(scale)) / (2 * pow2(scale))
    }
}

/// The whole number nearest to the double with the given IEEE 754 bits.
pub fn round_double(bits: u64) -> (whole: u64)
    ensures
        whole == double_rounded(bits),
{
    let exponent: u64 = (bits / 0x10_0000_0000_0000) % 0x800;
    let fraction: u64 = bits % 0x10_0000_0000_0000;
    if bits >= 0x8000_0000_0000_0000 {
        return 0;
    }
    if exponent == 0x7ff {
        return if fraction == 0 {
            u64::MAX
        } else {
            0
        };
    }
    if exponent >= 1075 {
        return scale_up(0x10_0000_0000_0000 + fraction, exponent - 1075);
    }
    if exponent <= 1021 {
        proof {
            let scale = if exponent == 0 {
                1074nat
            } else {
                (1075 - exponent) as nat
            };
            if scale > 54 {
                lemma_pow2_strictly_increases(54, scale);
            }
            assert(pow2(54) == 0x40_0000_0000_0000) by {
                vstd::arithmetic::power2::lemma2_to64_rest();
            }
            let significand = if exponent == 0 {
                fraction as nat
            } else {
                (0x10_0000_0000_0000 + fraction) as nat
            };
            lemma_small_quotient(2 * significand + pow2(scale), 2 * pow2(scale));
        }
        return 0;
    }
    let mut power: u64 = 1;
    let mut k: u64 = 0;
    assert(pow2(0) == 1) by {
        vstd::arithmetic::power2::lemma2_to64();
    }
    while k < 1075 - exponent
        invariant
            1021 < exponent < 1075,
            k <= 1075 - exponent,
            power == pow2(k as nat),
            power <= 0x20_0000_0000_0000,
        decreases 1075 - exponent - k,
    {
        proof {
            lemma_pow2_unfold((k + 1) as nat);
            lemma_pow2_bound((k + 1) as nat);
        }
        power = 2 * power;
        k += 1;
    }
    proof {
        lemma_pow2_pos(k as nat);
    }
    (2 * (0x10_0000_0000_0000 + fraction) + power) / (2 * power)
}

proof fn lemma_pow2_bound(k: nat)
    requires
        k <= 53,
    ensures
        pow2(k) <= 0x20_0000_0000_0000,
{
    if k < 53 {
        lemma_pow2_strictly_increases(k, 53);
    }
    assert(pow2(53) == 0x20_0000_0000_0000) by {
        vstd::arithmetic::power2::lemma2_to64_rest();
    }
}

proof fn lemma_small_quotient(a: nat, b: nat)
    requires
        a < b,
    ensures
        a / b == 0,
{
    vstd::arithmetic::div_mod::lemma_basic_div(a as int, b as int);
}

/// `value` times two to the power `shift`, or the largest `u64` where that is less.
fn scale_up(value: u64, shift: u64) -> (scaled: u64)
    requires
        value > 0,
    ensures
        ({
            let whole = value as nat * pow2(shift as nat);
            scaled == if whole > u64::MAX {
                u64::MAX as nat
            } else {
                whole
            }
        }),
    decreases shift,
{
    if shift == 0 {
        assert(pow2(0) == 1) by {
            vstd::arithmetic::power2::lemma2_to64();
        }
        return value;
    }
    proof {
        lemma_pow2_unfold(shift as nat);
        lemma_pow2_pos((shift - 1) as nat);
        let p = pow2((shift - 1) as nat);
        assert(value as nat * (2 * p) == (2 * value) as nat * p) by (nonlinear_arith);
        assert((2 * value) as nat * p >= 2 * value) by (nonlinear_arith)
            requires
                p > 0,
        ;
    }
    if value > u64::MAX / 2 {
        return u64::MAX;
    }
    scale_up(2 * value, shift - 1)
}

/// The number that a row of digits reads as.
pub open spec fn value_of(digits: Seq<char>) -> nat
    decreases digits.len(),
{
    if digits.len() == 0 {
        0
    } else {
        (value_of(digits.drop_last()) * 10 + (digits.last() as u32 - '0' as u32)) as nat
    }
}

proof fn lemma_value_of_digit(digits: Seq<char>, n: nat)
    requires
        n < 10,
    ensures
        digit(n) as u32 == '0' as u32 + n,
        value_of(digits.push(digit(n))) == value_of(digits) * 10 + n,
        value_of(Seq::<char>::empty()) == 0,
{
    assert(digits.push(digit(n)).drop_last() =~= digits);
}

/// A number is written in decimal digits that read as the number, without needless zeros.
pub proof fn law_decimal(n: nat)
    ensures
        value_of(decimal(n)) == n,
        decimal(n).len() > 0,
        decimal(n).len() > 1 ==> decimal(n)[0] != '0',
        forall|i: int|
            0 <= i < decimal(n).len() ==> '0' as u32 <= (#[trigger] decimal(n)[i]) as u32 <= '9'
                as u32,
    decreases n,
{
    if n >= 10 {
        law_decimal(n / 10);
        lemma_value_of_digit(decimal(n / 10), n % 10);
        assert(decimal(n)[0] == decimal(n / 10)[0]);
        if n / 10 < 10 {
            assert(n / 10 > 0);
            lemma_value_of_digit(seq![], n / 10);
            assert(decimal(n / 10)[0] == digit(n / 10));
        } else {
            assert(decimal(n / 10).len() == decimal(n / 10 / 10).len() + 1);
            law_decimal(n / 10 / 10);
        }
    } else {
        lemma_value_of_digit(seq![], n);
        assert(decimal(n) =~= Seq::<char>::empty().push(digit(n)));
    }
}

/// Minutes and seconds are written in two digits.
pub proof fn law_two_digits(n: nat)
    requires
        n < 100,
    ensures
        two_digits(n).len() == 2,
        value_of(two_digits(n)) == n,
{
    if n < 10 {
        lemma_value_of_digit(seq![], 0);
        assert(digit(0) == '0');
        assert(Seq::<char>::empty().push('0') =~= seq!['0']);
        lemma_value_of_digit(seq!['0'], n);
        assert(two_digits(n) =~= seq!['0'].push(digit(n)));
    } else {
        law_decimal(n);
        assert(n / 10 < 10);
        assert(decimal(n / 10).len() == 1);
    }
}

/// A clock shows hours, minutes and seconds, and leaves the hours out where there are none.
pub proof fn law_clock(hours: nat, minutes: nat, seconds: nat)
    requires
        minutes < 60,
        seconds < 60,
    ensures
        clock(hours * 3600 + minutes * 60 + seconds) == if hours > 0 {
            decimal(hours) + ":"@ + two_digits(minutes) + ":"@ + two_digits(seconds)
        } else {
            decimal(minutes) + ":"@ + two_digits(seconds)
        },
{
    let total = hours * 3600 + minutes * 60 + seconds;
    assert(total / 3600 == hours && total % 3600 == minutes * 60 + seconds && total % 60 == seconds)
        by (nonlinear_arith)
        requires
            total == hours * 3600 + minutes * 60 + seconds,
            minutes < 60,
            seconds < 60,
    ;
}

/// A double that is not negative, nor too large, is rounded to the nearest whole number, halves
/// upward: the double `s / 2^k`, with `s` and `k` as its bits give them, lies from half below the
/// result to less than half above it.
pub proof fn law_rounding(exponent: nat, fraction: nat)
    requires
        exponent < 1075,
        fraction < 0x10_0000_0000_0000,
    ensures
        ({
            let bits = (exponent * 0x10_0000_0000_0000 + fraction) as u64;
            let s: nat = if exponent == 0 {
                fraction
            } else {
                0x10_0000_0000_0000 + fraction
            };
            let k: nat = if exponent == 0 {
                1074
            } else {
                (1075 - exponent) as nat
            };
            let r = double_rounded(bits);
            &&& 2 * (r * pow2(k)) <= 2 * s + pow2(k)
            &&& 2 * s + pow2(k) < 2 * (r * pow2(k)) + 2 * pow2(k)
        }),
{
    let unit: nat = 0x10_0000_0000_0000;
    let wide = exponent * unit + fraction;
    assert(wide <= u64::MAX && wide / unit == exponent && wide % unit == fraction) by (nonlinear_arith)
        requires
            wide == exponent * unit + fraction,
            unit == 0x10_0000_0000_0000,
            exponent < 1075,
            fraction < unit,
    ;
    let bits = wide as u64;
    assert(bits < 0x8000_0000_0000_0000) by (nonlinear_arith)
        requires
            bits == exponent * unit + fraction,
            unit == 0x10_0000_0000_0000,
            exponent < 1075,
            fraction < unit,
    ;
    let s: nat = if exponent == 0 {
        fraction
    } else {
        unit + fraction
    };
    let k: nat = if exponent == 0 {
        1074
    } else {
        (1075 - exponent) as nat
    };
    let p = pow2(k);
    lemma_pow2_pos(k);
    let r = (2 * s + p) / (2 * p);
    assert(double_rounded(bits) == r);
    assert(2 * (r * p) <= 2 * s + p && 2 * s + p < 2 * (r * p) + 2 * p) by (nonlinear_arith)
        requires
            p > 0,
            r == (2 * s + p) / (2 * p),
    ;
}

/// A negative double counts as none.
pub proof fn law_negative_doubles(bits: u64)
    requires
        bits >= 0x8000_0000_0000_0000,
    ensures
        double_rounded(bits) == 0,
{
}

/// A double without a fraction is that whole number, and the largest number where it is larger;
/// what is no number counts as none.
pub proof fn law_large_doubles(bits: u64, exponent: nat, fraction: nat)
    requires
        1075 <= exponent <= 2047,
        fraction < 0x10_0000_0000_0000,
        bits == exponent * 0x10_0000_0000_0000 + fraction,
    ensures
        exponent < 2047 ==> ({
            let whole = (0x10_0000_0000_0000 + fraction) as nat * pow2((exponent - 1075) as nat);
            double_rounded(bits) == if whole <= u64::MAX {
                whole
            } else {
                u64::MAX as nat
            }
        }),
        exponent == 2047 ==> double_rounded(bits) == if fraction == 0 {
            u64::MAX as nat
        } else {
            0
        },
{
    let unit: nat = 0x10_0000_0000_0000;
    assert(bits < 0x8000_0000_0000_0000 && bits as nat / unit == exponent && bits as nat % unit
        == fraction) by (nonlinear_arith)
        requires
            bits == exponent * unit + fraction,
            unit == 0x10_0000_0000_0000,
            exponent <= 2047,
            fraction < unit,
    ;
}

} // verus!
