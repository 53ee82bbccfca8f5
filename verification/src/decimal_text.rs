//! Which texts are floating-point numbers.

use vstd::prelude::*;

use crate::text::{ascii_lowered, chars_of, same_text, text_of, to_ascii_lowercase};

verus! {

/// One of the digits `0` to `9`.
pub open spec fn is_digit(c: char) -> bool {
    '0' as u32 <= c as u32 <= '9' as u32
}

/// A run of digits, not empty.
pub open spec fn is_digits(text: Seq<char>) -> bool {
    text.len() > 0 && forall|i: int| 0 <= i < text.len() ==> is_digit(#[trigger] text[i])
}

/// Digits with at most one point among them, and at least one digit.
pub open spec fn is_mantissa(text: Seq<char>) -> bool {
    &&& forall|i: int| 0 <= i < text.len() ==> is_digit(#[trigger] text[i]) || text[i] == '.'
    &&& forall|i: int, j: int| 0 <= i < j < text.len() ==> text[i] != '.' || text[j] != '.'
    &&& exists|i: int| 0 <= i < text.len() && is_digit(#[trigger] text[i])
}

/// `text` without the sign that it begins with.
pub open spec fn without_sign(text: Seq<char>) -> Seq<char> {
    if text.len() > 0 && (text[0] == '+' || text[0] == '-') {
        text.skip(1)
    } else {
        text
    }
}

/// The letter `e`, small or large.
pub open spec fn is_e(c: char) -> bool {
    c == 'e' || c == 'E'
}

/// The letter `e`, then digits that may have a sign.
pub open spec fn is_exponent(text: Seq<char>) -> bool {
    text.len() > 0 && is_e(text[0]) && is_digits(without_sign(text.skip(1)))
}

/// A number without a sign: a mantissa that may have an exponent.
pub open spec fn is_number(text: Seq<char>) -> bool {
    is_mantissa(text) || exists|k: int|
        0 <= k < text.len() && is_mantissa(#[trigger] text.take(k)) && is_exponent(text.skip(k))
}

/// A floating-point number: one in digits, an infinity, or what is not a number.
pub open spec fn is_float(text: Seq<char>) -> bool {
    let body = without_sign(text);
    let name = ascii_lowered(body);
    name == "inf"@ || name == "infinity"@ || name == "nan"@ || is_number(body)
}

fn is_digit_char(c: char) -> (b: bool)
    ensures
        b == is_digit(c),
{
    48 <= c as u32 && c as u32 <= 57
}

fn all_digits(t: &Vec<char>, from: usize) -> (b: bool)
    requires
        from <= t@.len(),
    ensures
        b == is_digits(t@.skip(from as int)),
{
    let ghost rest = t@.skip(from as int);
    let mut i: usize = from;
    while i < t.len()
        invariant
            from <= i <= t@.len(),
            rest == t@.skip(from as int),
            forall|k: int| 0 <= k < i - from ==> is_digit(#[trigger] rest[k]),
        decreases t@.len() - i,
    {
        assert(rest[i - from] == t@[i as int]);
        if !is_digit_char(t[i]) {
            return false;
        }
        i += 1;
    }
    from < t.len()
}

fn mantissa_until(t: &Vec<char>, to: usize) -> (b: bool)
    requires
        to <= t@.len(),
    ensures
        b == is_mantissa(t@.take(to as int)),
{
    let ghost head = t@.take(to as int);
    let mut points: usize = 0;
    let ghost mut point: int = -1;
    let ghost mut witness: int = -1;
    let mut digits: bool = false;
    let mut i: usize = 0;
    while i < to
        invariant
            i <= to <= t@.len(),
            head == t@.take(to as int),
            forall|k: int| 0 <= k < i ==> is_digit(#[trigger] head[k]) || head[k] == '.',
            points <= 1,
            points == 0 ==> forall|k: int| 0 <= k < i ==> #[trigger] head[k] != '.',
            points == 1 ==> 0 <= point < i && head[point] == '.' && forall|k: int|
                0 <= k < i && k != point ==> #[trigger] head[k] != '.',
            digits ==> 0 <= witness < i && is_digit(head[witness]),
            !digits ==> forall|k: int| 0 <= k < i ==> !is_digit(#[trigger] head[k]),
        decreases to - i,
    {
        assert(head[i as int] == t@[i as int]);
        if is_digit_char(t[i]) {
            digits = true;
            proof {
                witness = i as int;
            }
        } else if t[i] == '.' {
            if points == 1 {
                return false;
            }
            points = 1;
            proof {
                point = i as int;
            }
        } else {
            return false;
        }
        i += 1;
    }
    digits
}

fn number_from(t: &Vec<char>) -> (b: bool)
    ensures
        b == is_number(t@),
{
    let mut k: usize = 0;
    while k < t.len() && t[k] != 'e' && t[k] != 'E'
        invariant
            k <= t@.len(),
            forall|j: int| 0 <= j < k ==> !is_e(#[trigger] t@[j]),
        decreases t@.len() - k,
    {
        k += 1;
    }
    proof {
        assert forall|j: int|
            0 <= j < t@.len() && is_mantissa(#[trigger] t@.take(j)) && is_exponent(
                t@.skip(j),
            ) implies j == k by {
            assert(is_e(t@.skip(j)[0]));
            assert(t@.skip(j)[0] == t@[j]);
            if k < j {
                assert(t@.take(j)[k as int] == t@[k as int]);
            }
        }
    }
    if k == t.len() {
        assert(t@.take(k as int) =~= t@);
        return mantissa_until(t, k);
    }
    proof {
        if is_mantissa(t@) {
            assert(is_digit(t@[k as int]) || t@[k as int] == '.');
        }
    }
    if !mantissa_until(t, k) {
        return false;
    }
    let ghost tail = t@.skip(k as int).skip(1);
    let mut from: usize = k + 1;
    assert(tail =~= t@.skip(k + 1));
    if from < t.len() && (t[from] == '+' || t[from] == '-') {
        assert(tail[0] == t@[k + 1]);
        assert(tail.skip(1) =~= t@.skip(k + 2));
        from += 1;
    } else {
        assert(tail.len() > 0 ==> tail[0] == t@[k + 1]);
    }
    assert(without_sign(tail) == t@.skip(from as int));
    assert(t@.skip(k as int)[0] == t@[k as int]);
    all_digits(t, from)
}

/// Whether `text` is a floating-point number.
pub fn is_float_text(text: &str) -> (b: bool)
    ensures
        b == is_float(text@),
{
    let t = chars_of(text);
    let from: usize = if t.len() > 0 && (t[0] == '+' || t[0] == '-') {
        1
    } else {
        0
    };
    let body = text_of(&t, from, t.len());
    assert(body@ =~= without_sign(text@));
    let name = to_ascii_lowercase(body.as_str());
    if same_text(name.as_str(), "inf") || same_text(name.as_str(), "infinity") || same_text(
        name.as_str(),
        "nan",
    ) {
        return true;
    }
    let chars = chars_of(body.as_str());
    number_from(&chars)
}

/// Digits are a number, with a point among them or not, and with an exponent or not.
pub proof fn law_forms_of_numbers(whole: Seq<char>, part: Seq<char>, exponent: Seq<char>)
    requires
        is_digits(whole),
        is_digits(part),
        is_digits(exponent),
    ensures
        is_number(whole),
        is_number(whole + seq!['.'] + part),
        is_number(seq!['.'] + part),
        is_number(whole + seq!['.']),
        is_number(whole + (seq!['e'] + exponent)),
        is_number(whole + seq!['.'] + part + (seq!['E', '-'] + exponent)),
        is_number(whole + (seq!['e', '+'] + exponent)),
{
    assert(is_digit(whole[0]) && is_digit(part[0]) && is_digit(exponent[0]));
    lemma_mantissa(whole);
    let mixed = whole + seq!['.'] + part;
    assert(mixed[0] == whole[0]);
    assert forall|i: int| 0 <= i < mixed.len() implies is_digit(#[trigger] mixed[i]) || mixed[i]
        == '.' by {
        if i < whole.len() {
            assert(mixed[i] == whole[i]);
        } else if i > whole.len() {
            assert(mixed[i] == part[i - whole.len() - 1]);
        }
    }
    assert forall|i: int, j: int| 0 <= i < j < mixed.len() implies mixed[i] != '.' || mixed[j]
        != '.' by {
        if i < whole.len() {
            assert(is_digit(whole[i]));
        } else if j > whole.len() {
            assert(is_digit(part[j - whole.len() - 1]));
        }
    }
    assert(is_mantissa(mixed));
    let headless = seq!['.'] + part;
    assert(headless[1] == part[0]);
    assert forall|i: int| 0 <= i < headless.len() implies is_digit(#[trigger] headless[i])
        || headless[i] == '.' by {
        if i > 0 {
            assert(headless[i] == part[i - 1]);
        }
    }
    assert forall|i: int, j: int| 0 <= i < j < headless.len() implies headless[i] != '.'
        || headless[j] != '.' by {
        assert(is_digit(part[j - 1]));
    }
    assert(is_mantissa(headless));
    let open_end = whole + seq!['.'];
    assert(open_end[0] == whole[0]);
    assert forall|i: int| 0 <= i < open_end.len() implies is_digit(#[trigger] open_end[i])
        || open_end[i] == '.' by {
        if i < whole.len() {
            assert(open_end[i] == whole[i]);
        }
    }
    assert forall|i: int, j: int| 0 <= i < j < open_end.len() implies open_end[i] != '.'
        || open_end[j] != '.' by {
        assert(is_digit(whole[i]));
    }
    assert(is_mantissa(open_end));
    lemma_with_exponent(whole, seq!['e'] + exponent);
    lemma_with_exponent(mixed, seq!['E', '-'] + exponent);
    lemma_with_exponent(whole, seq!['e', '+'] + exponent);
    let e1 = seq!['e'] + exponent;
    assert(e1.skip(1) =~= exponent);
    assert(without_sign(exponent) == exponent);
    let e2 = seq!['E', '-'] + exponent;
    assert(e2.skip(1).skip(1) =~= exponent);
    assert(e2.skip(1)[0] == '-');
    let e3 = seq!['e', '+'] + exponent;
    assert(e3.skip(1).skip(1) =~= exponent);
    assert(e3.skip(1)[0] == '+');
}

proof fn lemma_mantissa(digits: Seq<char>)
    requires
        is_digits(digits),
    ensures
        is_mantissa(digits),
{
    assert(is_digit(digits[0]));
    assert forall|i: int, j: int| 0 <= i < j < digits.len() implies digits[i] != '.' || digits[j]
        != '.' by {
        assert(is_digit(digits[i]));
    }
}

proof fn lemma_with_exponent(mantissa: Seq<char>, exponent: Seq<char>)
    ensures
        is_mantissa(mantissa) && is_exponent(exponent) ==> is_number(mantissa + exponent),
{
    if is_mantissa(mantissa) && is_exponent(exponent) {
        let all = mantissa + exponent;
        assert(all.take(mantissa.len() as int) =~= mantissa);
        assert(all.skip(mantissa.len() as int) =~= exponent);
    }
}

/// A number may have a sign, and so may the names of what is no finite number, however they are
/// written.
pub proof fn law_signs(text: Seq<char>)
    requires
        text.len() > 0,
        text[0] != '+' && text[0] != '-',
    ensures
        is_float(seq!['-'] + text) == is_float(text),
        is_float(seq!['+'] + text) == is_float(text),
        is_number(text) ==> is_float(text),
        ascii_lowered(text) == "inf"@ ==> is_float(text),
        ascii_lowered(text) == "infinity"@ ==> is_float(text),
        ascii_lowered(text) == "nan"@ ==> is_float(text),
{
    assert((seq!['-'] + text).skip(1) =~= text);
    assert((seq!['+'] + text).skip(1) =~= text);
}

/// A number begins with a digit or a point, and holds nothing but digits, points, signs and the
/// letter of an exponent.
pub proof fn law_no_numbers(text: Seq<char>, i: int)
    requires
        is_number(text),
        0 <= i < text.len(),
    ensures
        is_digit(text[0]) || text[0] == '.',
        is_digit(text[i]) || text[i] == '.' || text[i] == '+' || text[i] == '-' || text[i] == 'e'
            || text[i] == 'E',
{
    if !is_mantissa(text) {
        let k = choose|k: int|
            0 <= k < text.len() && is_mantissa(#[trigger] text.take(k)) && is_exponent(
                text.skip(k),
            );
        let head = text.take(k);
        let tail = text.skip(k);
        assert(head.len() > 0);
        assert(head[0] == text[0]);
        assert(is_digit(head[0]) || head[0] == '.');
        if i < k {
            assert(head[i] == text[i]);
            assert(is_digit(head[i]) || head[i] == '.');
        } else {
            assert(tail[i - k] == text[i]);
            let signed = tail.skip(1);
            let digits = without_sign(signed);
            if i == k + 1 {
                assert(signed[0] == text[i]);
                if digits == signed {
                    assert(is_digit(digits[0]));
                }
            } else if i > k + 1 {
                assert(signed[i - k - 1] == text[i]);
                if digits == signed {
                    assert(is_digit(digits[i - k - 1]));
                } else {
                    assert(digits[i - k - 2] == text[i]);
                    assert(is_digit(digits[i - k - 2]));
                }
            }
        }
    } else {
        assert(is_digit(text[0]) || text[0] == '.');
        assert(is_digit(text[i]) || text[i] == '.');
    }
}

/// Nothing else is a number: what stands behind the sign is written in digits, or names what is no
/// finite number.
pub proof fn law_no_other_floats(text: Seq<char>)
    requires
        is_float(text),
    ensures
        ({
            let body = if text.len() > 0 && (text[0] == '+' || text[0] == '-') {
                text.skip(1)
            } else {
                text
            };
            &&& body.len() > 0
            &&& {
                ||| is_number(body)
                ||| ascii_lowered(body) == "inf"@
                ||| ascii_lowered(body) == "infinity"@
                ||| ascii_lowered(body) == "nan"@
            }
        }),
{
    reveal_strlit("inf");
    reveal_strlit("infinity");
    reveal_strlit("nan");
    let body = without_sign(text);
    assert(ascii_lowered(body).len() == body.len());
}

/// A number has at most one point, and at least one digit.
pub proof fn law_one_point(text: Seq<char>, i: int, j: int)
    requires
        is_number(text),
        0 <= i < j < text.len(),
    ensures
        text[i] != '.' || text[j] != '.',
        exists|k: int| 0 <= k < text.len() && is_digit(#[trigger] text[k]),
{
    if is_mantissa(text) {
        let k = choose|k: int| 0 <= k < text.len() && is_digit(#[trigger] text[k]);
        assert(is_digit(text[k]));
    } else {
        let n = choose|n: int|
            0 <= n < text.len() && is_mantissa(#[trigger] text.take(n)) && is_exponent(
                text.skip(n),
            );
        let head = text.take(n);
        let tail = text.skip(n);
        let k = choose|k: int| 0 <= k < head.len() && is_digit(#[trigger] head[k]);
        assert(text[k] == head[k]);
        if j < n {
            assert(head[i] == text[i] && head[j] == text[j]);
        } else {
            assert(tail[j - n] == text[j]);
            let signed = tail.skip(1);
            let digits = without_sign(signed);
            if j > n {
                assert(signed[j - n - 1] == text[j]);
                if digits == signed {
                    assert(is_digit(digits[j - n - 1]));
                } else if j > n + 1 {
                    assert(digits[j - n - 2] == text[j]);
                    assert(is_digit(digits[j - n - 2]));
                }
            }
        }
    }
}

} // verus!
