//! Whole numbers in decimal notation: writing and reading them.

use vstd::prelude::*;

use crate::text;

verus! {

/// The character for a digit.
pub open spec fn digit(d: nat) -> char {
    (0x30 + d) as char
}

/// `n` in decimal notation, without leading zeros.
pub open spec fn decimal(n: nat) -> Seq<char>
    decreases n,
{
    if n < 10 {
        seq![digit(n)]
    } else {
        decimal(n / 10).push(digit(n % 10))
    }
}

/// `n` in decimal notation, with a minus sign in front where it is negative.
pub open spec fn signed_decimal(n: int) -> Seq<char> {
    if n < 0 {
        seq!['-'] + decimal((-n) as nat)
    } else {
        decimal(n as nat)
    }
}

/// `n` in decimal notation, filled up with zeros in front to at least `width` digits.
pub open spec fn zero_padded(n: nat, width: nat) -> Seq<char> {
    text::padded(decimal(n), width, '0')
}

fn digit_char(d: u64) -> (c: char)
    requires
        d < 10,
    ensures
        c == digit(d as nat),
{
    (0x30u8 + d as u8) as char
}

/// Appends `n` in decimal notation to `s`.
pub fn push_decimal(s: &mut String, n: u64)
    ensures
        final(s)@ == old(s)@ + decimal(n as nat),
    decreases n,
{
    if n >= 10 {
        push_decimal(s, n / 10);
    }
    s.push(digit_char(n % 10));
    proof {
        if n >= 10 {
            assert(s@ =~= old(s)@ + decimal((n / 10) as nat).push(digit((n % 10) as nat)));
        } else {
            assert(s@ =~= old(s)@ + seq![digit(n as nat)]);
        }
    }
}

/// `n` in decimal notation.
pub fn to_decimal(n: u64) -> (s: String)
    ensures
        s@ == decimal(n as nat),
{
    let mut s = String::new();
    push_decimal(&mut s, n);
    assert(s@ =~= decimal(n as nat));
    s
}

/// `n` in decimal notation, with a minus sign in front where it is negative.
pub fn to_signed_decimal(n: i64) -> (s: String)
    ensures
        s@ == signed_decimal(n as int),
{
    let mut s = String::new();
    if n < 0 {
        s.push('-');
        let magnitude: u64 = (-(n + 1)) as u64 + 1;
        push_decimal(&mut s, magnitude);
    } else {
        push_decimal(&mut s, n as u64);
    }
    assert(s@ =~= signed_decimal(n as int));
    s
}

/// `n` in decimal notation, filled up with zeros in front to at least `width` digits.
pub fn to_zero_padded(n: u64, width: usize) -> (s: String)
    ensures
        s@ == zero_padded(n as nat, width as nat),
{
    text::pad_start(to_decimal(n).as_str(), width, '0')
}

/// An ASCII digit.
pub open spec fn is_digit(c: char) -> bool {
    '0' <= c && c <= '9'
}

/// A run of ASCII digits, at least one.
pub open spec fn is_digits(s: Seq<char>) -> bool {
    s.len() > 0 && forall|i: int| 0 <= i < s.len() ==> is_digit(#[trigger] s[i])
}

/// The number that a run of digits stands for.
pub open spec fn digits_value(s: Seq<char>) -> nat
    decreases s.len(),
{
    if s.len() == 0 {
        0
    } else {
        (digits_value(s.drop_last()) * 10 + (s.last() as u32 - 0x30)) as nat
    }
}

/// The number that `s` stands for, if it is an optional sign before a run of digits.
pub open spec fn signed_value(s: Seq<char>) -> Option<int> {
    if s.len() > 0 && s[0] == '-' {
        if is_digits(s.skip(1)) {
            Some(-(digits_value(s.skip(1)) as int))
        } else {
            None
        }
    } else {
        match unsigned_value(s) {
            Some(v) => Some(v as int),
            None => None,
        }
    }
}

/// The number that `s` stands for, if it is an optional plus sign before a run of digits.
pub open spec fn unsigned_value(s: Seq<char>) -> Option<nat> {
    let digits = if s.len() > 0 && s[0] == '+' {
        s.skip(1)
    } else {
        s
    };
    if is_digits(digits) {
        Some(digits_value(digits))
    } else {
        None
    }
}

/// The `i64` that `s` stands for, if there is one.
pub open spec fn as_i64(s: Seq<char>) -> Option<i64> {
    match signed_value(s) {
        Some(v) => if i64::MIN <= v <= i64::MAX {
            Some(v as i64)
        } else {
            None
        },
        None => None,
    }
}

/// The `usize` that `s` stands for, if there is one.
pub open spec fn as_usize(s: Seq<char>) -> Option<usize> {
    match unsigned_value(s) {
        Some(v) => if v <= usize::MAX {
            Some(v as usize)
        } else {
            None
        },
        None => None,
    }
}

/// Adding digits to a run never makes its value smaller.
proof fn lemma_prefix_value(s: Seq<char>, n: int)
    requires
        is_digits(s),
        0 <= n <= s.len(),
    ensures
        digits_value(s.take(n)) <= digits_value(s),
    decreases s.len() - n,
{
    if n == s.len() {
        assert(s.take(n) =~= s);
    } else {
        lemma_prefix_value(s, n + 1);
        assert(s.take(n + 1).drop_last() =~= s.take(n));
        assert(is_digit(s[n]));
        assert(s.take(n + 1).last() == s[n]);
    }
}

/// The value of the characters from `from` on, if they are digits and it is at most `limit`.
fn parse_digits(chars: &Vec<char>, from: usize, limit: u64) -> (v: Option<u64>)
    requires
        from <= chars@.len(),
    ensures
        ({
            let s = chars@.skip(from as int);
            match v {
                Some(n) => is_digits(s) && n == digits_value(s) && n <= limit,
                None => !is_digits(s) || digits_value(s) > limit,
            }
        }),
{
    let ghost s = chars@.skip(from as int);
    if from == chars.len() {
        return None;
    }
    let mut value: u64 = 0;
    let mut i: usize = from;
    while i < chars.len()
        invariant
            from <= i <= chars@.len(),
            from < chars@.len(),
            s == chars@.skip(from as int),
            value == digits_value(s.take(i - from)),
            value <= limit,
            forall|j: int| 0 <= j < i - from ==> is_digit(#[trigger] s[j]),
        decreases chars@.len() - i,
    {
        let c = chars[i];
        assert(s[i - from] == c);
        if !('0' <= c && c <= '9') {
            return None;
        }
        let d: u64 = c as u64 - 0x30;
        assert(s.take(i + 1 - from).drop_last() =~= s.take(i - from));
        assert(s.take(i + 1 - from).last() == c);
        let ghost next = digits_value(s.take(i + 1 - from));
        assert(next == value * 10 + d);
        if limit < d || value > (limit - d) / 10 {
            proof {
                assert(next > limit);
                if is_digits(s) {
                    lemma_prefix_value(s, i + 1 - from);
                }
            }
            return None;
        }
        value = value * 10 + d;
        i += 1;
    }
    assert(s.take(i - from) =~= s);
    Some(value)
}

/// The `i64` that `s` stands for: an optional sign, then digits, and nothing else.
pub fn parse_i64(s: &str) -> (v: Option<i64>)
    ensures
        v == as_i64(s@),
{
    let chars = text::chars_of(s);
    assert(chars@.skip(0) =~= chars@);
    if chars.len() > 0 && chars[0] == '-' {
        match parse_digits(&chars, 1, 0x8000_0000_0000_0000) {
            Some(0) => Some(0),
            Some(n) => Some(-((n - 1) as i64) - 1),
            None => None,
        }
    } else {
        let from: usize = if chars.len() > 0 && chars[0] == '+' {
            1
        } else {
            0
        };
        match parse_digits(&chars, from, 0x7fff_ffff_ffff_ffff) {
            Some(n) => Some(n as i64),
            None => None,
        }
    }
}

/// The `usize` that `s` stands for: an optional plus sign, then digits, and nothing else.
pub fn parse_usize(s: &str) -> (v: Option<usize>)
    ensures
        v == as_usize(s@),
{
    let chars = text::chars_of(s);
    assert(chars@.skip(0) =~= chars@);
    let from: usize = if chars.len() > 0 && chars[0] == '+' {
        1
    } else {
        0
    };
    match parse_digits(&chars, from, usize::MAX as u64) {
        Some(n) => Some(n as usize),
        None => None,
    }
}

/// Reading a number in decimal notation gives the number back.
pub proof fn lemma_decimal_reads_back(n: nat)
    ensures
        is_digits(decimal(n)),
        digits_value(decimal(n)) == n,
    decreases n,
{
    let s = decimal(n);
    if n < 10 {
        assert(s.drop_last() =~= Seq::<char>::empty());
        assert(s.last() == digit(n));
        assert(digits_value(s.drop_last()) == 0);
        assert(digit(n) as u32 - 0x30 == n);
    } else {
        lemma_decimal_reads_back(n / 10);
        assert(s.drop_last() =~= decimal(n / 10));
        assert(s.last() == digit(n % 10));
        assert(digit(n % 10) as u32 - 0x30 == n % 10);
        assert forall|i: int| 0 <= i < s.len() implies is_digit(#[trigger] s[i]) by {
            if i < s.len() - 1 {
                assert(s[i] == decimal(n / 10)[i]);
            }
        }
    }
}

/// Zeros in front do not change the value of a run of digits.
proof fn lemma_leading_zeros(s: Seq<char>, n: nat)
    requires
        is_digits(s),
    ensures
        is_digits(text::repeated('0', n) + s),
        digits_value(text::repeated('0', n) + s) == digits_value(s),
    decreases s.len(),
{
    let zeros = text::repeated('0', n);
    let t = zeros + s;
    assert forall|i: int| 0 <= i < t.len() implies is_digit(#[trigger] t[i]) by {
        if i >= n {
            assert(t[i] == s[i - n]);
        }
    }
    assert(t.drop_last() =~= zeros + s.drop_last());
    assert(t.last() == s.last());
    if s.len() == 1 {
        assert(t.drop_last() =~= zeros);
        lemma_zeros(n);
        assert(s.drop_last() =~= Seq::<char>::empty());
        assert(digits_value(s.drop_last()) == 0);
    } else {
        assert forall|i: int| 0 <= i < s.drop_last().len() implies is_digit(
            #[trigger] s.drop_last()[i],
        ) by {
            assert(s.drop_last()[i] == s[i]);
        }
        lemma_leading_zeros(s.drop_last(), n);
    }
}

proof fn lemma_zeros(n: nat)
    ensures
        digits_value(text::repeated('0', n)) == 0,
    decreases n,
{
    if n > 0 {
        assert(text::repeated('0', n).drop_last() =~= text::repeated('0', (n - 1) as nat));
        lemma_zeros((n - 1) as nat);
    }
}

/// A number filled up with zeros reads back as the number, and fills the width.
pub proof fn lemma_zero_padded_reads_back(n: nat, width: nat)
    ensures
        is_digits(zero_padded(n, width)),
        digits_value(zero_padded(n, width)) == n,
        zero_padded(n, width).len() >= width,
        width == 2 && n < 100 ==> zero_padded(n, width).len() == 2,
        width == 4 && n < 10_000 ==> zero_padded(n, width).len() == 4,
{
    lemma_decimal_reads_back(n);
    let s = decimal(n);
    if s.len() < width {
        lemma_leading_zeros(s, (width - s.len()) as nat);
    }
    reveal_with_fuel(decimal, 5);
}

/// Every `i64`, written in decimal notation, is read back as itself.
pub proof fn lemma_signed_decimal_reads_back(n: i64)
    ensures
        as_i64(signed_decimal(n as int)) == Some(n),
{
    let s = signed_decimal(n as int);
    if n < 0 {
        lemma_decimal_reads_back((-n) as nat);
        assert(s.skip(1) =~= decimal((-n) as nat));
    } else {
        lemma_decimal_reads_back(n as nat);
        assert(is_digit(s[0]));
    }
}

/// A digit is written as the character that stands as far behind `0`; a digit more stands behind
/// the others.
pub proof fn lemma_decimal_notation(n: nat, d: nat)
    requires
        d < 10,
    ensures
        decimal(d).len() == 1,
        decimal(d)[0] as u32 == '0' as u32 + d,
        n > 0 ==> decimal(10 * n + d) == decimal(n) + decimal(d),
{
    if n > 0 {
        assert(decimal(10 * n + d) =~= decimal(n) + decimal(d));
    }
}

/// A number below zero is written as its opposite behind a minus sign, any other as it is.
pub proof fn lemma_signed_notation(n: nat)
    ensures
        signed_decimal(n as int) == decimal(n),
        n > 0 ==> signed_decimal(-(n as int)) == seq!['-'] + decimal(n),
{
}

/// Different numbers are written differently.
pub proof fn lemma_notations_differ(a: i64, b: i64)
    requires
        signed_decimal(a as int) == signed_decimal(b as int),
    ensures
        a == b,
{
    lemma_signed_decimal_reads_back(a);
    lemma_signed_decimal_reads_back(b);
}

/// A number filled up with zeros is the number behind the zeros that it lacks.
pub proof fn lemma_zeros_fill_up(n: nat, width: nat)
    ensures
        ({
            let s = zero_padded(n, width);
            &&& s.len() == if decimal(n).len() < width {
                width
            } else {
                decimal(n).len()
            }
            &&& s.skip(s.len() - decimal(n).len()) == decimal(n)
            &&& forall|i: int| 0 <= i < s.len() - decimal(n).len() ==> #[trigger] s[i] == '0'
        }),
{
    text::lemma_padded(decimal(n), width, '0');
}

/// A number is read with any zeros in front, behind a sign or none; unless it is too large.
pub proof fn lemma_numbers_are_read(n: nat, zeros: nat)
    ensures
        ({
            let digits = Seq::new(zeros, |i: int| '0') + decimal(n);
            &&& as_i64(digits) == if n <= i64::MAX {
                Some(n as i64)
            } else {
                None
            }
            &&& as_i64(seq!['+'] + digits) == as_i64(digits)
            &&& as_i64(seq!['-'] + digits) == if n <= 0x8000_0000_0000_0000 {
                Some((-n) as i64)
            } else {
                None
            }
            &&& as_usize(digits) == if n <= usize::MAX {
                Some(n as usize)
            } else {
                None
            }
            &&& as_usize(seq!['+'] + digits) == as_usize(digits)
        }),
{
    let digits = Seq::new(zeros, |i: int| '0') + decimal(n);
    lemma_decimal_reads_back(n);
    lemma_leading_zeros(decimal(n), zeros);
    assert(digits =~= text::repeated('0', zeros) + decimal(n));
    assert(is_digit(digits[0]));
    assert((seq!['+'] + digits).skip(1) =~= digits);
    assert((seq!['-'] + digits).skip(1) =~= digits);
}

/// A run of digits is a number in decimal notation, behind zeros or none.
proof fn lemma_digits_are_a_number(s: Seq<char>) -> (zeros: nat)
    requires
        is_digits(s),
    ensures
        s == text::repeated('0', zeros) + decimal(digits_value(s)),
    decreases s.len(),
{
    let head = s.drop_last();
    let v = digits_value(s);
    assert(is_digit(s[s.len() - 1]));
    let d = (s.last() as u32 - 0x30) as nat;
    assert(s.last() == digit(d));
    assert(decimal(d) =~= seq![digit(d)]);
    assert(s =~= head + decimal(d));
    if s.len() == 1 {
        assert(head =~= Seq::<char>::empty());
        assert(digits_value(head) == 0);
        assert(s =~= text::repeated('0', 0) + decimal(v));
        0
    } else {
        assert forall|i: int| 0 <= i < head.len() implies is_digit(#[trigger] head[i]) by {
            assert(head[i] == s[i]);
        }
        let zeros = lemma_digits_are_a_number(head);
        let h = digits_value(head);
        assert(v == 10 * h + d);
        if h > 0 {
            lemma_decimal_notation(h, d);
            assert(s =~= text::repeated('0', zeros) + decimal(v));
            zeros
        } else {
            assert(decimal(0) =~= seq!['0']);
            assert(head =~= text::repeated('0', zeros + 1));
            assert(s =~= text::repeated('0', zeros + 1) + decimal(v));
            zeros + 1
        }
    }
}

/// Nothing is read as an `i64` but a sign or none, zeros or none, and a number; the number below
/// zero if the sign is a minus.
pub proof fn lemma_only_numbers_are_read(s: Seq<char>)
    requires
        as_i64(s) is Some,
    ensures
        exists|sign: Seq<char>, zeros: nat, n: nat|
            {
                &&& sign == Seq::<char>::empty() || sign == seq!['+'] || sign == seq!['-']
                &&& s == #[trigger] (sign + text::repeated('0', zeros) + decimal(n))
                &&& as_i64(s)->0 == if sign == seq!['-'] {
                    -n
                } else {
                    n as int
                }
            },
{
    let sign = if s[0] == '-' || s[0] == '+' {
        seq![s[0]]
    } else {
        Seq::empty()
    };
    let digits = s.skip(sign.len() as int);
    assert(s.skip(0) =~= s);
    assert(s.len() > 0);
    let zeros = lemma_digits_are_a_number(digits);
    let n = digits_value(digits);
    assert(s =~= sign + digits);
    assert(s =~= sign + text::repeated('0', zeros) + decimal(n));
    if sign.len() > 0 {
        assert(sign[0] == s[0]);
        assert(seq!['-'][0] == '-');
    }
}

/// Nothing is read as a `usize` but a plus sign or none, zeros or none, and the number.
pub proof fn lemma_only_unsigned_numbers_are_read(s: Seq<char>)
    requires
        as_usize(s) is Some,
    ensures
        exists|sign: Seq<char>, zeros: nat|
            {
                &&& sign == Seq::<char>::empty() || sign == seq!['+']
                &&& s == #[trigger] (sign + text::repeated('0', zeros) + decimal(
                    as_usize(s)->0 as nat,
                ))
            },
{
    let sign = if s.len() > 0 && s[0] == '+' {
        seq!['+']
    } else {
        Seq::empty()
    };
    let digits = s.skip(sign.len() as int);
    assert(s.skip(0) =~= s);
    let zeros = lemma_digits_are_a_number(digits);
    let n = digits_value(digits);
    assert(s =~= sign + digits);
    assert(as_usize(s)->0 as nat == n);
    assert(s =~= sign + text::repeated('0', zeros) + decimal(as_usize(s)->0 as nat));
}

} // verus!
