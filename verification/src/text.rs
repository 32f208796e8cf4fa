//! Decimal text: the digits of natural numbers as character sequences, and
//! the conversions between `String`, `&str` and `Vec<char>` that the rest of
//! the library builds its output with.

use vstd::prelude::*;
use vstd::string::*;

verus! {

/// `String::push` appends exactly one character at the end.
pub assume_specification[ String::push ](s: &mut String, c: char)
    ensures
        final(s)@ == old(s)@.push(c),
;

/// Whether `c` is one of the ten ASCII decimal digits.
pub open spec fn is_digit(c: char) -> bool {
    '0' <= c <= '9'
}

/// The character that writes the digit `d`.
pub open spec fn digit_char(d: nat) -> char {
    (d + 48) as char
}

/// The number that the digit character `c` stands for.
pub open spec fn digit_of(c: char) -> nat {
    (c as u32 - 48) as nat
}

/// Whether every character of `s` is a decimal digit.
pub open spec fn all_digits(s: Seq<char>) -> bool {
    forall|i: int| 0 <= i < s.len() ==> is_digit(#[trigger] s[i])
}

/// The usual decimal notation of `n`: no leading zero, and `"0"` for zero.
pub open spec fn decimal(n: nat) -> Seq<char>
    decreases n,
{
    if n < 10 {
        seq![digit_char(n)]
    } else {
        decimal(n / 10).push(digit_char(n % 10))
    }
}

/// The number written by a sequence of digits, leading zeros allowed.
/// The empty sequence writes zero.
pub open spec fn decimal_value(s: Seq<char>) -> nat
    decreases s.len(),
{
    if s.len() == 0 {
        0
    } else {
        decimal_value(s.drop_last()) * 10 + digit_of(s.last())
    }
}

/// Decimal notation of a signed integer: a minus sign before the digits of
/// a negative number.
pub open spec fn integer_text(v: int) -> Seq<char> {
    if v < 0 {
        seq!['-'] + decimal((-v) as nat)
    } else {
        decimal(v as nat)
    }
}

/// Ten to the power `e`.
pub open spec fn pow10(e: nat) -> nat
    decreases e,
{
    if e == 0 {
        1
    } else {
        10 * pow10((e - 1) as nat)
    }
}

/// The decimal notation of a number is never empty and holds digits only.
pub proof fn lemma_decimal_is_digits(n: nat)
    ensures
        decimal(n).len() >= 1,
        all_digits(decimal(n)),
    decreases n,
{
    if n >= 10 {
        lemma_decimal_is_digits(n / 10);
        assert forall|i: int| 0 <= i < decimal(n).len() implies is_digit(
            #[trigger] decimal(n)[i],
        ) by {
            if i < decimal(n / 10).len() {
                assert(decimal(n)[i] == decimal(n / 10)[i]);
            }
        }
    }
}

/// Reading back the decimal notation of a number gives the number.
pub proof fn lemma_decimal_value_of_decimal(n: nat)
    ensures
        decimal_value(decimal(n)) == n,
    decreases n,
{
    if n < 10 {
        assert(decimal(n).drop_last() =~= Seq::<char>::empty());
        assert(decimal_value(decimal(n).drop_last()) == 0);
    } else {
        lemma_decimal_value_of_decimal(n / 10);
        assert(decimal(n).drop_last() =~= decimal(n / 10));
    }
}

/// The decimal notation of a positive number starts with a digit other than
/// zero.
pub proof fn lemma_decimal_leading_digit(n: nat)
    requires
        n > 0,
    ensures
        decimal(n)[0] != '0',
    decreases n,
{
    if n >= 10 {
        lemma_decimal_leading_digit(n / 10);
        lemma_decimal_is_digits(n / 10);
    }
}

/// Ten to any power is above zero.
pub proof fn lemma_pow10_positive(e: nat)
    ensures
        pow10(e) > 0,
    decreases e,
{
    if e > 0 {
        lemma_pow10_positive((e - 1) as nat);
    }
}

/// Powers of ten multiply by adding their exponents.
pub proof fn lemma_pow10_adds(a: nat, b: nat)
    ensures
        pow10(a + b) == pow10(a) * pow10(b),
    decreases a,
{
    if a > 0 {
        lemma_pow10_adds((a - 1) as nat, b);
        assert(pow10(a + b) == 10 * pow10((a + b - 1) as nat));
        assert(10 * (pow10((a - 1) as nat) * pow10(b)) == (10 * pow10((a - 1) as nat)) * pow10(b))
            by (nonlinear_arith);
    } else {
        assert(1 * pow10(b) == pow10(b));
    }
}

/// The number that digits write is below ten to the power of their
/// count. It is at least a tenth of that where the first digit is not
/// zero, and below a tenth of it where the first digit is zero.
pub proof fn lemma_decimal_value_bounds(s: Seq<char>)
    requires
        all_digits(s),
    ensures
        decimal_value(s) < pow10(s.len()),
        s.len() >= 1 && s[0] != '0' ==> decimal_value(s) >= pow10((s.len() - 1) as nat),
        s.len() >= 1 && s[0] == '0' ==> decimal_value(s) < pow10((s.len() - 1) as nat),
    decreases s.len(),
{
    if s.len() > 0 {
        let p = s.drop_last();
        assert(is_digit(s[s.len() - 1]));
        assert(all_digits(p)) by {
            assert forall|i: int| 0 <= i < p.len() implies is_digit(#[trigger] p[i]) by {
                assert(p[i] == s[i]);
            }
        }
        lemma_decimal_value_bounds(p);
        assert(pow10(s.len()) == 10 * pow10(p.len()));
        if p.len() > 0 {
            assert(p[0] == s[0]);
            assert(pow10(p.len()) == 10 * pow10((p.len() - 1) as nat));
        } else {
            assert(decimal_value(p) == 0);
        }
    }
}

/// The number that the first `k` digits write is the number that all
/// digits write, divided by ten to the power of the count of the rest.
pub proof fn lemma_decimal_value_of_prefix(s: Seq<char>, k: int)
    requires
        all_digits(s),
        0 <= k <= s.len(),
    ensures
        decimal_value(s.take(k)) == decimal_value(s) as int / pow10((s.len() - k) as nat) as int,
    decreases s.len() - k,
{
    if k == s.len() {
        assert(s.take(k) =~= s);
        assert(pow10(0) == 1);
        assert(decimal_value(s) as int / 1 == decimal_value(s));
    } else {
        let p = s.drop_last();
        assert(is_digit(s[s.len() - 1]));
        assert(all_digits(p)) by {
            assert forall|i: int| 0 <= i < p.len() implies is_digit(#[trigger] p[i]) by {
                assert(p[i] == s[i]);
            }
        }
        lemma_decimal_value_of_prefix(p, k);
        assert(decimal_value(p.take(k)) == decimal_value(p) as int / pow10(
            (p.len() - k) as nat,
        ) as int);
        assert(p.take(k) =~= s.take(k));
        let m = pow10((p.len() - k) as nat) as int;
        lemma_pow10_positive((p.len() - k) as nat);
        let whole = decimal_value(s) as int;
        assert(pow10((s.len() - k) as nat) == 10 * m);
        assert(whole / 10 == decimal_value(p));
        vstd::arithmetic::div_mod::lemma_div_denominator(whole, 10, m);
        assert((whole / 10) / m == whole / (10 * m));
        assert(decimal_value(s.take(k)) == decimal_value(p) as int / m);
    }
}

/// A number with `len` decimal digits lies between `10^(len-1)` and `10^len`.
pub proof fn lemma_decimal_len_bounds(n: nat)
    requires
        n > 0,
    ensures
        pow10((decimal(n).len() - 1) as nat) <= n < pow10(decimal(n).len()),
    decreases n,
{
    if n < 10 {
        assert(pow10(1) == 10 * pow10(0));
    } else {
        lemma_decimal_len_bounds(n / 10);
        let l = decimal(n / 10).len();
        assert(decimal(n).len() == l + 1);
        assert(pow10(l) == 10 * pow10((l - 1) as nat));
        assert(pow10(l + 1) == 10 * pow10(l));
    }
}

/// Whether `c` is a decimal digit.
pub fn char_is_digit(c: char) -> (r: bool)
    ensures
        r == is_digit(c),
{
    c >= '0' && c <= '9'
}

/// The characters of a string slice, in order.
pub fn to_chars(s: &str) -> (v: Vec<char>)
    ensures
        v@ == s@,
{
    let mut v: Vec<char> = Vec::new();
    for c in it: s.chars()
        invariant
            v@ == it.seq().take(it.index() as int),
            it.seq() == s@,
    {
        v.push(c);
    }
    v
}

/// Appends the characters `v[from..to]` to `s`.
pub fn push_chars(s: &mut String, v: &Vec<char>, from: usize, to: usize)
    requires
        from <= to <= v.len(),
    ensures
        final(s)@ == old(s)@ + v@.subrange(from as int, to as int),
{
    let mut i: usize = from;
    while i < to
        invariant
            from <= i <= to <= v.len(),
            s@ == old(s)@ + v@.subrange(from as int, i as int),
        decreases to - i,
    {
        s.push(v[i]);
        assert(v@.subrange(from as int, i + 1) == v@.subrange(from as int, i as int).push(
            v@[i as int],
        ));
        i = i + 1;
    }
}

/// A string with the characters of `v`.
pub fn from_chars(v: &Vec<char>) -> (s: String)
    ensures
        s@ == v@,
{
    let mut s = String::new();
    push_chars(&mut s, v, 0, v.len());
    assert(v@.subrange(0, v.len() as int) == v@);
    s
}

/// The decimal digits of `n`.
pub fn decimal_chars(n: u64) -> (v: Vec<char>)
    ensures
        v@ == decimal(n as nat),
{
    let mut v: Vec<char> = Vec::new();
    let mut m: u64 = n;
    while m >= 10
        invariant
            decimal(n as nat) == decimal(m as nat) + v@,
        decreases m,
    {
        let c = ((m % 10) as u8 + 48) as char;
        proof {
            assert(decimal(m as nat) == decimal((m / 10) as nat).push(c));
            assert(decimal((m / 10) as nat).push(c) + v@ == decimal((m / 10) as nat) + (seq![c]
                + v@));
        }
        let ghost before = v@;
        v.insert(0, c);
        assert(v@ =~= seq![c] + before);
        m = m / 10;
    }
    let c = (m as u8 + 48) as char;
    let ghost before = v@;
    v.insert(0, c);
    assert(v@ =~= decimal(m as nat) + before);
    v
}

/// Appends the decimal notation of `n` to `s`.
pub fn push_decimal(s: &mut String, n: u64)
    ensures
        final(s)@ == old(s)@ + decimal(n as nat),
{
    let digits = decimal_chars(n);
    push_chars(s, &digits, 0, digits.len());
    assert(digits@.subrange(0, digits.len() as int) == digits@);
}

} // verus!
