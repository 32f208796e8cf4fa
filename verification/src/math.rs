//! The numeric kernel: exact factorials, multifactorials and subfactorials,
//! rounding of digit strings, and the decimal mantissa of an approximation.

use crate::integer::{integer_add, integer_from_u64, integer_mul_assign, integer_value};
use crate::text::{
    all_digits, decimal, decimal_value, digit_char, digit_of, from_chars, is_digit, pow10,
    push_chars, push_decimal, to_chars,
};
use num_bigint::BigInt;
use vstd::prelude::*;
use vstd::string::*;

verus! {

/// The product `n * (n - k) * (n - 2k) * ...` over its positive terms.
///
/// With `k == 1` this is the factorial of `n`. The empty product is 1.
pub open spec fn multifactorial(n: nat, k: nat) -> nat
    decreases n,
{
    if n == 0 || k == 0 {
        1
    } else if n <= k {
        n
    } else {
        n * multifactorial((n - k) as nat, k)
    }
}

/// The product `lo * (lo + 1) * ... * hi`, taken upwards. It is 1 where
/// `lo > hi`.
pub open spec fn ascending_product(lo: nat, hi: nat) -> nat
    decreases hi + 1 - lo,
{
    if lo > hi {
        1
    } else {
        lo * ascending_product(lo + 1, hi)
    }
}

/// The number of permutations of `n` elements that leave none in its place.
pub open spec fn derangements(n: nat) -> nat
    decreases n,
{
    if n == 0 {
        1
    } else if n == 1 {
        0
    } else {
        ((n - 1) * (derangements((n - 1) as nat) + derangements((n - 2) as nat))) as nat
    }
}

proof fn lemma_ascending_product_last(lo: nat, hi: nat)
    requires
        lo <= hi,
    ensures
        ascending_product(lo, hi) == ascending_product(lo, (hi - 1) as nat) * hi,
    decreases hi - lo,
{
    if lo < hi {
        let inner = ascending_product(lo + 1, (hi - 1) as nat);
        lemma_ascending_product_last(lo + 1, hi);
        assert(ascending_product(lo, hi) == lo * (inner * hi));
        assert(ascending_product(lo, (hi - 1) as nat) == lo * inner);
        assert(lo * (inner * hi) == (lo * inner) * hi) by (nonlinear_arith);
        assert(ascending_product(lo, hi) == ascending_product(lo, (hi - 1) as nat) * hi);
    } else if hi == 0 {
        assert(ascending_product(0, 0) == 0 * ascending_product(1, 0));
        assert(ascending_product(lo, hi) == ascending_product(lo, (hi - 1) as nat) * hi);
    } else {
        assert(ascending_product(lo + 1, hi) == 1);
        assert(ascending_product(lo, (hi - 1) as nat) == 1);
        assert(ascending_product(lo, hi) == lo * 1);
        assert(ascending_product(lo, hi) == ascending_product(lo, (hi - 1) as nat) * hi);
    }
}

/// The single factorial, which multiplies downwards from `n`, is the
/// product of the numbers from 1 up to `n`.
pub proof fn lemma_factorial_is_ascending_product(n: nat)
    ensures
        multifactorial(n, 1) == ascending_product(1, n),
    decreases n,
{
    if n >= 2 {
        lemma_factorial_is_ascending_product((n - 1) as nat);
        lemma_ascending_product_last(1, n);
        assert(ascending_product(1, (n - 1) as nat) * n == n * ascending_product(
            1,
            (n - 1) as nat,
        )) by (nonlinear_arith);
    } else if n == 1 {
        assert(ascending_product(2, 1) == 1);
    }
}

/// Computes the `k`-fold multifactorial of `n` exactly.
pub fn factorial(n: u64, k: u64) -> (r: BigInt)
    requires
        k >= 1,
    ensures
        integer_value(r) == multifactorial(n as nat, k as nat),
{
    let mut result = integer_from_u64(1);
    let mut i: u64 = n;
    while i > k
        invariant
            k >= 1,
            i <= n,
            integer_value(result) * multifactorial(i as nat, k as nat) == multifactorial(
                n as nat,
                k as nat,
            ),
        decreases i,
    {
        proof {
            assert(multifactorial(i as nat, k as nat) == i * multifactorial(
                (i - k) as nat,
                k as nat,
            ));
            assert(integer_value(result) * (i * multifactorial((i - k) as nat, k as nat))
                == (integer_value(result) * i) * multifactorial((i - k) as nat, k as nat))
                by (nonlinear_arith);
        }
        integer_mul_assign(&mut result, i);
        i = i - k;
    }
    if i > 0 {
        integer_mul_assign(&mut result, i);
    } else {
        proof {
            assert(integer_value(result) * 1 == integer_value(result));
        }
    }
    result
}

/// Computes the subfactorial of `n`, the number of derangements of `n`
/// elements, exactly.
pub fn subfactorial(n: u64) -> (r: BigInt)
    ensures
        integer_value(r) == derangements(n as nat),
{
    if n == 0 {
        return integer_from_u64(1);
    }
    let mut previous = integer_from_u64(1);
    let mut current = integer_from_u64(0);
    let mut i: u64 = 1;
    while i < n
        invariant
            1 <= i <= n,
            integer_value(previous) == derangements((i - 1) as nat),
            integer_value(current) == derangements(i as nat),
        decreases n - i,
    {
        let mut next = integer_add(&current, &previous);
        integer_mul_assign(&mut next, i);
        proof {
            assert(derangements((i + 1) as nat) == i * (derangements(i as nat) + derangements(
                (i - 1) as nat,
            )));
            assert((derangements(i as nat) + derangements((i - 1) as nat)) * i == i * (
            derangements(i as nat) + derangements((i - 1) as nat))) by (nonlinear_arith);
        }
        previous = current;
        current = next;
        i = i + 1;
    }
    current
}

/// The digit string `s` with one added to the number it writes. The width
/// stays the same, but for a string of nines, which grows by a leading one.
pub open spec fn incremented(s: Seq<char>) -> Seq<char>
    decreases s.len(),
{
    if s.len() == 0 {
        seq!['1']
    } else if s.last() == '9' {
        incremented(s.drop_last()).push('0')
    } else {
        s.drop_last().push(digit_char(digit_of(s.last()) + 1))
    }
}

/// The digit string `s` without its last digit, rounded half up on that
/// digit. The empty string stays empty.
pub open spec fn rounded(s: Seq<char>) -> Seq<char> {
    if s.len() == 0 {
        s
    } else if digit_of(s.last()) < 5 {
        s.drop_last()
    } else {
        incremented(s.drop_last())
    }
}

/// Whether every character of `s` is the digit nine.
pub open spec fn all_nines(s: Seq<char>) -> bool {
    forall|i: int| 0 <= i < s.len() ==> #[trigger] s[i] == '9'
}

/// A run of `n` zero digits.
pub open spec fn zeros(n: nat) -> Seq<char> {
    Seq::new(n, |i: int| '0')
}

/// Adding one to a digit string adds one to its value, keeps it a digit
/// string, and lengthens it by one digit exactly when all digits were nines.
pub proof fn lemma_incremented(s: Seq<char>)
    requires
        all_digits(s),
    ensures
        all_digits(incremented(s)),
        decimal_value(incremented(s)) == decimal_value(s) + 1,
        incremented(s).len() == s.len() + if all_nines(s) {
            1int
        } else {
            0int
        },
    decreases s.len(),
{
    if s.len() == 0 {
        assert(incremented(s).drop_last() =~= Seq::<char>::empty());
        assert(decimal_value(incremented(s).drop_last()) == 0);
    } else if s.last() == '9' {
        let p = s.drop_last();
        assert(all_digits(p)) by {
            assert forall|i: int| 0 <= i < p.len() implies is_digit(#[trigger] p[i]) by {
                assert(p[i] == s[i]);
            }
        }
        lemma_incremented(p);
        let q = incremented(p);
        assert(q.push('0').drop_last() =~= q);
        assert(all_digits(q.push('0'))) by {
            assert forall|i: int| 0 <= i < q.push('0').len() implies is_digit(
                #[trigger] q.push('0')[i],
            ) by {
                if i < q.len() {
                    assert(q.push('0')[i] == q[i]);
                }
            }
        }
        if all_nines(p) {
            assert(all_nines(s)) by {
                assert forall|i: int| 0 <= i < s.len() implies #[trigger] s[i] == '9' by {
                    if i < p.len() {
                        assert(p[i] == '9');
                    }
                }
            }
        } else {
            let j = choose|j: int| 0 <= j < p.len() && p[j] != '9';
            assert(s[j] != '9');
        }
    } else {
        let p = s.drop_last();
        let c = digit_char(digit_of(s.last()) + 1);
        assert(is_digit(s[s.len() - 1]));
        assert(p.push(c).drop_last() =~= p);
        assert(all_digits(p.push(c))) by {
            assert forall|i: int| 0 <= i < p.push(c).len() implies is_digit(
                #[trigger] p.push(c)[i],
            ) by {
                if i < p.len() {
                    assert(p.push(c)[i] == s[i]);
                }
            }
        }
        assert(s[s.len() - 1] != '9');
    }
}

/// Rounding a digit string of at least one digit divides the number it
/// writes by ten, rounding half up. The result has one digit fewer than the
/// input, unless the carry runs through all remaining digits: then it keeps
/// the input's length.
pub proof fn lemma_rounded(s: Seq<char>)
    requires
        all_digits(s),
        s.len() >= 1,
    ensures
        all_digits(rounded(s)),
        decimal_value(rounded(s)) == (decimal_value(s) + 5) / 10,
        rounded(s).len() == s.len() - if digit_of(s.last()) >= 5 && all_nines(s.drop_last()) {
            0int
        } else {
            1int
        },
{
    let p = s.drop_last();
    assert(is_digit(s[s.len() - 1]));
    assert(all_digits(p)) by {
        assert forall|i: int| 0 <= i < p.len() implies is_digit(#[trigger] p[i]) by {
            assert(p[i] == s[i]);
        }
    }
    if digit_of(s.last()) >= 5 {
        lemma_incremented(p);
    }
}

/// Drops the last digit of a decimal digit string and rounds the digit
/// before it half up, carrying through nines; a string of nines becomes a
/// one followed by zeros.
pub fn round(number: &mut String)
    requires
        all_digits(old(number)@),
    ensures
        final(number)@ == rounded(old(number)@),
{
    let chars = to_chars(number.as_str());
    let rounded_chars = round_chars(chars);
    *number = from_chars(&rounded_chars);
}

/// `round` on a vector of characters.
pub fn round_chars(chars: Vec<char>) -> (r: Vec<char>)
    requires
        all_digits(chars@),
    ensures
        r@ == rounded(chars@),
{
    let mut chars = chars;
    let ghost given = chars@;
    if chars.len() == 0 {
        return chars;
    }
    let last = chars.pop().unwrap();
    let ghost body = chars@;
    assert(body == given.drop_last());
    assert(is_digit(given[given.len() - 1]));
    if '5' > last {
        return chars;
    }
    let mut i: usize = chars.len();
    proof {
        assert(body.take(i as int) =~= body);
        assert(body + zeros(0) =~= body);
        assert(incremented(body) + zeros(0) =~= incremented(body));
    }
    while i > 0 && chars[i - 1] == '9'
        invariant
            i <= chars.len(),
            chars.len() == body.len(),
            chars@ == body.take(i as int) + zeros((body.len() - i) as nat),
            incremented(body) == incremented(body.take(i as int)) + zeros((body.len() - i) as nat),
        decreases i,
    {
        proof {
            let p = body.take(i as int);
            assert(p.last() == '9');
            assert(p.drop_last() == body.take(i - 1));
            assert(incremented(p) == incremented(body.take(i - 1)).push('0'));
            assert(incremented(body.take(i - 1)).push('0') + zeros((body.len() - i) as nat)
                =~= incremented(body.take(i - 1)) + zeros((body.len() - i + 1) as nat));
        }
        chars.set(i - 1, '0');
        i = i - 1;
        assert(chars@ =~= body.take(i as int) + zeros((body.len() - i) as nat));
    }
    if i == 0 {
        proof {
            assert(body.take(0) =~= Seq::<char>::empty());
            assert(incremented(body.take(0)) == seq!['1']);
        }
        chars.insert(0, '1');
        assert(chars@ =~= incremented(body));
    } else {
        let c = chars[i - 1];
        proof {
            let p = body.take(i as int);
            assert(p.last() == c);
            assert(c == given[i - 1]);
            assert(is_digit(c));
            assert(incremented(p) == p.drop_last().push(digit_char(digit_of(c) + 1)));
        }
        let next = ((c as u32 - 48) as u8 + 49) as char;
        chars.set(i - 1, next);
        assert(chars@ =~= incremented(body));
    }
    chars
}

/// One, in the units of a `Mantissa`.
pub const MANTISSA_ONE: u64 = 10_000_000_000_000_000;

/// The number of decimal places of a `Mantissa`.
pub const MANTISSA_DECIMALS: usize = 16;

/// The leading factor of an approximation, as a decimal fixed-point number
/// with sixteen places: `units / 10^16`.
#[derive(Debug, Clone, Copy, PartialEq, Eq, PartialOrd, Ord, Hash, Structural)]
pub struct Mantissa {
    pub units: u64,
}

/// The source of the approximations that the library does not compute
/// itself. What an implementation returns is taken as it comes: the library
/// promises nothing about these numbers and relies on nothing about them.
pub trait Approximator {
    /// A mantissa and a power of ten whose product approximates the
    /// factorial of `n`.
    fn approximate_factorial(&self, n: u64) -> (Mantissa, u64);

    /// The approximate number of decimal digits of the `k`-fold
    /// multifactorial of `n`.
    fn approximate_multifactorial_digits(&self, n: u64, k: u64) -> u64;
}

impl Mantissa {
    /// Whether the mantissa is at least one and less than ten.
    pub open spec fn is_normal(self) -> bool {
        MANTISSA_ONE <= self.units < 10 * MANTISSA_ONE
    }

    /// How many decimal places the mantissa must move to the right to fall
    /// below ten.
    pub open spec fn excess(self) -> nat {
        if self.units >= 1000 * MANTISSA_ONE {
            3
        } else if self.units >= 100 * MANTISSA_ONE {
            2
        } else if self.units >= 10 * MANTISSA_ONE {
            1
        } else {
            0
        }
    }

    /// The power of ten that brings the mantissa below ten: ten to the
    /// power of `excess`.
    pub open spec fn divisor(self) -> nat {
        if self.units >= 1000 * MANTISSA_ONE {
            1000
        } else if self.units >= 100 * MANTISSA_ONE {
            100
        } else if self.units >= 10 * MANTISSA_ONE {
            10
        } else {
            1
        }
    }

    /// The mantissa moved to the left until it is at least one, by at most
    /// `room` places, and the number of places it was moved. A mantissa of
    /// zero, or of one or more, is not moved.
    pub open spec fn raised(self, room: nat) -> (Mantissa, nat)
        decreases room,
    {
        if room == 0 || self.units == 0 || self.units >= MANTISSA_ONE {
            (self, 0)
        } else {
            let next = (Mantissa { units: (self.units * 10) as u64 }).raised((room - 1) as nat);
            (next.0, next.1 + 1)
        }
    }

    /// How many decimal places the mantissa must move to the left to
    /// reach one. Sixteen places are the most that can be needed.
    pub open spec fn deficit(self) -> nat {
        self.raised(MANTISSA_DECIMALS as nat).1
    }

    /// The mantissa brought to at least one and below ten: moved to the
    /// right where it is ten or more, the digits that fall off the end cut
    /// away, and to the left where it is below one.
    pub open spec fn normalized(self) -> Mantissa {
        if self.units >= 10 * MANTISSA_ONE {
            Mantissa { units: (self.units as nat / self.divisor()) as u64 }
        } else {
            self.raised(MANTISSA_DECIMALS as nat).0
        }
    }

    /// The divisor is ten to the power of the excess.
    pub proof fn lemma_divisor_is_power_of_ten(self)
        ensures
            self.divisor() == pow10(self.excess()),
    {
        reveal_with_fuel(pow10, 4);
    }

    /// A mantissa above zero that has the room to move becomes at least
    /// one: `known` places are enough for a mantissa that is at least
    /// `10^(16 - known)` units.
    pub proof fn lemma_raised_is_normal(self, room: nat, known: nat)
        requires
            known <= MANTISSA_DECIMALS,
            room >= known,
            self.units >= pow10((MANTISSA_DECIMALS - known) as nat),
            self.units < 10 * MANTISSA_ONE,
        ensures
            self.raised(room).0.is_normal(),
            self.raised(room).1 <= known,
        decreases known,
    {
        reveal_with_fuel(pow10, 17);
        if self.units < MANTISSA_ONE {
            assert(known > 0) by {
                if known == 0 {
                    assert(pow10(16) == MANTISSA_ONE);
                }
            }
            let next = Mantissa { units: (self.units * 10) as u64 };
            assert(pow10((MANTISSA_DECIMALS - known + 1) as nat) == 10 * pow10(
                (MANTISSA_DECIMALS - known) as nat,
            ));
            next.lemma_raised_is_normal((room - 1) as nat, (known - 1) as nat);
        }
    }

    /// A mantissa is never moved by more places than there is room.
    pub proof fn lemma_raised_within_room(self, room: nat)
        ensures
            self.raised(room).1 <= room,
        decreases room,
    {
        if !(room == 0 || self.units == 0 || self.units >= MANTISSA_ONE) {
            (Mantissa { units: (self.units * 10) as u64 }).lemma_raised_within_room(
                (room - 1) as nat,
            );
        }
    }

    /// Moves a mantissa below one to the left until it is at least one, by
    /// at most `room` places, and says by how many.
    pub fn raise(self, room: u8) -> (r: (Mantissa, u8))
        ensures
            r.0 == self.raised(room as nat).0,
            r.1 == self.raised(room as nat).1,
    {
        let mut mantissa = self;
        let mut moved: u8 = 0;
        while moved < room && mantissa.units != 0 && mantissa.units < MANTISSA_ONE
            invariant
                moved <= room,
                self.raised(room as nat).0 == mantissa.raised((room - moved) as nat).0,
                self.raised(room as nat).1 == mantissa.raised((room - moved) as nat).1 + moved,
            decreases room - moved,
        {
            mantissa = Mantissa { units: mantissa.units * 10 };
            moved = moved + 1;
        }
        (mantissa, moved)
    }

    /// Brings a mantissa to at least one and below ten, and says by how
    /// many places it was moved to the right and by how many to the left.
    /// The result is in that range for every mantissa above zero.
    pub fn normalize(self) -> (r: (Mantissa, u8, u8))
        ensures
            r.0 == self.normalized(),
            r.1 == self.excess(),
            r.2 == self.deficit(),
            self.units > 0 ==> r.0.is_normal(),
    {
        proof {
            reveal_with_fuel(pow10, 17);
            if 0 < self.units < 10 * MANTISSA_ONE {
                self.lemma_raised_is_normal(MANTISSA_DECIMALS as nat, MANTISSA_DECIMALS as nat);
            }
        }
        if self.units >= 1000 * MANTISSA_ONE {
            (Mantissa { units: self.units / 1000 }, 3, 0)
        } else if self.units >= 100 * MANTISSA_ONE {
            (Mantissa { units: self.units / 100 }, 2, 0)
        } else if self.units >= 10 * MANTISSA_ONE {
            (Mantissa { units: self.units / 10 }, 1, 0)
        } else {
            let (mantissa, moved) = self.raise(16);
            (mantissa, 0, moved)
        }
    }

    /// The mantissa in decimal notation: the whole part, then, where the
    /// fraction is not zero, a point and the fraction's digits up to the
    /// last one that is not zero.
    pub open spec fn text(self) -> Seq<char> {
        let whole = (self.units / MANTISSA_ONE) as nat;
        let fraction = (self.units % MANTISSA_ONE) as nat;
        if fraction == 0 {
            decimal(whole)
        } else {
            decimal(whole) + seq!['.'] + strip_trailing_zeros(
                padded(fraction, MANTISSA_DECIMALS as nat),
            )
        }
    }

    /// Appends the mantissa's decimal notation to `s`.
    pub fn push_text(self, s: &mut String)
        ensures
            final(s)@ == old(s)@ + self.text(),
    {
        let whole = self.units / MANTISSA_ONE;
        let mut fraction = self.units % MANTISSA_ONE;
        push_decimal(s, whole);
        if fraction != 0 {
            s.push('.');
            let mut width: usize = MANTISSA_DECIMALS;
            proof {
                reveal_with_fuel(pow10, 17);
                assert(pow10(16) == MANTISSA_ONE);
            }
            while fraction % 10 == 0
                invariant
                    0 < fraction < pow10(width as nat),
                    width <= MANTISSA_DECIMALS,
                    strip_trailing_zeros(padded(fraction as nat, width as nat))
                        == strip_trailing_zeros(
                        padded((self.units % MANTISSA_ONE) as nat, MANTISSA_DECIMALS as nat),
                    ),
                decreases fraction,
            {
                proof {
                    assert(width > 0);
                    lemma_strip_padded_zero(fraction as nat, width as nat);
                    assert(pow10(width as nat) == 10 * pow10((width - 1) as nat));
                }
                fraction = fraction / 10;
                width = width - 1;
            }
            proof {
                assert(width > 0);
                lemma_strip_padded_nonzero(fraction as nat, width as nat);
            }
            let digits = padded_chars(fraction, width);
            push_chars(s, &digits, 0, digits.len());
            proof {
                assert(digits@.subrange(0, digits.len() as int) == digits@);
                assert(s@ =~= old(s)@ + self.text());
            }
        } else {
            assert(s@ =~= old(s)@ + self.text());
        }
    }
}

/// The last `width` decimal digits of `v`, with leading zeros where `v` has
/// fewer.
pub open spec fn padded(v: nat, width: nat) -> Seq<char>
    decreases width,
{
    if width == 0 {
        Seq::<char>::empty()
    } else {
        padded(v / 10, (width - 1) as nat).push(digit_char(v % 10))
    }
}

/// The digit string `s` without the zeros at its end. A string that holds
/// nothing else keeps one of them.
pub open spec fn strip_trailing_zeros(s: Seq<char>) -> Seq<char>
    decreases s.len(),
{
    if s.len() > 1 && s.last() == '0' {
        strip_trailing_zeros(s.drop_last())
    } else {
        s
    }
}

proof fn lemma_padded_len(v: nat, width: nat)
    ensures
        padded(v, width).len() == width,
    decreases width,
{
    if width > 0 {
        lemma_padded_len(v / 10, (width - 1) as nat);
    }
}

proof fn lemma_padded_nonzero(v: nat, width: nat)
    requires
        0 < v < pow10(width),
    ensures
        width > 0,
        exists|i: int| 0 <= i < width && #[trigger] padded(v, width)[i] != '0',
    decreases width,
{
    lemma_padded_len(v, width);
    if width == 0 {
    } else if v % 10 != 0 {
        assert(padded(v, width)[width - 1] != '0');
    } else {
        assert(pow10(width) == 10 * pow10((width - 1) as nat));
        lemma_padded_nonzero(v / 10, (width - 1) as nat);
        lemma_padded_len(v / 10, (width - 1) as nat);
        let i = choose|i: int| 0 <= i < width - 1 && #[trigger] padded(
            v / 10,
            (width - 1) as nat,
        )[i] != '0';
        assert(padded(v, width)[i] == padded(v / 10, (width - 1) as nat)[i]);
    }
}

proof fn lemma_strip_padded_zero(v: nat, width: nat)
    requires
        0 < v < pow10(width),
        v % 10 == 0,
    ensures
        width > 1,
        strip_trailing_zeros(padded(v, width)) == strip_trailing_zeros(
            padded(v / 10, (width - 1) as nat),
        ),
{
    lemma_padded_nonzero(v, width);
    lemma_padded_len(v, width);
    if width == 1 {
        assert(pow10(1) == 10 * pow10(0));
    }
    assert(padded(v, width).drop_last() =~= padded(v / 10, (width - 1) as nat));
}

proof fn lemma_strip_padded_nonzero(v: nat, width: nat)
    requires
        width > 0,
        v % 10 != 0,
    ensures
        strip_trailing_zeros(padded(v, width)) == padded(v, width),
{
    lemma_padded_len(v, width);
}

/// The last `width` decimal digits of `v`, zero-padded.
fn padded_chars(v: u64, width: usize) -> (r: Vec<char>)
    ensures
        r@ == padded(v as nat, width as nat),
{
    let mut r: Vec<char> = Vec::new();
    let mut m: u64 = v;
    let mut w: usize = width;
    while w > 0
        invariant
            padded(v as nat, width as nat) == padded(m as nat, w as nat) + r@,
        decreases w,
    {
        let c = ((m % 10) as u8 + 48) as char;
        proof {
            assert(padded(m as nat, w as nat) == padded((m / 10) as nat, (w - 1) as nat).push(c));
            assert(padded((m / 10) as nat, (w - 1) as nat).push(c) + r@ == padded(
                (m / 10) as nat,
                (w - 1) as nat,
            ) + (seq![c] + r@));
        }
        let ghost before = r@;
        r.insert(0, c);
        assert(r@ =~= seq![c] + before);
        m = m / 10;
        w = w - 1;
    }
    assert(padded(m as nat, 0) + r@ =~= r@);
    r
}

/// The places by which a mantissa with the exponent `exponent` may move to
/// the left: the exponent cannot fall below zero.
pub open spec fn room_of(exponent: u64) -> nat {
    if exponent < MANTISSA_DECIMALS {
        exponent as nat
    } else {
        MANTISSA_DECIMALS as nat
    }
}

/// A mantissa and exponent with the mantissa brought to at least one and
/// below ten. Each power of ten taken from a mantissa of ten or more is
/// added to the exponent, which stops at the largest `u64`. A mantissa
/// below one takes powers of ten from the exponent, as far as that has
/// any.
pub open spec fn adjusted(x: (Mantissa, u64)) -> (Mantissa, u64) {
    if x.0.units >= 10 * MANTISSA_ONE {
        let exponent = x.1 + x.0.excess();
        (
            x.0.normalized(),
            if exponent > u64::MAX {
                u64::MAX
            } else {
                exponent as u64
            },
        )
    } else {
        let moved = x.0.raised(room_of(x.1));
        (moved.0, (x.1 - moved.1) as u64)
    }
}

/// An adjusted mantissa is at least one and below ten, if it was at least
/// one before, or above zero with an exponent of sixteen or more.
pub proof fn lemma_adjusted_is_normal(x: (Mantissa, u64))
    requires
        x.0.units >= MANTISSA_ONE || (x.0.units > 0 && x.1 >= MANTISSA_DECIMALS),
    ensures
        adjusted(x).0.is_normal(),
{
    reveal_with_fuel(pow10, 17);
    if x.0.units < 10 * MANTISSA_ONE {
        if x.0.units >= MANTISSA_ONE {
            x.0.lemma_raised_is_normal(room_of(x.1), 0);
        } else {
            x.0.lemma_raised_is_normal(MANTISSA_DECIMALS as nat, MANTISSA_DECIMALS as nat);
        }
    }
}

/// Renormalizes an approximation whose mantissa has drifted out of the
/// range from one to ten. The result's mantissa is in that range for
/// every mantissa of at least one, and for every mantissa above zero
/// whose exponent is sixteen or more.
pub fn adjust_approximate_factorial(x: (Mantissa, u64)) -> (r: (Mantissa, u64))
    ensures
        r == adjusted(x),
        x.0.units >= MANTISSA_ONE || (x.0.units > 0 && x.1 >= MANTISSA_DECIMALS)
            ==> r.0.is_normal(),
{
    if x.0.units >= 10 * MANTISSA_ONE {
        let (mantissa, excess, _) = x.0.normalize();
        (mantissa, x.1.saturating_add(excess as u64))
    } else {
        let room: u8 = if x.1 < 16 {
            x.1 as u8
        } else {
            16
        };
        proof {
            reveal_with_fuel(pow10, 17);
            if x.0.units > 0 && x.1 >= MANTISSA_DECIMALS {
                x.0.lemma_raised_is_normal(MANTISSA_DECIMALS as nat, MANTISSA_DECIMALS as nat);
            }
            if x.0.units >= MANTISSA_ONE {
                x.0.lemma_raised_is_normal(room as nat, 0);
            }
            x.0.lemma_raised_within_room(room as nat);
        }
        let (mantissa, moved) = x.0.raise(room);
        (mantissa, x.1 - moved as u64)
    }
}

/// The text of an approximation: mantissa, the letter `e`, exponent.
pub open spec fn approximate_factorial_text(x: (Mantissa, u64)) -> Seq<char> {
    x.0.text() + seq!['e'] + decimal(x.1 as nat)
}

/// Writes an approximation in the form `1.234e56`.
pub fn format_approximate_factorial(x: (Mantissa, u64)) -> (r: String)
    ensures
        r@ == approximate_factorial_text(x),
{
    let mut r = String::new();
    x.0.push_text(&mut r);
    r.push('e');
    push_decimal(&mut r, x.1);
    assert(r@ =~= approximate_factorial_text(x));
    r
}

} // verus!
