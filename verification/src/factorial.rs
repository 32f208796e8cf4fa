//! Records of factorials whose numbers, like their results, have no upper
//! bound, and the lines that state them.

use crate::integer::{
    integer_add, integer_eq, integer_from_u64, integer_lt, integer_mul_assign, integer_sub,
    integer_to_string, integer_value,
};
use crate::math::{round_chars, rounded, strip_trailing_zeros, Mantissa};
use crate::reddit_comment::{LEVEL_NAMES, NUMBER_DECIMALS_SCIENTIFIC};
use crate::text::{
    all_digits, decimal, integer_text, is_digit, lemma_decimal_is_digits, pow10, push_chars,
    push_decimal, to_chars,
};
use num_bigint::BigInt;
use vstd::prelude::*;
use vstd::string::*;

verus! {

/// What every line calls the operation, after the name of its level.
pub const PLACEHOLDER: &'static str = "factorial of ";

/// The number of zeros of the number above which a value counts as too big
/// to write out: ten to this power.
pub const TOO_BIG_EXPONENT: u64 = 9999;

/// The result of a calculation.
#[derive(Debug, Clone, PartialEq, Eq, Hash)]
pub enum CalculatedFactorial {
    /// The factorial itself.
    Exact(BigInt),
    /// A mantissa and an exponent: the factorial is about the mantissa
    /// times ten to the power of the exponent.
    Approximate(Mantissa, BigInt),
    /// About how many decimal digits the factorial has.
    ApproximateDigits(BigInt),
}

/// What a `CalculatedFactorial` stands for.
pub enum CalculatedValue {
    Exact(int),
    Approximate(Mantissa, int),
    ApproximateDigits(int),
}

impl View for CalculatedFactorial {
    type V = CalculatedValue;

    open spec fn view(&self) -> CalculatedValue {
        match *self {
            CalculatedFactorial::Exact(value) => CalculatedValue::Exact(integer_value(value)),
            CalculatedFactorial::Approximate(mantissa, exponent) => CalculatedValue::Approximate(
                mantissa,
                integer_value(exponent),
            ),
            CalculatedFactorial::ApproximateDigits(digits) => CalculatedValue::ApproximateDigits(
                integer_value(digits),
            ),
        }
    }
}

impl CalculatedValue {
    /// The rank of the kind of result: a number of digits is the lowest
    /// kind, an exact value the highest.
    pub open spec fn kind(self) -> int {
        match self {
            CalculatedValue::ApproximateDigits(_) => 0,
            CalculatedValue::Approximate(_, _) => 1,
            CalculatedValue::Exact(_) => 2,
        }
    }

    /// The integer by which the size of the result is judged: the value,
    /// the exponent, or the number of digits.
    pub open spec fn magnitude(self) -> int {
        match self {
            CalculatedValue::Exact(value) => value,
            CalculatedValue::Approximate(_, exponent) => exponent,
            CalculatedValue::ApproximateDigits(digits) => digits,
        }
    }

    /// The order of results: by kind first; within a kind, exact values
    /// and numbers of digits by size, approximations by exponent and then
    /// by mantissa.
    pub open spec fn precedes(self, other: CalculatedValue) -> bool {
        self.kind() < other.kind() || (self.kind() == other.kind() && (self.magnitude()
            < other.magnitude() || (self.magnitude() == other.magnitude() && match (self, other) {
            (
                CalculatedValue::Approximate(m1, _),
                CalculatedValue::Approximate(m2, _),
            ) => m1.units < m2.units,
            _ => false,
        })))
    }
}

impl CalculatedFactorial {
    /// Whether this result comes before `other` in the order of results.
    pub fn precedes(&self, other: &CalculatedFactorial) -> (r: bool)
        ensures
            r == self@.precedes(other@),
    {
        match (self, other) {
            (CalculatedFactorial::Exact(a), CalculatedFactorial::Exact(b)) => integer_lt(a, b),
            (CalculatedFactorial::Exact(_), _) => false,
            (
                CalculatedFactorial::Approximate(m1, e1),
                CalculatedFactorial::Approximate(m2, e2),
            ) => integer_lt(e1, e2) || (integer_eq(e1, e2) && m1.units < m2.units),
            (CalculatedFactorial::Approximate(_, _), CalculatedFactorial::Exact(_)) => true,
            (CalculatedFactorial::Approximate(_, _), _) => false,
            (
                CalculatedFactorial::ApproximateDigits(a),
                CalculatedFactorial::ApproximateDigits(b),
            ) => integer_lt(a, b),
            (CalculatedFactorial::ApproximateDigits(_), _) => true,
        }
    }
}

/// A number, the levels of the factorials that were applied to it one
/// after the other, and the result.
#[derive(Debug, Clone, PartialEq, Eq, Hash)]
pub struct Factorial {
    pub number: BigInt,
    pub levels: Vec<i32>,
    pub factorial: CalculatedFactorial,
}

/// What a `Factorial` stands for.
pub struct FactorialView {
    pub number: int,
    pub levels: Seq<i32>,
    pub factorial: CalculatedValue,
}

impl View for Factorial {
    type V = FactorialView;

    open spec fn view(&self) -> FactorialView {
        FactorialView {
            number: integer_value(self.number),
            levels: self.levels@,
            factorial: self.factorial@,
        }
    }
}

/// The name of the factorial of a level, as it stands before the
/// placeholder. Level 1 is the plain factorial, level -1 the subfactorial;
/// the levels from 2 to 45 have names, and any other is written as its
/// number.
pub open spec fn level_text(level: i32) -> Seq<char> {
    if level == -1 {
        "Sub"@
    } else if level == 1 {
        "The "@
    } else if 2 <= level <= 45 {
        LEVEL_NAMES[level - 1]@
    } else {
        integer_text(level as int) + seq!['-']
    }
}

/// The words before the number: for each level, from the last that was
/// applied to the first, its name and the placeholder.
pub open spec fn heading_text(levels: Seq<i32>) -> Seq<char>
    decreases levels.len(),
{
    if levels.len() == 0 {
        Seq::<char>::empty()
    } else {
        level_text(levels.last()) + PLACEHOLDER@ + heading_text(levels.drop_last())
    }
}

/// Whether a value is too big to write out: it is above ten to the power
/// of `TOO_BIG_EXPONENT`.
pub open spec fn is_too_big(value: int) -> bool {
    value > pow10(TOO_BIG_EXPONENT as nat)
}

/// The mantissa of a number with the digits `digits` in scientific
/// notation: the first hundred and two digits, rounded to a hundred and
/// one, without the zeros at the end, and with a point after the first
/// digit where more than one is left.
pub open spec fn truncated_mantissa(digits: Seq<char>) -> Seq<char> {
    let kept = strip_trailing_zeros(rounded(digits.take(NUMBER_DECIMALS_SCIENTIFIC + 2)));
    if kept.len() > 1 {
        kept.take(1) + seq!['.'] + kept.skip(1)
    } else {
        kept
    }
}

/// A number as the lines show it where they are short of room: as it is
/// where it has at most a hundred and two digits or is negative, else in
/// scientific notation, the exponent being the number of digits after the
/// first.
pub open spec fn truncated_text(value: int, add_roughly: bool) -> Seq<char> {
    if value < 0 || decimal(value as nat).len() <= NUMBER_DECIMALS_SCIENTIFIC + 2 {
        integer_text(value)
    } else {
        (if add_roughly {
            "roughly "@
        } else {
            Seq::<char>::empty()
        }) + truncated_mantissa(decimal(value as nat)) + " × 10^"@ + decimal(
            (decimal(value as nat).len() - 1) as nat,
        )
    }
}

/// A number in a line: truncated where `shorten` is set.
pub open spec fn number_text(value: int, shorten: bool) -> Seq<char> {
    if shorten {
        truncated_text(value, false)
    } else {
        integer_text(value)
    }
}

/// What the line of an exact result says after the heading.
pub open spec fn exact_text(number: int, value: int, shorten: bool) -> Seq<char> {
    integer_text(number) + " is "@ + (if shorten {
        truncated_text(value, true)
    } else {
        integer_text(value)
    }) + " \n\n"@
}

/// What the line of an approximation says after the heading. The mantissa
/// is brought to at least one and below ten, and the exponent raised or
/// lowered by as much.
pub open spec fn approximate_text(
    number: int,
    mantissa: Mantissa,
    exponent: int,
    shorten: bool,
    shorten_number: bool,
) -> Seq<char> {
    let adjusted_exponent = exponent + mantissa.excess() - mantissa.deficit();
    number_text(number, shorten_number) + " is approximately "@ + mantissa.normalized().text()
        + " × 10^"@ + (if shorten {
        seq!['('] + truncated_text(adjusted_exponent, false) + seq![')']
    } else {
        integer_text(adjusted_exponent)
    }) + " \n\n"@
}

/// What the line of a number of digits says after the heading.
pub open spec fn digits_text(number: int, digits: int, shorten: bool, shorten_number: bool) -> Seq<
    char,
> {
    number_text(number, shorten_number) + " has approximately "@ + number_text(digits, shorten)
        + " digits \n\n"@
}

/// The line that states one result. Values are truncated where
/// `force_shorten` is set or the result is too big; the number itself is
/// written out in the line of an exact result, and truncated in the others
/// where `force_shorten` is set or the number is too big.
pub open spec fn line_text(f: FactorialView, force_shorten: bool) -> Seq<char> {
    let shorten = force_shorten || is_too_big(f.factorial.magnitude());
    let shorten_number = force_shorten || is_too_big(f.number);
    heading_text(f.levels) + match f.factorial {
        CalculatedValue::Exact(value) => exact_text(f.number, value, shorten),
        CalculatedValue::Approximate(mantissa, exponent) => approximate_text(
            f.number,
            mantissa,
            exponent,
            shorten,
            shorten_number,
        ),
        CalculatedValue::ApproximateDigits(digits) => digits_text(
            f.number,
            digits,
            shorten,
            shorten_number,
        ),
    }
}

/// Ten to the power of `TOO_BIG_EXPONENT`.
fn too_big_number() -> (r: BigInt)
    ensures
        integer_value(r) == pow10(TOO_BIG_EXPONENT as nat),
{
    let mut r = integer_from_u64(1);
    let mut i: u64 = 0;
    while i < TOO_BIG_EXPONENT
        invariant
            i <= TOO_BIG_EXPONENT,
            integer_value(r) == pow10(i as nat),
        decreases TOO_BIG_EXPONENT - i,
    {
        integer_mul_assign(&mut r, 10);
        i = i + 1;
        assert(pow10(i as nat) == 10 * pow10((i - 1) as nat));
    }
    r
}

fn push_number(acc: &mut String, value: &BigInt, shorten: bool)
    ensures
        final(acc)@ == old(acc)@ + number_text(integer_value(*value), shorten),
{
    let text = if shorten {
        Factorial::truncate(value, false)
    } else {
        integer_to_string(value)
    };
    acc.append(text.as_str());
}

fn push_heading(acc: &mut String, levels: &Vec<i32>)
    ensures
        final(acc)@ == old(acc)@ + heading_text(levels@),
{
    let mut i: usize = levels.len();
    assert(levels@.take(i as int) =~= levels@);
    assert(acc@ + heading_text(levels@.take(i as int)) == old(acc)@ + heading_text(levels@));
    while i > 0
        invariant
            i <= levels.len(),
            acc@ + heading_text(levels@.take(i as int)) == old(acc)@ + heading_text(levels@),
        decreases i,
    {
        let ghost part = levels@.take(i as int);
        let ghost before = acc@;
        proof {
            assert(part.drop_last() =~= levels@.take(i - 1));
            assert(part.last() == levels@[i - 1]);
        }
        let name = Factorial::get_factorial_level_string(levels[i - 1]);
        acc.append(name.as_str());
        acc.append(PLACEHOLDER);
        i = i - 1;
        proof {
            assert(acc@ + heading_text(levels@.take(i as int)) =~= before + heading_text(part));
        }
    }
    assert(acc@ + heading_text(levels@.take(0)) =~= acc@);
}

fn push_exact(acc: &mut String, number: &BigInt, value: &BigInt, shorten: bool)
    ensures
        final(acc)@ == old(acc)@ + exact_text(
            integer_value(*number),
            integer_value(*value),
            shorten,
        ),
{
    let number_string = integer_to_string(number);
    acc.append(number_string.as_str());
    acc.append(" is ");
    let text = if shorten {
        Factorial::truncate(value, true)
    } else {
        integer_to_string(value)
    };
    acc.append(text.as_str());
    acc.append(" \n\n");
    assert(acc@ =~= old(acc)@ + exact_text(
        integer_value(*number),
        integer_value(*value),
        shorten,
    ));
}

fn push_approximate(
    acc: &mut String,
    number: &BigInt,
    mantissa: Mantissa,
    exponent: &BigInt,
    shorten: bool,
    shorten_number: bool,
)
    ensures
        final(acc)@ == old(acc)@ + approximate_text(
            integer_value(*number),
            mantissa,
            integer_value(*exponent),
            shorten,
            shorten_number,
        ),
{
    let (normal, excess, deficit) = mantissa.normalize();
    let raised_exponent = integer_add(exponent, &integer_from_u64(excess as u64));
    let adjusted_exponent = integer_sub(&raised_exponent, &integer_from_u64(deficit as u64));
    push_number(acc, number, shorten_number);
    acc.append(" is approximately ");
    normal.push_text(acc);
    acc.append(" × 10^");
    if shorten {
        acc.push('(');
        let text = Factorial::truncate(&adjusted_exponent, false);
        acc.append(text.as_str());
        acc.push(')');
    } else {
        let text = integer_to_string(&adjusted_exponent);
        acc.append(text.as_str());
    }
    acc.append(" \n\n");
    assert(acc@ =~= old(acc)@ + approximate_text(
        integer_value(*number),
        mantissa,
        integer_value(*exponent),
        shorten,
        shorten_number,
    ));
}

fn push_digits(
    acc: &mut String,
    number: &BigInt,
    digits: &BigInt,
    shorten: bool,
    shorten_number: bool,
)
    ensures
        final(acc)@ == old(acc)@ + digits_text(
            integer_value(*number),
            integer_value(*digits),
            shorten,
            shorten_number,
        ),
{
    push_number(acc, number, shorten_number);
    acc.append(" has approximately ");
    push_number(acc, digits, shorten);
    acc.append(" digits \n\n");
    assert(acc@ =~= old(acc)@ + digits_text(
        integer_value(*number),
        integer_value(*digits),
        shorten,
        shorten_number,
    ));
}

impl Factorial {
    /// Appends the line that states this result to `acc`.
    pub fn format(&self, acc: &mut String, force_shorten: bool) -> (r: Result<
        (),
        std::fmt::Error,
    >)
        ensures
            r is Ok,
            final(acc)@ == old(acc)@ + line_text(self@, force_shorten),
    {
        let limit = too_big_number();
        let shorten = force_shorten || self.is_too_long();
        let shorten_number = force_shorten || integer_lt(&limit, &self.number);
        push_heading(acc, &self.levels);
        match &self.factorial {
            CalculatedFactorial::Exact(value) => {
                push_exact(acc, &self.number, value, shorten);
            },
            CalculatedFactorial::Approximate(mantissa, exponent) => {
                push_approximate(acc, &self.number, *mantissa, exponent, shorten, shorten_number);
            },
            CalculatedFactorial::ApproximateDigits(digits) => {
                push_digits(acc, &self.number, digits, shorten, shorten_number);
            },
        }
        assert(acc@ =~= old(acc)@ + line_text(self@, force_shorten));
        Ok(())
    }

    /// Writes a number so that it takes little room: as it is where it has
    /// at most a hundred and two digits, else in scientific notation,
    /// after the word `roughly` where `add_roughly` is set.
    pub fn truncate(number: &BigInt, add_roughly: bool) -> (r: String)
        ensures
            r@ == truncated_text(integer_value(*number), add_roughly),
    {
        let text = integer_to_string(number);
        let mut digits = to_chars(text.as_str());
        let ghost value = integer_value(*number);
        proof {
            if value < 0 {
                lemma_decimal_is_digits((-value) as nat);
            } else {
                lemma_decimal_is_digits(value as nat);
                assert(is_digit(digits@[0]));
            }
        }
        let length = digits.len();
        if digits[0] == '-' || length <= NUMBER_DECIMALS_SCIENTIFIC + 2 {
            return text;
        }
        let ghost all = digits@;
        digits.truncate(NUMBER_DECIMALS_SCIENTIFIC + 2);
        proof {
            assert(digits@ =~= all.take(NUMBER_DECIMALS_SCIENTIFIC + 2));
            assert(all_digits(digits@));
        }
        digits = round_chars(digits);
        let ghost whole = digits@;
        while digits.len() > 1 && digits[digits.len() - 1] == '0'
            invariant
                strip_trailing_zeros(digits@) == strip_trailing_zeros(whole),
            decreases digits.len(),
        {
            digits.pop();
        }
        if digits.len() > 1 {
            let ghost kept = digits@;
            digits.insert(1, '.');
            assert(digits@ =~= kept.take(1) + seq!['.'] + kept.skip(1));
        }
        assert(digits@ == truncated_mantissa(all));
        let mut r = String::new();
        if add_roughly {
            r.append("roughly ");
        }
        push_chars(&mut r, &digits, 0, digits.len());
        assert(digits@.subrange(0, digits.len() as int) == digits@);
        r.append(" × 10^");
        push_decimal(&mut r, (length - 1) as u64);
        assert(r@ =~= truncated_text(value, add_roughly));
        r
    }

    /// Whether the result is an approximate number of digits.
    pub fn is_aproximate_digits(&self) -> (r: bool)
        ensures
            r == (self@.factorial is ApproximateDigits),
    {
        match &self.factorial {
            CalculatedFactorial::ApproximateDigits(_) => true,
            _ => false,
        }
    }

    /// Whether the result is an approximation by mantissa and exponent.
    pub fn is_approximate(&self) -> (r: bool)
        ensures
            r == (self@.factorial is Approximate),
    {
        match &self.factorial {
            CalculatedFactorial::Approximate(_, _) => true,
            _ => false,
        }
    }

    /// Whether the result is too big to write out: the value of an exact
    /// result, the exponent of an approximation, or the number of digits.
    pub fn is_too_long(&self) -> (r: bool)
        ensures
            r == is_too_big(self@.factorial.magnitude()),
    {
        let limit = too_big_number();
        match &self.factorial {
            CalculatedFactorial::Exact(n) => integer_lt(&limit, n),
            CalculatedFactorial::ApproximateDigits(n) => integer_lt(&limit, n),
            CalculatedFactorial::Approximate(_, n) => integer_lt(&limit, n),
        }
    }

    /// The name of the factorial of `level`.
    pub fn get_factorial_level_string(level: i32) -> (r: String)
        ensures
            r@ == level_text(level),
    {
        if level == -1 {
            "Sub".to_owned()
        } else if level == 1 {
            "The ".to_owned()
        } else if 2 <= level && level <= 45 {
            LEVEL_NAMES[(level - 1) as usize].to_owned()
        } else {
            let mut suffix = String::new();
            if level < 0 {
                suffix.push('-');
                push_decimal(&mut suffix, (-(level as i64)) as u64);
            } else {
                push_decimal(&mut suffix, level as u64);
            }
            suffix.push('-');
            assert(suffix@ =~= level_text(level));
            suffix
        }
    }
}

/// The part of `text` before the first `c`, or all of it where there is
/// none.
pub open spec fn before_first(text: Seq<char>, c: char) -> Seq<char>
    decreases text.len(),
{
    if text.len() == 0 || text[0] == c {
        Seq::<char>::empty()
    } else {
        seq![text[0]] + before_first(text.drop_first(), c)
    }
}

/// The part of `text` after the last `c`, or all of it where there is none.
pub open spec fn after_last(text: Seq<char>, c: char) -> Seq<char>
    decreases text.len(),
{
    if text.len() == 0 || text.last() == c {
        Seq::<char>::empty()
    } else {
        after_last(text.drop_last(), c).push(text.last())
    }
}

/// The digits of a mantissa: the mantissa without its point.
pub open spec fn without_point(mantissa: Seq<char>) -> Seq<char> {
    if mantissa.len() > 1 && mantissa[1] == '.' {
        mantissa.take(1) + mantissa.skip(2)
    } else {
        mantissa
    }
}

proof fn lemma_before_first(head: Seq<char>, c: char, tail: Seq<char>)
    requires
        !head.contains(c),
    ensures
        before_first(head + seq![c] + tail, c) == head,
    decreases head.len(),
{
    let text = head + seq![c] + tail;
    if head.len() == 0 {
        assert(text[0] == c);
    } else {
        assert(head.contains(head[0]));
        assert(text[0] == head[0]);
        assert(text.drop_first() =~= head.drop_first() + seq![c] + tail);
        assert(!head.drop_first().contains(c)) by {
            if head.drop_first().contains(c) {
                let i = choose|i: int| 0 <= i < head.drop_first().len() && head.drop_first()[i] == c;
                assert(head[i + 1] == c);
            }
        }
        lemma_before_first(head.drop_first(), c, tail);
        assert(seq![head[0]] + head.drop_first() =~= head);
    }
}

pub(crate) proof fn lemma_after_last(head: Seq<char>, c: char, tail: Seq<char>)
    requires
        !tail.contains(c),
    ensures
        after_last(head + seq![c] + tail, c) == tail,
    decreases tail.len(),
{
    let text = head + seq![c] + tail;
    if tail.len() == 0 {
        assert(text.last() == c);
    } else {
        assert(tail.contains(tail.last()));
        assert(text.last() == tail.last());
        assert(text.drop_last() =~= head + seq![c] + tail.drop_last());
        assert(!tail.drop_last().contains(c)) by {
            if tail.drop_last().contains(c) {
                let i = choose|i: int| 0 <= i < tail.drop_last().len() && tail.drop_last()[i] == c;
                assert(tail[i] == c);
            }
        }
        lemma_after_last(head, c, tail.drop_last());
        assert(tail.drop_last().push(tail.last()) =~= tail);
    }
}

proof fn lemma_strip_trailing_zeros(s: Seq<char>)
    requires
        s.len() >= 1,
    ensures
        1 <= strip_trailing_zeros(s).len() <= s.len(),
        strip_trailing_zeros(s) == s.take(strip_trailing_zeros(s).len() as int),
        strip_trailing_zeros(s).len() == 1 || strip_trailing_zeros(s).last() != '0',
        crate::text::decimal_value(s) == crate::text::decimal_value(strip_trailing_zeros(s))
            * pow10((s.len() - strip_trailing_zeros(s).len()) as nat),
    decreases s.len(),
{
    if s.len() > 1 && s.last() == '0' {
        let p = s.drop_last();
        lemma_strip_trailing_zeros(p);
        let kept = strip_trailing_zeros(p);
        let n = kept.len() as int;
        assert(p.take(n) =~= s.take(n));
        let v = crate::text::decimal_value(kept) as int;
        let shift = pow10((p.len() - n) as nat) as int;
        assert(pow10((s.len() - n) as nat) == 10 * shift);
        assert(crate::text::decimal_value(s) == crate::text::decimal_value(p) * 10);
        assert((v * shift) * 10 == v * (10 * shift)) by (nonlinear_arith);
    } else {
        assert(s.take(s.len() as int) =~= s);
        assert(pow10(0) == 1);
        assert(crate::text::decimal_value(s) * 1 == crate::text::decimal_value(s));
    }
}

proof fn lemma_incremented_nines(s: Seq<char>)
    requires
        crate::math::all_nines(s),
    ensures
        strip_trailing_zeros(crate::math::incremented(s)) == seq!['1'],
        crate::math::incremented(s).len() == s.len() + 1,
    decreases s.len(),
{
    if s.len() > 0 {
        assert(s[s.len() - 1] == '9');
        assert(crate::math::all_nines(s.drop_last())) by {
            assert forall|i: int| 0 <= i < s.drop_last().len() implies #[trigger] s.drop_last()[i]
                == '9' by {
                assert(s[i] == '9');
            }
        }
        lemma_incremented_nines(s.drop_last());
        let q = crate::math::incremented(s.drop_last());
        assert(q.push('0').drop_last() =~= q);
    }
}

/// Truncation can be read back. The text of a number of more than a
/// hundred and two digits, written without the word `roughly`, holds the
/// mantissa before its first blank and the exponent after its `^`. The
/// mantissa has at most a hundred and one digits, all of which are
/// decimal digits; the first is not zero, and the last is not zero unless
/// it is the only one. The exponent is the number of digits of the number
/// less one: the number is at least ten to the power of the exponent, and
/// less than ten times as much.
pub proof fn lemma_truncation_round_trip(value: int)
    requires
        value >= 0,
        decimal(value as nat).len() > NUMBER_DECIMALS_SCIENTIFIC + 2,
    ensures
        before_first(truncated_text(value, false), ' ') == truncated_mantissa(
            decimal(value as nat),
        ),
        all_digits(without_point(truncated_mantissa(decimal(value as nat)))),
        1 <= without_point(truncated_mantissa(decimal(value as nat))).len()
            <= NUMBER_DECIMALS_SCIENTIFIC + 1,
        without_point(truncated_mantissa(decimal(value as nat)))[0] != '0',
        without_point(truncated_mantissa(decimal(value as nat))).len() == 1 || without_point(
            truncated_mantissa(decimal(value as nat)),
        ).last() != '0',
        crate::text::decimal_value(after_last(truncated_text(value, false), '^')) == decimal(
            value as nat,
        ).len() - 1,
        pow10((decimal(value as nat).len() - 1) as nat) <= value < 10 * pow10(
            (decimal(value as nat).len() - 1) as nat,
        ),
{
    let digits = decimal(value as nat);
    lemma_decimal_is_digits(value as nat);
    crate::text::lemma_decimal_len_bounds(value as nat);
    let head = digits.take(NUMBER_DECIMALS_SCIENTIFIC + 2);
    assert(all_digits(head)) by {
        assert forall|i: int| 0 <= i < head.len() implies is_digit(#[trigger] head[i]) by {
            assert(head[i] == digits[i]);
        }
    }
    crate::math::lemma_rounded(head);
    let whole = rounded(head);
    if whole.len() == head.len() {
        lemma_incremented_nines(head.drop_last());
    }
    lemma_strip_trailing_zeros(whole);
    let kept = strip_trailing_zeros(whole);
    assert(kept[0] != '0') by {
        if whole.len() == head.len() {
            assert(kept == seq!['1']);
        } else {
            assert(value > 0) by {
                if value == 0 {
                    assert(decimal(0).len() == 1);
                }
            }
            crate::text::lemma_decimal_leading_digit(value as nat);
            assert(head[0] == digits[0]);
            crate::text::lemma_decimal_value_bounds(head);
            crate::text::lemma_decimal_value_bounds(whole);
            assert(pow10((head.len() - 1) as nat) == 10 * pow10((head.len() - 2) as nat));
            assert(kept[0] == whole[0]);
        }
    }
    assert(all_digits(kept)) by {
        assert forall|i: int| 0 <= i < kept.len() implies is_digit(#[trigger] kept[i]) by {
            assert(kept[i] == whole[i]);
        }
    }
    let mantissa = truncated_mantissa(digits);
    assert(without_point(mantissa) =~= kept);
    assert(!mantissa.contains(' ')) by {
        if mantissa.contains(' ') {
            let i = choose|i: int| 0 <= i < mantissa.len() && mantissa[i] == ' ';
            if kept.len() > 1 {
                if i == 0 {
                    assert(mantissa[i] == kept[0]);
                } else if i > 1 {
                    assert(mantissa[i] == kept[i - 1]);
                }
            } else {
                assert(mantissa[i] == kept[i]);
            }
        }
    }
    let exponent = decimal((digits.len() - 1) as nat);
    lemma_decimal_is_digits((digits.len() - 1) as nat);
    crate::text::lemma_decimal_value_of_decimal((digits.len() - 1) as nat);
    assert(!exponent.contains('^')) by {
        if exponent.contains('^') {
            let i = choose|i: int| 0 <= i < exponent.len() && exponent[i] == '^';
            assert(is_digit(exponent[i]));
        }
    }
    let text = truncated_text(value, false);
    reveal_strlit(" × 10^");
    let marker = " × 10^"@;
    assert(marker =~= seq![' '] + seq!['×', ' ', '1', '0', '^']);
    assert(marker =~= seq![' ', '×', ' ', '1', '0'] + seq!['^']);
    assert(text =~= mantissa + seq![' '] + (seq!['×', ' ', '1', '0', '^'] + exponent));
    lemma_before_first(mantissa, ' ', seq!['×', ' ', '1', '0', '^'] + exponent);
    assert(text =~= (mantissa + seq![' ', '×', ' ', '1', '0']) + seq!['^'] + exponent);
    lemma_after_last(mantissa + seq![' ', '×', ' ', '1', '0'], '^', exponent);
}

/// Truncation is close. Where rounding does not carry out of the first
/// digit, the hundred and one digits that it leaves, taken as a number
/// and followed by as many zeros as the number has further digits, differ
/// from the number by no more than half a unit of the last of them. The
/// digits of the mantissa are these digits without the zeros at their end.
pub proof fn lemma_truncation_is_close(value: int)
    requires
        value >= 0,
        decimal(value as nat).len() > NUMBER_DECIMALS_SCIENTIFIC + 2,
        rounded(decimal(value as nat).take(NUMBER_DECIMALS_SCIENTIFIC + 2)).len()
            == NUMBER_DECIMALS_SCIENTIFIC + 1,
    ensures
        ({
            let digits = decimal(value as nat);
            let kept = rounded(digits.take(NUMBER_DECIMALS_SCIENTIFIC + 2));
            let mantissa = without_point(truncated_mantissa(digits));
            let unit = pow10((digits.len() - NUMBER_DECIMALS_SCIENTIFIC - 1) as nat);
            &&& -unit <= 2 * (crate::text::decimal_value(kept) * unit - value) <= unit
            &&& crate::text::decimal_value(kept) == crate::text::decimal_value(mantissa) * pow10(
                (kept.len() - mantissa.len()) as nat,
            )
        }),
{
    let digits = decimal(value as nat);
    lemma_decimal_is_digits(value as nat);
    crate::text::lemma_decimal_value_of_decimal(value as nat);
    let head = digits.take(NUMBER_DECIMALS_SCIENTIFIC + 2);
    assert(all_digits(head)) by {
        assert forall|i: int| 0 <= i < head.len() implies is_digit(#[trigger] head[i]) by {
            assert(head[i] == digits[i]);
        }
    }
    crate::math::lemma_rounded(head);
    let kept = rounded(head);
    lemma_strip_trailing_zeros(kept);
    assert(without_point(truncated_mantissa(digits)) =~= strip_trailing_zeros(kept));
    crate::text::lemma_decimal_value_of_prefix(digits, NUMBER_DECIMALS_SCIENTIFIC + 2);
    let rest = pow10((digits.len() - NUMBER_DECIMALS_SCIENTIFIC - 2) as nat) as int;
    let unit = pow10((digits.len() - NUMBER_DECIMALS_SCIENTIFIC - 1) as nat) as int;
    crate::text::lemma_pow10_positive((digits.len() - NUMBER_DECIMALS_SCIENTIFIC - 2) as nat);
    assert(unit == 10 * rest);
    let h = crate::text::decimal_value(head) as int;
    let m = crate::text::decimal_value(kept) as int;
    assert(h == value / rest);
    vstd::arithmetic::div_mod::lemma_fundamental_div_mod(value, rest);
    let r = value % rest;
    assert(0 <= r < rest) by {
        vstd::arithmetic::div_mod::lemma_mod_bound(value, rest);
    }
    assert(m == (h + 5) / 10);
    assert(-4 <= 10 * m - h <= 5);
    assert(-unit <= 2 * (m * unit - value) <= unit) by (nonlinear_arith)
        requires
            unit == 10 * rest,
            value == rest * h + r,
            0 <= r < rest,
            -4 <= 10 * m - h <= 5,
    ;
}

/// The order of sequences of levels, as in a dictionary: by the first
/// level in which they differ; a sequence comes before those that go on
/// after its end.
pub open spec fn levels_precede(a: Seq<i32>, b: Seq<i32>) -> bool
    decreases a.len(),
{
    if b.len() == 0 {
        false
    } else if a.len() == 0 {
        true
    } else {
        a[0] < b[0] || (a[0] == b[0] && levels_precede(a.drop_first(), b.drop_first()))
    }
}

impl FactorialView {
    /// The order of records: by number, then by levels, then by result.
    pub open spec fn precedes(self, other: FactorialView) -> bool {
        self.number < other.number || (self.number == other.number && (levels_precede(
            self.levels,
            other.levels,
        ) || (self.levels == other.levels && self.factorial.precedes(other.factorial))))
    }
}

/// The order of sequences of levels is a strict total order.
pub proof fn lemma_levels_order(a: Seq<i32>, b: Seq<i32>, c: Seq<i32>)
    ensures
        !levels_precede(a, a),
        levels_precede(a, b) ==> !levels_precede(b, a),
        a != b ==> levels_precede(a, b) || levels_precede(b, a),
        levels_precede(a, b) && levels_precede(b, c) ==> levels_precede(a, c),
    decreases a.len(),
{
    if a.len() > 0 {
        let rest_b = if b.len() > 0 {
            b.drop_first()
        } else {
            b
        };
        let rest_c = if c.len() > 0 {
            c.drop_first()
        } else {
            c
        };
        lemma_levels_order(a.drop_first(), rest_b, rest_c);
        lemma_levels_order(a.drop_first(), a.drop_first(), rest_c);
        if b.len() > 0 && a[0] == b[0] && a.drop_first() == b.drop_first() {
            assert(a =~= seq![a[0]] + a.drop_first());
            assert(b =~= seq![b[0]] + b.drop_first());
        }
    } else if b.len() == 0 {
        assert(a =~= b);
    }
}

/// The order of records is a strict total order.
pub proof fn lemma_precedes_is_strict_total_order(
    a: FactorialView,
    b: FactorialView,
    c: FactorialView,
)
    ensures
        !a.precedes(a),
        a.precedes(b) ==> !b.precedes(a),
        a != b ==> a.precedes(b) || b.precedes(a),
        a.precedes(b) && b.precedes(c) ==> a.precedes(c),
{
    lemma_levels_order(a.levels, b.levels, c.levels);
    lemma_levels_order(b.levels, a.levels, c.levels);
    lemma_levels_order(b.levels, c.levels, a.levels);
}

/// Whether the levels `a` come before the levels `b`, and whether they are
/// the same.
fn levels_before(a: &Vec<i32>, b: &Vec<i32>) -> (r: (bool, bool))
    ensures
        r.0 == levels_precede(a@, b@),
        r.1 == (a@ == b@),
{
    let mut i: usize = 0;
    assert(a@.skip(0) =~= a@ && b@.skip(0) =~= b@);
    while i < a.len() && i < b.len()
        invariant
            i <= a.len(),
            i <= b.len(),
            levels_precede(a@, b@) == levels_precede(a@.skip(i as int), b@.skip(i as int)),
            forall|j: int| 0 <= j < i ==> a@[j] == b@[j],
        decreases a.len() - i,
    {
        let ghost x = a@.skip(i as int);
        let ghost y = b@.skip(i as int);
        proof {
            assert(x.drop_first() =~= a@.skip(i + 1));
            assert(y.drop_first() =~= b@.skip(i + 1));
            assert(x[0] == a@[i as int] && y[0] == b@[i as int]);
        }
        if a[i] < b[i] {
            return (true, false);
        }
        if a[i] > b[i] {
            return (false, false);
        }
        i = i + 1;
    }
    proof {
        if i == a.len() && i == b.len() {
            assert(a@ =~= b@);
        }
    }
    (i < b.len(), i == a.len() && i == b.len())
}

impl Factorial {
    /// Whether this record comes before `other` in the order of records.
    pub fn precedes(&self, other: &Factorial) -> (r: bool)
        ensures
            r == self@.precedes(other@),
    {
        if integer_lt(&self.number, &other.number) {
            true
        } else if integer_eq(&self.number, &other.number) {
            let (before, same) = levels_before(&self.levels, &other.levels);
            before || (same && self.factorial.precedes(&other.factorial))
        } else {
            false
        }
    }
}

} // verus!
