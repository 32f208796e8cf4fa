//! A comment, the factorials that were found in it, and the reply to it.

use crate::extractor::{
    candidate_views, candidates, extract, lemma_candidates_are_natural, CandidateView,
};
use crate::integer::{integer_eq, integer_lt, integer_to_string, integer_to_u64, integer_value};
use crate::math::{
    adjust_approximate_factorial, adjusted, approximate_factorial_text, factorial,
    format_approximate_factorial, multifactorial, round_chars, rounded, Approximator, Mantissa,
};
use crate::factorial::{after_last, lemma_after_last};
use crate::scan::{
    lemma_utf8_len_bound, lemma_utf8_len_is_encoded_len, lemma_utf8_len_split, utf8_len,
};
use crate::text::{
    all_digits, decimal, decimal_value, integer_text, is_digit, lemma_decimal_is_digits,
    lemma_decimal_value_of_decimal, push_chars, push_decimal, to_chars,
};
use crate::tier::{tier_of, Tier, UPPER_APPROXIMATION_LIMIT};
use num_bigint::BigInt;
use vstd::prelude::*;
use vstd::string::*;
use vstd::utf8::encode_utf8;

verus! {

/// `core::fmt::Error`, the error of a formatter, taken as a type whose
/// values cannot be looked into. Nothing here makes one.
#[verifier::external_type_specification]
#[verifier::external_body]
pub struct ExFmtError(core::fmt::Error);

/// What every line of a reply calls the operation.
pub const PLACEHOLDER: &'static str = "Factorial of ";

/// The last line of every reply.
pub const FOOTER_TEXT: &'static str =
    "\n*^(This action was performed by a bot. Please DM me if you have any questions.)*";

/// The most bytes that a reply may have before the footer is added.
pub const MAX_COMMENT_LENGTH: usize = 9909;

/// The number of decimal places of a number in scientific notation.
pub const NUMBER_DECIMALS_SCIENTIFIC: usize = 100;

/// The note before the results where only a number of digits could be
/// given for some of them.
pub const NOTE_APPROXIMATE_DIGITS: &'static str =
    "Some of these are so large, that I can't even approximate it well, so I can only give you an approximation on the number of digits.\n\n";

/// The note before the results where some of them are approximations.
pub const NOTE_APPROXIMATE: &'static str =
    "Sorry, that's a little bit much to calculate, so I'll have to approximate.\n\n";

/// The note before the results where they are written in scientific
/// notation to keep the reply short.
pub const NOTE_TOO_LONG: &'static str =
    "If I post the whole numbers, the comment would get too long, as reddit only allows up to 10k characters. So I had to turn them into scientific notation.\n\n";

/// The reply in place of results that are too long even in scientific
/// notation.
pub const REPLY_TOO_LONG: &'static str =
    "Sorry, but the reply text for all those number would be _really_ long, so I'd rather not even try posting lmao\n";

/// The names of the multifactorials: the name for level `n` stands at
/// index `n - 1`.
pub const LEVEL_NAMES: [&'static str; 45] = [
    "",
    "Double-",
    "Triple-",
    "Quadruple-",
    "Quintuple-",
    "Sextuple-",
    "Septuple-",
    "Octuple-",
    "Nonuple-",
    "Decuple-",
    "Undecuple-",
    "Duodecuple-",
    "Tredecuple-",
    "Quattuordecuple-",
    "Quindecuple-",
    "Sexdecuple-",
    "Septendecuple-",
    "Octodecuple-",
    "Novemdecuple-",
    "Vigintuple-",
    "Unvigintuple-",
    "Duovigintuple-",
    "Trevigintuple-",
    "Quattuorvigintuple-",
    "Quinvigintuple-",
    "Sexvigintuple-",
    "Septenvigintuple-",
    "Octovigintuple-",
    "Novemvigintuple-",
    "Trigintuple-",
    "Untrigintuple-",
    "Duotrigintuple-",
    "Tretrigintuple-",
    "Quattuortrigintuple-",
    "Quintrigintuple-",
    "Sextrigintuple-",
    "Septentrigintuple-",
    "Octotrigintuple-",
    "Novemtrigintuple-",
    "Quadragintuple-",
    "Unquadragintuple-",
    "Duoquadragintuple-",
    "Trequadragintuple-",
    "Quattuorquadragintuple-",
    "Quinquadragintuple-",
];

/// The largest number whose factorial is still written out in full: for
/// level `n` it stands at index `n - 1`. The factorial of a larger number
/// would nearly fill a reply by itself.
pub const LENGTH_LIMITS: [u64; 45] = [
    3249, 5982, 8572, 11077, 13522, 15920, 18282, 20613, 22920,
    25208, 27479, 29735, 31977, 34207, 36426, 38635, 40835, 43027,
    45212, 47390, 49562, 51728, 53889, 56045, 58197, 60345, 62489,
    64630, 66768, 68903, 71036, 73167, 75296, 77423, 79548, 81672,
    83794, 85915, 88035, 90154, 92272, 94389, 96505, 98620, 100734,
];

/// What is known about a comment and the reply to it.
#[derive(Debug, Copy, Clone, PartialEq, Eq, Hash, Structural)]
pub enum Status {
    AlreadyReplied,
    NotReplied,
    NumberTooBig,
    ApproximateFactorial,
    ApproximateDigits,
    NoFactorial,
    ReplyWouldBeTooLong,
    FactorialsFound,
    DecimalFactorial,
}

/// The result of a calculation.
#[derive(Debug, Clone, PartialEq, Eq, Hash)]
pub enum CalculatedFactorial {
    /// The factorial itself.
    Exact(BigInt),
    /// A mantissa and an exponent: the factorial is about the mantissa
    /// times ten to the power of the exponent.
    Approximate(Mantissa, u64),
    /// About how many decimal digits the factorial has.
    ApproximateDigits(u64),
}

/// What a `CalculatedFactorial` stands for.
pub enum CalculatedValue {
    Exact(int),
    Approximate(Mantissa, u64),
    ApproximateDigits(u64),
}

impl View for CalculatedFactorial {
    type V = CalculatedValue;

    open spec fn view(&self) -> CalculatedValue {
        match *self {
            CalculatedFactorial::Exact(value) => CalculatedValue::Exact(integer_value(value)),
            CalculatedFactorial::Approximate(mantissa, exponent) => CalculatedValue::Approximate(
                mantissa,
                exponent,
            ),
            CalculatedFactorial::ApproximateDigits(digits) => CalculatedValue::ApproximateDigits(
                digits,
            ),
        }
    }
}

impl CalculatedValue {
    /// The rank of the kind of result: a number of digits is the lowest
    /// kind, an exact value the highest.
    pub open spec fn kind(self) -> int {
        match self {
            CalculatedValue::ApproximateDigits(_) => 0,
            CalculatedValue::Approximate(_, _) => 1,
            CalculatedValue::Exact(_) => 2,
        }
    }

    /// The order of results: by kind first; within a kind, exact values
    /// and numbers of digits by size, approximations by exponent and then
    /// by mantissa.
    pub open spec fn precedes(self, other: CalculatedValue) -> bool {
        self.kind() < other.kind() || (self.kind() == other.kind() && match (self, other) {
            (CalculatedValue::Exact(a), CalculatedValue::Exact(b)) => a < b,
            (
                CalculatedValue::Approximate(m1, e1),
                CalculatedValue::Approximate(m2, e2),
            ) => e1 < e2 || (e1 == e2 && m1.units < m2.units),
            (CalculatedValue::ApproximateDigits(a), CalculatedValue::ApproximateDigits(b)) => a
                < b,
            _ => false,
        })
    }
}

impl CalculatedFactorial {
    /// Whether this result comes before `other` in the order of results.
    pub fn precedes(&self, other: &CalculatedFactorial) -> (r: bool)
        ensures
            r == self@.precedes(other@),
    {
        match (self, other) {
            (CalculatedFactorial::Exact(a), CalculatedFactorial::Exact(b)) => integer_lt(a, b),
            (CalculatedFactorial::Exact(_), _) => false,
            (
                CalculatedFactorial::Approximate(m1, e1),
                CalculatedFactorial::Approximate(m2, e2),
            ) => *e1 < *e2 || (*e1 == *e2 && m1.units < m2.units),
            (CalculatedFactorial::Approximate(_, _), CalculatedFactorial::Exact(_)) => true,
            (CalculatedFactorial::Approximate(_, _), _) => false,
            (
                CalculatedFactorial::ApproximateDigits(a),
                CalculatedFactorial::ApproximateDigits(b),
            ) => *a < *b,
            (CalculatedFactorial::ApproximateDigits(_), _) => true,
        }
    }

    /// Whether this result and `other` stand for the same value.
    pub fn same_as(&self, other: &CalculatedFactorial) -> (r: bool)
        ensures
            r == (self@ == other@),
    {
        match (self, other) {
            (CalculatedFactorial::Exact(a), CalculatedFactorial::Exact(b)) => integer_eq(a, b),
            (
                CalculatedFactorial::Approximate(m1, e1),
                CalculatedFactorial::Approximate(m2, e2),
            ) => *e1 == *e2 && m1.units == m2.units,
            (
                CalculatedFactorial::ApproximateDigits(a),
                CalculatedFactorial::ApproximateDigits(b),
            ) => *a == *b,
            _ => false,
        }
    }
}

/// A number, the level of the factorial that was asked for, and the result.
#[derive(Debug, Clone, PartialEq, Eq, Hash)]
pub struct Factorial {
    pub number: u64,
    pub level: u64,
    pub factorial: CalculatedFactorial,
}

/// What a `Factorial` stands for.
pub struct FactorialView {
    pub number: u64,
    pub level: u64,
    pub factorial: CalculatedValue,
}

impl View for Factorial {
    type V = FactorialView;

    open spec fn view(&self) -> FactorialView {
        FactorialView { number: self.number, level: self.level, factorial: self.factorial@ }
    }
}

impl FactorialView {
    /// Whether this record has a smaller number than `other`, or the same
    /// number and a smaller level.
    pub open spec fn key_precedes(self, other: FactorialView) -> bool {
        self.number < other.number || (self.number == other.number && self.level < other.level)
    }

    /// The order of records: by number, then by level, then by result.
    pub open spec fn precedes(self, other: FactorialView) -> bool {
        self.key_precedes(other) || (self.number == other.number && self.level == other.level
            && self.factorial.precedes(other.factorial))
    }
}

/// The order of records is a strict total order: no record precedes
/// itself, of two different records exactly one precedes the other, and
/// what precedes a record precedes all that the record precedes.
pub proof fn lemma_precedes_is_strict_total_order(
    a: FactorialView,
    b: FactorialView,
    c: FactorialView,
)
    ensures
        !a.precedes(a),
        a.precedes(b) ==> !b.precedes(a),
        a != b ==> a.precedes(b) || b.precedes(a),
        a.precedes(b) && b.precedes(c) ==> a.precedes(c),
{
}

impl Factorial {
    /// Whether this record comes before `other` in the order of records.
    pub fn precedes(&self, other: &Factorial) -> (r: bool)
        ensures
            r == self@.precedes(other@),
    {
        self.number < other.number || (self.number == other.number && (self.level < other.level
            || (self.level == other.level && self.factorial.precedes(&other.factorial))))
    }
}

/// A comment: where it came from, the factorials found in it, and what is
/// known about it.
#[derive(Debug)]
pub struct RedditComment {
    pub id: String,
    pub factorial_list: Vec<Factorial>,
    pub author: String,
    pub subreddit: String,
    pub status: Vec<Status>,
}

/// The name of the factorial of a level, as it stands before the
/// placeholder: empty for the plain factorial, the name of the level for
/// the levels up to 45, and for any other level its number and a hyphen.
pub open spec fn level_name(level: u64) -> Seq<char> {
    if 1 <= level <= 45 {
        LEVEL_NAMES[level - 1]@
    } else {
        decimal(level as nat) + seq!['-']
    }
}

/// Whether the factorial of `number` at `level` is too long to write out.
/// No number is too long at a level without a limit.
pub open spec fn is_too_long(number: u64, level: u64) -> bool {
    1 <= level <= 45 && number > LENGTH_LIMITS[level - 1]
}

/// Whether one of the records is too long to write out.
pub open spec fn any_too_long(list: Seq<Factorial>) -> bool {
    exists|i: int| 0 <= i < list.len() && is_too_long(#[trigger] list[i].number, list[i].level)
}

/// The status flags `status` with `flag` among them: added at the end
/// where it was missing.
pub open spec fn with_status(status: Seq<Status>, flag: Status) -> Seq<Status> {
    if status.contains(flag) {
        status
    } else {
        status.push(flag)
    }
}

/// The digits of a number in scientific notation: the digits as they are
/// where there are at most a hundred decimals, else rounded to a hundred
/// decimals; and a point after the first digit where more than one is left.
pub open spec fn scientific_mantissa(digits: Seq<char>) -> Seq<char> {
    let kept = if digits.len() >= NUMBER_DECIMALS_SCIENTIFIC + 2 {
        rounded(digits.take(NUMBER_DECIMALS_SCIENTIFIC + 2))
    } else {
        digits
    };
    if kept.len() > 1 {
        kept.take(1) + seq!['.'] + kept.skip(1)
    } else {
        kept
    }
}

/// A number in scientific notation: its sign where it is negative, the
/// mantissa, the letter `e`, and the number of digits after the first.
pub open spec fn scientific_text(value: int) -> Seq<char> {
    let digits = decimal(
        (if value < 0 {
            -value
        } else {
            value
        }) as nat,
    );
    (if value < 0 {
        seq!['-']
    } else {
        Seq::<char>::empty()
    }) + scientific_mantissa(digits) + seq!['e'] + decimal((digits.len() - 1) as nat)
}

/// The line of a reply that states one result. Where `shorten` is set an
/// exact result is written in scientific notation.
pub open spec fn line_text(f: FactorialView, shorten: bool) -> Seq<char> {
    let head = level_name(f.level) + PLACEHOLDER@ + decimal(f.number as nat);
    match f.factorial {
        CalculatedValue::Exact(value) => if shorten {
            head + " is roughly "@ + scientific_text(value) + " \n\n"@
        } else {
            head + " is "@ + integer_text(value) + " \n\n"@
        },
        CalculatedValue::Approximate(mantissa, exponent) => head + " is approximately "@
            + approximate_factorial_text((mantissa, exponent)) + " \n\n"@,
        CalculatedValue::ApproximateDigits(digits) => head + " has approximately "@ + decimal(
            digits as nat,
        ) + " Digits \n\n"@,
    }
}

/// The lines of all records, in the order of the list.
pub open spec fn lines_text(list: Seq<Factorial>, shorten: bool) -> Seq<char>
    decreases list.len(),
{
    if list.len() == 0 {
        Seq::<char>::empty()
    } else {
        lines_text(list.drop_last(), shorten) + line_text(list.last()@, shorten)
    }
}

/// The note that opens a reply. Of the three notes the first that applies
/// is given: that some results are numbers of digits, that some are
/// approximations, that all are shortened. Without any of these there is
/// no note.
pub open spec fn note_text(status: Seq<Status>) -> Seq<char> {
    if status.contains(Status::ApproximateDigits) {
        NOTE_APPROXIMATE_DIGITS@
    } else if status.contains(Status::ApproximateFactorial) {
        NOTE_APPROXIMATE@
    } else if status.contains(Status::ReplyWouldBeTooLong) {
        NOTE_TOO_LONG@
    } else {
        Seq::<char>::empty()
    }
}

/// The reply to a comment with the given status and results, where the
/// note and the lines may take `max_length` bytes: the note and the lines,
/// or an apology in their place where they take more; then the footer.
pub open spec fn reply_text_within(
    status: Seq<Status>,
    list: Seq<Factorial>,
    max_length: nat,
) -> Seq<char> {
    let results = note_text(status) + lines_text(
        list,
        status.contains(Status::ReplyWouldBeTooLong),
    );
    (if encode_utf8(results).len() > max_length {
        REPLY_TOO_LONG@
    } else {
        results
    }) + FOOTER_TEXT@
}

/// The reply to a comment with the given status and results, where the
/// note and the lines may take `MAX_COMMENT_LENGTH` bytes.
pub open spec fn reply_text(status: Seq<Status>, list: Seq<Factorial>) -> Seq<char> {
    reply_text_within(status, list, MAX_COMMENT_LENGTH as nat)
}

/// Whether `flag` is among the status flags.
pub fn has_status(status: &Vec<Status>, flag: Status) -> (r: bool)
    ensures
        r == status@.contains(flag),
{
    let mut i: usize = 0;
    while i < status.len()
        invariant
            i <= status.len(),
            forall|j: int| 0 <= j < i ==> status@[j] != flag,
        decreases status.len() - i,
    {
        if status[i] == flag {
            return true;
        }
        i = i + 1;
    }
    false
}

fn put_status(status: &mut Vec<Status>, flag: Status)
    ensures
        final(status)@ == with_status(old(status)@, flag),
{
    if !has_status(status, flag) {
        status.push(flag);
    }
}

/// Appends `value` in scientific notation.
fn push_scientific(acc: &mut String, value: &BigInt)
    ensures
        final(acc)@ == old(acc)@ + scientific_text(integer_value(*value)),
{
    let text = integer_to_string(value);
    let mut digits = to_chars(text.as_str());
    let ghost v = integer_value(*value);
    let ghost magnitude = (if v < 0 {
        -v
    } else {
        v
    }) as nat;
    proof {
        lemma_decimal_is_digits(magnitude);
        if v >= 0 {
            assert(is_digit(digits@[0]));
        }
    }
    if digits[0] == '-' {
        acc.push('-');
        digits.remove(0);
        assert(digits@ =~= decimal(magnitude));
    }
    let ghost sign = if v < 0 {
        seq!['-']
    } else {
        Seq::<char>::empty()
    };
    assert(acc@ =~= old(acc)@ + sign);
    assert(digits@ == decimal(magnitude));
    let length = digits.len();
    if length >= NUMBER_DECIMALS_SCIENTIFIC + 2 {
        digits.truncate(NUMBER_DECIMALS_SCIENTIFIC + 2);
        proof {
            assert(digits@ =~= decimal(magnitude).take(NUMBER_DECIMALS_SCIENTIFIC + 2));
            assert(all_digits(digits@));
        }
        digits = round_chars(digits);
    }
    if digits.len() > 1 {
        let ghost kept = digits@;
        digits.insert(1, '.');
        assert(digits@ =~= kept.take(1) + seq!['.'] + kept.skip(1));
    }
    assert(digits@ == scientific_mantissa(decimal(magnitude)));
    push_chars(acc, &digits, 0, digits.len());
    assert(digits@.subrange(0, digits.len() as int) == digits@);
    acc.push('e');
    push_decimal(acc, (length - 1) as u64);
    assert(acc@ =~= old(acc)@ + scientific_text(v));
}

impl Factorial {
    /// Appends the line that states this result to `acc`.
    pub fn format(&self, acc: &mut String, shorten: bool) -> (r: Result<(), std::fmt::Error>)
        ensures
            r is Ok,
            final(acc)@ == old(acc)@ + line_text(self@, shorten),
    {
        let name = RedditComment::get_factorial_level_string(self.level);
        acc.append(name.as_str());
        acc.append(PLACEHOLDER);
        push_decimal(acc, self.number);
        match &self.factorial {
            CalculatedFactorial::Exact(value) => {
                if shorten {
                    acc.append(" is roughly ");
                    push_scientific(acc, value);
                    acc.append(" \n\n");
                } else {
                    acc.append(" is ");
                    let text = integer_to_string(value);
                    acc.append(text.as_str());
                    acc.append(" \n\n");
                }
            },
            CalculatedFactorial::Approximate(mantissa, exponent) => {
                acc.append(" is approximately ");
                let text = format_approximate_factorial((*mantissa, *exponent));
                acc.append(text.as_str());
                acc.append(" \n\n");
            },
            CalculatedFactorial::ApproximateDigits(digits) => {
                acc.append(" has approximately ");
                push_decimal(acc, *digits);
                acc.append(" Digits \n\n");
            },
        }
        assert(acc@ =~= old(acc)@ + line_text(self@, shorten));
        Ok(())
    }
}

impl RedditComment {
    /// The name of the factorial of `level`.
    pub fn get_factorial_level_string(level: u64) -> (r: String)
        ensures
            r@ == level_name(level),
    {
        if 1 <= level && level <= 45 {
            LEVEL_NAMES[(level - 1) as usize].to_owned()
        } else {
            let mut name = String::new();
            push_decimal(&mut name, level);
            name.push('-');
            name
        }
    }

    /// Whether one of the factorials is too long to be written out in a
    /// reply.
    pub fn factorials_are_too_long(factorial_list: &[Factorial]) -> (r: bool)
        ensures
            r == any_too_long(factorial_list@),
    {
        let mut i: usize = 0;
        while i < factorial_list.len()
            invariant
                i <= factorial_list.len(),
                forall|j: int|
                    0 <= j < i ==> !is_too_long(
                        #[trigger] factorial_list@[j].number,
                        factorial_list@[j].level,
                    ),
            decreases factorial_list.len() - i,
        {
            let level = factorial_list[i].level;
            if 1 <= level && level <= 45 && factorial_list[i].number > LENGTH_LIMITS[(level
                - 1) as usize] {
                return true;
            }
            i = i + 1;
        }
        false
    }

    /// Sets a status flag. A flag that is set already is not set again.
    pub fn add_status(&mut self, status: Status)
        ensures
            final(self).status@ == with_status(old(self).status@, status),
            final(self).id == old(self).id,
            final(self).author == old(self).author,
            final(self).subreddit == old(self).subreddit,
            final(self).factorial_list == old(self).factorial_list,
    {
        put_status(&mut self.status, status);
    }

    /// The text of the reply to the comment.
    pub fn get_reply(&self) -> (reply: String)
        ensures
            reply@ == reply_text(self.status@, self.factorial_list@),
    {
        self.get_reply_within(MAX_COMMENT_LENGTH)
    }

    /// The text of the reply to the comment, for a place where the note
    /// and the lines may take `max_length` bytes.
    pub fn get_reply_within(&self, max_length: usize) -> (reply: String)
        ensures
            reply@ == reply_text_within(self.status@, self.factorial_list@, max_length as nat),
    {
        let mut reply = String::new();
        if has_status(&self.status, Status::ApproximateDigits) {
            reply.append(NOTE_APPROXIMATE_DIGITS);
        } else if has_status(&self.status, Status::ApproximateFactorial) {
            reply.append(NOTE_APPROXIMATE);
        } else if has_status(&self.status, Status::ReplyWouldBeTooLong) {
            reply.append(NOTE_TOO_LONG);
        }
        assert(reply@ =~= note_text(self.status@));
        let shorten = has_status(&self.status, Status::ReplyWouldBeTooLong);
        let mut i: usize = 0;
        while i < self.factorial_list.len()
            invariant
                i <= self.factorial_list.len(),
                reply@ == note_text(self.status@) + lines_text(
                    self.factorial_list@.take(i as int),
                    shorten,
                ),
            decreases self.factorial_list.len() - i,
        {
            let _ = self.factorial_list[i].format(&mut reply, shorten);
            proof {
                let next = self.factorial_list@.take(i + 1);
                assert(next.drop_last() =~= self.factorial_list@.take(i as int));
                assert(next.last() == self.factorial_list@[i as int]);
            }
            i = i + 1;
        }
        assert(self.factorial_list@.take(i as int) =~= self.factorial_list@);
        if reply.as_str().as_bytes().len() > max_length {
            reply = REPLY_TOO_LONG.to_owned();
        }
        reply.append(FOOTER_TEXT);
        reply
    }
}

/// Whether a result is wanted for `number` at `level`: a candidate asks
/// for it, and its tier is one that calculates.
pub open spec fn is_wanted(candidates: Seq<CandidateView>, number: u64, level: u64) -> bool {
    exists|i: int|
        0 <= i < candidates.len() && (#[trigger] candidates[i]).number == number
            && candidates[i].level == level && tier_of(number as int, level as nat).is_calculated()
}

/// Whether the list holds a record for `number` at `level`.
pub open spec fn has_record(list: Seq<Factorial>, number: u64, level: u64) -> bool {
    exists|i: int|
        0 <= i < list.len() && (#[trigger] list[i]).number == number && list[i].level == level
}

/// Whether the records are in ascending order of number and level, with no
/// two for the same number and level.
pub open spec fn sorted_by_key(list: Seq<Factorial>) -> bool {
    forall|i: int, j: int|
        0 <= i < j < list.len() ==> (#[trigger] list[i])@.key_precedes((#[trigger] list[j])@)
}

/// Whether a record holds the kind of result that the tier of its number
/// and level calls for, and the right value where the result is exact.
pub open spec fn fits_tier(f: FactorialView) -> bool {
    match tier_of(f.number as int, f.level as nat) {
        Tier::Exact => f.level >= 1 && f.factorial == CalculatedValue::Exact(
            multifactorial(f.number as nat, f.level as nat) as int,
        ),
        Tier::Approximate => f.factorial is Approximate,
        Tier::ApproximateDigits => f.factorial is ApproximateDigits,
        _ => false,
    }
}

/// Whether a list holds the results of the candidates: one record for each
/// number and level that a result is wanted for, of the kind that its tier
/// calls for, in ascending order.
pub open spec fn lists_results_of(list: Seq<Factorial>, candidates: Seq<CandidateView>) -> bool {
    &&& sorted_by_key(list)
    &&& forall|i: int| 0 <= i < list.len() ==> fits_tier(#[trigger] list[i]@)
    &&& forall|number: u64, level: u64|
        has_record(list, number, level) <==> is_wanted(candidates, number, level)
}

/// The status flags that the tiers of the candidates set, each at the
/// first candidate that calls for it.
pub open spec fn tier_status(candidates: Seq<CandidateView>) -> Seq<Status>
    decreases candidates.len(),
{
    if candidates.len() == 0 {
        Seq::<Status>::empty()
    } else {
        let earlier = tier_status(candidates.drop_last());
        match tier_of(candidates.last().number, candidates.last().level) {
            Tier::TooBig => with_status(earlier, Status::NumberTooBig),
            Tier::ApproximateDigits => with_status(earlier, Status::ApproximateDigits),
            Tier::Approximate => with_status(earlier, Status::ApproximateFactorial),
            _ => earlier,
        }
    }
}

/// The status of a comment once its results are known: to the flags of
/// the tiers it adds whether there is a result at all, and then whether
/// the results have to be shortened.
pub open spec fn final_status(tier_flags: Seq<Status>, list: Seq<Factorial>) -> Seq<Status> {
    let found = with_status(
        tier_flags,
        if list.len() == 0 {
            Status::NoFactorial
        } else {
            Status::FactorialsFound
        },
    );
    if any_too_long(list) {
        with_status(found, Status::ReplyWouldBeTooLong)
    } else {
        found
    }
}

/// The exponent of a number in scientific notation can be read back: what
/// follows the last `e` writes the number of digits of the number less one.
pub proof fn lemma_scientific_exponent(value: int)
    ensures
        decimal_value(after_last(scientific_text(value), 'e')) == decimal(
            (if value < 0 {
                -value
            } else {
                value
            }) as nat,
        ).len() - 1,
{
    let digits = decimal(
        (if value < 0 {
            -value
        } else {
            value
        }) as nat,
    );
    let exponent = decimal((digits.len() - 1) as nat);
    lemma_decimal_is_digits((digits.len() - 1) as nat);
    lemma_decimal_value_of_decimal((digits.len() - 1) as nat);
    assert(!exponent.contains('e')) by {
        if exponent.contains('e') {
            let i = choose|i: int| 0 <= i < exponent.len() && exponent[i] == 'e';
            assert(is_digit(exponent[i]));
        }
    }
    let head = (if value < 0 {
        seq!['-']
    } else {
        Seq::<char>::empty()
    }) + scientific_mantissa(digits);
    assert(scientific_text(value) =~= head + seq!['e'] + exponent);
    lemma_after_last(head, 'e', exponent);
}

/// A reply is never long: it takes no more bytes than the note and the
/// lines may take, or the apology does, and the footer; and the footer is
/// its end.
pub proof fn lemma_reply_is_short(status: Seq<Status>, list: Seq<Factorial>, max_length: nat)
    ensures
        utf8_len(reply_text_within(status, list, max_length)) <= (if max_length >= 444 {
            max_length
        } else {
            444
        }) + utf8_len(FOOTER_TEXT@),
        reply_text_within(status, list, max_length).len() >= FOOTER_TEXT@.len(),
        reply_text_within(status, list, max_length).skip(
            reply_text_within(status, list, max_length).len() - FOOTER_TEXT@.len(),
        ) == FOOTER_TEXT@,
{
    let results = note_text(status) + lines_text(
        list,
        status.contains(Status::ReplyWouldBeTooLong),
    );
    let kept = if encode_utf8(results).len() > max_length {
        REPLY_TOO_LONG@
    } else {
        results
    };
    let reply = reply_text_within(status, list, max_length);
    assert(reply == kept + FOOTER_TEXT@);
    lemma_utf8_len_split(reply, kept.len() as int);
    assert(reply.take(kept.len() as int) =~= kept);
    assert(reply.skip(kept.len() as int) =~= FOOTER_TEXT@);
    lemma_utf8_len_is_encoded_len(results);
    reveal_strlit(
        "Sorry, but the reply text for all those number would be _really_ long, so I'd rather not even try posting lmao\n",
    );
    lemma_utf8_len_bound(REPLY_TOO_LONG@);
}

/// The flags after one is set are that one and those that were set
/// before.
pub proof fn lemma_with_status_contains(status: Seq<Status>, flag: Status, other: Status)
    ensures
        with_status(status, flag).contains(other) <==> status.contains(other) || other == flag,
{
    let after = with_status(status, flag);
    if after.contains(other) {
        let i = choose|i: int| 0 <= i < after.len() && after[i] == other;
        if i < status.len() {
            assert(status[i] == other);
        }
    }
    if status.contains(other) {
        let i = choose|i: int| 0 <= i < status.len() && status[i] == other;
        assert(after[i] == other);
    }
    if other == flag && !status.contains(flag) {
        assert(after[after.len() - 1] == flag);
    }
}

/// The tiers set no other flags than the three that speak of too big a
/// number and of approximations.
pub proof fn lemma_tier_status_flags(candidates: Seq<CandidateView>, flag: Status)
    requires
        tier_status(candidates).contains(flag),
    ensures
        flag == Status::NumberTooBig || flag == Status::ApproximateDigits || flag
            == Status::ApproximateFactorial,
    decreases candidates.len(),
{
    if candidates.len() > 0 {
        let earlier = tier_status(candidates.drop_last());
        if earlier.contains(flag) {
            lemma_tier_status_flags(candidates.drop_last(), flag);
        } else {
            let status = tier_status(candidates);
            let i = choose|i: int| 0 <= i < status.len() && status[i] == flag;
            if i < earlier.len() {
                assert(earlier[i] == flag);
            }
        }
    }
}

/// In a sorted list no two records have the same number and level, and
/// the records stand in the order of records.
pub proof fn lemma_sorted_records_are_distinct(list: Seq<Factorial>, i: int, j: int)
    requires
        sorted_by_key(list),
        0 <= i < list.len(),
        0 <= j < list.len(),
        i != j,
    ensures
        list[i].number != list[j].number || list[i].level != list[j].level,
        i < j ==> list[i]@.precedes(list[j]@),
{
    if i < j {
        assert(list[i]@.key_precedes(list[j]@));
    } else {
        assert(list[j]@.key_precedes(list[i]@));
    }
}

proof fn lemma_wanted_step(candidates: Seq<CandidateView>, i: int, number: u64, level: u64)
    requires
        0 <= i < candidates.len(),
    ensures
        is_wanted(candidates.take(i + 1), number, level) <==> is_wanted(
            candidates.take(i),
            number,
            level,
        ) || (candidates[i].number == number && candidates[i].level == level && tier_of(
            number as int,
            level as nat,
        ).is_calculated()),
{
    let shorter = candidates.take(i);
    let longer = candidates.take(i + 1);
    if is_wanted(longer, number, level) {
        let k = choose|k: int|
            0 <= k < longer.len() && (#[trigger] longer[k]).number == number && longer[k].level
                == level && tier_of(number as int, level as nat).is_calculated();
        if k < i {
            assert(shorter[k] == longer[k]);
        }
    }
    if is_wanted(shorter, number, level) {
        let k = choose|k: int|
            0 <= k < shorter.len() && (#[trigger] shorter[k]).number == number && shorter[k].level
                == level && tier_of(number as int, level as nat).is_calculated();
        assert(longer[k] == shorter[k]);
    }
    if candidates[i].number == number && candidates[i].level == level && tier_of(
        number as int,
        level as nat,
    ).is_calculated() {
        assert(longer[i] == candidates[i]);
    }
}

proof fn lemma_record_inserted(
    list: Seq<Factorial>,
    position: int,
    record: Factorial,
    number: u64,
    level: u64,
)
    requires
        0 <= position <= list.len(),
    ensures
        has_record(list.insert(position, record), number, level) <==> has_record(
            list,
            number,
            level,
        ) || (record.number == number && record.level == level),
{
    let longer = list.insert(position, record);
    if has_record(longer, number, level) {
        let k = choose|k: int|
            0 <= k < longer.len() && (#[trigger] longer[k]).number == number && longer[k].level
                == level;
        if k < position {
            assert(list[k] == longer[k]);
        } else if k > position {
            assert(list[k - 1] == longer[k]);
        }
    }
    if has_record(list, number, level) {
        let k = choose|k: int|
            0 <= k < list.len() && (#[trigger] list[k]).number == number && list[k].level
                == level;
        if k < position {
            assert(longer[k] == list[k]);
        } else {
            assert(longer[k + 1] == list[k]);
        }
    }
    if record.number == number && record.level == level {
        assert(longer[position] == record);
    }
}

/// Where in a sorted list the record for `number` at `level` stands or
/// would have to stand, and whether it is there.
fn find_record(list: &Vec<Factorial>, number: u64, level: u64) -> (r: (usize, bool))
    requires
        sorted_by_key(list@),
    ensures
        r.0 <= list.len(),
        r.1 == has_record(list@, number, level),
        forall|j: int|
            0 <= j < r.0 ==> (#[trigger] list@[j]).number < number || (list@[j].number == number
                && list@[j].level < level),
        forall|j: int|
            r.0 <= j < list.len() && !r.1 ==> number < (#[trigger] list@[j]).number || (
            list@[j].number == number && level < list@[j].level),
{
    let mut i: usize = 0;
    while i < list.len()
        invariant
            i <= list.len(),
            sorted_by_key(list@),
            forall|j: int|
                0 <= j < i ==> (#[trigger] list@[j]).number < number || (list@[j].number
                    == number && list@[j].level < level),
        decreases list.len() - i,
    {
        let entry = &list[i];
        if entry.number == number && entry.level == level {
            return (i, true);
        }
        if entry.number > number || (entry.number == number && entry.level > level) {
            proof {
                assert forall|j: int| i <= j < list.len() implies number < (
                #[trigger] list@[j]).number || (list@[j].number == number && level
                    < list@[j].level) by {
                    if j > i {
                        assert(list@[i as int]@.key_precedes(list@[j]@));
                    }
                }
            }
            return (i, false);
        }
        i = i + 1;
    }
    (i, false)
}

impl Factorial {
    /// The record of an exact calculation.
    pub fn exact(number: u64, level: u64) -> (r: Factorial)
        requires
            level >= 1,
        ensures
            r@ == (FactorialView {
                number,
                level,
                factorial: CalculatedValue::Exact(
                    multifactorial(number as nat, level as nat) as int,
                ),
            }),
    {
        Factorial { number, level, factorial: CalculatedFactorial::Exact(factorial(number, level)) }
    }

    /// The record of an approximation that was made elsewhere. Its
    /// mantissa is brought below ten.
    pub fn approximate(number: u64, level: u64, approximation: (Mantissa, u64)) -> (r: Factorial)
        ensures
            r@ == (FactorialView {
                number,
                level,
                factorial: CalculatedValue::Approximate(
                    adjusted(approximation).0,
                    adjusted(approximation).1,
                ),
            }),
    {
        let (mantissa, exponent) = adjust_approximate_factorial(approximation);
        Factorial { number, level, factorial: CalculatedFactorial::Approximate(mantissa, exponent) }
    }

    /// The record of a number of digits that was approximated elsewhere.
    pub fn approximate_digits(number: u64, level: u64, digits: u64) -> (r: Factorial)
        ensures
            r@ == (FactorialView {
                number,
                level,
                factorial: CalculatedValue::ApproximateDigits(digits),
            }),
    {
        Factorial { number, level, factorial: CalculatedFactorial::ApproximateDigits(digits) }
    }
}

/// The order of pairs of a number and a level: by number, then by level.
pub open spec fn pair_precedes(a: (u64, u64), b: (u64, u64)) -> bool {
    a.0 < b.0 || (a.0 == b.0 && a.1 < b.1)
}

/// Whether the pairs stand in ascending order, none twice.
pub open spec fn pairs_ascend(keys: Seq<(u64, u64)>) -> bool {
    forall|i: int, j: int|
        0 <= i < j < keys.len() ==> pair_precedes(#[trigger] keys[i], #[trigger] keys[j])
}

/// Whether an approximation is owed for `number` at `level`: a result is
/// wanted for them, and their tier is not the exact one.
pub open spec fn needs_approximation(candidates: Seq<CandidateView>, number: u64, level: u64) -> bool {
    is_wanted(candidates, number, level) && !(tier_of(number as int, level as nat) is Exact)
}

/// Whether `keys` are the numbers and levels that an approximation is
/// owed for, in ascending order, none twice.
pub open spec fn lists_approximations_of(
    keys: Seq<(u64, u64)>,
    candidates: Seq<CandidateView>,
) -> bool {
    &&& pairs_ascend(keys)
    &&& forall|number: u64, level: u64|
        keys.contains((number, level)) <==> needs_approximation(candidates, number, level)
}

/// The numbers and levels that an approximation is owed for, in ascending
/// order, none twice.
pub open spec fn approximation_keys(candidates: Seq<CandidateView>) -> Seq<(u64, u64)> {
    choose|keys: Seq<(u64, u64)>| lists_approximations_of(keys, candidates)
}

/// Whether a record holds what was supplied for it: an approximation
/// holds the supplied pair, brought into range, and a number of digits the
/// supplied number. An exact record needs nothing supplied.
pub open spec fn takes_supplied(f: FactorialView, supplied: ((Mantissa, u64), u64)) -> bool {
    match tier_of(f.number as int, f.level as nat) {
        Tier::Approximate => f.factorial == CalculatedValue::Approximate(
            adjusted(supplied.0).0,
            adjusted(supplied.0).1,
        ),
        Tier::ApproximateDigits => f.factorial == CalculatedValue::ApproximateDigits(supplied.1),
        _ => true,
    }
}

/// Whether every record holds what was supplied for its number and level:
/// `supplied[j]` is the answer for `keys[j]`.
pub open spec fn takes_all_supplied(
    list: Seq<Factorial>,
    keys: Seq<(u64, u64)>,
    supplied: Seq<((Mantissa, u64), u64)>,
) -> bool {
    forall|i: int, j: int|
        0 <= i < list.len() && 0 <= j < keys.len() && j < supplied.len() && (#[trigger] keys[j])
            == ((#[trigger] list[i]).number, list[i].level) ==> takes_supplied(
            list[i]@,
            supplied[j],
        )
}

/// What a text with one factorial gives, by the size of the number. Above
/// the digit approximation limit there is no record and the status says
/// that the number is too big. Above the approximation limit, or above the
/// calculation limit for a level above one, the record is a number of
/// digits. Above the calculation limit it is an approximation. One gives
/// no record, and any other number the exact factorial. The status names
/// the approximation and nothing else. A number equal to a limit is
/// treated as the numbers below it.
pub proof fn lemma_single_candidate(candidate: CandidateView, list: Seq<Factorial>)
    requires
        0 <= candidate.number,
        1 <= candidate.level <= u64::MAX,
        lists_results_of(list, seq![candidate]),
    ensures
        match tier_of(candidate.number, candidate.level) {
            Tier::TooBig => list.len() == 0 && tier_status(seq![candidate]) == seq![
                Status::NumberTooBig,
            ],
            Tier::ApproximateDigits => list.len() == 1 && list[0]@.factorial is ApproximateDigits
                && tier_status(seq![candidate]) == seq![Status::ApproximateDigits],
            Tier::Approximate => list.len() == 1 && list[0]@.factorial is Approximate
                && tier_status(seq![candidate]) == seq![Status::ApproximateFactorial],
            Tier::Trivial => list.len() == 0 && tier_status(seq![candidate]) == Seq::<
                Status,
            >::empty(),
            Tier::Exact => list.len() == 1 && list[0]@.factorial == CalculatedValue::Exact(
                multifactorial(candidate.number as nat, candidate.level) as int,
            ) && tier_status(seq![candidate]) == Seq::<Status>::empty(),
        },
        list.len() == 1 ==> list[0].number == candidate.number && list[0].level
            == candidate.level,
{
    let candidates = seq![candidate];
    let tier = tier_of(candidate.number, candidate.level);
    assert(candidates.drop_last() =~= Seq::<CandidateView>::empty());
    assert(tier_status(candidates.drop_last()) == Seq::<Status>::empty());
    assert(candidates.last() == candidate);
    let none = Seq::<Status>::empty();
    assert(!none.contains(Status::NumberTooBig) && !none.contains(Status::ApproximateDigits)
        && !none.contains(Status::ApproximateFactorial));
    assert(none.push(Status::NumberTooBig) =~= seq![Status::NumberTooBig]);
    assert(none.push(Status::ApproximateDigits) =~= seq![Status::ApproximateDigits]);
    assert(none.push(Status::ApproximateFactorial) =~= seq![Status::ApproximateFactorial]);
    assert forall|i: int| 0 <= i < list.len() implies (#[trigger] list[i]).number
        == candidate.number && list[i].level == candidate.level && tier.is_calculated() by {
        assert(has_record(list, list[i].number, list[i].level));
        assert(is_wanted(candidates, list[i].number, list[i].level));
        let k = choose|k: int|
            0 <= k < candidates.len() && (#[trigger] candidates[k]).number == list[i].number
                && candidates[k].level == list[i].level && tier_of(
                list[i].number as int,
                list[i].level as nat,
            ).is_calculated();
        assert(candidates[k] == candidate);
    }
    if list.len() > 1 {
        assert(list[0]@.key_precedes(list[1]@));
    }
    if tier.is_calculated() {
        assert(candidate.number <= u64::MAX);
        assert(candidates[0] == candidate);
        assert(is_wanted(candidates, candidate.number as u64, candidate.level as u64));
        assert(has_record(list, candidate.number as u64, candidate.level as u64));
        assert(fits_tier(list[0]@));
    } else if list.len() > 0 {
        assert(list[0].number == candidate.number);
    }
}

/// Two ascending sequences of pairs with the same members are the same.
pub proof fn lemma_ascending_pairs_are_unique(a: Seq<(u64, u64)>, b: Seq<(u64, u64)>)
    requires
        pairs_ascend(a),
        pairs_ascend(b),
        forall|x: (u64, u64)| a.contains(x) <==> b.contains(x),
    ensures
        a == b,
    decreases a.len(),
{
    if a.len() == 0 {
        if b.len() > 0 {
            assert(b.contains(b[0]));
        }
        assert(a =~= b);
    } else {
        let last = a.last();
        assert(a.contains(last));
        let j = choose|j: int| 0 <= j < b.len() && b[j] == last;
        if j < b.len() - 1 {
            assert(pair_precedes(b[j], b[b.len() - 1]));
            assert(b.contains(b[b.len() - 1]));
            let i = choose|i: int| 0 <= i < a.len() && a[i] == b[b.len() - 1];
            if i < a.len() - 1 {
                assert(pair_precedes(a[i], a[a.len() - 1]));
            }
        }
        let shorter_a = a.drop_last();
        let shorter_b = b.drop_last();
        assert forall|x: (u64, u64)| shorter_a.contains(x) <==> shorter_b.contains(x) by {
            if shorter_a.contains(x) {
                let i = choose|i: int| 0 <= i < shorter_a.len() && shorter_a[i] == x;
                assert(a[i] == x);
                assert(pair_precedes(a[i], a[a.len() - 1]));
                assert(a.contains(x));
                let k = choose|k: int| 0 <= k < b.len() && b[k] == x;
                assert(shorter_b[k] == x);
            }
            if shorter_b.contains(x) {
                let k = choose|k: int| 0 <= k < shorter_b.len() && shorter_b[k] == x;
                assert(b[k] == x);
                assert(pair_precedes(b[k], b[b.len() - 1]));
                assert(b.contains(x));
                let i = choose|i: int| 0 <= i < a.len() && a[i] == x;
                assert(shorter_a[i] == x);
            }
        }
        assert(pairs_ascend(shorter_a)) by {
            assert forall|i: int, j: int| 0 <= i < j < shorter_a.len() implies pair_precedes(
                #[trigger] shorter_a[i],
                #[trigger] shorter_a[j],
            ) by {
                assert(pair_precedes(a[i], a[j]));
            }
        }
        assert(pairs_ascend(shorter_b)) by {
            assert forall|i: int, j: int| 0 <= i < j < shorter_b.len() implies pair_precedes(
                #[trigger] shorter_b[i],
                #[trigger] shorter_b[j],
            ) by {
                assert(pair_precedes(b[i], b[j]));
            }
        }
        lemma_ascending_pairs_are_unique(shorter_a, shorter_b);
        assert(a =~= shorter_a.push(last));
        assert(b =~= shorter_b.push(last));
    }
}

/// Puts a pair into an ascending sequence of pairs, unless it is there.
fn insert_pair(keys: &mut Vec<(u64, u64)>, number: u64, level: u64)
    requires
        pairs_ascend(old(keys)@),
    ensures
        pairs_ascend(final(keys)@),
        forall|x: (u64, u64)|
            final(keys)@.contains(x) <==> old(keys)@.contains(x) || x == (number, level),
{
    let ghost before = keys@;
    let mut position: usize = 0;
    while position < keys.len() && (keys[position].0 < number || (keys[position].0 == number
        && keys[position].1 < level))
        invariant
            position <= keys.len(),
            keys@ == before,
            forall|j: int| 0 <= j < position ==> pair_precedes(#[trigger] keys@[j], (number, level)),
        decreases keys.len() - position,
    {
        position = position + 1;
    }
    if position < keys.len() && keys[position].0 == number && keys[position].1 == level {
        assert(before.contains((number, level)));
        return ;
    }
    proof {
        assert forall|j: int| position <= j < before.len() implies pair_precedes(
            (number, level),
            #[trigger] before[j],
        ) by {
            if j > position {
                assert(pair_precedes(before[position as int], before[j]));
            }
        }
    }
    keys.insert(position, (number, level));
    proof {
        let after = keys@;
        assert(after[position as int] == (number, level));
        assert forall|x: (u64, u64)|
            after.contains(x) <==> before.contains(x) || x == (number, level) by {
            if after.contains(x) {
                let i = choose|i: int| 0 <= i < after.len() && after[i] == x;
                if i < position {
                    assert(before[i] == x);
                } else if i > position {
                    assert(before[i - 1] == x);
                }
            }
            if before.contains(x) {
                let i = choose|i: int| 0 <= i < before.len() && before[i] == x;
                if i < position {
                    assert(after[i] == x);
                } else {
                    assert(after[i + 1] == x);
                }
            }
        }
        assert forall|i: int, j: int| 0 <= i < j < after.len() implies pair_precedes(
            #[trigger] after[i],
            #[trigger] after[j],
        ) by {
            let x = if i < position {
                i
            } else {
                i - 1
            };
            let y = if j < position {
                j
            } else {
                j - 1
            };
            if i != position && j != position {
                assert(pair_precedes(before[x], before[y]));
            } else if i == position {
                assert(after[j] == before[y]);
            } else {
                assert(after[i] == before[x]);
            }
        }
    }
}

/// Where a pair stands in a sequence of pairs, if it does.
fn find_pair(keys: &Vec<(u64, u64)>, number: u64, level: u64) -> (r: Option<usize>)
    ensures
        r is Some ==> r->0 < keys.len() && keys@[r->0 as int] == (number, level),
        r is None ==> !keys@.contains((number, level)),
{
    let mut j: usize = 0;
    while j < keys.len()
        invariant
            j <= keys.len(),
            forall|k: int| 0 <= k < j ==> keys@[k] != (number, level),
        decreases keys.len() - j,
    {
        if keys[j].0 == number && keys[j].1 == level {
            return Some(j);
        }
        j = j + 1;
    }
    None
}

/// The numbers and levels that an approximation is owed for by the
/// factorials of `body`, in ascending order, none twice.
pub fn approximations_wanted(body: &str) -> (r: Vec<(u64, u64)>)
    ensures
        lists_approximations_of(r@, candidates(body@)),
        r@ == approximation_keys(candidates(body@)),
{
    let found = extract(body);
    let ghost wanted = candidates(body@);
    proof {
        lemma_candidates_are_natural(body@, body@.len() as int);
        assert(wanted.len() == found.len());
    }
    let mut keys: Vec<(u64, u64)> = Vec::new();
    let mut i: usize = 0;
    assert(wanted.take(0) =~= Seq::<CandidateView>::empty());
    while i < found.len()
        invariant
            i <= found.len(),
            candidate_views(found@) == wanted,
            forall|k: int|
                0 <= k < wanted.len() ==> (#[trigger] wanted[k]).number >= 0 && wanted[k].level
                    >= 1,
            lists_approximations_of(keys@, wanted.take(i as int)),
        decreases found.len() - i,
    {
        let candidate = &found[i];
        let tier = candidate.tier();
        let ghost keys_before = keys@;
        proof {
            assert(candidate@ == wanted[i as int]);
        }
        let mut added = false;
        match tier {
            Tier::Approximate | Tier::ApproximateDigits => {
                if let Some(number) = integer_to_u64(&candidate.number) {
                    insert_pair(&mut keys, number, candidate.level);
                    added = true;
                }
            },
            _ => {},
        }
        proof {
            assert forall|number: u64, level: u64|
                keys@.contains((number, level)) <==> needs_approximation(
                    wanted.take(i + 1),
                    number,
                    level,
                ) by {
                lemma_wanted_step(wanted, i as int, number, level);
                assert(keys_before.contains((number, level)) <==> needs_approximation(
                    wanted.take(i as int),
                    number,
                    level,
                ));
            }
        }
        i = i + 1;
    }
    proof {
        assert(wanted.take(i as int) =~= wanted);
        let chosen = approximation_keys(wanted);
        assert(lists_approximations_of(chosen, wanted));
        assert forall|x: (u64, u64)| keys@.contains(x) <==> chosen.contains(x) by {
            assert(keys@.contains((x.0, x.1)) <==> needs_approximation(wanted, x.0, x.1));
            assert(chosen.contains((x.0, x.1)) <==> needs_approximation(wanted, x.0, x.1));
        }
        lemma_ascending_pairs_are_unique(keys@, chosen);
    }
    keys
}

impl RedditComment {
    /// Reads a comment: finds the factorials in `body`, calculates each
    /// once and lists the results in ascending order.
    ///
    /// The approximations come from `approximator`, which is asked once for
    /// each of `approximations_wanted(body)`, in that order; what it
    /// answers is handed to `with_approximations`.
    pub fn new<A: Approximator>(
        body: &str,
        id: &str,
        author: &str,
        subreddit: &str,
        approximator: &A,
    ) -> (comment: RedditComment)
        ensures
            comment.id@ == id@,
            comment.author@ == author@,
            comment.subreddit@ == subreddit@,
            lists_results_of(comment.factorial_list@, candidates(body@)),
            comment.status@ == final_status(
                tier_status(candidates(body@)),
                comment.factorial_list@,
            ),
    {
        let keys = approximations_wanted(body);
        let mut supplied: Vec<((Mantissa, u64), u64)> = Vec::new();
        let mut j: usize = 0;
        while j < keys.len()
            invariant
                j <= keys.len(),
                supplied.len() == j,
            decreases keys.len() - j,
        {
            let number = keys[j].0;
            let level = keys[j].1;
            let answer = if level <= 1 && number <= UPPER_APPROXIMATION_LIMIT {
                (approximator.approximate_factorial(number), 0)
            } else {
                (
                    (Mantissa { units: 0 }, 0),
                    approximator.approximate_multifactorial_digits(number, level),
                )
            };
            supplied.push(answer);
            j = j + 1;
        }
        RedditComment::with_approximations(body, id, author, subreddit, &supplied)
    }

    /// Reads a comment as `new` does, with the approximations given:
    /// `supplied[j]` is the answer for `approximations_wanted(body)[j]`.
    /// Of an answer the pair of mantissa and exponent is used where the
    /// factorial is approximated, and the number where its digits are.
    pub fn with_approximations(
        body: &str,
        id: &str,
        author: &str,
        subreddit: &str,
        supplied: &Vec<((Mantissa, u64), u64)>,
    ) -> (comment: RedditComment)
        requires
            supplied@.len() == approximation_keys(candidates(body@)).len(),
        ensures
            comment.id@ == id@,
            comment.author@ == author@,
            comment.subreddit@ == subreddit@,
            lists_results_of(comment.factorial_list@, candidates(body@)),
            takes_all_supplied(
                comment.factorial_list@,
                approximation_keys(candidates(body@)),
                supplied@,
            ),
            comment.status@ == final_status(
                tier_status(candidates(body@)),
                comment.factorial_list@,
            ),
    {
        let keys = approximations_wanted(body);
        let found = extract(body);
        let ghost wanted = candidates(body@);
        proof {
            lemma_candidates_are_natural(body@, body@.len() as int);
            assert(wanted.len() == found.len());
        }
        let mut factorial_list: Vec<Factorial> = Vec::new();
        let mut status: Vec<Status> = Vec::new();
        let mut i: usize = 0;
        assert(wanted.take(0) =~= Seq::<CandidateView>::empty());
        while i < found.len()
            invariant
                i <= found.len(),
                candidate_views(found@) == wanted,
                forall|k: int|
                    0 <= k < wanted.len() ==> (#[trigger] wanted[k]).number >= 0 && wanted[k].level
                        >= 1,
                sorted_by_key(factorial_list@),
                forall|k: int|
                    0 <= k < factorial_list.len() ==> fits_tier(#[trigger] factorial_list@[k]@),
                forall|number: u64, level: u64|
                    has_record(factorial_list@, number, level) <==> is_wanted(
                        wanted.take(i as int),
                        number,
                        level,
                    ),
                status@ == tier_status(wanted.take(i as int)),
                lists_approximations_of(keys@, wanted),
                supplied@.len() == keys@.len(),
                takes_all_supplied(factorial_list@, keys@, supplied@),
            decreases found.len() - i,
        {
            let candidate = &found[i];
            let tier = candidate.tier();
            let ghost earlier = wanted.take(i as int);
            let ghost list_before = factorial_list@;
            proof {
                assert(candidate@ == wanted[i as int]);
                assert(wanted.take(i + 1).drop_last() =~= earlier);
                assert(wanted.take(i + 1).last() == wanted[i as int]);
            }
            match tier {
                Tier::TooBig => put_status(&mut status, Status::NumberTooBig),
                Tier::ApproximateDigits => put_status(&mut status, Status::ApproximateDigits),
                Tier::Approximate => put_status(&mut status, Status::ApproximateFactorial),
                _ => {},
            }
            let mut placed: Option<(usize, Factorial)> = None;
            if let Some(number) = integer_to_u64(&candidate.number) {
                let level = candidate.level;
                let (position, present) = find_record(&factorial_list, number, level);
                if !present {
                    match tier {
                        Tier::Exact => {
                            placed = Some((position, Factorial::exact(number, level)));
                        },
                        Tier::Approximate | Tier::ApproximateDigits => {
                            proof {
                                assert(wanted[i as int].number == number && wanted[i as int].level
                                    == level);
                                assert(is_wanted(wanted, number, level));
                                assert(tier == tier_of(number as int, level as nat));
                                assert(needs_approximation(wanted, number, level));
                                assert(keys@.contains((number, level)));
                            }
                            if let Some(j) = find_pair(&keys, number, level) {
                                let answer = supplied[j];
                                let record = match tier {
                                    Tier::Approximate => Factorial::approximate(
                                        number,
                                        level,
                                        answer.0,
                                    ),
                                    _ => Factorial::approximate_digits(number, level, answer.1),
                                };
                                proof {
                                    assert forall|k: int|
                                        0 <= k < keys@.len() && (#[trigger] keys@[k]) == (
                                            number,
                                            level,
                                        ) implies takes_supplied(record@, supplied@[k]) by {
                                        if k != j {
                                            if k < j {
                                                assert(pair_precedes(keys@[k], keys@[j as int]));
                                            } else {
                                                assert(pair_precedes(keys@[j as int], keys@[k]));
                                            }
                                        }
                                    }
                                }
                                placed = Some((position, record));
                            }
                        },
                        _ => {},
                    }
                }
            }
            proof {
                assert(placed is None ==> !tier.is_calculated() || has_record(
                    list_before,
                    wanted[i as int].number as u64,
                    wanted[i as int].level as u64,
                ));
            }
            match placed {
                Some((position, record)) => {
                    proof {
                        assert forall|number: u64, level: u64|
                            has_record(list_before.insert(position as int, record), number, level)
                                <==> is_wanted(wanted.take(i + 1), number, level) by {
                            lemma_wanted_step(wanted, i as int, number, level);
                            lemma_record_inserted(
                                list_before,
                                position as int,
                                record,
                                number,
                                level,
                            );
                        }
                    }
                    factorial_list.insert(position, record);
                    proof {
                        assert forall|a: int, b: int|
                            0 <= a < b < factorial_list.len() implies (
                        #[trigger] factorial_list@[a])@.key_precedes(
                            (#[trigger] factorial_list@[b])@,
                        ) by {
                            let x = if a < position {
                                a
                            } else {
                                a - 1
                            };
                            let y = if b < position {
                                b
                            } else {
                                b - 1
                            };
                            if a != position && b != position {
                                assert(list_before[x]@.key_precedes(list_before[y]@));
                            } else if a == position {
                                assert(factorial_list@[b] == list_before[y]);
                            } else {
                                assert(factorial_list@[a] == list_before[x]);
                            }
                        }
                        assert forall|k: int| 0 <= k < factorial_list.len() implies fits_tier(
                            #[trigger] factorial_list@[k]@,
                        ) by {
                            if k < position {
                                assert(factorial_list@[k] == list_before[k]);
                            } else if k > position {
                                assert(factorial_list@[k] == list_before[k - 1]);
                            }
                        }
                        assert forall|a: int, b: int|
                            0 <= a < factorial_list.len() && 0 <= b < keys@.len() && b
                                < supplied@.len() && (#[trigger] keys@[b]) == ((
                            #[trigger] factorial_list@[a]).number, factorial_list@[a].level)
                            implies takes_supplied(factorial_list@[a]@, supplied@[b]) by {
                            if a < position {
                                assert(factorial_list@[a] == list_before[a]);
                            } else if a > position {
                                assert(factorial_list@[a] == list_before[a - 1]);
                            }
                        }
                    }
                },
                None => {
                    proof {
                        assert forall|number: u64, level: u64|
                            has_record(factorial_list@, number, level) <==> is_wanted(
                                wanted.take(i + 1),
                                number,
                                level,
                            ) by {
                            lemma_wanted_step(wanted, i as int, number, level);
                        }
                    }
                },
            }
            i = i + 1;
        }
        assert(wanted.take(i as int) =~= wanted);
        assert(keys@ == approximation_keys(wanted));
        if factorial_list.len() == 0 {
            put_status(&mut status, Status::NoFactorial);
        } else {
            put_status(&mut status, Status::FactorialsFound);
        }
        if RedditComment::factorials_are_too_long(factorial_list.as_slice()) {
            put_status(&mut status, Status::ReplyWouldBeTooLong);
        }
        RedditComment {
            id: id.to_owned(),
            author: author.to_owned(),
            subreddit: subreddit.to_owned(),
            factorial_list,
            status,
        }
    }
}

} // verus!
