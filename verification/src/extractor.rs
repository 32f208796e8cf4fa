//! Finds factorial expressions in text: a run of decimal digits followed by
//! a run of exclamation marks, unless what stands around it shows that it is
//! part of something else.

use crate::integer::{integer_from_decimal, integer_value};
use crate::text::{all_digits, char_is_digit, decimal_value, is_digit, push_chars, to_chars};
use num_bigint::BigInt;
use vstd::prelude::*;

verus! {

/// One factorial expression found in a text: the number, and how many
/// exclamation marks follow it.
#[derive(Debug, Clone, PartialEq, Eq)]
pub struct Candidate {
    pub number: BigInt,
    pub level: u64,
}

/// What a `Candidate` stands for.
pub struct CandidateView {
    pub number: int,
    pub level: nat,
}

impl View for Candidate {
    type V = CandidateView;

    open spec fn view(&self) -> CandidateView {
        CandidateView { number: integer_value(self.number), level: self.level as nat }
    }
}

/// Where an expression stands in a text: the digits fill `start..middle`,
/// the exclamation marks `middle..end`.
pub struct Match {
    pub start: int,
    pub middle: int,
    pub end: int,
}

/// The characters of a word: the letters `a` to `z` and `A` to `Z`, the
/// digits `0` to `9` and the underscore. No character outside ASCII counts
/// as one, whatever Unicode calls it.
pub open spec fn is_word_char(c: char) -> bool {
    is_digit(c) || ('a' <= c <= 'z') || ('A' <= c <= 'Z') || c == '_'
}

/// Whether `c`, standing directly before a run of digits, rules the run
/// out. A digit, comma or full stop makes the digits part of a number, and
/// an exclamation or question mark makes them part of a run of
/// punctuation. A letter or an underscore makes them the end of a word, as
/// in `covid19!`: the expression has to start where a word starts. Only
/// the word characters of ASCII are meant, so an accented letter before
/// the digits does not rule them out.
pub open spec fn blocks_before(c: char) -> bool {
    is_word_char(c) || c == ',' || c == '.' || c == '!' || c == '?'
}

/// Whether the expression cannot end at `k` because of what follows there:
/// a digit, a `<`, or the entity `&lt;` that stands for one.
pub open spec fn blocks_after(text: Seq<char>, k: int) -> bool {
    0 <= k < text.len() && (is_digit(text[k]) || text[k] == '<' || (k + 3 < text.len() && text[k]
        == '&' && text[k + 1] == 'l' && text[k + 2] == 't' && text[k + 3] == ';'))
}

/// The end of the run of digits that starts at `i`.
pub open spec fn digit_run_end(text: Seq<char>, i: int) -> int
    decreases text.len() - i,
{
    if 0 <= i < text.len() && is_digit(text[i]) {
        digit_run_end(text, i + 1)
    } else {
        i
    }
}

/// The end of the run of exclamation marks that starts at `i`.
pub open spec fn bang_run_end(text: Seq<char>, i: int) -> int
    decreases text.len() - i,
{
    if 0 <= i < text.len() && text[i] == '!' {
        bang_run_end(text, i + 1)
    } else {
        i
    }
}

/// The expression that starts at position `i`, if one does.
///
/// One starts there if a digit stands at `i`, nothing before it blocks it,
/// and at least one exclamation mark follows the digits. It takes all the
/// exclamation marks of the run, or all but the last where what follows the
/// run would block it: the last mark then belongs to what follows.
pub open spec fn match_at(text: Seq<char>, i: int) -> Option<Match> {
    let middle = digit_run_end(text, i);
    let run_end = bang_run_end(text, middle);
    let end = if blocks_after(text, run_end) {
        run_end - 1
    } else {
        run_end
    };
    if 0 <= i < text.len() && is_digit(text[i]) && (i == 0 || !blocks_before(text[i - 1])) && end
        > middle {
        Some(Match { start: i, middle, end })
    } else {
        None
    }
}

/// The candidate that an expression in a text gives.
pub open spec fn candidate_of(text: Seq<char>, m: Match) -> CandidateView {
    CandidateView {
        number: decimal_value(text.subrange(m.start, m.middle)) as int,
        level: (m.end - m.middle) as nat,
    }
}

/// The candidates of the expressions that start before position `n`, in
/// the order in which they stand in the text.
pub open spec fn candidates_before(text: Seq<char>, n: int) -> Seq<CandidateView>
    decreases n,
{
    if n <= 0 {
        Seq::empty()
    } else {
        match match_at(text, n - 1) {
            Some(m) => candidates_before(text, n - 1).push(candidate_of(text, m)),
            None => candidates_before(text, n - 1),
        }
    }
}

/// All candidates of a text, in order.
pub open spec fn candidates(text: Seq<char>) -> Seq<CandidateView> {
    candidates_before(text, text.len() as int)
}

/// What a sequence of candidates stands for.
pub open spec fn candidate_views(v: Seq<Candidate>) -> Seq<CandidateView> {
    v.map_values(|c: Candidate| c@)
}

proof fn lemma_digit_run(text: Seq<char>, i: int)
    requires
        0 <= i <= text.len(),
    ensures
        i <= digit_run_end(text, i) <= text.len(),
        forall|p: int| i <= p < digit_run_end(text, i) ==> is_digit(#[trigger] text[p]),
        digit_run_end(text, i) < text.len() ==> !is_digit(text[digit_run_end(text, i)]),
    decreases text.len() - i,
{
    if i < text.len() && is_digit(text[i]) {
        lemma_digit_run(text, i + 1);
    }
}

proof fn lemma_bang_run(text: Seq<char>, i: int)
    requires
        0 <= i <= text.len(),
    ensures
        i <= bang_run_end(text, i) <= text.len(),
        forall|p: int| i <= p < bang_run_end(text, i) ==> #[trigger] text[p] == '!',
        bang_run_end(text, i) < text.len() ==> text[bang_run_end(text, i)] != '!',
    decreases text.len() - i,
{
    if i < text.len() && text[i] == '!' {
        lemma_bang_run(text, i + 1);
    }
}

/// What is found at a position is a factorial expression: one or more
/// digits, then one or more exclamation marks; no word character, comma,
/// full stop, exclamation or question mark stands before it, and no digit,
/// `<` or `&lt;` after it. It takes all the digits there are, and all the
/// exclamation marks, or all but one where more could not be taken.
pub proof fn lemma_match_is_an_expression(text: Seq<char>, i: int)
    requires
        match_at(text, i) is Some,
    ensures
        ({
            let m = match_at(text, i)->0;
            &&& 0 <= i == m.start < m.middle < m.end <= text.len()
            &&& forall|p: int| m.start <= p < m.middle ==> is_digit(#[trigger] text[p])
            &&& forall|p: int| m.middle <= p < m.end ==> #[trigger] text[p] == '!'
            &&& m.start == 0 || !blocks_before(text[m.start - 1])
            &&& !blocks_after(text, m.end)
            &&& m.end == text.len() || text[m.end] != '!' || (text[m.end + 1] != '!'
                && blocks_after(text, m.end + 1))
        }),
{
    lemma_digit_run(text, i);
    lemma_bang_run(text, digit_run_end(text, i));
}

/// Every candidate of a text holds a natural number and has a level of at
/// least one.
pub proof fn lemma_candidates_are_natural(text: Seq<char>, n: int)
    ensures
        forall|i: int|
            0 <= i < candidates_before(text, n).len() ==> (#[trigger] candidates_before(
                text,
                n,
            )[i]).number >= 0 && candidates_before(text, n)[i].level >= 1,
    decreases n,
{
    if n > 0 {
        lemma_candidates_are_natural(text, n - 1);
        let earlier = candidates_before(text, n - 1);
        if let Some(m) = match_at(text, n - 1) {
            assert forall|i: int| 0 <= i < candidates_before(text, n).len() implies (
            #[trigger] candidates_before(text, n)[i]).number >= 0 && candidates_before(
                text,
                n,
            )[i].level >= 1 by {
                if i < earlier.len() {
                    assert(candidates_before(text, n)[i] == earlier[i]);
                } else {
                    assert(candidates_before(text, n)[i] == candidate_of(text, m));
                }
            }
        }
    }
}

fn is_word(c: char) -> (r: bool)
    ensures
        r == is_word_char(c),
{
    char_is_digit(c) || (c >= 'a' && c <= 'z') || (c >= 'A' && c <= 'Z') || c == '_'
}

fn is_blocked_before(chars: &Vec<char>, i: usize) -> (r: bool)
    requires
        i < chars.len(),
    ensures
        r == !(i == 0 || !blocks_before(chars@[i - 1])),
{
    if i == 0 {
        false
    } else {
        let c = chars[i - 1];
        is_word(c) || c == ',' || c == '.' || c == '!' || c == '?'
    }
}

fn is_blocked_after(chars: &Vec<char>, k: usize) -> (r: bool)
    requires
        k <= chars.len(),
    ensures
        r == blocks_after(chars@, k as int),
{
    if k >= chars.len() {
        false
    } else {
        let c = chars[k];
        char_is_digit(c) || c == '<' || (c == '&' && chars.len() - k > 3 && chars[k + 1] == 'l'
            && chars[k + 2] == 't' && chars[k + 3] == ';')
    }
}

/// Finds the factorial expressions of `body`.
pub fn extract(body: &str) -> (r: Vec<Candidate>)
    ensures
        candidate_views(r@) == candidates(body@),
{
    let chars = to_chars(body);
    let ghost text = chars@;
    let n = chars.len();
    let mut found: Vec<Candidate> = Vec::new();
    let mut i: usize = 0;
    while i < n
        invariant
            n == chars.len(),
            text == chars@,
            i <= n,
            candidate_views(found@) == candidates_before(text, i as int),
        decreases n - i,
    {
        if char_is_digit(chars[i]) {
            let start = i;
            let ghost before = candidates_before(text, start as int);
            i = i + 1;
            while i < n && char_is_digit(chars[i])
                invariant
                    n == chars.len(),
                    text == chars@,
                    start < i <= n,
                    forall|p: int| start <= p < i ==> is_digit(#[trigger] text[p]),
                    digit_run_end(text, start as int) == digit_run_end(text, i as int),
                    candidates_before(text, i as int) == candidates_before(text, start + 1),
                decreases n - i,
            {
                proof {
                    assert(is_digit(text[i - 1]));
                    assert(match_at(text, i as int) is None);
                }
                i = i + 1;
            }
            let middle = i;
            while i < n && chars[i] == '!'
                invariant
                    n == chars.len(),
                    text == chars@,
                    start < middle <= i <= n,
                    forall|p: int| middle <= p < i ==> #[trigger] text[p] == '!',
                    bang_run_end(text, middle as int) == bang_run_end(text, i as int),
                    candidates_before(text, i as int) == candidates_before(text, start + 1),
                decreases n - i,
            {
                proof {
                    assert(match_at(text, i as int) is None);
                }
                i = i + 1;
            }
            let run_end = i;
            proof {
                assert(digit_run_end(text, start as int) == middle);
                assert(bang_run_end(text, middle as int) == run_end);
            }
            let end = if is_blocked_after(&chars, run_end) {
                run_end - 1
            } else {
                run_end
            };
            if !is_blocked_before(&chars, start) && end > middle {
                let mut digits = String::new();
                push_chars(&mut digits, &chars, start, middle);
                proof {
                    assert(digits@ =~= text.subrange(start as int, middle as int));
                    assert(all_digits(digits@));
                }
                let number = integer_from_decimal(digits.as_str());
                let candidate = Candidate { number, level: (end - middle) as u64 };
                proof {
                    let m = Match { start: start as int, middle: middle as int, end: end as int };
                    assert(match_at(text, start as int) == Some(m));
                    assert(candidate@ == candidate_of(text, m));
                    assert(candidates_before(text, start + 1) == before.push(candidate@));
                    assert(candidate_views(found@.push(candidate)) =~= candidate_views(
                        found@,
                    ).push(candidate@));
                }
                found.push(candidate);
            } else {
                proof {
                    assert(match_at(text, start as int) is None);
                }
            }
        } else {
            proof {
                assert(match_at(text, i as int) is None);
            }
            i = i + 1;
        }
    }
    found
}

} // verus!
