//! Searching and cutting character sequences: white space at the ends,
//! lines, substrings, and lengths in UTF-8.

use vstd::prelude::*;
use vstd::utf8::{encode_scalar, encode_utf8};

verus! {

/// Whether `c` is white space, as Unicode defines it.
pub open spec fn is_whitespace(c: char) -> bool {
    let n = c as u32;
    (0x09 <= n <= 0x0d) || n == 0x20 || n == 0x85 || n == 0xa0 || n == 0x1680 || (0x2000 <= n
        <= 0x200a) || n == 0x2028 || n == 0x2029 || n == 0x202f || n == 0x205f || n == 0x3000
}

/// The first position from `i` on, below `hi`, that holds no white space;
/// `hi` if there is none.
pub open spec fn skip_whitespace(s: Seq<char>, i: int, hi: int) -> int
    decreases hi - i,
{
    if 0 <= i < hi <= s.len() && is_whitespace(s[i]) {
        skip_whitespace(s, i + 1, hi)
    } else {
        i
    }
}

/// The end of the part of `lo..j` that is left when the white space at its
/// end is taken away.
pub open spec fn drop_whitespace(s: Seq<char>, lo: int, j: int) -> int
    decreases j - lo,
{
    if 0 <= lo < j <= s.len() && is_whitespace(s[j - 1]) {
        drop_whitespace(s, lo, j - 1)
    } else {
        j
    }
}

/// The part of `s[lo..hi]` without the white space at both ends.
pub open spec fn trimmed_range(s: Seq<char>, lo: int, hi: int) -> Seq<char> {
    let start = skip_whitespace(s, lo, hi);
    s.subrange(start, drop_whitespace(s, start, hi))
}

/// Whether `pattern` stands in `text` at position `i`.
pub open spec fn occurs_at(text: Seq<char>, pattern: Seq<char>, i: int) -> bool {
    0 <= i && i + pattern.len() <= text.len() && text.subrange(i, i + pattern.len()) == pattern
}

/// Whether `pattern` stands somewhere in `text[lo..hi]`.
pub open spec fn occurs_within(text: Seq<char>, pattern: Seq<char>, lo: int, hi: int) -> bool {
    exists|i: int| lo <= i && i + pattern.len() <= hi && #[trigger] occurs_at(text, pattern, i)
}

/// Whether `pattern` stands somewhere in `text`.
pub open spec fn has_substring(text: Seq<char>, pattern: Seq<char>) -> bool {
    occurs_within(text, pattern, 0, text.len() as int)
}

/// The end of `s[..end]` once every copy of `pattern` at its end is taken
/// away. An empty pattern takes nothing away.
pub open spec fn without_suffixes(s: Seq<char>, pattern: Seq<char>, end: int) -> int
    decreases end,
{
    if pattern.len() > 0 && 0 <= end - pattern.len() && end <= s.len() && occurs_at(
        s,
        pattern,
        end - pattern.len(),
    ) {
        without_suffixes(s, pattern, end - pattern.len())
    } else {
        end
    }
}

/// The end of the line that starts at `i`: the position of the next line
/// feed, or the end of the text.
pub open spec fn line_end(s: Seq<char>, i: int) -> int
    decreases s.len() - i,
{
    if 0 <= i < s.len() && s[i] != '\n' {
        line_end(s, i + 1)
    } else {
        i
    }
}

/// The number of bytes that `c` takes in UTF-8.
pub open spec fn utf8_width(c: char) -> nat {
    let n = c as u32;
    if n < 0x80 {
        1
    } else if n < 0x800 {
        2
    } else if n < 0x10000 {
        3
    } else {
        4
    }
}

/// The number of bytes that `s` takes in UTF-8.
pub open spec fn utf8_len(s: Seq<char>) -> nat
    decreases s.len(),
{
    if s.len() == 0 {
        0
    } else {
        utf8_len(s.drop_last()) + utf8_width(s.last())
    }
}

/// How many characters of `s`, counted from the start, fit into `limit`
/// bytes of UTF-8.
pub open spec fn fitting_chars(s: Seq<char>, limit: nat) -> int {
    fitting_from(s, limit, 0, 0)
}

/// `fitting_chars`, where the first `i` characters take `used` bytes.
pub open spec fn fitting_from(s: Seq<char>, limit: nat, i: int, used: nat) -> int
    decreases s.len() - i,
{
    if 0 <= i < s.len() && used + utf8_width(s[i]) <= limit {
        fitting_from(s, limit, i + 1, used + utf8_width(s[i]))
    } else {
        i
    }
}

/// Whether `c` is white space.
pub fn char_is_whitespace(c: char) -> (r: bool)
    ensures
        r == is_whitespace(c),
{
    let n = c as u32;
    (0x09 <= n && n <= 0x0d) || n == 0x20 || n == 0x85 || n == 0xa0 || n == 0x1680 || (0x2000
        <= n && n <= 0x200a) || n == 0x2028 || n == 0x2029 || n == 0x202f || n == 0x205f || n
        == 0x3000
}

/// The bounds of `chars[lo..hi]` without the white space at both ends.
pub fn trim_range(chars: &Vec<char>, lo: usize, hi: usize) -> (r: (usize, usize))
    requires
        lo <= hi <= chars.len(),
    ensures
        lo <= r.0 <= r.1 <= hi,
        r.0 == skip_whitespace(chars@, lo as int, hi as int),
        r.1 == drop_whitespace(chars@, r.0 as int, hi as int),
        chars@.subrange(r.0 as int, r.1 as int) == trimmed_range(chars@, lo as int, hi as int),
{
    let mut start = lo;
    while start < hi && char_is_whitespace(chars[start])
        invariant
            lo <= start <= hi <= chars.len(),
            skip_whitespace(chars@, lo as int, hi as int) == skip_whitespace(
                chars@,
                start as int,
                hi as int,
            ),
        decreases hi - start,
    {
        start = start + 1;
    }
    let mut end = hi;
    while end > start && char_is_whitespace(chars[end - 1])
        invariant
            start <= end <= hi <= chars.len(),
            drop_whitespace(chars@, start as int, hi as int) == drop_whitespace(
                chars@,
                start as int,
                end as int,
            ),
        decreases end - start,
    {
        end = end - 1;
    }
    (start, end)
}

/// Whether `pattern` stands in `text` at position `i`.
pub fn matches_at(text: &Vec<char>, pattern: &Vec<char>, i: usize) -> (r: bool)
    requires
        i <= text.len(),
    ensures
        r == occurs_at(text@, pattern@, i as int),
{
    if pattern.len() > text.len() - i {
        return false;
    }
    let mut k: usize = 0;
    while k < pattern.len()
        invariant
            k <= pattern.len(),
            i + pattern.len() <= text.len(),
            forall|j: int| 0 <= j < k ==> text@[i + j] == pattern@[j],
        decreases pattern.len() - k,
    {
        if text[i + k] != pattern[k] {
            proof {
                assert(text@.subrange(i as int, i + pattern.len())[k as int] != pattern@[k as int]);
            }
            return false;
        }
        k = k + 1;
    }
    assert(text@.subrange(i as int, i + pattern.len()) =~= pattern@);
    true
}

/// Whether `pattern` stands somewhere in `text[lo..hi]`.
pub fn contains_within(text: &Vec<char>, pattern: &Vec<char>, lo: usize, hi: usize) -> (r: bool)
    requires
        lo <= hi <= text.len(),
    ensures
        r == occurs_within(text@, pattern@, lo as int, hi as int),
{
    if pattern.len() > hi - lo {
        return false;
    }
    let last = hi - pattern.len();
    let mut i: usize = lo;
    loop
        invariant
            lo <= i <= last,
            last + pattern.len() == hi,
            hi <= text.len(),
            forall|j: int| lo <= j < i ==> !occurs_at(text@, pattern@, j),
        decreases last - i,
    {
        if matches_at(text, pattern, i) {
            return true;
        }
        if i == last {
            return false;
        }
        i = i + 1;
    }
}

/// The end of `chars[..end]` once every copy of `pattern` at its end is
/// taken away.
pub fn strip_suffixes(chars: &Vec<char>, pattern: &Vec<char>, end: usize) -> (r: usize)
    requires
        end <= chars.len(),
    ensures
        r <= end,
        r == without_suffixes(chars@, pattern@, end as int),
{
    let mut e = end;
    if pattern.len() == 0 {
        return e;
    }
    while e >= pattern.len() && matches_at(chars, pattern, e - pattern.len())
        invariant
            e <= end <= chars.len(),
            pattern.len() > 0,
            without_suffixes(chars@, pattern@, end as int) == without_suffixes(
                chars@,
                pattern@,
                e as int,
            ),
        decreases e,
    {
        e = e - pattern.len();
    }
    e
}

/// The end of the line that starts at `i`.
pub fn find_line_end(chars: &Vec<char>, i: usize) -> (r: usize)
    requires
        i <= chars.len(),
    ensures
        i <= r <= chars.len(),
        r == line_end(chars@, i as int),
{
    let mut e = i;
    while e < chars.len() && chars[e] != '\n'
        invariant
            i <= e <= chars.len(),
            line_end(chars@, i as int) == line_end(chars@, e as int),
        decreases chars.len() - e,
    {
        e = e + 1;
    }
    e
}

/// The number of bytes that `c` takes in UTF-8.
pub fn char_width(c: char) -> (r: usize)
    ensures
        r == utf8_width(c),
        1 <= r <= 4,
{
    let n = c as u32;
    if n < 0x80 {
        1
    } else if n < 0x800 {
        2
    } else if n < 0x10000 {
        3
    } else {
        4
    }
}

/// How many characters of `chars`, counted from the start, fit into
/// `limit` bytes of UTF-8.
pub fn count_fitting(chars: &Vec<char>, limit: usize) -> (r: usize)
    ensures
        r <= chars.len(),
        r == fitting_chars(chars@, limit as nat),
{
    let mut used: usize = 0;
    let mut i: usize = 0;
    while i < chars.len() && char_width(chars[i]) <= limit - used
        invariant
            i <= chars.len(),
            used <= limit,
            fitting_chars(chars@, limit as nat) == fitting_from(
                chars@,
                limit as nat,
                i as int,
                used as nat,
            ),
        decreases chars.len() - i,
    {
        used = used + char_width(chars[i]);
        i = i + 1;
    }
    i
}

/// The bytes of a text are those of a part of it and those of the rest.
pub proof fn lemma_utf8_len_split(s: Seq<char>, i: int)
    requires
        0 <= i <= s.len(),
    ensures
        utf8_len(s) == utf8_len(s.take(i)) + utf8_len(s.skip(i)),
    decreases s.len(),
{
    if i == s.len() {
        assert(s.take(i) =~= s);
        assert(s.skip(i) =~= Seq::<char>::empty());
    } else {
        lemma_utf8_len_split(s.drop_last(), i);
        assert(s.drop_last().take(i) =~= s.take(i));
        assert(s.skip(i).drop_last() =~= s.drop_last().skip(i));
        assert(s.skip(i).last() == s.last());
    }
}

proof fn lemma_fitting_from(s: Seq<char>, limit: nat, i: int, used: nat)
    requires
        0 <= i <= s.len(),
        used == utf8_len(s.take(i)),
        used <= limit,
    ensures
        i <= fitting_from(s, limit, i, used) <= s.len(),
        utf8_len(s.take(fitting_from(s, limit, i, used))) <= limit,
        fitting_from(s, limit, i, used) == s.len() <==> utf8_len(s) <= limit,
    decreases s.len() - i,
{
    if i < s.len() {
        let next = s.take(i + 1);
        assert(next.drop_last() =~= s.take(i));
        assert(next.last() == s[i]);
        if used + utf8_width(s[i]) <= limit {
            lemma_fitting_from(s, limit, i + 1, used + utf8_width(s[i]));
        } else {
            lemma_utf8_len_split(s, i + 1);
        }
    } else {
        assert(s.take(i) =~= s);
    }
}

/// The characters that fit into a number of bytes are a part of the text
/// that takes no more than these bytes, and they are the whole text
/// exactly when the text takes no more.
pub proof fn lemma_fitting_chars(s: Seq<char>, limit: nat)
    ensures
        0 <= fitting_chars(s, limit) <= s.len(),
        utf8_len(s.take(fitting_chars(s, limit))) <= limit,
        fitting_chars(s, limit) == s.len() <==> utf8_len(s) <= limit,
{
    assert(s.take(0) =~= Seq::<char>::empty());
    lemma_fitting_from(s, limit, 0, 0);
}

/// A text takes at most four bytes for each of its characters.
pub proof fn lemma_utf8_len_bound(s: Seq<char>)
    ensures
        utf8_len(s) <= 4 * s.len(),
    decreases s.len(),
{
    if s.len() > 0 {
        lemma_utf8_len_bound(s.drop_last());
    }
}

/// `utf8_len` is the length of the UTF-8 encoding.
pub proof fn lemma_utf8_len_is_encoded_len(s: Seq<char>)
    ensures
        utf8_len(s) == encode_utf8(s).len(),
    decreases s.len(),
{
    if s.len() > 0 {
        lemma_utf8_len_split(s, 1);
        lemma_utf8_len_is_encoded_len(s.drop_first());
        assert(s.skip(1) =~= s.drop_first());
        let first = s.take(1);
        assert(first.drop_last() =~= Seq::<char>::empty());
        assert(first.last() == s[0]);
        assert(utf8_len(first.drop_last()) == 0);
        assert(utf8_len(first) == utf8_width(s[0]));
        vstd::utf8::char_is_scalar(s[0]);
        assert(encode_scalar(s[0] as u32).len() == utf8_width(s[0]));
    }
}

/// Whether `chars` takes at most `limit` bytes in UTF-8.
pub fn fits_in(chars: &Vec<char>, limit: usize) -> (r: bool)
    ensures
        r == (utf8_len(chars@) <= limit),
{
    proof {
        lemma_fitting_chars(chars@, limit as nat);
    }
    count_fitting(chars, limit) == chars.len()
}

/// Whether `c` stands in `chars`.
pub fn contains_char(chars: &Vec<char>, c: char) -> (r: bool)
    ensures
        r == chars@.contains(c),
{
    let mut i: usize = 0;
    while i < chars.len()
        invariant
            i <= chars.len(),
            forall|j: int| 0 <= j < i ==> chars@[j] != c,
        decreases chars.len() - i,
    {
        if chars[i] == c {
            return true;
        }
        i = i + 1;
    }
    false
}

} // verus!
