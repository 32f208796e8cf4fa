//! What the bot does with a message on Discord: whether it replies, and how
//! the reply is laid out, as plain text or as an embed.

use crate::scan::{
    contains_char, contains_within, count_fitting, find_line_end, fits_in, fitting_chars,
    has_substring, lemma_utf8_len_is_encoded_len, line_end, occurs_within, strip_suffixes, trim_range,
    trimmed_range, utf8_len, without_suffixes,
};
use crate::extractor::candidates;
use crate::math::Approximator;
use crate::reddit_comment::{
    final_status, has_record, has_status, is_wanted, lemma_tier_status_flags,
    lemma_with_status_contains, lists_results_of,
    reply_text_within, tier_status, with_status, Factorial, RedditComment, Status,
};
use crate::text::{decimal, push_chars, push_decimal, to_chars};
use std::collections::HashSet;
use vstd::prelude::*;
use vstd::string::*;

verus! {

/// The most bytes that the note and the lines of a reply may take.
pub const MAX_MESSAGE_LEN: usize = 2000;

/// The most bytes that the description of an embed may have.
pub const EMBED_DESCRIPTION_LIMIT: usize = 4096;

/// The most bytes that the value of a field of an embed may have.
pub const EMBED_FIELD_VALUE_LIMIT: usize = 1024;

/// The most bytes of a reply that is sent as plain text.
pub const SIMPLE_REPLY_LIMIT: usize = 400;

/// The most characters of one part of a reply that is cut into fields.
pub const CHUNK_CHARS: usize = 974;

/// The most fields that a reply is cut into.
pub const MAX_CHUNKS: usize = 10;

/// The most results that get a field each.
pub const MAX_RESULT_FIELDS: usize = 5;

/// The footer that is taken from the end of a reply before it is shown.
pub const FOOTER_MARK: &'static str = "*^(This action was performed by a bot.)*";

/// The words by which a line of a reply is known to be the footer.
pub const FOOTER_HINT: &'static str = "This action was performed by a bot";

/// What opens a reply that is sent as plain text.
pub const SIMPLE_REPLY_HEAD: &'static str = "**📊 Calculation Result**\n```\n";

/// What opens a block of code.
pub const CODE_HEAD: &'static str = "```\n";

/// What closes a block of code.
pub const CODE_TAIL: &'static str = "\n```";

/// What stands for the part that was cut off a text.
pub const ELLIPSIS: &'static str = "...";

/// The title of an embed whose note speaks of approximations.
pub const TITLE_APPROXIMATED: &'static str = "🔢 Factorial Calculations (Approximated)";

/// The title of an embed with more than one result.
pub const TITLE_MULTIPLE: &'static str = "🔢 Multiple Factorial Calculations";

/// The title of an embed with one result.
pub const TITLE_SINGLE: &'static str = "🔢 Factorial Calculation";

/// The name of the field that holds all results.
pub const RESULTS_FIELD_NAME: &'static str = "📐 Results";

/// The footer of every embed.
pub const EMBED_FOOTER: &'static str = "🤖 Factorion Bot • Powered by factorion-lib";

/// The colour of every embed: red, green, blue.
pub const EMBED_COLOUR: (u8, u8, u8) = (88, 101, 242);

/// Where a message came from.
#[derive(Debug, Clone)]
pub struct MessageMeta {
    pub message_id: u64,
    pub channel_id: u64,
    pub author: String,
}

/// What a sequence of strings stands for.
pub open spec fn string_views(v: Seq<String>) -> Seq<Seq<char>> {
    v.map_values(|s: String| s@)
}

/// The text of a reply without the footer marks at its end and without
/// the white space around what is left.
pub open spec fn stripped_text(s: Seq<char>) -> Seq<char> {
    trimmed_range(s, 0, without_suffixes(s, FOOTER_MARK@, s.len() as int))
}

/// A reply that is sent as plain text: the stripped text in a block of
/// code under a heading.
pub open spec fn simple_reply_view(s: Seq<char>) -> Seq<char> {
    SIMPLE_REPLY_HEAD@ + stripped_text(s) + CODE_TAIL@
}

/// What has been read of a reply: the note, the results, and whether the
/// note is still being read.
pub struct Parsed {
    pub description: Seq<char>,
    pub results: Seq<Seq<char>>,
    pub in_note: bool,
}

/// What one line, without the white space around it, adds to what has
/// been read. A line of the footer adds nothing; an empty line ends the
/// note; any other line belongs to the note while that lasts, and is a
/// result after it.
pub open spec fn parse_line(p: Parsed, line: Seq<char>) -> Parsed {
    if has_substring(line, FOOTER_HINT@) {
        p
    } else if line.len() == 0 {
        Parsed { in_note: false, ..p }
    } else if p.in_note {
        Parsed {
            description: if p.description.len() == 0 {
                line
            } else {
                p.description + seq!['\n'] + line
            },
            ..p
        }
    } else {
        Parsed { results: p.results.push(line), ..p }
    }
}

/// What has been read once the lines from `pos` on are read too.
pub open spec fn parse_from(s: Seq<char>, pos: int, p: Parsed) -> Parsed
    decreases s.len() - pos,
{
    let end = line_end(s, pos);
    let next = parse_line(p, trimmed_range(s, pos, end));
    if 0 <= pos <= end < s.len() {
        parse_from(s, end + 1, next)
    } else {
        next
    }
}

/// The note and the results of a reply.
pub open spec fn parsed(s: Seq<char>) -> Parsed {
    parse_from(
        s,
        0,
        Parsed { description: Seq::empty(), results: Seq::empty(), in_note: true },
    )
}

proof fn lemma_occurs_in_subrange(s: Seq<char>, pattern: Seq<char>, lo: int, hi: int)
    requires
        0 <= lo <= hi <= s.len(),
    ensures
        has_substring(s.subrange(lo, hi), pattern) == occurs_within(s, pattern, lo, hi),
{
    let part = s.subrange(lo, hi);
    if has_substring(part, pattern) {
        let i = choose|i: int|
            0 <= i && i + pattern.len() <= part.len() && #[trigger] crate::scan::occurs_at(
                part,
                pattern,
                i,
            );
        assert(s.subrange(lo + i, lo + i + pattern.len()) =~= part.subrange(
            i,
            i + pattern.len(),
        ));
        assert(crate::scan::occurs_at(s, pattern, lo + i));
    }
    if occurs_within(s, pattern, lo, hi) {
        let i = choose|i: int|
            lo <= i && i + pattern.len() <= hi && #[trigger] crate::scan::occurs_at(s, pattern, i);
        assert(part.subrange(i - lo, i - lo + pattern.len()) =~= s.subrange(
            i,
            i + pattern.len(),
        ));
        assert(crate::scan::occurs_at(part, pattern, i - lo));
    }
}

/// The bounds of the stripped text of a reply.
fn strip_reply(chars: &Vec<char>) -> (r: (usize, usize))
    ensures
        r.0 <= r.1 <= chars.len(),
        chars@.subrange(r.0 as int, r.1 as int) == stripped_text(chars@),
{
    let mark = to_chars(FOOTER_MARK);
    let end = strip_suffixes(chars, &mark, chars.len());
    trim_range(chars, 0, end)
}

/// Whether a reply is short and plain enough to be sent as plain text: it
/// takes at most 400 bytes and has one line.
pub fn should_use_simple_reply(reply_text: &str) -> (r: bool)
    ensures
        r == (utf8_len(reply_text@) <= SIMPLE_REPLY_LIMIT && !reply_text@.contains('\n')),
{
    let chars = to_chars(reply_text);
    fits_in(&chars, SIMPLE_REPLY_LIMIT) && !contains_char(&chars, '\n')
}

/// The message that carries a reply as plain text.
pub fn simple_reply_text(reply_text: &str) -> (r: String)
    ensures
        r@ == simple_reply_view(reply_text@),
{
    let chars = to_chars(reply_text);
    let (start, end) = strip_reply(&chars);
    let mut r = SIMPLE_REPLY_HEAD.to_owned();
    push_chars(&mut r, &chars, start, end);
    r.append(CODE_TAIL);
    r
}

/// Reads a reply: the note at its start, up to the first empty line, and
/// the results after it, one for each line that is not empty. The lines of
/// the note are joined by line feeds. The footer is left out.
pub fn parse_reply(reply_text: &str) -> (r: (String, Vec<String>))
    ensures
        r.0@ == parsed(reply_text@).description,
        string_views(r.1@) == parsed(reply_text@).results,
{
    let chars = to_chars(reply_text);
    let hint = to_chars(FOOTER_HINT);
    let ghost s = chars@;
    let mut description = String::new();
    let mut results: Vec<String> = Vec::new();
    let mut in_note = true;
    let mut pos: usize = 0;
    assert(string_views(results@) =~= Seq::<Seq<char>>::empty());
    loop
        invariant
            pos <= chars.len(),
            s == chars@,
            s == reply_text@,
            hint@ == FOOTER_HINT@,
            parse_from(
                s,
                pos as int,
                Parsed { description: description@, results: string_views(results@), in_note },
            ) == parsed(s),
        decreases chars.len() - pos,
    {
        let end = find_line_end(&chars, pos);
        let (from, to) = trim_range(&chars, pos, end);
        let ghost before = Parsed {
            description: description@,
            results: string_views(results@),
            in_note,
        };
        let ghost line = s.subrange(from as int, to as int);
        proof {
            lemma_occurs_in_subrange(s, hint@, from as int, to as int);
        }
        if contains_within(&chars, &hint, from, to) {
        } else if from == to {
            in_note = false;
        } else if in_note {
            if description.as_str().unicode_len() > 0 {
                description.push('\n');
            }
            push_chars(&mut description, &chars, from, to);
            assert(description@ =~= parse_line(before, line).description);
        } else {
            let mut result = String::new();
            push_chars(&mut result, &chars, from, to);
            proof {
                assert(result@ =~= line);
                assert(string_views(results@.push(result)) =~= string_views(results@).push(
                    result@,
                ));
            }
            results.push(result);
        }
        proof {
            assert((Parsed {
                description: description@,
                results: string_views(results@),
                in_note,
            }) == parse_line(before, line));
        }
        proof {
            assert(line == trimmed_range(s, pos as int, end as int));
            assert(parse_from(s, pos as int, before) == if end < s.len() {
                parse_from(s, end + 1, parse_line(before, line))
            } else {
                parse_line(before, line)
            });
        }
        if end >= chars.len() {
            return (description, results);
        }
        pos = end + 1;
    }
}

/// One field of an embed.
#[derive(Debug, Clone, PartialEq, Eq)]
pub struct EmbedField {
    pub name: String,
    pub value: String,
    pub inline: bool,
}

/// What an `EmbedField` stands for.
pub struct FieldView {
    pub name: Seq<char>,
    pub value: Seq<char>,
    pub inline: bool,
}

impl View for EmbedField {
    type V = FieldView;

    open spec fn view(&self) -> FieldView {
        FieldView { name: self.name@, value: self.value@, inline: self.inline }
    }
}

/// What of an embed depends on the reply: its title, its description and
/// its fields.
#[derive(Debug, Clone, PartialEq, Eq)]
pub struct Embed {
    pub title: Option<String>,
    pub description: Option<String>,
    pub fields: Vec<EmbedField>,
}

/// What an `Embed` stands for.
pub struct EmbedView {
    pub title: Option<Seq<char>>,
    pub description: Option<Seq<char>>,
    pub fields: Seq<FieldView>,
}

/// What a sequence of fields stands for.
pub open spec fn field_views(v: Seq<EmbedField>) -> Seq<FieldView> {
    v.map_values(|f: EmbedField| f@)
}

/// What an optional string stands for.
pub open spec fn option_view(s: Option<String>) -> Option<Seq<char>> {
    match s {
        Some(s) => Some(s@),
        None => None,
    }
}

impl View for Embed {
    type V = EmbedView;

    open spec fn view(&self) -> EmbedView {
        EmbedView {
            title: option_view(self.title),
            description: option_view(self.description),
            fields: field_views(self.fields@),
        }
    }
}

/// How a reply is sent.
#[derive(Debug, Clone, PartialEq, Eq)]
pub enum Reply {
    /// As a message of plain text.
    Simple(String),
    /// As an embed.
    Embed(Embed),
}

/// The title of an embed, by its note and the number of its results.
pub open spec fn title_text(description: Seq<char>, result_count: nat) -> Seq<char> {
    if has_substring(description, "approximate"@) || has_substring(description, "large"@) {
        TITLE_APPROXIMATED@
    } else if result_count > 1 {
        TITLE_MULTIPLE@
    } else {
        TITLE_SINGLE@
    }
}

/// A text that may take `limit` bytes: as it is where it takes no more,
/// else as many of its characters as fit into `room` bytes, and an
/// ellipsis.
pub open spec fn shortened(s: Seq<char>, limit: nat, room: nat) -> Seq<char> {
    if utf8_len(s) > limit {
        s.take(fitting_chars(s, room)) + ELLIPSIS@
    } else {
        s
    }
}

/// A text in a block of code.
pub open spec fn code_block(s: Seq<char>) -> Seq<char> {
    CODE_HEAD@ + s + CODE_TAIL@
}

/// The description of an embed that shows a note.
pub open spec fn note_description(description: Seq<char>) -> Seq<char> {
    "ℹ️ *"@ + shortened(
        description,
        EMBED_DESCRIPTION_LIMIT as nat,
        (EMBED_DESCRIPTION_LIMIT - 3) as nat,
    ) + "*"@
}

/// The field that shows the result at position `i`.
pub open spec fn result_field(result: Seq<char>, i: nat) -> FieldView {
    FieldView {
        name: "📐 Calculation "@ + decimal(i + 1),
        value: code_block(
            shortened(
                result,
                EMBED_FIELD_VALUE_LIMIT as nat,
                (EMBED_FIELD_VALUE_LIMIT - 20) as nat,
            ),
        ),
        inline: false,
    }
}

/// The fields that show the first `n` results, one each.
pub open spec fn result_fields(results: Seq<Seq<char>>, n: nat) -> Seq<FieldView>
    decreases n,
{
    if n == 0 || n > results.len() {
        Seq::empty()
    } else {
        result_fields(results, (n - 1) as nat).push(
            result_field(results[n - 1], (n - 1) as nat),
        )
    }
}

/// The number of parts that a text of `len` characters is cut into.
pub open spec fn chunk_count(len: nat) -> nat {
    (len + CHUNK_CHARS - 1) as nat / CHUNK_CHARS as nat
}

/// The part of a text at position `i`.
pub open spec fn chunk(s: Seq<char>, i: nat) -> Seq<char> {
    s.subrange(
        i * CHUNK_CHARS,
        if (i + 1) * CHUNK_CHARS < s.len() {
            (i + 1) * CHUNK_CHARS
        } else {
            s.len() as int
        },
    )
}

/// The field that shows the part of a text at position `i`, of `shown`
/// parts that are shown.
pub open spec fn chunk_field(s: Seq<char>, i: nat, shown: nat) -> FieldView {
    FieldView {
        name: "Result Part "@ + decimal(i + 1) + "/"@ + decimal(shown),
        value: code_block(chunk(s, i)),
        inline: false,
    }
}

/// The fields that show the first `n` parts of a text.
pub open spec fn chunk_fields(s: Seq<char>, n: nat, shown: nat) -> Seq<FieldView>
    decreases n,
{
    if n == 0 {
        Seq::empty()
    } else {
        chunk_fields(s, (n - 1) as nat, shown).push(chunk_field(s, (n - 1) as nat, shown))
    }
}

/// How many of the parts of a text of `len` characters are shown.
pub open spec fn shown_chunks(len: nat) -> nat {
    if chunk_count(len) < MAX_CHUNKS {
        chunk_count(len)
    } else {
        MAX_CHUNKS as nat
    }
}

/// The first `n` texts, joined by line feeds.
pub open spec fn joined(parts: Seq<Seq<char>>, n: nat) -> Seq<char>
    decreases n,
{
    if n == 0 || n > parts.len() {
        Seq::empty()
    } else if n == 1 {
        parts[0]
    } else {
        joined(parts, (n - 1) as nat) + seq!['\n'] + parts[n - 1]
    }
}

/// `a - b`, or zero where `b` is the larger.
pub open spec fn minus(a: nat, b: nat) -> nat {
    if a >= b {
        (a - b) as nat
    } else {
        0
    }
}

/// The field that shows all results at once, next to a note of
/// `desc_len` bytes: the results share the room of a description with it.
pub open spec fn combined_field(results: Seq<Seq<char>>, desc_len: nat) -> FieldView {
    FieldView {
        name: RESULTS_FIELD_NAME@,
        value: code_block(
            shortened(
                joined(results, results.len()),
                minus(EMBED_DESCRIPTION_LIMIT as nat, desc_len + 20),
                minus(EMBED_DESCRIPTION_LIMIT as nat, desc_len + 30),
            ),
        ),
        inline: false,
    }
}

/// The embed with what shows a reply in which no results were found: the
/// stripped text as its description where that takes at most 4096 bytes,
/// else the first parts of the text as fields.
pub open spec fn with_full_text(embed: EmbedView, reply_text: Seq<char>) -> EmbedView {
    let full_text = stripped_text(reply_text);
    if utf8_len(full_text) > EMBED_DESCRIPTION_LIMIT {
        EmbedView {
            fields: embed.fields + chunk_fields(
                full_text,
                shown_chunks(full_text.len()),
                shown_chunks(full_text.len()),
            ),
            ..embed
        }
    } else {
        EmbedView { description: Some(code_block(full_text)), ..embed }
    }
}

/// The embed with what shows the results: the whole text where there are
/// none, a field each for up to five, and one field for more.
pub open spec fn with_results(
    embed: EmbedView,
    results: Seq<Seq<char>>,
    desc_len: nat,
    reply_text: Seq<char>,
) -> EmbedView {
    if results.len() == 0 {
        with_full_text(embed, reply_text)
    } else if results.len() <= MAX_RESULT_FIELDS {
        EmbedView { fields: embed.fields + result_fields(results, results.len()), ..embed }
    } else {
        EmbedView { fields: embed.fields.push(combined_field(results, desc_len)), ..embed }
    }
}

/// The embed that shows a reply.
pub open spec fn embed_view(reply_text: Seq<char>) -> EmbedView {
    let p = parsed(reply_text);
    let titled = EmbedView {
        title: Some(title_text(p.description, p.results.len())),
        description: if p.description.len() == 0 {
            None
        } else {
            Some(note_description(p.description))
        },
        fields: Seq::empty(),
    };
    with_results(titled, p.results, utf8_len(p.description), reply_text)
}

/// A text that may take `limit` bytes, cut to `room` bytes and an
/// ellipsis where it takes more.
fn push_shortened(acc: &mut String, chars: &Vec<char>, limit: usize, room: usize)
    ensures
        final(acc)@ == old(acc)@ + shortened(chars@, limit as nat, room as nat),
{
    if fits_in(chars, limit) {
        push_chars(acc, chars, 0, chars.len());
        assert(chars@.subrange(0, chars.len() as int) == chars@);
    } else {
        let kept = count_fitting(chars, room);
        push_chars(acc, chars, 0, kept);
        acc.append(ELLIPSIS);
        assert(acc@ =~= old(acc)@ + (chars@.take(kept as int) + ELLIPSIS@));
    }
}

fn code_block_of(chars: &Vec<char>, from: usize, to: usize) -> (r: String)
    requires
        from <= to <= chars.len(),
    ensures
        r@ == code_block(chars@.subrange(from as int, to as int)),
{
    let mut r = CODE_HEAD.to_owned();
    push_chars(&mut r, chars, from, to);
    r.append(CODE_TAIL);
    r
}

fn push_field(fields: &mut Vec<EmbedField>, field: EmbedField)
    ensures
        field_views(final(fields)@) == field_views(old(fields)@).push(field@),
{
    fields.push(field);
    assert(field_views(fields@) =~= field_views(old(fields)@).push(field@));
}

/// Gives an embed its title: one for a note that speaks of approximations
/// or of large numbers, one for several results, one for the rest.
pub fn add_title(embed: Embed, description: &str, result_count: usize) -> (r: Embed)
    ensures
        r@ == (EmbedView {
            title: Some(title_text(description@, result_count as nat)),
            ..embed@
        }),
{
    let chars = to_chars(description);
    let approximate = to_chars("approximate");
    let large = to_chars("large");
    let title = if contains_within(&chars, &approximate, 0, chars.len()) || contains_within(
        &chars,
        &large,
        0,
        chars.len(),
    ) {
        TITLE_APPROXIMATED
    } else if result_count > 1 {
        TITLE_MULTIPLE
    } else {
        TITLE_SINGLE
    };
    Embed { title: Some(title.to_owned()), description: embed.description, fields: embed.fields }
}

/// Gives an embed a note as its description. A note of more than 4096
/// bytes is cut.
pub fn add_description(embed: Embed, description: String) -> (r: Embed)
    ensures
        r@ == (EmbedView { description: Some(note_description(description@)), ..embed@ }),
{
    let chars = to_chars(description.as_str());
    let mut text = "ℹ️ *".to_owned();
    push_shortened(&mut text, &chars, EMBED_DESCRIPTION_LIMIT, EMBED_DESCRIPTION_LIMIT - 3);
    text.append("*");
    Embed { title: embed.title, description: Some(text), fields: embed.fields }
}

/// Gives an embed what shows the results.
pub fn add_results(embed: Embed, results: Vec<String>, desc_len: usize, reply_text: &str) -> (r:
    Embed)
    ensures
        r@ == with_results(embed@, string_views(results@), desc_len as nat, reply_text@),
{
    if results.len() == 0 {
        add_full_text_results(embed, reply_text)
    } else if results.len() <= MAX_RESULT_FIELDS {
        add_field_results(embed, results)
    } else {
        add_combined_results(embed, results, desc_len)
    }
}

/// Gives an embed the whole text of a reply.
pub fn add_full_text_results(embed: Embed, reply_text: &str) -> (r: Embed)
    ensures
        r@ == with_full_text(embed@, reply_text@),
{
    let chars = to_chars(reply_text);
    let (start, end) = strip_reply(&chars);
    let mut full_text = String::new();
    push_chars(&mut full_text, &chars, start, end);
    let full_chars = to_chars(full_text.as_str());
    assert(full_chars@ =~= stripped_text(reply_text@));
    if !fits_in(&full_chars, EMBED_DESCRIPTION_LIMIT) {
        add_chunked_results(embed, full_text.as_str())
    } else {
        let block = code_block_of(&full_chars, 0, full_chars.len());
        assert(full_chars@.subrange(0, full_chars.len() as int) == full_chars@);
        Embed { title: embed.title, description: Some(block), fields: embed.fields }
    }
}

/// Gives an embed a long text as fields: the text is cut into parts of
/// 974 characters, and the first ten of them are shown.
pub fn add_chunked_results(embed: Embed, full_text: &str) -> (r: Embed)
    ensures
        r@ == (EmbedView {
            fields: embed@.fields + chunk_fields(
                full_text@,
                shown_chunks(full_text@.len()),
                shown_chunks(full_text@.len()),
            ),
            ..embed@
        }),
{
    let chars = to_chars(full_text);
    let len = chars.len();
    let count = len / CHUNK_CHARS + if len % CHUNK_CHARS == 0 {
        0
    } else {
        1
    };
    let shown = if count < MAX_CHUNKS {
        count
    } else {
        MAX_CHUNKS
    };
    assert(shown == shown_chunks(full_text@.len()));
    let Embed { title, description, fields } = embed;
    let mut fields = fields;
    let ghost at_first = field_views(fields@);
    let mut i: usize = 0;
    assert(at_first + chunk_fields(chars@, 0, shown as nat) =~= at_first);
    while i < shown
        invariant
            i <= shown <= MAX_CHUNKS,
            shown <= count,
            len == chars.len(),
            count == chunk_count(len as nat),
            field_views(fields@) == at_first + chunk_fields(chars@, i as nat, shown as nat),
        decreases shown - i,
    {
        let from = i * CHUNK_CHARS;
        assert(from < len);
        let to = if len - from > CHUNK_CHARS {
            from + CHUNK_CHARS
        } else {
            len
        };
        let mut name = "Result Part ".to_owned();
        push_decimal(&mut name, (i + 1) as u64);
        name.append("/");
        push_decimal(&mut name, shown as u64);
        let value = code_block_of(&chars, from, to);
        let field = EmbedField { name, value, inline: false };
        proof {
            assert(chars@.subrange(from as int, to as int) == chunk(chars@, i as nat));
            assert(field@ == chunk_field(chars@, i as nat, shown as nat));
            assert(at_first + chunk_fields(chars@, (i + 1) as nat, shown as nat) =~= (at_first
                + chunk_fields(chars@, i as nat, shown as nat)).push(field@));
        }
        push_field(&mut fields, field);
        i = i + 1;
    }
    Embed { title, description, fields }
}

/// Gives an embed a field for each result. A result of more than 1024
/// bytes is cut.
pub fn add_field_results(embed: Embed, results: Vec<String>) -> (r: Embed)
    ensures
        r@ == (EmbedView {
            fields: embed@.fields + result_fields(string_views(results@), results@.len()),
            ..embed@
        }),
{
    let Embed { title, description, fields } = embed;
    let mut fields = fields;
    let ghost at_first = field_views(fields@);
    let ghost views = string_views(results@);
    let mut i: usize = 0;
    assert(at_first + result_fields(views, 0) =~= at_first);
    while i < results.len()
        invariant
            i <= results.len(),
            views == string_views(results@),
            field_views(fields@) == at_first + result_fields(views, i as nat),
        decreases results.len() - i,
    {
        let chars = to_chars(results[i].as_str());
        let mut name = "📐 Calculation ".to_owned();
        push_decimal(&mut name, i as u64 + 1);
        let mut value = CODE_HEAD.to_owned();
        push_shortened(&mut value, &chars, EMBED_FIELD_VALUE_LIMIT, EMBED_FIELD_VALUE_LIMIT - 20);
        value.append(CODE_TAIL);
        let field = EmbedField { name, value, inline: false };
        proof {
            assert(views[i as int] == results@[i as int]@);
            assert(field@ == result_field(views[i as int], i as nat));
            assert(at_first + result_fields(views, (i + 1) as nat) =~= (at_first + result_fields(
                views,
                i as nat,
            )).push(field@));
        }
        push_field(&mut fields, field);
        i = i + 1;
    }
    Embed { title, description, fields }
}

/// Gives an embed one field with all results, a line each. Together with
/// a note of `desc_len` bytes they may take the room of a description;
/// what goes beyond is cut.
pub fn add_combined_results(embed: Embed, results: Vec<String>, desc_len: usize) -> (r: Embed)
    ensures
        r@ == (EmbedView {
            fields: embed@.fields.push(combined_field(string_views(results@), desc_len as nat)),
            ..embed@
        }),
{
    let ghost views = string_views(results@);
    let mut combined: Vec<char> = Vec::new();
    let mut i: usize = 0;
    while i < results.len()
        invariant
            i <= results.len(),
            views == string_views(results@),
            combined@ == joined(views, i as nat),
        decreases results.len() - i,
    {
        let chars = to_chars(results[i].as_str());
        let ghost before = combined@;
        if i > 0 {
            combined.push('\n');
        }
        let mut k: usize = 0;
        let ghost headed = combined@;
        while k < chars.len()
            invariant
                k <= chars.len(),
                combined@ == headed + chars@.take(k as int),
            decreases chars.len() - k,
        {
            combined.push(chars[k]);
            k = k + 1;
            assert(combined@ =~= headed + chars@.take(k as int));
        }
        proof {
            assert(chars@.take(chars.len() as int) =~= chars@);
            assert(views[i as int] == chars@);
            assert(combined@ =~= joined(views, (i + 1) as nat));
        }
        i = i + 1;
    }
    let limit = if EMBED_DESCRIPTION_LIMIT - 20 >= desc_len {
        EMBED_DESCRIPTION_LIMIT - 20 - desc_len
    } else {
        0
    };
    let room = if EMBED_DESCRIPTION_LIMIT - 30 >= desc_len {
        EMBED_DESCRIPTION_LIMIT - 30 - desc_len
    } else {
        0
    };
    let mut value = CODE_HEAD.to_owned();
    push_shortened(&mut value, &combined, limit, room);
    value.append(CODE_TAIL);
    let field = EmbedField { name: RESULTS_FIELD_NAME.to_owned(), value, inline: false };
    assert(field@ == combined_field(views, desc_len as nat));
    let Embed { title, description, fields } = embed;
    let mut fields = fields;
    push_field(&mut fields, field);
    Embed { title, description, fields }
}

/// Lays a reply out as an embed: a title, the note as the description,
/// and the results.
pub fn create_embed(reply_text: &str) -> (r: Embed)
    ensures
        r@ == embed_view(reply_text@),
{
    let mut embed = Embed { title: None, description: None, fields: Vec::new() };
    assert(field_views(embed.fields@) =~= Seq::<FieldView>::empty());
    let (description, results) = parse_reply(reply_text);
    embed = add_title(embed, description.as_str(), results.len());
    let description_chars = to_chars(description.as_str());
    proof {
        lemma_utf8_len_is_encoded_len(description@);
    }
    let desc_len = description.as_str().as_bytes().len();
    if description_chars.len() > 0 {
        embed = add_description(embed, description);
    }
    add_results(embed, results, desc_len, reply_text)
}

/// Chooses how a reply is sent: as plain text where it is short and has
/// one line, else as an embed.
pub fn format_reply(reply_text: &str) -> (r: Reply)
    ensures
        match r {
            Reply::Simple(text) => utf8_len(reply_text@) <= SIMPLE_REPLY_LIMIT
                && !reply_text@.contains('\n') && text@ == simple_reply_view(reply_text@),
            Reply::Embed(embed) => !(utf8_len(reply_text@) <= SIMPLE_REPLY_LIMIT
                && !reply_text@.contains('\n')) && embed@ == embed_view(reply_text@),
        },
{
    if should_use_simple_reply(reply_text) {
        Reply::Simple(simple_reply_text(reply_text))
    } else {
        Reply::Embed(create_embed(reply_text))
    }
}

/// Which messages have been replied to.
pub struct Handler {
    processed_messages: HashSet<u64>,
}

/// Whether a text holds a factorial that a result is calculated for.
pub open spec fn asks_for_result(content: Seq<char>) -> bool {
    exists|number: u64, level: u64| #[trigger] is_wanted(candidates(content), number, level)
}

impl Handler {
    /// The messages that have been replied to.
    pub closed spec fn processed(&self) -> Set<u64> {
        self.processed_messages@
    }

    /// A handler that has replied to nothing yet.
    pub fn new() -> (r: Handler)
        ensures
            r.processed() == Set::<u64>::empty(),
    {
        Handler { processed_messages: HashSet::new() }
    }

    /// Whether a message is looked at: it has not been replied to, and a
    /// person wrote it.
    pub fn should_process(&self, message_id: u64, author_is_bot: bool) -> (r: bool)
        ensures
            r == (!self.processed().contains(message_id) && !author_is_bot),
    {
        broadcast use vstd::std_specs::hash::group_hash_axioms;

        !self.processed_messages.contains(&message_id) && !author_is_bot
    }

    /// The reply to a message whose text was read as `comment`, if there
    /// is one: none where no factorial was found or the comment is marked
    /// as not to be replied to. The note and the lines of the reply may
    /// take `MAX_MESSAGE_LEN` bytes. A message that gets a reply counts as
    /// replied to from then on.
    pub fn reply_to(&mut self, message_id: u64, comment: &RedditComment) -> (r: Option<String>)
        ensures
            r is Some <==> !comment.status@.contains(Status::NoFactorial)
                && !comment.status@.contains(Status::NotReplied),
            r is Some ==> r->0@ == reply_text_within(
                comment.status@,
                comment.factorial_list@,
                MAX_MESSAGE_LEN as nat,
            ),
            final(self).processed() == if r is Some {
                old(self).processed().insert(message_id)
            } else {
                old(self).processed()
            },
    {
        broadcast use vstd::std_specs::hash::group_hash_axioms;

        if has_status(&comment.status, Status::NoFactorial) || has_status(
            &comment.status,
            Status::NotReplied,
        ) {
            return None;
        }
        let reply = comment.get_reply_within(MAX_MESSAGE_LEN);
        self.processed_messages.insert(message_id);
        Some(reply)
    }

    /// Looks at a message and gives the reply to it, if there is one.
    ///
    /// There is one exactly where the message has not been replied to, a
    /// person wrote it, and its text holds a factorial that a result is
    /// calculated for. The reply is that to a comment with the results of
    /// the text.
    pub fn process_message<A: Approximator>(
        &mut self,
        meta: &MessageMeta,
        author_is_bot: bool,
        content: &str,
        approximator: &A,
    ) -> (r: Option<String>)
        ensures
            r is Some <==> !old(self).processed().contains(meta.message_id) && !author_is_bot
                && asks_for_result(content@),
            r is Some ==> exists|list: Seq<Factorial>|
                lists_results_of(list, candidates(content@)) && r->0@
                    == #[trigger] reply_text_within(
                    final_status(tier_status(candidates(content@)), list),
                    list,
                    MAX_MESSAGE_LEN as nat,
                ),
            final(self).processed() == if r is Some {
                old(self).processed().insert(meta.message_id)
            } else {
                old(self).processed()
            },
    {
        if !self.should_process(meta.message_id, author_is_bot) {
            return None;
        }
        let mut id = String::new();
        push_decimal(&mut id, meta.message_id);
        let mut channel = String::new();
        push_decimal(&mut channel, meta.channel_id);
        let comment = RedditComment::new(
            content,
            id.as_str(),
            meta.author.as_str(),
            channel.as_str(),
            approximator,
        );
        proof {
            let wanted = candidates(content@);
            let flags = tier_status(wanted);
            let list = comment.factorial_list@;
            if flags.contains(Status::NoFactorial) {
                lemma_tier_status_flags(wanted, Status::NoFactorial);
            }
            if flags.contains(Status::NotReplied) {
                lemma_tier_status_flags(wanted, Status::NotReplied);
            }
            if list.len() > 0 {
                assert(has_record(list, list[0].number, list[0].level));
                assert(is_wanted(wanted, list[0].number, list[0].level));
            }
            if asks_for_result(content@) {
                let (number, level) = choose|number: u64, level: u64| #[trigger]
                    is_wanted(wanted, number, level);
                assert(has_record(list, number, level));
            }
            let first = if list.len() == 0 {
                Status::NoFactorial
            } else {
                Status::FactorialsFound
            };
            let found = with_status(flags, first);
            lemma_with_status_contains(flags, first, Status::NoFactorial);
            lemma_with_status_contains(flags, first, Status::NotReplied);
            lemma_with_status_contains(found, Status::ReplyWouldBeTooLong, Status::NoFactorial);
            lemma_with_status_contains(found, Status::ReplyWouldBeTooLong, Status::NotReplied);
        }
        self.reply_to(meta.message_id, &comment)
    }
}

} // verus!
