//! Reading what was written: the header, the lines of the entries and the
//! closing lines that the writer writes are read again as those entries; and
//! the entries of a file, written down and read again, are the same entries.

use vstd::prelude::*;
use vstd::string::*;
use vstd::utf8::{encode_utf8, encode_utf8_decode_utf8, encode_utf8_valid_utf8};
use crate::entry::EntryView;
use crate::lexer::{is_definition_char, lex, word_token, CharClass, Lexed, TokenView};
use crate::buffered_reader::BUFFER_SIZE_MAX;
use crate::parser::{entries_from, lemma_not_too_long, Parsed, ParserView};
use crate::step_data::{file_entries, FileEntries};
use crate::reader::{
    expect,
    read_definition,
    seek,
    skip_blanks,
    step,
    step_body,
    Expected,
    ReadError,
    ReaderState,
    Sought,
    Step,
};
use crate::lexer_laws::{lemma_lex_reference, lemma_lex_stable, lemma_lex_whitespace, lemma_run_is};
use crate::reader_laws::{
    lemma_read_definition_shift,
    lemma_read_definition_stable,
    lemma_seek_shift,
    lemma_text_is_not_blank,
};
use crate::settled::{calm, lemma_items_read_as_written};
use crate::text::{decimal_digits, is_step_whitespace, lemma_decimal_round_trip, no_quote};
use crate::utf8::{
    encoded_len, lemma_encode_concat, lemma_encoded_len_at_least, lemma_longest_valid_is_valid_len,
    longest_valid, text_of, valid_len,
};
use crate::writer::{
    entry_line, entry_lines, footer_text, header_text, implementation_level, joined, protocol_name,
};

verus! {

/// Whether the entry is read from the line that is written for it: its id
/// is not 0, and its definition, read up to a `;` behind it, is that
/// definition again.
pub open spec fn reads_as_written(entry: EntryView) -> bool {
    &&& entry.id >= 1
    &&& read_definition(entry.definition + ";"@, 0, entry.id, seq![], false, false) == (Step::Entry {
        id: entry.id,
        definition: entry.definition,
        len: entry.definition.len() as int + 1,
    })
}

/// Whether the text is whitespace only.
pub open spec fn all_whitespace(s: Seq<char>) -> bool {
    forall|i: int| 0 <= i < s.len() ==> is_step_whitespace(#[trigger] s[i])
}

/// The entries as a reader hands them out.
pub open spec fn as_items(entries: Seq<EntryView>) -> Seq<Result<EntryView, ReadError>> {
    entries.map_values(|entry: EntryView| Ok::<EntryView, ReadError>(entry))
}

/// Whitespace before a character of a definition token is passed over up
/// to that character.
proof fn lemma_skip_whitespace(s: Seq<char>, n: int, complete: bool)
    requires
        0 <= n < s.len(),
        forall|i: int| 0 <= i < n ==> is_step_whitespace(#[trigger] s[i]),
        is_definition_char(s[n]),
    ensures
        skip_blanks(s, 0, complete) == n,
{
    lemma_text_is_not_blank(s.skip(n), complete);
    assert(skip_blanks(s, n, complete) == n);
    if n > 0 {
        assert(s.skip(0) =~= s);
        lemma_lex_whitespace(s, n, complete);
    }
}

/// The line of an entry that reads as written, behind whitespace, is read
/// as that entry, whatever follows the line. The entry ends with its `;`.
pub proof fn lemma_written_entry_is_read(
    before: Seq<char>,
    entry: EntryView,
    rest: Seq<char>,
    complete: bool,
)
    requires
        all_whitespace(before),
        reads_as_written(entry),
    ensures
        step(ReaderState::Body, before + entry_line(entry) + rest, complete) == (Step::Entry {
            id: entry.id,
            definition: entry.definition,
            len: before.len() + entry_line(entry).len() - 1,
        }),
{
    reveal_strlit("#");
    reveal_strlit("=");
    reveal_strlit(";");
    reveal_strlit(";\n");
    let digits = decimal_digits(entry.id as nat);
    let s = before + entry_line(entry) + rest;
    let at = before.len() as int;
    let eq = at + 1 + digits.len();
    let begin = eq + 1;
    lemma_decimal_round_trip(entry.id as nat);
    assert(s[at] == '#');
    assert(s[eq] == '=');
    lemma_skip_whitespace(s, at, complete);
    let t = s.skip(at);
    assert(t.subrange(1, 1 + digits.len() as int) =~= digits);
    lemma_lex_reference(t, entry.id, complete);
    let u = s.skip(eq);
    assert(u[0] == '=');
    assert(lex(u, complete) == (Lexed::Token { token: TokenView::Eq, len: 1 })) by {
        reveal(lex);
    }
    assert(skip_blanks(s, eq, complete) == eq);
    assert(expect(s, eq, complete, TokenView::Eq) == Expected::At(begin));
    let body = entry.definition + ";"@;
    let tail = "\n"@ + rest;
    reveal_strlit("\n");
    assert(s.skip(begin) =~= body + tail);
    lemma_read_definition_stable(body, tail, 0, entry.id, seq![], false, complete);
    lemma_read_definition_shift(s, begin, 0, entry.id, seq![], false, complete);
    assert(step_body(s, complete) == read_definition(s, begin, entry.id, seq![], false, complete));
}

/// Behind whitespace, the lines that close the data section are read as
/// its end, whatever follows them. The end is the `;` behind `ENDSEC`.
pub proof fn lemma_written_end_is_read(before: Seq<char>, rest: Seq<char>, complete: bool)
    requires
        all_whitespace(before),
    ensures
        step(ReaderState::Body, before + footer_text() + rest, complete) == (Step::Finished {
            len: before.len() as int + 7,
        }),
{
    reveal_strlit("ENDSEC;\n\n");
    reveal_strlit("END-ISO-10303-21;\n");
    reveal_strlit("ENDSEC");
    reveal_strlit("ISO-10303-21");
    reveal_strlit("END-ISO-10303-21");
    let s = before + footer_text() + rest;
    let at = before.len() as int;
    assert(s[at] == 'E');
    lemma_skip_whitespace(s, at, complete);
    let t = s.skip(at);
    assert(t.take(6) =~= "ENDSEC"@);
    assert(t[6] == ';');
    lemma_run_is(t, 0, 6, CharClass::Text);
    assert(lex(t, complete) == (Lexed::Token { token: TokenView::Endsec, len: 6 })) by {
        reveal(lex);
    }
    let u = s.skip(at + 6);
    assert(u[0] == ';');
    assert(lex(u, complete) == (Lexed::Token { token: TokenView::Sem, len: 1 })) by {
        reveal(lex);
    }
    assert(skip_blanks(s, at + 6, complete) == at + 6);
    assert(expect(s, at + 6, complete, TokenView::Sem) == Expected::At(at + 7));
}

/// The lines of two runs of entries, one after the other, are the lines of
/// the first followed by the lines of the second.
proof fn lemma_entry_lines_concat(first: Seq<EntryView>, second: Seq<EntryView>)
    ensures
        entry_lines(first + second) == entry_lines(first) + entry_lines(second),
    decreases second.len(),
{
    if second.len() == 0 {
        assert(first + second =~= first);
        assert(entry_lines(first) + entry_lines(second) =~= entry_lines(first));
    } else {
        lemma_entry_lines_concat(first, second.drop_last());
        assert((first + second).drop_last() =~= first + second.drop_last());
        assert((first + second).last() == second.last());
        assert(entry_lines(first) + (entry_lines(second.drop_last()) + entry_line(second.last()))
            =~= entry_lines(first) + entry_lines(second.drop_last()) + entry_line(second.last()));
    }
}

/// The bytes of a text are that text, with no byte left over.
proof fn lemma_text_of_bytes(text: Seq<char>)
    ensures
        valid_len(encode_utf8(text)) == encode_utf8(text).len(),
        text_of(encode_utf8(text)) == text,
{
    broadcast use encode_utf8_valid_utf8, encode_utf8_decode_utf8;

    let bytes = encode_utf8(text);
    assert(bytes.take(bytes.len() as int) =~= bytes);
    assert(longest_valid(bytes, bytes.len() as int));
    lemma_longest_valid_is_valid_len(bytes, bytes.len() as int);
}

/// Where a parser has read the first `k` characters of a text, the bytes of
/// the other characters are left.
proof fn lemma_bytes_after(text: Seq<char>, k: int)
    requires
        0 <= k <= text.len(),
    ensures
        (ParserView { state: ReaderState::Body, rest: encode_utf8(text) }).after(
            ReaderState::Body,
            k,
        ) == (ParserView { state: ReaderState::Body, rest: encode_utf8(text.skip(k)) }),
        k <= encoded_len(text.take(k)) <= encode_utf8(text).len(),
        encode_utf8(text.skip(k)).len() <= encode_utf8(text).len(),
{
    lemma_text_of_bytes(text);
    lemma_encode_concat(text.take(k), text.skip(k));
    assert(text.take(k) + text.skip(k) =~= text);
    lemma_encoded_len_at_least(text.take(k));
    assert(encode_utf8(text).skip(encoded_len(text.take(k)) as int) =~= encode_utf8(text.skip(k)));
}

/// The entries that a parser in the data section hands out for the lines of
/// entries that read as written, behind whitespace and before the lines
/// that close the data section, are those entries.
proof fn lemma_lines_are_read(before: Seq<char>, entries: Seq<EntryView>)
    requires
        all_whitespace(before),
        forall|i: int| 0 <= i < entries.len() ==> reads_as_written(#[trigger] entries[i]),
        encode_utf8(before + entry_lines(entries) + footer_text()).len() <= BUFFER_SIZE_MAX,
    ensures
        entries_from(
            ParserView {
                state: ReaderState::Body,
                rest: encode_utf8(before + entry_lines(entries) + footer_text()),
            },
        ) == as_items(entries),
    decreases entries.len(),
{
    let text = before + entry_lines(entries) + footer_text();
    let view = ParserView { state: ReaderState::Body, rest: encode_utf8(text) };
    lemma_text_of_bytes(text);
    lemma_not_too_long(view, false);
    assert(text.skip(0) =~= text);
    if entries.len() == 0 {
        lemma_written_end_is_read(before, seq![], true);
        assert(text =~= before + footer_text() + Seq::<char>::empty());
        assert(as_items(entries) =~= seq![]);
    } else {
        let first = entries[0];
        let others = entries.skip(1);
        lemma_entry_lines_concat(seq![first], others);
        assert(seq![first] + others =~= entries);
        assert(seq![first].drop_last() =~= Seq::<EntryView>::empty());
        assert(entry_lines(Seq::<EntryView>::empty()) =~= Seq::<char>::empty());
        assert(seq![first].last() == first);
        assert(entry_lines(seq![first]) =~= entry_line(first));
        let rest = entry_lines(others) + footer_text();
        assert(text =~= before + entry_line(first) + rest);
        lemma_written_entry_is_read(before, first, rest, true);
        reveal_strlit(";\n");
        reveal_strlit("\n");
        let len = before.len() + entry_line(first).len() - 1;
        assert(text.skip(len) =~= "\n"@ + entry_lines(others) + footer_text());
        lemma_bytes_after(text, len);
        lemma_lines_are_read("\n"@, others);
        assert(as_items(entries) =~= seq![Ok::<EntryView, ReadError>(first)] + as_items(others));
    }
}

/// Reading what was written: where each of the entries reads as written,
/// the entries that a parser in the data section hands out for the lines of
/// the entries and the lines that close the data section are those entries,
/// with their ids and their definitions, in their order. The lines are no
/// more than the greatest buffer holds.
pub proof fn lemma_written_entries_are_read(entries: Seq<EntryView>)
    requires
        forall|i: int| 0 <= i < entries.len() ==> reads_as_written(#[trigger] entries[i]),
        encode_utf8(entry_lines(entries) + footer_text()).len() <= BUFFER_SIZE_MAX,
    ensures
        entries_from(
            ParserView {
                state: ReaderState::Body,
                rest: encode_utf8(entry_lines(entries) + footer_text()),
            },
        ) == as_items(entries),
{
    assert(Seq::<char>::empty() + entry_lines(entries) + footer_text() =~= entry_lines(entries)
        + footer_text());
    lemma_lines_are_read(seq![], entries);
}

/// Whether a reader that seeks the data section passes over the tokens of
/// `s` from `from` up to `to`: each is a token other than `DATA`, and one of
/// them ends at `to`.
spec fn passed_over(s: Seq<char>, from: int, to: int, complete: bool) -> bool
    decreases to - from,
{
    if from >= to {
        from == to
    } else {
        match lex(s.skip(from), complete) {
            Lexed::Token { token, len } => if !(token is Data) && 1 <= len && from + len <= to {
                passed_over(s, from + len, to, complete)
            } else {
                false
            },
            _ => false,
        }
    }
}

/// Tokens that are passed over up to a place, and from that place on up to
/// another, are passed over up to the other place.
proof fn lemma_passed_join(s: Seq<char>, a: int, b: int, c: int, complete: bool)
    requires
        passed_over(s, a, b, complete),
        passed_over(s, b, c, complete),
    ensures
        passed_over(s, a, c, complete),
        a <= b <= c,
    decreases b - a,
{
    if a < b {
        match lex(s.skip(a), complete) {
            Lexed::Token { token, len } => {
                lemma_passed_join(s, a + len, b, c, complete);
            },
            _ => {},
        }
    }
}

/// One token that is not `DATA` is passed over.
proof fn lemma_pass_token(s: Seq<char>, a: int, token: TokenView, len: int, complete: bool)
    requires
        lex(s.skip(a), complete) == (Lexed::Token { token, len }),
        !(token is Data),
        1 <= len,
    ensures
        passed_over(s, a, a + len, complete),
{
    assert(passed_over(s, a + len, a + len, complete));
}

/// A run of characters of a definition token that does not begin with `#`,
/// is not four characters long, and is followed by a character of another
/// kind, is passed over.
proof fn lemma_pass_word(s: Seq<char>, a: int, b: int, complete: bool)
    requires
        0 <= a < b < s.len(),
        forall|i: int| a <= i < b ==> is_definition_char(#[trigger] s[i]),
        !is_definition_char(s[b]),
        s[a] != '#',
        b - a != 4,
    ensures
        passed_over(s, a, b, complete),
{
    reveal_strlit("DATA");
    let t = s.skip(a);
    lemma_run_is(t, 0, b - a, CharClass::Text);
    assert(t.take(b - a).len() == b - a);
    assert(lex(t, complete) == (Lexed::Token { token: word_token(t.take(b - a)), len: b - a }))
        by {
        reveal(lex);
    }
    lemma_pass_token(s, a, word_token(t.take(b - a)), b - a, complete);
}

/// Whitespace before a character that is none is passed over.
proof fn lemma_pass_space(s: Seq<char>, a: int, b: int, complete: bool)
    requires
        0 <= a < b < s.len(),
        forall|i: int| a <= i < b ==> is_step_whitespace(#[trigger] s[i]),
        !is_step_whitespace(s[b]),
    ensures
        passed_over(s, a, b, complete),
{
    lemma_lex_whitespace(s.skip(a), b - a, complete);
    lemma_pass_token(s, a, TokenView::Whitespace, b - a, complete);
}

/// A `;` is passed over.
proof fn lemma_pass_sem(s: Seq<char>, a: int, complete: bool)
    requires
        0 <= a < s.len(),
        s[a] == ';',
    ensures
        passed_over(s, a, a + 1, complete),
{
    assert(lex(s.skip(a), complete) == (Lexed::Token { token: TokenView::Sem, len: 1 })) by {
        reveal(lex);
    }
    lemma_pass_token(s, a, TokenView::Sem, 1, complete);
}

/// A string, from its first `'` to the next, is passed over.
proof fn lemma_pass_string(s: Seq<char>, a: int, b: int, complete: bool)
    requires
        0 <= a,
        a + 2 <= b <= s.len(),
        s[a] == '\'',
        s[b - 1] == '\'',
        forall|i: int| a < i < b - 1 ==> #[trigger] s[i] != '\'',
    ensures
        passed_over(s, a, b, complete),
{
    let t = s.skip(a);
    lemma_run_is(t, 1, b - a - 1, CharClass::Quoted);
    assert(lex(t, complete) == (Lexed::Token {
        token: TokenView::String(t.subrange(1, b - a - 1)),
        len: b - a,
    })) by {
        reveal(lex);
    }
    lemma_pass_token(s, a, TokenView::String(t.subrange(1, b - a - 1)), b - a, complete);
}

/// Tokens that are passed over in a text that may go on are passed over in
/// every text that begins with that text.
proof fn lemma_passed_stable(
    s: Seq<char>,
    more: Seq<char>,
    a: int,
    b: int,
    complete: bool,
)
    requires
        0 <= a,
        b <= s.len(),
        passed_over(s, a, b, false),
    ensures
        passed_over(s + more, a, b, complete),
    decreases b - a,
{
    if a < b {
        assert((s + more).skip(a) =~= s.skip(a) + more);
        lemma_lex_stable(s.skip(a), more, complete);
        match lex(s.skip(a), false) {
            Lexed::Token { token, len } => {
                lemma_passed_stable(s, more, a + len, b, complete);
            },
            _ => {},
        }
    }
}

/// A reader that seeks the data section and passes over tokens goes on
/// behind them.
proof fn lemma_seek_passes(s: Seq<char>, a: int, b: int, complete: bool)
    requires
        0 <= a,
        b <= s.len(),
        passed_over(s, a, b, complete),
    ensures
        seek(ReaderState::SeekData, s, a, complete) == seek(ReaderState::SeekData, s, b, complete),
    decreases b - a,
{
    if a < b {
        match lex(s.skip(a), complete) {
            Lexed::Token { token, len } => {
                lemma_passed_join(s, a + len, b, b, complete);
                lemma_seek_passes(s, a + len, b, complete);
                assert(step(ReaderState::SeekData, s.skip(a), complete) == (Step::Moved {
                    state: ReaderState::SeekData,
                    len,
                }));
            },
            _ => {},
        }
    }
}

/// Whether a reader that seeks the data section from `from` on finds it
/// `back` characters before the end of the text.
spec fn finds_data(s: Seq<char>, from: int, back: int, complete: bool) -> bool {
    seek(ReaderState::SeekData, s, from, complete) == (Sought {
        state: ReaderState::Body,
        from: s.len() - back,
        stopped: None,
    })
}

/// Where the tokens of a text from `a` on are passed over up to the `'`
/// that ends the text, and a string without `'` and its closing `'` follow,
/// and the reader finds the data section from behind the closing `'` on, it
/// finds the data section from `a` on.
proof fn lemma_seek_over_string(
    part: Seq<char>,
    value: Seq<char>,
    tail: Seq<char>,
    a: int,
    back: int,
    complete: bool,
)
    requires
        0 <= a < part.len(),
        part.last() == '\'',
        passed_over(part, a, part.len() - 1, false),
        no_quote(value),
        tail.len() >= 1,
        tail[0] == '\'',
        finds_data(tail, 1, back, complete),
    ensures
        finds_data(part + value + tail, a, back, complete),
{
    let s = part + value + tail;
    let open = part.len() - 1;
    let close = (part.len() + value.len()) as int;
    assert(s =~= part + (value + tail));
    lemma_passed_stable(part, value + tail, a, open, complete);
    assert(s[open] == '\'');
    assert(s[close] == '\'');
    assert forall|i: int| open < i < close implies #[trigger] s[i] != '\'' by {
        assert(s[i] == value[i - part.len()]);
    }
    lemma_pass_string(s, open, close + 1, complete);
    lemma_passed_join(s, a, open, close + 1, complete);
    lemma_seek_passes(s, a, close + 1, complete);
    assert(s.skip(close) =~= tail);
    lemma_seek_shift(ReaderState::SeekData, s, close, 1, complete);
}

/// The header up to the `'` that opens the implementation level.
spec fn head_a() -> Seq<char> {
    "ISO-10303-21;\n\n"@ + "HEADER;\n\n"@ + "FILE_DESCRIPTION((''), '"@
}

/// Behind its first `;`, the tokens of that text are passed over up to
/// its last `'`.
proof fn lemma_head_a()
    ensures
        head_a().len() == 48,
        head_a().last() == '\'',
        passed_over(head_a(), 13, 47, false),
{
    reveal_strlit("ISO-10303-21;\n\n");
    reveal_strlit("HEADER;\n\n");
    reveal_strlit("FILE_DESCRIPTION((''), '");
    let x = head_a();
    lemma_pass_space(x, 13, 15, false);
    lemma_pass_word(x, 15, 21, false);
    lemma_passed_join(x, 13, 15, 21, false);
    lemma_pass_sem(x, 21, false);
    lemma_passed_join(x, 13, 21, 22, false);
    lemma_pass_space(x, 22, 24, false);
    lemma_passed_join(x, 13, 22, 24, false);
    lemma_pass_word(x, 24, 42, false);
    lemma_passed_join(x, 13, 24, 42, false);
    lemma_pass_string(x, 42, 44, false);
    lemma_passed_join(x, 13, 42, 44, false);
    lemma_pass_word(x, 44, 46, false);
    lemma_passed_join(x, 13, 44, 46, false);
    lemma_pass_space(x, 46, 47, false);
    lemma_passed_join(x, 13, 46, 47, false);
}

/// The header between the implementation level and the file name, each
/// with its `'`.
spec fn head_b() -> Seq<char> {
    "');\n"@ + "FILE_NAME('"@
}

/// Behind its first `'`, the tokens of that text are passed over up to
/// its last `'`.
proof fn lemma_head_b()
    ensures
        head_b().len() == 15,
        head_b()[0] == '\'',
        head_b().last() == '\'',
        passed_over(head_b(), 1, 14, false),
{
    reveal_strlit("');\n");
    reveal_strlit("FILE_NAME('");
    let x = head_b();
    lemma_pass_word(x, 1, 2, false);
    lemma_pass_sem(x, 2, false);
    lemma_passed_join(x, 1, 2, 3, false);
    lemma_pass_space(x, 3, 4, false);
    lemma_passed_join(x, 1, 3, 4, false);
    lemma_pass_word(x, 4, 14, false);
    lemma_passed_join(x, 1, 4, 14, false);
}

/// The header between the file name and the time stamp, each with its `'`.
spec fn head_c() -> Seq<char> {
    "', '"@
}

/// Behind its first `'`, the tokens of that text are passed over up to
/// its last `'`.
proof fn lemma_head_c()
    ensures
        head_c().len() == 4,
        head_c()[0] == '\'',
        head_c().last() == '\'',
        passed_over(head_c(), 1, 3, false),
{
    reveal_strlit("', '");
    let x = head_c();
    lemma_pass_word(x, 1, 2, false);
    lemma_pass_space(x, 2, 3, false);
    lemma_passed_join(x, 1, 2, 3, false);
}

/// The header between the time stamp and the protocols, each with its `'`.
spec fn head_d() -> Seq<char> {
    "', (''), (''), 'step-merger', '', '');\n"@ + "FILE_SCHEMA(('"@
}

/// Behind its first `'`, the tokens of that text are passed over up to
/// its last `'`.
proof fn lemma_head_d()
    ensures
        head_d().len() == 53,
        head_d()[0] == '\'',
        head_d().last() == '\'',
        passed_over(head_d(), 1, 52, false),
{
    reveal_strlit("', (''), (''), 'step-merger', '', '');\n");
    reveal_strlit("FILE_SCHEMA(('");
    let x = head_d();
    lemma_pass_word(x, 1, 2, false);
    lemma_pass_space(x, 2, 3, false);
    lemma_passed_join(x, 1, 2, 3, false);
    lemma_pass_word(x, 3, 4, false);
    lemma_passed_join(x, 1, 3, 4, false);
    lemma_pass_string(x, 4, 6, false);
    lemma_passed_join(x, 1, 4, 6, false);
    lemma_pass_word(x, 6, 8, false);
    lemma_passed_join(x, 1, 6, 8, false);
    lemma_pass_space(x, 8, 9, false);
    lemma_passed_join(x, 1, 8, 9, false);
    lemma_pass_word(x, 9, 10, false);
    lemma_passed_join(x, 1, 9, 10, false);
    lemma_pass_string(x, 10, 12, false);
    lemma_passed_join(x, 1, 10, 12, false);
    lemma_pass_word(x, 12, 14, false);
    lemma_passed_join(x, 1, 12, 14, false);
    lemma_pass_space(x, 14, 15, false);
    lemma_passed_join(x, 1, 14, 15, false);
    lemma_pass_string(x, 15, 28, false);
    lemma_passed_join(x, 1, 15, 28, false);
    lemma_pass_word(x, 28, 29, false);
    lemma_passed_join(x, 1, 28, 29, false);
    lemma_pass_space(x, 29, 30, false);
    lemma_passed_join(x, 1, 29, 30, false);
    lemma_pass_string(x, 30, 32, false);
    lemma_passed_join(x, 1, 30, 32, false);
    lemma_pass_word(x, 32, 33, false);
    lemma_passed_join(x, 1, 32, 33, false);
    lemma_pass_space(x, 33, 34, false);
    lemma_passed_join(x, 1, 33, 34, false);
    lemma_pass_string(x, 34, 36, false);
    lemma_passed_join(x, 1, 34, 36, false);
    lemma_pass_word(x, 36, 37, false);
    lemma_passed_join(x, 1, 36, 37, false);
    lemma_pass_sem(x, 37, false);
    lemma_passed_join(x, 1, 37, 38, false);
    lemma_pass_space(x, 38, 39, false);
    lemma_passed_join(x, 1, 38, 39, false);
    lemma_pass_word(x, 39, 52, false);
    lemma_passed_join(x, 1, 39, 52, false);
}

/// The header from the `'` that closes the protocols on.
spec fn head_e() -> Seq<char> {
    "'));\n\n"@ + "ENDSEC;\n\n"@ + "DATA;\n"@
}

/// Behind its first `'`, the tokens of that text are passed over up to `DATA`.
proof fn lemma_head_e()
    ensures
        head_e().len() == 21,
        head_e()[0] == '\'',
        passed_over(head_e(), 1, 15, false),
{
    reveal_strlit("'));\n\n");
    reveal_strlit("ENDSEC;\n\n");
    reveal_strlit("DATA;\n");
    let x = head_e();
    lemma_pass_word(x, 1, 3, false);
    lemma_pass_sem(x, 3, false);
    lemma_passed_join(x, 1, 3, 4, false);
    lemma_pass_space(x, 4, 6, false);
    lemma_passed_join(x, 1, 4, 6, false);
    lemma_pass_word(x, 6, 12, false);
    lemma_passed_join(x, 1, 6, 12, false);
    lemma_pass_sem(x, 12, false);
    lemma_passed_join(x, 1, 12, 13, false);
    lemma_pass_space(x, 13, 15, false);
    lemma_passed_join(x, 1, 13, 15, false);
}

/// What stands between two protocols, each with its `'`.
spec fn separator() -> Seq<char> {
    "'),('"@
}

/// Behind its first `'`, the tokens of that text are passed over up to
/// its last `'`.
proof fn lemma_separator()
    ensures
        separator().len() == 5,
        separator()[0] == '\'',
        separator().last() == '\'',
        passed_over(separator(), 1, 4, false),
{
    reveal_strlit("'),('");
    let x = separator();
    lemma_pass_word(x, 1, 4, false);
}

/// A reader before the tag passes over the tag and the `;` behind it.
proof fn lemma_start_is_read(rest: Seq<char>, complete: bool)
    ensures
        step(ReaderState::Start, head_a() + rest, complete) == (Step::Moved {
            state: ReaderState::SeekData,
            len: 13,
        }),
{
    reveal_strlit("ISO-10303-21;\n\n");
    reveal_strlit("HEADER;\n\n");
    reveal_strlit("FILE_DESCRIPTION((''), '");
    reveal_strlit("ISO-10303-21");
    let s = head_a() + rest;
    assert(s[0] == 'I');
    lemma_skip_whitespace(s, 0, complete);
    assert(s.skip(0) =~= s);
    assert(s.take(12) =~= "ISO-10303-21"@);
    assert(s[12] == ';');
    lemma_run_is(s, 0, 12, CharClass::Text);
    assert(lex(s, complete) == (Lexed::Token { token: TokenView::StartTag, len: 12 })) by {
        reveal(lex);
    }
    assert(expect(s, 0, complete, TokenView::StartTag) == Expected::At(12));
    let u = s.skip(12);
    assert(u[0] == ';');
    assert(lex(u, complete) == (Lexed::Token { token: TokenView::Sem, len: 1 })) by {
        reveal(lex);
    }
    assert(skip_blanks(s, 12, complete) == 12);
    assert(expect(s, 12, complete, TokenView::Sem) == Expected::At(13));
}

/// Behind the protocols, a reader that seeks the data section finds it
/// behind the `;` of `DATA;`.
proof fn lemma_seek_end(rest: Seq<char>, complete: bool)
    ensures
        finds_data(head_e() + rest, 1, rest.len() as int + 1, complete),
{
    reveal_strlit("'));\n\n");
    reveal_strlit("ENDSEC;\n\n");
    reveal_strlit("DATA;\n");
    reveal_strlit("DATA");
    reveal_strlit("ENDSEC");
    reveal_strlit("ISO-10303-21");
    reveal_strlit("END-ISO-10303-21");
    lemma_head_e();
    let s = head_e() + rest;
    lemma_passed_stable(head_e(), rest, 1, 15, complete);
    lemma_seek_passes(s, 1, 15, complete);
    let t = s.skip(15);
    assert(t.take(4) =~= "DATA"@);
    assert(t[4] == ';');
    lemma_run_is(t, 0, 4, CharClass::Text);
    assert(lex(t, complete) == (Lexed::Token { token: TokenView::Data, len: 4 })) by {
        reveal(lex);
    }
    let u = t.skip(4);
    assert(u[0] == ';');
    assert(lex(u, complete) == (Lexed::Token { token: TokenView::Sem, len: 1 })) by {
        reveal(lex);
    }
    assert(skip_blanks(t, 4, complete) == 4);
    assert(expect(t, 4, complete, TokenView::Sem) == Expected::At(5));
    assert(step(ReaderState::SeekData, t, complete) == (Step::Moved {
        state: ReaderState::Body,
        len: 5,
    }));
    assert(seek(ReaderState::Body, s, 20, complete) == (Sought {
        state: ReaderState::Body,
        from: 20,
        stopped: None,
    }));
}

/// Whether none of the texts holds a `'`.
pub open spec fn no_quotes(parts: Seq<Seq<char>>) -> bool {
    forall|i: int| 0 <= i < parts.len() ==> no_quote(#[trigger] parts[i])
}

/// From behind the time stamp on, a reader that seeks the data section
/// passes over the protocols, where none of them holds a `'`.
proof fn lemma_seek_protocols(
    protocol: Seq<Seq<char>>,
    tail: Seq<char>,
    back: int,
    complete: bool,
)
    requires
        no_quotes(protocol),
        tail.len() >= 1,
        tail[0] == '\'',
        finds_data(tail, 1, back, complete),
    ensures
        finds_data(head_d() + joined(protocol, "'),('"@) + tail, 1, back, complete),
    decreases protocol.len(),
{
    lemma_head_d();
    lemma_separator();
    if protocol.len() == 0 {
        lemma_seek_over_string(head_d(), seq![], tail, 1, back, complete);
    } else if protocol.len() == 1 {
        assert(no_quote(protocol[0]));
        lemma_seek_over_string(head_d(), protocol[0], tail, 1, back, complete);
    } else {
        let others = protocol.drop_last();
        let last = protocol.last();
        assert(no_quote(last));
        assert forall|i: int| 0 <= i < others.len() implies no_quote(#[trigger] others[i]) by {
            assert(others[i] == protocol[i]);
        }
        lemma_seek_over_string(separator(), last, tail, 1, back, complete);
        let longer = separator() + last + tail;
        lemma_seek_protocols(others, longer, back, complete);
        assert(head_d() + joined(others, "'),('"@) + longer =~= head_d() + joined(
            protocol,
            "'),('"@,
        ) + tail);
    }
}

/// A reader passes over the header that the writer writes, where the
/// implementation level, the file name, the time stamp and the protocols
/// hold no `'`, and stands in the data section behind the `;` of `DATA;`,
/// whatever follows the header.
pub proof fn lemma_written_header_is_read(
    level: Seq<char>,
    filename: Seq<char>,
    timestamp: Seq<char>,
    protocol: Seq<Seq<char>>,
    rest: Seq<char>,
    complete: bool,
)
    requires
        no_quote(level),
        no_quote(filename),
        no_quote(timestamp),
        no_quotes(protocol),
    ensures
        header_text(level, filename, timestamp, protocol).len() >= 1,
        header_text(level, filename, timestamp, protocol).last() == '\n',
        seek(
            ReaderState::Start,
            header_text(level, filename, timestamp, protocol) + rest,
            0,
            complete,
        ) == (Sought {
            state: ReaderState::Body,
            from: header_text(level, filename, timestamp, protocol).len() - 1,
            stopped: None,
        }),
{
    let header = header_text(level, filename, timestamp, protocol);
    let back = rest.len() as int + 1;
    lemma_head_a();
    lemma_head_b();
    lemma_head_c();
    lemma_head_d();
    lemma_head_e();
    let end = head_e() + rest;
    lemma_seek_end(rest, complete);
    let schema = head_d() + joined(protocol, "'),('"@) + end;
    lemma_seek_protocols(protocol, end, back, complete);
    let stamp = head_c() + timestamp + schema;
    lemma_seek_over_string(head_c(), timestamp, schema, 1, back, complete);
    let name = head_b() + filename + stamp;
    lemma_seek_over_string(head_b(), filename, stamp, 1, back, complete);
    let all = head_a() + level + name;
    lemma_seek_over_string(head_a(), level, name, 13, back, complete);
    reveal_strlit("DATA;\n");
    assert(header + rest =~= all);
    assert(all =~= head_a() + (level + name));
    lemma_start_is_read(level + name, complete);
    assert(all.skip(0) =~= all);
}

/// Reading what was written: the file that the writer writes, with a header
/// whose implementation level, file name, time stamp and protocols hold no
/// `'`, for entries that read as written, holds those entries, with their
/// ids and their definitions, in their order.
pub proof fn lemma_written_file_is_read(
    level: Seq<char>,
    filename: Seq<char>,
    timestamp: Seq<char>,
    protocol: Seq<Seq<char>>,
    entries: Seq<EntryView>,
)
    requires
        no_quote(level),
        no_quote(filename),
        no_quote(timestamp),
        no_quotes(protocol),
        forall|i: int| 0 <= i < entries.len() ==> reads_as_written(#[trigger] entries[i]),
        encode_utf8(
            header_text(level, filename, timestamp, protocol) + entry_lines(entries)
                + footer_text(),
        ).len() < BUFFER_SIZE_MAX,
    ensures
        file_entries(
            encode_utf8(
                header_text(level, filename, timestamp, protocol) + entry_lines(entries)
                    + footer_text(),
            ),
        ) == FileEntries::Data(as_items(entries)),
{
    let header = header_text(level, filename, timestamp, protocol);
    let rest = entry_lines(entries) + footer_text();
    let text = header + entry_lines(entries) + footer_text();
    let start = ParserView { state: ReaderState::Start, rest: encode_utf8(text) };
    assert(text =~= header + rest);
    lemma_written_header_is_read(level, filename, timestamp, protocol, rest, true);
    lemma_written_header_is_read(level, filename, timestamp, protocol, rest, false);
    lemma_text_of_bytes(text);
    lemma_not_too_long(start, true);
    let taken = header.len() - 1;
    assert(start.seeks() == (Parsed {
        found: Step::Moved { state: ReaderState::Body, len: 0 },
        state: ReaderState::Body,
        taken,
    }));
    lemma_bytes_after(text, taken);
    reveal_strlit("\n");
    assert(text.skip(taken) =~= "\n"@ + entry_lines(entries) + footer_text());
    lemma_lines_are_read("\n"@, entries);
    assert(start.after(ReaderState::Body, taken) == (ParserView {
        state: ReaderState::Body,
        rest: encode_utf8(text),
    }).after(ReaderState::Body, taken));
}

/// The round trip: where a file holds entries and no error, and the
/// definitions of the entries are calm, the file that the writer writes for
/// those entries, with a header whose implementation level, file name, time
/// stamp and protocols hold no `'`, holds the same entries, with their ids
/// and their definitions, in their order.
pub proof fn lemma_round_trip(
    bytes: Seq<u8>,
    entries: Seq<EntryView>,
    level: Seq<char>,
    filename: Seq<char>,
    timestamp: Seq<char>,
    protocol: Seq<Seq<char>>,
)
    requires
        file_entries(bytes) == FileEntries::Data(as_items(entries)),
        forall|i: int| 0 <= i < entries.len() ==> calm(#[trigger] entries[i].definition),
        no_quote(level),
        no_quote(filename),
        no_quote(timestamp),
        no_quotes(protocol),
        encode_utf8(
            header_text(level, filename, timestamp, protocol) + entry_lines(entries)
                + footer_text(),
        ).len() < BUFFER_SIZE_MAX,
    ensures
        file_entries(
            encode_utf8(
                header_text(level, filename, timestamp, protocol) + entry_lines(entries)
                    + footer_text(),
            ),
        ) == FileEntries::Data(as_items(entries)),
{
    let start = ParserView { state: ReaderState::Start, rest: bytes };
    let data = start.after(start.seeks().state, start.seeks().taken);
    lemma_items_read_as_written(data);
    assert forall|i: int| 0 <= i < entries.len() implies reads_as_written(#[trigger] entries[i]) by {
        assert(as_items(entries)[i] == Ok::<EntryView, ReadError>(entries[i]));
        assert(entries_from(data)[i] == as_items(entries)[i]);
    }
    lemma_written_file_is_read(level, filename, timestamp, protocol, entries);
}

/// The round trip of a STEP file: where a file holds entries and no error,
/// and the definitions of the entries are calm, the text that `write_step`
/// makes of those entries, with a file name and a time stamp that hold no
/// `'`, holds the same entries, with their ids and their definitions, in
/// their order.
pub proof fn lemma_step_round_trip(
    bytes: Seq<u8>,
    entries: Seq<EntryView>,
    filename: Seq<char>,
    timestamp: Seq<char>,
)
    requires
        file_entries(bytes) == FileEntries::Data(as_items(entries)),
        forall|i: int| 0 <= i < entries.len() ==> calm(#[trigger] entries[i].definition),
        no_quote(filename),
        no_quote(timestamp),
        encode_utf8(
            header_text(implementation_level(), filename, timestamp, seq![protocol_name()])
                + entry_lines(entries) + footer_text(),
        ).len() < BUFFER_SIZE_MAX,
    ensures
        file_entries(
            encode_utf8(
                header_text(implementation_level(), filename, timestamp, seq![protocol_name()])
                    + entry_lines(entries) + footer_text(),
            ),
        ) == FileEntries::Data(as_items(entries)),
{
    reveal_strlit("2;1");
    reveal_strlit(
        "AP203_CONFIGURATION_CONTROLLED_3D_DESIGN_OF_MECHANICAL_PARTS_AND_ASSEMBLIES_MIM_LF { 1 0 10303 403 1 1 4 }",
    );
    assert(no_quote(implementation_level()));
    assert(no_quote(protocol_name()));
    lemma_round_trip(
        bytes,
        entries,
        implementation_level(),
        filename,
        timestamp,
        seq![protocol_name()],
    );
}

} // verus!
