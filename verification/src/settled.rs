//! What the reader hands out reads as written: the definition of an entry
//! that was read, written down and read again, is that definition again,
//! unless it holds a `#` that a space and a digit follow.

use vstd::prelude::*;
use vstd::string::*;
use crate::entry::EntryView;
use crate::lexer::{
    in_class,
    is_definition_char,
    lemma_run_end,
    lemma_token_len,
    lex,
    run_end,
    token_text,
    word_token,
    CharClass,
    Lexed,
    TokenView,
};
use crate::parser::{entries_from, ParserView};
use crate::reader::{
    blank_piece, drive, expect, is_blank, piece, read_definition, skip_blanks, step, Expected,
    ReaderState, Step,
};
use crate::reader_laws::{
    lemma_drive_bounds, lemma_expect_bounds, lemma_read_definition_shift,
    lemma_skip_blanks_bounds, lemma_step_before_data,
};
use crate::lexer_laws::{lemma_lex_reference, lemma_lex_whitespace, lemma_run_is};
use crate::round_trip::reads_as_written;
use crate::text::{
    decimal_digits, decimal_value, is_digit, is_step_whitespace, lemma_decimal_round_trip,
};

verus! {

/// Whether the definition holds no `#` that a space and a digit follow.
pub open spec fn calm(definition: Seq<char>) -> bool {
    forall|i: int|
        0 <= i && i + 2 < definition.len() ==> !(#[trigger] definition[i] == '#' && definition[i
            + 1] == ' ' && is_digit(definition[i + 2]))
}

/// What the tokens from `from` on, up to the next `;`, add to a definition.
/// `blank` tells whether the definition ends with the space of whitespace
/// or of a comment.
pub open spec fn tail_text(s: Seq<char>, from: int, blank: bool, complete: bool) -> Seq<char>
    decreases s.len() - from,
{
    match lex(s.skip(from), complete) {
        Lexed::Token { token, len } => if token is Sem || !(1 <= len && 0 <= from && from + len
            <= s.len()) {
            seq![]
        } else if is_blank(token) {
            blank_piece(blank) + tail_text(s, from + len, true, complete)
        } else {
            match piece(token) {
                Some(text) => text + tail_text(s, from + len, false, complete),
                None => seq![],
            }
        },
        _ => seq![],
    }
}

/// Whether the tokens from `from` on are the rest of a definition, up to
/// its `;`.
pub open spec fn ends_well(s: Seq<char>, from: int, complete: bool) -> bool {
    read_definition(s, from, 0, seq![], false, complete) is Entry
}

/// The definition of an entry is what it began with followed by what its
/// tokens add; whether there is an entry does not depend on the id or on
/// what the definition began with.
pub proof fn lemma_definition_is_tail(
    s: Seq<char>,
    from: int,
    id: u64,
    definition: Seq<char>,
    blank: bool,
    complete: bool,
)
    requires
        0 <= from <= s.len(),
    ensures
        read_definition(s, from, id, definition, blank, complete) is Entry <==> ends_well(
            s,
            from,
            complete,
        ),
        read_definition(s, from, id, definition, blank, complete) matches Step::Entry {
            id: found,
            definition: text,
            ..
        } ==> found == id && text == definition + tail_text(s, from, blank, complete),
    decreases s.len() - from,
{
    lemma_token_len(s.skip(from), complete);
    match lex(s.skip(from), complete) {
        Lexed::Token { token, len } => {
            if token is Sem {
                assert(definition + Seq::<char>::empty() =~= definition);
            } else if is_blank(token) {
                lemma_definition_is_tail(
                    s,
                    from + len,
                    id,
                    definition + blank_piece(blank),
                    true,
                    complete,
                );
                lemma_definition_is_tail(s, from + len, 0, seq![] + blank_piece(false), true, complete);
                assert(definition + blank_piece(blank) + tail_text(s, from + len, true, complete)
                    =~= definition + (blank_piece(blank) + tail_text(
                    s,
                    from + len,
                    true,
                    complete,
                )));
            } else {
                match piece(token) {
                    Some(text) => {
                        lemma_definition_is_tail(
                            s,
                            from + len,
                            id,
                            definition + text,
                            false,
                            complete,
                        );
                        lemma_definition_is_tail(s, from + len, 0, seq![] + text, false, complete);
                        assert(definition + text + tail_text(s, from + len, false, complete)
                            =~= definition + (text + tail_text(s, from + len, false, complete)));
                    },
                    None => {},
                }
            }
        },
        _ => {},
    }
}

/// What holds of the tokens of a text: a string holds no `'`; a definition
/// is a run of definition characters that ends with the text or before a
/// character of another kind, and is no keyword; a reference is a `#` and
/// digits that denote its id, which is not 0, with or without whitespace
/// between them, and no digit follows them.
pub proof fn lemma_token_shape(s: Seq<char>, complete: bool)
    ensures
        lex(s, complete) matches Lexed::Token { token, len } ==> 1 <= len <= s.len() && match token {
            TokenView::String(text) => text == s.subrange(1, len - 1) && s[0] == '\'' && s[len
                - 1] == '\'' && forall|i: int| 0 <= i < text.len() ==> #[trigger] text[i] != '\'',
            TokenView::Definition(text) => text == s.take(len) && len == run_end(
                s,
                0,
                CharClass::Text,
            ) && (text[0] != '#' ==> word_token(text) == token) && (text[0] == '#' ==> {
                let blank = run_end(s, 1, CharClass::Whitespace);
                let digits = run_end(s, blank, CharClass::Digit);
                !(digits > blank && decimal_value(s.subrange(blank, digits)) >= 1 && digits
                    >= len)
            }),
            TokenView::Reference(id) => s[0] == '#' && id >= 1 && (len < s.len() ==> !is_digit(
                s[len],
            )),
            TokenView::Eq => s[0] == '=' && len == 1,
            TokenView::Whitespace => true,
            TokenView::Comments => true,
            _ => true,
        },
{
    reveal(lex);
    lemma_token_len(s, complete);
    if s.len() > 0 {
        lemma_run_end(s, 0, CharClass::Whitespace);
        lemma_run_end(s, 0, CharClass::Text);
        lemma_run_end(s, 1, CharClass::Quoted);
        lemma_run_end(s, 1, CharClass::Whitespace);
        lemma_run_end(s, run_end(s, 1, CharClass::Whitespace), CharClass::Digit);
        if s[0] == '\'' {
            let end = run_end(s, 1, CharClass::Quoted);
            if end < s.len() {
                let text = s.subrange(1, end);
                assert forall|i: int| 0 <= i < text.len() implies #[trigger] text[i] != '\'' by {
                    assert(in_class(CharClass::Quoted, s[i + 1]));
                }
            }
        }
    }
}

/// Whether the text is empty or begins with a character that is no
/// whitespace.
pub open spec fn begins_with_text(t: Seq<char>) -> bool {
    t.len() > 0 ==> !is_step_whitespace(t[0])
}

/// What the tokens add to a definition that ends with the space of
/// whitespace or of a comment begins with no whitespace; what they add to
/// another definition begins with no whitespace or with one space.
pub proof fn lemma_tail_begins(s: Seq<char>, from: int, blank: bool, complete: bool)
    requires
        0 <= from <= s.len(),
    ensures
        blank ==> begins_with_text(tail_text(s, from, blank, complete)),
        !blank ==> begins_with_text(tail_text(s, from, blank, complete)) || (tail_text(
            s,
            from,
            blank,
            complete,
        )[0] == ' ' && begins_with_text(tail_text(s, from, blank, complete).skip(1))),
    decreases s.len() - from,
{
    reveal_strlit(" ");
    reveal_strlit("#");
    reveal_strlit("'");
    reveal_strlit("=");
    let t = s.skip(from);
    lemma_token_len(t, complete);
    lemma_token_shape(t, complete);
    match lex(t, complete) {
        Lexed::Token { token, len } => {
            if token is Sem {
            } else if is_blank(token) {
                lemma_tail_begins(s, from + len, true, complete);
                let rest = tail_text(s, from + len, true, complete);
                if !blank {
                    assert((" "@ + rest).skip(1) =~= rest);
                } else {
                    assert(Seq::<char>::empty() + rest =~= rest);
                }
            } else {
                match piece(token) {
                    Some(text) => {
                        lemma_run_end(t, 0, CharClass::Text);
                        assert(text.len() > 0 && !is_step_whitespace(text[0])) by {
                            match token {
                                TokenView::Definition(word) => {
                                    assert(in_class(CharClass::Text, t[0]));
                                    assert(word[0] == t[0]);
                                },
                                _ => {},
                            }
                        }
                        let rest = tail_text(s, from + len, false, complete);
                        assert((text + rest)[0] == text[0]);
                    },
                    None => {},
                }
            }
        },
        _ => {},
    }
}

/// What follows the first characters of a calm definition is calm.
pub proof fn lemma_calm_rest(definition: Seq<char>, k: int)
    requires
        calm(definition),
        0 <= k <= definition.len(),
    ensures
        calm(definition.skip(k)),
{
    let rest = definition.skip(k);
    assert forall|i: int| 0 <= i && i + 2 < rest.len() implies !(#[trigger] rest[i] == '#'
        && rest[i + 1] == ' ' && is_digit(rest[i + 2])) by {
        assert(rest[i] == definition[i + k]);
        assert(rest[i + 1] == definition[i + k + 1]);
        assert(rest[i + 2] == definition[i + k + 2]);
    }
}

/// Where a text and the `;` behind it begin with a token that adds the
/// characters it is made of to a definition, and what follows the token is
/// read as itself, the text is read as itself.
pub proof fn lemma_read_again_step(
    t: Seq<char>,
    n: int,
    token: TokenView,
    text: Seq<char>,
    id: u64,
    definition: Seq<char>,
    blank: bool,
)
    requires
        1 <= n <= t.len(),
        lex(t + ";"@, false) == (Lexed::Token { token, len: n }),
        !(token is Sem),
        is_blank(token) ==> text == blank_piece(blank),
        !is_blank(token) ==> piece(token) == Some(text),
        t.take(n) == text,
        read_definition(t.skip(n) + ";"@, 0, id, definition + text, is_blank(token), false) == (
        Step::Entry {
            id,
            definition: definition + text + t.skip(n),
            len: t.skip(n).len() as int + 1,
        }),
    ensures
        read_definition(t + ";"@, 0, id, definition, blank, false) == (Step::Entry {
            id,
            definition: definition + t,
            len: t.len() as int + 1,
        }),
{
    let y = t + ";"@;
    assert(y.skip(0) =~= y);
    assert(y.skip(n) =~= t.skip(n) + ";"@);
    lemma_read_definition_shift(y, n, 0, id, definition + text, is_blank(token), false);
    assert(t.take(n) + t.skip(n) =~= t);
    assert(definition + text + t.skip(n) =~= definition + t);
}

/// Whether the token adds definition characters to a definition: a
/// definition or a reference.
pub open spec fn is_word(token: TokenView) -> bool {
    token is Definition || token is Reference
}

/// Where the definitions and references that follow each other from `from`
/// on end.
pub open spec fn run_stop(s: Seq<char>, from: int, complete: bool) -> int
    decreases s.len() - from,
{
    match lex(s.skip(from), complete) {
        Lexed::Token { token, len } => if is_word(token) && 1 <= len && 0 <= from && from + len
            <= s.len() {
            run_stop(s, from + len, complete)
        } else {
            from
        },
        _ => from,
    }
}

/// What the definitions and references that follow each other from `from`
/// on add to a definition.
pub open spec fn run_text(s: Seq<char>, from: int, complete: bool) -> Seq<char>
    decreases s.len() - from,
{
    match lex(s.skip(from), complete) {
        Lexed::Token { token, len } => if is_word(token) && 1 <= len && 0 <= from && from + len
            <= s.len() {
            token_text(token) + run_text(s, from + len, complete)
        } else {
            seq![]
        },
        _ => seq![],
    }
}

/// Whether all characters of the text are definition characters.
pub open spec fn all_definition_chars(t: Seq<char>) -> bool {
    forall|i: int| 0 <= i < t.len() ==> is_definition_char(#[trigger] t[i])
}

/// The text of a definition or of a reference is not empty and is made of
/// definition characters.
pub proof fn lemma_word_text(s: Seq<char>, complete: bool)
    ensures
        lex(s, complete) matches Lexed::Token { token, len } ==> (is_word(token) ==> token_text(
            token,
        ).len() >= 1 && all_definition_chars(token_text(token)) && token_text(token)[0] == s[0]
            && piece(token) == Some(token_text(token))),
{
    reveal_strlit("#");
    lemma_token_shape(s, complete);
    lemma_token_len(s, complete);
    match lex(s, complete) {
        Lexed::Token { token, len } => {
            match token {
                TokenView::Definition(text) => {
                    lemma_run_end(s, 0, CharClass::Text);
                    assert forall|i: int| 0 <= i < text.len() implies is_definition_char(
                        #[trigger] text[i],
                    ) by {
                        assert(in_class(CharClass::Text, s[i]));
                    }
                },
                TokenView::Reference(id) => {
                    lemma_decimal_round_trip(id as nat);
                    let digits = decimal_digits(id as nat);
                    let text = "#"@ + digits;
                    assert forall|i: int| 0 <= i < text.len() implies is_definition_char(
                        #[trigger] text[i],
                    ) by {
                        if i >= 1 {
                            assert(text[i] == digits[i - 1]);
                            assert(is_digit(digits[i - 1]));
                        }
                    }
                },
                _ => {},
            }
        },
        _ => {},
    }
}

/// What the tokens from `from` on add to a definition begins with what the
/// definitions and references at `from` add, and goes on with what the
/// tokens behind them add. The token behind them is no definition and no
/// reference.
pub proof fn lemma_tail_is_run(s: Seq<char>, from: int, blank: bool, complete: bool)
    requires
        0 <= from <= s.len(),
    ensures
        from <= run_stop(s, from, complete) <= s.len(),
        all_definition_chars(run_text(s, from, complete)),
        run_stop(s, from, complete) == from ==> run_text(s, from, complete).len() == 0,
        run_stop(s, from, complete) > from ==> run_text(s, from, complete).len() > 0 && tail_text(
            s,
            from,
            blank,
            complete,
        ) == run_text(s, from, complete) + tail_text(
            s,
            run_stop(s, from, complete),
            false,
            complete,
        ),
        ends_well(s, from, complete) ==> ends_well(s, run_stop(s, from, complete), complete),
        lex(s.skip(run_stop(s, from, complete)), complete) matches Lexed::Token { token, .. }
            ==> !is_word(token),
    decreases s.len() - from,
{
    let t = s.skip(from);
    lemma_token_len(t, complete);
    lemma_word_text(t, complete);
    match lex(t, complete) {
        Lexed::Token { token, len } => {
            if is_word(token) {
                let text = token_text(token);
                lemma_tail_is_run(s, from + len, false, complete);
                lemma_definition_is_tail(s, from + len, 0, seq![] + text, false, complete);
                let stop = run_stop(s, from + len, complete);
                let more = run_text(s, from + len, complete);
                assert(all_definition_chars(text + more)) by {
                    assert forall|i: int| 0 <= i < (text + more).len() implies is_definition_char(
                        #[trigger] (text + more)[i],
                    ) by {
                        if i < text.len() {
                            assert((text + more)[i] == text[i]);
                        } else {
                            assert((text + more)[i] == more[i - text.len()]);
                        }
                    }
                }
                if stop == from + len {
                    assert(text + more =~= text);
                    assert(text + tail_text(s, from + len, false, complete) =~= text + more
                        + tail_text(s, stop, false, complete));
                } else {
                    assert(text + tail_text(s, from + len, false, complete) =~= text + more
                        + tail_text(s, stop, false, complete));
                }
            }
        },
        _ => {},
    }
}

/// What the tokens add to a definition, from a token on that is no
/// definition and no reference, begins with no definition character.
pub proof fn lemma_tail_after_run(s: Seq<char>, from: int, complete: bool)
    requires
        0 <= from <= s.len(),
        ends_well(s, from, complete),
        lex(s.skip(from), complete) matches Lexed::Token { token, .. } ==> !is_word(token),
    ensures
        tail_text(s, from, false, complete).len() > 0 ==> !is_definition_char(
            tail_text(s, from, false, complete)[0],
        ),
{
    reveal_strlit(" ");
    reveal_strlit("'");
    reveal_strlit("=");
    let t = s.skip(from);
    lemma_token_len(t, complete);
    match lex(t, complete) {
        Lexed::Token { token, len } => {
            if !(token is Sem) {
                if is_blank(token) {
                    assert(tail_text(s, from, false, complete)[0] == ' ');
                } else {
                    match piece(token) {
                        Some(text) => {
                            assert(text.len() > 0 && !is_definition_char(text[0]));
                            assert(tail_text(s, from, false, complete)[0] == text[0]);
                        },
                        None => {},
                    }
                }
            }
        },
        _ => {},
    }
}

/// Behind a definition stands no definition and no reference. Where a
/// definition or a reference stands behind a reference, its text begins
/// with no digit.
pub proof fn lemma_run_shape(s: Seq<char>, from: int, complete: bool)
    requires
        0 <= from <= s.len(),
    ensures
        lex(s.skip(from), complete) matches Lexed::Token { token, len } ==> (token is Definition
            ==> run_text(s, from + len, complete).len() == 0) && (token is Reference && run_text(
            s,
            from + len,
            complete,
        ).len() > 0 ==> !is_digit(run_text(s, from + len, complete)[0])),
{
    let t = s.skip(from);
    lemma_token_len(t, complete);
    lemma_token_shape(t, complete);
    match lex(t, complete) {
        Lexed::Token { token, len } => {
            let u = s.skip(from + len);
            assert(t.skip(len) =~= u);
            lemma_token_len(u, complete);
            lemma_token_shape(u, complete);
            lemma_word_text(u, complete);
            lemma_run_end(t, 0, CharClass::Text);
            lemma_run_end(u, 0, CharClass::Text);
            match lex(u, complete) {
                Lexed::Token { token: next, len: more } => {
                    if is_word(next) {
                        assert(u[0] == t[len]);
                        assert(is_definition_char(u[0])) by {
                            assert(token_text(next)[0] == u[0]);
                        }
                        assert(run_text(s, from + len, complete)[0] == u[0]) by {
                            assert(more >= 1);
                            assert(from + len + more <= s.len());
                            assert((token_text(next) + run_text(s, from + len + more, complete))[0]
                                == token_text(next)[0]);
                        }
                    }
                },
                _ => {},
            }
        },
        _ => {},
    }
}

/// A run of definition characters that does not begin with `#` and is no
/// keyword, before a character of another kind, is read as a definition.
proof fn lemma_plain_word_is_read(word: Seq<char>, rest: Seq<char>)
    requires
        word.len() >= 1,
        all_definition_chars(word),
        word[0] != '#',
        word_token(word) == TokenView::Definition(word),
        rest.len() >= 1,
        !is_definition_char(rest[0]),
    ensures
        lex(word + rest, false) == (Lexed::Token {
            token: TokenView::Definition(word),
            len: word.len() as int,
        }),
{
    let y = word + rest;
    let n = word.len() as int;
    assert forall|i: int| 0 <= i < n implies in_class(CharClass::Text, #[trigger] y[i]) by {
        assert(y[i] == word[i]);
    }
    assert(y[n] == rest[0]);
    lemma_run_is(y, 0, n, CharClass::Text);
    assert(y.take(n) =~= word);
    assert(y[0] == word[0]);
    assert(is_definition_char(y[0]));
    reveal(lex);
}

/// A run of two or more definition characters that begins with `#` and was
/// read as a definition is read as that definition again before a
/// character of another kind.
proof fn lemma_hash_word_is_read(
    s: Seq<char>,
    complete: bool,
    word: Seq<char>,
    len: int,
    rest: Seq<char>,
)
    requires
        lex(s, complete) == (Lexed::Token { token: TokenView::Definition(word), len }),
        word[0] == '#',
        word.len() >= 2,
        rest.len() >= 1,
        !is_definition_char(rest[0]),
    ensures
        lex(word + rest, false) == (Lexed::Token {
            token: TokenView::Definition(word),
            len: word.len() as int,
        }),
{
    let y = word + rest;
    lemma_token_shape(s, complete);
    lemma_token_len(s, complete);
    lemma_run_end(s, 0, CharClass::Text);
    assert(word.len() == len);
    assert forall|i: int| 0 <= i < len implies y[i] == s[i] && in_class(
        CharClass::Text,
        #[trigger] y[i],
    ) by {
        assert(y[i] == word[i]);
        assert(word[i] == s[i]);
    }
    assert(y[len] == rest[0]);
    lemma_run_is(y, 0, len, CharClass::Text);
    assert(y.take(len) =~= word);
    lemma_run_is(s, 1, 1, CharClass::Whitespace);
    lemma_run_is(y, 1, 1, CharClass::Whitespace);
    let digits = run_end(s, 1, CharClass::Digit);
    lemma_run_end(s, 1, CharClass::Digit);
    assert(digits <= len) by {
        if digits > len {
            assert(in_class(CharClass::Digit, s[len]));
        }
    }
    assert forall|i: int| 1 <= i < digits implies in_class(CharClass::Digit, #[trigger] y[i]) by {
        assert(in_class(CharClass::Digit, s[i]));
    }
    assert(!in_class(CharClass::Digit, y[digits])) by {
        if digits < len {
            assert(y[digits] == s[digits]);
        }
    }
    lemma_run_is(y, 1, digits, CharClass::Digit);
    assert(y.subrange(1, digits) =~= s.subrange(1, digits));
    assert(y[0] == '#');
    reveal(lex);
}

/// A `#`, before a character that is no definition character, no
/// whitespace before a digit and no whitespace before whitespace, is read
/// as a definition.
proof fn lemma_lone_hash_is_read(rest: Seq<char>)
    requires
        rest.len() >= 1,
        !is_definition_char(rest[0]),
        is_step_whitespace(rest[0]) ==> rest.len() >= 2 && !is_step_whitespace(rest[1])
            && !is_digit(rest[1]),
    ensures
        lex(seq!['#'] + rest, false) == (Lexed::Token {
            token: TokenView::Definition(seq!['#']),
            len: 1,
        }),
{
    let y = seq!['#'] + rest;
    assert(y[0] == '#');
    assert(y[1] == rest[0]);
    lemma_run_is(y, 0, 1, CharClass::Text);
    assert(y.take(1) =~= seq!['#']);
    if is_step_whitespace(rest[0]) {
        assert(y[2] == rest[1]);
        lemma_run_is(y, 1, 2, CharClass::Whitespace);
        lemma_run_is(y, 2, 2, CharClass::Digit);
    } else {
        lemma_run_is(y, 1, 1, CharClass::Whitespace);
        lemma_run_is(y, 1, 1, CharClass::Digit);
    }
    reveal(lex);
}

/// A reference to an id that is not 0, with definition characters behind
/// it that begin with no digit, before a character of another kind, is
/// read as one definition; with nothing behind it, as that reference.
proof fn lemma_reference_run_is_read(id: u64, more: Seq<char>, rest: Seq<char>)
    requires
        id >= 1,
        all_definition_chars(more),
        more.len() > 0 ==> !is_digit(more[0]),
        rest.len() >= 1,
        !is_definition_char(rest[0]),
    ensures
        more.len() == 0 ==> lex("#"@ + decimal_digits(id as nat) + more + rest, false) == (
        Lexed::Token {
            token: TokenView::Reference(id),
            len: 1 + decimal_digits(id as nat).len() as int,
        }),
        more.len() > 0 ==> lex("#"@ + decimal_digits(id as nat) + more + rest, false) == (
        Lexed::Token {
            token: TokenView::Definition("#"@ + decimal_digits(id as nat) + more),
            len: 1 + decimal_digits(id as nat).len() as int + more.len() as int,
        }),
{
    reveal_strlit("#");
    let digits = decimal_digits(id as nat);
    let run = "#"@ + digits + more;
    let y = run + rest;
    let end = 1 + digits.len() as int;
    let stop = run.len() as int;
    lemma_decimal_round_trip(id as nat);
    assert(y[0] == '#');
    assert(y.subrange(1, end) =~= digits);
    if more.len() == 0 {
        assert(y[end] == rest[0]);
        lemma_lex_reference(y, id, false);
    } else {
        assert forall|i: int| 1 <= i < end implies in_class(CharClass::Digit, #[trigger] y[i]) by {
            assert(y[i] == digits[i - 1]);
            assert(is_digit(digits[i - 1]));
        }
        assert(y[end] == more[0]);
        assert forall|i: int| 0 <= i < stop implies in_class(CharClass::Text, #[trigger] y[i]) by {
            if i == 0 {
            } else if i < end {
                assert(y[i] == digits[i - 1]);
                assert(is_digit(digits[i - 1]));
            } else {
                assert(y[i] == more[i - end]);
            }
        }
        assert(y[stop] == rest[0]);
        lemma_run_is(y, 1, 1, CharClass::Whitespace);
        lemma_run_is(y, 1, end, CharClass::Digit);
        lemma_run_is(y, 0, stop, CharClass::Text);
        assert(y.take(stop) =~= run);
        reveal(lex);
    }
}

/// The definitions and references that follow each other from `from` on,
/// written down before text that begins with no definition character, are
/// read as one token that adds the same characters to a definition.
proof fn lemma_run_is_read(s: Seq<char>, from: int, complete: bool, rest: Seq<char>) -> (found:
    TokenView)
    requires
        0 <= from <= s.len(),
        lex(s.skip(from), complete) matches Lexed::Token { token, .. } && is_word(token),
        rest.len() > 0 ==> !is_definition_char(rest[0]),
        begins_with_text(rest) || (rest[0] == ' ' && begins_with_text(rest.skip(1))),
        calm(run_text(s, from, complete) + rest),
    ensures
        lex(run_text(s, from, complete) + rest + ";"@, false) == (Lexed::Token {
            token: found,
            len: run_text(s, from, complete).len() as int,
        }),
        piece(found) == Some(run_text(s, from, complete)),
        is_word(found),
{
    reveal_strlit(";");
    reveal_strlit("#");
    let t = s.skip(from);
    let run = run_text(s, from, complete);
    let x = rest + ";"@;
    assert(run + rest + ";"@ =~= run + x);
    assert(!is_definition_char(x[0]));
    lemma_token_len(t, complete);
    lemma_token_shape(t, complete);
    lemma_word_text(t, complete);
    lemma_run_shape(s, from, complete);
    match lex(t, complete) {
        Lexed::Token { token, len } => {
            let more = run_text(s, from + len, complete);
            lemma_tail_is_run(s, from + len, false, complete);
            match token {
                TokenView::Definition(word) => {
                    assert(run =~= word);
                    if word[0] != '#' {
                        lemma_plain_word_is_read(word, x);
                    } else if word.len() >= 2 {
                        lemma_hash_word_is_read(t, complete, word, len, x);
                    } else {
                        assert(word =~= seq!['#']);
                        if is_step_whitespace(x[0]) {
                            assert(rest[0] == ' ');
                            assert(rest.skip(1).len() > 0 ==> rest.skip(1)[0] == rest[1]);
                            if rest.len() >= 2 {
                                assert((run + rest)[0] == '#');
                                assert((run + rest)[1] == ' ');
                                assert((run + rest)[2] == rest[1]);
                                assert(x[1] == rest[1]);
                            } else {
                                assert(x[1] == ';');
                            }
                        }
                        lemma_lone_hash_is_read(x);
                    }
                    TokenView::Definition(word)
                },
                TokenView::Reference(id) => {
                    let digits = decimal_digits(id as nat);
                    assert(run =~= "#"@ + digits + more);
                    lemma_reference_run_is_read(id, more, x);
                    if more.len() == 0 {
                        assert(run =~= "#"@ + digits);
                        TokenView::Reference(id)
                    } else {
                        TokenView::Definition(run)
                    }
                },
                _ => token,
            }
        },
        _ => TokenView::Eq,
    }
}

/// Whether the text, read up to a `;` behind it as the rest of a definition
/// that begins with `definition`, adds itself to that definition.
pub open spec fn reads_as_itself(t: Seq<char>, id: u64, definition: Seq<char>, blank: bool) -> bool {
    read_definition(t + ";"@, 0, id, definition, blank, false) == (Step::Entry {
        id,
        definition: definition + t,
        len: t.len() as int + 1,
    })
}

/// Where whitespace or a comment stands at `from`, and what the tokens
/// behind it add reads as itself, what the tokens from `from` on add reads
/// as itself.
proof fn lemma_blank_reads_as_itself(
    s: Seq<char>,
    from: int,
    blank: bool,
    complete: bool,
    id: u64,
    definition: Seq<char>,
)
    requires
        0 <= from <= s.len(),
        lex(s.skip(from), complete) matches Lexed::Token { token, len } && is_blank(token)
            && reads_as_itself(
            tail_text(s, from + len, true, complete),
            id,
            definition + blank_piece(blank),
            true,
        ),
    ensures
        reads_as_itself(tail_text(s, from, blank, complete), id, definition, blank),
{
    reveal_strlit(";");
    reveal_strlit(" ");
    let tail = tail_text(s, from, blank, complete);
    let y = tail + ";"@;
    let t = s.skip(from);
    lemma_token_len(t, complete);
    match lex(t, complete) {
        Lexed::Token { token, len } => {
            let next = tail_text(s, from + len, true, complete);
            if blank {
                assert(tail =~= next);
                assert(definition + blank_piece(blank) =~= definition);
            } else {
                assert(tail.skip(1) =~= next);
                assert(tail.take(1) =~= " "@);
                lemma_tail_begins(s, from + len, true, complete);
                assert(!is_step_whitespace(y[1])) by {
                    if next.len() > 0 {
                        assert(y[1] == next[0]);
                    } else {
                        assert(y[1] == ';');
                    }
                }
                lemma_lex_whitespace(y, 1, false);
                lemma_read_again_step(tail, 1, TokenView::Whitespace, " "@, id, definition, blank);
            }
        },
        _ => {},
    }
}

/// Where a string or a `=` stands at `from`, and what the tokens behind it
/// add reads as itself, what the tokens from `from` on add reads as itself.
proof fn lemma_sign_reads_as_itself(
    s: Seq<char>,
    from: int,
    blank: bool,
    complete: bool,
    id: u64,
    definition: Seq<char>,
)
    requires
        0 <= from <= s.len(),
        lex(s.skip(from), complete) matches Lexed::Token { token, len } && (token is String
            || token is Eq) && reads_as_itself(
            tail_text(s, from + len, false, complete),
            id,
            definition + token_text(token),
            false,
        ),
    ensures
        reads_as_itself(tail_text(s, from, blank, complete), id, definition, blank),
{
    reveal_strlit(";");
    reveal_strlit("=");
    reveal_strlit("'");
    let tail = tail_text(s, from, blank, complete);
    let y = tail + ";"@;
    let t = s.skip(from);
    lemma_token_len(t, complete);
    lemma_token_shape(t, complete);
    match lex(t, complete) {
        Lexed::Token { token, len } => {
            let text = token_text(token);
            let next = tail_text(s, from + len, false, complete);
            let n = text.len() as int;
            assert(tail =~= text + next);
            assert(tail.skip(n) =~= next);
            assert(tail.take(n) =~= text);
            assert(lex(y, false) == (Lexed::Token { token, len: n })) by {
                match token {
                    TokenView::String(inner) => {
                        assert(y[0] == '\'');
                        assert forall|i: int| 1 <= i < n - 1 implies in_class(
                            CharClass::Quoted,
                            #[trigger] y[i],
                        ) by {
                            assert(y[i] == inner[i - 1]);
                        }
                        assert(y[n - 1] == '\'');
                        lemma_run_is(y, 1, n - 1, CharClass::Quoted);
                        assert(y.subrange(1, n - 1) =~= inner);
                        reveal(lex);
                    },
                    _ => {
                        assert(y[0] == '=');
                        reveal(lex);
                    },
                }
            }
            lemma_read_again_step(tail, n, token, text, id, definition, blank);
        },
        _ => {},
    }
}

/// Where a definition or a reference stands at `from`, what the tokens from
/// `from` on add is calm, and what the tokens behind the definitions and
/// references at `from` add reads as itself, what the tokens from `from` on
/// add reads as itself.
proof fn lemma_word_reads_as_itself(
    s: Seq<char>,
    from: int,
    blank: bool,
    complete: bool,
    id: u64,
    definition: Seq<char>,
)
    requires
        0 <= from <= s.len(),
        ends_well(s, from, complete),
        calm(tail_text(s, from, blank, complete)),
        lex(s.skip(from), complete) matches Lexed::Token { token, .. } && is_word(token),
        reads_as_itself(
            tail_text(s, run_stop(s, from, complete), false, complete),
            id,
            definition + run_text(s, from, complete),
            false,
        ),
    ensures
        reads_as_itself(tail_text(s, from, blank, complete), id, definition, blank),
{
    let tail = tail_text(s, from, blank, complete);
    let y = tail + ";"@;
    let t = s.skip(from);
    lemma_token_len(t, complete);
    lemma_tail_is_run(s, from, blank, complete);
    let stop = run_stop(s, from, complete);
    let run = run_text(s, from, complete);
    let next = tail_text(s, stop, false, complete);
    match lex(t, complete) {
        Lexed::Token { token, len } => {
            assert(stop > from) by {
                lemma_tail_is_run(s, from + len, false, complete);
            }
        },
        _ => {},
    }
    lemma_tail_after_run(s, stop, complete);
    lemma_tail_begins(s, stop, false, complete);
    assert(tail.skip(run.len() as int) =~= next);
    assert(tail.take(run.len() as int) =~= run);
    assert(calm(run + next));
    let found = lemma_run_is_read(s, from, complete, next);
    assert(run + next + ";"@ =~= y);
    lemma_read_again_step(tail, run.len() as int, found, run, id, definition, blank);
}

/// What the tokens of a definition add to it, where that is calm, is read
/// up to a `;` behind it as itself.
proof fn lemma_tail_reads_as_itself(
    s: Seq<char>,
    from: int,
    blank: bool,
    complete: bool,
    id: u64,
    definition: Seq<char>,
)
    requires
        0 <= from <= s.len(),
        ends_well(s, from, complete),
        calm(tail_text(s, from, blank, complete)),
    ensures
        reads_as_itself(tail_text(s, from, blank, complete), id, definition, blank),
    decreases s.len() - from,
{
    let tail = tail_text(s, from, blank, complete);
    let t = s.skip(from);
    lemma_token_len(t, complete);
    match lex(t, complete) {
        Lexed::Token { token, len } => {
            if token is Sem {
                reveal_strlit(";");
                let y = tail + ";"@;
                assert(y.skip(0) =~= y);
                assert(lex(y, false) == (Lexed::Token { token: TokenView::Sem, len: 1 })) by {
                    reveal(lex);
                }
                assert(definition + tail =~= definition);
            } else if is_blank(token) {
                let next = tail_text(s, from + len, true, complete);
                lemma_definition_is_tail(s, from + len, 0, seq![] + blank_piece(false), true, complete);
                assert(calm(next)) by {
                    if blank {
                        assert(tail =~= next);
                    } else {
                        reveal_strlit(" ");
                        assert(tail.skip(1) =~= next);
                        lemma_calm_rest(tail, 1);
                    }
                }
                lemma_tail_reads_as_itself(
                    s,
                    from + len,
                    true,
                    complete,
                    id,
                    definition + blank_piece(blank),
                );
                lemma_blank_reads_as_itself(s, from, blank, complete, id, definition);
            } else {
                match piece(token) {
                    Some(text) => {
                        lemma_definition_is_tail(s, from + len, 0, seq![] + text, false, complete);
                        if is_word(token) {
                            lemma_tail_is_run(s, from, blank, complete);
                            lemma_tail_is_run(s, from + len, false, complete);
                            let stop = run_stop(s, from, complete);
                            let run = run_text(s, from, complete);
                            let next = tail_text(s, stop, false, complete);
                            assert(tail.skip(run.len() as int) =~= next);
                            lemma_calm_rest(tail, run.len() as int);
                            lemma_tail_reads_as_itself(
                                s,
                                stop,
                                false,
                                complete,
                                id,
                                definition + run,
                            );
                            lemma_word_reads_as_itself(s, from, blank, complete, id, definition);
                        } else {
                            let next = tail_text(s, from + len, false, complete);
                            assert(tail.skip(text.len() as int) =~= next);
                            lemma_calm_rest(tail, text.len() as int);
                            lemma_tail_reads_as_itself(
                                s,
                                from + len,
                                false,
                                complete,
                                id,
                                definition + text,
                            );
                            lemma_sign_reads_as_itself(s, from, blank, complete, id, definition);
                        }
                    },
                    None => {},
                }
            }
        },
        _ => {},
    }
}

/// What the reader hands out reads as written: an entry that the reader
/// finds in the data section, whose definition is calm, is read again from
/// the line that is written for it.
pub proof fn lemma_read_entry_reads_as_written(s: Seq<char>, complete: bool)
    requires
        step(ReaderState::Body, s, complete) matches Step::Entry { definition, .. } && calm(
            definition,
        ),
    ensures
        step(ReaderState::Body, s, complete) matches Step::Entry { id, definition, .. }
            && reads_as_written(EntryView { id, definition }),
{
    let at = skip_blanks(s, 0, complete);
    lemma_skip_blanks_bounds(s, 0, complete);
    let t = s.skip(at);
    lemma_token_len(t, complete);
    lemma_token_shape(t, complete);
    match lex(t, complete) {
        Lexed::Token { token, len } => {
            match token {
                TokenView::Reference(id) => {
                    lemma_expect_bounds(s, at + len, complete, TokenView::Eq);
                    match expect(s, at + len, complete, TokenView::Eq) {
                        Expected::At(begin) => {
                            lemma_definition_is_tail(s, begin, id, seq![], false, complete);
                            let tail = tail_text(s, begin, false, complete);
                            assert(Seq::<char>::empty() + tail =~= tail);
                            lemma_tail_reads_as_itself(s, begin, false, complete, id, seq![]);
                        },
                        _ => {},
                    }
                },
                _ => {},
            }
        },
        _ => {},
    }
}

/// Each entry that a parser hands out, whose definition is calm, reads as
/// written.
pub proof fn lemma_items_read_as_written(view: ParserView)
    ensures
        forall|i: int|
            0 <= i < entries_from(view).len() ==> (#[trigger] entries_from(view)[i] matches Ok(
                entry,
            ) ==> calm(entry.definition) ==> reads_as_written(entry)),
    decreases view.rest.len(),
{
    let parsed = view.finds();
    let items = entries_from(view);
    match parsed.found {
        Step::Entry { id, definition, len } => {
            let whole = drive(view.state, view.text(), 0, true);
            lemma_drive_bounds(view.state, view.text(), 0, true);
            let text = view.text().skip(whole.from);
            if whole.state is Start || whole.state is SeekData {
                lemma_step_before_data(whole.state, text, true);
            }
            assert(whole.state is Body);
            if calm(definition) {
                lemma_read_entry_reads_as_written(text, true);
            }
            let next = view.after(parsed.state, parsed.taken);
            if next.rest.len() < view.rest.len() {
                lemma_items_read_as_written(next);
                assert forall|i: int| 0 <= i < items.len() implies (#[trigger] items[i] matches Ok(
                    entry,
                ) ==> calm(entry.definition) ==> reads_as_written(entry)) by {
                    if i > 0 {
                        assert(items[i] == entries_from(next)[i - 1]);
                    }
                }
            }
        },
        _ => {},
    }
}

} // verus!
