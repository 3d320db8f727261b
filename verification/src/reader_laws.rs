//! What holds of the steps of the entry reader when its text arrives in
//! pieces: what the reader finds in a text does not depend on where the text
//! was cut.

use vstd::prelude::*;
use crate::lexer::{lemma_token_len, lex, Lexed, TokenView};
use crate::lexer_laws::{
    lemma_complete_text_is_decided, lemma_lex_stable, lemma_partial_text_has_no_end,
};
use crate::lexer::is_definition_char;
use crate::reader::{
    blank_piece,
    drive,
    expect,
    is_blank,
    piece,
    read_definition,
    seek,
    skip_blanks,
    step,
    step_len,
    Driven,
    Expected,
    ReaderState,
    Sought,
    Step,
};

verus! {

/// The text from `from` on, of a text with more text behind it, is the text
/// from `from` on with the other text behind it.
pub proof fn lemma_skip_of_longer(s: Seq<char>, more: Seq<char>, from: int)
    requires
        0 <= from <= s.len(),
    ensures
        (s + more).skip(from) == s.skip(from) + more,
{
    assert((s + more).skip(from) =~= s.skip(from) + more);
}

/// Whitespace and comments end within the text.
pub proof fn lemma_skip_blanks_bounds(s: Seq<char>, from: int, complete: bool)
    requires
        0 <= from <= s.len(),
    ensures
        from <= skip_blanks(s, from, complete) <= s.len(),
    decreases s.len() - from,
{
    match lex(s.skip(from), complete) {
        Lexed::Token { token, len } => {
            if is_blank(token) && 1 <= len && from + len <= s.len() {
                lemma_skip_blanks_bounds(s, from + len, complete);
            }
        },
        _ => {},
    }
}

/// Where the token behind whitespace and comments is known, the whitespace
/// and the comments end at the same place when more text arrives.
pub proof fn lemma_skip_blanks_stable(s: Seq<char>, more: Seq<char>, from: int, complete: bool)
    requires
        0 <= from <= s.len(),
        !(lex(s.skip(skip_blanks(s, from, false)), false) is NeedMore),
    ensures
        skip_blanks(s + more, from, complete) == skip_blanks(s, from, false),
    decreases s.len() - from,
{
    lemma_skip_of_longer(s, more, from);
    lemma_token_len(s.skip(from), false);
    match lex(s.skip(from), false) {
        Lexed::Token { token, len } => {
            lemma_lex_stable(s.skip(from), more, complete);
            if is_blank(token) {
                lemma_skip_blanks_stable(s, more, from + len, complete);
            }
        },
        Lexed::NeedMore => {},
        _ => {
            lemma_lex_stable(s.skip(from), more, complete);
        },
    }
}

/// A token that is found where it is expected ends behind the place where
/// it is expected, within the text.
pub proof fn lemma_expect_bounds(s: Seq<char>, from: int, complete: bool, wanted: TokenView)
    requires
        0 <= from <= s.len(),
    ensures
        expect(s, from, complete, wanted) matches Expected::At(end) ==> from < end <= s.len(),
{
    lemma_skip_blanks_bounds(s, from, complete);
    let at = skip_blanks(s, from, complete);
    lemma_token_len(s.skip(at), complete);
}

/// What is found where a token is expected stays what it is when more text
/// arrives.
pub proof fn lemma_expect_stable(
    s: Seq<char>,
    more: Seq<char>,
    from: int,
    complete: bool,
    wanted: TokenView,
)
    requires
        0 <= from <= s.len(),
        !(expect(s, from, false, wanted) is NeedMore),
    ensures
        expect(s + more, from, complete, wanted) == expect(s, from, false, wanted),
{
    lemma_skip_blanks_bounds(s, from, false);
    let at = skip_blanks(s, from, false);
    lemma_partial_text_has_no_end(s.skip(at));
    lemma_skip_blanks_stable(s, more, from, complete);
    lemma_skip_of_longer(s, more, at);
    lemma_lex_stable(s.skip(at), more, complete);
}

/// An entry ends behind the place where its definition begins, within the
/// text.
pub proof fn lemma_read_definition_bounds(
    s: Seq<char>,
    from: int,
    id: u64,
    definition: Seq<char>,
    blank: bool,
    complete: bool,
)
    requires
        0 <= from <= s.len(),
    ensures
        read_definition(s, from, id, definition, blank, complete) matches Step::Entry { len, .. }
            ==> from < len <= s.len(),
        !(read_definition(s, from, id, definition, blank, complete) is Moved),
        !(read_definition(s, from, id, definition, blank, complete) is Finished),
    decreases s.len() - from,
{
    lemma_token_len(s.skip(from), complete);
    match lex(s.skip(from), complete) {
        Lexed::Token { token, len } => {
            if token is Sem {
            } else if is_blank(token) {
                lemma_read_definition_bounds(
                    s,
                    from + len,
                    id,
                    definition + blank_piece(blank),
                    true,
                    complete,
                );
            } else {
                match piece(token) {
                    Some(text) => {
                        lemma_read_definition_bounds(
                            s,
                            from + len,
                            id,
                            definition + text,
                            false,
                            complete,
                        );
                    },
                    None => {},
                }
            }
        },
        _ => {},
    }
}

/// An entry that is read in full stays what it is when more text arrives.
pub proof fn lemma_read_definition_stable(
    s: Seq<char>,
    more: Seq<char>,
    from: int,
    id: u64,
    definition: Seq<char>,
    blank: bool,
    complete: bool,
)
    requires
        0 <= from <= s.len(),
        !(read_definition(s, from, id, definition, blank, false) is NeedMore),
    ensures
        read_definition(s + more, from, id, definition, blank, complete) == read_definition(
            s,
            from,
            id,
            definition,
            blank,
            false,
        ),
    decreases s.len() - from,
{
    lemma_skip_of_longer(s, more, from);
    lemma_token_len(s.skip(from), false);
    lemma_partial_text_has_no_end(s.skip(from));
    lemma_lex_stable(s.skip(from), more, complete);
    match lex(s.skip(from), false) {
        Lexed::Token { token, len } => {
            if token is Sem {
            } else if is_blank(token) {
                lemma_read_definition_stable(
                    s,
                    more,
                    from + len,
                    id,
                    definition + blank_piece(blank),
                    true,
                    complete,
                );
            } else {
                match piece(token) {
                    Some(text) => {
                        lemma_read_definition_stable(
                            s,
                            more,
                            from + len,
                            id,
                            definition + text,
                            false,
                            complete,
                        );
                    },
                    None => {},
                }
            }
        },
        _ => {},
    }
}

/// A step passes over no more than the text holds, and a step that finds a
/// part of the file without entry passes over at least one character.
pub proof fn lemma_step_bounds(state: ReaderState, s: Seq<char>, complete: bool)
    ensures
        0 <= step_len(step(state, s, complete)) <= s.len(),
        step(state, s, complete) is Moved ==> 1 <= step_len(step(state, s, complete)),
        step(state, s, complete) is Entry ==> 1 <= step_len(step(state, s, complete)),
{
    assert(s.skip(0) =~= s);
    match state {
        ReaderState::Start => {
            lemma_expect_bounds(s, 0, complete, TokenView::StartTag);
            match expect(s, 0, complete, TokenView::StartTag) {
                Expected::At(tag) => {
                    lemma_expect_bounds(s, tag, complete, TokenView::Sem);
                },
                _ => {},
            }
        },
        ReaderState::SeekData => {
            lemma_token_len(s, complete);
            match lex(s, complete) {
                Lexed::Token { token, len } => {
                    if token is Data {
                        lemma_expect_bounds(s, len, complete, TokenView::Sem);
                    }
                },
                _ => {},
            }
        },
        ReaderState::Body => {
            lemma_skip_blanks_bounds(s, 0, complete);
            let at = skip_blanks(s, 0, complete);
            lemma_token_len(s.skip(at), complete);
            match lex(s.skip(at), complete) {
                Lexed::Token { token, len } => {
                    match token {
                        TokenView::Endsec => {
                            lemma_expect_bounds(s, at + len, complete, TokenView::Sem);
                        },
                        TokenView::Reference(id) => {
                            lemma_expect_bounds(s, at + len, complete, TokenView::Eq);
                            match expect(s, at + len, complete, TokenView::Eq) {
                                Expected::At(begin) => {
                                    lemma_read_definition_bounds(
                                        s,
                                        begin,
                                        id,
                                        seq![],
                                        false,
                                        complete,
                                    );
                                },
                                _ => {},
                            }
                        },
                        _ => {},
                    }
                },
                _ => {},
            }
        },
        ReaderState::Done => {},
    }
}

/// What a step finds stays what it is when more text arrives, unless the
/// step needs more text.
pub proof fn lemma_step_stable(state: ReaderState, s: Seq<char>, more: Seq<char>, complete: bool)
    requires
        !(step(state, s, false) is NeedMore),
    ensures
        step(state, s + more, complete) == step(state, s, false),
{
    let t = s + more;
    assert(s.skip(0) =~= s);
    assert(t.skip(0) =~= t);
    match state {
        ReaderState::Start => {
            lemma_expect_bounds(s, 0, false, TokenView::StartTag);
            lemma_expect_stable(s, more, 0, complete, TokenView::StartTag);
            match expect(s, 0, false, TokenView::StartTag) {
                Expected::At(tag) => {
                    lemma_expect_stable(s, more, tag, complete, TokenView::Sem);
                },
                _ => {},
            }
        },
        ReaderState::SeekData => {
            lemma_token_len(s, false);
            lemma_partial_text_has_no_end(s);
            lemma_lex_stable(s, more, complete);
            match lex(s, false) {
                Lexed::Token { token, len } => {
                    if token is Data {
                        lemma_expect_stable(s, more, len, complete, TokenView::Sem);
                    }
                },
                _ => {},
            }
        },
        ReaderState::Body => {
            lemma_skip_blanks_bounds(s, 0, false);
            let at = skip_blanks(s, 0, false);
            lemma_partial_text_has_no_end(s.skip(at));
            lemma_skip_blanks_stable(s, more, 0, complete);
            lemma_skip_of_longer(s, more, at);
            lemma_token_len(s.skip(at), false);
            lemma_lex_stable(s.skip(at), more, complete);
            match lex(s.skip(at), false) {
                Lexed::Token { token, len } => {
                    match token {
                        TokenView::Endsec => {
                            lemma_expect_stable(s, more, at + len, complete, TokenView::Sem);
                        },
                        TokenView::Reference(id) => {
                            lemma_expect_bounds(s, at + len, false, TokenView::Eq);
                            lemma_expect_stable(s, more, at + len, complete, TokenView::Eq);
                            match expect(s, at + len, false, TokenView::Eq) {
                                Expected::At(begin) => {
                                    lemma_read_definition_stable(
                                        s,
                                        more,
                                        begin,
                                        id,
                                        seq![],
                                        false,
                                        complete,
                                    );
                                },
                                _ => {},
                            }
                        },
                        _ => {},
                    }
                },
                _ => {},
            }
        },
        ReaderState::Done => {},
    }
}

/// The reader goes on within the text, and stops with something other than
/// a part of the file without entry.
pub proof fn lemma_drive_bounds(state: ReaderState, s: Seq<char>, from: int, complete: bool)
    requires
        0 <= from <= s.len(),
    ensures
        from <= drive(state, s, from, complete).from <= s.len(),
        drive(state, s, from, complete).from + step_len(drive(state, s, from, complete).step)
            <= s.len(),
        0 <= step_len(drive(state, s, from, complete).step),
        !(drive(state, s, from, complete).step is Moved),
        drive(state, s, from, complete).step == step(
            drive(state, s, from, complete).state,
            s.skip(drive(state, s, from, complete).from),
            complete,
        ) || drive(state, s, from, complete).step is NeedMore,
    decreases s.len() - from,
{
    lemma_step_bounds(state, s.skip(from), complete);
    match step(state, s.skip(from), complete) {
        Step::Moved { state: next, len } => {
            lemma_drive_bounds(next, s, from + len, complete);
        },
        _ => {},
    }
}

/// Streaming: what the reader finds does not depend on where its text is
/// cut. Where the reader finds an entry, the end of the data section or an
/// error in a text that may go on, it finds the same in every text that
/// begins with that text. Where it needs more text, it has come to a state
/// and a place from which it finds, in a longer text, what it would have
/// found in that text from the beginning.
pub proof fn lemma_drive_stable(
    state: ReaderState,
    s: Seq<char>,
    more: Seq<char>,
    from: int,
    complete: bool,
)
    requires
        0 <= from <= s.len(),
    ensures
        !(drive(state, s, from, false).step is NeedMore) ==> drive(state, s + more, from, complete)
            == drive(state, s, from, false),
        drive(state, s, from, false).step is NeedMore ==> drive(state, s + more, from, complete)
            == drive(
            drive(state, s, from, false).state,
            s + more,
            drive(state, s, from, false).from,
            complete,
        ),
    decreases s.len() - from,
{
    lemma_skip_of_longer(s, more, from);
    lemma_step_bounds(state, s.skip(from), false);
    match step(state, s.skip(from), false) {
        Step::Moved { state: next, len } => {
            lemma_step_stable(state, s.skip(from), more, complete);
            lemma_drive_stable(next, s, more, from + len, complete);
        },
        Step::NeedMore => {},
        _ => {
            lemma_step_stable(state, s.skip(from), more, complete);
        },
    }
}

/// A reader whose text is all there is never needs more text.
pub proof fn lemma_complete_reader_is_decided(state: ReaderState, s: Seq<char>, from: int)
    requires
        0 <= from <= s.len(),
    ensures
        !(drive(state, s, from, true).step is NeedMore),
    decreases s.len() - from,
{
    lemma_step_bounds(state, s.skip(from), true);
    lemma_complete_step_is_decided(state, s.skip(from));
    match step(state, s.skip(from), true) {
        Step::Moved { state: next, len } => {
            lemma_complete_reader_is_decided(next, s, from + len);
        },
        _ => {},
    }
}

/// A step over a text that is all there is never needs more text.
pub proof fn lemma_complete_step_is_decided(state: ReaderState, s: Seq<char>)
    ensures
        !(step(state, s, true) is NeedMore),
{
    assert(s.skip(0) =~= s);
    match state {
        ReaderState::Start => {
            lemma_complete_expect_is_decided(s, 0, TokenView::StartTag);
            lemma_expect_bounds(s, 0, true, TokenView::StartTag);
            match expect(s, 0, true, TokenView::StartTag) {
                Expected::At(tag) => {
                    lemma_complete_expect_is_decided(s, tag, TokenView::Sem);
                },
                _ => {},
            }
        },
        ReaderState::SeekData => {
            lemma_complete_text_is_decided(s);
            lemma_token_len(s, true);
            match lex(s, true) {
                Lexed::Token { token, len } => {
                    if token is Data {
                        lemma_complete_expect_is_decided(s, len, TokenView::Sem);
                    }
                },
                _ => {},
            }
        },
        ReaderState::Body => {
            lemma_skip_blanks_bounds(s, 0, true);
            let at = skip_blanks(s, 0, true);
            lemma_complete_text_is_decided(s.skip(at));
            lemma_token_len(s.skip(at), true);
            match lex(s.skip(at), true) {
                Lexed::Token { token, len } => {
                    match token {
                        TokenView::Endsec => {
                            lemma_complete_expect_is_decided(s, at + len, TokenView::Sem);
                        },
                        TokenView::Reference(id) => {
                            lemma_complete_expect_is_decided(s, at + len, TokenView::Eq);
                            lemma_expect_bounds(s, at + len, true, TokenView::Eq);
                            match expect(s, at + len, true, TokenView::Eq) {
                                Expected::At(begin) => {
                                    lemma_complete_definition_is_decided(
                                        s,
                                        begin,
                                        id,
                                        seq![],
                                        false,
                                    );
                                },
                                _ => {},
                            }
                        },
                        _ => {},
                    }
                },
                _ => {},
            }
        },
        ReaderState::Done => {},
    }
}

/// What is found where a token is expected in a text that is all there is
/// never needs more text.
pub proof fn lemma_complete_expect_is_decided(s: Seq<char>, from: int, wanted: TokenView)
    requires
        0 <= from <= s.len(),
    ensures
        !(expect(s, from, true, wanted) is NeedMore),
{
    lemma_complete_text_is_decided(s.skip(skip_blanks(s, from, true)));
}

/// The definition of an entry in a text that is all there is never needs
/// more text.
pub proof fn lemma_complete_definition_is_decided(
    s: Seq<char>,
    from: int,
    id: u64,
    definition: Seq<char>,
    blank: bool,
)
    requires
        0 <= from <= s.len(),
    ensures
        !(read_definition(s, from, id, definition, blank, true) is NeedMore),
    decreases s.len() - from,
{
    lemma_complete_text_is_decided(s.skip(from));
    lemma_token_len(s.skip(from), true);
    match lex(s.skip(from), true) {
        Lexed::Token { token, len } => {
            if token is Sem {
            } else if is_blank(token) {
                lemma_complete_definition_is_decided(
                    s,
                    from + len,
                    id,
                    definition + blank_piece(blank),
                    true,
                );
            } else {
                match piece(token) {
                    Some(text) => {
                        lemma_complete_definition_is_decided(
                            s,
                            from + len,
                            id,
                            definition + text,
                            false,
                        );
                    },
                    None => {},
                }
            }
        },
        _ => {},
    }
}

/// What the reader finds from a place on is what it finds in the text from
/// that place on.
pub proof fn lemma_drive_shift(
    state: ReaderState,
    s: Seq<char>,
    from: int,
    offset: int,
    complete: bool,
)
    requires
        0 <= from,
        0 <= offset,
        from + offset <= s.len(),
    ensures
        drive(state, s, from + offset, complete) == (Driven {
            from: from + drive(state, s.skip(from), offset, complete).from,
            ..drive(state, s.skip(from), offset, complete)
        }),
    decreases s.len() - from - offset,
{
    assert(s.skip(from).skip(offset) =~= s.skip(from + offset));
    lemma_step_bounds(state, s.skip(from + offset), complete);
    match step(state, s.skip(from + offset), complete) {
        Step::Moved { state: next, len } => {
            lemma_drive_shift(next, s, from, offset + len, complete);
        },
        _ => {},
    }
}

/// Where the reader has stopped, it stops again.
pub proof fn lemma_drive_again(state: ReaderState, s: Seq<char>, from: int, complete: bool)
    requires
        0 <= from <= s.len(),
    ensures
        drive(
            drive(state, s, from, complete).state,
            s,
            drive(state, s, from, complete).from,
            complete,
        ) == drive(state, s, from, complete),
    decreases s.len() - from,
{
    lemma_step_bounds(state, s.skip(from), complete);
    match step(state, s.skip(from), complete) {
        Step::Moved { state: next, len } => {
            lemma_drive_again(next, s, from + len, complete);
        },
        _ => {},
    }
}

/// Where the reader needs more text, it goes on, when the text has arrived,
/// from the state and the place that it has come to.
pub proof fn lemma_drive_resumes(
    state: ReaderState,
    s: Seq<char>,
    more: Seq<char>,
    complete: bool,
)
    requires
        drive(state, s, 0, false).step is NeedMore,
    ensures
        0 <= drive(state, s, 0, false).from <= s.len(),
        drive(state, s + more, 0, complete) == (Driven {
            from: drive(state, s, 0, false).from + drive(
                drive(state, s, 0, false).state,
                (s + more).skip(drive(state, s, 0, false).from),
                0,
                complete,
            ).from,
            ..drive(
                drive(state, s, 0, false).state,
                (s + more).skip(drive(state, s, 0, false).from),
                0,
                complete,
            )
        }),
{
    let d = drive(state, s, 0, false);
    lemma_drive_bounds(state, s, 0, false);
    lemma_drive_stable(state, s, more, 0, complete);
    lemma_drive_shift(d.state, s + more, d.from, 0, complete);
}

/// Before the data section the reader finds no entry and no end of the
/// data section.
pub proof fn lemma_step_before_data(state: ReaderState, s: Seq<char>, complete: bool)
    requires
        state is Start || state is SeekData,
    ensures
        !(step(state, s, complete) is Entry),
        !(step(state, s, complete) is Finished),
{
}

/// The search for the data section does not depend on where the text is
/// cut.
pub proof fn lemma_seek_stable(
    state: ReaderState,
    s: Seq<char>,
    more: Seq<char>,
    from: int,
    complete: bool,
)
    requires
        0 <= from <= s.len(),
    ensures
        seek(state, s, from, false).stopped != Some(Step::NeedMore) ==> seek(
            state,
            s + more,
            from,
            complete,
        ) == seek(state, s, from, false),
        seek(state, s, from, false).stopped == Some(Step::NeedMore) ==> seek(
            state,
            s + more,
            from,
            complete,
        ) == seek(seek(state, s, from, false).state, s + more, seek(state, s, from, false).from, complete),
    decreases s.len() - from,
{
    if state is Start || state is SeekData {
        lemma_skip_of_longer(s, more, from);
        lemma_step_bounds(state, s.skip(from), false);
        match step(state, s.skip(from), false) {
            Step::Moved { state: next, len } => {
                lemma_step_stable(state, s.skip(from), more, complete);
                lemma_seek_stable(next, s, more, from + len, complete);
            },
            Step::NeedMore => {},
            _ => {
                lemma_step_stable(state, s.skip(from), more, complete);
            },
        }
    }
}

/// The search for the data section from a place on is the search in the
/// text from that place on.
pub proof fn lemma_seek_shift(
    state: ReaderState,
    s: Seq<char>,
    from: int,
    offset: int,
    complete: bool,
)
    requires
        0 <= from,
        0 <= offset,
        from + offset <= s.len(),
    ensures
        seek(state, s, from + offset, complete) == (Sought {
            from: from + seek(state, s.skip(from), offset, complete).from,
            ..seek(state, s.skip(from), offset, complete)
        }),
    decreases s.len() - from - offset,
{
    if state is Start || state is SeekData {
        assert(s.skip(from).skip(offset) =~= s.skip(from + offset));
        lemma_step_bounds(state, s.skip(from + offset), complete);
        match step(state, s.skip(from + offset), complete) {
            Step::Moved { state: next, len } => {
                lemma_seek_shift(next, s, from, offset + len, complete);
            },
            _ => {},
        }
    }
}

/// The definition of an entry from a place on is the definition in the text
/// from an earlier place on.
pub proof fn lemma_read_definition_shift(
    s: Seq<char>,
    from: int,
    offset: int,
    id: u64,
    definition: Seq<char>,
    blank: bool,
    complete: bool,
)
    requires
        0 <= from,
        0 <= offset,
        from + offset <= s.len(),
    ensures
        match read_definition(s.skip(from), offset, id, definition, blank, complete) {
            Step::Entry { id: found, definition: text, len } => read_definition(
                s,
                from + offset,
                id,
                definition,
                blank,
                complete,
            ) == (Step::Entry { id: found, definition: text, len: from + len }),
            other => read_definition(s, from + offset, id, definition, blank, complete) == other,
        },
    decreases s.len() - from - offset,
{
    assert(s.skip(from).skip(offset) =~= s.skip(from + offset));
    lemma_token_len(s.skip(from + offset), complete);
    match lex(s.skip(from + offset), complete) {
        Lexed::Token { token, len } => {
            if !(token is Sem) {
                if is_blank(token) {
                    lemma_read_definition_shift(
                        s,
                        from,
                        offset + len,
                        id,
                        definition + blank_piece(blank),
                        true,
                        complete,
                    );
                } else {
                    match piece(token) {
                        Some(text) => {
                            lemma_read_definition_shift(
                                s,
                                from,
                                offset + len,
                                id,
                                definition + text,
                                false,
                                complete,
                            );
                        },
                        None => {},
                    }
                }
            }
        },
        _ => {},
    }
}

/// A text that begins with a character of a definition token begins with
/// no whitespace and no comment.
pub proof fn lemma_text_is_not_blank(s: Seq<char>, complete: bool)
    requires
        s.len() > 0,
        is_definition_char(s[0]),
    ensures
        lex(s, complete) matches Lexed::Token { token, .. } ==> !is_blank(token),
{
    reveal(lex);
}

} // verus!
