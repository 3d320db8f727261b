//! The entry reader: it takes the bytes of a STEP file in as they arrive
//! and hands out the entries of the data section, one after the other.
//!
//! A file begins with `ISO-10303-21;`. What follows is passed over up to
//! `DATA;`. Then come the entries `#id = definition;`, and `ENDSEC;` ends
//! them. Whitespace and comments may stand between the tokens. In the
//! definition of an entry each run of whitespace and comments becomes one
//! space; all other tokens are kept as they are written.

use vstd::prelude::*;
use vstd::string::*;
use crate::buffered_reader::{BufferView, BufferedReader};
use crate::entry::{EntryView, StepEntry};
use crate::error::Error;
use crate::lexer::{
    lemma_token_len,
    lex,
    taken,
    token_text,
    LexError,
    Lexed,
    Token,
    TokenView,
    Tokenizer,
};
use crate::utf8::encoded_len;

verus! {

/// Where the reader stands in the file.
#[derive(Clone, Copy, Debug, PartialEq, Eq)]
pub enum ReaderState {
    /// Before the tag `ISO-10303-21`.
    Start,
    /// Behind the tag, before the data section.
    SeekData,
    /// In the data section.
    Body,
    /// Behind the data section.
    Done,
}

/// Why text is not what the reader expects.
pub enum ReadError {
    /// Text that is no token.
    Lex(LexError),
    /// The text ends inside an element.
    EndOfInput,
    /// The text ends before a data section begins.
    NoDataSection,
    /// A token other than the expected one.
    UnexpectedToken { expected: Seq<char>, got: Seq<char> },
    /// The input ends with bytes that are no text.
    Utf8,
    /// An element of the file is greater than the greatest buffer.
    TooLong,
}

/// Whether `e` is the error of the crate that stands for `error`.
pub open spec fn reports(error: ReadError, e: Error) -> bool {
    match error {
        ReadError::Lex(LexError::ParsingToken) => e is ParsingTokenError,
        ReadError::Lex(LexError::InvalidNumber) => e is InvalidNumber,
        ReadError::EndOfInput => e is EndOfInput,
        ReadError::NoDataSection => e is NoDataSection,
        ReadError::UnexpectedToken { expected, got } => e matches Error::UnexpectedToken(x, g)
            && x@ == expected && g@ == got,
        ReadError::Utf8 => e is UTF8,
        ReadError::TooLong => e is IO,
    }
}

/// Whether the token separates others: whitespace or a comment.
pub open spec fn is_blank(token: TokenView) -> bool {
    token is Whitespace || token is Comments
}

/// The position behind the whitespace and the comments that begin at
/// `from`.
pub open spec fn skip_blanks(s: Seq<char>, from: int, complete: bool) -> int
    decreases s.len() - from,
{
    match lex(s.skip(from), complete) {
        Lexed::Token { token, len } => if is_blank(token) && 1 <= len && 0 <= from && from + len
            <= s.len() {
            skip_blanks(s, from + len, complete)
        } else {
            from
        },
        _ => from,
    }
}

/// What is found where a certain token is expected.
pub enum Expected {
    /// The token, which ends at the given position.
    At(int),
    /// The beginning of a token that may go on in text that has not arrived.
    NeedMore,
    /// Something else.
    Failed(ReadError),
}

/// What is found at `from`, behind whitespace and comments, where the token
/// `wanted` is expected.
pub open spec fn expect(s: Seq<char>, from: int, complete: bool, wanted: TokenView) -> Expected {
    let at = skip_blanks(s, from, complete);
    match lex(s.skip(at), complete) {
        Lexed::Token { token, len } => if token == wanted {
            Expected::At(at + len)
        } else {
            Expected::Failed(
                ReadError::UnexpectedToken {
                    expected: token_text(wanted),
                    got: token_text(token),
                },
            )
        },
        Lexed::NeedMore => Expected::NeedMore,
        Lexed::Failed(e) => Expected::Failed(ReadError::Lex(e)),
        Lexed::End => Expected::Failed(ReadError::EndOfInput),
    }
}

/// What a token that is neither whitespace nor a comment adds to the
/// definition that it stands in: its own text for a definition, a string, a
/// reference and `=`. A keyword adds nothing: it does not stand in a
/// definition.
pub open spec fn piece(token: TokenView) -> Option<Seq<char>> {
    match token {
        TokenView::Definition(_) => Some(token_text(token)),
        TokenView::String(_) => Some(token_text(token)),
        TokenView::Reference(_) => Some(token_text(token)),
        TokenView::Eq => Some(token_text(token)),
        _ => None,
    }
}

/// What whitespace or a comment adds to a definition: one space, unless the
/// definition ends with the space of whitespace or of a comment already.
pub open spec fn blank_piece(blank: bool) -> Seq<char> {
    if blank {
        seq![]
    } else {
        " "@
    }
}

/// What one step of the reader finds.
pub enum Step {
    /// An entry, which ends at the given position.
    Entry { id: u64, definition: Seq<char>, len: int },
    /// A part of the file that holds no entry: the reader goes on in the
    /// given state at the given position.
    Moved { state: ReaderState, len: int },
    /// The end of the data section, at the given position.
    Finished { len: int },
    /// The beginning of an element that may go on in text that has not
    /// arrived.
    NeedMore,
    /// Text that is not what the reader expects.
    Failed(ReadError),
}

/// What stands for what is found where a token is expected, where the token
/// is not found.
pub open spec fn not_found(expected: Expected) -> Step {
    match expected {
        Expected::Failed(e) => Step::Failed(e),
        _ => Step::NeedMore,
    }
}

/// The entry with the id `id` whose definition begins with `definition` and
/// goes on at `from`, up to the `;` that ends it. `blank` tells whether the
/// definition ends with the space of whitespace or of a comment.
pub open spec fn read_definition(
    s: Seq<char>,
    from: int,
    id: u64,
    definition: Seq<char>,
    blank: bool,
    complete: bool,
) -> Step
    decreases s.len() - from,
{
    match lex(s.skip(from), complete) {
        Lexed::Token { token, len } => if token is Sem {
            Step::Entry { id, definition, len: from + len }
        } else if !(1 <= len && 0 <= from && from + len <= s.len()) {
            Step::NeedMore
        } else if is_blank(token) {
            read_definition(s, from + len, id, definition + blank_piece(blank), true, complete)
        } else {
            match piece(token) {
                Some(text) => read_definition(
                    s,
                    from + len,
                    id,
                    definition + text,
                    false,
                    complete,
                ),
                None => Step::Failed(
                    ReadError::UnexpectedToken { expected: ";"@, got: token_text(token) },
                ),
            }
        },
        Lexed::NeedMore => Step::NeedMore,
        Lexed::Failed(e) => Step::Failed(ReadError::Lex(e)),
        Lexed::End => Step::Failed(ReadError::EndOfInput),
    }
}

/// The step of a reader before the tag: the tag and the `;` behind it.
pub open spec fn step_start(s: Seq<char>, complete: bool) -> Step {
    match expect(s, 0, complete, TokenView::StartTag) {
        Expected::At(tag) => match expect(s, tag, complete, TokenView::Sem) {
            Expected::At(end) => Step::Moved { state: ReaderState::SeekData, len: end },
            other => not_found(other),
        },
        other => not_found(other),
    }
}

/// The step of a reader that seeks the data section: `DATA` and the `;`
/// behind it begin the data section; any other token is passed over.
pub open spec fn step_seek(s: Seq<char>, complete: bool) -> Step {
    match lex(s, complete) {
        Lexed::Token { token, len } => if token is Data {
            match expect(s, len, complete, TokenView::Sem) {
                Expected::At(end) => Step::Moved { state: ReaderState::Body, len: end },
                other => not_found(other),
            }
        } else {
            Step::Moved { state: ReaderState::SeekData, len }
        },
        Lexed::NeedMore => Step::NeedMore,
        Lexed::Failed(e) => Step::Failed(ReadError::Lex(e)),
        Lexed::End => Step::Failed(ReadError::NoDataSection),
    }
}

/// The step of a reader in the data section: `ENDSEC` and the `;` behind it
/// end the section; a reference, `=`, and the tokens up to the next `;` are
/// an entry.
pub open spec fn step_body(s: Seq<char>, complete: bool) -> Step {
    let at = skip_blanks(s, 0, complete);
    match lex(s.skip(at), complete) {
        Lexed::Token { token, len } => match token {
            TokenView::Endsec => match expect(s, at + len, complete, TokenView::Sem) {
                Expected::At(end) => Step::Finished { len: end },
                other => not_found(other),
            },
            TokenView::Reference(id) => match expect(s, at + len, complete, TokenView::Eq) {
                Expected::At(begin) => read_definition(s, begin, id, seq![], false, complete),
                other => not_found(other),
            },
            _ => Step::Failed(
                ReadError::UnexpectedToken { expected: "#"@, got: token_text(token) },
            ),
        },
        Lexed::NeedMore => Step::NeedMore,
        Lexed::Failed(e) => Step::Failed(ReadError::Lex(e)),
        Lexed::End => Step::Failed(ReadError::EndOfInput),
    }
}

/// The step of a reader in the given state over the text `s`.
pub open spec fn step(state: ReaderState, s: Seq<char>, complete: bool) -> Step {
    match state {
        ReaderState::Start => step_start(s, complete),
        ReaderState::SeekData => step_seek(s, complete),
        ReaderState::Body => step_body(s, complete),
        ReaderState::Done => Step::Finished { len: 0 },
    }
}

/// What a reader finds that goes on until it has something to hand out.
pub struct Driven {
    /// The last step: an entry, the end of the data section, the need for
    /// more text, or a failure.
    pub step: Step,
    /// The state in which the last step was taken.
    pub state: ReaderState,
    /// The position at which the last step was taken.
    pub from: int,
}

/// The steps of a reader in the given state over the text `s` from `from`
/// on, up to the first step that finds more than a part of the file without
/// entry.
pub open spec fn drive(state: ReaderState, s: Seq<char>, from: int, complete: bool) -> Driven
    decreases s.len() - from,
{
    match step(state, s.skip(from), complete) {
        Step::Moved { state: next, len } => if 1 <= len && 0 <= from && from + len <= s.len() {
            drive(next, s, from + len, complete)
        } else {
            Driven { step: Step::NeedMore, state, from }
        },
        found => Driven { step: found, state, from },
    }
}

/// What a reader finds that seeks the data section.
pub struct Sought {
    /// The state in which the reader stops: in the data section, or where it
    /// cannot go on.
    pub state: ReaderState,
    /// The position at which the reader stops.
    pub from: int,
    /// Why the reader did not reach the data section: it needs more text,
    /// or the text is not what it expects. Nothing where it has reached the
    /// data section.
    pub stopped: Option<Step>,
}

/// The steps of a reader in the given state over the text `s` from `from`
/// on, up to the beginning of the data section.
pub open spec fn seek(state: ReaderState, s: Seq<char>, from: int, complete: bool) -> Sought
    decreases s.len() - from,
{
    if !(state is Start || state is SeekData) {
        Sought { state, from, stopped: None }
    } else {
        match step(state, s.skip(from), complete) {
            Step::Moved { state: next, len } => if 1 <= len && 0 <= from && from + len <= s.len() {
                seek(next, s, from + len, complete)
            } else {
                Sought { state, from, stopped: Some(Step::NeedMore) }
            },
            found => Sought { state, from, stopped: Some(found) },
        }
    }
}

/// The state of a reader after a step that it took in the state `state`.
pub open spec fn state_after(found: Step, state: ReaderState) -> ReaderState {
    match found {
        Step::Moved { state: next, len } => next,
        Step::Finished { len } => ReaderState::Done,
        _ => state,
    }
}

/// The number of characters that a step passes over.
pub open spec fn step_len(found: Step) -> int {
    match found {
        Step::Entry { id, definition, len } => len,
        Step::Moved { state, len } => len,
        Step::Finished { len } => len,
        _ => 0,
    }
}

/// The number of characters of its text that a reader looks at first. Where
/// an element is longer, the reader looks at twice as many, and so on.
pub const WINDOW_START: usize = 1024;

/// What a reader hands out.
#[derive(Debug, PartialEq, Eq)]
pub enum ReadEvent {
    /// The next entry.
    Entry(StepEntry),
    /// The data section has ended.
    Finished,
    /// The text that has arrived ends inside an element: the reader needs
    /// more input, or the word that there is none.
    NeedInput,
}

/// Whether the result is what a reader hands out for the step `found`.
pub open spec fn hands_out(found: Step, result: Result<ReadEvent, Error>) -> bool {
    match found {
        Step::Entry { id, definition, len } => result matches Ok(ReadEvent::Entry(e)) && e@ == (
        EntryView { id, definition }),
        Step::Moved { state, len } => false,
        Step::Finished { len } => result matches Ok(ReadEvent::Finished),
        Step::NeedMore => result matches Ok(ReadEvent::NeedInput),
        Step::Failed(error) => result matches Err(e) && reports(error, e),
    }
}

/// The token that a reader expects at some place.
#[derive(Clone, Copy, Debug)]
enum Wanted {
    StartTag,
    Sem,
    Eq,
}

/// The token that is wanted.
spec fn wanted_token(wanted: Wanted) -> TokenView {
    match wanted {
        Wanted::StartTag => TokenView::StartTag,
        Wanted::Sem => TokenView::Sem,
        Wanted::Eq => TokenView::Eq,
    }
}

/// What one step of the reader does.
enum Progress {
    /// An entry was read.
    Entry(StepEntry),
    /// A part of the file without entry was passed over.
    Moved(ReaderState),
    /// The data section has ended.
    Finished,
    /// More text is needed.
    NeedInput,
}

/// Whether the result is what a step does for what it finds.
spec fn progress_of(found: Step, result: Result<Progress, Error>) -> bool {
    match found {
        Step::Entry { id, definition, len } => result matches Ok(Progress::Entry(e)) && e@ == (
        EntryView { id, definition }),
        Step::Moved { state, len } => result matches Ok(Progress::Moved(next)) && next == state,
        Step::Finished { len } => result matches Ok(Progress::Finished),
        Step::NeedMore => result matches Ok(Progress::NeedInput),
        Step::Failed(error) => result matches Err(e) && reports(error, e),
    }
}

/// The error for a token other than the expected one.
fn unexpected(expected: &str, got: &Token) -> (e: Error)
    ensures
        reports(ReadError::UnexpectedToken { expected: expected@, got: token_text(got@) }, e),
{
    Error::UnexpectedToken(expected.to_owned(), got.to_string())
}

/// Passes over whitespace and comments.
fn skip_blank_tokens(lexer: &mut Tokenizer)
    ensures
        final(lexer)@.text == old(lexer)@.text,
        final(lexer)@.complete == old(lexer)@.complete,
        final(lexer)@.position == skip_blanks(
            old(lexer)@.text,
            old(lexer)@.position as int,
            old(lexer)@.complete,
        ),
        final(lexer)@.position >= old(lexer)@.position,
{
    loop
        invariant
            lexer@.text == old(lexer)@.text,
            lexer@.complete == old(lexer)@.complete,
            lexer@.position >= old(lexer)@.position,
            skip_blanks(old(lexer)@.text, old(lexer)@.position as int, old(lexer)@.complete)
                == skip_blanks(lexer@.text, lexer@.position as int, lexer@.complete),
        decreases lexer@.text.len() - lexer@.position,
    {
        let left = lexer.remaining();
        proof {
            lemma_token_len(lexer@.rest(), lexer@.complete);
        }
        match lexer.peek() {
            Some(Ok(Token::Whitespace)) => {
                let _ = lexer.next();
            },
            Some(Ok(Token::Comments)) => {
                let _ = lexer.next();
            },
            _ => {
                return ;
            },
        }
    }
}

/// Reads the token `wanted`, behind whitespace and comments. The result
/// tells whether the token was read; where it was not, more text is needed.
fn expect_token(lexer: &mut Tokenizer, wanted: Wanted) -> (result: Result<bool, Error>)
    ensures
        final(lexer)@.text == old(lexer)@.text,
        final(lexer)@.complete == old(lexer)@.complete,
        match expect(
            old(lexer)@.text,
            old(lexer)@.position as int,
            old(lexer)@.complete,
            wanted_token(wanted),
        ) {
            Expected::At(end) => result == Ok::<bool, Error>(true) && final(lexer)@.position == end,
            Expected::NeedMore => result == Ok::<bool, Error>(false),
            Expected::Failed(error) => result matches Err(e) && reports(error, e),
        },
        result == Ok::<bool, Error>(true) ==> final(lexer)@.position > old(lexer)@.position,
{
    skip_blank_tokens(lexer);
    let left = lexer.remaining();
    proof {
        lemma_token_len(lexer@.rest(), lexer@.complete);
    }
    match lexer.next() {
        None => Err(Error::EndOfInput()),
        Some(Err(e)) => {
            match e {
                Error::EndOfInput() => Ok(false),
                other => Err(other),
            }
        },
        Some(Ok(token)) => {
            match (wanted, &token) {
                (Wanted::StartTag, Token::StartTag) => Ok(true),
                (Wanted::Sem, Token::Sem) => Ok(true),
                (Wanted::Eq, Token::Eq) => Ok(true),
                (Wanted::StartTag, _) => Err(unexpected("ISO-10303-21", &token)),
                (Wanted::Sem, _) => Err(unexpected(";", &token)),
                (Wanted::Eq, _) => Err(unexpected("=", &token)),
            }
        },
    }
}

/// What `found` stands for where the token was not read.
fn give_up(found: Result<bool, Error>) -> (result: Result<Progress, Error>)
    requires
        found != Ok::<bool, Error>(true),
    ensures
        match found {
            Ok(_) => result matches Ok(Progress::NeedInput),
            Err(e) => result == Err::<Progress, Error>(e),
        },
{
    match found {
        Ok(_) => Ok(Progress::NeedInput),
        Err(e) => Err(e),
    }
}

/// The step of a reader before the tag.
fn take_start(lexer: &mut Tokenizer) -> (result: Result<Progress, Error>)
    requires
        old(lexer)@.position == 0,
    ensures
        final(lexer)@.text == old(lexer)@.text,
        progress_of(step_start(old(lexer)@.text, old(lexer)@.complete), result),
        result is Ok && !(result matches Ok(Progress::NeedInput)) ==> final(lexer)@.position
            == step_len(step_start(old(lexer)@.text, old(lexer)@.complete)),
        result is Ok && !(result matches Ok(Progress::NeedInput)) ==> final(lexer)@.position >= 1,
{
    let tag = expect_token(lexer, Wanted::StartTag);
    match tag {
        Ok(true) => {},
        _ => {
            return give_up(tag);
        },
    }
    let end = expect_token(lexer, Wanted::Sem);
    match end {
        Ok(true) => Ok(Progress::Moved(ReaderState::SeekData)),
        _ => give_up(end),
    }
}

/// The step of a reader that seeks the data section.
fn take_seek(lexer: &mut Tokenizer) -> (result: Result<Progress, Error>)
    requires
        old(lexer)@.position == 0,
    ensures
        final(lexer)@.text == old(lexer)@.text,
        progress_of(step_seek(old(lexer)@.text, old(lexer)@.complete), result),
        result is Ok && !(result matches Ok(Progress::NeedInput)) ==> final(lexer)@.position
            == step_len(step_seek(old(lexer)@.text, old(lexer)@.complete)),
        result is Ok && !(result matches Ok(Progress::NeedInput)) ==> final(lexer)@.position >= 1,
{
    assert(lexer@.text.skip(0) =~= lexer@.text);
    let left = lexer.remaining();
    proof {
        lemma_token_len(lexer@.rest(), lexer@.complete);
    }
    match lexer.next() {
        None => Err(Error::NoDataSection()),
        Some(Err(e)) => {
            match e {
                Error::EndOfInput() => Ok(Progress::NeedInput),
                other => Err(other),
            }
        },
        Some(Ok(token)) => {
            match token {
                Token::Data => {
                    let end = expect_token(lexer, Wanted::Sem);
                    match end {
                        Ok(true) => Ok(Progress::Moved(ReaderState::Body)),
                        _ => give_up(end),
                    }
                },
                _ => Ok(Progress::Moved(ReaderState::SeekData)),
            }
        },
    }
}

/// Reads the definition of the entry with the id `id`, up to the `;` that
/// ends it.
fn take_definition(lexer: &mut Tokenizer, id: u64) -> (result: Result<Progress, Error>)
    ensures
        final(lexer)@.text == old(lexer)@.text,
        final(lexer)@.position >= old(lexer)@.position,
        progress_of(
            read_definition(
                old(lexer)@.text,
                old(lexer)@.position as int,
                id,
                seq![],
                false,
                old(lexer)@.complete,
            ),
            result,
        ),
        result is Ok && !(result matches Ok(Progress::NeedInput)) ==> final(lexer)@.position
            == step_len(
            read_definition(
                old(lexer)@.text,
                old(lexer)@.position as int,
                id,
                seq![],
                false,
                old(lexer)@.complete,
            ),
        ),
{
    let mut definition = String::new();
    let mut blank = false;
    let ghost text = lexer@.text;
    let ghost complete = lexer@.complete;
    let ghost goal = read_definition(text, lexer@.position as int, id, seq![], false, complete);
    loop
        invariant
            text == old(lexer)@.text,
            complete == old(lexer)@.complete,
            goal == read_definition(
                text,
                old(lexer)@.position as int,
                id,
                seq![],
                false,
                complete,
            ),
            lexer@.text == text,
            lexer@.complete == complete,
            lexer@.position >= old(lexer)@.position,
            goal == read_definition(
                text,
                lexer@.position as int,
                id,
                definition@,
                blank,
                complete,
            ),
        decreases text.len() - lexer@.position,
    {
        let left = lexer.remaining();
        proof {
            lemma_token_len(lexer@.rest(), lexer@.complete);
        }
        match lexer.next() {
            None => {
                return Err(Error::EndOfInput());
            },
            Some(Err(e)) => {
                match e {
                    Error::EndOfInput() => {
                        return Ok(Progress::NeedInput);
                    },
                    other => {
                        return Err(other);
                    },
                }
            },
            Some(Ok(token)) => {
                match &token {
                    Token::Sem => {
                        return Ok(Progress::Entry(StepEntry::new(id, definition.as_str())));
                    },
                    Token::Whitespace => {
                        if !blank {
                            definition.append(" ");
                        }
                        assert(definition@ =~= definition@ + Seq::<char>::empty());
                        blank = true;
                    },
                    Token::Comments => {
                        if !blank {
                            definition.append(" ");
                        }
                        assert(definition@ =~= definition@ + Seq::<char>::empty());
                        blank = true;
                    },
                    Token::Definition(_) => {
                        let text = token.to_string();
                        definition.append(text.as_str());
                        blank = false;
                    },
                    Token::String(_) => {
                        let text = token.to_string();
                        definition.append(text.as_str());
                        blank = false;
                    },
                    Token::Reference(_) => {
                        let text = token.to_string();
                        definition.append(text.as_str());
                        blank = false;
                    },
                    Token::Eq => {
                        let text = token.to_string();
                        definition.append(text.as_str());
                        blank = false;
                    },
                    _ => {
                        return Err(unexpected(";", &token));
                    },
                }
            },
        }
    }
}

/// The step of a reader in the data section.
fn take_body(lexer: &mut Tokenizer) -> (result: Result<Progress, Error>)
    requires
        old(lexer)@.position == 0,
    ensures
        final(lexer)@.text == old(lexer)@.text,
        progress_of(step_body(old(lexer)@.text, old(lexer)@.complete), result),
        result is Ok && !(result matches Ok(Progress::NeedInput)) ==> final(lexer)@.position
            == step_len(step_body(old(lexer)@.text, old(lexer)@.complete)),
        result is Ok && !(result matches Ok(Progress::NeedInput)) ==> final(lexer)@.position >= 1,
{
    skip_blank_tokens(lexer);
    let left = lexer.remaining();
    proof {
        lemma_token_len(lexer@.rest(), lexer@.complete);
    }
    match lexer.next() {
        None => Err(Error::EndOfInput()),
        Some(Err(e)) => {
            match e {
                Error::EndOfInput() => Ok(Progress::NeedInput),
                other => Err(other),
            }
        },
        Some(Ok(token)) => {
            match token {
                Token::Endsec => {
                    let end = expect_token(lexer, Wanted::Sem);
                    match end {
                        Ok(true) => Ok(Progress::Finished),
                        _ => give_up(end),
                    }
                },
                Token::Reference(id) => {
                    let begin = expect_token(lexer, Wanted::Eq);
                    match begin {
                        Ok(true) => take_definition(lexer, id),
                        _ => give_up(begin),
                    }
                },
                _ => Err(unexpected("#", &token)),
            }
        },
    }
}

/// What an entry reader is to a reader of the crate.
pub struct ReaderView {
    /// Where the reader stands in the file.
    pub state: ReaderState,
    /// Whether the input has ended.
    pub complete: bool,
    /// The bytes that were taken in and not read yet.
    pub buffer: BufferView,
}

impl ReaderView {
    /// The text that was taken in and not read yet.
    pub open spec fn text(self) -> Seq<char> {
        self.buffer.text()
    }

    /// What the reader finds in the text that it holds.
    pub open spec fn found(self) -> Driven {
        drive(self.state, self.text(), 0, self.complete)
    }
}

/// The entry reader. It is fed with the bytes of the file as they arrive and
/// hands out the entries of the data section.
pub struct STEPReader {
    /// The buffer of the bytes that were taken in.
    reader: BufferedReader,
    /// Where the reader stands in the file.
    state: ReaderState,
    /// Whether the input has ended.
    complete: bool,
}

impl View for STEPReader {
    type V = ReaderView;

    closed spec fn view(&self) -> ReaderView {
        ReaderView { state: self.state, complete: self.complete, buffer: self.reader@ }
    }
}

impl STEPReader {
    /// A reader before the beginning of a file, with an empty buffer.
    pub fn new() -> (reader: Self)
        ensures
            reader@.state == ReaderState::Start,
            !reader@.complete,
            reader@.buffer.data.len() == 0,
            reader@.buffer.space == crate::buffered_reader::BUFFER_SIZE_START,
    {
        STEPReader { reader: BufferedReader::new(), state: ReaderState::Start, complete: false }
    }

    /// Where the reader stands in the file.
    pub fn state(&self) -> (state: ReaderState)
        ensures
            state == self@.state,
    {
        self.state
    }

    /// Whether the reader was told that the input has ended.
    pub fn is_complete(&self) -> (complete: bool)
        ensures
            complete == self@.complete,
    {
        self.complete
    }

    /// The number of bytes behind the text that the reader holds.
    pub fn held_back(&self) -> (count: usize)
        ensures
            count == self@.buffer.held_back().len(),
    {
        self.reader.held_back()
    }

    /// The number of bytes that `fill` takes.
    pub fn space(&self) -> (space: usize)
        ensures
            space == self@.buffer.space,
    {
        self.reader.space()
    }

    /// Makes room for more input, as `BufferedReader::make_room` does. The
    /// result is the number of bytes that `fill` takes; it is 0 only where
    /// the reader holds as many bytes as the greatest buffer.
    pub fn make_room(&mut self) -> (space: usize)
        ensures
            space == final(self)@.buffer.space,
            final(self)@.state == old(self)@.state,
            final(self)@.complete == old(self)@.complete,
            final(self)@.buffer.data == old(self)@.buffer.data,
            old(self)@.buffer.space > 0 ==> final(self)@ == old(self)@,
            space == 0 ==> old(self)@.buffer.data.len() == crate::buffered_reader::BUFFER_SIZE_MAX,
            old(self)@.buffer.data.len() + space <= crate::buffered_reader::BUFFER_SIZE_MAX,
    {
        self.reader.make_room()
    }

    /// Takes the bytes in, behind those that the reader holds.
    pub fn fill(&mut self, bytes: &[u8])
        requires
            bytes@.len() <= old(self)@.buffer.space,
        ensures
            final(self)@.state == old(self)@.state,
            final(self)@.complete == old(self)@.complete,
            final(self)@.buffer.data == old(self)@.buffer.data + bytes@,
            final(self)@.buffer.capacity == old(self)@.buffer.capacity,
    {
        self.reader.fill(bytes);
    }

    /// Tells the reader that the input has ended. Where bytes are left that
    /// are no text (the input ends inside a character, or holds bytes that
    /// are not UTF-8), the result is an error; the text before those bytes
    /// can still be read.
    pub fn end_of_input(&mut self) -> (result: Result<(), Error>)
        ensures
            final(self)@ == (ReaderView { complete: true, ..old(self)@ }),
            result is Ok <==> old(self)@.buffer.held_back().len() == 0,
            result matches Err(e) ==> e is UTF8,
    {
        self.complete = true;
        if self.reader.held_back() > 0 {
            Err(Error::UTF8("the input ends with bytes that are no UTF-8 text".to_owned()))
        } else {
            Ok(())
        }
    }

    /// One step of the reader.
    fn advance(&mut self) -> (result: Result<Progress, Error>)
        ensures
            progress_of(step(old(self)@.state, old(self)@.text(), old(self)@.complete), result),
            final(self)@.complete == old(self)@.complete,
            final(self)@.state == if result is Ok {
                state_after(
                    step(old(self)@.state, old(self)@.text(), old(self)@.complete),
                    old(self)@.state,
                )
            } else {
                old(self)@.state
            },
            final(self)@.text() == if result is Ok {
                old(self)@.text().skip(
                    step_len(step(old(self)@.state, old(self)@.text(), old(self)@.complete)),
                )
            } else {
                old(self)@.text()
            },
            final(self)@.buffer.data == if result is Ok {
                old(self)@.buffer.data.skip(
                    encoded_len(
                        old(self)@.text().take(
                            step_len(
                                step(old(self)@.state, old(self)@.text(), old(self)@.complete),
                            ),
                        ),
                    ) as int,
                )
            } else {
                old(self)@.buffer.data
            },
            final(self)@.buffer.capacity == old(self)@.buffer.capacity,
            final(self)@.buffer.space >= old(self)@.buffer.space,
            (result is Err || (result matches Ok(Progress::NeedInput))) ==> final(self)@
                == old(self)@,
            result matches Ok(Progress::Moved(_)) ==> 1 <= step_len(
                step(old(self)@.state, old(self)@.text(), old(self)@.complete),
            ),
            result is Ok ==> 0 <= step_len(
                step(old(self)@.state, old(self)@.text(), old(self)@.complete),
            ) <= old(self)@.text().len(),
    {
        let ghost text = self@.text();
        let ghost found = step(self@.state, text, self@.complete);
        assert(text.skip(0) =~= text);
        assert(self@.buffer.data.skip(0) =~= self@.buffer.data);
        assert(text.take(0) =~= Seq::<char>::empty());
        if let ReaderState::Done = self.state {
            return Ok(Progress::Finished);
        }
        let mut limit: usize = WINDOW_START;
        loop
            invariant
                *self == *old(self),
                text == self@.text(),
                found == step(self@.state, text, self@.complete),
                !(self@.state is Done),
                1 <= limit,
            decreases
                    if limit < text.len() {
                        text.len() - limit
                    } else {
                        0
                    },
        {
            let (mut lexer, whole) = Tokenizer::window(self.reader.as_str(), limit, self.complete);
            let ghost window = lexer@.text;
            let ghost partial = lexer@.complete;
            let ghost rest = text.skip(window.len() as int);
            proof {
                assert(window + rest =~= text);
                if !whole {
                    assert(window.len() < text.len()) by {
                        if window.len() >= text.len() {
                            assert(text.take(text.len() as int) =~= text);
                        }
                    }
                }
            }
            let result = match self.state {
                ReaderState::Start => take_start(&mut lexer),
                ReaderState::SeekData => take_seek(&mut lexer),
                _ => take_body(&mut lexer),
            };
            let left = lexer.remaining();
            if !whole {
                if let Ok(Progress::NeedInput) = &result {
                    limit = if limit <= usize::MAX / 2 {
                        limit * 2
                    } else {
                        usize::MAX
                    };
                    continue ;
                }
            }
            proof {
                if !whole {
                    crate::reader_laws::lemma_step_stable(
                        self@.state,
                        window,
                        rest,
                        self@.complete,
                    );
                }
                assert(found == step(self@.state, window, partial));
                assert(window.take(lexer@.position as int) =~= text.take(lexer@.position as int));
            }
            match &result {
                Ok(Progress::Entry(_)) => {
                    self.reader.consumed(lexer.consumed_bytes());
                },
                Ok(Progress::Moved(next)) => {
                    self.reader.consumed(lexer.consumed_bytes());
                    self.state = *next;
                },
                Ok(Progress::Finished) => {
                    self.reader.consumed(lexer.consumed_bytes());
                    self.state = ReaderState::Done;
                },
                Ok(Progress::NeedInput) => {},
                Err(_) => {},
            }
            return result;
        }
    }

    /// One step of a reader that stands before the data section. The result
    /// tells whether a part of the file was passed over; where none was, the
    /// reader needs more input or stands in the data section.
    pub fn step_over(&mut self) -> (result: Result<bool, Error>)
        requires
            old(self)@.state is Start || old(self)@.state is SeekData,
        ensures
            final(self)@.complete == old(self)@.complete,
            final(self)@.buffer.capacity == old(self)@.buffer.capacity,
            final(self)@.buffer.space >= old(self)@.buffer.space,
            match step(old(self)@.state, old(self)@.text(), old(self)@.complete) {
                Step::Moved { state, len } => result == Ok::<bool, Error>(true)
                    && final(self)@.state == state
                    && final(self)@.text() == old(self)@.text().skip(len)
                    && 1 <= len <= old(self)@.text().len()
                    && final(self)@.buffer.data == old(self)@.buffer.data.skip(
                    encoded_len(old(self)@.text().take(len)) as int,
                ),
                Step::Failed(error) => (result matches Err(e) && reports(error, e))
                    && final(self)@ == old(self)@,
                _ => result == Ok::<bool, Error>(false) && final(self)@ == old(self)@,
            },
            result == Ok::<bool, Error>(true) ==> final(self)@.text().len()
                < old(self)@.text().len(),
    {
        proof {
            crate::reader_laws::lemma_step_before_data(
                self@.state,
                self@.text(),
                self@.complete,
            );
        }
        match self.advance() {
            Ok(Progress::Moved(_)) => Ok(true),
            Ok(_) => Ok(false),
            Err(e) => Err(e),
        }
    }

    /// Reads on until there is something to hand out: the next entry, the
    /// end of the data section, the need for more input, or an error. What
    /// was read is given up; an element that is cut off, or that is not what
    /// the reader expects, stays in the buffer.
    pub fn poll(&mut self) -> (result: Result<ReadEvent, Error>)
        ensures
            hands_out(old(self)@.found().step, result),
            final(self)@.complete == old(self)@.complete,
            final(self)@.state == state_after(old(self)@.found().step, old(self)@.found().state),
            final(self)@.text() == old(self)@.text().skip(
                old(self)@.found().from + step_len(old(self)@.found().step),
            ),
            final(self)@.buffer.data == old(self)@.buffer.data.skip(
                encoded_len(
                    old(self)@.text().take(
                        old(self)@.found().from + step_len(old(self)@.found().step),
                    ),
                ) as int,
            ),
            0 <= old(self)@.found().from,
            0 <= step_len(old(self)@.found().step),
            old(self)@.found().from + step_len(old(self)@.found().step) <= old(self)@.text().len(),
            final(self)@.buffer.capacity == old(self)@.buffer.capacity,
            final(self)@.buffer.space >= old(self)@.buffer.space,
    {
        let ghost text = self@.text();
        let ghost data = self@.buffer.data;
        assert(data.skip(0) =~= data);
        assert(text.take(0) =~= Seq::<char>::empty());
        let ghost complete = self@.complete;
        let ghost goal = self@.found();
        let ghost mut from: int = 0;
        assert(text.skip(0) =~= text);
        loop
            invariant
                0 <= from <= text.len(),
                text == old(self)@.text(),
                complete == old(self)@.complete,
                goal == old(self)@.found(),
                self@.complete == complete,
                self@.text() == text.skip(from),
                data == old(self)@.buffer.data,
                self@.buffer.data == data.skip(encoded_len(text.take(from)) as int),
                goal == drive(self@.state, text, from, complete),
                self@.buffer.capacity == old(self)@.buffer.capacity,
                self@.buffer.space >= old(self)@.buffer.space,
            decreases text.len() - from,
        {
            let ghost found = step(self@.state, self@.text(), complete);
            let ghost state = self@.state;
            proof {
                if 0 <= step_len(found) <= text.skip(from).len() {
                    crate::utf8::lemma_encoded_len_add(text, from, step_len(found));
                    crate::utf8::lemma_text_after_skip(data, from);
                    crate::utf8::lemma_text_after_skip(data, from + step_len(found));
                    crate::utf8::lemma_valid_len(data);
                    assert(data.skip(encoded_len(text.take(from)) as int).skip(
                        encoded_len(text.skip(from).take(step_len(found))) as int,
                    ) =~= data.skip(encoded_len(text.take(from + step_len(found))) as int));
                }
            }
            match self.advance() {
                Ok(Progress::Entry(entry)) => {
                    assert(text.skip(from).skip(step_len(found)) =~= text.skip(from + step_len(
                        found,
                    ))) by {
                        assert(0 <= step_len(found) <= text.skip(from).len());
                    }
                    return Ok(ReadEvent::Entry(entry));
                },
                Ok(Progress::Moved(_)) => {
                    proof {
                        assert(text.skip(from).skip(step_len(found)) =~= text.skip(from + step_len(
                            found,
                        )));
                        from = from + step_len(found);
                    }
                },
                Ok(Progress::Finished) => {
                    assert(text.skip(from).skip(step_len(found)) =~= text.skip(from + step_len(
                        found,
                    ))) by {
                        assert(0 <= step_len(found) <= text.skip(from).len());
                    }
                    return Ok(ReadEvent::Finished);
                },
                Ok(Progress::NeedInput) => {
                    assert(text.skip(from).skip(0) =~= text.skip(from));
                    return Ok(ReadEvent::NeedInput);
                },
                Err(e) => {
                    assert(text.skip(from).skip(0) =~= text.skip(from));
                    return Err(e);
                },
            }
        }
    }
}

} // verus!
