//! The parser of a STEP file that is held in memory: it feeds the entry
//! reader with the bytes of the file, piece by piece, and hands out the
//! entries. What it hands out is what the entry reader finds in the text of
//! the whole file.

use vstd::prelude::*;
use vstd::slice::slice_subrange;
use crate::buffered_reader::BUFFER_SIZE_MAX;
use crate::entry::{EntryView, StepEntry};
use crate::error::Error;
use crate::reader::{
    drive,
    reports,
    seek,
    state_after,
    step,
    step_len,
    Driven,
    ReadError,
    ReadEvent,
    ReaderState,
    STEPReader,
    Step,
};
use crate::reader_laws::{
    lemma_complete_reader_is_decided,
    lemma_drive_again,
    lemma_drive_bounds,
    lemma_drive_resumes,
    lemma_drive_shift,
    lemma_drive_stable,
    lemma_seek_shift,
    lemma_seek_stable,
    lemma_step_before_data,
    lemma_step_bounds,
    lemma_step_stable,
};
use crate::utf8::{
    encoded_len, lemma_encoded_len_add, lemma_skip_keeps_the_rest, lemma_text_after_skip,
    lemma_text_of_longer, lemma_valid_len, text_of, valid_len,
};

verus! {

/// What a parser is to a reader of the crate.
pub struct ParserView {
    /// Where the parser stands in the file.
    pub state: ReaderState,
    /// The bytes of the file that were not read yet.
    pub rest: Seq<u8>,
}

/// What a parser finds, and where that leaves it.
pub struct Parsed {
    /// What is found.
    pub found: Step,
    /// The state of the parser afterwards.
    pub state: ReaderState,
    /// The number of characters that are read.
    pub taken: int,
}

impl ParserView {
    /// The text that was not read yet: what the longest valid UTF-8
    /// beginning of the bytes encodes.
    pub open spec fn text(self) -> Seq<char> {
        text_of(self.rest)
    }

    /// Whether bytes follow the text that are no text.
    pub open spec fn ends_badly(self) -> bool {
        valid_len(self.rest) < self.rest.len()
    }

    /// The parser in the given state after `chars` more characters are read.
    pub open spec fn after(self, state: ReaderState, chars: int) -> ParserView {
        ParserView { state, rest: self.rest.skip(encoded_len(self.text().take(chars)) as int) }
    }

    /// Whether an element that the parser has to read next is greater than
    /// the greatest buffer: the parser passes over the parts of the file
    /// that hold no entry, one by one, and comes to an element that does not
    /// end within as many bytes as the greatest buffer holds. With `seeking`
    /// the parser goes no further than the beginning of the data section.
    #[verifier::opaque]
    pub open spec fn too_long(self, seeking: bool) -> bool
        decreases self.rest.len(),
    {
        if self.rest.len() <= BUFFER_SIZE_MAX || (seeking && !(self.state is Start
            || self.state is SeekData)) {
            false
        } else {
            match step(self.state, text_of(self.rest.take(BUFFER_SIZE_MAX as int)), false) {
                Step::NeedMore => true,
                Step::Moved { state, len } => {
                    let next = self.after(state, len);
                    if next.rest.len() < self.rest.len() {
                        next.too_long(seeking)
                    } else {
                        false
                    }
                },
                _ => false,
            }
        }
    }

    /// What the parser hands out next: the error of an element that is too
    /// long, or what it finds.
    pub open spec fn next_found(self) -> Step {
        if self.too_long(false) {
            Step::Failed(ReadError::TooLong)
        } else {
            self.finds().found
        }
    }

    /// What the parser finds next: what the entry reader finds in the text
    /// that is left. Where the reader would have to look behind the end of
    /// the text, and bytes follow the text that are no text, that is an
    /// error.
    pub open spec fn finds(self) -> Parsed {
        let partial = drive(self.state, self.text(), 0, false);
        let whole = drive(self.state, self.text(), 0, true);
        if self.ends_badly() && partial.step is NeedMore {
            Parsed {
                found: Step::Failed(ReadError::Utf8),
                state: partial.state,
                taken: partial.from,
            }
        } else {
            Parsed {
                found: whole.step,
                state: state_after(whole.step, whole.state),
                taken: whole.from + step_len(whole.step),
            }
        }
    }

    /// What the parser finds on its way to the data section. Where it
    /// reaches the data section, what is found is the move into that
    /// section.
    pub open spec fn seeks(self) -> Parsed {
        let partial = seek(self.state, self.text(), 0, false);
        let whole = seek(self.state, self.text(), 0, true);
        if self.ends_badly() && partial.stopped == Some(Step::NeedMore) {
            Parsed {
                found: Step::Failed(ReadError::Utf8),
                state: partial.state,
                taken: partial.from,
            }
        } else {
            Parsed {
                found: match whole.stopped {
                    Some(found) => found,
                    None => Step::Moved { state: whole.state, len: 0 },
                },
                state: whole.state,
                taken: whole.from,
            }
        }
    }
}

/// Whether the result is what a parser hands out for what it finds.
pub open spec fn handed(found: Step, result: Result<Option<StepEntry>, Error>) -> bool {
    match found {
        Step::Entry { id, definition, len } => result matches Ok(Some(e)) && e@ == (EntryView {
            id,
            definition,
        }),
        Step::Finished { len } => result matches Ok(None),
        Step::Failed(error) => result matches Err(e) && reports(error, e),
        _ => false,
    }
}

/// The items that a parser hands out from where it stands: the entries up
/// to the end of the data section, or up to the first error, which is then
/// the last item.
pub open spec fn entries_from(view: ParserView) -> Seq<Result<EntryView, ReadError>>
    decreases view.rest.len(),
{
    let parsed = view.finds();
    match view.next_found() {
        Step::Entry { id, definition, len } => {
            let next = view.after(parsed.state, parsed.taken);
            if next.rest.len() < view.rest.len() {
                seq![Ok(EntryView { id, definition })] + entries_from(next)
            } else {
                seq![Ok(EntryView { id, definition })]
            }
        },
        Step::Failed(error) => seq![Err(error)],
        _ => seq![],
    }
}

/// Whether `item` is what is handed out for `found`.
pub open spec fn is_item(
    found: Result<EntryView, ReadError>,
    item: Result<StepEntry, Error>,
) -> bool {
    match found {
        Ok(entry) => item matches Ok(e) && e@ == entry,
        Err(error) => item matches Err(e) && reports(error, e),
    }
}

/// An entry takes at least one byte.
pub proof fn lemma_entry_takes_bytes(view: ParserView)
    ensures
        view.finds().found is Entry ==> view.after(
            view.finds().state,
            view.finds().taken,
        ).rest.len() < view.rest.len(),
        view.finds().found is Entry ==> 1 <= view.finds().taken <= view.text().len(),
{
    let text = view.text();
    let whole = drive(view.state, text, 0, true);
    lemma_drive_bounds(view.state, text, 0, true);
    if view.finds().found is Entry {
        lemma_step_bounds(whole.state, text.skip(whole.from), true);
        let taken = view.finds().taken;
        lemma_text_after_skip(view.rest, taken);
        lemma_valid_len(view.rest);
        crate::utf8::lemma_encoded_len_push(text.take(taken - 1), text[taken - 1]);
        assert(text.take(taken - 1).push(text[taken - 1]) =~= text.take(taken));
    }
}

/// Reading on behind what was read is reading both at once.
pub proof fn lemma_after_after(
    view: ParserView,
    first: ReaderState,
    j: int,
    second: ReaderState,
    k: int,
)
    requires
        0 <= j,
        0 <= k,
        j + k <= view.text().len(),
    ensures
        view.after(first, j).after(second, k) == view.after(second, j + k),
        view.after(first, j).text() == view.text().skip(j),
        view.after(first, j).ends_badly() == view.ends_badly(),
{
    lemma_text_after_skip(view.rest, j);
    lemma_text_after_skip(view.rest, j + k);
    lemma_skip_keeps_the_rest(view.rest, j);
    lemma_valid_len(view.rest);
    lemma_encoded_len_add(view.text(), j, k);
    let n = encoded_len(view.text().take(j)) as int;
    let m = encoded_len(view.text().skip(j).take(k)) as int;
    assert(view.rest.skip(n).skip(m) =~= view.rest.skip(n + m));
}

/// What a parser finds is known as soon as the entry reader has found it
/// in the beginning of the text.
proof fn lemma_finds_when_found(view: ParserView, begin: Seq<char>, more: Seq<char>)
    requires
        view.text() == begin + more,
        !(drive(view.state, begin, 0, false).step is NeedMore),
    ensures
        view.finds() == (Parsed {
            found: drive(view.state, begin, 0, false).step,
            state: state_after(
                drive(view.state, begin, 0, false).step,
                drive(view.state, begin, 0, false).state,
            ),
            taken: drive(view.state, begin, 0, false).from + step_len(
                drive(view.state, begin, 0, false).step,
            ),
        }),
{
    lemma_drive_stable(view.state, begin, more, 0, false);
    lemma_drive_stable(view.state, begin, more, 0, true);
}

/// Where the entry reader needs more text, the parser finds from the state
/// and the place that the reader has come to what it finds from the
/// beginning.
proof fn lemma_finds_after_progress(view: ParserView, begin: Seq<char>, more: Seq<char>)
    requires
        view.text() == begin + more,
        drive(view.state, begin, 0, false).step is NeedMore,
    ensures
        0 <= drive(view.state, begin, 0, false).from <= begin.len(),
        view.finds() == (Parsed {
            taken: drive(view.state, begin, 0, false).from + view.after(
                drive(view.state, begin, 0, false).state,
                drive(view.state, begin, 0, false).from,
            ).finds().taken,
            ..view.after(
                drive(view.state, begin, 0, false).state,
                drive(view.state, begin, 0, false).from,
            ).finds()
        }),
{
    let d = drive(view.state, begin, 0, false);
    lemma_drive_resumes(view.state, begin, more, false);
    lemma_drive_resumes(view.state, begin, more, true);
    lemma_after_after(view, d.state, d.from, d.state, 0);
}

/// Where the entry reader has stopped because it needs more text, it needs
/// more text in what is left.
proof fn lemma_still_needs_more(state: ReaderState, s: Seq<char>)
    requires
        drive(state, s, 0, false).step is NeedMore,
    ensures
        drive(
            drive(state, s, 0, false).state,
            s.skip(drive(state, s, 0, false).from),
            0,
            false,
        ) == (Driven {
            from: 0,
            ..drive(state, s, 0, false)
        }),
{
    let d = drive(state, s, 0, false);
    lemma_drive_bounds(state, s, 0, false);
    lemma_drive_again(state, s, 0, false);
    lemma_drive_shift(d.state, s, d.from, 0, false);
}

/// The same for the search for the data section.
proof fn lemma_seeks_when_found(view: ParserView, begin: Seq<char>, more: Seq<char>)
    requires
        view.text() == begin + more,
        seek(view.state, begin, 0, false).stopped != Some(Step::NeedMore),
    ensures
        view.seeks() == (Parsed {
            found: match seek(view.state, begin, 0, false).stopped {
                Some(found) => found,
                None => Step::Moved { state: seek(view.state, begin, 0, false).state, len: 0 },
            },
            state: seek(view.state, begin, 0, false).state,
            taken: seek(view.state, begin, 0, false).from,
        }),
{
    lemma_seek_stable(view.state, begin, more, 0, false);
    lemma_seek_stable(view.state, begin, more, 0, true);
}

/// One step towards the data section: the parser seeks from the state and
/// the place that the step has come to what it seeks from the beginning.
proof fn lemma_seeks_after_step(
    view: ParserView,
    begin: Seq<char>,
    more: Seq<char>,
    complete: bool,
)
    requires
        view.text() == begin + more,
        view.state is Start || view.state is SeekData,
        step(view.state, begin, complete) is Moved,
        complete ==> more.len() == 0 && !view.ends_badly(),
    ensures
        1 <= step_len(step(view.state, begin, complete)) <= begin.len(),
        view.seeks() == (Parsed {
            taken: step_len(step(view.state, begin, complete)) + view.after(
                state_after(step(view.state, begin, complete), view.state),
                step_len(step(view.state, begin, complete)),
            ).seeks().taken,
            ..view.after(
                state_after(step(view.state, begin, complete), view.state),
                step_len(step(view.state, begin, complete)),
            ).seeks()
        }),
{
    let text = view.text();
    let found = step(view.state, begin, complete);
    let next = state_after(found, view.state);
    let len = step_len(found);
    lemma_step_bounds(view.state, begin, complete);
    assert(text.skip(0) =~= text);
    assert(begin.skip(0) =~= begin);
    lemma_after_after(view, next, len, next, 0);
    let reached = view.after(next, len);
    assert(reached.text() == text.skip(len));
    if complete {
        assert(text =~= begin);
        assert(seek(view.state, text, 0, true) == seek(next, text, len, true));
        lemma_seek_shift(next, text, len, 0, true);
    } else {
        lemma_step_stable(view.state, begin, more, false);
        lemma_step_stable(view.state, begin, more, true);
        assert(seek(view.state, text, 0, true) == seek(next, text, len, true));
        assert(seek(view.state, text, 0, false) == seek(next, text, len, false));
        lemma_seek_shift(next, text, len, 0, false);
        lemma_seek_shift(next, text, len, 0, true);
    }
}

/// What the entry reader finds in the beginning of the text of a parser,
/// and what that says of what the parser finds.
proof fn lemma_polled(view: ParserView, begin: Seq<char>, more: Seq<char>, complete: bool)
    requires
        view.text() == begin + more,
        complete ==> more.len() == 0 && !view.ends_badly(),
    ensures
        0 <= drive(view.state, begin, 0, complete).from,
        0 <= step_len(drive(view.state, begin, 0, complete).step),
        drive(view.state, begin, 0, complete).from + step_len(
            drive(view.state, begin, 0, complete).step,
        ) <= begin.len(),
        begin.len() <= view.text().len(),
        !(drive(view.state, begin, 0, complete).step is NeedMore) ==> view.finds() == (Parsed {
            found: drive(view.state, begin, 0, complete).step,
            state: state_after(
                drive(view.state, begin, 0, complete).step,
                drive(view.state, begin, 0, complete).state,
            ),
            taken: drive(view.state, begin, 0, complete).from + step_len(
                drive(view.state, begin, 0, complete).step,
            ),
        }),
        drive(view.state, begin, 0, complete).step is NeedMore ==> {
            let found = drive(view.state, begin, 0, complete);
            let reached = view.after(found.state, found.from);
            &&& !complete
            &&& view.finds() == (Parsed {
                taken: found.from + reached.finds().taken,
                ..reached.finds()
            })
            &&& more.len() == 0 && view.ends_badly() ==> reached.finds() == (Parsed {
                found: Step::Failed(ReadError::Utf8),
                state: found.state,
                taken: 0,
            })
        },
{
    let found = drive(view.state, begin, 0, complete);
    lemma_drive_bounds(view.state, begin, 0, complete);
    if complete {
        assert(view.text() =~= begin);
        lemma_complete_reader_is_decided(view.state, begin, 0);
    } else if !(found.step is NeedMore) {
        lemma_finds_when_found(view, begin, more);
    } else {
        lemma_finds_after_progress(view, begin, more);
        let reached = view.after(found.state, found.from);
        lemma_after_after(view, found.state, found.from, found.state, 0);
        if more.len() == 0 && view.ends_badly() {
            assert(view.text() =~= begin);
            lemma_still_needs_more(view.state, begin);
            assert(reached.text() == begin.skip(found.from));
            assert(reached.ends_badly());
        }
    }
}

/// What one step of the entry reader towards the data section finds in the
/// beginning of the text of a parser, and what that says of what the parser
/// seeks.
proof fn lemma_stepped(view: ParserView, begin: Seq<char>, more: Seq<char>, complete: bool)
    requires
        view.text() == begin + more,
        complete ==> more.len() == 0 && !view.ends_badly(),
    ensures
        begin.len() <= view.text().len(),
        !(view.state is Start || view.state is SeekData) ==> view.seeks() == (Parsed {
            found: Step::Moved { state: view.state, len: 0 },
            state: view.state,
            taken: 0,
        }),
        view.state is Start || view.state is SeekData ==> {
            let found = step(view.state, begin, complete);
            &&& !(found is Entry) && !(found is Finished)
            &&& found is NeedMore ==> !complete
            &&& found is NeedMore && more.len() == 0 && view.ends_badly() ==> view.seeks() == (Parsed {
                found: Step::Failed(ReadError::Utf8),
                state: view.state,
                taken: 0,
            })
            &&& found is Failed ==> view.seeks() == (Parsed {
                found,
                state: view.state,
                taken: 0,
            })
            &&& found is Moved ==> {
                let reached = view.after(state_after(found, view.state), step_len(found));
                &&& 1 <= step_len(found) <= begin.len()
                &&& view.seeks() == (Parsed {
                    taken: step_len(found) + reached.seeks().taken,
                    ..reached.seeks()
                })
            }
        },
{
    let text = view.text();
    assert(text.skip(0) =~= text);
    assert(begin.skip(0) =~= begin);
    if view.state is Start || view.state is SeekData {
        let found = step(view.state, begin, complete);
        lemma_step_before_data(view.state, begin, complete);
        lemma_step_bounds(view.state, begin, complete);
        if complete {
            assert(text =~= begin);
            crate::reader_laws::lemma_complete_step_is_decided(view.state, begin);
        }
        if found is Moved {
            lemma_seeks_after_step(view, begin, more, complete);
        } else if found is Failed {
            if complete {
                assert(seek(view.state, begin, 0, true).stopped == Some(found));
            } else {
                assert(seek(view.state, begin, 0, false).stopped == Some(found));
                lemma_seeks_when_found(view, begin, more);
            }
        } else if more.len() == 0 && view.ends_badly() {
            assert(text =~= begin);
            assert(seek(view.state, begin, 0, false).stopped == Some(Step::NeedMore));
        }
    }
}

/// No element is too long where all that is left is no more than the
/// greatest buffer holds, nor before the data section where the parser has
/// passed its beginning.
pub proof fn lemma_not_too_long(view: ParserView, seeking: bool)
    requires
        view.rest.len() <= BUFFER_SIZE_MAX || (seeking && !(view.state is Start
            || view.state is SeekData)),
    ensures
        !view.too_long(seeking),
{
    reveal(ParserView::too_long);
}

/// One step of the entry reader over the beginning of the bytes of a
/// parser, which is no more than the greatest buffer holds, and whether an
/// element is too long: it is not where the step finds an entry, the end of
/// the data section or an error; it is where the step needs more text and
/// the beginning fills the greatest buffer; and behind a part of the file
/// without entry it is what it is from there on.
proof fn lemma_too_long_step(view: ParserView, data: Seq<u8>, seeking: bool)
    requires
        data.len() <= BUFFER_SIZE_MAX,
        data.len() <= view.rest.len(),
        data == view.rest.take(data.len() as int),
        !seeking || view.state is Start || view.state is SeekData,
    ensures
        match step(view.state, text_of(data), false) {
            Step::NeedMore => data.len() == BUFFER_SIZE_MAX && view.rest.len() > BUFFER_SIZE_MAX
                ==> view.too_long(seeking),
            Step::Moved { state, len } => view.too_long(seeking) == view.after(
                state,
                len,
            ).too_long(seeking) && view.after(state, len).rest.len() < view.rest.len(),
            _ => !view.too_long(seeking),
        },
{
    reveal(ParserView::too_long);
    let begin = text_of(data);
    let found = step(view.state, begin, false);
    let unfed = view.rest.skip(data.len() as int);
    assert(data + unfed =~= view.rest);
    lemma_text_of_longer(data, unfed);
    lemma_step_bounds(view.state, begin, false);
    lemma_valid_len(view.rest);
    match found {
        Step::Moved { state, len } => {
            lemma_text_after_skip(view.rest, len);
            crate::utf8::lemma_encoded_len_at_least(view.text().take(len));
            if view.rest.len() <= BUFFER_SIZE_MAX {
                lemma_not_too_long(view.after(state, len), seeking);
            }
        },
        _ => {},
    }
    if view.rest.len() > BUFFER_SIZE_MAX {
        let window = view.rest.take(BUFFER_SIZE_MAX as int);
        let piece = view.rest.subrange(data.len() as int, BUFFER_SIZE_MAX as int);
        assert(data + piece =~= window);
        lemma_text_of_longer(data, piece);
        if !(found is NeedMore) {
            lemma_step_stable(
                view.state,
                begin,
                text_of(data.skip(valid_len(data)) + piece),
                false,
            );
        } else if data.len() == BUFFER_SIZE_MAX {
            assert(window =~= data);
        }
    }
}

/// A reader that has stopped where it began because it needs more text
/// needs more text for its first step.
proof fn lemma_stopped_at_once(state: ReaderState, s: Seq<char>)
    requires
        drive(state, s, 0, false).step is NeedMore,
        drive(state, s, 0, false).from == 0,
    ensures
        step(state, s, false) is NeedMore,
{
    assert(s.skip(0) =~= s);
    lemma_step_bounds(state, s, false);
    match step(state, s, false) {
        Step::Moved { state: next, len } => {
            lemma_drive_bounds(next, s, len, false);
        },
        _ => {},
    }
}

/// The steps of the entry reader over the beginning of the bytes of a
/// parser, which is no more than the greatest buffer holds, and whether an
/// element is too long: it is not where the reader finds something; where
/// the reader needs more text, it is what it is from where the reader has
/// come to.
proof fn lemma_too_long_drive(view: ParserView, data: Seq<u8>)
    requires
        data.len() <= BUFFER_SIZE_MAX,
        data.len() <= view.rest.len(),
        data == view.rest.take(data.len() as int),
    ensures
        !(drive(view.state, text_of(data), 0, false).step is NeedMore) ==> !view.too_long(false),
        drive(view.state, text_of(data), 0, false).step is NeedMore ==> view.too_long(false)
            == view.after(
            drive(view.state, text_of(data), 0, false).state,
            drive(view.state, text_of(data), 0, false).from,
        ).too_long(false),
    decreases data.len(),
{
    let begin = text_of(data);
    let found = step(view.state, begin, false);
    let unfed = view.rest.skip(data.len() as int);
    assert(data + unfed =~= view.rest);
    lemma_text_of_longer(data, unfed);
    lemma_valid_len(data);
    lemma_valid_len(view.rest);
    lemma_too_long_step(view, data, false);
    lemma_step_bounds(view.state, begin, false);
    assert(begin.skip(0) =~= begin);
    match found {
        Step::Moved { state, len } => {
            let bytes = encoded_len(begin.take(len)) as int;
            assert(view.text().take(len) =~= begin.take(len));
            lemma_text_after_skip(data, len);
            lemma_text_after_skip(view.rest, len);
            crate::utf8::lemma_encoded_len_at_least(begin.take(len));
            let next = view.after(state, len);
            let left = data.skip(bytes);
            assert(left =~= next.rest.take(left.len() as int));
            lemma_too_long_drive(next, left);
            lemma_drive_shift(state, begin, len, 0, false);
            let inner = drive(state, begin.skip(len), 0, false);
            lemma_drive_bounds(state, begin.skip(len), 0, false);
            if inner.step is NeedMore {
                lemma_after_after(view, state, len, inner.state, inner.from);
            }
        },
        Step::NeedMore => {
            assert(view.text().take(0) =~= Seq::<char>::empty());
            assert(view.rest.skip(0) =~= view.rest);
            assert(view.after(view.state, 0) == view);
        },
        _ => {},
    }
}

/// What a step of the entry reader towards the data section, over the bytes
/// that it holds, says of whether an element before the data section is too
/// long.
proof fn lemma_sought(view: ParserView, data: Seq<u8>, complete: bool)
    requires
        data.len() <= BUFFER_SIZE_MAX,
        data.len() <= view.rest.len(),
        data == view.rest.take(data.len() as int),
        complete ==> view.rest.len() == data.len(),
    ensures
        !(view.state is Start || view.state is SeekData) ==> !view.too_long(true),
        view.state is Start || view.state is SeekData ==> match step(
            view.state,
            text_of(data),
            complete,
        ) {
            Step::Moved { state, len } => view.too_long(true) == view.after(state, len).too_long(
                true,
            ),
            Step::NeedMore => {
                &&& view.rest.len() == data.len() ==> !view.too_long(true)
                &&& data.len() == BUFFER_SIZE_MAX && view.rest.len() > BUFFER_SIZE_MAX
                    ==> view.too_long(true)
            },
            _ => !view.too_long(true),
        },
{
    if view.state is Start || view.state is SeekData {
        if complete {
            assert(view.rest =~= data);
            lemma_step_bounds(view.state, text_of(data), true);
            lemma_not_too_long(view, true);
            match step(view.state, text_of(data), true) {
                Step::Moved { state, len } => {
                    lemma_text_after_skip(view.rest, len);
                    lemma_valid_len(view.rest);
                    assert(view.after(state, len).rest.len() <= view.rest.len());
                    lemma_not_too_long(view.after(state, len), true);
                },
                _ => {},
            }
        } else {
            lemma_too_long_step(view, data, true);
            if view.rest.len() == data.len() {
                lemma_not_too_long(view, true);
            }
        }
    } else {
        lemma_not_too_long(view, true);
    }
}

/// What the steps of the entry reader, over the bytes that it holds, say of
/// whether the next element is too long.
proof fn lemma_found(view: ParserView, data: Seq<u8>, complete: bool)
    requires
        data.len() <= BUFFER_SIZE_MAX,
        data.len() <= view.rest.len(),
        data == view.rest.take(data.len() as int),
        complete ==> view.rest.len() == data.len(),
    ensures
        !(drive(view.state, text_of(data), 0, complete).step is NeedMore) ==> !view.too_long(
            false,
        ),
        drive(view.state, text_of(data), 0, complete).step is NeedMore ==> {
            let reached = view.after(
                drive(view.state, text_of(data), 0, complete).state,
                drive(view.state, text_of(data), 0, complete).from,
            );
            &&& view.too_long(false) == reached.too_long(false)
            &&& reached.rest.len() <= BUFFER_SIZE_MAX ==> !reached.too_long(false)
            &&& !complete && data.len() - encoded_len(
                text_of(data).take(drive(view.state, text_of(data), 0, complete).from),
            ) == BUFFER_SIZE_MAX && reached.rest.len() > BUFFER_SIZE_MAX ==> reached.too_long(
                false,
            )
        },
{
    let begin = text_of(data);
    let found = drive(view.state, begin, 0, complete);
    if complete {
        assert(view.rest =~= data);
        lemma_complete_reader_is_decided(view.state, begin, 0);
        lemma_not_too_long(view, false);
    } else {
        lemma_too_long_drive(view, data);
        lemma_drive_bounds(view.state, begin, 0, false);
        if found.step is NeedMore {
            let reached = view.after(found.state, found.from);
            let unfed = view.rest.skip(data.len() as int);
            assert(data + unfed =~= view.rest);
            lemma_text_of_longer(data, unfed);
            lemma_valid_len(data);
            lemma_valid_len(view.rest);
            assert(view.text().take(found.from) =~= begin.take(found.from));
            lemma_text_after_skip(data, found.from);
            lemma_text_after_skip(view.rest, found.from);
            let bytes = encoded_len(begin.take(found.from)) as int;
            let left = data.skip(bytes);
            assert(left =~= reached.rest.take(left.len() as int));
            lemma_still_needs_more(view.state, begin);
            lemma_stopped_at_once(found.state, begin.skip(found.from));
            lemma_too_long_step(reached, left, false);
            if reached.rest.len() <= BUFFER_SIZE_MAX {
                lemma_not_too_long(reached, false);
            }
        }
    }
}

/// A parser over the bytes of a STEP file.
pub struct STEPParser {
    /// The entry reader.
    reader: STEPReader,
    /// The bytes of the file.
    input: Vec<u8>,
    /// The number of bytes that the reader was fed with.
    offset: usize,
    /// The sizes of the pieces that the reader is fed with, one after the
    /// other; behind the last the reader is fed with all that is left.
    cuts: Vec<usize>,
    /// The number of sizes that were used.
    cut: usize,
}

impl View for STEPParser {
    type V = ParserView;

    closed spec fn view(&self) -> ParserView {
        ParserView {
            state: self.reader@.state,
            rest: self.reader@.buffer.data + self.input@.skip(self.offset as int),
        }
    }
}

impl STEPParser {
    /// Whether the parser is in order: it has fed the reader with bytes of
    /// its input, has told the reader that the input has ended only where
    /// that is so, and the reader holds no more than the greatest buffer
    /// holds.
    pub closed spec fn wf(&self) -> bool {
        &&& self.offset <= self.input@.len()
        &&& self.reader@.complete ==> self.offset == self.input@.len()
            && self.reader@.buffer.held_back().len() == 0
        &&& self.reader@.buffer.data.len() <= BUFFER_SIZE_MAX
    }

    /// The number of steps that the parser takes at most before it has fed
    /// the reader with all bytes and has told it that the input has ended.
    closed spec fn to_feed(self) -> nat {
        (self.input@.len() - self.offset) as nat + if self.reader@.complete {
            0nat
        } else {
            1nat
        }
    }

    /// What the text of the parser is made of: the text that the reader
    /// holds, and the text of the bytes that the reader holds back together
    /// with the bytes that it was not fed with.
    proof fn lemma_text(self)
        requires
            self.wf(),
        ensures
            self@.text() == self.reader@.text() + text_of(
                self.reader@.buffer.held_back() + self.input@.skip(self.offset as int),
            ),
            self.reader@.complete ==> self@.text() == self.reader@.text() && !self@.ends_badly(),
            self.offset == self.input@.len() ==> self@.text() == self.reader@.text()
                && self@.ends_badly() == (self.reader@.buffer.held_back().len() > 0) && text_of(
                self.reader@.buffer.held_back() + self.input@.skip(self.offset as int),
            ).len() == 0,
    {
        let data = self.reader@.buffer.data;
        let unfed = self.input@.skip(self.offset as int);
        lemma_text_of_longer(data, unfed);
        lemma_valid_len(data);
        if self.offset == self.input@.len() {
            assert(data + unfed =~= data);
            assert(data.skip(valid_len(data)) + unfed =~= data.skip(valid_len(data)));
            assert(self@.text() =~= self.reader@.text());
            assert(valid_len(data.skip(valid_len(data)) + unfed) == 0);
            assert((data.skip(valid_len(data)) + unfed).take(0) =~= Seq::<u8>::empty());
        }
    }

    /// What reading `chars` characters of the reader's text does to the
    /// parser.
    proof fn lemma_taken(self, before: STEPParser, state: ReaderState, chars: int)
        requires
            before.wf(),
            0 <= chars <= before.reader@.text().len(),
            self.input == before.input,
            self.offset == before.offset,
            self.reader@.state == state,
            self.reader@.complete == before.reader@.complete,
            self.reader@.buffer.data == before.reader@.buffer.data.skip(
                encoded_len(before.reader@.text().take(chars)) as int,
            ),
        ensures
            self.wf(),
            self@ == before@.after(state, chars),
            self.to_feed() == before.to_feed(),
    {
        let data = before.reader@.buffer.data;
        let unfed = before.input@.skip(before.offset as int);
        before.lemma_text();
        lemma_text_after_skip(data, chars);
        lemma_skip_keeps_the_rest(data, chars);
        lemma_valid_len(data);
        let n = encoded_len(before.reader@.text().take(chars)) as int;
        assert(before@.text().take(chars) =~= before.reader@.text().take(chars));
        assert((data + unfed).skip(n) =~= data.skip(n) + unfed);
    }

    /// A parser of `input` that stands in the data section: the tag
    /// `ISO-10303-21;` was read and what follows it was passed over up to
    /// `DATA;`. The result is an error where `input` does not begin so, and
    /// where one of its elements before the data section is greater than
    /// the greatest buffer.
    pub fn new(input: &[u8]) -> (parser: Result<Self, Error>)
        ensures
            (ParserView { state: ReaderState::Start, rest: input@ }).too_long(true) ==> (
            parser matches Err(e) && e is IO),
            !(ParserView { state: ReaderState::Start, rest: input@ }).too_long(true) ==> {
                let start = ParserView { state: ReaderState::Start, rest: input@ };
                match start.seeks().found {
                    Step::Moved { state, len } => (parser matches Ok(p) && p.wf() && p@
                        == start.after(start.seeks().state, start.seeks().taken)),
                    Step::Failed(error) => (parser matches Err(e) && reports(error, e)),
                    _ => false,
                }
            },
    {
        let cuts: [usize; 0] = [];
        Self::in_pieces(input, cuts.as_slice())
    }

    /// A parser of `input` whose reader gets the input in pieces: `cuts`
    /// holds the numbers of bytes of the pieces, one after the other, where a
    /// 0 counts as 1; what is left behind the last piece is one more piece.
    /// A piece that the buffer of the reader has no room for is cut once
    /// more. The parser is the same as the one that `new` makes, and hands
    /// out the same entries: what is read does not depend on where the
    /// input is cut.
    pub fn in_pieces(input: &[u8], cuts: &[usize]) -> (parser: Result<Self, Error>)
        ensures
            (ParserView { state: ReaderState::Start, rest: input@ }).too_long(true) ==> (
            parser matches Err(e) && e is IO),
            !(ParserView { state: ReaderState::Start, rest: input@ }).too_long(true) ==> {
                let start = ParserView { state: ReaderState::Start, rest: input@ };
                match start.seeks().found {
                    Step::Moved { state, len } => (parser matches Ok(p) && p.wf() && p@
                        == start.after(start.seeks().state, start.seeks().taken)),
                    Step::Failed(error) => (parser matches Err(e) && reports(error, e)),
                    _ => false,
                }
            },
    {
        let mut bytes: Vec<u8> = Vec::new();
        let mut i: usize = 0;
        while i < input.len()
            invariant
                i <= input.len(),
                bytes@ == input@.take(i as int),
            decreases input.len() - i,
        {
            bytes.push(input[i]);
            assert(input@.take(i + 1) =~= input@.take(i as int).push(input@[i as int]));
            i += 1;
        }
        assert(input@.take(i as int) =~= input@);
        let mut sizes: Vec<usize> = Vec::new();
        let mut j: usize = 0;
        while j < cuts.len()
            invariant
                j <= cuts.len(),
            decreases cuts.len() - j,
        {
            sizes.push(cuts[j]);
            j += 1;
        }
        let mut parser = STEPParser {
            reader: STEPReader::new(),
            input: bytes,
            offset: 0,
            cuts: sizes,
            cut: 0,
        };
        proof {
            assert(parser.input@.skip(0) =~= input@);
            assert(parser@.rest =~= input@);
        }
        match parser.find_data_section() {
            Ok(_) => Ok(parser),
            Err(e) => Err(e),
        }
    }

    /// Feeds the reader with the next bytes of the input, or tells it that
    /// the input has ended. Where the input has ended with bytes that are no
    /// text, that is an error; and so it is where the reader holds as many
    /// bytes as the greatest buffer holds and the input has not ended.
    fn feed(&mut self) -> (result: Result<(), Error>)
        requires
            old(self).wf(),
            !old(self).reader@.complete,
        ensures
            final(self).wf(),
            final(self)@ == old(self)@,
            match result {
                Ok(_) => final(self).to_feed() < old(self).to_feed(),
                Err(e) => if old(self).offset == old(self).input@.len() {
                    e is UTF8 && *final(self) == *old(self) && old(self).reader@.buffer.held_back().len()
                        > 0
                } else {
                    &&& e is IO
                    &&& final(self).offset == old(self).offset
                    &&& final(self).input == old(self).input
                    &&& final(self).reader@.state == old(self).reader@.state
                    &&& final(self).reader@.complete == old(self).reader@.complete
                    &&& final(self).reader@.buffer.data == old(self).reader@.buffer.data
                    &&& old(self).reader@.buffer.data.len() == BUFFER_SIZE_MAX
                },
            },
    {
        proof {
            self.lemma_text();
        }
        if self.offset >= self.input.len() {
            if self.reader.held_back() > 0 {
                return Err(Error::UTF8("the input ends with bytes that are no text".to_owned()));
            }
            let _ = self.reader.end_of_input();
            return Ok(());
        }
        let space = self.reader.make_room();
        if space == 0 {
            return Err(
                Error::IO("an element of the input is greater than the greatest buffer".to_owned()),
            );
        }
        let left = self.input.len() - self.offset;
        let mut count = if left < space {
            left
        } else {
            space
        };
        if self.cut < self.cuts.len() {
            let wanted = self.cuts[self.cut];
            self.cut = self.cut + 1;
            if wanted == 0 {
                count = 1;
            } else if wanted < count {
                count = wanted;
            }
        }
        let ghost data = self.reader@.buffer.data;
        let piece = slice_subrange(self.input.as_slice(), self.offset, self.offset + count);
        self.reader.fill(piece);
        self.offset = self.offset + count;
        proof {
            assert(data + piece@ + self.input@.skip(self.offset as int) =~= data
                + old(self).input@.skip(old(self).offset as int));
        }
        Ok(())
    }

    /// Reads up to the beginning of the data section.
    #[verifier::rlimit(40)]
    fn find_data_section(&mut self) -> (result: Result<(), Error>)
        requires
            old(self).wf(),
        ensures
            old(self)@.too_long(true) ==> (result matches Err(e) && e is IO),
            !old(self)@.too_long(true) ==> match old(self)@.seeks().found {
                Step::Moved { state, len } => result is Ok && final(self).wf() && final(self)@
                    == old(self)@.after(old(self)@.seeks().state, old(self)@.seeks().taken),
                Step::Failed(error) => result matches Err(e) && reports(error, e),
                _ => false,
            },
    {
        let ghost start = self@;
        let ghost goal = start.seeks();
        let ghost long = start.too_long(true);
        let ghost mut taken: int = 0;
        proof {
            lemma_after_after(start, start.state, 0, start.state, 0);
            assert(start.text().take(0) =~= Seq::<char>::empty());
            assert(start.rest.skip(0) =~= start.rest);
        }
        loop
            invariant
                self.wf(),
                start == old(self)@,
                goal == start.seeks(),
                0 <= taken <= start.text().len(),
                self@ == start.after(self@.state, taken),
                goal == (Parsed { taken: taken + self@.seeks().taken, ..self@.seeks() }),
                long == start.too_long(true),
                long == self@.too_long(true),
            decreases self.to_feed(), self.reader@.text().len(),
        {
            let ghost view = self@;
            let ghost before = *self;
            let ghost begin = self.reader@.text();
            let ghost complete = self.reader@.complete;
            let ghost data = self.reader@.buffer.data;
            let ghost more = text_of(
                self.reader@.buffer.held_back() + self.input@.skip(self.offset as int),
            );
            let ghost found = step(view.state, begin, complete);
            proof {
                self.lemma_text();
                lemma_stepped(view, begin, more, complete);
                lemma_after_after(start, view.state, taken, view.state, 0);
                assert(data =~= view.rest.take(data.len() as int));
                assert(begin == text_of(data));
                assert(complete ==> view.rest.len() == data.len()) by {
                    if complete {
                        assert(view.rest =~= data);
                    }
                }
                lemma_sought(view, data, complete);
            }
            match self.reader.state() {
                ReaderState::Body => {
                    return Ok(());
                },
                ReaderState::Done => {
                    return Ok(());
                },
                _ => {},
            }
            let polled = self.reader.step_over();
            match polled {
                Ok(true) => {
                    proof {
                        self.lemma_taken(before, self.reader@.state, step_len(found));
                        lemma_after_after(
                            start,
                            view.state,
                            taken,
                            self@.state,
                            step_len(found),
                        );
                        taken = taken + step_len(found);
                    }
                },
                Ok(false) => {
                    if self.reader.is_complete() {
                        return Err(Error::EndOfInput());
                    }
                    match self.feed() {
                        Ok(_) => {},
                        Err(e) => {
                            proof {
                                before.lemma_text();
                                if before.offset == before.input@.len() {
                                    assert(view.rest =~= data);
                                    assert(view.ends_badly());
                                    assert(more.len() == 0);
                                } else {
                                    assert(view.rest.len() == data.len() + before.input@.len()
                                        - before.offset);
                                }
                            }
                            return Err(e);
                        },
                    }
                },
                Err(e) => {
                    return Err(e);
                },
            }
        }
    }

    /// The next entry of the data section, or nothing where the section has
    /// ended: what the entry reader finds in the text of the file from where
    /// the parser stands. An element that is greater than the greatest
    /// buffer is an error.
    #[verifier::rlimit(40)]
    pub fn read_next_entry(&mut self) -> (result: Result<Option<StepEntry>, Error>)
        requires
            old(self).wf(),
        ensures
            final(self).wf(),
            handed(old(self)@.next_found(), result),
            !old(self)@.too_long(false) ==> final(self)@ == old(self)@.after(
                old(self)@.finds().state,
                old(self)@.finds().taken,
            ),
    {
        let ghost start = self@;
        let ghost goal = start.finds();
        let ghost long = start.too_long(false);
        let ghost mut taken: int = 0;
        proof {
            lemma_after_after(start, start.state, 0, start.state, 0);
            assert(start.text().take(0) =~= Seq::<char>::empty());
            assert(start.rest.skip(0) =~= start.rest);
        }
        loop
            invariant
                self.wf(),
                start == old(self)@,
                goal == start.finds(),
                0 <= taken <= start.text().len(),
                self@ == start.after(self@.state, taken),
                goal == (Parsed { taken: taken + self@.finds().taken, ..self@.finds() }),
                long == start.too_long(false),
                long == self@.too_long(false),
            decreases self.to_feed(),
        {
            let ghost view = self@;
            let ghost before = *self;
            let ghost begin = self.reader@.text();
            let ghost complete = self.reader@.complete;
            let ghost data = self.reader@.buffer.data;
            let ghost more = text_of(
                self.reader@.buffer.held_back() + self.input@.skip(self.offset as int),
            );
            let ghost found = drive(view.state, begin, 0, complete);
            proof {
                self.lemma_text();
                lemma_polled(view, begin, more, complete);
                lemma_after_after(start, view.state, taken, view.state, 0);
                assert(data =~= view.rest.take(data.len() as int));
                assert(begin == text_of(data));
                assert(complete ==> view.rest.len() == data.len()) by {
                    if complete {
                        assert(view.rest =~= data);
                    }
                }
                lemma_found(view, data, complete);
            }
            let polled = self.reader.poll();
            proof {
                self.lemma_taken(before, self.reader@.state, found.from + step_len(found.step));
                lemma_after_after(
                    start,
                    view.state,
                    taken,
                    self@.state,
                    found.from + step_len(found.step),
                );
                taken = taken + found.from + step_len(found.step);
            }
            match polled {
                Ok(ReadEvent::Entry(entry)) => {
                    return Ok(Some(entry));
                },
                Ok(ReadEvent::Finished) => {
                    return Ok(None);
                },
                Ok(ReadEvent::NeedInput) => {
                    if self.reader.is_complete() {
                        return Err(Error::EndOfInput());
                    }
                    let ghost reached = self@;
                    match self.feed() {
                        Ok(_) => {},
                        Err(e) => {
                            proof {
                                self.lemma_text();
                                before.lemma_text();
                                lemma_after_after(view, reached.state, found.from, reached.state, 0);
                                lemma_after_after(start, reached.state, taken, reached.state, 0);
                                if before.offset == before.input@.len() {
                                    assert(reached.rest =~= self.reader@.buffer.data);
                                    assert(reached.ends_badly());
                                    assert(view.ends_badly());
                                    assert(more.len() == 0);
                                } else {
                                    let bytes = encoded_len(begin.take(found.from)) as int;
                                    lemma_drive_bounds(view.state, begin, 0, complete);
                                    lemma_text_after_skip(data, found.from);
                                    lemma_valid_len(data);
                                    assert(self.reader@.buffer.data == data.skip(bytes));
                                    assert(reached.rest.len() == self.reader@.buffer.data.len()
                                        + before.input@.len() - before.offset);
                                    assert(reached == view.after(found.state, found.from));
                                    assert(long);
                                }
                            }
                            return Err(e);
                        },
                    }
                },
                Err(e) => {
                    return Err(e);
                },
            }
        }
    }

    /// All entries of the data section, in order. Where an entry cannot be
    /// read, its error is the last item.
    pub fn read_all(self) -> (items: Vec<Result<StepEntry, Error>>)
        requires
            self.wf(),
        ensures
            items@.len() == entries_from(self@).len(),
            forall|i: int|
                0 <= i < items@.len() ==> is_item(entries_from(self@)[i], #[trigger] items@[i]),
    {
        let mut parser = self;
        let mut items: Vec<Result<StepEntry, Error>> = Vec::new();
        loop
            invariant
                parser.wf(),
                entries_from(self@).len() == items@.len() + entries_from(parser@).len(),
                forall|i: int|
                    0 <= i < items@.len() ==> is_item(entries_from(self@)[i], #[trigger] items@[i]),
                forall|i: int|
                    0 <= i < entries_from(parser@).len() ==> entries_from(self@)[items@.len() + i]
                        == #[trigger] entries_from(parser@)[i],
            decreases parser@.rest.len(),
        {
            let ghost view = parser@;
            let ghost done = items@;
            proof {
                lemma_entry_takes_bytes(view);
            }
            match parser.next() {
                None => {
                    return items;
                },
                Some(Ok(entry)) => {
                    items.push(Ok(entry));
                    proof {
                        let rest = entries_from(parser@);
                        assert(entries_from(view) =~= seq![
                            Ok::<EntryView, ReadError>(entry@),
                        ] + rest);
                        assert forall|i: int| 0 <= i < items@.len() implies is_item(
                            entries_from(self@)[i],
                            #[trigger] items@[i],
                        ) by {
                            if i < done.len() {
                                assert(items@[i] == done[i]);
                            } else {
                                assert(entries_from(view)[0] == Ok::<EntryView, ReadError>(entry@));
                            }
                        }
                        assert forall|i: int| 0 <= i < rest.len() implies entries_from(
                            self@,
                        )[items@.len() + i] == #[trigger] rest[i] by {
                            assert(entries_from(view)[i + 1] == rest[i]);
                        }
                    }
                },
                Some(Err(e)) => {
                    items.push(Err(e));
                    proof {
                        assert forall|i: int| 0 <= i < items@.len() implies is_item(
                            entries_from(self@)[i],
                            #[trigger] items@[i],
                        ) by {
                            if i < done.len() {
                                assert(items@[i] == done[i]);
                            } else {
                                assert(entries_from(view)[0] == Err::<EntryView, ReadError>(
                                    view.next_found()->Failed_0,
                                ));
                            }
                        }
                    }
                    return items;
                },
            }
        }
    }

    /// The next entry, as an iterator hands it out: nothing where the data
    /// section has ended.
    pub fn next(&mut self) -> (item: Option<Result<StepEntry, Error>>)
        requires
            old(self).wf(),
        ensures
            final(self).wf(),
            handed(
                old(self)@.next_found(),
                match item {
                    Some(Ok(entry)) => Ok(Some(entry)),
                    Some(Err(e)) => Err(e),
                    None => Ok(None),
                },
            ),
            !old(self)@.too_long(false) ==> final(self)@ == old(self)@.after(
                old(self)@.finds().state,
                old(self)@.finds().taken,
            ),
    {
        match self.read_next_entry() {
            Ok(Some(entry)) => Some(Ok(entry)),
            Ok(None) => None,
            Err(e) => Some(Err(e)),
        }
    }
}

} // verus!
