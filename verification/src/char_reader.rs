//! A cursor over the characters of a text that knows how many bytes of the
//! text lie behind it.

use vstd::prelude::*;
use vstd::string::*;
use crate::error::Error;
use crate::text::{all_digits, decimal_value, parse_decimal, push_chars};
use crate::utf8::{
    char_width, encoded_len, lemma_encoded_len_push, lemma_encoded_len_take,
};

verus! {

/// What a character reader is to a reader of the crate: its text and the
/// number of characters that were read.
pub struct CharReaderView {
    pub text: Seq<char>,
    pub position: nat,
}

impl CharReaderView {
    /// The characters that are still to be read.
    pub open spec fn rest(self) -> Seq<char> {
        self.text.skip(self.position as int)
    }

    /// The number of bytes that encode the characters that were read.
    pub open spec fn consumed_bytes(self) -> nat {
        encoded_len(self.text.take(self.position as int))
    }
}

/// A reader of the characters of a text, from the first to the last.
pub struct CharReader {
    /// The characters of the text.
    buffer: Vec<char>,
    /// For each number of characters, the number of bytes that encode that
    /// many characters from the first on.
    offsets: Vec<usize>,
    /// The position inside the buffer.
    pos: usize,
}

impl View for CharReader {
    type V = CharReaderView;

    closed spec fn view(&self) -> CharReaderView {
        CharReaderView { text: self.buffer@, position: self.pos as nat }
    }
}

/// The number of bytes that encode `c`.
fn width_of(c: char) -> (width: usize)
    ensures
        width == char_width(c),
{
    let v: u32 = c as u32;
    if v <= 0x7F {
        1
    } else if v <= 0x7FF {
        2
    } else if v <= 0xFFFF {
        3
    } else {
        4
    }
}

impl CharReader {
    /// The position lies in the text, and the offsets are those of the text.
    #[verifier::type_invariant]
    spec fn in_step(self) -> bool {
        &&& self.pos <= self.buffer@.len()
        &&& self.offsets@.len() == self.buffer@.len() + 1
        &&& forall|i: int|
            0 <= i <= self.buffer@.len() ==> (#[trigger] self.offsets@[i]) == encoded_len(
                self.buffer@.take(i),
            )
    }

    /// A reader at the beginning of `text`.
    pub fn new(text: &str) -> (reader: Self)
        ensures
            reader@.text == text@,
            reader@.position == 0,
    {
        let buffer = crate::text::chars_of(text);
        let total = text.as_bytes().len();
        let mut offsets: Vec<usize> = Vec::new();
        offsets.push(0);
        let mut i: usize = 0;
        assert(buffer@.take(0) =~= Seq::<char>::empty());
        while i < buffer.len()
            invariant
                i <= buffer.len(),
                buffer@ == text@,
                total == encoded_len(buffer@),
                offsets@.len() == i + 1,
                forall|j: int|
                    0 <= j <= i ==> (#[trigger] offsets@[j]) == encoded_len(buffer@.take(j)),
            decreases buffer.len() - i,
        {
            proof {
                lemma_encoded_len_push(buffer@.take(i as int), buffer@[i as int]);
                assert(buffer@.take(i as int).push(buffer@[i as int]) =~= buffer@.take(i + 1));
                lemma_encoded_len_take(buffer@, i + 1);
            }
            offsets.push(offsets[i] + width_of(buffer[i]));
            i += 1;
        }
        CharReader { buffer, offsets, pos: 0 }
    }

    /// A reader at the beginning of the first `limit` characters of `text`,
    /// or of all of it where it has fewer. The second result tells whether the
    /// reader holds all of `text`.
    pub fn with_limit(text: &str, limit: usize) -> (result: (Self, bool))
        ensures
            result.0@.position == 0,
            result.0@.text == text@.take(
                if limit <= text@.len() {
                    limit as int
                } else {
                    text@.len() as int
                },
            ),
            result.1 == (text@.len() <= limit),
    {
        let buffer = crate::text::first_chars(text, limit);
        let total = text.as_bytes().len();
        proof {
            crate::utf8::lemma_encoded_len_at_least(text@);
        }
        let mut offsets: Vec<usize> = Vec::new();
        offsets.push(0);
        let mut i: usize = 0;
        assert(buffer@.take(0) =~= Seq::<char>::empty());
        proof {
            lemma_encoded_len_take(text@, buffer@.len() as int);
        }
        while i < buffer.len()
            invariant
                i <= buffer.len(),
                buffer@.len() <= text@.len(),
                buffer@ == text@.take(buffer@.len() as int),
                total == encoded_len(text@),
                encoded_len(buffer@) <= total,
                offsets@.len() == i + 1,
                forall|j: int|
                    0 <= j <= i ==> (#[trigger] offsets@[j]) == encoded_len(buffer@.take(j)),
            decreases buffer.len() - i,
        {
            proof {
                lemma_encoded_len_push(buffer@.take(i as int), buffer@[i as int]);
                assert(buffer@.take(i as int).push(buffer@[i as int]) =~= buffer@.take(i + 1));
                lemma_encoded_len_take(buffer@, i + 1);
            }
            offsets.push(offsets[i] + width_of(buffer[i]));
            i += 1;
        }
        let whole = offsets[buffer.len()] == total;
        proof {
            assert(buffer@.take(buffer@.len() as int) =~= buffer@);
            lemma_encoded_len_take(text@, buffer@.len() as int);
            let rest = text@.skip(buffer@.len() as int);
            if rest.len() > 0 {
                lemma_encoded_len_push(rest.take(0), rest[0]);
                assert(rest.take(0).push(rest[0]) =~= rest.take(1));
                lemma_encoded_len_take(rest, 1);
            } else {
                assert(text@ =~= buffer@);
            }
        }
        (CharReader { buffer, offsets, pos: 0 }, whole)
    }

    /// The next character, or nothing at the end of the text. The call does
    /// not fail.
    pub fn read(&mut self) -> (result: Result<Option<char>, Error>)
        ensures
            result is Ok,
            final(self)@.text == old(self)@.text,
            old(self)@.rest().len() == 0 ==> result == Ok::<Option<char>, Error>(None)
                && final(self)@ == old(self)@,
            old(self)@.rest().len() > 0 ==> result == Ok::<Option<char>, Error>(
                Some(old(self)@.rest()[0]),
            ) && final(self)@.position == old(self)@.position + 1,
    {
        proof {
            use_type_invariant(&*self);
        }
        if self.pos < self.buffer.len() {
            let c = self.buffer[self.pos];
            self.pos = self.pos + 1;
            Ok(Some(c))
        } else {
            Ok(None)
        }
    }

    /// The character that lies `offset` characters ahead, or nothing where
    /// the text ends before it.
    pub fn peek_at(&self, offset: usize) -> (c: Option<char>)
        ensures
            c == if offset < self@.rest().len() {
                Some(self@.rest()[offset as int])
            } else {
                None
            },
    {
        proof {
            use_type_invariant(self);
        }
        if offset < self.buffer.len() - self.pos {
            Some(self.buffer[self.pos + offset])
        } else {
            None
        }
    }

    /// The number of characters that are still to be read.
    pub fn remaining(&self) -> (count: usize)
        ensures
            count == self@.rest().len(),
            self@.position + count == self@.text.len(),
    {
        proof {
            use_type_invariant(self);
        }
        self.buffer.len() - self.pos
    }

    /// Passes over the next `count` characters.
    pub fn advance(&mut self, count: usize)
        requires
            count <= old(self)@.rest().len(),
        ensures
            final(self)@.text == old(self)@.text,
            final(self)@.position == old(self)@.position + count,
    {
        proof {
            use_type_invariant(&*self);
            assert(self@.rest().len() == self.buffer@.len() - self.pos);
        }
        let length = self.buffer.len();
        self.pos = self.pos + count;
    }

    /// The characters that lie from `from` to `to` characters ahead, as a
    /// string.
    pub fn text_ahead(&self, from: usize, to: usize) -> (text: String)
        requires
            from <= to <= self@.rest().len(),
        ensures
            text@ == self@.rest().subrange(from as int, to as int),
    {
        proof {
            use_type_invariant(self);
            assert(self@.rest().len() == self.buffer@.len() - self.pos);
        }
        let length = self.buffer.len();
        let mut text = String::new();
        push_chars(&mut text, &self.buffer, self.pos + from, self.pos + to);
        assert(text@ =~= self@.rest().subrange(from as int, to as int));
        text
    }

    /// The number that the digits from `from` to `to` characters ahead
    /// denote, or nothing where it does not fit into 64 bits.
    pub fn number_ahead(&self, from: usize, to: usize) -> (value: Option<u64>)
        requires
            from <= to <= self@.rest().len(),
            all_digits(self@.rest().subrange(from as int, to as int)),
        ensures
            value is Some <==> decimal_value(self@.rest().subrange(from as int, to as int))
                <= u64::MAX,
            value matches Some(v) ==> v == decimal_value(
                self@.rest().subrange(from as int, to as int),
            ),
    {
        proof {
            use_type_invariant(self);
            assert(self@.rest().len() == self.buffer@.len() - self.pos);
            assert(self.buffer@.subrange(self.pos + from, self.pos + to) =~= self@.rest().subrange(
                from as int,
                to as int,
            ));
        }
        let length = self.buffer.len();
        parse_decimal(&self.buffer, self.pos + from, self.pos + to)
    }

    /// The number of characters that were read.
    pub fn position(&self) -> (position: usize)
        ensures
            position == self@.position,
    {
        self.pos
    }

    /// The number of bytes that encode the characters that were read.
    pub fn consumed_bytes(&self) -> (bytes: usize)
        ensures
            bytes == self@.consumed_bytes(),
    {
        proof {
            use_type_invariant(self);
        }
        self.offsets[self.pos]
    }
}

} // verus!
