//! The byte buffer under the reader: it takes the bytes of the input in as
//! they arrive, shows the longest valid UTF-8 beginning of what it holds as
//! text, and gives up the bytes that were read.

use vstd::prelude::*;
use vstd::slice::slice_subrange;
use vstd::string::*;
use vstd::utf8::{encode_utf8, encode_utf8_decode_utf8, valid_utf8};
use crate::utf8::{
    encoded_len, lemma_longest_valid_is_valid_len, lemma_text_after_skip, lemma_valid_len,
    longest_valid, text_of, valid_len,
};

verus! {

/// The buffer of the crate `circular`: a run of bytes to read, in front of
/// free space to write to.
#[verifier::external_type_specification]
#[verifier::external_body]
pub struct ExBuffer(circular::Buffer);

/// The bytes that the buffer holds and that were not consumed yet: what
/// `Buffer::data` shows.
pub uninterp spec fn buffer_data(buffer: circular::Buffer) -> Seq<u8>;

/// The capacity that the buffer was made with or has grown to.
pub uninterp spec fn buffer_capacity(buffer: circular::Buffer) -> nat;

/// The number of bytes that the buffer takes before it is full: what
/// `Buffer::available_space` tells.
pub uninterp spec fn buffer_space(buffer: circular::Buffer) -> nat;

/// `Buffer::with_capacity`: a buffer of the given capacity that holds no
/// byte, all of it free space.
#[verifier::external_body]
fn buffer_with_capacity(capacity: usize) -> (buffer: circular::Buffer)
    requires
        capacity <= isize::MAX,
    ensures
        buffer_data(buffer) == Seq::<u8>::empty(),
        buffer_capacity(buffer) == capacity,
        buffer_space(buffer) == capacity,
{
    circular::Buffer::with_capacity(capacity)
}

/// `Buffer::grow`: a buffer whose capacity is below `new_size` gets that
/// capacity, and the added capacity is free space; the bytes stay. The
/// result tells whether the buffer has grown.
#[verifier::external_body]
fn buffer_grow(buffer: &mut circular::Buffer, new_size: usize) -> (grown: bool)
    requires
        new_size <= isize::MAX,
    ensures
        grown == (buffer_capacity(*old(buffer)) < new_size),
        buffer_data(*final(buffer)) == buffer_data(*old(buffer)),
        buffer_capacity(*final(buffer)) == if grown {
            new_size as nat
        } else {
            buffer_capacity(*old(buffer))
        },
        buffer_space(*final(buffer)) == buffer_space(*old(buffer)) + buffer_capacity(
            *final(buffer),
        ) - buffer_capacity(*old(buffer)),
{
    buffer.grow(new_size)
}

/// `Buffer::capacity`.
#[verifier::external_body]
fn buffer_capacity_of(buffer: &circular::Buffer) -> (capacity: usize)
    ensures
        capacity == buffer_capacity(*buffer),
{
    buffer.capacity()
}

/// `Buffer::available_data`: the number of bytes to read.
#[verifier::external_body]
fn buffer_available_data(buffer: &circular::Buffer) -> (count: usize)
    ensures
        count == buffer_data(*buffer).len(),
{
    buffer.available_data()
}

/// `Buffer::available_space`: the number of bytes of free space, which
/// together with the bytes to read is no more than the capacity.
#[verifier::external_body]
fn buffer_available_space(buffer: &circular::Buffer) -> (count: usize)
    ensures
        count == buffer_space(*buffer),
        buffer_data(*buffer).len() + count <= buffer_capacity(*buffer),
{
    buffer.available_space()
}

/// `Buffer::consume`: the first `count` bytes, or all where there are
/// fewer, are given up; the result is their number. The buffer may move what
/// is left to its front, which frees space and never takes any.
#[verifier::external_body]
fn buffer_consume(buffer: &mut circular::Buffer, count: usize) -> (consumed: usize)
    ensures
        consumed == if count <= buffer_data(*old(buffer)).len() {
            count as nat
        } else {
            buffer_data(*old(buffer)).len()
        },
        buffer_data(*final(buffer)) == buffer_data(*old(buffer)).skip(consumed as int),
        buffer_capacity(*final(buffer)) == buffer_capacity(*old(buffer)),
        buffer_space(*final(buffer)) >= buffer_space(*old(buffer)),
{
    buffer.consume(count)
}

/// `Buffer::shift`: the bytes to read are moved to the front of the buffer,
/// so that all the capacity behind them is free space.
#[verifier::external_body]
fn buffer_shift(buffer: &mut circular::Buffer)
    ensures
        buffer_data(*final(buffer)) == buffer_data(*old(buffer)),
        buffer_capacity(*final(buffer)) == buffer_capacity(*old(buffer)),
        buffer_data(*final(buffer)).len() + buffer_space(*final(buffer)) == buffer_capacity(
            *final(buffer),
        ),
{
    buffer.shift()
}

/// `Write::write` of the buffer: as many of the bytes as there is free space
/// for are added behind the bytes to read; the result is their number. The
/// buffer may move its bytes to its front, which frees space.
#[verifier::external_body]
fn buffer_write(buffer: &mut circular::Buffer, bytes: &[u8]) -> (written: usize)
    ensures
        written == if bytes@.len() <= buffer_space(*old(buffer)) {
            bytes@.len()
        } else {
            buffer_space(*old(buffer))
        },
        buffer_data(*final(buffer)) == buffer_data(*old(buffer)) + bytes@.take(written as int),
        buffer_capacity(*final(buffer)) == buffer_capacity(*old(buffer)),
        buffer_space(*final(buffer)) + written >= buffer_space(*old(buffer)),
{
    match std::io::Write::write(buffer, bytes) {
        Ok(written) => written,
        Err(_) => 0,
    }
}

/// `Buffer::data`: the bytes to read.
#[verifier::external_body]
fn buffer_as_slice(buffer: &circular::Buffer) -> (data: &[u8])
    ensures
        data@ == buffer_data(*buffer),
{
    buffer.data()
}

/// `str::from_utf8` of std, with `Utf8Error::valid_up_to` of the error
/// where it fails: nothing for bytes that are valid UTF-8, else the length of
/// their longest beginning that is valid UTF-8.
#[verifier::external_body]
fn utf8_error_offset(bytes: &[u8]) -> (offset: Option<usize>)
    ensures
        offset is None <==> valid_utf8(bytes@),
        offset matches Some(n) ==> longest_valid(bytes@, n as int),
{
    match std::str::from_utf8(bytes) {
        Ok(_) => None,
        Err(e) => Some(e.valid_up_to()),
    }
}

/// The length of the longest beginning of the bytes that is valid UTF-8.
fn utf8_valid_up_to(bytes: &[u8]) -> (n: usize)
    ensures
        n == valid_len(bytes@),
{
    let n = match utf8_error_offset(bytes) {
        Some(n) => n,
        None => {
            assert(bytes@.take(bytes@.len() as int) =~= bytes@);
            bytes.len()
        },
    };
    proof {
        lemma_longest_valid_is_valid_len(bytes@, n as int);
    }
    n
}

/// `str::from_utf8` of std: the text that the bytes encode, where they are
/// valid UTF-8, and nothing where they are not.
#[verifier::external_body]
fn str_from_utf8(bytes: &[u8]) -> (text: Option<&str>)
    ensures
        text is Some <==> valid_utf8(bytes@),
        text matches Some(t) ==> encode_utf8(t@) == bytes@,
{
    std::str::from_utf8(bytes).ok()
}

/// The capacity that a buffer begins with.
pub const BUFFER_SIZE_START: usize = 1024;

/// The factor by which a buffer grows.
pub const BUFFER_GROWTH_FACTOR: usize = 2;

/// The capacity that no buffer grows beyond.
pub const BUFFER_SIZE_MAX: usize = 0x4000_0000;

/// What a buffered reader is to a reader of the crate.
pub struct BufferView {
    /// The bytes that were taken in and not consumed.
    pub data: Seq<u8>,
    /// The capacity.
    pub capacity: nat,
    /// The number of bytes that can be taken in before the buffer is full.
    pub space: nat,
}

impl BufferView {
    /// The text of the buffer: what the longest valid UTF-8 beginning of its
    /// bytes encodes.
    pub open spec fn text(self) -> Seq<char> {
        text_of(self.data)
    }

    /// The bytes behind the text: the beginning of a character whose other
    /// bytes have not arrived, or bytes that are not UTF-8.
    pub open spec fn held_back(self) -> Seq<u8> {
        self.data.skip(valid_len(self.data))
    }
}

/// A buffer of bytes that shows its valid UTF-8 beginning as text.
pub struct BufferedReader {
    /// The bytes.
    buffer: circular::Buffer,
    /// The number of bytes, from the first on, that are valid UTF-8.
    num_valid_utf8_bytes: usize,
}

impl View for BufferedReader {
    type V = BufferView;

    closed spec fn view(&self) -> BufferView {
        BufferView {
            data: buffer_data(self.buffer),
            capacity: buffer_capacity(self.buffer),
            space: buffer_space(self.buffer),
        }
    }
}

impl BufferedReader {
    /// The number of valid bytes is that of the longest valid beginning.
    #[verifier::type_invariant]
    spec fn counts_valid_bytes(self) -> bool {
        &&& self.num_valid_utf8_bytes == valid_len(buffer_data(self.buffer))
        &&& buffer_data(self.buffer).len() + buffer_space(self.buffer) <= buffer_capacity(
            self.buffer,
        )
        &&& 1 <= buffer_capacity(self.buffer) <= BUFFER_SIZE_MAX
    }

    /// A reader over the given buffer.
    fn over(buffer: circular::Buffer) -> (reader: Self)
        requires
            buffer_data(buffer).len() + buffer_space(buffer) <= buffer_capacity(buffer),
            1 <= buffer_capacity(buffer) <= BUFFER_SIZE_MAX,
        ensures
            reader@.data == buffer_data(buffer),
            reader@.capacity == buffer_capacity(buffer),
            reader@.space == buffer_space(buffer),
    {
        let valid = utf8_valid_up_to(buffer_as_slice(&buffer));
        BufferedReader { buffer, num_valid_utf8_bytes: valid }
    }

    /// Takes the buffer out of the reader.
    fn release(&mut self) -> (buffer: circular::Buffer)
        ensures
            buffer_data(buffer) == old(self)@.data,
            buffer_capacity(buffer) == old(self)@.capacity,
            buffer_space(buffer) == old(self)@.space,
            buffer_data(buffer).len() + buffer_space(buffer) <= buffer_capacity(buffer),
            1 <= buffer_capacity(buffer) <= BUFFER_SIZE_MAX,
    {
        let mut taken = Self::over(buffer_with_capacity(1));
        std::mem::swap(self, &mut taken);
        proof {
            use_type_invariant(&taken);
        }
        taken.buffer
    }

    /// A reader with an empty buffer of the starting capacity.
    pub fn new() -> (reader: Self)
        ensures
            reader@.data.len() == 0,
            reader@.capacity == BUFFER_SIZE_START,
            reader@.space == BUFFER_SIZE_START,
    {
        Self::over(buffer_with_capacity(BUFFER_SIZE_START))
    }

    /// Doubles the capacity, up to the greatest capacity that a buffer has.
    /// The bytes stay.
    pub fn grow(&mut self)
        ensures
            final(self)@.data == old(self)@.data,
            final(self)@.capacity == if old(self)@.capacity * 2 <= BUFFER_SIZE_MAX {
                old(self)@.capacity * 2
            } else {
                BUFFER_SIZE_MAX as nat
            },
            final(self)@.space == old(self)@.space + final(self)@.capacity - old(self)@.capacity,
    {
        let mut buffer = self.release();
        let capacity = buffer_capacity_of(&buffer);
        let new_capacity = if capacity <= BUFFER_SIZE_MAX / BUFFER_GROWTH_FACTOR {
            BUFFER_GROWTH_FACTOR * capacity
        } else {
            BUFFER_SIZE_MAX
        };
        buffer_grow(&mut buffer, new_capacity);
        *self = Self::over(buffer);
    }

    /// Makes room for more bytes. Where the buffer has free space, nothing
    /// happens. Else the bytes are moved to the front of the buffer; where
    /// that frees no space, because the buffer is full, the capacity is
    /// doubled. The result is the number of bytes that `fill` takes; it is 0
    /// only where the buffer holds as many bytes as the greatest capacity.
    pub fn make_room(&mut self) -> (space: usize)
        ensures
            space == final(self)@.space,
            final(self)@.data == old(self)@.data,
            old(self)@.space > 0 ==> final(self)@ == old(self)@,
            old(self)@.space == 0 ==> final(self)@.space == final(self)@.capacity
                - old(self)@.data.len(),
            old(self)@.space == 0 ==> final(self)@.capacity == if old(self)@.data.len()
                < old(self)@.capacity {
                old(self)@.capacity
            } else if old(self)@.capacity * 2 <= BUFFER_SIZE_MAX {
                old(self)@.capacity * 2
            } else {
                BUFFER_SIZE_MAX as nat
            },
            space == 0 ==> old(self)@.data.len() == BUFFER_SIZE_MAX,
            old(self)@.data.len() + space <= BUFFER_SIZE_MAX,
    {
        proof {
            use_type_invariant(&*self);
        }
        let available = buffer_available_space(&self.buffer);
        if available > 0 {
            return available;
        }
        let mut buffer = self.release();
        buffer_shift(&mut buffer);
        if buffer_available_space(&buffer) == 0 {
            let capacity = buffer_capacity_of(&buffer);
            let new_capacity = if capacity <= BUFFER_SIZE_MAX / BUFFER_GROWTH_FACTOR {
                BUFFER_GROWTH_FACTOR * capacity
            } else {
                BUFFER_SIZE_MAX
            };
            buffer_grow(&mut buffer, new_capacity);
        }
        let space = buffer_available_space(&buffer);
        *self = Self::over(buffer);
        space
    }

    /// The number of bytes that `fill` takes.
    pub fn space(&self) -> (space: usize)
        ensures
            space == self@.space,
    {
        buffer_available_space(&self.buffer)
    }

    /// The capacity.
    pub fn capacity(&self) -> (capacity: usize)
        ensures
            capacity == self@.capacity,
    {
        buffer_capacity_of(&self.buffer)
    }

    /// The number of bytes that the buffer holds.
    pub fn available_data(&self) -> (count: usize)
        ensures
            count == self@.data.len(),
    {
        buffer_available_data(&self.buffer)
    }

    /// The number of bytes behind the text.
    pub fn held_back(&self) -> (count: usize)
        ensures
            count == self@.held_back().len(),
    {
        proof {
            use_type_invariant(self);
            lemma_valid_len(self@.data);
        }
        buffer_available_data(&self.buffer) - self.num_valid_utf8_bytes
    }

    /// Takes the bytes in, behind those that the buffer holds.
    pub fn fill(&mut self, bytes: &[u8])
        requires
            bytes@.len() <= old(self)@.space,
        ensures
            final(self)@.data == old(self)@.data + bytes@,
            final(self)@.capacity == old(self)@.capacity,
            final(self)@.space + bytes@.len() >= old(self)@.space,
    {
        let mut buffer = self.release();
        let written = buffer_write(&mut buffer, bytes);
        assert(bytes@.take(written as int) =~= bytes@);
        let available = buffer_available_space(&buffer);
        *self = Self::over(buffer);
    }

    /// Gives up the first `n` bytes, which are the bytes of the first
    /// characters of the text.
    pub fn consumed(&mut self, n: usize)
        requires
            exists|k: int| 0 <= k <= old(self)@.text().len() && n == encoded_len(
                #[trigger] old(self)@.text().take(k),
            ),
        ensures
            final(self)@.data == old(self)@.data.skip(n as int),
            final(self)@.capacity == old(self)@.capacity,
            final(self)@.space >= old(self)@.space,
            forall|k: int|
                0 <= k <= old(self)@.text().len() && n == encoded_len(
                    #[trigger] old(self)@.text().take(k),
                ) ==> final(self)@.text() == old(self)@.text().skip(k),
    {
        proof {
            let k = choose|k: int|
                0 <= k <= self@.text().len() && n == encoded_len(#[trigger] self@.text().take(k));
            lemma_text_after_skip(self@.data, k);
            lemma_valid_len(self@.data);
            assert forall|j: int|
                0 <= j <= self@.text().len() && n == encoded_len(
                    #[trigger] self@.text().take(j),
                ) implies text_of(self@.data.skip(n as int)) == self@.text().skip(j) by {
                lemma_text_after_skip(self@.data, j);
            }
        }
        let mut buffer = self.release();
        buffer_consume(&mut buffer, n);
        let available = buffer_available_space(&buffer);
        *self = Self::over(buffer);
    }

    /// Whether the buffer holds at least a quarter of what it can hold, so
    /// that there is no need to take more bytes in before it is read.
    pub fn check_if_filled_enough(&self) -> (enough: bool)
        ensures
            enough == (self@.data.len() * 4 >= self@.capacity),
    {
        proof {
            use_type_invariant(self);
        }
        let data = buffer_available_data(&self.buffer);
        let capacity = buffer_capacity_of(&self.buffer);
        let available = buffer_available_space(&self.buffer);
        data >= capacity / 4 && (data > capacity / 4 || capacity % 4 == 0)
    }

    /// The text of the buffer.
    pub fn as_str(&self) -> (text: &str)
        ensures
            text@ == self@.text(),
            text@.len() <= self@.data.len() <= BUFFER_SIZE_MAX,
    {
        broadcast use encode_utf8_decode_utf8;

        proof {
            use_type_invariant(self);
            lemma_valid_len(self@.data);
            crate::utf8::lemma_encoded_len_at_least(self@.text());
        }
        let data = buffer_as_slice(&self.buffer);
        let valid = slice_subrange(data, 0, self.num_valid_utf8_bytes);
        assert(valid@ =~= self@.data.take(valid_len(self@.data)));
        match str_from_utf8(valid) {
            Some(text) => text,
            None => "",
        }
    }
}

} // verus!
