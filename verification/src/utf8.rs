//! What the reader needs to know of UTF-8: the longest valid beginning of
//! a run of bytes, and how the bytes of a text divide where the text is
//! divided.

use vstd::prelude::*;
use vstd::utf8::{
    decode_first_scalar, decode_utf8, decode_utf8_encode_utf8, encode_scalar, encode_utf8,
    encode_utf8_decode_utf8, encode_utf8_valid_utf8, length_of_first_scalar, pop_first_scalar,
    valid_first_scalar, valid_utf8, valid_utf8_concat,
};

verus! {

/// Whether the first `n` bytes of `data` are the longest beginning of `data`
/// that is valid UTF-8.
pub open spec fn longest_valid(data: Seq<u8>, n: int) -> bool {
    &&& 0 <= n <= data.len()
    &&& valid_utf8(data.take(n))
    &&& forall|m: int| n < m <= data.len() ==> !valid_utf8(#[trigger] data.take(m))
}

/// The length of the longest beginning of `data`, of no more than `limit`
/// bytes, that is valid UTF-8.
pub open spec fn valid_len_within(data: Seq<u8>, limit: int) -> int
    decreases limit,
{
    if limit <= 0 {
        0
    } else if limit <= data.len() && valid_utf8(data.take(limit)) {
        limit
    } else {
        valid_len_within(data, limit - 1)
    }
}

/// The length of the longest beginning of `data` that is valid UTF-8.
pub open spec fn valid_len(data: Seq<u8>) -> int {
    valid_len_within(data, data.len() as int)
}

/// The text that the longest valid beginning of `data` encodes.
pub open spec fn text_of(data: Seq<u8>) -> Seq<char> {
    decode_utf8(data.take(valid_len(data)))
}

/// The number of bytes that encode `text`.
pub open spec fn encoded_len(text: Seq<char>) -> nat {
    encode_utf8(text).len()
}

/// The number of bytes that encode `c`.
pub open spec fn char_width(c: char) -> nat {
    encode_scalar(c as u32).len()
}

proof fn lemma_valid_len_within(data: Seq<u8>, limit: int)
    requires
        0 <= limit <= data.len(),
    ensures
        0 <= valid_len_within(data, limit) <= limit,
        valid_utf8(data.take(valid_len_within(data, limit))),
        forall|m: int|
            valid_len_within(data, limit) < m <= limit ==> !valid_utf8(#[trigger] data.take(m)),
    decreases limit,
{
    if limit <= 0 {
        assert(data.take(0) =~= Seq::<u8>::empty());
    } else if valid_utf8(data.take(limit)) {
    } else {
        lemma_valid_len_within(data, limit - 1);
    }
}

/// `valid_len` is the length of the longest valid beginning.
pub proof fn lemma_valid_len(data: Seq<u8>)
    ensures
        longest_valid(data, valid_len(data)),
{
    lemma_valid_len_within(data, data.len() as int);
}

/// There is one longest valid beginning.
pub proof fn lemma_longest_valid_is_valid_len(data: Seq<u8>, n: int)
    requires
        longest_valid(data, n),
    ensures
        n == valid_len(data),
{
    lemma_valid_len(data);
    let v = valid_len(data);
    if n < v {
        assert(!valid_utf8(data.take(v)));
    } else if v < n {
        assert(!valid_utf8(data.take(n)));
    }
}

/// The bytes of two texts, one after the other, are the bytes of the first
/// followed by the bytes of the second.
pub proof fn lemma_encode_concat(a: Seq<char>, b: Seq<char>)
    ensures
        encode_utf8(a + b) == encode_utf8(a) + encode_utf8(b),
    decreases a.len(),
{
    if a.len() == 0 {
        assert(a + b =~= b);
        assert(encode_utf8(a) + encode_utf8(b) =~= encode_utf8(b));
    } else {
        lemma_encode_concat(a.drop_first(), b);
        assert((a + b)[0] == a[0]);
        assert((a + b).drop_first() =~= a.drop_first() + b);
        assert(encode_scalar(a[0] as u32) + (encode_utf8(a.drop_first()) + encode_utf8(b))
            =~= encode_scalar(a[0] as u32) + encode_utf8(a.drop_first()) + encode_utf8(b));
    }
}

/// One more character adds its width to the number of bytes of a text.
pub proof fn lemma_encoded_len_push(text: Seq<char>, c: char)
    ensures
        encoded_len(text.push(c)) == encoded_len(text) + char_width(c),
        1 <= char_width(c) <= 4,
{
    lemma_encode_concat(text, seq![c]);
    assert(text + seq![c] =~= text.push(c));
    assert(seq![c].drop_first() =~= Seq::<char>::empty());
    assert(encode_utf8(seq![c].drop_first()) =~= Seq::<u8>::empty());
    assert(encode_utf8(seq![c]) =~= encode_scalar(c as u32));
}

/// A text takes at least one byte for each of its characters.
pub proof fn lemma_encoded_len_at_least(text: Seq<char>)
    ensures
        text.len() <= encoded_len(text),
    decreases text.len(),
{
    if text.len() > 0 {
        lemma_encoded_len_at_least(text.drop_last());
        lemma_encoded_len_push(text.drop_last(), text.last());
        assert(text.drop_last().push(text.last()) =~= text);
    }
}

/// The number of bytes of a beginning of a text is no more than that of the
/// text.
pub proof fn lemma_encoded_len_take(text: Seq<char>, k: int)
    requires
        0 <= k <= text.len(),
    ensures
        encoded_len(text.take(k)) + encoded_len(text.skip(k)) == encoded_len(text),
{
    lemma_encode_concat(text.take(k), text.skip(k));
    assert(text.take(k) + text.skip(k) =~= text);
}

/// Where the bytes of the first `k` characters of the text of `data` are
/// taken away, the text of what is left is the text without its first `k`
/// characters, and its valid beginning is shorter by the bytes taken.
pub proof fn lemma_text_after_skip(data: Seq<u8>, k: int)
    requires
        0 <= k <= text_of(data).len(),
    ensures
        encoded_len(text_of(data).take(k)) <= valid_len(data),
        valid_len(data.skip(encoded_len(text_of(data).take(k)) as int)) == valid_len(data)
            - encoded_len(text_of(data).take(k)),
        text_of(data.skip(encoded_len(text_of(data).take(k)) as int)) == text_of(data).skip(k),
{
    broadcast use encode_utf8_valid_utf8, encode_utf8_decode_utf8;

    lemma_valid_len(data);
    let v = valid_len(data);
    let text = text_of(data);
    let head = text.take(k);
    let tail = text.skip(k);
    let n = encoded_len(head) as int;
    decode_utf8_encode_utf8(data.take(v));
    assert(encode_utf8(text) == data.take(v));
    lemma_encode_concat(head, tail);
    assert(head + tail =~= text);
    assert(data.take(v) == encode_utf8(head) + encode_utf8(tail));
    assert(n <= v);
    let rest = data.skip(n);
    assert(rest.take(v - n) =~= encode_utf8(tail)) by {
        assert(data.take(v).skip(n) =~= encode_utf8(tail));
        assert(rest.take(v - n) =~= data.take(v).skip(n));
    }
    assert(data.take(n) =~= encode_utf8(head)) by {
        assert(data.take(v).take(n) =~= encode_utf8(head));
        assert(data.take(n) =~= data.take(v).take(n));
    }
    assert forall|m: int| v - n < m <= rest.len() implies !valid_utf8(#[trigger] rest.take(m)) by {
        if valid_utf8(rest.take(m)) {
            valid_utf8_concat(data.take(n), rest.take(m));
            assert(data.take(n) + rest.take(m) =~= data.take(n + m));
            assert(!valid_utf8(data.take(n + m)));
        }
    }
    assert(longest_valid(rest, v - n));
    lemma_longest_valid_is_valid_len(rest, v - n);
}

/// Where bytes that are valid UTF-8 are followed by more bytes, and all of
/// them together are valid UTF-8, the bytes that follow are valid UTF-8 too,
/// and the text of all is the text of the first followed by the text of the
/// others.
pub proof fn lemma_valid_suffix(a: Seq<u8>, b: Seq<u8>)
    requires
        valid_utf8(a),
        valid_utf8(a + b),
    ensures
        valid_utf8(b),
        decode_utf8(a + b) == decode_utf8(a) + decode_utf8(b),
    decreases a.len(),
{
    if a.len() == 0 {
        assert(a + b =~= b);
        assert(decode_utf8(a) + decode_utf8(b) =~= decode_utf8(b));
    } else {
        let all = a + b;
        assert(all[0] == a[0]);
        assert(valid_first_scalar(a));
        let width = length_of_first_scalar(a);
        assert(width == length_of_first_scalar(all));
        assert(width <= a.len());
        assert forall|i: int| 0 <= i < width implies all[i] == a[i] by {}
        assert(decode_first_scalar(all) == decode_first_scalar(a));
        assert(pop_first_scalar(all) =~= pop_first_scalar(a) + b);
        lemma_valid_suffix(pop_first_scalar(a), b);
        assert(decode_utf8(all) =~= decode_utf8(a) + decode_utf8(b));
    }
}

/// The text of bytes with more bytes behind them begins with the text of
/// the bytes; what follows is the text of the bytes that were held back
/// together with the new bytes.
pub proof fn lemma_text_of_longer(a: Seq<u8>, b: Seq<u8>)
    ensures
        valid_len(a) <= valid_len(a + b),
        valid_len(a + b) == valid_len(a) + valid_len(a.skip(valid_len(a)) + b),
        text_of(a + b) == text_of(a) + text_of(a.skip(valid_len(a)) + b),
{
    lemma_valid_len(a);
    lemma_valid_len(a + b);
    let all = a + b;
    let v = valid_len(a);
    let w = valid_len(all);
    let tail = a.skip(v) + b;
    lemma_valid_len(tail);
    let t = valid_len(tail);
    assert(all.take(v) =~= a.take(v));
    assert(w >= v) by {
        if w < v {
            assert(!valid_utf8(all.take(v)));
        }
    }
    assert(all.take(w) =~= a.take(v) + tail.take(w - v));
    lemma_valid_suffix(a.take(v), tail.take(w - v));
    assert(t >= w - v) by {
        if t < w - v {
            assert(!valid_utf8(tail.take(w - v)));
        }
    }
    assert(all.take(v + t) =~= a.take(v) + tail.take(t));
    valid_utf8_concat(a.take(v), tail.take(t));
    assert(v + t <= w) by {
        if w < v + t {
            assert(!valid_utf8(all.take(v + t)));
        }
    }
}

/// The held-back bytes of bytes whose first characters are taken away are
/// the held-back bytes of all.
pub proof fn lemma_skip_keeps_the_rest(data: Seq<u8>, k: int)
    requires
        0 <= k <= text_of(data).len(),
    ensures
        encoded_len(text_of(data).take(k)) <= valid_len(data) <= data.len(),
        data.skip(encoded_len(text_of(data).take(k)) as int).len() - valid_len(
            data.skip(encoded_len(text_of(data).take(k)) as int),
        ) == data.len() - valid_len(data),
{
    lemma_text_after_skip(data, k);
    lemma_valid_len(data);
}

/// Characters that are taken away one run after the other are taken away
/// together.
pub proof fn lemma_encoded_len_add(text: Seq<char>, j: int, k: int)
    requires
        0 <= j,
        0 <= k,
        j + k <= text.len(),
    ensures
        encoded_len(text.take(j + k)) == encoded_len(text.take(j)) + encoded_len(
            text.skip(j).take(k),
        ),
{
    lemma_encode_concat(text.take(j), text.skip(j).take(k));
    assert(text.take(j) + text.skip(j).take(k) =~= text.take(j + k));
}

} // verus!
