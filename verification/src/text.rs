//! Characters, decimal numbers and the few string operations the rest of the
//! crate builds its texts from.

use vstd::prelude::*;
use vstd::std_specs::iter::IteratorSpec;
use vstd::string::*;

verus! {

/// An ASCII decimal digit.
pub open spec fn is_digit(c: char) -> bool {
    '0' <= c && c <= '9'
}

/// The whitespace of STEP text: space, tab, carriage return, line feed and
/// form feed.
pub open spec fn is_step_whitespace(c: char) -> bool {
    c == ' ' || c == '\t' || c == '\r' || c == '\n' || c == '\x0c'
}

/// The characters that `char::is_whitespace` accepts (the Unicode property
/// `White_Space`).
pub open spec fn is_unicode_whitespace(c: char) -> bool {
    let u = c as u32;
    (0x09 <= u && u <= 0x0d) || u == 0x20 || u == 0x85 || u == 0xa0 || u == 0x1680 || (0x2000 <= u
        && u <= 0x200a) || u == 0x2028 || u == 0x2029 || u == 0x202f || u == 0x205f || u == 0x3000
}

/// An ASCII upper-case letter or an underscore: what a STEP keyword is made of.
pub open spec fn is_keyword_char(c: char) -> bool {
    ('A' <= c && c <= 'Z') || c == '_'
}

/// Whether the text holds no `'`.
pub open spec fn no_quote(s: Seq<char>) -> bool {
    forall|i: int| 0 <= i < s.len() ==> #[trigger] s[i] != '\''
}

/// The value of one decimal digit.
pub open spec fn digit_value(c: char) -> nat {
    (c as u32 - '0' as u32) as nat
}

/// The digit that stands for `d`, for `d` below ten.
pub open spec fn digit_char(d: nat) -> char {
    if d == 0 {
        '0'
    } else if d == 1 {
        '1'
    } else if d == 2 {
        '2'
    } else if d == 3 {
        '3'
    } else if d == 4 {
        '4'
    } else if d == 5 {
        '5'
    } else if d == 6 {
        '6'
    } else if d == 7 {
        '7'
    } else if d == 8 {
        '8'
    } else {
        '9'
    }
}

/// The number that a run of decimal digits denotes; the empty run denotes 0.
pub open spec fn decimal_value(digits: Seq<char>) -> nat
    decreases digits.len(),
{
    if digits.len() == 0 {
        0
    } else {
        decimal_value(digits.drop_last()) * 10 + digit_value(digits.last())
    }
}

/// The shortest decimal notation of `n`.
pub open spec fn decimal_digits(n: nat) -> Seq<char>
    decreases n,
{
    if n < 10 {
        seq![digit_char(n)]
    } else {
        decimal_digits(n / 10).push(digit_char(n % 10))
    }
}

/// Every element of `s` is a decimal digit.
pub open spec fn all_digits(s: Seq<char>) -> bool {
    forall|i: int| 0 <= i < s.len() ==> is_digit(#[trigger] s[i])
}

/// The decimal notation of a number is a non-empty run of digits that
/// denotes the number again.
pub proof fn lemma_decimal_round_trip(n: nat)
    ensures
        decimal_digits(n).len() >= 1,
        all_digits(decimal_digits(n)),
        decimal_value(decimal_digits(n)) == n,
    decreases n,
{
    if n < 10 {
        let s = decimal_digits(n);
        assert(s.len() == 1);
        assert(s[0] == digit_char(n));
        assert(s.drop_last().len() == 0);
        assert(decimal_value(s.drop_last()) == 0);
        assert(s.last() == digit_char(n));
    } else {
        lemma_decimal_round_trip(n / 10);
        let p = decimal_digits(n / 10);
        let s = p.push(digit_char(n % 10));
        assert(s.drop_last() =~= p);
        assert(s.last() == digit_char(n % 10));
        assert(digit_value(digit_char(n % 10)) == n % 10);
        assert forall|i: int| 0 <= i < s.len() implies is_digit(#[trigger] s[i]) by {
            if i < p.len() {
                assert(s[i] == p[i]);
            }
        }
    }
}

/// One more digit at the end of a run multiplies what the run denotes by ten
/// and adds the digit.
pub proof fn lemma_decimal_value_push(digits: Seq<char>, c: char)
    ensures
        decimal_value(digits.push(c)) == decimal_value(digits) * 10 + digit_value(c),
{
    let s = digits.push(c);
    assert(s.drop_last() =~= digits);
    assert(s.last() == c);
}

/// `char::is_ascii_digit`, on the model above.
pub fn char_is_digit(c: char) -> (b: bool)
    ensures
        b == is_digit(c),
{
    c >= '0' && c <= '9'
}

/// Whether `c` separates tokens in STEP text.
pub fn char_is_step_whitespace(c: char) -> (b: bool)
    ensures
        b == is_step_whitespace(c),
{
    c == ' ' || c == '\t' || c == '\r' || c == '\n' || c == '\x0c'
}

/// `char::is_whitespace`, on the model above.
pub fn char_is_whitespace(c: char) -> (b: bool)
    ensures
        b == is_unicode_whitespace(c),
{
    let u: u32 = c as u32;
    (0x09 <= u && u <= 0x0d) || u == 0x20 || u == 0x85 || u == 0xa0 || u == 0x1680 || (0x2000 <= u
        && u <= 0x200a) || u == 0x2028 || u == 0x2029 || u == 0x202f || u == 0x205f || u == 0x3000
}

/// Whether `c` may stand in a STEP keyword.
pub fn char_is_keyword(c: char) -> (b: bool)
    ensures
        b == is_keyword_char(c),
{
    (c >= 'A' && c <= 'Z') || c == '_'
}

/// The digit for a number below ten.
pub fn char_of_digit(d: u64) -> (c: char)
    requires
        d < 10,
    ensures
        c == digit_char(d as nat),
{
    if d == 0 {
        '0'
    } else if d == 1 {
        '1'
    } else if d == 2 {
        '2'
    } else if d == 3 {
        '3'
    } else if d == 4 {
        '4'
    } else if d == 5 {
        '5'
    } else if d == 6 {
        '6'
    } else if d == 7 {
        '7'
    } else if d == 8 {
        '8'
    } else {
        '9'
    }
}

/// `String::push` of std: the string afterwards is the string before with
/// `c` as one more character at its end.
#[verifier::external_body]
pub(crate) fn push_char(s: &mut String, c: char)
    ensures
        final(s)@ == old(s)@.push(c),
{
    s.push(c)
}

/// The characters of `s`, in order.
pub fn chars_of(s: &str) -> (v: Vec<char>)
    ensures
        v@ == s@,
{
    let mut v: Vec<char> = Vec::new();
    for c in it: s.chars()
        invariant
            v@ == it.seq().take(it.index()),
            it.seq() == s@,
    {
        v.push(c);
    }
    v
}

/// The first `limit` characters of `s`, or all where there are fewer.
pub fn first_chars(s: &str, limit: usize) -> (v: Vec<char>)
    ensures
        v@ == s@.take(
            if limit <= s@.len() {
                limit as int
            } else {
                s@.len() as int
            },
        ),
{
    broadcast use vstd::string::group_string_axioms;

    let mut v: Vec<char> = Vec::new();
    let mut it = s.chars();
    assert(v@ + it.remaining() =~= s@);
    loop
        invariant
            v@.len() <= limit,
            v@ + it.remaining() == s@,
            vstd::std_specs::iter::IteratorSpec::decrease(&it) is Some,
        decreases vstd::std_specs::iter::IteratorSpec::decrease(&it)->0,
    {
        if v.len() >= limit {
            assert(s@.take(v@.len() as int) =~= v@);
            return v;
        }
        let ghost left = it.remaining();
        match it.next() {
            Some(c) => {
                let ghost before = v@;
                v.push(c);
                assert(before.push(c) + left.drop_first() =~= before + left);
            },
            None => {
                assert(v@ + Seq::<char>::empty() =~= v@);
                assert(s@.take(s@.len() as int) =~= s@);
                return v;
            },
        }
    }
}

/// Appends the characters `chars[from..to]` to `out`.
pub fn push_chars(out: &mut String, chars: &Vec<char>, from: usize, to: usize)
    requires
        from <= to <= chars.len(),
    ensures
        final(out)@ == old(out)@ + chars@.subrange(from as int, to as int),
{
    let mut i: usize = from;
    while i < to
        invariant
            from <= i <= to <= chars.len(),
            out@ == old(out)@ + chars@.subrange(from as int, i as int),
        decreases to - i,
    {
        push_char(out, chars[i]);
        assert(chars@.subrange(from as int, i as int).push(chars@[i as int])
            =~= chars@.subrange(from as int, i + 1));
        i += 1;
    }
}

/// Appends the decimal notation of `n` to `out`.
pub fn push_decimal(out: &mut String, n: u64)
    ensures
        final(out)@ == old(out)@ + decimal_digits(n as nat),
    decreases n,
{
    if n >= 10 {
        push_decimal(out, n / 10);
    }
    push_char(out, char_of_digit(n % 10));
    proof {
        if n >= 10 {
            assert(old(out)@ + decimal_digits((n / 10) as nat).push(digit_char((n % 10) as nat))
                =~= (old(out)@ + decimal_digits((n / 10) as nat)).push(digit_char((n % 10) as nat)));
        } else {
            assert(old(out)@ + seq![digit_char(n as nat)] =~= old(out)@.push(digit_char(n as nat)));
        }
    }
}

/// The number that the digits `chars[from..to]` denote, or `None` where it
/// does not fit into a `u64`.
pub fn parse_decimal(chars: &Vec<char>, from: usize, to: usize) -> (r: Option<u64>)
    requires
        from <= to <= chars.len(),
        all_digits(chars@.subrange(from as int, to as int)),
    ensures
        r is Some <==> decimal_value(chars@.subrange(from as int, to as int)) <= u64::MAX,
        r matches Some(v) ==> v == decimal_value(chars@.subrange(from as int, to as int)),
{
    let mut acc: u64 = 0;
    let mut i: usize = from;
    while i < to
        invariant
            from <= i <= to <= chars.len(),
            all_digits(chars@.subrange(from as int, to as int)),
            acc == decimal_value(chars@.subrange(from as int, i as int)),
        decreases to - i,
    {
        let c = chars[i];
        proof {
            assert(chars@.subrange(from as int, to as int)[i - from] == c);
            lemma_decimal_value_push(chars@.subrange(from as int, i as int), c);
            assert(chars@.subrange(from as int, i as int).push(c) =~= chars@.subrange(
                from as int,
                i + 1,
            ));
        }
        let d: u64 = (c as u32 - '0' as u32) as u64;
        if acc > (u64::MAX - d) / 10 {
            proof {
                lemma_decimal_value_grows(chars@, from as int, i + 1, to as int);
            }
            return None;
        }
        acc = acc * 10 + d;
        i += 1;
    }
    Some(acc)
}

/// A longer run of digits denotes at least as much as any of its prefixes,
/// so a run that has left the range of `u64` never comes back into it.
pub proof fn lemma_decimal_value_grows(s: Seq<char>, from: int, mid: int, to: int)
    requires
        0 <= from <= mid <= to <= s.len(),
    ensures
        decimal_value(s.subrange(from, mid)) <= decimal_value(s.subrange(from, to)),
    decreases to - mid,
{
    if mid < to {
        lemma_decimal_value_grows(s, from, mid, to - 1);
        lemma_decimal_value_push(s.subrange(from, to - 1), s[to - 1]);
        assert(s.subrange(from, to - 1).push(s[to - 1]) =~= s.subrange(from, to));
    }
}

/// The text `s` without the whitespace at its beginning.
pub open spec fn skip_whitespace(s: Seq<char>) -> Seq<char>
    decreases s.len(),
{
    if s.len() > 0 && is_unicode_whitespace(s[0]) {
        skip_whitespace(s.drop_first())
    } else {
        s
    }
}

/// The keyword at the beginning of `s`: its longest prefix of upper-case
/// letters and underscores.
pub open spec fn keyword_prefix(s: Seq<char>) -> Seq<char>
    decreases s.len(),
{
    if s.len() > 0 && is_keyword_char(s[0]) {
        seq![s[0]] + keyword_prefix(s.drop_first())
    } else {
        seq![]
    }
}

/// The keyword of a definition: the run of upper-case letters and
/// underscores that follows the whitespace at its beginning.
pub open spec fn keyword_of(definition: Seq<char>) -> Seq<char> {
    keyword_prefix(skip_whitespace(definition))
}

/// Whether `s` begins with `prefix`.
pub open spec fn begins_with(s: Seq<char>, prefix: Seq<char>) -> bool {
    prefix.len() <= s.len() && s.take(prefix.len() as int) == prefix
}

/// The index of the first character of `chars` that is no whitespace.
pub fn first_text_index(chars: &Vec<char>) -> (i: usize)
    ensures
        i <= chars.len(),
        skip_whitespace(chars@) == chars@.skip(i as int),
{
    let mut i: usize = 0;
    assert(chars@.skip(0) =~= chars@);
    while i < chars.len() && char_is_whitespace(chars[i])
        invariant
            i <= chars.len(),
            skip_whitespace(chars@) == skip_whitespace(chars@.skip(i as int)),
        decreases chars.len() - i,
    {
        assert(chars@.skip(i as int)[0] == chars@[i as int]);
        assert(chars@.skip(i as int).drop_first() =~= chars@.skip(i + 1));
        i += 1;
    }
    proof {
        if i < chars.len() {
            assert(chars@.skip(i as int)[0] == chars@[i as int]);
        }
    }
    i
}

/// The keyword of the definition `definition`.
pub fn extract_keyword_text(definition: &str) -> (keyword: String)
    ensures
        keyword@ == keyword_of(definition@),
{
    let chars = chars_of(definition);
    let from = first_text_index(&chars);
    let mut to: usize = from;
    assert(chars@.subrange(from as int, from as int) =~= Seq::<char>::empty());
    while to < chars.len() && char_is_keyword(chars[to])
        invariant
            from <= to <= chars.len(),
            keyword_prefix(chars@.skip(from as int)) == chars@.subrange(from as int, to as int)
                + keyword_prefix(chars@.skip(to as int)),
        decreases chars.len() - to,
    {
        proof {
            let rest = chars@.skip(to as int);
            assert(rest[0] == chars@[to as int]);
            assert(rest.drop_first() =~= chars@.skip(to + 1));
            assert(chars@.subrange(from as int, to as int) + (seq![rest[0]] + keyword_prefix(
                rest.drop_first(),
            )) =~= chars@.subrange(from as int, to + 1) + keyword_prefix(rest.drop_first()));
        }
        to += 1;
    }
    proof {
        if to < chars.len() {
            assert(chars@.skip(to as int)[0] == chars@[to as int]);
        }
        assert(chars@.subrange(from as int, to as int) + Seq::<char>::empty() =~= chars@.subrange(
            from as int,
            to as int,
        ));
    }
    let mut keyword = String::new();
    push_chars(&mut keyword, &chars, from, to);
    assert(keyword@ =~= chars@.subrange(from as int, to as int));
    keyword
}

/// Whether the two texts are the same.
pub fn same_text(a: &str, b: &str) -> (same: bool)
    ensures
        same == (a@ == b@),
{
    let x = chars_of(a);
    let y = chars_of(b);
    if x.len() != y.len() {
        return false;
    }
    let mut i: usize = 0;
    while i < x.len()
        invariant
            i <= x.len(),
            x.len() == y.len(),
            x@ == a@,
            y@ == b@,
            x@.take(i as int) == y@.take(i as int),
        decreases x.len() - i,
    {
        if x[i] != y[i] {
            assert(x@[i as int] != y@[i as int]);
            return false;
        }
        assert(x@.take(i + 1) =~= x@.take(i as int).push(x@[i as int]));
        assert(y@.take(i + 1) =~= y@.take(i as int).push(y@[i as int]));
        i += 1;
    }
    assert(x@.take(i as int) =~= x@);
    assert(y@.take(i as int) =~= y@);
    true
}

/// Whether the definition, after the whitespace at its beginning, begins
/// with `prefix`.
pub fn definition_begins_with(definition: &str, prefix: &str) -> (found: bool)
    ensures
        found == begins_with(skip_whitespace(definition@), prefix@),
{
    let chars = chars_of(definition);
    let wanted = chars_of(prefix);
    let from = first_text_index(&chars);
    if chars.len() - from < wanted.len() {
        return false;
    }
    let ghost rest = chars@.skip(from as int);
    let mut i: usize = 0;
    while i < wanted.len()
        invariant
            i <= wanted.len(),
            from + wanted.len() <= chars.len(),
            rest == chars@.skip(from as int),
            rest == skip_whitespace(definition@),
            wanted@ == prefix@,
            rest.take(i as int) == wanted@.take(i as int),
        decreases wanted.len() - i,
    {
        if chars[from + i] != wanted[i] {
            proof {
                assert(rest[i as int] == chars@[from + i]);
                assert(rest.take(wanted.len() as int)[i as int] == rest[i as int]);
            }
            return false;
        }
        assert(rest.take(i + 1) =~= rest.take(i as int).push(rest[i as int]));
        assert(wanted@.take(i + 1) =~= wanted@.take(i as int).push(wanted@[i as int]));
        i += 1;
    }
    assert(wanted@.take(i as int) =~= wanted@);
    true
}

} // verus!
