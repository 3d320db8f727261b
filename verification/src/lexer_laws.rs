//! What holds of the tokens of a text when more text arrives behind it.

use vstd::prelude::*;
use crate::lexer::{
    comment_close,
    in_class,
    is_definition_char,
    lemma_comment_close,
    lemma_run_end,
    lex,
    lex_hash,
    run_end,
    CharClass,
    Lexed,
    TokenView,
};
use crate::text::{decimal_digits, is_digit, is_step_whitespace, lemma_decimal_round_trip};

verus! {

/// A run that ends inside a text ends at the same place when more text
/// follows the text.
pub proof fn lemma_run_end_extends(s: Seq<char>, more: Seq<char>, from: int, class: CharClass)
    requires
        0 <= from <= s.len(),
        run_end(s, from, class) < s.len(),
    ensures
        run_end(s + more, from, class) == run_end(s, from, class),
    decreases s.len() - from,
{
    if from < s.len() {
        assert((s + more)[from] == s[from]);
        if in_class(class, s[from]) {
            lemma_run_end_extends(s, more, from + 1, class);
        }
    }
}

/// A comment that is closed inside a text is closed at the same place when
/// more text follows the text.
pub proof fn lemma_comment_close_extends(s: Seq<char>, more: Seq<char>, from: int)
    requires
        0 <= from <= s.len(),
        comment_close(s, from) < s.len(),
    ensures
        comment_close(s + more, from) == comment_close(s, from),
    decreases s.len() - from,
{
    if from + 1 < s.len() {
        assert((s + more)[from] == s[from]);
        assert((s + more)[from + 1] == s[from + 1]);
        if !(s[from] == '*' && s[from + 1] == '/') {
            lemma_comment_close_extends(s, more, from + 1);
        }
    }
}

/// A token stays what it is when more text arrives: where a text that may go
/// on begins with a token, or with what is no token, every text that begins
/// with that text begins with the same, whether it is all there is or not.
pub proof fn lemma_lex_stable(s: Seq<char>, more: Seq<char>, complete: bool)
    requires
        !(lex(s, false) is NeedMore),
    ensures
        lex(s + more, complete) == lex(s, false),
{
    reveal(lex);
    let t = s + more;
    assert(s.len() > 0);
    assert(t[0] == s[0]);
    lemma_run_end(s, 0, CharClass::Whitespace);
    lemma_run_end(s, 0, CharClass::Text);
    lemma_run_end(s, 1, CharClass::Quoted);
    lemma_run_end(s, 1, CharClass::Whitespace);
    let blank = run_end(s, 1, CharClass::Whitespace);
    lemma_run_end(s, blank, CharClass::Digit);
    let digits = run_end(s, blank, CharClass::Digit);
    if crate::text::is_step_whitespace(s[0]) {
        lemma_run_end_extends(s, more, 0, CharClass::Whitespace);
    } else if s[0] == ';' || s[0] == '=' {
    } else if s[0] == '\'' {
        lemma_run_end_extends(s, more, 1, CharClass::Quoted);
        let end = run_end(s, 1, CharClass::Quoted);
        assert(t.subrange(1, end) =~= s.subrange(1, end));
    } else if s[0] == '/' {
        assert(s.len() > 1);
        assert(t[1] == s[1]);
        if s[1] == '*' {
            lemma_comment_close(s, 2);
            lemma_comment_close_extends(s, more, 2);
        }
    } else if s[0] == '#' {
        lemma_run_end_extends(s, more, 1, CharClass::Whitespace);
        lemma_run_end_extends(s, more, blank, CharClass::Digit);
        lemma_run_end_extends(s, more, 0, CharClass::Text);
        let word = run_end(s, 0, CharClass::Text);
        assert(t.subrange(blank, digits) =~= s.subrange(blank, digits));
        assert(t.take(word) =~= s.take(word));
        assert(lex_hash(t, complete) == lex_hash(s, false));
    } else {
        lemma_run_end_extends(s, more, 0, CharClass::Text);
        let end = run_end(s, 0, CharClass::Text);
        assert(t.take(end) =~= s.take(end));
    }
}

/// A text that is all there is begins with a token, with what is no token,
/// or is at its end: it never needs more text.
pub proof fn lemma_complete_text_is_decided(s: Seq<char>)
    ensures
        !(lex(s, true) is NeedMore),
{
    reveal(lex);
}

/// A text that may go on is never known to be at its end.
pub proof fn lemma_partial_text_has_no_end(s: Seq<char>)
    ensures
        !(lex(s, false) is End),
{
    reveal(lex);
}

/// A run of characters of a class that is followed by a character that is
/// not of the class, or by the end of the text, ends there.
pub proof fn lemma_run_is(s: Seq<char>, from: int, to: int, class: CharClass)
    requires
        0 <= from <= to <= s.len(),
        forall|i: int| from <= i < to ==> in_class(class, #[trigger] s[i]),
        to < s.len() ==> !in_class(class, s[to]),
    ensures
        run_end(s, from, class) == to,
    decreases to - from,
{
    if from < to {
        lemma_run_is(s, from + 1, to, class);
    }
}

/// A `#`, the decimal notation of an id that is not 0, and a character that
/// stands in no definition token are a reference to that id.
pub proof fn lemma_lex_reference(s: Seq<char>, id: u64, complete: bool)
    requires
        id >= 1,
        s.len() > 1 + decimal_digits(id as nat).len(),
        s[0] == '#',
        s.subrange(1, 1 + decimal_digits(id as nat).len() as int) == decimal_digits(id as nat),
        !is_definition_char(s[1 + decimal_digits(id as nat).len() as int]),
    ensures
        lex(s, complete) == (Lexed::Token {
            token: TokenView::Reference(id),
            len: 1 + decimal_digits(id as nat).len() as int,
        }),
{
    reveal(lex);
    let digits = decimal_digits(id as nat);
    let end = 1 + digits.len() as int;
    lemma_decimal_round_trip(id as nat);
    assert forall|i: int| 1 <= i < end implies is_digit(#[trigger] s[i]) by {
        assert(s[i] == s.subrange(1, end)[i - 1]);
        assert(is_digit(digits[i - 1]));
    }
    lemma_run_is(s, 1, 1, CharClass::Whitespace);
    lemma_run_is(s, 1, end, CharClass::Digit);
    lemma_run_is(s, 0, end, CharClass::Text);
}

/// Whitespace before a character that is none is one token.
pub proof fn lemma_lex_whitespace(s: Seq<char>, n: int, complete: bool)
    requires
        1 <= n < s.len(),
        forall|i: int| 0 <= i < n ==> is_step_whitespace(#[trigger] s[i]),
        !is_step_whitespace(s[n]),
    ensures
        lex(s, complete) == (Lexed::Token { token: TokenView::Whitespace, len: n }),
{
    reveal(lex);
    lemma_run_is(s, 0, n, CharClass::Whitespace);
}

} // verus!
