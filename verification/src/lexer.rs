//! The tokens of STEP text and the tokenizer that reads them.

use vstd::prelude::*;
use vstd::string::*;
use crate::char_reader::CharReader;
use crate::error::Error;
use crate::text::{
    all_digits, char_is_digit, char_is_step_whitespace, decimal_digits, decimal_value, is_digit,
    is_step_whitespace, push_decimal, same_text,
};

verus! {

/// A token of STEP text.
#[derive(Debug, PartialEq, Eq)]
pub enum Token {
    /// A comment `/* ... */`.
    Comments,
    /// A run of whitespace.
    Whitespace,
    /// The character `=`.
    Eq,
    /// The character `;`.
    Sem,
    /// A reference `#`, whitespace or none, and the digits of a number that
    /// is not 0.
    Reference(u64),
    /// The keyword `HEADER`.
    Header,
    /// The keyword `DATA`.
    Data,
    /// The keyword `ENDSEC`.
    Endsec,
    /// The tag `ISO-10303-21`.
    StartTag,
    /// The tag `END-ISO-10303-21`.
    EndTag,
    /// A string `'...'`; the token holds what stands between the quotes.
    String(String),
    /// Any other run of characters that ends before whitespace, `;`, `=`,
    /// `/` or `'`.
    Definition(String),
}

/// A token as a reader of the crate sees it.
pub enum TokenView {
    Comments,
    Whitespace,
    Eq,
    Sem,
    Reference(u64),
    Header,
    Data,
    Endsec,
    StartTag,
    EndTag,
    String(Seq<char>),
    Definition(Seq<char>),
}

impl View for Token {
    type V = TokenView;

    open spec fn view(&self) -> TokenView {
        match self {
            Token::Comments => TokenView::Comments,
            Token::Whitespace => TokenView::Whitespace,
            Token::Eq => TokenView::Eq,
            Token::Sem => TokenView::Sem,
            Token::Reference(id) => TokenView::Reference(*id),
            Token::Header => TokenView::Header,
            Token::Data => TokenView::Data,
            Token::Endsec => TokenView::Endsec,
            Token::StartTag => TokenView::StartTag,
            Token::EndTag => TokenView::EndTag,
            Token::String(text) => TokenView::String(text@),
            Token::Definition(text) => TokenView::Definition(text@),
        }
    }
}

/// The text that stands for a token in a message and in a definition.
pub open spec fn token_text(token: TokenView) -> Seq<char> {
    match token {
        TokenView::Comments => "/**/"@,
        TokenView::Whitespace => " "@,
        TokenView::Eq => "="@,
        TokenView::Sem => ";"@,
        TokenView::Reference(id) => "#"@ + decimal_digits(id as nat),
        TokenView::Header => "HEADER"@,
        TokenView::Data => "DATA"@,
        TokenView::Endsec => "ENDSEC"@,
        TokenView::StartTag => "ISO-10303-21"@,
        TokenView::EndTag => "END-ISO-10303-21"@,
        TokenView::String(text) => "'"@ + text + "'"@,
        TokenView::Definition(text) => text,
    }
}

impl Token {
    /// The text that stands for the token: a keyword or a sign as it is
    /// written, a reference as `#` and its number, a string in its quotes, a
    /// comment as `/**/`, and whitespace as one space.
    pub fn to_string(&self) -> (text: String)
        ensures
            text@ == token_text(self@),
    {
        let mut text = String::new();
        match self {
            Token::Comments => text.append("/**/"),
            Token::Whitespace => text.append(" "),
            Token::Eq => text.append("="),
            Token::Sem => text.append(";"),
            Token::Reference(id) => {
                text.append("#");
                push_decimal(&mut text, *id);
            },
            Token::Header => text.append("HEADER"),
            Token::Data => text.append("DATA"),
            Token::Endsec => text.append("ENDSEC"),
            Token::StartTag => text.append("ISO-10303-21"),
            Token::EndTag => text.append("END-ISO-10303-21"),
            Token::String(inner) => {
                text.append("'");
                text.append(inner.as_str());
                text.append("'");
            },
            Token::Definition(inner) => text.append(inner.as_str()),
        }
        assert(text@ =~= token_text(self@));
        text
    }
}

/// The kinds of characters that a token is a run of.
#[derive(Clone, Copy, Debug)]
pub enum CharClass {
    /// Space, tab, carriage return, line feed and form feed.
    Whitespace,
    /// The characters of a definition: all but whitespace, `;`, `=`, `/` and
    /// `'`.
    Text,
    /// The decimal digits.
    Digit,
    /// The characters inside a string: all but `'`.
    Quoted,
}

/// Whether `c` may stand in a definition token.
pub open spec fn is_definition_char(c: char) -> bool {
    !is_step_whitespace(c) && c != ';' && c != '=' && c != '/' && c != '\''
}

/// Whether `c` is of the given class.
pub open spec fn in_class(class: CharClass, c: char) -> bool {
    match class {
        CharClass::Whitespace => is_step_whitespace(c),
        CharClass::Text => is_definition_char(c),
        CharClass::Digit => is_digit(c),
        CharClass::Quoted => c != '\'',
    }
}

/// Where the run of characters of the given class that begins at `from`
/// ends: the index of the first character, from `from` on, that is not of
/// the class, and the length of `s` where there is none.
pub open spec fn run_end(s: Seq<char>, from: int, class: CharClass) -> int
    decreases s.len() - from,
{
    if 0 <= from < s.len() && in_class(class, s[from]) {
        run_end(s, from + 1, class)
    } else {
        from
    }
}

/// Where the comment that begins before `from` is closed: the index of the
/// `*` of the first `*/` from `from` on, and the length of `s` where there is
/// none.
pub open spec fn comment_close(s: Seq<char>, from: int) -> int
    decreases s.len() - from,
{
    if from < 0 || from + 1 >= s.len() {
        s.len() as int
    } else if s[from] == '*' && s[from + 1] == '/' {
        from
    } else {
        comment_close(s, from + 1)
    }
}

/// The token that a run of definition characters makes: one of the five
/// keywords where the run is that keyword, else a definition.
pub open spec fn word_token(text: Seq<char>) -> TokenView {
    if text == "ISO-10303-21"@ {
        TokenView::StartTag
    } else if text == "END-ISO-10303-21"@ {
        TokenView::EndTag
    } else if text == "ENDSEC"@ {
        TokenView::Endsec
    } else if text == "DATA"@ {
        TokenView::Data
    } else if text == "HEADER"@ {
        TokenView::Header
    } else {
        TokenView::Definition(text)
    }
}

/// Why text is no token.
pub enum LexError {
    /// A `/` that opens no comment, or a string or comment that is not
    /// closed.
    ParsingToken,
    /// A reference whose number does not fit into 64 bits.
    InvalidNumber,
}

/// What the beginning of a text is.
pub enum Lexed {
    /// A token, and the number of characters that it takes.
    Token { token: TokenView, len: int },
    /// The beginning of a token that may go on in text that has not arrived.
    NeedMore,
    /// No token.
    Failed(LexError),
    /// The end of the text.
    End,
}

/// Where more text may follow, a token that reaches the end of the text is
/// not yet known in full; where none follows, text that is cut off is no
/// token.
pub open spec fn cut_off(complete: bool) -> Lexed {
    if complete {
        Lexed::Failed(LexError::ParsingToken)
    } else {
        Lexed::NeedMore
    }
}

/// What a text that begins with `#` begins with. The `#` with the digits of
/// a number that is not 0, with or without whitespace between them, is a
/// reference, unless more definition characters follow the digits; else the
/// run of definition characters that begins with the `#` is a definition.
pub open spec fn lex_hash(s: Seq<char>, complete: bool) -> Lexed {
    let blank = run_end(s, 1, CharClass::Whitespace);
    let digits = run_end(s, blank, CharClass::Digit);
    let word = run_end(s, 0, CharClass::Text);
    if !complete && (blank == s.len() || digits == s.len() || word == s.len()) {
        Lexed::NeedMore
    } else {
        let value = decimal_value(s.subrange(blank, digits));
        if digits > blank && value >= 1 && digits >= word {
            if value > u64::MAX {
                Lexed::Failed(LexError::InvalidNumber)
            } else {
                Lexed::Token { token: TokenView::Reference(value as u64), len: digits }
            }
        } else {
            Lexed::Token { token: TokenView::Definition(s.take(word)), len: word }
        }
    }
}

/// What the text `s` begins with. `complete` tells whether the text is all
/// there is; where it is not, a token that reaches the end of `s` may go on.
#[verifier::opaque]
pub open spec fn lex(s: Seq<char>, complete: bool) -> Lexed {
    if s.len() == 0 {
        if complete {
            Lexed::End
        } else {
            Lexed::NeedMore
        }
    } else if is_step_whitespace(s[0]) {
        let end = run_end(s, 0, CharClass::Whitespace);
        if end == s.len() && !complete {
            Lexed::NeedMore
        } else {
            Lexed::Token { token: TokenView::Whitespace, len: end }
        }
    } else if s[0] == ';' {
        Lexed::Token { token: TokenView::Sem, len: 1 }
    } else if s[0] == '=' {
        Lexed::Token { token: TokenView::Eq, len: 1 }
    } else if s[0] == '\'' {
        let end = run_end(s, 1, CharClass::Quoted);
        if end == s.len() {
            cut_off(complete)
        } else {
            Lexed::Token { token: TokenView::String(s.subrange(1, end)), len: end + 1 }
        }
    } else if s[0] == '/' {
        if s.len() == 1 {
            cut_off(complete)
        } else if s[1] != '*' {
            Lexed::Failed(LexError::ParsingToken)
        } else {
            let close = comment_close(s, 2);
            if close == s.len() {
                cut_off(complete)
            } else {
                Lexed::Token { token: TokenView::Comments, len: close + 2 }
            }
        }
    } else if s[0] == '#' {
        lex_hash(s, complete)
    } else {
        let end = run_end(s, 0, CharClass::Text);
        if end == s.len() && !complete {
            Lexed::NeedMore
        } else {
            Lexed::Token { token: word_token(s.take(end)), len: end }
        }
    }
}

/// A run ends behind where it begins and within the text, holds only
/// characters of its class, and ends before a character that is not of the
/// class.
pub proof fn lemma_run_end(s: Seq<char>, from: int, class: CharClass)
    requires
        0 <= from <= s.len(),
    ensures
        from <= run_end(s, from, class) <= s.len(),
        forall|i: int| from <= i < run_end(s, from, class) ==> in_class(class, #[trigger] s[i]),
        run_end(s, from, class) < s.len() ==> !in_class(class, s[run_end(s, from, class)]),
    decreases s.len() - from,
{
    if from < s.len() && in_class(class, s[from]) {
        lemma_run_end(s, from + 1, class);
    }
}

/// A comment is closed, if at all, behind where the search begins.
pub proof fn lemma_comment_close(s: Seq<char>, from: int)
    requires
        0 <= from <= s.len(),
    ensures
        from <= comment_close(s, from) <= s.len(),
        comment_close(s, from) < s.len() ==> comment_close(s, from) + 1 < s.len(),
    decreases s.len() - from,
{
    if from + 1 < s.len() && !(s[from] == '*' && s[from + 1] == '/') {
        lemma_comment_close(s, from + 1);
    }
}

/// A token takes at least one character and no more than the text has.
pub proof fn lemma_token_len(s: Seq<char>, complete: bool)
    ensures
        lex(s, complete) matches Lexed::Token { len, .. } ==> 1 <= len <= s.len(),
{
    reveal(lex);
    if s.len() > 0 {
        lemma_run_end(s, 0, CharClass::Whitespace);
        lemma_run_end(s, 0, CharClass::Text);
        lemma_run_end(s, 1, CharClass::Quoted);
        lemma_run_end(s, 1, CharClass::Whitespace);
        lemma_run_end(s, run_end(s, 1, CharClass::Whitespace), CharClass::Digit);
        if s.len() >= 2 {
            lemma_comment_close(s, 2);
        }
    }
}

/// Whether `c` is of the given class.
fn char_in_class(class: CharClass, c: char) -> (b: bool)
    ensures
        b == in_class(class, c),
{
    match class {
        CharClass::Whitespace => char_is_step_whitespace(c),
        CharClass::Text => !char_is_step_whitespace(c) && c != ';' && c != '=' && c != '/' && c
            != '\'',
        CharClass::Digit => char_is_digit(c),
        CharClass::Quoted => c != '\'',
    }
}

/// Whether the item is what is handed out for text that begins as `lexed`
/// says.
pub open spec fn handed_out(lexed: Lexed, item: Option<Result<Token, Error>>) -> bool {
    match lexed {
        Lexed::Token { token, len } => item matches Some(Ok(t)) && t@ == token,
        Lexed::NeedMore => item matches Some(Err(e)) && e is EndOfInput,
        Lexed::Failed(LexError::ParsingToken) => item matches Some(Err(e)) && e is ParsingTokenError,
        Lexed::Failed(LexError::InvalidNumber) => item matches Some(Err(e)) && e is InvalidNumber,
        Lexed::End => item is None,
    }
}

/// The number of characters that are passed over for text that begins as
/// `lexed` says: those of a token, and none where there is no token.
pub open spec fn taken(lexed: Lexed) -> int {
    match lexed {
        Lexed::Token { token, len } => len,
        _ => 0,
    }
}

/// What a tokenizer is to a reader of the crate.
pub struct TokenizerView {
    /// The text.
    pub text: Seq<char>,
    /// The number of characters that were read.
    pub position: nat,
    /// Whether the text is all there is.
    pub complete: bool,
}

impl TokenizerView {
    /// The characters that are still to be read.
    pub open spec fn rest(self) -> Seq<char> {
        self.text.skip(self.position as int)
    }

    /// What the rest of the text begins with.
    pub open spec fn ahead(self) -> Lexed {
        lex(self.rest(), self.complete)
    }
}

/// A tokenizer that reads the tokens of a text, one after the other.
pub struct Tokenizer {
    /// The characters of the text.
    reader: CharReader,
    /// Whether the text is all there is.
    complete: bool,
}

impl View for Tokenizer {
    type V = TokenizerView;

    closed spec fn view(&self) -> TokenizerView {
        TokenizerView {
            text: self.reader@.text,
            position: self.reader@.position,
            complete: self.complete,
        }
    }
}

impl Tokenizer {
    /// A tokenizer at the beginning of `src`, which is all the text there
    /// is.
    pub fn new(src: &str) -> (tokenizer: Self)
        ensures
            tokenizer@ == (TokenizerView { text: src@, position: 0, complete: true }),
    {
        Tokenizer { reader: CharReader::new(src), complete: true }
    }

    /// A tokenizer at the beginning of `src`, behind which more text may
    /// follow.
    pub fn partial(src: &str) -> (tokenizer: Self)
        ensures
            tokenizer@ == (TokenizerView { text: src@, position: 0, complete: false }),
    {
        Tokenizer { reader: CharReader::new(src), complete: false }
    }

    /// A tokenizer at the beginning of the first `limit` characters of `src`,
    /// or of all of it where it has fewer. `complete` tells whether `src` is
    /// all the text there is; the tokenizer takes its text for all there is
    /// only where that is so and it holds all of `src`. The second result
    /// tells whether it holds all of `src`.
    pub fn window(src: &str, limit: usize, complete: bool) -> (result: (Self, bool))
        ensures
            result.0@ == (TokenizerView {
                text: src@.take(
                    if limit <= src@.len() {
                        limit as int
                    } else {
                        src@.len() as int
                    },
                ),
                position: 0,
                complete: complete && result.1,
            }),
            result.1 == (src@.len() <= limit),
    {
        let (reader, whole) = CharReader::with_limit(src, limit);
        (Tokenizer { reader, complete: complete && whole }, whole)
    }

    /// The number of bytes of the text that lie behind the last token that
    /// was read.
    pub fn consumed_bytes(&self) -> (bytes: usize)
        ensures
            bytes == crate::utf8::encoded_len(self@.text.take(self@.position as int)),
    {
        self.reader.consumed_bytes()
    }

    /// The number of characters that are still to be read.
    pub fn remaining(&self) -> (count: usize)
        ensures
            count == self@.rest().len(),
            self@.position + count == self@.text.len(),
    {
        self.reader.remaining()
    }

    /// Whether the text is all there is.
    pub fn is_complete(&self) -> (complete: bool)
        ensures
            complete == self@.complete,
    {
        self.complete
    }

    /// Where the run of characters of the given class that begins `from`
    /// characters ahead ends.
    fn scan(&self, from: usize, class: CharClass) -> (end: usize)
        requires
            from <= self@.rest().len(),
        ensures
            end == run_end(self@.rest(), from as int, class),
            from <= end <= self@.rest().len(),
    {
        let ghost rest = self@.rest();
        let length = self.reader.remaining();
        let mut i: usize = from;
        loop
            invariant
                rest == self@.rest(),
                rest == self.reader@.rest(),
                length == rest.len(),
                from <= i <= rest.len(),
                run_end(rest, from as int, class) == run_end(rest, i as int, class),
            decreases rest.len() - i,
        {
            match self.reader.peek_at(i) {
                Some(c) => {
                    if !char_in_class(class, c) {
                        return i;
                    }
                    i += 1;
                },
                None => {
                    return i;
                },
            }
        }
    }

    /// Where the comment is closed: the number of characters ahead of the
    /// `*` of the first `*/` from `from` characters ahead on.
    fn find_close(&self, from: usize) -> (close: usize)
        requires
            from <= self@.rest().len(),
        ensures
            close == comment_close(self@.rest(), from as int),
            from <= close <= self@.rest().len(),
            close < self@.rest().len() ==> close + 1 < self@.rest().len(),
    {
        let ghost rest = self@.rest();
        let length = self.reader.remaining();
        let mut i: usize = from;
        loop
            invariant
                rest == self@.rest(),
                rest == self.reader@.rest(),
                length == rest.len(),
                from <= i <= rest.len(),
                comment_close(rest, from as int) == comment_close(rest, i as int),
            decreases rest.len() - i,
        {
            if length - i < 2 {
                return length;
            }
            let first = self.reader.peek_at(i);
            let second = self.reader.peek_at(i + 1);
            if first == Some('*') && second == Some('/') {
                return i;
            }
            i += 1;
        }
    }

    /// The token that the run of definition characters up to `end`
    /// characters ahead makes.
    fn word(&self, end: usize) -> (token: Token)
        requires
            end <= self@.rest().len(),
        ensures
            token@ == word_token(self@.rest().take(end as int)),
    {
        let text = self.reader.text_ahead(0, end);
        assert(self@.rest().subrange(0, end as int) =~= self@.rest().take(end as int));
        if same_text(text.as_str(), "ISO-10303-21") {
            Token::StartTag
        } else if same_text(text.as_str(), "END-ISO-10303-21") {
            Token::EndTag
        } else if same_text(text.as_str(), "ENDSEC") {
            Token::Endsec
        } else if same_text(text.as_str(), "DATA") {
            Token::Data
        } else if same_text(text.as_str(), "HEADER") {
            Token::Header
        } else {
            Token::Definition(text)
        }
    }

    /// What is handed out for a token that is cut off.
    fn cut(&self) -> (item: Option<Result<Token, Error>>)
        ensures
            handed_out(cut_off(self@.complete), item),
    {
        if self.complete {
            Some(Err(Error::ParsingTokenError()))
        } else {
            Some(Err(Error::EndOfInput()))
        }
    }

    /// What the rest of the text begins with, and the number of characters
    /// that it takes.
    fn look(&self) -> (found: (Option<Result<Token, Error>>, usize))
        ensures
            handed_out(self@.ahead(), found.0),
            found.1 == taken(self@.ahead()),
            found.1 <= self@.rest().len(),
    {
        let ghost rest = self@.rest();
        proof {
            reveal(lex);
            lemma_token_len(rest, self@.complete);
        }
        let first = match self.reader.peek_at(0) {
            Some(c) => c,
            None => {
                if self.complete {
                    return (None, 0);
                } else {
                    return (Some(Err(Error::EndOfInput())), 0);
                }
            },
        };
        let length = self.reader.remaining();
        if char_is_step_whitespace(first) {
            let end = self.scan(0, CharClass::Whitespace);
            if end == length && !self.complete {
                (Some(Err(Error::EndOfInput())), 0)
            } else {
                (Some(Ok(Token::Whitespace)), end)
            }
        } else if first == ';' {
            (Some(Ok(Token::Sem)), 1)
        } else if first == '=' {
            (Some(Ok(Token::Eq)), 1)
        } else if first == '\'' {
            let end = self.scan(1, CharClass::Quoted);
            if end == length {
                (self.cut(), 0)
            } else {
                (Some(Ok(Token::String(self.reader.text_ahead(1, end)))), end + 1)
            }
        } else if first == '/' {
            if length == 1 {
                (self.cut(), 0)
            } else if self.reader.peek_at(1) != Some('*') {
                (Some(Err(Error::ParsingTokenError())), 0)
            } else {
                let close = self.find_close(2);
                if close == length {
                    (self.cut(), 0)
                } else {
                    (Some(Ok(Token::Comments)), close + 2)
                }
            }
        } else if first == '#' {
            let blank = self.scan(1, CharClass::Whitespace);
            let digits = self.scan(blank, CharClass::Digit);
            let word = self.scan(0, CharClass::Text);
            if !self.complete && (blank == length || digits == length || word == length) {
                return (Some(Err(Error::EndOfInput())), 0);
            }
            proof {
                lemma_run_end(rest, blank as int, CharClass::Digit);
                assert(all_digits(rest.subrange(blank as int, digits as int))) by {
                    assert forall|i: int| 0 <= i < digits - blank implies is_digit(
                        #[trigger] rest.subrange(blank as int, digits as int)[i],
                    ) by {
                        assert(in_class(CharClass::Digit, rest[blank + i]));
                    }
                }
            }
            let value = self.reader.number_ahead(blank, digits);
            let is_reference = digits > blank && digits >= word && match value {
                Some(v) => v >= 1,
                None => true,
            };
            if is_reference {
                match value {
                    Some(v) => (Some(Ok(Token::Reference(v))), digits),
                    None => (
                        Some(Err(Error::InvalidNumber(self.reader.text_ahead(blank, digits)))),
                        0,
                    ),
                }
            } else {
                let text = self.reader.text_ahead(0, word);
                assert(rest.subrange(0, word as int) =~= rest.take(word as int));
                (Some(Ok(Token::Definition(text))), word)
            }
        } else {
            let end = self.scan(0, CharClass::Text);
            if end == length && !self.complete {
                (Some(Err(Error::EndOfInput())), 0)
            } else {
                (Some(Ok(self.word(end))), end)
            }
        }
    }

    /// The next token, which is passed over. At the end of a text that is
    /// all there is, nothing is handed out. Text that is no token is an error,
    /// and so is, with `EndOfInput`, a token that may go on in text that has
    /// not arrived; neither is passed over.
    pub fn next(&mut self) -> (item: Option<Result<Token, Error>>)
        ensures
            handed_out(old(self)@.ahead(), item),
            final(self)@ == (TokenizerView {
                position: (old(self)@.position + taken(old(self)@.ahead())) as nat,
                ..old(self)@
            }),
    {
        let (item, len) = self.look();
        proof {
            lemma_token_len(self@.rest(), self@.complete);
        }
        self.reader.advance(len);
        item
    }

    /// The next token, which is not passed over.
    pub fn peek(&self) -> (item: Option<Result<Token, Error>>)
        ensures
            handed_out(self@.ahead(), item),
    {
        self.look().0
    }

    /// The text from the next token on, in one form for all ways to write
    /// it: each run of whitespace becomes a line feed, each comment becomes
    /// `/**/`, and every other token stays as `Token::to_string` writes it.
    /// The result is the first error of a token, where there is one.
    pub fn into_string(self) -> (result: Result<String, Error>)
        ensures
            match normalized(self@.text, self@.position as int, self@.complete) {
                Ok(text) => result matches Ok(t) && t@ == text,
                Err(lexed) => result matches Err(e) && handed_out(lexed, Some(Err(e))),
            },
    {
        let mut tokenizer = self;
        let mut text = String::new();
        let ghost goal = normalized(self@.text, self@.position as int, self@.complete);
        loop
            invariant
                tokenizer@.text == self@.text,
                tokenizer@.complete == self@.complete,
                goal == normalized(self@.text, self@.position as int, self@.complete),
                goal == match normalized(
                    tokenizer@.text,
                    tokenizer@.position as int,
                    tokenizer@.complete,
                ) {
                    Ok(rest) => Ok::<Seq<char>, Lexed>(text@ + rest),
                    Err(lexed) => Err::<Seq<char>, Lexed>(lexed),
                },
            decreases tokenizer@.text.len() - tokenizer@.position,
        {
            let left = tokenizer.remaining();
            let ghost before = text@;
            let ghost ahead = tokenizer@.ahead();
            let ghost at = tokenizer@.position as int;
            proof {
                lemma_token_len(tokenizer@.rest(), tokenizer@.complete);
            }
            match tokenizer.next() {
                None => {
                    assert(text@ + Seq::<char>::empty() =~= text@);
                    return Ok(text);
                },
                Some(Err(e)) => {
                    return Err(e);
                },
                Some(Ok(token)) => {
                    match token {
                        Token::Whitespace => text.append("\n"),
                        Token::Comments => text.append("/**/"),
                        other => text.append(other.to_string().as_str()),
                    }
                    proof {
                        let token = ahead->token;
                        let len = ahead->len;
                        match normalized(self@.text, at + len, self@.complete) {
                            Ok(rest) => {
                                assert(before + (normal_piece(token) + rest) =~= text@ + rest);
                            },
                            Err(_) => {},
                        }
                    }
                },
            }
        }
    }
}

/// What stands for a token in the normal form of a text.
pub open spec fn normal_piece(token: TokenView) -> Seq<char> {
    match token {
        TokenView::Whitespace => "\n"@,
        TokenView::Comments => "/**/"@,
        other => token_text(other),
    }
}

/// The normal form of the text `s` from `from` on, or what the text begins
/// with at the first place that is no token.
pub open spec fn normalized(s: Seq<char>, from: int, complete: bool) -> Result<Seq<char>, Lexed>
    decreases s.len() - from,
{
    match lex(s.skip(from), complete) {
        Lexed::Token { token, len } => if 1 <= len && 0 <= from && from + len <= s.len() {
            match normalized(s, from + len, complete) {
                Ok(rest) => Ok(normal_piece(token) + rest),
                Err(lexed) => Err(lexed),
            }
        } else {
            Ok(seq![])
        },
        Lexed::End => Ok(seq![]),
        other => Err(other),
    }
}

} // verus!
