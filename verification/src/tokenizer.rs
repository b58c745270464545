//! The tokenizer: a single left-to-right scan over the characters of the
//! input that yields the flat sequence of lexical tokens.

use vstd::prelude::*;
use vstd::std_specs::cmp::PartialEqSpecImpl;
use vstd::string::StringExecFns;
use crate::error::{ErrorView, JsonError};
use crate::number::{decimal_of, is_number_text, sign_len, whole_end, JsonNumber, NumberView};
use crate::text::{
    char_from_code, chars_of, debug_quote, debug_quoted, lemma_run_covers, lemma_run_end, push_char,
    run_end,
    scan_run, slice_of, string_of, CharClass,
};

verus! {

/// One lexical unit of JSON text.
#[derive(Debug)]
pub enum Token {
    LeftBrace,
    RightBrace,
    LeftBracket,
    RightBracket,
    Comma,
    Colon,
    String(String),
    Number(JsonNumber),
    Boolean(bool),
    Null,
}

/// The mathematical content of a [`Token`].
pub ghost enum TokenView {
    LeftBrace,
    RightBrace,
    LeftBracket,
    RightBracket,
    Comma,
    Colon,
    String(Seq<char>),
    Number(NumberView),
    Boolean(bool),
    Null,
}

impl View for Token {
    type V = TokenView;

    open spec fn view(&self) -> TokenView {
        match *self {
            Token::LeftBrace => TokenView::LeftBrace,
            Token::RightBrace => TokenView::RightBrace,
            Token::LeftBracket => TokenView::LeftBracket,
            Token::RightBracket => TokenView::RightBracket,
            Token::Comma => TokenView::Comma,
            Token::Colon => TokenView::Colon,
            Token::String(s) => TokenView::String(s@),
            Token::Number(n) => TokenView::Number(n@),
            Token::Boolean(b) => TokenView::Boolean(b),
            Token::Null => TokenView::Null,
        }
    }
}

/// The contents of a sequence of tokens.
pub open spec fn token_views(tokens: Seq<Token>) -> Seq<TokenView> {
    Seq::new(tokens.len(), |i: int| tokens[i]@)
}

/// How a token is named in a diagnostic: the variant's name, with its
/// payload in parentheses where it has one. A number is written with a
/// decimal point: `.0` follows one that has no fraction.
pub open spec fn token_name(t: TokenView) -> Seq<char> {
    match t {
        TokenView::LeftBrace => "LeftBrace"@,
        TokenView::RightBrace => "RightBrace"@,
        TokenView::LeftBracket => "LeftBracket"@,
        TokenView::RightBracket => "RightBracket"@,
        TokenView::Comma => "Comma"@,
        TokenView::Colon => "Colon"@,
        TokenView::String(s) => "String("@ + debug_quoted(s) + ")"@,
        TokenView::Number(n) => "Number("@ + n.text() + (if n.fraction.len() == 0 {
            ".0"@
        } else {
            Seq::<char>::empty()
        }) + ")"@,
        TokenView::Boolean(b) => if b {
            "Boolean(true)"@
        } else {
            "Boolean(false)"@
        },
        TokenView::Null => "Null"@,
    }
}

impl PartialEq for Token {
    /// Whether the two tokens are of the same kind and hold the same
    /// content.
    fn eq(&self, other: &Token) -> (r: bool) {
        match (self, other) {
            (Token::LeftBrace, Token::LeftBrace) => true,
            (Token::RightBrace, Token::RightBrace) => true,
            (Token::LeftBracket, Token::LeftBracket) => true,
            (Token::RightBracket, Token::RightBracket) => true,
            (Token::Comma, Token::Comma) => true,
            (Token::Colon, Token::Colon) => true,
            (Token::String(x), Token::String(y)) => *x == *y,
            (Token::Number(x), Token::Number(y)) => *x == *y,
            (Token::Boolean(x), Token::Boolean(y)) => *x == *y,
            (Token::Null, Token::Null) => true,
            _ => false,
        }
    }
}

impl PartialEqSpecImpl for Token {
    open spec fn obeys_eq_spec() -> bool {
        true
    }

    open spec fn eq_spec(&self, other: &Token) -> bool {
        self@ == other@
    }
}

impl Clone for Token {
    /// A copy of the token.
    fn clone(&self) -> (out: Token)
        ensures
            out@ == self@,
    {
        match self {
            Token::LeftBrace => Token::LeftBrace,
            Token::RightBrace => Token::RightBrace,
            Token::LeftBracket => Token::LeftBracket,
            Token::RightBracket => Token::RightBracket,
            Token::Comma => Token::Comma,
            Token::Colon => Token::Colon,
            Token::String(s) => Token::String(s.clone()),
            Token::Number(n) => Token::Number(n.clone()),
            Token::Boolean(b) => Token::Boolean(*b),
            Token::Null => Token::Null,
        }
    }
}

impl Token {
    /// The name of the token for a diagnostic.
    pub fn describe(&self) -> (out: String)
        ensures
            out@ == token_name(self@),
    {
        match self {
            Token::LeftBrace => String::from_str("LeftBrace"),
            Token::RightBrace => String::from_str("RightBrace"),
            Token::LeftBracket => String::from_str("LeftBracket"),
            Token::RightBracket => String::from_str("RightBracket"),
            Token::Comma => String::from_str("Comma"),
            Token::Colon => String::from_str("Colon"),
            Token::String(s) => {
                let mut out = String::from_str("String(");
                let quoted = debug_quote(s.as_str());
                out.append(quoted.as_str());
                out.append(")");
                out
            },
            Token::Number(n) => {
                let mut out = String::from_str("Number(");
                let text = n.to_text();
                out.append(text.as_str());
                if n.is_integer() {
                    out.append(".0");
                }
                out.append(")");
                proof {
                    assert(out@ =~= token_name(self@));
                }
                out
            },
            Token::Boolean(b) => if *b {
                String::from_str("Boolean(true)")
            } else {
                String::from_str("Boolean(false)")
            },
            Token::Null => String::from_str("Null"),
        }
    }
}

/// The outcome of scanning one item: what was read and the position after
/// it, or the error that ended the scan.
pub type Scan<T> = Result<(T, int), ErrorView>;

/// The value of a hexadecimal digit, if `c` is one.
pub open spec fn hex_digit_value(c: char) -> Option<int> {
    if '0' <= c <= '9' {
        Some(c as int - '0' as int)
    } else if 'a' <= c <= 'f' {
        Some(c as int - 'a' as int + 10)
    } else if 'A' <= c <= 'F' {
        Some(c as int - 'A' as int + 10)
    } else {
        None
    }
}

/// The code unit that four hexadecimal digits denote, if all four are
/// hexadecimal digits.
pub open spec fn hex_code(digits: Seq<char>) -> Option<int>
    recommends
        digits.len() == 4,
{
    if hex_digit_value(digits[0]) is Some && hex_digit_value(digits[1]) is Some && hex_digit_value(
        digits[2],
    ) is Some && hex_digit_value(digits[3]) is Some {
        Some(
            ((hex_digit_value(digits[0])->0 * 16 + hex_digit_value(digits[1])->0) * 16
                + hex_digit_value(digits[2])->0) * 16 + hex_digit_value(digits[3])->0,
        )
    } else {
        None
    }
}

/// Whether a code unit is a scalar value by itself, that is, no surrogate.
pub open spec fn is_scalar_code(code: int) -> bool {
    0 <= code <= 0xD7FF || 0xE000 <= code <= 0xFFFF
}

/// Scans the four hexadecimal digits of a `\u` escape, the first of which
/// stands at `pos`.
pub open spec fn scan_unicode_escape(s: Seq<char>, pos: int) -> Scan<char> {
    if pos + 4 > s.len() {
        Err(ErrorView::InvalidUnicode { sequence: s.subrange(pos, s.len() as int), position: pos })
    } else {
        let digits = s.subrange(pos, pos + 4);
        match hex_code(digits) {
            Some(code) if is_scalar_code(code) => Ok((code as char, pos + 4)),
            _ => Err(ErrorView::InvalidUnicode { sequence: digits, position: pos }),
        }
    }
}

/// Scans an escape sequence whose backslash has been read; `pos` is the
/// position just after the backslash.
pub open spec fn scan_escape(s: Seq<char>, pos: int) -> Scan<char> {
    if pos >= s.len() {
        Err(ErrorView::UnexpectedEndOfInput { expected: "escape character"@, position: pos })
    } else {
        let c = s[pos];
        if c == '"' {
            Ok(('"', pos + 1))
        } else if c == '\\' {
            Ok(('\\', pos + 1))
        } else if c == '/' {
            Ok(('/', pos + 1))
        } else if c == 'b' {
            Ok(('\u{0008}', pos + 1))
        } else if c == 'f' {
            Ok(('\u{000C}', pos + 1))
        } else if c == 'n' {
            Ok(('\n', pos + 1))
        } else if c == 'r' {
            Ok(('\r', pos + 1))
        } else if c == 't' {
            Ok(('\t', pos + 1))
        } else if c == 'u' {
            scan_unicode_escape(s, pos + 1)
        } else {
            Err(ErrorView::InvalidEscape { char: c, position: pos })
        }
    }
}

/// Scans the rest of a string literal whose opening quote stands at `start`:
/// `pos` is the position reached and `acc` the characters decoded so far.
/// Where the text ends before the closing quote, be it right after a
/// backslash, the fault is the missing closing quote, reported at the
/// opening quote.
pub open spec fn scan_string_body(s: Seq<char>, start: int, pos: int, acc: Seq<char>) -> Scan<
    Seq<char>,
>
    decreases s.len() - pos,
{
    if pos < 0 || pos >= s.len() {
        Err(ErrorView::UnexpectedEndOfInput { expected: "closing quote"@, position: start })
    } else if s[pos] == '"' {
        Ok((acc, pos + 1))
    } else if s[pos] == '\\' {
        if pos + 1 >= s.len() {
            Err(ErrorView::UnexpectedEndOfInput { expected: "closing quote"@, position: start })
        } else {
            match scan_escape(s, pos + 1) {
                Ok((c, next)) => scan_string_body(s, start, next, acc.push(c)),
                Err(e) => Err(e),
            }
        }
    } else {
        scan_string_body(s, start, pos + 1, acc.push(s[pos]))
    }
}

/// Scans a string literal whose opening quote stands at `start`.
pub open spec fn scan_string(s: Seq<char>, start: int) -> Scan<Seq<char>> {
    scan_string_body(
        s,
        start,
        if start < s.len() {
            start + 1
        } else {
            start
        },
        Seq::empty(),
    )
}

/// Whether a number's text starts with `.` or `-.`.
pub open spec fn has_leading_dot(text: Seq<char>) -> bool {
    (text.len() >= 1 && text[0] == '.') || (text.len() >= 2 && text[0] == '-' && text[1] == '.')
}

/// Scans a number at `pos`: the longest run of digits, `.` and `-` is taken
/// as a unit and must be a number's text.
pub open spec fn scan_number(s: Seq<char>, pos: int) -> Scan<NumberView> {
    let end = run_end(s, pos, CharClass::Numeric);
    let text = s.subrange(pos, end);
    if has_leading_dot(text) {
        Err(ErrorView::UnexpectedToken { expected: "valid JSON token"@, found: text, position: pos })
    } else if is_number_text(text) {
        Ok((decimal_of(text), end))
    } else {
        Err(ErrorView::InvalidNumber { value: text, position: pos })
    }
}

/// The token that a word of lowercase letters denotes, if it is a keyword.
pub open spec fn keyword(word: Seq<char>) -> Option<TokenView> {
    if word == "true"@ {
        Some(TokenView::Boolean(true))
    } else if word == "false"@ {
        Some(TokenView::Boolean(false))
    } else if word == "null"@ {
        Some(TokenView::Null)
    } else {
        None
    }
}

/// Scans a keyword at `pos`: the longest run of lowercase letters must be
/// `true`, `false` or `null`.
pub open spec fn scan_keyword(s: Seq<char>, pos: int) -> Scan<TokenView> {
    let end = run_end(s, pos, CharClass::Lowercase);
    let word = s.subrange(pos, end);
    match keyword(word) {
        Some(t) => Ok((t, end)),
        None => Err(
            ErrorView::UnexpectedToken { expected: "valid JSON token"@, found: word, position: pos },
        ),
    }
}

/// Whether `c` is JSON whitespace.
pub open spec fn is_whitespace(c: char) -> bool {
    c == ' ' || c == '\n' || c == '\t' || c == '\r'
}

/// The token for a structural character, if `c` is one.
pub open spec fn structural(c: char) -> Option<TokenView> {
    if c == '{' {
        Some(TokenView::LeftBrace)
    } else if c == '}' {
        Some(TokenView::RightBrace)
    } else if c == '[' {
        Some(TokenView::LeftBracket)
    } else if c == ']' {
        Some(TokenView::RightBracket)
    } else if c == ':' {
        Some(TokenView::Colon)
    } else if c == ',' {
        Some(TokenView::Comma)
    } else {
        None
    }
}

/// Scans one step at `pos`, which lies inside the text: whitespace yields
/// no token, anything else yields one token or fails.
pub open spec fn scan_token(s: Seq<char>, pos: int) -> Scan<Option<TokenView>>
    recommends
        0 <= pos < s.len(),
{
    let c = s[pos];
    if structural(c) is Some {
        Ok((structural(c), pos + 1))
    } else if is_whitespace(c) {
        Ok((None, pos + 1))
    } else if c == '"' {
        match scan_string(s, pos) {
            Ok((text, next)) => Ok((Some(TokenView::String(text)), next)),
            Err(e) => Err(e),
        }
    } else if c == 't' || c == 'f' || c == 'n' {
        match scan_keyword(s, pos) {
            Ok((t, next)) => Ok((Some(t), next)),
            Err(e) => Err(e),
        }
    } else if CharClass::Digit.contains(c) || c == '-' {
        match scan_number(s, pos) {
            Ok((n, next)) => Ok((Some(TokenView::Number(n)), next)),
            Err(e) => Err(e),
        }
    } else {
        Err(
            ErrorView::UnexpectedToken {
                expected: "valid JSON token"@,
                found: seq![c],
                position: pos,
            },
        )
    }
}

/// A successful escape ends after its start and inside the text.
pub proof fn lemma_scan_escape_advances(s: Seq<char>, pos: int)
    requires
        0 <= pos,
    ensures
        scan_escape(s, pos) matches Ok((_, next)) ==> pos < next <= s.len(),
{
}

/// A successful string scan ends after the position it had reached and
/// inside the text.
pub proof fn lemma_scan_string_body_advances(s: Seq<char>, start: int, pos: int, acc: Seq<char>)
    requires
        0 <= pos,
    ensures
        scan_string_body(s, start, pos, acc) matches Ok((_, next)) ==> pos < next <= s.len(),
    decreases s.len() - pos,
{
    if pos < s.len() {
        if s[pos] == '"' {
        } else if s[pos] == '\\' {
            lemma_scan_escape_advances(s, pos + 1);
            match scan_escape(s, pos + 1) {
                Ok((c, next)) => lemma_scan_string_body_advances(s, start, next, acc.push(c)),
                Err(_) => {},
            }
        } else {
            lemma_scan_string_body_advances(s, start, pos + 1, acc.push(s[pos]));
        }
    }
}

/// Where a string literal fails because the text ends, the fault is the
/// missing closing quote, reported at the opening quote, wherever in the
/// literal the text ends: after a character, after an escape or right after
/// a backslash.
pub proof fn lemma_string_end_of_input(s: Seq<char>, start: int, pos: int, acc: Seq<char>)
    requires
        0 <= pos,
    ensures
        scan_string_body(s, start, pos, acc) matches Err(
            ErrorView::UnexpectedEndOfInput { expected, position },
        ) ==> expected == "closing quote"@ && position == start,
    decreases s.len() - pos,
{
    if pos < s.len() {
        if s[pos] == '"' {
        } else if s[pos] == '\\' {
            if pos + 1 < s.len() {
                lemma_scan_escape_advances(s, pos + 1);
                match scan_escape(s, pos + 1) {
                    Ok((c, next)) => lemma_string_end_of_input(s, start, next, acc.push(c)),
                    Err(_) => {},
                }
            }
        } else {
            lemma_string_end_of_input(s, start, pos + 1, acc.push(s[pos]));
        }
    }
}

/// A successful step ends after its start and inside the text.
pub proof fn lemma_scan_token_advances(s: Seq<char>, pos: int)
    requires
        0 <= pos < s.len(),
    ensures
        scan_token(s, pos) matches Ok((_, next)) ==> pos < next <= s.len(),
{
    lemma_run_end(s, pos, CharClass::Lowercase);
    lemma_run_end(s, pos + 1, CharClass::Lowercase);
    lemma_run_end(s, pos, CharClass::Numeric);
    lemma_run_end(s, pos + 1, CharClass::Numeric);
    lemma_scan_string_body_advances(s, pos, pos + 1, Seq::empty());
}

/// Scans the text from `pos` to its end; `acc` holds the tokens found so
/// far. The first failure ends the scan.
pub open spec fn scan_tokens(s: Seq<char>, pos: int, acc: Seq<TokenView>) -> Result<
    Seq<TokenView>,
    ErrorView,
>
    decreases s.len() - pos,
{
    if pos < 0 || pos >= s.len() {
        Ok(acc)
    } else {
        match scan_token(s, pos) {
            Ok((t, next)) => {
                proof {
                    lemma_scan_token_advances(s, pos);
                }
                scan_tokens(
                    s,
                    next,
                    match t {
                        Some(token) => acc.push(token),
                        None => acc,
                    },
                )
            },
            Err(e) => Err(e),
        }
    }
}

/// The tokens of a text, or the first lexical fault in it.
pub open spec fn tokens_of(s: Seq<char>) -> Result<Seq<TokenView>, ErrorView> {
    scan_tokens(s, 0, Seq::empty())
}

/// The text of a number is tokenized to exactly one number token, which
/// holds the number that the text denotes.
pub proof fn lemma_number_text_is_one_token(s: Seq<char>)
    requires
        is_number_text(s),
    ensures
        tokens_of(s) == Ok::<Seq<TokenView>, ErrorView>(seq![TokenView::Number(decimal_of(s))]),
{
    let start = sign_len(s);
    let w = whole_end(s);
    lemma_run_end(s, start, CharClass::Digit);
    if w < s.len() {
        lemma_run_end(s, w + 1, CharClass::Digit);
    }
    assert forall|i: int| 0 <= i < s.len() implies CharClass::Numeric.contains(#[trigger] s[i]) by {
        if i < start {
        } else if i < w {
            assert(CharClass::Digit.contains(s[i]));
        } else if i == w {
        } else {
            assert(CharClass::Digit.contains(s[i]));
        }
    }
    lemma_run_covers(s, 0, s.len() as int, CharClass::Numeric);
    assert(s.subrange(0, s.len() as int) =~= s);
    assert(CharClass::Digit.contains(s[start]));
    assert(!has_leading_dot(s));
    assert(scan_number(s, 0) == Ok::<(NumberView, int), ErrorView>((decimal_of(s), s.len() as int)));
    assert(structural(s[0]) is None);
    assert(scan_token(s, 0) == Ok::<(Option<TokenView>, int), ErrorView>(
        (Some(TokenView::Number(decimal_of(s))), s.len() as int),
    ));
    assert(Seq::<TokenView>::empty().push(TokenView::Number(decimal_of(s))) =~= seq![
        TokenView::Number(decimal_of(s)),
    ]);
    assert(scan_tokens(s, s.len() as int, seq![TokenView::Number(decimal_of(s))]) == Ok::<
        Seq<TokenView>,
        ErrorView,
    >(seq![TokenView::Number(decimal_of(s))]));
}

/// A text that starts with `.` or with `-.` is not tokenized, and the fault
/// is an unexpected token at its start: a number needs a digit before its
/// decimal point.
pub proof fn lemma_leading_dot_is_rejected(s: Seq<char>)
    requires
        has_leading_dot(s),
    ensures
        tokens_of(s) matches Err(ErrorView::UnexpectedToken { position, .. }) && position == 0,
{
    if s[0] == '.' {
        assert(scan_token(s, 0) is Err);
    } else {
        lemma_run_end(s, 0, CharClass::Numeric);
        lemma_run_end(s, 1, CharClass::Numeric);
        lemma_run_end(s, 2, CharClass::Numeric);
        let end = run_end(s, 0, CharClass::Numeric);
        assert(end >= 2);
        assert(has_leading_dot(s.subrange(0, end)));
        assert(scan_number(s, 0) is Err);
        assert(scan_token(s, 0) is Err);
    }
}

/// A `\u` escape with fewer than four characters after it before the end of
/// the text is refused as an invalid unicode escape, which reports the
/// characters that were there.
pub proof fn lemma_short_unicode_escape(s: Seq<char>, pos: int)
    requires
        0 <= pos <= s.len(),
        pos + 4 > s.len(),
    ensures
        scan_unicode_escape(s, pos) == Err::<(char, int), ErrorView>(
            ErrorView::InvalidUnicode { sequence: s.subrange(pos, s.len() as int), position: pos },
        ),
{
}

/// Whether `c` may follow the backslash of an escape sequence.
pub open spec fn is_escape_char(c: char) -> bool {
    c == '"' || c == '\\' || c == '/' || c == 'b' || c == 'f' || c == 'n' || c == 'r' || c == 't'
        || c == 'u'
}

/// A backslash followed by a character that names no escape is refused as
/// an invalid escape, which reports that character and its position.
pub proof fn lemma_unknown_escape(s: Seq<char>, pos: int)
    requires
        0 <= pos < s.len(),
        !is_escape_char(s[pos]),
    ensures
        scan_escape(s, pos) == Err::<(char, int), ErrorView>(
            ErrorView::InvalidEscape { char: s[pos], position: pos },
        ),
{
}

/// A text without characters has no tokens.
pub proof fn lemma_empty_text_has_no_tokens()
    ensures
        tokens_of(Seq::<char>::empty()) == Ok::<Seq<TokenView>, ErrorView>(Seq::empty()),
{
}

/// The scan cursor of the tokenizer: the characters of the input and the
/// index of the next one to read. The index only ever moves forward.
pub struct Tokenizer {
    input: Vec<char>,
    position: usize,
}

/// Reads the hexadecimal digit `c`.
fn hex_digit(c: char) -> (r: Option<u32>)
    ensures
        r is Some <==> hex_digit_value(c) is Some,
        r matches Some(v) ==> v as int == hex_digit_value(c)->0 && v < 16,
{
    if '0' <= c && c <= '9' {
        Some(c as u32 - '0' as u32)
    } else if 'a' <= c && c <= 'f' {
        Some(c as u32 - 'a' as u32 + 10)
    } else if 'A' <= c && c <= 'F' {
        Some(c as u32 - 'A' as u32 + 10)
    } else {
        None
    }
}

impl Tokenizer {
    /// The characters of the input.
    pub closed spec fn text(&self) -> Seq<char> {
        self.input@
    }

    /// The index of the next character to read.
    pub closed spec fn cursor(&self) -> int {
        self.position as int
    }

    /// The cursor lies inside the input or at its end.
    #[verifier::type_invariant]
    pub closed spec fn wf(&self) -> bool {
        self.position <= self.input@.len()
    }

    /// Whether `next` is a later state of the scan that `self` is in: the
    /// same input, and a cursor that has not moved back.
    pub open spec fn precedes(&self, next: &Tokenizer) -> bool {
        &&& next.wf()
        &&& next.text() == self.text()
        &&& self.cursor() <= next.cursor() <= self.text().len()
    }

    /// A tokenizer at the start of `input`.
    pub fn new(input: &str) -> (t: Tokenizer)
        ensures
            t.wf(),
            t.text() == input@,
            t.cursor() == 0,
    {
        Tokenizer { input: chars_of(input), position: 0 }
    }

    /// Whether the cursor has reached the end of the input.
    pub fn is_at_end(&self) -> (b: bool)
        ensures
            b == (self.cursor() >= self.text().len()),
    {
        self.position >= self.input.len()
    }

    /// The character at the cursor, if there is one.
    pub fn peek(&self) -> (c: Option<char>)
        ensures
            c == (if 0 <= self.cursor() < self.text().len() {
                Some(self.text()[self.cursor()])
            } else {
                None
            }),
    {
        if self.position < self.input.len() {
            Some(self.input[self.position])
        } else {
            None
        }
    }

    /// Returns the character at the cursor and moves the cursor past it; at
    /// the end of the input, returns `None` and leaves the cursor alone.
    pub fn advance(&mut self) -> (c: Option<char>)
        ensures
            old(self).precedes(final(self)),
            c == (if old(self).cursor() < old(self).text().len() {
                Some(old(self).text()[old(self).cursor()])
            } else {
                None
            }),
            final(self).cursor() == (if old(self).cursor() < old(self).text().len() {
                old(self).cursor() + 1
            } else {
                old(self).cursor()
            }),
    {
        proof {
            use_type_invariant(&*self);
        }
        if self.position < self.input.len() {
            let ch = self.input[self.position];
            self.position += 1;
            Some(ch)
        } else {
            None
        }
    }

    /// Reads the four hexadecimal digits of a `\u` escape at the cursor and
    /// returns the character that they denote.
    pub fn parse_unicode_escape(&mut self) -> (r: Result<char, JsonError>)
        ensures
            old(self).precedes(final(self)),
            match r {
                Ok(c) => scan_unicode_escape(old(self).text(), old(self).cursor()) == Ok::<
                    (char, int),
                    ErrorView,
                >((c, final(self).cursor())),
                Err(e) => scan_unicode_escape(old(self).text(), old(self).cursor()) == Err::<
                    (char, int),
                    ErrorView,
                >(e@),
            },
    {
        proof {
            use_type_invariant(&*self);
        }
        let hex_start = self.position;
        let len = self.input.len();
        if len - hex_start < 4 {
            let sequence = string_of(&self.input, hex_start, len);
            self.position = len;
            return Err(JsonError::InvalidUnicode { sequence, position: hex_start });
        }
        self.position = hex_start + 4;
        let d0 = hex_digit(self.input[hex_start]);
        let d1 = hex_digit(self.input[hex_start + 1]);
        let d2 = hex_digit(self.input[hex_start + 2]);
        let d3 = hex_digit(self.input[hex_start + 3]);
        let code: Option<u32> = match (d0, d1, d2, d3) {
            (Some(a), Some(b), Some(c), Some(d)) => Some(((a * 16 + b) * 16 + c) * 16 + d),
            _ => None,
        };
        let decoded: Option<char> = match code {
            Some(code) => char_from_code(code),
            None => None,
        };
        match decoded {
            Some(c) => Ok(c),
            None => {
                let sequence = string_of(&self.input, hex_start, hex_start + 4);
                Err(JsonError::InvalidUnicode { sequence, position: hex_start })
            },
        }
    }

    /// Reads what follows the backslash of an escape sequence and returns
    /// the character that the escape denotes.
    pub fn parse_escape_sequence(&mut self) -> (r: Result<char, JsonError>)
        ensures
            old(self).precedes(final(self)),
            match r {
                Ok(c) => scan_escape(old(self).text(), old(self).cursor()) == Ok::<
                    (char, int),
                    ErrorView,
                >((c, final(self).cursor())),
                Err(e) => scan_escape(old(self).text(), old(self).cursor()) == Err::<
                    (char, int),
                    ErrorView,
                >(e@),
            },
    {
        proof {
            use_type_invariant(&*self);
        }
        match self.peek() {
            None => Err(
                JsonError::UnexpectedEndOfInput {
                    expected: String::from_str("escape character"),
                    position: self.position,
                },
            ),
            Some(ch) => {
                if ch == 'u' {
                    self.advance();
                    return self.parse_unicode_escape();
                }
                let decoded: Option<char> = if ch == '"' {
                    Some('"')
                } else if ch == '\\' {
                    Some('\\')
                } else if ch == '/' {
                    Some('/')
                } else if ch == 'b' {
                    Some('\u{0008}')
                } else if ch == 'f' {
                    Some('\u{000C}')
                } else if ch == 'n' {
                    Some('\n')
                } else if ch == 'r' {
                    Some('\r')
                } else if ch == 't' {
                    Some('\t')
                } else {
                    None
                };
                match decoded {
                    Some(c) => {
                        self.advance();
                        Ok(c)
                    },
                    None => Err(JsonError::InvalidEscape { char: ch, position: self.position }),
                }
            },
        }
    }

    /// Reads a string literal whose opening quote stands at the cursor and
    /// returns its decoded content.
    pub fn parse_string(&mut self) -> (r: Result<String, JsonError>)
        ensures
            old(self).precedes(final(self)),
            match r {
                Ok(text) => scan_string(old(self).text(), old(self).cursor()) == Ok::<
                    (Seq<char>, int),
                    ErrorView,
                >((text@, final(self).cursor())),
                Err(e) => scan_string(old(self).text(), old(self).cursor()) == Err::<
                    (Seq<char>, int),
                    ErrorView,
                >(e@),
            },
    {
        proof {
            use_type_invariant(&*self);
        }
        let string_start = self.position;
        self.advance();
        let mut s = String::new();
        loop
            invariant
                old(self).precedes(self),
                string_start == old(self).cursor(),
                scan_string(old(self).text(), old(self).cursor()) == scan_string_body(
                    self.text(),
                    string_start as int,
                    self.cursor(),
                    s@,
                ),
            decreases self.text().len() - self.cursor(),
        {
            match self.peek() {
                None => {
                    return Err(
                        JsonError::UnexpectedEndOfInput {
                            expected: String::from_str("closing quote"),
                            position: string_start,
                        },
                    );
                },
                Some(c) => {
                    if c == '"' {
                        self.advance();
                        return Ok(s);
                    } else if c == '\\' {
                        self.advance();
                        if self.is_at_end() {
                            return Err(
                                JsonError::UnexpectedEndOfInput {
                                    expected: String::from_str("closing quote"),
                                    position: string_start,
                                },
                            );
                        }
                        let ghost before = self.cursor();
                        match self.parse_escape_sequence() {
                            Ok(ch) => {
                                proof {
                                    lemma_scan_escape_advances(self.text(), before);
                                }
                                push_char(&mut s, ch);
                            },
                            Err(e) => {
                                return Err(e);
                            },
                        }
                    } else {
                        push_char(&mut s, c);
                        self.advance();
                    }
                },
            }
        }
    }

    /// Reads a number at the cursor: the longest run of digits, `.` and `-`
    /// is collected and read as one number.
    pub fn parse_number(&mut self) -> (r: Result<JsonNumber, JsonError>)
        ensures
            old(self).precedes(final(self)),
            match r {
                Ok(n) => scan_number(old(self).text(), old(self).cursor()) == Ok::<
                    (NumberView, int),
                    ErrorView,
                >((n@, final(self).cursor())),
                Err(e) => scan_number(old(self).text(), old(self).cursor()) == Err::<
                    (NumberView, int),
                    ErrorView,
                >(e@),
            },
    {
        proof {
            use_type_invariant(&*self);
        }
        let start = self.position;
        let end = scan_run(&self.input, start, CharClass::Numeric);
        self.position = end;
        let text = slice_of(&self.input, start, end);
        let leading_dot = (text.len() >= 1 && text[0] == '.') || (text.len() >= 2 && text[0] == '-'
            && text[1] == '.');
        if leading_dot {
            return Err(
                JsonError::UnexpectedToken {
                    expected: String::from_str("valid JSON token"),
                    found: string_of(&self.input, start, end),
                    position: start,
                },
            );
        }
        match JsonNumber::from_chars(&text) {
            Some(n) => Ok(n),
            None => Err(
                JsonError::InvalidNumber {
                    value: string_of(&self.input, start, end),
                    position: start,
                },
            ),
        }
    }

    /// Reads a keyword at the cursor: the longest run of lowercase letters
    /// is collected and must be `true`, `false` or `null`.
    pub fn parse_keyword(&mut self) -> (r: Result<Token, JsonError>)
        ensures
            old(self).precedes(final(self)),
            match r {
                Ok(t) => scan_keyword(old(self).text(), old(self).cursor()) == Ok::<
                    (TokenView, int),
                    ErrorView,
                >((t@, final(self).cursor())),
                Err(e) => scan_keyword(old(self).text(), old(self).cursor()) == Err::<
                    (TokenView, int),
                    ErrorView,
                >(e@),
            },
    {
        proof {
            use_type_invariant(&*self);
        }
        let start = self.position;
        let end = scan_run(&self.input, start, CharClass::Lowercase);
        self.position = end;
        let word = string_of(&self.input, start, end);
        if word == String::from_str("true") {
            Ok(Token::Boolean(true))
        } else if word == String::from_str("false") {
            Ok(Token::Boolean(false))
        } else if word == String::from_str("null") {
            Ok(Token::Null)
        } else {
            Err(
                JsonError::UnexpectedToken {
                    expected: String::from_str("valid JSON token"),
                    found: word,
                    position: start,
                },
            )
        }
    }

    /// Scans the input from the cursor to its end and returns the tokens
    /// found, or the first lexical fault.
    pub fn tokenize(&mut self) -> (r: Result<Vec<Token>, JsonError>)
        ensures
            old(self).precedes(final(self)),
            match r {
                Ok(tokens) => {
                    &&& scan_tokens(old(self).text(), old(self).cursor(), Seq::empty()) == Ok::<
                        Seq<TokenView>,
                        ErrorView,
                    >(token_views(tokens@))
                    &&& final(self).cursor() == old(self).text().len()
                },
                Err(e) => scan_tokens(old(self).text(), old(self).cursor(), Seq::empty()) == Err::<
                    Seq<TokenView>,
                    ErrorView,
                >(e@),
            },
    {
        proof {
            use_type_invariant(&*self);
        }
        let mut tokens: Vec<Token> = Vec::new();
        assert(token_views(tokens@) =~= Seq::empty());
        loop
            invariant
                old(self).precedes(self),
                scan_tokens(old(self).text(), old(self).cursor(), Seq::empty()) == scan_tokens(
                    self.text(),
                    self.cursor(),
                    token_views(tokens@),
                ),
            decreases self.text().len() - self.cursor(),
        {
            let ghost before = self.cursor();
            let ghost found = token_views(tokens@);
            proof {
                if before < self.text().len() {
                    lemma_scan_token_advances(self.text(), before);
                }
            }
            let ch = match self.peek() {
                None => {
                    return Ok(tokens);
                },
                Some(ch) => ch,
            };
            let token: Option<Token> = if ch == '{' {
                self.advance();
                Some(Token::LeftBrace)
            } else if ch == '}' {
                self.advance();
                Some(Token::RightBrace)
            } else if ch == '[' {
                self.advance();
                Some(Token::LeftBracket)
            } else if ch == ']' {
                self.advance();
                Some(Token::RightBracket)
            } else if ch == ':' {
                self.advance();
                Some(Token::Colon)
            } else if ch == ',' {
                self.advance();
                Some(Token::Comma)
            } else if ch == ' ' || ch == '\n' || ch == '\t' || ch == '\r' {
                self.advance();
                None
            } else if ch == '"' {
                match self.parse_string() {
                    Ok(text) => Some(Token::String(text)),
                    Err(e) => {
                        return Err(e);
                    },
                }
            } else if ch == 't' || ch == 'f' || ch == 'n' {
                match self.parse_keyword() {
                    Ok(t) => Some(t),
                    Err(e) => {
                        return Err(e);
                    },
                }
            } else if ('0' <= ch && ch <= '9') || ch == '-' {
                match self.parse_number() {
                    Ok(n) => Some(Token::Number(n)),
                    Err(e) => {
                        return Err(e);
                    },
                }
            } else {
                let mut found = String::new();
                push_char(&mut found, ch);
                assert(found@ =~= seq![ch]);
                return Err(
                    JsonError::UnexpectedToken {
                        expected: String::from_str("valid JSON token"),
                        found,
                        position: self.position,
                    },
                );
            };
            assert(scan_token(self.text(), before) == Ok::<(Option<TokenView>, int), ErrorView>(
                (
                    match token {
                        Some(t) => Some(t@),
                        None => None,
                    },
                    self.cursor(),
                ),
            ));
            match token {
                Some(t) => {
                    tokens.push(t);
                    assert(token_views(tokens@) =~= found.push(t@));
                },
                None => {},
            }
        }
    }
}

} // verus!
