//! The parser: recursive descent over the token sequence, with one token of
//! lookahead, that builds the value tree.
//!
//! Arrays and objects are parsed by recursion, so parsing uses call stack in
//! proportion to the depth to which they are nested; the depth is not
//! bounded here.

use vstd::prelude::*;
use vstd::string::StringExecFns;
use crate::error::{ErrorView, JsonError};
use crate::tokenizer::{
    lemma_empty_text_has_no_tokens, token_name, token_views, tokens_of, Token, TokenView, Tokenizer,
};
use crate::round_trip::lemma_round_trip;
use crate::value::{
    lemma_array_view, value_views, well_formed, with_member, JsonObject, JsonValue, ValueView,
};

verus! {

/// The outcome of parsing one value: the value and the index of the token
/// after it, or the error that ended the parse.
pub type Parsed = Result<(ValueView, int), ErrorView>;

/// Parses the value that starts at token `pos`.
pub open spec fn parse_value_at(tokens: Seq<TokenView>, pos: int) -> Parsed
    decreases tokens.len() - pos, 0int,
{
    if pos < 0 || pos >= tokens.len() {
        Err(ErrorView::UnexpectedEndOfInput { expected: "JSON value"@, position: pos })
    } else {
        match tokens[pos] {
            TokenView::LeftBracket => {
                if pos + 1 < tokens.len() && tokens[pos + 1] is RightBracket {
                    Ok((ValueView::Array(Seq::empty()), pos + 2))
                } else {
                    parse_elements(tokens, pos + 1, Seq::empty())
                }
            },
            TokenView::LeftBrace => {
                if pos + 1 < tokens.len() && tokens[pos + 1] is RightBrace {
                    Ok((ValueView::Object(Seq::empty()), pos + 2))
                } else {
                    parse_members(tokens, pos + 1, Seq::empty())
                }
            },
            TokenView::String(s) => Ok((ValueView::String(s), pos + 1)),
            TokenView::Number(n) => Ok((ValueView::Number(n), pos + 1)),
            TokenView::Boolean(b) => Ok((ValueView::Boolean(b), pos + 1)),
            TokenView::Null => Ok((ValueView::Null, pos + 1)),
            other => Err(
                ErrorView::UnexpectedToken {
                    expected: "JSON value"@,
                    found: token_name(other),
                    position: pos,
                },
            ),
        }
    }
}

/// Parses the elements of an array from token `pos` on, where an element
/// must start; `acc` holds the elements parsed so far. A failure of the
/// element is the failure of the array.
pub open spec fn parse_elements(tokens: Seq<TokenView>, pos: int, acc: Seq<ValueView>) -> Parsed
    decreases tokens.len() - pos, 1int,
{
    let element = parse_value_at(tokens, pos);
    match element {
        Ok((v, next)) if pos < next <= tokens.len() => after_element(tokens, next, acc.push(v)),
        _ => element,
    }
}

/// Continues an array after an element: `pos` is the token after the
/// element and `acc` holds the elements parsed so far. A comma must be
/// followed by another element, and `]` ends the array.
pub open spec fn after_element(tokens: Seq<TokenView>, pos: int, acc: Seq<ValueView>) -> Parsed
    decreases tokens.len() - pos, 2int,
{
    if pos < 0 || pos >= tokens.len() {
        Err(ErrorView::UnexpectedEndOfInput { expected: "comma or closing bracket"@, position: pos })
    } else {
        match tokens[pos] {
            TokenView::Comma => {
                if pos + 1 < tokens.len() && tokens[pos + 1] is RightBracket {
                    Err(
                        ErrorView::UnexpectedToken {
                            expected: "JSON value"@,
                            found: "]"@,
                            position: pos + 1,
                        },
                    )
                } else {
                    parse_elements(tokens, pos + 1, acc)
                }
            },
            TokenView::RightBracket => Ok((ValueView::Array(acc), pos + 1)),
            other => Err(
                ErrorView::UnexpectedToken {
                    expected: "comma or closing bracket"@,
                    found: token_name(other),
                    position: pos,
                },
            ),
        }
    }
}

/// Parses the members of an object from token `pos` on, where a key must
/// stand; `acc` holds the members parsed so far. A key that occurs again
/// takes the later value.
pub open spec fn parse_members(
    tokens: Seq<TokenView>,
    pos: int,
    acc: Seq<(Seq<char>, ValueView)>,
) -> Parsed
    decreases tokens.len() - pos, 1int,
{
    if pos < 0 || pos >= tokens.len() {
        Err(ErrorView::UnexpectedEndOfInput { expected: "string key"@, position: pos })
    } else {
        match tokens[pos] {
            TokenView::String(key) => {
                if pos + 1 >= tokens.len() {
                    Err(ErrorView::UnexpectedEndOfInput { expected: "colon"@, position: pos + 1 })
                } else if !(tokens[pos + 1] is Colon) {
                    Err(
                        ErrorView::UnexpectedToken {
                            expected: "colon"@,
                            found: token_name(tokens[pos + 1]),
                            position: pos + 1,
                        },
                    )
                } else {
                    let member = parse_value_at(tokens, pos + 2);
                    match member {
                        Ok((v, next)) if pos + 2 < next <= tokens.len() => after_member(
                            tokens,
                            next,
                            with_member(acc, key, v),
                        ),
                        _ => member,
                    }
                }
            },
            other => Err(
                ErrorView::UnexpectedToken {
                    expected: "string key"@,
                    found: token_name(other),
                    position: pos,
                },
            ),
        }
    }
}

/// Continues an object after a member: `pos` is the token after the
/// member's value and `acc` holds the members parsed so far. A comma must
/// be followed by another member, and `}` ends the object.
pub open spec fn after_member(
    tokens: Seq<TokenView>,
    pos: int,
    acc: Seq<(Seq<char>, ValueView)>,
) -> Parsed
    decreases tokens.len() - pos, 2int,
{
    if pos < 0 || pos >= tokens.len() {
        Err(ErrorView::UnexpectedEndOfInput { expected: "comma or closing brace"@, position: pos })
    } else {
        match tokens[pos] {
            TokenView::Comma => {
                if pos + 1 < tokens.len() && tokens[pos + 1] is RightBrace {
                    Err(
                        ErrorView::UnexpectedToken {
                            expected: "string key"@,
                            found: "}"@,
                            position: pos + 1,
                        },
                    )
                } else {
                    parse_members(tokens, pos + 1, acc)
                }
            },
            TokenView::RightBrace => Ok((ValueView::Object(acc), pos + 1)),
            other => Err(
                ErrorView::UnexpectedToken {
                    expected: "comma or closing brace"@,
                    found: token_name(other),
                    position: pos,
                },
            ),
        }
    }
}

/// A parsed value ends after its start and inside the tokens, so the
/// bounds that `parse_elements` and `parse_members` test before they go on
/// always hold.
pub proof fn lemma_parse_value_advances(tokens: Seq<TokenView>, pos: int)
    ensures
        parse_value_at(tokens, pos) matches Ok((_, next)) ==> pos < next <= tokens.len(),
    decreases tokens.len() - pos, 0int,
{
    if 0 <= pos < tokens.len() {
        match tokens[pos] {
            TokenView::LeftBracket => {
                if !(pos + 1 < tokens.len() && tokens[pos + 1] is RightBracket) {
                    lemma_parse_elements_advances(tokens, pos + 1, Seq::empty());
                }
            },
            TokenView::LeftBrace => {
                if !(pos + 1 < tokens.len() && tokens[pos + 1] is RightBrace) {
                    lemma_parse_members_advances(tokens, pos + 1, Seq::empty());
                }
            },
            _ => {},
        }
    }
}

/// A parsed array ends after the position from which its elements were
/// parsed, and inside the tokens.
pub proof fn lemma_parse_elements_advances(tokens: Seq<TokenView>, pos: int, acc: Seq<ValueView>)
    requires
        0 <= pos,
    ensures
        parse_elements(tokens, pos, acc) matches Ok((_, next)) ==> pos < next <= tokens.len(),
    decreases tokens.len() - pos, 1int,
{
    lemma_parse_value_advances(tokens, pos);
    match parse_value_at(tokens, pos) {
        Ok((v, next)) => {
            if next < tokens.len() && tokens[next] is Comma && !(next + 1 < tokens.len()
                && tokens[next + 1] is RightBracket) {
                lemma_parse_elements_advances(tokens, next + 1, acc.push(v));
            }
        },
        Err(_) => {},
    }
}

/// A parsed object ends after the position from which its members were
/// parsed, and inside the tokens.
pub proof fn lemma_parse_members_advances(
    tokens: Seq<TokenView>,
    pos: int,
    acc: Seq<(Seq<char>, ValueView)>,
)
    requires
        0 <= pos,
    ensures
        parse_members(tokens, pos, acc) matches Ok((_, next)) ==> pos < next <= tokens.len(),
    decreases tokens.len() - pos, 1int,
{
    if pos < tokens.len() && tokens[pos] is String && pos + 1 < tokens.len() && tokens[pos
        + 1] is Colon {
        lemma_parse_value_advances(tokens, pos + 2);
        match parse_value_at(tokens, pos + 2) {
            Ok((v, next)) => {
                if next < tokens.len() && tokens[next] is Comma && !(next + 1 < tokens.len()
                    && tokens[next + 1] is RightBrace) {
                    lemma_parse_members_advances(
                        tokens,
                        next + 1,
                        with_member(acc, tokens[pos]->String_0, v),
                    );
                }
            },
            Err(_) => {},
        }
    }
}

/// Parses one value from token `pos` on and requires that no token follows
/// it.
pub open spec fn parse_from(tokens: Seq<TokenView>, pos: int) -> Result<ValueView, ErrorView> {
    match parse_value_at(tokens, pos) {
        Ok((v, next)) => {
            if 0 <= next < tokens.len() {
                Err(
                    ErrorView::UnexpectedToken {
                        expected: "end of input"@,
                        found: token_name(tokens[next]),
                        position: next,
                    },
                )
            } else {
                Ok(v)
            }
        },
        Err(e) => Err(e),
    }
}

/// The value that a text denotes, or the first fault in it: the text is
/// tokenized, one value is parsed, and no token may remain.
pub open spec fn parse_text(s: Seq<char>) -> Result<ValueView, ErrorView> {
    match tokens_of(s) {
        Ok(tokens) => parse_from(tokens, 0),
        Err(e) => Err(e),
    }
}

/// A text without characters is no value: the parse ends at once, where a
/// value was expected.
pub proof fn lemma_empty_text_is_no_value()
    ensures
        parse_text(Seq::<char>::empty()) == Err::<ValueView, ErrorView>(
            ErrorView::UnexpectedEndOfInput { expected: "JSON value"@, position: 0 },
        ),
{
    lemma_empty_text_has_no_tokens();
}

/// A comma before the `]` that would end an array is refused as an
/// unexpected token, at the position of the `]`.
pub proof fn lemma_trailing_comma_in_array(tokens: Seq<TokenView>, pos: int, acc: Seq<ValueView>)
    requires
        0 <= pos,
        pos + 1 < tokens.len(),
        tokens[pos] is Comma,
        tokens[pos + 1] is RightBracket,
    ensures
        after_element(tokens, pos, acc) == Err::<(ValueView, int), ErrorView>(
            ErrorView::UnexpectedToken { expected: "JSON value"@, found: "]"@, position: pos + 1 },
        ),
{
}

/// A comma before the `}` that would end an object is refused as an
/// unexpected token, at the position of the `}`.
pub proof fn lemma_trailing_comma_in_object(
    tokens: Seq<TokenView>,
    pos: int,
    acc: Seq<(Seq<char>, ValueView)>,
)
    requires
        0 <= pos,
        pos + 1 < tokens.len(),
        tokens[pos] is Comma,
        tokens[pos + 1] is RightBrace,
    ensures
        after_member(tokens, pos, acc) == Err::<(ValueView, int), ErrorView>(
            ErrorView::UnexpectedToken { expected: "string key"@, found: "}"@, position: pos + 1 },
        ),
{
}

/// A token after the value is refused as an unexpected token where the end
/// of the input was expected, at the position of that token.
pub proof fn lemma_trailing_token(tokens: Seq<TokenView>, pos: int)
    requires
        parse_value_at(tokens, pos) is Ok,
        parse_value_at(tokens, pos)->Ok_0.1 < tokens.len(),
    ensures
        parse_from(tokens, pos) == Err::<ValueView, ErrorView>(
            ErrorView::UnexpectedToken {
                expected: "end of input"@,
                found: token_name(tokens[parse_value_at(tokens, pos)->Ok_0.1]),
                position: parse_value_at(tokens, pos)->Ok_0.1,
            },
        ),
{
    lemma_parse_value_advances(tokens, pos);
}

/// The scan cursor of the parser: the tokens of the input and the index of
/// the next one to read. The index only ever moves forward.
pub struct JsonParser {
    tokens: Vec<Token>,
    current: usize,
}

impl JsonParser {
    /// The tokens that the parser reads.
    pub closed spec fn tokens(&self) -> Seq<TokenView> {
        token_views(self.tokens@)
    }

    /// The index of the next token to read.
    pub closed spec fn cursor(&self) -> int {
        self.current as int
    }

    /// The cursor lies inside the tokens or at their end.
    #[verifier::type_invariant]
    pub closed spec fn wf(&self) -> bool {
        self.current <= self.tokens@.len()
    }

    /// Whether `next` is a later state of the parse that `self` is in: the
    /// same tokens, and a cursor that has not moved back.
    pub open spec fn precedes(&self, next: &JsonParser) -> bool {
        &&& next.wf()
        &&& next.tokens() == self.tokens()
        &&& self.cursor() <= next.cursor() <= self.tokens().len()
    }

    /// Tokenizes `input` and returns a parser at the first token, or the
    /// lexical fault that the tokenizer found.
    pub fn new(input: &str) -> (r: Result<JsonParser, JsonError>)
        ensures
            match r {
                Ok(p) => tokens_of(input@) == Ok::<Seq<TokenView>, ErrorView>(p.tokens())
                    && p.cursor() == 0 && p.wf(),
                Err(e) => tokens_of(input@) == Err::<Seq<TokenView>, ErrorView>(e@),
            },
    {
        let mut tokenizer = Tokenizer::new(input);
        match tokenizer.tokenize() {
            Ok(tokens) => Ok(JsonParser { tokens, current: 0 }),
            Err(e) => Err(e),
        }
    }

    /// Whether every token has been read.
    pub fn is_at_end(&self) -> (b: bool)
        ensures
            b == (self.cursor() >= self.tokens().len()),
    {
        self.current >= self.tokens.len()
    }

    /// The token at the cursor, if there is one.
    pub fn peek(&self) -> (t: Option<&Token>)
        ensures
            match t {
                Some(token) => self.cursor() < self.tokens().len() && self.tokens()[self.cursor()]
                    == token@,
                None => self.cursor() >= self.tokens().len(),
            },
    {
        if self.current < self.tokens.len() {
            Some(&self.tokens[self.current])
        } else {
            None
        }
    }

    /// Returns the token at the cursor and moves the cursor past it; at the
    /// end of the tokens, returns `None` and leaves the cursor alone.
    pub fn advance(&mut self) -> (t: Option<Token>)
        ensures
            old(self).precedes(final(self)),
            match t {
                Some(token) => {
                    &&& old(self).cursor() < old(self).tokens().len()
                    &&& old(self).tokens()[old(self).cursor()] == token@
                    &&& final(self).cursor() == old(self).cursor() + 1
                },
                None => {
                    &&& old(self).cursor() >= old(self).tokens().len()
                    &&& final(self).cursor() == old(self).cursor()
                },
            },
    {
        proof {
            use_type_invariant(&*self);
        }
        if self.current < self.tokens.len() {
            let token = self.tokens[self.current].clone();
            self.current += 1;
            Some(token)
        } else {
            None
        }
    }

    /// Moves the cursor past the token that it stands on.
    fn skip(&mut self)
        requires
            old(self).cursor() < old(self).tokens().len(),
        ensures
            old(self).precedes(final(self)),
            final(self).cursor() == old(self).cursor() + 1,
    {
        proof {
            use_type_invariant(&*self);
        }
        proof {
            vstd::std_specs::vec::axiom_spec_len(&self.tokens);
            assert(self.tokens().len() == self.tokens.len());
        }
        self.current += 1;
    }

    /// Parses the value at the cursor and requires that no token follows
    /// it.
    pub fn parse(&mut self) -> (r: Result<JsonValue, JsonError>)
        ensures
            old(self).precedes(final(self)),
            match r {
                Ok(v) => {
                    &&& parse_from(old(self).tokens(), old(self).cursor()) == Ok::<
                        ValueView,
                        ErrorView,
                    >(v@)
                    &&& final(self).cursor() == old(self).tokens().len()
                },
                Err(e) => parse_from(old(self).tokens(), old(self).cursor()) == Err::<
                    ValueView,
                    ErrorView,
                >(e@),
            },
    {
        proof {
            use_type_invariant(&*self);
        }
        let value = match self.parse_value() {
            Ok(v) => v,
            Err(e) => {
                return Err(e);
            },
        };
        match self.peek() {
            Some(token) => {
                let found = token.describe();
                Err(
                    JsonError::UnexpectedToken {
                        expected: String::from_str("end of input"),
                        found,
                        position: self.current,
                    },
                )
            },
            None => Ok(value),
        }
    }

    /// Parses the value at the cursor: an array, an object, or a single
    /// string, number, boolean or null token.
    pub fn parse_value(&mut self) -> (r: Result<JsonValue, JsonError>)
        ensures
            old(self).precedes(final(self)),
            match r {
                Ok(v) => {
                    &&& parse_value_at(old(self).tokens(), old(self).cursor()) == Ok::<
                        (ValueView, int),
                        ErrorView,
                    >((v@, final(self).cursor()))
                    &&& old(self).cursor() < final(self).cursor()
                },
                Err(e) => parse_value_at(old(self).tokens(), old(self).cursor()) == Err::<
                    (ValueView, int),
                    ErrorView,
                >(e@),
            },
        decreases old(self).tokens().len() - old(self).cursor(), 0int,
    {
        proof {
            use_type_invariant(&*self);
        }
        let position = self.current;
        match self.peek() {
            None => Err(
                JsonError::UnexpectedEndOfInput {
                    expected: String::from_str("JSON value"),
                    position,
                },
            ),
            Some(Token::LeftBracket) => self.parse_array(),
            Some(Token::LeftBrace) => self.parse_object(),
            Some(Token::String(s)) => {
                let value = JsonValue::String(s.clone());
                self.skip();
                Ok(value)
            },
            Some(Token::Number(n)) => {
                let value = JsonValue::Number(n.clone());
                self.skip();
                Ok(value)
            },
            Some(Token::Boolean(b)) => {
                let value = JsonValue::Boolean(*b);
                self.skip();
                Ok(value)
            },
            Some(Token::Null) => {
                self.skip();
                Ok(JsonValue::Null)
            },
            Some(other) => {
                let found = other.describe();
                self.skip();
                Err(
                    JsonError::UnexpectedToken {
                        expected: String::from_str("JSON value"),
                        found,
                        position,
                    },
                )
            },
        }
    }

    /// Whether the token at the cursor is `]`.
    fn at_right_bracket(&self) -> (b: bool)
        ensures
            b == (self.cursor() < self.tokens().len() && self.tokens()[self.cursor()] is RightBracket),
    {
        match self.peek() {
            Some(Token::RightBracket) => true,
            _ => false,
        }
    }

    /// Whether the token at the cursor is `}`.
    fn at_right_brace(&self) -> (b: bool)
        ensures
            b == (self.cursor() < self.tokens().len() && self.tokens()[self.cursor()] is RightBrace),
    {
        match self.peek() {
            Some(Token::RightBrace) => true,
            _ => false,
        }
    }

    /// Parses the array whose `[` stands at the cursor.
    fn parse_array(&mut self) -> (r: Result<JsonValue, JsonError>)
        requires
            old(self).cursor() < old(self).tokens().len(),
            old(self).tokens()[old(self).cursor()] is LeftBracket,
        ensures
            old(self).precedes(final(self)),
            match r {
                Ok(v) => {
                    &&& parse_value_at(old(self).tokens(), old(self).cursor()) == Ok::<
                        (ValueView, int),
                        ErrorView,
                    >((v@, final(self).cursor()))
                    &&& old(self).cursor() < final(self).cursor()
                },
                Err(e) => parse_value_at(old(self).tokens(), old(self).cursor()) == Err::<
                    (ValueView, int),
                    ErrorView,
                >(e@),
            },
        decreases old(self).tokens().len() - old(self).cursor() - 1, 2int,
    {
        proof {
            use_type_invariant(&*self);
        }
        self.skip();
        let mut elements: Vec<JsonValue> = Vec::new();
        proof {
            lemma_array_view(elements);
            assert(value_views(elements@) =~= Seq::empty());
        }
        if self.at_right_bracket() {
            self.skip();
            return Ok(JsonValue::Array(elements));
        }
        loop
            invariant
                old(self).precedes(self),
                old(self).cursor() < self.cursor(),
                parse_value_at(old(self).tokens(), old(self).cursor()) == parse_elements(
                    self.tokens(),
                    self.cursor(),
                    value_views(elements@),
                ),
            decreases self.tokens().len() - self.cursor(),
        {
            let ghost parsed = value_views(elements@);
            let value = match self.parse_value() {
                Ok(v) => v,
                Err(e) => {
                    return Err(e);
                },
            };
            let ghost element = value@;
            elements.push(value);
            proof {
                lemma_array_view(elements);
                assert(value_views(elements@) =~= parsed.push(element));
            }
            let position = self.current;
            match self.peek() {
                None => {
                    return Err(
                        JsonError::UnexpectedEndOfInput {
                            expected: String::from_str("comma or closing bracket"),
                            position,
                        },
                    );
                },
                Some(Token::Comma) => {
                    self.skip();
                    if self.at_right_bracket() {
                        return Err(
                            JsonError::UnexpectedToken {
                                expected: String::from_str("JSON value"),
                                found: String::from_str("]"),
                                position: self.current,
                            },
                        );
                    }
                },
                Some(Token::RightBracket) => {
                    self.skip();
                    return Ok(JsonValue::Array(elements));
                },
                Some(other) => {
                    let found = other.describe();
                    return Err(
                        JsonError::UnexpectedToken {
                            expected: String::from_str("comma or closing bracket"),
                            found,
                            position,
                        },
                    );
                },
            }
        }
    }

    /// Parses the object whose `{` stands at the cursor.
    fn parse_object(&mut self) -> (r: Result<JsonValue, JsonError>)
        requires
            old(self).cursor() < old(self).tokens().len(),
            old(self).tokens()[old(self).cursor()] is LeftBrace,
        ensures
            old(self).precedes(final(self)),
            match r {
                Ok(v) => {
                    &&& parse_value_at(old(self).tokens(), old(self).cursor()) == Ok::<
                        (ValueView, int),
                        ErrorView,
                    >((v@, final(self).cursor()))
                    &&& old(self).cursor() < final(self).cursor()
                },
                Err(e) => parse_value_at(old(self).tokens(), old(self).cursor()) == Err::<
                    (ValueView, int),
                    ErrorView,
                >(e@),
            },
        decreases old(self).tokens().len() - old(self).cursor() - 1, 2int,
    {
        proof {
            use_type_invariant(&*self);
        }
        self.skip();
        let mut members = JsonObject::new();
        if self.at_right_brace() {
            self.skip();
            return Ok(JsonValue::Object(members));
        }
        loop
            invariant
                old(self).precedes(self),
                old(self).cursor() < self.cursor(),
                parse_value_at(old(self).tokens(), old(self).cursor()) == parse_members(
                    self.tokens(),
                    self.cursor(),
                    members@,
                ),
            decreases self.tokens().len() - self.cursor(),
        {
            let position = self.current;
            let key = match self.peek() {
                None => {
                    return Err(
                        JsonError::UnexpectedEndOfInput {
                            expected: String::from_str("string key"),
                            position,
                        },
                    );
                },
                Some(Token::String(s)) => s.clone(),
                Some(other) => {
                    let found = other.describe();
                    return Err(
                        JsonError::UnexpectedToken {
                            expected: String::from_str("string key"),
                            found,
                            position,
                        },
                    );
                },
            };
            self.skip();
            match self.peek() {
                None => {
                    return Err(
                        JsonError::UnexpectedEndOfInput {
                            expected: String::from_str("colon"),
                            position: self.current,
                        },
                    );
                },
                Some(Token::Colon) => {},
                Some(other) => {
                    let found = other.describe();
                    return Err(
                        JsonError::UnexpectedToken {
                            expected: String::from_str("colon"),
                            found,
                            position: self.current,
                        },
                    );
                },
            }
            self.skip();
            let value = match self.parse_value() {
                Ok(v) => v,
                Err(e) => {
                    return Err(e);
                },
            };
            members.insert(key, value);
            let after = self.current;
            match self.peek() {
                None => {
                    return Err(
                        JsonError::UnexpectedEndOfInput {
                            expected: String::from_str("comma or closing brace"),
                            position: after,
                        },
                    );
                },
                Some(Token::Comma) => {
                    self.skip();
                    if self.at_right_brace() {
                        return Err(
                            JsonError::UnexpectedToken {
                                expected: String::from_str("string key"),
                                found: String::from_str("}"),
                                position: self.current,
                            },
                        );
                    }
                },
                Some(Token::RightBrace) => {
                    self.skip();
                    return Ok(JsonValue::Object(members));
                },
                Some(other) => {
                    let found = other.describe();
                    return Err(
                        JsonError::UnexpectedToken {
                            expected: String::from_str("comma or closing brace"),
                            found,
                            position: after,
                        },
                    );
                },
            }
        }
    }
}

/// Parses a JSON text: tokenizes it, parses one value and requires that no
/// token remains. In the value every number is in canonical form and no
/// object has a key twice.
pub fn parse_json(input: &str) -> (r: Result<JsonValue, JsonError>)
    ensures
        match r {
            Ok(v) => parse_text(input@) == Ok::<ValueView, ErrorView>(v@) && well_formed(v@),
            Err(e) => parse_text(input@) == Err::<ValueView, ErrorView>(e@),
        },
{
    proof {
        lemma_round_trip(input@);
    }
    match JsonParser::new(input) {
        Ok(mut parser) => parser.parse(),
        Err(e) => Err(e),
    }
}

} // verus!
