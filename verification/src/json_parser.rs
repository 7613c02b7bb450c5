//! The JSON grammar over tokens, and the validator that checks a text
//! against it.
use vstd::prelude::*;
use vstd::string::StringSliceAdditionalSpecFns;
use crate::json_lexer::{lex, tokens_view, JsonError, JsonErrorModel, Lexer, Token, TokenModel};

verus! {

// ── The grammar ─────────────────────────────────────────────────────────────

/// A token that is a whole value by itself.
pub open spec fn is_scalar_token(t: TokenModel) -> bool {
    t is Str || t is Num || t is True || t is False || t is Null
}

/// The end of the value that starts at token `i`, or the first error.
pub open spec fn value_end(t: Seq<TokenModel>, i: int) -> Result<int, JsonErrorModel>
    decreases t.len() - i, 2int,
{
    if i < 0 || i >= t.len() {
        Err(JsonError::UnexpectedEnd)
    } else if t[i] is LBrace {
        object_end(t, i)
    } else if t[i] is LBracket {
        array_end(t, i)
    } else if is_scalar_token(t[i]) {
        Ok(i + 1)
    } else {
        Err(JsonError::UnexpectedToken(t[i]))
    }
}

/// The end of the object whose `{` is token `i`.
pub open spec fn object_end(t: Seq<TokenModel>, i: int) -> Result<int, JsonErrorModel>
    decreases t.len() - i, 1int,
{
    if i < 0 || i >= t.len() {
        Err(JsonError::UnexpectedEnd)
    } else if i + 1 < t.len() && t[i + 1] is RBrace {
        Ok(i + 2)
    } else {
        members_end(t, i + 1)
    }
}

/// The end of the members of an object from token `j` on, through its `}`:
/// `"key" : value`, separated by commas.
pub open spec fn members_end(t: Seq<TokenModel>, j: int) -> Result<int, JsonErrorModel>
    decreases t.len() - j, 0int,
{
    if j < 0 || j >= t.len() {
        Err(JsonError::ExpectedKeyEnd)
    } else if !(t[j] is Str) {
        Err(JsonError::ExpectedKey(t[j]))
    } else if j + 1 >= t.len() {
        Err(JsonError::ExpectedColonEnd)
    } else if !(t[j + 1] is Colon) {
        Err(JsonError::ExpectedColon(t[j + 1]))
    } else {
        match value_end(t, j + 2) {
            Err(e) => Err(e),
            Ok(k) => if k < 0 || k >= t.len() {
                Err(JsonError::ExpectedCommaOrBraceEnd)
            } else if t[k] is Comma {
                if k + 1 < t.len() && t[k + 1] is RBrace {
                    Err(JsonError::ObjectTrailingComma)
                } else if k >= j {
                    members_end(t, k + 1)
                } else {
                    Err(JsonError::ExpectedKeyEnd)
                }
            } else if t[k] is RBrace {
                Ok(k + 1)
            } else {
                Err(JsonError::ExpectedCommaOrBrace(t[k]))
            },
        }
    }
}

/// The end of the array whose `[` is token `i`.
pub open spec fn array_end(t: Seq<TokenModel>, i: int) -> Result<int, JsonErrorModel>
    decreases t.len() - i, 1int,
{
    if i < 0 || i >= t.len() {
        Err(JsonError::UnexpectedEnd)
    } else if i + 1 < t.len() && t[i + 1] is RBracket {
        Ok(i + 2)
    } else {
        elements_end(t, i + 1)
    }
}

/// The end of the elements of an array from token `j` on, through its `]`:
/// values separated by commas.
pub open spec fn elements_end(t: Seq<TokenModel>, j: int) -> Result<int, JsonErrorModel>
    decreases t.len() - j, 3int,
{
    if j < 0 || j > t.len() {
        Err(JsonError::UnexpectedEnd)
    } else {
        match value_end(t, j) {
            Err(e) => Err(e),
            Ok(k) => if k < 0 || k >= t.len() {
                Err(JsonError::ExpectedCommaOrBracketEnd)
            } else if t[k] is Comma {
                if k + 1 < t.len() && t[k + 1] is RBracket {
                    Err(JsonError::ArrayTrailingComma)
                } else if k >= j {
                    elements_end(t, k + 1)
                } else {
                    Err(JsonError::UnexpectedEnd)
                }
            } else if t[k] is RBracket {
                Ok(k + 1)
            } else {
                Err(JsonError::ExpectedCommaOrBracket(t[k]))
            },
        }
    }
}

/// Where reading the value at token `i` stops: after the value, or at the
/// token that showed the error (after it, where it had to be consumed to be
/// seen).
pub open spec fn value_stop(t: Seq<TokenModel>, i: int) -> int
    decreases t.len() - i, 2int,
{
    if i < 0 || i >= t.len() {
        i
    } else if t[i] is LBrace {
        object_stop(t, i)
    } else if t[i] is LBracket {
        array_stop(t, i)
    } else if is_scalar_token(t[i]) {
        i + 1
    } else {
        i
    }
}

/// Where reading the object whose `{` is token `i` stops.
pub open spec fn object_stop(t: Seq<TokenModel>, i: int) -> int
    decreases t.len() - i, 1int,
{
    if i < 0 || i >= t.len() {
        i
    } else if i + 1 < t.len() && t[i + 1] is RBrace {
        i + 2
    } else {
        members_stop(t, i + 1)
    }
}

/// Where reading the members of an object from token `j` on stops.
pub open spec fn members_stop(t: Seq<TokenModel>, j: int) -> int
    decreases t.len() - j, 0int,
{
    if j < 0 || j >= t.len() {
        j
    } else if !(t[j] is Str) || j + 1 >= t.len() {
        j + 1
    } else if !(t[j + 1] is Colon) {
        j + 2
    } else {
        match value_end(t, j + 2) {
            Err(_) => value_stop(t, j + 2),
            Ok(k) => if k < 0 || k >= t.len() {
                k
            } else if t[k] is Comma {
                if k + 1 < t.len() && t[k + 1] is RBrace {
                    k + 1
                } else if k >= j {
                    members_stop(t, k + 1)
                } else {
                    k + 1
                }
            } else if t[k] is RBrace {
                k + 1
            } else {
                k
            },
        }
    }
}

/// Where reading the array whose `[` is token `i` stops.
pub open spec fn array_stop(t: Seq<TokenModel>, i: int) -> int
    decreases t.len() - i, 1int,
{
    if i < 0 || i >= t.len() {
        i
    } else if i + 1 < t.len() && t[i + 1] is RBracket {
        i + 2
    } else {
        elements_stop(t, i + 1)
    }
}

/// Where reading the elements of an array from token `j` on stops.
pub open spec fn elements_stop(t: Seq<TokenModel>, j: int) -> int
    decreases t.len() - j, 3int,
{
    if j < 0 || j > t.len() {
        j
    } else {
        match value_end(t, j) {
            Err(_) => value_stop(t, j),
            Ok(k) => if k < 0 || k >= t.len() {
                k
            } else if t[k] is Comma {
                if k + 1 < t.len() && t[k + 1] is RBracket {
                    k + 1
                } else if k >= j {
                    elements_stop(t, k + 1)
                } else {
                    k + 1
                }
            } else if t[k] is RBracket {
                k + 1
            } else {
                k
            },
        }
    }
}

/// Checking the tokens from `p` on: there is at least one token, and the
/// tokens from `p` form exactly one value.
pub open spec fn parse_from(t: Seq<TokenModel>, p: int) -> Result<(), JsonErrorModel> {
    if t.len() == 0 {
        Err(JsonError::EmptyInput)
    } else {
        match value_end(t, p) {
            Err(e) => Err(e),
            Ok(k) => if 0 <= k < t.len() {
                Err(JsonError::TrailingToken(t[k]))
            } else {
                Ok(())
            },
        }
    }
}

/// Whether a text (as bytes) is one JSON value, and the first error if not.
pub open spec fn json_check(s: Seq<u8>) -> Result<(), JsonErrorModel> {
    match lex(s) {
        Err(e) => Err(e),
        Ok(t) => parse_from(t, 0),
    }
}

/// A value, object, member list, array or element list ends after it
/// starts, within the tokens.
pub proof fn lemma_value_end_advances(t: Seq<TokenModel>, i: int)
    ensures
        value_end(t, i) matches Ok(k) ==> i < k <= t.len(),
        object_end(t, i) matches Ok(k) ==> i < k <= t.len(),
        array_end(t, i) matches Ok(k) ==> i < k <= t.len(),
        members_end(t, i) matches Ok(k) ==> i < k <= t.len(),
        elements_end(t, i) matches Ok(k) ==> i < k <= t.len(),
    decreases t.len() - i,
{
    if 0 <= i < t.len() {
        lemma_value_end_advances(t, i + 1);
        if i + 2 <= t.len() {
            lemma_value_end_advances(t, i + 2);
        }
        if let Ok(k) = value_end(t, i) {
            if i <= k < t.len() {
                lemma_value_end_advances(t, k + 1);
            }
        }
        if i + 2 <= t.len() {
            if let Ok(k) = value_end(t, i + 2) {
                if i <= k < t.len() {
                    lemma_value_end_advances(t, k + 1);
                }
            }
        }
    }
}

// ── The parser ──────────────────────────────────────────────────────────────

/// Walks a list of tokens and checks it against the JSON grammar.
pub struct Parser {
    tokens: Vec<Token>,
    pos: usize,
}

impl Parser {
    /// The tokens, as values.
    pub closed spec fn toks(&self) -> Seq<TokenModel> {
        tokens_view(self.tokens@)
    }

    /// The position of the next token.
    pub closed spec fn position(&self) -> int {
        self.pos as int
    }

    /// The position lies within the tokens or just after them.
    pub closed spec fn wf(&self) -> bool {
        self.pos <= self.tokens@.len()
    }

    /// A parser at the first of `tokens`.
    pub fn new(tokens: Vec<Token>) -> (p: Self)
        ensures
            p.wf(),
            p.toks() == tokens_view(tokens@),
            p.position() == 0,
    {
        Parser { tokens, pos: 0 }
    }

    /// The next token, without consuming it.
    pub fn peek(&self) -> (r: Option<&Token>)
        requires
            self.wf(),
        ensures
            r is Some <==> self.position() < self.toks().len(),
            r matches Some(tk) ==> tk@ == self.toks()[self.position()],
    {
        if self.pos < self.tokens.len() {
            Some(&self.tokens[self.pos])
        } else {
            None
        }
    }

    /// Consumes and returns the next token.
    pub fn next_token(&mut self) -> (r: Option<&Token>)
        requires
            old(self).wf(),
        ensures
            final(self).wf(),
            final(self).toks() == old(self).toks(),
            r is Some <==> old(self).position() < old(self).toks().len(),
            r matches Some(tk) ==> tk@ == old(self).toks()[old(self).position()],
            final(self).position() == old(self).position() + if r is Some {
                1int
            } else {
                0int
            },
    {
        if self.pos < self.tokens.len() {
            self.pos = self.pos + 1;
            Some(&self.tokens[self.pos - 1])
        } else {
            None
        }
    }

    /// Checks the value at the current position and moves past it.
    pub fn parse_value(&mut self) -> (r: Result<(), JsonError<Token>>)
        requires
            old(self).wf(),
        ensures
            final(self).wf(),
            final(self).toks() == old(self).toks(),
            old(self).position() <= final(self).position(),
            !(old(self).position() < old(self).toks().len() && (old(self).toks()[old(
                self,
            ).position()] is LBrace || old(self).toks()[old(self).position()] is LBracket))
                && r is Err ==> final(self).position() == old(self).position(),
            final(self).position() == value_stop(old(self).toks(), old(self).position()),
            match value_end(old(self).toks(), old(self).position()) {
                Ok(k) => r is Ok && final(self).position() == k,
                Err(e) => r matches Err(err) && err@ == e,
            },
        decreases old(self).toks().len() - old(self).position(), 2int,
    {
        match self.peek() {
            Some(Token::LBrace) => self.parse_object(),
            Some(Token::LBracket) => self.parse_array(),
            Some(Token::String(_)) | Some(Token::Number(_)) | Some(Token::True) | Some(
                Token::False,
            ) | Some(Token::Null) => {
                self.next_token();
                Ok(())
            },
            Some(t) => Err(JsonError::UnexpectedToken(t.duplicate())),
            None => Err(JsonError::UnexpectedEnd),
        }
    }

    /// Checks the object whose `{` is the next token and moves past it.
    pub fn parse_object(&mut self) -> (r: Result<(), JsonError<Token>>)
        requires
            old(self).wf(),
            old(self).position() < old(self).toks().len(),
        ensures
            final(self).wf(),
            final(self).toks() == old(self).toks(),
            old(self).position() < final(self).position(),
            final(self).position() == object_stop(old(self).toks(), old(self).position()),
            match object_end(old(self).toks(), old(self).position()) {
                Ok(k) => r is Ok && final(self).position() == k,
                Err(e) => r matches Err(err) && err@ == e,
            },
        decreases old(self).toks().len() - old(self).position(), 1int,
    {
        let ghost t = self.toks();
        let ghost p0 = self.position();
        self.next_token();
        if let Some(Token::RBrace) = self.peek() {
            self.next_token();
            return Ok(());
        }
        loop
            invariant
                self.wf(),
                self.toks() == t,
                p0 < self.position(),
                object_end(t, p0) == members_end(t, self.position()),
                object_stop(t, p0) == members_stop(t, self.position()),
                t == old(self).toks(),
                p0 == old(self).position(),
            decreases t.len() - self.position(),
        {
            let ghost j = self.position();
            match self.next_token() {
                Some(Token::String(_)) => {},
                Some(tk) => {
                    return Err(JsonError::ExpectedKey(tk.duplicate()));
                },
                None => {
                    return Err(JsonError::ExpectedKeyEnd);
                },
            }
            match self.next_token() {
                Some(Token::Colon) => {},
                Some(tk) => {
                    return Err(JsonError::ExpectedColon(tk.duplicate()));
                },
                None => {
                    return Err(JsonError::ExpectedColonEnd);
                },
            }
            proof {
                lemma_value_end_advances(t, j + 2);
            }
            match self.parse_value() {
                Ok(()) => {},
                Err(e) => {
                    return Err(e);
                },
            }
            match self.peek() {
                Some(Token::Comma) => {
                    self.next_token();
                    if let Some(Token::RBrace) = self.peek() {
                        return Err(JsonError::ObjectTrailingComma);
                    }
                },
                Some(Token::RBrace) => {
                    self.next_token();
                    return Ok(());
                },
                Some(tk) => {
                    return Err(JsonError::ExpectedCommaOrBrace(tk.duplicate()));
                },
                None => {
                    return Err(JsonError::ExpectedCommaOrBraceEnd);
                },
            }
        }
    }

    /// Checks the array whose `[` is the next token and moves past it.
    pub fn parse_array(&mut self) -> (r: Result<(), JsonError<Token>>)
        requires
            old(self).wf(),
            old(self).position() < old(self).toks().len(),
        ensures
            final(self).wf(),
            final(self).toks() == old(self).toks(),
            old(self).position() < final(self).position(),
            final(self).position() == array_stop(old(self).toks(), old(self).position()),
            match array_end(old(self).toks(), old(self).position()) {
                Ok(k) => r is Ok && final(self).position() == k,
                Err(e) => r matches Err(err) && err@ == e,
            },
        decreases old(self).toks().len() - old(self).position(), 1int,
    {
        let ghost t = self.toks();
        let ghost p0 = self.position();
        self.next_token();
        if let Some(Token::RBracket) = self.peek() {
            self.next_token();
            return Ok(());
        }
        loop
            invariant
                self.wf(),
                self.toks() == t,
                p0 < self.position(),
                array_end(t, p0) == elements_end(t, self.position()),
                array_stop(t, p0) == elements_stop(t, self.position()),
                t == old(self).toks(),
                p0 == old(self).position(),
            decreases t.len() - self.position(),
        {
            let ghost j = self.position();
            proof {
                lemma_value_end_advances(t, j);
            }
            match self.parse_value() {
                Ok(()) => {},
                Err(e) => {
                    return Err(e);
                },
            }
            match self.peek() {
                Some(Token::Comma) => {
                    self.next_token();
                    if let Some(Token::RBracket) = self.peek() {
                        return Err(JsonError::ArrayTrailingComma);
                    }
                },
                Some(Token::RBracket) => {
                    self.next_token();
                    return Ok(());
                },
                Some(tk) => {
                    return Err(JsonError::ExpectedCommaOrBracket(tk.duplicate()));
                },
                None => {
                    return Err(JsonError::ExpectedCommaOrBracketEnd);
                },
            }
        }
    }

    /// Checks that the tokens from the current position form exactly one
    /// value, and that there are tokens at all.
    pub fn parse(&mut self) -> (r: Result<(), JsonError<Token>>)
        requires
            old(self).wf(),
        ensures
            final(self).wf(),
            final(self).toks() == old(self).toks(),
            old(self).position() <= final(self).position(),
            r is Ok ==> final(self).position() == final(self).toks().len(),
            final(self).position() == if old(self).toks().len() == 0 {
                old(self).position()
            } else {
                value_stop(old(self).toks(), old(self).position())
            },
            match parse_from(old(self).toks(), old(self).position()) {
                Ok(()) => r is Ok,
                Err(e) => r matches Err(err) && err@ == e,
            },
    {
        if self.tokens.len() == 0 {
            return Err(JsonError::EmptyInput);
        }
        match self.parse_value() {
            Ok(()) => {},
            Err(e) => {
                return Err(e);
            },
        }
        if self.pos < self.tokens.len() {
            return Err(JsonError::TrailingToken(self.tokens[self.pos].duplicate()));
        }
        Ok(())
    }
}

/// Checks whether `input` is exactly one JSON value.
pub fn parse_json(input: &str) -> (r: Result<(), JsonError<Token>>)
    ensures
        match json_check(input.spec_bytes()) {
            Ok(()) => r is Ok,
            Err(e) => r matches Err(err) && err@ == e,
        },
{
    let mut lexer = Lexer::new(input);
    let tokens = match lexer.tokenize() {
        Ok(v) => v,
        Err(e) => {
            return Err(e);
        },
    };
    let mut parser = Parser::new(tokens);
    parser.parse()
}

} // verus!
