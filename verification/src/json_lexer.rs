//! JSON tokens and the lexer that cuts a text into them.
use vstd::prelude::*;
use vstd::utf8::{decode_utf8, length_of_first_scalar, pop_first_scalar, valid_utf8};
use vstd::string::StringSliceAdditionalSpecFns;
use crate::text::{chars_to_string, char_from_u32, utf8_decode};

verus! {

// ── Tokens ──────────────────────────────────────────────────────────────────

/// A JSON token. `String` holds the decoded text of a string literal,
/// `Number` the literal as written.
#[derive(Debug)]
pub enum Token {
    LBrace,
    RBrace,
    LBracket,
    RBracket,
    Colon,
    Comma,
    String(String),
    Number(String),
    True,
    False,
    Null,
}

/// A token as a mathematical value.
pub enum TokenModel {
    LBrace,
    RBrace,
    LBracket,
    RBracket,
    Colon,
    Comma,
    Str(Seq<char>),
    Num(Seq<char>),
    True,
    False,
    Null,
}

impl View for Token {
    type V = TokenModel;

    open spec fn view(&self) -> TokenModel {
        match self {
            Token::LBrace => TokenModel::LBrace,
            Token::RBrace => TokenModel::RBrace,
            Token::LBracket => TokenModel::LBracket,
            Token::RBracket => TokenModel::RBracket,
            Token::Colon => TokenModel::Colon,
            Token::Comma => TokenModel::Comma,
            Token::String(s) => TokenModel::Str(s@),
            Token::Number(s) => TokenModel::Num(s@),
            Token::True => TokenModel::True,
            Token::False => TokenModel::False,
            Token::Null => TokenModel::Null,
        }
    }
}

impl Token {
    /// A copy of the token.
    pub fn duplicate(&self) -> (r: Token)
        ensures
            r@ == self@,
    {
        match self {
            Token::LBrace => Token::LBrace,
            Token::RBrace => Token::RBrace,
            Token::LBracket => Token::LBracket,
            Token::RBracket => Token::RBracket,
            Token::Colon => Token::Colon,
            Token::Comma => Token::Comma,
            Token::String(s) => Token::String(s.clone()),
            Token::Number(s) => Token::Number(s.clone()),
            Token::True => Token::True,
            Token::False => Token::False,
            Token::Null => Token::Null,
        }
    }
}

// ── Errors ──────────────────────────────────────────────────────────────────

/// Why a text is not valid JSON. `T` is the token type: `Token` in
/// executable code, `TokenModel` in specifications.
#[derive(Debug)]
pub enum JsonError<T> {
    UnterminatedString,
    UnterminatedEscape,
    InvalidUnicodeEscape,
    ExpectedLowSurrogate,
    InvalidSurrogatePair,
    /// A surrogate pair that names no character.
    InvalidCodePoint,
    /// A `\u` escape that names no character.
    InvalidCodePointValue(u32),
    UnexpectedLowSurrogate,
    /// A backslash followed by this byte.
    InvalidEscape(u8),
    /// This control byte stands unescaped in a string.
    ControlCharacter(u8),
    InvalidUtf8Byte,
    TruncatedUtf8,
    InvalidUtf8,
    LeadingZeros,
    MissingDigits,
    ExpectedFractionDigit,
    ExpectedExponentDigit,
    /// A word starting at this position is not `true`, `false` or `null`.
    InvalidToken(usize),
    /// This byte at this position starts no token.
    UnexpectedCharacter(u8, usize),
    UnexpectedToken(T),
    UnexpectedEnd,
    ExpectedKey(T),
    ExpectedKeyEnd,
    ExpectedColon(T),
    ExpectedColonEnd,
    ObjectTrailingComma,
    ExpectedCommaOrBrace(T),
    ExpectedCommaOrBraceEnd,
    ArrayTrailingComma,
    ExpectedCommaOrBracket(T),
    ExpectedCommaOrBracketEnd,
    EmptyInput,
    TrailingToken(T),
}

/// The specification form of an error.
pub type JsonErrorModel = JsonError<TokenModel>;

impl View for JsonError<Token> {
    type V = JsonErrorModel;

    open spec fn view(&self) -> JsonErrorModel {
        match self {
            JsonError::UnterminatedString => JsonError::UnterminatedString,
            JsonError::UnterminatedEscape => JsonError::UnterminatedEscape,
            JsonError::InvalidUnicodeEscape => JsonError::InvalidUnicodeEscape,
            JsonError::ExpectedLowSurrogate => JsonError::ExpectedLowSurrogate,
            JsonError::InvalidSurrogatePair => JsonError::InvalidSurrogatePair,
            JsonError::InvalidCodePoint => JsonError::InvalidCodePoint,
            JsonError::InvalidCodePointValue(v) => JsonError::InvalidCodePointValue(*v),
            JsonError::UnexpectedLowSurrogate => JsonError::UnexpectedLowSurrogate,
            JsonError::InvalidEscape(c) => JsonError::InvalidEscape(*c),
            JsonError::ControlCharacter(c) => JsonError::ControlCharacter(*c),
            JsonError::InvalidUtf8Byte => JsonError::InvalidUtf8Byte,
            JsonError::TruncatedUtf8 => JsonError::TruncatedUtf8,
            JsonError::InvalidUtf8 => JsonError::InvalidUtf8,
            JsonError::LeadingZeros => JsonError::LeadingZeros,
            JsonError::MissingDigits => JsonError::MissingDigits,
            JsonError::ExpectedFractionDigit => JsonError::ExpectedFractionDigit,
            JsonError::ExpectedExponentDigit => JsonError::ExpectedExponentDigit,
            JsonError::InvalidToken(p) => JsonError::InvalidToken(*p),
            JsonError::UnexpectedCharacter(c, p) => JsonError::UnexpectedCharacter(*c, *p),
            JsonError::UnexpectedToken(t) => JsonError::UnexpectedToken(t@),
            JsonError::UnexpectedEnd => JsonError::UnexpectedEnd,
            JsonError::ExpectedKey(t) => JsonError::ExpectedKey(t@),
            JsonError::ExpectedKeyEnd => JsonError::ExpectedKeyEnd,
            JsonError::ExpectedColon(t) => JsonError::ExpectedColon(t@),
            JsonError::ExpectedColonEnd => JsonError::ExpectedColonEnd,
            JsonError::ObjectTrailingComma => JsonError::ObjectTrailingComma,
            JsonError::ExpectedCommaOrBrace(t) => JsonError::ExpectedCommaOrBrace(t@),
            JsonError::ExpectedCommaOrBraceEnd => JsonError::ExpectedCommaOrBraceEnd,
            JsonError::ArrayTrailingComma => JsonError::ArrayTrailingComma,
            JsonError::ExpectedCommaOrBracket(t) => JsonError::ExpectedCommaOrBracket(t@),
            JsonError::ExpectedCommaOrBracketEnd => JsonError::ExpectedCommaOrBracketEnd,
            JsonError::EmptyInput => JsonError::EmptyInput,
            JsonError::TrailingToken(t) => JsonError::TrailingToken(t@),
        }
    }
}

// ── Byte classes ────────────────────────────────────────────────────────────

/// Space, tab, line feed or carriage return.
pub open spec fn is_json_space(c: u8) -> bool {
    c == 32 || c == 9 || c == 10 || c == 13
}

/// An ASCII decimal digit.
pub open spec fn is_digit(c: u8) -> bool {
    48 <= c <= 57
}

/// An ASCII hexadecimal digit.
pub open spec fn is_hex(c: u8) -> bool {
    (48 <= c <= 57) || (65 <= c <= 70) || (97 <= c <= 102)
}

/// The value of a hexadecimal digit.
pub open spec fn hex_value(c: u8) -> u32 {
    if 48 <= c <= 57 {
        (c - 48) as u32
    } else if 65 <= c <= 70 {
        (c - 55) as u32
    } else {
        (c - 87) as u32
    }
}

/// The value of the four hexadecimal digits at `i`, if there are four.
pub open spec fn hex4(s: Seq<u8>, i: int) -> Option<u32> {
    if 0 <= i && i + 4 <= s.len() && is_hex(s[i]) && is_hex(s[i + 1]) && is_hex(s[i + 2])
        && is_hex(s[i + 3]) {
        Some(
            (4096 * hex_value(s[i]) + 256 * hex_value(s[i + 1]) + 16 * hex_value(s[i + 2])
                + hex_value(s[i + 3])) as u32,
        )
    } else {
        None
    }
}

/// A number that names a Unicode scalar value.
pub open spec fn is_scalar_value(v: u32) -> bool {
    v <= 0x10FFFF && !(0xD800 <= v <= 0xDFFF)
}

/// How many continuation bytes follow a UTF-8 lead byte; `None` for a byte
/// that cannot lead a multi-byte sequence.
pub open spec fn utf8_extra(c: u8) -> Option<int> {
    if c & 0xE0u8 == 0xC0u8 {
        Some(1)
    } else if c & 0xF0u8 == 0xE0u8 {
        Some(2)
    } else if c & 0xF8u8 == 0xF0u8 {
        Some(3)
    } else {
        None
    }
}

// ── What the lexer reads ────────────────────────────────────────────────────

/// The first position at or after `i` that holds no whitespace.
pub open spec fn skip_ws(s: Seq<u8>, i: int) -> int
    decreases s.len() - i,
{
    if 0 <= i < s.len() && is_json_space(s[i]) {
        skip_ws(s, i + 1)
    } else {
        i
    }
}

/// The body of a string literal from position `i` (just after the opening
/// quote), with `acc` decoded so far: the decoded text and the position after
/// the closing quote, or the error.
pub open spec fn string_body(s: Seq<u8>, i: int, acc: Seq<char>) -> Result<
    (Seq<char>, int),
    JsonErrorModel,
>
    decreases s.len() - i,
{
    if i < 0 || i >= s.len() {
        Err(JsonError::UnterminatedString)
    } else {
        let c = s[i];
        if c == 34 {
            Ok((acc, i + 1))
        } else if c == 92 {
            if i + 1 >= s.len() {
                Err(JsonError::UnterminatedEscape)
            } else {
                let e = s[i + 1];
                if e == 34 {
                    string_body(s, i + 2, acc.push('"'))
                } else if e == 92 {
                    string_body(s, i + 2, acc.push('\\'))
                } else if e == 47 {
                    string_body(s, i + 2, acc.push('/'))
                } else if e == 98 {
                    string_body(s, i + 2, acc.push('\x08'))
                } else if e == 102 {
                    string_body(s, i + 2, acc.push('\x0C'))
                } else if e == 110 {
                    string_body(s, i + 2, acc.push('\n'))
                } else if e == 114 {
                    string_body(s, i + 2, acc.push('\r'))
                } else if e == 116 {
                    string_body(s, i + 2, acc.push('\t'))
                } else if e == 117 {
                    match hex4(s, i + 2) {
                        None => Err(JsonError::InvalidUnicodeEscape),
                        Some(cp) => if 0xD800 <= cp <= 0xDBFF {
                            if !(i + 7 < s.len() && s[i + 6] == 92 && s[i + 7] == 117) {
                                Err(JsonError::ExpectedLowSurrogate)
                            } else {
                                match hex4(s, i + 8) {
                                    None => Err(JsonError::InvalidUnicodeEscape),
                                    Some(low) => if !(0xDC00 <= low <= 0xDFFF) {
                                        Err(JsonError::InvalidSurrogatePair)
                                    } else {
                                        let code = (0x10000 + (cp - 0xD800) * 1024 + (low
                                            - 0xDC00)) as u32;
                                        if is_scalar_value(code) {
                                            string_body(s, i + 12, acc.push(code as char))
                                        } else {
                                            Err(JsonError::InvalidCodePoint)
                                        }
                                    },
                                }
                            }
                        } else if 0xDC00 <= cp <= 0xDFFF {
                            Err(JsonError::UnexpectedLowSurrogate)
                        } else if is_scalar_value(cp) {
                            string_body(s, i + 6, acc.push(cp as char))
                        } else {
                            Err(JsonError::InvalidCodePointValue(cp))
                        },
                    }
                } else {
                    Err(JsonError::InvalidEscape(e))
                }
            }
        } else if c < 0x20 {
            Err(JsonError::ControlCharacter(c))
        } else if c < 0x80 {
            string_body(s, i + 1, acc.push(c as char))
        } else {
            match utf8_extra(c) {
                None => Err(JsonError::InvalidUtf8Byte),
                Some(extra) => if i + extra >= s.len() {
                    Err(JsonError::TruncatedUtf8)
                } else {
                    let bytes = s.subrange(i, i + extra + 1);
                    if valid_utf8(bytes) {
                        string_body(s, i + extra + 1, acc + decode_utf8(bytes))
                    } else {
                        Err(JsonError::InvalidUtf8)
                    }
                },
            }
        }
    }
}

/// Where reading up to `m` hexadecimal digits from `p` stops: after them,
/// just after the first byte that is not one, or at the end of the text.
pub open spec fn hex_stop(s: Seq<u8>, p: int, m: nat) -> int
    decreases m,
{
    if m == 0 || p < 0 || p >= s.len() {
        p
    } else if is_hex(s[p]) {
        hex_stop(s, p + 1, (m - 1) as nat)
    } else {
        p + 1
    }
}

/// Where reading the body of a string literal from `i` stops: just after
/// the closing quote, or just after the byte that showed the error (at the
/// end of the text when it ran out).
pub open spec fn string_stop(s: Seq<u8>, i: int) -> int
    decreases s.len() - i,
{
    if i < 0 || i >= s.len() {
        i
    } else {
        let c = s[i];
        if c == 34 {
            i + 1
        } else if c == 92 {
            if i + 1 >= s.len() {
                i + 1
            } else {
                let e = s[i + 1];
                if e == 34 || e == 92 || e == 47 || e == 98 || e == 102 || e == 110 || e == 114
                    || e == 116 {
                    string_stop(s, i + 2)
                } else if e == 117 {
                    match hex4(s, i + 2) {
                        None => hex_stop(s, i + 2, 4),
                        Some(cp) => if 0xD800 <= cp <= 0xDBFF {
                            if i + 6 >= s.len() {
                                i + 6
                            } else if s[i + 6] != 92 || i + 7 >= s.len() {
                                i + 7
                            } else if s[i + 7] != 117 {
                                i + 8
                            } else {
                                match hex4(s, i + 8) {
                                    None => hex_stop(s, i + 8, 4),
                                    Some(low) => {
                                        let code = (0x10000 + (cp - 0xD800) * 1024 + (low
                                            - 0xDC00)) as u32;
                                        if 0xDC00 <= low <= 0xDFFF && is_scalar_value(code) {
                                            string_stop(s, i + 12)
                                        } else {
                                            i + 12
                                        }
                                    },
                                }
                            }
                        } else if !(0xDC00 <= cp <= 0xDFFF) && is_scalar_value(cp) {
                            string_stop(s, i + 6)
                        } else {
                            i + 6
                        },
                    }
                } else {
                    i + 2
                }
            }
        } else if c < 0x20 {
            i + 1
        } else if c < 0x80 {
            string_stop(s, i + 1)
        } else {
            match utf8_extra(c) {
                None => i + 1,
                Some(extra) => if i + extra >= s.len() {
                    s.len() as int
                } else if valid_utf8(s.subrange(i, i + extra + 1)) {
                    string_stop(s, i + extra + 1)
                } else {
                    i + extra + 1
                },
            }
        }
    }
}

/// The end of the run of digits that starts at `i`.
pub open spec fn digits_end(s: Seq<u8>, i: int) -> int
    decreases s.len() - i,
{
    if 0 <= i < s.len() && is_digit(s[i]) {
        digits_end(s, i + 1)
    } else {
        i
    }
}

/// Whether position `i` holds a digit.
pub open spec fn digit_at(s: Seq<u8>, i: int) -> bool {
    0 <= i < s.len() && is_digit(s[i])
}

/// The end of the number literal that starts at `i`: an optional minus, an
/// integer part without leading zeros, an optional fraction, an optional
/// exponent; or the error.
pub open spec fn number_end(s: Seq<u8>, i: int) -> Result<int, JsonErrorModel> {
    let a = if 0 <= i < s.len() && s[i] == 45 {
        i + 1
    } else {
        i
    };
    let int_part: Result<int, JsonErrorModel> = if 0 <= a < s.len() && s[a] == 48 {
        if digit_at(s, a + 1) {
            Err(JsonError::LeadingZeros)
        } else {
            Ok(a + 1)
        }
    } else if digit_at(s, a) {
        Ok(digits_end(s, a))
    } else {
        Err(JsonError::MissingDigits)
    };
    match int_part {
        Err(e) => Err(e),
        Ok(b) => {
            let frac: Result<int, JsonErrorModel> = if 0 <= b < s.len() && s[b] == 46 {
                if digit_at(s, b + 1) {
                    Ok(digits_end(s, b + 1))
                } else {
                    Err(JsonError::ExpectedFractionDigit)
                }
            } else {
                Ok(b)
            };
            match frac {
                Err(e) => Err(e),
                Ok(c) => if 0 <= c < s.len() && (s[c] == 101 || s[c] == 69) {
                    let d = if c + 1 < s.len() && (s[c + 1] == 43 || s[c + 1] == 45) {
                        c + 2
                    } else {
                        c + 1
                    };
                    if digit_at(s, d) {
                        Ok(digits_end(s, d))
                    } else {
                        Err(JsonError::ExpectedExponentDigit)
                    }
                } else {
                    Ok(c)
                },
            }
        },
    }
}

/// Where reading a number literal from `i` stops: just after the literal
/// when it is well formed, else at the byte that showed it is not.
pub open spec fn number_stop(s: Seq<u8>, i: int) -> int {
    let a = if 0 <= i < s.len() && s[i] == 45 {
        i + 1
    } else {
        i
    };
    if !digit_at(s, a) {
        a
    } else if s[a] == 48 && digit_at(s, a + 1) {
        a + 1
    } else {
        let b = if s[a] == 48 {
            a + 1
        } else {
            digits_end(s, a)
        };
        if 0 <= b < s.len() && s[b] == 46 && !digit_at(s, b + 1) {
            b + 1
        } else {
            let c = if 0 <= b < s.len() && s[b] == 46 {
                digits_end(s, b + 1)
            } else {
                b
            };
            if 0 <= c < s.len() && (s[c] == 101 || s[c] == 69) {
                let d = if c + 1 < s.len() && (s[c + 1] == 43 || s[c + 1] == 45) {
                    c + 2
                } else {
                    c + 1
                };
                if digit_at(s, d) {
                    digits_end(s, d)
                } else {
                    d
                }
            } else {
                c
            }
        }
    }
}

/// The bytes from `i` to `j`, each read as a character.
pub open spec fn ascii_chars(s: Seq<u8>, i: int, j: int) -> Seq<char> {
    Seq::new((j - i) as nat, |k: int| s[i + k] as char)
}

/// Whether the bytes of `w` stand at position `i`.
pub open spec fn word_at(s: Seq<u8>, i: int, w: Seq<u8>) -> bool {
    0 <= i && i + w.len() <= s.len() && s.subrange(i, i + w.len()) == w
}

/// `true`, `false` and `null` as bytes.
pub open spec fn word_true() -> Seq<u8> {
    seq![116u8, 114u8, 117u8, 101u8]
}

pub open spec fn word_false() -> Seq<u8> {
    seq![102u8, 97u8, 108u8, 115u8, 101u8]
}

pub open spec fn word_null() -> Seq<u8> {
    seq![110u8, 117u8, 108u8, 108u8]
}

/// A string literal ends after it starts, on its closing quote, whatever was
/// decoded before it.
pub proof fn lemma_string_body_advances(s: Seq<u8>, i: int)
    ensures
        forall|acc: Seq<char>| #[trigger]
            string_body(s, i, acc) matches Ok((_, k)) ==> i < k <= s.len() && s[k - 1] == 34,
    decreases s.len() - i,
{
    if 0 <= i < s.len() {
        let c = s[i];
        if c == 92 && i + 1 < s.len() {
            let e = s[i + 1];
            if e == 34 || e == 92 || e == 47 || e == 98 || e == 102 || e == 110 || e == 114 || e
                == 116 {
                let ch = if e == 34 {
                    '"'
                } else if e == 92 {
                    '\\'
                } else if e == 47 {
                    '/'
                } else if e == 98 {
                    '\x08'
                } else if e == 102 {
                    '\x0C'
                } else if e == 110 {
                    '\n'
                } else if e == 114 {
                    '\r'
                } else {
                    '\t'
                };
                lemma_string_body_advances(s, i + 2);
                assert forall|acc: Seq<char>| #[trigger]
                    string_body(s, i, acc) == string_body(s, i + 2, acc.push(ch)) by {}
            } else if e == 117 {
                if let Some(cp) = hex4(s, i + 2) {
                    if 0xD800 <= cp <= 0xDBFF {
                        if let Some(low) = hex4(s, i + 8) {
                            let code = (0x10000 + (cp - 0xD800) * 1024 + (low - 0xDC00)) as u32;
                            lemma_string_body_advances(s, i + 12);
                            assert forall|acc: Seq<char>| #[trigger]
                                string_body(s, i, acc) is Ok implies string_body(s, i, acc)
                                == string_body(s, i + 12, acc.push(code as char)) by {}
                        }
                    } else {
                        lemma_string_body_advances(s, i + 6);
                        assert forall|acc: Seq<char>| #[trigger]
                            string_body(s, i, acc) is Ok implies string_body(s, i, acc)
                            == string_body(s, i + 6, acc.push(cp as char)) by {}
                    }
                }
            }
        } else if c != 34 && c != 92 && c >= 0x20 && c < 0x80 {
            lemma_string_body_advances(s, i + 1);
            assert forall|acc: Seq<char>| #[trigger]
                string_body(s, i, acc) == string_body(s, i + 1, acc.push(c as char)) by {}
        } else if c >= 0x80 {
            if let Some(extra) = utf8_extra(c) {
                if i + extra < s.len() {
                    let bytes = s.subrange(i, i + extra + 1);
                    lemma_string_body_advances(s, i + extra + 1);
                    assert forall|acc: Seq<char>| #[trigger]
                        string_body(s, i, acc) is Ok implies string_body(s, i, acc)
                        == string_body(s, i + extra + 1, acc + decode_utf8(bytes)) by {}
                }
            }
        }
    }
}

proof fn lemma_skip_ws(s: Seq<u8>, i: int)
    requires
        0 <= i <= s.len(),
    ensures
        i <= skip_ws(s, i) <= s.len(),
    decreases s.len() - i,
{
    if i < s.len() && is_json_space(s[i]) {
        lemma_skip_ws(s, i + 1);
    }
}

proof fn lemma_digits_end(s: Seq<u8>, i: int)
    requires
        0 <= i <= s.len(),
    ensures
        i <= digits_end(s, i) <= s.len(),
        !digit_at(s, digits_end(s, i)),
    decreases s.len() - i,
{
    if i < s.len() && is_digit(s[i]) {
        lemma_digits_end(s, i + 1);
    }
}

/// A number literal ends after it starts, within the text.
pub proof fn lemma_number_end_advances(s: Seq<u8>, i: int)
    requires
        0 <= i < s.len(),
    ensures
        number_end(s, i) matches Ok(k) ==> i < k <= s.len(),
{
    let a = if s[i] == 45 {
        i + 1
    } else {
        i
    };
    if a < s.len() {
        lemma_digits_end(s, a);
        if a + 1 <= s.len() {
            lemma_digits_end(s, a + 1);
        }
    }
    if let Ok(b) = number_end(s, i) {
        let b0 = if 0 <= a < s.len() && s[a] == 48 {
            a + 1
        } else {
            digits_end(s, a)
        };
        if b0 + 1 <= s.len() {
            lemma_digits_end(s, b0 + 1);
        }
        let c0 = if 0 <= b0 < s.len() && s[b0] == 46 {
            digits_end(s, b0 + 1)
        } else {
            b0
        };
        if c0 + 1 <= s.len() {
            lemma_digits_end(s, c0 + 1);
        }
        if c0 + 2 <= s.len() {
            lemma_digits_end(s, c0 + 2);
        }
    }
}

/// The token that starts at position `j` (a byte other than whitespace) and
/// the position after it; or the error.
pub open spec fn token_at(s: Seq<u8>, j: int) -> Result<(TokenModel, int), JsonErrorModel> {
    let c = s[j];
    if c == 123 {
        Ok((TokenModel::LBrace, j + 1))
    } else if c == 125 {
        Ok((TokenModel::RBrace, j + 1))
    } else if c == 91 {
        Ok((TokenModel::LBracket, j + 1))
    } else if c == 93 {
        Ok((TokenModel::RBracket, j + 1))
    } else if c == 58 {
        Ok((TokenModel::Colon, j + 1))
    } else if c == 44 {
        Ok((TokenModel::Comma, j + 1))
    } else if c == 34 {
        match string_body(s, j + 1, seq![]) {
            Err(e) => Err(e),
            Ok((text, k)) => Ok((TokenModel::Str(text), k)),
        }
    } else if c == 45 || is_digit(c) {
        match number_end(s, j) {
            Err(e) => Err(e),
            Ok(k) => Ok((TokenModel::Num(ascii_chars(s, j, k)), k)),
        }
    } else if c == 116 {
        if word_at(s, j, word_true()) {
            Ok((TokenModel::True, j + 4))
        } else {
            Err(JsonError::InvalidToken(j as usize))
        }
    } else if c == 102 {
        if word_at(s, j, word_false()) {
            Ok((TokenModel::False, j + 5))
        } else {
            Err(JsonError::InvalidToken(j as usize))
        }
    } else if c == 110 {
        if word_at(s, j, word_null()) {
            Ok((TokenModel::Null, j + 4))
        } else {
            Err(JsonError::InvalidToken(j as usize))
        }
    } else {
        Err(JsonError::UnexpectedCharacter(c, j as usize))
    }
}

/// The tokens of `s` from position `i` on, appended to `acc`; or the first
/// error. Whitespace before each token is skipped.
pub open spec fn lex_from(s: Seq<u8>, i: int, acc: Seq<TokenModel>) -> Result<
    Seq<TokenModel>,
    JsonErrorModel,
>
    decreases s.len() - i,
{
    let j = skip_ws(s, i);
    if j < 0 || j >= s.len() || j < i {
        Ok(acc)
    } else {
        match token_at(s, j) {
            Err(e) => Err(e),
            Ok((t, k)) => if j < k <= s.len() {
                lex_from(s, k, acc.push(t))
            } else {
                Ok(acc)
            },
        }
    }
}

/// Where reading the token that starts at `j` stops: after the token, or
/// where its reader found the error.
pub open spec fn token_stop(s: Seq<u8>, j: int) -> int {
    let c = s[j];
    if c == 34 {
        string_stop(s, j + 1)
    } else if c == 45 || is_digit(c) {
        number_stop(s, j)
    } else {
        match token_at(s, j) {
            Ok((_, k)) => k,
            Err(_) => j,
        }
    }
}

/// Where cutting `s` into tokens from `i` on stops: at its end, or where
/// the first error was found.
pub open spec fn lex_stop(s: Seq<u8>, i: int) -> int
    decreases s.len() - i,
{
    let j = skip_ws(s, i);
    if j < 0 || j >= s.len() || j < i {
        j
    } else {
        match token_at(s, j) {
            Err(_) => token_stop(s, j),
            Ok((_, k)) => if j < k <= s.len() {
                lex_stop(s, k)
            } else {
                k
            },
        }
    }
}

/// The tokens of a whole text, or the first error.
pub open spec fn lex(s: Seq<u8>) -> Result<Seq<TokenModel>, JsonErrorModel> {
    lex_from(s, 0, seq![])
}


/// The views of a list of tokens.
pub open spec fn tokens_view(v: Seq<Token>) -> Seq<TokenModel> {
    v.map_values(|t: Token| t@)
}

// ── Whitespace between tokens ───────────────────────────────────────────────

/// `s2` holds the bytes of `s` from `lo` to `hi`, each moved by `d`.
spec fn moved(s: Seq<u8>, s2: Seq<u8>, lo: int, hi: int, d: int) -> bool {
    &&& 0 <= lo <= hi <= s.len()
    &&& 0 <= lo + d
    &&& hi + d <= s2.len()
    &&& forall|x: int| lo <= x < hi ==> #[trigger] s[x] == s2[x + d]
}

/// Whether a number literal could go on at position `k`: a digit, a point or
/// an exponent mark stands there.
pub open spec fn number_goes_on(s: Seq<u8>, k: int) -> bool {
    0 <= k < s.len() && (is_digit(s[k]) || s[k] == 46 || s[k] == 101 || s[k] == 69)
}

/// After a token that ends at `k` in `s` and at `k + d` in `s2`, the two hold
/// the same byte, or a number could go on in neither.
spec fn stops_alike(s: Seq<u8>, s2: Seq<u8>, k: int, d: int) -> bool {
    ||| (0 <= k < s.len() && 0 <= k + d < s2.len() && s2[k + d] == s[k])
    ||| (!number_goes_on(s, k) && !number_goes_on(s2, k + d))
}

proof fn lemma_skip_ws_shift(q: Seq<u8>, b: Seq<u8>, i: int)
    requires
        0 <= i <= b.len(),
    ensures
        skip_ws(q + b, q.len() + i) == q.len() + skip_ws(b, i),
    decreases b.len() - i,
{
    if i < b.len() {
        assert((q + b)[q.len() + i] == b[i]);
        if is_json_space(b[i]) {
            lemma_skip_ws_shift(q, b, i + 1);
        }
    }
}

proof fn lemma_skip_ws_extend(a: Seq<u8>, r: Seq<u8>, i: int)
    requires
        0 <= i <= a.len(),
    ensures
        skip_ws(a, i) < a.len() ==> skip_ws(a + r, i) == skip_ws(a, i),
        skip_ws(a, i) >= a.len() ==> skip_ws(a + r, i) == skip_ws(a + r, a.len() as int),
    decreases a.len() - i,
{
    if i < a.len() {
        assert((a + r)[i] == a[i]);
        if is_json_space(a[i]) {
            lemma_skip_ws_extend(a, r, i + 1);
        }
    }
}

proof fn lemma_skip_ws_over(s: Seq<u8>, x: int, y: int)
    requires
        0 <= x <= y <= s.len(),
        forall|z: int| x <= z < y ==> is_json_space(#[trigger] s[z]),
    ensures
        skip_ws(s, x) == skip_ws(s, y),
    decreases y - x,
{
    if x < y {
        lemma_skip_ws_over(s, x + 1, y);
    }
}

proof fn lemma_lex_from_same_start(s: Seq<u8>, x: int, y: int, acc: Seq<TokenModel>)
    requires
        0 <= x <= y <= s.len(),
        skip_ws(s, x) == skip_ws(s, y),
    ensures
        lex_from(s, x, acc) == lex_from(s, y, acc),
{
    lemma_skip_ws(s, y);
}

proof fn lemma_token_at_advances(s: Seq<u8>, j: int)
    requires
        0 <= j < s.len(),
    ensures
        token_at(s, j) matches Ok((_, k)) ==> j < k <= s.len(),
{
    lemma_string_body_advances(s, j + 1);
    lemma_number_end_advances(s, j);
}

#[verifier::spinoff_prover]
#[verifier::rlimit(40)]
proof fn lemma_string_body_moved(s: Seq<u8>, s2: Seq<u8>, i: int, d: int, acc: Seq<char>)
    requires
        string_body(s, i, acc) is Ok,
        moved(s, s2, i, string_body(s, i, acc)->Ok_0.1, d),
    ensures
        string_body(s2, i + d, acc) == Ok::<(Seq<char>, int), JsonErrorModel>(
            (string_body(s, i, acc)->Ok_0.0, string_body(s, i, acc)->Ok_0.1 + d),
        ),
    decreases s.len() - i,
{
    let k = string_body(s, i, acc)->Ok_0.1;
    lemma_string_body_advances(s, i);
    let c = s[i];
    assert(s2[i + d] == c);
    if c == 92 {
        let e = s[i + 1];
        if e == 34 || e == 92 || e == 47 || e == 98 || e == 102 || e == 110 || e == 114 || e
            == 116 {
            let ch = if e == 34 {
                '"'
            } else if e == 92 {
                '\\'
            } else if e == 47 {
                '/'
            } else if e == 98 {
                '\x08'
            } else if e == 102 {
                '\x0C'
            } else if e == 110 {
                '\n'
            } else if e == 114 {
                '\r'
            } else {
                '\t'
            };
            assert(string_body(s, i, acc) == string_body(s, i + 2, acc.push(ch)));
            lemma_string_body_advances(s, i + 2);
            assert(s2[i + 1 + d] == e);
            lemma_string_body_moved(s, s2, i + 2, d, acc.push(ch));
            assert(string_body(s2, i + d, acc) == string_body(s2, i + d + 2, acc.push(ch)));
        } else {
            let cp = hex4(s, i + 2)->Some_0;
            assert(s2[i + 1 + d] == e);
            if 0xD800 <= cp <= 0xDBFF {
                let low = hex4(s, i + 8)->Some_0;
                let code = (0x10000 + (cp - 0xD800) * 1024 + (low - 0xDC00)) as u32;
                assert(string_body(s, i, acc) == string_body(s, i + 12, acc.push(code as char)));
                lemma_string_body_advances(s, i + 12);
                assert(s2[i + 2 + d] == s[i + 2] && s2[i + 3 + d] == s[i + 3] && s2[i + 4 + d]
                    == s[i + 4] && s2[i + 5 + d] == s[i + 5]);
                assert(s2[i + 6 + d] == s[i + 6] && s2[i + 7 + d] == s[i + 7]);
                assert(s2[i + 8 + d] == s[i + 8] && s2[i + 9 + d] == s[i + 9] && s2[i + 10 + d]
                    == s[i + 10] && s2[i + 11 + d] == s[i + 11]);
                assert(hex4(s2, i + d + 2) == hex4(s, i + 2));
                assert(hex4(s2, i + d + 8) == hex4(s, i + 8));
                lemma_string_body_moved(s, s2, i + 12, d, acc.push(code as char));
                assert(string_body(s2, i + d, acc) == string_body(
                    s2,
                    i + d + 12,
                    acc.push(code as char),
                ));
            } else {
                assert(string_body(s, i, acc) == string_body(s, i + 6, acc.push(cp as char)));
                lemma_string_body_advances(s, i + 6);
                assert(s2[i + 2 + d] == s[i + 2] && s2[i + 3 + d] == s[i + 3] && s2[i + 4 + d]
                    == s[i + 4] && s2[i + 5 + d] == s[i + 5]);
                assert(hex4(s2, i + d + 2) == hex4(s, i + 2));
                lemma_string_body_moved(s, s2, i + 6, d, acc.push(cp as char));
                assert(string_body(s2, i + d, acc) == string_body(
                    s2,
                    i + d + 6,
                    acc.push(cp as char),
                ));
            }
        }
    } else if c != 34 && c < 0x80 {
        assert(string_body(s, i, acc) == string_body(s, i + 1, acc.push(c as char)));
        lemma_string_body_advances(s, i + 1);
        lemma_string_body_moved(s, s2, i + 1, d, acc.push(c as char));
        assert(string_body(s2, i + d, acc) == string_body(s2, i + d + 1, acc.push(c as char)));
    } else if c != 34 {
        let extra = utf8_extra(c)->Some_0;
        let bytes = s.subrange(i, i + extra + 1);
        assert(string_body(s, i, acc) == string_body(s, i + extra + 1, acc + decode_utf8(bytes)));
        lemma_string_body_advances(s, i + extra + 1);
        assert(s2.subrange(i + d, i + d + extra + 1) =~= bytes) by {
            assert forall|x: int| 0 <= x < extra + 1 implies s2.subrange(
                i + d,
                i + d + extra + 1,
            )[x] == bytes[x] by {
                assert(s[i + x] == s2[i + x + d]);
            }
        }
        lemma_string_body_moved(s, s2, i + extra + 1, d, acc + decode_utf8(bytes));
        assert(string_body(s2, i + d, acc) == string_body(
            s2,
            i + d + extra + 1,
            acc + decode_utf8(bytes),
        ));
    }
}

proof fn lemma_digits_end_moved(s: Seq<u8>, s2: Seq<u8>, x: int, d: int)
    requires
        0 <= x <= s.len(),
        moved(s, s2, x, digits_end(s, x), d),
        !digit_at(s2, digits_end(s, x) + d),
    ensures
        digits_end(s2, x + d) == digits_end(s, x) + d,
    decreases s.len() - x,
{
    if x < s.len() && is_digit(s[x]) {
        lemma_digits_end(s, x + 1);
        assert(s2[x + d] == s[x]);
        lemma_digits_end_moved(s, s2, x + 1, d);
    }
}

proof fn lemma_number_end_moved(s: Seq<u8>, s2: Seq<u8>, i: int, d: int)
    requires
        0 <= i < s.len(),
        number_end(s, i) is Ok,
        moved(s, s2, i, number_end(s, i)->Ok_0, d),
        stops_alike(s, s2, number_end(s, i)->Ok_0, d),
    ensures
        number_end(s2, i + d) == Ok::<int, JsonErrorModel>(number_end(s, i)->Ok_0 + d),
{
    let k = number_end(s, i)->Ok_0;
    let a = if s[i] == 45 {
        i + 1
    } else {
        i
    };
    assert(0 <= a < s.len());
    lemma_digits_end(s, a);
    lemma_digits_end(s, a + 1);
    let b = if s[a] == 48 {
        a + 1
    } else {
        digits_end(s, a)
    };
    assert(a < b <= s.len());
    let frac = 0 <= b < s.len() && s[b] == 46;
    let c = if frac {
        digits_end(s, b + 1)
    } else {
        b
    };
    if frac {
        lemma_digits_end(s, b + 1);
        lemma_digits_end(s, b + 2);
        assert(b + 1 < c);
    }
    assert(b <= c <= s.len());
    let exp = 0 <= c < s.len() && (s[c] == 101 || s[c] == 69);
    let e = if c + 1 < s.len() && (s[c + 1] == 43 || s[c + 1] == 45) {
        c + 2
    } else {
        c + 1
    };
    if exp {
        lemma_digits_end(s, e);
        lemma_digits_end(s, e + 1);
        assert(k == digits_end(s, e));
        assert(e < k);
    } else {
        assert(k == c);
    }
    // The same bytes, and the same decisions, in `s2`.
    assert(s2[i + d] == s[i]);
    assert(s2[a + d] == s[a]);
    if s[a] == 48 {
        if a + 1 < k {
            assert(s2[a + 1 + d] == s[a + 1]);
        }
    } else {
        if b < k {
            assert(s2[b + d] == s[b]);
        }
        lemma_digits_end_moved(s, s2, a, d);
    }
    if b < k {
        assert(s2[b + d] == s[b]);
    }
    if frac {
        assert(s2[b + 1 + d] == s[b + 1]);
        if c < k {
            assert(s2[c + d] == s[c]);
        }
        lemma_digits_end_moved(s, s2, b + 1, d);
    }
    if exp {
        assert(s2[c + d] == s[c]);
        if c + 1 < k {
            assert(s2[c + 1 + d] == s[c + 1]);
        }
        assert(s2[e + d] == s[e]);
        lemma_digits_end_moved(s, s2, e, d);
    }
}

proof fn lemma_token_at_moved(s: Seq<u8>, s2: Seq<u8>, j: int, d: int)
    requires
        0 <= j < s.len(),
        token_at(s, j) is Ok,
        moved(s, s2, j, token_at(s, j)->Ok_0.1, d),
        stops_alike(s, s2, token_at(s, j)->Ok_0.1, d),
    ensures
        token_at(s2, j + d) == Ok::<(TokenModel, int), JsonErrorModel>(
            (token_at(s, j)->Ok_0.0, token_at(s, j)->Ok_0.1 + d),
        ),
{
    lemma_token_at_advances(s, j);
    let k = token_at(s, j)->Ok_0.1;
    let c = s[j];
    assert(s2[j + d] == c);
    if c == 34 {
        lemma_string_body_moved(s, s2, j + 1, d, seq![]);
    } else if c == 45 || is_digit(c) {
        lemma_number_end_moved(s, s2, j, d);
        assert(ascii_chars(s2, j + d, k + d) =~= ascii_chars(s, j, k)) by {
            assert forall|x: int| 0 <= x < k - j implies ascii_chars(s2, j + d, k + d)[x]
                == ascii_chars(s, j, k)[x] by {
                assert(s[j + x] == s2[j + x + d]);
            }
        }
    } else if c == 116 || c == 102 || c == 110 {
        let w = if c == 116 {
            word_true()
        } else if c == 102 {
            word_false()
        } else {
            word_null()
        };
        assert(s2.subrange(j + d, j + d + w.len()) =~= s.subrange(j, j + w.len())) by {
            assert forall|x: int| 0 <= x < w.len() implies #[trigger] s2.subrange(
                j + d,
                j + d + w.len(),
            )[x] == s.subrange(j, j + w.len())[x] by {
                assert(s[j + x] == s2[j + x + d]);
            }
        }
    }
}

proof fn lemma_moved_shift(q: Seq<u8>, b: Seq<u8>, lo: int, hi: int)
    requires
        0 <= lo <= hi <= b.len(),
    ensures
        moved(b, q + b, lo, hi, q.len() as int),
{
    assert forall|x: int| lo <= x < hi implies #[trigger] b[x] == (q + b)[x + q.len()] by {}
}

proof fn lemma_moved_extend(a: Seq<u8>, r: Seq<u8>, lo: int, hi: int)
    requires
        0 <= lo <= hi <= a.len(),
    ensures
        moved(a, a + r, lo, hi, 0),
{
    assert forall|x: int| lo <= x < hi implies #[trigger] a[x] == (a + r)[x + 0] by {}
}

proof fn lemma_lex_from_shift(q: Seq<u8>, b: Seq<u8>, i: int, acc: Seq<TokenModel>)
    requires
        0 <= i <= b.len(),
        lex_from(b, i, acc) is Ok,
    ensures
        lex_from(q + b, q.len() + i, acc) == lex_from(b, i, acc),
    decreases b.len() - i,
{
    let s2 = q + b;
    let d = q.len() as int;
    lemma_skip_ws(b, i);
    lemma_skip_ws_shift(q, b, i);
    let j = skip_ws(b, i);
    if j < b.len() {
        lemma_token_at_advances(b, j);
        let t = token_at(b, j)->Ok_0.0;
        let k = token_at(b, j)->Ok_0.1;
        lemma_moved_shift(q, b, j, k);
        if k < b.len() {
            assert(s2[k + d] == b[k]);
        }
        lemma_token_at_moved(b, s2, j, d);
        lemma_lex_from_shift(q, b, k, acc.push(t));
    }
}

proof fn lemma_lex_from_extend(a: Seq<u8>, r: Seq<u8>, i: int, acc: Seq<TokenModel>)
    requires
        0 <= i <= a.len(),
        r.len() > 0,
        is_json_space(r[0]),
        lex_from(a, i, acc) is Ok,
    ensures
        lex_from(a + r, i, acc) == lex_from(a + r, a.len() as int, lex_from(a, i, acc)->Ok_0),
    decreases a.len() - i,
{
    let s2 = a + r;
    lemma_skip_ws(a, i);
    lemma_skip_ws_extend(a, r, i);
    let j = skip_ws(a, i);
    if j < a.len() {
        lemma_token_at_advances(a, j);
        let t = token_at(a, j)->Ok_0.0;
        let k = token_at(a, j)->Ok_0.1;
        lemma_moved_extend(a, r, j, k);
        if k < a.len() {
            assert(s2[k] == a[k]);
        } else {
            assert(s2[k] == r[0]);
        }
        lemma_token_at_moved(a, s2, j, 0);
        lemma_lex_from_extend(a, r, k, acc.push(t));
    } else {
        lemma_lex_from_same_start(s2, i, a.len() as int, acc);
    }
}

proof fn lemma_lex_from_prefix_acc(
    s: Seq<u8>,
    i: int,
    pre: Seq<TokenModel>,
    acc: Seq<TokenModel>,
)
    requires
        lex_from(s, i, acc) is Ok,
    ensures
        lex_from(s, i, pre + acc) == Ok::<Seq<TokenModel>, JsonErrorModel>(
            pre + lex_from(s, i, acc)->Ok_0,
        ),
    decreases s.len() - i,
{
    let j = skip_ws(s, i);
    if !(j < 0 || j >= s.len() || j < i) {
        if let Ok((t, k)) = token_at(s, j) {
            if j < k <= s.len() {
                lemma_lex_from_prefix_acc(s, k, pre, acc.push(t));
                assert((pre + acc).push(t) =~= pre + acc.push(t));
            }
        }
    }
}

/// Whitespace only separates tokens: text `a`, then whitespace, then text
/// `b` cut into the tokens of `a` followed by those of `b`.
pub proof fn lemma_lex_join(a: Seq<u8>, w: Seq<u8>, b: Seq<u8>)
    requires
        lex(a) is Ok,
        lex(b) is Ok,
        w.len() > 0,
        forall|x: int| 0 <= x < w.len() ==> is_json_space(#[trigger] w[x]),
    ensures
        lex(a + w + b) == Ok::<Seq<TokenModel>, JsonErrorModel>(lex(a)->Ok_0 + lex(b)->Ok_0),
{
    let s = a + w + b;
    let ta = lex(a)->Ok_0;
    let tb = lex(b)->Ok_0;
    let p = (a.len() + w.len()) as int;
    assert(a + (w + b) =~= s);
    lemma_lex_from_extend(a, w + b, 0, seq![]);
    assert forall|z: int| a.len() <= z < p implies is_json_space(#[trigger] s[z]) by {
        assert(s[z] == w[z - a.len()]);
    }
    lemma_skip_ws_over(s, a.len() as int, p);
    lemma_lex_from_same_start(s, a.len() as int, p, ta);
    assert((a + w) + b =~= s);
    lemma_lex_from_prefix_acc(b, 0, ta, seq![]);
    assert(ta + Seq::<TokenModel>::empty() =~= ta);
    lemma_lex_from_shift(a + w, b, 0, ta);
}

// ── The number grammar ──────────────────────────────────────────────────────

/// One or more decimal digits.
pub open spec fn is_digit_run(w: Seq<u8>) -> bool {
    w.len() >= 1 && forall|x: int| 0 <= x < w.len() ==> is_digit(#[trigger] w[x])
}

/// The integer part of a number: `0`, or a digit other than `0` followed by
/// any digits.
pub open spec fn is_int_part(w: Seq<u8>) -> bool {
    w == seq![48u8] || (is_digit_run(w) && w[0] != 48)
}

/// The fraction of a number: nothing, or a point followed by digits.
pub open spec fn is_frac_part(w: Seq<u8>) -> bool {
    w.len() == 0 || (w[0] == 46 && is_digit_run(w.skip(1)))
}

/// The exponent of a number: nothing, or `e` or `E`, an optional sign, and
/// digits.
pub open spec fn is_exp_part(w: Seq<u8>) -> bool {
    w.len() == 0 || ((w[0] == 101 || w[0] == 69) && (is_digit_run(w.skip(1)) || (w.len() >= 2
        && (w[1] == 43 || w[1] == 45) && is_digit_run(w.skip(2)))))
}

/// The JSON number grammar, `-?(0|[1-9][0-9]*)(\.[0-9]+)?([eE][+-]?[0-9]+)?`.
pub open spec fn is_json_number(w: Seq<u8>) -> bool {
    exists|m: Seq<u8>, n: Seq<u8>, f: Seq<u8>, e: Seq<u8>|
        (m == Seq::<u8>::empty() || m == seq![45u8]) && is_int_part(n) && is_frac_part(f)
            && is_exp_part(e) && #[trigger] (m + n + f + e) == w
}

proof fn lemma_digits_end_run(s: Seq<u8>, x: int, y: int)
    requires
        0 <= x <= y <= s.len(),
        forall|z: int| x <= z < y ==> is_digit(#[trigger] s[z]),
        !digit_at(s, y),
    ensures
        digits_end(s, x) == y,
    decreases y - x,
{
    if x < y {
        lemma_digits_end_run(s, x + 1, y);
    }
}

proof fn lemma_digits_end_all(s: Seq<u8>, x: int)
    requires
        0 <= x <= s.len(),
    ensures
        forall|z: int| x <= z < digits_end(s, x) ==> is_digit(#[trigger] s[z]),
    decreases s.len() - x,
{
    if x < s.len() && is_digit(s[x]) {
        lemma_digits_end_all(s, x + 1);
    }
}

/// A number by the grammar, standing alone, is read whole.
proof fn lemma_number_read_whole(w: Seq<u8>)
    requires
        is_json_number(w),
    ensures
        number_end(w, 0) == Ok::<int, JsonErrorModel>(w.len() as int),
{
    let (m, n, f, e) = choose|m: Seq<u8>, n: Seq<u8>, f: Seq<u8>, e: Seq<u8>|
        (m == Seq::<u8>::empty() || m == seq![45u8]) && is_int_part(n) && is_frac_part(f)
            && is_exp_part(e) && #[trigger] (m + n + f + e) == w;
    let a = m.len() as int;
    let b = a + n.len();
    let c = b + f.len();
    assert forall|x: int| 0 <= x < m.len() implies w[x] == m[x] by {}
    assert forall|x: int| 0 <= x < n.len() implies w[a + x] == n[x] by {}
    assert forall|x: int| 0 <= x < f.len() implies w[b + x] == f[x] by {}
    assert forall|x: int| 0 <= x < e.len() implies w[c + x] == e[x] by {}
    assert(w.len() == c + e.len());
    assert(n.len() >= 1);
    assert(w[a] == n[0]);
    if m.len() == 0 {
        assert(w[0] == n[0]);
    }
    // The integer part ends at `b`.
    if b < w.len() {
        if f.len() > 0 {
            assert(w[b] == f[0]);
        } else {
            assert(w[b] == e[0]);
        }
    }
    if n[0] != 48 {
        assert forall|z: int| a <= z < b implies is_digit(#[trigger] w[z]) by {
            assert(w[z] == n[z - a]);
        }
        lemma_digits_end_run(w, a, b);
    } else {
        assert(n == seq![48u8]);
    }
    // The fraction ends at `c`.
    if c < w.len() {
        assert(w[c] == e[0]);
    }
    if f.len() > 0 {
        assert(f.skip(1)[0] == f[1]);
        assert(w[b + 1] == f[1]);
        assert forall|z: int| b + 1 <= z < c implies is_digit(#[trigger] w[z]) by {
            assert(w[z] == f[z - b]);
            assert(f.skip(1)[z - b - 1] == f[z - b]);
        }
        lemma_digits_end_run(w, b + 1, c);
    }
    // The exponent ends at the end.
    if e.len() > 0 {
        let d = if is_digit_run(e.skip(1)) {
            c + 1
        } else {
            c + 2
        };
        if is_digit_run(e.skip(1)) {
            assert(e.skip(1)[0] == e[1]);
            assert(w[c + 1] == e[1]);
        } else {
            assert(e.skip(2)[0] == e[2]);
            assert(w[c + 1] == e[1]);
            assert(w[c + 2] == e[2]);
        }
        assert forall|z: int| d <= z < w.len() implies is_digit(#[trigger] w[z]) by {
            assert(w[z] == e[z - c]);
            if d == c + 1 {
                assert(e.skip(1)[z - c - 1] == e[z - c]);
            } else {
                assert(e.skip(2)[z - c - 2] == e[z - c]);
            }
        }
        lemma_digits_end_run(w, d, w.len() as int);
    }
}

/// What the reader reads as a number is a number by the grammar.
proof fn lemma_number_end_sound(s: Seq<u8>, i: int)
    requires
        0 <= i <= s.len(),
        number_end(s, i) is Ok,
    ensures
        is_json_number(s.subrange(i, number_end(s, i)->Ok_0)),
{
    let k = number_end(s, i)->Ok_0;
    let a = if 0 <= i < s.len() && s[i] == 45 {
        i + 1
    } else {
        i
    };
    lemma_digits_end(s, a);
    lemma_digits_end(s, a + 1);
    lemma_digits_end_all(s, a);
    let b = if s[a] == 48 {
        a + 1
    } else {
        digits_end(s, a)
    };
    let frac = 0 <= b < s.len() && s[b] == 46;
    if frac {
        lemma_digits_end(s, b + 1);
        lemma_digits_end_all(s, b + 1);
    }
    let c = if frac {
        digits_end(s, b + 1)
    } else {
        b
    };
    let exp = 0 <= c < s.len() && (s[c] == 101 || s[c] == 69);
    let d = if c + 1 < s.len() && (s[c + 1] == 43 || s[c + 1] == 45) {
        c + 2
    } else {
        c + 1
    };
    if exp {
        lemma_digits_end(s, d);
        lemma_digits_end_all(s, d);
    }
    let m = s.subrange(i, a);
    let n = s.subrange(a, b);
    let f = s.subrange(b, c);
    let e = s.subrange(c, k);
    if a == i + 1 {
        assert(m =~= seq![45u8]);
    } else {
        assert(m =~= Seq::<u8>::empty());
    }
    if s[a] == 48 {
        assert(n =~= seq![48u8]);
    } else {
        assert(is_digit_run(n)) by {
            assert forall|x: int| 0 <= x < n.len() implies is_digit(#[trigger] n[x]) by {
                assert(n[x] == s[a + x]);
            }
        }
    }
    if frac {
        assert(is_digit_run(f.skip(1))) by {
            assert forall|x: int| 0 <= x < f.skip(1).len() implies is_digit(
                #[trigger] f.skip(1)[x],
            ) by {
                assert(f.skip(1)[x] == s[b + 1 + x]);
            }
        }
    } else {
        assert(f.len() == 0);
    }
    if exp {
        if d == c + 1 {
            assert(is_digit_run(e.skip(1))) by {
                assert forall|x: int| 0 <= x < e.skip(1).len() implies is_digit(
                    #[trigger] e.skip(1)[x],
                ) by {
                    assert(e.skip(1)[x] == s[c + 1 + x]);
                }
            }
        } else {
            assert(is_digit_run(e.skip(2))) by {
                assert forall|x: int| 0 <= x < e.skip(2).len() implies is_digit(
                    #[trigger] e.skip(2)[x],
                ) by {
                    assert(e.skip(2)[x] == s[c + 2 + x]);
                }
            }
        }
    } else {
        assert(e.len() == 0);
    }
    assert(m + n + f + e =~= s.subrange(i, k));
}

/// The reader and the number grammar agree: what it reads as a number from
/// `i` is a number by the grammar, and no longer stretch from `i` is one;
/// and a number by the grammar followed by a byte that cannot go on with a
/// number (or by the end) is read whole.
pub proof fn lemma_number_end_grammar(s: Seq<u8>, i: int)
    requires
        0 <= i <= s.len(),
    ensures
        number_end(s, i) matches Ok(k) ==> is_json_number(s.subrange(i, k)) && forall|k2: int|
            k < k2 <= s.len() ==> !is_json_number(#[trigger] s.subrange(i, k2)),
        forall|k: int|
            i <= k <= s.len() && #[trigger] is_json_number(s.subrange(i, k)) && !number_goes_on(s, k)
                ==> number_end(s, i) == Ok::<int, JsonErrorModel>(k),
{
    if number_end(s, i) is Ok {
        let k = number_end(s, i)->Ok_0;
        lemma_number_end_sound(s, i);
        lemma_number_end_advances(s, i);
        assert forall|k2: int| k < k2 <= s.len() implies !is_json_number(
            #[trigger] s.subrange(i, k2),
        ) by {
            if is_json_number(s.subrange(i, k2)) {
                let w = s.subrange(i, k2);
                lemma_number_read_whole(w);
                assert forall|x: int| i <= x < k implies #[trigger] s[x] == w[x + (-i)] by {}
                assert(w[k - i] == s[k]);
                lemma_number_end_moved(s, w, i, -i);
            }
        }
    }
    assert forall|k: int|
        i <= k <= s.len() && #[trigger] is_json_number(s.subrange(i, k)) && !number_goes_on(s, k)
        implies number_end(s, i) == Ok::<int, JsonErrorModel>(k) by {
        let w = s.subrange(i, k);
        lemma_number_read_whole(w);
        assert forall|x: int| 0 <= x < k - i implies #[trigger] w[x] == s[x + i] by {}
        lemma_number_end_moved(w, s, 0, i);
    }
}

// ── The string grammar ──────────────────────────────────────────────────────

/// The character that the escape `\e` stands for, for `e` one of `"\/bfnrt`.
pub open spec fn simple_escape(e: u8) -> Option<char> {
    if e == 34 {
        Some('"')
    } else if e == 92 {
        Some('\\')
    } else if e == 47 {
        Some('/')
    } else if e == 98 {
        Some('\x08')
    } else if e == 102 {
        Some('\x0C')
    } else if e == 110 {
        Some('\n')
    } else if e == 114 {
        Some('\r')
    } else if e == 116 {
        Some('\t')
    } else {
        None
    }
}

/// The scalar value that a high and a low surrogate name together.
pub open spec fn pair_value(high: u32, low: u32) -> u32 {
    (0x10000 + (high - 0xD800) * 1024 + (low - 0xDC00)) as u32
}

/// The character that one piece of a string literal's body stands for, if
/// it is a piece: one byte from 0x20 to 0x7F other than `"` and `\`; `\`
/// followed by one of `"\/bfnrt`; `\uXXXX` naming a scalar value; `\uXXXX`
/// `\uXXXX` naming a high and a low surrogate; or the UTF-8 encoding, two
/// bytes or more, of one character.
pub open spec fn piece_char(p: Seq<u8>) -> Option<char> {
    if p.len() == 1 && 0x20 <= p[0] < 0x80 && p[0] != 34 && p[0] != 92 {
        Some(p[0] as char)
    } else if p.len() == 2 && p[0] == 92 && simple_escape(p[1]) is Some {
        simple_escape(p[1])
    } else if p.len() == 6 && p[0] == 92 && p[1] == 117 && hex4(p, 2) is Some
        && is_scalar_value(hex4(p, 2)->Some_0) {
        Some(hex4(p, 2)->Some_0 as char)
    } else if p.len() == 12 && p[0] == 92 && p[1] == 117 && p[6] == 92 && p[7] == 117 && hex4(
        p,
        2,
    ) is Some && hex4(p, 8) is Some && 0xD800 <= hex4(p, 2)->Some_0 <= 0xDBFF && 0xDC00
        <= hex4(p, 8)->Some_0 <= 0xDFFF && is_scalar_value(
        pair_value(hex4(p, 2)->Some_0, hex4(p, 8)->Some_0),
    ) {
        Some(pair_value(hex4(p, 2)->Some_0, hex4(p, 8)->Some_0) as char)
    } else if p.len() >= 2 && valid_utf8(p) && decode_utf8(p).len() == 1 {
        Some(decode_utf8(p)[0])
    } else {
        None
    }
}

/// Every one of `ps` is a piece.
pub open spec fn all_pieces(ps: Seq<Seq<u8>>) -> bool {
    forall|j: int| 0 <= j < ps.len() ==> #[trigger] piece_char(ps[j]) is Some
}

/// The characters that the pieces `ps` stand for.
pub open spec fn pieces_text(ps: Seq<Seq<u8>>) -> Seq<char> {
    Seq::new(ps.len(), |j: int| piece_char(ps[j])->Some_0)
}

/// The string grammar: `w` is a string literal, a quote, pieces and a quote,
/// and `text` is what its pieces stand for.
pub open spec fn is_json_string(w: Seq<u8>, text: Seq<char>) -> bool {
    exists|ps: Seq<Seq<u8>>|
        all_pieces(ps) && #[trigger] pieces_text(ps) == text && w == seq![34u8] + ps.flatten()
            + seq![34u8]
}

proof fn lemma_utf8_lead(c: u8)
    ensures
        (c & 0xE0u8 == 0xC0u8) == (0xC0 <= c <= 0xDF),
        (c & 0xF0u8 == 0xE0u8) == (0xE0 <= c <= 0xEF),
        (c & 0xF8u8 == 0xF0u8) == (0xF0 <= c <= 0xF7),
{
    assert((c & 0xE0u8 == 0xC0u8) == (0xC0 <= c <= 0xDF)) by (bit_vector);
    assert((c & 0xF0u8 == 0xE0u8) == (0xE0 <= c <= 0xEF)) by (bit_vector);
    assert((c & 0xF8u8 == 0xF0u8) == (0xF0 <= c <= 0xF7)) by (bit_vector);
}

/// A valid UTF-8 sequence whose lead byte announces its whole length is one
/// character, and every such character is one.
proof fn lemma_utf8_one_char(p: Seq<u8>)
    requires
        p.len() >= 2,
    ensures
        (p[0] >= 0x80 && utf8_extra(p[0]) == Some(p.len() - 1) && valid_utf8(p)) ==> decode_utf8(
            p,
        ).len() == 1,
        (valid_utf8(p) && decode_utf8(p).len() == 1) ==> p[0] >= 0xC0 && utf8_extra(p[0]) == Some(
            p.len() - 1,
        ),
{
    lemma_utf8_lead(p[0]);
    if valid_utf8(p) {
        let w = length_of_first_scalar(p);
        let rest = pop_first_scalar(p);
        assert(rest.len() == p.len() - w);
        if rest.len() > 0 {
            assert(valid_utf8(rest));
            assert(decode_utf8(rest).len() >= 1);
        } else {
            assert(decode_utf8(rest) =~= Seq::<char>::empty());
        }
    }
}

proof fn lemma_flatten_first(ps: Seq<Seq<u8>>)
    requires
        ps.len() > 0,
    ensures
        ps.flatten() == ps[0] + ps.drop_first().flatten(),
        pieces_text(ps) == seq![piece_char(ps[0])->Some_0] + pieces_text(ps.drop_first()),
{
    assert(pieces_text(ps) =~= seq![piece_char(ps[0])->Some_0] + pieces_text(ps.drop_first()));
}

/// How many bytes the reader takes for the piece at `i` (not a quote).
spec fn reader_piece_len(s: Seq<u8>, i: int) -> int {
    let c = s[i];
    if c == 92 {
        if s[i + 1] == 117 {
            if 0xD800 <= hex4(s, i + 2)->Some_0 <= 0xDBFF {
                12
            } else {
                6
            }
        } else {
            2
        }
    } else if c < 0x80 {
        1
    } else {
        utf8_extra(c)->Some_0 + 1
    }
}

/// Reading a piece moves the reader past it and adds its character.
#[verifier::spinoff_prover]
#[verifier::rlimit(40)]
proof fn lemma_piece_step(s: Seq<u8>, i: int, acc: Seq<char>, p: Seq<u8>)
    requires
        0 <= i,
        i + p.len() <= s.len(),
        s.subrange(i, i + p.len()) == p,
        piece_char(p) is Some,
    ensures
        string_body(s, i, acc) == string_body(s, i + p.len(), acc.push(piece_char(p)->Some_0)),
{
    let n = p.len() as int;
    assert forall|y: int| 0 <= y < n implies #[trigger] s[i + y] == p[y] by {
        assert(s.subrange(i, i + n)[y] == s[i + y]);
    }
    let c = p[0];
    assert(s[i] == c);
    if n >= 2 {
        assert(s[i + 1] == p[1]);
        lemma_utf8_one_char(p);
    }
    if c >= 0x80 {
        lemma_utf8_lead(c);
        assert(s.subrange(i, i + n) == p);
        assert(acc + decode_utf8(p) =~= acc.push(decode_utf8(p)[0]));
        assert(string_body(s, i, acc) == string_body(s, i + n, acc + decode_utf8(p)));
    } else if n == 1 {
        assert(string_body(s, i, acc) == string_body(s, i + 1, acc.push(c as char)));
    } else if n == 2 {
        assert(string_body(s, i, acc) == string_body(s, i + 2, acc.push(simple_escape(p[1])->Some_0)));
    } else if n >= 6 {
        assert(s[i + 2] == p[2] && s[i + 3] == p[3] && s[i + 4] == p[4] && s[i + 5] == p[5]);
        assert(hex4(p, 2) == hex4(s, i + 2));
        if n == 12 {
            assert(s[i + 6] == p[6] && s[i + 7] == p[7]);
            assert(s[i + 8] == p[8] && s[i + 9] == p[9] && s[i + 10] == p[10] && s[i + 11] == p[11]);
            assert(hex4(p, 8) == hex4(s, i + 8));
        }
    }
}

/// What the reader takes at `i`, when it goes on reading, is a piece.
#[verifier::spinoff_prover]
#[verifier::rlimit(40)]
proof fn lemma_reader_piece(s: Seq<u8>, i: int, acc: Seq<char>)
    requires
        0 <= i < s.len(),
        s[i] != 34,
        string_body(s, i, acc) is Ok,
    ensures
        1 <= reader_piece_len(s, i),
        i + reader_piece_len(s, i) <= s.len(),
        piece_char(s.subrange(i, i + reader_piece_len(s, i))) is Some,
{
    let n = reader_piece_len(s, i);
    let c = s[i];
    lemma_string_body_advances(s, i);
    if c >= 0x80 {
        lemma_utf8_lead(c);
    }
    assert(1 <= n && i + n <= s.len());
    let p = s.subrange(i, i + n);
    assert(p[0] == c);
    if c >= 0x80 {
        lemma_utf8_one_char(p);
    } else if n >= 2 {
        assert(p[1] == s[i + 1]);
        if n >= 6 {
            assert(p[2] == s[i + 2] && p[3] == s[i + 3] && p[4] == s[i + 4] && p[5] == s[i + 5]);
            assert(hex4(p, 2) == hex4(s, i + 2));
            if n == 12 {
                assert(p[6] == s[i + 6] && p[7] == s[i + 7]);
                assert(p[8] == s[i + 8] && p[9] == s[i + 9] && p[10] == s[i + 10] && p[11] == s[i
                    + 11]);
                assert(hex4(p, 8) == hex4(s, i + 8));
            }
        }
    }
}

/// The pieces of the string body that the reader reads from `i`.
proof fn string_pieces(s: Seq<u8>, i: int, acc: Seq<char>) -> (ps: Seq<Seq<u8>>)
    requires
        0 <= i,
        string_body(s, i, acc) is Ok,
    ensures
        all_pieces(ps),
        string_body(s, i, acc)->Ok_0.0 == acc + pieces_text(ps),
        s.subrange(i, string_body(s, i, acc)->Ok_0.1 - 1) == ps.flatten(),
    decreases s.len() - i,
{
    let k = string_body(s, i, acc)->Ok_0.1;
    lemma_string_body_advances(s, i);
    if s[i] == 34 {
        assert(s.subrange(i, k - 1) =~= Seq::<u8>::empty());
        assert(acc + pieces_text(Seq::<Seq<u8>>::empty()) =~= acc);
        Seq::<Seq<u8>>::empty()
    } else {
        let n = reader_piece_len(s, i);
        lemma_reader_piece(s, i, acc);
        let p = s.subrange(i, i + n);
        let x = piece_char(p)->Some_0;
        lemma_piece_step(s, i, acc, p);
        lemma_string_body_advances(s, i + n);
        let rest = string_pieces(s, i + n, acc.push(x));
        let ps = seq![p] + rest;
        lemma_flatten_first(ps);
        assert(ps.drop_first() =~= rest);
        assert(s.subrange(i, k - 1) =~= p + s.subrange(i + n, k - 1));
        assert(acc.push(x) + pieces_text(rest) =~= acc + pieces_text(ps));
        assert(all_pieces(ps)) by {
            assert forall|j: int| 0 <= j < ps.len() implies #[trigger] piece_char(ps[j]) is Some by {
                if j > 0 {
                    assert(ps[j] == rest[j - 1]);
                }
            }
        }
        ps
    }
}

/// A body made of pieces and closed by a quote is read whole.
proof fn lemma_string_body_pieces(
    s: Seq<u8>,
    i: int,
    acc: Seq<char>,
    ps: Seq<Seq<u8>>,
    k: int,
)
    requires
        0 <= i < k <= s.len(),
        s[k - 1] == 34,
        all_pieces(ps),
        s.subrange(i, k - 1) == ps.flatten(),
    ensures
        string_body(s, i, acc) == Ok::<(Seq<char>, int), JsonErrorModel>(
            (acc + pieces_text(ps), k),
        ),
    decreases ps.len(),
{
    if ps.len() == 0 {
        assert(ps.flatten().len() == 0);
        assert(k - 1 == i);
        assert(acc + pieces_text(ps) =~= acc);
    } else {
        let p = ps[0];
        let rest = ps.drop_first();
        lemma_flatten_first(ps);
        assert(piece_char(p) is Some);
        let x = piece_char(p)->Some_0;
        let n = p.len() as int;
        assert(ps.flatten().len() == n + rest.flatten().len());
        assert(k - 1 - i == ps.flatten().len());
        assert(s.subrange(i, i + n) =~= p) by {
            assert(s.subrange(i, i + n) =~= s.subrange(i, k - 1).subrange(0, n));
        }
        assert(s.subrange(i + n, k - 1) =~= rest.flatten()) by {
            assert(s.subrange(i + n, k - 1) =~= s.subrange(i, k - 1).subrange(n, k - 1 - i));
        }
        assert(all_pieces(rest)) by {
            assert forall|j: int| 0 <= j < rest.len() implies #[trigger] piece_char(rest[j]) is Some by {
                assert(rest[j] == ps[j + 1]);
            }
        }
        lemma_piece_step(s, i, acc, p);
        lemma_string_body_pieces(s, i + n, acc.push(x), rest, k);
        assert(acc.push(x) + pieces_text(rest) =~= acc + pieces_text(ps));
    }
}

/// The reader and the string grammar agree: the body read after the opening
/// quote at `i - 1` is, with its quotes, a string literal by the grammar,
/// with the text read; and every string literal by the grammar that starts
/// at `i - 1` is read whole, with its text.
pub proof fn lemma_string_body_grammar(s: Seq<u8>, i: int)
    requires
        1 <= i <= s.len(),
        s[i - 1] == 34,
    ensures
        string_body(s, i, seq![]) matches Ok((t, k)) ==> is_json_string(s.subrange(i - 1, k), t),
        forall|t: Seq<char>, k: int|
            i < k <= s.len() && #[trigger] is_json_string(s.subrange(i - 1, k), t)
                ==> string_body(s, i, seq![]) == Ok::<(Seq<char>, int), JsonErrorModel>((t, k)),
{
    if string_body(s, i, seq![]) is Ok {
        let k = string_body(s, i, seq![])->Ok_0.1;
        lemma_string_body_advances(s, i);
        let ps = string_pieces(s, i, seq![]);
        assert(Seq::<char>::empty() + pieces_text(ps) =~= pieces_text(ps));
        assert(s.subrange(i - 1, k) =~= seq![34u8] + ps.flatten() + seq![34u8]);
    }
    assert forall|t: Seq<char>, k: int|
        i < k <= s.len() && #[trigger] is_json_string(s.subrange(i - 1, k), t) implies string_body(
        s,
        i,
        seq![],
    ) == Ok::<(Seq<char>, int), JsonErrorModel>((t, k)) by {
        let w = s.subrange(i - 1, k);
        let ps = choose|ps: Seq<Seq<u8>>|
            all_pieces(ps) && #[trigger] pieces_text(ps) == t && w == seq![34u8] + ps.flatten()
                + seq![34u8];
        assert(w.len() == ps.flatten().len() + 2);
        assert(s[k - 1] == w[w.len() - 1]);
        assert(s.subrange(i, k - 1) =~= ps.flatten()) by {
            assert forall|y: int| 0 <= y < k - 1 - i implies s.subrange(i, k - 1)[y]
                == ps.flatten()[y] by {
                assert(w[y + 1] == s[i + y]);
            }
        }
        lemma_string_body_pieces(s, i, seq![], ps, k);
        assert(Seq::<char>::empty() + pieces_text(ps) =~= t);
    }
}

// ── The lexer ───────────────────────────────────────────────────────────────

/// Reads a text byte by byte and cuts it into tokens.
pub struct Lexer<'a> {
    input: &'a [u8],
    pos: usize,
}

impl<'a> Lexer<'a> {
    /// The bytes of the text.
    pub closed spec fn text(&self) -> Seq<u8> {
        self.input@
    }

    /// The position of the next byte to read.
    pub closed spec fn position(&self) -> int {
        self.pos as int
    }

    /// The position lies within the text or just after it.
    pub closed spec fn wf(&self) -> bool {
        self.pos <= self.input@.len()
    }

    /// A lexer at the start of `input`.
    pub fn new(input: &'a str) -> (r: Self)
        ensures
            r.wf(),
            r.text() == input.spec_bytes(),
            r.position() == 0,
    {
        Lexer { input: input.as_bytes(), pos: 0 }
    }

    /// The next byte, without consuming it.
    pub fn peek(&self) -> (r: Option<u8>)
        requires
            self.wf(),
        ensures
            r == (if self.position() < self.text().len() {
                Some(self.text()[self.position()])
            } else {
                None::<u8>
            }),
    {
        if self.pos < self.input.len() {
            Some(self.input[self.pos])
        } else {
            None
        }
    }

    /// Consumes and returns the next byte.
    pub fn next_byte(&mut self) -> (r: Option<u8>)
        requires
            old(self).wf(),
        ensures
            final(self).wf(),
            final(self).text() == old(self).text(),
            r == (if old(self).position() < old(self).text().len() {
                Some(old(self).text()[old(self).position()])
            } else {
                None::<u8>
            }),
            final(self).position() == old(self).position() + if r is Some {
                1int
            } else {
                0int
            },
    {
        if self.pos < self.input.len() {
            let c = self.input[self.pos];
            self.pos = self.pos + 1;
            Some(c)
        } else {
            None
        }
    }

    /// Skips spaces, tabs, line feeds and carriage returns.
    pub fn skip_whitespace(&mut self)
        requires
            old(self).wf(),
        ensures
            final(self).wf(),
            final(self).text() == old(self).text(),
            final(self).position() == skip_ws(old(self).text(), old(self).position()),
    {
        while self.pos < self.input.len() && (self.input[self.pos] == 32 || self.input[self.pos]
            == 9 || self.input[self.pos] == 10 || self.input[self.pos] == 13)
            invariant
                self.wf(),
                self.text() == old(self).text(),
                skip_ws(self.text(), self.position()) == skip_ws(
                    old(self).text(),
                    old(self).position(),
                ),
            decreases self.input@.len() - self.pos,
        {
            self.pos = self.pos + 1;
        }
    }

    /// Reads four hexadecimal digits; `None` as soon as one is missing.
    #[verifier::loop_isolation(false)]
    fn read_hex4(&mut self) -> (r: Option<u32>)
        requires
            old(self).wf(),
        ensures
            final(self).wf(),
            final(self).text() == old(self).text(),
            r == hex4(old(self).text(), old(self).position()),
            old(self).position() <= final(self).position(),
            final(self).position() == hex_stop(old(self).text(), old(self).position(), 4),
            r is Some ==> final(self).position() == old(self).position() + 4,
    {
        let ghost s = self.text();
        let ghost start = self.position();
        let mut v: u32 = 0;
        let mut k: usize = 0;
        while k < 4
            invariant
                k <= 4,
                self.wf(),
                self.text() == s,
                self.position() == start + k,
                start + k <= s.len(),
                hex_stop(s, start, 4) == hex_stop(s, start + k, (4 - k) as nat),
                forall|j: int| start <= j < start + k ==> is_hex(#[trigger] s[j]),
                forall|j: int| start <= j < start + k ==> hex_value(#[trigger] s[j]) <= 15,
                v as int <= (if k == 0 {
                    0int
                } else if k == 1 {
                    15int
                } else if k == 2 {
                    255int
                } else if k == 3 {
                    4095int
                } else {
                    65535int
                }),
                v as int == (if k == 0 {
                    0int
                } else if k == 1 {
                    hex_value(s[start]) as int
                } else if k == 2 {
                    16 * hex_value(s[start]) + hex_value(s[start + 1])
                } else if k == 3 {
                    256 * hex_value(s[start]) + 16 * hex_value(s[start + 1]) + hex_value(
                        s[start + 2],
                    )
                } else {
                    4096 * hex_value(s[start]) + 256 * hex_value(s[start + 1]) + 16 * hex_value(
                        s[start + 2],
                    ) + hex_value(s[start + 3])
                }),
            decreases 4 - k,
        {
            match self.next_byte() {
                Some(c) => {
                    let d: u32 = if 48 <= c && c <= 57 {
                        (c - 48) as u32
                    } else if 65 <= c && c <= 70 {
                        (c - 55) as u32
                    } else if 97 <= c && c <= 102 {
                        (c - 87) as u32
                    } else {
                        return None;
                    };
                    assert(d as int == hex_value(c) as int && d <= 15);
                    v = v * 16 + d;
                    k = k + 1;
                },
                None => {
                    return None;
                },
            }
        }
        assert(is_hex(s[start]) && is_hex(s[start + 1]) && is_hex(s[start + 2]) && is_hex(
            s[start + 3],
        ));
        Some(v)
    }

    /// Reads a string literal; the next byte is its opening quote.
    #[verifier::loop_isolation(false)]
    #[verifier::rlimit(40)]
    pub fn read_string(&mut self) -> (r: Result<Token, JsonError<Token>>)
        requires
            old(self).wf(),
            old(self).position() < old(self).text().len(),
            old(self).text()[old(self).position()] == 34,
        ensures
            final(self).wf(),
            final(self).text() == old(self).text(),
            old(self).position() < final(self).position(),
            final(self).position() == string_stop(old(self).text(), old(self).position() + 1),
            r is Ok ==> final(self).text()[final(self).position() - 1] == 34,
            match string_body(old(self).text(), old(self).position() + 1, seq![]) {
                Ok((text, k)) => r matches Ok(t) && t@ == TokenModel::Str(text)
                    && final(self).position() == k,
                Err(e) => r matches Err(err) && err@ == e,
            },
    {
        let ghost s = self.text();
        let ghost start = self.position() + 1;
        self.next_byte();
        let mut acc: Vec<char> = Vec::new();
        loop
            invariant
                self.wf(),
                self.text() == s,
                start <= self.position(),
                string_body(s, start, seq![]) == string_body(s, self.position(), acc@),
                string_stop(s, start) == string_stop(s, self.position()),
            decreases s.len() - self.position(),
        {
            let ghost i = self.position();
            let ghost before = acc@;
            match self.next_byte() {
                None => {
                    return Err(JsonError::UnterminatedString);
                },
                Some(c) => {
                    if c == 34 {
                        let t = chars_to_string(&acc);
                        return Ok(Token::String(t));
                    } else if c == 92 {
                        match self.next_byte() {
                            None => {
                                return Err(JsonError::UnterminatedEscape);
                            },
                            Some(e) => {
                                if e == 34 {
                                    acc.push('"');
                                } else if e == 92 {
                                    acc.push('\\');
                                } else if e == 47 {
                                    acc.push('/');
                                } else if e == 98 {
                                    acc.push('\x08');
                                } else if e == 102 {
                                    acc.push('\x0C');
                                } else if e == 110 {
                                    acc.push('\n');
                                } else if e == 114 {
                                    acc.push('\r');
                                } else if e == 116 {
                                    acc.push('\t');
                                } else if e == 117 {
                                    let cp = match self.read_hex4() {
                                        Some(v) => v,
                                        None => {
                                            return Err(JsonError::InvalidUnicodeEscape);
                                        },
                                    };
                                    if 0xD800 <= cp && cp <= 0xDBFF {
                                        let b1 = self.next_byte();
                                        let ok1 = match b1 {
                                            Some(x) => x == 92,
                                            None => false,
                                        };
                                        if !ok1 {
                                            return Err(JsonError::ExpectedLowSurrogate);
                                        }
                                        let b2 = self.next_byte();
                                        let ok2 = match b2 {
                                            Some(x) => x == 117,
                                            None => false,
                                        };
                                        if !ok2 {
                                            return Err(JsonError::ExpectedLowSurrogate);
                                        }
                                        let low = match self.read_hex4() {
                                            Some(v) => v,
                                            None => {
                                                return Err(JsonError::InvalidUnicodeEscape);
                                            },
                                        };
                                        if !(0xDC00 <= low && low <= 0xDFFF) {
                                            return Err(JsonError::InvalidSurrogatePair);
                                        }
                                        let code: u32 = 0x10000 + (cp - 0xD800) * 1024 + (low
                                            - 0xDC00);
                                        match char_from_u32(code) {
                                            Some(ch) => {
                                                acc.push(ch);
                                            },
                                            None => {
                                                return Err(JsonError::InvalidCodePoint);
                                            },
                                        }
                                    } else if 0xDC00 <= cp && cp <= 0xDFFF {
                                        return Err(JsonError::UnexpectedLowSurrogate);
                                    } else {
                                        match char_from_u32(cp) {
                                            Some(ch) => {
                                                acc.push(ch);
                                            },
                                            None => {
                                                return Err(JsonError::InvalidCodePointValue(cp));
                                            },
                                        }
                                    }
                                } else {
                                    return Err(JsonError::InvalidEscape(e));
                                }
                            },
                        }
                    } else if c < 0x20 {
                        return Err(JsonError::ControlCharacter(c));
                    } else if c < 0x80 {
                        acc.push(c as char);
                    } else {
                        let extra: usize = if c & 0xE0u8 == 0xC0u8 {
                            1
                        } else if c & 0xF0u8 == 0xE0u8 {
                            2
                        } else if c & 0xF8u8 == 0xF0u8 {
                            3
                        } else {
                            return Err(JsonError::InvalidUtf8Byte);
                        };
                        let mut bytes: Vec<u8> = Vec::new();
                        bytes.push(c);
                        let mut t: usize = 0;
                        while t < extra
                            invariant
                                t <= extra <= 3,
                                self.wf(),
                                self.text() == s,
                                self.position() == i + 1 + t,
                                bytes@ == s.subrange(i, i + 1 + t),
                            decreases extra - t,
                        {
                            match self.next_byte() {
                                Some(b) => {
                                    bytes.push(b);
                                },
                                None => {
                                    return Err(JsonError::TruncatedUtf8);
                                },
                            }
                            t = t + 1;
                            assert(bytes@ =~= s.subrange(i, i + 1 + t));
                        }
                        match utf8_decode(bytes.as_slice()) {
                            Some(chs) => {
                                let mut k: usize = 0;
                                while k < chs.len()
                                    invariant
                                        k <= chs.len(),
                                        acc@ == before + chs@.take(k as int),
                                    decreases chs.len() - k,
                                {
                                    acc.push(chs[k]);
                                    k = k + 1;
                                    assert(acc@ =~= before + chs@.take(k as int));
                                }
                                assert(chs@.take(chs.len() as int) =~= chs@);
                            },
                            None => {
                                return Err(JsonError::InvalidUtf8);
                            },
                        }
                    }
                },
            }
        }
    }

    /// Consumes the run of digits at the current position.
    fn skip_digits(&mut self)
        requires
            old(self).wf(),
        ensures
            final(self).wf(),
            final(self).text() == old(self).text(),
            final(self).position() == digits_end(old(self).text(), old(self).position()),
            old(self).position() <= final(self).position(),
    {
        proof {
            lemma_digits_end(self.text(), self.position());
        }
        while self.pos < self.input.len() && 48 <= self.input[self.pos] && self.input[self.pos]
            <= 57
            invariant
                self.wf(),
                self.text() == old(self).text(),
                digits_end(self.text(), self.position()) == digits_end(
                    old(self).text(),
                    old(self).position(),
                ),
            decreases self.input@.len() - self.pos,
        {
            self.pos = self.pos + 1;
        }
    }

    /// Whether the current byte is a digit.
    fn at_digit(&self) -> (r: bool)
        requires
            self.wf(),
        ensures
            r == digit_at(self.text(), self.position()),
    {
        self.pos < self.input.len() && 48 <= self.input[self.pos] && self.input[self.pos] <= 57
    }

    /// Reads a number literal.
    pub fn read_number(&mut self) -> (r: Result<Token, JsonError<Token>>)
        requires
            old(self).wf(),
        ensures
            final(self).wf(),
            final(self).text() == old(self).text(),
            old(self).position() <= final(self).position(),
            final(self).position() == number_stop(old(self).text(), old(self).position()),
            match number_end(old(self).text(), old(self).position()) {
                Ok(k) => r matches Ok(t) && t@ == TokenModel::Num(
                    ascii_chars(old(self).text(), old(self).position(), k),
                ) && final(self).position() == k,
                Err(e) => r matches Err(err) && err@ == e,
            },
    {
        let ghost s = self.text();
        let start = self.pos;
        if self.pos < self.input.len() && self.input[self.pos] == 45 {
            self.next_byte();
        }
        // Integer part.
        if self.pos < self.input.len() && self.input[self.pos] == 48 {
            self.next_byte();
            if self.at_digit() {
                return Err(JsonError::LeadingZeros);
            }
        } else if self.at_digit() {
            self.skip_digits();
        } else {
            return Err(JsonError::MissingDigits);
        }
        // Fraction.
        if self.pos < self.input.len() && self.input[self.pos] == 46 {
            self.next_byte();
            if !self.at_digit() {
                return Err(JsonError::ExpectedFractionDigit);
            }
            self.skip_digits();
        }
        // Exponent.
        if self.pos < self.input.len() && (self.input[self.pos] == 101 || self.input[self.pos]
            == 69) {
            self.next_byte();
            if self.pos < self.input.len() && (self.input[self.pos] == 43 || self.input[self.pos]
                == 45) {
                self.next_byte();
            }
            if !self.at_digit() {
                return Err(JsonError::ExpectedExponentDigit);
            }
            self.skip_digits();
        }
        let end = self.pos;
        let mut chars: Vec<char> = Vec::new();
        let mut k: usize = start;
        proof {
            lemma_number_end_advances(s, start as int);
        }
        while k < end
            invariant
                start <= k <= end <= s.len(),
                self.text() == s,
                chars@ == ascii_chars(s, start as int, k as int),
            decreases end - k,
        {
            chars.push(self.input[k] as char);
            k = k + 1;
            assert(chars@ =~= ascii_chars(s, start as int, k as int));
        }
        let t = chars_to_string(&chars);
        Ok(Token::Number(t))
    }

    /// Whether the bytes of a word stand at the current position.
    fn at_word(&self, w: &[u8]) -> (r: bool)
        requires
            self.wf(),
        ensures
            r == word_at(self.text(), self.position(), w@),
    {
        if w.len() > self.input.len() - self.pos {
            return false;
        }
        let n = self.input.len();
        let mut k: usize = 0;
        while k < w.len()
            invariant
                k <= w.len(),
                n == self.input@.len(),
                self.pos + w.len() <= self.input@.len(),
                forall|j: int| 0 <= j < k ==> self.input@[self.pos + j] == w@[j],
            decreases w.len() - k,
        {
            if self.input[self.pos + k] != w[k] {
                assert(self.input@.subrange(self.pos as int, self.pos + w.len())[k as int]
                    != w@[k as int]);
                return false;
            }
            k = k + 1;
        }
        assert(self.input@.subrange(self.pos as int, self.pos + w.len()) =~= w@);
        true
    }

    /// Cuts the rest of the text into tokens.
    #[verifier::loop_isolation(false)]
    pub fn tokenize(&mut self) -> (r: Result<Vec<Token>, JsonError<Token>>)
        requires
            old(self).wf(),
        ensures
            final(self).wf(),
            final(self).text() == old(self).text(),
            old(self).position() <= final(self).position(),
            r is Ok ==> final(self).position() == final(self).text().len(),
            final(self).position() == lex_stop(old(self).text(), old(self).position()),
            match lex_from(old(self).text(), old(self).position(), seq![]) {
                Ok(ts) => r matches Ok(v) && tokens_view(v@) == ts,
                Err(e) => r matches Err(err) && err@ == e,
            },
    {
        let ghost s = self.text();
        let ghost start = self.position();
        let mut tokens: Vec<Token> = Vec::new();
        assert(tokens_view(tokens@) =~= Seq::<TokenModel>::empty());
        loop
            invariant
                self.wf(),
                self.text() == s,
                start <= self.position(),
                lex_from(s, start, seq![]) == lex_from(s, self.position(), tokens_view(tokens@)),
                lex_stop(s, start) == lex_stop(s, self.position()),
            decreases s.len() - self.position(),
        {
            let ghost i = self.position();
            let ghost tv = tokens_view(tokens@);
            proof {
                lemma_skip_ws(s, i);
            }
            self.skip_whitespace();
            let _n = self.input.len();
            let ghost j = self.position();
            match self.peek() {
                None => {
                    break;
                },
                Some(c) => {
                    if c == 123 || c == 125 || c == 91 || c == 93 || c == 58 || c == 44 {
                        self.next_byte();
                        let t = if c == 123 {
                            Token::LBrace
                        } else if c == 125 {
                            Token::RBrace
                        } else if c == 91 {
                            Token::LBracket
                        } else if c == 93 {
                            Token::RBracket
                        } else if c == 58 {
                            Token::Colon
                        } else {
                            Token::Comma
                        };
                        tokens.push(t);
                        assert(tokens_view(tokens@) =~= tv.push(t@));
                    } else if c == 34 {
                        proof {
                            lemma_string_body_advances(s, j + 1);
                        }
                        let t = match self.read_string() {
                            Ok(t) => t,
                            Err(e) => {
                                return Err(e);
                            },
                        };
                        tokens.push(t);
                        assert(tokens_view(tokens@) =~= tv.push(t@));
                    } else if c == 45 || (48 <= c && c <= 57) {
                        proof {
                            lemma_number_end_advances(s, j);
                        }
                        let t = match self.read_number() {
                            Ok(t) => t,
                            Err(e) => {
                                return Err(e);
                            },
                        };
                        tokens.push(t);
                        assert(tokens_view(tokens@) =~= tv.push(t@));
                    } else if c == 116 {
                        let w: Vec<u8> = vec![116u8, 114u8, 117u8, 101u8];
                        assert(w@ =~= word_true());
                        if self.at_word(w.as_slice()) {
                            self.pos = self.pos + 4;
                            tokens.push(Token::True);
                            assert(tokens_view(tokens@) =~= tv.push(TokenModel::True));
                        } else {
                            return Err(JsonError::InvalidToken(self.pos));
                        }
                    } else if c == 102 {
                        let w: Vec<u8> = vec![102u8, 97u8, 108u8, 115u8, 101u8];
                        assert(w@ =~= word_false());
                        if self.at_word(w.as_slice()) {
                            self.pos = self.pos + 5;
                            tokens.push(Token::False);
                            assert(tokens_view(tokens@) =~= tv.push(TokenModel::False));
                        } else {
                            return Err(JsonError::InvalidToken(self.pos));
                        }
                    } else if c == 110 {
                        let w: Vec<u8> = vec![110u8, 117u8, 108u8, 108u8];
                        assert(w@ =~= word_null());
                        if self.at_word(w.as_slice()) {
                            self.pos = self.pos + 4;
                            tokens.push(Token::Null);
                            assert(tokens_view(tokens@) =~= tv.push(TokenModel::Null));
                        } else {
                            return Err(JsonError::InvalidToken(self.pos));
                        }
                    } else {
                        return Err(JsonError::UnexpectedCharacter(c, self.pos));
                    }
                },
            }
        }
        Ok(tokens)
    }
}

} // verus!
