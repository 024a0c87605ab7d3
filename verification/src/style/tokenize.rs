//! Splitting stylesheet text into tokens.
use vstd::prelude::*;

use crate::style::{Error, ErrorV};

verus! {

/// Position of a token: its line, and its first and last column on that line.
#[derive(Debug, Clone, Copy, PartialEq, Eq, Structural)]
pub struct TokenPos {
    pub line: usize,
    pub col_start: usize,
    pub col_end: usize,
}

/// The value of a token.
#[derive(Debug, Clone, PartialEq, Eq)]
pub enum TokenValue {
    Iden(String),
    Color(String),
    Path(String),
    Number(String),
    ParenOpen,
    ParenClose,
    BraceOpen,
    BraceClose,
    Colon,
    Semi,
    Dot,
    Comma,
    Gt,
    Plus,
    Tilde,
    Star,
}

/// A token with its position in the text.
#[derive(Debug, Clone)]
pub struct Token(pub TokenValue, pub TokenPos);

/// The view of a `TokenValue`: the text of a token is taken as its characters.
pub enum TokenValueV {
    Iden(Seq<char>),
    Color(Seq<char>),
    Path(Seq<char>),
    Number(Seq<char>),
    ParenOpen,
    ParenClose,
    BraceOpen,
    BraceClose,
    Colon,
    Semi,
    Dot,
    Comma,
    Gt,
    Plus,
    Tilde,
    Star,
}

/// The view of a `Token`.
pub struct TokenV {
    pub value: TokenValueV,
    pub pos: TokenPos,
}

impl View for TokenValue {
    type V = TokenValueV;

    open spec fn view(&self) -> TokenValueV {
        match self {
            TokenValue::Iden(s) => TokenValueV::Iden(s@),
            TokenValue::Color(s) => TokenValueV::Color(s@),
            TokenValue::Path(s) => TokenValueV::Path(s@),
            TokenValue::Number(s) => TokenValueV::Number(s@),
            TokenValue::ParenOpen => TokenValueV::ParenOpen,
            TokenValue::ParenClose => TokenValueV::ParenClose,
            TokenValue::BraceOpen => TokenValueV::BraceOpen,
            TokenValue::BraceClose => TokenValueV::BraceClose,
            TokenValue::Colon => TokenValueV::Colon,
            TokenValue::Semi => TokenValueV::Semi,
            TokenValue::Dot => TokenValueV::Dot,
            TokenValue::Comma => TokenValueV::Comma,
            TokenValue::Gt => TokenValueV::Gt,
            TokenValue::Plus => TokenValueV::Plus,
            TokenValue::Tilde => TokenValueV::Tilde,
            TokenValue::Star => TokenValueV::Star,
        }
    }
}

impl View for Token {
    type V = TokenV;

    open spec fn view(&self) -> TokenV {
        TokenV { value: self.0@, pos: self.1 }
    }
}

/// The views of a sequence of tokens.
pub open spec fn tokens_view(tokens: Seq<Token>) -> Seq<TokenV> {
    tokens.map_values(|t: Token| t@)
}

/// Whether `c` has the Unicode `White_Space` property, as `char::is_whitespace` decides.
pub uninterp spec fn char_is_whitespace(c: char) -> bool;

/// Whether `c` has the Unicode `Alphabetic` property, as `char::is_alphabetic` decides.
pub uninterp spec fn char_is_alphabetic(c: char) -> bool;

/// Whether `c` is in a Unicode numeric general category, as `char::is_numeric` decides.
pub uninterp spec fn char_is_numeric(c: char) -> bool;

/// White space as `char::is_whitespace` decides it: among ASCII characters, the space and the
/// controls tab to carriage return.
pub open spec fn whitespace_class(c: char) -> bool {
    if (c as u32) < 128 {
        c == ' ' || ('\t' <= c && c <= '\r')
    } else {
        char_is_whitespace(c)
    }
}

/// Letters as `char::is_alphabetic` decides them: among ASCII characters, `a-z` and `A-Z`.
pub open spec fn alphabetic_class(c: char) -> bool {
    if (c as u32) < 128 {
        ('a' <= c && c <= 'z') || ('A' <= c && c <= 'Z')
    } else {
        char_is_alphabetic(c)
    }
}

/// Numerals as `char::is_numeric` decides them: among ASCII characters, the digits.
pub open spec fn numeric_class(c: char) -> bool {
    if (c as u32) < 128 {
        '0' <= c && c <= '9'
    } else {
        char_is_numeric(c)
    }
}

/// `char::is_whitespace`: whether the character has the Unicode `White_Space` property. Among
/// ASCII characters those are the space and the controls tab to carriage return.
#[verifier::external_body]
pub(crate) fn is_whitespace(c: char) -> (r: bool)
    ensures
        r == char_is_whitespace(c),
        r == whitespace_class(c),
{
    c.is_whitespace()
}

/// `char::is_alphabetic`: whether the character has the Unicode `Alphabetic` property. Among
/// ASCII characters those are the letters.
#[verifier::external_body]
pub(crate) fn is_alphabetic(c: char) -> (r: bool)
    ensures
        r == char_is_alphabetic(c),
        r == alphabetic_class(c),
{
    c.is_alphabetic()
}

/// `char::is_numeric`: whether the character is in a Unicode numeric general category. Among
/// ASCII characters those are the digits.
#[verifier::external_body]
pub(crate) fn is_numeric(c: char) -> (r: bool)
    ensures
        r == char_is_numeric(c),
        r == numeric_class(c),
{
    c.is_numeric()
}

/// Whether `c` is alphabetic or numeric, as `char::is_alphanumeric` is defined.
fn is_alphanumeric(c: char) -> (r: bool)
    ensures
        r == (alphabetic_class(c) || numeric_class(c)),
{
    is_alphabetic(c) || is_numeric(c)
}

/// `String::push`: appends one character.
#[verifier::external_body]
pub(crate) fn push_char(s: &mut String, c: char)
    ensures
        final(s)@ == old(s)@.push(c),
{
    s.push(c)
}

/// An ASCII hexadecimal digit: `0-9`, `a-f` or `A-F`.
pub open spec fn is_hex_digit(c: char) -> bool {
    ('0' <= c <= '9') || ('a' <= c <= 'f') || ('A' <= c <= 'F')
}

/// A character that may stand in a quoted path: an ASCII letter or digit, or one of
/// `-._~:/?#[]@!$&'()*+,;%=`.
pub open spec fn is_url_char(c: char) -> bool {
    ('A' <= c <= 'Z') || ('a' <= c <= 'z') || ('0' <= c <= '9') || c == '-' || c == '.' || c
        == '_' || c == '~' || c == ':' || c == '/' || c == '?' || c == '#' || c == '[' || c == ']'
        || c == '@' || c == '!' || c == '$' || c == '&' || c == '\'' || c == '(' || c == ')' || c
        == '*' || c == '+' || c == ',' || c == ';' || c == '%' || c == '='
}

/// The characters that a quoted path may hold, as a list.
pub open spec fn url_characters() -> Seq<char> {
    "ABCDEFGHIJKLMNOPQRSTUVWXYZabcdefghijklmnopqrstuvwxyz0123456789-._~:/?#[]@!$&'()*+,;%="@
}

/// A character may stand in a quoted path exactly when it is in the list of path characters.
pub proof fn lemma_url_characters(c: char)
    ensures
        is_url_char(c) <==> url_characters().contains(c),
{
    reveal_strlit(
        "ABCDEFGHIJKLMNOPQRSTUVWXYZabcdefghijklmnopqrstuvwxyz0123456789-._~:/?#[]@!$&'()*+,;%=",
    );
    let s = url_characters();
    assert(s.len() == 85);
    if s.contains(c) {
        let i = choose|i: int| 0 <= i < s.len() && s[i] == c;
        assert(is_url_char(s[i]));
    }
    if is_url_char(c) {
        let i: int = if 'A' <= c <= 'Z' {
            c as int - 'A' as int
        } else if 'a' <= c <= 'z' {
            c as int - 'a' as int + 26
        } else if '0' <= c <= '9' {
            c as int - '0' as int + 52
        } else if c == '-' {
            62
        } else if c == '.' {
            63
        } else if c == '_' {
            64
        } else if c == '~' {
            65
        } else if c == ':' {
            66
        } else if c == '/' {
            67
        } else if c == '?' {
            68
        } else if c == '#' {
            69
        } else if c == '[' {
            70
        } else if c == ']' {
            71
        } else if c == '@' {
            72
        } else if c == '!' {
            73
        } else if c == '$' {
            74
        } else if c == '&' {
            75
        } else if c == '\'' {
            76
        } else if c == '(' {
            77
        } else if c == ')' {
            78
        } else if c == '*' {
            79
        } else if c == '+' {
            80
        } else if c == ',' {
            81
        } else if c == ';' {
            82
        } else if c == '%' {
            83
        } else {
            84
        };
        assert(s[i] == c);
    }
}

/// The characters that a number may hold, as a list.
pub open spec fn number_characters() -> Seq<char> {
    "0123456789."@
}

/// The characters of a colour, as a list.
pub open spec fn hex_characters() -> Seq<char> {
    "0123456789abcdefABCDEF"@
}

/// A character may stand in a number exactly when it is in the list of number characters, and
/// in a colour exactly when it is in the list of hexadecimal digits.
pub proof fn lemma_number_and_hex_characters(c: char)
    ensures
        is_number_char(c) <==> number_characters().contains(c),
        is_hex_digit(c) <==> hex_characters().contains(c),
{
    reveal_strlit("0123456789.");
    reveal_strlit("0123456789abcdefABCDEF");
    let d = number_characters();
    let h = hex_characters();
    assert(d.len() == 11);
    assert(h.len() == 22);
    if d.contains(c) {
        let i = choose|i: int| 0 <= i < d.len() && d[i] == c;
        assert(is_number_char(d[i]));
    }
    if h.contains(c) {
        let i = choose|i: int| 0 <= i < h.len() && h[i] == c;
        assert(is_hex_digit(h[i]));
    }
    if is_number_char(c) {
        let i: int = if c == '.' {
            10
        } else {
            c as int - '0' as int
        };
        assert(d[i] == c);
    }
    if is_hex_digit(c) {
        let i: int = if '0' <= c <= '9' {
            c as int - '0' as int
        } else if 'a' <= c <= 'f' {
            c as int - 'a' as int + 10
        } else {
            c as int - 'A' as int + 16
        };
        assert(h[i] == c);
    }
}

/// A character that may stand in a number: an ASCII digit or `.`.
pub open spec fn is_number_char(c: char) -> bool {
    ('0' <= c <= '9') || c == '.'
}

fn hex_digit(c: char) -> (r: bool)
    ensures
        r == is_hex_digit(c),
{
    ('0' <= c && c <= '9') || ('a' <= c && c <= 'f') || ('A' <= c && c <= 'F')
}

fn url_char(c: char) -> (r: bool)
    ensures
        r == is_url_char(c),
{
    ('A' <= c && c <= 'Z') || ('a' <= c && c <= 'z') || ('0' <= c && c <= '9') || c == '-' || c
        == '.' || c == '_' || c == '~' || c == ':' || c == '/' || c == '?' || c == '#' || c == '['
        || c == ']' || c == '@' || c == '!' || c == '$' || c == '&' || c == '\'' || c == '(' || c
        == ')' || c == '*' || c == '+' || c == ',' || c == ';' || c == '%' || c == '='
}

fn number_char(c: char) -> (r: bool)
    ensures
        r == is_number_char(c),
{
    ('0' <= c && c <= '9') || c == '.'
}

/// What offering a character to the token being read does.
pub enum Extend {
    /// The character belongs to the token, which becomes the given one.
    Accepted(TokenV),
    /// The character closes the token (a quoted path), and is not kept.
    Finished,
    /// The character does not belong to the token.
    NotAccepted,
}

/// Offers `ch` to the token being read.
pub open spec fn extend_spec(t: TokenV, ch: char) -> Extend {
    let grown = TokenPos { col_end: (t.pos.col_end + 1) as usize, ..t.pos };
    match t.value {
        TokenValueV::Iden(s) => if alphabetic_class(ch) || numeric_class(ch) || ch == '_' || ch
            == '-' {
            Extend::Accepted(TokenV { value: TokenValueV::Iden(s.push(ch)), pos: grown })
        } else {
            Extend::NotAccepted
        },
        TokenValueV::Color(s) => if is_hex_digit(ch) {
            Extend::Accepted(TokenV { value: TokenValueV::Color(s.push(ch)), pos: grown })
        } else {
            Extend::NotAccepted
        },
        TokenValueV::Path(s) => if is_url_char(ch) {
            Extend::Accepted(TokenV { value: TokenValueV::Path(s.push(ch)), pos: grown })
        } else if ch == '"' {
            Extend::Finished
        } else {
            Extend::NotAccepted
        },
        TokenValueV::Number(s) => if is_number_char(ch) {
            Extend::Accepted(TokenV { value: TokenValueV::Number(s.push(ch)), pos: grown })
        } else {
            Extend::NotAccepted
        },
        _ => Extend::NotAccepted,
    }
}

/// The token that a character starts, where it starts none of the growing ones: `None` for
/// characters that start nothing (white space, line breaks), `Some(None)` for characters that
/// are not part of the language.
pub open spec fn start_spec(ch: char) -> Option<Option<TokenValueV>> {
    if ch == '\n' || whitespace_class(ch) {
        None
    } else if alphabetic_class(ch) || ch == '_' || ch == '-' {
        Some(Some(TokenValueV::Iden(seq![ch])))
    } else if numeric_class(ch) {
        Some(Some(TokenValueV::Number(seq![ch])))
    } else if ch == '#' {
        Some(Some(TokenValueV::Color(Seq::empty())))
    } else if ch == '"' {
        Some(Some(TokenValueV::Path(Seq::empty())))
    } else if ch == '(' {
        Some(Some(TokenValueV::ParenOpen))
    } else if ch == ')' {
        Some(Some(TokenValueV::ParenClose))
    } else if ch == '{' {
        Some(Some(TokenValueV::BraceOpen))
    } else if ch == '}' {
        Some(Some(TokenValueV::BraceClose))
    } else if ch == ':' {
        Some(Some(TokenValueV::Colon))
    } else if ch == ';' {
        Some(Some(TokenValueV::Semi))
    } else if ch == '.' {
        Some(Some(TokenValueV::Dot))
    } else if ch == ',' {
        Some(Some(TokenValueV::Comma))
    } else if ch == '>' {
        Some(Some(TokenValueV::Gt))
    } else if ch == '+' {
        Some(Some(TokenValueV::Plus))
    } else if ch == '~' {
        Some(Some(TokenValueV::Tilde))
    } else if ch == '*' {
        Some(Some(TokenValueV::Star))
    } else {
        Some(None)
    }
}

/// The character of a punctuation token.
pub open spec fn punct_char_of(v: TokenValueV) -> Option<char> {
    match v {
        TokenValueV::ParenOpen => Some('('),
        TokenValueV::ParenClose => Some(')'),
        TokenValueV::BraceOpen => Some('{'),
        TokenValueV::BraceClose => Some('}'),
        TokenValueV::Colon => Some(':'),
        TokenValueV::Semi => Some(';'),
        TokenValueV::Dot => Some('.'),
        TokenValueV::Comma => Some(','),
        TokenValueV::Gt => Some('>'),
        TokenValueV::Plus => Some('+'),
        TokenValueV::Tilde => Some('~'),
        TokenValueV::Star => Some('*'),
        _ => None,
    }
}

/// Punctuation: a character starts a punctuation token exactly when it is that token's own
/// character.
pub proof fn lemma_punctuation(c: char, v: TokenValueV)
    requires
        punct_char_of(v) is Some,
    ensures
        start_spec(c) == Some(Some(v)) <==> punct_char_of(v) == Some(c),
{
}

/// The state of the tokenizer between two characters.
pub struct LexState {
    pub line: nat,
    pub col: nat,
    pub current: Option<TokenV>,
    pub tokens: Seq<TokenV>,
}

/// The tokens read so far, with the one still being read.
pub open spec fn flushed(tokens: Seq<TokenV>, current: Option<TokenV>) -> Seq<TokenV> {
    match current {
        Some(t) => tokens.push(t),
        None => tokens,
    }
}

/// The message for a character outside the language.
pub open spec fn unexpected_message(ch: char) -> Seq<char> {
    "Unexpected character '"@ + seq![ch] + "'"@
}

/// Reads one character: the column advances, the token being read takes the character or is
/// finished, and an unaccepted character starts a new token at its own column, ends the line,
/// or is refused.
pub open spec fn lex_step(st: LexState, ch: char) -> Result<LexState, ErrorV> {
    let col = st.col + 1;
    let ext = match st.current {
        Some(t) => extend_spec(t, ch),
        None => Extend::NotAccepted,
    };
    match ext {
        Extend::Accepted(t) => Ok(LexState { col, current: Some(t), ..st }),
        Extend::Finished => Ok(
            LexState { col, current: None, tokens: flushed(st.tokens, st.current), ..st },
        ),
        Extend::NotAccepted => {
            let tokens = flushed(st.tokens, st.current);
            let pos = TokenPos { line: st.line as usize, col_start: col as usize, col_end: col as usize };
            if ch == '\n' {
                Ok(LexState { line: st.line + 1, col: 0, current: None, tokens })
            } else {
                match start_spec(ch) {
                    None => Ok(LexState { line: st.line, col, current: None, tokens }),
                    Some(Some(v)) => Ok(
                        LexState { line: st.line, col, current: Some(TokenV { value: v, pos }), tokens },
                    ),
                    Some(None) => Err(ErrorV::Syntax(unexpected_message(ch), pos)),
                }
            }
        },
    }
}

/// The state after reading `chars` from the start of a text.
pub open spec fn lex(chars: Seq<char>) -> Result<LexState, ErrorV>
    decreases chars.len(),
{
    if chars.len() == 0 {
        Ok(LexState { line: 1, col: 0, current: None, tokens: Seq::empty() })
    } else {
        match lex(chars.drop_last()) {
            Ok(st) => lex_step(st, chars.last()),
            Err(e) => Err(e),
        }
    }
}

/// The tokens of a text, or the error for its first character outside the language.
pub open spec fn tokenize_spec(chars: Seq<char>) -> Result<Seq<TokenV>, ErrorV> {
    match lex(chars) {
        Ok(st) => Ok(flushed(st.tokens, st.current)),
        Err(e) => Err(e),
    }
}

proof fn lemma_lex_bounds(chars: Seq<char>)
    requires
        chars.len() < usize::MAX,
    ensures
        lex(chars) matches Ok(st) ==> {
            &&& 1 <= st.line <= chars.len() + 1
            &&& st.col <= chars.len()
            &&& st.current matches Some(t) ==> t.pos.col_end == st.col && t.pos.col_start
                <= t.pos.col_end
        },
    decreases chars.len(),
{
    if chars.len() > 0 {
        lemma_lex_bounds(chars.drop_last());
    }
}

/// The state after `"` and path characters, read in a state `st` whose token is not a path:
/// the token before is finished, and the token being read is a path holding those characters,
/// from the column of the quote to that of the last character.
proof fn lemma_lex_path_body(pre: Seq<char>, st: LexState, p: Seq<char>)
    requires
        pre.len() + p.len() + 3 < usize::MAX,
        lex(pre) == Ok::<LexState, ErrorV>(st),
        forall|t: TokenV| st.current == Some(t) ==> !(t.value is Path),
        forall|k: int| 0 <= k < p.len() ==> url_characters().contains(#[trigger] p[k]),
    ensures
        lex(pre + seq!['"'] + p) == Ok::<LexState, ErrorV>(
            LexState {
                line: st.line,
                col: st.col + 1 + p.len(),
                current: Some(
                    TokenV {
                        value: TokenValueV::Path(p),
                        pos: TokenPos {
                            line: st.line as usize,
                            col_start: (st.col + 1) as usize,
                            col_end: (st.col + 1 + p.len()) as usize,
                        },
                    },
                ),
                tokens: flushed(st.tokens, st.current),
            },
        ),
    decreases p.len(),
{
    lemma_lex_bounds(pre);
    if p.len() == 0 {
        assert((pre + seq!['"'] + p).drop_last() =~= pre);
        assert((pre + seq!['"'] + p).last() == '"');
        assert(p =~= Seq::<char>::empty());
    } else {
        let q = p.drop_last();
        lemma_lex_path_body(pre, st, q);
        assert((pre + seq!['"'] + p).drop_last() =~= pre + seq!['"'] + q);
        assert((pre + seq!['"'] + p).last() == p.last());
        lemma_url_characters(p.last());
        assert(url_characters().contains(p[p.len() - 1]));
        assert(q.push(p.last()) =~= p);
    }
}

/// A quoted path made of path characters reads as one path token with exactly that text, when
/// it follows text that leaves no path open: the token read before it, if any, is finished
/// first, and nothing of the path is cut off or read as another token.
pub proof fn lemma_quoted_path(pre: Seq<char>, st: LexState, p: Seq<char>)
    requires
        pre.len() + p.len() + 3 < usize::MAX,
        lex(pre) == Ok::<LexState, ErrorV>(st),
        forall|t: TokenV| st.current == Some(t) ==> !(t.value is Path),
        forall|k: int| 0 <= k < p.len() ==> url_characters().contains(#[trigger] p[k]),
    ensures
        tokenize_spec(pre + seq!['"'] + p + seq!['"']) == Ok::<Seq<TokenV>, ErrorV>(
            flushed(st.tokens, st.current).push(
                TokenV {
                    value: TokenValueV::Path(p),
                    pos: TokenPos {
                        line: st.line as usize,
                        col_start: (st.col + 1) as usize,
                        col_end: (st.col + 1 + p.len()) as usize,
                    },
                },
            ),
        ),
        tokenize_spec(seq!['"'] + p + seq!['"']) == Ok::<Seq<TokenV>, ErrorV>(
            seq![
                TokenV {
                    value: TokenValueV::Path(p),
                    pos: TokenPos { line: 1, col_start: 1, col_end: (1 + p.len()) as usize },
                },
            ],
        ),
{
    lemma_lex_path_body(pre, st, p);
    let whole = pre + seq!['"'] + p + seq!['"'];
    assert(whole.drop_last() =~= pre + seq!['"'] + p);
    assert(whole.last() == '"');
    let empty = Seq::<char>::empty();
    let st0 = LexState { line: 1, col: 0, current: None, tokens: Seq::<TokenV>::empty() };
    assert(lex(empty) == Ok::<LexState, ErrorV>(st0));
    lemma_lex_path_body(empty, st0, p);
    let alone = seq!['"'] + p + seq!['"'];
    assert(alone.drop_last() =~= empty + seq!['"'] + p);
    assert(alone.last() == '"');
}

enum ExtendResult {
    Accepted,
    Finished,
    NotAccepted,
}

impl Token {
    fn extend(&mut self, ch: char) -> (r: ExtendResult)
        requires
            old(self).1.col_end < usize::MAX,
        ensures
            match extend_spec(old(self)@, ch) {
                Extend::Accepted(t) => r is Accepted && final(self)@ == t,
                Extend::Finished => r is Finished && final(self)@ == old(self)@,
                Extend::NotAccepted => r is NotAccepted && final(self)@ == old(self)@,
            },
    {
        match self {
            Token(TokenValue::Iden(s), pos) => {
                if is_alphanumeric(ch) || ch == '_' || ch == '-' {
                    pos.col_end += 1;
                    push_char(s, ch);
                    ExtendResult::Accepted
                } else {
                    ExtendResult::NotAccepted
                }
            },
            Token(TokenValue::Color(p), pos) => {
                if hex_digit(ch) {
                    pos.col_end += 1;
                    push_char(p, ch);
                    ExtendResult::Accepted
                } else {
                    ExtendResult::NotAccepted
                }
            },
            Token(TokenValue::Path(p), pos) => {
                if url_char(ch) {
                    pos.col_end += 1;
                    push_char(p, ch);
                    ExtendResult::Accepted
                } else if ch == '"' {
                    ExtendResult::Finished
                } else {
                    ExtendResult::NotAccepted
                }
            },
            Token(TokenValue::Number(n), pos) => {
                if number_char(ch) {
                    pos.col_end += 1;
                    push_char(n, ch);
                    ExtendResult::Accepted
                } else {
                    ExtendResult::NotAccepted
                }
            },
            _ => ExtendResult::NotAccepted,
        }
    }
}

/// A string holding one character.
fn char_string(c: char) -> (s: String)
    ensures
        s@ == seq![c],
{
    let mut s = String::new();
    push_char(&mut s, c);
    s
}

/// Splits a stylesheet text into tokens.
pub fn tokenize(text: String) -> (r: Result<Vec<Token>, Error>)
    requires
        text@.len() < usize::MAX,
    ensures
        match (r, tokenize_spec(text@)) {
            (Ok(tokens), Ok(expected)) => tokens_view(tokens@) == expected,
            (Err(e), Err(expected)) => e@ == expected,
            _ => false,
        },
{
    let mut line: usize = 1;
    let mut col: usize = 0;

    let mut current: Option<Token> = None;
    let mut tokens: Vec<Token> = Vec::new();

    let ghost chars = text@;
    let mut i: usize = 0;
    for chr in it: text.as_str().chars()
        invariant
            chars == text@,
            it.seq() == chars,
            chars.len() < usize::MAX,
            i == it.index(),
            lex(chars.take(i as int)) matches Ok(st) && st.line == line && st.col == col && st.tokens
                == tokens_view(tokens@) && st.current == (match current {
                Some(t) => Some(t@),
                None => None::<TokenV>,
            }),
    {
        proof {
            assert(chars.take(i + 1).drop_last() =~= chars.take(i as int));
            assert(chars.take(i + 1).last() == chr);
            lemma_lex_bounds(chars.take(i as int));
        }
        col += 1;

        let extended = match &mut current {
            Some(current) => current.extend(chr),
            None => ExtendResult::NotAccepted,
        };
        match extended {
            ExtendResult::Accepted => (),
            ExtendResult::Finished => {
                if let Some(t) = current.take() {
                    tokens.push(t);
                }
            },
            ExtendResult::NotAccepted => {
                if let Some(t) = current.take() {
                    tokens.push(t);
                }
                let pos = TokenPos { col_start: col, col_end: col, line };

                current = if chr == '\n' {
                    line += 1;
                    col = 0;
                    None
                } else if is_whitespace(chr) {
                    None
                } else if is_alphabetic(chr) || chr == '_' || chr == '-' {
                    Some(Token(TokenValue::Iden(char_string(chr)), pos))
                } else if is_numeric(chr) {
                    Some(Token(TokenValue::Number(char_string(chr)), pos))
                } else if chr == '#' {
                    Some(Token(TokenValue::Color(String::new()), pos))
                } else if chr == '"' {
                    Some(Token(TokenValue::Path(String::new()), pos))
                } else if chr == '(' {
                    Some(Token(TokenValue::ParenOpen, pos))
                } else if chr == ')' {
                    Some(Token(TokenValue::ParenClose, pos))
                } else if chr == '{' {
                    Some(Token(TokenValue::BraceOpen, pos))
                } else if chr == '}' {
                    Some(Token(TokenValue::BraceClose, pos))
                } else if chr == ':' {
                    Some(Token(TokenValue::Colon, pos))
                } else if chr == ';' {
                    Some(Token(TokenValue::Semi, pos))
                } else if chr == '.' {
                    Some(Token(TokenValue::Dot, pos))
                } else if chr == ',' {
                    Some(Token(TokenValue::Comma, pos))
                } else if chr == '>' {
                    Some(Token(TokenValue::Gt, pos))
                } else if chr == '+' {
                    Some(Token(TokenValue::Plus, pos))
                } else if chr == '~' {
                    Some(Token(TokenValue::Tilde, pos))
                } else if chr == '*' {
                    Some(Token(TokenValue::Star, pos))
                } else {
                    let mut msg = String::from_str("Unexpected character '");
                    push_char(&mut msg, chr);
                    msg.append("'");
                    proof {
                        reveal_strlit("Unexpected character '");
                        reveal_strlit("'");
                        assert(msg@ =~= unexpected_message(chr));
                        assert(lex(chars.take(i + 1)) == Err::<LexState, ErrorV>(
                            ErrorV::Syntax(unexpected_message(chr), pos),
                        ));
                        lemma_lex_error_persists(chars, i + 1);
                    }
                    return Err(Error::Syntax(msg, pos));
                };
            },
        }
        proof {
            assert(tokens_view(tokens@) =~= lex(chars.take(i + 1))->Ok_0.tokens);
        }
        i += 1;
    }
    if let Some(t) = current {
        tokens.push(t);
    }
    proof {
        assert(chars.take(i as int) =~= chars);
        assert(tokens_view(tokens@) =~= tokenize_spec(chars)->Ok_0);
    }
    Ok(tokens)
}

/// Once a prefix of the text is refused, the whole text is refused with the same error.
proof fn lemma_lex_error_persists(chars: Seq<char>, n: int)
    requires
        0 <= n <= chars.len(),
        lex(chars.take(n)) is Err,
    ensures
        lex(chars) == lex(chars.take(n)),
    decreases chars.len() - n,
{
    if n < chars.len() {
        assert(chars.take(n + 1).drop_last() =~= chars.take(n));
        lemma_lex_error_persists(chars, n + 1);
    } else {
        assert(chars.take(n) =~= chars);
    }
}

} // verus!
