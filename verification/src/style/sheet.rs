//! Plain stylesheets, as `Style::load` reads them: selectors made of element names and
//! `.class`es, each followed by `{ key: value ... }` with no separator between rules.
//!
//! Numbers are kept as their text for the caller to read as floating point values, and images
//! and fonts are named by their url for the caller to load.
use vstd::prelude::*;

use crate::layout::{Align, TextWrap};
use crate::style::parse::{
    align_named, color_at, lower_text, parse_color, text_wrap_name, to_lowercase, BackgroundValue,
    BackgroundValueV, HexColor, TokenProvider,
};
use crate::style::tokenize::{
    alphabetic_class, is_alphabetic, is_numeric, is_whitespace, numeric_class, push_char,
    whitespace_class, Token, TokenPos, TokenV, TokenValue, TokenValueV,
};
use crate::style::{chars_of, str_eq, ErrorV};

verus! {

/// A token of a plain stylesheet.
#[derive(Debug, Clone, PartialEq, Eq)]
pub enum SheetToken {
    Identifier(String),
    /// `.name`, without the dot.
    Class(String),
    /// `"text"`, without the quotes.
    Text(String),
    Number(String),
    /// `#digits`, without the `#`.
    Color(String),
    /// `(`
    BraceOpen,
    /// `)`
    BraceClose,
    /// `{`
    CurlyOpen,
    /// `}`
    CurlyClose,
    Colon,
    Semi,
    Comma,
}

/// The view of a `SheetToken`.
pub enum SheetTokenV {
    Identifier(Seq<char>),
    Class(Seq<char>),
    Text(Seq<char>),
    Number(Seq<char>),
    Color(Seq<char>),
    BraceOpen,
    BraceClose,
    CurlyOpen,
    CurlyClose,
    Colon,
    Semi,
    Comma,
}

impl View for SheetToken {
    type V = SheetTokenV;

    open spec fn view(&self) -> SheetTokenV {
        match self {
            SheetToken::Identifier(s) => SheetTokenV::Identifier(s@),
            SheetToken::Class(s) => SheetTokenV::Class(s@),
            SheetToken::Text(s) => SheetTokenV::Text(s@),
            SheetToken::Number(s) => SheetTokenV::Number(s@),
            SheetToken::Color(s) => SheetTokenV::Color(s@),
            SheetToken::BraceOpen => SheetTokenV::BraceOpen,
            SheetToken::BraceClose => SheetTokenV::BraceClose,
            SheetToken::CurlyOpen => SheetTokenV::CurlyOpen,
            SheetToken::CurlyClose => SheetTokenV::CurlyClose,
            SheetToken::Colon => SheetTokenV::Colon,
            SheetToken::Semi => SheetTokenV::Semi,
            SheetToken::Comma => SheetTokenV::Comma,
        }
    }
}

/// The views of a sequence of tokens.
pub open spec fn sheet_tokens_view(t: Seq<SheetToken>) -> Seq<SheetTokenV> {
    t.map_values(|x: SheetToken| x@)
}

/// The view of a token, if there is one.
pub open spec fn opt_view(o: Option<SheetToken>) -> Option<SheetTokenV> {
    match o {
        Some(t) => Some(t@),
        None => None,
    }
}

/// The token that a punctuation character stands for.
pub open spec fn punct(c: char) -> Option<SheetTokenV> {
    if c == '(' {
        Some(SheetTokenV::BraceOpen)
    } else if c == ')' {
        Some(SheetTokenV::BraceClose)
    } else if c == '{' {
        Some(SheetTokenV::CurlyOpen)
    } else if c == '}' {
        Some(SheetTokenV::CurlyClose)
    } else if c == ':' {
        Some(SheetTokenV::Colon)
    } else if c == ';' {
        Some(SheetTokenV::Semi)
    } else if c == ',' {
        Some(SheetTokenV::Comma)
    } else {
        None
    }
}

/// The token being read with `c` appended, where a token of its kind takes it: letters go into
/// names, classes, texts and colours; digits into those and numbers; `-` and `_` into names,
/// classes and texts; `.` into texts and numbers; `#` into texts.
pub open spec fn extend(cur: Option<SheetTokenV>, c: char) -> Option<SheetTokenV> {
    let letter = alphabetic_class(c);
    let digit = !letter && numeric_class(c);
    let dash = !letter && !digit && (c == '-' || c == '_');
    let dot = !letter && !digit && c == '.';
    let hash = !letter && !digit && c == '#';
    match cur {
        Some(SheetTokenV::Identifier(s)) => if letter || digit || dash {
            Some(SheetTokenV::Identifier(s.push(c)))
        } else {
            None
        },
        Some(SheetTokenV::Class(s)) => if letter || digit || dash {
            Some(SheetTokenV::Class(s.push(c)))
        } else {
            None
        },
        Some(SheetTokenV::Text(s)) => if letter || digit || dash || dot || hash {
            Some(SheetTokenV::Text(s.push(c)))
        } else {
            None
        },
        Some(SheetTokenV::Color(s)) => if letter || digit {
            Some(SheetTokenV::Color(s.push(c)))
        } else {
            None
        },
        Some(SheetTokenV::Number(s)) => if digit || dot {
            Some(SheetTokenV::Number(s.push(c)))
        } else {
            None
        },
        _ => None,
    }
}

/// Reading one character: the token it completes, if any, and the token read from then on.
/// `None` for a character that starts no token. A line break ends no token.
pub open spec fn char_step(cur: Option<SheetTokenV>, c: char) -> Option<(Option<SheetTokenV>, Option<SheetTokenV>)> {
    if c == '\n' {
        Some((None, cur))
    } else if extend(cur, c) is Some {
        Some((None, extend(cur, c)))
    } else if alphabetic_class(c) || c == '-' || c == '_' {
        Some((cur, Some(SheetTokenV::Identifier(seq![c]))))
    } else if numeric_class(c) {
        Some((cur, Some(SheetTokenV::Number(seq![c]))))
    } else if c == '.' {
        Some((cur, Some(SheetTokenV::Class(Seq::empty()))))
    } else if c == '#' {
        Some((cur, Some(SheetTokenV::Color(Seq::empty()))))
    } else if c == '"' {
        if cur matches Some(SheetTokenV::Text(_)) {
            Some((cur, None))
        } else {
            Some((cur, Some(SheetTokenV::Text(Seq::empty()))))
        }
    } else if punct(c) is Some {
        Some((cur, punct(c)))
    } else if whitespace_class(c) {
        Some((cur, None))
    } else {
        None
    }
}

/// The tokens completed by the characters `s`, and the token being read after them; `None`
/// where a character starts no token.
pub open spec fn scan(s: Seq<char>) -> Option<(Seq<SheetTokenV>, Option<SheetTokenV>)>
    decreases s.len(),
{
    if s.len() == 0 {
        Some((Seq::empty(), None))
    } else {
        match scan(s.drop_last()) {
            None => None,
            Some((out, cur)) => match char_step(cur, s.last()) {
                None => None,
                Some((done, next)) => Some(
                    (
                        match done {
                            Some(t) => out.push(t),
                            None => out,
                        },
                        next,
                    ),
                ),
            },
        }
    }
}

/// The tokens of a plain stylesheet: those the characters complete, then the one being read at
/// the end. `None` where a character starts no token.
pub open spec fn sheet_tokens_spec(s: Seq<char>) -> Option<Seq<SheetTokenV>> {
    match scan(s) {
        None => None,
        Some((out, cur)) => Some(
            match cur {
                Some(t) => out.push(t),
                None => out,
            },
        ),
    }
}

/// Once a character starts no token, no longer text scans either.
proof fn lemma_scan_none(s: Seq<char>, k: int)
    requires
        0 <= k <= s.len(),
        scan(s.take(k)) is None,
    ensures
        scan(s) is None,
    decreases s.len() - k,
{
    if k < s.len() {
        assert(s.take(k + 1).drop_last() =~= s.take(k));
        lemma_scan_none(s, k + 1);
    } else {
        assert(s.take(k) =~= s);
    }
}

/// The token with `c` appended; see `extend`.
fn extend_token(cur: &mut Option<SheetToken>, c: char) -> (r: bool)
    ensures
        r == (extend(opt_view(*old(cur)), c) is Some),
        r ==> opt_view(*final(cur)) == extend(opt_view(*old(cur)), c),
        !r ==> *final(cur) == *old(cur),
{
    let letter = is_alphabetic(c);
    let digit = !letter && is_numeric(c);
    let dash = !letter && !digit && (c == '-' || c == '_');
    let dot = !letter && !digit && c == '.';
    let hash = !letter && !digit && c == '#';
    match cur {
        Some(SheetToken::Identifier(s)) => if letter || digit || dash {
            push_char(s, c);
            true
        } else {
            false
        },
        Some(SheetToken::Class(s)) => if letter || digit || dash {
            push_char(s, c);
            true
        } else {
            false
        },
        Some(SheetToken::Text(s)) => if letter || digit || dash || dot || hash {
            push_char(s, c);
            true
        } else {
            false
        },
        Some(SheetToken::Color(s)) => if letter || digit {
            push_char(s, c);
            true
        } else {
            false
        },
        Some(SheetToken::Number(s)) => if digit || dot {
            push_char(s, c);
            true
        } else {
            false
        },
        _ => false,
    }
}

/// The token that a punctuation character stands for; see `punct`.
fn punct_token(c: char) -> (r: Option<SheetToken>)
    ensures
        opt_view(r) == punct(c),
{
    if c == '(' {
        Some(SheetToken::BraceOpen)
    } else if c == ')' {
        Some(SheetToken::BraceClose)
    } else if c == '{' {
        Some(SheetToken::CurlyOpen)
    } else if c == '}' {
        Some(SheetToken::CurlyClose)
    } else if c == ':' {
        Some(SheetToken::Colon)
    } else if c == ';' {
        Some(SheetToken::Semi)
    } else if c == ',' {
        Some(SheetToken::Comma)
    } else {
        None
    }
}

/// Puts `next` in place of the token being read, and gives the one that was there.
fn swap_token(cur: &mut Option<SheetToken>, next: Option<SheetToken>) -> (r: Option<SheetToken>)
    ensures
        r == *old(cur),
        *final(cur) == next,
{
    let mut next = next;
    std::mem::swap(cur, &mut next);
    next
}

/// A token holding the one character `c`.
fn one_char(c: char) -> (r: String)
    ensures
        r@ == seq![c],
{
    let mut s = String::new();
    push_char(&mut s, c);
    proof {
        assert(s@ =~= seq![c]);
    }
    s
}

/// Splits a plain stylesheet into tokens; `Err` with the first character that starts no token.
pub fn sheet_tokens(text: &str) -> (r: Result<Vec<SheetToken>, char>)
    ensures
        match sheet_tokens_spec(text@) {
            Some(t) => r matches Ok(v) && sheet_tokens_view(v@) == t,
            None => r is Err,
        },
{
    let chars = chars_of(text);
    let mut out: Vec<SheetToken> = Vec::new();
    let mut cur: Option<SheetToken> = None;
    let mut i: usize = 0;
    while i < chars.len()
        invariant
            chars@ == text@,
            i <= chars@.len(),
            scan(chars@.take(i as int)) == Some((sheet_tokens_view(out@), opt_view(cur))),
        decreases chars@.len() - i,
    {
        let c = chars[i];
        let ghost before = opt_view(cur);
        let ghost out0 = out@;
        proof {
            assert(chars@.take(i + 1).drop_last() =~= chars@.take(i as int));
            assert(chars@.take(i + 1).last() == c);
        }
        let mut done: Option<SheetToken> = None;
        if c == '\n' {
        } else if extend_token(&mut cur, c) {
        } else if is_alphabetic(c) || c == '-' || c == '_' {
            done = swap_token(&mut cur, Some(SheetToken::Identifier(one_char(c))));
        } else if is_numeric(c) {
            done = swap_token(&mut cur, Some(SheetToken::Number(one_char(c))));
        } else if c == '.' {
            done = swap_token(&mut cur, Some(SheetToken::Class(String::new())));
        } else if c == '#' {
            done = swap_token(&mut cur, Some(SheetToken::Color(String::new())));
        } else if c == '"' {
            let text_open = match &cur {
                Some(SheetToken::Text(_)) => true,
                _ => false,
            };
            if text_open {
                done = swap_token(&mut cur, None);
            } else {
                done = swap_token(&mut cur, Some(SheetToken::Text(String::new())));
            }
        } else {
            match punct_token(c) {
                Some(p) => {
                    done = swap_token(&mut cur, Some(p));
                },
                None => {
                    if is_whitespace(c) {
                        done = swap_token(&mut cur, None);
                    } else {
                        proof {
                            assert(char_step(before, c) is None);
                            assert(scan(chars@.take(i + 1)) is None);
                            lemma_scan_none(chars@, i + 1);
                        }
                        return Err(c);
                    }
                },
            }
        }
        let ghost done_v = opt_view(done);
        match done {
            Some(t) => out.push(t),
            None => {},
        }
        proof {
            assert(Seq::<char>::empty().push(c) =~= seq![c]);
            let step = char_step(before, c);
            assert(step is Some);
            let (d, n) = step->Some_0;
            assert(opt_view(cur) == n);
            assert(done_v == d);
            if let Some(t) = done_v {
                assert(sheet_tokens_view(out@) =~= sheet_tokens_view(out0).push(t));
            } else {
                assert(sheet_tokens_view(out@) =~= sheet_tokens_view(out0));
            }
        }
        i += 1;
    }
    proof {
        assert(chars@.take(i as int) =~= text@);
    }
    let ghost out0 = out@;
    let ghost cur_v = opt_view(cur);
    match cur {
        Some(t) => out.push(t),
        None => {},
    }
    proof {
        assert(sheet_tokens_view(out@) =~= match cur_v {
            Some(t) => sheet_tokens_view(out0).push(t),
            None => sheet_tokens_view(out0),
        });
    }
    Ok(out)
}

// ---------------------------------------------------------------------------------------------
// Rules
// ---------------------------------------------------------------------------------------------
/// Errors met while reading a plain stylesheet.
#[derive(Debug, Clone, PartialEq, Eq)]
pub enum SheetError {
    /// A character that starts no token.
    Character(char),
    /// A token that does not fit where it stands, or the end of the text where more was expected.
    Syntax(String),
    /// A colour that is no hexadecimal number of 3, 4, 6 or 8 digits.
    Color(String),
}

/// The view of a `SheetError`.
pub enum SheetErrorV {
    Character(char),
    Syntax(Seq<char>),
    Color(Seq<char>),
}

impl View for SheetError {
    type V = SheetErrorV;

    open spec fn view(&self) -> SheetErrorV {
        match self {
            SheetError::Character(c) => SheetErrorV::Character(*c),
            SheetError::Syntax(m) => SheetErrorV::Syntax(m@),
            SheetError::Color(m) => SheetErrorV::Color(m@),
        }
    }
}

/// The properties whose value is a background.
#[derive(Debug, Clone, Copy, PartialEq, Eq, Structural)]
pub enum BackgroundSlot {
    Background,
    Hover,
    Pressed,
    Disabled,
    Checked,
    ScrollbarHorizontal,
    ScrollbarVertical,
}

/// A side of a rectangle.
#[derive(Debug, Clone, Copy, PartialEq, Eq, Structural)]
pub enum Side {
    Left,
    Top,
    Right,
    Bottom,
}

/// A size: `shrink`, `fill(<number>)` or a number, the numbers kept as their text.
#[derive(Debug, Clone, PartialEq, Eq)]
pub enum SheetSize {
    Shrink,
    Fill(String),
    Exact(String),
}

/// The view of a `SheetSize`.
pub enum SheetSizeV {
    Shrink,
    Fill(Seq<char>),
    Exact(Seq<char>),
}

impl View for SheetSize {
    type V = SheetSizeV;

    open spec fn view(&self) -> SheetSizeV {
        match self {
            SheetSize::Shrink => SheetSizeV::Shrink,
            SheetSize::Fill(n) => SheetSizeV::Fill(n@),
            SheetSize::Exact(n) => SheetSizeV::Exact(n@),
        }
    }
}

/// One rule of a plain stylesheet: a property and its value.
#[derive(Debug, Clone, PartialEq, Eq)]
pub enum SheetRule {
    Background(BackgroundSlot, BackgroundValue),
    /// The url of a font.
    Font(String),
    Color(HexColor),
    /// The sides of the padding that are set, in order, with the text of their number.
    Padding(Vec<(Side, String)>),
    TextSize(String),
    TextWrap(TextWrap),
    Width(SheetSize),
    Height(SheetSize),
    AlignHorizontal(Align),
    AlignVertical(Align),
}

/// The view of a `SheetRule`.
pub enum SheetRuleV {
    Background(BackgroundSlot, BackgroundValueV),
    Font(Seq<char>),
    Color(HexColor),
    Padding(Seq<(Side, Seq<char>)>),
    TextSize(Seq<char>),
    TextWrap(TextWrap),
    Width(SheetSizeV),
    Height(SheetSizeV),
    AlignHorizontal(Align),
    AlignVertical(Align),
}

/// The views of the sides of a padding.
pub open spec fn sides_view(v: Seq<(Side, String)>) -> Seq<(Side, Seq<char>)> {
    v.map_values(|p: (Side, String)| (p.0, p.1@))
}

impl View for SheetRule {
    type V = SheetRuleV;

    open spec fn view(&self) -> SheetRuleV {
        match self {
            SheetRule::Background(k, b) => SheetRuleV::Background(*k, b@),
            SheetRule::Font(u) => SheetRuleV::Font(u@),
            SheetRule::Color(c) => SheetRuleV::Color(*c),
            SheetRule::Padding(v) => SheetRuleV::Padding(sides_view(v@)),
            SheetRule::TextSize(n) => SheetRuleV::TextSize(n@),
            SheetRule::TextWrap(w) => SheetRuleV::TextWrap(*w),
            SheetRule::Width(s) => SheetRuleV::Width(s@),
            SheetRule::Height(s) => SheetRuleV::Height(s@),
            SheetRule::AlignHorizontal(a) => SheetRuleV::AlignHorizontal(*a),
            SheetRule::AlignVertical(a) => SheetRuleV::AlignVertical(*a),
        }
    }
}

/// A selector of a plain stylesheet: the element names and classes it asks for, and its rules.
#[derive(Debug, Clone, PartialEq, Eq)]
pub struct SheetSelector {
    pub elements: Vec<String>,
    pub classes: Vec<String>,
    pub rules: Vec<SheetRule>,
}

/// The view of a `SheetSelector`.
pub struct SheetSelectorV {
    pub elements: Seq<Seq<char>>,
    pub classes: Seq<Seq<char>>,
    pub rules: Seq<SheetRuleV>,
}

/// The views of names.
pub open spec fn names_view(v: Seq<String>) -> Seq<Seq<char>> {
    v.map_values(|s: String| s@)
}

/// The views of rules.
pub open spec fn rules_view(v: Seq<SheetRule>) -> Seq<SheetRuleV> {
    v.map_values(|r: SheetRule| r@)
}

impl View for SheetSelector {
    type V = SheetSelectorV;

    open spec fn view(&self) -> SheetSelectorV {
        SheetSelectorV {
            elements: names_view(self.elements@),
            classes: names_view(self.classes@),
            rules: rules_view(self.rules@),
        }
    }
}

/// Token `i`, if there is one.
pub open spec fn tok_at(t: Seq<SheetTokenV>, i: int) -> Option<SheetTokenV> {
    if 0 <= i < t.len() {
        Some(t[i])
    } else {
        None
    }
}

/// The name a punctuation token is reported by.
pub open spec fn punct_name(v: SheetTokenV) -> Seq<char> {
    match v {
        SheetTokenV::BraceOpen => "BraceOpen"@,
        SheetTokenV::BraceClose => "BraceClose"@,
        SheetTokenV::CurlyOpen => "CurlyOpen"@,
        SheetTokenV::CurlyClose => "CurlyClose"@,
        SheetTokenV::Colon => "Colon"@,
        SheetTokenV::Semi => "Semi"@,
        _ => "Comma"@,
    }
}

/// Token `i`, which must be the punctuation `want`; the position after it.
pub open spec fn take_spec(t: Seq<SheetTokenV>, i: int, want: SheetTokenV) -> Result<int, SheetErrorV> {
    match tok_at(t, i) {
        None => Err(SheetErrorV::Syntax("Expected '"@ + punct_name(want) + "' at end of file"@)),
        Some(x) => if x == want {
            Ok(i + 1)
        } else {
            Err(SheetErrorV::Syntax("Expected '"@ + punct_name(want) + "'"@))
        },
    }
}

/// The message for a token that does not fit.
pub open spec fn unexpected() -> Seq<char> {
    "Unexpected token"@
}

/// The message for the end of the text where a value was expected.
pub open spec fn value_end() -> Seq<char> {
    "Unexpected end of file while parsing font"@
}

/// A number, by its text.
pub open spec fn float_spec(t: Seq<SheetTokenV>, i: int) -> Result<(Seq<char>, int), SheetErrorV> {
    match tok_at(t, i) {
        Some(SheetTokenV::Number(n)) => Ok((n, i + 1)),
        Some(_) => Err(SheetErrorV::Syntax(unexpected())),
        None => Err(SheetErrorV::Syntax(value_end())),
    }
}

/// A colour token read into its channels.
pub open spec fn color_spec(t: Option<SheetTokenV>) -> Result<HexColor, SheetErrorV> {
    match t {
        Some(SheetTokenV::Color(s)) => match color_at(
            seq![TokenV { value: TokenValueV::Color(s), pos: TokenPos { line: 0, col_start: 0, col_end: 0 } }],
            0,
        ) {
            Ok(h) => Ok(h),
            Err(ErrorV::Syntax(m, _)) => Err(SheetErrorV::Color(m)),
            Err(ErrorV::Eof) => Err(SheetErrorV::Color(Seq::empty())),
        },
        _ => Err(SheetErrorV::Syntax("Expected 'color'"@)),
    }
}

/// `image(<url>, <color>)` or `patch(<url>, <color>)` from token `i`, the keyword: the url, the
/// colour and the position after the `)`.
pub open spec fn framed_spec(t: Seq<SheetTokenV>, i: int) -> Result<(Seq<char>, HexColor, int), SheetErrorV> {
    match take_spec(t, i + 1, SheetTokenV::BraceOpen) {
        Err(e) => Err(e),
        Ok(_) => match tok_at(t, i + 2) {
            Some(SheetTokenV::Text(url)) => match take_spec(t, i + 3, SheetTokenV::Comma) {
                Err(e) => Err(e),
                Ok(_) => match color_spec(tok_at(t, i + 4)) {
                    Err(e) => Err(e),
                    Ok(c) => match take_spec(t, i + 5, SheetTokenV::BraceClose) {
                        Err(e) => Err(e),
                        Ok(_) => Ok((url, c, i + 6)),
                    },
                },
            },
            _ => Err(SheetErrorV::Syntax("Expected url"@)),
        },
    }
}

/// A background: `none`, `image(<url>, <color>)` or `patch(<url>, <color>)` with the keyword in
/// any case, or a colour.
pub open spec fn background_spec(t: Seq<SheetTokenV>, i: int) -> Result<(BackgroundValueV, int), SheetErrorV> {
    match tok_at(t, i) {
        Some(SheetTokenV::Identifier(ty)) => {
            let l = lower_text(ty);
            if l == "none"@ {
                Ok((BackgroundValueV::Clear, i + 1))
            } else if l == "image"@ {
                match framed_spec(t, i) {
                    Err(e) => Err(e),
                    Ok((u, c, j)) => Ok((BackgroundValueV::Image(u, c), j)),
                }
            } else if l == "patch"@ {
                match framed_spec(t, i) {
                    Err(e) => Err(e),
                    Ok((u, c, j)) => Ok((BackgroundValueV::Patch(u, c), j)),
                }
            } else {
                Err(SheetErrorV::Syntax(l + " is not a background type"@))
            }
        },
        Some(SheetTokenV::Color(s)) => match color_spec(Some(SheetTokenV::Color(s))) {
            Err(e) => Err(e),
            Ok(c) => Ok((BackgroundValueV::Color(c), i + 1)),
        },
        Some(_) => Err(SheetErrorV::Syntax(unexpected())),
        None => Err(SheetErrorV::Syntax("Unexpected end of file while parsing background"@)),
    }
}

/// The sides of a padding from token `i` on, after its `(`: `side: <number>` repeated, up to and
/// including the `)`; with the sides read before, in order.
pub open spec fn sides_spec(t: Seq<SheetTokenV>, i: int, acc: Seq<(Side, Seq<char>)>) -> Result<
    (Seq<(Side, Seq<char>)>, int),
    SheetErrorV,
>
    decreases t.len() - i,
{
    match tok_at(t, i) {
        Some(SheetTokenV::Identifier(f)) => match take_spec(t, i + 1, SheetTokenV::Colon) {
            Err(e) => Err(e),
            Ok(_) => {
                let side = if f == "left"@ {
                    Some(Side::Left)
                } else if f == "top"@ {
                    Some(Side::Top)
                } else if f == "right"@ {
                    Some(Side::Right)
                } else if f == "bottom"@ {
                    Some(Side::Bottom)
                } else {
                    None
                };
                match side {
                    None => Err(SheetErrorV::Syntax("unknown field '"@ + f + "' for rectangle"@)),
                    Some(sd) => match float_spec(t, i + 2) {
                        Err(e) => Err(e),
                        Ok((n, _)) => sides_spec(t, i + 3, acc.push((sd, n))),
                    },
                }
            },
        },
        Some(SheetTokenV::BraceClose) => Ok((acc, i + 1)),
        Some(_) => Err(SheetErrorV::Syntax(unexpected())),
        None => Err(SheetErrorV::Syntax("Unexpected end of file while parsing rectangle"@)),
    }
}

/// The field of a padding rectangle that sets a side.
pub open spec fn side_field(sd: Side) -> Seq<char> {
    match sd {
        Side::Left => "left"@,
        Side::Top => "top"@,
        Side::Right => "right"@,
        Side::Bottom => "bottom"@,
    }
}

/// Reading the sides of a padding: a field named after a side, a colon and a number give that
/// side that number, and reading goes on after the number; a `)` after it ends the rectangle.
/// So `(bottom: 4)` sets the bottom side, and each of the four fields sets its own side.
pub proof fn lemma_sides_fields(
    t: Seq<SheetTokenV>,
    i: int,
    acc: Seq<(Side, Seq<char>)>,
    sd: Side,
    n: Seq<char>,
)
    requires
        0 <= i,
        i + 3 <= t.len(),
        t[i] == SheetTokenV::Identifier(side_field(sd)),
        t[i + 1] == SheetTokenV::Colon,
        t[i + 2] == SheetTokenV::Number(n),
    ensures
        sides_spec(t, i, acc) == sides_spec(t, i + 3, acc.push((sd, n))),
        i + 3 < t.len() && t[i + 3] == SheetTokenV::BraceClose ==> sides_spec(t, i, acc) == Ok::<
            (Seq<(Side, Seq<char>)>, int),
            SheetErrorV,
        >((acc.push((sd, n)), i + 4)),
{
    reveal_strlit("left");
    reveal_strlit("top");
    reveal_strlit("right");
    reveal_strlit("bottom");
    assert("left"@.len() == 4 && "left"@[0] == 'l');
    assert("top"@.len() == 3 && "top"@[0] == 't');
    assert("right"@.len() == 5 && "right"@[0] == 'r');
    assert("bottom"@.len() == 6 && "bottom"@[0] == 'b');
    if i + 3 < t.len() && t[i + 3] == SheetTokenV::BraceClose {
        assert(sides_spec(t, i + 3, acc.push((sd, n))) == Ok::<
            (Seq<(Side, Seq<char>)>, int),
            SheetErrorV,
        >((acc.push((sd, n)), i + 4)));
    }
}

/// A text wrapping strategy, in any case.
pub open spec fn wrap_spec(t: Seq<SheetTokenV>, i: int) -> Result<TextWrap, SheetErrorV> {
    match tok_at(t, i) {
        Some(SheetTokenV::Identifier(ty)) => {
            let l = lower_text(ty);
            if l == "no-wrap"@ {
                Ok(TextWrap::NoWrap)
            } else if l == "word-wrap"@ {
                Ok(TextWrap::WordWrap)
            } else if l == "wrap"@ {
                Ok(TextWrap::Wrap)
            } else {
                Err(SheetErrorV::Syntax(l + " is not one of no-wrap, word-wrap or wrap"@))
            }
        },
        Some(_) => Err(SheetErrorV::Syntax(unexpected())),
        None => Err(SheetErrorV::Syntax(value_end())),
    }
}

/// An alignment: `begin`, `left` or `top`; `center`; `end`, `right` or `bottom`, in any case.
pub open spec fn align_spec(t: Seq<SheetTokenV>, i: int) -> Result<Align, SheetErrorV> {
    match tok_at(t, i) {
        Some(SheetTokenV::Identifier(ty)) => {
            let l = lower_text(ty);
            if l == "begin"@ || l == "left"@ || l == "top"@ {
                Ok(Align::Begin)
            } else if l == "center"@ {
                Ok(Align::Center)
            } else if l == "end"@ || l == "right"@ || l == "bottom"@ {
                Ok(Align::End)
            } else {
                Err(SheetErrorV::Syntax(l + " is not one of begin, center or end"@))
            }
        },
        Some(_) => Err(SheetErrorV::Syntax(unexpected())),
        None => Err(SheetErrorV::Syntax(value_end())),
    }
}

/// A size: `shrink` or `fill(<number>)` in any case, or a number.
pub open spec fn size_spec(t: Seq<SheetTokenV>, i: int) -> Result<(SheetSizeV, int), SheetErrorV> {
    match tok_at(t, i) {
        Some(SheetTokenV::Identifier(ty)) => {
            let l = lower_text(ty);
            if l == "shrink"@ {
                Ok((SheetSizeV::Shrink, i + 1))
            } else if l == "fill"@ {
                match take_spec(t, i + 1, SheetTokenV::BraceOpen) {
                    Err(e) => Err(e),
                    Ok(_) => match float_spec(t, i + 2) {
                        Err(e) => Err(e),
                        Ok((n, _)) => match take_spec(t, i + 3, SheetTokenV::BraceClose) {
                            Err(e) => Err(e),
                            Ok(_) => Ok((SheetSizeV::Fill(n), i + 4)),
                        },
                    },
                }
            } else {
                Err(SheetErrorV::Syntax(l + " is not one of begin, center or end"@))
            }
        },
        Some(SheetTokenV::Number(n)) => Ok((SheetSizeV::Exact(n), i + 1)),
        Some(_) => Err(SheetErrorV::Syntax(unexpected())),
        None => Err(SheetErrorV::Syntax(value_end())),
    }
}

/// The background slot a key names.
pub open spec fn slot_of(key: Seq<char>) -> Option<BackgroundSlot> {
    if key == "background"@ {
        Some(BackgroundSlot::Background)
    } else if key == "hover"@ {
        Some(BackgroundSlot::Hover)
    } else if key == "pressed"@ {
        Some(BackgroundSlot::Pressed)
    } else if key == "disabled"@ {
        Some(BackgroundSlot::Disabled)
    } else if key == "checked"@ {
        Some(BackgroundSlot::Checked)
    } else if key == "scrollbar-horizontal"@ {
        Some(BackgroundSlot::ScrollbarHorizontal)
    } else if key == "scrollbar-vertical"@ {
        Some(BackgroundSlot::ScrollbarVertical)
    } else {
        None
    }
}

/// The property name of a background slot.
pub open spec fn slot_name(b: BackgroundSlot) -> Seq<char> {
    match b {
        BackgroundSlot::Background => "background"@,
        BackgroundSlot::Hover => "hover"@,
        BackgroundSlot::Pressed => "pressed"@,
        BackgroundSlot::Disabled => "disabled"@,
        BackgroundSlot::Checked => "checked"@,
        BackgroundSlot::ScrollbarHorizontal => "scrollbar-horizontal"@,
        BackgroundSlot::ScrollbarVertical => "scrollbar-vertical"@,
    }
}

/// Keyword values of plain stylesheets: each background slot is set under its own name, and an
/// identifier whose lower case text is the keyword of a text wrapping strategy or of an
/// alignment reads as that very value.
pub proof fn lemma_sheet_keywords(
    t: Seq<SheetTokenV>,
    i: int,
    ty: Seq<char>,
    b: BackgroundSlot,
    w: TextWrap,
    a: Align,
)
    requires
        0 <= i < t.len(),
        t[i] == SheetTokenV::Identifier(ty),
    ensures
        slot_of(slot_name(b)) == Some(b),
        lower_text(ty) == text_wrap_name(w) ==> wrap_spec(t, i) == Ok::<TextWrap, SheetErrorV>(w),
        align_named(a, lower_text(ty)) ==> align_spec(t, i) == Ok::<Align, SheetErrorV>(a),
{
    reveal_strlit("background");
    reveal_strlit("hover");
    reveal_strlit("pressed");
    reveal_strlit("disabled");
    reveal_strlit("checked");
    reveal_strlit("scrollbar-horizontal");
    reveal_strlit("scrollbar-vertical");
    reveal_strlit("no-wrap");
    reveal_strlit("wrap");
    reveal_strlit("word-wrap");
    reveal_strlit("begin");
    reveal_strlit("left");
    reveal_strlit("top");
    reveal_strlit("center");
    reveal_strlit("end");
    reveal_strlit("right");
    reveal_strlit("bottom");
    assert("background"@.len() == 10);
    assert("hover"@.len() == 5);
    assert("pressed"@.len() == 7 && "pressed"@[0] == 'p');
    assert("disabled"@.len() == 8);
    assert("checked"@.len() == 7 && "checked"@[0] == 'c');
    assert("scrollbar-horizontal"@.len() == 20);
    assert("scrollbar-vertical"@.len() == 18);
    assert("no-wrap"@.len() == 7);
    assert("wrap"@.len() == 4);
    assert("word-wrap"@.len() == 9);
    assert("begin"@.len() == 5 && "begin"@[0] == 'b');
    assert("left"@.len() == 4);
    assert("top"@.len() == 3 && "top"@[0] == 't');
    assert("center"@.len() == 6 && "center"@[0] == 'c');
    assert("end"@.len() == 3 && "end"@[0] == 'e');
    assert("right"@.len() == 5 && "right"@[0] == 'r');
    assert("bottom"@.len() == 6 && "bottom"@[0] == 'b');
    match b {
        BackgroundSlot::Background => assert(slot_of("background"@) == Some(b)),
        BackgroundSlot::Hover => assert(slot_of("hover"@) == Some(b)),
        BackgroundSlot::Pressed => assert(slot_of("pressed"@) == Some(b)),
        BackgroundSlot::Disabled => assert(slot_of("disabled"@) == Some(b)),
        BackgroundSlot::Checked => assert(slot_of("checked"@) == Some(b)),
        BackgroundSlot::ScrollbarHorizontal => assert(slot_of("scrollbar-horizontal"@) == Some(b)),
        BackgroundSlot::ScrollbarVertical => assert(slot_of("scrollbar-vertical"@) == Some(b)),
    }
}

/// The character of a punctuation token of plain stylesheets.
pub open spec fn punct_char(v: SheetTokenV) -> Option<char> {
    match v {
        SheetTokenV::BraceOpen => Some('('),
        SheetTokenV::BraceClose => Some(')'),
        SheetTokenV::CurlyOpen => Some('{'),
        SheetTokenV::CurlyClose => Some('}'),
        SheetTokenV::Colon => Some(':'),
        SheetTokenV::Semi => Some(';'),
        SheetTokenV::Comma => Some(','),
        _ => None,
    }
}

/// Punctuation of plain stylesheets: a character reads as a punctuation token exactly when it
/// is that token's own character.
pub proof fn lemma_sheet_punctuation(c: char, v: SheetTokenV)
    ensures
        punct(c) == Some(v) <==> punct_char(v) == Some(c),
{
}

/// The value of property `key` from token `j` on.
pub open spec fn value_spec(t: Seq<SheetTokenV>, key: Seq<char>, j: int) -> Result<(SheetRuleV, int), SheetErrorV> {
    if slot_of(key) is Some {
        match background_spec(t, j) {
            Err(e) => Err(e),
            Ok((b, k)) => Ok((SheetRuleV::Background(slot_of(key)->Some_0, b), k)),
        }
    } else if key == "font"@ {
        match tok_at(t, j) {
            Some(SheetTokenV::Text(u)) => Ok((SheetRuleV::Font(u), j + 1)),
            Some(_) => Err(SheetErrorV::Syntax(unexpected())),
            None => Err(SheetErrorV::Syntax(value_end())),
        }
    } else if key == "color"@ {
        match color_spec(tok_at(t, j)) {
            Err(e) => Err(e),
            Ok(c) => Ok((SheetRuleV::Color(c), j + 1)),
        }
    } else if key == "padding"@ {
        match take_spec(t, j, SheetTokenV::BraceOpen) {
            Err(e) => Err(e),
            Ok(_) => match sides_spec(t, j + 1, Seq::empty()) {
                Err(e) => Err(e),
                Ok((v, k)) => Ok((SheetRuleV::Padding(v), k)),
            },
        }
    } else if key == "text-size"@ {
        match float_spec(t, j) {
            Err(e) => Err(e),
            Ok((n, k)) => Ok((SheetRuleV::TextSize(n), k)),
        }
    } else if key == "text-wrap"@ {
        match wrap_spec(t, j) {
            Err(e) => Err(e),
            Ok(w) => Ok((SheetRuleV::TextWrap(w), j + 1)),
        }
    } else if key == "width"@ {
        match size_spec(t, j) {
            Err(e) => Err(e),
            Ok((s, k)) => Ok((SheetRuleV::Width(s), k)),
        }
    } else if key == "height"@ {
        match size_spec(t, j) {
            Err(e) => Err(e),
            Ok((s, k)) => Ok((SheetRuleV::Height(s), k)),
        }
    } else if key == "align-horizontal"@ {
        match align_spec(t, j) {
            Err(e) => Err(e),
            Ok(a) => Ok((SheetRuleV::AlignHorizontal(a), j + 1)),
        }
    } else if key == "align-vertical"@ {
        match align_spec(t, j) {
            Err(e) => Err(e),
            Ok(a) => Ok((SheetRuleV::AlignVertical(a), j + 1)),
        }
    } else {
        Err(SheetErrorV::Syntax("Key "@ + key + " not recognized"@))
    }
}

/// A rule `key: value` from token `i` on.
pub open spec fn rule_spec(t: Seq<SheetTokenV>, i: int) -> Result<(SheetRuleV, int), SheetErrorV> {
    match tok_at(t, i) {
        Some(SheetTokenV::Identifier(key)) => match take_spec(t, i + 1, SheetTokenV::Colon) {
            Err(e) => Err(e),
            Ok(_) => value_spec(t, key, i + 2),
        },
        Some(_) => Err(SheetErrorV::Syntax("Expected identifier at start of rule"@)),
        None => Err(SheetErrorV::Syntax("Unexpected end of file parsing rule"@)),
    }
}


/// Token `i`, if there is one.
fn token_at(t: &Vec<SheetToken>, i: usize) -> (r: Option<&SheetToken>)
    ensures
        match tok_at(sheet_tokens_view(t@), i as int) {
            Some(v) => r matches Some(x) && x@ == v,
            None => r is None,
        },
        t@.len() <= usize::MAX,
{
    if i < t.len() {
        Some(&t[i])
    } else {
        None
    }
}

/// Joins a message from its parts.
fn message(a: &str, b: &str, c: &str) -> (r: String)
    ensures
        r@ == a@ + b@ + c@,
{
    let mut m = String::from_str(a);
    m.append(b);
    m.append(c);
    m
}

/// Joins a message from two parts.
fn message2(a: &str, b: &str) -> (r: String)
    ensures
        r@ == a@ + b@,
{
    let mut m = String::from_str(a);
    m.append(b);
    m
}

/// The name a punctuation token is reported by; see `punct_name`.
fn punct_text(v: &SheetToken) -> (r: &'static str)
    ensures
        r@ == punct_name(v@),
{
    match v {
        SheetToken::BraceOpen => "BraceOpen",
        SheetToken::BraceClose => "BraceClose",
        SheetToken::CurlyOpen => "CurlyOpen",
        SheetToken::CurlyClose => "CurlyClose",
        SheetToken::Colon => "Colon",
        SheetToken::Semi => "Semi",
        _ => "Comma",
    }
}

/// Whether two tokens are the same punctuation.
fn same_punct(a: &SheetToken, b: &SheetToken) -> (r: bool)
    requires
        !(a@ is Identifier || a@ is Class || a@ is Text || a@ is Number || a@ is Color),
    ensures
        r == (a@ == b@),
{
    match (a, b) {
        (SheetToken::BraceOpen, SheetToken::BraceOpen) => true,
        (SheetToken::BraceClose, SheetToken::BraceClose) => true,
        (SheetToken::CurlyOpen, SheetToken::CurlyOpen) => true,
        (SheetToken::CurlyClose, SheetToken::CurlyClose) => true,
        (SheetToken::Colon, SheetToken::Colon) => true,
        (SheetToken::Semi, SheetToken::Semi) => true,
        (SheetToken::Comma, SheetToken::Comma) => true,
        _ => false,
    }
}

/// Token `i`, which must be the punctuation `want`; see `take_spec`.
fn take(t: &Vec<SheetToken>, i: usize, want: SheetToken) -> (r: Result<usize, SheetError>)
    requires
        !(want@ is Identifier || want@ is Class || want@ is Text || want@ is Number || want@ is Color),
    ensures
        match take_spec(sheet_tokens_view(t@), i as int, want@) {
            Ok(j) => r == Ok::<usize, SheetError>(j as usize) && j <= t@.len(),
            Err(e) => r matches Err(x) && x@ == e,
        },
{
    match token_at(t, i) {
        None => Err(SheetError::Syntax(message("Expected '", punct_text(&want), "' at end of file"))),
        Some(x) => if same_punct(&want, x) {
            Ok(i + 1)
        } else {
            Err(SheetError::Syntax(message("Expected '", punct_text(&want), "'")))
        },
    }
}

/// A number, by its text; see `float_spec`.
fn read_float(t: &Vec<SheetToken>, i: usize) -> (r: Result<(String, usize), SheetError>)
    ensures
        match float_spec(sheet_tokens_view(t@), i as int) {
            Ok((n, j)) => r matches Ok(x) && x.0@ == n && x.1 == j,
            Err(e) => r matches Err(x) && x@ == e,
        },
{
    match token_at(t, i) {
        Some(SheetToken::Number(n)) => Ok((n.clone(), i + 1)),
        Some(_) => Err(SheetError::Syntax(String::from_str("Unexpected token"))),
        None => Err(SheetError::Syntax(String::from_str("Unexpected end of file while parsing font"))),
    }
}

/// A colour token read into its channels; see `color_spec`.
fn read_color(tok: Option<&SheetToken>) -> (r: Result<HexColor, SheetError>)
    ensures
        match color_spec(match tok { Some(x) => Some(x@), None => None }) {
            Ok(h) => r == Ok::<HexColor, SheetError>(h),
            Err(e) => r matches Err(x) && x@ == e,
        },
{
    match tok {
        Some(SheetToken::Color(s)) => {
            let pos = TokenPos { line: 0, col_start: 0, col_end: 0 };
            let mut p = TokenProvider::new(vec![Token(TokenValue::Color(s.clone()), pos)]);
            proof {
                assert(p.rest() =~= seq![TokenV { value: TokenValueV::Color(s@), pos }]);
            }
            match parse_color(&mut p) {
                Ok(h) => Ok(h),
                Err(crate::style::Error::Syntax(m, _)) => Err(SheetError::Color(m)),
                Err(crate::style::Error::Eof) => Err(SheetError::Color(String::new())),
            }
        },
        _ => Err(SheetError::Syntax(String::from_str("Expected 'color'"))),
    }
}

/// `image(<url>, <color>)` or `patch(<url>, <color>)` from the keyword at `i`; see
/// `framed_spec`.
fn read_framed(t: &Vec<SheetToken>, i: usize) -> (r: Result<(String, HexColor, usize), SheetError>)
    requires
        i < t@.len(),
    ensures
        match framed_spec(sheet_tokens_view(t@), i as int) {
            Ok((u, c, j)) => r matches Ok(x) && x.0@ == u && x.1 == c && x.2 == j,
            Err(e) => r matches Err(x) && x@ == e,
        },
{
    let len = t.len();
    proof {
        assert(len == t@.len());
    }
    match take(t, i + 1, SheetToken::BraceOpen) {
        Err(e) => return Err(e),
        Ok(_) => {},
    }
    let url = match token_at(t, i + 2) {
        Some(SheetToken::Text(u)) => u.clone(),
        _ => return Err(SheetError::Syntax(String::from_str("Expected url"))),
    };
    match take(t, i + 3, SheetToken::Comma) {
        Err(e) => return Err(e),
        Ok(_) => {},
    }
    let c = match read_color(token_at(t, i + 4)) {
        Err(e) => return Err(e),
        Ok(c) => c,
    };
    match take(t, i + 5, SheetToken::BraceClose) {
        Err(e) => return Err(e),
        Ok(_) => {},
    }
    Ok((url, c, i + 6))
}

/// A background; see `background_spec`.
fn read_background(t: &Vec<SheetToken>, i: usize) -> (r: Result<(BackgroundValue, usize), SheetError>)
    ensures
        match background_spec(sheet_tokens_view(t@), i as int) {
            Ok((b, j)) => r matches Ok(x) && x.0@ == b && x.1 == j,
            Err(e) => r matches Err(x) && x@ == e,
        },
{
    match token_at(t, i) {
        Some(SheetToken::Identifier(ty)) => {
            let l = to_lowercase(ty.as_str());
            if str_eq(l.as_str(), "none") {
                Ok((BackgroundValue::Clear, i + 1))
            } else if str_eq(l.as_str(), "image") {
                match read_framed(t, i) {
                    Err(e) => Err(e),
                    Ok((u, c, j)) => Ok((BackgroundValue::Image(u, c), j)),
                }
            } else if str_eq(l.as_str(), "patch") {
                match read_framed(t, i) {
                    Err(e) => Err(e),
                    Ok((u, c, j)) => Ok((BackgroundValue::Patch(u, c), j)),
                }
            } else {
                Err(SheetError::Syntax(message2(l.as_str(), " is not a background type")))
            }
        },
        Some(SheetToken::Color(s)) => match read_color(token_at(t, i)) {
            Err(e) => Err(e),
            Ok(c) => Ok((BackgroundValue::Color(c), i + 1)),
        },
        Some(_) => Err(SheetError::Syntax(String::from_str("Unexpected token"))),
        None => Err(SheetError::Syntax(String::from_str("Unexpected end of file while parsing background"))),
    }
}

/// The sides of a padding after its `(`; see `sides_spec`.
fn read_sides(t: &Vec<SheetToken>, i: usize) -> (r: Result<(Vec<(Side, String)>, usize), SheetError>)
    ensures
        match sides_spec(sheet_tokens_view(t@), i as int, Seq::empty()) {
            Ok((v, j)) => r matches Ok(x) && sides_view(x.0@) == v && x.1 == j,
            Err(e) => r matches Err(x) && x@ == e,
        },
{
    let ghost tv = sheet_tokens_view(t@);
    let mut acc: Vec<(Side, String)> = Vec::new();
    let mut k = i;
    proof {
        assert(sides_view(acc@) =~= Seq::<(Side, Seq<char>)>::empty());
    }
    loop
        invariant
            tv == sheet_tokens_view(t@),
            sides_spec(tv, i as int, Seq::empty()) == sides_spec(tv, k as int, sides_view(acc@)),
            k >= i,
        decreases t@.len() - k,
    {
        match token_at(t, k) {
            Some(SheetToken::Identifier(f)) => {
                match take(t, k + 1, SheetToken::Colon) {
                    Err(e) => return Err(e),
                    Ok(_) => {},
                }
                proof {
                    reveal_strlit("left");
                    reveal_strlit("top");
                    reveal_strlit("right");
                    reveal_strlit("bottom");
                }
                let side = if str_eq(f.as_str(), "left") {
                    Side::Left
                } else if str_eq(f.as_str(), "top") {
                    Side::Top
                } else if str_eq(f.as_str(), "right") {
                    Side::Right
                } else if str_eq(f.as_str(), "bottom") {
                    Side::Bottom
                } else {
                    return Err(SheetError::Syntax(message("unknown field '", f.as_str(), "' for rectangle")));
                };
                let (n, _) = match read_float(t, k + 2) {
                    Err(e) => return Err(e),
                    Ok(x) => x,
                };
                let ghost prev = acc@;
                acc.push((side, n));
                proof {
                    assert(sides_view(acc@) =~= sides_view(prev).push((side, n@)));
                }
                k = k + 3;
            },
            Some(SheetToken::BraceClose) => {
                return Ok((acc, k + 1));
            },
            Some(_) => {
                return Err(SheetError::Syntax(String::from_str("Unexpected token")));
            },
            None => {
                return Err(SheetError::Syntax(String::from_str("Unexpected end of file while parsing rectangle")));
            },
        }
    }
}

/// A text wrapping strategy; see `wrap_spec`.
fn read_wrap(t: &Vec<SheetToken>, i: usize) -> (r: Result<TextWrap, SheetError>)
    ensures
        r is Ok ==> i < t@.len() && t@.len() <= usize::MAX,
        match wrap_spec(sheet_tokens_view(t@), i as int) {
            Ok(w) => r == Ok::<TextWrap, SheetError>(w),
            Err(e) => r matches Err(x) && x@ == e,
        },
{
    match token_at(t, i) {
        Some(SheetToken::Identifier(ty)) => {
            let l = to_lowercase(ty.as_str());
            if str_eq(l.as_str(), "no-wrap") {
                Ok(TextWrap::NoWrap)
            } else if str_eq(l.as_str(), "word-wrap") {
                Ok(TextWrap::WordWrap)
            } else if str_eq(l.as_str(), "wrap") {
                Ok(TextWrap::Wrap)
            } else {
                Err(SheetError::Syntax(message2(l.as_str(), " is not one of no-wrap, word-wrap or wrap")))
            }
        },
        Some(_) => Err(SheetError::Syntax(String::from_str("Unexpected token"))),
        None => Err(SheetError::Syntax(String::from_str("Unexpected end of file while parsing font"))),
    }
}

/// An alignment; see `align_spec`.
fn read_align(t: &Vec<SheetToken>, i: usize) -> (r: Result<Align, SheetError>)
    ensures
        r is Ok ==> i < t@.len() && t@.len() <= usize::MAX,
        match align_spec(sheet_tokens_view(t@), i as int) {
            Ok(a) => r == Ok::<Align, SheetError>(a),
            Err(e) => r matches Err(x) && x@ == e,
        },
{
    match token_at(t, i) {
        Some(SheetToken::Identifier(ty)) => {
            let l = to_lowercase(ty.as_str());
            let l = l.as_str();
            if str_eq(l, "begin") || str_eq(l, "left") || str_eq(l, "top") {
                Ok(Align::Begin)
            } else if str_eq(l, "center") {
                Ok(Align::Center)
            } else if str_eq(l, "end") || str_eq(l, "right") || str_eq(l, "bottom") {
                Ok(Align::End)
            } else {
                Err(SheetError::Syntax(message2(l, " is not one of begin, center or end")))
            }
        },
        Some(_) => Err(SheetError::Syntax(String::from_str("Unexpected token"))),
        None => Err(SheetError::Syntax(String::from_str("Unexpected end of file while parsing font"))),
    }
}

/// A size; see `size_spec`.
fn read_size(t: &Vec<SheetToken>, i: usize) -> (r: Result<(SheetSize, usize), SheetError>)
    ensures
        match size_spec(sheet_tokens_view(t@), i as int) {
            Ok((v, j)) => r matches Ok(x) && x.0@ == v && x.1 == j,
            Err(e) => r matches Err(x) && x@ == e,
        },
{
    match token_at(t, i) {
        Some(SheetToken::Identifier(ty)) => {
            let l = to_lowercase(ty.as_str());
            if str_eq(l.as_str(), "shrink") {
                Ok((SheetSize::Shrink, i + 1))
            } else if str_eq(l.as_str(), "fill") {
                match take(t, i + 1, SheetToken::BraceOpen) {
                    Err(e) => return Err(e),
                    Ok(_) => {},
                }
                let (n, _) = match read_float(t, i + 2) {
                    Err(e) => return Err(e),
                    Ok(x) => x,
                };
                match take(t, i + 3, SheetToken::BraceClose) {
                    Err(e) => return Err(e),
                    Ok(_) => {},
                }
                Ok((SheetSize::Fill(n), i + 4))
            } else {
                Err(SheetError::Syntax(message2(l.as_str(), " is not one of begin, center or end")))
            }
        },
        Some(SheetToken::Number(n)) => Ok((SheetSize::Exact(n.clone()), i + 1)),
        Some(_) => Err(SheetError::Syntax(String::from_str("Unexpected token"))),
        None => Err(SheetError::Syntax(String::from_str("Unexpected end of file while parsing font"))),
    }
}

/// The background slot a key names; see `slot_of`.
fn slot_for(key: &str) -> (r: Option<BackgroundSlot>)
    ensures
        r == slot_of(key@),
{
    if str_eq(key, "background") {
        Some(BackgroundSlot::Background)
    } else if str_eq(key, "hover") {
        Some(BackgroundSlot::Hover)
    } else if str_eq(key, "pressed") {
        Some(BackgroundSlot::Pressed)
    } else if str_eq(key, "disabled") {
        Some(BackgroundSlot::Disabled)
    } else if str_eq(key, "checked") {
        Some(BackgroundSlot::Checked)
    } else if str_eq(key, "scrollbar-horizontal") {
        Some(BackgroundSlot::ScrollbarHorizontal)
    } else if str_eq(key, "scrollbar-vertical") {
        Some(BackgroundSlot::ScrollbarVertical)
    } else {
        None
    }
}

/// The value of property `key` from token `j` on; see `value_spec`.
fn read_value(t: &Vec<SheetToken>, key: &str, j: usize) -> (r: Result<(SheetRule, usize), SheetError>)
    requires
        j <= t@.len(),
    ensures
        match value_spec(sheet_tokens_view(t@), key@, j as int) {
            Ok((v, k)) => r matches Ok(x) && x.0@ == v && x.1 == k,
            Err(e) => r matches Err(x) && x@ == e,
        },
{
    let len = t.len();
    proof {
        assert(len == t@.len());
    }
    match slot_for(key) {
        Some(slot) => {
            return match read_background(t, j) {
                Err(e) => Err(e),
                Ok((b, k)) => Ok((SheetRule::Background(slot, b), k)),
            };
        },
        None => {},
    }
    if str_eq(key, "font") {
        match token_at(t, j) {
            Some(SheetToken::Text(u)) => Ok((SheetRule::Font(u.clone()), j + 1)),
            Some(_) => Err(SheetError::Syntax(String::from_str("Unexpected token"))),
            None => Err(SheetError::Syntax(String::from_str("Unexpected end of file while parsing font"))),
        }
    } else if str_eq(key, "color") {
        let tok = token_at(t, j);
        match read_color(tok) {
            Err(e) => Err(e),
            Ok(c) => {
                proof {
                    assert(tok_at(sheet_tokens_view(t@), j as int) is Some);
                }
                Ok((SheetRule::Color(c), j + 1))
            },
        }
    } else if str_eq(key, "padding") {
        match take(t, j, SheetToken::BraceOpen) {
            Err(e) => return Err(e),
            Ok(_) => {},
        }
        match read_sides(t, j + 1) {
            Err(e) => Err(e),
            Ok((v, k)) => Ok((SheetRule::Padding(v), k)),
        }
    } else if str_eq(key, "text-size") {
        match read_float(t, j) {
            Err(e) => Err(e),
            Ok((n, k)) => Ok((SheetRule::TextSize(n), k)),
        }
    } else if str_eq(key, "text-wrap") {
        match read_wrap(t, j) {
            Err(e) => Err(e),
            Ok(w) => Ok((SheetRule::TextWrap(w), j + 1)),
        }
    } else if str_eq(key, "width") {
        match read_size(t, j) {
            Err(e) => Err(e),
            Ok((v, k)) => Ok((SheetRule::Width(v), k)),
        }
    } else if str_eq(key, "height") {
        match read_size(t, j) {
            Err(e) => Err(e),
            Ok((v, k)) => Ok((SheetRule::Height(v), k)),
        }
    } else if str_eq(key, "align-horizontal") {
        match read_align(t, j) {
            Err(e) => Err(e),
            Ok(a) => Ok((SheetRule::AlignHorizontal(a), j + 1)),
        }
    } else if str_eq(key, "align-vertical") {
        match read_align(t, j) {
            Err(e) => Err(e),
            Ok(a) => Ok((SheetRule::AlignVertical(a), j + 1)),
        }
    } else {
        Err(SheetError::Syntax(message("Key ", key, " not recognized")))
    }
}

/// A rule `key: value` from token `i` on; see `rule_spec`.
pub fn read_rule(t: &Vec<SheetToken>, i: usize) -> (r: Result<(SheetRule, usize), SheetError>)
    ensures
        match rule_spec(sheet_tokens_view(t@), i as int) {
            Ok((v, k)) => r matches Ok(x) && x.0@ == v && x.1 == k,
            Err(e) => r matches Err(x) && x@ == e,
        },
{
    match token_at(t, i) {
        Some(SheetToken::Identifier(key)) => {
            match take(t, i + 1, SheetToken::Colon) {
                Err(e) => return Err(e),
                Ok(_) => {},
            }
            read_value(t, key.as_str(), i + 2)
        },
        Some(_) => Err(SheetError::Syntax(String::from_str("Expected identifier at start of rule"))),
        None => Err(SheetError::Syntax(String::from_str("Unexpected end of file parsing rule"))),
    }
}

/// The rules of a selector from token `k` on, up to its `}`, after the rules `acc` read before;
/// with the position of the `}`.
pub open spec fn rules_spec(t: Seq<SheetTokenV>, k: int, acc: Seq<SheetRuleV>) -> Result<(Seq<SheetRuleV>, int), SheetErrorV>
    decreases t.len() - k,
{
    if tok_at(t, k) == Some(SheetTokenV::CurlyClose) {
        Ok((acc, k))
    } else {
        match rule_spec(t, k) {
            Err(e) => Err(e),
            Ok((r, k2)) => if k < k2 <= t.len() {
                rules_spec(t, k2, acc.push(r))
            } else {
                Err(SheetErrorV::Syntax(Seq::empty()))
            },
        }
    }
}

/// A selector from token `i` on: element names and classes, then its rules between braces;
/// with the names and classes read before, and the position after its `}`.
pub open spec fn selector_spec(t: Seq<SheetTokenV>, i: int, elements: Seq<Seq<char>>, classes: Seq<Seq<char>>) -> Result<
    (SheetSelectorV, int),
    SheetErrorV,
>
    decreases t.len() - i,
{
    match tok_at(t, i) {
        Some(SheetTokenV::Identifier(e)) => selector_spec(t, i + 1, elements.push(e), classes),
        Some(SheetTokenV::Class(c)) => selector_spec(t, i + 1, elements, classes.push(c)),
        Some(SheetTokenV::CurlyOpen) => match rules_spec(t, i + 1, Seq::empty()) {
            Err(e) => Err(e),
            Ok((rules, k)) => Ok((SheetSelectorV { elements, classes, rules }, k + 1)),
        },
        Some(_) => Err(SheetErrorV::Syntax("Unexpected token parsing selector"@)),
        None => Err(SheetErrorV::Syntax("unexpected end of file"@)),
    }
}

/// All selectors from token `i` on, read one after the other until the tokens run out.
pub open spec fn style_spec(t: Seq<SheetTokenV>, i: int) -> Result<Seq<SheetSelectorV>, SheetErrorV>
    decreases t.len() - i,
{
    if i < 0 || i >= t.len() {
        Ok(Seq::empty())
    } else {
        match selector_spec(t, i, Seq::empty(), Seq::empty()) {
            Err(e) => Err(e),
            Ok((sel, j)) => if i < j <= t.len() {
                match style_spec(t, j) {
                    Err(e) => Err(e),
                    Ok(rest) => Ok(seq![sel] + rest),
                }
            } else {
                Err(SheetErrorV::Syntax(Seq::empty()))
            },
        }
    }
}

/// The views of selectors.
pub open spec fn sheet_selectors_view(v: Seq<SheetSelector>) -> Seq<SheetSelectorV> {
    v.map_values(|s: SheetSelector| s@)
}

/// The rules of a selector after its `{`, up to its `}`; see `rules_spec`.
fn read_rules(t: &Vec<SheetToken>, i: usize) -> (r: Result<(Vec<SheetRule>, usize), SheetError>)
    ensures
        match rules_spec(sheet_tokens_view(t@), i as int, Seq::empty()) {
            Ok((v, k)) => r matches Ok(x) && rules_view(x.0@) == v && x.1 == k,
            Err(e) => r matches Err(x) && x@ == e,
        },
{
    let ghost tv = sheet_tokens_view(t@);
    let mut acc: Vec<SheetRule> = Vec::new();
    let mut k = i;
    proof {
        assert(rules_view(acc@) =~= Seq::<SheetRuleV>::empty());
    }
    loop
        invariant
            tv == sheet_tokens_view(t@),
            rules_spec(tv, i as int, Seq::empty()) == rules_spec(tv, k as int, rules_view(acc@)),
        decreases t@.len() - k,
    {
        let close = match token_at(t, k) {
            Some(SheetToken::CurlyClose) => true,
            _ => false,
        };
        if close {
            return Ok((acc, k));
        }
        let (rule, k2) = match read_rule(t, k) {
            Err(e) => return Err(e),
            Ok(x) => x,
        };
        if !(k < k2 && k2 <= t.len()) {
            return Err(SheetError::Syntax(String::new()));
        }
        let ghost prev = acc@;
        acc.push(rule);
        proof {
            assert(rules_view(acc@) =~= rules_view(prev).push(rule@));
        }
        k = k2;
    }
}

/// A selector from token `i` on; see `selector_spec`.
pub fn read_selector(t: &Vec<SheetToken>, i: usize) -> (r: Result<(SheetSelector, usize), SheetError>)
    ensures
        match selector_spec(sheet_tokens_view(t@), i as int, Seq::empty(), Seq::empty()) {
            Ok((v, k)) => r matches Ok(x) && x.0@ == v && x.1 == k,
            Err(e) => r matches Err(x) && x@ == e,
        },
{
    let ghost tv = sheet_tokens_view(t@);
    let mut elements: Vec<String> = Vec::new();
    let mut classes: Vec<String> = Vec::new();
    let mut k = i;
    proof {
        assert(names_view(elements@) =~= Seq::<Seq<char>>::empty());
        assert(names_view(classes@) =~= Seq::<Seq<char>>::empty());
    }
    loop
        invariant
            tv == sheet_tokens_view(t@),
            selector_spec(tv, i as int, Seq::empty(), Seq::empty()) == selector_spec(
                tv,
                k as int,
                names_view(elements@),
                names_view(classes@),
            ),
        decreases t@.len() - k,
    {
        match token_at(t, k) {
            Some(SheetToken::Identifier(e)) => {
                let ghost prev = elements@;
                elements.push(e.clone());
                proof {
                    assert(names_view(elements@) =~= names_view(prev).push(e@));
                }
                k = k + 1;
            },
            Some(SheetToken::Class(c)) => {
                let ghost prev = classes@;
                classes.push(c.clone());
                proof {
                    assert(names_view(classes@) =~= names_view(prev).push(c@));
                }
                k = k + 1;
            },
            Some(SheetToken::CurlyOpen) => {
                return match read_rules(t, k + 1) {
                    Err(e) => Err(e),
                    Ok((rules, k2)) => {
                        proof {
                            lemma_rules_stop(tv, k + 1, Seq::empty());
                        }
                        Ok((SheetSelector { elements, classes, rules }, k2 + 1))
                    },
                };
            },
            Some(_) => {
                return Err(SheetError::Syntax(String::from_str("Unexpected token parsing selector")));
            },
            None => {
                return Err(SheetError::Syntax(String::from_str("unexpected end of file")));
            },
        }
    }
}

/// The rules of a selector end at a `}` that is there.
proof fn lemma_rules_stop(t: Seq<SheetTokenV>, k: int, acc: Seq<SheetRuleV>)
    ensures
        rules_spec(t, k, acc) matches Ok((_, j)) ==> 0 <= j < t.len(),
    decreases t.len() - k,
{
    if tok_at(t, k) != Some(SheetTokenV::CurlyClose) {
        if let Ok((r, k2)) = rule_spec(t, k) {
            if k < k2 <= t.len() {
                lemma_rules_stop(t, k2, acc.push(r));
            }
        }
    }
}

/// Reads the selectors of a plain stylesheet, each with its rules, in order. A character that
/// starts no token is an error.
pub fn style_rules(text: &str) -> (r: Result<Vec<SheetSelector>, SheetError>)
    ensures
        match sheet_tokens_spec(text@) {
            None => r matches Err(SheetError::Character(_)),
            Some(t) => match style_spec(t, 0) {
                Ok(v) => r matches Ok(x) && sheet_selectors_view(x@) == v,
                Err(e) => r matches Err(x) && x@ == e,
            },
        },
{
    let t = match sheet_tokens(text) {
        Err(c) => {
            return Err(SheetError::Character(c));
        },
        Ok(t) => t,
    };
    let ghost tv = sheet_tokens_view(t@);
    let mut out: Vec<SheetSelector> = Vec::new();
    let mut i: usize = 0;
    proof {
        assert(sheet_selectors_view(out@) =~= Seq::<SheetSelectorV>::empty());
    }
    while i < t.len()
        invariant
            tv == sheet_tokens_view(t@),
            tv.len() == t@.len(),
            sheet_tokens_spec(text@) == Some(tv),
            match style_spec(tv, 0) {
                Ok(all) => style_spec(tv, i as int) is Ok && all == sheet_selectors_view(out@) + style_spec(tv, i as int)->Ok_0,
                Err(e) => style_spec(tv, i as int) == Err::<Seq<SheetSelectorV>, SheetErrorV>(e),
            },
        decreases t@.len() - i,
    {
        let (sel, j) = match read_selector(&t, i) {
            Err(e) => {
                proof {
                    assert(style_spec(tv, i as int) == Err::<Seq<SheetSelectorV>, SheetErrorV>(e@));
                }
                return Err(e);
            },
            Ok(x) => x,
        };
        if !(i < j && j <= t.len()) {
            let e = SheetError::Syntax(String::new());
            proof {
                assert(e@ == SheetErrorV::Syntax(Seq::empty()));
                assert(style_spec(tv, i as int) == Err::<Seq<SheetSelectorV>, SheetErrorV>(e@));
            }
            return Err(e);
        }
        let ghost prev = out@;
        out.push(sel);
        proof {
            assert(sheet_selectors_view(out@) =~= sheet_selectors_view(prev).push(sel@));
            if let Ok(all) = style_spec(tv, 0) {
                let rest = style_spec(tv, j as int)->Ok_0;
                assert(sheet_selectors_view(out@) + rest =~= sheet_selectors_view(prev) + (seq![sel@] + rest));
            }
        }
        i = j;
    }
    proof {
        assert(style_spec(tv, i as int) == Ok::<Seq<SheetSelectorV>, SheetErrorV>(Seq::empty()));
        assert(sheet_selectors_view(out@) + Seq::<SheetSelectorV>::empty() =~= sheet_selectors_view(out@));
    }
    Ok(out)
}

} // verus!
