//! Reading selectors and simple property values from a token stream.
use vstd::prelude::*;

use crate::layout::{Align, Direction, TextWrap};
use crate::style::tokenize::{tokens_view, Token, TokenPos, TokenV, TokenValue, TokenValueV};
use crate::style::{
    builtin_state_name, child_match, meta_match, sibling_match, str_eq, Error, ErrorV, Selector, SelectorV, SelectorWidget,
    SelectorWidgetV, StyleState,
};

verus! {

/// A token stream that is read from the front.
pub struct TokenProvider {
    /// The tokens still to be read, the next one last.
    tokens: Vec<Token>,
}

/// `str::to_lowercase`, as a function of the characters of its argument.
pub uninterp spec fn lowercase(s: Seq<char>) -> Seq<char>;

/// The lowercase form of an ASCII character.
pub open spec fn ascii_lower(c: char) -> char {
    if 'A' <= c <= 'Z' {
        ((c as u32) + 32) as char
    } else {
        c
    }
}

/// Lowercase text as `str::to_lowercase` makes it: on ASCII text, each upper case letter
/// becomes its lower case letter and nothing else changes.
pub open spec fn lower_text(s: Seq<char>) -> Seq<char> {
    if forall|i: int| 0 <= i < s.len() ==> (s[i] as u32) < 128 {
        s.map_values(|c: char| ascii_lower(c))
    } else {
        lowercase(s)
    }
}

/// `str::to_lowercase`: the Unicode lowercase mapping of each character; on ASCII text, each
/// upper case letter becomes its lower case letter and nothing else changes.
#[verifier::external_body]
pub(crate) fn to_lowercase(s: &str) -> (r: String)
    ensures
        r@ == lowercase(s@),
        r@ == lower_text(s@),
{
    s.to_lowercase()
}

// ---------------------------------------------------------------------------------------------
// What each reader makes of the tokens it is given
// ---------------------------------------------------------------------------------------------
/// The name that an expected token is reported by.
pub open spec fn token_name(v: TokenValueV) -> Seq<char> {
    match v {
        TokenValueV::Iden(_) => "Iden"@,
        TokenValueV::Color(_) => "Color"@,
        TokenValueV::Path(_) => "Path"@,
        TokenValueV::Number(_) => "Number"@,
        TokenValueV::ParenOpen => "ParenOpen"@,
        TokenValueV::ParenClose => "ParenClose"@,
        TokenValueV::BraceOpen => "BraceOpen"@,
        TokenValueV::BraceClose => "BraceClose"@,
        TokenValueV::Colon => "Colon"@,
        TokenValueV::Semi => "Semi"@,
        TokenValueV::Dot => "Dot"@,
        TokenValueV::Comma => "Comma"@,
        TokenValueV::Gt => "Gt"@,
        TokenValueV::Plus => "Plus"@,
        TokenValueV::Tilde => "Tilde"@,
        TokenValueV::Star => "Star"@,
    }
}

/// The tokens left after reading one token: all but the first, or none when there are none.
pub open spec fn one_read(toks: Seq<TokenV>) -> Seq<TokenV> {
    if toks.len() == 0 {
        toks
    } else {
        toks.drop_first()
    }
}

/// Reads token `i`, which must be `v`.
pub open spec fn take_at(toks: Seq<TokenV>, i: int, v: TokenValueV) -> Result<TokenV, ErrorV> {
    if i >= toks.len() {
        Err(ErrorV::Eof)
    } else if toks[i].value == v {
        Ok(toks[i])
    } else {
        Err(ErrorV::Syntax("Expected '"@ + token_name(v) + "'"@, toks[i].pos))
    }
}

/// Reads token `i`, which must be an identifier.
pub open spec fn ident_at(toks: Seq<TokenV>, i: int) -> Result<(Seq<char>, TokenPos), ErrorV> {
    if i >= toks.len() {
        Err(ErrorV::Eof)
    } else {
        match toks[i].value {
            TokenValueV::Iden(id) => Ok((id, toks[i].pos)),
            _ => Err(ErrorV::Syntax("Expected 'Identifier'"@, toks[i].pos)),
        }
    }
}

/// Whether `c` is an ASCII decimal digit.
pub open spec fn is_digit(c: char) -> bool {
    '0' <= c <= '9'
}

/// The message for a character that is not a digit.
pub open spec fn invalid_digit() -> Seq<char> {
    "invalid digit found in string"@
}

/// The message for a number beyond the range of `usize`.
pub open spec fn too_large() -> Seq<char> {
    "number too large to fit in target type"@
}

/// The value of a run of digits, read from the left: the first non-digit, or the first digit at
/// which the value leaves the range of `usize`, ends it with an error.
pub open spec fn digits_value(d: Seq<char>) -> Result<int, Seq<char>>
    decreases d.len(),
{
    if d.len() == 0 {
        Ok(0)
    } else {
        match digits_value(d.drop_last()) {
            Err(e) => Err(e),
            Ok(v) => if !is_digit(d.last()) {
                Err(invalid_digit())
            } else if v * 10 + (d.last() as int - '0' as int) > usize::MAX {
                Err(too_large())
            } else {
                Ok(v * 10 + (d.last() as int - '0' as int))
            },
        }
    }
}

/// Reads a decimal `usize` the way `str::parse::<usize>` does: an optional leading `+`, then
/// ASCII digits.
pub open spec fn usize_text(s: Seq<char>) -> Result<usize, Seq<char>> {
    if s.len() == 0 {
        Err("cannot parse integer from empty string"@)
    } else if s.len() == 1 && (s[0] == '+' || s[0] == '-') {
        Err(invalid_digit())
    } else {
        let d = if s[0] == '+' {
            s.drop_first()
        } else {
            s
        };
        match digits_value(d) {
            Ok(v) => Ok(v as usize),
            Err(e) => Err(e),
        }
    }
}

/// Reads token `i`, which must be a number that reads as a `usize`.
pub open spec fn usize_at(toks: Seq<TokenV>, i: int) -> Result<usize, ErrorV> {
    if i >= toks.len() {
        Err(ErrorV::Eof)
    } else {
        match toks[i].value {
            TokenValueV::Number(n) => match usize_text(n) {
                Ok(v) => Ok(v),
                Err(msg) => Err(ErrorV::Syntax(msg, toks[i].pos)),
            },
            _ => Err(ErrorV::Syntax("Expected <integer>"@, toks[i].pos)),
        }
    }
}

/// Reads token `i` as a widget name: `*` or an identifier.
pub open spec fn widget_at(toks: Seq<TokenV>, i: int) -> Result<SelectorWidgetV, ErrorV> {
    if i >= toks.len() {
        Err(ErrorV::Eof)
    } else {
        match toks[i].value {
            TokenValueV::Star => Ok(SelectorWidgetV::Any),
            TokenValueV::Iden(w) => Ok(SelectorWidgetV::Named(w)),
            _ => Err(ErrorV::Syntax("Expected '*' or 'identifier'"@, toks[i].pos)),
        }
    }
}

/// A selector of two numbers in brackets, `(a, b)`, read from token `i` on; `count` is the number
/// of tokens read.
pub open spec fn pair_at(toks: Seq<TokenV>, i: int) -> Result<(usize, usize), ErrorV> {
    match take_at(toks, i, TokenValueV::ParenOpen) {
        Err(e) => Err(e),
        Ok(_) => match usize_at(toks, i + 1) {
            Err(e) => Err(e),
            Ok(a) => match take_at(toks, i + 2, TokenValueV::Comma) {
                Err(e) => Err(e),
                Ok(_) => match usize_at(toks, i + 3) {
                    Err(e) => Err(e),
                    Ok(b) => match take_at(toks, i + 4, TokenValueV::ParenClose) {
                        Err(e) => Err(e),
                        Ok(_) => Ok((a, b)),
                    },
                },
            },
        },
    }
}

/// The message for a bad argument of `nth-child` or `nth-last-child`.
pub open spec fn nth_message() -> Seq<char> {
    "Expected 'odd', 'even' or <number>"@
}

/// The argument of `nth-child` (`last` false) or `nth-last-child` (`last` true) in brackets, read
/// from token `i` on: `odd`, `even` or a number.
pub open spec fn nth_at(toks: Seq<TokenV>, i: int, last: bool) -> Result<SelectorV, ErrorV> {
    match take_at(toks, i, TokenValueV::ParenOpen) {
        Err(e) => Err(e),
        Ok(_) => {
            let arg: Result<SelectorV, ErrorV> = if i + 1 >= toks.len() {
                Err(ErrorV::Eof)
            } else {
                match toks[i + 1].value {
                    TokenValueV::Iden(special) => if special == "odd"@ {
                        Ok(
                            if last {
                                SelectorV::NthLastMod(1, 2)
                            } else {
                                SelectorV::NthMod(1, 2)
                            },
                        )
                    } else if special == "even"@ {
                        Ok(
                            if last {
                                SelectorV::NthLastMod(0, 2)
                            } else {
                                SelectorV::NthMod(0, 2)
                            },
                        )
                    } else {
                        Err(ErrorV::Syntax(nth_message(), toks[i + 1].pos))
                    },
                    TokenValueV::Number(n) => match usize_text(n) {
                        Ok(v) => Ok(
                            if last {
                                SelectorV::NthLast(v)
                            } else {
                                SelectorV::Nth(v)
                            },
                        ),
                        Err(msg) => Err(ErrorV::Syntax(msg, toks[i + 1].pos)),
                    },
                    _ => Err(ErrorV::Syntax(nth_message(), toks[i + 1].pos)),
                }
            };
            match arg {
                Err(e) => Err(e),
                Ok(sel) => match take_at(toks, i + 2, TokenValueV::ParenClose) {
                    Err(e) => Err(e),
                    Ok(_) => Ok(sel),
                },
            }
        },
    }
}

/// A selector, read from the front of `toks`, with the number of tokens it takes.
pub open spec fn selector_spec(toks: Seq<TokenV>) -> Result<(SelectorV, int), ErrorV>
    decreases toks.len(),
{
    if toks.len() == 0 {
        Err(ErrorV::Eof)
    } else {
        match toks[0].value {
            TokenValueV::Star => Ok((SelectorV::Widget(SelectorWidgetV::Any), 1)),
            TokenValueV::Dot => match ident_at(toks, 1) {
                Ok((id, _)) => Ok((SelectorV::Class(id), 2)),
                Err(e) => Err(e),
            },
            TokenValueV::Iden(w) => Ok((SelectorV::Widget(SelectorWidgetV::Named(w)), 1)),
            TokenValueV::Gt => match widget_at(toks, 1) {
                Ok(w) => Ok((SelectorV::WidgetDirectChild(w), 2)),
                Err(e) => Err(e),
            },
            TokenValueV::Plus => match widget_at(toks, 1) {
                Ok(w) => Ok((SelectorV::WidgetDirectAfter(w), 2)),
                Err(e) => Err(e),
            },
            TokenValueV::Tilde => match widget_at(toks, 1) {
                Ok(w) => Ok((SelectorV::WidgetAfter(w), 2)),
                Err(e) => Err(e),
            },
            TokenValueV::Colon => match ident_at(toks, 1) {
                Err(e) => Err(e),
                Ok((id, _)) => if id == "nth-child-mod"@ {
                    match pair_at(toks, 2) {
                        Ok((a, b)) => Ok((SelectorV::NthMod(a, b), 7)),
                        Err(e) => Err(e),
                    }
                } else if id == "nth-last-child-mod"@ {
                    match pair_at(toks, 2) {
                        Ok((a, b)) => Ok((SelectorV::NthLastMod(a, b), 7)),
                        Err(e) => Err(e),
                    }
                } else if id == "nth-child"@ {
                    match nth_at(toks, 2, false) {
                        Ok(s) => Ok((s, 5)),
                        Err(e) => Err(e),
                    }
                } else if id == "nth-last-child"@ {
                    match nth_at(toks, 2, true) {
                        Ok(s) => Ok((s, 5)),
                        Err(e) => Err(e),
                    }
                } else if id == "first-child"@ {
                    Ok((SelectorV::Nth(0), 2))
                } else if id == "last-child"@ {
                    Ok((SelectorV::NthLast(0), 2))
                } else if id == "only-child"@ {
                    Ok((SelectorV::OnlyChild, 2))
                } else if id == "not"@ {
                    match take_at(toks, 2, TokenValueV::ParenOpen) {
                        Err(e) => Err(e),
                        Ok(_) => match selector_spec(toks.skip(3)) {
                            Err(e) => Err(e),
                            Ok((inner, n)) => match take_at(toks, 3 + n, TokenValueV::ParenClose) {
                                Err(e) => Err(e),
                                Ok(_) => Ok((SelectorV::Not(Box::new(inner)), 4 + n)),
                            },
                        },
                    }
                } else if id == "hover"@ {
                    Ok((SelectorV::State(StyleState::Hover), 2))
                } else if id == "pressed"@ {
                    Ok((SelectorV::State(StyleState::Pressed), 2))
                } else if id == "checked"@ {
                    Ok((SelectorV::State(StyleState::Checked), 2))
                } else if id == "disabled"@ {
                    Ok((SelectorV::State(StyleState::Disabled), 2))
                } else if id == "open"@ {
                    Ok((SelectorV::State(StyleState::Open), 2))
                } else if id == "closed"@ {
                    Ok((SelectorV::State(StyleState::Closed), 2))
                } else if id == "drag"@ {
                    Ok((SelectorV::State(StyleState::Drag), 2))
                } else if id == "drop"@ {
                    Ok((SelectorV::State(StyleState::Drop), 2))
                } else {
                    Ok((SelectorV::State(StyleState::Custom(id)), 2))
                },
            },
            _ => Err(ErrorV::Syntax("expected `<selector>`"@, toks[0].pos)),
        }
    }
}

/// What a parsed selector says of a child `n` of `len` children, in the given states and class:
/// `None` where the text did not parse or the selector does not look at those.
pub open spec fn parsed_meta(
    parsed: Result<(SelectorV, int), ErrorV>,
    states: Seq<StyleState<Seq<char>>>,
    class: Seq<char>,
    n: usize,
    len: usize,
) -> Option<bool> {
    match parsed {
        Ok((sel, _)) => meta_match(sel, states, class, n, len),
        Err(_) => None,
    }
}

/// What a parsed selector says of a child widget named `widget`: `None` where the text did not
/// parse or the selector does not select children.
pub open spec fn parsed_child(parsed: Result<(SelectorV, int), ErrorV>, direct: bool, widget: Seq<
    char,
>) -> Option<bool> {
    match parsed {
        Ok((sel, _)) => child_match(sel, direct, widget),
        Err(_) => None,
    }
}

/// What a parsed selector says of a sibling widget named `widget`: `None` where the text did not
/// parse or the selector does not select siblings.
pub open spec fn parsed_sibling(parsed: Result<(SelectorV, int), ErrorV>, direct: bool, widget: Seq<
    char,
>) -> Option<bool> {
    match parsed {
        Ok((sel, _)) => sibling_match(sel, direct, widget),
        Err(_) => None,
    }
}

/// Simple selectors and combinators select what their symbols say: a name selects descendant
/// widgets of that name and `*` any descendant, `.name` the widgets of that class, `> name` only
/// direct children of that name, `+ name` only the widget right after the previous one, and
/// `~ name` any later sibling of that name.
pub proof fn lemma_combinators(
    toks: Seq<TokenV>,
    name: Seq<char>,
    direct: bool,
    widget: Seq<char>,
    states: Seq<StyleState<Seq<char>>>,
    class: Seq<char>,
    n: usize,
    len: usize,
)
    requires
        toks.len() >= 2,
    ensures
        toks[0].value == TokenValueV::Iden(widget) ==> parsed_child(selector_spec(toks), direct, widget)
            == Some(true),
        toks[0].value == TokenValueV::Iden(name) && name != widget ==> parsed_child(
            selector_spec(toks),
            direct,
            widget,
        ) == Some(false),
        toks[0].value == TokenValueV::Star ==> parsed_child(selector_spec(toks), direct, widget)
            == Some(true),
        toks[1].value == TokenValueV::Iden(name) ==> {
            &&& toks[0].value == TokenValueV::Dot ==> parsed_meta(
                selector_spec(toks),
                states,
                class,
                n,
                len,
            ) == Some(class == name)
            &&& toks[0].value == TokenValueV::Gt ==> parsed_child(selector_spec(toks), direct, widget)
                == Some(direct && name == widget)
            &&& toks[0].value == TokenValueV::Plus ==> parsed_sibling(
                selector_spec(toks),
                direct,
                widget,
            ) == Some(direct && name == widget)
            &&& toks[0].value == TokenValueV::Tilde ==> parsed_sibling(
                selector_spec(toks),
                direct,
                widget,
            ) == Some(name == widget)
        },
{
}

/// Pseudo-classes select what their names say. After `:`, `first-child` selects the first
/// child, `last-child` the last one, `only-child` a child without siblings, and a built-in state
/// name other than `drop-denied` the widgets in that state; `nth-child(odd)` and
/// `nth-child(even)` select the children at odd and even indices, `nth-child(<k>)` the child at
/// index `k`, and `nth-last-child` the same counted from the last child. Any other name selects
/// the widgets in the custom state of that name.
pub proof fn lemma_pseudo_classes(
    toks: Seq<TokenV>,
    id: Seq<char>,
    arg: TokenValueV,
    s: StyleState<Seq<char>>,
    states: Seq<StyleState<Seq<char>>>,
    class: Seq<char>,
    n: usize,
    len: usize,
)
    requires
        toks.len() >= 2,
        toks[0].value == TokenValueV::Colon,
        toks[1].value == TokenValueV::Iden(id),
        n < len,
    ensures
        ({
            let meta = parsed_meta(selector_spec(toks), states, class, n, len);
            &&& id == "first-child"@ ==> meta == Some(n == 0)
            &&& id == "last-child"@ ==> meta == Some(n + 1 == len)
            &&& id == "only-child"@ ==> meta == Some(len == 1)
            &&& builtin_state_name(s) == Some(id) && s != StyleState::<Seq<char>>::DropDenied
                ==> meta == Some(states.contains(s))
            &&& toks.len() >= 5 && toks[2].value == TokenValueV::ParenOpen && toks[3].value == arg
                && toks[4].value == TokenValueV::ParenClose ==> {
                &&& id == "nth-child"@ && arg == TokenValueV::Iden("odd"@) ==> meta == Some(
                    n % 2 == 1,
                )
                &&& id == "nth-child"@ && arg == TokenValueV::Iden("even"@) ==> meta == Some(
                    n % 2 == 0,
                )
                &&& id == "nth-last-child"@ && arg == TokenValueV::Iden("odd"@) ==> meta == Some(
                    (len - 1 - n) % 2 == 1,
                )
                &&& id == "nth-last-child"@ && arg == TokenValueV::Iden("even"@) ==> meta == Some(
                    (len - 1 - n) % 2 == 0,
                )
                &&& forall|num: Seq<char>, k: usize|
                    id == "nth-child"@ && arg == TokenValueV::Number(num) && usize_text(num) == Ok::<
                        usize,
                        Seq<char>,
                    >(k) ==> meta == Some(n == k)
                &&& forall|num: Seq<char>, k: usize|
                    id == "nth-last-child"@ && arg == TokenValueV::Number(num) && usize_text(num)
                        == Ok::<usize, Seq<char>>(k) ==> meta == Some(n + k + 1 == len)
            }
            &&& !(id == "nth-child-mod"@ || id == "nth-last-child-mod"@ || id == "nth-child"@ || id
                == "nth-last-child"@ || id == "first-child"@ || id == "last-child"@ || id
                == "only-child"@ || id == "not"@) && (!crate::style::builtin_state_names().contains(id)
                || id == "drop-denied"@) ==> selector_spec(toks) == Ok::<(SelectorV, int), ErrorV>(
                (SelectorV::State(StyleState::Custom(id)), 2),
            )
        }),
{
    reveal_strlit("nth-child-mod");
    reveal_strlit("nth-last-child-mod");
    reveal_strlit("nth-child");
    reveal_strlit("nth-last-child");
    reveal_strlit("first-child");
    reveal_strlit("last-child");
    reveal_strlit("only-child");
    reveal_strlit("not");
    reveal_strlit("hover");
    reveal_strlit("pressed");
    reveal_strlit("checked");
    reveal_strlit("disabled");
    reveal_strlit("open");
    reveal_strlit("closed");
    reveal_strlit("drag");
    reveal_strlit("drop");
    reveal_strlit("drop-denied");
    reveal_strlit("odd");
    reveal_strlit("even");
    assert("nth-child-mod"@.len() == 13);
    assert("nth-last-child-mod"@.len() == 18);
    assert("nth-child"@.len() == 9);
    assert("nth-last-child"@.len() == 14);
    assert("first-child"@.len() == 11 && "first-child"@[0] == 'f');
    assert("last-child"@.len() == 10 && "last-child"@[0] == 'l');
    assert("only-child"@.len() == 10 && "only-child"@[0] == 'o');
    assert("not"@.len() == 3 && "not"@[0] == 'n');
    assert("hover"@.len() == 5);
    assert("pressed"@.len() == 7 && "pressed"@[0] == 'p');
    assert("checked"@.len() == 7 && "checked"@[0] == 'c');
    assert("disabled"@.len() == 8);
    assert("open"@.len() == 4 && "open"@[0] == 'o');
    assert("closed"@.len() == 6);
    assert("drag"@.len() == 4 && "drag"@[0] == 'd' && "drag"@[2] == 'a');
    assert("drop"@.len() == 4 && "drop"@[0] == 'd' && "drop"@[2] == 'o');
    assert("drop-denied"@.len() == 11 && "drop-denied"@[0] == 'd');
    assert("odd"@.len() == 3 && "odd"@[0] == 'o');
    assert("even"@.len() == 4 && "even"@[0] == 'e');
}

/// A selector that is read takes at least one token, and no more than there are.
pub proof fn lemma_selector_consumes(toks: Seq<TokenV>)
    ensures
        selector_spec(toks) matches Ok((_, n)) ==> 1 <= n <= toks.len(),
    decreases toks.len(),
{
    if toks.len() >= 3 {
        lemma_selector_consumes(toks.skip(3));
    }
    if let Ok((_, n)) = selector_spec(toks) {
        if toks[0].value is Colon {
            if let Ok((id, _)) = ident_at(toks, 1) {
                if id == "nth-child-mod"@ || id == "nth-last-child-mod"@ {
                    assert(take_at(toks, 6, TokenValueV::ParenClose) is Ok);
                } else if id == "nth-child"@ {
                    assert(take_at(toks, 4, TokenValueV::ParenClose) is Ok);
                } else if id == "nth-last-child"@ {
                    assert(take_at(toks, 4, TokenValueV::ParenClose) is Ok);
                }
            }
        }
    }
}

/// All selectors of a token stream, read one after the other until the tokens run out.
pub open spec fn selectors_spec(toks: Seq<TokenV>) -> Result<Seq<SelectorV>, ErrorV>
    decreases toks.len(),
{
    if toks.len() == 0 {
        Ok(Seq::empty())
    } else {
        match selector_spec(toks) {
            Err(e) => Err(e),
            Ok((s, n)) => if 1 <= n <= toks.len() {
                match selectors_spec(toks.skip(n)) {
                    Ok(rest) => Ok(seq![s] + rest),
                    Err(e) => Err(e),
                }
            } else {
                Ok(seq![s])
            },
        }
    }
}

/// A keyword-valued property: the token must be an identifier whose lowercase form is one of the
/// keywords; `pick` maps the lowercase text to the value.
pub open spec fn align_spec(toks: Seq<TokenV>) -> Result<Align, ErrorV> {
    if toks.len() == 0 {
        Err(ErrorV::Eof)
    } else {
        match toks[0].value {
            TokenValueV::Iden(ty) => {
                let l = lower_text(ty);
                if l == "begin"@ || l == "left"@ || l == "top"@ {
                    Ok(Align::Begin)
                } else if l == "center"@ {
                    Ok(Align::Center)
                } else if l == "end"@ || l == "right"@ || l == "bottom"@ {
                    Ok(Align::End)
                } else {
                    Err(ErrorV::Syntax(align_message(), toks[0].pos))
                }
            },
            _ => Err(ErrorV::Syntax(align_message(), toks[0].pos)),
        }
    }
}

pub open spec fn align_message() -> Seq<char> {
    "Expected `begin`, `center` or `end`"@
}

pub open spec fn direction_message() -> Seq<char> {
    "Expected `top-to-bottom`, `left-to-right`, `right-to-left` or `bottom-to-top`"@
}

/// A layout direction, read from the front of `toks`.
pub open spec fn direction_spec(toks: Seq<TokenV>) -> Result<Direction, ErrorV> {
    if toks.len() == 0 {
        Err(ErrorV::Eof)
    } else {
        match toks[0].value {
            TokenValueV::Iden(ty) => {
                let l = lower_text(ty);
                if l == "top-to-bottom"@ {
                    Ok(Direction::TopToBottom)
                } else if l == "left-to-right"@ {
                    Ok(Direction::LeftToRight)
                } else if l == "right-to-left"@ {
                    Ok(Direction::RightToLeft)
                } else if l == "bottom-to-top"@ {
                    Ok(Direction::BottomToTop)
                } else {
                    Err(ErrorV::Syntax(direction_message(), toks[0].pos))
                }
            },
            _ => Err(ErrorV::Syntax(direction_message(), toks[0].pos)),
        }
    }
}

pub open spec fn text_wrap_message() -> Seq<char> {
    "Expected `no-wrap`, `word-wrap` or `wrap`"@
}

/// A text wrapping strategy, read from the front of `toks`.
pub open spec fn text_wrap_spec(toks: Seq<TokenV>) -> Result<TextWrap, ErrorV> {
    if toks.len() == 0 {
        Err(ErrorV::Eof)
    } else {
        match toks[0].value {
            TokenValueV::Iden(ty) => {
                let l = lower_text(ty);
                if l == "no-wrap"@ {
                    Ok(TextWrap::NoWrap)
                } else if l == "word-wrap"@ {
                    Ok(TextWrap::WordWrap)
                } else if l == "wrap"@ {
                    Ok(TextWrap::Wrap)
                } else {
                    Err(ErrorV::Syntax(text_wrap_message(), toks[0].pos))
                }
            },
            _ => Err(ErrorV::Syntax(text_wrap_message(), toks[0].pos)),
        }
    }
}

/// The keyword of a text wrapping strategy.
pub open spec fn text_wrap_name(w: TextWrap) -> Seq<char> {
    match w {
        TextWrap::NoWrap => "no-wrap"@,
        TextWrap::Wrap => "wrap"@,
        TextWrap::WordWrap => "word-wrap"@,
    }
}

/// The keyword of a layout direction.
pub open spec fn direction_name(d: Direction) -> Seq<char> {
    match d {
        Direction::TopToBottom => "top-to-bottom"@,
        Direction::LeftToRight => "left-to-right"@,
        Direction::RightToLeft => "right-to-left"@,
        Direction::BottomToTop => "bottom-to-top"@,
    }
}

/// Whether `name` is a keyword of alignment `a`: `begin`, `left` or `top` for the beginning,
/// `center`, and `end`, `right` or `bottom` for the end.
pub open spec fn align_named(a: Align, name: Seq<char>) -> bool {
    match a {
        Align::Begin => name == "begin"@ || name == "left"@ || name == "top"@,
        Align::Center => name == "center"@,
        Align::End => name == "end"@ || name == "right"@ || name == "bottom"@,
    }
}

/// Keyword values: an identifier whose text, in lower case, is the keyword of a text wrapping
/// strategy, a layout direction or an alignment reads as that very value.
pub proof fn lemma_keyword_values(
    toks: Seq<TokenV>,
    ty: Seq<char>,
    w: TextWrap,
    d: Direction,
    a: Align,
)
    requires
        toks.len() > 0,
        toks[0].value == TokenValueV::Iden(ty),
    ensures
        lower_text(ty) == text_wrap_name(w) ==> text_wrap_spec(toks) == Ok::<TextWrap, ErrorV>(w),
        lower_text(ty) == direction_name(d) ==> direction_spec(toks) == Ok::<Direction, ErrorV>(d),
        align_named(a, lower_text(ty)) ==> align_spec(toks) == Ok::<Align, ErrorV>(a),
{
    reveal_strlit("no-wrap");
    reveal_strlit("wrap");
    reveal_strlit("word-wrap");
    reveal_strlit("top-to-bottom");
    reveal_strlit("left-to-right");
    reveal_strlit("right-to-left");
    reveal_strlit("bottom-to-top");
    reveal_strlit("begin");
    reveal_strlit("left");
    reveal_strlit("top");
    reveal_strlit("center");
    reveal_strlit("end");
    reveal_strlit("right");
    reveal_strlit("bottom");
    assert("no-wrap"@.len() == 7);
    assert("wrap"@.len() == 4);
    assert("word-wrap"@.len() == 9);
    assert("top-to-bottom"@.len() == 13 && "top-to-bottom"@[0] == 't');
    assert("left-to-right"@.len() == 13 && "left-to-right"@[0] == 'l');
    assert("right-to-left"@.len() == 13 && "right-to-left"@[0] == 'r');
    assert("bottom-to-top"@.len() == 13 && "bottom-to-top"@[0] == 'b');
    assert("begin"@.len() == 5 && "begin"@[0] == 'b');
    assert("left"@.len() == 4);
    assert("top"@.len() == 3 && "top"@[0] == 't');
    assert("center"@.len() == 6 && "center"@[0] == 'c');
    assert("end"@.len() == 3 && "end"@[0] == 'e');
    assert("right"@.len() == 5 && "right"@[0] == 'r');
    assert("bottom"@.len() == 6 && "bottom"@[0] == 'b');
}

/// Whether `r`, the result of a reader, is `expected` under `view`.
pub open spec fn result_is<T, V>(r: Result<T, Error>, expected: Result<V, ErrorV>, view: spec_fn(
    T,
) -> V) -> bool {
    match (r, expected) {
        (Ok(v), Ok(e)) => view(v) == e,
        (Err(e), Err(x)) => e@ == x,
        _ => false,
    }
}

// ---------------------------------------------------------------------------------------------
// The readers
// ---------------------------------------------------------------------------------------------
impl TokenProvider {
    /// The tokens still to be read, the next one first.
    pub closed spec fn rest(&self) -> Seq<TokenV> {
        Seq::new(self.tokens@.len(), |i: int| self.tokens@[self.tokens@.len() - 1 - i]@)
    }

    /// A provider of the given tokens, in order.
    pub fn new(tokens: Vec<Token>) -> (p: TokenProvider)
        ensures
            p.rest() == tokens_view(tokens@),
    {
        let mut tokens = tokens;
        let ghost all = tokens_view(tokens@);
        let mut reversed: Vec<Token> = Vec::new();
        while tokens.len() > 0
            invariant
                tokens.len() + reversed.len() == all.len(),
                forall|i: int| 0 <= i < tokens.len() ==> tokens@[i]@ == all[i],
                forall|i: int|
                    0 <= i < reversed.len() ==> reversed@[i]@ == all[all.len() - 1 - i],
            decreases tokens.len(),
        {
            let t = tokens.pop().unwrap();
            reversed.push(t);
        }
        let p = TokenProvider { tokens: reversed };
        assert(p.rest() =~= all);
        p
    }

    /// Reads the next token.
    pub fn next(&mut self) -> (r: Option<Token>)
        ensures
            old(self).rest().len() == 0 ==> r is None && final(self).rest() == old(self).rest(),
            old(self).rest().len() > 0 ==> (r matches Some(t) && t@ == old(self).rest()[0]
                && final(self).rest() == old(self).rest().drop_first()),
    {
        let r = self.tokens.pop();
        proof {
            if old(self).tokens.len() > 0 {
                assert(self.rest() =~= old(self).rest().drop_first());
            }
        }
        r
    }

    /// The next token, left in the stream.
    pub fn peek(&self) -> (r: Option<&Token>)
        ensures
            self.rest().len() == 0 ==> r is None,
            self.rest().len() > 0 ==> (r matches Some(t) && t@ == self.rest()[0]),
    {
        if self.tokens.len() == 0 {
            None
        } else {
            Some(&self.tokens[self.tokens.len() - 1])
        }
    }

    /// Reads the next token, which must have the value `token`.
    pub fn take(&mut self, token: TokenValue) -> (r: Result<Token, Error>)
        ensures
            result_is(r, take_at(old(self).rest(), 0, token@), |t: Token| t@),
            final(self).rest() == one_read(old(self).rest()),
    {
        let t = match self.next() {
            Some(t) => t,
            None => return Err(Error::Eof),
        };
        if token.equals(&t.0) {
            Ok(t)
        } else {
            let mut msg = String::from_str("Expected '");
            msg.append(name_of(&token));
            msg.append("'");
            Err(Error::Syntax(msg, t.1))
        }
    }

    /// Reads the next token, which must be an identifier.
    pub fn take_identifier(&mut self) -> (r: Result<(String, TokenPos), Error>)
        ensures
            result_is(r, ident_at(old(self).rest(), 0), |p: (String, TokenPos)| (p.0@, p.1)),
            final(self).rest() == one_read(old(self).rest()),
    {
        match self.next() {
            Some(Token(TokenValue::Iden(id), pos)) => Ok((id, pos)),
            Some(Token(_, pos)) => Err(
                Error::Syntax(String::from_str("Expected 'Identifier'"), pos),
            ),
            None => Err(Error::Eof),
        }
    }
}

/// Reads a decimal `usize` the way `str::parse::<usize>` does.
fn parse_usize_text(s: &str) -> (r: Result<usize, &'static str>)
    ensures
        match usize_text(s@) {
            Ok(v) => r == Ok::<usize, &'static str>(v),
            Err(m) => r matches Err(x) && x@ == m,
        },
{
    let mut chars: Vec<char> = Vec::new();
    for ch in it: s.chars()
        invariant
            it.seq() == s@,
            chars@ == s@.take(it.index() as int),
    {
        chars.push(ch);
        proof {
            assert(chars@ =~= s@.take(it.index() + 1));
        }
    }
    proof {
        assert(chars@ =~= s@);
    }
    let len = chars.len();
    if len == 0 {
        return Err("cannot parse integer from empty string");
    }
    if len == 1 && (chars[0] == '+' || chars[0] == '-') {
        return Err("invalid digit found in string");
    }
    let start: usize = if chars[0] == '+' {
        1
    } else {
        0
    };
    let ghost d = if chars@[0] == '+' {
        chars@.drop_first()
    } else {
        chars@
    };
    assert(d =~= chars@.subrange(start as int, len as int));
    let mut v: usize = 0;
    let mut i: usize = start;
    while i < len
        invariant
            start <= i <= len,
            len == chars@.len(),
            len > 0,
            chars@ == s@,
            !(len == 1 && (chars@[0] == '+' || chars@[0] == '-')),
            d == (if chars@[0] == '+' {
                chars@.drop_first()
            } else {
                chars@
            }),
            d == chars@.subrange(start as int, len as int),
            digits_value(d.take(i - start)) == Ok::<int, Seq<char>>(v as int),
        decreases len - i,
    {
        let ch = chars[i];
        proof {
            assert(d.take(i - start + 1).drop_last() =~= d.take(i - start));
            assert(d.take(i - start + 1).last() == ch);
        }
        if !('0' <= ch && ch <= '9') {
            proof {
                lemma_digits_error_persists(d, i - start + 1);
            }
            return Err("invalid digit found in string");
        }
        let digit = (ch as u32 - '0' as u32) as usize;
        if v > (usize::MAX - digit) / 10 {
            proof {
                assert(v * 10 + digit > usize::MAX) by (nonlinear_arith)
                    requires
                        v > (usize::MAX - digit) / 10,
                        digit <= 9,
                ;
                lemma_digits_error_persists(d, i - start + 1);
            }
            return Err("number too large to fit in target type");
        }
        proof {
            assert(v * 10 + digit <= usize::MAX) by (nonlinear_arith)
                requires
                    v <= (usize::MAX - digit) / 10,
                    digit <= 9,
            ;
        }
        v = v * 10 + digit;
        i += 1;
    }
    proof {
        assert(d.take(i - start) =~= d);
    }
    Ok(v)
}

/// Once a prefix of the digits fails to read, the whole run fails with the same error.
proof fn lemma_digits_error_persists(d: Seq<char>, n: int)
    requires
        0 <= n <= d.len(),
        digits_value(d.take(n)) is Err,
    ensures
        digits_value(d) == digits_value(d.take(n)),
    decreases d.len() - n,
{
    if n < d.len() {
        assert(d.take(n + 1).drop_last() =~= d.take(n));
        lemma_digits_error_persists(d, n + 1);
    } else {
        assert(d.take(n) =~= d);
    }
}

/// Reads a number token as a `usize`.
pub fn parse_usize(c: &mut TokenProvider) -> (r: Result<usize, Error>)
    ensures
        result_is(r, usize_at(old(c).rest(), 0), |v: usize| v),
        final(c).rest() == one_read(old(c).rest()),
{
    match c.next() {
        Some(Token(TokenValue::Number(number), pos)) => match parse_usize_text(number.as_str()) {
            Ok(v) => Ok(v),
            Err(msg) => Err(Error::Syntax(String::from_str(msg), pos)),
        },
        Some(Token(_, pos)) => Err(Error::Syntax(String::from_str("Expected <integer>"), pos)),
        None => Err(Error::Eof),
    }
}

/// Reads a widget name: `*` or an identifier.
pub fn parse_widget(c: &mut TokenProvider) -> (r: Result<SelectorWidget, Error>)
    ensures
        result_is(r, widget_at(old(c).rest(), 0), |w: SelectorWidget| w@),
        final(c).rest() == one_read(old(c).rest()),
{
    match c.next() {
        Some(Token(TokenValue::Star, _)) => Ok(SelectorWidget::Any),
        Some(Token(TokenValue::Iden(widget), _)) => Ok(SelectorWidget::Named(widget)),
        Some(Token(_, pos)) => Err(
            Error::Syntax(String::from_str("Expected '*' or 'identifier'"), pos),
        ),
        None => Err(Error::Eof),
    }
}

/// Reads an alignment: `begin`, `left` or `top`; `center`; `end`, `right` or `bottom`, in any
/// case.
pub fn parse_align(c: &mut TokenProvider) -> (r: Result<Align, Error>)
    ensures
        result_is(r, align_spec(old(c).rest()), |a: Align| a),
        final(c).rest() == one_read(old(c).rest()),
{
    match c.next() {
        Some(Token(TokenValue::Iden(ty), pos)) => {
            let l = to_lowercase(ty.as_str());
            let l = l.as_str();
            if str_eq(l, "begin") || str_eq(l, "left") || str_eq(l, "top") {
                Ok(Align::Begin)
            } else if str_eq(l, "center") {
                Ok(Align::Center)
            } else if str_eq(l, "end") || str_eq(l, "right") || str_eq(l, "bottom") {
                Ok(Align::End)
            } else {
                Err(Error::Syntax(String::from_str("Expected `begin`, `center` or `end`"), pos))
            }
        },
        Some(Token(_, pos)) => Err(
            Error::Syntax(String::from_str("Expected `begin`, `center` or `end`"), pos),
        ),
        None => Err(Error::Eof),
    }
}

/// Reads a layout direction, in any case.
pub fn parse_direction(c: &mut TokenProvider) -> (r: Result<Direction, Error>)
    ensures
        result_is(r, direction_spec(old(c).rest()), |a: Direction| a),
        final(c).rest() == one_read(old(c).rest()),
{
    match c.next() {
        Some(Token(TokenValue::Iden(ty), pos)) => {
            let l = to_lowercase(ty.as_str());
            let l = l.as_str();
            if str_eq(l, "top-to-bottom") {
                Ok(Direction::TopToBottom)
            } else if str_eq(l, "left-to-right") {
                Ok(Direction::LeftToRight)
            } else if str_eq(l, "right-to-left") {
                Ok(Direction::RightToLeft)
            } else if str_eq(l, "bottom-to-top") {
                Ok(Direction::BottomToTop)
            } else {
                Err(
                    Error::Syntax(
                        String::from_str(
                            "Expected `top-to-bottom`, `left-to-right`, `right-to-left` or `bottom-to-top`",
                        ),
                        pos,
                    ),
                )
            }
        },
        Some(Token(_, pos)) => Err(
            Error::Syntax(
                String::from_str(
                    "Expected `top-to-bottom`, `left-to-right`, `right-to-left` or `bottom-to-top`",
                ),
                pos,
            ),
        ),
        None => Err(Error::Eof),
    }
}

/// Reads a text wrapping strategy, in any case.
pub fn parse_text_wrap(c: &mut TokenProvider) -> (r: Result<TextWrap, Error>)
    ensures
        result_is(r, text_wrap_spec(old(c).rest()), |a: TextWrap| a),
        final(c).rest() == one_read(old(c).rest()),
{
    match c.next() {
        Some(Token(TokenValue::Iden(ty), pos)) => {
            let l = to_lowercase(ty.as_str());
            let l = l.as_str();
            if str_eq(l, "no-wrap") {
                Ok(TextWrap::NoWrap)
            } else if str_eq(l, "word-wrap") {
                Ok(TextWrap::WordWrap)
            } else if str_eq(l, "wrap") {
                Ok(TextWrap::Wrap)
            } else {
                Err(
                    Error::Syntax(
                        String::from_str("Expected `no-wrap`, `word-wrap` or `wrap`"),
                        pos,
                    ),
                )
            }
        },
        Some(Token(_, pos)) => Err(
            Error::Syntax(String::from_str("Expected `no-wrap`, `word-wrap` or `wrap`"), pos),
        ),
        None => Err(Error::Eof),
    }
}

/// The readers above look at tokens by index, so reading from a later start is reading the
/// stream with its first tokens removed.
pub(crate) proof fn lemma_shift(toks: Seq<TokenV>, k: int)
    requires
        0 <= k <= toks.len(),
    ensures
        pair_at(toks.skip(k), 0) == pair_at(toks, k),
        nth_at(toks.skip(k), 0, false) == nth_at(toks, k, false),
        nth_at(toks.skip(k), 0, true) == nth_at(toks, k, true),
        forall|i: int, v: TokenValueV|
            0 <= i ==> #[trigger] take_at(toks.skip(k), i, v) == take_at(toks, k + i, v),
{
    assert forall|i: int, v: TokenValueV| 0 <= i implies #[trigger] take_at(toks.skip(k), i, v)
        == take_at(toks, k + i, v) by {
        if k + i < toks.len() {
            assert(toks.skip(k)[i] == toks[k + i]);
        }
    }
    assert forall|i: int| 0 <= i implies #[trigger] usize_at(toks.skip(k), i) == usize_at(
        toks,
        k + i,
    ) by {
        if k + i < toks.len() {
            assert(toks.skip(k)[i] == toks[k + i]);
        }
    }
    if k + 1 < toks.len() {
        assert(toks.skip(k)[1] == toks[k + 1]);
    }
    assert(take_at(toks.skip(k), 0, TokenValueV::ParenOpen) == take_at(toks, k, TokenValueV::ParenOpen));
    assert(take_at(toks.skip(k), 2, TokenValueV::Comma) == take_at(toks, k + 2, TokenValueV::Comma));
    assert(take_at(toks.skip(k), 2, TokenValueV::ParenClose) == take_at(toks, k + 2, TokenValueV::ParenClose));
    assert(take_at(toks.skip(k), 4, TokenValueV::ParenClose) == take_at(toks, k + 4, TokenValueV::ParenClose));
    assert(usize_at(toks.skip(k), 1) == usize_at(toks, k + 1));
    assert(usize_at(toks.skip(k), 3) == usize_at(toks, k + 3));
}

/// Reads `(a, b)`.
fn parse_pair(c: &mut TokenProvider) -> (r: Result<(usize, usize), Error>)
    ensures
        result_is(r, pair_at(old(c).rest(), 0), |p: (usize, usize)| p),
        r is Ok ==> old(c).rest().len() >= 5 && final(c).rest() == old(c).rest().skip(5),
{
    let ghost toks = c.rest();
    proof {
        lemma_shift(toks, 0);
    }
    match c.take(TokenValue::ParenOpen) {
        Err(e) => return Err(e),
        Ok(_) => {},
    }
    proof {
        lemma_shift(toks, 1);
        assert(c.rest() =~= toks.skip(1));
    }
    let a = match parse_usize(c) {
        Err(e) => return Err(e),
        Ok(a) => a,
    };
    proof {
        lemma_shift(toks, 2);
        assert(c.rest() =~= toks.skip(2));
    }
    match c.take(TokenValue::Comma) {
        Err(e) => return Err(e),
        Ok(_) => {},
    }
    proof {
        lemma_shift(toks, 3);
        assert(c.rest() =~= toks.skip(3));
    }
    let b = match parse_usize(c) {
        Err(e) => return Err(e),
        Ok(b) => b,
    };
    proof {
        lemma_shift(toks, 4);
        assert(c.rest() =~= toks.skip(4));
    }
    match c.take(TokenValue::ParenClose) {
        Err(e) => return Err(e),
        Ok(_) => {},
    }
    proof {
        assert(c.rest() =~= toks.skip(5));
    }
    Ok((a, b))
}

/// Reads the bracketed argument of `nth-child` or, with `last`, of `nth-last-child`.
fn parse_nth(c: &mut TokenProvider, last: bool) -> (r: Result<Selector, Error>)
    ensures
        result_is(r, nth_at(old(c).rest(), 0, last), |s: Selector| s@),
        r is Ok ==> old(c).rest().len() >= 3 && final(c).rest() == old(c).rest().skip(3),
{
    let ghost toks = c.rest();
    match c.take(TokenValue::ParenOpen) {
        Err(e) => return Err(e),
        Ok(_) => {},
    }
    proof {
        assert(c.rest() =~= toks.skip(1));
    }
    let result = match c.next() {
        None => return Err(Error::Eof),
        Some(Token(TokenValue::Iden(special), pos)) => {
            if str_eq(special.as_str(), "odd") {
                if last {
                    Selector::NthLastMod(1, 2)
                } else {
                    Selector::NthMod(1, 2)
                }
            } else if str_eq(special.as_str(), "even") {
                if last {
                    Selector::NthLastMod(0, 2)
                } else {
                    Selector::NthMod(0, 2)
                }
            } else {
                return Err(
                    Error::Syntax(String::from_str("Expected 'odd', 'even' or <number>"), pos),
                );
            }
        },
        Some(Token(TokenValue::Number(number), pos)) => match parse_usize_text(number.as_str()) {
            Ok(v) => if last {
                Selector::NthLast(v)
            } else {
                Selector::Nth(v)
            },
            Err(msg) => return Err(Error::Syntax(String::from_str(msg), pos)),
        },
        Some(Token(_, pos)) => return Err(
            Error::Syntax(String::from_str("Expected 'odd', 'even' or <number>"), pos),
        ),
    };
    proof {
        assert(c.rest() =~= toks.skip(2));
        lemma_shift(toks, 2);
    }
    match c.take(TokenValue::ParenClose) {
        Err(e) => return Err(e),
        Ok(_) => {},
    }
    proof {
        assert(c.rest() =~= toks.skip(3));
    }
    Ok(result)
}

/// Reads one selector.
pub fn parse_selector(c: &mut TokenProvider) -> (r: Result<Selector, Error>)
    ensures
        match selector_spec(old(c).rest()) {
            Ok((sel, n)) => r matches Ok(s) && s@ == sel && final(c).rest() == old(c).rest().skip(n),
            Err(e) => r matches Err(x) && x@ == e,
        },
    decreases old(c).rest().len(),
{
    let ghost toks = c.rest();
    proof {
        lemma_selector_consumes(toks);
    }
    let first = match c.next() {
        None => return Err(Error::Eof),
        Some(t) => t,
    };
    proof {
        assert(c.rest() =~= toks.skip(1));
    }
    match first {
        Token(TokenValue::Star, _) => Ok(Selector::Widget(SelectorWidget::Any)),
        Token(TokenValue::Dot, _) => match c.take_identifier() {
            Ok((id, _)) => Ok(Selector::Class(id)),
            Err(e) => Err(e),
        },
        Token(TokenValue::Iden(widget), _) => Ok(Selector::Widget(SelectorWidget::Named(widget))),
        Token(TokenValue::Gt, _) => match parse_widget(c) {
            Ok(w) => Ok(Selector::WidgetDirectChild(w)),
            Err(e) => Err(e),
        },
        Token(TokenValue::Plus, _) => match parse_widget(c) {
            Ok(w) => Ok(Selector::WidgetDirectAfter(w)),
            Err(e) => Err(e),
        },
        Token(TokenValue::Tilde, _) => match parse_widget(c) {
            Ok(w) => Ok(Selector::WidgetAfter(w)),
            Err(e) => Err(e),
        },
        Token(TokenValue::Colon, _) => {
            let (id, _pos) = match c.take_identifier() {
                Ok(p) => p,
                Err(e) => return Err(e),
            };
            proof {
                assert(c.rest() =~= toks.skip(2));
                lemma_shift(toks, 2);
            }
            let id = id.as_str();
            if str_eq(id, "nth-child-mod") {
                match parse_pair(c) {
                    Ok((a, b)) => Ok(Selector::NthMod(a, b)),
                    Err(e) => Err(e),
                }
            } else if str_eq(id, "nth-last-child-mod") {
                match parse_pair(c) {
                    Ok((a, b)) => Ok(Selector::NthLastMod(a, b)),
                    Err(e) => Err(e),
                }
            } else if str_eq(id, "nth-child") {
                parse_nth(c, false)
            } else if str_eq(id, "nth-last-child") {
                parse_nth(c, true)
            } else if str_eq(id, "first-child") {
                Ok(Selector::Nth(0))
            } else if str_eq(id, "last-child") {
                Ok(Selector::NthLast(0))
            } else if str_eq(id, "only-child") {
                Ok(Selector::OnlyChild)
            } else if str_eq(id, "not") {
                match c.take(TokenValue::ParenOpen) {
                    Err(e) => return Err(e),
                    Ok(_) => {},
                }
                proof {
                    assert(c.rest() =~= toks.skip(3));
                }
                let inner = match parse_selector(c) {
                    Ok(s) => s,
                    Err(e) => return Err(e),
                };
                let ghost n = selector_spec(toks.skip(3))->Ok_0.1;
                proof {
                    lemma_selector_consumes(toks.skip(3));
                    assert(c.rest() =~= toks.skip(3 + n));
                    lemma_shift(toks, 3 + n);
                }
                match c.take(TokenValue::ParenClose) {
                    Err(e) => return Err(e),
                    Ok(_) => {},
                }
                proof {
                    assert(c.rest() =~= toks.skip(4 + n));
                }
                Ok(Selector::Not(Box::new(inner)))
            } else if str_eq(id, "hover") {
                Ok(Selector::State(StyleState::Hover))
            } else if str_eq(id, "pressed") {
                Ok(Selector::State(StyleState::Pressed))
            } else if str_eq(id, "checked") {
                Ok(Selector::State(StyleState::Checked))
            } else if str_eq(id, "disabled") {
                Ok(Selector::State(StyleState::Disabled))
            } else if str_eq(id, "open") {
                Ok(Selector::State(StyleState::Open))
            } else if str_eq(id, "closed") {
                Ok(Selector::State(StyleState::Closed))
            } else if str_eq(id, "drag") {
                Ok(Selector::State(StyleState::Drag))
            } else if str_eq(id, "drop") {
                Ok(Selector::State(StyleState::Drop))
            } else {
                Ok(Selector::State(StyleState::Custom(String::from_str(id))))
            }
        },
        Token(_, pos) => Err(Error::Syntax(String::from_str("expected `<selector>`"), pos)),
    }
}

/// Reads selectors until the tokens run out.
pub fn parse_selectors(tokens: Vec<Token>) -> (r: Result<Vec<Selector>, Error>)
    ensures
        result_is(r, selectors_spec(tokens_view(tokens@)), |v: Vec<Selector>| selectors_view(v@)),
{
    let mut p = TokenProvider::new(tokens);
    let ghost all = p.rest();
    let mut result: Vec<Selector> = Vec::new();
    while p.peek().is_some()
        invariant
            all == tokens_view(tokens@),
            match selectors_spec(all) {
                Ok(sels) => selectors_spec(p.rest()) is Ok && sels == selectors_view(result@)
                    + selectors_spec(p.rest())->Ok_0,
                Err(e) => selectors_spec(p.rest()) == Err::<Seq<SelectorV>, ErrorV>(e),
            },
        decreases p.rest().len(),
    {
        let ghost before = p.rest();
        proof {
            lemma_selector_consumes(before);
        }
        match parse_selector(&mut p) {
            Ok(s) => {
                let ghost prev = result@;
                result.push(s);
                proof {
                    assert(selectors_view(result@) =~= selectors_view(prev).push(s@));
                    assert(selectors_view(result@) + selectors_spec(p.rest())->Ok_0 =~= selectors_view(prev) + (seq![s@] + selectors_spec(p.rest())->Ok_0));
                }
            },
            Err(e) => {
                proof {
                    assert(before.len() > 0);
                    assert(selectors_spec(before) == Err::<Seq<SelectorV>, ErrorV>(e@));
                }
                return Err(e);
            },
        }
    }
    proof {
        assert(selectors_view(result@) + Seq::<SelectorV>::empty() =~= selectors_view(result@));
    }
    Ok(result)
}

/// The selectors that open a rule, read one after the other up to and including the `{` that
/// starts its declarations, with the number of tokens they take.
pub open spec fn rule_head_spec(toks: Seq<TokenV>) -> Result<(Seq<SelectorV>, int), ErrorV>
    decreases toks.len(),
{
    if toks.len() == 0 {
        Err(ErrorV::Eof)
    } else if toks[0].value is BraceOpen {
        Ok((Seq::empty(), 1))
    } else {
        match selector_spec(toks) {
            Err(e) => Err(e),
            Ok((s, n)) => if 1 <= n <= toks.len() {
                match rule_head_spec(toks.skip(n)) {
                    Ok((rest, m)) => Ok((seq![s] + rest, n + m)),
                    Err(e) => Err(e),
                }
            } else {
                Err(ErrorV::Eof)
            },
        }
    }
}

/// What the head of a rule takes is at least its `{`, and no more than there is.
pub(crate) proof fn lemma_rule_head_consumes(toks: Seq<TokenV>)
    ensures
        rule_head_spec(toks) matches Ok((_, n)) ==> 1 <= n <= toks.len(),
    decreases toks.len(),
{
    if toks.len() > 0 && !(toks[0].value is BraceOpen) {
        lemma_selector_consumes(toks);
        if let Ok((_, n)) = selector_spec(toks) {
            lemma_rule_head_consumes(toks.skip(n));
        }
    }
}

/// Reads the selectors of a rule, up to and including the `{` that opens its declarations.
pub fn parse_rule_selectors(c: &mut TokenProvider) -> (r: Result<Vec<Selector>, Error>)
    ensures
        match rule_head_spec(old(c).rest()) {
            Ok((sels, n)) => r matches Ok(v) && selectors_view(v@) == sels && final(c).rest()
                == old(c).rest().skip(n),
            Err(e) => r matches Err(x) && x@ == e,
        },
{
    let ghost all = c.rest();
    proof {
        lemma_rule_head_consumes(all);
    }
    let mut selectors: Vec<Selector> = Vec::new();
    loop
        invariant
            all == old(c).rest(),
            c.rest().len() <= all.len(),
            c.rest() == all.skip(all.len() - c.rest().len()),
            match rule_head_spec(all) {
                Ok((sels, n)) => rule_head_spec(c.rest()) matches Ok((rest, m)) && sels == selectors_view(
                    selectors@,
                ) + rest && n == (all.len() - c.rest().len()) + m,
                Err(e) => rule_head_spec(c.rest()) == Err::<(Seq<SelectorV>, int), ErrorV>(e),
            },
        decreases c.rest().len(),
    {
        let ghost before = c.rest();
        proof {
            lemma_rule_head_consumes(before);
            lemma_selector_consumes(before);
        }
        let open = match c.peek() {
            None => return Err(Error::Eof),
            Some(Token(TokenValue::BraceOpen, _)) => true,
            Some(_) => false,
        };
        if open {
            c.next();
            proof {
                assert(selectors_view(selectors@) + Seq::<SelectorV>::empty() =~= selectors_view(selectors@));
                assert(all.skip(all.len() - before.len() + 1) =~= before.skip(1));
            }
            return Ok(selectors);
        }
        match parse_selector(c) {
            Ok(s) => {
                let ghost prev = selectors@;
                selectors.push(s);
                proof {
                    let n = selector_spec(before)->Ok_0.1;
                    assert(c.rest() =~= all.skip(all.len() - c.rest().len()));
                    assert(selectors_view(selectors@) =~= selectors_view(prev).push(s@));
                    if let Ok((sels, _)) = rule_head_spec(all) {
                        let rest = rule_head_spec(c.rest())->Ok_0.0;
                        assert(selectors_view(selectors@) + rest =~= selectors_view(prev) + (seq![s@] + rest));
                    }
                }
            },
            Err(e) => {
                return Err(e);
            },
        }
    }
}

/// The value of a flag: the identifier `true` or `false`.
pub open spec fn flag_spec(toks: Seq<TokenV>) -> Result<bool, ErrorV> {
    match ident_at(toks, 0) {
        Err(e) => Err(e),
        Ok((id, pos)) => if id == "true"@ {
            Ok(true)
        } else if id == "false"@ {
            Ok(false)
        } else {
            Err(ErrorV::Syntax("Flag values must be either `true` or `false`"@, pos))
        },
    }
}

/// Reads the value of a flag property: whether the flag is added (`true`) or removed (`false`).
pub fn parse_flag(c: &mut TokenProvider) -> (r: Result<bool, Error>)
    ensures
        result_is(r, flag_spec(old(c).rest()), |b: bool| b),
        final(c).rest() == one_read(old(c).rest()),
{
    let (id, pos) = match c.take_identifier() {
        Ok(x) => x,
        Err(e) => return Err(e),
    };
    proof {
        reveal_strlit("true");
        reveal_strlit("false");
    }
    if str_eq(id.as_str(), "true") {
        Ok(true)
    } else if str_eq(id.as_str(), "false") {
        Ok(false)
    } else {
        Err(Error::Syntax(String::from_str("Flag values must be either `true` or `false`"), pos))
    }
}

/// The value of a hexadecimal digit, either case.
pub open spec fn hex_digit(c: char) -> Option<int> {
    if '0' <= c <= '9' {
        Some(c as int - '0' as int)
    } else if 'a' <= c <= 'f' {
        Some(c as int - 'a' as int + 10)
    } else if 'A' <= c <= 'F' {
        Some(c as int - 'A' as int + 10)
    } else {
        None
    }
}

/// The value of a run of hexadecimal digits, read from the left: the first non-digit, or the
/// first digit at which the value leaves the range of `u32`, ends it with an error.
pub open spec fn hex_digits_value(d: Seq<char>) -> Result<int, Seq<char>>
    decreases d.len(),
{
    if d.len() == 0 {
        Ok(0)
    } else {
        match hex_digits_value(d.drop_last()) {
            Err(e) => Err(e),
            Ok(v) => match hex_digit(d.last()) {
                None => Err(invalid_digit()),
                Some(x) => if v * 16 + x > u32::MAX {
                    Err(too_large())
                } else {
                    Ok(v * 16 + x)
                },
            },
        }
    }
}

/// Reads a hexadecimal `u32` the way `u32::from_str_radix(s, 16)` does: an optional leading
/// `+`, then hexadecimal digits.
pub open spec fn hex_text(s: Seq<char>) -> Result<u32, Seq<char>> {
    if s.len() == 0 {
        Err("cannot parse integer from empty string"@)
    } else if s.len() == 1 && (s[0] == '+' || s[0] == '-') {
        Err(invalid_digit())
    } else {
        let d = if s[0] == '+' {
            s.drop_first()
        } else {
            s
        };
        match hex_digits_value(d) {
            Ok(v) => Ok(v as u32),
            Err(e) => Err(e),
        }
    }
}

/// Once a prefix of the hexadecimal digits fails to read, the whole run fails with the same
/// error.
proof fn lemma_hex_error_persists(d: Seq<char>, n: int)
    requires
        0 <= n <= d.len(),
        hex_digits_value(d.take(n)) is Err,
    ensures
        hex_digits_value(d) == hex_digits_value(d.take(n)),
    decreases d.len() - n,
{
    if n < d.len() {
        assert(d.take(n + 1).drop_last() =~= d.take(n));
        lemma_hex_error_persists(d, n + 1);
    } else {
        assert(d.take(n) =~= d);
    }
}

/// Reads a hexadecimal `u32` the way `u32::from_str_radix(s, 16)` does, and the number of
/// characters of the text.
fn parse_hex_text(s: &str) -> (r: (Result<u32, &'static str>, usize))
    ensures
        r.1 == s@.len(),
        match hex_text(s@) {
            Ok(v) => r.0 == Ok::<u32, &'static str>(v),
            Err(m) => r.0 matches Err(x) && x@ == m,
        },
{
    let mut chars: Vec<char> = Vec::new();
    for ch in it: s.chars()
        invariant
            it.seq() == s@,
            chars@ == s@.take(it.index() as int),
    {
        chars.push(ch);
        proof {
            assert(chars@ =~= s@.take(it.index() + 1));
        }
    }
    proof {
        assert(chars@ =~= s@);
    }
    let len = chars.len();
    if len == 0 {
        return (Err("cannot parse integer from empty string"), len);
    }
    if len == 1 && (chars[0] == '+' || chars[0] == '-') {
        return (Err("invalid digit found in string"), len);
    }
    let start: usize = if chars[0] == '+' {
        1
    } else {
        0
    };
    let ghost d = if chars@[0] == '+' {
        chars@.drop_first()
    } else {
        chars@
    };
    assert(d =~= chars@.subrange(start as int, len as int));
    let mut v: u32 = 0;
    let mut i: usize = start;
    while i < len
        invariant
            start <= i <= len,
            len == chars@.len(),
            len > 0,
            chars@ == s@,
            !(len == 1 && (chars@[0] == '+' || chars@[0] == '-')),
            d == (if chars@[0] == '+' {
                chars@.drop_first()
            } else {
                chars@
            }),
            d == chars@.subrange(start as int, len as int),
            hex_digits_value(d.take(i - start)) == Ok::<int, Seq<char>>(v as int),
        decreases len - i,
    {
        let ch = chars[i];
        proof {
            assert(d.take(i - start + 1).drop_last() =~= d.take(i - start));
            assert(d.take(i - start + 1).last() == ch);
        }
        let digit: u32 = if '0' <= ch && ch <= '9' {
            ch as u32 - '0' as u32
        } else if 'a' <= ch && ch <= 'f' {
            ch as u32 - 'a' as u32 + 10
        } else if 'A' <= ch && ch <= 'F' {
            ch as u32 - 'A' as u32 + 10
        } else {
            proof {
                lemma_hex_error_persists(d, i - start + 1);
            }
            return (Err("invalid digit found in string"), len);
        };
        if v > (u32::MAX - digit) / 16 {
            proof {
                assert(v * 16 + digit > u32::MAX) by (nonlinear_arith)
                    requires
                        v > (u32::MAX - digit) / 16,
                        digit <= 15,
                ;
                lemma_hex_error_persists(d, i - start + 1);
            }
            return (Err("number too large to fit in target type"), len);
        }
        proof {
            assert(v * 16 + digit <= u32::MAX) by (nonlinear_arith)
                requires
                    v <= (u32::MAX - digit) / 16,
                    digit <= 15,
            ;
        }
        v = v * 16 + digit;
        i += 1;
    }
    proof {
        assert(d.take(i - start) =~= d);
    }
    (Ok(v), len)
}

/// The channels of a colour on a scale from 0 to `max`: 15 for the one-digit forms, 255 for
/// the two-digit forms. A colour written without alpha is opaque: its alpha is `max`.
#[derive(Debug, Clone, Copy, PartialEq, Eq, Structural)]
pub struct HexColor {
    pub r: u32,
    pub g: u32,
    pub b: u32,
    pub a: u32,
    pub max: u32,
}

/// The message for a colour of the wrong length.
pub open spec fn color_length_message() -> Seq<char> {
    "Color values must match one of the following hex patterns: #rgb, #rgba, #rrggbb or #rrggbbaa"@
}

/// Reads token `i` as a colour: `#rgb`, `#rgba`, `#rrggbb` or `#rrggbbaa`.
pub open spec fn color_at(toks: Seq<TokenV>, i: int) -> Result<HexColor, ErrorV> {
    if i >= toks.len() {
        Err(ErrorV::Eof)
    } else {
        match toks[i].value {
            TokenValueV::Color(s) => match hex_text(s) {
                Err(m) => Err(ErrorV::Syntax(m, toks[i].pos)),
                Ok(v) => if s.len() == 3 {
                    Ok(HexColor { r: (v & 0xf00) >> 8u32, g: (v & 0x0f0) >> 4u32, b: v & 0x00f, a: 15, max: 15 })
                } else if s.len() == 4 {
                    Ok(
                        HexColor {
                            r: (v & 0xf000) >> 12u32,
                            g: (v & 0x0f00) >> 8u32,
                            b: (v & 0x00f0) >> 4u32,
                            a: v & 0x000f,
                            max: 15,
                        },
                    )
                } else if s.len() == 6 {
                    Ok(
                        HexColor {
                            r: (v & 0xff0000) >> 16u32,
                            g: (v & 0x00ff00) >> 8u32,
                            b: v & 0x0000ff,
                            a: 255,
                            max: 255,
                        },
                    )
                } else if s.len() == 8 {
                    Ok(
                        HexColor {
                            r: (v & 0xff000000) >> 24u32,
                            g: (v & 0x00ff0000) >> 16u32,
                            b: (v & 0x0000ff00) >> 8u32,
                            a: v & 0x000000ff,
                            max: 255,
                        },
                    )
                } else {
                    Err(ErrorV::Syntax(color_length_message(), toks[i].pos))
                },
            },
            _ => Err(ErrorV::Syntax("Expected <color>"@, toks[i].pos)),
        }
    }
}

/// Reads a colour token into its channels.
pub fn parse_color(c: &mut TokenProvider) -> (r: Result<HexColor, Error>)
    ensures
        result_is(r, color_at(old(c).rest(), 0), |h: HexColor| h),
        final(c).rest() == one_read(old(c).rest()),
{
    match c.next() {
        Some(Token(TokenValue::Color(text), pos)) => {
            let (parsed, len) = parse_hex_text(text.as_str());
            let v = match parsed {
                Ok(v) => v,
                Err(msg) => return Err(Error::Syntax(String::from_str(msg), pos)),
            };
            if len == 3 {
                Ok(HexColor { r: (v & 0xf00) >> 8u32, g: (v & 0x0f0) >> 4u32, b: v & 0x00f, a: 15, max: 15 })
            } else if len == 4 {
                Ok(
                    HexColor {
                        r: (v & 0xf000) >> 12u32,
                        g: (v & 0x0f00) >> 8u32,
                        b: (v & 0x00f0) >> 4u32,
                        a: v & 0x000f,
                        max: 15,
                    },
                )
            } else if len == 6 {
                Ok(HexColor { r: (v & 0xff0000) >> 16u32, g: (v & 0x00ff00) >> 8u32, b: v & 0x0000ff, a: 255, max: 255 })
            } else if len == 8 {
                Ok(
                    HexColor {
                        r: (v & 0xff000000) >> 24u32,
                        g: (v & 0x00ff0000) >> 16u32,
                        b: (v & 0x0000ff00) >> 8u32,
                        a: v & 0x000000ff,
                        max: 255,
                    },
                )
            } else {
                Err(
                    Error::Syntax(
                        String::from_str(
                            "Color values must match one of the following hex patterns: #rgb, #rgba, #rrggbb or #rrggbbaa",
                        ),
                        pos,
                    ),
                )
            }
        },
        Some(Token(_, pos)) => Err(Error::Syntax(String::from_str("Expected <color>"), pos)),
        None => Err(Error::Eof),
    }
}

/// The run of number tokens at the head of `toks`, with their positions, and whether the tokens
/// ran out right after it.
pub open spec fn numbers_run(toks: Seq<TokenV>) -> (Seq<(Seq<char>, TokenPos)>, bool)
    decreases toks.len(),
{
    if toks.len() == 0 {
        (Seq::empty(), true)
    } else {
        match toks[0].value {
            TokenValueV::Number(n) => {
                let (rest, ended) = numbers_run(toks.drop_first());
                (seq![(n, toks[0].pos)] + rest, ended)
            },
            _ => (Seq::empty(), false),
        }
    }
}

/// Reads the run of number tokens at the head of the stream, the values of a property of
/// several numbers, and tells whether the tokens ran out right after it.
pub fn take_numbers(c: &mut TokenProvider) -> (r: (Vec<(String, TokenPos)>, bool))
    ensures
        r.0@.map_values(|p: (String, TokenPos)| (p.0@, p.1)) == numbers_run(old(c).rest()).0,
        r.1 == numbers_run(old(c).rest()).1,
        final(c).rest() == old(c).rest().skip(r.0@.len() as int),
{
    let ghost all = c.rest();
    let mut out: Vec<(String, TokenPos)> = Vec::new();
    loop
        invariant
            all == old(c).rest(),
            out@.len() + c.rest().len() == all.len(),
            c.rest() == all.skip(out@.len() as int),
            numbers_run(all) == ({
                let (rest, ended) = numbers_run(c.rest());
                (out@.map_values(|p: (String, TokenPos)| (p.0@, p.1)) + rest, ended)
            }),
        decreases c.rest().len(),
    {
        let ghost before = c.rest();
        let is_number = match c.peek() {
            None => {
                proof {
                    assert(out@.map_values(|p: (String, TokenPos)| (p.0@, p.1)) + Seq::empty() =~= out@.map_values(
                        |p: (String, TokenPos)| (p.0@, p.1),
                    ));
                }
                return (out, true);
            },
            Some(Token(TokenValue::Number(_), _)) => true,
            Some(_) => false,
        };
        if !is_number {
            proof {
                assert(out@.map_values(|p: (String, TokenPos)| (p.0@, p.1)) + Seq::empty() =~= out@.map_values(
                    |p: (String, TokenPos)| (p.0@, p.1),
                ));
            }
            return (out, false);
        }
        match c.next() {
            Some(Token(TokenValue::Number(text), pos)) => {
                let ghost prev = out@;
                out.push((text, pos));
                proof {
                    assert(c.rest() =~= all.skip(out@.len() as int));
                    let f = |p: (String, TokenPos)| (p.0@, p.1);
                    assert(out@.map_values(f) =~= prev.map_values(f).push(f(out@.last())));
                    let (rest, ended) = numbers_run(c.rest());
                    assert(out@.map_values(f) + rest =~= prev.map_values(f) + (seq![(text@, pos)] + rest));
                }
            },
            _ => {
                proof {
                    assert(false);
                }
            },
        }
    }
}

/// The sides `(top, right, bottom, left)` that a list of values gives a rectangle: one value for
/// all sides; two for top and bottom, then right and left; three for top, right and left, then
/// bottom; four or more for top, right, bottom and left. `None` for no value.
pub open spec fn sides_spec<T>(v: Seq<T>) -> Option<(T, T, T, T)> {
    if v.len() == 0 {
        None
    } else if v.len() == 1 {
        Some((v[0], v[0], v[0], v[0]))
    } else if v.len() == 2 {
        Some((v[0], v[1], v[0], v[1]))
    } else if v.len() == 3 {
        Some((v[0], v[1], v[2], v[1]))
    } else {
        Some((v[0], v[1], v[2], v[3]))
    }
}

/// The sides `(top, right, bottom, left)` that a list of values gives a rectangle; see
/// `sides_spec`.
pub fn sides<T: Copy>(v: &Vec<T>) -> (r: Option<(T, T, T, T)>)
    ensures
        r == sides_spec(v@),
{
    if v.len() == 0 {
        None
    } else if v.len() == 1 {
        Some((v[0], v[0], v[0], v[0]))
    } else if v.len() == 2 {
        Some((v[0], v[1], v[0], v[1]))
    } else if v.len() == 3 {
        Some((v[0], v[1], v[2], v[1]))
    } else {
        Some((v[0], v[1], v[2], v[3]))
    }
}

/// A size as the stylesheet writes it: `shrink`, `fill(<integer>)`, or a number, kept as its
/// text and position for the caller to read.
#[derive(Debug, Clone, PartialEq, Eq)]
pub enum SizeValue {
    Shrink,
    Fill(u32),
    Exact(String, TokenPos),
}

/// The view of a `SizeValue`.
pub enum SizeValueV {
    Shrink,
    Fill(u32),
    Exact(Seq<char>, TokenPos),
}

impl View for SizeValue {
    type V = SizeValueV;

    open spec fn view(&self) -> SizeValueV {
        match self {
            SizeValue::Shrink => SizeValueV::Shrink,
            SizeValue::Fill(n) => SizeValueV::Fill(*n),
            SizeValue::Exact(s, p) => SizeValueV::Exact(s@, *p),
        }
    }
}

/// The message for a token that is no size.
pub open spec fn size_message() -> Seq<char> {
    "Expected `shrink`, `fill(<integer>)` or <number>"@
}

/// Reads token `i`, which must be a number, as its text and position.
pub open spec fn number_at(toks: Seq<TokenV>, i: int) -> Result<(Seq<char>, TokenPos), ErrorV> {
    if i >= toks.len() {
        Err(ErrorV::Eof)
    } else {
        match toks[i].value {
            TokenValueV::Number(n) => Ok((n, toks[i].pos)),
            _ => Err(ErrorV::Syntax("Expected <number>"@, toks[i].pos)),
        }
    }
}

/// Reads a size: the keyword `shrink`, `fill(<integer>)` or `exact(<number>)` in any case, or a
/// number, which is exact too. The integer of `fill` is cut down to 32 bits.
pub open spec fn size_spec(toks: Seq<TokenV>) -> Result<(SizeValueV, int), ErrorV> {
    if toks.len() == 0 {
        Err(ErrorV::Eof)
    } else {
        match toks[0].value {
            TokenValueV::Iden(id) => if lower_text(id) == "shrink"@ {
                Ok((SizeValueV::Shrink, 1))
            } else if lower_text(id) == "fill"@ {
                match take_at(toks, 1, TokenValueV::ParenOpen) {
                    Err(e) => Err(e),
                    Ok(_) => match usize_at(toks, 2) {
                        Err(e) => Err(e),
                        Ok(n) => match take_at(toks, 3, TokenValueV::ParenClose) {
                            Err(e) => Err(e),
                            Ok(_) => Ok((SizeValueV::Fill(n as u32), 4)),
                        },
                    },
                }
            } else if lower_text(id) == "exact"@ {
                match take_at(toks, 1, TokenValueV::ParenOpen) {
                    Err(e) => Err(e),
                    Ok(_) => match number_at(toks, 2) {
                        Err(e) => Err(e),
                        Ok((n, p)) => match take_at(toks, 3, TokenValueV::ParenClose) {
                            Err(e) => Err(e),
                            Ok(_) => Ok((SizeValueV::Exact(n, p), 4)),
                        },
                    },
                }
            } else {
                Err(ErrorV::Syntax(size_message(), toks[0].pos))
            },
            TokenValueV::Number(n) => Ok((SizeValueV::Exact(n, toks[0].pos), 1)),
            _ => Err(ErrorV::Syntax(size_message(), toks[0].pos)),
        }
    }
}

/// Reads a size property value.
pub fn parse_size(c: &mut TokenProvider) -> (r: Result<SizeValue, Error>)
    ensures
        match size_spec(old(c).rest()) {
            Ok((v, n)) => r matches Ok(x) && x@ == v && final(c).rest() == old(c).rest().skip(n),
            Err(e) => r matches Err(x) && x@ == e,
        },
{
    let ghost toks = c.rest();
    match c.next() {
        Some(Token(TokenValue::Iden(ty), pos)) => {
            let lower = to_lowercase(ty.as_str());
            proof {
                assert(c.rest() =~= toks.skip(1));
                reveal_strlit("shrink");
                reveal_strlit("fill");
            }
            if str_eq(lower.as_str(), "shrink") {
                Ok(SizeValue::Shrink)
            } else if str_eq(lower.as_str(), "fill") {
                proof {
                    lemma_shift(toks, 1);
                }
                match c.take(TokenValue::ParenOpen) {
                    Err(e) => return Err(e),
                    Ok(_) => {},
                }
                proof {
                    assert(c.rest() =~= toks.skip(2));
                    assert(usize_at(toks.skip(2), 0) == usize_at(toks, 2));
                }
                let size = match parse_usize(c) {
                    Err(e) => return Err(e),
                    Ok(n) => n,
                };
                proof {
                    assert(c.rest() =~= toks.skip(3));
                    lemma_shift(toks, 3);
                }
                match c.take(TokenValue::ParenClose) {
                    Err(e) => return Err(e),
                    Ok(_) => {},
                }
                proof {
                    assert(c.rest() =~= toks.skip(4));
                }
                Ok(SizeValue::Fill(size as u32))
            } else if str_eq(lower.as_str(), "exact") {
                proof {
                    reveal_strlit("exact");
                    lemma_shift(toks, 1);
                }
                match c.take(TokenValue::ParenOpen) {
                    Err(e) => return Err(e),
                    Ok(_) => {},
                }
                proof {
                    assert(c.rest() =~= toks.skip(2));
                }
                let (num, npos) = match c.next() {
                    Some(Token(TokenValue::Number(num), npos)) => (num, npos),
                    Some(Token(_, p)) => return Err(Error::Syntax(String::from_str("Expected <number>"), p)),
                    None => return Err(Error::Eof),
                };
                proof {
                    assert(c.rest() =~= toks.skip(3));
                    lemma_shift(toks, 3);
                }
                match c.take(TokenValue::ParenClose) {
                    Err(e) => return Err(e),
                    Ok(_) => {},
                }
                proof {
                    assert(c.rest() =~= toks.skip(4));
                }
                Ok(SizeValue::Exact(num, npos))
            } else {
                Err(Error::Syntax(String::from_str("Expected `shrink`, `fill(<integer>)` or <number>"), pos))
            }
        },
        Some(Token(TokenValue::Number(num), pos)) => {
            proof {
                assert(c.rest() =~= toks.skip(1));
            }
            Ok(SizeValue::Exact(num, pos))
        },
        Some(Token(_, pos)) => Err(Error::Syntax(String::from_str("Expected `shrink`, `fill(<integer>)` or <number>"), pos)),
        None => Err(Error::Eof),
    }
}

/// Opaque white, the colour of a background given by its image alone.
pub open spec fn white() -> HexColor {
    HexColor { r: 1, g: 1, b: 1, a: 1, max: 1 }
}

/// A background as the stylesheet writes it; images and patches are named by their path.
#[derive(Debug, Clone, PartialEq, Eq)]
pub enum BackgroundValue {
    /// No background: `none`.
    Clear,
    Color(HexColor),
    Image(String, HexColor),
    Patch(String, HexColor),
}

/// The view of a `BackgroundValue`.
pub enum BackgroundValueV {
    Clear,
    Color(HexColor),
    Image(Seq<char>, HexColor),
    Patch(Seq<char>, HexColor),
}

impl View for BackgroundValue {
    type V = BackgroundValueV;

    open spec fn view(&self) -> BackgroundValueV {
        match self {
            BackgroundValue::Clear => BackgroundValueV::Clear,
            BackgroundValue::Color(c) => BackgroundValueV::Color(*c),
            BackgroundValue::Image(p, c) => BackgroundValueV::Image(p@, *c),
            BackgroundValue::Patch(p, c) => BackgroundValueV::Patch(p@, *c),
        }
    }
}

/// Whether a path names a nine-patch image: it ends in `.9.png`.
pub open spec fn is_patch_path(p: Seq<char>) -> bool {
    p.len() >= 6 && p.subrange(p.len() - 6, p.len() as int) == ".9.png"@
}

/// Reads token `i` as a path, reporting anything else with `message`.
pub open spec fn path_at(toks: Seq<TokenV>, i: int, message: Seq<char>) -> Result<Seq<char>, ErrorV> {
    if i >= toks.len() {
        Err(ErrorV::Eof)
    } else {
        match toks[i].value {
            TokenValueV::Path(p) => Ok(p),
            _ => Err(ErrorV::Syntax(message, toks[i].pos)),
        }
    }
}

/// The message for a token that starts no background.
pub open spec fn background_message() -> Seq<char> {
    "Expected `none`, `image(<url>, <color>)`, `patch(<url>, <color>)`, <color> or <url>"@
}

/// The tail `(<url>, <color>)` of an `image` or `patch` background from token 1 on, with the
/// message for a missing path, and the number of tokens the whole background takes.
pub open spec fn framed_at(toks: Seq<TokenV>, message: Seq<char>) -> Result<(Seq<char>, HexColor, int), ErrorV> {
    match take_at(toks, 1, TokenValueV::ParenOpen) {
        Err(e) => Err(e),
        Ok(_) => match path_at(toks, 2, message) {
            Err(e) => Err(e),
            Ok(p) => match take_at(toks, 3, TokenValueV::Comma) {
                Err(e) => Err(e),
                Ok(_) => match color_at(toks, 4) {
                    Err(e) => Err(e),
                    Ok(c) => match take_at(toks, 5, TokenValueV::ParenClose) {
                        Err(e) => Err(e),
                        Ok(_) => Ok((p, c, 6)),
                    },
                },
            },
        },
    }
}

/// Reads a background: `none`, `image(<url>, <color>)` or `patch(<url>, <color>)` with the
/// keyword in any case, a colour, or a path, which names a patch when it ends in `.9.png` and an
/// image otherwise, both over white. With the number of tokens it takes.
pub open spec fn background_spec(toks: Seq<TokenV>) -> Result<(BackgroundValueV, int), ErrorV> {
    if toks.len() == 0 {
        Err(ErrorV::Eof)
    } else {
        match toks[0].value {
            TokenValueV::Iden(ty) => if lower_text(ty) == "none"@ {
                Ok((BackgroundValueV::Clear, 1))
            } else if lower_text(ty) == "image"@ {
                match framed_at(toks, "Expected <url>"@) {
                    Err(e) => Err(e),
                    Ok((p, c, n)) => Ok((BackgroundValueV::Image(p, c), n)),
                }
            } else if lower_text(ty) == "patch"@ {
                match framed_at(toks, "Expected url"@) {
                    Err(e) => Err(e),
                    Ok((p, c, n)) => Ok((BackgroundValueV::Patch(p, c), n)),
                }
            } else {
                Err(ErrorV::Syntax("Expected `image`, `patch` or `none`"@, toks[0].pos))
            },
            TokenValueV::Color(_) => match color_at(toks, 0) {
                Err(e) => Err(e),
                Ok(c) => Ok((BackgroundValueV::Color(c), 1)),
            },
            TokenValueV::Path(p) => if is_patch_path(p) {
                Ok((BackgroundValueV::Patch(p, white()), 1))
            } else {
                Ok((BackgroundValueV::Image(p, white()), 1))
            },
            _ => Err(ErrorV::Syntax(background_message(), toks[0].pos)),
        }
    }
}

/// Whether `s` ends in `.9.png`.
fn ends_with_patch(s: &str) -> (r: bool)
    ensures
        r == is_patch_path(s@),
{
    let mut chars: Vec<char> = Vec::new();
    for ch in it: s.chars()
        invariant
            it.seq() == s@,
            chars@ == s@.take(it.index() as int),
    {
        chars.push(ch);
        proof {
            assert(chars@ =~= s@.take(it.index() + 1));
        }
    }
    proof {
        assert(chars@ =~= s@);
        reveal_strlit(".9.png");
    }
    let n = chars.len();
    if n < 6 {
        return false;
    }
    let r = chars[n - 6] == '.' && chars[n - 5] == '9' && chars[n - 4] == '.' && chars[n - 3] == 'p'
        && chars[n - 2] == 'n' && chars[n - 1] == 'g';
    proof {
        let tail = s@.subrange(n - 6, n as int);
        if r {
            assert(tail =~= ".9.png"@);
        } else {
            assert(tail != ".9.png"@) by {
                if tail == ".9.png"@ {
                    assert(tail[0] == '.' && tail[1] == '9' && tail[2] == '.' && tail[3] == 'p' && tail[4] == 'n'
                        && tail[5] == 'g');
                }
            }
        }
    }
    r
}

/// Reads `(<url>, <color>)` after the keyword of an `image` or `patch` background, where `toks`
/// are the tokens from the keyword on.
fn parse_framed(c: &mut TokenProvider, message: &str, Ghost(toks): Ghost<Seq<TokenV>>) -> (r: Result<(String, HexColor), Error>)
    requires
        toks.len() >= 1,
        old(c).rest() == toks.skip(1),
    ensures
        match framed_at(toks, message@) {
            Ok((p, h, n)) => r matches Ok(x) && x.0@ == p && x.1 == h && final(c).rest() == toks.skip(n),
            Err(e) => r matches Err(x) && x@ == e,
        },
{
    proof {
        lemma_shift(toks, 1);
    }
    match c.take(TokenValue::ParenOpen) {
        Err(e) => return Err(e),
        Ok(_) => {},
    }
    proof {
        assert(c.rest() =~= toks.skip(2));
    }
    let url = match c.next() {
        Some(Token(TokenValue::Path(url), _)) => url,
        Some(Token(_, pos)) => return Err(Error::Syntax(String::from_str(message), pos)),
        None => return Err(Error::Eof),
    };
    proof {
        assert(c.rest() =~= toks.skip(3));
        lemma_shift(toks, 3);
    }
    match c.take(TokenValue::Comma) {
        Err(e) => return Err(e),
        Ok(_) => {},
    }
    proof {
        assert(c.rest() =~= toks.skip(4));
        assert(color_at(toks.skip(4), 0) == color_at(toks, 4));
    }
    let color = match parse_color(c) {
        Err(e) => return Err(e),
        Ok(h) => h,
    };
    proof {
        assert(c.rest() =~= toks.skip(5));
        lemma_shift(toks, 5);
    }
    match c.take(TokenValue::ParenClose) {
        Err(e) => return Err(e),
        Ok(_) => {},
    }
    proof {
        assert(c.rest() =~= toks.skip(6));
    }
    Ok((url, color))
}

/// Reads a background property value.
pub fn parse_background(c: &mut TokenProvider) -> (r: Result<BackgroundValue, Error>)
    ensures
        match background_spec(old(c).rest()) {
            Ok((v, n)) => r matches Ok(x) && x@ == v && final(c).rest() == old(c).rest().skip(n),
            Err(e) => r matches Err(x) && x@ == e,
        },
{
    let ghost toks = c.rest();
    let kind: u8 = match c.peek() {
        None => return Err(Error::Eof),
        Some(Token(TokenValue::Iden(_), _)) => 0,
        Some(Token(TokenValue::Color(_), _)) => 1,
        Some(Token(TokenValue::Path(_), _)) => 2,
        Some(Token(_, pos)) => {
            return Err(
                Error::Syntax(
                    String::from_str(
                        "Expected `none`, `image(<url>, <color>)`, `patch(<url>, <color>)`, <color> or <url>",
                    ),
                    *pos,
                ),
            )
        },
    };
    if kind == 1 {
        return match parse_color(c) {
            Ok(h) => {
                proof {
                    assert(c.rest() =~= toks.skip(1));
                }
                Ok(BackgroundValue::Color(h))
            },
            Err(e) => Err(e),
        };
    }
    match c.next() {
        Some(Token(TokenValue::Iden(ty), pos)) => {
            let lower = to_lowercase(ty.as_str());
            proof {
                reveal_strlit("none");
                reveal_strlit("image");
                reveal_strlit("patch");
                assert(c.rest() =~= toks.skip(1));
            }
            if str_eq(lower.as_str(), "none") {
                Ok(BackgroundValue::Clear)
            } else if str_eq(lower.as_str(), "image") {
                match parse_framed(c, "Expected <url>", Ghost(toks)) {
                    Ok((url, color)) => Ok(BackgroundValue::Image(url, color)),
                    Err(e) => Err(e),
                }
            } else if str_eq(lower.as_str(), "patch") {
                match parse_framed(c, "Expected url", Ghost(toks)) {
                    Ok((url, color)) => Ok(BackgroundValue::Patch(url, color)),
                    Err(e) => Err(e),
                }
            } else {
                Err(Error::Syntax(String::from_str("Expected `image`, `patch` or `none`"), pos))
            }
        },
        Some(Token(TokenValue::Path(url), _)) => {
            proof {
                assert(c.rest() =~= toks.skip(1));
            }
            if ends_with_patch(url.as_str()) {
                Ok(BackgroundValue::Patch(url, HexColor { r: 1, g: 1, b: 1, a: 1, max: 1 }))
            } else {
                Ok(BackgroundValue::Image(url, HexColor { r: 1, g: 1, b: 1, a: 1, max: 1 }))
            }
        },
        _ => {
            proof {
                assert(false);
            }
            Err(Error::Eof)
        },
    }
}

/// Reads a font property value: the path of the font.
pub open spec fn font_spec(toks: Seq<TokenV>) -> Result<Seq<char>, ErrorV> {
    path_at(toks, 0, "Expected <url>"@)
}

/// Reads a font property value: the path of the font.
pub fn parse_font(c: &mut TokenProvider) -> (r: Result<String, Error>)
    ensures
        result_is(r, font_spec(old(c).rest()), |s: String| s@),
        final(c).rest() == one_read(old(c).rest()),
{
    match c.next() {
        Some(Token(TokenValue::Path(url), _)) => Ok(url),
        Some(Token(_, pos)) => Err(Error::Syntax(String::from_str("Expected <url>"), pos)),
        None => Err(Error::Eof),
    }
}

/// The views of a sequence of selectors.
pub open spec fn selectors_view(s: Seq<Selector>) -> Seq<SelectorV> {
    s.map_values(|x: Selector| x@)
}

impl TokenValue {
    fn equals(&self, other: &TokenValue) -> (r: bool)
        ensures
            r == (self@ == other@),
    {
        match (self, other) {
            (TokenValue::Iden(a), TokenValue::Iden(b)) => str_eq(a.as_str(), b.as_str()),
            (TokenValue::Color(a), TokenValue::Color(b)) => str_eq(a.as_str(), b.as_str()),
            (TokenValue::Path(a), TokenValue::Path(b)) => str_eq(a.as_str(), b.as_str()),
            (TokenValue::Number(a), TokenValue::Number(b)) => str_eq(a.as_str(), b.as_str()),
            (TokenValue::ParenOpen, TokenValue::ParenOpen) => true,
            (TokenValue::ParenClose, TokenValue::ParenClose) => true,
            (TokenValue::BraceOpen, TokenValue::BraceOpen) => true,
            (TokenValue::BraceClose, TokenValue::BraceClose) => true,
            (TokenValue::Colon, TokenValue::Colon) => true,
            (TokenValue::Semi, TokenValue::Semi) => true,
            (TokenValue::Dot, TokenValue::Dot) => true,
            (TokenValue::Comma, TokenValue::Comma) => true,
            (TokenValue::Gt, TokenValue::Gt) => true,
            (TokenValue::Plus, TokenValue::Plus) => true,
            (TokenValue::Tilde, TokenValue::Tilde) => true,
            (TokenValue::Star, TokenValue::Star) => true,
            _ => false,
        }
    }
}

fn name_of(v: &TokenValue) -> (r: &'static str)
    ensures
        r@ == token_name(v@),
{
    match v {
        TokenValue::Iden(_) => "Iden",
        TokenValue::Color(_) => "Color",
        TokenValue::Path(_) => "Path",
        TokenValue::Number(_) => "Number",
        TokenValue::ParenOpen => "ParenOpen",
        TokenValue::ParenClose => "ParenClose",
        TokenValue::BraceOpen => "BraceOpen",
        TokenValue::BraceClose => "BraceClose",
        TokenValue::Colon => "Colon",
        TokenValue::Semi => "Semi",
        TokenValue::Dot => "Dot",
        TokenValue::Comma => "Comma",
        TokenValue::Gt => "Gt",
        TokenValue::Plus => "Plus",
        TokenValue::Tilde => "Tilde",
        TokenValue::Star => "Star",
    }
}

} // verus!
