//! Declarations, rules and whole stylesheets: `<selectors> { <property>: <value>; ... }`.
//!
//! Numbers are kept as the text of their token, with its position, for the caller to read as
//! floating point values.
use vstd::prelude::*;

use crate::layout::{Align, Direction, TextWrap};
use crate::style::parse::{
    align_spec, background_spec, color_at, direction_spec, flag_spec, font_spec, lemma_shift,
    lemma_rule_head_consumes, number_at, numbers_run, one_read, parse_align, parse_background,
    parse_color, parse_direction, parse_flag, parse_font, parse_rule_selectors, parse_size,
    parse_text_wrap, rule_head_spec, selectors_view, size_spec, take_at, take_numbers,
    text_wrap_spec, BackgroundValue, BackgroundValueV, HexColor, SizeValue, SizeValueV,
    TokenProvider,
};
use crate::style::tokenize::{tokens_view, Token, TokenPos, TokenV, TokenValue, TokenValueV};
use crate::style::tree::{builder_insert, leaf, BuilderV, RuleTreeBuilder};
use crate::style::{str_eq, Error, ErrorV, Selector, SelectorV, SelectorWidget, SelectorWidgetV};

verus! {

/// The properties whose value is a rectangle of numbers.
#[derive(Debug, Clone, Copy, PartialEq, Eq, Structural)]
pub enum RectProperty {
    Padding,
    Margin,
}

/// The properties whose value is a single number.
#[derive(Debug, Clone, Copy, PartialEq, Eq, Structural)]
pub enum NumberProperty {
    PaddingLeft,
    PaddingRight,
    PaddingTop,
    PaddingBottom,
    MarginLeft,
    MarginRight,
    MarginTop,
    MarginBottom,
    TextSize,
}

/// An axis of the layout: sizes are widths on the horizontal axis and heights on the vertical.
#[derive(Debug, Clone, Copy, PartialEq, Eq, Structural)]
pub enum Axis {
    Horizontal,
    Vertical,
}

/// What a property name selects: the kind of value that follows it.
#[derive(Debug, Clone, Copy, PartialEq, Eq, Structural)]
pub enum Property {
    Background,
    Font,
    Color,
    Rectangle(RectProperty),
    Number(NumberProperty),
    TextWrap,
    Size(Axis),
    LayoutDirection,
    Align(Axis),
    /// Any other name is a flag, set with `true` and cleared with `false`.
    Flag,
}

/// A declaration as the stylesheet writes it; numbers are kept as their text and position.
#[derive(Debug, Clone, PartialEq, Eq)]
pub enum DeclarationValue {
    Background(BackgroundValue),
    /// The path of a font.
    Font(String),
    Color(HexColor),
    /// The numbers of a rectangle, one to four of them, or none for the empty rectangle.
    Rectangle(RectProperty, Vec<(String, TokenPos)>),
    Number(NumberProperty, String, TokenPos),
    TextWrap(TextWrap),
    /// A width (horizontal) or a height (vertical).
    Size(Axis, SizeValue),
    LayoutDirection(Direction),
    Align(Axis, Align),
    /// A flag by its name: added when `true`, removed when `false`.
    Flag(String, bool),
}

/// The view of a `DeclarationValue`.
pub enum DeclarationValueV {
    Background(BackgroundValueV),
    Font(Seq<char>),
    Color(HexColor),
    Rectangle(RectProperty, Seq<(Seq<char>, TokenPos)>),
    Number(NumberProperty, Seq<char>, TokenPos),
    TextWrap(TextWrap),
    Size(Axis, SizeValueV),
    LayoutDirection(Direction),
    Align(Axis, Align),
    Flag(Seq<char>, bool),
}

/// The texts and positions of a run of numbers.
pub open spec fn numbers_view(v: Seq<(String, TokenPos)>) -> Seq<(Seq<char>, TokenPos)> {
    v.map_values(|p: (String, TokenPos)| (p.0@, p.1))
}

impl View for DeclarationValue {
    type V = DeclarationValueV;

    open spec fn view(&self) -> DeclarationValueV {
        match self {
            DeclarationValue::Background(b) => DeclarationValueV::Background(b@),
            DeclarationValue::Font(p) => DeclarationValueV::Font(p@),
            DeclarationValue::Color(c) => DeclarationValueV::Color(*c),
            DeclarationValue::Rectangle(p, v) => DeclarationValueV::Rectangle(*p, numbers_view(v@)),
            DeclarationValue::Number(p, t, pos) => DeclarationValueV::Number(*p, t@, *pos),
            DeclarationValue::TextWrap(w) => DeclarationValueV::TextWrap(*w),
            DeclarationValue::Size(a, s) => DeclarationValueV::Size(*a, s@),
            DeclarationValue::LayoutDirection(d) => DeclarationValueV::LayoutDirection(*d),
            DeclarationValue::Align(a, x) => DeclarationValueV::Align(*a, *x),
            DeclarationValue::Flag(n, b) => DeclarationValueV::Flag(n@, *b),
        }
    }
}

/// The views of a sequence of declarations.
pub open spec fn declarations_view(s: Seq<DeclarationValue>) -> Seq<DeclarationValueV> {
    s.map_values(|d: DeclarationValue| d@)
}

/// The property that a name selects. Both the hyphenated names and the underscored ones of
/// `text_size`, `text_wrap`, `align_horizontal` and `align_vertical` are known.
pub open spec fn property_spec(key: Seq<char>) -> Property {
    if key == "background"@ {
        Property::Background
    } else if key == "font"@ {
        Property::Font
    } else if key == "color"@ {
        Property::Color
    } else if key == "padding"@ {
        Property::Rectangle(RectProperty::Padding)
    } else if key == "padding-left"@ {
        Property::Number(NumberProperty::PaddingLeft)
    } else if key == "padding-right"@ {
        Property::Number(NumberProperty::PaddingRight)
    } else if key == "padding-top"@ {
        Property::Number(NumberProperty::PaddingTop)
    } else if key == "padding-bottom"@ {
        Property::Number(NumberProperty::PaddingBottom)
    } else if key == "margin"@ {
        Property::Rectangle(RectProperty::Margin)
    } else if key == "margin-left"@ {
        Property::Number(NumberProperty::MarginLeft)
    } else if key == "margin-right"@ {
        Property::Number(NumberProperty::MarginRight)
    } else if key == "margin-top"@ {
        Property::Number(NumberProperty::MarginTop)
    } else if key == "margin-bottom"@ {
        Property::Number(NumberProperty::MarginBottom)
    } else if key == "text-size"@ || key == "text_size"@ {
        Property::Number(NumberProperty::TextSize)
    } else if key == "text-wrap"@ || key == "text_wrap"@ {
        Property::TextWrap
    } else if key == "width"@ {
        Property::Size(Axis::Horizontal)
    } else if key == "height"@ {
        Property::Size(Axis::Vertical)
    } else if key == "layout-direction"@ {
        Property::LayoutDirection
    } else if key == "align-horizontal"@ || key == "align_horizontal"@ {
        Property::Align(Axis::Horizontal)
    } else if key == "align-vertical"@ || key == "align_vertical"@ {
        Property::Align(Axis::Vertical)
    } else {
        Property::Flag
    }
}

/// The name under which a stylesheet sets a property; flags have no fixed name.
pub open spec fn property_name(p: Property) -> Seq<char> {
    match p {
        Property::Background => "background"@,
        Property::Font => "font"@,
        Property::Color => "color"@,
        Property::Rectangle(RectProperty::Padding) => "padding"@,
        Property::Rectangle(RectProperty::Margin) => "margin"@,
        Property::Number(NumberProperty::PaddingLeft) => "padding-left"@,
        Property::Number(NumberProperty::PaddingRight) => "padding-right"@,
        Property::Number(NumberProperty::PaddingTop) => "padding-top"@,
        Property::Number(NumberProperty::PaddingBottom) => "padding-bottom"@,
        Property::Number(NumberProperty::MarginLeft) => "margin-left"@,
        Property::Number(NumberProperty::MarginRight) => "margin-right"@,
        Property::Number(NumberProperty::MarginTop) => "margin-top"@,
        Property::Number(NumberProperty::MarginBottom) => "margin-bottom"@,
        Property::Number(NumberProperty::TextSize) => "text-size"@,
        Property::TextWrap => "text-wrap"@,
        Property::Size(Axis::Horizontal) => "width"@,
        Property::Size(Axis::Vertical) => "height"@,
        Property::LayoutDirection => "layout-direction"@,
        Property::Align(Axis::Horizontal) => "align-horizontal"@,
        Property::Align(Axis::Vertical) => "align-vertical"@,
        Property::Flag => Seq::empty(),
    }
}

/// Property names: each property other than a flag is selected by its own name, so distinct
/// names (`padding-top` and `padding-bottom`, say) select distinct properties; the names with
/// an underscore for the hyphen select the same property as the hyphenated ones.
pub proof fn lemma_property_names(p: Property)
    ensures
        p != Property::Flag ==> property_spec(property_name(p)) == p,
        property_spec("text_size"@) == Property::Number(NumberProperty::TextSize),
        property_spec("text_wrap"@) == Property::TextWrap,
        property_spec("align_horizontal"@) == Property::Align(Axis::Horizontal),
        property_spec("align_vertical"@) == Property::Align(Axis::Vertical),
{
    reveal_strlit("background");
    reveal_strlit("font");
    reveal_strlit("color");
    reveal_strlit("padding");
    reveal_strlit("padding-left");
    reveal_strlit("padding-right");
    reveal_strlit("padding-top");
    reveal_strlit("padding-bottom");
    reveal_strlit("margin");
    reveal_strlit("margin-left");
    reveal_strlit("margin-right");
    reveal_strlit("margin-top");
    reveal_strlit("margin-bottom");
    reveal_strlit("text-size");
    reveal_strlit("text_size");
    reveal_strlit("text-wrap");
    reveal_strlit("text_wrap");
    reveal_strlit("width");
    reveal_strlit("height");
    reveal_strlit("layout-direction");
    reveal_strlit("align-horizontal");
    reveal_strlit("align_horizontal");
    reveal_strlit("align-vertical");
    reveal_strlit("align_vertical");
    assert("background"@.len() == 10 && "background"@[0] == 'b');
    assert("font"@.len() == 4 && "font"@[0] == 'f');
    assert("color"@.len() == 5 && "color"@[0] == 'c');
    assert("padding"@.len() == 7 && "padding"@[0] == 'p');
    assert("padding-left"@.len() == 12 && "padding-left"@[8] == 'l');
    assert("padding-right"@.len() == 13 && "padding-right"@[8] == 'r');
    assert("padding-top"@.len() == 11 && "padding-top"@[8] == 't');
    assert("padding-bottom"@.len() == 14 && "padding-bottom"@[8] == 'b');
    assert("margin"@.len() == 6 && "margin"@[0] == 'm');
    assert("margin-left"@.len() == 11 && "margin-left"@[0] == 'm' && "margin-left"@[7] == 'l');
    assert("margin-right"@.len() == 12 && "margin-right"@[0] == 'm' && "margin-right"@[7] == 'r');
    assert("margin-top"@.len() == 10 && "margin-top"@[0] == 'm');
    assert("margin-bottom"@.len() == 13 && "margin-bottom"@[0] == 'm' && "margin-bottom"@[7] == 'b');
    assert("text-size"@.len() == 9 && "text-size"@[0] == 't' && "text-size"@[4] == '-'
        && "text-size"@[5] == 's');
    assert("text_size"@.len() == 9 && "text_size"@[0] == 't' && "text_size"@[4] == '_'
        && "text_size"@[5] == 's');
    assert("text-wrap"@.len() == 9 && "text-wrap"@[0] == 't' && "text-wrap"@[4] == '-'
        && "text-wrap"@[5] == 'w');
    assert("text_wrap"@.len() == 9 && "text_wrap"@[0] == 't' && "text_wrap"@[4] == '_'
        && "text_wrap"@[5] == 'w');
    assert("width"@.len() == 5 && "width"@[0] == 'w');
    assert("height"@.len() == 6 && "height"@[0] == 'h');
    assert("layout-direction"@.len() == 16 && "layout-direction"@[0] == 'l');
    assert("align-horizontal"@.len() == 16 && "align-horizontal"@[0] == 'a'
        && "align-horizontal"@[5] == '-');
    assert("align_horizontal"@.len() == 16 && "align_horizontal"@[0] == 'a'
        && "align_horizontal"@[5] == '_');
    assert("align-vertical"@.len() == 14 && "align-vertical"@[0] == 'a'
        && "align-vertical"@[5] == '-');
    assert("align_vertical"@.len() == 14 && "align_vertical"@[0] == 'a'
        && "align_vertical"@[5] == '_');
    match p {
        Property::Background => assert(property_spec("background"@) == p),
        Property::Font => assert(property_spec("font"@) == p),
        Property::Color => assert(property_spec("color"@) == p),
        Property::Rectangle(RectProperty::Padding) => assert(property_spec("padding"@) == p),
        Property::Rectangle(RectProperty::Margin) => assert(property_spec("margin"@) == p),
        Property::Number(NumberProperty::PaddingLeft) => assert(property_spec("padding-left"@) == p),
        Property::Number(NumberProperty::PaddingRight) => assert(property_spec("padding-right"@) == p),
        Property::Number(NumberProperty::PaddingTop) => assert(property_spec("padding-top"@) == p),
        Property::Number(NumberProperty::PaddingBottom) => assert(property_spec("padding-bottom"@) == p),
        Property::Number(NumberProperty::MarginLeft) => assert(property_spec("margin-left"@) == p),
        Property::Number(NumberProperty::MarginRight) => assert(property_spec("margin-right"@) == p),
        Property::Number(NumberProperty::MarginTop) => assert(property_spec("margin-top"@) == p),
        Property::Number(NumberProperty::MarginBottom) => assert(property_spec("margin-bottom"@) == p),
        Property::Number(NumberProperty::TextSize) => assert(property_spec("text-size"@) == p),
        Property::TextWrap => assert(property_spec("text-wrap"@) == p),
        Property::Size(Axis::Horizontal) => assert(property_spec("width"@) == p),
        Property::Size(Axis::Vertical) => assert(property_spec("height"@) == p),
        Property::LayoutDirection => assert(property_spec("layout-direction"@) == p),
        Property::Align(Axis::Horizontal) => assert(property_spec("align-horizontal"@) == p),
        Property::Align(Axis::Vertical) => assert(property_spec("align-vertical"@) == p),
        Property::Flag => {},
    }
}

/// The property that a name selects; see `property_spec`.
pub fn property_kind(key: &str) -> (r: Property)
    ensures
        r == property_spec(key@),
{
    if str_eq(key, "background") {
        Property::Background
    } else if str_eq(key, "font") {
        Property::Font
    } else if str_eq(key, "color") {
        Property::Color
    } else if str_eq(key, "padding") {
        Property::Rectangle(RectProperty::Padding)
    } else if str_eq(key, "padding-left") {
        Property::Number(NumberProperty::PaddingLeft)
    } else if str_eq(key, "padding-right") {
        Property::Number(NumberProperty::PaddingRight)
    } else if str_eq(key, "padding-top") {
        Property::Number(NumberProperty::PaddingTop)
    } else if str_eq(key, "padding-bottom") {
        Property::Number(NumberProperty::PaddingBottom)
    } else if str_eq(key, "margin") {
        Property::Rectangle(RectProperty::Margin)
    } else if str_eq(key, "margin-left") {
        Property::Number(NumberProperty::MarginLeft)
    } else if str_eq(key, "margin-right") {
        Property::Number(NumberProperty::MarginRight)
    } else if str_eq(key, "margin-top") {
        Property::Number(NumberProperty::MarginTop)
    } else if str_eq(key, "margin-bottom") {
        Property::Number(NumberProperty::MarginBottom)
    } else if str_eq(key, "text-size") || str_eq(key, "text_size") {
        Property::Number(NumberProperty::TextSize)
    } else if str_eq(key, "text-wrap") || str_eq(key, "text_wrap") {
        Property::TextWrap
    } else if str_eq(key, "width") {
        Property::Size(Axis::Horizontal)
    } else if str_eq(key, "height") {
        Property::Size(Axis::Vertical)
    } else if str_eq(key, "layout-direction") {
        Property::LayoutDirection
    } else if str_eq(key, "align-horizontal") || str_eq(key, "align_horizontal") {
        Property::Align(Axis::Horizontal)
    } else if str_eq(key, "align-vertical") || str_eq(key, "align_vertical") {
        Property::Align(Axis::Vertical)
    } else {
        Property::Flag
    }
}

/// The value of property `kind`, named `key`, read from the front of `toks`, with the number of
/// tokens it takes.
pub open spec fn value_spec(kind: Property, key: Seq<char>, toks: Seq<TokenV>) -> Result<
    (DeclarationValueV, int),
    ErrorV,
> {
    match kind {
        Property::Background => match background_spec(toks) {
            Err(e) => Err(e),
            Ok((b, n)) => Ok((DeclarationValueV::Background(b), n)),
        },
        Property::Font => match font_spec(toks) {
            Err(e) => Err(e),
            Ok(p) => Ok((DeclarationValueV::Font(p), 1)),
        },
        Property::Color => match color_at(toks, 0) {
            Err(e) => Err(e),
            Ok(c) => Ok((DeclarationValueV::Color(c), 1)),
        },
        Property::Rectangle(p) => {
            let (nums, ended) = numbers_run(toks);
            if ended {
                Err(ErrorV::Eof)
            } else {
                Ok((DeclarationValueV::Rectangle(p, nums), nums.len() as int))
            }
        },
        Property::Number(p) => match number_at(toks, 0) {
            Err(e) => Err(e),
            Ok((t, pos)) => Ok((DeclarationValueV::Number(p, t, pos), 1)),
        },
        Property::TextWrap => match text_wrap_spec(toks) {
            Err(e) => Err(e),
            Ok(w) => Ok((DeclarationValueV::TextWrap(w), 1)),
        },
        Property::Size(a) => match size_spec(toks) {
            Err(e) => Err(e),
            Ok((s, n)) => Ok((DeclarationValueV::Size(a, s), n)),
        },
        Property::LayoutDirection => match direction_spec(toks) {
            Err(e) => Err(e),
            Ok(d) => Ok((DeclarationValueV::LayoutDirection(d), 1)),
        },
        Property::Align(a) => match align_spec(toks) {
            Err(e) => Err(e),
            Ok(x) => Ok((DeclarationValueV::Align(a, x), 1)),
        },
        Property::Flag => match flag_spec(toks) {
            Err(e) => Err(e),
            Ok(b) => Ok((DeclarationValueV::Flag(key, b), 1)),
        },
    }
}

/// A declaration `<property>: <value>;` read from the front of `toks`, with the number of tokens
/// it takes.
pub open spec fn declaration_spec(toks: Seq<TokenV>) -> Result<(DeclarationValueV, int), ErrorV> {
    if toks.len() == 0 {
        Err(ErrorV::Eof)
    } else {
        match toks[0].value {
            TokenValueV::Iden(key) => match take_at(toks, 1, TokenValueV::Colon) {
                Err(e) => Err(e),
                Ok(_) => match value_spec(property_spec(key), key, toks.skip(2)) {
                    Err(e) => Err(e),
                    Ok((v, n)) => match take_at(toks, 2 + n, TokenValueV::Semi) {
                        Err(e) => Err(e),
                        Ok(_) => Ok((v, 3 + n)),
                    },
                },
            },
            _ => Err(ErrorV::Syntax("Expected <property>"@, toks[0].pos)),
        }
    }
}

/// A run of numbers is no longer than the tokens it is read from.
proof fn lemma_numbers_run_len(toks: Seq<TokenV>)
    ensures
        numbers_run(toks).0.len() <= toks.len(),
    decreases toks.len(),
{
    if toks.len() > 0 {
        lemma_numbers_run_len(toks.drop_first());
    }
}

/// A value that is read takes no more tokens than there are.
proof fn lemma_value_consumes(kind: Property, key: Seq<char>, toks: Seq<TokenV>)
    ensures
        value_spec(kind, key, toks) matches Ok((_, n)) ==> 0 <= n <= toks.len(),
{
    lemma_numbers_run_len(toks);
    if let Ok((_, n)) = value_spec(kind, key, toks) {
        match kind {
            Property::Size(_) => {
                if n == 4 {
                    assert(take_at(toks, 3, TokenValueV::ParenClose) is Ok);
                }
            },
            Property::Background => {
                if n == 6 {
                    assert(take_at(toks, 5, TokenValueV::ParenClose) is Ok);
                }
            },
            _ => {},
        }
    }
}

/// A declaration that is read takes at least three tokens, and no more than there are.
pub proof fn lemma_declaration_consumes(toks: Seq<TokenV>)
    ensures
        declaration_spec(toks) matches Ok((_, n)) ==> 3 <= n <= toks.len(),
{
    if toks.len() >= 2 {
        if let TokenValueV::Iden(key) = toks[0].value {
            lemma_value_consumes(property_spec(key), key, toks.skip(2));
        }
    }
}

/// Reads the value of property `kind`, named `key`.
fn parse_value(c: &mut TokenProvider, kind: Property, key: String) -> (r: Result<DeclarationValue, Error>)
    ensures
        match value_spec(kind, key@, old(c).rest()) {
            Ok((v, n)) => r matches Ok(x) && x@ == v && 0 <= n <= old(c).rest().len()
                && final(c).rest() == old(c).rest().skip(n),
            Err(e) => r matches Err(x) && x@ == e,
        },
{
    let ghost toks = c.rest();
    proof {
        lemma_value_consumes(kind, key@, toks);
        if toks.len() > 0 {
            assert(one_read(toks) =~= toks.skip(1));
        }
    }
    match kind {
        Property::Background => match parse_background(c) {
            Err(e) => Err(e),
            Ok(b) => Ok(DeclarationValue::Background(b)),
        },
        Property::Font => match parse_font(c) {
            Err(e) => Err(e),
            Ok(p) => Ok(DeclarationValue::Font(p)),
        },
        Property::Color => match parse_color(c) {
            Err(e) => Err(e),
            Ok(h) => Ok(DeclarationValue::Color(h)),
        },
        Property::Rectangle(p) => {
            let (nums, ended) = take_numbers(c);
            if ended {
                Err(Error::Eof)
            } else {
                Ok(DeclarationValue::Rectangle(p, nums))
            }
        },
        Property::Number(p) => match c.next() {
            Some(Token(TokenValue::Number(t), pos)) => Ok(DeclarationValue::Number(p, t, pos)),
            Some(Token(_, pos)) => Err(Error::Syntax(String::from_str("Expected <number>"), pos)),
            None => Err(Error::Eof),
        },
        Property::TextWrap => match parse_text_wrap(c) {
            Err(e) => Err(e),
            Ok(w) => Ok(DeclarationValue::TextWrap(w)),
        },
        Property::Size(a) => match parse_size(c) {
            Err(e) => Err(e),
            Ok(s) => Ok(DeclarationValue::Size(a, s)),
        },
        Property::LayoutDirection => match parse_direction(c) {
            Err(e) => Err(e),
            Ok(d) => Ok(DeclarationValue::LayoutDirection(d)),
        },
        Property::Align(a) => match parse_align(c) {
            Err(e) => Err(e),
            Ok(x) => Ok(DeclarationValue::Align(a, x)),
        },
        Property::Flag => match parse_flag(c) {
            Err(e) => Err(e),
            Ok(b) => Ok(DeclarationValue::Flag(key, b)),
        },
    }
}

/// Reads one declaration, `<property>: <value>;`.
pub fn parse_declaration(c: &mut TokenProvider) -> (r: Result<DeclarationValue, Error>)
    ensures
        match declaration_spec(old(c).rest()) {
            Ok((v, n)) => r matches Ok(x) && x@ == v && final(c).rest() == old(c).rest().skip(n),
            Err(e) => r matches Err(x) && x@ == e,
        },
{
    let ghost toks = c.rest();
    let key = match c.next() {
        Some(Token(TokenValue::Iden(key), _)) => key,
        Some(Token(_, pos)) => {
            return Err(Error::Syntax(String::from_str("Expected <property>"), pos));
        },
        None => {
            return Err(Error::Eof);
        },
    };
    proof {
        assert(c.rest() =~= toks.skip(1));
        lemma_shift(toks, 1);
    }
    match c.take(TokenValue::Colon) {
        Err(e) => {
            return Err(e);
        },
        Ok(_) => {},
    }
    proof {
        assert(c.rest() =~= toks.skip(2));
    }
    let kind = property_kind(key.as_str());
    let value = match parse_value(c, kind, key) {
        Err(e) => {
            return Err(e);
        },
        Ok(v) => v,
    };
    let ghost n = value_spec(kind, toks[0].value->Iden_0, toks.skip(2))->Ok_0.1;
    proof {
        assert(c.rest() =~= toks.skip(2 + n));
        lemma_shift(toks, 2 + n);
    }
    match c.take(TokenValue::Semi) {
        Err(e) => {
            return Err(e);
        },
        Ok(_) => {},
    }
    proof {
        assert(c.rest() =~= toks.skip(3 + n));
    }
    Ok(value)
}


/// The declarations of a rule after its `{`, up to and including the `}` that closes them, with
/// the number of tokens they take.
pub open spec fn declarations_spec(toks: Seq<TokenV>) -> Result<(Seq<DeclarationValueV>, int), ErrorV>
    decreases toks.len(),
{
    if toks.len() > 0 && toks[0].value is BraceClose {
        Ok((Seq::empty(), 1))
    } else {
        match declaration_spec(toks) {
            Err(e) => Err(e),
            Ok((d, n)) => if 1 <= n <= toks.len() {
                match declarations_spec(toks.skip(n)) {
                    Err(e) => Err(e),
                    Ok((ds, m)) => Ok((seq![d] + ds, n + m)),
                }
            } else {
                Err(ErrorV::Eof)
            },
        }
    }
}

/// A rule: its selectors up to `{`, then its declarations up to `}`, with the number of tokens
/// it takes.
pub open spec fn rule_spec(toks: Seq<TokenV>) -> Result<((Seq<SelectorV>, Seq<DeclarationValueV>), int), ErrorV> {
    match rule_head_spec(toks) {
        Err(e) => Err(e),
        Ok((sels, n)) => match declarations_spec(toks.skip(n)) {
            Err(e) => Err(e),
            Ok((ds, m)) => Ok(((sels, ds), n + m)),
        },
    }
}

/// The declarations of a rule take at least their `}`, and no more than there is.
proof fn lemma_declarations_consume(toks: Seq<TokenV>)
    ensures
        declarations_spec(toks) matches Ok((_, n)) ==> 1 <= n <= toks.len(),
    decreases toks.len(),
{
    if !(toks.len() > 0 && toks[0].value is BraceClose) {
        lemma_declaration_consumes(toks);
        if let Ok((_, n)) = declaration_spec(toks) {
            lemma_declarations_consume(toks.skip(n));
        }
    }
}

/// A rule takes at least two tokens, and no more than there are.
pub proof fn lemma_rule_consumes(toks: Seq<TokenV>)
    ensures
        rule_spec(toks) matches Ok((_, n)) ==> 2 <= n <= toks.len(),
{
    lemma_rule_head_consumes(toks);
    if let Ok((_, n)) = rule_head_spec(toks) {
        lemma_declarations_consume(toks.skip(n));
    }
}

/// Reads the declarations of a rule after its `{`, up to and including the closing `}`.
fn parse_declarations(c: &mut TokenProvider) -> (r: Result<Vec<DeclarationValue>, Error>)
    ensures
        match declarations_spec(old(c).rest()) {
            Ok((ds, n)) => r matches Ok(v) && declarations_view(v@) == ds && final(c).rest()
                == old(c).rest().skip(n),
            Err(e) => r matches Err(x) && x@ == e,
        },
{
    let ghost all = c.rest();
    let mut declarations: Vec<DeclarationValue> = Vec::new();
    loop
        invariant
            all == old(c).rest(),
            c.rest().len() <= all.len(),
            c.rest() == all.skip(all.len() - c.rest().len()),
            match declarations_spec(all) {
                Ok((ds, n)) => declarations_spec(c.rest()) matches Ok((rest, m)) && ds
                    == declarations_view(declarations@) + rest && n == (all.len() - c.rest().len())
                    + m,
                Err(e) => declarations_spec(c.rest()) == Err::<(Seq<DeclarationValueV>, int), ErrorV>(e),
            },
        decreases c.rest().len(),
    {
        let ghost before = c.rest();
        proof {
            lemma_declaration_consumes(before);
            lemma_declarations_consume(before);
        }
        let close = match c.peek() {
            Some(Token(TokenValue::BraceClose, _)) => true,
            _ => false,
        };
        if close {
            c.next();
            proof {
                assert(declarations_view(declarations@) + Seq::<DeclarationValueV>::empty()
                    =~= declarations_view(declarations@));
                assert(all.skip(all.len() - before.len() + 1) =~= before.skip(1));
            }
            return Ok(declarations);
        }
        match parse_declaration(c) {
            Ok(d) => {
                let ghost prev = declarations@;
                declarations.push(d);
                proof {
                    assert(c.rest() =~= all.skip(all.len() - c.rest().len()));
                    assert(declarations_view(declarations@) =~= declarations_view(prev).push(d@));
                    if let Ok((ds, _)) = declarations_spec(all) {
                        let rest = declarations_spec(c.rest())->Ok_0.0;
                        assert(declarations_view(declarations@) + rest =~= declarations_view(prev)
                            + (seq![d@] + rest));
                    }
                }
            },
            Err(e) => {
                return Err(e);
            },
        }
    }
}

/// Reads one rule: its selectors, then its declarations between braces.
pub fn parse_rule(c: &mut TokenProvider) -> (r: Result<(Vec<Selector>, Vec<DeclarationValue>), Error>)
    ensures
        match rule_spec(old(c).rest()) {
            Ok(((sels, ds), n)) => r matches Ok(x) && selectors_view(x.0@) == sels
                && declarations_view(x.1@) == ds && final(c).rest() == old(c).rest().skip(n),
            Err(e) => r matches Err(x) && x@ == e,
        },
{
    let ghost toks = c.rest();
    proof {
        lemma_rule_head_consumes(toks);
    }
    let selectors = match parse_rule_selectors(c) {
        Err(e) => {
            return Err(e);
        },
        Ok(s) => s,
    };
    let ghost n = rule_head_spec(toks)->Ok_0.1;
    let declarations = match parse_declarations(c) {
        Err(e) => {
            return Err(e);
        },
        Ok(d) => d,
    };
    proof {
        let m = declarations_spec(toks.skip(n))->Ok_0.1;
        lemma_declarations_consume(toks.skip(n));
        assert(c.rest() =~= toks.skip(n + m));
    }
    Ok((selectors, declarations))
}

/// All rules of a token stream, read one after the other until the tokens run out.
pub open spec fn stylesheet_spec(toks: Seq<TokenV>) -> Result<Seq<(Seq<SelectorV>, Seq<DeclarationValueV>)>, ErrorV>
    decreases toks.len(),
{
    if toks.len() == 0 {
        Ok(Seq::empty())
    } else {
        match rule_spec(toks) {
            Err(e) => Err(e),
            Ok((rule, n)) => if 1 <= n <= toks.len() {
                match stylesheet_spec(toks.skip(n)) {
                    Err(e) => Err(e),
                    Ok(rest) => Ok(seq![rule] + rest),
                }
            } else {
                Ok(seq![rule])
            },
        }
    }
}

/// The views of rules as the parser gives them: their selectors, and the views of their
/// declarations.
pub open spec fn rules_view(rules: Seq<(Seq<SelectorV>, Seq<DeclarationValue>)>) -> Seq<
    (Seq<SelectorV>, Seq<DeclarationValueV>),
> {
    rules.map_values(|r: (Seq<SelectorV>, Seq<DeclarationValue>)| (r.0, declarations_view(r.1)))
}

/// The builder after inserting each of `rules`, first to last.
pub open spec fn insert_rules<D>(b: BuilderV<D>, rules: Seq<(Seq<SelectorV>, Seq<D>)>) -> BuilderV<D>
    decreases rules.len(),
{
    if rules.len() == 0 {
        b
    } else {
        builder_insert(insert_rules(b, rules.drop_last()), rules.last().0, rules.last().1)
    }
}

/// Reads a whole stylesheet into a rule tree under a root that selects any widget: each rule is
/// inserted at the path of its selectors, in the order of the stylesheet.
pub fn parse_stylesheet(tokens: Vec<Token>) -> (r: Result<RuleTreeBuilder<DeclarationValue>, Error>)
    ensures
        match stylesheet_spec(tokens_view(tokens@)) {
            Ok(rules) => r matches Ok(b) && exists|done: Seq<(Seq<SelectorV>, Seq<DeclarationValue>)>|
                rules_view(done) == rules && b@ == insert_rules(
                    leaf::<DeclarationValue>(SelectorV::Widget(SelectorWidgetV::Any)),
                    done,
                ),
            Err(e) => r matches Err(x) && x@ == e,
        },
{
    let mut c = TokenProvider::new(tokens);
    let ghost all = c.rest();
    let mut builder = RuleTreeBuilder::new(Selector::Widget(SelectorWidget::Any));
    let ghost mut done: Seq<(Seq<SelectorV>, Seq<DeclarationValue>)> = Seq::empty();
    while c.peek().is_some()
        invariant
            all == tokens_view(tokens@),
            builder@ == insert_rules(
                leaf::<DeclarationValue>(SelectorV::Widget(SelectorWidgetV::Any)),
                done,
            ),
            match stylesheet_spec(all) {
                Ok(rules) => stylesheet_spec(c.rest()) is Ok && rules == rules_view(done)
                    + stylesheet_spec(c.rest())->Ok_0,
                Err(e) => stylesheet_spec(c.rest()) == Err::<Seq<(Seq<SelectorV>, Seq<DeclarationValueV>)>, ErrorV>(e),
            },
        decreases c.rest().len(),
    {
        let ghost before = c.rest();
        proof {
            lemma_rule_consumes(before);
        }
        match parse_rule(&mut c) {
            Ok((selectors, declarations)) => {
                let ghost rule = (selectors_view(selectors@), declarations@);
                let ghost prev = done;
                builder.insert(selectors.as_slice(), declarations);
                proof {
                    done = done.push(rule);
                    assert(done.drop_last() =~= prev);
                    assert(selectors@.map_values(|s: Selector| s@) =~= selectors_view(selectors@));
                    assert(rules_view(done) =~= rules_view(prev).push((rule.0, declarations_view(rule.1))));
                    if let Ok(rules) = stylesheet_spec(all) {
                        let rest = stylesheet_spec(c.rest())->Ok_0;
                        assert(rules_view(done) + rest =~= rules_view(prev) + (seq![(rule.0, declarations_view(rule.1))] + rest));
                    }
                }
            },
            Err(e) => {
                return Err(e);
            },
        }
    }
    proof {
        assert(rules_view(done) + Seq::empty() =~= rules_view(done));
    }
    Ok(builder)
}

} // verus!
