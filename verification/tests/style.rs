use pixel_widgets::layout::{Align, Direction, TextWrap};
use pixel_widgets::style::parse::{
    parse_align, parse_direction, parse_flag, parse_rule_selectors, parse_selector, parse_selectors,
    parse_text_wrap, parse_usize, parse_widget, TokenProvider,
};
use pixel_widgets::style::tokenize::{tokenize, Token, TokenPos, TokenValue};
use pixel_widgets::style::{Error, Selector, SelectorWidget, StyleState};

fn toks(text: &str) -> Vec<Token> {
    tokenize(text.to_string()).expect("the text tokenizes")
}

fn provider(text: &str) -> TokenProvider {
    TokenProvider::new(toks(text))
}

fn pos(line: usize, col_start: usize, col_end: usize) -> TokenPos {
    TokenPos { line, col_start, col_end }
}

fn syntax(e: Error) -> (String, TokenPos) {
    match e {
        Error::Syntax(msg, pos) => (msg, pos),
        Error::Eof => panic!("expected a syntax error, got the end of the input"),
    }
}

fn named(s: &str) -> SelectorWidget {
    SelectorWidget::Named(s.to_string())
}

#[test]
fn tokenize_a_rule() {
    let t = toks("button { color: #fff; }");
    let values: Vec<TokenValue> = t.iter().map(|t| t.0.clone()).collect();
    assert_eq!(
        values,
        vec![
            TokenValue::Iden("button".to_string()),
            TokenValue::BraceOpen,
            TokenValue::Iden("color".to_string()),
            TokenValue::Colon,
            TokenValue::Color("fff".to_string()),
            TokenValue::Semi,
            TokenValue::BraceClose,
        ]
    );
    let positions: Vec<TokenPos> = t.iter().map(|t| t.1).collect();
    assert_eq!(
        positions,
        vec![pos(1, 1, 6), pos(1, 8, 8), pos(1, 10, 14), pos(1, 15, 15), pos(1, 17, 20), pos(1, 21, 21), pos(1, 23, 23)]
    );
}

#[test]
fn tokenize_counts_lines() {
    let t = toks("a\n  b");
    assert_eq!(t.len(), 2);
    assert_eq!(t[0].0, TokenValue::Iden("a".to_string()));
    assert_eq!(t[0].1, pos(1, 1, 1));
    assert_eq!(t[1].0, TokenValue::Iden("b".to_string()));
    assert_eq!(t[1].1, pos(2, 3, 3));
}

#[test]
fn tokenize_path_drops_its_quotes() {
    let t = toks("\"a/b.png\" x");
    assert_eq!(t.len(), 2);
    assert_eq!(t[0].0, TokenValue::Path("a/b.png".to_string()));
    assert_eq!(t[0].1, pos(1, 1, 8));
    assert_eq!(t[1].0, TokenValue::Iden("x".to_string()));
    assert_eq!(t[1].1, pos(1, 11, 11));
}

#[test]
fn tokenize_number_then_identifier() {
    let t = toks("12.5px");
    assert_eq!(t.len(), 2);
    assert_eq!(t[0].0, TokenValue::Number("12.5".to_string()));
    assert_eq!(t[0].1, pos(1, 1, 4));
    assert_eq!(t[1].0, TokenValue::Iden("px".to_string()));
    assert_eq!(t[1].1, pos(1, 5, 6));
}

#[test]
fn tokenize_identifiers_with_dashes_and_letters() {
    let t = toks("-foo_bar2\tétat");
    assert_eq!(t.len(), 2);
    assert_eq!(t[0].0, TokenValue::Iden("-foo_bar2".to_string()));
    assert_eq!(t[0].1, pos(1, 1, 9));
    assert_eq!(t[1].0, TokenValue::Iden("état".to_string()));
    assert_eq!(t[1].1, pos(1, 11, 14));
}

#[test]
fn tokenize_punctuation() {
    let t = toks("(),.>+~*:;{}");
    let values: Vec<TokenValue> = t.iter().map(|t| t.0.clone()).collect();
    assert_eq!(
        values,
        vec![
            TokenValue::ParenOpen,
            TokenValue::ParenClose,
            TokenValue::Comma,
            TokenValue::Dot,
            TokenValue::Gt,
            TokenValue::Plus,
            TokenValue::Tilde,
            TokenValue::Star,
            TokenValue::Colon,
            TokenValue::Semi,
            TokenValue::BraceOpen,
            TokenValue::BraceClose,
        ]
    );
}

#[test]
fn tokenize_color_stops_at_non_hex() {
    let t = toks("#12ag");
    assert_eq!(t[0].0, TokenValue::Color("12a".to_string()));
    assert_eq!(t[1].0, TokenValue::Iden("g".to_string()));
}

#[test]
fn tokenize_refuses_unknown_characters() {
    let (msg, p) = syntax(tokenize("a $".to_string()).unwrap_err());
    assert_eq!(msg, "Unexpected character '$'");
    assert_eq!(p, pos(1, 3, 3));
}

#[test]
fn tokenize_empty_text() {
    assert!(toks("").is_empty());
    assert!(toks(" \n\t ").is_empty());
}

#[test]
fn provider_reads_in_order() {
    let mut p = provider("a : b");
    assert_eq!(p.peek().map(|t| t.0.clone()), Some(TokenValue::Iden("a".to_string())));
    let (id, at) = p.take_identifier().unwrap();
    assert_eq!(id, "a");
    assert_eq!(at, pos(1, 1, 1));
    let colon = p.take(TokenValue::Colon).unwrap();
    assert_eq!(colon.1, pos(1, 3, 3));
    assert_eq!(p.next().map(|t| t.0), Some(TokenValue::Iden("b".to_string())));
    assert!(p.next().is_none());
    assert!(p.peek().is_none());
}

#[test]
fn provider_take_reports_what_was_expected() {
    let mut p = provider("a");
    let (msg, at) = syntax(p.take(TokenValue::Colon).unwrap_err());
    assert_eq!(msg, "Expected 'Colon'");
    assert_eq!(at, pos(1, 1, 1));
    assert!(matches!(p.take(TokenValue::Colon), Err(Error::Eof)));
    let mut q = provider(";");
    let (msg, _) = syntax(q.take_identifier().unwrap_err());
    assert_eq!(msg, "Expected 'Identifier'");
    let mut r = provider("");
    assert!(matches!(r.take_identifier(), Err(Error::Eof)));
}

#[test]
fn selectors_of_a_path() {
    let sels = parse_selectors(toks("button > label:hover")).unwrap();
    assert_eq!(
        sels,
        vec![
            Selector::Widget(named("button")),
            Selector::WidgetDirectChild(named("label")),
            Selector::State(StyleState::Hover),
        ]
    );
}

#[test]
fn selectors_of_every_kind() {
    let sels = parse_selectors(toks(
        "* .big + a ~ * :nth-child(odd) :nth-child(even) :nth-child(3) :nth-last-child(odd) :nth-last-child(even) :nth-last-child(2) :nth-child-mod(1, 3) :nth-last-child-mod(0,4) :first-child :last-child :only-child :not(.x) :pressed :checked :disabled :open :closed :drag :drop :drop-denied :mine",
    ))
    .unwrap();
    assert_eq!(
        sels,
        vec![
            Selector::Widget(SelectorWidget::Any),
            Selector::Class("big".to_string()),
            Selector::WidgetDirectAfter(named("a")),
            Selector::WidgetAfter(SelectorWidget::Any),
            Selector::NthMod(1, 2),
            Selector::NthMod(0, 2),
            Selector::Nth(3),
            Selector::NthLastMod(1, 2),
            Selector::NthLastMod(0, 2),
            Selector::NthLast(2),
            Selector::NthMod(1, 3),
            Selector::NthLastMod(0, 4),
            Selector::Nth(0),
            Selector::NthLast(0),
            Selector::OnlyChild,
            Selector::Not(Box::new(Selector::Class("x".to_string()))),
            Selector::State(StyleState::Pressed),
            Selector::State(StyleState::Checked),
            Selector::State(StyleState::Disabled),
            Selector::State(StyleState::Open),
            Selector::State(StyleState::Closed),
            Selector::State(StyleState::Drag),
            Selector::State(StyleState::Drop),
            Selector::State(StyleState::Custom("drop-denied".to_string())),
            Selector::State(StyleState::Custom("mine".to_string())),
        ]
    );
}

#[test]
fn selector_errors() {
    let (msg, at) = syntax(parse_selectors(toks("{")).unwrap_err());
    assert_eq!(msg, "expected `<selector>`");
    assert_eq!(at, pos(1, 1, 1));

    let (msg, at) = syntax(parse_selectors(toks(":nth-child(x)")).unwrap_err());
    assert_eq!(msg, "Expected 'odd', 'even' or <number>");
    assert_eq!(at, pos(1, 12, 12));

    let (msg, _) = syntax(parse_selectors(toks(":nth-child(1.5)")).unwrap_err());
    assert_eq!(msg, "invalid digit found in string");

    let (msg, _) = syntax(parse_selectors(toks(":nth-child(99999999999999999999999)")).unwrap_err());
    assert_eq!(msg, "number too large to fit in target type");

    let (msg, _) = syntax(parse_selectors(toks("> .")).unwrap_err());
    assert_eq!(msg, "Expected '*' or 'identifier'");

    let (msg, _) = syntax(parse_selectors(toks(":nth-child-mod(1 3)")).unwrap_err());
    assert_eq!(msg, "Expected 'Comma'");

    assert!(matches!(parse_selectors(toks(".")), Err(Error::Eof)));
    assert!(matches!(parse_selectors(toks(":nth-child(1")), Err(Error::Eof)));
    assert!(parse_selectors(toks("")).unwrap().is_empty());
}

#[test]
fn selector_reads_one_and_leaves_the_rest() {
    let mut p = provider(":not(a) b");
    let s = parse_selector(&mut p).unwrap();
    assert_eq!(s, Selector::Not(Box::new(Selector::Widget(named("a")))));
    assert_eq!(p.next().map(|t| t.0), Some(TokenValue::Iden("b".to_string())));
}

#[test]
fn rule_selectors_stop_after_the_brace() {
    let mut p = provider("window button { color: #fff; }");
    let sels = parse_rule_selectors(&mut p).unwrap();
    assert_eq!(sels, vec![Selector::Widget(named("window")), Selector::Widget(named("button"))]);
    assert_eq!(p.next().map(|t| t.0), Some(TokenValue::Iden("color".to_string())));

    let mut q = provider("{ }");
    assert!(parse_rule_selectors(&mut q).unwrap().is_empty());
    assert_eq!(q.next().map(|t| t.0), Some(TokenValue::BraceClose));

    let mut r = provider("button");
    assert!(matches!(parse_rule_selectors(&mut r), Err(Error::Eof)));

    let mut s = provider("button ; {");
    let (msg, _) = syntax(parse_rule_selectors(&mut s).unwrap_err());
    assert_eq!(msg, "expected `<selector>`");
}

#[test]
fn flags_are_true_or_false() {
    assert_eq!(parse_flag(&mut provider("true")).unwrap(), true);
    assert_eq!(parse_flag(&mut provider("false")).unwrap(), false);
    let (msg, at) = syntax(parse_flag(&mut provider("  maybe")).unwrap_err());
    assert_eq!(msg, "Flag values must be either `true` or `false`");
    assert_eq!(at, pos(1, 3, 7));
    assert!(matches!(parse_flag(&mut provider("")), Err(Error::Eof)));
}

#[test]
fn usize_values() {
    assert_eq!(parse_usize(&mut provider("42")).unwrap(), 42);
    assert_eq!(parse_usize(&mut provider("007")).unwrap(), 7);
    let (msg, _) = syntax(parse_usize(&mut provider("abc")).unwrap_err());
    assert_eq!(msg, "Expected <integer>");
    let (msg, _) = syntax(parse_usize(&mut provider("4.2")).unwrap_err());
    assert_eq!(msg, "invalid digit found in string");
    assert!(matches!(parse_usize(&mut provider("")), Err(Error::Eof)));
}

#[test]
fn widget_values() {
    assert_eq!(parse_widget(&mut provider("*")).unwrap(), SelectorWidget::Any);
    assert_eq!(parse_widget(&mut provider("button")).unwrap(), named("button"));
    let (msg, _) = syntax(parse_widget(&mut provider(".")).unwrap_err());
    assert_eq!(msg, "Expected '*' or 'identifier'");
}

#[test]
fn align_values_ignore_case() {
    assert_eq!(parse_align(&mut provider("CENTER")).unwrap(), Align::Center);
    assert_eq!(parse_align(&mut provider("left")).unwrap(), Align::Begin);
    assert_eq!(parse_align(&mut provider("Top")).unwrap(), Align::Begin);
    assert_eq!(parse_align(&mut provider("begin")).unwrap(), Align::Begin);
    assert_eq!(parse_align(&mut provider("bottom")).unwrap(), Align::End);
    assert_eq!(parse_align(&mut provider("RIGHT")).unwrap(), Align::End);
    let (msg, at) = syntax(parse_align(&mut provider("middle")).unwrap_err());
    assert_eq!(msg, "Expected `begin`, `center` or `end`");
    assert_eq!(at, pos(1, 1, 6));
    let (msg, _) = syntax(parse_align(&mut provider("5")).unwrap_err());
    assert_eq!(msg, "Expected `begin`, `center` or `end`");
    assert!(matches!(parse_align(&mut provider("")), Err(Error::Eof)));
}

#[test]
fn direction_values() {
    assert_eq!(parse_direction(&mut provider("Left-To-Right")).unwrap(), Direction::LeftToRight);
    assert_eq!(parse_direction(&mut provider("top-to-bottom")).unwrap(), Direction::TopToBottom);
    assert_eq!(parse_direction(&mut provider("right-to-left")).unwrap(), Direction::RightToLeft);
    assert_eq!(parse_direction(&mut provider("bottom-to-top")).unwrap(), Direction::BottomToTop);
    let (msg, _) = syntax(parse_direction(&mut provider("up")).unwrap_err());
    assert_eq!(msg, "Expected `top-to-bottom`, `left-to-right`, `right-to-left` or `bottom-to-top`");
    assert!(matches!(parse_direction(&mut provider("")), Err(Error::Eof)));
}

#[test]
fn text_wrap_values() {
    assert_eq!(parse_text_wrap(&mut provider("no-wrap")).unwrap(), TextWrap::NoWrap);
    assert_eq!(parse_text_wrap(&mut provider("Word-Wrap")).unwrap(), TextWrap::WordWrap);
    assert_eq!(parse_text_wrap(&mut provider("wrap")).unwrap(), TextWrap::Wrap);
    let (msg, _) = syntax(parse_text_wrap(&mut provider("nowrap")).unwrap_err());
    assert_eq!(msg, "Expected `no-wrap`, `word-wrap` or `wrap`");
    assert!(matches!(parse_text_wrap(&mut provider("")), Err(Error::Eof)));
}

#[test]
fn child_matching() {
    assert_eq!(Selector::Widget(named("button")).match_child(false, "button"), Some(true));
    assert_eq!(Selector::Widget(named("button")).match_child(true, "label"), Some(false));
    assert_eq!(Selector::Widget(SelectorWidget::Any).match_child(false, "x"), Some(true));
    assert_eq!(Selector::WidgetDirectChild(named("a")).match_child(false, "a"), Some(false));
    assert_eq!(Selector::WidgetDirectChild(named("a")).match_child(true, "a"), Some(true));
    assert_eq!(Selector::Not(Box::new(Selector::Widget(SelectorWidget::Any))).match_child(true, "x"), Some(false));
    assert_eq!(Selector::Class("a".to_string()).match_child(true, "a"), None);
    assert_eq!(Selector::WidgetAfter(SelectorWidget::Any).match_child(true, "a"), None);
}

#[test]
fn sibling_matching() {
    assert_eq!(Selector::WidgetDirectAfter(SelectorWidget::Any).match_sibling(true, "a"), Some(true));
    assert_eq!(Selector::WidgetDirectAfter(SelectorWidget::Any).match_sibling(false, "a"), Some(false));
    assert_eq!(Selector::WidgetAfter(named("a")).match_sibling(false, "a"), Some(true));
    assert_eq!(Selector::WidgetAfter(named("a")).match_sibling(false, "b"), Some(false));
    assert_eq!(Selector::Not(Box::new(Selector::WidgetAfter(named("a")))).match_sibling(false, "b"), Some(true));
    assert_eq!(Selector::Widget(SelectorWidget::Any).match_sibling(true, "a"), None);
}

#[test]
fn meta_matching() {
    let states: Vec<StyleState<&str>> = vec![StyleState::Hover, StyleState::Custom("mine")];
    assert_eq!(Selector::State(StyleState::Hover).match_meta(&states, "", 0, 1), Some(true));
    assert_eq!(Selector::State(StyleState::Pressed).match_meta(&states, "", 0, 1), Some(false));
    assert_eq!(Selector::State(StyleState::Custom("mine".to_string())).match_meta(&states, "", 0, 1), Some(true));
    assert_eq!(Selector::Class("big".to_string()).match_meta(&states, "big", 0, 1), Some(true));
    assert_eq!(Selector::Class("big".to_string()).match_meta(&states, "small", 0, 1), Some(false));
    assert_eq!(Selector::Nth(2).match_meta(&states, "", 2, 5), Some(true));
    assert_eq!(Selector::Nth(2).match_meta(&states, "", 3, 5), Some(false));
    assert_eq!(Selector::NthMod(1, 2).match_meta(&states, "", 3, 5), Some(true));
    assert_eq!(Selector::NthLast(0).match_meta(&states, "", 4, 5), Some(true));
    assert_eq!(Selector::NthLastMod(0, 2).match_meta(&states, "", 1, 4), Some(true));
    assert_eq!(Selector::NthLastMod(0, 2).match_meta(&states, "", 2, 4), Some(false));
    assert_eq!(Selector::OnlyChild.match_meta(&states, "", 0, 1), Some(true));
    assert_eq!(Selector::OnlyChild.match_meta(&states, "", 0, 2), Some(false));
    assert_eq!(Selector::Not(Box::new(Selector::OnlyChild)).match_meta(&states, "", 0, 1), Some(false));
    assert_eq!(Selector::Widget(SelectorWidget::Any).match_meta(&states, "", 0, 1), None);
}

#[test]
fn widget_selector_from_text() {
    assert_eq!(SelectorWidget::from_str("*"), SelectorWidget::Any);
    assert_eq!(SelectorWidget::from_str("button"), named("button"));
    assert!(SelectorWidget::Any.matches("anything"));
    assert!(named("button").matches("button"));
    assert!(!named("button").matches("label"));
}

#[test]
fn state_from_text() {
    assert_eq!(StyleState::from_str("hover"), StyleState::Hover);
    assert_eq!(StyleState::from_str("drop-denied"), StyleState::DropDenied);
    assert_eq!(StyleState::from_str("focused"), StyleState::Custom("focused".to_string()));
    assert_eq!(StyleState::from_str("other"), StyleState::Custom("other".to_string()));
}

#[test]
fn states_compare_across_string_types() {
    let a: StyleState<String> = StyleState::Custom("x".to_string());
    let b: StyleState<&str> = StyleState::Custom("x");
    let c: StyleState<&str> = StyleState::Custom("y");
    assert!(a.state_eq(&b));
    assert!(!a.state_eq(&c));
    let h: StyleState<String> = StyleState::Focused;
    assert!(h.state_eq(&StyleState::<&str>::Focused));
    assert!(!h.state_eq(&StyleState::<&str>::Hover));
}

#[test]
fn selector_copy_and_equals() {
    let s = Selector::Not(Box::new(Selector::State(StyleState::Custom("a".to_string()))));
    let c = s.copy();
    assert_eq!(c, s);
    assert!(c.equals(&s));
    assert!(!c.equals(&Selector::OnlyChild));
}

use pixel_widgets::style::parse::{parse_color, parse_size, sides, take_numbers, HexColor, SizeValue};

#[test]
fn colors_of_every_form() {
    assert_eq!(parse_color(&mut provider("#fff")).unwrap(), HexColor { r: 15, g: 15, b: 15, a: 15, max: 15 });
    assert_eq!(parse_color(&mut provider("#abcd")).unwrap(), HexColor { r: 10, g: 11, b: 12, a: 13, max: 15 });
    assert_eq!(parse_color(&mut provider("#A1b2C3")).unwrap(), HexColor { r: 0xa1, g: 0xb2, b: 0xc3, a: 255, max: 255 });
    assert_eq!(
        parse_color(&mut provider("#12345678")).unwrap(),
        HexColor { r: 0x12, g: 0x34, b: 0x56, a: 0x78, max: 255 }
    );
}

#[test]
fn color_errors() {
    let (msg, at) = syntax(parse_color(&mut provider("#12")).unwrap_err());
    assert_eq!(msg, "Color values must match one of the following hex patterns: #rgb, #rgba, #rrggbb or #rrggbbaa");
    assert_eq!(at, pos(1, 1, 3));
    let (msg, _) = syntax(parse_color(&mut provider("#123456789")).unwrap_err());
    assert_eq!(msg, "number too large to fit in target type");
    let (msg, _) = syntax(parse_color(&mut provider("#")).unwrap_err());
    assert_eq!(msg, "cannot parse integer from empty string");
    let (msg, _) = syntax(parse_color(&mut provider("red")).unwrap_err());
    assert_eq!(msg, "Expected <color>");
    assert!(matches!(parse_color(&mut provider("")), Err(Error::Eof)));
}

#[test]
fn color_from_a_token_made_by_hand() {
    let mut p = TokenProvider::new(vec![Token(TokenValue::Color("+fff".to_string()), pos(1, 1, 5))]);
    assert_eq!(parse_color(&mut p).unwrap(), HexColor { r: 0, g: 15, b: 15, a: 15, max: 15 });
    let mut q = TokenProvider::new(vec![Token(TokenValue::Color("fg0".to_string()), pos(1, 1, 4))]);
    let (msg, _) = syntax(parse_color(&mut q).unwrap_err());
    assert_eq!(msg, "invalid digit found in string");
}

#[test]
fn number_runs() {
    let mut p = provider("1 2.5 3 ;");
    let (numbers, ended) = take_numbers(&mut p);
    let texts: Vec<&str> = numbers.iter().map(|n| n.0.as_str()).collect();
    assert_eq!(texts, vec!["1", "2.5", "3"]);
    assert_eq!(numbers[1].1, pos(1, 3, 5));
    assert!(!ended);
    assert_eq!(p.next().map(|t| t.0), Some(TokenValue::Semi));

    let mut q = provider("4 5");
    let (numbers, ended) = take_numbers(&mut q);
    assert_eq!(numbers.len(), 2);
    assert!(ended);

    let mut r = provider("x");
    let (numbers, ended) = take_numbers(&mut r);
    assert!(numbers.is_empty());
    assert!(!ended);
    assert_eq!(r.next().map(|t| t.0), Some(TokenValue::Iden("x".to_string())));
}

#[test]
fn rectangle_sides() {
    assert_eq!(sides::<u8>(&vec![]), None);
    assert_eq!(sides(&vec![1]), Some((1, 1, 1, 1)));
    assert_eq!(sides(&vec![1, 2]), Some((1, 2, 1, 2)));
    assert_eq!(sides(&vec![1, 2, 3]), Some((1, 2, 3, 2)));
    assert_eq!(sides(&vec![1, 2, 3, 4]), Some((1, 2, 3, 4)));
    assert_eq!(sides(&vec![1, 2, 3, 4, 5]), Some((1, 2, 3, 4)));
}

#[test]
fn size_values() {
    assert_eq!(parse_size(&mut provider("shrink")).unwrap(), SizeValue::Shrink);
    assert_eq!(parse_size(&mut provider("Fill(3)")).unwrap(), SizeValue::Fill(3));
    assert_eq!(parse_size(&mut provider("fill(4294967297)")).unwrap(), SizeValue::Fill(1));
    assert_eq!(parse_size(&mut provider("12.5")).unwrap(), SizeValue::Exact("12.5".to_string(), pos(1, 1, 4)));
    let (msg, _) = syntax(parse_size(&mut provider("fill 3")).unwrap_err());
    assert_eq!(msg, "Expected 'ParenOpen'");
    let (msg, _) = syntax(parse_size(&mut provider("big")).unwrap_err());
    assert_eq!(msg, "Expected `shrink`, `fill(<integer>)` or <number>");
    let (msg, _) = syntax(parse_size(&mut provider(";")).unwrap_err());
    assert_eq!(msg, "Expected `shrink`, `fill(<integer>)` or <number>");
    assert!(matches!(parse_size(&mut provider("fill(2")), Err(Error::Eof)));
    let mut p = provider("fill(2) x");
    parse_size(&mut p).unwrap();
    assert_eq!(p.next().map(|t| t.0), Some(TokenValue::Iden("x".to_string())));
}

use pixel_widgets::style::parse::{parse_background, parse_font, BackgroundValue};

fn white() -> HexColor {
    HexColor { r: 1, g: 1, b: 1, a: 1, max: 1 }
}

#[test]
fn backgrounds_of_every_form() {
    assert_eq!(parse_background(&mut provider("None")).unwrap(), BackgroundValue::Clear);
    assert_eq!(
        parse_background(&mut provider("#000")).unwrap(),
        BackgroundValue::Color(HexColor { r: 0, g: 0, b: 0, a: 15, max: 15 })
    );
    assert_eq!(
        parse_background(&mut provider("image(\"a.png\", #ff0000)")).unwrap(),
        BackgroundValue::Image("a.png".to_string(), HexColor { r: 255, g: 0, b: 0, a: 255, max: 255 })
    );
    assert_eq!(
        parse_background(&mut provider("PATCH(\"b.9.png\", #fff8)")).unwrap(),
        BackgroundValue::Patch("b.9.png".to_string(), HexColor { r: 15, g: 15, b: 15, a: 8, max: 15 })
    );
    assert_eq!(parse_background(&mut provider("\"c.9.png\"")).unwrap(), BackgroundValue::Patch("c.9.png".to_string(), white()));
    assert_eq!(parse_background(&mut provider("\"c.png\"")).unwrap(), BackgroundValue::Image("c.png".to_string(), white()));
    assert_eq!(parse_background(&mut provider("\".9.png\"")).unwrap(), BackgroundValue::Patch(".9.png".to_string(), white()));
    assert_eq!(parse_background(&mut provider("\"9.png\"")).unwrap(), BackgroundValue::Image("9.png".to_string(), white()));
}

#[test]
fn background_leaves_the_rest() {
    let mut p = provider("image(\"a.png\", #fff); x");
    parse_background(&mut p).unwrap();
    assert_eq!(p.next().map(|t| t.0), Some(TokenValue::Semi));
}

#[test]
fn background_errors() {
    let (msg, _) = syntax(parse_background(&mut provider("picture")).unwrap_err());
    assert_eq!(msg, "Expected `image`, `patch` or `none`");
    let (msg, _) = syntax(parse_background(&mut provider("image(x, #fff)")).unwrap_err());
    assert_eq!(msg, "Expected <url>");
    let (msg, _) = syntax(parse_background(&mut provider("patch(x, #fff)")).unwrap_err());
    assert_eq!(msg, "Expected url");
    let (msg, _) = syntax(parse_background(&mut provider("image \"a\"")).unwrap_err());
    assert_eq!(msg, "Expected 'ParenOpen'");
    let (msg, _) = syntax(parse_background(&mut provider("image(\"a\" #fff)")).unwrap_err());
    assert_eq!(msg, "Expected 'Comma'");
    let (msg, _) = syntax(parse_background(&mut provider("image(\"a\", #ff)")).unwrap_err());
    assert_eq!(msg, "Color values must match one of the following hex patterns: #rgb, #rgba, #rrggbb or #rrggbbaa");
    let (msg, _) = syntax(parse_background(&mut provider("image(\"a\", #fff;")).unwrap_err());
    assert_eq!(msg, "Expected 'ParenClose'");
    let (msg, at) = syntax(parse_background(&mut provider("  ;")).unwrap_err());
    assert_eq!(msg, "Expected `none`, `image(<url>, <color>)`, `patch(<url>, <color>)`, <color> or <url>");
    assert_eq!(at, pos(1, 3, 3));
    assert!(matches!(parse_background(&mut provider("")), Err(Error::Eof)));
    assert!(matches!(parse_background(&mut provider("image(")), Err(Error::Eof)));
}

#[test]
fn fonts_are_paths() {
    assert_eq!(parse_font(&mut provider("\"f.ttf\"")).unwrap(), "f.ttf");
    let (msg, _) = syntax(parse_font(&mut provider("f")).unwrap_err());
    assert_eq!(msg, "Expected <url>");
    assert!(matches!(parse_font(&mut provider("")), Err(Error::Eof)));
}

#[test]
fn exact_size_takes_a_number() {
    let mut p = provider("exact(5);");
    assert_eq!(parse_size(&mut p).unwrap(), SizeValue::Exact("5".to_string(), pos(1, 7, 7)));
    assert_eq!(p.next().map(|t| t.0), Some(TokenValue::Semi));
    assert_eq!(parse_size(&mut provider("EXACT(2.5)")).unwrap(), SizeValue::Exact("2.5".to_string(), pos(1, 7, 9)));
    let (msg, _) = syntax(parse_size(&mut provider("exact(x)")).unwrap_err());
    assert_eq!(msg, "Expected <number>");
    assert!(matches!(parse_size(&mut provider("exact(")), Err(Error::Eof)));
}

#[test]
fn readers_consume_the_token_they_refuse() {
    let mut p = provider("a ; b");
    assert!(p.take(TokenValue::Colon).is_err());
    assert_eq!(p.next().map(|t| t.0), Some(TokenValue::Semi));
    let mut q = provider("; b");
    assert!(q.take_identifier().is_err());
    assert_eq!(q.next().map(|t| t.0), Some(TokenValue::Iden("b".to_string())));
    let mut r = provider("x 3");
    assert!(parse_usize(&mut r).is_err());
    assert_eq!(parse_usize(&mut r).unwrap(), 3);
    let mut s = provider("1.5 7");
    assert!(parse_usize(&mut s).is_err());
    assert_eq!(parse_usize(&mut s).unwrap(), 7);
    let mut t = provider("sideways center");
    assert!(parse_align(&mut t).is_err());
    assert_eq!(parse_align(&mut t).unwrap(), Align::Center);
}
