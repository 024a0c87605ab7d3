use pixel_widgets::layout::{Align, Direction, TextWrap};
use pixel_widgets::style::declaration::{
    parse_declaration, parse_rule, parse_stylesheet, property_kind, Axis, DeclarationValue,
    NumberProperty, Property, RectProperty,
};
use pixel_widgets::style::parse::{BackgroundValue, HexColor, SizeValue, TokenProvider};
use pixel_widgets::style::tokenize::{tokenize, TokenPos, TokenValue};
use pixel_widgets::style::tree::RuleTree;
use pixel_widgets::style::{Error, Selector, SelectorWidget};

fn provider(text: &str) -> TokenProvider {
    TokenProvider::new(tokenize(text.to_string()).expect("the text tokenizes"))
}

fn declaration(text: &str) -> DeclarationValue {
    parse_declaration(&mut provider(text)).expect("the declaration reads")
}

fn message(r: Result<DeclarationValue, Error>) -> String {
    match r {
        Err(Error::Syntax(msg, _)) => msg,
        Err(Error::Eof) => "EOF".to_string(),
        Ok(d) => panic!("expected an error, got {:?}", d),
    }
}

fn pos(line: usize, col_start: usize, col_end: usize) -> TokenPos {
    TokenPos { line, col_start, col_end }
}

#[test]
fn property_names_of_both_spellings() {
    assert_eq!(property_kind("text-size"), Property::Number(NumberProperty::TextSize));
    assert_eq!(property_kind("text_size"), Property::Number(NumberProperty::TextSize));
    assert_eq!(property_kind("text_wrap"), Property::TextWrap);
    assert_eq!(property_kind("align_horizontal"), Property::Align(Axis::Horizontal));
    assert_eq!(property_kind("align-vertical"), Property::Align(Axis::Vertical));
    assert_eq!(property_kind("layout-direction"), Property::LayoutDirection);
    assert_eq!(property_kind("padding"), Property::Rectangle(RectProperty::Padding));
    assert_eq!(property_kind("margin-top"), Property::Number(NumberProperty::MarginTop));
    assert_eq!(property_kind("width"), Property::Size(Axis::Horizontal));
    assert_eq!(property_kind("visible"), Property::Flag);
}

#[test]
fn declarations_of_every_kind() {
    assert_eq!(declaration("width: 12;"), DeclarationValue::Size(Axis::Horizontal, SizeValue::Exact("12".to_string(), pos(1, 8, 9))));
    assert_eq!(declaration("height: exact(5);"), DeclarationValue::Size(Axis::Vertical, SizeValue::Exact("5".to_string(), pos(1, 15, 15))));
    assert_eq!(declaration("height: fill(2);"), DeclarationValue::Size(Axis::Vertical, SizeValue::Fill(2)));
    assert_eq!(declaration("text-size: 24;"), DeclarationValue::Number(NumberProperty::TextSize, "24".to_string(), pos(1, 12, 13)));
    assert_eq!(declaration("text_wrap: word-wrap;"), DeclarationValue::TextWrap(TextWrap::WordWrap));
    assert_eq!(declaration("layout-direction: left-to-right;"), DeclarationValue::LayoutDirection(Direction::LeftToRight));
    assert_eq!(declaration("align-horizontal: center;"), DeclarationValue::Align(Axis::Horizontal, Align::Center));
    assert_eq!(declaration("background: none;"), DeclarationValue::Background(BackgroundValue::Clear));
    assert_eq!(declaration("font: \"a.ttf\";"), DeclarationValue::Font("a.ttf".to_string()));
    assert_eq!(declaration("color: #f00;"), DeclarationValue::Color(HexColor { r: 15, g: 0, b: 0, a: 15, max: 15 }));
    assert_eq!(declaration("bold: true;"), DeclarationValue::Flag("bold".to_string(), true));
    assert_eq!(declaration("bold: false;"), DeclarationValue::Flag("bold".to_string(), false));
    match declaration("padding: 1 2;") {
        DeclarationValue::Rectangle(RectProperty::Padding, numbers) => {
            let texts: Vec<&str> = numbers.iter().map(|(t, _)| t.as_str()).collect();
            assert_eq!(texts, vec!["1", "2"]);
        }
        other => panic!("expected a rectangle, got {:?}", other),
    }
    match declaration("margin: ;") {
        DeclarationValue::Rectangle(RectProperty::Margin, numbers) => assert!(numbers.is_empty()),
        other => panic!("expected a rectangle, got {:?}", other),
    }
}

#[test]
fn declaration_takes_its_semicolon() {
    let mut p = provider("width: 3; height: 4;");
    parse_declaration(&mut p).unwrap();
    assert_eq!(p.next().map(|t| t.0), Some(TokenValue::Iden("height".to_string())));
}

#[test]
fn declaration_errors() {
    assert_eq!(message(parse_declaration(&mut provider("; width: 3;"))), "Expected <property>");
    assert_eq!(message(parse_declaration(&mut provider("width 3;"))), "Expected 'Colon'");
    assert_eq!(message(parse_declaration(&mut provider("width: 3"))), "EOF");
    assert_eq!(message(parse_declaration(&mut provider("width: 3 4;"))), "Expected 'Semi'");
    assert_eq!(message(parse_declaration(&mut provider("text-size: big;"))), "Expected <number>");
    assert_eq!(message(parse_declaration(&mut provider("bold: yes;"))), "Flag values must be either `true` or `false`");
    assert_eq!(message(parse_declaration(&mut provider("padding: 1 2"))), "EOF");
    assert_eq!(message(parse_declaration(&mut provider(""))), "EOF");
}

#[test]
fn rule_reads_selectors_and_declarations() {
    let mut p = provider("column button { width: 3; bold: true; } x");
    let (selectors, declarations) = parse_rule(&mut p).unwrap();
    assert_eq!(
        selectors,
        vec![
            Selector::Widget(SelectorWidget::Named("column".to_string())),
            Selector::Widget(SelectorWidget::Named("button".to_string()))
        ]
    );
    assert_eq!(declarations.len(), 2);
    assert_eq!(declarations[1], DeclarationValue::Flag("bold".to_string(), true));
    assert_eq!(p.next().map(|t| t.0), Some(TokenValue::Iden("x".to_string())));
}

#[test]
fn rule_without_its_closing_brace_ends_early() {
    assert!(matches!(parse_rule(&mut provider("a { width: 3;")), Err(Error::Eof)));
    assert!(matches!(parse_rule(&mut provider("a")), Err(Error::Eof)));
}

#[test]
fn stylesheet_reads_every_rule() {
    let tokens = tokenize("a { width: 3; } a b { height: 4; } a { bold: true; }".to_string()).unwrap();
    let builder = parse_stylesheet(tokens).unwrap();
    let mut tree = RuleTree { rules: Vec::new() };
    assert_eq!(builder.flatten(&mut tree), 0);
    assert_eq!(tree.rules.len(), 3);
    assert_eq!(tree.rules[0].selector, Selector::Widget(SelectorWidget::Any));
    assert!(tree.rules[0].declarations.is_empty());
    let a = Selector::Widget(SelectorWidget::Named("a".to_string()));
    let b = Selector::Widget(SelectorWidget::Named("b".to_string()));
    assert_eq!(tree.rules[1].selector, a);
    assert_eq!(
        tree.rules[1].declarations,
        vec![
            DeclarationValue::Size(Axis::Horizontal, SizeValue::Exact("3".to_string(), pos(1, 12, 12))),
            DeclarationValue::Flag("bold".to_string(), true)
        ]
    );
    assert_eq!(tree.rules[2].selector, b);
    assert_eq!(
        tree.rules[2].declarations,
        vec![DeclarationValue::Size(Axis::Vertical, SizeValue::Exact("4".to_string(), pos(1, 31, 31)))]
    );
    let empty = parse_stylesheet(Vec::new()).unwrap();
    let mut none = RuleTree { rules: Vec::new() };
    empty.flatten(&mut none);
    assert_eq!(none.rules.len(), 1);
    let bad = tokenize("a { width 3; }".to_string()).unwrap();
    match parse_stylesheet(bad) {
        Err(Error::Syntax(msg, _)) => assert_eq!(msg, "Expected 'Colon'"),
        _ => panic!("expected a syntax error"),
    }
}
