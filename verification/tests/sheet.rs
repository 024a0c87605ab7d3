use pixel_widgets::layout::{Align, TextWrap};
use pixel_widgets::style::parse::{BackgroundValue, HexColor};
use pixel_widgets::style::sheet::{
    sheet_tokens, style_rules, BackgroundSlot, SheetError, SheetRule, SheetSize, SheetToken, Side,
};

fn syntax(r: Result<Vec<pixel_widgets::style::sheet::SheetSelector>, SheetError>) -> String {
    match r {
        Err(SheetError::Syntax(m)) => m,
        other => panic!("expected a syntax error, got {:?}", other),
    }
}

#[test]
fn plain_tokens() {
    let t = sheet_tokens("button.big { width: 12.5 }").unwrap();
    assert_eq!(
        t,
        vec![
            SheetToken::Identifier("button".to_string()),
            SheetToken::Class("big".to_string()),
            SheetToken::CurlyOpen,
            SheetToken::Identifier("width".to_string()),
            SheetToken::Colon,
            SheetToken::Number("12.5".to_string()),
            SheetToken::CurlyClose,
        ]
    );
    assert_eq!(
        sheet_tokens("\"a b\"").unwrap(),
        vec![SheetToken::Text("a".to_string()), SheetToken::Identifier("b".to_string()), SheetToken::Text(String::new())]
    );
    assert_eq!(sheet_tokens("#f0a").unwrap(), vec![SheetToken::Color("f0a".to_string())]);
    assert_eq!(sheet_tokens("ab\ncd").unwrap(), vec![SheetToken::Identifier("abcd".to_string())]);
    assert_eq!(sheet_tokens("a @"), Err('@'));
}

#[test]
fn plain_rules_of_every_kind() {
    let text = "window .dark {
        background: image(\"a.png\", #fff)
        hover: #0f0
        font: \"f.ttf\"
        color: #12345678
        padding: (left: 1 top: 2)
        text-size: 14
        text-wrap: Word-Wrap
        width: fill(2)
        height: shrink
        align-horizontal: center
        align-vertical: END
    }";
    let sels = style_rules(text).unwrap();
    assert_eq!(sels.len(), 1);
    let s = &sels[0];
    assert_eq!(s.elements, vec!["window".to_string()]);
    assert_eq!(s.classes, vec!["dark".to_string()]);
    let white = HexColor { r: 15, g: 15, b: 15, a: 15, max: 15 };
    assert_eq!(
        s.rules,
        vec![
            SheetRule::Background(BackgroundSlot::Background, BackgroundValue::Image("a.png".to_string(), white)),
            SheetRule::Background(BackgroundSlot::Hover, BackgroundValue::Color(HexColor { r: 0, g: 15, b: 0, a: 15, max: 15 })),
            SheetRule::Font("f.ttf".to_string()),
            SheetRule::Color(HexColor { r: 0x12, g: 0x34, b: 0x56, a: 0x78, max: 255 }),
            SheetRule::Padding(vec![(Side::Left, "1".to_string()), (Side::Top, "2".to_string())]),
            SheetRule::TextSize("14".to_string()),
            SheetRule::TextWrap(TextWrap::WordWrap),
            SheetRule::Width(SheetSize::Fill("2".to_string())),
            SheetRule::Height(SheetSize::Shrink),
            SheetRule::AlignHorizontal(Align::Center),
            SheetRule::AlignVertical(Align::End),
        ]
    );
}

#[test]
fn plain_errors() {
    assert_eq!(syntax(style_rules("a { size: 3 }")), "Key size not recognized");
    assert_eq!(syntax(style_rules("a { width 3 }")), "Expected 'Colon'");
    assert_eq!(syntax(style_rules("a { width:")), "Unexpected end of file while parsing font");
    assert_eq!(syntax(style_rules("a")), "unexpected end of file");
    assert_eq!(syntax(style_rules(": {}")), "Unexpected token parsing selector");
    assert_eq!(syntax(style_rules("a { 3 }")), "Expected identifier at start of rule");
    assert_eq!(syntax(style_rules("a { padding: (middle: 1) }")), "unknown field 'middle' for rectangle");
    assert_eq!(syntax(style_rules("a { background: tiled }")), "tiled is not a background type");
    assert!(matches!(style_rules("a { color: #12 }"), Err(SheetError::Color(_))));
    assert!(matches!(style_rules("a { b: ~ }"), Err(SheetError::Character('~'))));
    assert_eq!(style_rules("").unwrap().len(), 0);
    assert_eq!(style_rules("a {} b {}").unwrap().len(), 2);
}
