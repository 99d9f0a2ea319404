use chrusty::cssom::{
    new_css_declaration, new_css_rule, new_css_selector, CSSProperty, CSSValue, ColorData,
    Stylesheet, Unit,
};
use chrusty::dom::TagType;

#[test]
fn test_stylesheet_display() {
    let rule = new_css_rule(
        vec![new_css_selector(
            None,
            vec!["btn".to_string()],
            Some("primary".to_string()),
        )],
        vec![new_css_declaration(
            CSSProperty::Color,
            CSSValue::Keyword("red".to_string()),
            false,
        )],
    );
    let stylesheet = Stylesheet::new(vec![rule]);
    let output = stylesheet.to_css_string();
    assert!(output.contains("#primary.btn {"));
    assert!(output.contains("color: red;"));
}

#[test]
fn test_add_rule() {
    let mut stylesheet = Stylesheet::new(vec![]);
    let rule = new_css_rule(vec![], vec![]);
    stylesheet.add_rule(rule);
    assert_eq!(stylesheet.rules.len(), 1);
}

#[test]
fn test_css_selector_display() {
    let selector = new_css_selector(Some(TagType::Div), vec!["container".to_string()], None);
    assert_eq!(selector.to_css_string(), "div.container");
}

#[test]
fn test_css_selector_specificity() {
    let selector = new_css_selector(
        Some(TagType::Div),
        vec!["class1".to_string(), "class2".to_string()],
        Some("unique".to_string()),
    );
    assert_eq!(selector.specificity(), (1, 2, 1));
}

#[test]
fn test_css_rule_display() {
    let rule = new_css_rule(
        vec![new_css_selector(
            Some(TagType::Div),
            vec!["highlight".to_string()],
            None,
        )],
        vec![new_css_declaration(
            CSSProperty::Background,
            CSSValue::Keyword("yellow".to_string()),
            true,
        )],
    );
    let output = rule.to_css_string();
    assert!(output.contains("div.highlight {"));
    assert!(output.contains("background: yellow !important;"));
}

#[test]
fn test_css_declaration_display() {
    let decl = new_css_declaration(
        CSSProperty::Padding,
        CSSValue::Dimension(10, Unit::Px),
        false,
    );
    assert_eq!(decl.to_css_string(), "padding: 10px;");
}

#[test]
fn test_css_value_display() {
    let val1 = CSSValue::Dimension(20, Unit::Percent);
    assert_eq!(val1.to_css_string(), "20%");

    let val2 = CSSValue::Keyword("none".to_string());
    assert_eq!(val2.to_css_string(), "none");

    let val3 = CSSValue::Color(ColorData::Rgb(255, 0, 0));
    assert_eq!(val3.to_css_string(), "rgb(255, 0, 0)");
}

#[test]
fn test_css_value_display_large_number() {
    let val = CSSValue::Dimension(4294967295, Unit::Px);
    assert_eq!(val.to_css_string(), "4294967295px");
}

#[test]
fn test_css_value_display_hex() {
    let val = CSSValue::Color(ColorData::Hex("#a0b1c2".to_string()));
    assert_eq!(val.to_css_string(), "#a0b1c2");
}

#[test]
fn test_default_values() {
    assert_eq!(
        CSSProperty::Padding.default_value().to_css_string(),
        "0px"
    );
    assert_eq!(
        CSSProperty::Display.default_value().to_css_string(),
        "block"
    );
    assert_eq!(CSSProperty::Width.default_value().to_css_string(), "auto");
    assert_eq!(CSSProperty::Height.default_value().to_css_string(), "auto");
}
