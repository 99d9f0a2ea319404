use chrusty::cssom::{
    new_css_declaration, new_css_rule, new_css_selector, CSSProperty, CSSValue, Stylesheet, Unit,
};
use chrusty::dom::{new_element, AttrMap, TagType};
use chrusty::parser::{CSSParser, HTMLParser, IParser};
use chrusty::style::{generate_styled_node, Display};

#[test]
fn test_generated_styled_tree() {
    let html = "
            <div class='my-div'>
                Hello world!
            </div>
        ";
    let css = "
            div {
                color: #fff;
            }

            html {
                color: #000;
            }
        ";
    let stylesheet = CSSParser::new(css).parse().unwrap();
    let dom = HTMLParser::new(html).parse().unwrap();
    let styled_dom = generate_styled_node(&dom, &stylesheet);
    let Some(CSSValue::Keyword(val)) = styled_dom.specified_values.get(&CSSProperty::Color)
    else {
        panic!("CSS rule was not applied to HTML tag")
    };
    assert_eq!(val, "#000");
    let Some(CSSValue::Keyword(val)) = styled_dom.children[0]
        .specified_values
        .get(&CSSProperty::Color)
    else {
        panic!("CSS rule was not applied to DIV tag")
    };
    assert_eq!(val, "#fff");
}

#[test]
fn test_display_none() {
    let html = "<div style='display: none'>Hidden</div>";
    let css = "div { display: none; }";
    let stylesheet = CSSParser::new(css).parse().unwrap();
    let dom = HTMLParser::new(html).parse().unwrap();
    let styled_dom = generate_styled_node(&dom, &stylesheet);

    assert!(matches!(
        styled_dom.children[0].get_computed_display(),
        Display::Hidden
    ));
}

#[test]
fn test_inline_block_display() {
    let html = "<div>Inline text</div>";
    let css = "div { display: inline; }";
    let stylesheet = CSSParser::new(css).parse().unwrap();
    let dom = HTMLParser::new(html).parse().unwrap();
    let styled_dom = generate_styled_node(&dom, &stylesheet);

    assert_eq!(
        styled_dom.children[0].get_computed_display(),
        Display::Inline
    );
}

#[test]
fn test_css_specificity_ordering() {
    let html = "<p class='foo'>Text</p>";
    let css = "
            p { color: red; }
            .foo { color: blue; }
        ";
    let stylesheet = CSSParser::new(css).parse().unwrap();
    let dom = HTMLParser::new(html).parse().unwrap();
    let styled_dom = generate_styled_node(&dom, &stylesheet);

    let Some(CSSValue::Keyword(val)) =
        styled_dom.children[0].get_computed_value(&CSSProperty::Color)
    else {
        panic!("CSS rule was not applied")
    };
    assert_eq!(val, "blue");
}

#[test]
fn test_style_element_by_id() {
    let html = "<div id='test'>Hello</div>";
    let css = "#test { color: green; }";
    let stylesheet = CSSParser::new(css).parse().unwrap();
    let dom = HTMLParser::new(html).parse().unwrap();
    let styled_dom = generate_styled_node(&dom, &stylesheet);

    let Some(CSSValue::Keyword(val)) =
        styled_dom.children[0].get_computed_value(&CSSProperty::Color)
    else {
        panic!("CSS rule was not applied")
    };
    assert_eq!(val, "green");
}

// A selector of higher specificity wins whatever the rule order.
#[test]
fn higher_specificity_wins_either_order() {
    let html = "<div id='x' class='a b'>t</div>";
    // (1,2,1) selector vs (0,1,1) selector, in both orders
    let css_first = "
            div#x.a.b { color: red; }
            div.a { color: blue; }
        ";
    let css_second = "
            div.a { color: blue; }
            div#x.a.b { color: red; }
        ";
    for css in [css_first, css_second] {
        let stylesheet = CSSParser::new(css).parse().unwrap();
        let dom = HTMLParser::new(html).parse().unwrap();
        let styled = generate_styled_node(&dom, &stylesheet);
        let Some(CSSValue::Keyword(val)) =
            styled.children[0].get_computed_value(&CSSProperty::Color)
        else {
            panic!("no color resolved")
        };
        assert_eq!(val, "red");
    }
}

// At equal specificity the later rule wins.
#[test]
fn equal_specificity_later_rule_wins() {
    let html = "<p>t</p>";
    let css = "
            p { color: red; }
            p { color: blue; }
        ";
    let stylesheet = CSSParser::new(css).parse().unwrap();
    let dom = HTMLParser::new(html).parse().unwrap();
    let styled = generate_styled_node(&dom, &stylesheet);
    let Some(CSSValue::Keyword(val)) = styled.children[0].get_computed_value(&CSSProperty::Color)
    else {
        panic!("no color resolved")
    };
    assert_eq!(val, "blue");
}

// An important declaration is never buried by a later plain one, even
// one of higher specificity; and it overrides earlier values.
#[test]
fn important_beats_later_and_stronger() {
    let html = "<div id='x'>t</div>";
    let css = "
            div { color: green !important; }
            div#x { color: red; }
        ";
    let stylesheet = CSSParser::new(css).parse().unwrap();
    let dom = HTMLParser::new(html).parse().unwrap();
    let styled = generate_styled_node(&dom, &stylesheet);
    let Some(CSSValue::Keyword(val)) = styled.children[0].get_computed_value(&CSSProperty::Color)
    else {
        panic!("no color resolved")
    };
    assert_eq!(val, "green");
}

// Every property computes to something: unset ones fall back to their
// fixed defaults.
#[test]
fn computed_value_never_absent() {
    let node = new_element(TagType::Div, AttrMap::new(), vec![]);
    let stylesheet = Stylesheet::new(vec![]);
    let styled = generate_styled_node(&node, &stylesheet);
    for p in [
        CSSProperty::Display,
        CSSProperty::Padding,
        CSSProperty::Background,
        CSSProperty::Color,
        CSSProperty::Width,
        CSSProperty::Height,
    ] {
        assert!(styled.get_computed_value(&p).is_some());
    }
    let Some(CSSValue::Dimension(pad, Unit::Px)) = styled.get_computed_value(&CSSProperty::Padding)
    else {
        panic!("padding default must be a length")
    };
    assert_eq!(pad, 0);
}

// An id selector matches whatever the tag and classes are; a class
// selector needs the token among the space-separated classes.
#[test]
fn id_and_class_matching() {
    let html = "<p id='test' class='x y'>a</p><div id='other' class='foo bar'>b</div>";
    let css = "
            #test { color: green; }
            .foo { color: purple; }
        ";
    let stylesheet = CSSParser::new(css).parse().unwrap();
    let dom = HTMLParser::new(html).parse().unwrap();
    let styled = generate_styled_node(&dom, &stylesheet);
    let Some(CSSValue::Keyword(v0)) = styled.children[0].get_computed_value(&CSSProperty::Color)
    else {
        panic!("no color")
    };
    assert_eq!(v0, "green");
    let Some(CSSValue::Keyword(v1)) = styled.children[1].get_computed_value(&CSSProperty::Color)
    else {
        panic!("no color")
    };
    assert_eq!(v1, "purple");
    // the bare token must be present: 'fo' is not 'foo'
    let html2 = "<div class='fo o'>c</div>";
    let dom2 = HTMLParser::new(html2).parse().unwrap();
    let styled2 = generate_styled_node(&dom2, &stylesheet);
    let Some(CSSValue::Keyword(v2)) = styled2.children[0].get_computed_value(&CSSProperty::Color)
    else {
        panic!("no color")
    };
    assert_eq!(v2, "black");
}

// A span is inline whatever the stylesheet declares.
#[test]
fn span_is_always_inline() {
    let html = "<span>t</span>";
    let css = "span { display: block; }";
    let stylesheet = CSSParser::new(css).parse().unwrap();
    let dom = HTMLParser::new(html).parse().unwrap();
    let styled = generate_styled_node(&dom, &stylesheet);
    assert_eq!(styled.children[0].get_computed_display(), Display::Inline);
}

// A style element resolves to an empty map even when rules match it.
#[test]
fn style_element_gets_no_declarations() {
    let html = "<style>p{}</style>";
    let css = "style { color: red; }";
    let stylesheet = CSSParser::new(css).parse().unwrap();
    let dom = HTMLParser::new(html).parse().unwrap();
    let styled = generate_styled_node(&dom, &stylesheet);
    let Some(CSSValue::Keyword(v)) = styled.children[0].get_computed_value(&CSSProperty::Color)
    else {
        panic!("no color")
    };
    assert_eq!(v, "black");
}

// Class tokens split on single spaces, exactly as written: a doubled
// space yields an empty token between two real ones.
#[test]
fn class_tokens_split_on_single_spaces() {
    let html = "<div class='a  b'>t</div>";
    let dom = HTMLParser::new(html).parse().unwrap();
    let chrusty::dom::NodeType::Element(elem) = dom.get_children()[0].get_node_type() else {
        panic!("expected an element")
    };
    assert_eq!(
        elem.classes(),
        vec!["a".to_string(), "".to_string(), "b".to_string()]
    );
    assert!(elem.has_class("a"));
    assert!(elem.has_class("b"));
    assert!(!elem.has_class("a "));
}
