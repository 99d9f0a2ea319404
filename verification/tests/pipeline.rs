use chrusty::engine::{parse_to_layout, EngineError};
use chrusty::layout::{Dimensions, LayoutError, Rect};
use chrusty::parser::{CSSParser, HTMLParser, IParser, ParseError};
use chrusty::utils::minify;

#[test]
fn parse() {
    let input = "
            div#id.hello {
                height: 100%;
                background: purple;
                color: #ffffff !important;
            }

            div.my-div,
            div.my-div-2 {
                width: 100px;
                height: 100%;
                background: blue;
                color: #ffffff;
            }

            html {
                background: green;
            }
        ";
    let parsed = CSSParser::new(input).parse().unwrap();
    assert_eq!(minify(&parsed.to_css_string()), minify(input))
}

#[test]
fn minify_strips_whitespace() {
    assert_eq!(minify(" a \n\tb c "), "abc");
    assert_eq!(minify(""), "");
}

#[test]
fn parse_value_forms() {
    let input = "div { width: 42px; height: 17%; background: rgb(1,23,200); color: teal; }";
    let parsed = CSSParser::new(input).parse().unwrap();
    let out = parsed.to_css_string();
    assert!(out.contains("width: 42px;"));
    assert!(out.contains("height: 17%;"));
    assert!(out.contains("background: rgb(1, 23, 200);"));
    assert!(out.contains("color: teal;"));
}

#[test]
fn parse_rejects_unknown_property() {
    assert!(matches!(
        CSSParser::new("div { margin: 0px; }").parse(),
        Err(ParseError::UnknownProperty)
    ));
}

#[test]
fn parse_rejects_unknown_tag() {
    assert!(matches!(
        CSSParser::new("table { color: red; }").parse(),
        Err(ParseError::UnknownTag)
    ));
}

#[test]
fn parse_rejects_fractional_number() {
    assert!(matches!(
        CSSParser::new("div { width: 10.5px; }").parse(),
        Err(ParseError::BadNumber)
    ));
}

#[test]
fn parse_rejects_missing_colon() {
    assert!(matches!(
        CSSParser::new("div { width 10px; }").parse(),
        Err(ParseError::BadChar)
    ));
}

#[test]
fn parse_rejects_truncated_rule() {
    assert!(matches!(
        CSSParser::new("div { color: red;").parse(),
        Err(ParseError::Eof)
    ));
}

#[test]
fn html_parse_rejects_unknown_tag() {
    assert!(matches!(
        HTMLParser::new("<table></table>").parse(),
        Err(ParseError::UnknownTag)
    ));
}

#[test]
fn html_parse_rejects_bad_attribute() {
    assert!(matches!(
        HTMLParser::new("<div id=x></div>").parse(),
        Err(ParseError::BadChar)
    ));
}

#[test]
fn html_parse_nested_attributes() {
    let dom = HTMLParser::new("<div id='a' class='x y'><p>text</p></div>")
        .parse()
        .unwrap();
    let root_children = dom.get_children();
    assert_eq!(root_children.len(), 1);
    let chrusty::dom::NodeType::Element(elem) = root_children[0].get_node_type() else {
        panic!("expected an element")
    };
    assert_eq!(elem.id().unwrap(), "a");
    assert_eq!(elem.classes(), vec!["x".to_string(), "y".to_string()]);
    assert!(elem.has_class("y"));
    assert!(!elem.has_class("z"));
}

// The round trip of the whole pipeline: document and stylesheet in,
// positioned boxes out.
#[test]
fn pipeline_round_trip() {
    let mut tree = parse_to_layout(
        "<div id='1'><div id='2'></div></div>",
        "#1{padding: 20px;} #2{height: 100px;}",
    )
    .unwrap();
    let container = Dimensions {
        boundingRect: Rect {
            x: 0,
            y: 0,
            width: 800,
            height: 600,
        },
        ..Dimensions::default()
    };
    tree.layout(&container).unwrap();
    // the box of the inner div: under the synthetic root, then div#1
    let outer = &tree.children[0];
    let inner = &outer.children[0];
    assert_eq!(inner.dimensions.boundingRect.y, 20);
    assert_eq!(inner.dimensions.boundingRect.height, 100);
}

#[test]
fn pipeline_reports_parse_errors() {
    assert!(matches!(
        parse_to_layout("<div></div>", "div { margin: 0px; }"),
        Err(EngineError::Parse(ParseError::UnknownProperty))
    ));
}

#[test]
fn pipeline_reports_hidden_root() {
    assert!(matches!(
        parse_to_layout("<div></div>", "html { display: none; }"),
        Err(EngineError::Layout(LayoutError::HiddenRoot))
    ));
}

#[test]
fn parse_number_bounds() {
    // the largest length that fits, and the first that does not
    let ok = CSSParser::new("div { width: 4294967295px; }").parse().unwrap();
    assert!(ok.to_css_string().contains("width: 4294967295px;"));
    assert!(matches!(
        CSSParser::new("div { width: 4294967296px; }").parse(),
        Err(ParseError::BadNumber)
    ));
}

#[test]
fn minify_strips_all_unicode_whitespace() {
    // vertical tab, no-break space, em space: all whitespace
    assert_eq!(minify("a\u{0B}b"), "ab");
    assert_eq!(minify("a\u{A0}b\u{2003}c"), "abc");
    assert_eq!(minify(&minify(" a b ")), minify(" a b "));
}
