use chrusty::cssom::{
    new_css_declaration, new_css_rule, new_css_selector, CSSProperty, CSSValue, Stylesheet, Unit,
};
use chrusty::dom::{new_element, AttrMap, TagType};
use chrusty::layout::{
    generate_layout_tree, BoxType, Dimensions, LayoutBox, LayoutError, Rect,
};
use chrusty::style::generate_styled_node;

fn block_box(node: chrusty::style::StyledNode) -> LayoutBox {
    LayoutBox {
        dimensions: Dimensions::default(),
        box_type: BoxType::Block(node),
        children: vec![],
    }
}

#[test]
fn create_layout_box() {
    let node = new_element(TagType::Div, AttrMap::new(), vec![]);
    let stylesheet = Stylesheet::default();
    let styled_node = generate_styled_node(&node, &stylesheet);
    let layout_box = block_box(styled_node);
    assert!(matches!(layout_box.box_type, BoxType::Block(_)));
}

#[test]
fn get_inline_container_creates_anonymous_box() {
    // an inline child under a block parent opens an anonymous container
    let node = new_element(
        TagType::Div,
        AttrMap::new(),
        vec![new_element(TagType::Span, AttrMap::new(), vec![])],
    );
    let stylesheet = Stylesheet::default();
    let styled_node = generate_styled_node(&node, &stylesheet);
    let layout_box = generate_layout_tree(&styled_node).unwrap();
    assert!(matches!(layout_box.children[0].box_type, BoxType::Anonymous));
}

#[test]
fn layout_block_sets_correct_dimensions() {
    let node = new_element(TagType::Div, AttrMap::new(), vec![]);
    let mut stylesheet = Stylesheet::new(vec![]);
    stylesheet.add_rule(new_css_rule(
        vec![new_css_selector(Some(TagType::Div), vec![], None)],
        vec![
            new_css_declaration(
                CSSProperty::Padding,
                CSSValue::Dimension(10, Unit::Px),
                false,
            ),
            new_css_declaration(
                CSSProperty::Width,
                CSSValue::Dimension(100, Unit::Px),
                false,
            ),
        ],
    ));
    let styled_node = generate_styled_node(&node, &stylesheet);
    let mut layout_box = block_box(styled_node);
    let container = Dimensions::default();
    layout_box.layout(&container).unwrap();
    assert_eq!(layout_box.dimensions.padding.left, 10);
    assert_eq!(layout_box.dimensions.padding.right, 10);
    assert_eq!(layout_box.dimensions.padding.bottom, 10);
    assert_eq!(layout_box.dimensions.padding.top, 10);
    assert_eq!(layout_box.dimensions.boundingRect.width, 100);
}

#[test]
fn build_layout_tree_constructs_correct_hierarchy() {
    let node = new_element(
        TagType::Div,
        AttrMap::new(),
        vec![new_element(TagType::Span, AttrMap::new(), vec![])],
    );
    let stylesheet = Stylesheet::default();
    let root_node = generate_styled_node(&node, &stylesheet);
    let layout_tree = generate_layout_tree(&root_node).unwrap();
    assert_eq!(layout_tree.children.len(), 1);
    assert!(matches!(
        layout_tree.children[0].box_type,
        BoxType::Anonymous
    ));
}

// Children displayed block, inline, inline, block group into exactly
// a block box, one anonymous box holding both inline boxes, and a
// block box.
#[test]
fn inline_run_grouped_under_one_anonymous_box() {
    let node = new_element(
        TagType::Div,
        AttrMap::new(),
        vec![
            new_element(TagType::Div, AttrMap::new(), vec![]),
            new_element(TagType::Span, AttrMap::new(), vec![]),
            new_element(TagType::Span, AttrMap::new(), vec![]),
            new_element(TagType::Div, AttrMap::new(), vec![]),
        ],
    );
    let stylesheet = Stylesheet::default();
    let styled = generate_styled_node(&node, &stylesheet);
    let tree = generate_layout_tree(&styled).unwrap();
    assert_eq!(tree.children.len(), 3);
    assert!(matches!(tree.children[0].box_type, BoxType::Block(_)));
    assert!(matches!(tree.children[1].box_type, BoxType::Anonymous));
    assert_eq!(tree.children[1].children.len(), 2);
    assert!(matches!(
        tree.children[1].children[0].box_type,
        BoxType::Inline(_)
    ));
    assert!(matches!(
        tree.children[1].children[1].box_type,
        BoxType::Inline(_)
    ));
    assert!(matches!(tree.children[2].box_type, BoxType::Block(_)));
}

// A child with computed display none contributes no box at all.
#[test]
fn hidden_child_contributes_no_box() {
    let node = new_element(
        TagType::Div,
        AttrMap::new(),
        vec![
            new_element(TagType::P, AttrMap::new(), vec![]),
            new_element(TagType::Div, AttrMap::new(), vec![]),
        ],
    );
    let mut stylesheet = Stylesheet::new(vec![]);
    stylesheet.add_rule(new_css_rule(
        vec![new_css_selector(Some(TagType::P), vec![], None)],
        vec![new_css_declaration(
            CSSProperty::Display,
            CSSValue::Keyword("none".to_string()),
            false,
        )],
    ));
    let styled = generate_styled_node(&node, &stylesheet);
    let tree = generate_layout_tree(&styled).unwrap();
    assert_eq!(tree.children.len(), 1);
    assert!(matches!(tree.children[0].box_type, BoxType::Block(_)));
}

// A hidden root builds nothing.
#[test]
fn hidden_root_is_refused() {
    let node = new_element(TagType::Div, AttrMap::new(), vec![]);
    let mut stylesheet = Stylesheet::new(vec![]);
    stylesheet.add_rule(new_css_rule(
        vec![new_css_selector(Some(TagType::Div), vec![], None)],
        vec![new_css_declaration(
            CSSProperty::Display,
            CSSValue::Keyword("none".to_string()),
            false,
        )],
    ));
    let styled = generate_styled_node(&node, &stylesheet);
    assert!(matches!(
        generate_layout_tree(&styled),
        Err(LayoutError::HiddenRoot)
    ));
}

// Box model arithmetic: container width 800, padding 10px, width
// 100px.
#[test]
fn box_model_arithmetic() {
    let node = new_element(TagType::Div, AttrMap::new(), vec![]);
    let mut stylesheet = Stylesheet::new(vec![]);
    stylesheet.add_rule(new_css_rule(
        vec![new_css_selector(Some(TagType::Div), vec![], None)],
        vec![
            new_css_declaration(
                CSSProperty::Padding,
                CSSValue::Dimension(10, Unit::Px),
                false,
            ),
            new_css_declaration(
                CSSProperty::Width,
                CSSValue::Dimension(100, Unit::Px),
                false,
            ),
        ],
    ));
    let styled = generate_styled_node(&node, &stylesheet);
    let mut layout_box = block_box(styled);
    let container = Dimensions {
        boundingRect: Rect {
            x: 0,
            y: 0,
            width: 800,
            height: 600,
        },
        ..Dimensions::default()
    };
    layout_box.layout(&container).unwrap();
    assert_eq!(layout_box.dimensions.padding.left, 10);
    assert_eq!(layout_box.dimensions.padding.right, 10);
    assert_eq!(layout_box.dimensions.boundingRect.width, 100);
    assert_eq!(layout_box.dimensions.content.width, 80);
}

// Stacking: siblings of heights 50 and 30 sit at y 0 and 50 and give
// the parent content height 80.
#[test]
fn blocks_stack_vertically() {
    let child = |h: &str| {
        new_css_rule(
            vec![new_css_selector(None, vec![h.to_string()], None)],
            vec![new_css_declaration(
                CSSProperty::Height,
                CSSValue::Dimension(if h == "tall" { 50 } else { 30 }, Unit::Px),
                false,
            )],
        )
    };
    let mut stylesheet = Stylesheet::new(vec![]);
    stylesheet.add_rule(child("tall"));
    stylesheet.add_rule(child("short"));
    let mk = |class: &str| {
        let mut attrs = AttrMap::new();
        attrs.insert("class".to_string(), class.to_string());
        new_element(TagType::Div, attrs, vec![])
    };
    let node = new_element(
        TagType::Div,
        AttrMap::new(),
        vec![mk("tall"), mk("short")],
    );
    let styled = generate_styled_node(&node, &stylesheet);
    let tree = generate_layout_tree(&styled).unwrap();
    let mut root = tree;
    let container = Dimensions {
        boundingRect: Rect {
            x: 0,
            y: 0,
            width: 800,
            height: 600,
        },
        ..Dimensions::default()
    };
    root.layout(&container).unwrap();
    assert_eq!(root.children[0].dimensions.boundingRect.y, 0);
    assert_eq!(root.children[0].dimensions.boundingRect.height, 50);
    assert_eq!(root.children[1].dimensions.boundingRect.y, 50);
    assert_eq!(root.children[1].dimensions.boundingRect.height, 30);
    assert_eq!(root.dimensions.content.height, 80);
    assert_eq!(root.dimensions.boundingRect.height, 80);
}

// Laying out an inline or anonymous box is unsupported.
#[test]
fn inline_layout_unsupported() {
    let node = new_element(TagType::Span, AttrMap::new(), vec![]);
    let stylesheet = Stylesheet::default();
    let styled = generate_styled_node(&node, &stylesheet);
    let mut b = LayoutBox {
        dimensions: Dimensions::default(),
        box_type: BoxType::Inline(styled),
        children: vec![],
    };
    assert_eq!(
        b.layout(&Dimensions::default()),
        Err(LayoutError::UnsupportedBox)
    );
    let mut anon = LayoutBox {
        dimensions: Dimensions::default(),
        box_type: BoxType::Anonymous,
        children: vec![],
    };
    assert_eq!(
        anon.layout(&Dimensions::default()),
        Err(LayoutError::UnsupportedBox)
    );
}

// A keyword padding cannot size a box.
#[test]
fn keyword_padding_is_refused() {
    let node = new_element(TagType::Div, AttrMap::new(), vec![]);
    let mut stylesheet = Stylesheet::new(vec![]);
    stylesheet.add_rule(new_css_rule(
        vec![new_css_selector(Some(TagType::Div), vec![], None)],
        vec![new_css_declaration(
            CSSProperty::Padding,
            CSSValue::Keyword("auto".to_string()),
            false,
        )],
    ));
    let styled = generate_styled_node(&node, &stylesheet);
    let mut b = block_box(styled);
    assert_eq!(
        b.layout(&Dimensions::default()),
        Err(LayoutError::BadPadding)
    );
}

// Padding wider than the box underflows the content width.
#[test]
fn padding_overflow_is_refused() {
    let node = new_element(TagType::Div, AttrMap::new(), vec![]);
    let mut stylesheet = Stylesheet::new(vec![]);
    stylesheet.add_rule(new_css_rule(
        vec![new_css_selector(Some(TagType::Div), vec![], None)],
        vec![
            new_css_declaration(
                CSSProperty::Padding,
                CSSValue::Dimension(60, Unit::Px),
                false,
            ),
            new_css_declaration(
                CSSProperty::Width,
                CSSValue::Dimension(100, Unit::Px),
                false,
            ),
        ],
    ));
    let styled = generate_styled_node(&node, &stylesheet);
    let mut b = block_box(styled);
    assert_eq!(
        b.layout(&Dimensions::default()),
        Err(LayoutError::Overflow)
    );
}
