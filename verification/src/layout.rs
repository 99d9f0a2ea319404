//! The layout engine: turns a styled tree into a box tree, grouping
//! runs of inline children under anonymous blocks, then computes block
//! geometry top-down (width, position) and bottom-up (children,
//! height) against a containing block.
//!
//! What cannot be given geometry — a non-length padding, layout of an
//! inline or anonymous box, a hidden root — is surfaced as a typed
//! error, as is any arithmetic that leaves `u32`: a box tree never
//! carries silently wrong geometry.
use vstd::prelude::*;

use crate::cssom::{CSSProperty, CSSValue, ValueV};
use crate::style::{computed_display, computed_value, Display, StyledNode, StyledV};

verus! {

#[derive(Debug, Clone, Copy, PartialEq, Eq, Structural)]
pub struct EdgeSizes {
    pub left: u32,
    pub right: u32,
    pub top: u32,
    pub bottom: u32,
}

#[derive(Debug, Clone, Copy, PartialEq, Eq, Structural)]
pub struct Rect {
    pub x: u32,
    pub y: u32,
    pub width: u32,
    pub height: u32,
}

#[allow(non_snake_case)]
#[derive(Debug, Clone, Copy, PartialEq, Eq, Structural)]
pub struct Dimensions {
    pub boundingRect: Rect,
    pub padding: EdgeSizes,
    pub content: Rect,
}

pub open spec fn spec_zero_rect() -> Rect {
    Rect { x: 0, y: 0, width: 0, height: 0 }
}

pub open spec fn spec_zero_dims() -> Dimensions {
    Dimensions {
        boundingRect: spec_zero_rect(),
        padding: EdgeSizes { left: 0, right: 0, top: 0, bottom: 0 },
        content: spec_zero_rect(),
    }
}

impl Default for Rect {
    fn default() -> (r: Rect)
        ensures
            r == spec_zero_rect(),
    {
        Rect { x: 0, y: 0, width: 0, height: 0 }
    }
}

impl Default for EdgeSizes {
    fn default() -> (r: EdgeSizes)
        ensures
            r == (EdgeSizes { left: 0, right: 0, top: 0, bottom: 0 }),
    {
        EdgeSizes { left: 0, right: 0, top: 0, bottom: 0 }
    }
}

impl Default for Dimensions {
    fn default() -> (r: Dimensions)
        ensures
            r == spec_zero_dims(),
    {
        Dimensions {
            boundingRect: Rect { x: 0, y: 0, width: 0, height: 0 },
            padding: EdgeSizes { left: 0, right: 0, top: 0, bottom: 0 },
            content: Rect { x: 0, y: 0, width: 0, height: 0 },
        }
    }
}

/// Why layout, or box-tree construction, refused its input.
#[derive(Debug, Clone, Copy, PartialEq, Eq, Structural)]
pub enum LayoutError {
    /// The styled root computes to a hidden display: nothing to build.
    HiddenRoot,
    /// Geometry was requested of an inline or anonymous box.
    UnsupportedBox,
    /// A computed `padding` was not a length.
    BadPadding,
    /// A coordinate or size left the `u32` range.
    Overflow,
}

#[derive(Debug)]
pub enum BoxType {
    Block(StyledNode),
    Inline(StyledNode),
    Anonymous,
}

#[derive(Debug)]
pub struct LayoutBox {
    pub dimensions: Dimensions,
    pub box_type: BoxType,
    pub children: Vec<LayoutBox>,
}

#[verifier::ext_equal]
pub enum BoxKindV {
    Block(StyledV),
    Inline(StyledV),
    Anonymous,
}

#[verifier::ext_equal]
pub struct BoxV {
    pub dims: Dimensions,
    pub kind: BoxKindV,
    pub children: Seq<BoxV>,
}

pub open spec fn box_view(b: &LayoutBox) -> BoxV
    decreases b,
{
    BoxV {
        dims: b.dimensions,
        kind: match &b.box_type {
            BoxType::Block(s) => BoxKindV::Block(s@),
            BoxType::Inline(s) => BoxKindV::Inline(s@),
            BoxType::Anonymous => BoxKindV::Anonymous,
        },
        children: Seq::new(
            b.children@.len(),
            |i: int|
                if 0 <= i < b.children@.len() {
                    box_view(&b.children@[i])
                } else {
                    arbitrary()
                },
        ),
    }
}

impl View for LayoutBox {
    type V = BoxV;

    open spec fn view(&self) -> BoxV {
        box_view(self)
    }
}

// --- box-tree construction ---

/// Appends the box of one inline child: straight into an inline root,
/// else into the trailing anonymous box, opening one when the last
/// child so far is not anonymous.
pub open spec fn add_inline_box(acc: Seq<BoxV>, root_inline: bool, cb: BoxV) -> Seq<BoxV> {
    if root_inline {
        acc.push(cb)
    } else if acc.len() > 0 && acc.last().kind is Anonymous {
        acc.drop_last().push(
            BoxV {
                dims: acc.last().dims,
                kind: acc.last().kind,
                children: acc.last().children.push(cb),
            },
        )
    } else {
        acc.push(BoxV { dims: spec_zero_dims(), kind: BoxKindV::Anonymous, children: seq![cb] })
    }
}

/// The box subtree of a styled node whose display is not hidden:
/// zeroed dimensions, the node's own kind, and its children grouped.
pub open spec fn spec_build(s: StyledV) -> BoxV
    decreases s,
{
    let kind = match computed_display(s) {
        Display::Block => BoxKindV::Block(s),
        Display::Inline => BoxKindV::Inline(s),
        Display::Hidden => arbitrary(),
    };
    BoxV {
        dims: spec_zero_dims(),
        kind,
        children: spec_build_children(s.children, computed_display(s) == Display::Inline),
    }
}

/// The grouped child boxes of a parent: block children append their
/// subtree, inline children join the trailing inline run, hidden
/// children contribute nothing.
pub open spec fn spec_build_children(cs: Seq<StyledV>, root_inline: bool) -> Seq<BoxV>
    decreases cs,
{
    if cs.len() == 0 {
        Seq::empty()
    } else {
        let acc = spec_build_children(cs.drop_last(), root_inline);
        match computed_display(cs.last()) {
            Display::Block => acc.push(spec_build(cs.last())),
            Display::Inline => add_inline_box(acc, root_inline, spec_build(cs.last())),
            Display::Hidden => acc,
        }
    }
}

#[verifier::loop_isolation(false)]
fn build_box(styled: &StyledNode) -> (r: LayoutBox)
    requires
        computed_display(styled@) != Display::Hidden,
    ensures
        r@ == spec_build(styled@),
    decreases styled@,
{
    let display = styled.get_computed_display();
    let root_inline = match display {
        Display::Inline => true,
        _ => false,
    };
    let mut children: Vec<LayoutBox> = Vec::new();
    let mut i: usize = 0;
    let ghost cs = styled@.children;
    while i < styled.children.len()
        invariant
            0 <= i <= styled.children.len(),
            cs.len() == styled.children@.len(),
            forall|k: int| 0 <= k < cs.len() ==> cs[k] == styled.children@[k]@,
            box_views(children@) =~= spec_build_children(cs.subrange(0, i as int), root_inline),
        decreases styled.children.len() - i,
    {
        proof {
            assert(decreases_to!(styled@ => styled@.children));
            assert(decreases_to!(styled@.children => styled@.children[i as int]));
            assert(cs.subrange(0, i as int + 1).drop_last() =~= cs.subrange(0, i as int));
            assert(cs.subrange(0, i as int + 1).last() == cs[i as int]);
        }
        let child = &styled.children[i];
        let ghost acc = spec_build_children(cs.subrange(0, i as int), root_inline);
        match child.get_computed_display() {
            Display::Block => {
                let cb = build_box(child);
                children.push(cb);
                proof {
                    assert(box_views(children@) =~~= acc.push(spec_build(cs[i as int])));
                }
            },
            Display::Inline => {
                let cb = build_box(child);
                let ghost cbv = cb@;
                if root_inline {
                    children.push(cb);
                    proof {
                        assert(box_views(children@) =~~= acc.push(cbv));
                    }
                } else {
                    let open_anonymous = match children.last() {
                        Some(lb) => match lb.box_type {
                            BoxType::Anonymous => false,
                            _ => true,
                        },
                        None => false,
                    };
                    let empty_so_far = children.len() == 0;
                    if empty_so_far || open_anonymous {
                        let fresh = LayoutBox {
                            dimensions: Dimensions::default(),
                            box_type: BoxType::Anonymous,
                            children: Vec::new(),
                        };
                        let mut fresh_box = fresh;
                        fresh_box.children.push(cb);
                        proof {
                            assert(fresh_box@.children =~= seq![cbv]);
                            assert(fresh_box@ =~= (BoxV {
                                dims: spec_zero_dims(),
                                kind: BoxKindV::Anonymous,
                                children: seq![cbv],
                            }));
                        }
                        children.push(fresh_box);
                        proof {
                            assert(box_views(children@) =~~= acc.push(
                                BoxV {
                                    dims: spec_zero_dims(),
                                    kind: BoxKindV::Anonymous,
                                    children: seq![cbv],
                                },
                            ));
                            assert(add_inline_box(acc, root_inline, cbv) =~~= acc.push(
                                BoxV {
                                    dims: spec_zero_dims(),
                                    kind: BoxKindV::Anonymous,
                                    children: seq![cbv],
                                },
                            ));
                        }
                    } else {
                        let mut last = match children.pop() {
                            Some(lb) => lb,
                            None => {
                                proof {
                                    assert(false);
                                }
                                LayoutBox {
                                    dimensions: Dimensions::default(),
                                    box_type: BoxType::Anonymous,
                                    children: Vec::new(),
                                }
                            },
                        };
                        let ghost lastv = last@;
                        let ghost old_kids = last.children@;
                        last.children.push(cb);
                        proof {
                            assert(last.children@ == old_kids.push(cb));
                            assert(last@.children.len() == old_kids.len() + 1);
                            assert(lastv.children.len() == old_kids.len());
                            assert forall|t: int| 0 <= t < old_kids.len() implies last@.children[t]
                                == lastv.children[t] by {
                                assert(last.children@[t] == old_kids[t]);
                            }
                            assert(last@.children[old_kids.len() as int] == cbv);
                            assert(last@.dims == lastv.dims);
                            assert(last@.kind == lastv.kind);
                            assert(last@.children =~= lastv.children.push(cbv));
                        }
                        proof {
                            assert(last@ =~= (BoxV {
                                dims: lastv.dims,
                                kind: lastv.kind,
                                children: lastv.children.push(cbv),
                            }));
                        }
                        children.push(last);
                        proof {
                            assert(lastv == acc.last());
                            assert(box_views(children@) =~~= add_inline_box(acc, root_inline, cbv));
                        }
                    }
                }
            },
            Display::Hidden => {},
        }
        i = i + 1;
    }
    proof {
        assert(cs.subrange(0, cs.len() as int) =~= cs);
    }
    let kind = match display {
        Display::Block => BoxType::Block(styled.duplicate()),
        Display::Inline => BoxType::Inline(styled.duplicate()),
        Display::Hidden => BoxType::Anonymous,
    };
    let r = LayoutBox { dimensions: Dimensions::default(), box_type: kind, children };
    proof {
        assert(r@.children =~~= box_views(r.children@));
        assert(r@ =~~= spec_build(styled@));
    }
    r
}

/// The views of a vector of boxes, in order.
pub open spec fn box_views(v: Seq<LayoutBox>) -> Seq<BoxV> {
    Seq::new(v.len(), |i: int| v[i]@)
}

/// Builds the box tree of a styled tree. The root itself must render:
/// a hidden root is refused.
pub fn generate_layout_tree(styled_node: &StyledNode) -> (r: Result<LayoutBox, LayoutError>)
    ensures
        match r {
            Ok(b) => computed_display(styled_node@) != Display::Hidden && b@ == spec_build(
                styled_node@,
            ),
            Err(e) => e == LayoutError::HiddenRoot && computed_display(styled_node@)
                == Display::Hidden,
        },
{
    match styled_node.get_computed_display() {
        Display::Hidden => Err(LayoutError::HiddenRoot),
        _ => Ok(build_box(styled_node)),
    }
}


// --- geometry ---

pub open spec fn with_content_height(d: Dimensions, h: u32) -> Dimensions {
    Dimensions {
        boundingRect: d.boundingRect,
        padding: d.padding,
        content: Rect { x: d.content.x, y: d.content.y, width: d.content.width, height: h },
    }
}

/// Width phase: padding must be a length; the box width is the
/// computed `width` length, else the container's content width; the
/// content width subtracts both side paddings.
pub open spec fn spec_width_phase(s: StyledV, d: Dimensions, c: Dimensions) -> Result<
    Dimensions,
    LayoutError,
> {
    match computed_value(s, CSSProperty::Padding) {
        ValueV::Dimension(pad, _) => {
            let w: int = match computed_value(s, CSSProperty::Width) {
                ValueV::Dimension(wv, _) => wv as int,
                _ => c.boundingRect.width - c.padding.left - c.padding.right,
            };
            if w < 0 || w > u32::MAX || w - pad - pad < 0 {
                Err(LayoutError::Overflow)
            } else {
                Ok(
                    Dimensions {
                        boundingRect: Rect {
                            x: d.boundingRect.x,
                            y: d.boundingRect.y,
                            width: w as u32,
                            height: d.boundingRect.height,
                        },
                        padding: EdgeSizes {
                            left: pad,
                            right: pad,
                            top: d.padding.top,
                            bottom: d.padding.bottom,
                        },
                        content: Rect {
                            x: d.content.x,
                            y: d.content.y,
                            width: (w - pad - pad) as u32,
                            height: d.content.height,
                        },
                    },
                )
            }
        },
        _ => Err(LayoutError::BadPadding),
    }
}

/// Position phase: top and bottom padding take the same length, and
/// the box sits at the container's content origin, below the content
/// laid out so far.
pub open spec fn spec_position_phase(s: StyledV, d: Dimensions, c: Dimensions) -> Result<
    Dimensions,
    LayoutError,
> {
    match computed_value(s, CSSProperty::Padding) {
        ValueV::Dimension(pad, _) => {
            let x: int = c.boundingRect.x + c.padding.left;
            let y: int = c.boundingRect.y + c.padding.top + c.content.height;
            if x > u32::MAX || y > u32::MAX {
                Err(LayoutError::Overflow)
            } else {
                Ok(
                    Dimensions {
                        boundingRect: Rect {
                            x: x as u32,
                            y: y as u32,
                            width: d.boundingRect.width,
                            height: d.boundingRect.height,
                        },
                        padding: EdgeSizes {
                            left: d.padding.left,
                            right: d.padding.right,
                            top: pad,
                            bottom: pad,
                        },
                        content: d.content,
                    },
                )
            }
        },
        _ => Err(LayoutError::BadPadding),
    }
}

/// Height phase: the computed `height` length wins; otherwise the box
/// shrinks to its accumulated content height plus vertical padding.
pub open spec fn spec_height_phase(s: StyledV, d: Dimensions) -> Result<Dimensions, LayoutError> {
    let h: int = match computed_value(s, CSSProperty::Height) {
        ValueV::Dimension(hv, _) => hv as int,
        _ => d.padding.top + d.content.height + d.padding.bottom,
    };
    if h > u32::MAX {
        Err(LayoutError::Overflow)
    } else {
        Ok(
            Dimensions {
                boundingRect: Rect {
                    x: d.boundingRect.x,
                    y: d.boundingRect.y,
                    width: d.boundingRect.width,
                    height: h as u32,
                },
                padding: d.padding,
                content: d.content,
            },
        )
    }
}

/// Children phase: each child is laid out against this box's own
/// dimensions as they stand, and its bounding height joins the running
/// content height, in child order.
pub open spec fn spec_layout_children(cs: Seq<BoxV>, d: Dimensions) -> Result<
    (Seq<BoxV>, Dimensions),
    LayoutError,
>
    decreases cs,
{
    if cs.len() == 0 {
        Ok((Seq::empty(), d))
    } else {
        match spec_layout_children(cs.drop_last(), d) {
            Ok((done, dcur)) => match spec_layout(cs.last(), dcur) {
                Ok(cb) => {
                    let nh: int = dcur.content.height + cb.dims.boundingRect.height;
                    if nh > u32::MAX {
                        Err(LayoutError::Overflow)
                    } else {
                        Ok((done.push(cb), with_content_height(dcur, nh as u32)))
                    }
                },
                Err(e) => Err(e),
            },
            Err(e) => Err(e),
        }
    }
}

/// Block layout of one box against a containing block: width, then
/// position, then children, then height. Only block boxes have
/// geometry; a hidden child never reaches here, and inline or
/// anonymous geometry is unsupported.
pub open spec fn spec_layout(b: BoxV, c: Dimensions) -> Result<BoxV, LayoutError>
    decreases b,
{
    match b.kind {
        BoxKindV::Block(style) => match spec_width_phase(style, b.dims, c) {
            Ok(d1) => match spec_position_phase(style, d1, c) {
                Ok(d2) => match spec_layout_children(b.children, d2) {
                    Ok((kids, d3)) => match spec_height_phase(style, d3) {
                        Ok(d4) => Ok(BoxV { dims: d4, kind: b.kind, children: kids }),
                        Err(e) => Err(e),
                    },
                    Err(e) => Err(e),
                },
                Err(e) => Err(e),
            },
            Err(e) => Err(e),
        },
        _ => Err(LayoutError::UnsupportedBox),
    }
}

proof fn lemma_layout_children_prefix_err(cs: Seq<BoxV>, d: Dimensions, j: int)
    requires
        0 <= j <= cs.len(),
        spec_layout_children(cs.subrange(0, j), d) is Err,
    ensures
        spec_layout_children(cs, d) == spec_layout_children(cs.subrange(0, j), d),
    decreases cs.len() - j,
{
    if j == cs.len() {
        assert(cs.subrange(0, j) =~= cs);
    } else {
        assert(cs.subrange(0, j + 1).drop_last() =~= cs.subrange(0, j));
        lemma_layout_children_prefix_err(cs, d, j + 1);
    }
}

fn layout_block_width(style: &StyledNode, dims: Dimensions, container: &Dimensions) -> (r: Result<
    Dimensions,
    LayoutError,
>)
    ensures
        r == spec_width_phase(style@, dims, *container),
{
    let pad: u32 = match style.get_computed_value(&CSSProperty::Padding) {
        Some(CSSValue::Dimension(p, _)) => p,
        _ => {
            return Err(LayoutError::BadPadding);
        },
    };
    let w: u32 = match style.get_computed_value(&CSSProperty::Width) {
        Some(CSSValue::Dimension(wv, _)) => wv,
        _ => {
            if container.padding.left > container.boundingRect.width {
                return Err(LayoutError::Overflow);
            }
            let a1 = container.boundingRect.width - container.padding.left;
            if container.padding.right > a1 {
                return Err(LayoutError::Overflow);
            }
            a1 - container.padding.right
        },
    };
    if pad > w {
        return Err(LayoutError::Overflow);
    }
    let c1 = w - pad;
    if pad > c1 {
        return Err(LayoutError::Overflow);
    }
    let content_w = c1 - pad;
    Ok(
        Dimensions {
            boundingRect: Rect {
                x: dims.boundingRect.x,
                y: dims.boundingRect.y,
                width: w,
                height: dims.boundingRect.height,
            },
            padding: EdgeSizes {
                left: pad,
                right: pad,
                top: dims.padding.top,
                bottom: dims.padding.bottom,
            },
            content: Rect {
                x: dims.content.x,
                y: dims.content.y,
                width: content_w,
                height: dims.content.height,
            },
        },
    )
}

fn layout_block_position(style: &StyledNode, dims: Dimensions, container: &Dimensions) -> (r:
    Result<Dimensions, LayoutError>)
    ensures
        r == spec_position_phase(style@, dims, *container),
{
    let pad: u32 = match style.get_computed_value(&CSSProperty::Padding) {
        Some(CSSValue::Dimension(p, _)) => p,
        _ => {
            return Err(LayoutError::BadPadding);
        },
    };
    if container.padding.left > u32::MAX - container.boundingRect.x {
        return Err(LayoutError::Overflow);
    }
    let x = container.boundingRect.x + container.padding.left;
    if container.padding.top > u32::MAX - container.boundingRect.y {
        return Err(LayoutError::Overflow);
    }
    let y1 = container.boundingRect.y + container.padding.top;
    if container.content.height > u32::MAX - y1 {
        return Err(LayoutError::Overflow);
    }
    let y = y1 + container.content.height;
    Ok(
        Dimensions {
            boundingRect: Rect {
                x,
                y,
                width: dims.boundingRect.width,
                height: dims.boundingRect.height,
            },
            padding: EdgeSizes {
                left: dims.padding.left,
                right: dims.padding.right,
                top: pad,
                bottom: pad,
            },
            content: dims.content,
        },
    )
}

fn layout_block_height(style: &StyledNode, dims: Dimensions) -> (r: Result<
    Dimensions,
    LayoutError,
>)
    ensures
        r == spec_height_phase(style@, dims),
{
    let h: u32 = match style.get_computed_value(&CSSProperty::Height) {
        Some(CSSValue::Dimension(hv, _)) => hv,
        _ => {
            if dims.content.height > u32::MAX - dims.padding.top {
                return Err(LayoutError::Overflow);
            }
            let h1 = dims.padding.top + dims.content.height;
            if dims.padding.bottom > u32::MAX - h1 {
                return Err(LayoutError::Overflow);
            }
            h1 + dims.padding.bottom
        },
    };
    Ok(
        Dimensions {
            boundingRect: Rect {
                x: dims.boundingRect.x,
                y: dims.boundingRect.y,
                width: dims.boundingRect.width,
                height: h,
            },
            padding: dims.padding,
            content: dims.content,
        },
    )
}

#[verifier::loop_isolation(false)]
fn layout_box(b: &LayoutBox, container: &Dimensions) -> (r: Result<LayoutBox, LayoutError>)
    ensures
        match r {
            Ok(nb) => spec_layout(b@, *container) == Ok::<BoxV, LayoutError>(nb@),
            Err(e) => spec_layout(b@, *container) == Err::<BoxV, LayoutError>(e),
        },
    decreases b@,
{
    let style: &StyledNode = match &b.box_type {
        BoxType::Block(s) => s,
        _ => {
            return Err(LayoutError::UnsupportedBox);
        },
    };
    let d1 = match layout_block_width(style, b.dimensions, container) {
        Ok(d) => d,
        Err(e) => {
            return Err(e);
        },
    };
    let d2 = match layout_block_position(style, d1, container) {
        Ok(d) => d,
        Err(e) => {
            return Err(e);
        },
    };
    let mut dims = d2;
    let mut new_children: Vec<LayoutBox> = Vec::new();
    let mut i: usize = 0;
    let ghost cs = b@.children;
    proof {
        assert(cs.subrange(0, 0) =~= Seq::<BoxV>::empty());
        assert(box_views(new_children@) =~= Seq::<BoxV>::empty());
    }
    while i < b.children.len()
        invariant
            0 <= i <= b.children.len(),
            cs.len() == b.children@.len(),
            forall|k: int| 0 <= k < cs.len() ==> cs[k] == b.children@[k]@,
            spec_layout_children(cs.subrange(0, i as int), d2) == Ok::<
                (Seq<BoxV>, Dimensions),
                LayoutError,
            >((box_views(new_children@), dims)),
        decreases b.children.len() - i,
    {
        proof {
            assert(decreases_to!(b@ => b@.children));
            assert(decreases_to!(b@.children => b@.children[i as int]));
            assert(cs.subrange(0, i as int + 1).drop_last() =~= cs.subrange(0, i as int));
            assert(cs.subrange(0, i as int + 1).last() == cs[i as int]);
        }
        let child = &b.children[i];
        match layout_box(child, &dims) {
            Ok(cb) => {
                let h = cb.dimensions.boundingRect.height;
                if dims.content.height > u32::MAX - h {
                    proof {
                        lemma_layout_children_prefix_err(cs, d2, i as int + 1);
                    }
                    return Err(LayoutError::Overflow);
                }
                let ghost old_views = box_views(new_children@);
                let ghost cbv = cb@;
                dims.content.height = dims.content.height + h;
                new_children.push(cb);
                proof {
                    assert(box_views(new_children@) =~~= old_views.push(cbv));
                }
            },
            Err(e) => {
                proof {
                    lemma_layout_children_prefix_err(cs, d2, i as int + 1);
                }
                return Err(e);
            },
        }
        i = i + 1;
    }
    proof {
        assert(cs.subrange(0, cs.len() as int) =~= cs);
    }
    let d4 = match layout_block_height(style, dims) {
        Ok(d) => d,
        Err(e) => {
            return Err(e);
        },
    };
    let nb = LayoutBox {
        dimensions: d4,
        box_type: BoxType::Block(style.duplicate()),
        children: new_children,
    };
    proof {
        assert(nb@.children =~~= box_views(nb.children@));
    }
    Ok(nb)
}

impl LayoutBox {
    /// Computes this box's geometry against the containing block's
    /// dimensions, in place. On an error the box is left unchanged:
    /// no partial geometry is ever published.
    pub fn layout(&mut self, container: &Dimensions) -> (r: Result<(), LayoutError>)
        ensures
            match r {
                Ok(()) => spec_layout(old(self)@, *container) == Ok::<BoxV, LayoutError>(
                    final(self)@,
                ),
                Err(e) => spec_layout(old(self)@, *container) == Err::<BoxV, LayoutError>(e)
                    && final(self)@ == old(self)@,
            },
    {
        match layout_box(self, container) {
            Ok(nb) => {
                *self = nb;
                Ok(())
            },
            Err(e) => Err(e),
        }
    }
}


// --- laws of box-tree construction ---

/// Inline grouping: under a block parent with children displayed
/// block, inline, inline, block, the built children are exactly a
/// block box, one anonymous box holding the two inline boxes, and a
/// block box, in that order.
pub proof fn lemma_inline_grouping(s: StyledV)
    requires
        computed_display(s) == Display::Block,
        s.children.len() == 4,
        computed_display(s.children[0]) == Display::Block,
        computed_display(s.children[1]) == Display::Inline,
        computed_display(s.children[2]) == Display::Inline,
        computed_display(s.children[3]) == Display::Block,
    ensures
        spec_build(s).children =~= seq![
            spec_build(s.children[0]),
            BoxV {
                dims: spec_zero_dims(),
                kind: BoxKindV::Anonymous,
                children: seq![spec_build(s.children[1]), spec_build(s.children[2])],
            },
            spec_build(s.children[3]),
        ],
{
    let cs = s.children;
    let p0 = cs.subrange(0, 0);
    let p1 = cs.subrange(0, 1);
    let p2 = cs.subrange(0, 2);
    let p3 = cs.subrange(0, 3);
    assert(p0 =~= Seq::<StyledV>::empty());
    assert(p1.drop_last() =~= p0);
    assert(p2.drop_last() =~= p1);
    assert(p3.drop_last() =~= p2);
    assert(cs.drop_last() =~= p3);
    assert(p1.last() == cs[0]);
    assert(p2.last() == cs[1]);
    assert(p3.last() == cs[2]);
    assert(cs.last() == cs[3]);
    let b0 = spec_build(cs[0]);
    let b1 = spec_build(cs[1]);
    let b2 = spec_build(cs[2]);
    let b3 = spec_build(cs[3]);
    assert(spec_build_children(p0, false) =~= Seq::<BoxV>::empty());
    assert(spec_build_children(p1, false) =~= seq![b0]);
    let anon1 = BoxV { dims: spec_zero_dims(), kind: BoxKindV::Anonymous, children: seq![b1] };
    assert(spec_build_children(p2, false) =~= seq![b0, anon1]);
    let anon2 = BoxV {
        dims: spec_zero_dims(),
        kind: BoxKindV::Anonymous,
        children: seq![b1, b2],
    };
    assert(seq![b0, anon1].drop_last() =~= seq![b0]);
    assert(add_inline_box(seq![b0, anon1], false, b2) =~= seq![b0, anon2]) by {
        assert(seq![b0, anon1].last() == anon1);
        assert(anon1.children.push(b2) =~= seq![b1, b2]);
    }
    assert(spec_build_children(p3, false) =~= seq![b0, anon2]);
    assert(spec_build_children(cs, false) =~= seq![b0, anon2, b3]);
}

/// Hidden children are excluded: a child whose computed display is
/// hidden contributes no box, so building with or without it gives the
/// same children.
pub proof fn lemma_hidden_child_excluded(cs: Seq<StyledV>, root_inline: bool, k: int)
    requires
        0 <= k < cs.len(),
        computed_display(cs[k]) == Display::Hidden,
    ensures
        spec_build_children(cs, root_inline) == spec_build_children(cs.remove(k), root_inline),
    decreases cs.len(),
{
    if k == cs.len() - 1 {
        assert(cs.remove(k) =~= cs.drop_last());
    } else {
        assert(cs.remove(k).drop_last() =~= cs.drop_last().remove(k));
        assert(cs.remove(k).last() == cs.last());
        lemma_hidden_child_excluded(cs.drop_last(), root_inline, k);
    }
}


// --- laws of geometry ---

/// The summed bounding heights of the first `k` boxes.
pub open spec fn heights_sum(kids: Seq<BoxV>, k: int) -> int
    decreases k,
{
    if k <= 0 {
        0
    } else {
        heights_sum(kids, k - 1) + kids[k - 1].dims.boundingRect.height
    }
}

/// The children phase only accumulates content height: every other
/// part of the dimensions passes through.
proof fn lemma_children_keep_frame(cs: Seq<BoxV>, d: Dimensions)
    requires
        spec_layout_children(cs, d) is Ok,
    ensures
        spec_layout_children(cs, d)->Ok_0.1 == with_content_height(
            d,
            spec_layout_children(cs, d)->Ok_0.1.content.height,
        ),
    decreases cs.len(),
{
    if cs.len() > 0 {
        lemma_children_keep_frame(cs.drop_last(), d);
    }
}

/// A laid-out block sits at its container's content origin, below the
/// content laid out there so far.
pub proof fn lemma_layout_box_position(b: BoxV, c: Dimensions)
    requires
        spec_layout(b, c) is Ok,
    ensures
        spec_layout(b, c)->Ok_0.dims.boundingRect.x == c.boundingRect.x + c.padding.left,
        spec_layout(b, c)->Ok_0.dims.boundingRect.y == c.boundingRect.y + c.padding.top
            + c.content.height,
{
    let style = b.kind->Block_0;
    let d1 = spec_width_phase(style, b.dims, c)->Ok_0;
    let d2 = spec_position_phase(style, d1, c)->Ok_0;
    lemma_children_keep_frame(b.children, d2);
}

/// Stacking: under one container, each laid-out child's top sits at
/// the container's content origin plus the heights of all its earlier
/// siblings, and the container's content height grows by them all.
pub proof fn lemma_children_stack(cs: Seq<BoxV>, d: Dimensions)
    requires
        spec_layout_children(cs, d) is Ok,
    ensures
        ({
            let (kids, d2) = spec_layout_children(cs, d)->Ok_0;
            &&& kids.len() == cs.len()
            &&& d2.content.height == d.content.height + heights_sum(kids, kids.len() as int)
            &&& forall|k: int|
                0 <= k < kids.len() ==> (#[trigger] kids[k]).dims.boundingRect.y
                    == d.boundingRect.y + d.padding.top + d.content.height + heights_sum(kids, k)
        }),
    decreases cs.len(),
{
    if cs.len() > 0 {
        lemma_children_stack(cs.drop_last(), d);
        let (done, dcur) = spec_layout_children(cs.drop_last(), d)->Ok_0;
        lemma_children_keep_frame(cs.drop_last(), d);
        lemma_layout_box_position(cs.last(), dcur);
        let (kids, d2) = spec_layout_children(cs, d)->Ok_0;
        assert forall|k: int| 0 <= k < kids.len() implies (#[trigger] kids[k]).dims.boundingRect.y
            == d.boundingRect.y + d.padding.top + d.content.height + heights_sum(kids, k) by {
            assert forall|t: int| 0 <= t <= done.len() implies heights_sum(kids, t) == heights_sum(
                done,
                t,
            ) by {
                lemma_heights_sum_push(done, spec_layout(cs.last(), dcur)->Ok_0, t);
            }
            if k < kids.len() - 1 {
                assert(kids[k] == done[k]);
            }
        }
        assert(heights_sum(kids, kids.len() as int) == heights_sum(done, done.len() as int)
            + kids.last().dims.boundingRect.height) by {
            lemma_heights_sum_push(done, spec_layout(cs.last(), dcur)->Ok_0, done.len() as int);
        }
    }
}

proof fn lemma_heights_sum_push(done: Seq<BoxV>, cb: BoxV, t: int)
    requires
        0 <= t <= done.len(),
    ensures
        heights_sum(done.push(cb), t) == heights_sum(done, t),
    decreases t,
{
    if t > 0 {
        lemma_heights_sum_push(done, cb, t - 1);
    }
}

} // verus!
